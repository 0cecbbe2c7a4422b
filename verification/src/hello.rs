//! The parsed ClientHello: bounded sequences of raw handshake fields,
//! together with its mathematical model.

use vstd::prelude::*;

verus! {

/// Capacity of the cipher suite list.
pub const MAX_CIPHER_SUITES: usize = 128;

/// Capacity of the extension type list.
pub const MAX_EXTENSIONS: usize = 128;

/// Capacity of the signature algorithm list.
pub const MAX_SIGNATURE_ALGORITHMS: usize = 30;

/// Capacity of the ALPN protocol list.
pub const MAX_ALPN_PROTOCOLS: usize = 4;

/// Mathematical model of a parsed ClientHello.
#[verifier::ext_equal]
pub ghost struct HelloModel {
    pub tls_version: u16,
    pub sni: Option<Seq<u8>>,
    pub cipher_suites: Seq<u16>,
    pub extensions: Seq<u16>,
    pub signature_algorithms: Seq<u16>,
    pub alpn: Seq<Seq<u8>>,
}

impl HelloModel {
    /// Every sequence respects its declared capacity.
    pub open spec fn bounded(self) -> bool {
        &&& self.cipher_suites.len() <= MAX_CIPHER_SUITES
        &&& self.extensions.len() <= MAX_EXTENSIONS
        &&& self.signature_algorithms.len() <= MAX_SIGNATURE_ALGORITHMS
        &&& self.alpn.len() <= MAX_ALPN_PROTOCOLS
    }
}

/// A decoded TLS ClientHello.
///
/// Field contents are owned copies of the corresponding on-wire fields;
/// every list keeps its on-wire order.
#[derive(Debug, PartialEq, Eq, Clone)]
pub struct ClientHello {
    /// Raw version from the handshake, or the value selected through the
    /// supported-versions extension when one is present.
    pub tls_version: u16,
    /// Host name from the server name indication extension, absent when the
    /// extension is missing or malformed.
    pub sni: Option<Vec<u8>>,
    /// Cipher suite identifiers, in on-wire order.
    pub cipher_suites: Vec<u16>,
    /// Extension type identifiers, in on-wire order, SNI and ALPN included.
    pub extensions: Vec<u16>,
    /// Scheme identifiers from the signature algorithms extension, else empty.
    pub signature_algorithms: Vec<u16>,
    /// Protocol names from the ALPN extension, in on-wire order.
    pub alpn: Vec<Vec<u8>>,
}

impl View for ClientHello {
    type V = HelloModel;

    open spec fn view(&self) -> HelloModel {
        HelloModel {
            tls_version: self.tls_version,
            sni: match self.sni {
                Some(ref s) => Some(s@),
                None => None,
            },
            cipher_suites: self.cipher_suites@,
            extensions: self.extensions@,
            signature_algorithms: self.signature_algorithms@,
            alpn: Seq::new(self.alpn@.len(), |i: int| self.alpn@[i]@),
        }
    }
}

impl ClientHello {
    /// The invariant every parsed value satisfies.
    pub open spec fn well_formed(&self) -> bool {
        self@.bounded()
    }
}

} // verus!
