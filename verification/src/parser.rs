//! Bounded-memory parser for the TLS ClientHello record.
//!
//! The grammar is stated as specification functions over the raw byte
//! sequence; the executable parser is proved to return exactly what those
//! functions describe, for every input. It never panics: arbitrary bytes
//! either parse or yield a structured error.

use vstd::prelude::*;

use crate::hello::{
    ClientHello, HelloModel, MAX_ALPN_PROTOCOLS, MAX_CIPHER_SUITES, MAX_EXTENSIONS,
    MAX_SIGNATURE_ALGORITHMS,
};
use crate::{be16, spec_be16};

verus! {

/// Why an input failed to parse. `Incomplete` is distinct from `Malformed`:
/// the record announced more bytes than were available, and a caller could
/// in principle wait for more; `Oversized` marks input that is valid TLS
/// but exceeds a declared capacity.
#[derive(Debug, Clone, Copy, PartialEq, Eq, Structural)]
pub enum ParseError {
    /// The record is not a TLS handshake record.
    NotHandshake,
    /// The handshake message is not a ClientHello.
    NotClientHello,
    /// The declared record length exceeds the bytes available.
    Incomplete,
    /// A declared length runs past its enclosing structure.
    Malformed,
    /// A list exceeds the declared capacity of its bounded sequence.
    Oversized,
}

/// State accumulated while walking the extension block.
#[verifier::ext_equal]
pub ghost struct ExtAcc {
    pub sni: Option<Seq<u8>>,
    pub extensions: Seq<u16>,
    pub signature_algorithms: Seq<u16>,
    pub alpn: Seq<Seq<u8>>,
    pub tls_version: u16,
}

/// Whether the bytes form valid UTF-8; see [`is_utf8`].
pub uninterp spec fn utf8_valid(bytes: Seq<u8>) -> bool;

/// Relies on core::str::from_utf8: whether a byte sequence is valid UTF-8
/// is a pure function of the bytes.
#[verifier::external_body]
fn is_utf8(bytes: &[u8]) -> (r: bool)
    ensures
        r == utf8_valid(bytes@),
{
    core::str::from_utf8(bytes).is_ok()
}

/// A 24-bit big-endian length.
pub open spec fn spec_be24(b0: u8, b1: u8, b2: u8) -> int {
    b0 as int * 65536 + b1 as int * 256 + b2 as int
}

/// Host name selected from the entries of one SNI extension payload:
/// the first entry of type host-name whose name is valid UTF-8.
pub open spec fn spec_sni_entries(b: Seq<u8>, j: int, end: int) -> Option<Seq<u8>>
    decreases end - j,
{
    if j + 3 > end {
        None
    } else {
        let typ = b[j];
        let nl = spec_be16(b[j + 1], b[j + 2]) as int;
        if j + 3 + nl > end {
            None
        } else if typ == 0 && utf8_valid(b.subrange(j + 3, j + 3 + nl)) {
            Some(b.subrange(j + 3, j + 3 + nl))
        } else {
            spec_sni_entries(b, j + 3 + nl, end)
        }
    }
}

/// Host name from an SNI extension payload; `None` when the payload is
/// malformed or holds no usable entry.
pub open spec fn spec_parse_sni(b: Seq<u8>, start: int, end: int) -> Option<Seq<u8>> {
    if start + 2 > end {
        None
    } else {
        let ll = spec_be16(b[start], b[start + 1]) as int;
        if start + 2 + ll > end {
            None
        } else {
            spec_sni_entries(b, start + 2, start + 2 + ll)
        }
    }
}

/// Protocol names of one ALPN extension payload, appended in order.
pub open spec fn spec_alpn_entries(b: Seq<u8>, j: int, end: int, acc: Seq<Seq<u8>>) -> Result<
    Seq<Seq<u8>>,
    ParseError,
>
    decreases end - j,
{
    if j >= end {
        Ok(acc)
    } else {
        let pl = b[j] as int;
        if j + 1 + pl > end {
            Err(ParseError::Malformed)
        } else if acc.len() >= MAX_ALPN_PROTOCOLS {
            Err(ParseError::Oversized)
        } else {
            spec_alpn_entries(b, j + 1 + pl, end, acc.push(b.subrange(j + 1, j + 1 + pl)))
        }
    }
}

/// The ALPN extension payload: a 16-bit list length, then length-prefixed
/// protocol names.
pub open spec fn spec_parse_alpn(b: Seq<u8>, start: int, end: int, acc: Seq<Seq<u8>>) -> Result<
    Seq<Seq<u8>>,
    ParseError,
> {
    if start + 2 > end {
        Err(ParseError::Malformed)
    } else {
        let ll = spec_be16(b[start], b[start + 1]) as int;
        if start + 2 + ll > end {
            Err(ParseError::Malformed)
        } else {
            spec_alpn_entries(b, start + 2, start + 2 + ll, acc)
        }
    }
}

/// The signature algorithms extension payload: a 16-bit list length, then
/// 16-bit scheme identifiers.
pub open spec fn spec_parse_sigalgs(b: Seq<u8>, start: int, end: int) -> Result<
    Seq<u16>,
    ParseError,
> {
    if start + 2 > end {
        Err(ParseError::Malformed)
    } else {
        let ll = spec_be16(b[start], b[start + 1]) as int;
        if start + 2 + ll > end {
            Err(ParseError::Malformed)
        } else if ll % 2 != 0 {
            Err(ParseError::Malformed)
        } else if ll / 2 > MAX_SIGNATURE_ALGORITHMS as int {
            Err(ParseError::Oversized)
        } else {
            Ok(
                Seq::new(
                    (ll / 2) as nat,
                    |k: int| spec_be16(b[start + 2 + 2 * k], b[start + 3 + 2 * k]),
                ),
            )
        }
    }
}

/// Greatest version offered in a supported-versions extension payload;
/// `None` when the payload is malformed, in which case the version read
/// from the handshake stays.
pub open spec fn spec_sv_max(b: Seq<u8>, j: int, end: int, cur: u16) -> u16
    decreases end - j,
{
    if j + 2 > end {
        cur
    } else {
        let v = spec_be16(b[j], b[j + 1]);
        spec_sv_max(b, j + 2, end, if v > cur {
            v
        } else {
            cur
        })
    }
}

/// The supported-versions extension payload: an 8-bit list length, then
/// 16-bit version values.
pub open spec fn spec_parse_supported_versions(b: Seq<u8>, start: int, end: int) -> Option<u16> {
    if start + 1 > end {
        None
    } else {
        let ll = b[start] as int;
        if start + 1 + ll > end || ll == 0 || ll % 2 != 0 {
            None
        } else {
            Some(spec_sv_max(b, start + 1, start + 1 + ll, 0))
        }
    }
}

/// Effect of one extension's payload on the accumulated state.
pub open spec fn spec_dispatch_ext(b: Seq<u8>, t: u16, start: int, end: int, acc: ExtAcc) -> Result<
    ExtAcc,
    ParseError,
> {
    if t == 0x0000 {
        Ok(
            ExtAcc {
                sni: if acc.sni is Some {
                    acc.sni
                } else {
                    spec_parse_sni(b, start, end)
                },
                ..acc
            },
        )
    } else if t == 0x0010 {
        match spec_parse_alpn(b, start, end, acc.alpn) {
            Ok(v) => Ok(ExtAcc { alpn: v, ..acc }),
            Err(e) => Err(e),
        }
    } else if t == 0x000d {
        match spec_parse_sigalgs(b, start, end) {
            Ok(v) => Ok(ExtAcc { signature_algorithms: v, ..acc }),
            Err(e) => Err(e),
        }
    } else if t == 0x002b {
        match spec_parse_supported_versions(b, start, end) {
            Some(v) => Ok(ExtAcc { tls_version: v, ..acc }),
            None => Ok(acc),
        }
    } else {
        Ok(acc)
    }
}

/// Walks the extension block from `i` to `end`: each extension is a 16-bit
/// type, a 16-bit length and a payload; every type encountered is appended
/// to the extension list.
pub open spec fn spec_parse_exts(b: Seq<u8>, i: int, end: int, acc: ExtAcc) -> Result<
    ExtAcc,
    ParseError,
>
    decreases end - i,
{
    if i == end {
        Ok(acc)
    } else if i + 4 > end {
        Err(ParseError::Malformed)
    } else {
        let t = spec_be16(b[i], b[i + 1]);
        let l = spec_be16(b[i + 2], b[i + 3]) as int;
        if i + 4 + l > end {
            Err(ParseError::Malformed)
        } else if acc.extensions.len() >= MAX_EXTENSIONS {
            Err(ParseError::Oversized)
        } else {
            let acc1 = ExtAcc { extensions: acc.extensions.push(t), ..acc };
            match spec_dispatch_ext(b, t, i + 4, i + 4 + l, acc1) {
                Ok(acc2) => spec_parse_exts(b, i + 4 + l, end, acc2),
                Err(e) => Err(e),
            }
        }
    }
}

/// Accumulator before any extension was seen.
pub open spec fn spec_init_acc(version: u16) -> ExtAcc {
    ExtAcc {
        sni: None,
        extensions: Seq::empty(),
        signature_algorithms: Seq::empty(),
        alpn: Seq::empty(),
        tls_version: version,
    }
}

/// The model a finished accumulator and cipher list describe.
pub open spec fn spec_model_of(ciphers: Seq<u16>, acc: ExtAcc) -> HelloModel {
    HelloModel {
        tls_version: acc.tls_version,
        sni: acc.sni,
        cipher_suites: ciphers,
        extensions: acc.extensions,
        signature_algorithms: acc.signature_algorithms,
        alpn: acc.alpn,
    }
}

/// ClientHello body: client version, 32-byte random, session identifier,
/// cipher suite list, compression methods, then the optional extension
/// block. `start` and `end` delimit the body inside the whole input.
pub open spec fn spec_parse_body(b: Seq<u8>, start: int, end: int) -> Result<
    HelloModel,
    ParseError,
> {
    if start + 34 > end {
        Err(ParseError::Malformed)
    } else {
        let version = spec_be16(b[start], b[start + 1]);
        let i1 = start + 34;
        if i1 + 1 > end {
            Err(ParseError::Malformed)
        } else {
            let i2 = i1 + 1 + b[i1] as int;
            if i2 + 2 > end {
                Err(ParseError::Malformed)
            } else {
                let cs_len = spec_be16(b[i2], b[i2 + 1]) as int;
                let cs_start = i2 + 2;
                if cs_start + cs_len > end {
                    Err(ParseError::Malformed)
                } else if cs_len % 2 != 0 {
                    Err(ParseError::Malformed)
                } else if cs_len / 2 > MAX_CIPHER_SUITES as int {
                    Err(ParseError::Oversized)
                } else {
                    let ciphers = Seq::new(
                        (cs_len / 2) as nat,
                        |k: int| spec_be16(b[cs_start + 2 * k], b[cs_start + 2 * k + 1]),
                    );
                    let i3 = cs_start + cs_len;
                    if i3 + 1 > end {
                        Err(ParseError::Malformed)
                    } else {
                        let i4 = i3 + 1 + b[i3] as int;
                        if i4 > end {
                            Err(ParseError::Malformed)
                        } else if i4 == end {
                            Ok(spec_model_of(ciphers, spec_init_acc(version)))
                        } else if i4 + 2 > end {
                            Err(ParseError::Malformed)
                        } else {
                            let ext_len = spec_be16(b[i4], b[i4 + 1]) as int;
                            let ext_start = i4 + 2;
                            if ext_start + ext_len > end {
                                Err(ParseError::Malformed)
                            } else {
                                match spec_parse_exts(
                                    b,
                                    ext_start,
                                    ext_start + ext_len,
                                    spec_init_acc(version),
                                ) {
                                    Ok(acc) => Ok(spec_model_of(ciphers, acc)),
                                    Err(e) => Err(e),
                                }
                            }
                        }
                    }
                }
            }
        }
    }
}

/// The whole input: a handshake record header, a ClientHello handshake
/// header, then the body. This is the reference the executable parser is
/// held to, for every byte sequence.
pub open spec fn spec_parse_client_hello(b: Seq<u8>) -> Result<HelloModel, ParseError> {
    if b.len() == 0 {
        Err(ParseError::Incomplete)
    } else if b[0] != 0x16 {
        Err(ParseError::NotHandshake)
    } else if b.len() < 5 {
        Err(ParseError::Incomplete)
    } else {
        let rec_len = spec_be16(b[3], b[4]) as int;
        if 5 + rec_len > b.len() {
            Err(ParseError::Incomplete)
        } else if rec_len < 1 {
            Err(ParseError::Malformed)
        } else if b[5] != 0x01 {
            Err(ParseError::NotClientHello)
        } else if rec_len < 4 {
            Err(ParseError::Malformed)
        } else {
            let hs_len = spec_be24(b[6], b[7], b[8]);
            if 9 + hs_len > 5 + rec_len {
                Err(ParseError::Malformed)
            } else {
                spec_parse_body(b, 9, 9 + hs_len)
            }
        }
    }
}

/// The model of a parse result.
pub open spec fn parse_result_view(r: Result<ClientHello, ParseError>) -> Result<
    HelloModel,
    ParseError,
> {
    match r {
        Ok(ch) => Ok(ch@),
        Err(e) => Err(e),
    }
}

/// Law: parsing is deterministic. Byte-identical inputs give equal models,
/// and equal models give identical fingerprints.
pub proof fn lemma_parse_deterministic(b1: Seq<u8>, b2: Seq<u8>)
    requires
        b1 == b2,
    ensures
        spec_parse_client_hello(b1) == spec_parse_client_hello(b2),
        spec_parse_client_hello(b1) is Ok ==> crate::ja4::spec_ja4(
            spec_parse_client_hello(b1)->Ok_0,
        ) == crate::ja4::spec_ja4(spec_parse_client_hello(b2)->Ok_0),
{
}

fn copy_range(data: &[u8], start: usize, end: usize) -> (out: Vec<u8>)
    requires
        start <= end <= data@.len(),
    ensures
        out@ == data@.subrange(start as int, end as int),
{
    let mut out: Vec<u8> = Vec::new();
    let mut j = start;
    while j < end
        invariant
            start <= j <= end <= data@.len(),
            out@ == data@.subrange(start as int, j as int),
        decreases end - j,
    {
        out.push(data[j]);
        proof {
            assert(out@ =~= data@.subrange(start as int, j + 1 as int));
        }
        j = j + 1;
    }
    out
}

fn read_be16(data: &[u8], i: usize) -> (r: u16)
    requires
        i + 1 < data@.len(),
    ensures
        r == spec_be16(data@[i as int], data@[i as int + 1]),
{
    be16(data[i], data[i + 1])
}

/// The model of an optional host name.
pub open spec fn opt_bytes_view(r: Option<Vec<u8>>) -> Option<Seq<u8>> {
    match r {
        Some(v) => Some(v@),
        None => None,
    }
}

#[verifier::loop_isolation(false)]
fn parse_sni_payload(data: &[u8], start: usize, end: usize) -> (r: Option<Vec<u8>>)
    requires
        start <= end <= data@.len(),
    ensures
        opt_bytes_view(r) == spec_parse_sni(data@, start as int, end as int),
{
    if end - start < 2 {
        return None;
    }
    let ll = read_be16(data, start) as usize;
    if ll > end - start - 2 {
        return None;
    }
    let eend = start + 2 + ll;
    let mut j = start + 2;
    while j < eend
        invariant
            start + 2 <= j,
            eend <= data@.len(),
            spec_sni_entries(data@, start + 2, eend as int) == spec_sni_entries(
                data@,
                j as int,
                eend as int,
            ),
        decreases eend - j,
    {
        if eend - j < 3 {
            return None;
        }
        let typ = data[j];
        let nl = read_be16(data, j + 1) as usize;
        if nl > eend - j - 3 {
            return None;
        }
        if typ == 0 {
            let name = copy_range(data, j + 3, j + 3 + nl);
            if is_utf8(name.as_slice()) {
                return Some(name);
            }
        }
        j = j + 3 + nl;
    }
    None
}

#[verifier::loop_isolation(false)]
fn parse_alpn_payload(data: &[u8], start: usize, end: usize, acc: Vec<Vec<u8>>) -> (r: Result<
    Vec<Vec<u8>>,
    ParseError,
>)
    requires
        start <= end <= data@.len(),
        acc@.len() <= MAX_ALPN_PROTOCOLS,
    ensures
        r matches Ok(v) ==> spec_parse_alpn(data@, start as int, end as int, acc.deep_view())
            == Ok::<_, ParseError>(v.deep_view()) && v@.len() <= MAX_ALPN_PROTOCOLS,
        r matches Err(e) ==> spec_parse_alpn(data@, start as int, end as int, acc.deep_view())
            == Err::<Seq<Seq<u8>>, _>(e),
{
    if end - start < 2 {
        return Err(ParseError::Malformed);
    }
    let ll = read_be16(data, start) as usize;
    if ll > end - start - 2 {
        return Err(ParseError::Malformed);
    }
    let eend = start + 2 + ll;
    let mut j = start + 2;
    let mut out = acc;
    while j < eend
        invariant
            start + 2 <= j <= eend,
            eend <= data@.len(),
            out@.len() <= MAX_ALPN_PROTOCOLS,
            spec_alpn_entries(data@, start + 2, eend as int, acc.deep_view())
                == spec_alpn_entries(data@, j as int, eend as int, out.deep_view()),
        decreases eend - j,
    {
        let pl = data[j] as usize;
        if pl > eend - j - 1 {
            return Err(ParseError::Malformed);
        }
        if out.len() >= MAX_ALPN_PROTOCOLS {
            return Err(ParseError::Oversized);
        }
        let name = copy_range(data, j + 1, j + 1 + pl);
        let ghost prev = out.deep_view();
        out.push(name);
        proof {
            assert(out.deep_view() =~~= prev.push(
                data@.subrange(j + 1 as int, j + 1 + pl as int),
            ));
        }
        j = j + 1 + pl;
    }
    Ok(out)
}

#[verifier::loop_isolation(false)]
fn parse_sigalgs_payload(data: &[u8], start: usize, end: usize) -> (r: Result<
    Vec<u16>,
    ParseError,
>)
    requires
        start <= end <= data@.len(),
    ensures
        r matches Ok(v) ==> spec_parse_sigalgs(data@, start as int, end as int) == Ok::<
            _,
            ParseError,
        >(v@) && v@.len() <= MAX_SIGNATURE_ALGORITHMS,
        r matches Err(e) ==> spec_parse_sigalgs(data@, start as int, end as int) == Err::<
            Seq<u16>,
            _,
        >(e),
{
    if end - start < 2 {
        return Err(ParseError::Malformed);
    }
    let ll = read_be16(data, start) as usize;
    if ll > end - start - 2 {
        return Err(ParseError::Malformed);
    }
    if ll % 2 != 0 {
        return Err(ParseError::Malformed);
    }
    let count = ll / 2;
    if count > MAX_SIGNATURE_ALGORITHMS {
        return Err(ParseError::Oversized);
    }
    let mut out: Vec<u16> = Vec::new();
    let mut k: usize = 0;
    while k < count
        invariant
            k <= count,
            count <= MAX_SIGNATURE_ALGORITHMS,
            start + 2 + 2 * count <= end <= data@.len(),
            out@.len() == k,
            forall|m: int|
                0 <= m < k ==> out@[m] == spec_be16(
                    data@[start + 2 + 2 * m],
                    data@[start + 3 + 2 * m],
                ),
        decreases count - k,
    {
        out.push(read_be16(data, start + 2 + 2 * k));
        k = k + 1;
    }
    proof {
        assert(out@ =~= Seq::new(
            (count) as nat,
            |m: int| spec_be16(data@[start + 2 + 2 * m], data@[start + 3 + 2 * m]),
        ));
    }
    Ok(out)
}

#[verifier::loop_isolation(false)]
fn parse_supported_versions(data: &[u8], start: usize, end: usize) -> (r: Option<u16>)
    requires
        start <= end <= data@.len(),
    ensures
        r == spec_parse_supported_versions(data@, start as int, end as int),
{
    if end - start < 1 {
        return None;
    }
    let ll = data[start] as usize;
    if ll > end - start - 1 || ll == 0 || ll % 2 != 0 {
        return None;
    }
    let eend = start + 1 + ll;
    let mut j = start + 1;
    let mut cur: u16 = 0;
    while j < eend
        invariant
            start + 1 <= j <= eend <= data@.len(),
            (eend - j) % 2 == 0,
            spec_sv_max(data@, start + 1 as int, eend as int, 0) == spec_sv_max(
                data@,
                j as int,
                eend as int,
                cur,
            ),
        decreases eend - j,
    {
        let v = read_be16(data, j);
        if v > cur {
            cur = v;
        }
        j = j + 2;
    }
    Some(cur)
}

/// The accumulator the executable parser's locals stand for.
pub open spec fn acc_of(
    sni: Option<Vec<u8>>,
    extensions: Vec<u16>,
    signature_algorithms: Vec<u16>,
    alpn: Vec<Vec<u8>>,
    tls_version: u16,
) -> ExtAcc {
    ExtAcc {
        sni: opt_bytes_view(sni),
        extensions: extensions@,
        signature_algorithms: signature_algorithms@,
        alpn: alpn.deep_view(),
        tls_version: tls_version,
    }
}

/// Decodes one TLS record holding a ClientHello handshake message, or says
/// why it cannot. Total on arbitrary input: this function has no
/// precondition and, being verified, cannot panic.
#[verifier::rlimit(100)]
#[verifier::loop_isolation(false)]
pub fn parse_tls_client_hello(data: &[u8]) -> (r: Result<ClientHello, ParseError>)
    ensures
        parse_result_view(r) == spec_parse_client_hello(data@),
        r matches Ok(ch) ==> ch.well_formed(),
{
    if data.len() == 0 {
        return Err(ParseError::Incomplete);
    }
    if data[0] != 0x16 {
        return Err(ParseError::NotHandshake);
    }
    if data.len() < 5 {
        return Err(ParseError::Incomplete);
    }
    let rec_len = read_be16(data, 3) as usize;
    if rec_len > data.len() - 5 {
        return Err(ParseError::Incomplete);
    }
    if rec_len < 1 {
        return Err(ParseError::Malformed);
    }
    if data[5] != 0x01 {
        return Err(ParseError::NotClientHello);
    }
    if rec_len < 4 {
        return Err(ParseError::Malformed);
    }
    let hs_len = data[6] as usize * 65536 + data[7] as usize * 256 + data[8] as usize;
    if hs_len > rec_len - 4 {
        return Err(ParseError::Malformed);
    }
    let end = 9 + hs_len;
    // ---- ClientHello body ----
    if end - 9 < 34 {
        return Err(ParseError::Malformed);
    }
    let client_version = read_be16(data, 9);
    let i1 = 9 + 34;
    if end - i1 < 1 {
        return Err(ParseError::Malformed);
    }
    let sid_len = data[i1] as usize;
    if sid_len > end - i1 - 1 {
        return Err(ParseError::Malformed);
    }
    let i2 = i1 + 1 + sid_len;
    if end - i2 < 2 {
        return Err(ParseError::Malformed);
    }
    let cs_len = read_be16(data, i2) as usize;
    let cs_start = i2 + 2;
    if cs_len > end - cs_start {
        return Err(ParseError::Malformed);
    }
    if cs_len % 2 != 0 {
        return Err(ParseError::Malformed);
    }
    let count = cs_len / 2;
    if count > MAX_CIPHER_SUITES {
        return Err(ParseError::Oversized);
    }
    let mut cipher_suites: Vec<u16> = Vec::new();
    let mut k: usize = 0;
    while k < count
        invariant
            k <= count,
            cs_start + 2 * count <= end <= data@.len(),
            cipher_suites@.len() == k,
            forall|m: int|
                0 <= m < k ==> cipher_suites@[m] == spec_be16(
                    data@[cs_start + 2 * m],
                    data@[cs_start + 2 * m + 1],
                ),
        decreases count - k,
    {
        cipher_suites.push(read_be16(data, cs_start + 2 * k));
        k = k + 1;
    }
    let ghost ciphers_spec = Seq::new(
        (count) as nat,
        |m: int| spec_be16(data@[cs_start + 2 * m], data@[cs_start + 2 * m + 1]),
    );
    proof {
        assert(cipher_suites@ =~= ciphers_spec);
    }
    let i3 = cs_start + cs_len;
    if end - i3 < 1 {
        return Err(ParseError::Malformed);
    }
    let comp_len = data[i3] as usize;
    if comp_len > end - i3 - 1 {
        return Err(ParseError::Malformed);
    }
    let i4 = i3 + 1 + comp_len;
    let mut sni: Option<Vec<u8>> = None;
    let mut extensions: Vec<u16> = Vec::new();
    let mut signature_algorithms: Vec<u16> = Vec::new();
    let mut alpn: Vec<Vec<u8>> = Vec::new();
    let mut tls_version = client_version;
    if i4 == end {
        let ch = ClientHello {
            tls_version,
            sni,
            cipher_suites,
            extensions,
            signature_algorithms,
            alpn,
        };
        proof {
            assert(ch@ =~~= spec_model_of(ciphers_spec, spec_init_acc(client_version)));
        }
        return Ok(ch);
    }
    if end - i4 < 2 {
        return Err(ParseError::Malformed);
    }
    let ext_len = read_be16(data, i4) as usize;
    let ext_start = i4 + 2;
    if ext_len > end - ext_start {
        return Err(ParseError::Malformed);
    }
    let ext_end = ext_start + ext_len;
    let ghost init_acc = spec_init_acc(client_version);
    let ghost target = spec_parse_exts(data@, ext_start as int, ext_end as int, init_acc);
    proof {
        assert(acc_of(sni, extensions, signature_algorithms, alpn, tls_version) =~~= init_acc);
    }
    let mut i = ext_start;
    while i < ext_end
        invariant
            ext_start <= i <= ext_end <= end <= data@.len(),
            extensions@.len() <= MAX_EXTENSIONS,
            signature_algorithms@.len() <= MAX_SIGNATURE_ALGORITHMS,
            alpn@.len() <= MAX_ALPN_PROTOCOLS,
            target == spec_parse_exts(
                data@,
                i as int,
                ext_end as int,
                acc_of(sni, extensions, signature_algorithms, alpn, tls_version),
            ),
        decreases ext_end - i,
    {
        let ghost acc = acc_of(sni, extensions, signature_algorithms, alpn, tls_version);
        if ext_end - i < 4 {
            return Err(ParseError::Malformed);
        }
        let t = read_be16(data, i);
        let l = read_be16(data, i + 2) as usize;
        if l > ext_end - i - 4 {
            return Err(ParseError::Malformed);
        }
        if extensions.len() >= MAX_EXTENSIONS {
            return Err(ParseError::Oversized);
        }
        extensions.push(t);
        let ghost acc1 = ExtAcc { extensions: acc.extensions.push(t), ..acc };
        proof {
            assert(acc_of(sni, extensions, signature_algorithms, alpn, tls_version) =~~= acc1);
        }
        let ps = i + 4;
        let pe = i + 4 + l;
        if t == 0x0000 {
            if sni.is_none() {
                sni = parse_sni_payload(data, ps, pe);
            }
        } else if t == 0x0010 {
            let alpn_in = alpn;
            match parse_alpn_payload(data, ps, pe, alpn_in) {
                Ok(v) => {
                    alpn = v;
                },
                Err(e) => {
                    proof {
                        assert(spec_dispatch_ext(data@, t, ps as int, pe as int, acc1)
                            == Err::<ExtAcc, ParseError>(e));
                    }
                    return Err(e);
                },
            }
        } else if t == 0x000d {
            match parse_sigalgs_payload(data, ps, pe) {
                Ok(v) => {
                    signature_algorithms = v;
                },
                Err(e) => {
                    proof {
                        assert(spec_dispatch_ext(data@, t, ps as int, pe as int, acc1)
                            == Err::<ExtAcc, ParseError>(e));
                    }
                    return Err(e);
                },
            }
        } else if t == 0x002b {
            match parse_supported_versions(data, ps, pe) {
                Some(v) => {
                    tls_version = v;
                },
                None => {},
            }
        }
        proof {
            let acc2 = acc_of(sni, extensions, signature_algorithms, alpn, tls_version);
            assert(spec_dispatch_ext(data@, t, ps as int, pe as int, acc1) == Ok::<
                _,
                ParseError,
            >(acc2));
            assert(spec_parse_exts(data@, i as int, ext_end as int, acc) == spec_parse_exts(
                data@,
                pe as int,
                ext_end as int,
                acc2,
            ));
        }
        i = pe;
    }
    let ghost final_acc = acc_of(sni, extensions, signature_algorithms, alpn, tls_version);
    proof {
        assert(target == Ok::<_, ParseError>(final_acc));
    }
    let ch = ClientHello { tls_version, sni, cipher_suites, extensions, signature_algorithms, alpn };
    proof {
        assert(ch@ =~~= spec_model_of(ciphers_spec, final_acc));
    }
    Ok(ch)
}

/// Parses the record and hands back the host name alone, when one is
/// present.
#[verifier::loop_isolation(false)]
pub fn extract_sni_from_header(data: &[u8]) -> (r: Result<Option<Vec<u8>>, ParseError>)
    ensures
        r matches Ok(s) ==> spec_parse_client_hello(data@) matches Ok(m) && opt_bytes_view(s)
            == m.sni,
        r matches Err(e) ==> spec_parse_client_hello(data@) == Err::<HelloModel, _>(e),
{
    match parse_tls_client_hello(data) {
        Ok(ch) => Ok(ch.sni),
        Err(e) => Err(e),
    }
}

} // verus!
