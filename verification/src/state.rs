//! Shared process state: the routing table from domain name to backend
//! pool, and the per-connection decision path from header bytes to a
//! routing decision.

use vstd::prelude::*;

use crate::hello::HelloModel;
use crate::ip::IpDatabase;
use crate::ja4::{spec_ja4, Ja4Fingerprint};
use crate::parser::{parse_tls_client_hello, spec_parse_client_hello, ParseError};
use crate::pool::Pool;

verus! {

/// Why a client connection is dropped; every per-connection failure is
/// local to that connection.
#[derive(Debug, Clone, Copy, PartialEq, Eq, Structural)]
pub enum HandlerError {
    /// The header bytes were not a usable ClientHello.
    ParseFailed(ParseError),
    /// The hello carried no server name, so there is nothing to route by.
    MissingSni,
    /// The server name is not in the routing table.
    UnknownDomain,
    /// The client closed before sending data past the header.
    ClientClosedEarly,
    /// The backend closed before replying.
    ServerClosedEarly,
}

/// One entry of the routing table.
pub struct DomainPool {
    /// The domain name, as its bytes on the wire.
    pub domain: Vec<u8>,
    /// The pool serving that domain.
    pub pool: Pool,
}

/// Routing table and IP metadata table, built once at startup and only
/// read afterwards.
pub struct State {
    /// Domain name to pool, distinct domains.
    pub pools: Vec<DomainPool>,
    /// The IP-to-ASN table used to annotate logs.
    pub ip_to_asn_database: IpDatabase,
}

/// What the handler needs to serve one client connection.
pub struct RouteDecision {
    /// Index of the pool serving the requested domain.
    pub pool_index: usize,
    /// The server name the client asked for.
    pub sni: Vec<u8>,
    /// The connection's fingerprint, for observability only: it never
    /// influences routing.
    pub ja4: Ja4Fingerprint,
}

fn bytes_eq(a: &[u8], b: &[u8]) -> (r: bool)
    ensures
        r == (a@ == b@),
{
    if a.len() != b.len() {
        return false;
    }
    let mut i: usize = 0;
    while i < a.len()
        invariant
            i <= a@.len(),
            a@.len() == b@.len(),
            forall|j: int| 0 <= j < i ==> a@[j] == b@[j],
        decreases a@.len() - i,
    {
        if a[i] != b[i] {
            return false;
        }
        i = i + 1;
    }
    proof {
        assert(a@ =~= b@);
    }
    true
}

impl State {
    /// Every pool is well formed and no two entries share a domain.
    pub open spec fn wf(&self) -> bool {
        &&& forall|i: int| 0 <= i < self.pools@.len() ==> (#[trigger] self.pools@[i]).pool.wf()
        &&& forall|i: int, j: int|
            0 <= i < j < self.pools@.len() ==> self.pools@[i].domain@ != self.pools@[j].domain@
        &&& self.ip_to_asn_database.wf()
    }

    /// Some entry serves this domain.
    pub open spec fn has_domain(&self, d: Seq<u8>) -> bool {
        exists|i: int| 0 <= i < self.pools@.len() && (#[trigger] self.pools@[i]).domain@ == d
    }

    /// A state with no routable domain yet.
    pub fn new(ip_to_asn_database: IpDatabase) -> (r: State)
        requires
            ip_to_asn_database.wf(),
        ensures
            r.wf(),
            r.pools@.len() == 0,
            r.ip_to_asn_database == ip_to_asn_database,
    {
        State { pools: Vec::new(), ip_to_asn_database }
    }

    /// Adds a domain's pool; refused (false, unchanged) when the domain
    /// is already routed.
    pub fn add_pool(&mut self, domain: Vec<u8>, pool: Pool) -> (r: bool)
        requires
            old(self).wf(),
            pool.wf(),
        ensures
            final(self).wf(),
            r == !old(self).has_domain(domain@),
            r ==> final(self).pools@ == old(self).pools@.push(
                DomainPool { domain, pool },
            ),
            !r ==> final(self).pools@ == old(self).pools@,
            final(self).ip_to_asn_database == old(self).ip_to_asn_database,
    {
        match self.find_pool_index(domain.as_slice()) {
            Some(_) => false,
            None => {
                self.pools.push(DomainPool { domain, pool });
                true
            },
        }
    }

    /// Index of the pool serving a domain; `None` exactly when the
    /// domain is not configured.
    pub fn find_pool_index(&self, domain: &[u8]) -> (r: Option<usize>)
        ensures
            match r {
                Some(i) => i < self.pools@.len() && self.pools@[i as int].domain@ == domain@,
                None => !self.has_domain(domain@),
            },
    {
        let mut i: usize = 0;
        while i < self.pools.len()
            invariant
                i <= self.pools@.len(),
                forall|j: int| 0 <= j < i ==> (#[trigger] self.pools@[j]).domain@ != domain@,
            decreases self.pools@.len() - i,
        {
            if bytes_eq(self.pools[i].domain.as_slice(), domain) {
                return Some(i);
            }
            i = i + 1;
        }
        None
    }

    /// The decision path of one accepted connection: parse the header
    /// bytes, require a server name, compute the fingerprint, and look
    /// the domain up. Exactly one of: a decision, or the error saying at
    /// which step the connection is dropped.
    pub fn route_client_hello(&self, header: &[u8]) -> (r: Result<RouteDecision, HandlerError>)
        ensures
            match r {
                Ok(d) => {
                    &&& spec_parse_client_hello(header@) matches Ok(m)
                    &&& spec_parse_client_hello(header@)->Ok_0.sni matches Some(s)
                        && d.sni@ == s && d.pool_index < self.pools@.len()
                        && self.pools@[d.pool_index as int].domain@ == s
                    &&& d.ja4@ == spec_ja4(spec_parse_client_hello(header@)->Ok_0)
                },
                Err(HandlerError::ParseFailed(e)) => spec_parse_client_hello(header@) == Err::<
                    HelloModel,
                    _,
                >(e),
                Err(HandlerError::MissingSni) => spec_parse_client_hello(header@) matches Ok(m)
                    && m.sni is None,
                Err(HandlerError::UnknownDomain) => spec_parse_client_hello(header@) matches Ok(m)
                    && m.sni matches Some(s) && !self.has_domain(s),
                Err(_) => false,
            },
    {
        let hello = match parse_tls_client_hello(header) {
            Ok(h) => h,
            Err(e) => {
                return Err(HandlerError::ParseFailed(e));
            },
        };
        let ja4 = Ja4Fingerprint::calculate(&hello);
        let sni = match hello.sni {
            Some(s) => s,
            None => {
                return Err(HandlerError::MissingSni);
            },
        };
        match self.find_pool_index(sni.as_slice()) {
            Some(i) => Ok(RouteDecision { pool_index: i, sni, ja4 }),
            None => Err(HandlerError::UnknownDomain),
        }
    }
}

/// Outcome of one finished copy direction of the splice: zero bytes
/// moved before any error means the named side closed first; moving any
/// bytes is the success path.
pub fn copy_outcome(from_client: bool, bytes_copied: u64) -> (r: Result<u64, HandlerError>)
    ensures
        r == if bytes_copied == 0 {
            Err::<u64, HandlerError>(
                if from_client {
                    HandlerError::ClientClosedEarly
                } else {
                    HandlerError::ServerClosedEarly
                },
            )
        } else {
            Ok::<u64, HandlerError>(bytes_copied)
        },
{
    if bytes_copied == 0 {
        if from_client {
            Err(HandlerError::ClientClosedEarly)
        } else {
            Err(HandlerError::ServerClosedEarly)
        }
    } else {
        Ok(bytes_copied)
    }
}

} // verus!
