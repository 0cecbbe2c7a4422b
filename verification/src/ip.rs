//! An IP to ASN route lookup table: longest-prefix match over IPv4 and
//! IPv6 ranges, bulk-loaded once and then only read.

use vstd::prelude::*;
use vstd::pervasive::VecAdditionalExecFns;

use crate::pool::IpAddress;

verus! {

/// Why a routing table file was rejected.
#[derive(Debug, Clone, Copy, PartialEq, Eq, Structural)]
pub enum LoadIpDatabaseError {
    /// The line at this zero-based index is not `prefix SPACE asn`.
    MalformedInputFile(usize),
}

/// One IPv4 route: network bits (host bits zero), prefix length, origin
/// autonomous system.
#[derive(Debug, Clone, Copy, PartialEq, Eq, Structural)]
pub struct V4Route {
    pub net: u32,
    pub len: u8,
    pub asn: u32,
}

/// One IPv6 route.
#[derive(Debug, Clone, Copy, PartialEq, Eq, Structural)]
pub struct V6Route {
    pub net: u128,
    pub len: u8,
    pub asn: u32,
}

/// The first `len` bits of `addr` and `net` agree.
pub open spec fn v4_prefix_matches(addr: u32, net: u32, len: u8) -> bool
    recommends
        len <= 32,
{
    len == 0 || addr >> ((32 - len) as u32) == net >> ((32 - len) as u32)
}

/// The first `len` bits of `addr` and `net` agree.
pub open spec fn v6_prefix_matches(addr: u128, net: u128, len: u8) -> bool
    recommends
        len <= 128,
{
    len == 0 || addr >> ((128 - len) as u128) == net >> ((128 - len) as u128)
}

/// A route lookup table optimized for read access: loaded once at
/// startup, then queried by peer address for observability metadata.
pub struct IpDatabase {
    pub ipv4_to_asn: Vec<V4Route>,
    pub ipv6_to_asn: Vec<V6Route>,
}

/// A match found in the routing table.
#[derive(Debug, Clone, Copy, PartialEq, Eq, Structural)]
pub struct IpRef {
    asn: u32,
}

impl IpRef {
    /// The number of the autonomous system.
    pub fn asn(&self) -> (r: u32)
        ensures
            r == self.spec_asn(),
    {
        self.asn
    }

    /// The autonomous system number carried by this reference.
    pub closed spec fn spec_asn(&self) -> u32 {
        self.asn
    }
}

impl IpDatabase {
    /// Route entries hold canonical networks (host bits zero, length in
    /// range) and no two entries share a network and length.
    pub open spec fn wf(&self) -> bool {
        &&& forall|i: int|
            0 <= i < self.ipv4_to_asn@.len() ==> (#[trigger] self.ipv4_to_asn@[i]).len <= 32
                && v4_canonical(self.ipv4_to_asn@[i].net, self.ipv4_to_asn@[i].len)
        &&& forall|i: int, j: int|
            0 <= i < j < self.ipv4_to_asn@.len() ==> !(self.ipv4_to_asn@[i].net
                == self.ipv4_to_asn@[j].net && self.ipv4_to_asn@[i].len
                == self.ipv4_to_asn@[j].len)
        &&& forall|i: int|
            0 <= i < self.ipv6_to_asn@.len() ==> (#[trigger] self.ipv6_to_asn@[i]).len <= 128
                && v6_canonical(self.ipv6_to_asn@[i].net, self.ipv6_to_asn@[i].len)
        &&& forall|i: int, j: int|
            0 <= i < j < self.ipv6_to_asn@.len() ==> !(self.ipv6_to_asn@[i].net
                == self.ipv6_to_asn@[j].net && self.ipv6_to_asn@[i].len
                == self.ipv6_to_asn@[j].len)
    }

    /// Creates a new empty database; bulk loading comes after.
    pub fn new() -> (r: IpDatabase)
        ensures
            r.wf(),
            r.ipv4_to_asn@.len() == 0,
            r.ipv6_to_asn@.len() == 0,
    {
        IpDatabase { ipv4_to_asn: Vec::new(), ipv6_to_asn: Vec::new() }
    }

    /// Entry `i` is the longest prefix in the table matching `addr`.
    pub open spec fn is_v4_lpm(&self, addr: u32, i: int) -> bool {
        &&& 0 <= i < self.ipv4_to_asn@.len()
        &&& v4_prefix_matches(addr, self.ipv4_to_asn@[i].net, self.ipv4_to_asn@[i].len)
        &&& forall|j: int|
            0 <= j < self.ipv4_to_asn@.len() && v4_prefix_matches(
                addr,
                (#[trigger] self.ipv4_to_asn@[j]).net,
                self.ipv4_to_asn@[j].len,
            ) ==> self.ipv4_to_asn@[j].len <= self.ipv4_to_asn@[i].len
    }

    /// Entry `i` is the longest prefix in the table matching `addr`.
    pub open spec fn is_v6_lpm(&self, addr: u128, i: int) -> bool {
        &&& 0 <= i < self.ipv6_to_asn@.len()
        &&& v6_prefix_matches(addr, self.ipv6_to_asn@[i].net, self.ipv6_to_asn@[i].len)
        &&& forall|j: int|
            0 <= j < self.ipv6_to_asn@.len() && v6_prefix_matches(
                addr,
                (#[trigger] self.ipv6_to_asn@[j]).net,
                self.ipv6_to_asn@[j].len,
            ) ==> self.ipv6_to_asn@[j].len <= self.ipv6_to_asn@[i].len
    }
}

/// `net` has no bits set beyond its first `len` bits.
pub open spec fn v4_canonical(net: u32, len: u8) -> bool
    recommends
        len <= 32,
{
    if len == 0 {
        net == 0
    } else {
        net == (net >> ((32 - len) as u32)) << ((32 - len) as u32)
    }
}

/// `net` has no bits set beyond its first `len` bits.
pub open spec fn v6_canonical(net: u128, len: u8) -> bool
    recommends
        len <= 128,
{
    if len == 0 {
        net == 0
    } else {
        net == (net >> ((128 - len) as u128)) << ((128 - len) as u128)
    }
}

/// The network bits of `addr` under a prefix of `len` bits.
pub open spec fn spec_v4_network(addr: u32, len: u8) -> u32
    recommends
        len <= 32,
{
    if len == 0 {
        0
    } else {
        (addr >> ((32 - len) as u32)) << ((32 - len) as u32)
    }
}

/// The network bits of `addr` under a prefix of `len` bits.
pub open spec fn spec_v6_network(addr: u128, len: u8) -> u128
    recommends
        len <= 128,
{
    if len == 0 {
        0
    } else {
        (addr >> ((128 - len) as u128)) << ((128 - len) as u128)
    }
}

fn v4_network_of(addr: u32, len: u8) -> (r: u32)
    requires
        len <= 32,
    ensures
        r == spec_v4_network(addr, len),
        v4_canonical(r, len),
        v4_prefix_matches(addr, r, len),
{
    if len == 0 {
        0
    } else {
        let sh = (32 - len) as u32;
        let r = (addr >> sh) << sh;
        proof {
            assert(sh < 32 ==> (((addr >> sh) << sh) >> sh) << sh == (addr >> sh) << sh && ((addr
                >> sh) << sh) >> sh == addr >> sh) by (bit_vector);
        }
        r
    }
}

#[verifier::rlimit(100)]
fn v6_network_of(addr: u128, len: u8) -> (r: u128)
    requires
        len <= 128,
    ensures
        r == spec_v6_network(addr, len),
        v6_canonical(r, len),
        v6_prefix_matches(addr, r, len),
{
    if len == 0 {
        0
    } else {
        let sh = (128 - len) as u128;
        let r = (addr >> sh) << sh;
        proof {
            assert(sh < 128 ==> ((addr >> sh) << sh) >> sh == addr >> sh) by (bit_vector);
            assert(r == (r >> sh) << sh);
        }
        r
    }
}

fn v4_matches_exec(addr: u32, net: u32, len: u8) -> (r: bool)
    requires
        len <= 32,
    ensures
        r == v4_prefix_matches(addr, net, len),
{
    if len == 0 {
        true
    } else {
        addr >> ((32 - len) as u32) == net >> ((32 - len) as u32)
    }
}

fn v6_matches_exec(addr: u128, net: u128, len: u8) -> (r: bool)
    requires
        len <= 128,
    ensures
        r == v6_prefix_matches(addr, net, len),
{
    if len == 0 {
        true
    } else {
        addr >> ((128 - len) as u128) == net >> ((128 - len) as u128)
    }
}

impl IpDatabase {
    /// Records that the network of `addr` with prefix length `len` is
    /// originated by `asn`; a route already present for that exact
    /// prefix is replaced.
    #[verifier::loop_isolation(false)]
    pub fn insert_v4(&mut self, addr: u32, len: u8, asn: u32)
        requires
            old(self).wf(),
            len <= 32,
        ensures
            final(self).wf(),
            final(self).ipv6_to_asn == old(self).ipv6_to_asn,
            ({
                let net = spec_v4_network(addr, len);
                let route = V4Route { net, len, asn };
                if exists|j: int|
                    0 <= j < old(self).ipv4_to_asn@.len() && (#[trigger] old(
                        self,
                    ).ipv4_to_asn@[j]).net == net && old(self).ipv4_to_asn@[j].len == len {
                    exists|j: int|
                        0 <= j < old(self).ipv4_to_asn@.len() && (#[trigger] old(
                            self,
                        ).ipv4_to_asn@[j]).net == net && old(self).ipv4_to_asn@[j].len == len
                            && final(self).ipv4_to_asn@ == old(self).ipv4_to_asn@.update(j, route)
                } else {
                    final(self).ipv4_to_asn@ == old(self).ipv4_to_asn@.push(route)
                }
            }),
    {
        let net = v4_network_of(addr, len);
        let route = V4Route { net, len, asn };
        let mut j: usize = 0;
        while j < self.ipv4_to_asn.len()
            invariant
                self.ipv4_to_asn == old(self).ipv4_to_asn,
                self.ipv6_to_asn == old(self).ipv6_to_asn,
                j <= self.ipv4_to_asn@.len(),
                forall|k: int|
                    0 <= k < j ==> !((#[trigger] self.ipv4_to_asn@[k]).net == net
                        && self.ipv4_to_asn@[k].len == len),
            decreases self.ipv4_to_asn@.len() - j,
        {
            if self.ipv4_to_asn[j].net == net && self.ipv4_to_asn[j].len == len {
                let ghost oldv = self.ipv4_to_asn@;
                self.ipv4_to_asn.set(j, route);
                proof {
                    let newv = self.ipv4_to_asn@;
                    assert forall|a: int, b: int| 0 <= a < b < newv.len() implies !((
                    #[trigger] newv[a]).net == (#[trigger] newv[b]).net && newv[a].len
                        == newv[b].len) by {
                        if a != j as int && b != j as int {
                            assert(newv[a] == oldv[a] && newv[b] == oldv[b]);
                        } else if a == j as int {
                            assert(newv[a].net == oldv[a].net && newv[a].len == oldv[a].len);
                            assert(newv[b] == oldv[b]);
                        } else {
                            assert(newv[b].net == oldv[b].net && newv[b].len == oldv[b].len);
                            assert(newv[a] == oldv[a]);
                        }
                    }
                    assert forall|k: int| 0 <= k < newv.len() implies (#[trigger] newv[k]).len
                        <= 32 && v4_canonical(newv[k].net, newv[k].len) by {
                        if k != j as int {
                            assert(newv[k] == oldv[k]);
                        }
                    }
                    assert(0 <= j < oldv.len() && oldv[j as int].net == net && oldv[j as int].len
                        == len && newv == oldv.update(j as int, route));
                }
                return ;
            }
            j = j + 1;
        }
        let ghost oldv = self.ipv4_to_asn@;
        self.ipv4_to_asn.push(route);
        proof {
            let newv = self.ipv4_to_asn@;
            assert forall|a: int, b: int| 0 <= a < b < newv.len() implies !((#[trigger] newv[a]).net
                == (#[trigger] newv[b]).net && newv[a].len == newv[b].len) by {
                if b < oldv.len() {
                    assert(newv[a] == oldv[a] && newv[b] == oldv[b]);
                } else {
                    assert(newv[a] == oldv[a] && newv[b] == route);
                    assert(!(oldv[a].net == net && oldv[a].len == len));
                }
            }
        }
    }

    /// Records that the network of `addr` with prefix length `len` is
    /// originated by `asn`; a route already present for that exact
    /// prefix is replaced.
    #[verifier::loop_isolation(false)]
    pub fn insert_v6(&mut self, addr: u128, len: u8, asn: u32)
        requires
            old(self).wf(),
            len <= 128,
        ensures
            final(self).wf(),
            final(self).ipv4_to_asn == old(self).ipv4_to_asn,
            ({
                let net = spec_v6_network(addr, len);
                let route = V6Route { net, len, asn };
                if exists|j: int|
                    0 <= j < old(self).ipv6_to_asn@.len() && (#[trigger] old(
                        self,
                    ).ipv6_to_asn@[j]).net == net && old(self).ipv6_to_asn@[j].len == len {
                    exists|j: int|
                        0 <= j < old(self).ipv6_to_asn@.len() && (#[trigger] old(
                            self,
                        ).ipv6_to_asn@[j]).net == net && old(self).ipv6_to_asn@[j].len == len
                            && final(self).ipv6_to_asn@ == old(self).ipv6_to_asn@.update(j, route)
                } else {
                    final(self).ipv6_to_asn@ == old(self).ipv6_to_asn@.push(route)
                }
            }),
    {
        let net = v6_network_of(addr, len);
        let route = V6Route { net, len, asn };
        let mut j: usize = 0;
        while j < self.ipv6_to_asn.len()
            invariant
                self.ipv4_to_asn == old(self).ipv4_to_asn,
                self.ipv6_to_asn == old(self).ipv6_to_asn,
                j <= self.ipv6_to_asn@.len(),
                forall|k: int|
                    0 <= k < j ==> !((#[trigger] self.ipv6_to_asn@[k]).net == net
                        && self.ipv6_to_asn@[k].len == len),
            decreases self.ipv6_to_asn@.len() - j,
        {
            if self.ipv6_to_asn[j].net == net && self.ipv6_to_asn[j].len == len {
                let ghost oldv = self.ipv6_to_asn@;
                self.ipv6_to_asn.set(j, route);
                proof {
                    let newv = self.ipv6_to_asn@;
                    assert forall|a: int, b: int| 0 <= a < b < newv.len() implies !((
                    #[trigger] newv[a]).net == (#[trigger] newv[b]).net && newv[a].len
                        == newv[b].len) by {
                        if a != j as int && b != j as int {
                            assert(newv[a] == oldv[a] && newv[b] == oldv[b]);
                        } else if a == j as int {
                            assert(newv[a].net == oldv[a].net && newv[a].len == oldv[a].len);
                            assert(newv[b] == oldv[b]);
                        } else {
                            assert(newv[b].net == oldv[b].net && newv[b].len == oldv[b].len);
                            assert(newv[a] == oldv[a]);
                        }
                    }
                    assert forall|k: int| 0 <= k < newv.len() implies (#[trigger] newv[k]).len
                        <= 128 && v6_canonical(newv[k].net, newv[k].len) by {
                        if k != j as int {
                            assert(newv[k] == oldv[k]);
                        }
                    }
                    assert(0 <= j < oldv.len() && oldv[j as int].net == net && oldv[j as int].len
                        == len && newv == oldv.update(j as int, route));
                }
                return ;
            }
            j = j + 1;
        }
        let ghost oldv = self.ipv6_to_asn@;
        self.ipv6_to_asn.push(route);
        proof {
            let newv = self.ipv6_to_asn@;
            assert forall|a: int, b: int| 0 <= a < b < newv.len() implies !((#[trigger] newv[a]).net
                == (#[trigger] newv[b]).net && newv[a].len == newv[b].len) by {
                if b < oldv.len() {
                    assert(newv[a] == oldv[a] && newv[b] == oldv[b]);
                } else {
                    assert(newv[a] == oldv[a] && newv[b] == route);
                    assert(!(oldv[a].net == net && oldv[a].len == len));
                }
            }
        }
    }

    #[verifier::loop_isolation(false)]
    fn lookup_v4(&self, addr: u32) -> (r: Option<u32>)
        requires
            self.wf(),
        ensures
            match r {
                Some(asn) => exists|i: int|
                    self.is_v4_lpm(addr, i) && asn == (#[trigger] self.ipv4_to_asn@[i]).asn,
                None => forall|j: int|
                    0 <= j < self.ipv4_to_asn@.len() ==> !v4_prefix_matches(
                        addr,
                        (#[trigger] self.ipv4_to_asn@[j]).net,
                        self.ipv4_to_asn@[j].len,
                    ),
            },
    {
        let mut best: usize = 0;
        let mut have_best = false;
        let mut i: usize = 0;
        while i < self.ipv4_to_asn.len()
            invariant
                i <= self.ipv4_to_asn@.len(),
                self.wf(),
                have_best ==> best < i && v4_prefix_matches(
                    addr,
                    self.ipv4_to_asn@[best as int].net,
                    self.ipv4_to_asn@[best as int].len,
                ) && forall|j: int|
                    0 <= j < i && v4_prefix_matches(
                        addr,
                        (#[trigger] self.ipv4_to_asn@[j]).net,
                        self.ipv4_to_asn@[j].len,
                    ) ==> self.ipv4_to_asn@[j].len <= self.ipv4_to_asn@[best as int].len,
                !have_best ==> forall|j: int|
                    0 <= j < i ==> !v4_prefix_matches(
                        addr,
                        (#[trigger] self.ipv4_to_asn@[j]).net,
                        self.ipv4_to_asn@[j].len,
                    ),
            decreases self.ipv4_to_asn@.len() - i,
        {
            let e = self.ipv4_to_asn[i];
            if v4_matches_exec(addr, e.net, e.len) {
                if !have_best || e.len > self.ipv4_to_asn[best].len {
                    best = i;
                    have_best = true;
                }
            }
            i = i + 1;
        }
        if have_best {
            Some(self.ipv4_to_asn[best].asn)
        } else {
            None
        }
    }

    #[verifier::loop_isolation(false)]
    fn lookup_v6(&self, addr: u128) -> (r: Option<u32>)
        requires
            self.wf(),
        ensures
            match r {
                Some(asn) => exists|i: int|
                    self.is_v6_lpm(addr, i) && asn == (#[trigger] self.ipv6_to_asn@[i]).asn,
                None => forall|j: int|
                    0 <= j < self.ipv6_to_asn@.len() ==> !v6_prefix_matches(
                        addr,
                        (#[trigger] self.ipv6_to_asn@[j]).net,
                        self.ipv6_to_asn@[j].len,
                    ),
            },
    {
        let mut best: usize = 0;
        let mut have_best = false;
        let mut i: usize = 0;
        while i < self.ipv6_to_asn.len()
            invariant
                i <= self.ipv6_to_asn@.len(),
                self.wf(),
                have_best ==> best < i && v6_prefix_matches(
                    addr,
                    self.ipv6_to_asn@[best as int].net,
                    self.ipv6_to_asn@[best as int].len,
                ) && forall|j: int|
                    0 <= j < i && v6_prefix_matches(
                        addr,
                        (#[trigger] self.ipv6_to_asn@[j]).net,
                        self.ipv6_to_asn@[j].len,
                    ) ==> self.ipv6_to_asn@[j].len <= self.ipv6_to_asn@[best as int].len,
                !have_best ==> forall|j: int|
                    0 <= j < i ==> !v6_prefix_matches(
                        addr,
                        (#[trigger] self.ipv6_to_asn@[j]).net,
                        self.ipv6_to_asn@[j].len,
                    ),
            decreases self.ipv6_to_asn@.len() - i,
        {
            let e = self.ipv6_to_asn[i];
            if v6_matches_exec(addr, e.net, e.len) {
                if !have_best || e.len > self.ipv6_to_asn[best].len {
                    best = i;
                    have_best = true;
                }
            }
            i = i + 1;
        }
        if have_best {
            Some(self.ipv6_to_asn[best].asn)
        } else {
            None
        }
    }

    /// Looks up metadata of an IP address by longest-prefix match.
    /// IPv4-compatible and IPv4-mapped IPv6 addresses are interpreted as
    /// IPv4. `None` exactly when no route matches, which is not an
    /// error.
    pub fn lookup_ip(&self, addr: IpAddress) -> (r: Option<IpRef>)
        requires
            self.wf(),
        ensures
            match r {
                Some(ip_ref) => match spec_normalize_ip(addr) {
                    IpAddress::V4(a) => exists|i: int|
                        self.is_v4_lpm(a, i) && ip_ref.spec_asn() == (#[trigger] self
                            .ipv4_to_asn@[i]).asn,
                    IpAddress::V6(a) => exists|i: int|
                        self.is_v6_lpm(a, i) && ip_ref.spec_asn() == (#[trigger] self
                            .ipv6_to_asn@[i]).asn,
                },
                None => match spec_normalize_ip(addr) {
                    IpAddress::V4(a) => forall|j: int|
                        0 <= j < self.ipv4_to_asn@.len() ==> !v4_prefix_matches(
                            a,
                            (#[trigger] self.ipv4_to_asn@[j]).net,
                            self.ipv4_to_asn@[j].len,
                        ),
                    IpAddress::V6(a) => forall|j: int|
                        0 <= j < self.ipv6_to_asn@.len() ==> !v6_prefix_matches(
                            a,
                            (#[trigger] self.ipv6_to_asn@[j]).net,
                            self.ipv6_to_asn@[j].len,
                        ),
                },
            },
    {
        let asn = match normalize_ip_address(addr) {
            IpAddress::V4(a) => self.lookup_v4(a),
            IpAddress::V6(a) => self.lookup_v6(a),
        };
        match asn {
            Some(asn) => Some(IpRef { asn }),
            None => None,
        }
    }

    /// Law: the longest matching prefix is unique — any two entries that
    /// are both longest matches for one address are the same entry.
    pub proof fn lemma_v4_lpm_unique(&self, addr: u32, i: int, j: int)
        requires
            self.wf(),
            self.is_v4_lpm(addr, i),
            self.is_v4_lpm(addr, j),
        ensures
            i == j,
    {
        let ei = self.ipv4_to_asn@[i];
        let ej = self.ipv4_to_asn@[j];
        assert(ei.len == ej.len);
        assert((ei.net as u64) >> ((32 - ei.len) as u64) == (ej.net as u64) >> ((32
            - ej.len) as u64));
        assert(ei.net as u64 == ej.net as u64);
        if i != j {
            assert(false);
        }
    }

    /// Law: the longest matching prefix is unique — any two entries that
    /// are both longest matches for one address are the same entry.
    pub proof fn lemma_v6_lpm_unique(&self, addr: u128, i: int, j: int)
        requires
            self.wf(),
            self.is_v6_lpm(addr, i),
            self.is_v6_lpm(addr, j),
        ensures
            i == j,
    {
        let ei = self.ipv6_to_asn@[i];
        let ej = self.ipv6_to_asn@[j];
        assert(ei.len == ej.len);
        if ei.len == 0 {
            assert(ei.net == 0 && ej.net == 0);
        } else {
            assert(ei.net >> ((128 - ei.len) as u128) == ej.net >> ((128 - ej.len) as u128));
            assert(ei.net == ej.net);
        }
        if i != j {
            assert(false);
        }
    }
}

/// Index of the first occurrence of `b`, or the length when absent.
pub open spec fn spec_find(s: Seq<u8>, b: u8) -> int
    decreases s.len(),
{
    if s.len() == 0 {
        0
    } else if s[0] == b {
        0
    } else {
        1 + spec_find(s.drop_first(), b)
    }
}

proof fn lemma_spec_find(s: Seq<u8>, b: u8, j: int)
    requires
        0 <= j <= s.len(),
        forall|k: int| 0 <= k < j ==> s[k] != b,
        j < s.len() ==> s[j] == b,
    ensures
        spec_find(s, b) == j,
    decreases j,
{
    if s.len() == 0 {
    } else if j == 0 {
    } else {
        assert(s[0] != b);
        lemma_spec_find(s.drop_first(), b, j - 1);
    }
}

/// The pieces of `s` between occurrences of `b`; never empty, and an
/// occurrence at the very end yields a final empty piece.
pub open spec fn spec_split(s: Seq<u8>, b: u8) -> Seq<Seq<u8>>
    decreases s.len(),
{
    let f = spec_find(s, b);
    if 0 <= f < s.len() {
        seq![s.take(f)] + spec_split(s.skip(f + 1), b)
    } else {
        seq![s]
    }
}

/// Splits a slice on a separator byte; mirrors [`spec_split`].
#[verifier::rlimit(100)]
fn split_bytes(data: &[u8], sep: u8) -> (out: Vec<Vec<u8>>)
    ensures
        out.deep_view() == spec_split(data@, sep),
{
    let mut out: Vec<Vec<u8>> = Vec::new();
    let mut i: usize = 0;
    proof {
        assert(data@.skip(0) =~= data@);
        assert(out.deep_view() + spec_split(data@.skip(0), sep) =~~= spec_split(data@, sep));
    }
    loop
        invariant_except_break
            i <= data@.len(),
            spec_split(data@, sep) == out.deep_view() + spec_split(data@.skip(i as int), sep),
        ensures
            out.deep_view() == spec_split(data@, sep),
        decreases data@.len() - i,
    {
        let ghost rest = data@.skip(i as int);
        let mut j = i;
        while j < data.len() && data[j] != sep
            invariant
                i <= j <= data@.len(),
                forall|k: int| i <= k < j ==> data@[k] != sep,
            decreases data@.len() - j,
        {
            j = j + 1;
        }
        let token = copy_bytes(data, i, j);
        let ghost pre = out.deep_view();
        out.push(token);
        proof {
            assert forall|k: int| 0 <= k < j - i implies rest[k] != sep by {
                assert(rest[k] == data@[i + k]);
            }
            if j < data@.len() {
                assert(rest[j - i] == sep);
            }
            lemma_spec_find(rest, sep, j - i);
            assert(rest.take(j - i) =~= data@.subrange(i as int, j as int));
            assert(out.deep_view() =~~= pre.push(rest.take(j - i)));
        }
        if j == data.len() {
            proof {
                assert(rest.take(j - i) =~= rest);
                assert(spec_split(rest, sep) == seq![rest]);
                assert(pre.push(rest.take(j - i)) =~~= pre + seq![rest]);
                assert(out.deep_view() =~~= spec_split(data@, sep));
            }
            break ;
        }
        proof {
            assert(spec_split(rest, sep) == seq![rest.take(j - i)] + spec_split(
                rest.skip(j - i + 1),
                sep,
            ));
            assert(rest.skip(j - i + 1) =~= data@.skip(j + 1 as int));
            assert(pre.push(rest.take(j - i)) =~~= pre + seq![rest.take(j - i)]);
            assert((pre + seq![rest.take(j - i)]) + spec_split(data@.skip(j + 1 as int), sep)
                =~~= pre + (seq![rest.take(j - i)] + spec_split(data@.skip(j + 1 as int), sep)));
            assert(spec_split(data@, sep) == out.deep_view() + spec_split(
                data@.skip(j + 1 as int),
                sep,
            ));
        }
        i = j + 1;
    }
    out
}

fn copy_bytes(data: &[u8], start: usize, end: usize) -> (out: Vec<u8>)
    requires
        start <= end <= data@.len(),
    ensures
        out@ == data@.subrange(start as int, end as int),
{
    let mut out: Vec<u8> = Vec::new();
    let mut j = start;
    while j < end
        invariant
            start <= j <= end <= data@.len(),
            out@ == data@.subrange(start as int, j as int),
        decreases end - j,
    {
        out.push(data[j]);
        proof {
            assert(out@ =~= data@.subrange(start as int, j + 1 as int));
        }
        j = j + 1;
    }
    out
}

/// The byte is an ASCII decimal digit.
pub open spec fn is_digit(b: u8) -> bool {
    0x30 <= b <= 0x39
}

/// Every byte is an ASCII decimal digit.
pub open spec fn all_digits(s: Seq<u8>) -> bool {
    forall|i: int| 0 <= i < s.len() ==> is_digit(#[trigger] s[i])
}

/// Value of a decimal digit string.
pub open spec fn dec_value(s: Seq<u8>) -> int
    decreases s.len(),
{
    if s.len() == 0 {
        0
    } else {
        dec_value(s.drop_last()) * 10 + (s.last() - 0x30)
    }
}

/// A decimal number: an optional plus sign, then digits, within range.
pub open spec fn spec_parse_u32(s: Seq<u8>) -> Option<u32> {
    let digits = if s.len() > 0 && s[0] == 0x2b {
        s.drop_first()
    } else {
        s
    };
    if digits.len() > 0 && all_digits(digits) && dec_value(digits) <= u32::MAX {
        Some(dec_value(digits) as u32)
    } else {
        None
    }
}

proof fn lemma_dec_value_monotone(s: Seq<u8>, k: int)
    requires
        0 <= k <= s.len(),
        all_digits(s),
    ensures
        dec_value(s) >= dec_value(s.take(k)),
        dec_value(s) >= 0,
        dec_value(s.take(k)) >= 0,
    decreases s.len(),
{
    if s.len() == 0 {
        assert(s.take(k) =~= s);
    } else if k == s.len() {
        assert(s.take(k) =~= s);
        lemma_dec_value_monotone(s.drop_last(), s.len() - 1);
    } else {
        lemma_dec_value_monotone(s.drop_last(), k);
        assert(s.drop_last().take(k) =~= s.take(k));
        assert(is_digit(s.last()));
    }
}

/// Parses the decimal number in `data[start..end]`; mirrors
/// [`spec_parse_u32`].
#[verifier::loop_isolation(false)]
fn parse_u32_dec(data: &[u8], start: usize, end: usize) -> (r: Option<u32>)
    requires
        start <= end <= data@.len(),
    ensures
        r == spec_parse_u32(data@.subrange(start as int, end as int)),
{
    let ghost whole = data@.subrange(start as int, end as int);
    if start == end {
        return None;
    }
    let dstart = if data[start] == 0x2b {
        start + 1
    } else {
        start
    };
    let ghost s = data@.subrange(dstart as int, end as int);
    proof {
        if data@[start as int] == 0x2b {
            assert(whole[0] == 0x2b);
            assert(whole.drop_first() =~= s);
        } else {
            assert(s =~= whole);
        }
    }
    if dstart == end {
        return None;
    }
    let mut acc: u32 = 0;
    let mut j = dstart;
    while j < end
        invariant
            dstart <= j <= end,
            acc as int == dec_value(s.take(j - dstart)),
            all_digits(s.take(j - dstart)),
        decreases end - j,
    {
        let b = data[j];
        if !(0x30 <= b && b <= 0x39) {
            proof {
                assert(s[j - dstart] == b);
                assert(!all_digits(s));
            }
            return None;
        }
        let wide: u64 = acc as u64 * 10 + (b - 0x30) as u64;
        proof {
            assert(s.take(j - dstart + 1).drop_last() =~= s.take(j - dstart));
            assert(s.take(j - dstart + 1).last() == b);
        }
        if wide > 0xffff_ffff {
            proof {
                if all_digits(s) {
                    lemma_dec_value_monotone(s, j - dstart + 1);
                    assert(dec_value(s) > u32::MAX);
                }
            }
            return None;
        }
        acc = wide as u32;
        j = j + 1;
    }
    proof {
        assert(s.take(end - dstart) =~= s);
    }
    Some(acc)
}

/// A dotted-quad octet: one to three digits, no leading zero, at most
/// 255.
pub open spec fn spec_valid_octet(s: Seq<u8>) -> bool {
    1 <= s.len() <= 3 && all_digits(s) && dec_value(s) <= 255 && (s.len() > 1 ==> s[0] != 0x30)
}

/// A dotted-quad IPv4 address literal.
pub open spec fn spec_parse_ipv4(s: Seq<u8>) -> Option<u32> {
    let ps = spec_split(s, 0x2e);
    if ps.len() == 4 && spec_valid_octet(ps[0]) && spec_valid_octet(ps[1]) && spec_valid_octet(
        ps[2],
    ) && spec_valid_octet(ps[3]) {
        Some(
            (dec_value(ps[0]) * 0x1000000 + dec_value(ps[1]) * 0x10000 + dec_value(ps[2]) * 0x100
                + dec_value(ps[3])) as u32,
        )
    } else {
        None
    }
}

/// Powers of ten.
pub open spec fn pow10(n: int) -> int
    decreases n,
{
    if n <= 0 {
        1
    } else {
        10 * pow10(n - 1)
    }
}

proof fn lemma_dec_value_pow(s: Seq<u8>)
    requires
        all_digits(s),
    ensures
        0 <= dec_value(s) < pow10(s.len() as int),
    decreases s.len(),
{
    if s.len() > 0 {
        assert(all_digits(s.drop_last())) by {
            assert(forall|i: int|
                0 <= i < s.len() - 1 ==> s.drop_last()[i] == (#[trigger] s[i]));
        }
        lemma_dec_value_pow(s.drop_last());
        assert(is_digit(s.last()));
        assert(pow10(s.len() as int) == 10 * pow10(s.len() - 1));
    }
}

proof fn lemma_dec_value_bound(s: Seq<u8>)
    requires
        all_digits(s),
        s.len() <= 3,
    ensures
        0 <= dec_value(s) <= 999,
{
    lemma_dec_value_pow(s);
    assert(pow10(s.len() as int) <= 1000) by {
        reveal_with_fuel(pow10, 4);
    }
}

fn parse_octet(p: &Vec<u8>) -> (r: Option<u32>)
    ensures
        match r {
            Some(v) => spec_valid_octet(p@) && v == dec_value(p@),
            None => !spec_valid_octet(p@),
        },
{
    if p.len() < 1 || p.len() > 3 {
        return None;
    }
    if p.len() > 1 && p[0] == 0x30 {
        return None;
    }
    if p[0] == 0x2b {
        return None;
    }
    let v = match parse_u32_dec(p.as_slice(), 0, p.len()) {
        Some(v) => v,
        None => {
            proof {
                assert(p@.subrange(0, p@.len() as int) =~= p@);
                if all_digits(p@) {
                    lemma_dec_value_bound(p@);
                }
            }
            return None;
        },
    };
    proof {
        assert(p@.subrange(0, p@.len() as int) =~= p@);
        assert(spec_parse_u32(p@) == Some(v));
        assert(all_digits(p@) && dec_value(p@) <= u32::MAX && v == dec_value(p@) as u32);
        lemma_dec_value_bound(p@);
        assert(dec_value(p@) == v as int);
    }
    if v > 255 {
        proof {
            assert(!spec_valid_octet(p@));
        }
        return None;
    }
    proof {
        assert(spec_valid_octet(p@));
    }
    Some(v)
}

/// Parses `data[start..end]` as a dotted-quad IPv4 address; mirrors
/// [`spec_parse_ipv4`].
fn parse_ipv4_text(data: &[u8], start: usize, end: usize) -> (r: Option<u32>)
    requires
        start <= end <= data@.len(),
    ensures
        r == spec_parse_ipv4(data@.subrange(start as int, end as int)),
{
    let bytes = copy_bytes(data, start, end);
    let parts = split_bytes(bytes.as_slice(), 0x2e);
    if parts.len() != 4 {
        return None;
    }
    proof {
        assert(parts.deep_view()[0] == parts@[0]@ && parts.deep_view()[1] == parts@[1]@
            && parts.deep_view()[2] == parts@[2]@ && parts.deep_view()[3] == parts@[3]@);
    }
    let v0 = match parse_octet(&parts[0]) {
        Some(v) => v,
        None => {
            return None;
        },
    };
    let v1 = match parse_octet(&parts[1]) {
        Some(v) => v,
        None => {
            return None;
        },
    };
    let v2 = match parse_octet(&parts[2]) {
        Some(v) => v,
        None => {
            return None;
        },
    };
    let v3 = match parse_octet(&parts[3]) {
        Some(v) => v,
        None => {
            return None;
        },
    };
    Some(v0 * 0x1000000 + v1 * 0x10000 + v2 * 0x100 + v3)
}

/// Value of an ASCII hex digit, or a negative number.
pub open spec fn hex_digit_val(b: u8) -> int {
    if 0x30 <= b <= 0x39 {
        b - 0x30
    } else if 0x61 <= b <= 0x66 {
        b - 0x57
    } else if 0x41 <= b <= 0x46 {
        b - 0x37
    } else {
        -1
    }
}

/// Value of a hex digit string.
pub open spec fn hex_value(s: Seq<u8>) -> int
    decreases s.len(),
{
    if s.len() == 0 {
        0
    } else {
        hex_value(s.drop_last()) * 16 + hex_digit_val(s.last())
    }
}

/// One group of an IPv6 literal: one to four hex digits.
pub open spec fn spec_valid_group(s: Seq<u8>) -> bool {
    1 <= s.len() <= 4 && forall|i: int| 0 <= i < s.len() ==> hex_digit_val(#[trigger] s[i]) >= 0
}

/// Every piece is a valid group.
pub open spec fn groups_ok(gs: Seq<Seq<u8>>) -> bool {
    forall|i: int| 0 <= i < gs.len() ==> spec_valid_group(#[trigger] gs[i])
}

/// The 16-bit words of the groups.
pub open spec fn group_values(gs: Seq<Seq<u8>>) -> Seq<u16> {
    gs.map_values(|g: Seq<u8>| hex_value(g) as u16)
}

/// A run of colon-separated pieces whose last piece may be an embedded
/// dotted-quad IPv4 literal; every other piece is a hex group.
pub open spec fn tail_run_ok(gs: Seq<Seq<u8>>) -> bool {
    &&& forall|i: int| 0 <= i < gs.len() - 1 ==> spec_valid_group(#[trigger] gs[i])
    &&& gs.len() > 0 ==> (spec_valid_group(gs.last()) || spec_parse_ipv4(gs.last()) is Some)
}

/// The 16-bit words of such a run; an embedded IPv4 tail stands for two
/// words.
pub open spec fn tail_run_words(gs: Seq<Seq<u8>>) -> Seq<u16> {
    if gs.len() == 0 {
        Seq::empty()
    } else if spec_valid_group(gs.last()) {
        group_values(gs)
    } else {
        match spec_parse_ipv4(gs.last()) {
            Some(a) => group_values(gs.drop_last()) + seq![(a >> 16) as u16, (a & 0xffff) as u16],
            None => Seq::empty(),
        }
    }
}

/// 16-bit words folded big-endian into one number.
pub open spec fn combine_words(ws: Seq<u16>) -> int
    decreases ws.len(),
{
    if ws.len() == 0 {
        0
    } else {
        combine_words(ws.drop_last()) * 0x10000 + ws.last()
    }
}

/// Index of the first `::`, or the length when absent.
pub open spec fn find_dc(s: Seq<u8>) -> int
    decreases s.len(),
{
    if s.len() < 2 {
        s.len() as int
    } else if s[0] == 0x3a && s[1] == 0x3a {
        0
    } else {
        1 + find_dc(s.drop_first())
    }
}

/// An IPv6 address literal: eight hex groups, or two runs of groups
/// joined by one `::` standing for the missing zero groups; the last
/// group may be an embedded dotted-quad IPv4 literal, worth two groups.
pub open spec fn spec_parse_ipv6(s: Seq<u8>) -> Option<u128> {
    let d = find_dc(s);
    if d == s.len() {
        let gs = spec_split(s, 0x3a);
        if tail_run_ok(gs) && tail_run_words(gs).len() == 8 {
            Some(combine_words(tail_run_words(gs)) as u128)
        } else {
            None
        }
    } else {
        let left = s.take(d);
        let right = s.skip(d + 2);
        if find_dc(right) != right.len() {
            None
        } else {
            let lg = if left.len() == 0 {
                Seq::<Seq<u8>>::empty()
            } else {
                spec_split(left, 0x3a)
            };
            let rg = if right.len() == 0 {
                Seq::<Seq<u8>>::empty()
            } else {
                spec_split(right, 0x3a)
            };
            if groups_ok(lg) && tail_run_ok(rg) && lg.len() + tail_run_words(rg).len() <= 7 {
                let ws = group_values(lg) + Seq::new(
                    (8 - lg.len() - tail_run_words(rg).len()) as nat,
                    |i: int| 0u16,
                ) + tail_run_words(rg);
                Some(combine_words(ws) as u128)
            } else {
                None
            }
        }
    }
}

/// Powers of sixteen.
pub open spec fn pow16(n: int) -> int
    decreases n,
{
    if n <= 0 {
        1
    } else {
        16 * pow16(n - 1)
    }
}

proof fn lemma_hex_value_pow(s: Seq<u8>)
    requires
        forall|i: int| 0 <= i < s.len() ==> hex_digit_val(#[trigger] s[i]) >= 0,
    ensures
        0 <= hex_value(s) < pow16(s.len() as int),
    decreases s.len(),
{
    if s.len() > 0 {
        assert(forall|i: int| 0 <= i < s.len() - 1 ==> s.drop_last()[i] == (#[trigger] s[i]));
        lemma_hex_value_pow(s.drop_last());
        assert(hex_digit_val(s.last()) <= 15);
        assert(pow16(s.len() as int) == 16 * pow16(s.len() - 1));
    }
}

proof fn lemma_hex_value_bound(s: Seq<u8>)
    requires
        s.len() <= 4,
        forall|i: int| 0 <= i < s.len() ==> hex_digit_val(#[trigger] s[i]) >= 0,
    ensures
        0 <= hex_value(s) < 0x10000,
{
    lemma_hex_value_pow(s);
    assert(pow16(s.len() as int) <= 0x10000) by {
        reveal_with_fuel(pow16, 5);
    }
}

proof fn lemma_combine_words_bound(ws: Seq<u16>, limit: int)
    requires
        ws.len() <= limit,
        0 <= limit <= 8,
    ensures
        0 <= combine_words(ws) < pow65536(limit),
    decreases ws.len(),
{
    reveal_with_fuel(pow65536, 9);
    if ws.len() == 0 {
        assert(pow65536(limit) >= 1) by {
            lemma_pow65536_pos(limit);
        }
    } else {
        lemma_combine_words_bound(ws.drop_last(), limit - 1);
        assert(pow65536(limit) == 0x10000 * pow65536(limit - 1));
    }
}

/// Powers of 65536, up to the eighth.
pub open spec fn pow65536(n: int) -> int
    decreases n,
{
    if n <= 0 {
        1
    } else {
        0x10000 * pow65536(n - 1)
    }
}

proof fn lemma_pow65536_pos(n: int)
    ensures
        pow65536(n) >= 1,
    decreases n,
{
    if n > 0 {
        lemma_pow65536_pos(n - 1);
    }
}

fn hex_group_value(p: &Vec<u8>) -> (r: Option<u16>)
    ensures
        match r {
            Some(v) => spec_valid_group(p@) && v as int == hex_value(p@),
            None => !spec_valid_group(p@),
        },
{
    if p.len() < 1 || p.len() > 4 {
        return None;
    }
    let mut acc: u32 = 0;
    let mut j: usize = 0;
    while j < p.len()
        invariant
            j <= p@.len(),
            p@.len() <= 4,
            forall|k: int| 0 <= k < j ==> hex_digit_val(#[trigger] p@[k]) >= 0,
            acc as int == hex_value(p@.take(j as int)),
            acc < 0x10000,
        decreases p@.len() - j,
    {
        let b = p[j];
        let d: u32 = if 0x30 <= b && b <= 0x39 {
            (b - 0x30) as u32
        } else if 0x61 <= b && b <= 0x66 {
            (b - 0x57) as u32
        } else if 0x41 <= b && b <= 0x46 {
            (b - 0x37) as u32
        } else {
            proof {
                assert(hex_digit_val(p@[j as int]) < 0);
            }
            return None;
        };
        proof {
            assert(p@.take(j + 1 as int).drop_last() =~= p@.take(j as int));
            assert(p@.take(j + 1 as int).last() == b);
            assert(forall|k: int|
                0 <= k < j + 1 ==> hex_digit_val(#[trigger] p@[k]) >= 0);
            assert(forall|k: int|
                0 <= k < j + 1 ==> hex_digit_val(#[trigger] p@.take(j + 1 as int)[k]) >= 0);
            lemma_hex_value_bound(p@.take(j + 1 as int));
        }
        acc = acc * 16 + d;
        j = j + 1;
    }
    proof {
        assert(p@.take(p@.len() as int) =~= p@);
    }
    Some(acc as u16)
}

fn find_dc_exec(data: &[u8]) -> (r: usize)
    ensures
        r as int == find_dc(data@),
{
    let n = data.len();
    if n < 2 {
        return n;
    }
    let mut i: usize = 0;
    while i + 1 < n
        invariant
            n == data@.len(),
            i + 1 <= n,
            forall|k: int|
                0 <= k < i ==> !((#[trigger] data@[k]) == 0x3a && k + 1 < data@.len() && data@[k
                    + 1] == 0x3a),
        decreases data@.len() - i,
    {
        if data[i] == 0x3a && data[i + 1] == 0x3a {
            proof {
                lemma_find_dc_at(data@, i as int);
            }
            return i;
        }
        i = i + 1;
    }
    proof {
        lemma_find_dc_absent(data@, data@.len() as int);
    }
    data.len()
}

proof fn lemma_find_dc_at(s: Seq<u8>, j: int)
    requires
        0 <= j,
        j + 1 < s.len(),
        s[j] == 0x3a && s[j + 1] == 0x3a,
        forall|k: int|
            0 <= k < j ==> !((#[trigger] s[k]) == 0x3a && k + 1 < s.len() && s[k + 1] == 0x3a),
    ensures
        find_dc(s) == j,
    decreases j,
{
    if j == 0 {
    } else {
        assert(!(s[0] == 0x3a && s[1] == 0x3a));
        assert forall|k: int|
            0 <= k < j - 1 implies !((#[trigger] s.drop_first()[k]) == 0x3a && k + 1
            < s.drop_first().len() && s.drop_first()[k + 1] == 0x3a) by {
            assert(s.drop_first()[k] == s[k + 1]);
            if k + 2 < s.len() {
                assert(s.drop_first()[k + 1] == s[k + 2]);
            }
        }
        lemma_find_dc_at(s.drop_first(), j - 1);
    }
}

proof fn lemma_find_dc_absent(s: Seq<u8>, n: int)
    requires
        n == s.len(),
        forall|k: int| 0 <= k < s.len() - 1 ==> !((#[trigger] s[k]) == 0x3a && s[k + 1] == 0x3a),
    ensures
        find_dc(s) == s.len(),
    decreases s.len(),
{
    if s.len() >= 2 {
        assert(!(s[0] == 0x3a && s[1] == 0x3a));
        assert forall|k: int|
            0 <= k < s.drop_first().len() - 1 implies !((#[trigger] s.drop_first()[k]) == 0x3a
            && s.drop_first()[k + 1] == 0x3a) by {
            assert(s.drop_first()[k] == s[k + 1] && s.drop_first()[k + 1] == s[k + 2]);
        }
        lemma_find_dc_absent(s.drop_first(), s.len() - 1);
    }
}


proof fn lemma_find_dc_range(s: Seq<u8>)
    ensures
        0 <= find_dc(s) <= s.len(),
        find_dc(s) < s.len() ==> find_dc(s) + 1 < s.len() && s[find_dc(s)] == 0x3a && s[find_dc(s)
            + 1] == 0x3a,
    decreases s.len(),
{
    if s.len() >= 2 && !(s[0] == 0x3a && s[1] == 0x3a) {
        lemma_find_dc_range(s.drop_first());
    }
}

fn parse_ipv6_groups(parts: &Vec<Vec<u8>>) -> (r: Option<Vec<u16>>)
    ensures
        match r {
            Some(ws) => groups_ok(parts.deep_view()) && ws@ == group_values(parts.deep_view()),
            None => !groups_ok(parts.deep_view()),
        },
{
    let mut ws: Vec<u16> = Vec::new();
    let mut i: usize = 0;
    while i < parts.len()
        invariant
            i <= parts@.len(),
            ws@.len() == i,
            forall|k: int| 0 <= k < i ==> spec_valid_group(#[trigger] parts.deep_view()[k]),
            forall|k: int| 0 <= k < i ==> ws@[k] as int == hex_value(#[trigger] parts.deep_view()[k]),
        decreases parts@.len() - i,
    {
        proof {
            assert(parts.deep_view()[i as int] == parts@[i as int]@);
        }
        match hex_group_value(&parts[i]) {
            Some(w) => {
                ws.push(w);
            },
            None => {
                return None;
            },
        }
        i = i + 1;
    }
    proof {
        assert(ws@ =~= group_values(parts.deep_view()));
    }
    Some(ws)
}

fn parse_tail_run(parts: &Vec<Vec<u8>>) -> (r: Option<Vec<u16>>)
    ensures
        match r {
            Some(ws) => tail_run_ok(parts.deep_view()) && ws@ == tail_run_words(
                parts.deep_view(),
            ),
            None => !tail_run_ok(parts.deep_view()),
        },
{
    let ghost gs = parts.deep_view();
    if parts.len() == 0 {
        proof {
            assert(tail_run_words(gs) =~= Seq::<u16>::empty());
        }
        return Some(Vec::new());
    }
    let n = parts.len();
    let mut ws: Vec<u16> = Vec::new();
    let mut i: usize = 0;
    while i < n - 1
        invariant
            n == parts@.len(),
            n >= 1,
            i <= n - 1,
            ws@.len() == i,
            forall|k: int| 0 <= k < i ==> spec_valid_group(#[trigger] parts.deep_view()[k]),
            forall|k: int|
                0 <= k < i ==> ws@[k] as int == hex_value(#[trigger] parts.deep_view()[k]),
        decreases n - 1 - i,
    {
        proof {
            assert(parts.deep_view()[i as int] == parts@[i as int]@);
        }
        match hex_group_value(&parts[i]) {
            Some(w) => {
                ws.push(w);
            },
            None => {
                return None;
            },
        }
        i = i + 1;
    }
    proof {
        assert(parts.deep_view()[n - 1] == parts@[n - 1]@);
    }
    match hex_group_value(&parts[n - 1]) {
        Some(w) => {
            ws.push(w);
            proof {
                assert(spec_valid_group(gs.last()));
                assert(ws@ =~= group_values(gs));
            }
            Some(ws)
        },
        None => {
            let last = &parts[n - 1];
            proof {
                assert(last@.subrange(0, last@.len() as int) =~= last@);
            }
            match parse_ipv4_text(last.as_slice(), 0, last.len()) {
                Some(a) => {
                    ws.push((a >> 16) as u16);
                    ws.push((a & 0xffff) as u16);
                    proof {
                        assert(forall|k: int|
                            0 <= k < n - 1 ==> gs.drop_last()[k] == (#[trigger] gs[k]));
                        assert(ws@ =~= tail_run_words(gs));
                    }
                    Some(ws)
                },
                None => {
                    None
                },
            }
        },
    }
}

proof fn lemma_pow65536_mono(a: int, b: int)
    requires
        a <= b,
    ensures
        pow65536(a) <= pow65536(b),
    decreases b - a,
{
    if a < b {
        lemma_pow65536_mono(a, b - 1);
        lemma_pow65536_pos(b - 1);
    }
}

fn combine_words_exec(ws: &Vec<u16>) -> (r: u128)
    requires
        ws@.len() == 8,
    ensures
        r as int == combine_words(ws@),
{
    let mut acc: u128 = 0;
    let mut k: usize = 0;
    proof {
        assert(ws@.take(0) =~= Seq::<u16>::empty());
        reveal_with_fuel(pow65536, 9);
    }
    while k < 8
        invariant
            k <= 8,
            ws@.len() == 8,
            acc as int == combine_words(ws@.take(k as int)),
        decreases 8 - k,
    {
        proof {
            assert(ws@.take(k + 1 as int).drop_last() =~= ws@.take(k as int));
            assert(ws@.take(k + 1 as int).last() == ws@[k as int]);
            lemma_combine_words_bound(ws@.take(k as int), k as int);
            lemma_pow65536_mono(k as int, 7);
            assert(pow65536(8) == 0x10000 * pow65536(7)) by {
                reveal_with_fuel(pow65536, 9);
            }
            assert(pow65536(8) == 0x1_0000_0000_0000_0000_0000_0000_0000_0000) by {
                reveal_with_fuel(pow65536, 9);
            }
        }
        acc = acc * 0x10000 + (ws[k] as u128);
        k = k + 1;
    }
    proof {
        assert(ws@.take(8) =~= ws@);
    }
    acc
}

/// Parses `data[start..end]` as an IPv6 address literal; mirrors
/// [`spec_parse_ipv6`].
#[verifier::rlimit(100)]
#[verifier::loop_isolation(false)]
fn parse_ipv6_text(data: &[u8], start: usize, end: usize) -> (r: Option<u128>)
    requires
        start <= end <= data@.len(),
    ensures
        r == spec_parse_ipv6(data@.subrange(start as int, end as int)),
{
    let bytes = copy_bytes(data, start, end);
    let ghost sv = data@.subrange(start as int, end as int);
    let d = find_dc_exec(bytes.as_slice());
    proof {
        lemma_find_dc_range(bytes@);
    }
    if d == bytes.len() {
        let parts = split_bytes(bytes.as_slice(), 0x3a);
        let ws = match parse_tail_run(&parts) {
            Some(ws) => ws,
            None => {
                return None;
            },
        };
        if ws.len() != 8 {
            return None;
        }
        proof {
            lemma_combine_words_bound(ws@, 8);
            assert(pow65536(8) == 0x1_0000_0000_0000_0000_0000_0000_0000_0000) by {
                reveal_with_fuel(pow65536, 9);
            }
        }
        let v = combine_words_exec(&ws);
        Some(v)
    } else {
        let left = copy_bytes(bytes.as_slice(), 0, d);
        let right = copy_bytes(bytes.as_slice(), d + 2, bytes.len());
        proof {
            assert(left@ =~= sv.take(d as int));
            assert(right@ =~= sv.skip(d + 2 as int));
        }
        if find_dc_exec(right.as_slice()) != right.len() {
            return None;
        }
        let lparts: Vec<Vec<u8>> = if left.len() == 0 {
            Vec::new()
        } else {
            split_bytes(left.as_slice(), 0x3a)
        };
        let rparts: Vec<Vec<u8>> = if right.len() == 0 {
            Vec::new()
        } else {
            split_bytes(right.as_slice(), 0x3a)
        };
        proof {
            if left@.len() == 0 {
                assert(lparts.deep_view() =~~= Seq::<Seq<u8>>::empty());
            }
            if right@.len() == 0 {
                assert(rparts.deep_view() =~~= Seq::<Seq<u8>>::empty());
            }
        }
        let wl = match parse_ipv6_groups(&lparts) {
            Some(ws) => ws,
            None => {
                return None;
            },
        };
        let wr = match parse_tail_run(&rparts) {
            Some(ws) => ws,
            None => {
                return None;
            },
        };
        if wl.len() > 7 {
            return None;
        }
        if wr.len() > 7 - wl.len() {
            return None;
        }
        let mut ws = wl;
        let zeros = 8 - ws.len() - wr.len();
        let mut z: usize = 0;
        let ghost wsl = ws@;
        while z < zeros
            invariant
                z <= zeros,
                ws@ =~= wsl + Seq::new(z as nat, |i: int| 0u16),
            decreases zeros - z,
        {
            ws.push(0u16);
            proof {
                assert(wsl + Seq::new((z + 1) as nat, |i: int| 0u16) =~= (wsl + Seq::new(
                    z as nat,
                    |i: int| 0u16,
                )).push(0u16));
            }
            z = z + 1;
        }
        let mut wr2 = wr;
        ws.append(&mut wr2);
        proof {
            assert(ws@ =~= group_values(lparts.deep_view()) + Seq::new(
                (8 - lparts.deep_view().len() - tail_run_words(rparts.deep_view()).len()) as nat,
                |i: int| 0u16,
            ) + tail_run_words(rparts.deep_view()));
            lemma_combine_words_bound(ws@, 8);
            assert(pow65536(8) == 0x1_0000_0000_0000_0000_0000_0000_0000_0000) by {
                reveal_with_fuel(pow65536, 9);
            }
        }
        let v = combine_words_exec(&ws);
        Some(v)
    }
}

/// Interprets IPv4-compatible and IPv4-mapped IPv6 addresses as IPv4.
pub open spec fn spec_normalize_ip(a: IpAddress) -> IpAddress {
    match a {
        IpAddress::V4(_) => a,
        IpAddress::V6(x) => if x >> 32 == 0 || x >> 32 == 0xffff {
            IpAddress::V4((x & 0xffff_ffff) as u32)
        } else {
            a
        },
    }
}

/// Executable counterpart of [`spec_normalize_ip`].
pub fn normalize_ip_address(ip_addr: IpAddress) -> (r: IpAddress)
    ensures
        r == spec_normalize_ip(ip_addr),
{
    match ip_addr {
        IpAddress::V4(_) => ip_addr,
        IpAddress::V6(x) => {
            if x >> 32 == 0 || x >> 32 == 0xffff {
                IpAddress::V4((x & 0xffff_ffff) as u32)
            } else {
                ip_addr
            }
        },
    }
}

/// ASCII whitespace.
pub open spec fn is_ws(b: u8) -> bool {
    b == 0x20 || (0x09 <= b <= 0x0d)
}

/// Index of the first byte that is not whitespace, or the length.
pub open spec fn first_non_ws(s: Seq<u8>) -> int
    decreases s.len(),
{
    if s.len() == 0 {
        0
    } else if !is_ws(s[0]) {
        0
    } else {
        1 + first_non_ws(s.drop_first())
    }
}

proof fn lemma_first_non_ws(s: Seq<u8>, j: int)
    requires
        0 <= j <= s.len(),
        forall|k: int| 0 <= k < j ==> is_ws(#[trigger] s[k]),
        j < s.len() ==> !is_ws(s[j]),
    ensures
        first_non_ws(s) == j,
    decreases j,
{
    if s.len() > 0 && j > 0 {
        lemma_first_non_ws(s.drop_first(), j - 1);
    }
}

/// A line's trailing carriage return is not part of its content.
pub open spec fn spec_strip_cr(l: Seq<u8>) -> Seq<u8> {
    if l.len() > 0 && l.last() == 0x0d {
        l.drop_last()
    } else {
        l
    }
}

/// Blank lines and comment lines are skipped.
pub open spec fn spec_skippable(l: Seq<u8>) -> bool {
    first_non_ws(l) >= l.len() || l[first_non_ws(l)] == 0x23
}

/// Index of the first route with this network and length, or the length.
pub open spec fn find_v4_route(v: Seq<V4Route>, net: u32, len: u8) -> int
    decreases v.len(),
{
    if v.len() == 0 {
        0
    } else if v[0].net == net && v[0].len == len {
        0
    } else {
        1 + find_v4_route(v.drop_first(), net, len)
    }
}

/// Index of the first route with this network and length, or the length.
pub open spec fn find_v6_route(v: Seq<V6Route>, net: u128, len: u8) -> int
    decreases v.len(),
{
    if v.len() == 0 {
        0
    } else if v[0].net == net && v[0].len == len {
        0
    } else {
        1 + find_v6_route(v.drop_first(), net, len)
    }
}

/// The route list after recording one route: replace the entry with the
/// same prefix, or append.
pub open spec fn spec_insert_v4_seq(v: Seq<V4Route>, r: V4Route) -> Seq<V4Route> {
    let f = find_v4_route(v, r.net, r.len);
    if 0 <= f < v.len() {
        v.update(f, r)
    } else {
        v.push(r)
    }
}

/// The route list after recording one route: replace the entry with the
/// same prefix, or append.
pub open spec fn spec_insert_v6_seq(v: Seq<V6Route>, r: V6Route) -> Seq<V6Route> {
    let f = find_v6_route(v, r.net, r.len);
    if 0 <= f < v.len() {
        v.update(f, r)
    } else {
        v.push(r)
    }
}

proof fn lemma_find_v4_route(v: Seq<V4Route>, net: u32, len: u8)
    ensures
        0 <= find_v4_route(v, net, len) <= v.len(),
        find_v4_route(v, net, len) < v.len() ==> v[find_v4_route(v, net, len)].net == net && v[
            find_v4_route(v, net, len)].len == len,
        forall|k: int|
            0 <= k < find_v4_route(v, net, len) ==> !((#[trigger] v[k]).net == net && v[k].len
                == len),
        find_v4_route(v, net, len) == v.len() ==> forall|k: int|
            0 <= k < v.len() ==> !((#[trigger] v[k]).net == net && v[k].len == len),
    decreases v.len(),
{
    if v.len() > 0 && !(v[0].net == net && v[0].len == len) {
        lemma_find_v4_route(v.drop_first(), net, len);
        assert(forall|k: int| 1 <= k < v.len() ==> v.drop_first()[k - 1] == (#[trigger] v[k]));
    }
}

proof fn lemma_find_v6_route(v: Seq<V6Route>, net: u128, len: u8)
    ensures
        0 <= find_v6_route(v, net, len) <= v.len(),
        find_v6_route(v, net, len) < v.len() ==> v[find_v6_route(v, net, len)].net == net && v[
            find_v6_route(v, net, len)].len == len,
        forall|k: int|
            0 <= k < find_v6_route(v, net, len) ==> !((#[trigger] v[k]).net == net && v[k].len
                == len),
        find_v6_route(v, net, len) == v.len() ==> forall|k: int|
            0 <= k < v.len() ==> !((#[trigger] v[k]).net == net && v[k].len == len),
    decreases v.len(),
{
    if v.len() > 0 && !(v[0].net == net && v[0].len == len) {
        lemma_find_v6_route(v.drop_first(), net, len);
        assert(forall|k: int| 1 <= k < v.len() ==> v.drop_first()[k - 1] == (#[trigger] v[k]));
    }
}

/// Both route lists after one line of the routing table text, or `None`
/// when the line is malformed: not `prefix SPACE asn`, with the prefix a
/// dotted-quad or IPv6 literal, a slash, and a length within range.
pub open spec fn spec_db_after_line(v4: Seq<V4Route>, v6: Seq<V6Route>, raw: Seq<u8>) -> Option<
    (Seq<V4Route>, Seq<V6Route>),
> {
    let l = spec_strip_cr(raw);
    if spec_skippable(l) {
        Some((v4, v6))
    } else {
        let sp = spec_find(l, 0x20);
        if sp >= l.len() {
            None
        } else {
            let route_raw = l.take(sp);
            let asn_raw = l.skip(sp + 1);
            match spec_parse_u32(asn_raw) {
                None => None,
                Some(asn) => {
                    let sl = spec_find(route_raw, 0x2f);
                    if sl >= route_raw.len() {
                        None
                    } else {
                        let addr_raw = route_raw.take(sl);
                        let len_raw = route_raw.skip(sl + 1);
                        match spec_parse_u32(len_raw) {
                            None => None,
                            Some(plen) => match spec_parse_ipv4(addr_raw) {
                                Some(a) => if plen <= 32 {
                                    Some(
                                        (
                                            spec_insert_v4_seq(
                                                v4,
                                                V4Route {
                                                    net: spec_v4_network(a, plen as u8),
                                                    len: plen as u8,
                                                    asn,
                                                },
                                            ),
                                            v6,
                                        ),
                                    )
                                } else {
                                    None
                                },
                                None => match spec_parse_ipv6(addr_raw) {
                                    Some(a) => if plen <= 128 {
                                        Some(
                                            (
                                                v4,
                                                spec_insert_v6_seq(
                                                    v6,
                                                    V6Route {
                                                        net: spec_v6_network(a, plen as u8),
                                                        len: plen as u8,
                                                        asn,
                                                    },
                                                ),
                                            ),
                                        )
                                    } else {
                                        None
                                    },
                                    None => None,
                                },
                            },
                        }
                    }
                },
            }
        }
    }
}

/// Both route lists after every line, or the zero-based index of the
/// first malformed line.
pub open spec fn spec_load_lines(
    v4: Seq<V4Route>,
    v6: Seq<V6Route>,
    lines: Seq<Seq<u8>>,
    idx: int,
) -> Result<(Seq<V4Route>, Seq<V6Route>), LoadIpDatabaseError>
    decreases lines.len(),
{
    if lines.len() == 0 {
        Ok((v4, v6))
    } else {
        match spec_db_after_line(v4, v6, lines[0]) {
            None => Err(LoadIpDatabaseError::MalformedInputFile(idx as usize)),
            Some(p) => spec_load_lines(p.0, p.1, lines.drop_first(), idx + 1),
        }
    }
}

#[verifier::loop_isolation(false)]
fn find_byte(data: &[u8], start: usize, end: usize, b: u8) -> (r: usize)
    requires
        start <= end <= data@.len(),
    ensures
        start <= r <= end,
        r - start == spec_find(data@.subrange(start as int, end as int), b),
        r < end ==> data@[r as int] == b,
{
    let mut j = start;
    while j < end
        invariant
            start <= j <= end,
            forall|k: int| start <= k < j ==> data@[k] != b,
        decreases end - j,
    {
        if data[j] == b {
            proof {
                let sv = data@.subrange(start as int, end as int);
                assert(forall|k: int| 0 <= k < j - start ==> sv[k] == data@[start + k]);
                assert(sv[j - start] == b);
                lemma_spec_find(sv, b, j - start);
            }
            return j;
        }
        j = j + 1;
    }
    proof {
        let sv = data@.subrange(start as int, end as int);
        assert(forall|k: int| 0 <= k < end - start ==> sv[k] == data@[start + k]);
        lemma_spec_find(sv, b, (end - start) as int);
    }
    end
}

impl IpDatabase {
    /// Applies one line of the routing table text; `false` exactly when
    /// the line is malformed, in which case nothing changes.
    #[verifier::rlimit(100)]
    #[verifier::loop_isolation(false)]
    fn apply_routing_table_line(&mut self, line: &[u8]) -> (r: bool)
        requires
            old(self).wf(),
        ensures
            final(self).wf(),
            match spec_db_after_line(old(self).ipv4_to_asn@, old(self).ipv6_to_asn@, line@) {
                Some(p) => r && final(self).ipv4_to_asn@ == p.0 && final(self).ipv6_to_asn@ == p.1,
                None => !r && final(self).ipv4_to_asn@ == old(self).ipv4_to_asn@
                    && final(self).ipv6_to_asn@ == old(self).ipv6_to_asn@,
            },
    {
        let endc = if line.len() > 0 && line[line.len() - 1] == 0x0d {
            line.len() - 1
        } else {
            line.len()
        };
        let ghost l = spec_strip_cr(line@);
        proof {
            assert(l =~= line@.subrange(0, endc as int));
        }
        // Blank or comment line.
        let mut f: usize = 0;
        while f < endc && line[f] == 0x20 || f < endc && 0x09 <= line[f] && line[f] <= 0x0d
            invariant
                f <= endc,
                forall|k: int| 0 <= k < f ==> is_ws(#[trigger] line@[k]),
            decreases endc - f,
        {
            f = f + 1;
        }
        proof {
            assert(forall|k: int| 0 <= k < f ==> is_ws(#[trigger] l[k]));
            if f < endc {
                assert(!is_ws(l[f as int]));
            }
            lemma_first_non_ws(l, f as int);
        }
        if f == endc || line[f] == 0x23 {
            return true;
        }
        // route SPACE asn
        let sp = find_byte(line, 0, endc, 0x20);
        proof {
            assert(line@.subrange(0, endc as int) == l);
        }
        if sp == endc {
            return false;
        }
        let asn = match parse_u32_dec(line, sp + 1, endc) {
            Some(v) => v,
            None => {
                proof {
                    assert(line@.subrange(sp + 1 as int, endc as int) =~= l.skip(sp + 1));
                }
                return false;
            },
        };
        proof {
            assert(line@.subrange(sp + 1 as int, endc as int) =~= l.skip(sp + 1));
        }
        // address SLASH length
        let sl = find_byte(line, 0, sp, 0x2f);
        proof {
            assert(line@.subrange(0, sp as int) =~= l.take(sp as int));
        }
        if sl == sp {
            return false;
        }
        let plen = match parse_u32_dec(line, sl + 1, sp) {
            Some(v) => v,
            None => {
                proof {
                    assert(line@.subrange(sl + 1 as int, sp as int) =~= l.take(sp as int).skip(
                        sl + 1,
                    ));
                }
                return false;
            },
        };
        proof {
            assert(line@.subrange(sl + 1 as int, sp as int) =~= l.take(sp as int).skip(sl + 1));
            assert(line@.subrange(0, sl as int) =~= l.take(sp as int).take(sl as int));
        }
        if let Some(a) = parse_ipv4_text(line, 0, sl) {
            if plen > 32 {
                return false;
            }
            let route = V4Route { net: v4_network_of(a, plen as u8), len: plen as u8, asn };
            proof {
                lemma_find_v4_route(old(self).ipv4_to_asn@, route.net, route.len);
            }
            self.insert_v4(a, plen as u8, asn);
            proof {
                assert(final(self).ipv4_to_asn@ == spec_insert_v4_seq(
                    old(self).ipv4_to_asn@,
                    route,
                ));
            }
            true
        } else if let Some(a) = parse_ipv6_text(line, 0, sl) {
            if plen > 128 {
                return false;
            }
            let route = V6Route { net: v6_network_of(a, plen as u8), len: plen as u8, asn };
            proof {
                lemma_find_v6_route(old(self).ipv6_to_asn@, route.net, route.len);
            }
            self.insert_v6(a, plen as u8, asn);
            proof {
                assert(final(self).ipv6_to_asn@ == spec_insert_v6_seq(
                    old(self).ipv6_to_asn@,
                    route,
                ));
            }
            true
        } else {
            false
        }
    }

    /// Loads an IP route to ASN mapping from routing table text: one
    /// `prefix SPACE asn` route per line; blank lines and lines whose
    /// first non-blank byte starts a comment are skipped. The error
    /// names the first malformed line; the routes of the lines before
    /// it stay.
    #[verifier::loop_isolation(false)]
    pub fn load_routing_table_txt(&mut self, bytes: &[u8]) -> (r: Result<(), LoadIpDatabaseError>)
        requires
            old(self).wf(),
        ensures
            final(self).wf(),
            match r {
                Ok(()) => spec_load_lines(
                    old(self).ipv4_to_asn@,
                    old(self).ipv6_to_asn@,
                    spec_split(bytes@, 0x0a),
                    0,
                ) == Ok::<_, LoadIpDatabaseError>(
                    (final(self).ipv4_to_asn@, final(self).ipv6_to_asn@),
                ),
                Err(e) => spec_load_lines(
                    old(self).ipv4_to_asn@,
                    old(self).ipv6_to_asn@,
                    spec_split(bytes@, 0x0a),
                    0,
                ) == Err::<(Seq<V4Route>, Seq<V6Route>), _>(e),
            },
    {
        let lines = split_bytes(bytes, 0x0a);
        let ghost all = spec_split(bytes@, 0x0a);
        let ghost target = spec_load_lines(old(self).ipv4_to_asn@, old(self).ipv6_to_asn@, all, 0);
        let mut i: usize = 0;
        proof {
            assert(all.skip(0) =~= all);
        }
        while i < lines.len()
            invariant
                i <= lines@.len(),
                lines.deep_view() == all,
                self.wf(),
                target == spec_load_lines(
                    self.ipv4_to_asn@,
                    self.ipv6_to_asn@,
                    all.skip(i as int),
                    i as int,
                ),
            decreases lines@.len() - i,
        {
            proof {
                assert(all.skip(i as int)[0] == lines.deep_view()[i as int]);
                assert(lines.deep_view()[i as int] == lines@[i as int]@);
                assert(all.skip(i as int).drop_first() =~= all.skip(i + 1 as int));
            }
            let ghost pre_v4 = self.ipv4_to_asn@;
            let ghost pre_v6 = self.ipv6_to_asn@;
            let ok = self.apply_routing_table_line(lines[i].as_slice());
            if !ok {
                proof {
                    assert(spec_db_after_line(pre_v4, pre_v6, all.skip(i as int)[0]) is None);
                    assert(spec_load_lines(pre_v4, pre_v6, all.skip(i as int), i as int)
                        == Err::<(Seq<V4Route>, Seq<V6Route>), _>(
                        LoadIpDatabaseError::MalformedInputFile(i),
                    ));
                }
                return Err(LoadIpDatabaseError::MalformedInputFile(i));
            }
            proof {
                assert(spec_db_after_line(pre_v4, pre_v6, all.skip(i as int)[0]) matches Some(p)
                    && p.0 == self.ipv4_to_asn@ && p.1 == self.ipv6_to_asn@);
                assert(spec_load_lines(pre_v4, pre_v6, all.skip(i as int), i as int)
                    == spec_load_lines(
                    self.ipv4_to_asn@,
                    self.ipv6_to_asn@,
                    all.skip(i + 1 as int),
                    i + 1 as int,
                ));
            }
            i = i + 1;
        }
        proof {
            assert(all.skip(lines@.len() as int).len() == 0);
        }
        Ok(())
    }
}

} // verus!
