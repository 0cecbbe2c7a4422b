//! Backend connection pool: resolved backend addresses, per-address
//! open-connection counters, and a FIFO queue of pre-established idle
//! connections.
//!
//! The pool here is the decision layer: which backend to connect to, what
//! enters and leaves the idle queue, and how the counters move. The
//! sockets themselves live with the caller, keyed by the connection
//! identifiers this model hands out. A ghost multiset tracks every
//! outstanding ownership guard, and well-formedness states that each
//! backend's counter equals the number of unreleased guards that
//! reference it.

use vstd::prelude::*;
use vstd::multiset::Multiset;
use vstd::pervasive::VecAdditionalExecFns;

verus! {

/// A resolved IP address as plain values.
#[derive(Debug, Clone, Copy, PartialEq, Eq, Structural)]
pub enum IpAddress {
    V4(u32),
    V6(u128),
}

/// A resolved socket address.
#[derive(Debug, Clone, Copy, PartialEq, Eq, Structural)]
pub struct SockAddr {
    pub ip: IpAddress,
    pub port: u16,
}

/// One resolved backend address plus its open-connection counter. The
/// counter is a load heuristic for least-loaded selection, never an
/// admission limit.
#[derive(Debug, Clone, Copy)]
pub struct BackendState {
    pub addr: SockAddr,
    pub open_connections: u32,
}

impl BackendState {
    /// A backend with no connections yet.
    pub fn new(addr: SockAddr) -> (r: BackendState)
        ensures
            r.addr == addr,
            r.open_connections == 0,
    {
        BackendState { addr, open_connections: 0 }
    }
}

/// Ownership guard for one open connection. Handing it back to
/// [`Pool::release_connection`] is the only thing that decrements the
/// referenced backend's counter, and happens exactly once per guard.
#[derive(Debug)]
pub struct ConnectionRef {
    pub backend_index: usize,
}

/// An idle pooled connection: the identifier the caller keyed the socket
/// by, and the guard that keeps its backend's counter up.
#[derive(Debug)]
pub struct IdleConn {
    pub conn_id: u64,
    pub guard: ConnectionRef,
}

/// The backend index an idle connection's guard references.
pub open spec fn guard_index_of() -> spec_fn(IdleConn) -> int {
    |c: IdleConn| c.guard.backend_index as int
}

/// Backend indices referenced by a queue of idle connections.
pub open spec fn guard_ms(s: Seq<IdleConn>) -> Multiset<int> {
    s.map_values(guard_index_of()).to_multiset()
}

proof fn lemma_guard_ms_push(s: Seq<IdleConn>, c: IdleConn)
    ensures
        guard_ms(s.push(c)) == guard_ms(s).insert(c.guard.backend_index as int),
{
    broadcast use vstd::seq_lib::group_to_multiset_ensures;

    assert(s.push(c).map_values(guard_index_of()) =~= s.map_values(guard_index_of()).push(
        c.guard.backend_index as int,
    ));
}

proof fn lemma_guard_ms_drop_first(s: Seq<IdleConn>)
    requires
        s.len() > 0,
    ensures
        guard_ms(s.drop_first()) == guard_ms(s).remove(s[0].guard.backend_index as int),
{
    broadcast use vstd::seq_lib::group_to_multiset_ensures;

    let m = s.map_values(guard_index_of());
    assert(s.drop_first().map_values(guard_index_of()) =~= m.remove(0));
    assert(m.remove(0).to_multiset() =~= m.to_multiset().remove(m[0]));
}

proof fn lemma_guard_ms_take_push(s: Seq<IdleConn>, p: int)
    requires
        0 <= p < s.len(),
    ensures
        guard_ms(s.take(p + 1)) == guard_ms(s.take(p)).insert(s[p].guard.backend_index as int),
{
    assert(s.take(p + 1) =~= s.take(p).push(s[p]));
    lemma_guard_ms_push(s.take(p), s[p]);
}

/// The pool of one routable domain.
pub struct Pool {
    /// The distinct resolved backend addresses.
    pub backends: Vec<BackendState>,
    /// FIFO queue of idle connections; the head is index 0.
    pub idle: Vec<IdleConn>,
    /// How many connections to pre-establish at startup.
    pub preconnect_count: usize,
    /// Next connection identifier to hand out.
    pub next_conn_id: u64,
    /// Every outstanding guard's backend index, queued or handed out.
    pub guards: Ghost<Multiset<int>>,
}

impl Pool {
    /// Backend indices of the queued idle connections.
    pub open spec fn idle_ms(&self) -> Multiset<int> {
        guard_ms(self.idle@)
    }

    /// Pool invariant: counters equal outstanding guards, queued guards
    /// are a sub-multiset of all outstanding guards, and queued
    /// connection identifiers are distinct.
    pub open spec fn wf(&self) -> bool {
        &&& forall|i: int|
            0 <= i < self.backends@.len() ==> (#[trigger] self.backends@[i]).open_connections
                as nat == self.guards@.count(i)
        &&& forall|x: int| !(0 <= x < self.backends@.len()) ==> self.guards@.count(x) == 0
        &&& forall|j: int|
            0 <= j < self.idle@.len() ==> (#[trigger] self.idle@[j]).guard.backend_index
                < self.backends@.len()
        &&& self.idle_ms().subset_of(self.guards@)
        &&& forall|j: int|
            0 <= j < self.idle@.len() ==> (#[trigger] self.idle@[j]).conn_id < self.next_conn_id
        &&& forall|j: int, k: int|
            0 <= j < k < self.idle@.len() ==> self.idle@[j].conn_id != self.idle@[k].conn_id
    }

    /// `i` is the backend the pool prefers: the least-loaded one, first
    /// of its kind in iteration order.
    pub open spec fn is_least_loaded(&self, i: int) -> bool {
        &&& 0 <= i < self.backends@.len()
        &&& forall|j: int|
            0 <= j < self.backends@.len() ==> self.backends@[i].open_connections
                <= (#[trigger] self.backends@[j]).open_connections
        &&& forall|j: int|
            0 <= j < i ==> (#[trigger] self.backends@[j]).open_connections
                > self.backends@[i].open_connections
    }

    /// Builds a pool from resolved addresses: duplicates are coalesced
    /// (first occurrence kept), every counter starts at zero, the idle
    /// queue starts empty.
    pub fn new(addrs: &Vec<SockAddr>, preconnect_count: usize) -> (r: Pool)
        ensures
            r.wf(),
            r.idle@.len() == 0,
            r.guards@ == Multiset::<int>::empty(),
            r.preconnect_count == preconnect_count,
            r.backends@.len() <= addrs@.len(),
            forall|i: int|
                0 <= i < r.backends@.len() ==> addrs@.contains(
                    (#[trigger] r.backends@[i]).addr,
                ) && r.backends@[i].open_connections == 0,
            forall|a: SockAddr| addrs@.contains(a) ==> exists|i: int|
                0 <= i < r.backends@.len() && (#[trigger] r.backends@[i]).addr == a,
            forall|i: int, j: int|
                0 <= i < j < r.backends@.len() ==> r.backends@[i].addr != r.backends@[j].addr,
            addrs@.len() > 0 ==> r.backends@.len() > 0,
    {
        let mut backends: Vec<BackendState> = Vec::new();
        let mut i: usize = 0;
        while i < addrs.len()
            invariant
                i <= addrs@.len(),
                backends@.len() <= i,
                forall|k: int|
                    0 <= k < backends@.len() ==> addrs@.take(i as int).contains(
                        (#[trigger] backends@[k]).addr,
                    ) && backends@[k].open_connections == 0,
                forall|a: SockAddr| addrs@.take(i as int).contains(a) ==> exists|k: int|
                    0 <= k < backends@.len() && (#[trigger] backends@[k]).addr == a,
                forall|k: int, l: int|
                    0 <= k < l < backends@.len() ==> backends@[k].addr != backends@[l].addr,
                i > 0 ==> backends@.len() > 0,
            decreases addrs@.len() - i,
        {
            let a = addrs[i];
            let mut seen = false;
            let mut k: usize = 0;
            while k < backends.len()
                invariant
                    k <= backends@.len(),
                    seen == exists|l: int|
                        0 <= l < k && (#[trigger] backends@[l]).addr == a,
                decreases backends@.len() - k,
            {
                if backends[k].addr == a {
                    seen = true;
                }
                k = k + 1;
            }
            let ghost pre = backends@;
            if !seen {
                backends.push(BackendState::new(a));
            }
            proof {
                assert(addrs@.take(i + 1 as int).drop_last() =~= addrs@.take(i as int));
                assert(exists|l: int|
                    0 <= l < backends@.len() && (#[trigger] backends@[l]).addr == a) by {
                    if seen {
                        let l = choose|l: int| 0 <= l < pre.len() && (#[trigger] pre[l]).addr == a;
                        assert(backends@[l].addr == a);
                    } else {
                        assert(backends@[backends@.len() - 1].addr == a);
                    }
                }
                assert forall|x: SockAddr| #[trigger] addrs@.take(i + 1 as int).contains(
                    x,
                ) implies exists|l: int|
                    0 <= l < backends@.len() && (#[trigger] backends@[l]).addr == x by {
                    if x != a {
                        assert(addrs@.take(i as int).contains(x));
                        let l = choose|l: int| 0 <= l < pre.len() && (#[trigger] pre[l]).addr == x;
                        assert(backends@[l].addr == x);
                    }
                }
                assert forall|k2: int|
                    0 <= k2 < backends@.len() implies addrs@.take(i + 1 as int).contains(
                    (#[trigger] backends@[k2]).addr,
                ) && backends@[k2].open_connections == 0 by {
                    if k2 < pre.len() {
                        let w = choose|w: int|
                            0 <= w < i && addrs@.take(i as int)[w] == pre[k2].addr;
                        assert(addrs@.take(i + 1 as int)[w] == backends@[k2].addr);
                    } else {
                        assert(backends@[k2].addr == a);
                        assert(addrs@.take(i + 1 as int)[i as int] == a);
                    }
                }
            }
            i = i + 1;
        }
        proof {
            assert(addrs@.take(addrs@.len() as int) =~= addrs@);
        }
        let pool = Pool {
            backends,
            idle: Vec::new(),
            preconnect_count,
            next_conn_id: 0,
            guards: Ghost(Multiset::empty()),
        };
        proof {
            broadcast use vstd::multiset::group_multiset_axioms;
            broadcast use vstd::seq_lib::group_to_multiset_ensures;

            assert(pool.idle@.map_values(|c: IdleConn| c.guard.backend_index as int)
                =~= Seq::<int>::empty());
        }
        pool
    }

    /// Reserves a new connection toward the least-loaded backend: creates
    /// the guard and bumps that backend's counter. The caller performs
    /// the actual connect and then either queues the connection with
    /// [`Pool::enqueue_idle`] or hands the guard back with
    /// [`Pool::release_connection`]. `None` only when the chosen counter
    /// is saturated.
    pub fn request_connection(&mut self) -> (r: Option<ConnectionRef>)
        requires
            old(self).wf(),
            old(self).backends@.len() > 0,
        ensures
            final(self).wf(),
            final(self).idle == old(self).idle,
            final(self).preconnect_count == old(self).preconnect_count,
            final(self).next_conn_id == old(self).next_conn_id,
            final(self).backends@.len() == old(self).backends@.len(),
            match r {
                Some(g) => {
                    &&& old(self).is_least_loaded(g.backend_index as int)
                    &&& old(self).backends@[g.backend_index as int].open_connections < u32::MAX
                    &&& final(self).guards@ == old(self).guards@.insert(g.backend_index as int)
                    &&& final(self).backends@ == old(self).backends@.update(
                        g.backend_index as int,
                        BackendState {
                            open_connections: (old(self).backends@[g.backend_index as int].open_connections
                                + 1) as u32,
                            ..old(self).backends@[g.backend_index as int]
                        },
                    )
                },
                None => {
                    &&& *final(self) == *old(self)
                    &&& forall|j: int|
                        0 <= j < old(self).backends@.len() ==> (#[trigger] old(self).backends@[j]).open_connections
                            == u32::MAX
                },
            },
    {
        broadcast use vstd::multiset::group_multiset_axioms;

        let i = self.select_backend();
        let cur = self.backends[i].open_connections;
        if cur == u32::MAX {
            return None;
        }
        let mut b = self.backends[i];
        b.open_connections = cur + 1;
        self.backends.set(i, b);
        self.guards = Ghost(self.guards@.insert(i as int));
        proof {
            assert(final(self).backends@ =~= old(self).backends@.update(
                i as int,
                BackendState {
                    open_connections: (cur + 1) as u32,
                    ..old(self).backends@[i as int]
                },
            ));
        }
        Some(ConnectionRef { backend_index: i })
    }

    /// Releases an ownership guard: the referenced backend's counter
    /// drops by one. This is the only operation that decrements a
    /// counter, and each guard passes through it at most once because it
    /// is consumed here.
    pub fn release_connection(&mut self, g: ConnectionRef)
        requires
            old(self).wf(),
            g.backend_index < old(self).backends@.len(),
            old(self).idle_ms().count(g.backend_index as int) < old(self).guards@.count(
                g.backend_index as int,
            ),
        ensures
            final(self).wf(),
            final(self).idle == old(self).idle,
            final(self).preconnect_count == old(self).preconnect_count,
            final(self).next_conn_id == old(self).next_conn_id,
            final(self).guards@ == old(self).guards@.remove(g.backend_index as int),
            final(self).backends@ == old(self).backends@.update(
                g.backend_index as int,
                BackendState {
                    open_connections: (old(self).backends@[g.backend_index as int].open_connections
                        - 1) as u32,
                    ..old(self).backends@[g.backend_index as int]
                },
            ),
    {
        broadcast use vstd::multiset::group_multiset_axioms;

        let i = g.backend_index;
        proof {
            assert(old(self).guards@.count(i as int) > 0);
        }
        let mut b = self.backends[i];
        b.open_connections = b.open_connections - 1;
        self.backends.set(i, b);
        self.guards = Ghost(self.guards@.remove(i as int));
        proof {
            assert(final(self).backends@ =~= old(self).backends@.update(
                i as int,
                BackendState {
                    open_connections: (old(self).backends@[i as int].open_connections - 1) as u32,
                    ..old(self).backends@[i as int]
                },
            ));
        }
    }

    /// Appends a freshly connected socket's guard at the tail of the idle
    /// queue and hands back the identifier the caller keys the socket by.
    pub fn enqueue_idle(&mut self, g: ConnectionRef) -> (id: u64)
        requires
            old(self).wf(),
            g.backend_index < old(self).backends@.len(),
            old(self).idle_ms().count(g.backend_index as int) < old(self).guards@.count(
                g.backend_index as int,
            ),
            old(self).next_conn_id < u64::MAX,
        ensures
            final(self).wf(),
            id == old(self).next_conn_id,
            final(self).idle@ == old(self).idle@.push(IdleConn { conn_id: id, guard: g }),
            final(self).next_conn_id == old(self).next_conn_id + 1,
            final(self).backends == old(self).backends,
            final(self).guards == old(self).guards,
            final(self).preconnect_count == old(self).preconnect_count,
    {
        broadcast use vstd::multiset::group_multiset_axioms;

        let id = self.next_conn_id;
        let ghost gi = g.backend_index as int;
        let entry = IdleConn { conn_id: id, guard: g };
        self.idle.push(entry);
        self.next_conn_id = id + 1;
        proof {
            lemma_guard_ms_push(old(self).idle@, final(self).idle@[old(self).idle@.len() as int]);
            assert(final(self).idle_ms() == old(self).idle_ms().insert(gi));
        }
        id
    }

    /// Serves an acquisition: pops from the head of the idle queue,
    /// discarding every connection whose remote peer already closed it
    /// (its guard is released on the spot), and returns the first live
    /// one, if any. `alive[j]` is the caller's liveness verdict for the
    /// j-th queued connection. The second result is how many entries
    /// were popped, each of which the caller replaces with one new
    /// [`Pool::request_connection`]. A connection reported dead is never
    /// returned.
    #[verifier::loop_isolation(false)]
    pub fn get_connection(&mut self, alive: &Vec<bool>) -> (r: (Option<IdleConn>, usize))
        requires
            old(self).wf(),
            alive@.len() >= old(self).idle@.len(),
        ensures
            final(self).wf(),
            final(self).backends@.len() == old(self).backends@.len(),
            forall|i: int|
                0 <= i < old(self).backends@.len() ==> (#[trigger] final(self).backends@[i]).addr
                    == old(self).backends@[i].addr,
            final(self).preconnect_count == old(self).preconnect_count,
            final(self).next_conn_id == old(self).next_conn_id,
            r.1 <= old(self).idle@.len(),
            final(self).idle@ == old(self).idle@.skip(r.1 as int),
            match r.0 {
                Some(c) => {
                    &&& 1 <= r.1
                    &&& c == old(self).idle@[r.1 - 1]
                    &&& alive@[r.1 - 1]
                    &&& forall|j: int| 0 <= j < r.1 - 1 ==> !(#[trigger] alive@[j])
                    &&& forall|x: int|
                        final(self).guards@.count(x) + guard_ms(
                            old(self).idle@.take(r.1 - 1),
                        ).count(x) == old(self).guards@.count(x)
                    &&& forall|j: int|
                        0 <= j < final(self).idle@.len() ==> (#[trigger] final(self).idle@[j]).conn_id
                            != c.conn_id
                },
                None => {
                    &&& r.1 == old(self).idle@.len()
                    &&& forall|j: int| 0 <= j < r.1 ==> !(#[trigger] alive@[j])
                    &&& forall|x: int|
                        final(self).guards@.count(x) + guard_ms(
                            old(self).idle@.take(r.1 as int),
                        ).count(x) == old(self).guards@.count(x)
                },
            },
    {
        broadcast use vstd::multiset::group_multiset_axioms;
        broadcast use vstd::seq_lib::group_to_multiset_ensures;

        let ghost orig_idle = old(self).idle@;
        let ghost g0 = old(self).guards@;
        let n0 = self.idle.len();
        proof {
            assert(orig_idle.len() == n0 as int);
        }
        let mut popped: usize = 0;
        let mut found: Option<IdleConn> = None;
        while found.is_none() && self.idle.len() > 0
            invariant
                old(self).wf(),
                alive@.len() >= orig_idle.len(),
                orig_idle == old(self).idle@,
                g0 == old(self).guards@,
                self.wf(),
                self.backends@.len() == old(self).backends@.len(),
                forall|i: int|
                    0 <= i < old(self).backends@.len() ==> (#[trigger] self.backends@[i]).addr
                        == old(self).backends@[i].addr,
                self.preconnect_count == old(self).preconnect_count,
                self.next_conn_id == old(self).next_conn_id,
                popped <= orig_idle.len(),
                self.idle@ == orig_idle.skip(popped as int),
                match found {
                    None => {
                        &&& forall|j: int| 0 <= j < popped ==> !(#[trigger] alive@[j])
                        &&& forall|x: int|
                            self.guards@.count(x) + guard_ms(
                                orig_idle.take(popped as int),
                            ).count(x) == g0.count(x)
                    },
                    Some(c) => {
                        &&& 1 <= popped
                        &&& c == orig_idle[popped - 1]
                        &&& alive@[popped - 1]
                        &&& forall|j: int| 0 <= j < popped - 1 ==> !(#[trigger] alive@[j])
                        &&& forall|x: int|
                            self.guards@.count(x) + guard_ms(orig_idle.take(popped - 1)).count(x)
                                == g0.count(x)
                    },
                },
            decreases self.idle@.len(),
        {
            let ghost pre_idle = self.idle@;
            let ghost pre_guards = self.guards@;
            let c = self.idle.remove(0);
            proof {
                assert(self.idle@ =~= pre_idle.drop_first());
                assert(pre_idle.drop_first() =~= orig_idle.skip(popped + 1 as int));
                assert(c == orig_idle[popped as int]);
                lemma_guard_ms_drop_first(pre_idle);
                lemma_guard_ms_take_push(orig_idle, popped as int);
            }
            popped = popped + 1;
            if alive[popped - 1] {
                found = Some(c);
            } else {
                let idx = c.guard.backend_index;
                proof {
                    assert(guard_ms(pre_idle).count(idx as int) > 0) by {
                        let m = pre_idle.map_values(guard_index_of());
                        assert(m[0] == idx as int);
                        assert(m.contains(idx as int));
                    }
                    assert(self.guards@.count(idx as int) > 0);
                    assert(self.backends@[idx as int].open_connections > 0);
                }
                let mut b = self.backends[idx];
                b.open_connections = b.open_connections - 1;
                self.backends.set(idx, b);
                self.guards = Ghost(self.guards@.remove(idx as int));
                proof {
                    assert(self.idle_ms() == guard_ms(pre_idle).remove(idx as int));
                }
            }
        }
        if found.is_some() {
            return (found, popped);
        }
        proof {
            assert(orig_idle.skip(popped as int).len() == 0);
            assert(popped == orig_idle.len());
        }
        (None, popped)
    }

    /// First least-loaded backend, the one a new connection goes to.
    pub fn select_backend(&self) -> (r: usize)
        requires
            self.backends@.len() > 0,
        ensures
            self.is_least_loaded(r as int),
    {
        let mut best: usize = 0;
        let mut i: usize = 1;
        while i < self.backends.len()
            invariant
                best < i <= self.backends@.len(),
                self.backends@.len() > 0,
                forall|j: int|
                    0 <= j < i ==> self.backends@[best as int].open_connections
                        <= (#[trigger] self.backends@[j]).open_connections,
                forall|j: int|
                    0 <= j < best ==> (#[trigger] self.backends@[j]).open_connections
                        > self.backends@[best as int].open_connections,
            decreases self.backends@.len() - i,
        {
            if self.backends[i].open_connections < self.backends[best].open_connections {
                best = i;
            }
            i = i + 1;
        }
        best
    }
}

} // verus!
