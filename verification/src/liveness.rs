//! Liveness monitoring of active connections.
//!
//! Each active connection is probed with a lightweight round-trip at a fixed
//! interval; a connection whose last probe response is older than the timeout
//! window is declared dead and torn down. Probe failures are connection-level
//! events: the event loop closes the connection and, on the next need,
//! re-establishes it — they are never surfaced to the UI boundary.

use vstd::prelude::*;

verus! {

/// One monitored connection: the remote peer and the time of the last probe
/// response (or of establishment, before any response arrived).
pub struct ConnEntry {
    pub peer: u64,
    pub last_pong: u64,
}

/// The peer identities of a list of monitored connections, in order.
pub open spec fn conn_ids(es: Seq<ConnEntry>) -> Seq<u64> {
    es.map_values(|e: ConnEntry| e.peer)
}

/// Whether a connection still counts as live at time `now` under timeout
/// window `timeout`.
pub open spec fn live_at(now: u64, timeout: u64) -> spec_fn(ConnEntry) -> bool {
    |e: ConnEntry| e.last_pong + timeout >= now
}

/// Whether a connection's probe response lapsed at time `now`: it is then
/// declared dead.
pub open spec fn dead_at(now: u64, timeout: u64) -> spec_fn(ConnEntry) -> bool {
    |e: ConnEntry| e.last_pong + timeout < now
}

/// Whether a connection belongs to a peer other than `p`.
pub open spec fn other_conn(p: u64) -> spec_fn(ConnEntry) -> bool {
    |e: ConnEntry| e.peer != p
}

/// Filtering keeps the connection peer identities unique and introduces none.
pub proof fn lemma_conn_ids_filter_no_dup(es: Seq<ConnEntry>, pred: spec_fn(ConnEntry) -> bool)
    requires
        conn_ids(es).no_duplicates(),
    ensures
        conn_ids(es.filter(pred)).no_duplicates(),
        forall|x: u64| conn_ids(es.filter(pred)).contains(x) ==> conn_ids(es).contains(x),
    decreases es.len(),
{
    reveal(Seq::filter);
    if es.len() == 0 {
        assert(es.filter(pred) =~= es);
    } else {
        let rest = es.drop_last();
        let e = es.last();
        assert(conn_ids(rest) =~= conn_ids(es).drop_last());
        assert(conn_ids(rest).no_duplicates());
        lemma_conn_ids_filter_no_dup(rest, pred);
        assert(forall|x: u64|
            conn_ids(rest).contains(x) ==> #[trigger] conn_ids(es).contains(x)) by {
            assert(forall|i: int|
                0 <= i < conn_ids(rest).len() ==> conn_ids(rest)[i] == #[trigger] conn_ids(es)[i]);
        }
        if pred(e) {
            assert(es.filter(pred) == rest.filter(pred).push(e));
            assert(conn_ids(es.filter(pred)) =~= conn_ids(rest.filter(pred)).push(e.peer));
            assert(!conn_ids(rest.filter(pred)).contains(e.peer)) by {
                assert(conn_ids(es)[es.len() - 1] == e.peer);
                if conn_ids(rest).contains(e.peer) {
                    let j = choose|j: int|
                        0 <= j < conn_ids(rest).len() && conn_ids(rest)[j] == e.peer;
                    assert(conn_ids(es)[j] == e.peer);
                }
            }
            let f = conn_ids(rest.filter(pred)).push(e.peer);
            assert forall|a: int, b: int| 0 <= a < b < f.len() implies f[a] != f[b] by {
                if b < f.len() - 1 {
                    assert(f[a] == conn_ids(rest.filter(pred))[a]);
                    assert(f[b] == conn_ids(rest.filter(pred))[b]);
                } else {
                    assert(conn_ids(rest.filter(pred)).contains(f[a]));
                }
            }
        } else {
            assert(es.filter(pred) == rest.filter(pred));
        }
    }
}

/// The liveness monitor state: the monitored connections and the timeout
/// window after which an unanswered connection is declared dead.
pub struct Liveness {
    /// Monitored connections (unique peers).
    pub conns: Vec<ConnEntry>,
    /// How long a connection may go without a probe response.
    pub timeout: u64,
}

impl Liveness {
    /// Well-formedness: each peer has at most one monitored connection.
    pub open spec fn wf(self) -> bool {
        conn_ids(self.conns@).no_duplicates()
    }

    /// Whether a connection to `peer` is currently monitored.
    pub open spec fn monitored(self, peer: u64) -> bool {
        conn_ids(self.conns@).contains(peer)
    }

    /// A fresh monitor with no connections.
    pub fn new(timeout: u64) -> (r: Liveness)
        ensures
            r.conns@ == Seq::<ConnEntry>::empty(),
            r.timeout == timeout,
            r.wf(),
    {
        let r = Liveness { conns: Vec::new(), timeout };
        proof {
            assert(conn_ids(r.conns@) =~= Seq::<u64>::empty());
        }
        r
    }

    /// Starts monitoring the connection to `peer`, established (or last
    /// answering) at time `now`; re-adding a monitored peer refreshes it.
    pub fn add_conn(&mut self, peer: u64, now: u64)
        requires
            old(self).wf(),
        ensures
            final(self).conns@ == if old(self).monitored(peer) {
                old(self).conns@.update(
                    conn_ids(old(self).conns@).index_of_first(peer).unwrap(),
                    ConnEntry { peer, last_pong: now },
                )
            } else {
                old(self).conns@.push(ConnEntry { peer, last_pong: now })
            },
            final(self).timeout == old(self).timeout,
            final(self).monitored(peer),
            final(self).wf(),
    {
        let ghost s0 = old(self).conns@;
        proof {
            conn_ids(s0).index_of_first_ensures(peer);
        }
        match Self::find_conn(&self.conns, peer) {
            Some(i) => {
                proof {
                    assert(conn_ids(s0)[i as int] == peer);
                    assert(conn_ids(s0).index_of_first(peer) == Some(i as int));
                }
                let _evicted = self.conns.remove(i);
                self.conns.insert(i, ConnEntry { peer, last_pong: now });
                proof {
                    assert(self.conns@ =~= s0.update(i as int, ConnEntry { peer, last_pong: now }));
                    assert(conn_ids(self.conns@) =~= conn_ids(s0));
                    assert(conn_ids(self.conns@)[i as int] == peer);
                }
            },
            None => {
                self.conns.push(ConnEntry { peer, last_pong: now });
                proof {
                    assert(conn_ids(self.conns@) =~= conn_ids(s0).push(peer));
                    assert(conn_ids(self.conns@)[conn_ids(self.conns@).len() - 1] == peer);
                    assert forall|a: int, b: int|
                        0 <= a < b < conn_ids(self.conns@).len() implies conn_ids(self.conns@)[a]
                        != conn_ids(self.conns@)[b] by {
                        if b == conn_ids(self.conns@).len() - 1 {
                            assert(conn_ids(s0).contains(conn_ids(self.conns@)[a]));
                        }
                    }
                }
            },
        }
    }

    /// Records a probe response from `peer` at time `now`: its connection is
    /// live again for a full timeout window. A response on an unmonitored
    /// connection is ignored.
    pub fn on_pong(&mut self, peer: u64, now: u64)
        requires
            old(self).wf(),
        ensures
            final(self).conns@ == if old(self).monitored(peer) {
                old(self).conns@.update(
                    conn_ids(old(self).conns@).index_of_first(peer).unwrap(),
                    ConnEntry { peer, last_pong: now },
                )
            } else {
                old(self).conns@
            },
            final(self).timeout == old(self).timeout,
            final(self).wf(),
    {
        let ghost s0 = old(self).conns@;
        proof {
            conn_ids(s0).index_of_first_ensures(peer);
        }
        match Self::find_conn(&self.conns, peer) {
            Some(i) => {
                proof {
                    assert(conn_ids(s0)[i as int] == peer);
                    assert(conn_ids(s0).index_of_first(peer) == Some(i as int));
                }
                let _evicted = self.conns.remove(i);
                self.conns.insert(i, ConnEntry { peer, last_pong: now });
                proof {
                    assert(self.conns@ =~= s0.update(i as int, ConnEntry { peer, last_pong: now }));
                    assert(conn_ids(self.conns@) =~= conn_ids(s0));
                }
            },
            None => {},
        }
    }

    /// Stops monitoring the connection to `peer` (teardown on leave or on
    /// shutdown).
    pub fn remove_conn(&mut self, peer: u64)
        requires
            old(self).wf(),
        ensures
            final(self).conns@ == old(self).conns@.filter(other_conn(peer)),
            final(self).timeout == old(self).timeout,
            !final(self).monitored(peer),
            final(self).wf(),
    {
        let ghost pred = other_conn(peer);
        let mut rest: Vec<ConnEntry> = Vec::new();
        core::mem::swap(&mut self.conns, &mut rest);
        let ghost e0 = rest@;
        let mut kept: Vec<ConnEntry> = Vec::new();
        let ghost mut k: int = 0;
        proof {
            assert(e0.skip(0) =~= e0);
            assert(e0.take(0) =~= Seq::<ConnEntry>::empty());
            reveal(Seq::filter);
            assert(kept@ =~= e0.take(0).filter(pred));
        }
        while rest.len() > 0
            invariant
                0 <= k <= e0.len(),
                rest@ == e0.skip(k),
                kept@ == e0.take(k).filter(pred),
                pred == other_conn(peer),
            decreases rest@.len(),
        {
            let ghost rvec = rest@;
            let e = rest.remove(0);
            proof {
                assert(e == rvec[0]);
                assert(rvec[0] == e0[k]);
                rvec.remove_ensures(0);
                assert(rest@ =~= e0.skip(k + 1));
                assert(e0.take(k + 1) =~= e0.take(k) + seq![e0[k]]);
                Seq::filter_distributes_over_add(e0.take(k), seq![e0[k]], pred);
                crate::engine::lemma_filter_singleton(e0[k], pred);
            }
            if e.peer != peer {
                kept.push(e);
                proof {
                    assert(e0.take(k).filter(pred) + seq![e0[k]] =~= e0.take(k).filter(pred).push(
                        e0[k],
                    ));
                    assert(kept@ == e0.take(k + 1).filter(pred));
                }
            } else {
                proof {
                    assert(e0.take(k).filter(pred) + Seq::<ConnEntry>::empty() =~= e0.take(
                        k,
                    ).filter(pred));
                    assert(kept@ == e0.take(k + 1).filter(pred));
                }
            }
            proof {
                k = k + 1;
            }
        }
        proof {
            assert(e0.skip(k).len() == 0);
            assert(k == e0.len());
            assert(e0.take(k) =~= e0);
        }
        self.conns = kept;
        proof {
            lemma_conn_ids_filter_no_dup(e0, pred);
            if self.monitored(peer) {
                let j = choose|j: int|
                    0 <= j < conn_ids(self.conns@).len() && conn_ids(self.conns@)[j] == peer;
                assert(self.conns@[j].peer == peer);
                Seq::lemma_filter_pred(e0, pred, j);
            }
        }
    }

    /// Sweeps the monitored connections at time `now`: every connection whose
    /// probe response lapsed is dropped from the monitor, and the identities
    /// of the dead peers are returned, in order — the liveness timeout events
    /// of this sweep. Live connections are untouched.
    pub fn check(&mut self, now: u64) -> (dead: Vec<u64>)
        requires
            old(self).wf(),
        ensures
            final(self).conns@ == old(self).conns@.filter(live_at(now, old(self).timeout)),
            dead@ == conn_ids(old(self).conns@.filter(dead_at(now, old(self).timeout))),
            final(self).timeout == old(self).timeout,
            final(self).wf(),
    {
        let timeout = self.timeout;
        let ghost keep = live_at(now, timeout);
        let ghost lapse = dead_at(now, timeout);
        let mut rest: Vec<ConnEntry> = Vec::new();
        core::mem::swap(&mut self.conns, &mut rest);
        let ghost e0 = rest@;
        let mut kept: Vec<ConnEntry> = Vec::new();
        let mut dead: Vec<u64> = Vec::new();
        let ghost mut k: int = 0;
        proof {
            assert(e0.skip(0) =~= e0);
            assert(e0.take(0) =~= Seq::<ConnEntry>::empty());
            reveal(Seq::filter);
            assert(kept@ =~= e0.take(0).filter(keep));
            assert(dead@ =~= conn_ids(e0.take(0).filter(lapse)));
        }
        while rest.len() > 0
            invariant
                0 <= k <= e0.len(),
                rest@ == e0.skip(k),
                kept@ == e0.take(k).filter(keep),
                dead@ == conn_ids(e0.take(k).filter(lapse)),
                keep == live_at(now, timeout),
                lapse == dead_at(now, timeout),
                self.timeout == timeout,
            decreases rest@.len(),
        {
            let ghost rvec = rest@;
            let e = rest.remove(0);
            proof {
                assert(e == rvec[0]);
                assert(rvec[0] == e0[k]);
                rvec.remove_ensures(0);
                assert(rest@ =~= e0.skip(k + 1));
                assert(e0.take(k + 1) =~= e0.take(k) + seq![e0[k]]);
                Seq::filter_distributes_over_add(e0.take(k), seq![e0[k]], keep);
                Seq::filter_distributes_over_add(e0.take(k), seq![e0[k]], lapse);
                crate::engine::lemma_filter_singleton(e0[k], keep);
                crate::engine::lemma_filter_singleton(e0[k], lapse);
            }
            let lapsed = now > timeout && e.last_pong < now - timeout;
            proof {
                assert(lapsed == lapse(e0[k]));
                assert(keep(e0[k]) == !lapse(e0[k]));
            }
            if lapsed {
                dead.push(e.peer);
                proof {
                    assert(e0.take(k).filter(lapse) + seq![e0[k]] =~= e0.take(k).filter(lapse).push(
                        e0[k],
                    ));
                    assert(conn_ids(e0.take(k).filter(lapse).push(e0[k])) =~= conn_ids(
                        e0.take(k).filter(lapse),
                    ).push(e0[k].peer));
                    assert(dead@ == conn_ids(e0.take(k + 1).filter(lapse)));
                    assert(e0.take(k).filter(keep) + Seq::<ConnEntry>::empty() =~= e0.take(
                        k,
                    ).filter(keep));
                    assert(kept@ == e0.take(k + 1).filter(keep));
                }
            } else {
                kept.push(e);
                proof {
                    assert(e0.take(k).filter(keep) + seq![e0[k]] =~= e0.take(k).filter(keep).push(
                        e0[k],
                    ));
                    assert(kept@ == e0.take(k + 1).filter(keep));
                    assert(e0.take(k).filter(lapse) + Seq::<ConnEntry>::empty() =~= e0.take(
                        k,
                    ).filter(lapse));
                    assert(dead@ == conn_ids(e0.take(k + 1).filter(lapse)));
                }
            }
            proof {
                k = k + 1;
            }
        }
        proof {
            assert(e0.skip(k).len() == 0);
            assert(k == e0.len());
            assert(e0.take(k) =~= e0);
        }
        self.conns = kept;
        proof {
            lemma_conn_ids_filter_no_dup(e0, keep);
        }
        dead
    }

    /// Finds the index of the connection of peer `p`, if monitored.
    fn find_conn(conns: &Vec<ConnEntry>, p: u64) -> (r: Option<usize>)
        ensures
            match r {
                Some(i) => i < conns@.len() && conns@[i as int].peer == p,
                None => !conn_ids(conns@).contains(p),
            },
    {
        let mut i: usize = 0;
        while i < conns.len()
            invariant
                i <= conns@.len(),
                forall|j: int| 0 <= j < i ==> conns@[j].peer != p,
            decreases conns@.len() - i,
        {
            if conns[i].peer == p {
                return Some(i);
            }
            i = i + 1;
        }
        assert(forall|j: int| 0 <= j < conn_ids(conns@).len() ==> conn_ids(conns@)[j] != p);
        None
    }
}

} // verus!
