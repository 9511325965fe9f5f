//! Peer discovery presence tracking.
//!
//! The service listens for periodic presence announcements ("this peer, with
//! these topics of interest, is here") and maintains the set of currently
//! present peers. A peer joins when its first announcement arrives and
//! expires once no announcement refreshed it within the expiry window. The
//! state machine per remote peer is: unknown, then discovered (join
//! reported), then expired (leave reported), then unknown again — exactly one
//! join per presence interval, exactly one leave per absence interval, never
//! a duplicate join for a present peer and never a leave for an absent one.

use vstd::prelude::*;

verus! {

/// One currently present peer: its identity, the topics it advertised, and
/// the time of the last announcement that refreshed it.
pub struct DiscEntry {
    pub peer: u64,
    pub topics: Vec<Vec<u8>>,
    pub last_seen: u64,
}

/// Mathematical model of a [`DiscEntry`].
#[verifier::ext_equal]
pub ghost struct DiscEntryView {
    pub peer: u64,
    pub topics: Seq<Seq<u8>>,
    pub last_seen: u64,
}

impl View for DiscEntry {
    type V = DiscEntryView;

    open spec fn view(&self) -> DiscEntryView {
        DiscEntryView {
            peer: self.peer,
            topics: crate::engine::bytes_view(self.topics@),
            last_seen: self.last_seen,
        }
    }
}

/// The entry views of a list of discovery entries, elementwise.
pub open spec fn disc_view(v: Seq<DiscEntry>) -> Seq<DiscEntryView> {
    v.map_values(|e: DiscEntry| e@)
}

/// The peer identities of a list of discovery entries, in order.
pub open spec fn disc_ids(es: Seq<DiscEntryView>) -> Seq<u64> {
    es.map_values(|e: DiscEntryView| e.peer)
}

/// Whether an entry was refreshed recently enough at time `now` to still
/// count as present under expiry window `expiry`.
pub open spec fn fresh_at(now: u64, expiry: u64) -> spec_fn(DiscEntryView) -> bool {
    |e: DiscEntryView| e.last_seen + expiry >= now
}

/// Whether an entry's presence has lapsed at time `now`: no announcement
/// refreshed it within the expiry window.
pub open spec fn expired_at(now: u64, expiry: u64) -> spec_fn(DiscEntryView) -> bool {
    |e: DiscEntryView| e.last_seen + expiry < now
}

/// Whether an entry belongs to a peer other than `p`.
pub open spec fn other_peer(p: u64) -> spec_fn(DiscEntryView) -> bool {
    |e: DiscEntryView| e.peer != p
}

/// The entries and the join verdict after an announcement from `peer` at
/// time `now`: a new entry (and a join) for an absent peer, a refresh of
/// `last_seen` (and no join) for a present one.
pub open spec fn announce_spec(
    es: Seq<DiscEntryView>,
    peer: u64,
    topics: Seq<Seq<u8>>,
    now: u64,
) -> (Seq<DiscEntryView>, bool) {
    if !disc_ids(es).contains(peer) {
        (es.push(DiscEntryView { peer, topics, last_seen: now }), true)
    } else {
        let i = disc_ids(es).index_of_first(peer).unwrap();
        (es.update(i, DiscEntryView { last_seen: now, ..es[i] }), false)
    }
}

/// Filtering keeps the discovery peer identities unique and introduces none.
pub proof fn lemma_disc_ids_filter_no_dup(
    es: Seq<DiscEntryView>,
    pred: spec_fn(DiscEntryView) -> bool,
)
    requires
        disc_ids(es).no_duplicates(),
    ensures
        disc_ids(es.filter(pred)).no_duplicates(),
        forall|x: u64| disc_ids(es.filter(pred)).contains(x) ==> disc_ids(es).contains(x),
    decreases es.len(),
{
    reveal(Seq::filter);
    if es.len() == 0 {
        assert(es.filter(pred) =~= es);
    } else {
        let rest = es.drop_last();
        let e = es.last();
        assert(disc_ids(rest) =~= disc_ids(es).drop_last());
        assert(disc_ids(rest).no_duplicates());
        lemma_disc_ids_filter_no_dup(rest, pred);
        assert(forall|x: u64|
            disc_ids(rest).contains(x) ==> #[trigger] disc_ids(es).contains(x)) by {
            assert(forall|i: int|
                0 <= i < disc_ids(rest).len() ==> disc_ids(rest)[i] == #[trigger] disc_ids(es)[i]);
        }
        if pred(e) {
            assert(es.filter(pred) == rest.filter(pred).push(e));
            assert(disc_ids(es.filter(pred)) =~= disc_ids(rest.filter(pred)).push(e.peer));
            assert(!disc_ids(rest.filter(pred)).contains(e.peer)) by {
                assert(disc_ids(es)[es.len() - 1] == e.peer);
                if disc_ids(rest).contains(e.peer) {
                    let j = choose|j: int|
                        0 <= j < disc_ids(rest).len() && disc_ids(rest)[j] == e.peer;
                    assert(disc_ids(es)[j] == e.peer);
                }
            }
            let f = disc_ids(rest.filter(pred)).push(e.peer);
            assert forall|a: int, b: int| 0 <= a < b < f.len() implies f[a] != f[b] by {
                if b < f.len() - 1 {
                    assert(f[a] == disc_ids(rest.filter(pred))[a]);
                    assert(f[b] == disc_ids(rest.filter(pred))[b]);
                } else {
                    assert(disc_ids(rest.filter(pred)).contains(f[a]));
                }
            }
        } else {
            assert(es.filter(pred) == rest.filter(pred));
        }
    }
}

/// The discovery service state: the present peers and the expiry window.
pub struct Discovery {
    /// Currently present peers (unique identities), each with the topics it
    /// advertised and the time it was last refreshed.
    pub entries: Vec<DiscEntry>,
    /// How long a peer stays present without a refreshing announcement; to
    /// tolerate packet loss it should exceed the announcement interval by a
    /// safety margin (at least twice the interval).
    pub expiry: u64,
}

/// Mathematical model of the [`Discovery`] state.
#[verifier::ext_equal]
pub ghost struct DiscoveryView {
    pub entries: Seq<DiscEntryView>,
    pub expiry: u64,
}

impl View for Discovery {
    type V = DiscoveryView;

    open spec fn view(&self) -> DiscoveryView {
        DiscoveryView { entries: disc_view(self.entries@), expiry: self.expiry }
    }
}

impl DiscoveryView {
    /// Well-formedness: each peer has at most one entry.
    pub open spec fn wf(self) -> bool {
        disc_ids(self.entries).no_duplicates()
    }

    /// Whether `peer` is currently present.
    pub open spec fn present(self, peer: u64) -> bool {
        disc_ids(self.entries).contains(peer)
    }
}

/// Finds the index of the entry of peer `p`, if present.
fn find_entry(entries: &Vec<DiscEntry>, p: u64) -> (r: Option<usize>)
    ensures
        match r {
            Some(i) => i < entries@.len() && disc_view(entries@)[i as int].peer == p,
            None => !disc_ids(disc_view(entries@)).contains(p),
        },
{
    let ghost ev = disc_view(entries@);
    let mut i: usize = 0;
    while i < entries.len()
        invariant
            ev == disc_view(entries@),
            ev.len() == entries@.len(),
            i <= entries@.len(),
            forall|j: int| 0 <= j < i ==> ev[j].peer != p,
        decreases entries@.len() - i,
    {
        if entries[i].peer == p {
            return Some(i);
        }
        i = i + 1;
    }
    assert(forall|j: int| 0 <= j < disc_ids(ev).len() ==> disc_ids(ev)[j] != p);
    None
}

impl Discovery {
    /// A fresh discovery service with no present peers.
    pub fn new(expiry: u64) -> (r: Discovery)
        ensures
            r@.entries == Seq::<DiscEntryView>::empty(),
            r@.expiry == expiry,
            r@.wf(),
    {
        let r = Discovery { entries: Vec::new(), expiry };
        proof {
            assert(r@.entries =~= Seq::<DiscEntryView>::empty());
            assert(disc_ids(r@.entries) =~= Seq::<u64>::empty());
        }
        r
    }

    /// Consumes one presence announcement from `peer` at time `now`. Returns
    /// true exactly when this makes the peer present — the caller then emits
    /// a discovery join event; a refresh of an already present peer emits
    /// nothing, so a present peer never produces a duplicate join.
    pub fn on_announcement(&mut self, peer: u64, topics: Vec<Vec<u8>>, now: u64) -> (joined: bool)
        requires
            old(self)@.wf(),
        ensures
            (final(self)@.entries, joined) == announce_spec(
                old(self)@.entries,
                peer,
                crate::engine::bytes_view(topics@),
                now,
            ),
            final(self)@.expiry == old(self)@.expiry,
            joined == !old(self)@.present(peer),
            final(self)@.present(peer),
            final(self)@.wf(),
    {
        let ghost es = old(self)@.entries;
        let ghost tv = crate::engine::bytes_view(topics@);
        proof {
            disc_ids(es).index_of_first_ensures(peer);
        }
        match find_entry(&self.entries, peer) {
            None => {
                self.entries.push(DiscEntry { peer, topics, last_seen: now });
                proof {
                    let e = DiscEntryView { peer, topics: tv, last_seen: now };
                    assert(self@.entries =~= es.push(e));
                    assert(disc_ids(self@.entries) =~= disc_ids(es).push(peer));
                    assert(disc_ids(self@.entries)[disc_ids(self@.entries).len() - 1] == peer);
                    assert forall|a: int, b: int|
                        0 <= a < b < disc_ids(self@.entries).len() implies disc_ids(
                        self@.entries,
                    )[a] != disc_ids(self@.entries)[b] by {
                        if b == disc_ids(self@.entries).len() - 1 {
                            assert(disc_ids(es).contains(disc_ids(self@.entries)[a]));
                        }
                    }
                }
                true
            },
            Some(i) => {
                proof {
                    assert(disc_ids(es)[i as int] == peer);
                    assert(disc_ids(es).index_of_first(peer) == Some(i as int));
                }
                let e = self.entries.remove(i);
                let e2 = DiscEntry { peer: e.peer, topics: e.topics, last_seen: now };
                self.entries.insert(i, e2);
                proof {
                    let upd = DiscEntryView { last_seen: now, ..es[i as int] };
                    assert(e2@ =~= upd);
                    assert(self@.entries =~= es.update(i as int, upd));
                    assert(disc_ids(self@.entries) =~= disc_ids(es));
                    assert(disc_ids(self@.entries)[i as int] == peer);
                }
                false
            },
        }
    }

    /// Sweeps out every peer whose presence lapsed by time `now` and returns
    /// their identities, in order — the leave events of this sweep. Each
    /// returned peer was present and is present no longer; peers still fresh
    /// are untouched.
    pub fn expire(&mut self, now: u64) -> (left: Vec<u64>)
        requires
            old(self)@.wf(),
        ensures
            final(self)@.entries == old(self)@.entries.filter(
                fresh_at(now, old(self)@.expiry),
            ),
            left@ == disc_ids(old(self)@.entries.filter(expired_at(now, old(self)@.expiry))),
            final(self)@.expiry == old(self)@.expiry,
            final(self)@.wf(),
    {
        let expiry = self.expiry;
        let ghost keep = fresh_at(now, expiry);
        let ghost dead = expired_at(now, expiry);
        let mut rest: Vec<DiscEntry> = Vec::new();
        core::mem::swap(&mut self.entries, &mut rest);
        let ghost e0 = disc_view(rest@);
        let mut kept: Vec<DiscEntry> = Vec::new();
        let mut left: Vec<u64> = Vec::new();
        let ghost mut k: int = 0;
        proof {
            assert(e0.skip(0) =~= e0);
            assert(e0.take(0) =~= Seq::<DiscEntryView>::empty());
            reveal(Seq::filter);
            assert(disc_view(kept@) =~= e0.take(0).filter(keep));
            assert(left@ =~= disc_ids(e0.take(0).filter(dead)));
        }
        while rest.len() > 0
            invariant
                0 <= k <= e0.len(),
                disc_view(rest@) == e0.skip(k),
                disc_view(kept@) == e0.take(k).filter(keep),
                left@ == disc_ids(e0.take(k).filter(dead)),
                keep == fresh_at(now, expiry),
                dead == expired_at(now, expiry),
                self.expiry == expiry,
            decreases rest@.len(),
        {
            let ghost rv = disc_view(rest@);
            let ghost rvec = rest@;
            let e = rest.remove(0);
            proof {
                assert(rv.len() == rvec.len());
                assert(e@ == rv[0]);
                assert(rv[0] == e0.skip(k)[0]);
                assert(e0.skip(k)[0] == e0[k]);
                rvec.remove_ensures(0);
                assert(disc_view(rest@) =~= e0.skip(k + 1)) by {
                    assert forall|j: int|
                        0 <= j < rest@.len() implies disc_view(rest@)[j] == e0.skip(k + 1)[j] by {
                        assert(disc_view(rest@)[j] == rest@[j]@);
                        assert(rest@[j] == rvec[j + 1]);
                        assert(rv[j + 1] == rvec[j + 1]@);
                        assert(rv[j + 1] == e0.skip(k)[j + 1]);
                        assert(e0.skip(k)[j + 1] == e0[k + j + 1]);
                        assert(e0.skip(k + 1)[j] == e0[k + j + 1]);
                    }
                }
                assert(e0.take(k + 1) =~= e0.take(k) + seq![e0[k]]);
                Seq::filter_distributes_over_add(e0.take(k), seq![e0[k]], keep);
                Seq::filter_distributes_over_add(e0.take(k), seq![e0[k]], dead);
                crate::engine::lemma_filter_singleton(e0[k], keep);
                crate::engine::lemma_filter_singleton(e0[k], dead);
            }
            let lapsed = now > expiry && e.last_seen < now - expiry;
            proof {
                assert(lapsed == dead(e0[k]));
                assert(keep(e0[k]) == !dead(e0[k]));
            }
            if lapsed {
                left.push(e.peer);
                proof {
                    assert(e0.take(k).filter(dead) + seq![e0[k]] =~= e0.take(k).filter(dead).push(
                        e0[k],
                    ));
                    assert(disc_ids(e0.take(k).filter(dead).push(e0[k])) =~= disc_ids(
                        e0.take(k).filter(dead),
                    ).push(e0[k].peer));
                    assert(left@ == disc_ids(e0.take(k + 1).filter(dead)));
                    assert(e0.take(k).filter(keep) + Seq::<DiscEntryView>::empty() =~= e0.take(
                        k,
                    ).filter(keep));
                    assert(disc_view(kept@) == e0.take(k + 1).filter(keep));
                }
            } else {
                let ghost kv = disc_view(kept@);
                kept.push(e);
                proof {
                    assert(disc_view(kept@) =~= kv.push(e0[k]));
                    assert(e0.take(k).filter(keep) + seq![e0[k]] =~= e0.take(k).filter(keep).push(
                        e0[k],
                    ));
                    assert(disc_view(kept@) == e0.take(k + 1).filter(keep));
                    assert(e0.take(k).filter(dead) + Seq::<DiscEntryView>::empty() =~= e0.take(
                        k,
                    ).filter(dead));
                    assert(left@ == disc_ids(e0.take(k + 1).filter(dead)));
                }
            }
            proof {
                k = k + 1;
            }
        }
        proof {
            assert(e0.skip(k).len() == 0);
            assert(k == e0.len());
            assert(e0.take(k) =~= e0);
        }
        self.entries = kept;
        proof {
            lemma_disc_ids_filter_no_dup(e0, keep);
        }
        left
    }

    /// Forgets `peer` outright, whatever its freshness — used when a
    /// liveness teardown must allow the next announcement from the peer to
    /// produce a fresh join.
    pub fn forget(&mut self, peer: u64)
        requires
            old(self)@.wf(),
        ensures
            final(self)@.entries == old(self)@.entries.filter(other_peer(peer)),
            final(self)@.expiry == old(self)@.expiry,
            !final(self)@.present(peer),
            final(self)@.wf(),
    {
        let expiry = self.expiry;
        let ghost pred = other_peer(peer);
        let mut rest: Vec<DiscEntry> = Vec::new();
        core::mem::swap(&mut self.entries, &mut rest);
        let ghost e0 = disc_view(rest@);
        let mut kept: Vec<DiscEntry> = Vec::new();
        let ghost mut k: int = 0;
        proof {
            assert(e0.skip(0) =~= e0);
            assert(e0.take(0) =~= Seq::<DiscEntryView>::empty());
            reveal(Seq::filter);
            assert(disc_view(kept@) =~= e0.take(0).filter(pred));
        }
        while rest.len() > 0
            invariant
                0 <= k <= e0.len(),
                disc_view(rest@) == e0.skip(k),
                disc_view(kept@) == e0.take(k).filter(pred),
                pred == other_peer(peer),
            decreases rest@.len(),
        {
            let ghost rv = disc_view(rest@);
            let ghost rvec = rest@;
            let e = rest.remove(0);
            proof {
                assert(rv.len() == rvec.len());
                assert(e@ == rv[0]);
                assert(rv[0] == e0.skip(k)[0]);
                assert(e0.skip(k)[0] == e0[k]);
                rvec.remove_ensures(0);
                assert(disc_view(rest@) =~= e0.skip(k + 1)) by {
                    assert forall|j: int|
                        0 <= j < rest@.len() implies disc_view(rest@)[j] == e0.skip(k + 1)[j] by {
                        assert(disc_view(rest@)[j] == rest@[j]@);
                        assert(rest@[j] == rvec[j + 1]);
                        assert(rv[j + 1] == rvec[j + 1]@);
                        assert(rv[j + 1] == e0.skip(k)[j + 1]);
                        assert(e0.skip(k)[j + 1] == e0[k + j + 1]);
                        assert(e0.skip(k + 1)[j] == e0[k + j + 1]);
                    }
                }
                assert(e0.take(k + 1) =~= e0.take(k) + seq![e0[k]]);
                Seq::filter_distributes_over_add(e0.take(k), seq![e0[k]], pred);
                crate::engine::lemma_filter_singleton(e0[k], pred);
            }
            if e.peer != peer {
                let ghost kv = disc_view(kept@);
                kept.push(e);
                proof {
                    assert(pred(e0[k]));
                    assert(disc_view(kept@) =~= kv.push(e0[k]));
                    assert(e0.take(k).filter(pred) + seq![e0[k]] =~= e0.take(k).filter(pred).push(
                        e0[k],
                    ));
                    assert(disc_view(kept@) == e0.take(k + 1).filter(pred));
                }
            } else {
                proof {
                    assert(!pred(e0[k]));
                    assert(e0.take(k).filter(pred) + Seq::<DiscEntryView>::empty() =~= e0.take(
                        k,
                    ).filter(pred));
                    assert(disc_view(kept@) == e0.take(k + 1).filter(pred));
                }
            }
            proof {
                k = k + 1;
            }
        }
        proof {
            assert(e0.skip(k).len() == 0);
            assert(k == e0.len());
            assert(e0.take(k) =~= e0);
        }
        self.entries = kept;
        proof {
            lemma_disc_ids_filter_no_dup(e0, pred);
            if self@.present(peer) {
                let j = choose|j: int|
                    0 <= j < disc_ids(self@.entries).len() && disc_ids(self@.entries)[j] == peer;
                assert(self@.entries[j].peer == peer);
                Seq::lemma_filter_pred(e0, pred, j);
            }
        }
    }

    /// Whether `peer` is currently present.
    pub fn is_present(&self, peer: u64) -> (r: bool)
        ensures
            r == self@.present(peer),
    {
        match find_entry(&self.entries, peer) {
            Some(i) => {
                proof {
                    assert(disc_ids(self@.entries)[i as int] == peer);
                }
                true
            },
            None => false,
        }
    }
}

} // verus!
