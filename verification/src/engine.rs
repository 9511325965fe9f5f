//! Gossip dissemination engine.
//!
//! The engine owns the protocol state that the event loop mutates: the local
//! topic-subscription set, the partial view of discovered peers (each with the
//! topics it advertised), the bounded deduplication cache of recently seen
//! `(origin, sequence)` pairs, and the local publish sequence counter.
//!
//! Every executable operation is pinned to a spec-level transition function
//! (`sub_spec`, `add_peer_spec`, `recv_spec`, ...), so the laws about the
//! protocol — idempotent receipt, topic isolation, view tracking — are proved
//! once over the spec transitions and hold of the running code.

use vstd::prelude::*;

use crate::codec::{copy_range, decode, decode_spec, Message, MsgView};

verus! {

/// The byte strings of a list of byte vectors, elementwise.
pub open spec fn bytes_view(ts: Seq<Vec<u8>>) -> Seq<Seq<u8>> {
    ts.map_values(|v: Vec<u8>| v@)
}

/// One discovered peer in the partial view, with the topics it advertised in
/// its discovery announcement.
pub struct PeerEntry {
    pub peer: u64,
    pub topics: Vec<Vec<u8>>,
}

/// Mathematical model of a [`PeerEntry`].
#[verifier::ext_equal]
pub ghost struct PeerEntryView {
    pub peer: u64,
    pub topics: Seq<Seq<u8>>,
}

impl View for PeerEntry {
    type V = PeerEntryView;

    open spec fn view(&self) -> PeerEntryView {
        PeerEntryView { peer: self.peer, topics: bytes_view(self.topics@) }
    }
}

/// The gossip engine state.
pub struct Engine {
    /// Identity of the local node; the origin of every published message.
    pub local_peer: u64,
    /// Sequence number the next published message will carry.
    pub next_seq: u64,
    /// Topics the local node is subscribed to (no duplicates).
    pub subs: Vec<Vec<u8>>,
    /// Partial view: currently discovered peers (unique peer identities).
    pub peers: Vec<PeerEntry>,
    /// Deduplication cache of `(origin, sequence)` pairs, oldest first.
    pub seen: Vec<(u64, u64)>,
    /// Capacity bound of the deduplication cache.
    pub cap: usize,
}

/// Mathematical model of the [`Engine`] state.
#[verifier::ext_equal]
pub ghost struct EngineView {
    pub local_peer: u64,
    pub next_seq: u64,
    pub subs: Seq<Seq<u8>>,
    pub peers: Seq<PeerEntryView>,
    pub seen: Seq<(u64, u64)>,
    pub cap: nat,
}

impl View for Engine {
    type V = EngineView;

    open spec fn view(&self) -> EngineView {
        EngineView {
            local_peer: self.local_peer,
            next_seq: self.next_seq,
            subs: bytes_view(self.subs@),
            peers: peers_view(self.peers@),
            seen: self.seen@,
            cap: self.cap as nat,
        }
    }
}

/// The entry views of a list of peer entries, elementwise.
pub open spec fn peers_view(v: Seq<PeerEntry>) -> Seq<PeerEntryView> {
    v.map_values(|e: PeerEntry| e@)
}

/// The peer identities of the entries of a partial view, in view order.
pub open spec fn ids(peers: Seq<PeerEntryView>) -> Seq<u64> {
    peers.map_values(|e: PeerEntryView| e.peer)
}

/// Whether an entry advertises interest in topic `t`.
pub open spec fn interested(t: Seq<u8>) -> spec_fn(PeerEntryView) -> bool {
    |e: PeerEntryView| e.topics.contains(t)
}

/// Whether an entry advertises interest in `t` and is not the peer the
/// message just arrived from.
pub open spec fn interested_except(t: Seq<u8>, sender: u64) -> spec_fn(PeerEntryView) -> bool {
    |e: PeerEntryView| e.topics.contains(t) && e.peer != sender
}

/// The flood targets of a publish: every peer in the partial view for `t`.
pub open spec fn publish_targets(peers: Seq<PeerEntryView>, t: Seq<u8>) -> Seq<u64> {
    ids(peers.filter(interested(t)))
}

/// The re-flood targets of a received message: every peer in the partial view
/// for `t` except the immediate sender (one-hop sender suppression).
pub open spec fn forward_targets(peers: Seq<PeerEntryView>, t: Seq<u8>, sender: u64) -> Seq<u64> {
    ids(peers.filter(interested_except(t, sender)))
}

impl EngineView {
    /// Well-formedness: unique peers, unique subscriptions, unique cache keys,
    /// and the cache within its (positive) capacity bound.
    pub open spec fn wf(self) -> bool {
        &&& ids(self.peers).no_duplicates()
        &&& self.subs.no_duplicates()
        &&& self.seen.no_duplicates()
        &&& self.seen.len() <= self.cap
        &&& self.cap >= 1
    }

    /// Whether the local node is subscribed to topic `t`.
    pub open spec fn subscribed(self, t: Seq<u8>) -> bool {
        self.subs.contains(t)
    }

    /// Whether peer `p` is in the partial view.
    pub open spec fn in_view(self, p: u64) -> bool {
        ids(self.peers).contains(p)
    }

    /// Whether peer `p` is in the partial view for topic `t`.
    pub open spec fn in_view_for(self, t: Seq<u8>, p: u64) -> bool {
        exists|i: int|
            0 <= i < self.peers.len() && self.peers[i].peer == p && self.peers[i].topics.contains(t)
    }

    /// Whether the deduplication cache holds the pair `(origin, seq)`.
    pub open spec fn seen_key(self, origin: u64, seq: u64) -> bool {
        self.seen.contains((origin, seq))
    }
}

/// State after a local subscribe: the topic is added unless already present.
pub open spec fn sub_spec(s: EngineView, t: Seq<u8>) -> EngineView {
    if s.subs.contains(t) {
        s
    } else {
        EngineView { subs: s.subs.push(t), ..s }
    }
}

/// State after a local unsubscribe: the topic's occurrence is removed.
pub open spec fn unsub_spec(s: EngineView, t: Seq<u8>) -> EngineView {
    EngineView { subs: s.subs.remove_value(t), ..s }
}

/// State after a discovery join for `p` advertising `topics`: a new entry is
/// appended unless `p` is already in the view.
pub open spec fn add_peer_spec(s: EngineView, p: u64, topics: Seq<Seq<u8>>) -> EngineView {
    if ids(s.peers).contains(p) {
        s
    } else {
        EngineView { peers: s.peers.push(PeerEntryView { peer: p, topics }), ..s }
    }
}

/// Whether an entry belongs to a peer other than `p`.
pub open spec fn not_peer(p: u64) -> spec_fn(PeerEntryView) -> bool {
    |e: PeerEntryView| e.peer != p
}

/// State after a discovery leave (or a liveness teardown) of `p`: every entry
/// of `p` leaves the view.
pub open spec fn remove_peer_spec(s: EngineView, p: u64) -> EngineView {
    EngineView { peers: s.peers.filter(not_peer(p)), ..s }
}

/// The deduplication cache after recording `k`: unchanged if `k` is already
/// present; otherwise `k` is appended, evicting the oldest entry when the
/// cache is at capacity.
pub open spec fn record_spec(seen: Seq<(u64, u64)>, cap: nat, k: (u64, u64)) -> Seq<(u64, u64)> {
    if seen.contains(k) {
        seen
    } else if seen.len() >= cap {
        seen.drop_first().push(k)
    } else {
        seen.push(k)
    }
}

/// Filtering a singleton keeps or drops its one element.
pub proof fn lemma_filter_singleton<A>(e: A, pred: spec_fn(A) -> bool)
    ensures
        seq![e].filter(pred) == if pred(e) {
            seq![e]
        } else {
            Seq::<A>::empty()
        },
{
    reveal_with_fuel(Seq::filter, 2);
    assert(seq![e].drop_last() =~= Seq::<A>::empty());
    assert(seq![e].drop_last().filter(pred) =~= Seq::<A>::empty());
    if pred(e) {
        assert(seq![e].filter(pred) =~= seq![e]);
    } else {
        assert(seq![e].filter(pred) =~= Seq::<A>::empty());
    }
}

/// Filtering the empty prefix of a sequence yields the empty sequence.
pub proof fn lemma_filter_take_zero<A>(s: Seq<A>, pred: spec_fn(A) -> bool)
    ensures
        s.take(0).filter(pred) == Seq::<A>::empty(),
{
    reveal(Seq::filter);
    assert(s.take(0) =~= Seq::<A>::empty());
    assert(s.take(0).filter(pred) =~= Seq::<A>::empty());
}

/// Filtering keeps the peer identities unique and introduces none.
pub proof fn lemma_ids_filter_no_dup(peers: Seq<PeerEntryView>, pred: spec_fn(PeerEntryView) -> bool)
    requires
        ids(peers).no_duplicates(),
    ensures
        ids(peers.filter(pred)).no_duplicates(),
        forall|x: u64| ids(peers.filter(pred)).contains(x) ==> ids(peers).contains(x),
    decreases peers.len(),
{
    reveal(Seq::filter);
    if peers.len() == 0 {
        assert(peers.filter(pred) =~= peers);
    } else {
        let rest = peers.drop_last();
        let e = peers.last();
        assert(ids(rest) =~= ids(peers).drop_last());
        assert(ids(rest).no_duplicates());
        lemma_ids_filter_no_dup(rest, pred);
        assert(forall|x: u64|
            ids(rest).contains(x) ==> #[trigger] ids(peers).contains(x)) by {
            assert(forall|i: int|
                0 <= i < ids(rest).len() ==> ids(rest)[i] == #[trigger] ids(peers)[i]);
        }
        if pred(e) {
            assert(peers.filter(pred) == rest.filter(pred).push(e));
            assert(ids(peers.filter(pred)) =~= ids(rest.filter(pred)).push(e.peer));
            assert(!ids(rest.filter(pred)).contains(e.peer)) by {
                assert(ids(peers)[peers.len() - 1] == e.peer);
                if ids(rest).contains(e.peer) {
                    let j = choose|j: int|
                        0 <= j < ids(rest).len() && ids(rest)[j] == e.peer;
                    assert(ids(peers)[j] == e.peer);
                }
            }
            let f = ids(rest.filter(pred)).push(e.peer);
            assert forall|a: int, b: int| 0 <= a < b < f.len() implies f[a] != f[b] by {
                if b < f.len() - 1 {
                    assert(f[a] == ids(rest.filter(pred))[a]);
                    assert(f[b] == ids(rest.filter(pred))[b]);
                } else {
                    assert(ids(rest.filter(pred)).contains(f[a]));
                }
            }
        } else {
            assert(peers.filter(pred) == rest.filter(pred));
        }
    }
}

/// Compares two byte strings for equality of content.
fn bytes_eq(a: &Vec<u8>, b: &Vec<u8>) -> (r: bool)
    ensures
        r == (a@ == b@),
{
    if a.len() != b.len() {
        return false;
    }
    let mut i: usize = 0;
    while i < a.len()
        invariant
            a@.len() == b@.len(),
            i <= a@.len(),
            forall|j: int| 0 <= j < i ==> a@[j] == b@[j],
        decreases a@.len() - i,
    {
        if a[i] != b[i] {
            return false;
        }
        i = i + 1;
    }
    proof {
        assert(a@ =~= b@);
    }
    true
}

/// Finds the index of `t` in a list of topics, if present.
fn find_topic(ts: &Vec<Vec<u8>>, t: &Vec<u8>) -> (r: Option<usize>)
    ensures
        match r {
            Some(i) => i < ts@.len() && bytes_view(ts@)[i as int] == t@,
            None => !bytes_view(ts@).contains(t@),
        },
{
    let mut i: usize = 0;
    while i < ts.len()
        invariant
            i <= ts@.len(),
            forall|j: int| 0 <= j < i ==> bytes_view(ts@)[j] != t@,
        decreases ts@.len() - i,
    {
        if bytes_eq(&ts[i], t) {
            return Some(i);
        }
        i = i + 1;
    }
    None
}

/// Finds the index of the entry of peer `p` in the partial view, if present.
fn find_peer(peers: &Vec<PeerEntry>, p: u64) -> (r: Option<usize>)
    ensures
        match r {
            Some(i) => i < peers@.len() && peers_view(peers@)[i as int].peer
                == p,
            None => !ids(peers_view(peers@)).contains(p),
        },
{
    let ghost pv = peers_view(peers@);
    let mut i: usize = 0;
    while i < peers.len()
        invariant
            pv == peers_view(peers@),
            pv.len() == peers@.len(),
            i <= peers@.len(),
            forall|j: int| 0 <= j < i ==> pv[j].peer != p,
        decreases peers@.len() - i,
    {
        if peers[i].peer == p {
            return Some(i);
        }
        i = i + 1;
    }
    assert(forall|j: int| 0 <= j < ids(pv).len() ==> ids(pv)[j] != p);
    None
}

/// Malformed inbound bytes; per the error taxonomy the offending connection's
/// stream is dropped by the caller while the rest of the system continues.
pub struct DecodeError;

/// What a receive asks the host to do: surface a payload to the UI boundary,
/// and re-flood the frame to peers.
pub struct RecvEffects {
    /// Payload to surface to the UI boundary, when the message is fresh and
    /// its topic locally subscribed.
    pub deliver: Option<Vec<u8>>,
    /// Peers to re-flood the frame to (one-hop sender suppression applied).
    pub forward: Vec<u64>,
}

/// Mathematical model of [`RecvEffects`].
#[verifier::ext_equal]
pub ghost struct RecvEffectsView {
    pub deliver: Option<Seq<u8>>,
    pub forward: Seq<u64>,
}

impl View for RecvEffects {
    type V = RecvEffectsView;

    open spec fn view(&self) -> RecvEffectsView {
        RecvEffectsView {
            deliver: match self.deliver {
                Some(d) => Some(d@),
                None => None,
            },
            forward: self.forward@,
        }
    }
}

/// State and obligations after a publish of `data` under topic `t`: the
/// message carries the local identity and the next sequence number, the
/// counter advances, the message's key enters the deduplication cache, and
/// the flood targets are every peer in the partial view for `t`.
pub open spec fn publish_spec(s: EngineView, t: Seq<u8>, data: Seq<u8>) -> (EngineView, MsgView, Seq<
    u64,
>) {
    let m = MsgView { origin: s.local_peer, seq: s.next_seq, topic: t, data };
    let s2 = EngineView {
        next_seq: (s.next_seq + 1) as u64,
        seen: record_spec(s.seen, s.cap, (s.local_peer, s.next_seq)),
        ..s
    };
    (s2, m, publish_targets(s.peers, t))
}

/// State and effects after receiving `bytes` from `sender`: `None` on
/// malformed bytes; a silent no-op on a message whose `(origin, sequence)`
/// pair is already in the deduplication cache; otherwise the pair is
/// recorded and, when the topic is locally subscribed, the payload is
/// surfaced and the frame re-flooded to every view peer for the topic except
/// the sender. A message for an unsubscribed topic is dropped: neither
/// surfaced nor re-flooded.
pub open spec fn recv_spec(s: EngineView, sender: u64, bytes: Seq<u8>) -> Option<
    (EngineView, RecvEffectsView),
> {
    match decode_spec(bytes) {
        None => None,
        Some(m) => Some(
            if s.seen_key(m.origin, m.seq) {
                (s, RecvEffectsView { deliver: None, forward: Seq::empty() })
            } else {
                let s2 = EngineView { seen: record_spec(s.seen, s.cap, (m.origin, m.seq)), ..s };
                if s.subs.contains(m.topic) {
                    (
                        s2,
                        RecvEffectsView {
                            deliver: Some(m.data),
                            forward: forward_targets(s.peers, m.topic, sender),
                        },
                    )
                } else {
                    (s2, RecvEffectsView { deliver: None, forward: Seq::empty() })
                }
            },
        ),
    }
}

/// Whether the deduplication cache holds the pair `(origin, seq)`.
fn seen_contains(seen: &Vec<(u64, u64)>, origin: u64, seq: u64) -> (r: bool)
    ensures
        r == seen@.contains((origin, seq)),
{
    let mut i: usize = 0;
    while i < seen.len()
        invariant
            i <= seen@.len(),
            forall|j: int| 0 <= j < i ==> seen@[j] != (origin, seq),
        decreases seen@.len() - i,
    {
        if seen[i].0 == origin && seen[i].1 == seq {
            assert(seen@[i as int] == (origin, seq));
            return true;
        }
        i = i + 1;
    }
    false
}

/// Records `k = (origin, seq)` in the deduplication cache, evicting the
/// oldest entry when the cache is at capacity.
fn record_key(seen: &mut Vec<(u64, u64)>, cap: usize, origin: u64, seq: u64)
    requires
        old(seen)@.no_duplicates(),
        old(seen)@.len() <= cap,
        cap >= 1,
    ensures
        final(seen)@ == record_spec(old(seen)@, cap as nat, (origin, seq)),
        final(seen)@.no_duplicates(),
        final(seen)@.len() <= cap,
{
    let ghost s0 = old(seen)@;
    let ghost k = (origin, seq);
    if seen_contains(seen, origin, seq) {
        return;
    }
    if seen.len() >= cap {
        seen.remove(0);
        proof {
            assert(seen@ =~= s0.drop_first());
            assert(forall|j: int| 0 <= j < seen@.len() ==> seen@[j] == s0[j + 1]);
            assert(!seen@.contains(k)) by {
                if seen@.contains(k) {
                    let j = choose|j: int| 0 <= j < seen@.len() && seen@[j] == k;
                    assert(s0[j + 1] == k);
                }
            }
            assert(seen@.no_duplicates());
        }
    }
    let ghost s1 = seen@;
    seen.push((origin, seq));
    proof {
        assert(seen@ =~= record_spec(s0, cap as nat, k));
        assert forall|a: int, b: int| 0 <= a < b < seen@.len() implies seen@[a] != seen@[b] by {
            if b == seen@.len() - 1 {
                assert(s1.contains(seen@[a]));
            }
        }
    }
}

/// Collects the flood targets of a publish: the peers of the partial view
/// that advertise interest in `t`.
fn targets_interested(peers: &Vec<PeerEntry>, t: &Vec<u8>) -> (r: Vec<u64>)
    ensures
        r@ == publish_targets(peers_view(peers@), t@),
{
    let ghost pv = peers_view(peers@);
    let ghost pred = interested(t@);
    let mut out: Vec<u64> = Vec::new();
    let mut i: usize = 0;
    proof {
        lemma_filter_take_zero(pv, pred);
        assert(out@ =~= ids(pv.take(0).filter(pred)));
    }
    while i < peers.len()
        invariant
            pv == peers_view(peers@),
            pv.len() == peers@.len(),
            i <= peers@.len(),
            pred == interested(t@),
            out@ == ids(pv.take(i as int).filter(pred)),
        decreases peers@.len() - i,
    {
        let keep = match find_topic(&peers[i].topics, t) {
            Some(_) => true,
            None => false,
        };
        proof {
            assert(pv[i as int] == peers@[i as int]@);
            assert(keep == pred(pv[i as int]));
            assert(pv.take(i + 1) =~= pv.take(i as int) + seq![pv[i as int]]);
            Seq::filter_distributes_over_add(pv.take(i as int), seq![pv[i as int]], pred);
            lemma_filter_singleton(pv[i as int], pred);
        }
        if keep {
            out.push(peers[i].peer);
            proof {
                assert(pv.take(i + 1).filter(pred) == pv.take(i as int).filter(pred).push(
                    pv[i as int],
                )) by {
                    assert(pv.take(i as int).filter(pred) + seq![pv[i as int]] =~= pv.take(
                        i as int,
                    ).filter(pred).push(pv[i as int]));
                }
                assert(ids(pv.take(i + 1).filter(pred)) =~= ids(
                    pv.take(i as int).filter(pred),
                ).push(pv[i as int].peer));
            }
        } else {
            proof {
                assert(pv.take(i + 1).filter(pred) == pv.take(i as int).filter(pred)) by {
                    assert(pv.take(i as int).filter(pred) + Seq::<PeerEntryView>::empty() =~= pv
                        .take(i as int).filter(pred));
                }
            }
        }
        i = i + 1;
    }
    proof {
        assert(pv.take(pv.len() as int) =~= pv);
    }
    out
}

/// Collects the re-flood targets of a received message: the peers of the
/// partial view that advertise interest in `t`, except the sender.
fn targets_except(peers: &Vec<PeerEntry>, t: &Vec<u8>, sender: u64) -> (r: Vec<u64>)
    ensures
        r@ == forward_targets(peers_view(peers@), t@, sender),
{
    let ghost pv = peers_view(peers@);
    let ghost pred = interested_except(t@, sender);
    let mut out: Vec<u64> = Vec::new();
    let mut i: usize = 0;
    proof {
        lemma_filter_take_zero(pv, pred);
        assert(out@ =~= ids(pv.take(0).filter(pred)));
    }
    while i < peers.len()
        invariant
            pv == peers_view(peers@),
            pv.len() == peers@.len(),
            i <= peers@.len(),
            pred == interested_except(t@, sender),
            out@ == ids(pv.take(i as int).filter(pred)),
        decreases peers@.len() - i,
    {
        let keep = if peers[i].peer != sender {
            match find_topic(&peers[i].topics, t) {
                Some(_) => true,
                None => false,
            }
        } else {
            false
        };
        proof {
            assert(pv[i as int] == peers@[i as int]@);
            assert(keep == pred(pv[i as int]));
            assert(pv.take(i + 1) =~= pv.take(i as int) + seq![pv[i as int]]);
            Seq::filter_distributes_over_add(pv.take(i as int), seq![pv[i as int]], pred);
            lemma_filter_singleton(pv[i as int], pred);
        }
        if keep {
            out.push(peers[i].peer);
            proof {
                assert(pv.take(i + 1).filter(pred) == pv.take(i as int).filter(pred).push(
                    pv[i as int],
                )) by {
                    assert(pv.take(i as int).filter(pred) + seq![pv[i as int]] =~= pv.take(
                        i as int,
                    ).filter(pred).push(pv[i as int]));
                }
                assert(ids(pv.take(i + 1).filter(pred)) =~= ids(
                    pv.take(i as int).filter(pred),
                ).push(pv[i as int].peer));
            }
        } else {
            proof {
                assert(pv.take(i + 1).filter(pred) == pv.take(i as int).filter(pred)) by {
                    assert(pv.take(i as int).filter(pred) + Seq::<PeerEntryView>::empty() =~= pv
                        .take(i as int).filter(pred));
                }
            }
        }
        i = i + 1;
    }
    proof {
        assert(pv.take(pv.len() as int) =~= pv);
    }
    out
}

impl Engine {
    /// A fresh engine for the local peer, with an empty subscription set, an
    /// empty partial view, and an empty deduplication cache bounded by `cap`.
    pub fn new(local_peer: u64, cap: usize) -> (r: Engine)
        requires
            cap >= 1,
        ensures
            r@ == (EngineView {
                local_peer,
                next_seq: 0,
                subs: Seq::empty(),
                peers: Seq::empty(),
                seen: Seq::empty(),
                cap: cap as nat,
            }),
            r@.wf(),
    {
        let r = Engine {
            local_peer,
            next_seq: 0,
            subs: Vec::new(),
            peers: Vec::new(),
            seen: Vec::new(),
            cap,
        };
        proof {
            assert(r@ =~= (EngineView {
                local_peer,
                next_seq: 0,
                subs: Seq::empty(),
                peers: Seq::empty(),
                seen: Seq::empty(),
                cap: cap as nat,
            }));
        }
        r
    }

    /// Subscribes the local node to `topic`; inbound messages for it are then
    /// accepted and surfaced.
    pub fn subscribe(&mut self, topic: Vec<u8>)
        requires
            old(self)@.wf(),
        ensures
            final(self)@ == sub_spec(old(self)@, topic@),
            final(self)@.subscribed(topic@),
            final(self)@.wf(),
    {
        let ghost t = topic@;
        match find_topic(&self.subs, &topic) {
            Some(_) => {
                proof {
                    assert(self@.subs.contains(t));
                    assert(self@ =~= sub_spec(self@, t));
                }
            },
            None => {
                proof {
                    assert(!old(self)@.subs.contains(t));
                }
                self.subs.push(topic);
                proof {
                    assert(bytes_view(self.subs@) =~= bytes_view(old(self).subs@).push(t));
                    assert(self@ =~= sub_spec(old(self)@, t));
                    assert(self@.subs[self@.subs.len() - 1] == t);
                    let s2 = self@.subs;
                    assert forall|i: int, j: int| 0 <= i < j < s2.len() implies s2[i] != s2[j] by {
                        if j == s2.len() - 1 {
                            assert(old(self)@.subs.contains(s2[i]));
                        }
                    }
                }
            },
        }
    }

    /// Unsubscribes the local node from `topic`; inbound messages for it are
    /// then dropped.
    pub fn unsubscribe(&mut self, topic: &Vec<u8>)
        requires
            old(self)@.wf(),
        ensures
            final(self)@ == unsub_spec(old(self)@, topic@),
            !final(self)@.subscribed(topic@),
            final(self)@.wf(),
    {
        let ghost t = topic@;
        proof {
            old(self)@.subs.index_of_first_ensures(t);
        }
        match find_topic(&self.subs, topic) {
            Some(i) => {
                proof {
                    let s = old(self)@.subs;
                    // the found occurrence is the one index_of_first names
                    assert(s.contains(t));
                    assert(s.index_of_first(t) == Some(i as int));
                }
                self.subs.remove(i);
                proof {
                    let s = old(self)@.subs;
                    assert(bytes_view(self.subs@) =~= s.remove(i as int));
                    assert(self@ =~= unsub_spec(old(self)@, t));
                    assert forall|a: int, b: int|
                        0 <= a < b < s.remove(i as int).len() implies s.remove(i as int)[a]
                        != s.remove(i as int)[b] by {
                        s.remove_ensures(i as int);
                    }
                    assert(!self@.subs.contains(t)) by {
                        s.remove_ensures(i as int);
                        if self@.subs.contains(t) {
                            let j = choose|j: int|
                                0 <= j < self@.subs.len() && self@.subs[j] == t;
                            if j < i {
                                assert(s[j] == t);
                            } else {
                                assert(s[j + 1] == t);
                            }
                        }
                    }
                }
            },
            None => {
                proof {
                    assert(old(self)@.subs.remove_value(t) == old(self)@.subs);
                    assert(self@ =~= unsub_spec(old(self)@, t));
                }
            },
        }
    }

    /// Adds a discovered peer (with the topics it advertised) to the partial
    /// view, in response to a discovery join event; a peer already in the
    /// view is left as it is.
    pub fn add_peer(&mut self, peer: u64, topics: Vec<Vec<u8>>)
        requires
            old(self)@.wf(),
        ensures
            final(self)@ == add_peer_spec(old(self)@, peer, bytes_view(topics@)),
            final(self)@.in_view(peer),
            final(self)@.wf(),
    {
        let ghost tv = bytes_view(topics@);
        match find_peer(&self.peers, peer) {
            Some(_) => {
                proof {
                    assert(ids(self@.peers).contains(peer)) by {
                        let i = choose|i: int|
                            0 <= i < self@.peers.len() && self@.peers[i].peer == peer;
                        assert(ids(self@.peers)[i] == peer);
                    }
                    assert(self@ =~= add_peer_spec(self@, peer, tv));
                }
            },
            None => {
                self.peers.push(PeerEntry { peer, topics });
                proof {
                    let p0 = old(self)@.peers;
                    let e = PeerEntryView { peer, topics: tv };
                    assert(self@.peers =~= p0.push(e));
                    assert(self@ =~= add_peer_spec(old(self)@, peer, tv));
                    assert(ids(p0.push(e)) =~= ids(p0).push(peer));
                    assert(ids(self@.peers)[ids(self@.peers).len() - 1] == peer);
                    assert forall|a: int, b: int|
                        0 <= a < b < ids(self@.peers).len() implies ids(self@.peers)[a] != ids(
                        self@.peers,
                    )[b] by {
                        if b == ids(self@.peers).len() - 1 {
                            assert(ids(p0).contains(ids(self@.peers)[a]));
                        }
                    }
                }
            },
        }
    }

    /// Removes a peer from the partial view, in response to a discovery leave
    /// event or a liveness teardown; a peer not in the view is a no-op.
    pub fn remove_peer(&mut self, peer: u64)
        requires
            old(self)@.wf(),
        ensures
            final(self)@ == remove_peer_spec(old(self)@, peer),
            !final(self)@.in_view(peer),
            final(self)@.wf(),
    {
        let ghost pred = not_peer(peer);
        let mut rest: Vec<PeerEntry> = Vec::new();
        core::mem::swap(&mut self.peers, &mut rest);
        let ghost p0 = peers_view(rest@);
        let mut kept: Vec<PeerEntry> = Vec::new();
        let ghost mut k: int = 0;
        proof {
            assert(p0.skip(0) =~= p0);
            lemma_filter_take_zero(p0, pred);
            assert(peers_view(kept@) =~= p0.take(0).filter(pred));
        }
        while rest.len() > 0
            invariant
                0 <= k <= p0.len(),
                peers_view(rest@) == p0.skip(k),
                peers_view(kept@) == p0.take(k).filter(pred),
                pred == not_peer(peer),
            decreases rest@.len(),
        {
            let ghost rv = peers_view(rest@);
            let ghost rvec = rest@;
            let e = rest.remove(0);
            proof {
                assert(rv.len() == rvec.len());
                assert(e@ == rv[0]);
                assert(rv[0] == p0.skip(k)[0]);
                assert(p0.skip(k)[0] == p0[k]);
                rvec.remove_ensures(0);
                assert(rest@ == rvec.remove(0));
                assert(peers_view(rest@) =~= p0.skip(k + 1)) by {
                    assert(peers_view(rest@).len() == rest@.len());
                    assert forall|j: int|
                        0 <= j < rest@.len() implies peers_view(rest@)[j] == p0.skip(k + 1)[j] by {
                        assert(peers_view(rest@)[j] == rest@[j]@);
                        assert(rest@[j] == rvec[j + 1]);
                        assert(rv[j + 1] == rvec[j + 1]@);
                        assert(rv[j + 1] == p0.skip(k)[j + 1]);
                        assert(p0.skip(k)[j + 1] == p0[k + j + 1]);
                        assert(p0.skip(k + 1)[j] == p0[k + j + 1]);
                    }
                }
                assert(p0.take(k + 1) =~= p0.take(k) + seq![p0[k]]);
                Seq::filter_distributes_over_add(p0.take(k), seq![p0[k]], pred);
                lemma_filter_singleton(p0[k], pred);
            }
            if e.peer != peer {
                proof {
                    assert(pred(p0[k]));
                }
                let ghost kv = peers_view(kept@);
                kept.push(e);
                proof {
                    assert(peers_view(kept@) =~= kv.push(p0[k]));
                    assert(p0.take(k).filter(pred) + seq![p0[k]] =~= p0.take(k).filter(pred).push(
                        p0[k],
                    ));
                    assert(peers_view(kept@) == p0.take(k + 1).filter(pred));
                }
            } else {
                proof {
                    assert(!pred(p0[k]));
                    assert(p0.take(k).filter(pred) + Seq::<PeerEntryView>::empty() =~= p0.take(
                        k,
                    ).filter(pred));
                    assert(peers_view(kept@) == p0.take(k + 1).filter(pred));
                }
            }
            proof {
                k = k + 1;
            }
        }
        proof {
            assert(p0.skip(k).len() == 0);
            assert(k == p0.len());
            assert(p0.take(k) =~= p0);
        }
        self.peers = kept;
        proof {
            assert(self@ =~= remove_peer_spec(old(self)@, peer));
            lemma_ids_filter_no_dup(p0, pred);
            if self@.in_view(peer) {
                let j = choose|j: int|
                    0 <= j < ids(self@.peers).len() && ids(self@.peers)[j] == peer;
                assert(self@.peers[j].peer == peer);
                Seq::lemma_filter_pred(p0, pred, j);
            }
        }
    }

    /// Publishes `data` under `topic`: assigns the next local sequence
    /// number, constructs the message, records its key in the deduplication
    /// cache, and returns the message together with the peers it is to be
    /// flooded to — every peer currently in the partial view for the topic.
    /// An empty target list is a silent no-op for the caller, not an error.
    pub fn publish(&mut self, topic: &Vec<u8>, data: Vec<u8>) -> (r: (Message, Vec<u64>))
        requires
            old(self)@.wf(),
            old(self)@.next_seq < u64::MAX,
        ensures
            final(self)@ == publish_spec(old(self)@, topic@, data@).0,
            r.0@ == publish_spec(old(self)@, topic@, data@).1,
            r.1@ == publish_spec(old(self)@, topic@, data@).2,
            final(self)@.seen_key(old(self)@.local_peer, old(self)@.next_seq),
            final(self)@.next_seq == old(self)@.next_seq + 1,
            final(self)@.wf(),
    {
        let topic_copy = copy_range(topic, 0, topic.len());
        proof {
            assert(topic_copy@ =~= topic@);
        }
        let m = Message { origin: self.local_peer, seq: self.next_seq, topic: topic_copy, data };
        let targets = targets_interested(&self.peers, topic);
        record_key(&mut self.seen, self.cap, self.local_peer, self.next_seq);
        self.next_seq = self.next_seq + 1;
        proof {
            assert(self@ =~= publish_spec(old(self)@, topic@, m.data@).0);
            let k = (old(self)@.local_peer, old(self)@.next_seq);
            if !old(self)@.seen.contains(k) {
                assert(self@.seen[self@.seen.len() - 1] == k);
            }
        }
        (m, targets)
    }

    /// Handles one inbound frame from `sender`: decodes it, discards a
    /// duplicate silently, and otherwise records the message and returns what
    /// to surface and where to re-flood. Malformed bytes yield the decode
    /// error and leave the state unchanged.
    pub fn on_receive(&mut self, sender: u64, bytes: &Vec<u8>) -> (r: Result<
        RecvEffects,
        DecodeError,
    >)
        requires
            old(self)@.wf(),
        ensures
            final(self)@.wf(),
            match r {
                Ok(eff) => recv_spec(old(self)@, sender, bytes@) == Some((final(self)@, eff@)),
                Err(_) => decode_spec(bytes@) is None && final(self)@ == old(self)@,
            },
    {
        let m = match decode(bytes) {
            None => {
                return Err(DecodeError);
            },
            Some(m) => m,
        };
        if seen_contains(&self.seen, m.origin, m.seq) {
            let eff = RecvEffects { deliver: None, forward: Vec::new() };
            proof {
                assert(eff@ =~= (RecvEffectsView { deliver: None, forward: Seq::empty() }));
            }
            Ok(eff)
        } else {
            record_key(&mut self.seen, self.cap, m.origin, m.seq);
            let ghost s2 = EngineView {
                seen: record_spec(old(self)@.seen, old(self)@.cap, (m@.origin, m@.seq)),
                ..old(self)@
            };
            proof {
                assert(self@ =~= s2);
            }
            let subscribed = match find_topic(&self.subs, &m.topic) {
                Some(_) => true,
                None => false,
            };
            if subscribed {
                let fwd = targets_except(&self.peers, &m.topic, sender);
                let eff = RecvEffects { deliver: Some(m.data), forward: fwd };
                proof {
                    assert(eff@ =~= (RecvEffectsView {
                        deliver: Some(m@.data),
                        forward: forward_targets(old(self)@.peers, m@.topic, sender),
                    }));
                }
                Ok(eff)
            } else {
                let eff = RecvEffects { deliver: None, forward: Vec::new() };
                proof {
                    assert(eff@ =~= (RecvEffectsView { deliver: None, forward: Seq::empty() }));
                }
                Ok(eff)
            }
        }
    }
}


/// One discovery event as the gossip engine consumes it: a peer joined
/// (advertising its topics of interest) or a peer left.
pub ghost enum DiscView {
    Join { peer: u64, topics: Seq<Seq<u8>> },
    Leave { peer: u64 },
}

/// The engine state after one discovery event.
pub open spec fn apply_disc(s: EngineView, e: DiscView) -> EngineView {
    match e {
        DiscView::Join { peer, topics } => add_peer_spec(s, peer, topics),
        DiscView::Leave { peer } => remove_peer_spec(s, peer),
    }
}

/// The engine state after a sequence of discovery events, first to last.
pub open spec fn run_disc(s: EngineView, es: Seq<DiscView>) -> EngineView
    decreases es.len(),
{
    if es.len() == 0 {
        s
    } else {
        run_disc(apply_disc(s, es[0]), es.skip(1))
    }
}

/// A well-behaved discovery stream: no duplicate join without an intervening
/// leave, and no leave for a peer not currently joined — exactly what the
/// discovery service guarantees to emit.
pub open spec fn valid_disc(s: EngineView, es: Seq<DiscView>) -> bool
    decreases es.len(),
{
    es.len() == 0 || {
        &&& match es[0] {
            DiscView::Join { peer, .. } => !s.in_view(peer),
            DiscView::Leave { peer } => s.in_view(peer),
        }
        &&& valid_disc(apply_disc(s, es[0]), es.skip(1))
    }
}

/// The currently-joined peers after a sequence of discovery events, each
/// mapped to the topics it advertised on join.
pub open spec fn joined_after(m: Map<u64, Seq<Seq<u8>>>, es: Seq<DiscView>) -> Map<
    u64,
    Seq<Seq<u8>>,
>
    decreases es.len(),
{
    if es.len() == 0 {
        m
    } else {
        let m2 = match es[0] {
            DiscView::Join { peer, topics } => m.insert(peer, topics),
            DiscView::Leave { peer } => m.remove(peer),
        };
        joined_after(m2, es.skip(1))
    }
}

/// The partial view holds exactly the entries of the joined-peer map.
pub open spec fn view_matches(peers: Seq<PeerEntryView>, m: Map<u64, Seq<Seq<u8>>>) -> bool {
    &&& forall|p: u64| ids(peers).contains(p) <==> m.dom().contains(p)
    &&& forall|i: int|
        0 <= i < peers.len() ==> m.dom().contains(#[trigger] peers[i].peer) && m[peers[i].peer]
            == peers[i].topics
    &&& peers.len() == m.dom().len()
}

/// Every element of a filtered sequence is an element of the original.
pub proof fn lemma_filter_subset<A>(s: Seq<A>, pred: spec_fn(A) -> bool)
    ensures
        forall|i: int| 0 <= i < s.filter(pred).len() ==> s.contains(#[trigger] s.filter(pred)[i]),
    decreases s.len(),
{
    reveal(Seq::filter);
    if s.len() != 0 {
        let rest = s.drop_last();
        lemma_filter_subset(rest, pred);
        assert forall|i: int|
            0 <= i < s.filter(pred).len() implies s.contains(#[trigger] s.filter(pred)[i]) by {
            if pred(s.last()) && i == s.filter(pred).len() - 1 {
                assert(s[s.len() - 1] == s.filter(pred)[i]);
            } else {
                assert(s.filter(pred)[i] == rest.filter(pred)[i]);
                assert(rest.contains(rest.filter(pred)[i]));
                let j = choose|j: int| 0 <= j < rest.len() && rest[j] == rest.filter(pred)[i];
                assert(s[j] == s.filter(pred)[i]);
            }
        }
    }
}

/// Inductive core of the discovery-tracking law: a view that matches a
/// joined-peer map keeps matching it across any well-behaved event stream.
pub proof fn lemma_view_tracks_discovery(s: EngineView, m: Map<u64, Seq<Seq<u8>>>, es: Seq<
    DiscView,
>)
    requires
        s.wf(),
        m.dom().finite(),
        view_matches(s.peers, m),
        valid_disc(s, es),
    ensures
        run_disc(s, es).wf(),
        joined_after(m, es).dom().finite(),
        view_matches(run_disc(s, es).peers, joined_after(m, es)),
        run_disc(s, es).subs == s.subs,
        run_disc(s, es).seen == s.seen,
    decreases es.len(),
{
    broadcast use vstd::set::group_set_axioms;

    if es.len() == 0 {
    } else {
        let e = es[0];
        let s2 = apply_disc(s, e);
        match e {
            DiscView::Join { peer, topics } => {
                let entry = PeerEntryView { peer, topics };
                let m2 = m.insert(peer, topics);
                assert(s2.peers == s.peers.push(entry));
                assert(ids(s2.peers) =~= ids(s.peers).push(peer));
                assert(ids(s2.peers).no_duplicates()) by {
                    assert forall|a: int, b: int|
                        0 <= a < b < ids(s2.peers).len() implies ids(s2.peers)[a] != ids(
                        s2.peers,
                    )[b] by {
                        if b == ids(s2.peers).len() - 1 {
                            assert(ids(s.peers).contains(ids(s2.peers)[a]));
                        }
                    }
                }
                assert(s2.wf());
                assert(view_matches(s2.peers, m2)) by {
                    assert(forall|p: u64|
                        ids(s2.peers).contains(p) <==> ids(s.peers).contains(p) || p == peer) by {
                        assert(ids(s2.peers)[ids(s2.peers).len() - 1] == peer);
                        assert(forall|j: int|
                            0 <= j < ids(s.peers).len() ==> ids(s2.peers)[j] == #[trigger] ids(
                                s.peers,
                            )[j]);
                        assert forall|p: u64| ids(s2.peers).contains(p) implies ids(
                            s.peers,
                        ).contains(p) || p == peer by {
                            let j = choose|j: int|
                                0 <= j < ids(s2.peers).len() && ids(s2.peers)[j] == p;
                            if j < ids(s2.peers).len() - 1 {
                                assert(ids(s.peers)[j] == p);
                            }
                        }
                    }
                    assert(s2.peers.len() == m2.dom().len()) by {
                        assert(!m.dom().contains(peer));
                        assert(m2.dom() =~= m.dom().insert(peer));
                    }
                }
                lemma_view_tracks_discovery(s2, m2, es.skip(1));
            },
            DiscView::Leave { peer } => {
                let m2 = m.remove(peer);
                let pred = not_peer(peer);
                assert(s2.peers == s.peers.filter(pred));
                lemma_ids_filter_no_dup(s.peers, pred);
                lemma_filter_subset(s.peers, pred);
                // membership after the leave: everyone but the left peer
                assert forall|q: u64| ids(s2.peers).contains(q) implies q != peer && ids(
                    s.peers,
                ).contains(q) by {
                    let j = choose|j: int| 0 <= j < ids(s2.peers).len() && ids(s2.peers)[j] == q;
                    assert(s2.peers[j].peer == q);
                    Seq::lemma_filter_pred(s.peers, pred, j);
                }
                assert forall|q: u64| q != peer && ids(s.peers).contains(q) implies ids(
                    s2.peers,
                ).contains(q) by {
                    let j = choose|j: int| 0 <= j < ids(s.peers).len() && ids(s.peers)[j] == q;
                    assert(s.peers[j].peer == q);
                    assert(pred(s.peers[j]));
                    Seq::lemma_filter_contains(s.peers, pred, j);
                    let w = choose|w: int|
                        0 <= w < s2.peers.len() && s2.peers[w] == s.peers[j];
                    assert(ids(s2.peers)[w] == q);
                }
                // each kept entry keeps its advertised topics
                assert forall|i: int|
                    0 <= i < s2.peers.len() implies m2.dom().contains(
                    #[trigger] s2.peers[i].peer,
                ) && m2[s2.peers[i].peer] == s2.peers[i].topics by {
                    assert(s.peers.contains(s2.peers[i]));
                    Seq::lemma_filter_pred(s.peers, pred, i);
                    let j = choose|j: int| 0 <= j < s.peers.len() && s.peers[j] == s2.peers[i];
                    assert(m.dom().contains(s.peers[j].peer));
                }
                assert(view_matches(s2.peers, m2)) by {
                    assert(s2.peers.len() == m2.dom().len()) by {
                        ids(s2.peers).unique_seq_to_set();
                        ids(s.peers).unique_seq_to_set();
                        assert(ids(s2.peers).to_set() =~= m2.dom()) by {
                            assert(m2.dom() =~= m.dom().remove(peer));
                            assert(ids(s.peers).to_set() =~= m.dom());
                        }
                    }
                }
                assert(s2.wf());
                lemma_view_tracks_discovery(s2, m2, es.skip(1));
            },
        }
    }
}

/// Law: for every sequence of discovery join/leave events with no duplicate
/// join without an intervening leave (and no leave of an absent peer), the
/// partial view of an engine that consumed the stream holds exactly the
/// currently-joined peers, each with the topics it advertised, and its size
/// equals the number of currently-joined peers. In particular, for each
/// topic, the peers the engine floods to are exactly the currently-joined
/// peers currently advertising that topic.
pub proof fn lemma_partial_view_tracks_discovery(s: EngineView, es: Seq<DiscView>)
    requires
        s.wf(),
        s.peers == Seq::<PeerEntryView>::empty(),
        valid_disc(s, es),
    ensures
        run_disc(s, es).wf(),
        forall|p: u64|
            run_disc(s, es).in_view(p) <==> joined_after(
                Map::empty(),
                es,
            ).dom().contains(p),
        forall|p: u64, t: Seq<u8>|
            run_disc(s, es).in_view_for(t, p) <==> (joined_after(Map::empty(), es).dom().contains(
                p,
            ) && joined_after(Map::empty(), es)[p].contains(t)),
        run_disc(s, es).peers.len() == joined_after(Map::empty(), es).dom().len(),
{
    broadcast use vstd::set::group_set_axioms;

    let m0 = Map::<u64, Seq<Seq<u8>>>::empty();
    assert(view_matches(s.peers, m0)) by {
        assert(ids(s.peers) =~= Seq::<u64>::empty());
        assert(m0.dom() =~= Set::<u64>::empty());
    }
    lemma_view_tracks_discovery(s, m0, es);
    let s2 = run_disc(s, es);
    let jm = joined_after(m0, es);
    assert forall|p: u64, t: Seq<u8>|
        s2.in_view_for(t, p) <==> (jm.dom().contains(p) && jm[p].contains(t)) by {
        if s2.in_view_for(t, p) {
            let i = choose|i: int|
                0 <= i < s2.peers.len() && s2.peers[i].peer == p && s2.peers[i].topics.contains(t);
            assert(jm.dom().contains(s2.peers[i].peer));
        }
        if jm.dom().contains(p) && jm[p].contains(t) {
            assert(ids(s2.peers).contains(p));
            let j = choose|j: int| 0 <= j < ids(s2.peers).len() && ids(s2.peers)[j] == p;
            assert(s2.peers[j].peer == p);
            assert(jm[s2.peers[j].peer] == s2.peers[j].topics);
        }
    }
}

/// Law: a flood is addressed to each peer at most once, and to exactly the
/// peers of the partial view for the topic — all of them for a publish, all
/// but the immediate sender for a re-flood.
pub proof fn lemma_flood_targets_exact(s: EngineView, t: Seq<u8>, sender: u64)
    requires
        s.wf(),
    ensures
        publish_targets(s.peers, t).no_duplicates(),
        forward_targets(s.peers, t, sender).no_duplicates(),
        forall|p: u64| publish_targets(s.peers, t).contains(p) <==> s.in_view_for(t, p),
        forall|p: u64|
            forward_targets(s.peers, t, sender).contains(p) <==> (s.in_view_for(t, p) && p
                != sender),
{
    lemma_ids_filter_no_dup(s.peers, interested(t));
    lemma_ids_filter_no_dup(s.peers, interested_except(t, sender));
    lemma_filter_subset(s.peers, interested(t));
    lemma_filter_subset(s.peers, interested_except(t, sender));
    let pubs = s.peers.filter(interested(t));
    let fwds = s.peers.filter(interested_except(t, sender));
    assert forall|p: u64| publish_targets(s.peers, t).contains(p) implies s.in_view_for(t, p) by {
        let j = choose|j: int| 0 <= j < ids(pubs).len() && ids(pubs)[j] == p;
        assert(pubs[j].peer == p);
        Seq::lemma_filter_pred(s.peers, interested(t), j);
        assert(s.peers.contains(pubs[j]));
        let i = choose|i: int| 0 <= i < s.peers.len() && s.peers[i] == pubs[j];
        assert(s.peers[i].peer == p && s.peers[i].topics.contains(t));
    }
    assert forall|p: u64| s.in_view_for(t, p) implies publish_targets(s.peers, t).contains(p) by {
        let i = choose|i: int|
            0 <= i < s.peers.len() && s.peers[i].peer == p && s.peers[i].topics.contains(t);
        assert(interested(t)(s.peers[i]));
        Seq::lemma_filter_contains(s.peers, interested(t), i);
        let w = choose|w: int| 0 <= w < pubs.len() && pubs[w] == s.peers[i];
        assert(ids(pubs)[w] == p);
    }
    assert forall|p: u64| forward_targets(s.peers, t, sender).contains(p) implies (s.in_view_for(
        t,
        p,
    ) && p != sender) by {
        let j = choose|j: int| 0 <= j < ids(fwds).len() && ids(fwds)[j] == p;
        assert(fwds[j].peer == p);
        Seq::lemma_filter_pred(s.peers, interested_except(t, sender), j);
        assert(s.peers.contains(fwds[j]));
        let i = choose|i: int| 0 <= i < s.peers.len() && s.peers[i] == fwds[j];
        assert(s.peers[i].peer == p && s.peers[i].topics.contains(t));
    }
    assert forall|p: u64| s.in_view_for(t, p) && p != sender implies forward_targets(
        s.peers,
        t,
        sender,
    ).contains(p) by {
        let i = choose|i: int|
            0 <= i < s.peers.len() && s.peers[i].peer == p && s.peers[i].topics.contains(t);
        assert(interested_except(t, sender)(s.peers[i]));
        Seq::lemma_filter_contains(s.peers, interested_except(t, sender), i);
        let w = choose|w: int| 0 <= w < fwds.len() && fwds[w] == s.peers[i];
        assert(ids(fwds)[w] == p);
    }
}

/// Law: feeding the same encoded message to the engine twice is idempotent —
/// the first fresh receipt of a subscribed topic surfaces the payload once,
/// and the second receipt surfaces nothing, re-floods nothing, and leaves the
/// state unchanged, whoever the senders were.
pub proof fn lemma_receive_idempotent(s: EngineView, sender1: u64, sender2: u64, bytes: Seq<u8>)
    requires
        s.wf(),
        decode_spec(bytes) is Some,
    ensures
        ({
            let m = decode_spec(bytes).unwrap();
            let (s1, e1) = recv_spec(s, sender1, bytes).unwrap();
            let (s2, e2) = recv_spec(s1, sender2, bytes).unwrap();
            &&& !s.seen.contains((m.origin, m.seq)) && s.subscribed(m.topic) ==> e1.deliver
                == Some(m.data)
            &&& e2.deliver is None
            &&& e2.forward == Seq::<u64>::empty()
            &&& s2 == s1
        }),
{
    let m = decode_spec(bytes).unwrap();
    let k = (m.origin, m.seq);
    let (s1, e1) = recv_spec(s, sender1, bytes).unwrap();
    assert(s1.seen.contains(k)) by {
        if !s.seen.contains(k) {
            assert(s1.seen == record_spec(s.seen, s.cap, k));
            if s.seen.len() >= s.cap {
                assert(s1.seen[s1.seen.len() - 1] == k);
            } else {
                assert(s1.seen[s1.seen.len() - 1] == k);
            }
        }
    }
}

/// Law: topic isolation — a message tagged with a topic the local node has
/// not subscribed to is never surfaced to the UI boundary and is never
/// re-flooded, whatever the deduplication cache holds.
pub proof fn lemma_topic_isolation(s: EngineView, sender: u64, bytes: Seq<u8>, m: MsgView)
    requires
        decode_spec(bytes) == Some(m),
        !s.subscribed(m.topic),
    ensures
        recv_spec(s, sender, bytes) is Some,
        recv_spec(s, sender, bytes).unwrap().1.deliver is None,
        recv_spec(s, sender, bytes).unwrap().1.forward == Seq::<u64>::empty(),
{
}

} // verus!
