//! The chat node: gossip engine, discovery service and liveness monitor under
//! one owner, driven by a host event loop through a single tagged event type
//! and one dispatch function.
//!
//! The host loop waits for the first-ready of its sources (a UI submission, an
//! inbound network event, a timer firing), turns what arrived into one
//! [`Event`], hands it to [`Chat::handle_event`], and performs the returned
//! [`Action`]s: dialing, sending frames, surfacing payloads to the UI
//! boundary, closing connections. All protocol-state mutation happens inside
//! `handle_event`, serialized by the loop.

use vstd::prelude::*;

use crate::codec::{encode, encode_spec, Message};
use crate::discovery::Discovery;
use crate::engine::{
    add_peer_spec, bytes_view, publish_spec, recv_spec, remove_peer_spec, Engine, EngineView,
    PeerEntryView,
};
use crate::liveness::{conn_ids, other_conn, ConnEntry, Liveness};

verus! {

/// One event of the multiplexed stream the event loop consumes: a discovery
/// join or leave, a liveness timeout, an inbound wire frame, a publish
/// request from the UI boundary, or the shutdown signal.
pub enum Event {
    DiscoveryJoin { peer: u64, topics: Vec<Vec<u8>> },
    DiscoveryLeave { peer: u64 },
    LivenessTimeout { peer: u64 },
    InboundMessage { sender: u64, bytes: Vec<u8> },
    PublishRequest { topic: Vec<u8>, data: Vec<u8> },
    Shutdown,
}

/// One action the host performs on behalf of the node: open a transport
/// session, send a frame over one, surface a payload to the UI boundary, or
/// tear a session down.
pub enum Action {
    Dial { peer: u64 },
    Send { peer: u64, bytes: Vec<u8> },
    Deliver { data: Vec<u8> },
    Close { peer: u64 },
}

/// Mathematical model of an [`Action`].
#[verifier::ext_equal]
pub ghost enum ActionView {
    Dial { peer: u64 },
    Send { peer: u64, bytes: Seq<u8> },
    Deliver { data: Seq<u8> },
    Close { peer: u64 },
}

impl View for Action {
    type V = ActionView;

    open spec fn view(&self) -> ActionView {
        match self {
            Action::Dial { peer } => ActionView::Dial { peer: *peer },
            Action::Send { peer, bytes } => ActionView::Send { peer: *peer, bytes: bytes@ },
            Action::Deliver { data } => ActionView::Deliver { data: data@ },
            Action::Close { peer } => ActionView::Close { peer: *peer },
        }
    }
}

/// The action views of a list of actions, elementwise.
pub open spec fn acts_view(v: Seq<Action>) -> Seq<ActionView> {
    v.map_values(|a: Action| a@)
}

/// One send of the same frame to each target, in target order.
pub open spec fn send_actions(targets: Seq<u64>, bytes: Seq<u8>) -> Seq<ActionView> {
    targets.map_values(|p: u64| ActionView::Send { peer: p, bytes })
}

/// One close per listed peer, in order.
pub open spec fn close_actions(peers: Seq<u64>) -> Seq<ActionView> {
    peers.map_values(|p: u64| ActionView::Close { peer: p })
}

/// The surfacing of a payload to the UI boundary, when there is one.
pub open spec fn deliver_actions(deliver: Option<Seq<u8>>) -> Seq<ActionView> {
    match deliver {
        Some(data) => seq![ActionView::Deliver { data }],
        None => Seq::empty(),
    }
}

/// Builds one send action per target, all carrying the same frame.
fn send_all(targets: &Vec<u64>, bytes: &Vec<u8>) -> (acts: Vec<Action>)
    ensures
        acts_view(acts@) == send_actions(targets@, bytes@),
{
    let mut acts: Vec<Action> = Vec::new();
    let mut i: usize = 0;
    proof {
        assert(acts_view(acts@) =~= send_actions(targets@.take(0), bytes@));
    }
    while i < targets.len()
        invariant
            i <= targets@.len(),
            acts_view(acts@) == send_actions(targets@.take(i as int), bytes@),
        decreases targets@.len() - i,
    {
        let frame = crate::codec::copy_range(bytes, 0, bytes.len());
        proof {
            assert(frame@ =~= bytes@);
            assert(frame@ == bytes@);
        }
        let ghost a0 = acts@;
        acts.push(Action::Send { peer: targets[i], bytes: frame });
        proof {
            let post = send_actions(targets@.take(i + 1), bytes@);
            assert(acts@.len() == a0.len() + 1);
            assert(acts_view(a0).len() == a0.len());
            assert(acts_view(a0) == send_actions(targets@.take(i as int), bytes@));
            assert(send_actions(targets@.take(i as int), bytes@).len() == i as int);
            assert(a0.len() == i as int);
            assert(targets@.take(i + 1).len() == i + 1);
            assert(post.len() == i + 1);
            assert(acts_view(acts@).len() == post.len());
            assert forall|j: int| 0 <= j < post.len() implies acts_view(acts@)[j] == post[j] by {
                assert(post[j] == (ActionView::Send { peer: targets@.take(i + 1)[j], bytes: bytes@
                }));
                assert(acts_view(acts@)[j] == acts@[j]@);
                if j < a0.len() {
                    assert(acts@[j] == a0[j]);
                    assert(a0[j]@ == send_actions(targets@.take(i as int), bytes@)[j]);
                    assert(targets@.take(i as int)[j] == targets@.take(i + 1)[j]);
                } else {
                    assert(acts@[j]@ == (ActionView::Send { peer: targets@[i as int], bytes: frame@
                    }));
                    assert(targets@.take(i + 1)[j] == targets@[i as int]);
                }
            }
            assert(acts_view(acts@) =~= post);
        }
        i = i + 1;
    }
    proof {
        assert(targets@.take(targets@.len() as int) =~= targets@);
    }
    acts
}

/// The chat node state: what the event loop owns and mutates.
pub struct Chat {
    /// Gossip dissemination engine: subscriptions, partial view,
    /// deduplication cache, sequence counter.
    pub engine: Engine,
    /// Peer discovery presence tracking.
    pub discovery: Discovery,
    /// Liveness monitoring of active connections.
    pub liveness: Liveness,
}

impl Chat {
    /// Well-formedness of all three components.
    pub open spec fn wf(self) -> bool {
        &&& self.engine@.wf()
        &&& self.discovery@.wf()
        &&& self.liveness.wf()
    }

    /// A fresh node for the local peer, already subscribed to its chat
    /// topic, with no peers discovered and no connections.
    pub fn new(local_peer: u64, cap: usize, expiry: u64, timeout: u64, topic: Vec<u8>) -> (r: Chat)
        requires
            cap >= 1,
        ensures
            r.wf(),
            r.engine@.local_peer == local_peer,
            r.engine@.next_seq == 0,
            r.engine@.subs == seq![topic@],
            r.engine@.peers == Seq::<PeerEntryView>::empty(),
            r.engine@.seen == Seq::<(u64, u64)>::empty(),
            r.engine@.cap == cap as nat,
            r.discovery@.entries.len() == 0,
            r.discovery@.expiry == expiry,
            r.liveness.conns@.len() == 0,
            r.liveness.timeout == timeout,
    {
        let mut engine = Engine::new(local_peer, cap);
        engine.subscribe(topic);
        proof {
            assert(engine@.subs =~= seq![topic@]);
        }
        Chat { engine, discovery: Discovery::new(expiry), liveness: Liveness::new(timeout) }
    }

    /// Dispatches one event: the exhaustive match over the event kinds that
    /// replaces per-kind callbacks. Exactly one event is handled per call;
    /// the returned actions are what the host performs before the next one.
    ///
    /// - A discovery join adds the peer (with its advertised topics) to the
    ///   partial view and asks for a transport session to it.
    /// - A discovery leave drops the peer from the view and closes its
    ///   session.
    /// - A liveness timeout closes the dead session, drops the peer from the
    ///   view, and forgets it in discovery so that its next announcement
    ///   produces a fresh join.
    /// - An inbound frame goes through the receive transition: malformed
    ///   bytes close the offending session and change nothing else; a
    ///   fresh message is re-flooded (sender excepted) and surfaced when its
    ///   topic is subscribed; a duplicate is discarded silently.
    /// - A publish request floods a newly numbered message to every peer in
    ///   the partial view for the topic; with no such peer it is a silent
    ///   no-op.
    /// - The shutdown signal closes every open connection and empties the
    ///   protocol state; the host then stops announcing and exits its loop.
    pub fn handle_event(&mut self, ev: Event) -> (acts: Vec<Action>)
        requires
            old(self).wf(),
            ev is PublishRequest ==> old(self).engine@.next_seq < u64::MAX,
        ensures
            final(self).wf(),
            match ev {
                Event::DiscoveryJoin { peer, topics } => {
                    &&& final(self).engine@ == add_peer_spec(
                        old(self).engine@,
                        peer,
                        bytes_view(topics@),
                    )
                    &&& final(self).discovery@ == old(self).discovery@
                    &&& final(self).liveness == old(self).liveness
                    &&& acts_view(acts@) == seq![ActionView::Dial { peer }]
                },
                Event::DiscoveryLeave { peer } => {
                    &&& final(self).engine@ == remove_peer_spec(old(self).engine@, peer)
                    &&& final(self).discovery@ == old(self).discovery@
                    &&& final(self).liveness.conns@ == old(self).liveness.conns@.filter(
                        other_conn(peer),
                    )
                    &&& final(self).liveness.timeout == old(self).liveness.timeout
                    &&& acts_view(acts@) == seq![ActionView::Close { peer }]
                },
                Event::LivenessTimeout { peer } => {
                    &&& final(self).engine@ == remove_peer_spec(old(self).engine@, peer)
                    &&& final(self).discovery@.entries == old(self).discovery@.entries.filter(
                        crate::discovery::other_peer(peer),
                    )
                    &&& final(self).discovery@.expiry == old(self).discovery@.expiry
                    &&& final(self).liveness.conns@ == old(self).liveness.conns@.filter(
                        other_conn(peer),
                    )
                    &&& final(self).liveness.timeout == old(self).liveness.timeout
                    &&& !final(self).engine@.in_view(peer)
                    &&& !final(self).discovery@.present(peer)
                    &&& acts_view(acts@) == seq![ActionView::Close { peer }]
                },
                Event::InboundMessage { sender, bytes } => {
                    &&& final(self).discovery@ == old(self).discovery@
                    &&& final(self).liveness == old(self).liveness
                    &&& match recv_spec(old(self).engine@, sender, bytes@) {
                        Some((s2, eff)) => {
                            &&& final(self).engine@ == s2
                            &&& acts_view(acts@) == send_actions(eff.forward, bytes@)
                                + deliver_actions(eff.deliver)
                        },
                        None => {
                            &&& final(self).engine@ == old(self).engine@
                            &&& acts_view(acts@) == seq![ActionView::Close { peer: sender }]
                        },
                    }
                },
                Event::PublishRequest { topic, data } => {
                    &&& final(self).engine@ == publish_spec(old(self).engine@, topic@, data@).0
                    &&& final(self).discovery@ == old(self).discovery@
                    &&& final(self).liveness == old(self).liveness
                    &&& acts_view(acts@) == send_actions(
                        publish_spec(old(self).engine@, topic@, data@).2,
                        encode_spec(publish_spec(old(self).engine@, topic@, data@).1),
                    )
                },
                Event::Shutdown => {
                    &&& final(self).engine@ == (EngineView {
                        peers: Seq::<PeerEntryView>::empty(),
                        ..old(self).engine@
                    })
                    &&& final(self).discovery@.entries == Seq::<
                        crate::discovery::DiscEntryView,
                    >::empty()
                    &&& final(self).discovery@.expiry == old(self).discovery@.expiry
                    &&& final(self).liveness.conns@ == Seq::<ConnEntry>::empty()
                    &&& final(self).liveness.timeout == old(self).liveness.timeout
                    &&& acts_view(acts@) == close_actions(conn_ids(old(self).liveness.conns@))
                },
            },
    {
        match ev {
            Event::DiscoveryJoin { peer, topics } => {
                self.engine.add_peer(peer, topics);
                let mut acts: Vec<Action> = Vec::new();
                acts.push(Action::Dial { peer });
                proof {
                    assert(acts_view(acts@) =~= seq![ActionView::Dial { peer }]);
                }
                acts
            },
            Event::DiscoveryLeave { peer } => {
                self.engine.remove_peer(peer);
                self.liveness.remove_conn(peer);
                let mut acts: Vec<Action> = Vec::new();
                acts.push(Action::Close { peer });
                proof {
                    assert(acts_view(acts@) =~= seq![ActionView::Close { peer }]);
                }
                acts
            },
            Event::LivenessTimeout { peer } => {
                self.engine.remove_peer(peer);
                self.discovery.forget(peer);
                self.liveness.remove_conn(peer);
                let mut acts: Vec<Action> = Vec::new();
                acts.push(Action::Close { peer });
                proof {
                    assert(acts_view(acts@) =~= seq![ActionView::Close { peer }]);
                    let s2 = remove_peer_spec(old(self).engine@, peer);
                    if s2.in_view(peer) {
                        let j = choose|j: int|
                            0 <= j < crate::engine::ids(s2.peers).len() && crate::engine::ids(
                                s2.peers,
                            )[j] == peer;
                        assert(s2.peers[j].peer == peer);
                        Seq::lemma_filter_pred(
                            old(self).engine@.peers,
                            crate::engine::not_peer(peer),
                            j,
                        );
                    }
                }
                acts
            },
            Event::InboundMessage { sender, bytes } => {
                match self.engine.on_receive(sender, &bytes) {
                    Err(_) => {
                        let mut acts: Vec<Action> = Vec::new();
                        acts.push(Action::Close { peer: sender });
                        proof {
                            assert(acts_view(acts@) =~= seq![ActionView::Close { peer: sender }]);
                        }
                        acts
                    },
                    Ok(eff) => {
                        let mut acts = send_all(&eff.forward, &bytes);
                        let ghost sent = acts_view(acts@);
                        match eff.deliver {
                            Some(data) => {
                                acts.push(Action::Deliver { data });
                                proof {
                                    assert(acts_view(acts@) =~= sent + deliver_actions(
                                        Some(eff@.deliver.unwrap()),
                                    ));
                                }
                            },
                            None => {
                                proof {
                                    assert(acts_view(acts@) =~= sent + deliver_actions(None));
                                }
                            },
                        }
                        acts
                    },
                }
            },
            Event::PublishRequest { topic, data } => {
                let (m, targets) = self.engine.publish(&topic, data);
                let frame = encode(&m);
                send_all(&targets, &frame)
            },
            Event::Shutdown => {
                let mut acts: Vec<Action> = Vec::new();
                let mut i: usize = 0;
                proof {
                    assert(acts_view(acts@) =~= close_actions(
                        conn_ids(self.liveness.conns@).take(0),
                    ));
                }
                while i < self.liveness.conns.len()
                    invariant
                        i <= self.liveness.conns@.len(),
                        self.liveness == old(self).liveness,
                        acts_view(acts@) == close_actions(
                            conn_ids(self.liveness.conns@).take(i as int),
                        ),
                    decreases self.liveness.conns@.len() - i,
                {
                    let ghost a0 = acts@;
                    acts.push(Action::Close { peer: self.liveness.conns[i].peer });
                    proof {
                        let cs = conn_ids(self.liveness.conns@);
                        assert(cs[i as int] == self.liveness.conns@[i as int].peer);
                        let post = close_actions(cs.take(i + 1));
                        assert(acts_view(a0) == close_actions(cs.take(i as int)));
                        assert(acts_view(a0).len() == a0.len());
                        assert(close_actions(cs.take(i as int)).len() == i as int);
                        assert(a0.len() == i as int);
                        assert(acts_view(acts@).len() == post.len());
                        assert forall|j: int|
                            0 <= j < post.len() implies acts_view(acts@)[j] == post[j] by {
                            assert(post[j] == (ActionView::Close { peer: cs.take(i + 1)[j] }));
                            assert(acts_view(acts@)[j] == acts@[j]@);
                            if j < a0.len() {
                                assert(acts@[j] == a0[j]);
                                assert(a0[j]@ == close_actions(cs.take(i as int))[j]);
                                assert(cs.take(i as int)[j] == cs.take(i + 1)[j]);
                            } else {
                                assert(acts@[j]@ == (ActionView::Close { peer: cs[i as int] }));
                                assert(cs.take(i + 1)[j] == cs[i as int]);
                            }
                        }
                        assert(acts_view(acts@) =~= post);
                    }
                    i = i + 1;
                }
                proof {
                    let cs = conn_ids(self.liveness.conns@);
                    assert(cs.take(cs.len() as int) =~= cs);
                }
                self.liveness.conns = Vec::new();
                self.discovery.entries = Vec::new();
                self.engine.peers = Vec::new();
                proof {
                    assert(self.engine@ =~= (EngineView {
                        peers: Seq::<PeerEntryView>::empty(),
                        ..old(self).engine@
                    }));
                    assert(self.engine@.peers =~= Seq::<PeerEntryView>::empty());
                    assert(crate::engine::ids(self.engine@.peers)
                        =~= Seq::<u64>::empty());
                    assert(self.discovery@.entries =~= Seq::<
                        crate::discovery::DiscEntryView,
                    >::empty());
                    assert(crate::discovery::disc_ids(self.discovery@.entries)
                        =~= Seq::<u64>::empty());
                    assert(conn_ids(self.liveness.conns@) =~= Seq::<u64>::empty());
                }
                acts
            },
        }
    }
}

} // verus!
