use chat_core::codec::encode;
use chat_core::discovery::Discovery;
use chat_core::liveness::Liveness;
use chat_core::node::{Action, Chat, Event};

const CAP: usize = 16;
const EXPIRY: u64 = 10;
const TIMEOUT: u64 = 10;

fn new_node(id: u64) -> Chat {
    Chat::new(id, CAP, EXPIRY, TIMEOUT, b"chat".to_vec())
}

fn join(node: &mut Chat, peer: u64) {
    node.handle_event(Event::DiscoveryJoin { peer, topics: vec![b"chat".to_vec()] });
}

/// The frames sent by a list of actions, with their targets.
fn sends(acts: &[Action]) -> Vec<(u64, Vec<u8>)> {
    let mut out = Vec::new();
    for a in acts {
        if let Action::Send { peer, bytes } = a {
            out.push((*peer, bytes.clone()));
        }
    }
    out
}

/// The payloads surfaced to the UI boundary by a list of actions.
fn delivers(acts: &[Action]) -> Vec<Vec<u8>> {
    let mut out = Vec::new();
    for a in acts {
        if let Action::Deliver { data } = a {
            out.push(data.clone());
        }
    }
    out
}

#[test]
fn publish_reaches_discovered_subscribed_peer() {
    // peer A (1) discovers peer B (2); A publishes "hi" on "chat"
    let mut a = new_node(1);
    join(&mut a, 2);
    let acts = a.handle_event(Event::PublishRequest { topic: b"chat".to_vec(), data: b"hi".to_vec() });
    let s = sends(&acts);
    assert_eq!(s.len(), 1);
    assert_eq!(s[0].0, 2);

    // B receives the frame once: exactly one "message received" with "hi"
    let mut b = new_node(2);
    let acts_b = b.handle_event(Event::InboundMessage { sender: 1, bytes: s[0].1.clone() });
    assert_eq!(delivers(&acts_b), vec![b"hi".to_vec()]);
}

#[test]
fn duplicate_receive_is_idempotent() {
    let mut a = new_node(1);
    join(&mut a, 2);
    let acts = a.handle_event(Event::PublishRequest { topic: b"chat".to_vec(), data: b"once".to_vec() });
    let frame = sends(&acts)[0].1.clone();

    let mut b = new_node(2);
    let first = b.handle_event(Event::InboundMessage { sender: 1, bytes: frame.clone() });
    assert_eq!(delivers(&first).len(), 1);
    // the same encoded message again: nothing surfaced, nothing re-flooded
    let second = b.handle_event(Event::InboundMessage { sender: 1, bytes: frame.clone() });
    assert_eq!(delivers(&second).len(), 0);
    assert_eq!(sends(&second).len(), 0);
    // and again, from another sender: still suppressed
    let third = b.handle_event(Event::InboundMessage { sender: 3, bytes: frame });
    assert_eq!(delivers(&third).len(), 0);
    assert_eq!(sends(&third).len(), 0);
}

#[test]
fn unsubscribed_topic_is_never_surfaced() {
    let mut a = new_node(1);
    join(&mut a, 2);
    let acts = a.handle_event(Event::PublishRequest { topic: b"news".to_vec(), data: b"x".to_vec() });
    // B advertised only "chat", so A's view for "news" is empty: silent no-op
    assert_eq!(sends(&acts).len(), 0);

    // hand B a "news" frame directly: B is not subscribed to "news"
    let frame = encode(&chat_core::codec::Message {
        origin: 1,
        seq: 0,
        topic: b"news".to_vec(),
        data: b"x".to_vec(),
    });
    let mut b = new_node(2);
    join(&mut b, 3);
    let first = b.handle_event(Event::InboundMessage { sender: 1, bytes: frame.clone() });
    assert_eq!(delivers(&first).len(), 0);
    assert_eq!(sends(&first).len(), 0);
    // regardless of the deduplication cache now holding the message
    let second = b.handle_event(Event::InboundMessage { sender: 1, bytes: frame });
    assert_eq!(delivers(&second).len(), 0);
    assert_eq!(sends(&second).len(), 0);
}

#[test]
fn malformed_frame_closes_offending_connection_only() {
    let mut b = new_node(2);
    join(&mut b, 1);
    let acts = b.handle_event(Event::InboundMessage { sender: 1, bytes: vec![1, 2, 3] });
    assert!(matches!(acts[..], [Action::Close { peer: 1 }]));

    // the node keeps working for well-formed traffic afterwards
    let mut a = new_node(1);
    join(&mut a, 2);
    let frame = sends(&a.handle_event(Event::PublishRequest {
        topic: b"chat".to_vec(),
        data: b"still here".to_vec(),
    }))[0]
        .1
        .clone();
    let after = b.handle_event(Event::InboundMessage { sender: 1, bytes: frame });
    assert_eq!(delivers(&after), vec![b"still here".to_vec()]);
}

#[test]
fn three_peers_deliver_once_despite_redundant_paths() {
    // A (1), B (2), C (3), all subscribed to "chat", mutually discovered
    let mut a = new_node(1);
    let mut b = new_node(2);
    let mut c = new_node(3);
    join(&mut a, 2);
    join(&mut a, 3);
    join(&mut b, 1);
    join(&mut b, 3);
    join(&mut c, 1);
    join(&mut c, 2);

    // A publishes once: one send to B and one to C
    let acts = a.handle_event(Event::PublishRequest { topic: b"chat".to_vec(), data: b"hi".to_vec() });
    let s = sends(&acts);
    let mut targets: Vec<u64> = s.iter().map(|(p, _)| *p).collect();
    targets.sort();
    assert_eq!(targets, vec![2, 3]);
    let frame = s[0].1.clone();
    assert_eq!(s[1].1, frame);

    // direct copies arrive
    let b1 = b.handle_event(Event::InboundMessage { sender: 1, bytes: frame.clone() });
    let c1 = c.handle_event(Event::InboundMessage { sender: 1, bytes: frame.clone() });
    assert_eq!(delivers(&b1), vec![b"hi".to_vec()]);
    assert_eq!(delivers(&c1), vec![b"hi".to_vec()]);

    // each re-floods to the other (sender suppression spares only A's hop)
    let b_fwd = sends(&b1);
    assert_eq!(b_fwd.iter().map(|(p, _)| *p).collect::<Vec<_>>(), vec![3]);
    let c_fwd = sends(&c1);
    assert_eq!(c_fwd.iter().map(|(p, _)| *p).collect::<Vec<_>>(), vec![2]);

    // the redundant copies arrive via the second path: no duplicate delivery
    let b2 = b.handle_event(Event::InboundMessage { sender: 3, bytes: c_fwd[0].1.clone() });
    let c2 = c.handle_event(Event::InboundMessage { sender: 2, bytes: b_fwd[0].1.clone() });
    assert_eq!(delivers(&b2).len(), 0);
    assert_eq!(sends(&b2).len(), 0);
    assert_eq!(delivers(&c2).len(), 0);
    assert_eq!(sends(&c2).len(), 0);
}

#[test]
fn liveness_timeout_tears_down_until_rediscovery() {
    // B (2) is connected to A (1); the probe responses stop
    let mut b = new_node(2);
    join(&mut b, 1);
    b.liveness.add_conn(1, 0);
    b.liveness.on_pong(1, 5);

    // within the window: still alive
    assert_eq!(b.liveness.check(10), Vec::<u64>::new());
    // past the window: declared dead
    let dead = b.liveness.check(16);
    assert_eq!(dead, vec![1]);

    let acts = b.handle_event(Event::LivenessTimeout { peer: 1 });
    assert!(matches!(acts[..], [Action::Close { peer: 1 }]));

    // B's partial view for "chat" no longer includes A: publishing sends nothing
    let pub1 = b.handle_event(Event::PublishRequest { topic: b"chat".to_vec(), data: b"x".to_vec() });
    assert_eq!(sends(&pub1).len(), 0);

    // a fresh discovery join re-adds A
    join(&mut b, 1);
    let pub2 = b.handle_event(Event::PublishRequest { topic: b"chat".to_vec(), data: b"y".to_vec() });
    assert_eq!(sends(&pub2).iter().map(|(p, _)| *p).collect::<Vec<_>>(), vec![1]);
}

#[test]
fn view_size_tracks_join_and_leave_events() {
    let mut a = new_node(1);
    join(&mut a, 2);
    join(&mut a, 3);
    join(&mut a, 3); // duplicate join of a present peer changes nothing
    let s1 = sends(&a.handle_event(Event::PublishRequest {
        topic: b"chat".to_vec(),
        data: b"one".to_vec(),
    }));
    let mut t1: Vec<u64> = s1.iter().map(|(p, _)| *p).collect();
    t1.sort();
    assert_eq!(t1, vec![2, 3]);

    a.handle_event(Event::DiscoveryLeave { peer: 2 });
    let s2 = sends(&a.handle_event(Event::PublishRequest {
        topic: b"chat".to_vec(),
        data: b"two".to_vec(),
    }));
    assert_eq!(s2.iter().map(|(p, _)| *p).collect::<Vec<_>>(), vec![3]);

    a.handle_event(Event::DiscoveryLeave { peer: 3 });
    let s3 = sends(&a.handle_event(Event::PublishRequest {
        topic: b"chat".to_vec(),
        data: b"three".to_vec(),
    }));
    assert_eq!(s3.len(), 0);
}

#[test]
fn join_emits_dial_and_leave_emits_close() {
    let mut a = new_node(1);
    let acts = a.handle_event(Event::DiscoveryJoin { peer: 2, topics: vec![b"chat".to_vec()] });
    assert!(matches!(acts[..], [Action::Dial { peer: 2 }]));
    let acts = a.handle_event(Event::DiscoveryLeave { peer: 2 });
    assert!(matches!(acts[..], [Action::Close { peer: 2 }]));
}

#[test]
fn dedup_cache_is_bounded_and_evicts_oldest() {
    // capacity 1: the second distinct message evicts the first
    let mut b = Chat::new(2, 1, EXPIRY, TIMEOUT, b"chat".to_vec());
    let mut a = new_node(1);
    join(&mut a, 2);
    let f1 = sends(&a.handle_event(Event::PublishRequest {
        topic: b"chat".to_vec(),
        data: b"first".to_vec(),
    }))[0]
        .1
        .clone();
    let f2 = sends(&a.handle_event(Event::PublishRequest {
        topic: b"chat".to_vec(),
        data: b"second".to_vec(),
    }))[0]
        .1
        .clone();

    assert_eq!(delivers(&b.handle_event(Event::InboundMessage { sender: 1, bytes: f1.clone() })).len(), 1);
    assert_eq!(delivers(&b.handle_event(Event::InboundMessage { sender: 1, bytes: f2 })).len(), 1);
    // the first message's key was evicted from the bounded cache
    assert_eq!(delivers(&b.handle_event(Event::InboundMessage { sender: 1, bytes: f1 })).len(), 1);
}

#[test]
fn discovery_joins_once_per_presence_interval() {
    let mut d = Discovery::new(10);
    assert!(d.on_announcement(7, vec![b"chat".to_vec()], 0));
    // refreshes of a present peer never produce a duplicate join
    assert!(!d.on_announcement(7, vec![b"chat".to_vec()], 4));
    assert!(!d.on_announcement(7, vec![b"chat".to_vec()], 8));
    // refreshed in time: no leave at 15 (last refresh at 8, window 10)
    assert_eq!(d.expire(15), Vec::<u64>::new());
    // no refresh within the window: exactly one leave
    assert_eq!(d.expire(19), vec![7]);
    assert!(!d.is_present(7));
    // the peer can join again afterwards
    assert!(d.on_announcement(7, vec![b"chat".to_vec()], 20));
}

#[test]
fn discovery_forget_allows_fresh_join() {
    let mut d = Discovery::new(10);
    assert!(d.on_announcement(7, vec![b"chat".to_vec()], 0));
    d.forget(7);
    assert!(!d.is_present(7));
    assert!(d.on_announcement(7, vec![b"chat".to_vec()], 1));
}

#[test]
fn liveness_pong_keeps_connection_alive() {
    let mut l = Liveness::new(10);
    l.add_conn(4, 0);
    l.add_conn(5, 0);
    l.on_pong(4, 8);
    // 5 lapsed (no response since 0), 4 was refreshed at 8
    assert_eq!(l.check(12), vec![5]);
    assert_eq!(l.check(18), Vec::<u64>::new());
    assert_eq!(l.check(19), vec![4]);
}

#[test]
fn self_originated_loopback_is_suppressed_by_dedup() {
    // A's own published message arriving back via another path is dropped by
    // the deduplication cache, since publishing recorded its key
    let mut a = new_node(1);
    join(&mut a, 2);
    let frame = sends(&a.handle_event(Event::PublishRequest {
        topic: b"chat".to_vec(),
        data: b"loop".to_vec(),
    }))[0]
        .1
        .clone();
    let acts = a.handle_event(Event::InboundMessage { sender: 2, bytes: frame });
    assert_eq!(delivers(&acts).len(), 0);
    assert_eq!(sends(&acts).len(), 0);
}

#[test]
fn shutdown_closes_every_connection() {
    let mut b = new_node(2);
    join(&mut b, 1);
    join(&mut b, 3);
    b.liveness.add_conn(1, 0);
    b.liveness.add_conn(3, 0);
    let acts = b.handle_event(Event::Shutdown);
    let mut closed: Vec<u64> = acts
        .iter()
        .filter_map(|a| if let Action::Close { peer } = a { Some(*peer) } else { None })
        .collect();
    closed.sort();
    assert_eq!(closed, vec![1, 3]);
    assert_eq!(acts.len(), 2);
    // afterwards nothing is monitored and the view is empty
    assert_eq!(b.liveness.check(100), Vec::<u64>::new());
    let acts2 = b.handle_event(Event::PublishRequest { topic: b"chat".to_vec(), data: b"x".to_vec() });
    assert_eq!(sends(&acts2).len(), 0);
}
