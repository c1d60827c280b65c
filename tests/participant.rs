use distributed::network::{Message, NetworkMessage, NETWORK_ID};
use distributed::node::{Behaviour, NodeInternals, ProtocolState};
use distributed::protocols::bracha_broadcast::{BroadcastMessage, BroadcastState, MALICIOUS_VALUE};

fn peers(id: usize, n: usize) -> Vec<usize> {
    (0..n).filter(|p| *p != id).collect()
}

fn node(id: usize, n: usize, behaviour: Behaviour) -> NodeInternals {
    NodeInternals::new(id, behaviour, peers(id, n))
}

fn env(from: usize, to: usize, m: BroadcastMessage) -> NetworkMessage {
    NetworkMessage::new(from, to, Message::Broadcast(m))
}

fn to_all(from: usize, n: usize, m: BroadcastMessage) -> Vec<NetworkMessage> {
    peers(from, n).into_iter().map(|p| env(from, p, m)).collect()
}

#[test]
fn fresh_state_has_sent_nothing() {
    let s = BroadcastState::new();
    assert!(!s.echo_sent());
    assert!(!s.ready_sent());
    assert_eq!(s.delivered(), None);
}

#[test]
fn new_node_computes_thresholds() {
    let n = node(2, 10, Behaviour::Good);
    assert_eq!(n.num_nodes, 10);
    assert_eq!(n.max_faulty_nodes, 3);
    assert_eq!(n.min_honest_nodes, 7);
    assert_eq!(n.neighbour_nodes, vec![0, 1, 3, 4, 5, 6, 7, 8, 9]);
}

#[test]
fn envelope_keeps_its_fields() {
    let e = NetworkMessage::new(3, 5, Message::End(9));
    assert_eq!(e.from, 3);
    assert_eq!(e.to, 5);
    assert_eq!(e.msg, Message::End(9));
}

#[test]
fn leader_sends_init_then_echo_to_all() {
    let mut n = node(0, 4, Behaviour::Good);
    let mut out = Vec::new();
    let r = n.handle_msg(env(NETWORK_ID, 0, BroadcastMessage::Leader(7)), 1, &mut out);
    assert_eq!(r, ProtocolState::InProcess);
    let mut expected = to_all(0, 4, BroadcastMessage::Init(7));
    expected.extend(to_all(0, 4, BroadcastMessage::Echo(7)));
    assert_eq!(out, expected);
    assert!(n.bc_state.echo_sent());
}

#[test]
fn leader_message_from_a_peer_is_ignored() {
    let mut n = node(0, 4, Behaviour::Good);
    let mut out = Vec::new();
    n.handle_msg(env(3, 0, BroadcastMessage::Leader(7)), 1, &mut out);
    assert!(out.is_empty());
    assert!(!n.bc_state.echo_sent());
}

#[test]
fn init_is_echoed_once() {
    let mut n = node(1, 4, Behaviour::Good);
    let mut out = Vec::new();
    n.handle_msg(env(0, 1, BroadcastMessage::Init(7)), 1, &mut out);
    assert_eq!(out, to_all(1, 4, BroadcastMessage::Echo(7)));
    let mut again = Vec::new();
    n.handle_msg(env(0, 1, BroadcastMessage::Init(8)), 2, &mut again);
    assert!(again.is_empty());
}

#[test]
fn echo_quorum_counts_distinct_peers() {
    // four participants: a quorum is min_honest - 1 = 2 distinct peers
    let mut n = node(1, 4, Behaviour::Good);
    let mut out = Vec::new();
    n.handle_msg(env(0, 1, BroadcastMessage::Echo(7)), 1, &mut out);
    n.handle_msg(env(0, 1, BroadcastMessage::Echo(7)), 2, &mut out);
    assert!(out.is_empty());
    assert!(!n.bc_state.ready_sent());
    n.handle_msg(env(2, 1, BroadcastMessage::Echo(7)), 3, &mut out);
    assert_eq!(out, to_all(1, 4, BroadcastMessage::Ready(7)));
    assert!(n.bc_state.ready_sent());
    let mut later = Vec::new();
    n.handle_msg(env(3, 1, BroadcastMessage::Echo(7)), 4, &mut later);
    assert!(later.is_empty());
}

#[test]
fn echoes_of_different_values_do_not_add_up() {
    let mut n = node(1, 4, Behaviour::Good);
    let mut out = Vec::new();
    n.handle_msg(env(0, 1, BroadcastMessage::Echo(7)), 1, &mut out);
    n.handle_msg(env(2, 1, BroadcastMessage::Echo(8)), 2, &mut out);
    assert!(out.is_empty());
}

#[test]
fn ready_amplifies_then_delivers() {
    // seven participants: max_faulty = 2, quorum = 4
    let mut n = node(0, 7, Behaviour::Good);
    let mut out = Vec::new();
    assert_eq!(n.handle_msg(env(1, 0, BroadcastMessage::Ready(5)), 1, &mut out), ProtocolState::InProcess);
    assert_eq!(n.handle_msg(env(2, 0, BroadcastMessage::Ready(5)), 2, &mut out), ProtocolState::InProcess);
    assert!(out.is_empty());
    assert_eq!(n.handle_msg(env(3, 0, BroadcastMessage::Ready(5)), 3, &mut out), ProtocolState::InProcess);
    assert_eq!(out, to_all(0, 7, BroadcastMessage::Ready(5)));
    let mut last = Vec::new();
    let r = n.handle_msg(env(4, 0, BroadcastMessage::Ready(5)), 4, &mut last);
    assert_eq!(r, ProtocolState::Terminated(5));
    assert_eq!(last, vec![NetworkMessage::new(0, NETWORK_ID, Message::End(5))]);
    assert_eq!(n.bc_state.delivered(), Some(5));
}

#[test]
fn amplify_and_deliver_in_one_step() {
    // four participants: amplification (> 1) and delivery (>= 2) coincide
    let mut n = node(0, 4, Behaviour::Good);
    let mut out = Vec::new();
    n.handle_msg(env(1, 0, BroadcastMessage::Ready(5)), 1, &mut out);
    assert!(out.is_empty());
    let r = n.handle_msg(env(2, 0, BroadcastMessage::Ready(5)), 2, &mut out);
    assert_eq!(r, ProtocolState::Terminated(5));
    let mut expected = to_all(0, 4, BroadcastMessage::Ready(5));
    expected.push(NetworkMessage::new(0, NETWORK_ID, Message::End(5)));
    assert_eq!(out, expected);
}

#[test]
fn delivered_participant_is_silent() {
    let mut n = node(0, 4, Behaviour::Good);
    let mut out = Vec::new();
    n.handle_msg(env(1, 0, BroadcastMessage::Ready(5)), 1, &mut out);
    n.handle_msg(env(2, 0, BroadcastMessage::Ready(5)), 2, &mut out);
    let mut after = Vec::new();
    let r = n.handle_msg(env(3, 0, BroadcastMessage::Init(5)), 3, &mut after);
    assert_eq!(r, ProtocolState::InProcess);
    n.handle_msg(env(3, 0, BroadcastMessage::Ready(5)), 4, &mut after);
    assert!(after.is_empty());
    assert!(!n.bc_state.echo_sent());
}

#[test]
fn end_after_delivery_sends_nothing() {
    let mut n = node(0, 4, Behaviour::Good);
    let mut out = Vec::new();
    n.handle_msg(env(1, 0, BroadcastMessage::Ready(5)), 1, &mut out);
    n.handle_msg(env(2, 0, BroadcastMessage::Ready(5)), 2, &mut out);
    let mut after = Vec::new();
    let r = n.handle_msg(NetworkMessage::new(NETWORK_ID, 0, Message::End(0)), 3, &mut after);
    assert_eq!(r, ProtocolState::Interrupted);
    assert!(after.is_empty());
    assert_eq!(n.bc_state.delivered(), Some(5));
}

#[test]
fn end_stops_every_behaviour() {
    for b in [Behaviour::Good, Behaviour::Faulty(3), Behaviour::Malicious] {
        let mut n = node(3, 4, b);
        let mut out = Vec::new();
        let r = n.handle_msg(NetworkMessage::new(NETWORK_ID, 3, Message::End(0)), 1, &mut out);
        assert_eq!(r, ProtocolState::Interrupted);
        assert!(out.is_empty());
    }
}

#[test]
fn faulty_node_goes_silent_after_k() {
    let mut n = node(3, 4, Behaviour::Faulty(1));
    let mut out = Vec::new();
    n.handle_msg(env(0, 3, BroadcastMessage::Init(7)), 1, &mut out);
    assert_eq!(out, to_all(3, 4, BroadcastMessage::Echo(7)));
    let mut later = Vec::new();
    n.handle_msg(env(0, 3, BroadcastMessage::Echo(7)), 2, &mut later);
    n.handle_msg(env(1, 3, BroadcastMessage::Echo(7)), 3, &mut later);
    assert!(later.is_empty());
}

#[test]
fn malicious_node_sends_corrupt_messages_to_all() {
    let mut n = node(3, 4, Behaviour::Malicious);
    let mut seen_echo = false;
    let mut seen_ready = false;
    for i in 0..200 {
        let mut out = Vec::new();
        let r = n.handle_msg(env(0, 3, BroadcastMessage::Init(7)), i + 1, &mut out);
        assert_eq!(r, ProtocolState::InProcess);
        assert_eq!(out.len(), 3);
        let m = match out[0].msg {
            Message::Broadcast(m) => m,
            Message::End(_) => panic!("a malicious node never delivers"),
        };
        assert!(m == BroadcastMessage::Echo(MALICIOUS_VALUE) || m == BroadcastMessage::Ready(MALICIOUS_VALUE));
        assert_eq!(out, to_all(3, 4, m));
        seen_echo |= m == BroadcastMessage::Echo(MALICIOUS_VALUE);
        seen_ready |= m == BroadcastMessage::Ready(MALICIOUS_VALUE);
    }
    assert!(seen_echo && seen_ready);
    assert_eq!(n.bc_state.delivered(), None);
}

#[test]
fn corrupt_message_from_draw() {
    assert_eq!(BroadcastMessage::from_draw(0), BroadcastMessage::Echo(MALICIOUS_VALUE));
    assert_eq!(BroadcastMessage::from_draw(1), BroadcastMessage::Ready(MALICIOUS_VALUE));
}

#[test]
fn malicious_version_of_each_message() {
    assert_eq!(BroadcastMessage::Leader(1).malicious(), BroadcastMessage::Leader(MALICIOUS_VALUE));
    assert_eq!(BroadcastMessage::Init(1).malicious(), BroadcastMessage::Init(MALICIOUS_VALUE));
    assert_eq!(BroadcastMessage::Echo(1).malicious(), BroadcastMessage::Echo(MALICIOUS_VALUE));
    assert_eq!(BroadcastMessage::Ready(1).malicious(), BroadcastMessage::Echo(MALICIOUS_VALUE));
}

#[test]
fn three_participants_can_strand_one() {
    // with three participants a delivery needs one Ready and amplification
    // two, so a participant may deliver without ever sending Ready
    let mut n0 = node(0, 3, Behaviour::Good);
    let mut n1 = node(1, 3, Behaviour::Good);
    let mut n2 = node(2, 3, Behaviour::Good);
    let mut out0 = Vec::new();
    n0.handle_msg(env(NETWORK_ID, 0, BroadcastMessage::Leader(4)), 1, &mut out0);
    let mut out2 = Vec::new();
    n2.handle_msg(env(0, 2, BroadcastMessage::Echo(4)), 1, &mut out2);
    assert_eq!(out2, to_all(2, 3, BroadcastMessage::Ready(4)));
    let mut end0 = Vec::new();
    assert_eq!(n0.handle_msg(env(2, 0, BroadcastMessage::Ready(4)), 2, &mut end0), ProtocolState::Terminated(4));
    assert_eq!(end0, vec![NetworkMessage::new(0, NETWORK_ID, Message::End(4))]);
    let mut end1 = Vec::new();
    assert_eq!(n1.handle_msg(env(2, 1, BroadcastMessage::Ready(4)), 1, &mut end1), ProtocolState::Terminated(4));
    assert_eq!(end1, vec![NetworkMessage::new(1, NETWORK_ID, Message::End(4))]);
    let mut rest = Vec::new();
    n2.handle_msg(env(0, 2, BroadcastMessage::Init(4)), 2, &mut rest);
    // participant 2 has handled everything sent to it and has not delivered
    assert_eq!(n2.bc_state.delivered(), None);
}
