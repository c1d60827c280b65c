use std::collections::{HashMap, VecDeque};

use distributed::network::{
    behaviour_of, check_network, neighbours, ConfigError, MaliciousKind, Message, NetworkMessage,
    Relay, RelayAction, NETWORK_ID,
};
use distributed::node::{Behaviour, NodeInternals, ProtocolState};
use distributed::protocols::bracha_broadcast::BroadcastMessage;

/// Runs a broadcast on one thread: the network's inbox is a queue, and each
/// relayed envelope is handled by its recipient at once.
fn simulate(
    num_nodes: usize,
    num_malicious: usize,
    kind: MaliciousKind,
    v: usize,
    leader: usize,
) -> (bool, HashMap<usize, usize>) {
    check_network(num_nodes, num_malicious).unwrap();
    let mut relay = Relay::new(num_nodes, num_malicious);
    let mut nodes: Vec<NodeInternals> = (0..num_nodes)
        .map(|id| {
            NodeInternals::new(
                id,
                behaviour_of(id, num_nodes, num_malicious, kind),
                neighbours(id, num_nodes),
            )
        })
        .collect();
    let mut received = vec![0usize; num_nodes];
    let mut inbox: VecDeque<NetworkMessage> = VecDeque::new();
    let first = relay.start(v, leader).unwrap();
    let mut pending = vec![first];
    let mut steps = 0usize;
    loop {
        for m in pending.drain(..) {
            received[m.to] += 1;
            let mut out = Vec::new();
            let state = nodes[m.to].handle_msg(m, received[m.to], &mut out);
            inbox.extend(out);
            if let ProtocolState::Interrupted = state {
                panic!("no participant is interrupted before the end");
            }
        }
        let msg = match inbox.pop_front() {
            Some(m) => m,
            None => break,
        };
        steps += 1;
        assert!(steps < 5_000_000, "the simulation does not settle");
        match relay.on_message(msg) {
            RelayAction::Forward(m) => pending.push(m),
            RelayAction::Drop(_) | RelayAction::Join(_) => {}
            RelayAction::Finish(_, orders) => {
                for o in orders {
                    let mut out = Vec::new();
                    let r = nodes[o.to].handle_msg(o, received[o.to] + 1, &mut out);
                    assert_eq!(r, ProtocolState::Interrupted);
                    assert!(out.is_empty());
                }
                break;
            }
        }
    }
    let ok = relay.succeeded(v, leader);
    (ok, relay.into_results())
}

fn assert_all_honest_deliver(n: usize, b: usize, v: usize, results: &HashMap<usize, usize>) {
    for p in 0..n - b {
        assert_eq!(results.get(&p), Some(&v), "participant {}", p);
    }
}

#[test]
fn four_honest_deliver_seven() {
    let (ok, results) = simulate(4, 0, MaliciousKind::RandomCorrupt, 7, 0);
    assert!(ok);
    assert_eq!(results.len(), 4);
    assert_all_honest_deliver(4, 0, 7, &results);
}

#[test]
fn ten_with_three_malicious_deliver_forty_two() {
    let (ok, results) = simulate(10, 3, MaliciousKind::RandomCorrupt, 42, 0);
    assert!(ok);
    assert_all_honest_deliver(10, 3, 42, &results);
}

#[test]
fn seven_with_two_malicious_deliver_one() {
    let (ok, results) = simulate(7, 2, MaliciousKind::RandomCorrupt, 1, 0);
    assert!(ok);
    assert_all_honest_deliver(7, 2, 1, &results);
}

#[test]
fn four_with_one_malicious_deliver_five() {
    let (ok, results) = simulate(4, 1, MaliciousKind::RandomCorrupt, 5, 0);
    assert!(ok);
    assert_all_honest_deliver(4, 1, 5, &results);
}

#[test]
fn three_with_one_malicious_is_refused() {
    assert_eq!(check_network(3, 1), Err(ConfigError::TooManyMalicious));
}

#[test]
fn hundred_runs_all_succeed() {
    for run in 0..100 {
        let v = 1000 + run;
        let (ok, results) = simulate(10, 3, MaliciousKind::RandomCorrupt, v, 0);
        assert!(ok, "run {}", run);
        assert_all_honest_deliver(10, 3, v, &results);
    }
}

#[test]
fn honest_leader_among_many_sizes() {
    for n in 4..=31usize {
        for b in 0..=std::cmp::min((n - 1) / 3, 4) {
            let leader = (n + b) % (n - b);
            let (ok, results) = simulate(n, b, MaliciousKind::RandomCorrupt, n * 100 + b, leader);
            assert!(ok, "n = {}, b = {}", n, b);
            assert_all_honest_deliver(n, b, n * 100 + b, &results);
        }
    }
}

#[test]
fn silent_faulty_nodes_do_not_stop_the_honest() {
    let (ok, results) = simulate(10, 3, MaliciousKind::SilentAfter(2), 9, 1);
    assert!(ok);
    assert_all_honest_deliver(10, 3, 9, &results);
}

#[test]
fn malicious_leader_gets_no_honest_delivery() {
    let (ok, results) = simulate(4, 1, MaliciousKind::RandomCorrupt, 5, 3);
    assert!(!ok);
    assert!(results.is_empty());
}

#[test]
fn network_checks() {
    assert_eq!(check_network(0, 0), Err(ConfigError::NoNodes));
    assert_eq!(check_network(1, 0), Ok(()));
    assert_eq!(check_network(4, 1), Ok(()));
    assert_eq!(check_network(6, 2), Err(ConfigError::TooManyMalicious));
    assert_eq!(check_network(7, 2), Ok(()));
    assert_eq!(check_network(10, 3), Ok(()));
    assert_eq!(check_network(9, 3), Err(ConfigError::TooManyMalicious));
}

#[test]
fn roles_follow_identifiers() {
    assert_eq!(behaviour_of(6, 10, 3, MaliciousKind::RandomCorrupt), Behaviour::Good);
    assert_eq!(behaviour_of(7, 10, 3, MaliciousKind::RandomCorrupt), Behaviour::Malicious);
    assert_eq!(behaviour_of(9, 10, 3, MaliciousKind::SilentAfter(4)), Behaviour::Faulty(4));
}

#[test]
fn neighbours_leave_out_self() {
    assert_eq!(neighbours(0, 4), vec![1, 2, 3]);
    assert_eq!(neighbours(2, 4), vec![0, 1, 3]);
    assert_eq!(neighbours(0, 1), Vec::<usize>::new());
}

#[test]
fn leader_envelope_and_unknown_leader() {
    let relay = Relay::new(4, 1);
    assert_eq!(
        relay.start(7, 2),
        Ok(NetworkMessage::new(NETWORK_ID, 2, Message::Broadcast(BroadcastMessage::Leader(7))))
    );
    assert_eq!(relay.start(7, 4), Err(ConfigError::UnknownLeader));
}

#[test]
fn relay_forwards_drops_and_finishes() {
    let mut relay = Relay::new(4, 1);
    let echo = NetworkMessage::new(0, 1, Message::Broadcast(BroadcastMessage::Echo(3)));
    assert!(matches!(relay.on_message(echo), RelayAction::Forward(m) if m == echo));
    let outside = NetworkMessage::new(0, 9, Message::Broadcast(BroadcastMessage::Echo(3)));
    assert!(matches!(relay.on_message(outside), RelayAction::Drop(_)));
    assert!(matches!(relay.on_message(NetworkMessage::new(1, NETWORK_ID, Message::End(3))), RelayAction::Join(1)));
    assert!(matches!(relay.on_message(echo), RelayAction::Drop(m) if m == echo));
    assert!(matches!(relay.on_message(NetworkMessage::new(1, NETWORK_ID, Message::End(3))), RelayAction::Drop(_)));
    assert!(matches!(relay.on_message(NetworkMessage::new(0, NETWORK_ID, Message::End(3))), RelayAction::Join(0)));
    match relay.on_message(NetworkMessage::new(2, NETWORK_ID, Message::End(3))) {
        RelayAction::Finish(p, orders) => {
            assert_eq!(p, 2);
            assert_eq!(orders, vec![NetworkMessage::new(NETWORK_ID, 3, Message::End(0))]);
        }
        other => panic!("expected the end of the relay, got {:?}", other),
    }
    assert!(relay.succeeded(3, 0));
    assert!(!relay.succeeded(4, 0));
    assert!(relay.succeeded(4, 3));
    let results = relay.into_results();
    assert_eq!(results.len(), 3);
}

#[test]
fn disagreement_is_no_success() {
    let mut relay = Relay::new(4, 1);
    relay.on_message(NetworkMessage::new(0, NETWORK_ID, Message::End(3)));
    relay.on_message(NetworkMessage::new(1, NETWORK_ID, Message::End(4)));
    relay.on_message(NetworkMessage::new(2, NETWORK_ID, Message::End(3)));
    assert!(!relay.succeeded(3, 0));
    assert!(!relay.succeeded(3, 3));
}

#[test]
fn missing_delivery_is_no_success() {
    let mut relay = Relay::new(4, 1);
    relay.on_message(NetworkMessage::new(0, NETWORK_ID, Message::End(3)));
    relay.on_message(NetworkMessage::new(3, NETWORK_ID, Message::End(3)));
    assert!(!relay.succeeded(3, 0));
}

#[test]
fn it_works() {
    let (ok, results) = simulate(10, 0, MaliciousKind::RandomCorrupt, 10, 0);
    assert!(ok);
    assert_eq!(results.len(), 10);
}
