use vstd::prelude::*;
use vstd::set_lib::*;

use crate::network::{envelopes, fan_out, peers_of, Message, NetworkMessage, NodeId, Value, NETWORK_ID};
use crate::protocols::bracha_broadcast::{bracha_step, max_faulty, quorum, senders, BroadcastMessage};
use crate::protocols::runs::{
    carried, faulty_set, inject, is_honest, is_run, lemma_faulty_set_len, lemma_honest_step_safe,
    lemma_run_next_safe, lemma_run_safe, lemma_sends_members, lemma_thresholds, node_safe,
    protocol_move, run_next, run_safe, sends, RunState,
};

verus! {

/// The envelope from `from` to `to` that carries `m`.
pub open spec fn env(from: NodeId, to: NodeId, m: BroadcastMessage) -> NetworkMessage {
    NetworkMessage { from, to, msg: Message::Broadcast(m) }
}

/// `p` has sent `m` to every peer.
pub open spec fn sent_to_peers(r: RunState, n: nat, p: NodeId, m: BroadcastMessage) -> bool {
    forall|q: NodeId| q < n && q != p ==> #[trigger] r.sent.contains(env(p, q, m))
}

/// What participant `p` has handled left its mark on its state.
pub open spec fn handled_recorded(r: RunState, n: nat, p: NodeId) -> bool {
    let s = r.nodes[p as int];
    forall|e: NetworkMessage| #[trigger] r.handled[p as int].contains(e) ==> match e.msg {
        Message::Broadcast(BroadcastMessage::Leader(x)) => e.from == NETWORK_ID ==> s.echo_sent
            && sent_to_peers(r, n, p, BroadcastMessage::Init(x)),
        Message::Broadcast(BroadcastMessage::Init(_)) => s.echo_sent,
        Message::Broadcast(BroadcastMessage::Echo(x)) => senders(s.echo_senders, x).contains(e.from),
        Message::Broadcast(BroadcastMessage::Ready(x)) => senders(s.ready_senders, x).contains(e.from),
        Message::End(_) => true,
    }
}

/// What holds of an honest participant `p` in a run of a broadcast of `v`.
pub open spec fn node_live(r: RunState, n: nat, v: Value, p: NodeId) -> bool {
    let s = r.nodes[p as int];
    &&& s.echo_sent ==> sent_to_peers(r, n, p, BroadcastMessage::Echo(v))
    &&& s.ready_sent ==> sent_to_peers(r, n, p, BroadcastMessage::Ready(v))
    &&& s.delivered is Some ==> s.ready_sent && senders(s.ready_senders, s.delivered->0).len() >= quorum(n)
    &&& s.delivered is None ==> handled_recorded(r, n, p)
    &&& forall|x: Value| #[trigger] senders(s.echo_senders, x).finite()
    &&& forall|x: Value| #[trigger] senders(s.ready_senders, x).finite()
    &&& forall|x: Value| #[trigger] senders(s.echo_senders, x).len() >= quorum(n) ==> s.ready_sent
    &&& forall|x: Value| #[trigger] senders(s.ready_senders, x).len() > max_faulty(n) ==> s.ready_sent
    &&& forall|x: Value| #[trigger] senders(s.ready_senders, x).len() >= quorum(n) ==> s.delivered is Some
    &&& forall|x: Value, q: NodeId| #[trigger] senders(s.ready_senders, x).contains(q) ==> r.sent.contains(
        env(q, p, BroadcastMessage::Ready(x)),
    )
}

/// What holds at every moment of a run of a broadcast of `v` from `leader`,
/// besides its safety.
pub open spec fn run_live(r: RunState, n: nat, b: nat, leader: NodeId, v: Value) -> bool {
    &&& run_safe(r, n, b, v)
    &&& r.sent.contains(NetworkMessage { from: NETWORK_ID, to: leader, msg: Message::Broadcast(BroadcastMessage::Leader(v)) })
    &&& forall|e: NetworkMessage| #[trigger] r.sent.contains(e) && is_honest(n, b, e.from) && e.msg is Broadcast
        ==> e.to < n && e.to != e.from
    &&& forall|e: NetworkMessage| #[trigger] r.sent.contains(e) && is_honest(n, b, e.from) && e.msg is Broadcast
        && e.msg->Broadcast_0 is Ready ==> r.nodes[e.from as int].ready_sent
    &&& forall|p: NodeId| is_honest(n, b, p) ==> #[trigger] node_live(r, n, v, p)
}

/// Every honest participant that has not delivered has handled every
/// envelope that the network or an honest participant sent it.
pub open spec fn quiescent(r: RunState, n: nat, b: nat) -> bool {
    forall|p: NodeId, e: NetworkMessage|
        is_honest(n, b, p) && r.nodes[p as int].delivered is None && #[trigger] r.sent.contains(e) && e.to == p
            && e.msg is Broadcast && (e.from == NETWORK_ID || is_honest(n, b, e.from))
            ==> #[trigger] r.handled[p as int].contains(e)
}

/// The peers of `p` are the other participants.
proof fn lemma_peers_of(p: NodeId, n: nat, q: NodeId)
    requires
        p < n <= usize::MAX,
    ensures
        peers_of(p, n).contains(q) <==> q < n && q != p,
{
    let peers = peers_of(p, n);
    if q < n && q != p {
        let i: int = if q < p {
            q as int
        } else {
            q - 1
        };
        assert(peers[i] == q);
    }
    if peers.contains(q) {
        let i = choose|i: int| 0 <= i < peers.len() && peers[i] == q;
        assert(peers[i] == (if i < p { i } else { i + 1 }) as NodeId);
    }
}

/// Sending a protocol message reaches every peer.
proof fn lemma_sends_reach(p: NodeId, n: nat, ms: Seq<Message>, j: int, q: NodeId)
    requires
        p < n <= usize::MAX,
        0 <= j < ms.len(),
        ms[j] is Broadcast,
        q < n,
        q != p,
    ensures
        sends(p, n, ms).contains(env(p, q, ms[j]->Broadcast_0)),
    decreases ms.len(),
{
    let peers = peers_of(p, n);
    lemma_peers_of(p, n, q);
    let head = fan_out(p, peers, ms.drop_last());
    let tail = envelopes(p, peers, ms.last());
    assert(fan_out(p, peers, ms) == head + tail);
    let target = env(p, q, ms[j]->Broadcast_0);
    if j < ms.len() - 1 {
        lemma_sends_reach(p, n, ms.drop_last(), j, q);
        let k = choose|k: int| 0 <= k < head.len() && head[k] == target;
        assert((head + tail)[k] == target);
    } else {
        let k = choose|k: int| 0 <= k < peers.len() && peers[k] == q;
        assert(tail[k] == target);
        assert((head + tail)[head.len() + k] == target);
    }
}

/// Envelopes of a step go from `p` to a peer, or up to the network.
proof fn lemma_sends_targets(p: NodeId, n: nat, ms: Seq<Message>, e: NetworkMessage)
    requires
        p < n <= usize::MAX,
        sends(p, n, ms).contains(e),
    ensures
        e.msg is Broadcast ==> e.to < n && e.to != p,
    decreases ms.len(),
{
    let peers = peers_of(p, n);
    let all = fan_out(p, peers, ms);
    let i = choose|i: int| 0 <= i < all.len() && all[i] == e;
    let head = fan_out(p, peers, ms.drop_last());
    let tail = envelopes(p, peers, ms.last());
    assert(all == head + tail);
    if i < head.len() {
        assert(head[i] == e);
        lemma_sends_targets(p, n, ms.drop_last(), e);
    } else {
        assert(tail[i - head.len()] == e);
        if e.msg is Broadcast {
            let k = i - head.len();
            assert(peers.contains(peers[k]));
            lemma_peers_of(p, n, e.to);
        }
    }
}

/// Outside one and three participants, a delivery quorum is more than the
/// faulty bound, so a participant sends `Ready` no later than it delivers.
proof fn lemma_quorum_above_faulty(n: nat)
    requires
        n == 2 || n >= 4,
    ensures
        quorum(n) > max_faulty(n),
{
    let f = n / 3;
    assert(n == 3 * f + n % 3);
}

/// What another participant does leaves `q`'s facts standing.
proof fn lemma_node_live_mono(r: RunState, r2: RunState, n: nat, v: Value, q: NodeId)
    requires
        node_live(r, n, v, q),
        r2.nodes[q as int] == r.nodes[q as int],
        r2.handled[q as int] == r.handled[q as int],
        r.sent.subset_of(r2.sent),
    ensures
        node_live(r2, n, v, q),
{
    let s = r.nodes[q as int];
    assert forall|m: BroadcastMessage| sent_to_peers(r, n, q, m) implies sent_to_peers(r2, n, q, m) by {
        assert forall|q2: NodeId| q2 < n && q2 != q implies #[trigger] r2.sent.contains(env(q, q2, m)) by {
            assert(r.sent.contains(env(q, q2, m)));
        }
    }
    if s.delivered is None {
        assert forall|e: NetworkMessage| #[trigger] r2.handled[q as int].contains(e) implies match e.msg {
            Message::Broadcast(BroadcastMessage::Leader(x)) => e.from == NETWORK_ID ==> s.echo_sent
                && sent_to_peers(r2, n, q, BroadcastMessage::Init(x)),
            Message::Broadcast(BroadcastMessage::Init(_)) => s.echo_sent,
            Message::Broadcast(BroadcastMessage::Echo(x)) => senders(s.echo_senders, x).contains(e.from),
            Message::Broadcast(BroadcastMessage::Ready(x)) => senders(s.ready_senders, x).contains(e.from),
            Message::End(_) => true,
        } by {
            assert(r.handled[q as int].contains(e));
        }
    }
}

/// An honest participant's own move keeps its facts, and it sends `Ready`
/// only once its latch is up.
proof fn lemma_honest_move_live(
    r: RunState,
    n: nat,
    b: nat,
    leader: NodeId,
    v: Value,
    p: NodeId,
    e: NetworkMessage,
    m: BroadcastMessage,
)
    requires
        3 * b < n <= usize::MAX,
        n == 2 || n >= 4,
        run_live(r, n, b, leader, v),
        is_honest(n, b, p),
        r.sent.contains(e),
        e.to == p,
        e.msg == Message::Broadcast(m),
    ensures
        node_live(protocol_move(r, n, p, e, m), n, v, p),
        forall|j: int|
            0 <= j < bracha_step(r.nodes[p as int], n, e.from, m).1.len()
                && #[trigger] bracha_step(r.nodes[p as int], n, e.from, m).1[j] == Message::Broadcast(
                BroadcastMessage::Ready(carried(bracha_step(r.nodes[p as int], n, e.from, m).1[j])),
            ) ==> bracha_step(r.nodes[p as int], n, e.from, m).0.ready_sent,
{
    let r2 = protocol_move(r, n, p, e, m);
    let s = r.nodes[p as int];
    let (t, out) = bracha_step(s, n, e.from, m);
    assert(r2.nodes[p as int] == t);
    assert(r2.handled[p as int] == r.handled[p as int].insert(e));
    assert(r.sent.subset_of(r2.sent));
    lemma_quorum_above_faulty(n);
    assert(node_live(r, n, v, p));
    assert(r.sent.contains(e));
    lemma_honest_step_safe(s, n, b, v, e.from, m);
    assert forall|j: int| 0 <= j < out.len() && out[j] is Broadcast implies sent_to_peers(
        r2,
        n,
        p,
        out[j]->Broadcast_0,
    ) by {
        assert forall|q: NodeId| q < n && q != p implies #[trigger] r2.sent.contains(
            env(p, q, out[j]->Broadcast_0),
        ) by {
            lemma_sends_reach(p, n, out, j, q);
        }
    }
    assert forall|x: BroadcastMessage| sent_to_peers(r, n, p, x) implies sent_to_peers(r2, n, p, x) by {
        assert forall|q2: NodeId| q2 < n && q2 != p implies #[trigger] r2.sent.contains(env(p, q2, x)) by {
            assert(r.sent.contains(env(p, q2, x)));
        }
    }
    // sets of senders only grow, and the latches only rise
    assert forall|x: Value| #[trigger] senders(t.echo_senders, x) == senders(s.echo_senders, x) || (
    senders(t.echo_senders, x) == senders(s.echo_senders, x).insert(e.from) && m == BroadcastMessage::Echo(x)
        && s.delivered is None) by {}
    assert forall|x: Value| #[trigger] senders(t.ready_senders, x) == senders(s.ready_senders, x) || (
    senders(t.ready_senders, x) == senders(s.ready_senders, x).insert(e.from) && m == BroadcastMessage::Ready(x)
        && s.delivered is None) by {}
    if t.delivered is None {
        assert(s.delivered is None);
        assert forall|e2: NetworkMessage| #[trigger] r2.handled[p as int].contains(e2) implies match e2.msg {
            Message::Broadcast(BroadcastMessage::Leader(x)) => e2.from == NETWORK_ID ==> t.echo_sent
                && sent_to_peers(r2, n, p, BroadcastMessage::Init(x)),
            Message::Broadcast(BroadcastMessage::Init(_)) => t.echo_sent,
            Message::Broadcast(BroadcastMessage::Echo(x)) => senders(t.echo_senders, x).contains(e2.from),
            Message::Broadcast(BroadcastMessage::Ready(x)) => senders(t.ready_senders, x).contains(e2.from),
            Message::End(_) => true,
        } by {
            if e2 != e {
                assert(r.handled[p as int].contains(e2));
            } else {
                match m {
                    BroadcastMessage::Leader(x) => {
                        if e.from == NETWORK_ID {
                            assert(out[0] == Message::Broadcast(BroadcastMessage::Init(x)));
                        }
                    },
                    _ => {},
                }
            }
        }
    }
    match m {
        BroadcastMessage::Leader(x) => {
            if s.delivered is None && e.from == NETWORK_ID {
                assert(out[1] == Message::Broadcast(BroadcastMessage::Echo(x)));
                assert(carried(out[1]) == v);
            }
        },
        BroadcastMessage::Init(x) => {
            if s.delivered is None && !s.echo_sent {
                assert(out[0] == Message::Broadcast(BroadcastMessage::Echo(x)));
                assert(carried(out[0]) == v);
            }
        },
        BroadcastMessage::Echo(x) => {
            if t.ready_sent && !s.ready_sent {
                assert(out[0] == Message::Broadcast(BroadcastMessage::Ready(x)));
                assert(carried(out[0]) == v);
            }
        },
        BroadcastMessage::Ready(x) => {
            if t.ready_sent && !s.ready_sent {
                assert(out[0] == Message::Broadcast(BroadcastMessage::Ready(x)));
                assert(carried(out[0]) == v);
            }
            if s.delivered is None {
                assert(e == env(e.from, p, BroadcastMessage::Ready(x)));
            }
        },
    }
}

/// Every move of a run keeps its facts.
proof fn lemma_run_next_live(r: RunState, r2: RunState, n: nat, b: nat, leader: NodeId, v: Value)
    requires
        3 * b < n <= usize::MAX,
        n == 2 || n >= 4,
        run_live(r, n, b, leader, v),
        run_next(r, r2, n, b),
    ensures
        run_live(r2, n, b, leader, v),
{
    lemma_run_next_safe(r, r2, n, b, v);
    if exists|p: NodeId, e: NetworkMessage, m: BroadcastMessage|
        p < n && #[trigger] r.sent.contains(e) && e.to == p && e.msg == Message::Broadcast(m) && r2
            == #[trigger] protocol_move(r, n, p, e, m) {
        let (p, e, m) = choose|p: NodeId, e: NetworkMessage, m: BroadcastMessage|
            p < n && #[trigger] r.sent.contains(e) && e.to == p && e.msg == Message::Broadcast(m)
                && r2 == #[trigger] protocol_move(r, n, p, e, m);
        let s = r.nodes[p as int];
        let (t, out) = bracha_step(s, n, e.from, m);
        assert(r.sent.subset_of(r2.sent));
        if is_honest(n, b, p) {
            lemma_honest_move_live(r, n, b, leader, v, p, e, m);
        }
        assert forall|e2: NetworkMessage| #[trigger] r2.sent.contains(e2) && is_honest(n, b, e2.from)
            && e2.msg is Broadcast implies e2.to < n && e2.to != e2.from && (e2.msg->Broadcast_0 is Ready
            ==> r2.nodes[e2.from as int].ready_sent) by {
            if r.sent.contains(e2) {
                if e2.from == p && e2.msg->Broadcast_0 is Ready {
                    assert(s.ready_sent ==> t.ready_sent);
                }
            } else {
                lemma_sends_members(p, n, out, e2);
                lemma_sends_targets(p, n, out, e2);
                let j = choose|j: int| 0 <= j < out.len() && out[j] == e2.msg;
                if e2.msg->Broadcast_0 is Ready {
                    assert(out[j] == Message::Broadcast(BroadcastMessage::Ready(carried(out[j]))));
                }
            }
        }
        assert forall|q: NodeId| is_honest(n, b, q) implies #[trigger] node_live(r2, n, v, q) by {
            if q != p {
                assert(node_live(r, n, v, q));
                lemma_node_live_mono(r, r2, n, v, q);
            }
        }
    } else {
        let (p, to, m) = choose|p: NodeId, to: NodeId, m: BroadcastMessage|
            faulty_set(n, b).contains(p) && (m is Echo || m is Ready) && r2 == #[trigger] inject(r, p, to, m);
        assert(r.sent.subset_of(r2.sent));
        assert forall|q: NodeId| is_honest(n, b, q) implies #[trigger] node_live(r2, n, v, q) by {
            assert(node_live(r, n, v, q));
            lemma_node_live_mono(r, r2, n, v, q);
        }
        assert forall|e2: NetworkMessage| #[trigger] r2.sent.contains(e2) && is_honest(n, b, e2.from)
            && e2.msg is Broadcast implies e2.to < n && e2.to != e2.from && (e2.msg->Broadcast_0 is Ready
            ==> r2.nodes[e2.from as int].ready_sent) by {
            assert(r.sent.contains(e2));
        }
    }
}

/// Every moment of a run with an honest leader keeps the facts.
proof fn lemma_run_live(tr: Seq<RunState>, n: nat, b: nat, leader: NodeId, v: Value, i: int)
    requires
        3 * b < n <= usize::MAX,
        n == 2 || n >= 4,
        is_run(tr, n, b, leader, v),
        0 <= i < tr.len(),
    ensures
        run_live(tr[i], n, b, leader, v),
    decreases i,
{
    if i == 0 {
        let r = tr[0];
        lemma_run_safe(tr, n, b, leader, v, 0);
        assert forall|p: NodeId| is_honest(n, b, p) implies #[trigger] node_live(r, n, v, p) by {
            let s = r.nodes[p as int];
            assert forall|x: Value| #[trigger] senders(s.echo_senders, x) == Set::<NodeId>::empty() by {}
            assert forall|x: Value| #[trigger] senders(s.ready_senders, x) == Set::<NodeId>::empty() by {}
            assert forall|e: NetworkMessage| !(#[trigger] r.handled[p as int].contains(e)) by {}
        }
    } else {
        lemma_run_live(tr, n, b, leader, v, i - 1);
        lemma_run_next_live(tr[i - 1], tr[i], n, b, leader, v);
    }
}

/// The honest participants but `u`.
pub open spec fn honest_others(n: nat, b: nat, u: NodeId) -> Set<NodeId> {
    Set::new(|q: NodeId| q < n - b && q != u)
}

/// There are `n - b - 1` honest participants besides an honest `u`.
proof fn lemma_honest_others_len(n: nat, b: nat, u: NodeId)
    requires
        b <= n <= usize::MAX,
        is_honest(n, b, u),
    ensures
        honest_others(n, b, u).finite(),
        honest_others(n, b, u).len() == n - b - 1,
{
    let h = (n - b) as nat;
    lemma_faulty_set_len(h, h);
    assert(honest_others(n, b, u) =~= faulty_set(h, h).remove(u));
}

/// The honest readies behind a delivery, with the one who delivered, are
/// more than the faulty bound.
proof fn lemma_amplify_bound(n: nat, b: nat)
    requires
        3 * b < n,
    ensures
        quorum(n) - b + 1 > max_faulty(n),
{
    let f = n / 3;
    assert(n == 3 * f + n % 3);
}

/// In a quiescent moment of a run with an honest leader, every honest
/// participant has sent `Ready`.
proof fn lemma_all_ready(r: RunState, n: nat, b: nat, leader: NodeId, v: Value)
    requires
        3 * b < n <= usize::MAX,
        n == 2 || n >= 4,
        run_live(r, n, b, leader, v),
        is_honest(n, b, leader),
        quiescent(r, n, b),
    ensures
        forall|u: NodeId| is_honest(n, b, u) ==> (#[trigger] r.nodes[u as int]).ready_sent,
{
    lemma_thresholds(n, b);
    lemma_faulty_set_len(n, b);
    if exists|d: NodeId| is_honest(n, b, d) && (#[trigger] r.nodes[d as int]).delivered is Some {
        let d = choose|d: NodeId| is_honest(n, b, d) && (#[trigger] r.nodes[d as int]).delivered is Some;
        let sd = r.nodes[d as int];
        assert(node_live(r, n, v, d));
        assert(node_safe(sd, n, b, v));
        let rd = senders(sd.ready_senders, v);
        let hs = faulty_set((n - b) as nat, (n - b) as nat);
        let fs = faulty_set(n, b);
        let h = rd.intersect(hs);
        lemma_faulty_set_len((n - b) as nat, (n - b) as nat);
        assert forall|q: NodeId| rd.contains(q) implies (h + fs).contains(q) by {
            assert(r.sent.contains(env(q, d, BroadcastMessage::Ready(v))));
        }
        lemma_len_subset(rd, h + fs);
        lemma_len_subset(h, rd);
        lemma_set_intersect_union_lens(h, fs);
        lemma_amplify_bound(n, b);
        assert(!h.contains(d)) by {
            if h.contains(d) {
                assert(r.sent.contains(env(d, d, BroadcastMessage::Ready(v))));
            }
        }
        assert forall|u: NodeId| is_honest(n, b, u) implies (#[trigger] r.nodes[u as int]).ready_sent by {
            let su = r.nodes[u as int];
            assert(node_live(r, n, v, u));
            if su.delivered is None && !su.ready_sent {
                let ru = senders(su.ready_senders, v);
                assert forall|q: NodeId| h.insert(d).contains(q) implies ru.contains(q) by {
                    let e = env(q, u, BroadcastMessage::Ready(v));
                    if q == d {
                        assert(d != u);
                        assert(r.sent.contains(e));
                    } else {
                        assert(r.sent.contains(env(q, d, BroadcastMessage::Ready(v))));
                        assert(r.nodes[q as int].ready_sent);
                        assert(q != u);
                        assert(node_live(r, n, v, q));
                        assert(r.sent.contains(e));
                    }
                    assert(r.handled[u as int].contains(e));
                }
                lemma_len_subset(h.insert(d), ru);
            }
        }
    } else {
        let sl = r.nodes[leader as int];
        let start = NetworkMessage {
            from: NETWORK_ID,
            to: leader,
            msg: Message::Broadcast(BroadcastMessage::Leader(v)),
        };
        assert(node_live(r, n, v, leader));
        assert(r.handled[leader as int].contains(start));
        assert(sl.echo_sent && sent_to_peers(r, n, leader, BroadcastMessage::Init(v)));
        assert forall|u: NodeId| is_honest(n, b, u) implies (#[trigger] r.nodes[u as int]).echo_sent by {
            if u != leader {
                let e = env(leader, u, BroadcastMessage::Init(v));
                assert(r.sent.contains(e));
                assert(r.handled[u as int].contains(e));
                assert(node_live(r, n, v, u));
            }
        }
        assert forall|u: NodeId| is_honest(n, b, u) implies (#[trigger] r.nodes[u as int]).ready_sent by {
            let su = r.nodes[u as int];
            assert(node_live(r, n, v, u));
            let eu = senders(su.echo_senders, v);
            assert forall|q: NodeId| honest_others(n, b, u).contains(q) implies eu.contains(q) by {
                let e = env(q, u, BroadcastMessage::Echo(v));
                assert(r.nodes[q as int].echo_sent);
                assert(node_live(r, n, v, q));
                assert(r.sent.contains(e));
                assert(r.handled[u as int].contains(e));
            }
            lemma_honest_others_len(n, b, u);
            lemma_len_subset(honest_others(n, b, u), eu);
        }
    }
}

/// Termination: with an honest leader, fewer than a third faulty, and
/// other than one or three participants, once every honest participant that
/// has not delivered has handled what the network and the honest
/// participants sent it, every honest participant has delivered the leader's
/// input. So reliable channels bring every honest delivery in finite time.
pub proof fn lemma_termination(tr: Seq<RunState>, n: nat, b: nat, leader: NodeId, v: Value, i: int)
    requires
        3 * b < n <= usize::MAX,
        n == 2 || n >= 4,
        is_run(tr, n, b, leader, v),
        is_honest(n, b, leader),
        0 <= i < tr.len(),
        quiescent(tr[i], n, b),
    ensures
        forall|p: NodeId| is_honest(n, b, p) ==> (#[trigger] tr[i].nodes[p as int]).delivered == Some(v),
{
    let r = tr[i];
    lemma_run_live(tr, n, b, leader, v, i);
    lemma_all_ready(r, n, b, leader, v);
    lemma_thresholds(n, b);
    assert forall|u: NodeId| is_honest(n, b, u) implies (#[trigger] r.nodes[u as int]).delivered == Some(v) by {
        let su = r.nodes[u as int];
        assert(node_live(r, n, v, u));
        assert(node_safe(su, n, b, v));
        if su.delivered is None {
            let ru = senders(su.ready_senders, v);
            assert forall|q: NodeId| honest_others(n, b, u).contains(q) implies ru.contains(q) by {
                let e = env(q, u, BroadcastMessage::Ready(v));
                assert(r.nodes[q as int].ready_sent);
                assert(node_live(r, n, v, q));
                assert(r.sent.contains(e));
                assert(r.handled[u as int].contains(e));
            }
            lemma_honest_others_len(n, b, u);
            lemma_len_subset(honest_others(n, b, u), ru);
        }
    }
}

} // verus!
