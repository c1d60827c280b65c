use vstd::prelude::*;

use vstd::set_lib::*;

use crate::network::{envelopes, fan_out, peers_of, Message, NetworkMessage, NodeId, Value, NETWORK_ID};
use crate::protocols::bracha_broadcast::{
    bracha_step, initial_view, max_faulty, quorum, senders, BroadcastMessage, BroadcastView,
};

verus! {

/// The state of an honest participant among `n` after it has handled each
/// envelope of `h` (sender and message) in turn.
pub open spec fn run_protocol(n: nat, h: Seq<(NodeId, BroadcastMessage)>) -> BroadcastView
    decreases h.len(),
{
    if h.len() == 0 {
        initial_view()
    } else {
        bracha_step(run_protocol(n, h.drop_last()), n, h.last().0, h.last().1).0
    }
}

/// The distinct senders of `Echo(v)` in `h`.
pub open spec fn echo_sources(h: Seq<(NodeId, BroadcastMessage)>, v: Value) -> Set<NodeId> {
    Set::new(|p: NodeId| exists|i: int| 0 <= i < h.len() && h[i] == (p, BroadcastMessage::Echo(v)))
}

/// The distinct senders of `Ready(v)` in `h`.
pub open spec fn ready_sources(h: Seq<(NodeId, BroadcastMessage)>, v: Value) -> Set<NodeId> {
    Set::new(|p: NodeId| exists|i: int| 0 <= i < h.len() && h[i] == (p, BroadcastMessage::Ready(v)))
}

/// The latches only rise; a raised latch silences its message; a participant
/// that has delivered neither changes nor sends anything.
pub proof fn lemma_latches(s: BroadcastView, n: nat, from: NodeId, m: BroadcastMessage)
    ensures
        ({
            let (t, out) = bracha_step(s, n, from, m);
            &&& s.echo_sent ==> t.echo_sent
            &&& s.ready_sent ==> t.ready_sent
            &&& s.ready_sent ==> forall|i: int|
                0 <= i < out.len() ==> !(#[trigger] out[i] matches Message::Broadcast(BroadcastMessage::Ready(_)))
            &&& s.echo_sent && !(m is Leader) ==> forall|i: int|
                0 <= i < out.len() ==> !(#[trigger] out[i] matches Message::Broadcast(BroadcastMessage::Echo(_)))
            &&& s.delivered is Some ==> t == s && out.len() == 0
        }),
{
}

/// Once delivered, a participant stays delivered, whatever it handles next.
proof fn lemma_delivered_stays(n: nat, h: Seq<(NodeId, BroadcastMessage)>)
    requires
        h.len() > 0,
        run_protocol(n, h.drop_last()).delivered is Some,
    ensures
        run_protocol(n, h) == run_protocol(n, h.drop_last()),
{
}

/// The senders that a participant records for a value are exactly the
/// distinct peers that sent it that message, as long as it is running (the
/// last envelope handled may be the one it delivers on); so the size of each
/// set counts distinct peers.
pub proof fn lemma_senders_are_distinct_peers(n: nat, h: Seq<(NodeId, BroadcastMessage)>, v: Value)
    requires
        h.len() > 0 ==> run_protocol(n, h.drop_last()).delivered is None,
    ensures
        senders(run_protocol(n, h).echo_senders, v) == echo_sources(h, v),
        senders(run_protocol(n, h).ready_senders, v) == ready_sources(h, v),
        echo_sources(h, v).finite(),
        ready_sources(h, v).finite(),
        senders(run_protocol(n, h).echo_senders, v).len() == echo_sources(h, v).len(),
        senders(run_protocol(n, h).ready_senders, v).len() == ready_sources(h, v).len(),
    decreases h.len(),
{
    if h.len() == 0 {
        assert(echo_sources(h, v) =~= Set::empty());
        assert(ready_sources(h, v) =~= Set::empty());
    } else {
        let p = h.drop_last();
        if p.len() > 0 && run_protocol(n, p.drop_last()).delivered is Some {
            lemma_delivered_stays(n, p);
        }
        lemma_senders_are_distinct_peers(n, p, v);
        let (from, m) = h.last();
        let e = echo_sources(p, v);
        let r = ready_sources(p, v);
        assert forall|q: NodeId| #[trigger] echo_sources(h, v).contains(q) <==> e.contains(q) || (
        from == q && m == BroadcastMessage::Echo(v)) by {
            if e.contains(q) {
                let i = choose|i: int| 0 <= i < p.len() && p[i] == (q, BroadcastMessage::Echo(v));
                assert(h[i] == p[i]);
            }
            if echo_sources(h, v).contains(q) {
                let i = choose|i: int| 0 <= i < h.len() && h[i] == (q, BroadcastMessage::Echo(v));
                if i < p.len() {
                    assert(p[i] == h[i]);
                }
            }
            if from == q && m == BroadcastMessage::Echo(v) {
                assert(h[h.len() - 1] == (q, BroadcastMessage::Echo(v)));
            }
        }
        assert forall|q: NodeId| #[trigger] ready_sources(h, v).contains(q) <==> r.contains(q) || (
        from == q && m == BroadcastMessage::Ready(v)) by {
            if r.contains(q) {
                let i = choose|i: int| 0 <= i < p.len() && p[i] == (q, BroadcastMessage::Ready(v));
                assert(h[i] == p[i]);
            }
            if ready_sources(h, v).contains(q) {
                let i = choose|i: int| 0 <= i < h.len() && h[i] == (q, BroadcastMessage::Ready(v));
                if i < p.len() {
                    assert(p[i] == h[i]);
                }
            }
            if from == q && m == BroadcastMessage::Ready(v) {
                assert(h[h.len() - 1] == (q, BroadcastMessage::Ready(v)));
            }
        }
        if m == BroadcastMessage::Echo(v) {
            assert(echo_sources(h, v) =~= e.insert(from));
        } else {
            assert(echo_sources(h, v) =~= e);
        }
        if m == BroadcastMessage::Ready(v) {
            assert(ready_sources(h, v) =~= r.insert(from));
        } else {
            assert(ready_sources(h, v) =~= r);
        }
    }
}

/// A whole broadcast among `n` participants, seen at one moment: each
/// participant's protocol state, the envelopes each has handled, and every
/// envelope sent so far.
pub struct RunState {
    pub nodes: Seq<BroadcastView>,
    pub handled: Seq<Set<NetworkMessage>>,
    pub sent: Set<NetworkMessage>,
}

/// Participants `0..n - b` are honest.
pub open spec fn is_honest(n: nat, b: nat, p: NodeId) -> bool {
    p < n - b
}

/// The faulty participants: the last `b` of `0..n`.
pub open spec fn faulty_set(n: nat, b: nat) -> Set<NodeId> {
    Set::new(|q: NodeId| n - b <= q < n)
}

/// Before anything is handled: the network has told `leader` to broadcast `v`.
pub open spec fn run_start(n: nat, leader: NodeId, v: Value) -> RunState {
    RunState {
        nodes: Seq::new(n, |i: int| initial_view()),
        handled: Seq::new(n, |i: int| Set::empty()),
        sent: set![
            NetworkMessage {
                from: NETWORK_ID,
                to: leader,
                msg: Message::Broadcast(BroadcastMessage::Leader(v)),
            },
        ],
    }
}

/// The envelopes that `p` sends when it sends each message of `ms`.
pub open spec fn sends(p: NodeId, n: nat, ms: Seq<Message>) -> Set<NetworkMessage> {
    fan_out(p, peers_of(p, n), ms).to_set()
}

/// Participant `p` applies the protocol to envelope `e`, which carries `m`.
pub open spec fn protocol_move(r: RunState, n: nat, p: NodeId, e: NetworkMessage, m: BroadcastMessage) -> RunState {
    let (t, out) = bracha_step(r.nodes[p as int], n, e.from, m);
    RunState {
        nodes: r.nodes.update(p as int, t),
        handled: r.handled.update(p as int, r.handled[p as int].insert(e)),
        sent: r.sent + sends(p, n, out),
    }
}

/// One move of a run: a participant (honest, or faulty but following the
/// protocol) handles an envelope sent to it, in any order and any number of
/// times; or a faulty participant sends an `Echo` or a `Ready` of any value
/// to anyone. It cannot forge its identity.
pub open spec fn run_next(r: RunState, r2: RunState, n: nat, b: nat) -> bool {
    ||| exists|p: NodeId, e: NetworkMessage, m: BroadcastMessage|
        p < n && #[trigger] r.sent.contains(e) && e.to == p && e.msg == Message::Broadcast(m) && r2
            == #[trigger] protocol_move(r, n, p, e, m)
    ||| exists|p: NodeId, to: NodeId, m: BroadcastMessage|
        faulty_set(n, b).contains(p) && (m is Echo || m is Ready) && r2 == #[trigger] inject(r, p, to, m)
}

/// Faulty participant `p` sends `m` to `to`.
pub open spec fn inject(r: RunState, p: NodeId, to: NodeId, m: BroadcastMessage) -> RunState {
    RunState { sent: r.sent.insert(NetworkMessage { from: p, to, msg: Message::Broadcast(m) }), ..r }
}

/// `tr` is a run of a broadcast of `v` from `leader`, among `n`
/// participants of which the last `b` are faulty.
pub open spec fn is_run(tr: Seq<RunState>, n: nat, b: nat, leader: NodeId, v: Value) -> bool {
    &&& tr.len() > 0
    &&& tr[0] == run_start(n, leader, v)
    &&& forall|i: int| 0 <= i < tr.len() - 1 ==> run_next(#[trigger] tr[i], tr[i + 1], n, b)
}

/// The value a message carries.
pub open spec fn carried(m: Message) -> Value {
    match m {
        Message::Broadcast(BroadcastMessage::Leader(x)) => x,
        Message::Broadcast(BroadcastMessage::Init(x)) => x,
        Message::Broadcast(BroadcastMessage::Echo(x)) => x,
        Message::Broadcast(BroadcastMessage::Ready(x)) => x,
        Message::End(x) => x,
    }
}

/// Only the leader's input is ever announced.
pub open spec fn announces_only(m: Message, v: Value) -> bool {
    (m is Broadcast && (m->Broadcast_0 is Leader || m->Broadcast_0 is Init)) ==> carried(m) == v
}

/// What an honest participant recorded can only favour a value other than
/// `v` through faulty senders, and it delivered nothing but `v`.
pub open spec fn node_safe(s: BroadcastView, n: nat, b: nat, v: Value) -> bool {
    &&& forall|x: Value| x != v ==> #[trigger] senders(s.echo_senders, x).subset_of(faulty_set(n, b))
    &&& forall|x: Value| x != v ==> #[trigger] senders(s.ready_senders, x).subset_of(faulty_set(n, b))
    &&& s.delivered is Some ==> s.delivered == Some(v)
}

/// What holds at every moment of a run of a broadcast of `v`.
pub open spec fn run_safe(r: RunState, n: nat, b: nat, v: Value) -> bool {
    &&& r.nodes.len() == n
    &&& r.handled.len() == n
    &&& forall|e: NetworkMessage| #[trigger] r.sent.contains(e) ==> {
        &&& e.from == NETWORK_ID ==> e.msg == Message::Broadcast(BroadcastMessage::Leader(v))
        &&& e.from != NETWORK_ID ==> e.from < n
        &&& announces_only(e.msg, v)
        &&& is_honest(n, b, e.from) ==> carried(e.msg) == v
    }
    &&& forall|p: NodeId| is_honest(n, b, p) ==> node_safe(#[trigger] r.nodes[p as int], n, b, v)
}

/// The last `b` participants are `b` of them.
pub(crate) proof fn lemma_faulty_set_len(n: nat, b: nat)
    requires
        b <= n <= usize::MAX,
    ensures
        faulty_set(n, b).finite(),
        faulty_set(n, b).len() == b,
    decreases b,
{
    if b == 0 {
        assert(faulty_set(n, b) =~= Set::empty());
    } else {
        lemma_faulty_set_len((n - 1) as nat, (b - 1) as nat);
        assert(faulty_set(n, b) =~= faulty_set((n - 1) as nat, (b - 1) as nat).insert((n - 1) as NodeId));
    }
}

/// With fewer than a third faulty, the faulty alone reach neither threshold.
pub(crate) proof fn lemma_thresholds(n: nat, b: nat)
    requires
        3 * b < n,
    ensures
        b <= max_faulty(n),
        b >= 1 ==> b < quorum(n),
{
    let f = n / 3;
    let r = n % 3;
    assert(n == 3 * f + r && 0 <= r < 3);
}

/// Every envelope of `sends(p, n, ms)` is from `p` and carries a message of `ms`.
pub(crate) proof fn lemma_sends_members(p: NodeId, n: nat, ms: Seq<Message>, e: NetworkMessage)
    requires
        sends(p, n, ms).contains(e),
    ensures
        e.from == p,
        ms.contains(e.msg),
    decreases ms.len(),
{
    let peers = peers_of(p, n);
    let all = fan_out(p, peers, ms);
    let i = choose|i: int| 0 <= i < all.len() && all[i] == e;
    let head = fan_out(p, peers, ms.drop_last());
    let tail = envelopes(p, peers, ms.last());
    assert(all == head + tail);
    if i < head.len() {
        assert(head[i] == e);
        assert(sends(p, n, ms.drop_last()).contains(e));
        lemma_sends_members(p, n, ms.drop_last(), e);
        let j = choose|j: int| 0 <= j < ms.drop_last().len() && ms.drop_last()[j] == e.msg;
        assert(ms[j] == e.msg);
    } else {
        assert(tail[i - head.len()] == e);
        assert(ms[ms.len() - 1] == e.msg);
    }
}

/// An honest participant's step keeps it safe and sends only `v`.
pub(crate) proof fn lemma_honest_step_safe(s: BroadcastView, n: nat, b: nat, v: Value, from: NodeId, m: BroadcastMessage)
    requires
        3 * b < n <= usize::MAX,
        node_safe(s, n, b, v),
        from == NETWORK_ID ==> m == BroadcastMessage::Leader(v),
        from != NETWORK_ID ==> from < n,
        announces_only(Message::Broadcast(m), v),
        is_honest(n, b, from) ==> carried(Message::Broadcast(m)) == v,
    ensures
        node_safe(bracha_step(s, n, from, m).0, n, b, v),
        forall|i: int|
            0 <= i < bracha_step(s, n, from, m).1.len() ==> {
                &&& carried(#[trigger] bracha_step(s, n, from, m).1[i]) == v
                &&& announces_only(bracha_step(s, n, from, m).1[i], v)
            },
{
    let (t, out) = bracha_step(s, n, from, m);
    lemma_faulty_set_len(n, b);
    lemma_thresholds(n, b);
    if s.delivered is None {
        match m {
            BroadcastMessage::Echo(x) => {
                if x != v {
                    assert(faulty_set(n, b).contains(from));
                    assert(senders(s.echo_senders, x).subset_of(faulty_set(n, b)));
                    let e = senders(s.echo_senders, x).insert(from);
                    assert(e.subset_of(faulty_set(n, b)));
                    lemma_len_subset(e, faulty_set(n, b));
                }
                assert forall|y: Value| y != v implies #[trigger] senders(t.echo_senders, y).subset_of(
                    faulty_set(n, b),
                ) by {
                    if y != x {
                        assert(senders(t.echo_senders, y) == senders(s.echo_senders, y));
                    }
                }
                assert forall|y: Value| y != v implies #[trigger] senders(t.ready_senders, y).subset_of(
                    faulty_set(n, b),
                ) by {
                    assert(senders(t.ready_senders, y) == senders(s.ready_senders, y));
                }
            },
            BroadcastMessage::Ready(x) => {
                if x != v {
                    assert(faulty_set(n, b).contains(from));
                    assert(senders(s.ready_senders, x).subset_of(faulty_set(n, b)));
                    let r = senders(s.ready_senders, x).insert(from);
                    assert(r.subset_of(faulty_set(n, b)));
                    lemma_len_subset(r, faulty_set(n, b));
                }
                assert forall|y: Value| y != v implies #[trigger] senders(t.ready_senders, y).subset_of(
                    faulty_set(n, b),
                ) by {
                    if y != x {
                        assert(senders(t.ready_senders, y) == senders(s.ready_senders, y));
                    }
                }
                assert forall|y: Value| y != v implies #[trigger] senders(t.echo_senders, y).subset_of(
                    faulty_set(n, b),
                ) by {
                    assert(senders(t.echo_senders, y) == senders(s.echo_senders, y));
                }
            },
            _ => {},
        }
    }
}

/// No step announces a value other than the leader's input, as long as only
/// the network hands out `Leader` messages, and only of that input.
proof fn lemma_step_announces(s: BroadcastView, n: nat, from: NodeId, m: BroadcastMessage, v: Value)
    requires
        from == NETWORK_ID ==> m == BroadcastMessage::Leader(v),
    ensures
        forall|i: int|
            0 <= i < bracha_step(s, n, from, m).1.len() ==> announces_only(
                #[trigger] bracha_step(s, n, from, m).1[i],
                v,
            ),
{
}

/// Every move of a run keeps it safe.
pub(crate) proof fn lemma_run_next_safe(r: RunState, r2: RunState, n: nat, b: nat, v: Value)
    requires
        3 * b < n <= usize::MAX,
        run_safe(r, n, b, v),
        run_next(r, r2, n, b),
    ensures
        run_safe(r2, n, b, v),
{
    if exists|p: NodeId, e: NetworkMessage, m: BroadcastMessage|
        p < n && #[trigger] r.sent.contains(e) && e.to == p && e.msg == Message::Broadcast(m) && r2
            == #[trigger] protocol_move(r, n, p, e, m) {
        let (p, e, m) = choose|p: NodeId, e: NetworkMessage, m: BroadcastMessage|
            p < n && #[trigger] r.sent.contains(e) && e.to == p && e.msg == Message::Broadcast(m)
                && r2 == #[trigger] protocol_move(r, n, p, e, m);
        let s = r.nodes[p as int];
        let (t, out) = bracha_step(s, n, e.from, m);
        lemma_step_announces(s, n, e.from, m, v);
        if is_honest(n, b, p) {
            lemma_honest_step_safe(s, n, b, v, e.from, m);
        }
        assert forall|e2: NetworkMessage| #[trigger] r2.sent.contains(e2) implies {
            &&& e2.from == NETWORK_ID ==> e2.msg == Message::Broadcast(BroadcastMessage::Leader(v))
            &&& e2.from != NETWORK_ID ==> e2.from < n
            &&& announces_only(e2.msg, v)
            &&& is_honest(n, b, e2.from) ==> carried(e2.msg) == v
        } by {
            if !r.sent.contains(e2) {
                lemma_sends_members(p, n, out, e2);
                let j = choose|j: int| 0 <= j < out.len() && out[j] == e2.msg;
                assert(announces_only(out[j], v));
            }
        }
        assert forall|q: NodeId| is_honest(n, b, q) implies node_safe(#[trigger] r2.nodes[q as int], n, b, v) by {
            if q != p {
                assert(r2.nodes[q as int] == r.nodes[q as int]);
            }
        }
    } else {
        let (p, to, m) = choose|p: NodeId, to: NodeId, m: BroadcastMessage|
            faulty_set(n, b).contains(p) && (m is Echo || m is Ready) && r2 == #[trigger] inject(r, p, to, m);
        assert(r2.nodes == r.nodes);
    }
}

/// Every moment of a run is safe.
pub(crate) proof fn lemma_run_safe(tr: Seq<RunState>, n: nat, b: nat, leader: NodeId, v: Value, i: int)
    requires
        3 * b < n <= usize::MAX,
        is_run(tr, n, b, leader, v),
        0 <= i < tr.len(),
    ensures
        run_safe(tr[i], n, b, v),
    decreases i,
{
    if i == 0 {
        let r = tr[0];
        assert forall|p: NodeId| is_honest(n, b, p) implies node_safe(#[trigger] r.nodes[p as int], n, b, v) by {
            assert(r.nodes[p as int] == initial_view());
            assert forall|x: Value| x != v implies #[trigger] senders(initial_view().echo_senders, x).subset_of(
                faulty_set(n, b),
            ) by {
                assert(senders(initial_view().echo_senders, x) =~= Set::empty());
            }
            assert forall|x: Value| x != v implies #[trigger] senders(initial_view().ready_senders, x).subset_of(
                faulty_set(n, b),
            ) by {
                assert(senders(initial_view().ready_senders, x) =~= Set::empty());
            }
        }
    } else {
        lemma_run_safe(tr, n, b, leader, v, i - 1);
        lemma_run_next_safe(tr[i - 1], tr[i], n, b, v);
    }
}

/// Agreement: two honest participants that deliver in the same run deliver
/// the same value, whoever the leader is and whatever the faulty participants
/// send.
pub proof fn lemma_agreement(
    tr: Seq<RunState>,
    n: nat,
    b: nat,
    leader: NodeId,
    v: Value,
    i: int,
    j: int,
    p: NodeId,
    q: NodeId,
)
    requires
        3 * b < n <= usize::MAX,
        is_run(tr, n, b, leader, v),
        0 <= i < tr.len(),
        0 <= j < tr.len(),
        is_honest(n, b, p),
        is_honest(n, b, q),
        tr[i].nodes[p as int].delivered is Some,
        tr[j].nodes[q as int].delivered is Some,
    ensures
        tr[i].nodes[p as int].delivered == tr[j].nodes[q as int].delivered,
{
    lemma_run_safe(tr, n, b, leader, v, i);
    lemma_run_safe(tr, n, b, leader, v, j);
}

/// Validity: when every honest participant has delivered, each delivered the
/// leader's input.
pub proof fn lemma_validity(tr: Seq<RunState>, n: nat, b: nat, leader: NodeId, v: Value, i: int)
    requires
        3 * b < n <= usize::MAX,
        is_run(tr, n, b, leader, v),
        0 <= i < tr.len(),
        is_honest(n, b, leader),
        forall|p: NodeId| is_honest(n, b, p) ==> (#[trigger] tr[i].nodes[p as int]).delivered is Some,
    ensures
        forall|p: NodeId| is_honest(n, b, p) ==> (#[trigger] tr[i].nodes[p as int]).delivered == Some(v),
{
    lemma_run_safe(tr, n, b, leader, v, i);
}

} // verus!
