use std::collections::HashMap;
use std::collections::HashSet;

use rand::Rng;
use vstd::prelude::*;
use vstd::map::*;

use crate::network::{envelopes, fan_out, Message, NetworkMessage, NodeId, Value, NETWORK_ID};
use crate::node::{NodeInternals, ProtocolState};

verus! {

broadcast use vstd::std_specs::hash::group_hash_axioms;

/// The value that malicious participants try to impose.
pub const MALICIOUS_VALUE: Value = usize::MAX;

/// Messages of Bracha's broadcast.
#[derive(Clone, Copy, Debug, PartialEq, Eq, Structural)]
pub enum BroadcastMessage {
    /// From the network only: the recipient is the sender of the broadcast.
    Leader(Value),
    /// The sender announces its value to every peer.
    Init(Value),
    /// "The sender initiated with this value."
    Echo(Value),
    /// "I am committing to deliver this value."
    Ready(Value),
}

/// Largest number of faulty participants tolerated among `n`.
pub open spec fn max_faulty(n: nat) -> nat {
    n / 3
}

/// Smallest number of honest participants among `n`.
pub open spec fn min_honest(n: nat) -> nat {
    (n - max_faulty(n)) as nat
}

/// Distinct peers whose echoes (or readies) make a quorum: a participant
/// sends nothing to itself, so its own message is not counted.
pub open spec fn quorum(n: nat) -> int {
    min_honest(n) - 1
}

/// Abstract state of one participant in one broadcast.
pub struct BroadcastView {
    pub echo_sent: bool,
    pub ready_sent: bool,
    /// For each value, the peers that sent `Echo` of it.
    pub echo_senders: Map<Value, Set<NodeId>>,
    /// For each value, the peers that sent `Ready` of it.
    pub ready_senders: Map<Value, Set<NodeId>>,
    pub delivered: Option<Value>,
}

/// The peers recorded for `v` (none if `v` was never seen).
pub open spec fn senders(m: Map<Value, Set<NodeId>>, v: Value) -> Set<NodeId> {
    if m.contains_key(v) {
        m[v]
    } else {
        Set::empty()
    }
}

/// State of a participant before any message.
pub open spec fn initial_view() -> BroadcastView {
    BroadcastView {
        echo_sent: false,
        ready_sent: false,
        echo_senders: Map::empty(),
        ready_senders: Map::empty(),
        delivered: None,
    }
}

/// Bracha's transition of an honest participant among `n` that receives `m`
/// from `from`: the next state, and the messages it sends (each protocol
/// message to all peers, an `End` to the network).
pub open spec fn bracha_step(s: BroadcastView, n: nat, from: NodeId, m: BroadcastMessage) -> (
    BroadcastView,
    Seq<Message>,
) {
    if s.delivered is Some {
        (s, seq![])
    } else {
        match m {
            BroadcastMessage::Leader(v) => {
                if from == NETWORK_ID {
                    (
                        BroadcastView { echo_sent: true, ..s },
                        seq![
                            Message::Broadcast(BroadcastMessage::Init(v)),
                            Message::Broadcast(BroadcastMessage::Echo(v)),
                        ],
                    )
                } else {
                    (s, seq![])
                }
            },
            BroadcastMessage::Init(v) => {
                if !s.echo_sent {
                    (
                        BroadcastView { echo_sent: true, ..s },
                        seq![Message::Broadcast(BroadcastMessage::Echo(v))],
                    )
                } else {
                    (s, seq![])
                }
            },
            BroadcastMessage::Echo(v) => {
                let e = senders(s.echo_senders, v).insert(from);
                let fire = !s.ready_sent && e.len() >= quorum(n);
                (
                    BroadcastView {
                        echo_senders: s.echo_senders.insert(v, e),
                        ready_sent: s.ready_sent || fire,
                        ..s
                    },
                    if fire {
                        seq![Message::Broadcast(BroadcastMessage::Ready(v))]
                    } else {
                        seq![]
                    },
                )
            },
            BroadcastMessage::Ready(v) => {
                let r = senders(s.ready_senders, v).insert(from);
                let amplify = !s.ready_sent && r.len() > max_faulty(n);
                let deliver = r.len() >= quorum(n);
                (
                    BroadcastView {
                        ready_senders: s.ready_senders.insert(v, r),
                        ready_sent: s.ready_sent || amplify,
                        delivered: if deliver {
                            Some(v)
                        } else {
                            None
                        },
                        ..s
                    },
                    (if amplify {
                        seq![Message::Broadcast(BroadcastMessage::Ready(v))]
                    } else {
                        seq![]
                    }) + (if deliver {
                        seq![Message::End(v)]
                    } else {
                        seq![]
                    }),
                )
            },
        }
    }
}

/// The per-participant state of one broadcast.
pub struct BroadcastState {
    echo_sent: bool,
    ready_sent: bool,
    echo_received: HashMap<Value, HashSet<NodeId>>,
    ready_received: HashMap<Value, HashSet<NodeId>>,
    delivered: Option<Value>,
}

/// The abstract content of a table from values to sets of senders.
pub open spec fn received_view(m: Map<Value, HashSet<NodeId>>) -> Map<Value, Set<NodeId>> {
    m.map_values(|s: HashSet<NodeId>| s@)
}

/// Every set of senders in the table is finite.
pub open spec fn finite_sets(m: Map<Value, HashSet<NodeId>>) -> bool {
    forall|v: Value| #[trigger] m.contains_key(v) ==> m[v]@.finite()
}

impl View for BroadcastState {
    type V = BroadcastView;

    closed spec fn view(&self) -> BroadcastView {
        BroadcastView {
            echo_sent: self.echo_sent,
            ready_sent: self.ready_sent,
            echo_senders: received_view(self.echo_received@),
            ready_senders: received_view(self.ready_received@),
            delivered: self.delivered,
        }
    }
}

impl BroadcastState {
    pub closed spec fn wf(&self) -> bool {
        finite_sets(self.echo_received@) && finite_sets(self.ready_received@)
    }

    pub fn new() -> (r: Self)
        ensures
            r.wf(),
            r@ == initial_view(),
    {
        let r = BroadcastState {
            echo_sent: false,
            ready_sent: false,
            echo_received: HashMap::new(),
            ready_received: HashMap::new(),
            delivered: None,
        };
        proof {
            assert_maps_equal!(received_view(r.echo_received@), Map::empty());
            assert_maps_equal!(received_view(r.ready_received@), Map::empty());
        }
        r
    }

    /// Whether this participant has sent its `Echo`.
    pub fn echo_sent(&self) -> (r: bool)
        ensures
            r == self@.echo_sent,
    {
        self.echo_sent
    }

    /// Whether this participant has sent its `Ready`.
    pub fn ready_sent(&self) -> (r: bool)
        ensures
            r == self@.ready_sent,
    {
        self.ready_sent
    }

    /// The value this participant delivered, if any.
    pub fn delivered(&self) -> (r: Option<Value>)
        ensures
            r == self@.delivered,
    {
        self.delivered
    }
}

/// Adds `from` to the senders recorded for `v`; returns how many distinct
/// senders are now recorded for `v`.
fn record_sender(received: &mut HashMap<Value, HashSet<NodeId>>, v: Value, from: NodeId) -> (count:
    usize)
    requires
        finite_sets(old(received)@),
    ensures
        finite_sets(final(received)@),
        received_view(final(received)@) == received_view(old(received)@).insert(
            v,
            senders(received_view(old(received)@), v).insert(from),
        ),
        count == senders(received_view(final(received)@), v).len(),
{
    let ghost before = received_view(received@);
    let mut set = match received.remove(&v) {
        Some(s) => s,
        None => HashSet::new(),
    };
    assert(set@ == senders(before, v));
    set.insert(from);
    let count = set.len();
    received.insert(v, set);
    proof {
        assert_maps_equal!(
            received_view(received@),
            before.insert(v, senders(before, v).insert(from))
        );
    }
    count
}

impl BroadcastMessage {
    /// The same kind of message carrying the malicious value; a `Ready`
    /// becomes an `Echo`.
    pub fn malicious(&self) -> (r: Self)
        ensures
            r == match *self {
                BroadcastMessage::Leader(_) => BroadcastMessage::Leader(MALICIOUS_VALUE),
                BroadcastMessage::Init(_) => BroadcastMessage::Init(MALICIOUS_VALUE),
                BroadcastMessage::Echo(_) => BroadcastMessage::Echo(MALICIOUS_VALUE),
                BroadcastMessage::Ready(_) => BroadcastMessage::Echo(MALICIOUS_VALUE),
            },
    {
        match self {
            BroadcastMessage::Leader(_) => BroadcastMessage::Leader(MALICIOUS_VALUE),
            BroadcastMessage::Init(_) => BroadcastMessage::Init(MALICIOUS_VALUE),
            BroadcastMessage::Echo(_) => BroadcastMessage::Echo(MALICIOUS_VALUE),
            BroadcastMessage::Ready(_) => BroadcastMessage::Echo(MALICIOUS_VALUE),
        }
    }

    /// The corrupt message picked by a draw of 0 or 1: `Echo` or `Ready` of
    /// the malicious value.
    pub fn from_draw(draw: usize) -> (r: Self)
        ensures
            r == (if draw == 0 {
                BroadcastMessage::Echo(MALICIOUS_VALUE)
            } else {
                BroadcastMessage::Ready(MALICIOUS_VALUE)
            }),
    {
        if draw == 0 {
            BroadcastMessage::Echo(MALICIOUS_VALUE)
        } else {
            BroadcastMessage::Ready(MALICIOUS_VALUE)
        }
    }
}

/// The messages that a malicious participant may send.
pub open spec fn is_corrupt_message(m: BroadcastMessage) -> bool {
    m == BroadcastMessage::Echo(MALICIOUS_VALUE) || m == BroadcastMessage::Ready(MALICIOUS_VALUE)
}

/// Relies on rand's `thread_rng().gen_range(0..n)`: a number in `0..n`
/// (it panics on an empty range, which `requires` leaves out).
#[verifier::external_body]
fn draw_below(n: usize) -> (r: usize)
    requires
        n > 0,
    ensures
        r < n,
{
    rand::thread_rng().gen_range(0..n)
}

/// A malicious participant answers any message with `Echo` or `Ready` of the
/// malicious value, picked at random, to all its peers.
pub fn random_broadcast(
    node: &NodeInternals,
    _from: NodeId,
    _msg: BroadcastMessage,
    outbox: &mut Vec<NetworkMessage>,
) -> (r: ProtocolState)
    ensures
        r == ProtocolState::InProcess,
        exists|m: BroadcastMessage|
            is_corrupt_message(m) && final(outbox)@ == old(outbox)@ + envelopes(
                node.id,
                node.neighbour_nodes@,
                Message::Broadcast(m),
            ),
{
    let m = BroadcastMessage::from_draw(draw_below(2));
    node.send(Message::Broadcast(m), outbox);
    assert(is_corrupt_message(m));
    ProtocolState::InProcess
}

/// What a protocol step reports: `Terminated` when it delivers.
pub open spec fn step_report(before: BroadcastView, after: BroadcastView) -> ProtocolState {
    if before.delivered is None && after.delivered is Some {
        ProtocolState::Terminated(after.delivered->0)
    } else {
        ProtocolState::InProcess
    }
}

/// Applies Bracha's transition to `node` for `msg` from `from`, and appends
/// what it sends to `outbox`.
pub fn handle_broadcast(
    node: &mut NodeInternals,
    from: NodeId,
    msg: BroadcastMessage,
    outbox: &mut Vec<NetworkMessage>,
) -> (r: ProtocolState)
    requires
        old(node).wf(),
        !(old(node).behaviour is Malicious),
    ensures
        final(node).wf(),
        final(node).same_setup(old(node)),
        final(node).bc_state@ == bracha_step(
            old(node).bc_state@,
            old(node).num_nodes as nat,
            from,
            msg,
        ).0,
        final(outbox)@ == old(outbox)@ + fan_out(
            old(node).id,
            old(node).neighbour_nodes@,
            bracha_step(old(node).bc_state@, old(node).num_nodes as nat, from, msg).1,
        ),
        r == step_report(old(node).bc_state@, final(node).bc_state@),
{
    let ghost s = node.bc_state@;
    let ghost n = node.num_nodes as nat;
    let ghost peers = node.neighbour_nodes@;
    let ghost id = node.id;
    if node.bc_state.delivered.is_some() {
        assert(outbox@ =~= old(outbox)@ + fan_out(id, peers, seq![]));
        return ProtocolState::InProcess;
    }
    match msg {
        BroadcastMessage::Leader(v) => {
            if from == NETWORK_ID {
                node.send(Message::Broadcast(BroadcastMessage::Init(v)), outbox);
                node.send(Message::Broadcast(BroadcastMessage::Echo(v)), outbox);
                node.bc_state.echo_sent = true;
                proof {
                    lemma_fan_out_two(
                        id,
                        peers,
                        Message::Broadcast(BroadcastMessage::Init(v)),
                        Message::Broadcast(BroadcastMessage::Echo(v)),
                    );
                }
            } else {
                assert(outbox@ =~= old(outbox)@ + fan_out(id, peers, seq![]));
            }
        },
        BroadcastMessage::Init(v) => {
            if !node.bc_state.echo_sent {
                node.send(Message::Broadcast(BroadcastMessage::Echo(v)), outbox);
                node.bc_state.echo_sent = true;
                proof {
                    lemma_fan_out_one(id, peers, Message::Broadcast(BroadcastMessage::Echo(v)));
                }
            } else {
                assert(outbox@ =~= old(outbox)@ + fan_out(id, peers, seq![]));
            }
        },
        BroadcastMessage::Echo(v) => {
            let count = record_sender(&mut node.bc_state.echo_received, v, from);
            if !node.bc_state.ready_sent && count >= node.min_honest_nodes - 1 {
                node.send(Message::Broadcast(BroadcastMessage::Ready(v)), outbox);
                node.bc_state.ready_sent = true;
                proof {
                    lemma_fan_out_one(id, peers, Message::Broadcast(BroadcastMessage::Ready(v)));
                }
            } else {
                assert(outbox@ =~= old(outbox)@ + fan_out(id, peers, seq![]));
            }
        },
        BroadcastMessage::Ready(v) => {
            let count = record_sender(&mut node.bc_state.ready_received, v, from);
            let amplify = !node.bc_state.ready_sent && count > node.max_faulty_nodes;
            let deliver = count >= node.min_honest_nodes - 1;
            let ghost mid = outbox@;
            if amplify {
                node.send(Message::Broadcast(BroadcastMessage::Ready(v)), outbox);
                node.bc_state.ready_sent = true;
            }
            let ghost amplified = outbox@;
            if deliver {
                node.bc_state.delivered = Some(v);
                node.send(Message::End(v), outbox);
            }
            proof {
                let a: Seq<Message> = if amplify {
                    seq![Message::Broadcast(BroadcastMessage::Ready(v))]
                } else {
                    seq![]
                };
                let d: Seq<Message> = if deliver {
                    seq![Message::End(v)]
                } else {
                    seq![]
                };
                lemma_fan_out_append(id, peers, a, d);
                lemma_fan_out_short(id, peers, a);
                lemma_fan_out_short(id, peers, d);
                assert(outbox@ =~= old(outbox)@ + fan_out(id, peers, a + d));
            }
            if deliver {
                return ProtocolState::Terminated(v);
            }
        },
    }
    ProtocolState::InProcess
}

/// Envelopes of a single message.
proof fn lemma_fan_out_one(from: NodeId, peers: Seq<NodeId>, a: Message)
    ensures
        fan_out(from, peers, seq![a]) == envelopes(from, peers, a),
{
    assert(seq![a].drop_last() =~= Seq::<Message>::empty());
    assert(fan_out(from, peers, Seq::<Message>::empty()) == Seq::<NetworkMessage>::empty());
    assert(fan_out(from, peers, seq![a]) =~= envelopes(from, peers, a));
}

/// Envelopes of two messages, in order.
proof fn lemma_fan_out_two(from: NodeId, peers: Seq<NodeId>, a: Message, b: Message)
    ensures
        fan_out(from, peers, seq![a, b]) == envelopes(from, peers, a) + envelopes(from, peers, b),
{
    assert(seq![a, b].drop_last() =~= seq![a]);
    lemma_fan_out_one(from, peers, a);
}

/// Envelopes of at most one message.
proof fn lemma_fan_out_short(from: NodeId, peers: Seq<NodeId>, a: Seq<Message>)
    requires
        a.len() <= 1,
    ensures
        a.len() == 0 ==> fan_out(from, peers, a) == Seq::<NetworkMessage>::empty(),
        a.len() == 1 ==> fan_out(from, peers, a) == envelopes(from, peers, a[0]),
{
    if a.len() == 1 {
        assert(a =~= seq![a[0]]);
        lemma_fan_out_one(from, peers, a[0]);
    }
}

/// Envelopes of two runs of messages, one after the other.
proof fn lemma_fan_out_append(from: NodeId, peers: Seq<NodeId>, a: Seq<Message>, b: Seq<Message>)
    ensures
        fan_out(from, peers, a + b) == fan_out(from, peers, a) + fan_out(from, peers, b),
    decreases b.len(),
{
    if b.len() == 0 {
        assert(a + b =~= a);
        assert(fan_out(from, peers, a) + fan_out(from, peers, b) =~= fan_out(from, peers, a));
    } else {
        assert((a + b).drop_last() =~= a + b.drop_last());
        assert((a + b).last() == b.last());
        lemma_fan_out_append(from, peers, a, b.drop_last());
        assert(fan_out(from, peers, a + b) =~= fan_out(from, peers, a) + fan_out(from, peers, b));
    }
}

} // verus!
