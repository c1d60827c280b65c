use std::collections::HashMap;

use vstd::prelude::*;

use crate::node::Behaviour;
use crate::protocols::bracha_broadcast::BroadcastMessage;

verus! {

broadcast use vstd::std_specs::hash::group_hash_axioms;

/// Identifier of a participant; participants are numbered `0..num_nodes`.
pub type NodeId = usize;

/// The value that a broadcast carries.
pub type Value = usize;

/// Identifier reserved for the network itself; no participant carries it.
pub const NETWORK_ID: NodeId = usize::MAX;

/// What travels between the network and the participants.
#[derive(Clone, Copy, Debug, PartialEq, Eq, Structural)]
pub enum Message {
    /// A message of the broadcast protocol.
    Broadcast(BroadcastMessage),
    /// Sent by a participant: it delivers this value and stops.
    /// Sent by the network: the participant has to stop.
    End(Value),
}

/// An envelope: a message with its (unforgeable) sender and its recipient.
#[derive(Clone, Copy, Debug, PartialEq, Eq, Structural)]
pub struct NetworkMessage {
    pub from: NodeId,
    pub to: NodeId,
    pub msg: Message,
}

impl NetworkMessage {
    pub fn new(from: NodeId, to: NodeId, msg: Message) -> (r: Self)
        ensures
            r == (NetworkMessage { from, to, msg }),
    {
        NetworkMessage { from, to, msg }
    }
}

/// The envelopes that send `m` from `from`: an `End` goes up to the network,
/// a protocol message goes to every peer, in the order of `peers`.
pub open spec fn envelopes(from: NodeId, peers: Seq<NodeId>, m: Message) -> Seq<NetworkMessage> {
    match m {
        Message::End(_) => seq![NetworkMessage { from, to: NETWORK_ID, msg: m }],
        Message::Broadcast(_) => peers.map_values(|p: NodeId| NetworkMessage { from, to: p, msg: m }),
    }
}

/// The envelopes that send each message of `ms` in turn.
pub open spec fn fan_out(from: NodeId, peers: Seq<NodeId>, ms: Seq<Message>) -> Seq<NetworkMessage>
    decreases ms.len(),
{
    if ms.len() == 0 {
        seq![]
    } else {
        fan_out(from, peers, ms.drop_last()) + envelopes(from, peers, ms.last())
    }
}

/// Which faulty behaviour the last participants of a network get.
#[derive(Clone, Copy, Debug, PartialEq, Eq, Structural)]
pub enum MaliciousKind {
    /// Answer every protocol message with a random corrupt message.
    RandomCorrupt,
    /// Follow the protocol for this many envelopes, then go silent.
    SilentAfter(usize),
}

/// Why a network or a broadcast cannot be set up.
#[derive(Clone, Copy, Debug, PartialEq, Eq, Structural)]
pub enum ConfigError {
    /// A network needs at least one participant.
    NoNodes,
    /// Malicious participants must be fewer than a third of all.
    TooManyMalicious,
    /// The sender of a broadcast must be a participant.
    UnknownLeader,
}

/// Checks that `num_malicious` faulty participants among `num_nodes` stay
/// under a third.
pub fn check_network(num_nodes: usize, num_malicious: usize) -> (r: Result<(), ConfigError>)
    ensures
        num_nodes == 0 ==> r == Err::<(), ConfigError>(ConfigError::NoNodes),
        num_nodes > 0 && 3 * num_malicious >= num_nodes ==> r == Err::<(), ConfigError>(
            ConfigError::TooManyMalicious,
        ),
        num_nodes > 0 && 3 * num_malicious < num_nodes ==> r is Ok,
{
    if num_nodes == 0 {
        Err(ConfigError::NoNodes)
    } else if num_malicious >= num_nodes / 3 + (if num_nodes % 3 == 0 { 0 } else { 1 }) {
        Err(ConfigError::TooManyMalicious)
    } else {
        Ok(())
    }
}

/// Behaviour of participant `id`: the first `num_nodes - num_malicious` are
/// honest, the others behave as `kind` says.
pub fn behaviour_of(id: NodeId, num_nodes: usize, num_malicious: usize, kind: MaliciousKind) -> (r:
    Behaviour)
    requires
        num_malicious <= num_nodes,
    ensures
        id < num_nodes - num_malicious ==> r == Behaviour::Good,
        id >= num_nodes - num_malicious ==> r == match kind {
            MaliciousKind::RandomCorrupt => Behaviour::Malicious,
            MaliciousKind::SilentAfter(k) => Behaviour::Faulty(k),
        },
{
    if id < num_nodes - num_malicious {
        Behaviour::Good
    } else {
        match kind {
            MaliciousKind::RandomCorrupt => Behaviour::Malicious,
            MaliciousKind::SilentAfter(k) => Behaviour::Faulty(k),
        }
    }
}

/// The participants of `0..n` but `id`, in increasing order.
pub open spec fn peers_of(id: NodeId, n: nat) -> Seq<NodeId> {
    Seq::new((n - 1) as nat, |i: int| (if i < id { i } else { i + 1 }) as NodeId)
}

/// The peers of participant `id` among `num_nodes`, in increasing order.
pub fn neighbours(id: NodeId, num_nodes: usize) -> (r: Vec<NodeId>)
    requires
        id < num_nodes,
    ensures
        r@ == peers_of(id, num_nodes as nat),
{
    let mut r: Vec<NodeId> = Vec::new();
    let mut p: usize = 0;
    while p < num_nodes
        invariant
            p <= num_nodes,
            id < num_nodes,
            r@.len() == (if p <= id { p as int } else { p - 1 }),
            forall|i: int| 0 <= i < r@.len() ==> r@[i] == (if i < id { i } else { i + 1 }),
        decreases num_nodes - p,
    {
        if p != id {
            r.push(p);
        }
        p += 1;
    }
    assert(r@ =~= peers_of(id, num_nodes as nat));
    r
}

/// Number of participants below `k` that are still running.
pub open spec fn live_count(live: Seq<bool>, k: int) -> nat
    decreases k,
{
    if k <= 0 {
        0
    } else {
        live_count(live, k - 1) + if live[k - 1] {
            1nat
        } else {
            0nat
        }
    }
}

/// Stopping participant `p` lowers the count of running participants below
/// `k` by one when `p` was running and below `k`.
proof fn lemma_live_count_stop(live: Seq<bool>, k: int, p: int)
    requires
        0 <= p < live.len(),
        k <= live.len(),
    ensures
        live_count(live.update(p, false), k) == live_count(live, k) - (if p < k && live[p] {
            1int
        } else {
            0int
        }),
    decreases k,
{
    if k > 0 {
        lemma_live_count_stop(live, k - 1, p);
    }
}

/// No participant below `k` runs when the count is zero.
proof fn lemma_live_count_zero(live: Seq<bool>, k: int, p: int)
    requires
        k <= live.len(),
        0 <= p < k,
        live[p],
    ensures
        live_count(live, k) > 0,
    decreases k,
{
    if p < k - 1 {
        lemma_live_count_zero(live, k - 1, p);
    }
}

/// The orders to stop that the network sends to the participants below `k`
/// still running, in increasing order.
pub open spec fn stop_orders(live: Seq<bool>, k: int) -> Seq<NetworkMessage>
    decreases k,
{
    if k <= 0 {
        seq![]
    } else {
        stop_orders(live, k - 1) + if live[k - 1] {
            seq![NetworkMessage { from: NETWORK_ID, to: (k - 1) as NodeId, msg: Message::End(0) }]
        } else {
            seq![]
        }
    }
}

/// A broadcast of `v` from `leader` succeeded: every honest participant
/// (those below `num_good`) delivered, they all delivered the same value, and
/// that value is `v` when the leader is honest.
pub open spec fn run_succeeded(results: Map<NodeId, Value>, num_good: nat, leader: NodeId, v: Value) -> bool {
    &&& forall|p: NodeId| p < num_good ==> #[trigger] results.contains_key(p)
    &&& forall|p: NodeId, q: NodeId|
        p < num_good && q < num_good ==> #[trigger] results[p] == #[trigger] results[q]
    &&& leader < num_good ==> forall|p: NodeId| p < num_good ==> #[trigger] results[p] == v
}

/// What the network does with an envelope taken from its inbox.
#[derive(Debug)]
pub enum RelayAction {
    /// Put the envelope into its recipient's inbox.
    Forward(NetworkMessage),
    /// The recipient has stopped, or is no participant: drop the envelope.
    Drop(NetworkMessage),
    /// This participant delivered and stopped: join it and go on.
    Join(NodeId),
    /// This participant delivered and was the last honest one running: join
    /// it, send each order to stop, join their recipients, and stop relaying.
    Finish(NodeId, Vec<NetworkMessage>),
}

/// The network's bookkeeping while it relays one broadcast.
pub struct Relay {
    num_nodes: usize,
    num_good: usize,
    live: Vec<bool>,
    good_running: usize,
    results: HashMap<NodeId, Value>,
    finished: bool,
}

impl Relay {
    pub closed spec fn num_nodes(&self) -> nat {
        self.num_nodes as nat
    }

    /// Number of honest participants: they are `0..num_good`.
    pub closed spec fn num_good(&self) -> nat {
        self.num_good as nat
    }

    /// For each participant, whether it still runs.
    pub closed spec fn live(&self) -> Seq<bool> {
        self.live@
    }

    /// The value each stopped participant delivered.
    pub closed spec fn results(&self) -> Map<NodeId, Value> {
        self.results@
    }

    /// Whether all honest participants have stopped and the relay is over.
    pub closed spec fn finished(&self) -> bool {
        self.finished
    }

    pub closed spec fn wf(&self) -> bool {
        &&& self.live@.len() == self.num_nodes
        &&& self.num_good <= self.num_nodes
        &&& self.good_running == live_count(self.live@, self.num_good as int)
        &&& forall|p: NodeId| #[trigger] self.results@.contains_key(p) ==> p < self.num_nodes
            && !self.live@[p as int]
        &&& self.finished <==> self.good_running == 0
    }

    /// A relay for `num_nodes` running participants, the last
    /// `num_malicious` of them faulty.
    pub fn new(num_nodes: usize, num_malicious: usize) -> (r: Self)
        requires
            0 < num_nodes,
            3 * num_malicious < num_nodes,
        ensures
            r.wf(),
            r.num_nodes() == num_nodes,
            r.num_good() == num_nodes - num_malicious,
            r.live() == Seq::new(num_nodes as nat, |i: int| true),
            r.results() == Map::<NodeId, Value>::empty(),
            !r.finished(),
    {
        let live = vec![true; num_nodes];
        let num_good = num_nodes - num_malicious;
        proof {
            assert(live@ =~= Seq::new(num_nodes as nat, |i: int| true));
            lemma_live_count_all(live@, num_good as int);
        }
        Relay {
            num_nodes,
            num_good,
            live,
            good_running: num_good,
            results: HashMap::new(),
            finished: false,
        }
    }

    /// The envelope that makes `leader` the sender of `v`.
    pub fn start(&self, v: Value, leader: NodeId) -> (r: Result<NetworkMessage, ConfigError>)
        ensures
            leader < self.num_nodes() ==> r == Ok::<NetworkMessage, ConfigError>(
                NetworkMessage {
                    from: NETWORK_ID,
                    to: leader,
                    msg: Message::Broadcast(BroadcastMessage::Leader(v)),
                },
            ),
            leader >= self.num_nodes() ==> r == Err::<NetworkMessage, ConfigError>(
                ConfigError::UnknownLeader,
            ),
    {
        if leader < self.num_nodes {
            Ok(NetworkMessage::new(NETWORK_ID, leader, Message::Broadcast(BroadcastMessage::Leader(v))))
        } else {
            Err(ConfigError::UnknownLeader)
        }
    }

    /// Decides what to do with `msg`, taken from the network's inbox.
    pub fn on_message(&mut self, msg: NetworkMessage) -> (r: RelayAction)
        requires
            old(self).wf(),
            !old(self).finished(),
        ensures
            final(self).wf(),
            final(self).num_nodes() == old(self).num_nodes(),
            final(self).num_good() == old(self).num_good(),
            match msg.msg {
                Message::End(v) => if msg.from < old(self).num_nodes() && old(self).live()[msg.from as int] {
                    &&& final(self).live() == old(self).live().update(msg.from as int, false)
                    &&& final(self).results() == old(self).results().insert(msg.from, v)
                    &&& if msg.from < old(self).num_good() && live_count(old(self).live(), old(self).num_good() as int) == 1 {
                        &&& final(self).finished()
                        &&& r matches RelayAction::Finish(p, orders) && p == msg.from
                            && orders@ == stop_orders(final(self).live(), final(self).num_nodes() as int)
                    } else {
                        &&& !final(self).finished()
                        &&& r == RelayAction::Join(msg.from)
                    }
                } else {
                    &&& *final(self) == *old(self)
                    &&& r == RelayAction::Drop(msg)
                },
                Message::Broadcast(_) => {
                    &&& *final(self) == *old(self)
                    &&& if msg.to < old(self).num_nodes() && old(self).live()[msg.to as int] {
                        r == RelayAction::Forward(msg)
                    } else {
                        r == RelayAction::Drop(msg)
                    }
                },
            },
    {
        match msg.msg {
            Message::End(v) => {
                let p = msg.from;
                if p < self.num_nodes && self.live[p] {
                    proof {
                        lemma_live_count_stop(self.live@, self.num_good as int, p as int);
                    }
                    self.live.set(p, false);
                    self.results.insert(p, v);
                    if p < self.num_good {
                        self.good_running = self.good_running - 1;
                        if self.good_running == 0 {
                            self.finished = true;
                            let orders = self.stop_running();
                            return RelayAction::Finish(p, orders);
                        }
                    }
                    RelayAction::Join(p)
                } else {
                    RelayAction::Drop(msg)
                }
            },
            Message::Broadcast(_) => {
                if msg.to < self.num_nodes && self.live[msg.to] {
                    RelayAction::Forward(msg)
                } else {
                    RelayAction::Drop(msg)
                }
            },
        }
    }

    /// Whether the broadcast of `v` from `leader` succeeded: every honest
    /// participant delivered, all the same value, and that value is `v` when
    /// the leader is honest.
    pub fn succeeded(&self, v: Value, leader: NodeId) -> (r: bool)
        requires
            self.wf(),
        ensures
            r == run_succeeded(self.results(), self.num_good(), leader, v),
    {
        if self.num_good == 0 {
            return true;
        }
        let first = match self.results.get(&0) {
            Some(x) => *x,
            None => {
                assert(!self.results@.contains_key(0));
                return false;
            },
        };
        let mut p: usize = 1;
        while p < self.num_good
            invariant
                1 <= p <= self.num_good,
                self.wf(),
                self.results@.contains_key(0) && self.results@[0] == first,
                forall|q: NodeId| q < p ==> #[trigger] self.results@.contains_key(q)
                    && self.results@[q] == first,
            decreases self.num_good - p,
        {
            match self.results.get(&p) {
                Some(x) => {
                    assert(self.results@.contains_key(p) && self.results@[p] == *x);
                    if *x != first {
                        return false;
                    }
                    assert forall|q: NodeId| q < p + 1 implies #[trigger] self.results@.contains_key(q)
                        && self.results@[q] == first by {
                        if q < p {
                        } else {
                            assert(q == p);
                        }
                    }
                },
                None => {
                    assert(!self.results@.contains_key(p));
                    return false;
                },
            }
            p += 1;
        }
        proof {
            assert forall|q: NodeId, q2: NodeId| q < self.num_good && q2 < self.num_good implies #[trigger] self.results@[q]
                == #[trigger] self.results@[q2] by {
                assert(self.results@.contains_key(q));
                assert(self.results@.contains_key(q2));
            }
        }
        leader >= self.num_good || first == v
    }

    /// The value each stopped participant delivered.
    pub fn into_results(self) -> (r: HashMap<NodeId, Value>)
        ensures
            r@ == self.results(),
    {
        self.results
    }

    /// The orders to stop for every participant still running.
    fn stop_running(&self) -> (r: Vec<NetworkMessage>)
        requires
            self.live@.len() == self.num_nodes,
        ensures
            r@ == stop_orders(self.live@, self.num_nodes as int),
    {
        let mut r: Vec<NetworkMessage> = Vec::new();
        let mut p: usize = 0;
        while p < self.num_nodes
            invariant
                p <= self.num_nodes,
                self.live@.len() == self.num_nodes,
                r@ == stop_orders(self.live@, p as int),
            decreases self.num_nodes - p,
        {
            if self.live[p] {
                r.push(NetworkMessage::new(NETWORK_ID, p, Message::End(0)));
            }
            p += 1;
        }
        r
    }
}

/// Every participant below `k` runs.
proof fn lemma_live_count_all(live: Seq<bool>, k: int)
    requires
        0 <= k <= live.len(),
        forall|i: int| 0 <= i < live.len() ==> live[i],
    ensures
        live_count(live, k) == k,
    decreases k,
{
    if k > 0 {
        lemma_live_count_all(live, k - 1);
    }
}

} // verus!
