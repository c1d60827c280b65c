use vstd::prelude::*;

use crate::network::{envelopes, fan_out, Message, NetworkMessage, NodeId, Value, NETWORK_ID};
use crate::protocols::bracha_broadcast::{
    bracha_step, handle_broadcast, initial_view, is_corrupt_message, random_broadcast, step_report,
    BroadcastMessage, BroadcastState,
};

verus! {

/// How a participant behaves.
#[derive(Clone, Copy, Debug, PartialEq, Eq, Structural)]
pub enum Behaviour {
    /// Follows the protocol.
    Good,
    /// Follows the protocol for the first `k` envelopes it receives, then
    /// ignores all traffic.
    Faulty(usize),
    /// Answers every protocol message with a corrupt message to all peers.
    Malicious,
}

/// What a participant does after handling an envelope.
#[derive(Clone, Copy, Debug, PartialEq, Eq, Structural)]
pub enum ProtocolState {
    /// Keep receiving.
    InProcess,
    /// The participant delivered this value and stops.
    Terminated(Value),
    /// The network asked the participant to stop.
    Interrupted,
}

/// Whether a participant of behaviour `b` applies the protocol to the
/// `num_msg`-th envelope it receives (counting from one).
pub open spec fn runs_protocol(b: Behaviour, num_msg: nat) -> bool {
    match b {
        Behaviour::Good => true,
        Behaviour::Faulty(k) => num_msg <= k,
        Behaviour::Malicious => false,
    }
}

/// What a participant computes with: its place in the network and its
/// protocol state.
pub struct NodeInternals {
    pub id: NodeId,
    pub behaviour: Behaviour,
    pub num_nodes: usize,
    pub max_faulty_nodes: usize,
    pub min_honest_nodes: usize,
    pub neighbour_nodes: Vec<NodeId>,
    pub bc_state: BroadcastState,
}

impl NodeInternals {
    pub open spec fn wf(&self) -> bool {
        &&& self.num_nodes == self.neighbour_nodes.len() + 1
        &&& self.max_faulty_nodes == self.num_nodes / 3
        &&& self.min_honest_nodes == self.num_nodes - self.max_faulty_nodes
        &&& self.bc_state.wf()
        &&& self.behaviour is Malicious ==> self.bc_state@ == initial_view()
    }

    /// Everything but the protocol state is the same in `self` and `o`.
    pub open spec fn same_setup(&self, o: &Self) -> bool {
        &&& self.id == o.id
        &&& self.behaviour == o.behaviour
        &&& self.num_nodes == o.num_nodes
        &&& self.max_faulty_nodes == o.max_faulty_nodes
        &&& self.min_honest_nodes == o.min_honest_nodes
        &&& self.neighbour_nodes@ == o.neighbour_nodes@
    }

    /// A participant `id` with the given peers, before any message.
    pub fn new(id: NodeId, behaviour: Behaviour, neighbour_nodes: Vec<NodeId>) -> (r: Self)
        requires
            neighbour_nodes.len() < usize::MAX,
        ensures
            r.wf(),
            r.id == id,
            r.behaviour == behaviour,
            r.neighbour_nodes@ == neighbour_nodes@,
            r.bc_state@ == initial_view(),
    {
        let num_nodes = neighbour_nodes.len() + 1;
        let max_faulty_nodes = num_nodes / 3;
        let min_honest_nodes = num_nodes - max_faulty_nodes;
        NodeInternals {
            id,
            behaviour,
            num_nodes,
            max_faulty_nodes,
            min_honest_nodes,
            neighbour_nodes,
            bc_state: BroadcastState::new(),
        }
    }

    /// Appends to `outbox` one envelope carrying `msg` to each peer.
    pub fn send_to_all(&self, msg: Message, outbox: &mut Vec<NetworkMessage>)
        ensures
            final(outbox)@ == old(outbox)@ + self.neighbour_nodes@.map_values(
                |p: NodeId| NetworkMessage { from: self.id, to: p, msg },
            ),
    {
        let ghost start = outbox@;
        let mut i: usize = 0;
        while i < self.neighbour_nodes.len()
            invariant
                i <= self.neighbour_nodes.len(),
                outbox@ == start + self.neighbour_nodes@.take(i as int).map_values(
                    |p: NodeId| NetworkMessage { from: self.id, to: p, msg },
                ),
            decreases self.neighbour_nodes.len() - i,
        {
            outbox.push(NetworkMessage::new(self.id, self.neighbour_nodes[i], msg));
            proof {
                assert(self.neighbour_nodes@.take(i + 1) =~= self.neighbour_nodes@.take(
                    i as int,
                ).push(self.neighbour_nodes@[i as int]));
            }
            i += 1;
            proof {
                assert(outbox@ =~= start + self.neighbour_nodes@.take(i as int).map_values(
                    |p: NodeId| NetworkMessage { from: self.id, to: p, msg },
                ));
            }
        }
        proof {
            assert(self.neighbour_nodes@.take(i as int) =~= self.neighbour_nodes@);
        }
    }

    /// Appends to `outbox` the envelopes that send `msg`: a protocol message
    /// to every peer, an `End` to the network.
    pub fn send(&self, msg: Message, outbox: &mut Vec<NetworkMessage>)
        ensures
            final(outbox)@ == old(outbox)@ + envelopes(self.id, self.neighbour_nodes@, msg),
    {
        match msg {
            Message::End(_) => {
                outbox.push(NetworkMessage::new(self.id, NETWORK_ID, msg));
                assert(outbox@ =~= old(outbox)@ + envelopes(self.id, self.neighbour_nodes@, msg));
            },
            Message::Broadcast(_) => self.send_to_all(msg, outbox),
        }
    }

    /// Handles the `num_msg`-th envelope that this participant receives
    /// (counting from one) according to its behaviour, and appends what it
    /// sends to `outbox`.
    pub fn handle_msg(&mut self, msg: NetworkMessage, num_msg: usize, outbox: &mut Vec<NetworkMessage>) -> (r:
        ProtocolState)
        requires
            old(self).wf(),
        ensures
            final(self).wf(),
            final(self).same_setup(old(self)),
            match msg.msg {
                // an order to stop: nothing changes, nothing is sent
                Message::End(_) => {
                    &&& r == ProtocolState::Interrupted
                    &&& final(self).bc_state@ == old(self).bc_state@
                    &&& final(outbox)@ == old(outbox)@
                },
                Message::Broadcast(m) => if runs_protocol(old(self).behaviour, num_msg as nat) {
                    let step = bracha_step(old(self).bc_state@, old(self).num_nodes as nat, msg.from, m);
                    &&& final(self).bc_state@ == step.0
                    &&& final(outbox)@ == old(outbox)@ + fan_out(old(self).id, old(self).neighbour_nodes@, step.1)
                    &&& r == step_report(old(self).bc_state@, step.0)
                } else if old(self).behaviour is Malicious {
                    &&& r == ProtocolState::InProcess
                    &&& final(self).bc_state@ == old(self).bc_state@
                    &&& exists|c: BroadcastMessage| is_corrupt_message(c) && final(outbox)@ == old(outbox)@
                        + envelopes(old(self).id, old(self).neighbour_nodes@, Message::Broadcast(c))
                } else {
                    // a faulty participant past its last message ignores it
                    &&& r == ProtocolState::InProcess
                    &&& final(self).bc_state@ == old(self).bc_state@
                    &&& final(outbox)@ == old(outbox)@
                },
            },
            // the latches only rise
            old(self).bc_state@.echo_sent ==> final(self).bc_state@.echo_sent,
            old(self).bc_state@.ready_sent ==> final(self).bc_state@.ready_sent,
            // after delivery nothing changes and nothing is sent
            old(self).bc_state@.delivered is Some ==> {
                &&& final(self).bc_state@ == old(self).bc_state@
                &&& final(outbox)@ == old(outbox)@
            },
    {
        match msg.msg {
            Message::Broadcast(bc_msg) => match self.behaviour {
                Behaviour::Good => handle_broadcast(self, msg.from, bc_msg, outbox),
                Behaviour::Faulty(k) => {
                    if num_msg <= k {
                        handle_broadcast(self, msg.from, bc_msg, outbox)
                    } else {
                        ProtocolState::InProcess
                    }
                },
                Behaviour::Malicious => random_broadcast(self, msg.from, bc_msg, outbox),
            },
            Message::End(_) => ProtocolState::Interrupted,
        }
    }
}

} // verus!
