//! The recomputation trigger: a two-state machine (idle or pending) that
//! coalesces topology-change notifications within a simulation tick and
//! runs Flow Assignment at most once per tick, over the operating
//! constructions of the current snapshot, writing the result back onto
//! each connection's flow value (zero where the mapping holds no entry).

use vstd::prelude::*;
use crate::construction::{Construction, ConstructionStatus};
use crate::connection::Connection;
use crate::game_configuration::GameConfiguration;
use crate::graph::{has_node, unique_ids};
use crate::energy_flow::assign_energy_flows;
use crate::flow_model::{
    flows_spec, lemma_total_input_nonneg, lemma_total_output_nonneg, total_energy_input,
    total_energy_output,
};

verus! {

/// The operating constructions of a snapshot, in order.
pub open spec fn operating(nodes: Seq<(u64, Construction)>) -> Seq<(u64, Construction)>
    decreases nodes.len(),
{
    if nodes.len() == 0 {
        Seq::empty()
    } else if nodes.last().1.status == ConstructionStatus::Operating {
        operating(nodes.drop_last()).push(nodes.last())
    } else {
        operating(nodes.drop_last())
    }
}

/// An id present among the operating constructions is present in the
/// snapshot.
pub proof fn lemma_operating_ids(nodes: Seq<(u64, Construction)>, id: u64)
    requires
        has_node(operating(nodes), id),
    ensures
        has_node(nodes, id),
    decreases nodes.len(),
{
    if nodes.len() > 0 {
        let dl = nodes.drop_last();
        if nodes.last().1.status == ConstructionStatus::Operating && operating(nodes)[operating(
            nodes,
        ).len() - 1].0 == id {
            assert(nodes[nodes.len() - 1].0 == id);
        } else {
            let i = choose|i: int|
                0 <= i < operating(nodes).len() && #[trigger] operating(nodes)[i].0 == id;
            if nodes.last().1.status == ConstructionStatus::Operating {
                assert(operating(dl)[i].0 == id);
            }
            lemma_operating_ids(dl, id);
            let k = choose|k: int| 0 <= k < dl.len() && #[trigger] dl[k].0 == id;
            assert(nodes[k].0 == id);
        }
    }
}

/// Filtering to the operating constructions keeps ids unique.
pub proof fn lemma_operating_unique(nodes: Seq<(u64, Construction)>)
    requires
        unique_ids(nodes),
    ensures
        unique_ids(operating(nodes)),
    decreases nodes.len(),
{
    if nodes.len() > 0 {
        let dl = nodes.drop_last();
        assert(unique_ids(dl)) by {
            assert(forall|i: int| 0 <= i < dl.len() ==> dl[i] == nodes[i]);
        }
        lemma_operating_unique(dl);
        if nodes.last().1.status == ConstructionStatus::Operating {
            let ops = operating(nodes);
            assert forall|i: int, j: int|
                0 <= i < j < ops.len() implies (#[trigger] ops[i]).0 != (#[trigger] ops[j]).0 by {
                if j == ops.len() - 1 {
                    if ops[i].0 == nodes.last().0 {
                        assert(operating(dl)[i].0 == nodes.last().0);
                        assert(has_node(operating(dl), nodes.last().0));
                        lemma_operating_ids(dl, nodes.last().0);
                        let k = choose|k: int|
                            0 <= k < dl.len() && #[trigger] dl[k].0 == nodes.last().0;
                        assert(nodes[k].0 == nodes[nodes.len() - 1].0);
                    }
                } else {
                    assert(ops[i] == operating(dl)[i] && ops[j] == operating(dl)[j]);
                }
            }
        }
    }
}

/// The operating constructions account for at most the whole
/// availability.
pub proof fn lemma_operating_output_le(cfg: GameConfiguration, nodes: Seq<(u64, Construction)>)
    ensures
        total_energy_output(cfg, operating(nodes)) <= total_energy_output(cfg, nodes),
    decreases nodes.len(),
{
    if nodes.len() > 0 {
        let dl = nodes.drop_last();
        lemma_operating_output_le(cfg, dl);
        if nodes.last().1.status == ConstructionStatus::Operating {
            assert(operating(nodes).drop_last() =~= operating(dl));
        }
    }
}

/// The operating constructions account for at most the whole demand.
pub proof fn lemma_operating_input_le(cfg: GameConfiguration, nodes: Seq<(u64, Construction)>)
    ensures
        total_energy_input(cfg, operating(nodes)) <= total_energy_input(cfg, nodes),
    decreases nodes.len(),
{
    if nodes.len() > 0 {
        let dl = nodes.drop_last();
        lemma_operating_input_le(cfg, dl);
        if nodes.last().1.status == ConstructionStatus::Operating {
            assert(operating(nodes).drop_last() =~= operating(dl));
        }
    }
}

/// The two states of the trigger: no recomputation owed, or one owed
/// this tick.
#[derive(Clone, Copy, Debug, PartialEq, Eq, Structural)]
pub enum TriggerState {
    Idle,
    Pending,
}

/// Coalesces topology-change notifications: however many changes a tick
/// observes, at most one recomputation runs at its end.
#[derive(Clone, Copy, Debug, PartialEq, Eq, Structural)]
pub struct RecomputeTrigger {
    pub state: TriggerState,
}

impl RecomputeTrigger {
    /// A fresh trigger owes no recomputation.
    pub fn new() -> (t: RecomputeTrigger)
        ensures
            t.state == TriggerState::Idle,
    {
        RecomputeTrigger { state: TriggerState::Idle }
    }

    /// A construction or connection was added, changed or removed this
    /// tick: one recomputation becomes owed; repeated observations
    /// coalesce.
    pub fn observe_change(&mut self)
        ensures
            final (self).state == TriggerState::Pending,
    {
        self.state = TriggerState::Pending;
    }

    /// Whether a recomputation is owed.
    pub fn is_pending(&self) -> (b: bool)
        ensures
            b == (self.state == TriggerState::Pending),
    {
        match self.state {
            TriggerState::Pending => true,
            TriggerState::Idle => false,
        }
    }

    /// Runs once per tick. When a recomputation is owed, assigns energy
    /// flows over the operating constructions of the current snapshot and
    /// writes each connection's flow value back (zero where the mapping
    /// holds no entry), draining the owed request; endpoints are left
    /// untouched. When none is owed, nothing is recomputed and the
    /// connections stay as they are.
    #[verifier::loop_isolation(false)]
    pub fn run_tick(
        &mut self,
        cfg: &GameConfiguration,
        nodes: &Vec<(u64, Construction)>,
        connections: &mut Vec<Connection>,
    ) -> (ran: bool)
        requires
            unique_ids(nodes@),
            total_energy_output(*cfg, nodes@) <= 0xffff_ffff,
            total_energy_input(*cfg, nodes@) <= 0xffff_ffff,
        ensures
            ran == (old(self).state == TriggerState::Pending),
            final (self).state == TriggerState::Idle,
            !ran ==> final (connections)@ == old(connections)@,
            ran ==> ({
                let m = flows_spec(*cfg, operating(nodes@), old(connections)@);
                &&& final (connections)@.len() == old(connections)@.len()
                &&& forall|k: int|
                    0 <= k < old(connections)@.len() ==> {
                        let key = (#[trigger] old(connections)@[k]).spec_between();
                        &&& final (connections)@[k].spec_between() == key
                        &&& final (connections)@[k].spec_energy_flow() as int == if m.contains_key(
                            key,
                        ) {
                            m[key]
                        } else {
                            0int
                        }
                    }
            }),
    {
        let pending = self.is_pending();
        if !pending {
            return false;
        }
        self.state = TriggerState::Idle;
        let n = nodes.len();
        let mut ops: Vec<(u64, Construction)> = Vec::new();
        proof {
            assert(nodes@.take(0) =~= Seq::<(u64, Construction)>::empty());
        }
        for i in 0..n
            invariant
                ops@ == operating(nodes@.take(i as int)),
        {
            let (id, c) = nodes[i];
            proof {
                assert(nodes@.take(i as int + 1).drop_last() =~= nodes@.take(i as int));
                assert(nodes@.take(i as int + 1).last() == nodes@[i as int]);
            }
            match c.status {
                ConstructionStatus::Operating => {
                    ops.push((id, c));
                },
                ConstructionStatus::Hovering => {},
            }
        }
        proof {
            assert(nodes@.take(n as int) =~= nodes@);
            lemma_operating_unique(nodes@);
            lemma_operating_output_le(*cfg, nodes@);
            lemma_operating_input_le(*cfg, nodes@);
            lemma_total_output_nonneg(*cfg, operating(nodes@));
            lemma_total_input_nonneg(*cfg, operating(nodes@));
        }
        let flows = assign_energy_flows(cfg, &ops, connections);
        let ghost before = connections@;
        let m = connections.len();
        for k in 0..m
            invariant
                connections@.len() == before.len(),
                forall|q: int| k <= q < before.len() ==> connections@[q] == before[q],
                forall|q: int|
                    0 <= q < k ==> {
                        let key = (#[trigger] before[q]).spec_between();
                        &&& connections@[q].spec_between() == key
                        &&& connections@[q].spec_energy_flow() as int == if flows@.contains_key(
                            key,
                        ) {
                            flows@[key]
                        } else {
                            0int
                        }
                    },
        {
            let pair = *connections[k].between();
            let v = flows.flow_or_zero(pair.0, pair.1);
            let mut cc = connections[k];
            cc.set_energy_flow(v);
            connections[k] = cc;
        }
        true
    }
}

} // verus!
