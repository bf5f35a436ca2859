//! Energy-flow assignment: computes, for every connection of the graph,
//! the signed net energy flow through it, as the model in `flow_model`
//! prescribes. The result is a mapping from canonical endpoint pairs to
//! flows in thousandths of an energy unit; pairs without an entry carry
//! flow zero.

use vstd::prelude::*;
use vstd::arithmetic::div_mod::{lemma_div_is_ordered, lemma_div_multiples_vanish_quotient};
use crate::construction::Construction;
use crate::connection::Connection;
use crate::game_configuration::GameConfiguration;
use crate::graph::{path_spec, pred_iter, unique_ids};
use crate::routing::{
    lemma_paths_upto_entry, lemma_paths_upto_prefix, paths_spec, paths_spec_upto,
    shortest_paths_from, target_at,
};
use crate::flow_model::{
    consumers_sum, crossings, flow_denominator, flow_milli, flows_spec, lemma_consumers_sum_bound,
    lemma_crossings_take_step, lemma_input_term_le_total, lemma_output_term_le_total,
    lemma_producers_sum_bound, lemma_total_input_nonneg,
    lemma_total_input_take_le, lemma_total_input_take_step, lemma_total_output_nonneg,
    lemma_total_output_take_le, lemma_total_output_take_step, lemma_total_output_zero, net_num,
    producers_sum, round_to_milli, total_energy_input, total_energy_output,
};

verus! {

/// The value an accumulator holds on a key; 0 where the key is absent.
pub open spec fn acc_val(acc: Seq<((u64, u64), i128)>, a: u64, b: u64) -> int
    decreases acc.len(),
{
    if acc.len() == 0 {
        0
    } else if acc.last().0 == (a, b) {
        acc.last().1 as int
    } else {
        acc_val(acc.drop_last(), a, b)
    }
}

/// Accumulator well-formedness: canonical keys, no key twice.
pub open spec fn acc_wf(acc: Seq<((u64, u64), i128)>) -> bool {
    &&& forall|k: int| 0 <= k < acc.len() ==> (#[trigger] acc[k]).0.0 < acc[k].0.1
    &&& forall|k1: int, k2: int|
        0 <= k1 < k2 < acc.len() ==> (#[trigger] acc[k1]).0 != (#[trigger] acc[k2]).0
}

/// Where no entry carries the key, the accumulator holds 0 on it.
proof fn lemma_acc_val_no_key(acc: Seq<((u64, u64), i128)>, a: u64, b: u64)
    requires
        forall|k: int| 0 <= k < acc.len() ==> (#[trigger] acc[k]).0 != (a, b),
    ensures
        acc_val(acc, a, b) == 0,
    decreases acc.len(),
{
    if acc.len() > 0 {
        assert(acc.last() == acc[acc.len() - 1]);
        lemma_acc_val_no_key(acc.drop_last(), a, b);
    }
}

/// With unique keys, the entry carrying a key decides the held value.
proof fn lemma_acc_val_at_key(acc: Seq<((u64, u64), i128)>, k: int, a: u64, b: u64)
    requires
        forall|k1: int, k2: int|
            0 <= k1 < k2 < acc.len() ==> (#[trigger] acc[k1]).0 != (#[trigger] acc[k2]).0,
        0 <= k < acc.len(),
        acc[k].0 == (a, b),
    ensures
        acc_val(acc, a, b) == acc[k].1 as int,
    decreases acc.len(),
{
    assert(acc.last() == acc[acc.len() - 1]);
    if k == acc.len() - 1 {
    } else {
        assert(acc[acc.len() - 1].0 != (a, b));
        lemma_acc_val_at_key(acc.drop_last(), k, a, b);
    }
}

/// Pushing a fresh entry changes the held value on its key alone.
proof fn lemma_acc_val_push(acc: Seq<((u64, u64), i128)>, e: ((u64, u64), i128), x: u64, y: u64)
    ensures
        acc_val(acc.push(e), x, y) == if e.0 == (x, y) {
            e.1 as int
        } else {
            acc_val(acc, x, y)
        },
{
    assert(acc.push(e).drop_last() =~= acc);
    assert(acc.push(e).last() == e);
}

/// Rewriting one entry's value changes the held value on its key alone.
proof fn lemma_acc_val_update(acc: Seq<((u64, u64), i128)>, k: int, v: i128, x: u64, y: u64)
    requires
        forall|k1: int, k2: int|
            0 <= k1 < k2 < acc.len() ==> (#[trigger] acc[k1]).0 != (#[trigger] acc[k2]).0,
        0 <= k < acc.len(),
    ensures
        acc_val(acc.update(k, (acc[k].0, v)), x, y) == if acc[k].0 == (x, y) {
            v as int
        } else {
            acc_val(acc, x, y)
        },
    decreases acc.len(),
{
    let upd = acc.update(k, (acc[k].0, v));
    assert(acc.last() == acc[acc.len() - 1]);
    assert(upd.last() == upd[acc.len() - 1]);
    if k == acc.len() - 1 {
        assert(upd.last() == (acc[k].0, v));
        assert(upd.drop_last() =~= acc.drop_last());
        if acc[k].0 != (x, y) {
        }
    } else {
        assert(upd.last() == acc.last());
        assert(upd.drop_last() =~= acc.drop_last().update(k, (acc[k].0, v)));
        assert(acc.drop_last()[k] == acc[k]);
        lemma_acc_val_update(acc.drop_last(), k, v, x, y);
        if acc.last().0 == (x, y) {
            assert(acc[k].0 != (x, y));
        }
    }
}

/// Adds `delta` onto the accumulator's entry for the canonical pair
/// `(a, b)`, creating the entry when absent.
#[verifier::loop_isolation(false)]
fn acc_add(acc: &mut Vec<((u64, u64), i128)>, a: u64, b: u64, delta: i128)
    requires
        a < b,
        acc_wf(old(acc)@),
        i128::MIN <= acc_val(old(acc)@, a, b) + delta <= i128::MAX,
    ensures
        acc_wf(final (acc)@),
        forall|x: u64, y: u64|
            #[trigger] acc_val(final (acc)@, x, y) == acc_val(old(acc)@, x, y) + if (x, y) == (
                a,
                b,
            ) {
                delta as int
            } else {
                0int
            },
{
    let n = acc.len();
    for k in 0..n
        invariant
            n == acc@.len(),
            acc@ == old(acc)@,
            forall|q: int| 0 <= q < k ==> (#[trigger] acc@[q]).0 != (a, b),
    {
        let (key, val) = acc[k];
        if key.0 == a && key.1 == b {
            proof {
                lemma_acc_val_at_key(acc@, k as int, a, b);
            }
            let newval = val + delta;
            acc[k] = (key, newval);
            proof {
                assert(acc@ =~= old(acc)@.update(k as int, (old(acc)@[k as int].0, newval)));
                assert forall|x: u64, y: u64| #[trigger] acc_val(acc@, x, y) == acc_val(
                    old(acc)@,
                    x,
                    y,
                ) + if (x, y) == (a, b) {
                    delta as int
                } else {
                    0int
                } by {
                    lemma_acc_val_update(old(acc)@, k as int, newval, x, y);
                    if (x, y) == (a, b) {
                        lemma_acc_val_at_key(old(acc)@, k as int, x, y);
                    }
                }
            }
            return ;
        }
    }
    proof {
        lemma_acc_val_no_key(acc@, a, b);
    }
    let ghost before = acc@;
    acc.push(((a, b), delta));
    proof {
        assert forall|x: u64, y: u64| #[trigger] acc_val(acc@, x, y) == acc_val(before, x, y) + if (
            x,
            y,
        ) == (a, b) {
            delta as int
        } else {
            0int
        } by {
            lemma_acc_val_push(before, ((a, b), delta), x, y);
            if (x, y) == (a, b) {
                lemma_acc_val_no_key(before, a, b);
            }
        }
        assert forall|k1: int, k2: int|
            0 <= k1 < k2 < acc@.len() implies (#[trigger] acc@[k1]).0 != (
        #[trigger] acc@[k2]).0 by {
            if k2 == acc@.len() - 1 {
                assert(acc@[k1] == before[k1]);
            }
        }
    }
}

/// The mapping a finished entry list stands for.
pub open spec fn map_of(entries: Seq<((u64, u64), i64)>) -> Map<(u64, u64), int>
    decreases entries.len(),
{
    if entries.len() == 0 {
        Map::empty()
    } else {
        map_of(entries.drop_last()).insert(entries.last().0, entries.last().1 as int)
    }
}

/// A key is in the mapping exactly when some entry carries it.
proof fn lemma_map_of_contains(entries: Seq<((u64, u64), i64)>, p: (u64, u64))
    ensures
        map_of(entries).contains_key(p) <==> exists|k: int|
            0 <= k < entries.len() && (#[trigger] entries[k]).0 == p,
    decreases entries.len(),
{
    if entries.len() > 0 {
        assert(entries.last() == entries[entries.len() - 1]);
        lemma_map_of_contains(entries.drop_last(), p);
        if map_of(entries).contains_key(p) {
            if entries.last().0 != p {
                let k = choose|k: int|
                    0 <= k < entries.drop_last().len() && (#[trigger] entries.drop_last()[k]).0
                        == p;
                assert(entries[k].0 == p);
            }
        }
        if exists|k: int| 0 <= k < entries.len() && (#[trigger] entries[k]).0 == p {
            let k = choose|k: int| 0 <= k < entries.len() && (#[trigger] entries[k]).0 == p;
            if k < entries.len() - 1 {
                assert(entries.drop_last()[k].0 == p);
            }
        }
    }
}

/// With unique keys, the entry carrying a key decides its mapped value.
proof fn lemma_map_of_value(entries: Seq<((u64, u64), i64)>, k: int)
    requires
        forall|k1: int, k2: int|
            0 <= k1 < k2 < entries.len() ==> (#[trigger] entries[k1]).0 != (
            #[trigger] entries[k2]).0,
        0 <= k < entries.len(),
    ensures
        map_of(entries).contains_key(entries[k].0),
        map_of(entries)[entries[k].0] == entries[k].1 as int,
    decreases entries.len(),
{
    assert(entries.last() == entries[entries.len() - 1]);
    if k < entries.len() - 1 {
        assert(entries[entries.len() - 1].0 != entries[k].0);
        assert(entries.drop_last()[k] == entries[k]);
        lemma_map_of_value(entries.drop_last(), k);
    }
}

/// With unique keys, the mapping has exactly one member per entry.
proof fn lemma_map_of_dom_len(entries: Seq<((u64, u64), i64)>)
    requires
        forall|k1: int, k2: int|
            0 <= k1 < k2 < entries.len() ==> (#[trigger] entries[k1]).0 != (
            #[trigger] entries[k2]).0,
    ensures
        map_of(entries).dom().finite(),
        map_of(entries).dom().len() == entries.len(),
    decreases entries.len(),
{
    if entries.len() > 0 {
        assert(entries.last() == entries[entries.len() - 1]);
        lemma_map_of_dom_len(entries.drop_last());
        lemma_map_of_contains(entries.drop_last(), entries.last().0);
        assert(forall|k: int|
            0 <= k < entries.drop_last().len() ==> (#[trigger] entries.drop_last()[k]).0 != entries.last().0);
        assert(!map_of(entries.drop_last()).contains_key(entries.last().0));
        assert(map_of(entries).dom() =~= map_of(entries.drop_last()).dom().insert(
            entries.last().0,
        ));
    } else {
        assert(map_of(entries).dom() =~= Set::<(u64, u64)>::empty());
    }
}

/// The computed energy-flow mapping: canonical endpoint pairs to signed
/// flows in thousandths of an energy unit. Only pairs with a flow that
/// does not round to zero carry an entry; absent pairs stand for zero.
#[derive(Debug)]
pub struct FlowMap {
    entries: Vec<((u64, u64), i64)>,
}

impl View for FlowMap {
    type V = Map<(u64, u64), int>;

    closed spec fn view(&self) -> Map<(u64, u64), int> {
        map_of(self.entries@)
    }
}

impl FlowMap {
    /// Canonical keys, no key twice, no zero flows stored.
    #[verifier::type_invariant]
    closed spec fn wf(&self) -> bool {
        &&& forall|k: int|
            0 <= k < self.entries@.len() ==> (#[trigger] self.entries@[k]).0.0
                < self.entries@[k].0.1
        &&& forall|k1: int, k2: int|
            0 <= k1 < k2 < self.entries@.len() ==> (#[trigger] self.entries@[k1]).0 != (
            #[trigger] self.entries@[k2]).0
        &&& forall|k: int| 0 <= k < self.entries@.len() ==> (#[trigger] self.entries@[k]).1 != 0
    }

    /// How many pairs carry a flow entry.
    pub fn len(&self) -> (n: usize)
        ensures
            self@.dom().finite(),
            n == self@.dom().len(),
    {
        proof {
            use_type_invariant(self);
            lemma_map_of_dom_len(self.entries@);
        }
        self.entries.len()
    }

    /// The flow entry on the pair `(a, b)`, if it carries one. The pair
    /// is looked up as given: canonical pairs are the keys.
    #[verifier::loop_isolation(false)]
    pub fn get(&self, a: u64, b: u64) -> (r: Option<i64>)
        ensures
            match r {
                Some(v) => self@.contains_key((a, b)) && self@[(a, b)] == v as int,
                None => !self@.contains_key((a, b)),
            },
    {
        proof {
            use_type_invariant(self);
        }
        let n = self.entries.len();
        for k in 0..n
            invariant
                n == self.entries@.len(),
                self.wf(),
                forall|q: int| 0 <= q < k ==> (#[trigger] self.entries@[q]).0 != (a, b),
        {
            let (key, val) = self.entries[k];
            if key.0 == a && key.1 == b {
                proof {
                    lemma_map_of_value(self.entries@, k as int);
                }
                return Some(val);
            }
        }
        proof {
            lemma_map_of_contains(self.entries@, (a, b));
        }
        None
    }

    /// The flow on the pair `(a, b)`: the entry's value, or zero where
    /// no entry stands.
    pub fn flow_or_zero(&self, a: u64, b: u64) -> (v: i64)
        ensures
            v as int == if self@.contains_key((a, b)) {
                self@[(a, b)]
            } else {
                0int
            },
    {
        match self.get(a, b) {
            Some(v) => v,
            None => 0,
        }
    }
}

/// Total energy availability of the supplied nodes.
#[verifier::loop_isolation(false)]
fn total_output_exec(cfg: &GameConfiguration, nodes: &Vec<(u64, Construction)>) -> (r: u64)
    requires
        total_energy_output(*cfg, nodes@) <= 0xffff_ffff,
    ensures
        r as int == total_energy_output(*cfg, nodes@),
{
    let n = nodes.len();
    let mut acc: u64 = 0;
    proof {
        assert(nodes@.take(0) =~= Seq::<(u64, Construction)>::empty());
    }
    for i in 0..n
        invariant
            acc as int == total_energy_output(*cfg, nodes@.take(i as int)),
    {
        proof {
            lemma_total_output_take_step(*cfg, nodes@, i as int);
            lemma_total_output_take_le(*cfg, nodes@, i as int + 1);
        }
        acc = acc + cfg.energy_output(&nodes[i].1.kind);
    }
    proof {
        assert(nodes@.take(n as int) =~= nodes@);
    }
    acc
}

/// Total energy demand of the supplied nodes.
#[verifier::loop_isolation(false)]
fn total_input_exec(cfg: &GameConfiguration, nodes: &Vec<(u64, Construction)>) -> (r: u64)
    requires
        total_energy_input(*cfg, nodes@) <= 0xffff_ffff,
    ensures
        r as int == total_energy_input(*cfg, nodes@),
{
    let n = nodes.len();
    let mut acc: u64 = 0;
    proof {
        assert(nodes@.take(0) =~= Seq::<(u64, Construction)>::empty());
    }
    for i in 0..n
        invariant
            acc as int == total_energy_input(*cfg, nodes@.take(i as int)),
    {
        proof {
            lemma_total_input_take_step(*cfg, nodes@, i as int);
            lemma_total_input_take_le(*cfg, nodes@, i as int + 1);
        }
        acc = acc + cfg.energy_input(&nodes[i].1.kind);
    }
    proof {
        assert(nodes@.take(n as int) =~= nodes@);
    }
    acc
}

/// For a magnitude of at most `0xffff_ffff * m`, the rounded quotient in
/// thousandths is at most `0xffff_ffff * 1000`.
proof fn lemma_round_quotient_bound(x: int, m: int)
    requires
        1 <= m,
        0 <= x <= 0xffff_ffff * m,
    ensures
        0 <= (x * 2000 + m) / (2 * m) <= 0xffff_ffff * 1000,
{
    let c = 0xffff_ffffint;
    assert(x * 2000 + m <= c * m * 2000 + m) by (nonlinear_arith)
        requires
            x <= c * m,
    ;
    assert(c * m * 2000 + m == m * (2000 * c + 1)) by (nonlinear_arith);
    vstd::arithmetic::div_mod::lemma_div_pos_is_pos(x * 2000 + m, 2 * m);
    lemma_div_is_ordered(x * 2000 + m, m * (2000 * c + 1), 2 * m);
    lemma_div_multiples_vanish_quotient(m, 2000 * c + 1, 2);
    assert(m * 2 == 2 * m);
    assert((2000 * c + 1) / 2 == 1000 * c);
}

/// The rounding of a zero numerator is zero.
proof fn lemma_round_zero(m: int)
    requires
        1 <= m,
    ensures
        round_to_milli(0, m) == 0,
{
    vstd::arithmetic::div_mod::lemma_basic_div(m, 2 * m);
}

/// Rounds every accumulated numerator to thousandths over the common
/// denominator `m` and keeps exactly the entries that do not round to
/// zero.
#[verifier::loop_isolation(false)]
fn normalize_energy_flows(acc: &Vec<((u64, u64), i128)>, m: u64) -> (fm: FlowMap)
    requires
        acc_wf(acc@),
        1 <= m <= 0xffff_ffff,
        forall|x: u64, y: u64|
            -(0xffff_ffff * (m as int)) <= #[trigger] acc_val(acc@, x, y) <= 0xffff_ffff * (
            m as int),
    ensures
        fm@ == Map::<(u64, u64), int>::new(
            |p: (u64, u64)| p.0 < p.1 && round_to_milli(acc_val(acc@, p.0, p.1), m as int) != 0,
            |p: (u64, u64)| round_to_milli(acc_val(acc@, p.0, p.1), m as int),
        ),
{
    let n = acc.len();
    let mut out: Vec<((u64, u64), i64)> = Vec::new();
    for k in 0..n
        invariant
            forall|q: int| 0 <= q < out@.len() ==> (#[trigger] out@[q]).0.0 < out@[q].0.1,
            forall|q: int| 0 <= q < out@.len() ==> (#[trigger] out@[q]).1 != 0,
            forall|q: int|
                0 <= q < out@.len() ==> exists|e: int|
                    0 <= e < k && (#[trigger] out@[q]).0 == acc@[e].0 && out@[q].1 as int
                        == round_to_milli(acc@[e].1 as int, m as int),
            forall|q1: int, q2: int|
                0 <= q1 < q2 < out@.len() ==> (#[trigger] out@[q1]).0 != (#[trigger] out@[q2]).0,
            forall|e: int|
                0 <= e < k && round_to_milli((#[trigger] acc@[e]).1 as int, m as int) != 0
                    ==> exists|q: int| 0 <= q < out@.len() && (#[trigger] out@[q]).0 == acc@[e].0,
    {
        let (key, num) = acc[k];
        proof {
            lemma_acc_val_at_key(acc@, k as int, key.0, key.1);
        }
        let r = round_milli(num, m);
        if r != 0 {
            let ghost out_old = out@;
            out.push((key, r));
            proof {
                assert forall|q1: int, q2: int|
                    0 <= q1 < q2 < out@.len() implies (#[trigger] out@[q1]).0 != (
                #[trigger] out@[q2]).0 by {
                    if q2 == out@.len() - 1 {
                        let e = choose|e: int|
                            0 <= e < k && (#[trigger] out_old[q1]).0 == acc@[e].0 && out_old[q1].1
                                as int == round_to_milli(acc@[e].1 as int, m as int);
                        assert(acc@[e].0 != acc@[k as int].0);
                    }
                }
                assert forall|e: int|
                    0 <= e < k + 1 && round_to_milli((#[trigger] acc@[e]).1 as int, m as int) != 0
                        implies exists|q: int|
                    0 <= q < out@.len() && (#[trigger] out@[q]).0 == acc@[e].0 by {
                    if e < k {
                        let q = choose|q: int|
                            0 <= q < out_old.len() && (#[trigger] out_old[q]).0 == acc@[e].0;
                        assert(out@[q].0 == acc@[e].0);
                    } else {
                        assert(out@[out@.len() - 1].0 == acc@[e].0);
                    }
                }
            }
        } else {
            proof {
                assert forall|e: int|
                    0 <= e < k + 1 && round_to_milli((#[trigger] acc@[e]).1 as int, m as int) != 0
                        implies exists|q: int|
                    0 <= q < out@.len() && (#[trigger] out@[q]).0 == acc@[e].0 by {
                    assert(e < k);
                }
            }
        }
    }
    let fm = FlowMap { entries: out };
    proof {
        let target = Map::<(u64, u64), int>::new(
            |p: (u64, u64)| p.0 < p.1 && round_to_milli(acc_val(acc@, p.0, p.1), m as int) != 0,
            |p: (u64, u64)| round_to_milli(acc_val(acc@, p.0, p.1), m as int),
        );
        assert forall|p: (u64, u64)| #[trigger]
            map_of(out@).contains_key(p) == target.contains_key(p) && (map_of(
            out@,
        ).contains_key(p) ==> map_of(out@)[p] == target[p]) by {
            lemma_map_of_contains(out@, p);
            if map_of(out@).contains_key(p) {
                let q = choose|q: int| 0 <= q < out@.len() && (#[trigger] out@[q]).0 == p;
                let e = choose|e: int|
                    0 <= e < n && (#[trigger] out@[q]).0 == acc@[e].0 && out@[q].1 as int
                        == round_to_milli(acc@[e].1 as int, m as int);
                lemma_acc_val_at_key(acc@, e, p.0, p.1);
                lemma_map_of_value(out@, q);
                assert(target.contains_key(p));
                assert(map_of(out@)[p] == target[p]);
            } else {
                if p.0 < p.1 && round_to_milli(acc_val(acc@, p.0, p.1), m as int) != 0 {
                    lemma_round_zero(m as int);
                    assert(acc_val(acc@, p.0, p.1) != 0);
                    assert(exists|e: int| 0 <= e < acc@.len() && (#[trigger] acc@[e]).0 == p) by {
                        if forall|e: int| 0 <= e < acc@.len() ==> (#[trigger] acc@[e]).0 != p {
                            lemma_acc_val_no_key(acc@, p.0, p.1);
                        }
                    }
                    let e = choose|e: int| 0 <= e < acc@.len() && (#[trigger] acc@[e]).0 == p;
                    lemma_acc_val_at_key(acc@, e, p.0, p.1);
                    assert(round_to_milli(acc@[e].1 as int, m as int) != 0);
                    assert(false);
                }
                assert(!target.contains_key(p));
            }
        }
        assert(fm@ =~= target);
    }
    fm
}

/// `num / m` in thousandths, rounded half away from zero, as the model's
/// `round_to_milli` prescribes.
fn round_milli(num: i128, m: u64) -> (r: i64)
    requires
        1 <= m <= 0xffff_ffff,
        -(0xffff_ffff * (m as int)) <= num as int <= 0xffff_ffff * (m as int),
    ensures
        r as int == round_to_milli(num as int, m as int),
        -(0xffff_ffff * 1000) <= r as int <= 0xffff_ffff * 1000,
{
    let mm: u128 = m as u128;
    proof {
        assert((0xffff_ffffint) * (m as int) <= 0xffff_ffffi128 * 0xffff_ffffi128)
            by (nonlinear_arith)
            requires
                1 <= m <= 0xffff_ffff,
        ;
    }
    if num >= 0 {
        let q: u128 = ((num as u128) * 2000 + mm) / (2 * mm);
        proof {
            lemma_round_quotient_bound(num as int, m as int);
        }
        q as i64
    } else {
        let mag: u128 = (-num) as u128;
        let q: u128 = (mag * 2000 + mm) / (2 * mm);
        proof {
            lemma_round_quotient_bound(-(num as int), m as int);
        }
        -(q as i64)
    }
}

/// Assigns energy flows over the whole snapshot, exactly as the model's
/// `flows_spec` prescribes: every producer sends a proportional, globally
/// throttled contribution to every reachable consumer along the routed
/// path; contributions superpose on each connection crossed, signed in
/// canonical endpoint order, and are rounded to thousandths, dropping
/// entries that round to zero. Aggregate rates are limited to 32 bits so
/// that the scaled flows fit the machine's integers.
#[verifier::loop_isolation(false)]
#[verifier::rlimit(60)]
pub fn assign_energy_flows(
    cfg: &GameConfiguration,
    nodes: &Vec<(u64, Construction)>,
    edges: &Vec<Connection>,
) -> (flows: FlowMap)
    requires
        unique_ids(nodes@),
        total_energy_output(*cfg, nodes@) <= 0xffff_ffff,
        total_energy_input(*cfg, nodes@) <= 0xffff_ffff,
    ensures
        flows@ == flows_spec(*cfg, nodes@, edges@),
{
    let n = nodes.len();
    let avail = total_output_exec(cfg, nodes);
    let demand = total_input_exec(cfg, nodes);
    let ghost atot = total_energy_output(*cfg, nodes@);
    let ghost dtot = total_energy_input(*cfg, nodes@);
    proof {
        lemma_total_output_nonneg(*cfg, nodes@);
        lemma_total_input_nonneg(*cfg, nodes@);
    }
    if avail == 0 {
        let fm = FlowMap { entries: Vec::new() };
        proof {
            assert(fm@ =~= flows_spec(*cfg, nodes@, edges@));
        }
        return fm;
    }
    let m_den = if avail < demand {
        demand
    } else {
        avail
    };
    let mut acc: Vec<((u64, u64), i128)> = Vec::new();
    for i in 0..n
        invariant
            acc_wf(acc@),
            forall|x: u64, y: u64|
                x < y ==> #[trigger] acc_val(acc@, x, y) == producers_sum(
                    *cfg,
                    nodes@,
                    edges@,
                    x,
                    y,
                    i as int,
                ),
    {
        let prod = cfg.energy_output(&nodes[i].1.kind);
        if prod > 0 {
            let from_id = nodes[i].0;
            let ghost s = from_id;
            proof {
                lemma_output_term_le_total(*cfg, nodes@, i as int);
            }
            let paths = shortest_paths_from(nodes, edges, from_id, cfg);
            let ghost full = paths_spec(nodes@, edges@, s, *cfg);
            let mut c: usize = 0;
            for j in 0..n
                invariant
                    c as int == paths_spec_upto(nodes@, edges@, s, *cfg, j as int).len(),
                    c <= paths@.len(),
                    acc_wf(acc@),
                    forall|x: u64, y: u64|
                        x < y ==> #[trigger] acc_val(acc@, x, y) == producers_sum(
                            *cfg,
                            nodes@,
                            edges@,
                            x,
                            y,
                            i as int,
                        ) + consumers_sum(
                            *cfg,
                            nodes@,
                            edges@,
                            s,
                            prod as int,
                            x,
                            y,
                            j as int,
                        ),
            {
                let is_cons = cfg.energy_input(&nodes[j].1.kind) > 0;
                let tid = nodes[j].0;
                let mut is_target: bool = false;
                if is_cons && tid != from_id && c < paths.len() {
                    proof {
                        lemma_paths_upto_entry(nodes@, edges@, s, *cfg, j as int);
                        let j2 = choose|j2: int|
                            j as int <= j2 < nodes@.len() && #[trigger] target_at(
                                nodes@,
                                edges@,
                                s,
                                *cfg,
                                j2,
                            ) && full[c as int] == path_spec(nodes@, edges@, s, nodes@[j2].0);
                        assert(full[c as int][0] == pred_iter(
                            nodes@,
                            edges@,
                            s,
                            nodes@[j2].0,
                            0,
                        ));
                        assert(paths@.map_values(|p: Vec<u64>| p@)[c as int] == paths@[c as int]@);
                        assert(paths@[c as int]@.len() >= 1);
                    }
                    if paths[c][0] == tid {
                        is_target = true;
                        proof {
                            let j2 = choose|j2: int|
                                j as int <= j2 < nodes@.len() && #[trigger] target_at(
                                    nodes@,
                                    edges@,
                                    s,
                                    *cfg,
                                    j2,
                                ) && full[c as int] == path_spec(nodes@, edges@, s, nodes@[j2].0);
                            assert(nodes@[j2].0 == tid);
                            assert(j2 == j as int);
                            assert(target_at(nodes@, edges@, s, *cfg, j as int));
                        }
                    } else {
                        proof {
                            if target_at(nodes@, edges@, s, *cfg, j as int) {
                                lemma_paths_upto_prefix(
                                    nodes@,
                                    edges@,
                                    s,
                                    *cfg,
                                    j as int + 1,
                                    n as int,
                                );
                                assert(paths_spec_upto(nodes@, edges@, s, *cfg, j as int + 1)
                                    == paths_spec_upto(nodes@, edges@, s, *cfg, j as int).push(
                                    path_spec(nodes@, edges@, s, tid),
                                ));
                                assert(paths_spec_upto(nodes@, edges@, s, *cfg, j as int + 1)[c as int]
                                    == path_spec(nodes@, edges@, s, tid));
                                assert(full[c as int] == paths_spec_upto(
                                    nodes@,
                                    edges@,
                                    s,
                                    *cfg,
                                    j as int + 1,
                                )[c as int]);
                                assert(full[c as int][0] == pred_iter(nodes@, edges@, s, tid, 0));
                                assert(false);
                            }
                        }
                    }
                } else {
                    proof {
                        if target_at(nodes@, edges@, s, *cfg, j as int) {
                            lemma_paths_upto_prefix(
                                nodes@,
                                edges@,
                                s,
                                *cfg,
                                j as int + 1,
                                n as int,
                            );
                            assert(paths_spec_upto(nodes@, edges@, s, *cfg, j as int + 1)
                                == paths_spec_upto(nodes@, edges@, s, *cfg, j as int).push(
                                path_spec(nodes@, edges@, s, tid),
                            ));
                            assert(false);
                        }
                    }
                }
                if is_target {
                    proof {
                        assert(target_at(nodes@, edges@, s, *cfg, j as int));
                        lemma_paths_upto_prefix(nodes@, edges@, s, *cfg, j as int + 1, n as int);
                        assert(paths_spec_upto(nodes@, edges@, s, *cfg, j as int + 1)
                            == paths_spec_upto(nodes@, edges@, s, *cfg, j as int).push(
                            path_spec(nodes@, edges@, s, tid),
                        ));
                        assert(paths@.map_values(|p: Vec<u64>| p@)[c as int] == paths@[c as int]@);
                        assert(paths@[c as int]@ == path_spec(nodes@, edges@, s, tid));
                        lemma_input_term_le_total(*cfg, nodes@, j as int);
                    }
                    let dem = cfg.energy_input(&nodes[j].1.kind);
                    proof {
                        assert(prod as int * dem as int <= 0xffff_ffff * 0xffff_ffff)
                            by (nonlinear_arith)
                            requires
                                0 <= prod <= 0xffff_ffff,
                                0 <= dem <= 0xffff_ffff,
                        ;
                    }
                    let num: u64 = prod * dem;
                    let ghost t = nodes@[j as int].0;
                    let ghost ppath = path_spec(nodes@, edges@, s, t);
                    proof {
                        crate::graph::lemma_dist_exists(nodes@, edges@, s, t, (n - 1) as nat);
                        let d = choose|d: nat|
                            #[trigger] crate::graph::is_dist(nodes@, edges@, s, t, d) && d <= n
                                - 1;
                        crate::graph::lemma_path_spec_props(nodes@, edges@, s, t, d);
                    }
                    let path_len = paths[c].len();
                    for w in 1..path_len
                        invariant
                            acc_wf(acc@),
                            forall|x: u64, y: u64|
                                x < y ==> #[trigger] acc_val(acc@, x, y) == producers_sum(
                                    *cfg,
                                    nodes@,
                                    edges@,
                                    x,
                                    y,
                                    i as int,
                                ) + consumers_sum(
                                    *cfg,
                                    nodes@,
                                    edges@,
                                    s,
                                    prod as int,
                                    x,
                                    y,
                                    j as int,
                                ) + crossings(ppath.take(w as int), x, y) * (num as int),
                    {
                        let xn = paths[c][w - 1];
                        let yn = paths[c][w];
                        proof {
                            assert(xn == ppath[w as int - 1] && yn == ppath[w as int]);
                            assert(xn != yn);
                        }
                        let (a, b) = if xn < yn {
                            (xn, yn)
                        } else {
                            (yn, xn)
                        };
                        let delta: i128 = if xn > yn {
                            num as i128
                        } else {
                            -(num as i128)
                        };
                        proof {
                            lemma_producers_sum_bound(*cfg, nodes@, edges@, a, b, i as int);
                            lemma_total_output_take_le(*cfg, nodes@, i as int);
                            lemma_consumers_sum_bound(
                                *cfg,
                                nodes@,
                                edges@,
                                s,
                                prod as int,
                                a,
                                b,
                                j as int,
                            );
                            lemma_total_input_take_le(*cfg, nodes@, j as int);
                            lemma_total_output_nonneg(*cfg, nodes@.take(i as int));
                            lemma_total_input_nonneg(*cfg, nodes@.take(j as int));
                            crate::flow_model::lemma_crossings_take_bound(ppath, a, b, w as int);
                            crate::flow_model::lemma_crossings_take_bound(
                                ppath,
                                a,
                                b,
                                w as int + 1,
                            );
                            let ps = producers_sum(*cfg, nodes@, edges@, a, b, i as int);
                            let cs = consumers_sum(
                                *cfg,
                                nodes@,
                                edges@,
                                s,
                                prod as int,
                                a,
                                b,
                                j as int,
                            );
                            let cr = crossings(ppath.take(w as int), a, b);
                            let cr1 = crossings(ppath.take(w as int + 1), a, b);
                            let atake = total_energy_output(*cfg, nodes@.take(i as int));
                            let dtake = total_energy_input(*cfg, nodes@.take(j as int));
                            assert(-(0xffff_ffffi128 * 0xffff_ffffi128) * 3 <= ps + cs + cr1 * (
                            num as int) <= 0xffff_ffffi128 * 0xffff_ffffi128 * 3)
                                by (nonlinear_arith)
                                requires
                                    -(atake * dtot) <= ps <= atake * dtot,
                                    -(prod as int * dtake) <= cs <= prod as int * dtake,
                                    -1 <= cr1 <= 1,
                                    0 <= num as int <= 0xffff_ffff * 0xffff_ffff,
                                    0 <= atake <= 0xffff_ffff,
                                    0 <= dtake <= 0xffff_ffff,
                                    0 <= prod as int <= 0xffff_ffff,
                                    0 <= dtot <= 0xffff_ffff,
                            ;
                            assert(acc_val(acc@, a, b) + delta as int == ps + cs + cr1 * (
                            num as int)) by {
                                lemma_crossings_take_step(ppath, a, b, w as int);
                                assert(cr1 == cr + if xn > yn {
                                    1int
                                } else {
                                    -1int
                                });
                                assert((cr + 1) * (num as int) == cr * (num as int) + num as int)
                                    by (nonlinear_arith);
                                assert((cr - 1) * (num as int) == cr * (num as int) - num as int)
                                    by (nonlinear_arith);
                            }
                        }
                        acc_add(&mut acc, a, b, delta);
                        proof {
                            assert forall|x: u64, y: u64|
                                x < y implies #[trigger] acc_val(acc@, x, y) == producers_sum(
                                *cfg,
                                nodes@,
                                edges@,
                                x,
                                y,
                                i as int,
                            ) + consumers_sum(
                                *cfg,
                                nodes@,
                                edges@,
                                s,
                                prod as int,
                                x,
                                y,
                                j as int,
                            ) + crossings(ppath.take(w as int + 1), x, y) * (num as int) by {
                                lemma_crossings_take_step(ppath, x, y, w as int);
                                let cr = crossings(ppath.take(w as int), x, y);
                                if (x, y) == (a, b) {
                                    assert((cr + 1) * (num as int) == cr * (num as int)
                                        + num as int) by (nonlinear_arith);
                                    assert((cr - 1) * (num as int) == cr * (num as int)
                                        - num as int) by (nonlinear_arith);
                                } else {
                                    assert(crossings(ppath.take(w as int + 1), x, y) == cr);
                                }
                            }
                        }
                    }
                    proof {
                        assert(ppath.take(path_len as int) =~= ppath);
                        assert(consumers_sum(
                            *cfg,
                            nodes@,
                            edges@,
                            s,
                            prod as int,
                            0u64,
                            0u64,
                            j as int + 1,
                        ) == consumers_sum(*cfg, nodes@, edges@, s, prod as int, 0u64, 0u64, j as int)
                            + crossings(ppath, 0u64, 0u64) * (prod as int) * (cfg.spec_energy_input(
                            nodes@[j as int].1.kind,
                        ) as int));
                        assert forall|x: u64, y: u64|
                            x < y implies #[trigger] acc_val(acc@, x, y) == producers_sum(
                            *cfg,
                            nodes@,
                            edges@,
                            x,
                            y,
                            i as int,
                        ) + consumers_sum(
                            *cfg,
                            nodes@,
                            edges@,
                            s,
                            prod as int,
                            x,
                            y,
                            j as int + 1,
                        ) by {
                            let cr = crossings(ppath, x, y);
                            assert(cr * (num as int) == cr * (prod as int) * (dem as int))
                                by (nonlinear_arith)
                                requires
                                    num as int == prod as int * dem as int,
                            ;
                        }
                    }
                    c = c + 1;
                    proof {
                        lemma_paths_upto_prefix(nodes@, edges@, s, *cfg, j as int + 1, n as int);
                        assert(paths_spec_upto(nodes@, edges@, s, *cfg, j as int + 1)
                            == paths_spec_upto(nodes@, edges@, s, *cfg, j as int).push(
                            path_spec(nodes@, edges@, s, tid),
                        ));
                    }
                } else {
                    proof {
                        assert(!target_at(nodes@, edges@, s, *cfg, j as int));
                    }
                }
            }
            proof {
                assert forall|x: u64, y: u64|
                    x < y implies #[trigger] acc_val(acc@, x, y) == producers_sum(
                    *cfg,
                    nodes@,
                    edges@,
                    x,
                    y,
                    i as int + 1,
                ) by {
                    assert(cfg.spec_energy_output(nodes@[i as int].1.kind) == prod);
                }
            }
        } else {
            proof {
                assert forall|x: u64, y: u64|
                    x < y implies #[trigger] acc_val(acc@, x, y) == producers_sum(
                    *cfg,
                    nodes@,
                    edges@,
                    x,
                    y,
                    i as int + 1,
                ) by {
                    assert(cfg.spec_energy_output(nodes@[i as int].1.kind) == prod);
                }
            }
        }
    }
    proof {
        assert(1 <= m_den <= 0xffff_ffff);
        assert forall|x: u64, y: u64|
            -(0xffff_ffff * (m_den as int)) <= #[trigger] acc_val(acc@, x, y) <= 0xffff_ffff * (
        m_den as int) by {
            if x < y {
                lemma_producers_sum_bound(*cfg, nodes@, edges@, x, y, n as int);
                assert(nodes@.take(n as int) =~= nodes@);
                assert(-(0xffff_ffff * (m_den as int)) <= acc_val(acc@, x, y) <= 0xffff_ffff * (
                m_den as int)) by (nonlinear_arith)
                    requires
                        -(atot * dtot) <= acc_val(acc@, x, y) <= atot * dtot,
                        0 <= atot <= m_den as int,
                        0 <= dtot <= 0xffff_ffff,
                        0 <= atot <= 0xffff_ffff,
                        0 <= dtot,
                        atot <= m_den as int || dtot <= m_den as int,
                        m_den as int == if atot < dtot {
                            dtot
                        } else {
                            atot
                        },
                ;
            } else {
                assert(forall|k: int| 0 <= k < acc@.len() ==> (#[trigger] acc@[k]).0 != (x, y));
                lemma_acc_val_no_key(acc@, x, y);
                assert(0xffff_ffff * (m_den as int) >= 0) by (nonlinear_arith)
                    requires
                        m_den >= 1,
                ;
            }
        }
    }
    let fm = normalize_energy_flows(&acc, m_den);
    proof {
        let target = flows_spec(*cfg, nodes@, edges@);
        assert forall|p: (u64, u64)| p.0 < p.1 implies acc_val(acc@, p.0, p.1) == net_num(
            *cfg,
            nodes@,
            edges@,
            p.0,
            p.1,
        ) && flow_milli(*cfg, nodes@, edges@, p.0, p.1) == round_to_milli(
            acc_val(acc@, p.0, p.1),
            m_den as int,
        ) by {
            assert(flow_denominator(*cfg, nodes@) == m_den as int);
        }
        assert(fm@ =~= target);
    }
    fm
}

/// Flow Assignment holds no hidden state: its contract pins the result
/// to a function of the configuration and snapshot alone, so two runs
/// over an unchanged snapshot yield one and the same mapping.
pub proof fn lemma_flow_assignment_idempotent(
    cfg: GameConfiguration,
    nodes: Seq<(u64, Construction)>,
    edges: Seq<Connection>,
    r1: Map<(u64, u64), int>,
    r2: Map<(u64, u64), int>,
)
    requires
        r1 == flows_spec(cfg, nodes, edges),
        r2 == flows_spec(cfg, nodes, edges),
    ensures
        r1 == r2,
{
}

/// Zero-supply safety: with no producing construction, the assignment is
/// the empty mapping, whatever the demand. The throttle clamps to zero
/// where availability is zero; nothing is divided by zero.
pub proof fn lemma_zero_supply_empty(
    cfg: GameConfiguration,
    nodes: Seq<(u64, Construction)>,
    edges: Seq<Connection>,
)
    requires
        forall|i: int|
            0 <= i < nodes.len() ==> cfg.spec_energy_output(#[trigger] nodes[i].1.kind) == 0,
    ensures
        flows_spec(cfg, nodes, edges) == Map::<(u64, u64), int>::empty(),
{
    lemma_total_output_zero(cfg, nodes);
    assert(flows_spec(cfg, nodes, edges) =~= Map::<(u64, u64), int>::empty());
}

} // verus!
