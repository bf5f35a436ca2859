//! The mathematical model of energy-flow assignment. Every producer sends
//! a proportional contribution to every reachable consumer along the
//! routed path; contributions superpose additively on each connection
//! crossed, signed relative to the canonical endpoint order. The global
//! throttle makes a pair's contribution `production * demand / max(total
//! availability, total demand)`; the accumulated exact value is kept as an
//! integer numerator over that common denominator and rounded to
//! thousandths at the end, dropping entries that round to zero.

use vstd::prelude::*;
use crate::construction::Construction;
use crate::connection::Connection;
use crate::game_configuration::GameConfiguration;
use crate::graph::path_spec;
use crate::routing::target_at;

verus! {

/// Total energy availability: the configured production summed over all
/// supplied nodes.
pub open spec fn total_energy_output(
    cfg: GameConfiguration,
    nodes: Seq<(u64, Construction)>,
) -> int
    decreases nodes.len(),
{
    if nodes.len() == 0 {
        0
    } else {
        total_energy_output(cfg, nodes.drop_last()) + cfg.spec_energy_output(
            nodes.last().1.kind,
        )
    }
}

/// Total energy demand: the configured consumption summed over all
/// supplied nodes.
pub open spec fn total_energy_input(
    cfg: GameConfiguration,
    nodes: Seq<(u64, Construction)>,
) -> int
    decreases nodes.len(),
{
    if nodes.len() == 0 {
        0
    } else {
        total_energy_input(cfg, nodes.drop_last()) + cfg.spec_energy_input(nodes.last().1.kind)
    }
}

/// How often the path runs along the canonical pair `(a, b)` against its
/// canonical order, minus how often along it: each window from `b` to `a`
/// counts +1, each window from `a` to `b` counts -1. Paths run target
/// first, so a window from `b` to `a` carries flow from `a` toward the
/// target, which is positive in canonical order.
pub open spec fn crossings(path: Seq<u64>, a: u64, b: u64) -> int
    decreases path.len(),
{
    if path.len() < 2 {
        0
    } else {
        crossings(path.drop_last(), a, b) + (
        if path[path.len() - 2] == b && path[path.len() - 1] == a {
            1
        } else if path[path.len() - 2] == a && path[path.len() - 1] == b {
            -1
        } else {
            0
        })
    }
}

/// The contributions of one producer (with production `prod`) to the
/// canonical pair `(a, b)`, summed over the targets among the first `j`
/// node positions: per target, the path's signed crossing count times
/// `prod` times the target's demand.
pub open spec fn consumers_sum(
    cfg: GameConfiguration,
    nodes: Seq<(u64, Construction)>,
    edges: Seq<Connection>,
    s: u64,
    prod: int,
    a: u64,
    b: u64,
    j: int,
) -> int
    decreases j,
{
    if j <= 0 {
        0
    } else {
        consumers_sum(cfg, nodes, edges, s, prod, a, b, j - 1) + (
        if target_at(nodes, edges, s, cfg, j - 1) {
            crossings(path_spec(nodes, edges, s, nodes[j - 1].0), a, b) * prod
                * cfg.spec_energy_input(nodes[j - 1].1.kind)
        } else {
            0
        })
    }
}

/// The accumulated numerator on the canonical pair `(a, b)` over the
/// producers among the first `i` node positions.
pub open spec fn producers_sum(
    cfg: GameConfiguration,
    nodes: Seq<(u64, Construction)>,
    edges: Seq<Connection>,
    a: u64,
    b: u64,
    i: int,
) -> int
    decreases i,
{
    if i <= 0 {
        0
    } else {
        producers_sum(cfg, nodes, edges, a, b, i - 1) + (
        if cfg.spec_energy_output(nodes[i - 1].1.kind) > 0 {
            consumers_sum(
                cfg,
                nodes,
                edges,
                nodes[i - 1].0,
                cfg.spec_energy_output(nodes[i - 1].1.kind) as int,
                a,
                b,
                nodes.len() as int,
            )
        } else {
            0
        })
    }
}

/// The exact accumulated numerator on the canonical pair `(a, b)`, over
/// the common denominator `max(total availability, total demand)`.
pub open spec fn net_num(
    cfg: GameConfiguration,
    nodes: Seq<(u64, Construction)>,
    edges: Seq<Connection>,
    a: u64,
    b: u64,
) -> int {
    producers_sum(cfg, nodes, edges, a, b, nodes.len() as int)
}

/// `num / m` in thousandths, rounded half away from zero.
pub open spec fn round_to_milli(num: int, m: int) -> int {
    if num >= 0 {
        (num * 2000 + m) / (2 * m)
    } else {
        -(((-num) * 2000 + m) / (2 * m))
    }
}

/// The common denominator: total demand when it exceeds availability
/// (global throttling), availability otherwise.
pub open spec fn flow_denominator(cfg: GameConfiguration, nodes: Seq<(u64, Construction)>) -> int {
    if total_energy_output(cfg, nodes) < total_energy_input(cfg, nodes) {
        total_energy_input(cfg, nodes)
    } else {
        total_energy_output(cfg, nodes)
    }
}

/// The assigned flow on the canonical pair `(a, b)`, in thousandths.
/// With no availability there is no flow at all: the throttle clamps to
/// zero rather than dividing by zero.
pub open spec fn flow_milli(
    cfg: GameConfiguration,
    nodes: Seq<(u64, Construction)>,
    edges: Seq<Connection>,
    a: u64,
    b: u64,
) -> int {
    if total_energy_output(cfg, nodes) == 0 {
        0
    } else {
        round_to_milli(net_num(cfg, nodes, edges, a, b), flow_denominator(cfg, nodes))
    }
}

/// The full assignment: every canonical pair whose rounded flow is not
/// zero, mapped to that flow. Pairs carrying no entry stand for flow zero.
pub open spec fn flows_spec(
    cfg: GameConfiguration,
    nodes: Seq<(u64, Construction)>,
    edges: Seq<Connection>,
) -> Map<(u64, u64), int> {
    Map::new(
        |p: (u64, u64)| p.0 < p.1 && flow_milli(cfg, nodes, edges, p.0, p.1) != 0,
        |p: (u64, u64)| flow_milli(cfg, nodes, edges, p.0, p.1),
    )
}

/// Peeling one node off the front of the availability total.
pub proof fn lemma_total_output_take_step(
    cfg: GameConfiguration,
    nodes: Seq<(u64, Construction)>,
    i: int,
)
    requires
        0 <= i < nodes.len(),
    ensures
        total_energy_output(cfg, nodes.take(i + 1)) == total_energy_output(cfg, nodes.take(i))
            + cfg.spec_energy_output(nodes[i].1.kind),
{
    assert(nodes.take(i + 1).drop_last() =~= nodes.take(i));
    assert(nodes.take(i + 1).last() == nodes[i]);
}

/// Peeling one node off the front of the demand total.
pub proof fn lemma_total_input_take_step(
    cfg: GameConfiguration,
    nodes: Seq<(u64, Construction)>,
    i: int,
)
    requires
        0 <= i < nodes.len(),
    ensures
        total_energy_input(cfg, nodes.take(i + 1)) == total_energy_input(cfg, nodes.take(i))
            + cfg.spec_energy_input(nodes[i].1.kind),
{
    assert(nodes.take(i + 1).drop_last() =~= nodes.take(i));
    assert(nodes.take(i + 1).last() == nodes[i]);
}

/// Availability totals are sums of rates, so never negative.
pub proof fn lemma_total_output_nonneg(cfg: GameConfiguration, nodes: Seq<(u64, Construction)>)
    ensures
        total_energy_output(cfg, nodes) >= 0,
    decreases nodes.len(),
{
    if nodes.len() > 0 {
        lemma_total_output_nonneg(cfg, nodes.drop_last());
    }
}

/// Demand totals are sums of rates, so never negative.
pub proof fn lemma_total_input_nonneg(cfg: GameConfiguration, nodes: Seq<(u64, Construction)>)
    ensures
        total_energy_input(cfg, nodes) >= 0,
    decreases nodes.len(),
{
    if nodes.len() > 0 {
        lemma_total_input_nonneg(cfg, nodes.drop_last());
    }
}

/// A prefix of the nodes accounts for at most the whole availability.
pub proof fn lemma_total_output_take_le(
    cfg: GameConfiguration,
    nodes: Seq<(u64, Construction)>,
    i: int,
)
    requires
        0 <= i <= nodes.len(),
    ensures
        total_energy_output(cfg, nodes.take(i)) <= total_energy_output(cfg, nodes),
    decreases nodes.len() - i,
{
    if i == nodes.len() {
        assert(nodes.take(i) =~= nodes);
    } else {
        lemma_total_output_take_step(cfg, nodes, i);
        lemma_total_output_take_le(cfg, nodes, i + 1);
    }
}

/// A prefix of the nodes accounts for at most the whole demand.
pub proof fn lemma_total_input_take_le(
    cfg: GameConfiguration,
    nodes: Seq<(u64, Construction)>,
    i: int,
)
    requires
        0 <= i <= nodes.len(),
    ensures
        total_energy_input(cfg, nodes.take(i)) <= total_energy_input(cfg, nodes),
    decreases nodes.len() - i,
{
    if i == nodes.len() {
        assert(nodes.take(i) =~= nodes);
    } else {
        lemma_total_input_take_step(cfg, nodes, i);
        lemma_total_input_take_le(cfg, nodes, i + 1);
    }
}

/// One node's production rate is at most the whole availability.
pub proof fn lemma_output_term_le_total(
    cfg: GameConfiguration,
    nodes: Seq<(u64, Construction)>,
    i: int,
)
    requires
        0 <= i < nodes.len(),
    ensures
        cfg.spec_energy_output(nodes[i].1.kind) <= total_energy_output(cfg, nodes),
{
    lemma_total_output_take_step(cfg, nodes, i);
    lemma_total_output_nonneg(cfg, nodes.take(i));
    lemma_total_output_take_le(cfg, nodes, i + 1);
}

/// One node's consumption rate is at most the whole demand.
pub proof fn lemma_input_term_le_total(
    cfg: GameConfiguration,
    nodes: Seq<(u64, Construction)>,
    i: int,
)
    requires
        0 <= i < nodes.len(),
    ensures
        cfg.spec_energy_input(nodes[i].1.kind) <= total_energy_input(cfg, nodes),
{
    lemma_total_input_take_step(cfg, nodes, i);
    lemma_total_input_nonneg(cfg, nodes.take(i));
    lemma_total_input_take_le(cfg, nodes, i + 1);
}

/// With all production rates zero, availability is zero.
pub proof fn lemma_total_output_zero(cfg: GameConfiguration, nodes: Seq<(u64, Construction)>)
    requires
        forall|i: int|
            0 <= i < nodes.len() ==> cfg.spec_energy_output(#[trigger] nodes[i].1.kind) == 0,
    ensures
        total_energy_output(cfg, nodes) == 0,
    decreases nodes.len(),
{
    if nodes.len() > 0 {
        assert(nodes.last() == nodes[nodes.len() - 1]);
        lemma_total_output_zero(cfg, nodes.drop_last());
    }
}

/// Whether the window ending at position `w` of the path runs along the
/// unordered pair `{a, b}`.
pub open spec fn window_crosses(path: Seq<u64>, a: u64, b: u64, w: int) -> bool {
    1 <= w < path.len() && ((path[w - 1] == b && path[w] == a) || (path[w - 1] == a && path[w]
        == b))
}

/// Peeling one window off the crossing count of a path prefix.
pub proof fn lemma_crossings_take_step(path: Seq<u64>, a: u64, b: u64, w: int)
    requires
        1 <= w < path.len(),
    ensures
        crossings(path.take(w + 1), a, b) == crossings(path.take(w), a, b) + (
        if path[w - 1] == b && path[w] == a {
            1int
        } else if path[w - 1] == a && path[w] == b {
            -1int
        } else {
            0int
        }),
{
    assert(path.take(w + 1).drop_last() =~= path.take(w));
    assert(path.take(w + 1)[w] == path[w]);
    assert(path.take(w + 1)[w - 1] == path[w - 1]);
}

/// On a path that repeats no node, at most one window runs along a given
/// unordered pair, so every prefix crossing count is -1, 0 or 1; it is
/// nonzero only when some window within the prefix runs along the pair.
pub proof fn lemma_crossings_take_bound(path: Seq<u64>, a: u64, b: u64, w: int)
    requires
        forall|i: int, j: int| 0 <= i < j < path.len() ==> #[trigger] path[i] != #[trigger] path[j],
        0 <= w <= path.len(),
    ensures
        -1 <= crossings(path.take(w), a, b) <= 1,
        crossings(path.take(w), a, b) != 0 <==> exists|w0: int|
            1 <= w0 < w && #[trigger] window_crosses(path, a, b, w0),
    decreases w,
{
    if w <= 1 {
        assert(crossings(path.take(w), a, b) == 0);
    } else {
        lemma_crossings_take_bound(path, a, b, w - 1);
        lemma_crossings_take_step(path, a, b, w - 1);
        if window_crosses(path, a, b, w - 1) {
            assert forall|w0: int| 1 <= w0 < w - 1 implies !#[trigger] window_crosses(
                path,
                a,
                b,
                w0,
            ) by {
                if window_crosses(path, a, b, w0) {
                    lemma_window_crosses_unique(path, a, b, w0, w - 1);
                }
            }
            assert(crossings(path.take(w - 1), a, b) == 0);
            assert(window_crosses(path, a, b, w - 1));
        } else {
            assert(crossings(path.take(w), a, b) == crossings(path.take(w - 1), a, b));
            assert((exists|w0: int| 1 <= w0 < w && #[trigger] window_crosses(path, a, b, w0))
                <==> (exists|w0: int| 1 <= w0 < w - 1 && #[trigger] window_crosses(
                path,
                a,
                b,
                w0,
            )));
        }
    }
}

/// On a path that repeats no node, two distinct windows cannot both run
/// along the same unordered pair.
proof fn lemma_window_crosses_unique(path: Seq<u64>, a: u64, b: u64, w1: int, w2: int)
    requires
        forall|i: int, j: int| 0 <= i < j < path.len() ==> #[trigger] path[i] != #[trigger] path[j],
        1 <= w1 < w2 < path.len(),
        window_crosses(path, a, b, w1),
    ensures
        !window_crosses(path, a, b, w2),
{
    if window_crosses(path, a, b, w2) {
        assert(path[w1 - 1] != path[w2 - 1]);
        assert(path[w1] != path[w2]);
        assert(path[w1 - 1] != path[w2]);
        if w1 != w2 - 1 {
            assert(path[w1] != path[w2 - 1]);
        }
        assert(false);
    }
}

/// The whole-path crossing count of a routed path is -1, 0 or 1.
pub proof fn lemma_crossings_bound(path: Seq<u64>, a: u64, b: u64)
    requires
        forall|i: int, j: int| 0 <= i < j < path.len() ==> #[trigger] path[i] != #[trigger] path[j],
    ensures
        -1 <= crossings(path, a, b) <= 1,
{
    lemma_crossings_take_bound(path, a, b, path.len() as int);
    assert(path.take(path.len() as int) =~= path);
}

/// The routed path of a target crosses each pair at most once.
pub proof fn lemma_target_path_crossings_bound(
    cfg: GameConfiguration,
    nodes: Seq<(u64, Construction)>,
    edges: Seq<Connection>,
    s: u64,
    t: u64,
    a: u64,
    b: u64,
)
    requires
        crate::graph::reachable(nodes, edges, s, t),
    ensures
        -1 <= crossings(path_spec(nodes, edges, s, t), a, b) <= 1,
{
    crate::graph::lemma_dist_exists(nodes, edges, s, t, (nodes.len() - 1) as nat);
    let d = choose|d: nat|
        #[trigger] crate::graph::is_dist(nodes, edges, s, t, d) && d <= nodes.len() - 1;
    crate::graph::lemma_path_spec_props(nodes, edges, s, t, d);
    lemma_crossings_bound(path_spec(nodes, edges, s, t), a, b);
}

/// One producer's contributions to a pair, over the targets among the
/// first `j` positions, weigh at most its production times their demand.
pub proof fn lemma_consumers_sum_bound(
    cfg: GameConfiguration,
    nodes: Seq<(u64, Construction)>,
    edges: Seq<Connection>,
    s: u64,
    prod: int,
    a: u64,
    b: u64,
    j: int,
)
    requires
        prod >= 0,
        0 <= j <= nodes.len(),
    ensures
        -(prod * total_energy_input(cfg, nodes.take(j))) <= consumers_sum(
            cfg,
            nodes,
            edges,
            s,
            prod,
            a,
            b,
            j,
        ) <= prod * total_energy_input(cfg, nodes.take(j)),
    decreases j,
{
    if j == 0 {
        assert(prod * total_energy_input(cfg, nodes.take(0)) == 0) by (nonlinear_arith)
            requires
                total_energy_input(cfg, nodes.take(0)) == 0,
        ;
    } else {
        lemma_consumers_sum_bound(cfg, nodes, edges, s, prod, a, b, j - 1);
        lemma_total_input_take_step(cfg, nodes, j - 1);
        let t0 = total_energy_input(cfg, nodes.take(j - 1));
        let t1 = total_energy_input(cfg, nodes.take(j));
        let dem = cfg.spec_energy_input(nodes[j - 1].1.kind) as int;
        let cs0 = consumers_sum(cfg, nodes, edges, s, prod, a, b, j - 1);
        let cs1 = consumers_sum(cfg, nodes, edges, s, prod, a, b, j);
        if target_at(nodes, edges, s, cfg, j - 1) {
            lemma_target_path_crossings_bound(cfg, nodes, edges, s, nodes[j - 1].0, a, b);
            let c = crossings(path_spec(nodes, edges, s, nodes[j - 1].0), a, b);
            assert(cs1 == cs0 + c * prod * dem);
            assert(-(prod * t1) <= cs1 <= prod * t1) by (nonlinear_arith)
                requires
                    -1 <= c <= 1,
                    prod >= 0,
                    dem >= 0,
                    t1 == t0 + dem,
                    -(prod * t0) <= cs0 <= prod * t0,
                    cs1 == cs0 + c * prod * dem,
            ;
        } else {
            assert(-(prod * t1) <= cs1 <= prod * t1) by (nonlinear_arith)
                requires
                    prod >= 0,
                    dem >= 0,
                    t1 == t0 + dem,
                    -(prod * t0) <= cs0 <= prod * t0,
                    cs1 == cs0,
            ;
        }
    }
}

/// The accumulated numerator over the producers among the first `i`
/// positions weighs at most their availability times the whole demand.
pub proof fn lemma_producers_sum_bound(
    cfg: GameConfiguration,
    nodes: Seq<(u64, Construction)>,
    edges: Seq<Connection>,
    a: u64,
    b: u64,
    i: int,
)
    requires
        0 <= i <= nodes.len(),
    ensures
        -(total_energy_output(cfg, nodes.take(i)) * total_energy_input(cfg, nodes))
            <= producers_sum(cfg, nodes, edges, a, b, i) <= total_energy_output(
            cfg,
            nodes.take(i),
        ) * total_energy_input(cfg, nodes),
    decreases i,
{
    lemma_total_input_nonneg(cfg, nodes);
    let dtot = total_energy_input(cfg, nodes);
    if i == 0 {
        assert(total_energy_output(cfg, nodes.take(0)) * dtot == 0) by (nonlinear_arith)
            requires
                total_energy_output(cfg, nodes.take(0)) == 0,
        ;
    } else {
        lemma_producers_sum_bound(cfg, nodes, edges, a, b, i - 1);
        lemma_total_output_take_step(cfg, nodes, i - 1);
        let a0 = total_energy_output(cfg, nodes.take(i - 1));
        let a1 = total_energy_output(cfg, nodes.take(i));
        let prod = cfg.spec_energy_output(nodes[i - 1].1.kind) as int;
        let ps0 = producers_sum(cfg, nodes, edges, a, b, i - 1);
        let ps1 = producers_sum(cfg, nodes, edges, a, b, i);
        if prod > 0 {
            lemma_consumers_sum_bound(
                cfg,
                nodes,
                edges,
                nodes[i - 1].0,
                prod,
                a,
                b,
                nodes.len() as int,
            );
            assert(nodes.take(nodes.len() as int) =~= nodes);
            let cs = consumers_sum(cfg, nodes, edges, nodes[i - 1].0, prod, a, b, nodes.len() as int);
            assert(-(a1 * dtot) <= ps1 <= a1 * dtot) by (nonlinear_arith)
                requires
                    prod >= 0,
                    dtot >= 0,
                    a1 == a0 + prod,
                    -(a0 * dtot) <= ps0 <= a0 * dtot,
                    -(prod * dtot) <= cs <= prod * dtot,
                    ps1 == ps0 + cs,
            ;
        } else {
            assert(-(a1 * dtot) <= ps1 <= a1 * dtot) by (nonlinear_arith)
                requires
                    prod >= 0,
                    dtot >= 0,
                    a1 == a0 + prod,
                    -(a0 * dtot) <= ps0 <= a0 * dtot,
                    ps1 == ps0,
            ;
        }
    }
}

} // verus!
