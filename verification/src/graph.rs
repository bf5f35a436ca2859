//! The mathematical model of the connection graph: nodes are (id,
//! construction) pairs, edges are connections, adjacency is undirected.
//! Shortest routes are described by a bounded reachability relation and an
//! exact distance predicate; route reconstruction follows the
//! lowest-indexed predecessor, which makes the routed path a function of
//! the snapshot.

use vstd::prelude::*;
use crate::construction::Construction;
use crate::connection::Connection;

verus! {

/// The id of the node at each position.
pub open spec fn node_ids(nodes: Seq<(u64, Construction)>) -> Seq<u64> {
    nodes.map_values(|p: (u64, Construction)| p.0)
}

/// Whether some node carries the given id.
pub open spec fn has_node(nodes: Seq<(u64, Construction)>, id: u64) -> bool {
    exists|i: int| 0 <= i < nodes.len() && #[trigger] nodes[i].0 == id
}

/// No two nodes share an id.
pub open spec fn unique_ids(nodes: Seq<(u64, Construction)>) -> bool {
    forall|i: int, j: int|
        0 <= i < j < nodes.len() ==> #[trigger] nodes[i].0 != #[trigger] nodes[j].0
}

/// Whether the connection links the two ids, in either order.
pub open spec fn edge_links(e: Connection, x: u64, y: u64) -> bool {
    e.spec_between() == (x, y) || e.spec_between() == (y, x)
}

/// Undirected adjacency: both ids are present in the node set and some
/// connection links them. A connection naming an absent node links
/// nothing: such an edge is dropped rather than failing the computation.
pub open spec fn adjacent(
    nodes: Seq<(u64, Construction)>,
    edges: Seq<Connection>,
    x: u64,
    y: u64,
) -> bool {
    has_node(nodes, x) && has_node(nodes, y) && exists|k: int|
        0 <= k < edges.len() && edge_links(#[trigger] edges[k], x, y)
}

/// Whether `v` can be reached from `s` along at most `k` connections.
pub open spec fn reach_within(
    nodes: Seq<(u64, Construction)>,
    edges: Seq<Connection>,
    s: u64,
    v: u64,
    k: nat,
) -> bool
    decreases k,
{
    if v == s {
        true
    } else if k == 0 {
        false
    } else {
        exists|u: u64|
            #[trigger] adjacent(nodes, edges, u, v) && reach_within(
                nodes,
                edges,
                s,
                u,
                (k - 1) as nat,
            )
    }
}

/// Reachability: with `n` nodes, a shortest route crosses at most `n - 1`
/// connections, so reachability is reachability within that many steps.
pub open spec fn reachable(
    nodes: Seq<(u64, Construction)>,
    edges: Seq<Connection>,
    s: u64,
    v: u64,
) -> bool {
    nodes.len() > 0 && reach_within(nodes, edges, s, v, (nodes.len() - 1) as nat)
}

/// `d` is the exact shortest-route length from `s` to `v`.
pub open spec fn is_dist(
    nodes: Seq<(u64, Construction)>,
    edges: Seq<Connection>,
    s: u64,
    v: u64,
    d: nat,
) -> bool {
    reach_within(nodes, edges, s, v, d) && forall|k: nat|
        k < d ==> !#[trigger] reach_within(nodes, edges, s, v, k)
}

/// The shortest-route length from `s` to `v`; meaningful only when `v` is
/// reachable from `s`.
pub open spec fn dist(
    nodes: Seq<(u64, Construction)>,
    edges: Seq<Connection>,
    s: u64,
    v: u64,
) -> nat {
    choose|d: nat| is_dist(nodes, edges, s, v, d)
}

/// Adjacency does not depend on the order of its endpoints.
pub proof fn lemma_adjacent_sym(
    nodes: Seq<(u64, Construction)>,
    edges: Seq<Connection>,
    x: u64,
    y: u64,
)
    requires
        adjacent(nodes, edges, x, y),
    ensures
        adjacent(nodes, edges, y, x),
{
    let k = choose|k: int| 0 <= k < edges.len() && edge_links(#[trigger] edges[k], x, y);
    assert(edge_links(edges[k], y, x));
}

/// A step along an edge extends reachability by one.
pub proof fn lemma_adjacent_step(
    nodes: Seq<(u64, Construction)>,
    edges: Seq<Connection>,
    s: u64,
    u: u64,
    v: u64,
    k: nat,
)
    requires
        adjacent(nodes, edges, u, v),
        reach_within(nodes, edges, s, u, k),
    ensures
        reach_within(nodes, edges, s, v, (k + 1) as nat),
{
}

/// Reachability within `k` steps implies reachability within any larger
/// bound.
pub proof fn lemma_reach_mono(
    nodes: Seq<(u64, Construction)>,
    edges: Seq<Connection>,
    s: u64,
    v: u64,
    k1: nat,
    k2: nat,
)
    requires
        reach_within(nodes, edges, s, v, k1),
        k1 <= k2,
    ensures
        reach_within(nodes, edges, s, v, k2),
    decreases k1,
{
    if v != s && k1 > 0 && k1 < k2 {
        let u = choose|u: u64|
            #[trigger] adjacent(nodes, edges, u, v) && reach_within(
                nodes,
                edges,
                s,
                u,
                (k1 - 1) as nat,
            );
        lemma_reach_mono(nodes, edges, s, u, (k1 - 1) as nat, (k2 - 1) as nat);
    }
}

/// Every reachable node has an exact shortest-route length, no larger than
/// any witnessed bound.
pub proof fn lemma_dist_exists(
    nodes: Seq<(u64, Construction)>,
    edges: Seq<Connection>,
    s: u64,
    v: u64,
    k: nat,
)
    requires
        reach_within(nodes, edges, s, v, k),
    ensures
        exists|d: nat| #[trigger] is_dist(nodes, edges, s, v, d) && d <= k,
    decreases k,
{
    if k > 0 && reach_within(nodes, edges, s, v, (k - 1) as nat) {
        lemma_dist_exists(nodes, edges, s, v, (k - 1) as nat);
    } else {
        assert forall|j: nat| j < k implies !#[trigger] reach_within(nodes, edges, s, v, j) by {
            if reach_within(nodes, edges, s, v, j) {
                lemma_reach_mono(nodes, edges, s, v, j, (k - 1) as nat);
            }
        }
        assert(is_dist(nodes, edges, s, v, k));
    }
}

/// The exact shortest-route length is unique, so `dist` returns it.
pub proof fn lemma_is_dist_dist(
    nodes: Seq<(u64, Construction)>,
    edges: Seq<Connection>,
    s: u64,
    v: u64,
    d: nat,
)
    requires
        is_dist(nodes, edges, s, v, d),
    ensures
        dist(nodes, edges, s, v) == d,
{
    let d2 = dist(nodes, edges, s, v);
    assert(is_dist(nodes, edges, s, v, d2));
    if d < d2 {
        assert(!reach_within(nodes, edges, s, v, d));
    } else if d2 < d {
        assert(!reach_within(nodes, edges, s, v, d2));
    }
}

/// Distance zero is had by the source alone.
pub proof fn lemma_dist_zero(
    nodes: Seq<(u64, Construction)>,
    edges: Seq<Connection>,
    s: u64,
    v: u64,
)
    ensures
        is_dist(nodes, edges, s, v, 0) <==> v == s,
{
}

/// A node at exact distance `d >= 1` has a neighbour at exact distance
/// `d - 1`.
pub proof fn lemma_dist_pred_exists(
    nodes: Seq<(u64, Construction)>,
    edges: Seq<Connection>,
    s: u64,
    v: u64,
    d: nat,
)
    requires
        is_dist(nodes, edges, s, v, d),
        d >= 1,
    ensures
        exists|u: u64|
            #[trigger] adjacent(nodes, edges, u, v) && is_dist(
                nodes,
                edges,
                s,
                u,
                (d - 1) as nat,
            ),
{
    assert(v != s) by {
        assert(!reach_within(nodes, edges, s, v, 0));
    }
    let u = choose|u: u64|
        #[trigger] adjacent(nodes, edges, u, v) && reach_within(nodes, edges, s, u, (d - 1) as nat);
    lemma_dist_exists(nodes, edges, s, u, (d - 1) as nat);
    let du = choose|du: nat| #[trigger] is_dist(nodes, edges, s, u, du) && du <= d - 1;
    if du < d - 1 {
        lemma_adjacent_step(nodes, edges, s, u, v, du);
        assert(!reach_within(nodes, edges, s, v, (du + 1) as nat));
        assert(false);
    }
    assert(adjacent(nodes, edges, u, v) && is_dist(nodes, edges, s, u, (d - 1) as nat));
}

/// An explicit route through the graph, target first: every consecutive
/// pair of nodes is adjacent, read toward the source.
pub open spec fn is_route(
    nodes: Seq<(u64, Construction)>,
    edges: Seq<Connection>,
    p: Seq<u64>,
) -> bool {
    p.len() >= 1 && forall|w: int| 0 <= w < p.len() - 1 ==> adjacent(nodes, edges, #[trigger] p[w + 1], p[w])
}

/// A route witnesses reachability within its own edge count.
pub proof fn lemma_route_reaches(
    nodes: Seq<(u64, Construction)>,
    edges: Seq<Connection>,
    p: Seq<u64>,
)
    requires
        is_route(nodes, edges, p),
    ensures
        reach_within(nodes, edges, p.last(), p[0], (p.len() - 1) as nat),
    decreases p.len(),
{
    if p.len() > 1 {
        let q = p.subrange(1, p.len() as int);
        assert(is_route(nodes, edges, q)) by {
            assert(forall|w: int| 0 <= w < q.len() - 1 ==> #[trigger] q[w] == p[w + 1]);
        }
        lemma_route_reaches(nodes, edges, q);
        assert(q.last() == p.last() && q[0] == p[1]);
        lemma_adjacent_step(nodes, edges, p.last(), p[1], p[0], (p.len() - 2) as nat);
    }
}

/// Minimality made explicit: no route from the target back to the source
/// crosses fewer connections than the exact distance.
pub proof fn lemma_no_shorter_route(
    nodes: Seq<(u64, Construction)>,
    edges: Seq<Connection>,
    s: u64,
    t: u64,
    d: nat,
    p: Seq<u64>,
)
    requires
        is_dist(nodes, edges, s, t, d),
        is_route(nodes, edges, p),
        p[0] == t,
        p.last() == s,
    ensures
        p.len() >= d + 1,
{
    lemma_route_reaches(nodes, edges, p);
    if p.len() < d + 1 {
        assert(!reach_within(nodes, edges, s, t, (p.len() - 1) as nat));
    }
}

/// Whether position `i` holds a predecessor of `v` on some shortest route
/// from `s`: a neighbour of `v` one step nearer the source.
pub open spec fn is_pred_idx(
    nodes: Seq<(u64, Construction)>,
    edges: Seq<Connection>,
    s: u64,
    v: u64,
    i: int,
) -> bool {
    0 <= i < nodes.len() && adjacent(nodes, edges, nodes[i].0, v) && is_dist(
        nodes,
        edges,
        s,
        nodes[i].0,
        (dist(nodes, edges, s, v) - 1) as nat,
    )
}

/// The first predecessor position of `v` at or after position `i`;
/// `nodes.len()` when there is none.
pub open spec fn first_pred_from(
    nodes: Seq<(u64, Construction)>,
    edges: Seq<Connection>,
    s: u64,
    v: u64,
    i: int,
) -> int
    decreases nodes.len() - i,
{
    if i < 0 || i >= nodes.len() {
        nodes.len() as int
    } else if is_pred_idx(nodes, edges, s, v, i) {
        i
    } else {
        first_pred_from(nodes, edges, s, v, i + 1)
    }
}

/// The predecessor of `v` chosen for route reconstruction: the node at the
/// lowest position that is one step nearer the source. The choice of the
/// lowest position is this library's tie-break among equally short routes;
/// callers should not lean on it.
pub open spec fn pred_idx(
    nodes: Seq<(u64, Construction)>,
    edges: Seq<Connection>,
    s: u64,
    v: u64,
) -> int {
    first_pred_from(nodes, edges, s, v, 0)
}

/// The id of the chosen predecessor of `v`.
pub open spec fn pred_id(
    nodes: Seq<(u64, Construction)>,
    edges: Seq<Connection>,
    s: u64,
    v: u64,
) -> u64 {
    nodes[pred_idx(nodes, edges, s, v)].0
}

/// `j` predecessor steps from `t` toward the source.
pub open spec fn pred_iter(
    nodes: Seq<(u64, Construction)>,
    edges: Seq<Connection>,
    s: u64,
    t: u64,
    j: nat,
) -> u64
    decreases j,
{
    if j == 0 {
        t
    } else {
        pred_id(nodes, edges, s, pred_iter(nodes, edges, s, t, (j - 1) as nat))
    }
}

/// The routed path from target `t` back to source `s`: target first,
/// source last, following chosen predecessors.
pub open spec fn path_spec(
    nodes: Seq<(u64, Construction)>,
    edges: Seq<Connection>,
    s: u64,
    t: u64,
) -> Seq<u64> {
    Seq::new(
        (dist(nodes, edges, s, t) + 1) as nat,
        |i: int| pred_iter(nodes, edges, s, t, i as nat),
    )
}

/// Characterizes `first_pred_from`: within bounds it lands on a
/// predecessor position and skips none before it; out of bounds it
/// reports `nodes.len()`.
pub proof fn lemma_first_pred_from(
    nodes: Seq<(u64, Construction)>,
    edges: Seq<Connection>,
    s: u64,
    v: u64,
    i: int,
)
    requires
        0 <= i <= nodes.len(),
    ensures
        ({
            let r = first_pred_from(nodes, edges, s, v, i);
            &&& i <= r <= nodes.len()
            &&& (r < nodes.len() ==> is_pred_idx(nodes, edges, s, v, r))
            &&& forall|j: int| i <= j < r ==> !#[trigger] is_pred_idx(nodes, edges, s, v, j)
            &&& (r == nodes.len() ==> forall|j: int|
                i <= j < nodes.len() ==> !#[trigger] is_pred_idx(nodes, edges, s, v, j))
        }),
    decreases nodes.len() - i,
{
    if i < nodes.len() && !is_pred_idx(nodes, edges, s, v, i) {
        lemma_first_pred_from(nodes, edges, s, v, i + 1);
    }
}

/// A node at exact distance `d >= 1` has a chosen predecessor: a valid
/// position, adjacent, at exact distance `d - 1`.
pub proof fn lemma_pred_idx_valid(
    nodes: Seq<(u64, Construction)>,
    edges: Seq<Connection>,
    s: u64,
    v: u64,
    d: nat,
)
    requires
        is_dist(nodes, edges, s, v, d),
        d >= 1,
    ensures
        ({
            let p = pred_idx(nodes, edges, s, v);
            &&& 0 <= p < nodes.len()
            &&& adjacent(nodes, edges, nodes[p].0, v)
            &&& is_dist(nodes, edges, s, nodes[p].0, (d - 1) as nat)
            &&& forall|j: int| 0 <= j < p ==> !#[trigger] is_pred_idx(nodes, edges, s, v, j)
        }),
{
    lemma_is_dist_dist(nodes, edges, s, v, d);
    lemma_dist_pred_exists(nodes, edges, s, v, d);
    let u = choose|u: u64|
        #[trigger] adjacent(nodes, edges, u, v) && is_dist(nodes, edges, s, u, (d - 1) as nat);
    let i = choose|i: int| 0 <= i < nodes.len() && #[trigger] nodes[i].0 == u;
    assert(is_pred_idx(nodes, edges, s, v, i));
    lemma_first_pred_from(nodes, edges, s, v, 0);
    let p = pred_idx(nodes, edges, s, v);
    assert(p < nodes.len());
}

/// The facts route reconstruction rests on: along the routed path from a
/// target at exact distance `d`, position `i` holds a node at exact
/// distance `d - i`, consecutive nodes are adjacent, the path starts at
/// the target and ends at the source, and no node repeats.
pub proof fn lemma_path_spec_props(
    nodes: Seq<(u64, Construction)>,
    edges: Seq<Connection>,
    s: u64,
    t: u64,
    d: nat,
)
    requires
        is_dist(nodes, edges, s, t, d),
    ensures
        ({
            let p = path_spec(nodes, edges, s, t);
            &&& p.len() == d + 1
            &&& p[0] == t
            &&& p[d as int] == s
            &&& forall|i: int|
                0 <= i <= d ==> is_dist(nodes, edges, s, #[trigger] p[i], (d - i) as nat)
            &&& forall|i: int|
                0 <= i < d ==> adjacent(nodes, edges, #[trigger] p[i + 1], p[i])
            &&& forall|i: int, j: int| 0 <= i < j <= d ==> #[trigger] p[i] != #[trigger] p[j]
        }),
{
    lemma_is_dist_dist(nodes, edges, s, t, d);
    let p = path_spec(nodes, edges, s, t);
    assert forall|i: int| 0 <= i <= d implies is_dist(
        nodes,
        edges,
        s,
        #[trigger] p[i],
        (d - i) as nat,
    ) && (i < d ==> adjacent(nodes, edges, p[i + 1], p[i])) by {
        lemma_pred_iter_props(nodes, edges, s, t, d, i as nat);
    }
    assert(p[0] == t);
    assert(is_dist(nodes, edges, s, p[d as int], 0));
    lemma_dist_zero(nodes, edges, s, p[d as int]);
    assert forall|i: int, j: int| 0 <= i < j <= d implies #[trigger] p[i] != #[trigger] p[j] by {
        if p[i] == p[j] {
            lemma_is_dist_dist(nodes, edges, s, p[i], (d - i) as nat);
            lemma_is_dist_dist(nodes, edges, s, p[j], (d - j) as nat);
        }
    }
}

/// Each predecessor step lowers the exact distance by one and crosses an
/// edge.
proof fn lemma_pred_iter_props(
    nodes: Seq<(u64, Construction)>,
    edges: Seq<Connection>,
    s: u64,
    t: u64,
    d: nat,
    j: nat,
)
    requires
        is_dist(nodes, edges, s, t, d),
        j <= d,
    ensures
        is_dist(nodes, edges, s, pred_iter(nodes, edges, s, t, j), (d - j) as nat),
        j < d ==> adjacent(
            nodes,
            edges,
            pred_iter(nodes, edges, s, t, (j + 1) as nat),
            pred_iter(nodes, edges, s, t, j),
        ),
    decreases j,
{
    if j == 0 {
        if 0 < d {
            lemma_pred_idx_valid(nodes, edges, s, t, d);
        }
    } else {
        lemma_pred_iter_props(nodes, edges, s, t, d, (j - 1) as nat);
        let v = pred_iter(nodes, edges, s, t, j);
        assert(is_dist(nodes, edges, s, v, (d - j) as nat)) by {
            let w = pred_iter(nodes, edges, s, t, (j - 1) as nat);
            lemma_pred_idx_valid(nodes, edges, s, w, (d - (j - 1)) as nat);
        }
        if j < d {
            lemma_pred_idx_valid(nodes, edges, s, v, (d - j) as nat);
        }
    }
}

} // verus!
