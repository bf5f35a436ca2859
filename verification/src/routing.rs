//! Routing: single-source shortest paths over the connection graph. From
//! one source construction, a label-correcting relaxation pass computes
//! exact shortest distances (unit weight per connection), and a path is
//! reconstructed for every reachable energy consumer. Each returned path
//! runs target first, source last. Connections naming an absent
//! construction are dropped rather than failing the computation;
//! unreachable consumers are simply omitted.

use vstd::prelude::*;
use crate::construction::Construction;
use crate::connection::Connection;
use crate::game_configuration::GameConfiguration;
use crate::graph::{
    adjacent, edge_links, first_pred_from, has_node, is_dist, is_pred_idx,
    lemma_adjacent_step, lemma_adjacent_sym, lemma_first_pred_from, lemma_is_dist_dist,
    lemma_path_spec_props, lemma_pred_idx_valid, lemma_reach_mono, path_spec, pred_id, pred_idx,
    pred_iter, reach_within, reachable, unique_ids,
};

verus! {

/// The position of the node carrying `id`; meaningful when the id is
/// present and ids are unique.
pub open spec fn idx_of(nodes: Seq<(u64, Construction)>, id: u64) -> int {
    choose|i: int| 0 <= i < nodes.len() && #[trigger] nodes[i].0 == id
}

/// Whether the index-pair list links positions `i` and `j`, in either
/// order.
pub open spec fn idx_adj(ie: Seq<(usize, usize)>, i: int, j: int) -> bool {
    exists|k: int|
        0 <= k < ie.len() && (#[trigger] ie[k] == (i as usize, j as usize) || ie[k] == (
        j as usize,
        i as usize,
        ))
}

/// The index-pair list mirrors adjacency exactly: every pair is a linked
/// pair of valid positions, and every adjacency is covered.
pub open spec fn idx_edges_ok(
    nodes: Seq<(u64, Construction)>,
    edges: Seq<Connection>,
    ie: Seq<(usize, usize)>,
) -> bool {
    &&& forall|k: int|
        0 <= k < ie.len() ==> (#[trigger] ie[k]).0 < nodes.len() && ie[k].1 < nodes.len()
            && adjacent(nodes, edges, nodes[ie[k].0 as int].0, nodes[ie[k].1 as int].0)
    &&& forall|i: int, j: int|
        0 <= i < nodes.len() && 0 <= j < nodes.len() && adjacent(
            nodes,
            edges,
            nodes[i].0,
            nodes[j].0,
        ) ==> #[trigger] idx_adj(ie, i, j)
}

/// The distance labels are finished: within bounds, exact for every
/// reachable node, and the sentinel `nodes.len()` exactly on the
/// unreachable ones.
pub open spec fn dists_ok(
    nodes: Seq<(u64, Construction)>,
    edges: Seq<Connection>,
    s: u64,
    dv: Seq<usize>,
) -> bool {
    &&& dv.len() == nodes.len()
    &&& forall|i: int| 0 <= i < nodes.len() ==> #[trigger] dv[i] <= nodes.len()
    &&& forall|i: int|
        0 <= i < nodes.len() && #[trigger] dv[i] < nodes.len() ==> is_dist(
            nodes,
            edges,
            s,
            nodes[i].0,
            dv[i] as nat,
        )
    &&& forall|i: int|
        0 <= i < nodes.len() && #[trigger] dv[i] == nodes.len() ==> !reachable(
            nodes,
            edges,
            s,
            nodes[i].0,
        )
}

/// Whether the node at position `j` is a routing target for source `s`:
/// an energy consumer other than the source, reachable from it.
pub open spec fn target_at(
    nodes: Seq<(u64, Construction)>,
    edges: Seq<Connection>,
    s: u64,
    cfg: GameConfiguration,
    j: int,
) -> bool {
    &&& 0 <= j < nodes.len()
    &&& cfg.spec_energy_input(nodes[j].1.kind) > 0
    &&& nodes[j].0 != s
    &&& reachable(nodes, edges, s, nodes[j].0)
}

/// The routed paths for the targets among the first `j` node positions,
/// in position order.
pub open spec fn paths_spec_upto(
    nodes: Seq<(u64, Construction)>,
    edges: Seq<Connection>,
    s: u64,
    cfg: GameConfiguration,
    j: int,
) -> Seq<Seq<u64>>
    decreases j,
{
    if j <= 0 {
        Seq::empty()
    } else if target_at(nodes, edges, s, cfg, j - 1) {
        paths_spec_upto(nodes, edges, s, cfg, j - 1).push(
            path_spec(nodes, edges, s, nodes[j - 1].0),
        )
    } else {
        paths_spec_upto(nodes, edges, s, cfg, j - 1)
    }
}

/// The routed paths from `s`: one per reachable consumer, in node order.
pub open spec fn paths_spec(
    nodes: Seq<(u64, Construction)>,
    edges: Seq<Connection>,
    s: u64,
    cfg: GameConfiguration,
) -> Seq<Seq<u64>> {
    paths_spec_upto(nodes, edges, s, cfg, nodes.len() as int)
}

/// Routed-path lists over more node positions extend those over fewer:
/// earlier entries stay in place.
pub proof fn lemma_paths_upto_prefix(
    nodes: Seq<(u64, Construction)>,
    edges: Seq<Connection>,
    s: u64,
    cfg: GameConfiguration,
    j1: int,
    j2: int,
)
    requires
        0 <= j1 <= j2,
    ensures
        paths_spec_upto(nodes, edges, s, cfg, j1).len() <= paths_spec_upto(
            nodes,
            edges,
            s,
            cfg,
            j2,
        ).len(),
        forall|k: int|
            0 <= k < paths_spec_upto(nodes, edges, s, cfg, j1).len() ==> paths_spec_upto(
                nodes,
                edges,
                s,
                cfg,
                j2,
            )[k] == #[trigger] paths_spec_upto(nodes, edges, s, cfg, j1)[k],
    decreases j2 - j1,
{
    if j1 < j2 {
        lemma_paths_upto_prefix(nodes, edges, s, cfg, j1, j2 - 1);
    }
}

/// Where paths remain beyond the first `j` positions, the next one is the
/// routed path of the first target at or after position `j`, and starts
/// at that target.
pub proof fn lemma_paths_upto_entry(
    nodes: Seq<(u64, Construction)>,
    edges: Seq<Connection>,
    s: u64,
    cfg: GameConfiguration,
    j: int,
)
    requires
        0 <= j <= nodes.len(),
        paths_spec_upto(nodes, edges, s, cfg, j).len() < paths_spec(nodes, edges, s, cfg).len(),
    ensures
        ({
            let c = paths_spec_upto(nodes, edges, s, cfg, j).len() as int;
            exists|j2: int|
                j <= j2 < nodes.len() && #[trigger] target_at(nodes, edges, s, cfg, j2) && paths_spec(
                    nodes,
                    edges,
                    s,
                    cfg,
                )[c] == path_spec(nodes, edges, s, nodes[j2].0)
        }),
    decreases nodes.len() - j,
{
    let c = paths_spec_upto(nodes, edges, s, cfg, j).len() as int;
    if target_at(nodes, edges, s, cfg, j) {
        lemma_paths_upto_prefix(nodes, edges, s, cfg, j + 1, nodes.len() as int);
        assert(paths_spec_upto(nodes, edges, s, cfg, j + 1)[c] == path_spec(
            nodes,
            edges,
            s,
            nodes[j].0,
        ));
        assert(target_at(nodes, edges, s, cfg, j) && paths_spec(nodes, edges, s, cfg)[c]
            == path_spec(nodes, edges, s, nodes[j].0));
    } else {
        lemma_paths_upto_entry(nodes, edges, s, cfg, j + 1);
    }
}

/// The first position holding `id`, if any.
fn find_index_of(nodes: &Vec<(u64, Construction)>, id: u64) -> (r: Option<usize>)
    ensures
        match r {
            Some(i) => i < nodes@.len() && nodes@[i as int].0 == id,
            None => !has_node(nodes@, id),
        },
{
    let n = nodes.len();
    for i in 0..n
        invariant
            n == nodes@.len(),
            forall|j: int| 0 <= j < i ==> #[trigger] nodes@[j].0 != id,
    {
        if nodes[i].0 == id {
            return Some(i);
        }
    }
    None
}

/// Resolves every connection to a pair of node positions, dropping the
/// connections that name an absent construction.
#[verifier::loop_isolation(false)]
fn collect_index_edges(nodes: &Vec<(u64, Construction)>, edges: &Vec<Connection>) -> (ie: Vec<
    (usize, usize),
>)
    requires
        unique_ids(nodes@),
    ensures
        idx_edges_ok(nodes@, edges@, ie@),
{
    let m = edges.len();
    let mut ie: Vec<(usize, usize)> = Vec::new();
    for e in 0..m
        invariant
            forall|k: int|
                0 <= k < ie@.len() ==> (#[trigger] ie@[k]).0 < nodes@.len() && ie@[k].1
                    < nodes@.len() && adjacent(
                    nodes@,
                    edges@,
                    nodes@[ie@[k].0 as int].0,
                    nodes@[ie@[k].1 as int].0,
                ),
            forall|q: int|
                0 <= q < e ==> {
                    let x = (#[trigger] edges@[q]).spec_between().0;
                    let y = edges@[q].spec_between().1;
                    has_node(nodes@, x) && has_node(nodes@, y) ==> idx_adj(
                        ie@,
                        idx_of(nodes@, x),
                        idx_of(nodes@, y),
                    )
                },
    {
        let pair = *edges[e].between();
        let ia_opt = find_index_of(nodes, pair.0);
        let ib_opt = find_index_of(nodes, pair.1);
        match (ia_opt, ib_opt) {
            (Some(ia), Some(ib)) => {
                let ghost ie_old = ie@;
                ie.push((ia, ib));
                proof {
                    assert(nodes@[ia as int].0 == pair.0 && 0 <= ia < nodes@.len());
                    assert(nodes@[ib as int].0 == pair.1 && 0 <= ib < nodes@.len());
                    assert(idx_of(nodes@, pair.0) == ia as int);
                    assert(idx_of(nodes@, pair.1) == ib as int);
                    assert(edge_links(edges@[e as int], pair.0, pair.1));
                    assert forall|q: int|
                        0 <= q < e + 1 implies {
                        let x = (#[trigger] edges@[q]).spec_between().0;
                        let y = edges@[q].spec_between().1;
                        has_node(nodes@, x) && has_node(nodes@, y) ==> idx_adj(
                            ie@,
                            idx_of(nodes@, x),
                            idx_of(nodes@, y),
                        )
                    } by {
                        let x = edges@[q].spec_between().0;
                        let y = edges@[q].spec_between().1;
                        if has_node(nodes@, x) && has_node(nodes@, y) {
                            if q < e {
                                assert(idx_adj(ie_old, idx_of(nodes@, x), idx_of(nodes@, y)));
                                let k = choose|k: int|
                                    0 <= k < ie_old.len() && (#[trigger] ie_old[k] == (
                                    idx_of(nodes@, x) as usize,
                                    idx_of(nodes@, y) as usize,
                                ) || ie_old[k] == (
                                    idx_of(nodes@, y) as usize,
                                    idx_of(nodes@, x) as usize,
                                ));
                                assert(ie@[k] == ie_old[k]);
                            } else {
                                assert(ie@[ie@.len() - 1] == (ia, ib));
                            }
                        }
                    }
                }
            },
            _ => {
                proof {
                    if ia_opt is Some && ib_opt is None {
                        assert(!has_node(nodes@, pair.1));
                    }
                }
            },
        }
    }
    proof {
        assert forall|i: int, j: int|
            0 <= i < nodes@.len() && 0 <= j < nodes@.len() && adjacent(
                nodes@,
                edges@,
                nodes@[i].0,
                nodes@[j].0,
            ) implies #[trigger] idx_adj(ie@, i, j) by {
            let x = nodes@[i].0;
            let y = nodes@[j].0;
            let q = choose|q: int| 0 <= q < edges@.len() && edge_links(#[trigger] edges@[q], x, y);
            assert(idx_of(nodes@, x) == i);
            assert(idx_of(nodes@, y) == j);
            let bx = edges@[q].spec_between().0;
            let by = edges@[q].spec_between().1;
            assert((bx == x && by == y) || (bx == y && by == x));
            assert(has_node(nodes@, bx) && has_node(nodes@, by));
            assert(idx_adj(ie@, idx_of(nodes@, bx), idx_of(nodes@, by)));
        }
    }
    ie
}

/// One relaxation pass per node computes exact shortest distances from
/// the source position, with `nodes.len()` as the unreachable sentinel.
#[verifier::loop_isolation(false)]
fn relaxation_dists(
    nodes: &Vec<(u64, Construction)>,
    ie: &Vec<(usize, usize)>,
    src: usize,
    Ghost(edges): Ghost<Seq<Connection>>,
) -> (dv: Vec<usize>)
    requires
        unique_ids(nodes@),
        src < nodes@.len(),
        idx_edges_ok(nodes@, edges, ie@),
    ensures
        dists_ok(nodes@, edges, nodes@[src as int].0, dv@),
{
    let ghost s = nodes@[src as int].0;
    let n = nodes.len();
    let m = ie.len();
    let mut dv: Vec<usize> = vec![n; n];
    dv[src] = 0;
    proof {
        assert forall|i: int, k: nat|
            0 <= i < n && k <= 0 && reach_within(nodes@, edges, s, nodes@[i].0, k) implies dv@[i]
            <= k by {
            assert(nodes@[i].0 == s);
            assert(i == src as int);
        }
    }
    for r in 0..n
        invariant
            dv@.len() == n,
            dv@[src as int] == 0,
            forall|i: int| 0 <= i < n ==> #[trigger] dv@[i] <= n,
            forall|i: int|
                0 <= i < n && #[trigger] dv@[i] < n ==> reach_within(
                    nodes@,
                    edges,
                    s,
                    nodes@[i].0,
                    dv@[i] as nat,
                ),
            forall|i: int, k: nat|
                0 <= i < n && k <= r && #[trigger] reach_within(nodes@, edges, s, nodes@[i].0, k)
                    ==> dv@[i] <= k,
    {
        let ghost dist0 = dv@;
        for p in 0..m
            invariant
                dv@.len() == n,
                dv@[src as int] == 0,
                forall|i: int| 0 <= i < n ==> #[trigger] dv@[i] <= n,
                forall|i: int| 0 <= i < n ==> #[trigger] dv@[i] <= dist0[i],
                forall|i: int|
                    0 <= i < n && #[trigger] dv@[i] < n ==> reach_within(
                        nodes@,
                        edges,
                        s,
                        nodes@[i].0,
                        dv@[i] as nat,
                    ),
                forall|i: int, k: nat|
                    0 <= i < n && k <= r && #[trigger] reach_within(
                        nodes@,
                        edges,
                        s,
                        nodes@[i].0,
                        k,
                    ) ==> dist0[i] <= k,
                forall|q: int|
                    0 <= q < p ==> {
                        let a = (#[trigger] ie@[q]).0 as int;
                        let b = ie@[q].1 as int;
                        &&& (dist0[a] < n ==> dv@[b] <= dist0[a] + 1)
                        &&& (dist0[b] < n ==> dv@[a] <= dist0[b] + 1)
                    },
        {
            let (a, b) = ie[p];
            let da = dv[a];
            let db = dv[b];
            if da < n && da + 1 < db {
                dv[b] = da + 1;
                proof {
                    lemma_adjacent_step(
                        nodes@,
                        edges,
                        s,
                        nodes@[a as int].0,
                        nodes@[b as int].0,
                        da as nat,
                    );
                }
            }
            let da2 = dv[a];
            let db2 = dv[b];
            if db2 < n && db2 + 1 < da2 {
                dv[a] = db2 + 1;
                proof {
                    lemma_adjacent_step(
                        nodes@,
                        edges,
                        s,
                        nodes@[b as int].0,
                        nodes@[a as int].0,
                        db2 as nat,
                    );
                }
            }
        }
        proof {
            assert forall|i: int, k: nat|
                0 <= i < n && k <= r + 1 && #[trigger] reach_within(
                    nodes@,
                    edges,
                    s,
                    nodes@[i].0,
                    k,
                ) implies dv@[i] <= k by {
                if k <= r {
                    assert(dist0[i] <= k);
                } else {
                    let vid = nodes@[i].0;
                    if vid == s {
                        assert(i == src as int);
                    } else {
                        let u = choose|u: u64|
                            #[trigger] adjacent(nodes@, edges, u, vid) && reach_within(
                                nodes@,
                                edges,
                                s,
                                u,
                                (k - 1) as nat,
                            );
                        assert(has_node(nodes@, u));
                        let iu = choose|iu: int| 0 <= iu < nodes@.len() && #[trigger] nodes@[iu].0
                            == u;
                        assert(dist0[iu] <= k - 1);
                        assert(idx_adj(ie@, iu, i));
                        let q = choose|q: int|
                            0 <= q < ie@.len() && (#[trigger] ie@[q] == (iu as usize, i as usize)
                                || ie@[q] == (i as usize, iu as usize));
                        assert(dv@[i] <= dist0[iu] + 1);
                    }
                }
            }
        }
    }
    proof {
        assert forall|i: int|
            0 <= i < n && #[trigger] dv@[i] < n implies is_dist(
            nodes@,
            edges,
            s,
            nodes@[i].0,
            dv@[i] as nat,
        ) by {
            assert forall|k: nat| k < dv@[i] implies !#[trigger] reach_within(
                nodes@,
                edges,
                s,
                nodes@[i].0,
                k,
            ) by {
                if reach_within(nodes@, edges, s, nodes@[i].0, k) {
                    assert(dv@[i] <= k);
                }
            }
        }
        assert forall|i: int|
            0 <= i < n && #[trigger] dv@[i] == n implies !reachable(
            nodes@,
            edges,
            s,
            nodes@[i].0,
        ) by {
            if reachable(nodes@, edges, s, nodes@[i].0) {
                assert(reach_within(nodes@, edges, s, nodes@[i].0, (n - 1) as nat));
                assert(dv@[i] <= n - 1);
            }
        }
    }
    dv
}

/// Whether the index-pair list links the two positions.
fn has_link(ie: &Vec<(usize, usize)>, i: usize, j: usize) -> (r: bool)
    ensures
        r == idx_adj(ie@, i as int, j as int),
{
    let m = ie.len();
    for k in 0..m
        invariant
            m == ie@.len(),
            forall|q: int|
                0 <= q < k ==> !(#[trigger] ie@[q] == (i, j) || ie@[q] == (j, i)),
    {
        let (a, b) = ie[k];
        if (a == i && b == j) || (a == j && b == i) {
            return true;
        }
    }
    false
}

/// The chosen predecessor position of the node at `cur`: the lowest
/// position adjacent to it and one step nearer the source.
#[verifier::loop_isolation(false)]
fn find_pred(
    nodes: &Vec<(u64, Construction)>,
    ie: &Vec<(usize, usize)>,
    dv: &Vec<usize>,
    cur: usize,
    Ghost(edges): Ghost<Seq<Connection>>,
    Ghost(s): Ghost<u64>,
) -> (r: usize)
    requires
        unique_ids(nodes@),
        idx_edges_ok(nodes@, edges, ie@),
        dists_ok(nodes@, edges, s, dv@),
        cur < nodes@.len(),
        1 <= dv@[cur as int] < nodes@.len(),
    ensures
        r < nodes@.len(),
        r as int == pred_idx(nodes@, edges, s, nodes@[cur as int].0),
        nodes@[r as int].0 == pred_id(nodes@, edges, s, nodes@[cur as int].0),
{
    let n = nodes.len();
    let ghost v = nodes@[cur as int].0;
    let ghost d = dv@[cur as int] as nat;
    proof {
        lemma_is_dist_dist(nodes@, edges, s, v, d);
    }
    let mut i: usize = 0;
    while i < n
        invariant
            i <= n,
            forall|j: int| 0 <= j < i ==> !#[trigger] is_pred_idx(nodes@, edges, s, v, j),
        decreases n - i,
    {
        let linked = has_link(ie, i, cur);
        if linked && dv[i] < n && dv[i] + 1 == dv[cur] {
            proof {
                let k = choose|k: int|
                    0 <= k < ie@.len() && (#[trigger] ie@[k] == (i, cur) || ie@[k] == (cur, i));
                if ie@[k] == (cur, i) {
                    lemma_adjacent_sym(nodes@, edges, v, nodes@[i as int].0);
                }
                assert(adjacent(nodes@, edges, nodes@[i as int].0, v));
                assert(is_dist(nodes@, edges, s, nodes@[i as int].0, (d - 1) as nat));
                assert(is_pred_idx(nodes@, edges, s, v, i as int));
                lemma_first_pred_from(nodes@, edges, s, v, 0);
                let r0 = first_pred_from(nodes@, edges, s, v, 0);
                if r0 < i as int {
                    assert(!is_pred_idx(nodes@, edges, s, v, r0));
                } else if r0 > i as int {
                    assert(!is_pred_idx(nodes@, edges, s, v, i as int));
                }
            }
            return i;
        }
        proof {
            if is_pred_idx(nodes@, edges, s, v, i as int) {
                let u = nodes@[i as int].0;
                assert(idx_adj(ie@, i as int, cur as int));
                assert(is_dist(nodes@, edges, s, u, (d - 1) as nat));
                assert(reach_within(nodes@, edges, s, u, (d - 1) as nat));
                lemma_reach_mono(nodes@, edges, s, u, (d - 1) as nat, (n - 1) as nat);
                assert(reachable(nodes@, edges, s, u));
                assert(dv@[i as int] < n);
                assert(is_dist(nodes@, edges, s, u, dv@[i as int] as nat));
                lemma_is_dist_dist(nodes@, edges, s, u, dv@[i as int] as nat);
                lemma_is_dist_dist(nodes@, edges, s, u, (d - 1) as nat);
                assert(dv@[i as int] == d - 1);
                assert(false);
            }
        }
        i += 1;
    }
    proof {
        lemma_pred_idx_valid(nodes@, edges, s, v, d);
        assert(is_pred_idx(nodes@, edges, s, v, pred_idx(nodes@, edges, s, v)));
    }
    assert(false);
    0
}

/// Shortest paths from one source construction to every reachable energy
/// consumer other than the source itself: one path per consumer, in node
/// order, each running target first, source last. Each returned path is a
/// genuine route of exact shortest length (`lemma_path_spec_props` in
/// `graph`), and no route is shorter (`lemma_no_shorter_route` there).
/// Which equally short route is returned is this library's own tie-break;
/// callers must not lean on it.
#[verifier::loop_isolation(false)]
pub fn shortest_paths_from(
    nodes: &Vec<(u64, Construction)>,
    edges: &Vec<Connection>,
    from_id: u64,
    config: &GameConfiguration,
) -> (paths: Vec<Vec<u64>>)
    requires
        unique_ids(nodes@),
        has_node(nodes@, from_id),
    ensures
        paths@.map_values(|p: Vec<u64>| p@) == paths_spec(nodes@, edges@, from_id, *config),
{
    let n = nodes.len();
    let src_opt = find_index_of(nodes, from_id);
    let src = match src_opt {
        Some(i) => i,
        None => {
            assert(false);
            return Vec::new();
        },
    };
    let ie = collect_index_edges(nodes, edges);
    let dv = relaxation_dists(nodes, &ie, src, Ghost(edges@));
    let ghost s = from_id;
    let mut paths: Vec<Vec<u64>> = Vec::new();
    proof {
        assert(paths@.map_values(|p: Vec<u64>| p@) =~= paths_spec_upto(
            nodes@,
            edges@,
            s,
            *config,
            0,
        ));
    }
    for j in 0..n
        invariant
            paths@.map_values(|p: Vec<u64>| p@) == paths_spec_upto(
                nodes@,
                edges@,
                s,
                *config,
                j as int,
            ),
    {
        let ghost paths_old = paths@;
        let is_consumer = config.energy_input(&nodes[j].1.kind) > 0;
        if is_consumer && nodes[j].0 != from_id && dv[j] < n {
            let ghost t = nodes@[j as int].0;
            let ghost d = dv@[j as int] as nat;
            proof {
                assert(is_dist(nodes@, edges@, s, t, d));
                lemma_reach_mono(nodes@, edges@, s, t, d, (n - 1) as nat);
                assert(target_at(nodes@, edges@, s, *config, j as int));
                lemma_is_dist_dist(nodes@, edges@, s, t, d);
                lemma_path_spec_props(nodes@, edges@, s, t, d);
            }
            let mut path: Vec<u64> = Vec::new();
            path.push(nodes[j].0);
            let mut cur = j;
            while dv[cur] > 0
                invariant
                    cur < n,
                    1 <= path@.len() <= d + 1,
                    path@.len() - 1 + dv@[cur as int] == d,
                    nodes@[cur as int].0 == pred_iter(
                        nodes@,
                        edges@,
                        s,
                        t,
                        (path@.len() - 1) as nat,
                    ),
                    forall|w: int|
                        0 <= w < path@.len() ==> #[trigger] path@[w] == pred_iter(
                            nodes@,
                            edges@,
                            s,
                            t,
                            w as nat,
                        ),
                decreases dv@[cur as int],
            {
                let ghost w = (path@.len() - 1) as nat;
                proof {
                    let p_spec = path_spec(nodes@, edges@, s, t);
                    assert(p_spec[w as int] == pred_iter(nodes@, edges@, s, t, w));
                    assert(is_dist(nodes@, edges@, s, nodes@[cur as int].0, (d - w) as nat));
                }
                let p = find_pred(nodes, &ie, &dv, cur, Ghost(edges@), Ghost(s));
                path.push(nodes[p].0);
                cur = p;
                proof {
                    let w1 = (w + 1) as nat;
                    assert(pred_iter(nodes@, edges@, s, t, w1) == pred_id(
                        nodes@,
                        edges@,
                        s,
                        pred_iter(nodes@, edges@, s, t, w),
                    ));
                    let p_spec = path_spec(nodes@, edges@, s, t);
                    assert(p_spec[w1 as int] == pred_iter(nodes@, edges@, s, t, w1));
                    assert(is_dist(nodes@, edges@, s, nodes@[cur as int].0, (d - w1) as nat));
                    assert(reach_within(nodes@, edges@, s, nodes@[cur as int].0, (d - w1) as nat));
                    lemma_reach_mono(
                        nodes@,
                        edges@,
                        s,
                        nodes@[cur as int].0,
                        (d - w1) as nat,
                        (n - 1) as nat,
                    );
                    assert(dv@[cur as int] < n);
                    lemma_is_dist_dist(
                        nodes@,
                        edges@,
                        s,
                        nodes@[cur as int].0,
                        dv@[cur as int] as nat,
                    );
                    lemma_is_dist_dist(nodes@, edges@, s, nodes@[cur as int].0, (d - w1) as nat);
                }
            }
            proof {
                assert(path@.len() == d + 1);
                assert(path@ =~= path_spec(nodes@, edges@, s, t));
            }
            paths.push(path);
            proof {
                assert(paths@.map_values(|p: Vec<u64>| p@) =~= paths_old.map_values(
                    |p: Vec<u64>| p@,
                ).push(path_spec(nodes@, edges@, s, t)));
                assert(paths@.map_values(|p: Vec<u64>| p@) == paths_spec_upto(
                    nodes@,
                    edges@,
                    s,
                    *config,
                    j + 1,
                ));
            }
        } else {
            proof {
                if is_consumer && nodes@[j as int].0 != s {
                    assert(dv@[j as int] == n);
                    assert(!reachable(nodes@, edges@, s, nodes@[j as int].0));
                }
                assert(!target_at(nodes@, edges@, s, *config, j as int));
                assert(paths@.map_values(|p: Vec<u64>| p@) == paths_spec_upto(
                    nodes@,
                    edges@,
                    s,
                    *config,
                    j + 1,
                ));
            }
        }
    }
    paths
}

} // verus!
