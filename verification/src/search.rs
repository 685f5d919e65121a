//! The constrained shortest-path search and the route builder.
//!
//! The search is a label-correcting Dijkstra over the packed graph: a queue
//! of `(node, cost)` entries, popped in order of ascending cost, with the
//! lazy-deletion check (`cost > distance[node]` means the entry is stale) in
//! place of a decrease-key operation. Relaxing an edge records predecessor
//! state, from which the route builder walks back from the target and
//! materializes the geometric route.

use vstd::prelude::*;

use crate::cost::Metric;
use crate::cost::metric_from_name;
use crate::cost::mode_from_name;
use crate::cost::spec_edge_cost;
use crate::cost::spec_metric_from_name;
use crate::cost::spec_mode_from_name;
use crate::cost::spec_time_cost;
use crate::cost::spec_vehicle_max_speed;
use crate::cost::edge_cost;
use crate::cost::edge_cost_time;
use crate::cost::vehicle_max_speed;
use crate::graph::Graph;
use crate::graph::edge_ok;
use crate::graph::Position;
use crate::graph::has_node;
use crate::graph::resolved_to;

verus! {

/// The "infinity" marker for tentative distances: no stored cost ever
/// reaches it, since updates are strictly decreasing.
pub const INF_COST: u64 = u64::MAX;

/// A query outcome that is not a route.
#[derive(Clone, Copy, Debug, PartialEq, Eq, Structural)]
pub enum RouteError {
    /// The source or target external id is not present in the graph store.
    UnknownEndpoint,
    /// The queue was exhausted without reaching the target: the target is
    /// unreachable from the source under the requested mode.
    NoRouteFound,
}

/// A computed route: total distance in meters, total time in milliseconds
/// (always using the capped-speed formula, whatever metric the search
/// optimized), and the ordered positions from source to target. By the
/// route builder's boundary policy the source's own position is not
/// included; the path starts at the first node after the source.
#[derive(Clone, Debug, PartialEq)]
pub struct Route {
    pub distance: u64,
    pub time: u64,
    pub path: Vec<Position>,
}

/// An entry of the search queue: a node and the cost it was pushed with.
#[derive(Clone, Copy, Debug)]
pub struct HeapEntry {
    pub node: usize,
    pub cost: u64,
}

/// `es` is a chain of flat edge indices leading from node `from` to node
/// `to`, each edge lying in its source node's offset slice and permitting
/// the requested mode.
pub open spec fn is_edge_path(g: Graph, mode: u8, es: Seq<int>, from: int, to: int) -> bool
    decreases es.len(),
{
    if es.len() == 0 {
        from == to
    } else {
        let e = es[0];
        &&& 0 <= from < g.nodes@.len()
        &&& 0 <= e < g.edges@.len()
        &&& g.offsets@[from] <= e < g.offsets@[from + 1]
        &&& mode & g.edges@[e].allowed_modes != 0
        &&& is_edge_path(g, mode, es.subrange(1, es.len() as int), g.edges@[e].target as int, to)
    }
}

/// Total length of a chain of edges, in meters.
pub open spec fn path_len_sum(g: Graph, es: Seq<int>) -> int
    decreases es.len(),
{
    if es.len() == 0 {
        0
    } else {
        g.edges@[es[0]].length + path_len_sum(g, es.subrange(1, es.len() as int))
    }
}

/// Total capped-speed travel time of a chain of edges, in milliseconds.
pub open spec fn path_time_sum(g: Graph, es: Seq<int>, vmax: u64) -> int
    decreases es.len(),
{
    if es.len() == 0 {
        0
    } else {
        spec_time_cost(g.edges@[es[0]].length, g.edges@[es[0]].speed, vmax) + path_time_sum(
            g,
            es.subrange(1, es.len() as int),
            vmax,
        )
    }
}

/// The positions a chain of edges visits: the position of each edge's
/// target, in travel order. The source node's position is excluded.
pub open spec fn path_positions(g: Graph, es: Seq<int>) -> Seq<Position>
    decreases es.len(),
{
    if es.len() == 0 {
        Seq::empty()
    } else {
        seq![g.nodes@[g.edges@[es[0]].target as int].pos] + path_positions(
            g,
            es.subrange(1, es.len() as int),
        )
    }
}

/// `r` is realized by the concrete edge chain `es`: the chain runs from `s`
/// to `t` under `mode`, and the route's aggregates and path are exactly the
/// chain's sums and positions.
pub open spec fn route_via(
    g: Graph,
    mode: u8,
    vmax: u64,
    s: int,
    t: int,
    r: Route,
    es: Seq<int>,
) -> bool {
    &&& is_edge_path(g, mode, es, s, t)
    &&& r.distance == path_len_sum(g, es)
    &&& r.time == path_time_sum(g, es, vmax)
    &&& r.path@ == path_positions(g, es)
}

/// `r` is a sound answer for a query from `s` to `t`: some mode-permitted
/// edge chain of the graph realizes it.
pub open spec fn route_realizes(g: Graph, mode: u8, vmax: u64, s: int, t: int, r: Route) -> bool {
    exists|es: Seq<int>| route_via(g, mode, vmax, s, t, r, es)
}

/// Strict lexicographic order on (tentative distance, relaxation rank).
/// Predecessor pointers decrease in this order, which makes the predecessor
/// walk of the route builder terminate.
pub open spec fn lex_lt(d1: u64, r1: nat, d2: u64, r2: nat) -> bool {
    d1 < d2 || (d1 == d2 && r1 < r2)
}

/// Well-formedness of the predecessor state at node `v`: the recorded edge
/// lies in the recorded predecessor's slice, leads to `v`, permits the mode,
/// and was relaxed from a settled predecessor, so `v`'s tentative distance
/// is exactly the predecessor's plus the edge's metric cost. The
/// predecessor's (distance, rank) pair is strictly below `v`'s.
pub open spec fn pred_wf_at(
    g: Graph,
    mode: u8,
    metric: Metric,
    vmax: u64,
    settled: Set<int>,
    dist: Seq<u64>,
    pred: Seq<usize>,
    pe: Seq<usize>,
    rank: Seq<nat>,
    v: int,
) -> bool {
    let u = pred[v] as int;
    let e = pe[v] as int;
    &&& 0 <= u < g.nodes@.len()
    &&& 0 <= e < g.edges@.len()
    &&& g.edges@[e].target == v
    &&& g.offsets@[u] <= e < g.offsets@[u + 1]
    &&& mode & g.edges@[e].allowed_modes != 0
    &&& dist[u] < INF_COST
    &&& settled.contains(u)
    &&& dist[v] == dist[u] + spec_edge_cost(metric, g.edges@[e].length, g.edges@[e].speed, vmax)
    &&& lex_lt(dist[u], rank[u], dist[v], rank[v])
}

/// Well-formedness of the whole predecessor state: every node other than the
/// source that has a finite tentative distance has sound predecessor state.
pub open spec fn pred_wf_all(
    g: Graph,
    mode: u8,
    metric: Metric,
    vmax: u64,
    settled: Set<int>,
    s: int,
    dist: Seq<u64>,
    pred: Seq<usize>,
    pe: Seq<usize>,
    rank: Seq<nat>,
) -> bool {
    &&& dist.len() == g.nodes@.len()
    &&& pred.len() == g.nodes@.len()
    &&& pe.len() == g.nodes@.len()
    &&& rank.len() == g.nodes@.len()
    &&& forall|v: int|
        0 <= v < g.nodes@.len() && v != s && (#[trigger] dist[v]) < INF_COST ==> pred_wf_at(
            g,
            mode,
            metric,
            vmax,
            settled,
            dist,
            pred,
            pe,
            rank,
            v,
        )
}

/// The route's aggregate under the chosen metric: its distance for
/// `Distance`, its time for `Time`.
pub open spec fn spec_metric_agg(metric: Metric, r: Route) -> int {
    match metric {
        Metric::Distance => r.distance as int,
        Metric::Time => r.time as int,
    }
}

/// An optimal answer for a query by external ids: the ids resolve, and no
/// mode-permitted chain between the resolved indices costs less under the
/// metric than the returned route's own aggregate.
pub open spec fn answer_optimal(
    g: Graph,
    mode: u8,
    metric: Metric,
    vmax: u64,
    source_id: i64,
    target_id: i64,
    route: Route,
) -> bool {
    exists|si: int, ti: int|
        #![trigger resolved_to(g.nodes@, source_id, si), resolved_to(g.nodes@, target_id, ti)]
        resolved_to(g.nodes@, source_id, si) && resolved_to(g.nodes@, target_id, ti) && forall|
            es: Seq<int>,
        |
            #[trigger] is_edge_path(g, mode, es, si, ti) ==> path_cost_sum(g, metric, es, vmax)
                >= spec_metric_agg(metric, route)
}

/// A sound `Ok` answer for a query by external ids: the ids resolve, and
/// the route is realized between the resolved internal indices.
pub open spec fn answer_ok(
    g: Graph,
    mode: u8,
    vmax: u64,
    source_id: i64,
    target_id: i64,
    route: Route,
) -> bool {
    exists|si: int, ti: int|
        #![trigger resolved_to(g.nodes@, source_id, si), resolved_to(g.nodes@, target_id, ti)]
        resolved_to(g.nodes@, source_id, si) && resolved_to(g.nodes@, target_id, ti)
            && route_realizes(g, mode, vmax, si, ti, route)
}

/// Total cost of a chain of edges under the chosen metric.
pub open spec fn path_cost_sum(g: Graph, metric: Metric, es: Seq<int>, vmax: u64) -> int {
    match metric {
        Metric::Distance => path_len_sum(g, es),
        Metric::Time => path_time_sum(g, es, vmax),
    }
}

/// Node `v` is fully relaxed: every mode-permitted edge out of `v` already
/// offers no improvement over the tentative distances.
pub open spec fn relaxed_from(
    g: Graph,
    mode: u8,
    metric: Metric,
    vmax: u64,
    dist: Seq<u64>,
    v: int,
) -> bool {
    forall|e: int|
        g.offsets@[v] <= e < g.offsets@[v + 1] && mode & (#[trigger] g.edges@[e]).allowed_modes
            != 0 ==> dist[g.edges@[e].target as int] <= dist[v] + spec_edge_cost(
            metric,
            g.edges@[e].length,
            g.edges@[e].speed,
            vmax,
        )
}

/// Every mode-permitted chain from `s` to `t` costs at least the infinity
/// marker: under the metric there is no representable route at all.
pub open spec fn no_cheap_route(
    g: Graph,
    mode: u8,
    metric: Metric,
    vmax: u64,
    s: int,
    t: int,
) -> bool {
    forall|es: Seq<int>|
        #[trigger] is_edge_path(g, mode, es, s, t) ==> path_cost_sum(g, metric, es, vmax)
            >= INF_COST
}

/// Some mode-permitted chain leads from `s` to `t`.
pub open spec fn some_route(g: Graph, mode: u8, s: int, t: int) -> bool {
    exists|es: Seq<int>| #[trigger] is_edge_path(g, mode, es, s, t)
}

/// Some mode-permitted chain from `s` to `t` has a total length or a total
/// time that does not fit a `u64`: its route cannot be represented.
pub open spec fn overflowing_route(g: Graph, mode: u8, vmax: u64, s: int, t: int) -> bool {
    exists|es: Seq<int>|
        #[trigger] is_edge_path(g, mode, es, s, t) && (path_len_sum(g, es) > u64::MAX
            || path_time_sum(g, es, vmax) > u64::MAX)
}

/// What a `NoRouteFound` answer means for a query by external ids: the ids
/// resolve, and either no mode-permitted chain between them costs below the
/// infinity marker (the queue was exhausted), or a chain exists whose total
/// length or time exceeds what a `u64` holds.
pub open spec fn answer_no_route(
    g: Graph,
    mode: u8,
    metric: Metric,
    vmax: u64,
    source_id: i64,
    target_id: i64,
) -> bool {
    exists|si: int, ti: int|
        #![trigger resolved_to(g.nodes@, source_id, si), resolved_to(g.nodes@, target_id, ti)]
        resolved_to(g.nodes@, source_id, si) && resolved_to(g.nodes@, target_id, ti) && (
        no_cheap_route(g, mode, metric, vmax, si, ti) || overflowing_route(g, mode, vmax, si, ti))
}

/// Chains concatenate: a chain from `s` to `u` followed by one from `u` to
/// `t` is a chain from `s` to `t`.
pub proof fn lemma_path_concat(g: Graph, mode: u8, a: Seq<int>, b: Seq<int>, s: int, u: int, t: int)
    requires
        is_edge_path(g, mode, a, s, u),
        is_edge_path(g, mode, b, u, t),
    ensures
        is_edge_path(g, mode, a + b, s, t),
    decreases a.len(),
{
    if a.len() == 0 {
        assert(a + b =~= b);
    } else {
        let rest = a.subrange(1, a.len() as int);
        lemma_path_concat(g, mode, rest, b, g.edges@[a[0]].target as int, u, t);
        assert((a + b).subrange(1, (a + b).len() as int) =~= rest + b);
        assert((a + b)[0] == a[0]);
    }
}

/// The queue holds an up-to-date entry for `v`: one whose cost equals `v`'s
/// tentative distance.
pub open spec fn queue_has(q: Seq<HeapEntry>, dist: Seq<u64>, v: int) -> bool {
    exists|j: int| 0 <= j < q.len() && (#[trigger] q[j]).node == v && q[j].cost == dist[v]
}

/// Full relaxation survives tentative distances decreasing elsewhere, as
/// long as the node's own distance is unchanged.
pub proof fn lemma_relaxed_after_update(
    g: Graph,
    mode: u8,
    metric: Metric,
    vmax: u64,
    old_dist: Seq<u64>,
    new_dist: Seq<u64>,
    w: int,
)
    requires
        relaxed_from(g, mode, metric, vmax, old_dist, w),
        new_dist.len() == old_dist.len(),
        forall|k: int| 0 <= k < new_dist.len() ==> (#[trigger] new_dist[k]) <= old_dist[k],
        0 <= w < new_dist.len(),
        new_dist[w] == old_dist[w],
        g.wf(),
        new_dist.len() == g.nodes@.len(),
    ensures
        relaxed_from(g, mode, metric, vmax, new_dist, w),
{
    assert forall|e: int|
        g.offsets@[w] <= e < g.offsets@[w + 1] && mode & (#[trigger] g.edges@[e]).allowed_modes
            != 0 implies new_dist[g.edges@[e].target as int] <= new_dist[w] + spec_edge_cost(
        metric,
        g.edges@[e].length,
        g.edges@[e].speed,
        vmax,
    ) by {
        assert(old_dist[g.edges@[e].target as int] <= old_dist[w] + spec_edge_cost(
            metric,
            g.edges@[e].length,
            g.edges@[e].speed,
            vmax,
        ));
        crate::graph::lemma_offsets_monotone(g, w + 1, g.nodes@.len() as int);
        assert(edge_ok(g.edges@[e], g.nodes@.len() as int));
    }
}

/// Appending a permitted edge from `v` to `w` to a chain ending at `v`
/// yields a chain ending at `w`.
pub proof fn lemma_path_snoc(g: Graph, mode: u8, es: Seq<int>, u: int, v: int, e: int, w: int)
    requires
        is_edge_path(g, mode, es, u, v),
        0 <= v < g.nodes@.len(),
        0 <= e < g.edges@.len(),
        g.offsets@[v] <= e < g.offsets@[v + 1],
        mode & g.edges@[e].allowed_modes != 0,
        g.edges@[e].target == w,
    ensures
        is_edge_path(g, mode, es.push(e), u, w),
    decreases es.len(),
{
    let ces = es.push(e);
    if es.len() == 0 {
        assert(u == v);
        assert(ces[0] == e);
        assert(ces.subrange(1, ces.len() as int) =~= Seq::<int>::empty());
        assert(is_edge_path(g, mode, Seq::<int>::empty(), w, w));
        assert(is_edge_path(g, mode, ces, u, w));
    } else {
        let rest = es.subrange(1, es.len() as int);
        lemma_path_snoc(g, mode, rest, g.edges@[es[0]].target as int, v, e, w);
        assert(ces.subrange(1, ces.len() as int) =~= rest.push(e));
        assert(ces[0] == es[0]);
        assert(is_edge_path(g, mode, rest.push(e), g.edges@[es[0]].target as int, w));
        assert(is_edge_path(g, mode, ces, u, w));
    }
}

/// From any node with a finite tentative distance, well-formed predecessor
/// state yields a mode-permitted chain from the source to that node.
pub proof fn lemma_pred_reaches_source(
    g: Graph,
    mode: u8,
    metric: Metric,
    vmax: u64,
    settled: Set<int>,
    dist: Seq<u64>,
    pred: Seq<usize>,
    pe: Seq<usize>,
    rank: Seq<nat>,
    s: int,
    v: int,
)
    requires
        pred_wf_all(g, mode, metric, vmax, settled, s, dist, pred, pe, rank),
        0 <= s < g.nodes@.len(),
        0 <= v < g.nodes@.len(),
        dist[v] < INF_COST,
    ensures
        some_route(g, mode, s, v),
    decreases dist[v], rank[v],
{
    if v == s {
        assert(is_edge_path(g, mode, Seq::<int>::empty(), s, v));
    } else {
        let u = pred[v] as int;
        let e = pe[v] as int;
        assert(pred_wf_at(g, mode, metric, vmax, settled, dist, pred, pe, rank, v));
        lemma_pred_reaches_source(g, mode, metric, vmax, settled, dist, pred, pe, rank, s, u);
        let es = choose|es: Seq<int>| #[trigger] is_edge_path(g, mode, es, s, u);
        lemma_path_snoc(g, mode, es, s, u, e, v);
        assert(is_edge_path(g, mode, es.push(e), s, v));
    }
}

/// The crossing argument behind Dijkstra's optimality: when every settled
/// node is fully relaxed, every still-open finite node has an up-to-date
/// queue entry, and `bound` is below every queue entry's cost, then no
/// mode-permitted chain from a settled node `u` to the open node `t` can
/// bring the total under `bound`.
pub proof fn lemma_min_pop_bound(
    g: Graph,
    mode: u8,
    metric: Metric,
    vmax: u64,
    dist: Seq<u64>,
    settled: Set<int>,
    q: Seq<HeapEntry>,
    bound: u64,
    u: int,
    t: int,
    es: Seq<int>,
)
    requires
        g.wf(),
        1 <= vmax,
        dist.len() == g.nodes@.len(),
        forall|x: int|
            #[trigger] settled.contains(x) ==> 0 <= x < g.nodes@.len() && dist[x] < INF_COST
                && relaxed_from(g, mode, metric, vmax, dist, x),
        forall|v: int|
            0 <= v < g.nodes@.len() && (#[trigger] dist[v]) < INF_COST && !settled.contains(v)
                ==> queue_has(q, dist, v),
        forall|i: int| 0 <= i < q.len() ==> bound <= (#[trigger] q[i]).cost,
        bound < INF_COST,
        settled.contains(u),
        !settled.contains(t),
        0 <= t < g.nodes@.len(),
        is_edge_path(g, mode, es, u, t),
    ensures
        bound <= dist[u] + path_cost_sum(g, metric, es, vmax),
    decreases es.len(),
{
    if es.len() == 0 {
        assert(u == t);
        assert(false);
    } else {
        let e = es[0];
        let w = g.edges@[e].target as int;
        let rest = es.subrange(1, es.len() as int);
        let c = spec_edge_cost(metric, g.edges@[e].length, g.edges@[e].speed, vmax);
        assert(edge_ok(g.edges@[e], g.nodes@.len() as int));
        assert(relaxed_from(g, mode, metric, vmax, dist, u));
        assert(dist[w] <= dist[u] + c);
        if settled.contains(w) {
            lemma_min_pop_bound(g, mode, metric, vmax, dist, settled, q, bound, w, t, rest);
        } else {
            crate::laws::lemma_path_edges_in_range(g, mode, rest, w, t);
            crate::laws::lemma_path_sums_nonneg(g, vmax, rest);
            lemma_edge_cost_nonneg(g, metric, vmax, e);
            if dist[w] < INF_COST {
                assert(queue_has(q, dist, w));
                let j = choose|j: int|
                    0 <= j < q.len() && (#[trigger] q[j]).node == w && q[j].cost == dist[w];
                assert(bound <= dist[w]);
            }
        }
    }
}

/// The cost of a permitted edge is non-negative under either metric.
pub proof fn lemma_edge_cost_nonneg(g: Graph, metric: Metric, vmax: u64, e: int)
    requires
        g.wf(),
        1 <= vmax,
        0 <= e < g.edges@.len(),
    ensures
        spec_edge_cost(metric, g.edges@[e].length, g.edges@[e].speed, vmax) >= 0,
{
    let ed = g.edges@[e];
    assert(edge_ok(ed, g.nodes@.len() as int));
    vstd::arithmetic::div_mod::lemma_div_pos_is_pos(
        ed.length * 1_000_000,
        crate::cost::spec_eff_speed(ed.speed, vmax) as int,
    );
}

/// When every finite node is fully relaxed, the tentative distances bound
/// the cost of every mode-permitted chain: walking `es` from `u` to `t`
/// cannot beat `dist[t]`.
pub proof fn lemma_dist_bounds_path(
    g: Graph,
    mode: u8,
    metric: Metric,
    vmax: u64,
    dist: Seq<u64>,
    u: int,
    t: int,
    es: Seq<int>,
)
    requires
        g.wf(),
        1 <= vmax,
        dist.len() == g.nodes@.len(),
        forall|v: int|
            0 <= v < g.nodes@.len() && (#[trigger] dist[v]) < INF_COST ==> relaxed_from(
                g,
                mode,
                metric,
                vmax,
                dist,
                v,
            ),
        is_edge_path(g, mode, es, u, t),
        0 <= t < g.nodes@.len(),
        0 <= u < g.nodes@.len(),
    ensures
        dist[t] <= dist[u] + path_cost_sum(g, metric, es, vmax),
    decreases es.len(),
{
    if es.len() > 0 {
        let e = es[0];
        let v1 = g.edges@[e].target as int;
        let rest = es.subrange(1, es.len() as int);
        let c = spec_edge_cost(metric, g.edges@[e].length, g.edges@[e].speed, vmax);
        assert(edge_ok(g.edges@[e], g.nodes@.len() as int));
        lemma_edge_cost_nonneg(g, metric, vmax, e);
        if dist[u] < INF_COST {
            assert(relaxed_from(g, mode, metric, vmax, dist, u));
            assert(dist[v1] <= dist[u] + c);
        } else {
            assert(dist[v1] <= dist[u] + c);
        }
        lemma_dist_bounds_path(g, mode, metric, vmax, dist, v1, t, rest);
    }
}

/// Sum of all tentative distances; the search loop's termination measure
/// (every relaxation strictly decreases it).
pub open spec fn sum_dists(s: Seq<u64>) -> nat
    decreases s.len(),
{
    if s.len() == 0 {
        0
    } else {
        s.last() as nat + sum_dists(s.drop_last())
    }
}

/// Updating one tentative distance changes the sum by exactly the
/// difference of the old and new entries.
pub proof fn lemma_sum_dists_update(s: Seq<u64>, i: int, v: u64)
    requires
        0 <= i < s.len(),
    ensures
        sum_dists(s.update(i, v)) + s[i] == sum_dists(s) + v,
    decreases s.len(),
{
    let su = s.update(i, v);
    if i == s.len() - 1 {
        assert(su.drop_last() =~= s.drop_last());
    } else {
        assert(su.drop_last() =~= s.drop_last().update(i, v));
        assert(su.last() == s.last());
        lemma_sum_dists_update(s.drop_last(), i, v);
    }
}

/// Prepending an edge to a chain extends the path by that edge and adds its
/// length, time and target position at the front.
pub proof fn lemma_path_cons(g: Graph, mode: u8, vmax: u64, e: int, es: Seq<int>, u: int, t: int)
    ensures
        path_len_sum(g, seq![e] + es) == g.edges@[e].length + path_len_sum(g, es),
        path_time_sum(g, seq![e] + es, vmax) == spec_time_cost(
            g.edges@[e].length,
            g.edges@[e].speed,
            vmax,
        ) + path_time_sum(g, es, vmax),
        path_positions(g, seq![e] + es) == seq![g.nodes@[g.edges@[e].target as int].pos]
            + path_positions(g, es),
        ({
            &&& 0 <= u < g.nodes@.len()
            &&& 0 <= e < g.edges@.len()
            &&& g.offsets@[u] <= e < g.offsets@[u + 1]
            &&& mode & g.edges@[e].allowed_modes != 0
            &&& is_edge_path(g, mode, es, g.edges@[e].target as int, t)
        }) ==> is_edge_path(g, mode, seq![e] + es, u, t),
{
    let ces = seq![e] + es;
    assert(ces[0] == e);
    assert(ces.subrange(1, ces.len() as int) =~= es);
}

/// When extending the partial chain of the predecessor walk by one more
/// edge overflows an aggregate, some full chain from the source to the
/// target has an aggregate beyond `u64`: the prefix toward the source only
/// adds non-negative amounts.
proof fn lemma_route_overflows(
    g: Graph,
    mode: u8,
    metric: Metric,
    vmax: u64,
    settled: Set<int>,
    dist: Seq<u64>,
    pred: Seq<usize>,
    pe: Seq<usize>,
    rank: Seq<nat>,
    s: int,
    node: int,
    t: int,
    es: Seq<int>,
)
    requires
        g.wf(),
        1 <= vmax,
        pred_wf_all(g, mode, metric, vmax, settled, s, dist, pred, pe, rank),
        0 <= s < g.nodes@.len(),
        0 <= node < g.nodes@.len(),
        node != s,
        dist[node] < INF_COST,
        is_edge_path(g, mode, es, node, t),
        path_len_sum(g, es) + g.edges@[pe[node] as int].length > u64::MAX || path_time_sum(
            g,
            es,
            vmax,
        ) + spec_time_cost(
            g.edges@[pe[node] as int].length,
            g.edges@[pe[node] as int].speed,
            vmax,
        ) > u64::MAX,
    ensures
        overflowing_route(g, mode, vmax, s, t),
{
    assert(pred_wf_at(g, mode, metric, vmax, settled, dist, pred, pe, rank, node));
    let e = pe[node] as int;
    let u = pred[node] as int;
    lemma_path_cons(g, mode, vmax, e, es, u, t);
    let ces = seq![e] + es;
    assert(is_edge_path(g, mode, ces, u, t));
    lemma_pred_reaches_source(g, mode, metric, vmax, settled, dist, pred, pe, rank, s, u);
    let a = choose|a: Seq<int>| #[trigger] is_edge_path(g, mode, a, s, u);
    lemma_path_concat(g, mode, a, ces, s, u, t);
    let full = a + ces;
    crate::laws::lemma_path_sum_split(g, vmax, a, ces);
    crate::laws::lemma_path_edges_in_range(g, mode, a, s, u);
    crate::laws::lemma_path_sums_nonneg(g, vmax, a);
    assert(is_edge_path(g, mode, full, s, t));
    assert(path_len_sum(g, full) > u64::MAX || path_time_sum(g, full, vmax) > u64::MAX);
    assert(overflowing_route(g, mode, vmax, s, t));
}

/// Walks the predecessor state back from `t` to `s`, accumulating distance
/// (meters) and capped-speed time (milliseconds) and collecting positions,
/// then reverses the collected path so it runs source to target. The source
/// node's own position is never appended (the loop stops at the source), so
/// the path begins at the first node after the source - the documented
/// boundary policy. When `s == t` the walk is empty and the route is all
/// zeroes. `None` only when an accumulator would overflow its `u64`.
fn build_route(
    g: &Graph,
    s: usize,
    t: usize,
    dist: &Vec<u64>,
    pred: &Vec<usize>,
    pe: &Vec<usize>,
    rank: Ghost<Seq<nat>>,
    mode: Ghost<u8>,
    metric: Ghost<Metric>,
    settled: Ghost<Set<int>>,
    vmax: u64,
) -> (r: Option<Route>)
    requires
        g.wf(),
        s < g.nodes@.len(),
        t < g.nodes@.len(),
        1 <= vmax,
        pred_wf_all(*g, mode@, metric@, vmax, settled@, s as int, dist@, pred@, pe@, rank@),
        s == t || dist@[t as int] < INF_COST,
    ensures
        s == t ==> (r matches Some(route) && route.distance == 0 && route.time == 0
            && route.path@ == Seq::<Position>::empty()),
        r matches Some(route) ==> route_realizes(*g, mode@, vmax, s as int, t as int, route),
        r matches Some(route) ==> spec_metric_agg(metric@, route) == dist@[t as int] - dist@[s
            as int],
        r is None ==> overflowing_route(*g, mode@, vmax, s as int, t as int),
{
    let ghost n = g.nodes@.len() as int;
    let mut distance: u64 = 0;
    let mut time: u64 = 0;
    let mut tmp: Vec<Position> = Vec::new();
    let ghost mut es: Seq<int> = Seq::empty();
    let mut node = t;
    while node != s
        invariant
            g.wf(),
            n == g.nodes@.len(),
            s < n,
            t < n,
            node < n,
            1 <= vmax,
            pred_wf_all(*g, mode@, metric@, vmax, settled@, s as int, dist@, pred@, pe@, rank@),
            node == s || dist@[node as int] < INF_COST,
            s == t ==> node == s && es == Seq::<int>::empty() && tmp@.len() == 0 && distance == 0
                && time == 0,
            is_edge_path(*g, mode@, es, node as int, t as int),
            distance == path_len_sum(*g, es),
            time == path_time_sum(*g, es, vmax),
            path_cost_sum(*g, metric@, es, vmax) == dist@[t as int] - dist@[node as int],
            path_positions(*g, es).len() == es.len(),
            tmp@.len() == es.len(),
            forall|j: int|
                0 <= j < tmp@.len() ==> #[trigger] tmp@[j] == path_positions(*g, es)[es.len() - 1
                    - j],
        decreases dist@[node as int], rank@[node as int],
    {
        assert(pred_wf_at(
            *g,
            mode@,
            metric@,
            vmax,
            settled@,
            dist@,
            pred@,
            pe@,
            rank@,
            node as int,
        ));
        let u = pred[node];
        let e = pe[node];
        let ed = g.edges[e];
        let pos = g.nodes[node].pos;
        let tc = edge_cost_time(&ed, vmax);
        distance = match distance.checked_add(ed.length) {
            Some(x) => x,
            None => {
                proof {
                    lemma_route_overflows(
                        *g,
                        mode@,
                        metric@,
                        vmax,
                        settled@,
                        dist@,
                        pred@,
                        pe@,
                        rank@,
                        s as int,
                        node as int,
                        t as int,
                        es,
                    );
                }
                return None;
            },
        };
        time = match time.checked_add(tc) {
            Some(x) => x,
            None => {
                proof {
                    lemma_route_overflows(
                        *g,
                        mode@,
                        metric@,
                        vmax,
                        settled@,
                        dist@,
                        pred@,
                        pe@,
                        rank@,
                        s as int,
                        node as int,
                        t as int,
                        es,
                    );
                }
                return None;
            },
        };
        tmp.push(pos);
        proof {
            let old_es = es;
            es = seq![e as int] + old_es;
            lemma_path_cons(*g, mode@, vmax, e as int, old_es, u as int, t as int);
            assert(path_positions(*g, es)[0] == pos);
            assert forall|j: int| 0 <= j < tmp@.len() implies #[trigger] tmp@[j] == path_positions(
                *g,
                es,
            )[es.len() - 1 - j] by {
                if j < tmp@.len() - 1 {
                    assert(path_positions(*g, es)[es.len() - 1 - j] == path_positions(
                        *g,
                        old_es,
                    )[old_es.len() - 1 - j]);
                }
            }
        }
        node = u;
    }
    let mut path: Vec<Position> = Vec::new();
    let mut k = tmp.len();
    while k > 0
        invariant
            k <= tmp@.len(),
            path@.len() == tmp@.len() - k,
            forall|j: int|
                0 <= j < path@.len() ==> #[trigger] path@[j] == tmp@[tmp@.len() - 1 - j],
        decreases k,
    {
        k -= 1;
        path.push(tmp[k]);
    }
    proof {
        assert(path@ =~= path_positions(*g, es));
    }
    let route = Route { distance, time, path };
    proof {
        assert(route_via(*g, mode@, vmax, s as int, t as int, route, es));
        assert(route_realizes(*g, mode@, vmax, s as int, t as int, route));
        assert(spec_metric_agg(metric@, route) == path_cost_sum(*g, metric@, es, vmax));
    }
    Some(route)
}

/// Removes and returns an entry of minimal cost from the queue (ties broken
/// arbitrarily; the order is purely by cost). Every remaining entry was
/// already in the queue.
fn pop_min(q: &mut Vec<HeapEntry>) -> (r: HeapEntry)
    requires
        old(q)@.len() > 0,
    ensures
        final(q)@.len() == old(q)@.len() - 1,
        exists|k: int|
            0 <= k < old(q)@.len() && r == old(q)@[k] && final(q)@ == old(q)@.update(
                k,
                old(q)@.last(),
            ).drop_last(),
        forall|i: int|
            0 <= i < final(q)@.len() ==> exists|k: int|
                0 <= k < old(q)@.len() && #[trigger] final(q)@[i] == old(q)@[k],
        forall|i: int| 0 <= i < old(q)@.len() ==> r.cost <= (#[trigger] old(q)@[i]).cost,
{
    let mut best: usize = 0;
    let mut j: usize = 1;
    while j < q.len()
        invariant
            0 < q@.len(),
            best < j <= q@.len(),
            forall|i: int| 0 <= i < j ==> q@[best as int].cost <= (#[trigger] q@[i]).cost,
        decreases q@.len() - j,
    {
        if q[j].cost < q[best].cost {
            best = j;
        }
        j += 1;
    }
    let ghost q0 = q@;
    let r = q.swap_remove(best);
    proof {
        assert(r == q0[best as int]);
        assert forall|i: int| 0 <= i < q@.len() implies exists|k: int|
            0 <= k < q0.len() && #[trigger] q@[i] == q0[k] by {
            if i == best {
                assert(q@[i] == q0[q0.len() - 1]);
            } else {
                assert(q@[i] == q0[i]);
            }
        }
    }
    r
}

/// Queue entries keep their soundness properties across a removal by
/// `pop_min`: every remaining entry is one of the old entries.
proof fn lemma_entries_after_pop(
    n: int,
    dist: Seq<u64>,
    q0: Seq<HeapEntry>,
    q1: Seq<HeapEntry>,
    kk: int,
    floor: u64,
)
    requires
        0 <= kk < q0.len(),
        q1 == q0.update(kk, q0.last()).drop_last(),
        forall|q: int|
            0 <= q < q0.len() ==> (#[trigger] q0[q]).node < n && dist[q0[q].node as int]
                <= q0[q].cost && q0[q].cost < INF_COST && floor <= q0[q].cost,
    ensures
        forall|q: int|
            0 <= q < q1.len() ==> (#[trigger] q1[q]).node < n && dist[q1[q].node as int]
                <= q1[q].cost && q1[q].cost < INF_COST && floor <= q1[q].cost,
{
    assert forall|q: int|
        0 <= q < q1.len() implies (#[trigger] q1[q]).node < n && dist[q1[q].node as int]
        <= q1[q].cost && q1[q].cost < INF_COST && floor <= q1[q].cost by {
        if q == kk {
            assert(q1[q] == q0[q0.len() - 1]);
        } else {
            assert(q1[q] == q0[q]);
        }
    }
}

/// The still-open finite nodes keep an up-to-date queue entry across a
/// removal, provided the removed entry was not itself the only witness:
/// either its node is settled, or its cost is stale.
proof fn lemma_cover_survives_pop(
    n: int,
    dist: Seq<u64>,
    q0: Seq<HeapEntry>,
    q1: Seq<HeapEntry>,
    kk: int,
    settled: Set<int>,
)
    requires
        0 <= kk < q0.len(),
        q1 == q0.update(kk, q0.last()).drop_last(),
        forall|v: int|
            0 <= v < n && (#[trigger] dist[v]) < INF_COST && !settled.contains(v) ==> queue_has(
                q0,
                dist,
                v,
            ),
        settled.contains(q0[kk].node as int) || q0[kk].cost != dist[q0[kk].node as int],
    ensures
        forall|v: int|
            0 <= v < n && (#[trigger] dist[v]) < INF_COST && !settled.contains(v) ==> queue_has(
                q1,
                dist,
                v,
            ),
{
    assert forall|v: int|
        0 <= v < n && (#[trigger] dist[v]) < INF_COST && !settled.contains(v) implies queue_has(
        q1,
        dist,
        v,
    ) by {
        let j = choose|j: int|
            0 <= j < q0.len() && (#[trigger] q0[j]).node == v && q0[j].cost == dist[v];
        assert(j != kk);
        if j == q0.len() - 1 {
            assert(q1[kk] == q0[j]);
            assert(q1[kk].node == v && q1[kk].cost == dist[v]);
        } else {
            assert(q1[j] == q0[j]);
            assert(q1[j].node == v && q1[j].cost == dist[v]);
        }
    }
}

/// One relaxation keeps the predecessor state well-formed: the improved
/// node records the settled node it was reached from, with the exact cost
/// equality, and no other node's state changes.
#[verifier::rlimit(100)]
proof fn lemma_relax_pred_wf(
    g: Graph,
    mode: u8,
    metric: Metric,
    vmax: u64,
    settled: Set<int>,
    s: int,
    node: int,
    cost: u64,
    v: int,
    ei: int,
    cand: u64,
    old_dist: Seq<u64>,
    old_pred: Seq<usize>,
    old_pe: Seq<usize>,
    old_rank: Seq<nat>,
    new_dist: Seq<u64>,
    new_pred: Seq<usize>,
    new_pe: Seq<usize>,
    new_rank: Seq<nat>,
)
    requires
        g.wf(),
        1 <= vmax,
        old_dist.len() == g.nodes@.len(),
        old_pred.len() == g.nodes@.len(),
        old_pe.len() == g.nodes@.len(),
        old_rank.len() == g.nodes@.len(),
        0 <= s < g.nodes@.len(),
        0 <= node < g.nodes@.len(),
        0 <= v < g.nodes@.len(),
        0 <= ei < g.edges@.len(),
        g.offsets@[node] <= ei < g.offsets@[node + 1],
        mode & g.edges@[ei].allowed_modes != 0,
        g.edges@[ei].target == v,
        cand == cost + spec_edge_cost(metric, g.edges@[ei].length, g.edges@[ei].speed, vmax),
        cand < old_dist[v],
        old_dist[node] == cost,
        old_dist[s] == 0,
        cost < INF_COST,
        settled.contains(node),
        !settled.contains(v),
        g.nodes@.len() <= usize::MAX,
        g.edges@.len() <= usize::MAX,
        pred_wf_all(g, mode, metric, vmax, settled, s, old_dist, old_pred, old_pe, old_rank),
        new_dist == old_dist.update(v, cand),
        new_pred == old_pred.update(v, node as usize),
        new_pe == old_pe.update(v, ei as usize),
        new_rank == old_rank.update(v, old_rank[node] + 1),
    ensures
        v != node,
        v != s,
        new_dist[s] == 0,
        new_dist[node] == cost,
        pred_wf_all(g, mode, metric, vmax, settled, s, new_dist, new_pred, new_pe, new_rank),
{
    let n = g.nodes@.len() as int;
    lemma_edge_cost_nonneg(g, metric, vmax, ei);
    assert(v != node);
    assert(v != s);
    assert forall|w: int|
        0 <= w < n && w != s && (#[trigger] new_dist[w]) < INF_COST implies pred_wf_at(
        g,
        mode,
        metric,
        vmax,
        settled,
        new_dist,
        new_pred,
        new_pe,
        new_rank,
        w,
    ) by {
        if w == v {
            assert(new_dist[node] == old_dist[node]);
            assert(new_rank[node] == old_rank[node]);
            assert(new_pred[w] == node as usize && new_pe[w] == ei as usize);
            assert(new_dist[w] == cand && new_rank[w] == old_rank[node] + 1);
            assert(pred_wf_at(
                g,
                mode,
                metric,
                vmax,
                settled,
                new_dist,
                new_pred,
                new_pe,
                new_rank,
                w,
            ));
        } else {
            assert(old_dist[w] < INF_COST);
            assert(pred_wf_at(
                g,
                mode,
                metric,
                vmax,
                settled,
                old_dist,
                old_pred,
                old_pe,
                old_rank,
                w,
            ));
            let u = old_pred[w] as int;
            assert(settled.contains(u));
            assert(u != v);
            assert(new_pred[w] == old_pred[w] && new_pe[w] == old_pe[w]);
            assert(new_dist[w] == old_dist[w] && new_rank[w] == old_rank[w]);
            assert(new_dist[u] == old_dist[u] && new_rank[u] == old_rank[u]);
            assert(pred_wf_at(
                g,
                mode,
                metric,
                vmax,
                settled,
                new_dist,
                new_pred,
                new_pe,
                new_rank,
                w,
            ));
        }
    }
}

/// One relaxation keeps every settled node other than the one being
/// expanded fully relaxed: tentative distances only decrease, and the
/// settled nodes' own distances are untouched.
proof fn lemma_relax_settled(
    g: Graph,
    mode: u8,
    metric: Metric,
    vmax: u64,
    settled: Set<int>,
    node: int,
    cost: u64,
    v: int,
    cand: u64,
    old_dist: Seq<u64>,
    new_dist: Seq<u64>,
)
    requires
        g.wf(),
        1 <= vmax,
        old_dist.len() == g.nodes@.len(),
        0 <= v < g.nodes@.len(),
        cand < old_dist[v],
        !settled.contains(v),
        forall|x: int|
            #[trigger] settled.contains(x) && x != node ==> 0 <= x < g.nodes@.len() && old_dist[x]
                <= cost && old_dist[x] < INF_COST && relaxed_from(
                g,
                mode,
                metric,
                vmax,
                old_dist,
                x,
            ),
        new_dist == old_dist.update(v, cand),
    ensures
        forall|x: int|
            #[trigger] settled.contains(x) && x != node ==> 0 <= x < g.nodes@.len() && new_dist[x]
                <= cost && new_dist[x] < INF_COST && relaxed_from(
                g,
                mode,
                metric,
                vmax,
                new_dist,
                x,
            ),
{
    assert forall|x: int|
        #[trigger] settled.contains(x) && x != node implies 0 <= x < g.nodes@.len() && new_dist[x]
        <= cost && new_dist[x] < INF_COST && relaxed_from(g, mode, metric, vmax, new_dist, x) by {
        assert(x != v);
        assert(relaxed_from(g, mode, metric, vmax, old_dist, x));
        assert forall|k: int| 0 <= k < new_dist.len() implies (#[trigger] new_dist[k])
            <= old_dist[k] by {}
        lemma_relaxed_after_update(g, mode, metric, vmax, old_dist, new_dist, x);
    }
}

/// One relaxation keeps every open finite node covered by an up-to-date
/// queue entry: the improved node gets the freshly pushed entry, the rest
/// keep their old witnesses.
proof fn lemma_relax_cover(
    n: int,
    settled: Set<int>,
    v: int,
    cand: u64,
    old_dist: Seq<u64>,
    old_q: Seq<HeapEntry>,
    new_dist: Seq<u64>,
    new_q: Seq<HeapEntry>,
)
    requires
        old_dist.len() == n,
        n <= usize::MAX,
        0 <= v < n,
        cand < old_dist[v],
        forall|w: int|
            0 <= w < n && (#[trigger] old_dist[w]) < INF_COST && !settled.contains(w)
                ==> queue_has(old_q, old_dist, w),
        new_dist == old_dist.update(v, cand),
        new_q == old_q.push(HeapEntry { node: v as usize, cost: cand }),
    ensures
        forall|w: int|
            0 <= w < n && (#[trigger] new_dist[w]) < INF_COST && !settled.contains(w)
                ==> queue_has(new_q, new_dist, w),
{
    assert(new_q[new_q.len() - 1] == (HeapEntry { node: v as usize, cost: cand }));
    assert forall|w: int|
        0 <= w < n && (#[trigger] new_dist[w]) < INF_COST && !settled.contains(w) implies queue_has(
        new_q,
        new_dist,
        w,
    ) by {
        if w == v {
            assert(new_q[new_q.len() - 1].node == w && new_q[new_q.len() - 1].cost == new_dist[w]);
            assert(queue_has(new_q, new_dist, w));
        } else {
            assert(old_dist[w] < INF_COST);
            assert(queue_has(old_q, old_dist, w));
            let j = choose|j: int|
                0 <= j < old_q.len() && (#[trigger] old_q[j]).node == w && old_q[j].cost
                    == old_dist[w];
            assert(new_q[j] == old_q[j]);
            assert(queue_has(new_q, new_dist, w));
        }
    }
}

/// One relaxation keeps every queue entry sound and above the pop floor:
/// the pushed entry carries the improved node's new distance, which is at
/// least the cost it was relaxed from.
proof fn lemma_relax_entries(
    n: int,
    cost: u64,
    v: int,
    cand: u64,
    old_dist: Seq<u64>,
    old_q: Seq<HeapEntry>,
    new_dist: Seq<u64>,
    new_q: Seq<HeapEntry>,
)
    requires
        old_dist.len() == n,
        n <= usize::MAX,
        0 <= v < n,
        cand < old_dist[v],
        cost <= cand,
        forall|q: int|
            0 <= q < old_q.len() ==> (#[trigger] old_q[q]).node < n && old_dist[old_q[q].node
                as int] <= old_q[q].cost && old_q[q].cost < INF_COST && cost <= old_q[q].cost,
        new_dist == old_dist.update(v, cand),
        new_q == old_q.push(HeapEntry { node: v as usize, cost: cand }),
    ensures
        forall|q: int|
            0 <= q < new_q.len() ==> (#[trigger] new_q[q]).node < n && new_dist[new_q[q].node
                as int] <= new_q[q].cost && new_q[q].cost < INF_COST && cost <= new_q[q].cost,
{
    assert forall|q: int|
        0 <= q < new_q.len() implies (#[trigger] new_q[q]).node < n && new_dist[new_q[q].node
        as int] <= new_q[q].cost && new_q[q].cost < INF_COST && cost <= new_q[q].cost by {
        if q < new_q.len() - 1 {
            assert(new_q[q] == old_q[q]);
        } else {
            assert(new_q[q] == (HeapEntry { node: v as usize, cost: cand }));
        }
    }
}

/// A vector of `n` copies of `v`.
fn filled<T: Copy>(n: usize, v: T) -> (r: Vec<T>)
    ensures
        r@.len() == n,
        forall|i: int| 0 <= i < n ==> r@[i] == v,
{
    let mut r: Vec<T> = Vec::new();
    let mut i: usize = 0;
    while i < n
        invariant
            i <= n,
            r@.len() == i,
            forall|j: int| 0 <= j < i ==> r@[j] == v,
        decreases n - i,
    {
        r.push(v);
        i += 1;
    }
    r
}

/// The constrained shortest-path search: resolves the endpoints,
/// runs the label-correcting Dijkstra under the requested mode and metric,
/// and builds the route once the target is popped.
///
/// Returns `UnknownEndpoint` exactly when an endpoint id does not resolve.
/// Any returned route is realized by a mode-permitted edge chain of the
/// graph from the resolved source to the resolved target, with the route's
/// distance, time and path equal to that chain's sums and positions, and it
/// is optimal: no mode-permitted chain between the endpoints costs less
/// under the requested metric than the route's own aggregate. Equal
/// endpoint ids give the zero route with an empty path. `NoRouteFound`
/// comes only for distinct, known endpoints, and only when no mode-permitted
/// chain between them costs less than the infinity marker (the queue was
/// exhausted without reaching the target) or a chain exists whose aggregates
/// exceed what a `u64` holds.
#[verifier::rlimit(100)]
pub fn run_dijkstra(g: &Graph, source_id: i64, target_id: i64, mode: u8, metric: Metric) -> (r:
    Result<Route, RouteError>)
    requires
        g.wf(),
    ensures
        (r matches Err(e) && e == RouteError::UnknownEndpoint) <==> (!has_node(g.nodes@, source_id)
            || !has_node(g.nodes@, target_id)),
        r matches Ok(route) ==> answer_ok(
            *g,
            mode,
            spec_vehicle_max_speed(mode),
            source_id,
            target_id,
            route,
        ),
        r matches Ok(route) ==> answer_optimal(
            *g,
            mode,
            metric,
            spec_vehicle_max_speed(mode),
            source_id,
            target_id,
            route,
        ),
        (has_node(g.nodes@, source_id) && source_id == target_id) ==> (r matches Ok(route)
            && route.distance == 0 && route.time == 0 && route.path@ == Seq::<Position>::empty()),
        (r matches Err(e) && e == RouteError::NoRouteFound) ==> (has_node(g.nodes@, source_id)
            && has_node(g.nodes@, target_id) && source_id != target_id),
        (r matches Err(e) && e == RouteError::NoRouteFound) ==> answer_no_route(
            *g,
            mode,
            metric,
            spec_vehicle_max_speed(mode),
            source_id,
            target_id,
        ),
{
    let n = g.nodes.len();
    let s = match g.resolve(source_id) {
        Some(i) => i,
        None => {
            return Err(RouteError::UnknownEndpoint);
        },
    };
    let t = match g.resolve(target_id) {
        Some(i) => i,
        None => {
            return Err(RouteError::UnknownEndpoint);
        },
    };
    proof {
        if source_id == target_id && s != t {
            if s < t {
                assert(g.nodes@[s as int].ext_id == source_id);
            } else {
                assert(g.nodes@[t as int].ext_id == target_id);
            }
            assert(false);
        }
    }
    let vmax = vehicle_max_speed(mode);
    let mut dist: Vec<u64> = filled(n, INF_COST);
    let mut pred: Vec<usize> = filled(n, 0);
    let mut pe: Vec<usize> = filled(n, 0);
    let ghost mut rank: Seq<nat> = Seq::new(n as nat, |i: int| 0);
    let ghost mut settled: Set<int> = Set::empty();
    let ghost mut lastpop: u64 = 0;
    dist[s] = 0;
    let mut queue: Vec<HeapEntry> = Vec::new();
    queue.push(HeapEntry { node: s, cost: 0 });
    proof {
        assert(queue@ =~= seq![HeapEntry { node: s, cost: 0u64 }]);
        assert(queue@[0].node == s as int && queue@[0].cost == dist@[s as int]);
        assert(queue_has(queue@, dist@, s as int));
    }
    while queue.len() != 0
        invariant
            g.wf(),
            n == g.nodes@.len(),
            s < n,
            t < n,
            resolved_to(g.nodes@, source_id, s as int),
            resolved_to(g.nodes@, target_id, t as int),
            source_id == target_id ==> s == t,
            vmax == spec_vehicle_max_speed(mode),
            1 <= vmax,
            dist@.len() == n,
            pred@.len() == n,
            pe@.len() == n,
            rank.len() == n,
            dist@[s as int] == 0,
            forall|q: int|
                0 <= q < queue@.len() ==> (#[trigger] queue@[q]).node < n && dist@[queue@[q].node
                    as int] <= queue@[q].cost && queue@[q].cost < INF_COST,
            forall|q: int| 0 <= q < queue@.len() ==> lastpop <= (#[trigger] queue@[q]).cost,
            pred_wf_all(*g, mode, metric, vmax, settled, s as int, dist@, pred@, pe@, rank),
            forall|x: int|
                #[trigger] settled.contains(x) ==> 0 <= x < n && dist@[x] <= lastpop && dist@[x]
                    < INF_COST && relaxed_from(*g, mode, metric, vmax, dist@, x),
            forall|v: int|
                0 <= v < n && (#[trigger] dist@[v]) < INF_COST && !settled.contains(v)
                    ==> queue_has(queue@, dist@, v),
            !settled.contains(t as int),
            !settled.contains(s as int) ==> queue@ == seq![HeapEntry { node: s, cost: 0u64 }] && (
            forall|v: int| 0 <= v < n && v != s ==> dist@[v] == INF_COST),
            s == t ==> queue@ == seq![HeapEntry { node: s, cost: 0u64 }],
        decreases sum_dists(dist@), queue@.len(),
    {
        let ghost sum0 = sum_dists(dist@);
        let ghost q0 = queue@;
        let entry = pop_min(&mut queue);
        let node = entry.node;
        let cost = entry.cost;
        proof {
            let kk = choose|k: int|
                0 <= k < q0.len() && entry == q0[k] && queue@ == q0.update(k, q0.last()).drop_last();
            assert(node < n && dist@[node as int] <= cost && cost < INF_COST);
            assert(lastpop <= cost);
            lastpop = cost;
            assert forall|q: int| 0 <= q < q0.len() implies (#[trigger] q0[q]).node < n
                && dist@[q0[q].node as int] <= q0[q].cost && q0[q].cost < INF_COST && cost
                <= q0[q].cost by {}
            lemma_entries_after_pop(n as int, dist@, q0, queue@, kk, cost);
        }
        if node == t {
            let res = build_route(
                g,
                s,
                t,
                &dist,
                &pred,
                &pe,
                Ghost(rank),
                Ghost(mode),
                Ghost(metric),
                Ghost(settled),
                vmax,
            );
            match res {
                Some(route) => {
                    proof {
                        let ghost kk = choose|k: int|
                            0 <= k < q0.len() && entry == q0[k] && queue@ == q0.update(
                                k,
                                q0.last(),
                            ).drop_last();
                        assert(resolved_to(g.nodes@, source_id, s as int) && resolved_to(
                            g.nodes@,
                            target_id,
                            t as int,
                        ) && route_realizes(
                            *g,
                            mode,
                            spec_vehicle_max_speed(mode),
                            s as int,
                            t as int,
                            route,
                        ));
                        assert(answer_ok(
                            *g,
                            mode,
                            spec_vehicle_max_speed(mode),
                            source_id,
                            target_id,
                            route,
                        ));
                        if s == t {
                            assert(spec_metric_agg(metric, route) == 0);
                            assert forall|es: Seq<int>| #[trigger] is_edge_path(
                                *g,
                                mode,
                                es,
                                s as int,
                                t as int,
                            ) implies path_cost_sum(*g, metric, es, vmax) >= spec_metric_agg(
                                metric,
                                route,
                            ) by {
                                crate::laws::lemma_path_edges_in_range(
                                    *g,
                                    mode,
                                    es,
                                    s as int,
                                    t as int,
                                );
                                crate::laws::lemma_path_sums_nonneg(*g, vmax, es);
                            }
                        } else {
                            if !settled.contains(s as int) {
                                assert(entry == q0[0]);
                                assert(false);
                            }
                            assert(spec_metric_agg(metric, route) == dist@[t as int]);
                            assert forall|es: Seq<int>| #[trigger] is_edge_path(
                                *g,
                                mode,
                                es,
                                s as int,
                                t as int,
                            ) implies path_cost_sum(*g, metric, es, vmax) >= spec_metric_agg(
                                metric,
                                route,
                            ) by {
                                lemma_min_pop_bound(
                                    *g,
                                    mode,
                                    metric,
                                    vmax,
                                    dist@,
                                    settled,
                                    q0,
                                    cost,
                                    s as int,
                                    t as int,
                                    es,
                                );
                            }
                        }
                        assert(answer_optimal(
                            *g,
                            mode,
                            metric,
                            spec_vehicle_max_speed(mode),
                            source_id,
                            target_id,
                            route,
                        ));
                    }
                    return Ok(route);
                },
                None => {
                    proof {
                        assert(resolved_to(g.nodes@, source_id, s as int) && resolved_to(
                            g.nodes@,
                            target_id,
                            t as int,
                        ) && overflowing_route(*g, mode, vmax, s as int, t as int));
                        assert(answer_no_route(*g, mode, metric, vmax, source_id, target_id));
                    }
                    return Err(RouteError::NoRouteFound);
                },
            }
        }
        proof {
            if s == t {
                assert(entry == q0[0]);
                assert(false);
            }
        }
        if cost > dist[node] {
            proof {
                let ghost kk = choose|k: int|
                    0 <= k < q0.len() && entry == q0[k] && queue@ == q0.update(
                        k,
                        q0.last(),
                    ).drop_last();
                if !settled.contains(s as int) {
                    assert(entry == q0[0]);
                    assert(false);
                }
                assert(q0[kk].cost != dist@[q0[kk].node as int]);
                lemma_cover_survives_pop(n as int, dist@, q0, queue@, kk, settled);
            }
            continue ;
        }
        proof {
            let kk = choose|k: int|
                0 <= k < q0.len() && entry == q0[k] && queue@ == q0.update(k, q0.last()).drop_last();
            if !settled.contains(s as int) && node != s {
                assert(entry == q0[0]);
                assert(false);
            }
            settled = settled.insert(node as int);
            assert(settled.contains(q0[kk].node as int));
            lemma_cover_survives_pop(n as int, dist@, q0, queue@, kk, settled);
        }
        let (lo, hi) = g.offset_lookup(node);
        let mut i = lo;
        while i < hi
            invariant
                g.wf(),
                n == g.nodes@.len(),
                s < n,
                t < n,
                s != t,
                node < n,
                vmax == spec_vehicle_max_speed(mode),
                1 <= vmax,
                dist@.len() == n,
                pred@.len() == n,
                pe@.len() == n,
                rank.len() == n,
                dist@[s as int] == 0,
                lo == g.offsets@[node as int],
                hi == g.offsets@[node as int + 1],
                lo <= i <= hi,
                hi <= g.edges@.len(),
                dist@[node as int] == cost,
                cost < INF_COST,
                lastpop == cost,
                settled.contains(node as int),
                !settled.contains(t as int),
                forall|q: int|
                    0 <= q < queue@.len() ==> (#[trigger] queue@[q]).node < n
                        && dist@[queue@[q].node as int] <= queue@[q].cost
                        && queue@[q].cost < INF_COST && cost <= queue@[q].cost,
                pred_wf_all(*g, mode, metric, vmax, settled, s as int, dist@, pred@, pe@, rank),
                forall|x: int|
                    #[trigger] settled.contains(x) && x != node as int ==> 0 <= x < n && dist@[x]
                        <= cost && dist@[x] < INF_COST && relaxed_from(
                        *g,
                        mode,
                        metric,
                        vmax,
                        dist@,
                        x,
                    ),
                forall|v: int|
                    0 <= v < n && (#[trigger] dist@[v]) < INF_COST && !settled.contains(v)
                        ==> queue_has(queue@, dist@, v),
                forall|e: int|
                    lo <= e < i && mode & (#[trigger] g.edges@[e]).allowed_modes != 0
                        ==> dist@[g.edges@[e].target as int] <= cost + spec_edge_cost(
                        metric,
                        g.edges@[e].length,
                        g.edges@[e].speed,
                        vmax,
                    ),
                sum_dists(dist@) < sum0 || (sum_dists(dist@) == sum0 && queue@.len() == q0.len()
                    - 1),
            decreases hi - i,
        {
            let ed = g.edges[i];
            if mode & ed.allowed_modes != 0 {
                proof {
                    assert(edge_ok(g.edges@[i as int], n as int));
                }
                let v = ed.target;
                let c = edge_cost(metric, &ed, vmax);
                match cost.checked_add(c) {
                    Some(cand) => {
                        if cand < dist[v] {
                            proof {
                                lemma_sum_dists_update(dist@, v as int, cand);
                                if settled.contains(v as int) {
                                    assert(false);
                                }
                            }
                            let ghost old_dist = dist@;
                            let ghost old_pred = pred@;
                            let ghost old_pe = pe@;
                            let ghost old_rank = rank;
                            let ghost old_q = queue@;
                            dist[v] = cand;
                            pred[v] = node;
                            pe[v] = i;
                            proof {
                                rank = rank.update(v as int, rank[node as int] + 1);
                            }
                            queue.push(HeapEntry { node: v, cost: cand });
                            proof {
                                assert(g.edges.len() == g.edges@.len());
                                assert(g.nodes.len() == g.nodes@.len());
                                lemma_relax_pred_wf(
                                    *g,
                                    mode,
                                    metric,
                                    vmax,
                                    settled,
                                    s as int,
                                    node as int,
                                    cost,
                                    v as int,
                                    i as int,
                                    cand,
                                    old_dist,
                                    old_pred,
                                    old_pe,
                                    old_rank,
                                    dist@,
                                    pred@,
                                    pe@,
                                    rank,
                                );
                                lemma_relax_settled(
                                    *g,
                                    mode,
                                    metric,
                                    vmax,
                                    settled,
                                    node as int,
                                    cost,
                                    v as int,
                                    cand,
                                    old_dist,
                                    dist@,
                                );
                                lemma_relax_cover(
                                    n as int,
                                    settled,
                                    v as int,
                                    cand,
                                    old_dist,
                                    old_q,
                                    dist@,
                                    queue@,
                                );
                                lemma_relax_entries(
                                    n as int,
                                    cost,
                                    v as int,
                                    cand,
                                    old_dist,
                                    old_q,
                                    dist@,
                                    queue@,
                                );
                            }
                        }
                    },
                    None => {
                        proof {
                            assert(cost + c > u64::MAX);
                            assert(dist@[g.edges@[i as int].target as int] <= cost + spec_edge_cost(
                                metric,
                                g.edges@[i as int].length,
                                g.edges@[i as int].speed,
                                vmax,
                            ));
                        }
                    },
                }
            }
            i += 1;
        }
        proof {
            assert forall|e: int|
                g.offsets@[node as int] <= e < g.offsets@[node as int + 1] && mode & (
                #[trigger] g.edges@[e]).allowed_modes != 0 implies dist@[g.edges@[e].target as int]
                <= dist@[node as int] + spec_edge_cost(
                metric,
                g.edges@[e].length,
                g.edges@[e].speed,
                vmax,
            ) by {}
            assert(relaxed_from(*g, mode, metric, vmax, dist@, node as int));
        }
    }
    proof {
        if dist@[t as int] < INF_COST {
            assert(queue_has(queue@, dist@, t as int));
            let j = choose|j: int|
                0 <= j < queue@.len() && (#[trigger] queue@[j]).node == t as int && queue@[j].cost
                    == dist@[t as int];
            assert(false);
        }
        assert forall|v: int|
            0 <= v < n && (#[trigger] dist@[v]) < INF_COST implies relaxed_from(
            *g,
            mode,
            metric,
            vmax,
            dist@,
            v,
        ) by {
            if !settled.contains(v) {
                assert(queue_has(queue@, dist@, v));
                let j = choose|j: int|
                    0 <= j < queue@.len() && (#[trigger] queue@[j]).node == v && queue@[j].cost
                        == dist@[v];
                assert(false);
            }
        }
        assert forall|es: Seq<int>| #[trigger] is_edge_path(
            *g,
            mode,
            es,
            s as int,
            t as int,
        ) implies path_cost_sum(*g, metric, es, vmax) >= INF_COST by {
            lemma_dist_bounds_path(*g, mode, metric, vmax, dist@, s as int, t as int, es);
        }
        assert(no_cheap_route(*g, mode, metric, vmax, s as int, t as int));
        assert(resolved_to(g.nodes@, source_id, s as int) && resolved_to(
            g.nodes@,
            target_id,
            t as int,
        ));
        assert(answer_no_route(*g, mode, metric, vmax, source_id, target_id));
    }
    Err(RouteError::NoRouteFound)
}

/// Query entry: resolves the mode and metric names with their
/// documented defaults (unrecognized mode falls back to car, unrecognized
/// metric to distance) and runs the search.
pub fn route(
    g: &Graph,
    source_id: i64,
    target_id: i64,
    mode_name: &str,
    metric_name: &str,
) -> (r: Result<Route, RouteError>)
    requires
        g.wf(),
    ensures
        (r matches Err(e) && e == RouteError::UnknownEndpoint) <==> (!has_node(g.nodes@, source_id)
            || !has_node(g.nodes@, target_id)),
        r matches Ok(route) ==> answer_ok(
            *g,
            spec_mode_from_name(mode_name@),
            spec_vehicle_max_speed(spec_mode_from_name(mode_name@)),
            source_id,
            target_id,
            route,
        ),
        r matches Ok(route) ==> answer_optimal(
            *g,
            spec_mode_from_name(mode_name@),
            spec_metric_from_name(metric_name@),
            spec_vehicle_max_speed(spec_mode_from_name(mode_name@)),
            source_id,
            target_id,
            route,
        ),
        (has_node(g.nodes@, source_id) && source_id == target_id) ==> (r matches Ok(route)
            && route.distance == 0 && route.time == 0 && route.path@ == Seq::<Position>::empty()),
        (r matches Err(e) && e == RouteError::NoRouteFound) ==> (has_node(g.nodes@, source_id)
            && has_node(g.nodes@, target_id) && source_id != target_id),
        (r matches Err(e) && e == RouteError::NoRouteFound) ==> answer_no_route(
            *g,
            spec_mode_from_name(mode_name@),
            spec_metric_from_name(metric_name@),
            spec_vehicle_max_speed(spec_mode_from_name(mode_name@)),
            source_id,
            target_id,
        ),
{
    let mode = mode_from_name(mode_name);
    let metric = metric_from_name(metric_name);
    run_dijkstra(g, source_id, target_id, mode, metric)
}

} // verus!
