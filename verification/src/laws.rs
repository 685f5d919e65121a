//! Laws of the routing engine, stated and proved over the spec-level model
//! that the search and route-builder contracts use.

use vstd::prelude::*;

use crate::graph::MAX_EDGE_LENGTH;
use crate::cost::spec_time_cost;
use crate::graph::Graph;
use crate::graph::edge_ok;
use crate::search::is_edge_path;
use crate::search::path_len_sum;
use crate::search::path_time_sum;

verus! {

/// Mode filtering: every edge of a mode-permitted chain - in particular of
/// the chain realizing any returned route - permits the requested mode. An
/// edge whose `allowed_modes` excludes the mode can never appear in a
/// returned path.
pub proof fn lemma_path_edge_allowed(g: Graph, mode: u8, es: Seq<int>, s: int, t: int, k: int)
    requires
        is_edge_path(g, mode, es, s, t),
        0 <= k < es.len(),
    ensures
        0 <= es[k] < g.edges@.len(),
        mode & g.edges@[es[k]].allowed_modes != 0,
    decreases es.len(),
{
    if k > 0 {
        let rest = es.subrange(1, es.len() as int);
        lemma_path_edge_allowed(g, mode, rest, g.edges@[es[0]].target as int, t, k - 1);
        assert(rest[k - 1] == es[k]);
    }
}

/// Every edge index of a mode-permitted chain is in range.
pub proof fn lemma_path_edges_in_range(g: Graph, mode: u8, es: Seq<int>, s: int, t: int)
    requires
        is_edge_path(g, mode, es, s, t),
    ensures
        forall|k: int| 0 <= k < es.len() ==> 0 <= #[trigger] es[k] < g.edges@.len(),
{
    assert forall|k: int| 0 <= k < es.len() implies 0 <= #[trigger] es[k] < g.edges@.len() by {
        lemma_path_edge_allowed(g, mode, es, s, t, k);
    }
}

/// Concatenating two chains adds their length and time sums.
pub proof fn lemma_path_sum_split(g: Graph, vmax: u64, a: Seq<int>, b: Seq<int>)
    ensures
        path_len_sum(g, a + b) == path_len_sum(g, a) + path_len_sum(g, b),
        path_time_sum(g, a + b, vmax) == path_time_sum(g, a, vmax) + path_time_sum(g, b, vmax),
    decreases a.len(),
{
    if a.len() == 0 {
        assert(a + b =~= b);
    } else {
        let rest = a.subrange(1, a.len() as int);
        assert((a + b).subrange(1, (a + b).len() as int) =~= rest + b);
        assert((a + b)[0] == a[0]);
        lemma_path_sum_split(g, vmax, rest, b);
    }
}

/// Both aggregate sums of a chain of well-formed edges are non-negative.
pub proof fn lemma_path_sums_nonneg(g: Graph, vmax: u64, es: Seq<int>)
    requires
        g.wf(),
        1 <= vmax,
        forall|k: int| 0 <= k < es.len() ==> 0 <= #[trigger] es[k] < g.edges@.len(),
    ensures
        path_len_sum(g, es) >= 0,
        path_time_sum(g, es, vmax) >= 0,
    decreases es.len(),
{
    if es.len() > 0 {
        let e = g.edges@[es[0]];
        assert(edge_ok(e, g.nodes@.len() as int));
        vstd::arithmetic::div_mod::lemma_div_pos_is_pos(
            e.length * 1_000_000,
            crate::cost::spec_eff_speed(e.speed, vmax) as int,
        );
        let rest = es.subrange(1, es.len() as int);
        assert(forall|k: int| 0 <= k < rest.len() ==> rest[k] == es[k + 1]);
        lemma_path_sums_nonneg(g, vmax, rest);
    }
}

/// Monotonicity along a returned route (the triangle inequality along the
/// path): as a prefix of the chain grows, its reported distance and time
/// never decrease. In particular every prefix's aggregates are at most the
/// whole route's.
pub proof fn lemma_route_cost_monotone(
    g: Graph,
    mode: u8,
    vmax: u64,
    es: Seq<int>,
    s: int,
    t: int,
    i: int,
    j: int,
)
    requires
        g.wf(),
        1 <= vmax,
        is_edge_path(g, mode, es, s, t),
        0 <= i <= j <= es.len(),
    ensures
        path_len_sum(g, es.subrange(0, i)) <= path_len_sum(g, es.subrange(0, j)),
        path_time_sum(g, es.subrange(0, i), vmax) <= path_time_sum(g, es.subrange(0, j), vmax),
{
    let a = es.subrange(0, i);
    let b = es.subrange(i, j);
    assert(es.subrange(0, j) =~= a + b);
    lemma_path_sum_split(g, vmax, a, b);
    lemma_path_edges_in_range(g, mode, es, s, t);
    assert(forall|k: int| 0 <= k < b.len() ==> b[k] == es[k + i]);
    lemma_path_sums_nonneg(g, vmax, b);
}

/// Speed capping: when the requested mode's maximum speed is below an
/// edge's nominal speed, the edge's time contribution is computed from the
/// vehicle maximum, not from the nominal edge speed.
pub proof fn lemma_speed_capping(length: u64, speed: u64, vmax: u64)
    requires
        length <= MAX_EDGE_LENGTH,
        vmax < speed,
    ensures
        spec_time_cost(length, speed, vmax) == (length * 1_000_000) as int / vmax as int,
{
}

} // verus!
