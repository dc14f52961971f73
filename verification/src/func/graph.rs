//! The hypergraph of a chunk: one edge of three vertices for each key, and
//! what it means to peel it.

use vstd::prelude::*;

verus! {

/// An edge: the three vertices of a key.
pub type Edge = (nat, nat, nat);

/// The vertex `v` is one of the three of `e`.
pub open spec fn touches(e: Edge, v: nat) -> bool {
    e.0 == v || e.1 == v || e.2 == v
}

/// The edge `i` is still there and touches `v`.
pub open spec fn incident(edges: Seq<Edge>, present: Seq<bool>, v: nat, i: int) -> bool {
    present[i] && touches(edges[i], v)
}

/// The number of edges among the first `n` that are still there and touch `v`.
pub open spec fn degree(edges: Seq<Edge>, present: Seq<bool>, v: nat, n: nat) -> nat
    decreases n,
{
    if n == 0 {
        0
    } else {
        degree(edges, present, v, (n - 1) as nat) + if incident(edges, present, v, n - 1) {
            1nat
        } else {
            0nat
        }
    }
}

/// The sum of the indices of the edges among the first `n` that are still
/// there and touch `v`.
pub open spec fn index_sum(edges: Seq<Edge>, present: Seq<bool>, v: nat, n: nat) -> nat
    decreases n,
{
    if n == 0 {
        0
    } else {
        index_sum(edges, present, v, (n - 1) as nat) + if incident(edges, present, v, n - 1) {
            (n - 1) as nat
        } else {
            0nat
        }
    }
}

/// The number of edges among the first `n` that are still there.
pub open spec fn count_present(present: Seq<bool>, n: nat) -> nat
    decreases n,
{
    if n == 0 {
        0
    } else {
        count_present(present, (n - 1) as nat) + if present[n - 1] {
            1nat
        } else {
            0nat
        }
    }
}

/// A peeling of the edges: for each edge a vertex of its own, in an order
/// in which no vertex is touched by an edge that comes later. `order[k]`
/// is the vertex and the edge peeled at step `k`, and `position[e]` the
/// step at which the edge `e` is peeled.
pub open spec fn is_peeling(edges: Seq<Edge>, order: Seq<(nat, nat)>, position: Seq<int>) -> bool {
    &&& order.len() == edges.len()
    &&& position.len() == edges.len()
    &&& forall|k: int|
        0 <= k < order.len() ==> (#[trigger] order[k]).1 < edges.len() && touches(
            edges[order[k].1 as int],
            order[k].0,
        )
    &&& forall|k: int, k2: int|
        0 <= k < k2 < order.len() ==> !touches(
            edges[(#[trigger] order[k2]).1 as int],
            (#[trigger] order[k]).0,
        )
    &&& forall|e: int|
        0 <= e < edges.len() ==> 0 <= #[trigger] position[e] < order.len() && order[position[e]].1
            == e
}

/// The degree and the sum of a vertex are bounded by the number of edges.
pub proof fn lemma_degree_bounds(edges: Seq<Edge>, present: Seq<bool>, v: nat, n: nat)
    ensures
        degree(edges, present, v, n) <= n,
        index_sum(edges, present, v, n) <= degree(edges, present, v, n) * n,
    decreases n,
{
    if n > 0 {
        let m = (n - 1) as nat;
        lemma_degree_bounds(edges, present, v, m);
        let d = degree(edges, present, v, m);
        assert(d * m <= d * n) by (nonlinear_arith)
            requires
                m <= n,
        ;
        assert((d + 1) * n == d * n + n) by (nonlinear_arith);
    }
}

/// An edge that is there and touches a vertex counts in its degree and in
/// its sum.
pub proof fn lemma_incident_counts(edges: Seq<Edge>, present: Seq<bool>, v: nat, n: nat, e: int)
    requires
        0 <= e < n,
        incident(edges, present, v, e),
    ensures
        degree(edges, present, v, n) >= 1,
        index_sum(edges, present, v, n) >= e,
    decreases n,
{
    if e < n - 1 {
        lemma_incident_counts(edges, present, v, (n - 1) as nat, e);
    }
}

/// A vertex of degree one is touched by one edge that is there, and the
/// sum is the index of that edge.
pub proof fn lemma_degree_one(edges: Seq<Edge>, present: Seq<bool>, v: nat, n: nat)
    requires
        degree(edges, present, v, n) == 1,
    ensures
        index_sum(edges, present, v, n) < n,
        incident(edges, present, v, index_sum(edges, present, v, n) as int),
        forall|e: int|
            0 <= e < n && e != index_sum(edges, present, v, n) ==> !incident(edges, present, v, e),
    decreases n,
{
    let m = (n - 1) as nat;
    if incident(edges, present, v, n - 1) {
        lemma_degree_zero(edges, present, v, m);
    } else {
        lemma_degree_one(edges, present, v, m);
    }
}

/// A vertex of degree zero is touched by no edge that is there.
pub proof fn lemma_degree_zero(edges: Seq<Edge>, present: Seq<bool>, v: nat, n: nat)
    requires
        degree(edges, present, v, n) == 0,
    ensures
        index_sum(edges, present, v, n) == 0,
        forall|e: int| 0 <= e < n ==> !incident(edges, present, v, e),
    decreases n,
{
    if n > 0 {
        lemma_degree_zero(edges, present, v, (n - 1) as nat);
    }
}

/// Taking an edge away lowers the degree and the sum of the vertices that
/// it touches, and of no others.
pub proof fn lemma_take_edge(edges: Seq<Edge>, present: Seq<bool>, v: nat, n: nat, e: int)
    requires
        0 <= e < present.len(),
        present[e],
        n <= present.len(),
    ensures
        degree(edges, present.update(e, false), v, n) == degree(edges, present, v, n) - (if e < n
            && touches(edges[e], v) {
            1int
        } else {
            0int
        }),
        index_sum(edges, present.update(e, false), v, n) == index_sum(edges, present, v, n) - (if e
            < n && touches(edges[e], v) {
            e
        } else {
            0int
        }),
        count_present(present.update(e, false), n) == count_present(present, n) - (if e < n {
            1int
        } else {
            0int
        }),
    decreases n,
{
    if n > 0 {
        lemma_take_edge(edges, present, v, (n - 1) as nat, e);
    }
}

/// Where no edge is left, none is there.
pub proof fn lemma_none_present(present: Seq<bool>, n: nat)
    requires
        count_present(present, n) == 0,
    ensures
        forall|e: int| 0 <= e < n ==> !present[e],
    decreases n,
{
    if n > 0 {
        lemma_none_present(present, (n - 1) as nat);
    }
}

/// Where all edges are there, their number is the count.
pub proof fn lemma_all_present(present: Seq<bool>, n: nat)
    requires
        forall|e: int| 0 <= e < n ==> present[e],
    ensures
        count_present(present, n) == n,
    decreases n,
{
    if n > 0 {
        lemma_all_present(present, (n - 1) as nat);
    }
}

/// The edges can be peeled: each can be given a vertex of its own, in an
/// order in which no vertex is touched by an edge that comes later.
pub open spec fn peelable(edges: Seq<Edge>) -> bool {
    exists|order: Seq<(nat, nat)>, position: Seq<int>| is_peeling(edges, order, position)
}

/// The degree of a vertex does not fall as more edges are counted.
pub proof fn lemma_degree_grows(edges: Seq<Edge>, present: Seq<bool>, v: nat, n: nat, m: nat)
    requires
        n <= m,
    ensures
        degree(edges, present, v, n) <= degree(edges, present, v, m),
    decreases m,
{
    if n < m {
        lemma_degree_grows(edges, present, v, n, (m - 1) as nat);
    }
}

/// A vertex that one edge touches, and no other that is there, has degree one.
pub proof fn lemma_degree_single(edges: Seq<Edge>, present: Seq<bool>, v: nat, n: nat, e: int)
    requires
        0 <= e < n,
        incident(edges, present, v, e),
        forall|e2: int| 0 <= e2 < n && e2 != e ==> !incident(edges, present, v, e2),
    ensures
        degree(edges, present, v, n) == 1,
    decreases n,
{
    let m = (n - 1) as nat;
    if e == n - 1 {
        lemma_degree_none(edges, present, v, m);
    } else {
        lemma_degree_single(edges, present, v, m, e);
    }
}

/// A vertex that no edge touches that is there has degree zero.
pub proof fn lemma_degree_none(edges: Seq<Edge>, present: Seq<bool>, v: nat, n: nat)
    requires
        forall|e: int| 0 <= e < n ==> !incident(edges, present, v, e),
    ensures
        degree(edges, present, v, n) == 0,
    decreases n,
{
    if n > 0 {
        lemma_degree_none(edges, present, v, (n - 1) as nat);
    }
}

/// Where an edge is left, an edge is there.
pub proof fn lemma_some_present(present: Seq<bool>, n: nat)
    requires
        count_present(present, n) > 0,
    ensures
        exists|e: int| 0 <= e < n && present[e],
    decreases n,
{
    if !present[n - 1] {
        lemma_some_present(present, (n - 1) as nat);
        let e = choose|e: int| 0 <= e < n - 1 && present[e];
        assert(0 <= e < n && present[e]);
    }
}

/// Among the edges that are there, one comes first in a given order.
pub proof fn lemma_earliest(present: Seq<bool>, position: Seq<int>, n: nat)
    requires
        exists|e: int| 0 <= e < n && present[e],
    ensures
        exists|e: int|
            0 <= e < n && present[e] && forall|e2: int|
                0 <= e2 < n && present[e2] ==> position[e] <= #[trigger] position[e2],
    decreases n,
{
    let m = (n - 1) as nat;
    if exists|e: int| 0 <= e < m && present[e] {
        lemma_earliest(present, position, m);
        let first = choose|e: int|
            0 <= e < m && present[e] && forall|e2: int|
                0 <= e2 < m && present[e2] ==> position[e] <= #[trigger] position[e2];
        if present[m as int] && position[m as int] < position[first] {
            assert(0 <= m < n && present[m as int] && forall|e2: int|
                0 <= e2 < n && present[e2] ==> position[m as int] <= #[trigger] position[e2]);
        } else {
            assert(0 <= first < n && present[first] && forall|e2: int|
                0 <= e2 < n && present[e2] ==> position[first] <= #[trigger] position[e2]);
        }
    } else {
        assert(present[m as int]);
        assert(0 <= m < n && present[m as int] && forall|e2: int|
            0 <= e2 < n && present[e2] ==> position[m as int] <= #[trigger] position[e2]);
    }
}

/// Where edges are left and no vertex is touched by just one of them, the
/// edges cannot be peeled: the edge that a peeling would take first among
/// those left would have a vertex that no other of them touches.
pub proof fn lemma_stuck(edges: Seq<Edge>, present: Seq<bool>, num_vertices: nat)
    requires
        present.len() == edges.len(),
        count_present(present, edges.len()) > 0,
        forall|e: int|
            0 <= e < edges.len() ==> (#[trigger] edges[e]).0 < num_vertices && edges[e].1
                < num_vertices && edges[e].2 < num_vertices,
        forall|v: nat| v < num_vertices ==> #[trigger] degree(edges, present, v, edges.len()) != 1,
    ensures
        !peelable(edges),
{
    if peelable(edges) {
        let (order, position) = choose|order: Seq<(nat, nat)>, position: Seq<int>|
            is_peeling(edges, order, position);
        let m = edges.len();
        lemma_some_present(present, m);
        lemma_earliest(present, position, m);
        let first = choose|e: int|
            0 <= e < m && present[e] && forall|e2: int|
                0 <= e2 < m && present[e2] ==> position[e] <= #[trigger] position[e2];
        let k = position[first];
        let v = order[k].0;
        assert(order[k].1 == first);
        assert(touches(edges[first], v));
        assert forall|e2: int| 0 <= e2 < m && e2 != first implies !incident(
            edges,
            present,
            v,
            e2,
        ) by {
            if present[e2] {
                let k2 = position[e2];
                assert(k <= k2);
                assert(order[k2].1 == e2);
                assert(!touches(edges[order[k2].1 as int], order[k].0));
            }
        }
        lemma_degree_single(edges, present, v, m, first);
        assert(v < num_vertices);
        assert(false);
    }
}

} // verus!
