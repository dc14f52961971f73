//! Peeling the hypergraph of a chunk: finding, for each key, a vertex that
//! no key peeled later touches.

use crate::func::edge_list::{EdgeList, EDGE_INDEX_MASK, MAX_DEGREE};
use crate::func::function::{
    edge, edge_of, lemma_edge_of, vertices_per_chunk, MAX_LOG2_L, MAX_SEGMENT_SIZE,
};
use crate::func::graph::{
    count_present, degree, incident, index_sum, is_peeling, lemma_all_present,
    lemma_degree_bounds, lemma_degree_grows, lemma_degree_one, lemma_degree_zero,
    lemma_incident_counts, lemma_none_present, lemma_stuck, lemma_take_edge, peelable, touches,
    Edge,
};
use vstd::prelude::*;

verus! {

/// The largest number of keys of a chunk: the sum of a thousand edge
/// indices has to fit in a cell.
pub const MAX_EDGES: u64 = 0x1000_0000_0000;

/// A signature with the value that goes with it.
pub type Signed = (u64, u64, u64);

/// The edges of the keys `start..end` of `sigs`, which make up a chunk.
pub open spec fn chunk_edges(
    sigs: Seq<Signed>,
    start: int,
    end: int,
    log2_l: nat,
    segment_size: nat,
) -> Seq<Edge> {
    Seq::new(
        (end - start) as nat,
        |i: int| edge_of(sigs[start + i].0, sigs[start + i].1, log2_l, segment_size),
    )
}

/// The steps of the peeling that a stack of vertices and their cells stand
/// for: each vertex with the edge whose index its cell has kept.
pub open spec fn peel_order(stack: Seq<usize>, cells: Seq<EdgeList>) -> Seq<(nat, nat)> {
    Seq::new(stack.len(), |k: int| (stack[k] as nat, cells[stack[k] as int].spec_sum()))
}

/// All edges are there.
pub open spec fn all_present(n: nat) -> Seq<bool> {
    Seq::new(n, |i: int| true)
}

/// Each cell holds the degree and the sum of its vertex over the first `n` edges.
pub open spec fn cells_match(
    cells: Seq<EdgeList>,
    edges: Seq<Edge>,
    present: Seq<bool>,
    n: nat,
) -> bool {
    forall|v: int|
        0 <= v < cells.len() ==> (#[trigger] cells[v]).spec_degree() == degree(
            edges,
            present,
            v as nat,
            n,
        ) && cells[v].spec_sum() == index_sum(edges, present, v as nat, n)
}

/// No vertex is touched by more edges than a cell can count.
pub open spec fn degrees_fit(edges: Seq<Edge>, num_vertices: nat) -> bool {
    forall|v: nat|
        v < num_vertices ==> #[trigger] degree(edges, all_present(edges.len()), v, edges.len())
            <= MAX_DEGREE
}

/// The vertex `w` is on the stack at `pos` or after it: it waits to be looked at.
pub open spec fn waiting(stack: Seq<usize>, pos: int, w: int) -> bool {
    exists|k: int| pos <= k < stack.len() && #[trigger] stack[k] == w
}

/// The vertices of the edges of a chunk are vertices of the chunk.
pub proof fn lemma_chunk_edges(
    sigs: Seq<Signed>,
    start: int,
    end: int,
    log2_l: nat,
    segment_size: nat,
)
    requires
        0 <= start <= end <= sigs.len(),
        log2_l <= MAX_LOG2_L,
        segment_size >= 1,
    ensures
        chunk_edges(sigs, start, end, log2_l, segment_size).len() == end - start,
        forall|e: int|
            0 <= e < end - start ==> {
                let edge = #[trigger] chunk_edges(sigs, start, end, log2_l, segment_size)[e];
                edge.0 < edge.1 < edge.2 < vertices_per_chunk(log2_l, segment_size)
            },
{
    assert forall|e: int| 0 <= e < end - start implies {
        let edge = #[trigger] chunk_edges(sigs, start, end, log2_l, segment_size)[e];
        edge.0 < edge.1 < edge.2 < vertices_per_chunk(log2_l, segment_size)
    } by {
        lemma_edge_of(sigs[start + e].0, sigs[start + e].1, log2_l, segment_size);
    }
}

/// Computes the three vertices of the key `i` of the chunk.
pub fn edge_at(sigs: &Vec<Signed>, start: usize, end: usize, i: usize, log2_l: u32, segment_size: u64)
    -> (r: [usize; 3])
    requires
        start <= end <= sigs@.len(),
        i < end - start,
        log2_l <= MAX_LOG2_L,
        1 <= segment_size <= MAX_SEGMENT_SIZE,
        vertices_per_chunk(log2_l as nat, segment_size as nat) <= usize::MAX,
    ensures
        (r[0] as nat, r[1] as nat, r[2] as nat) == chunk_edges(
            sigs@,
            start as int,
            end as int,
            log2_l as nat,
            segment_size as nat,
        )[i as int],
        r[0] < r[1] < r[2] < vertices_per_chunk(log2_l as nat, segment_size as nat),
{
    let s = sigs[start + i];
    let sig = [s.0, s.1];
    proof {
        lemma_edge_of(s.0, s.1, log2_l as nat, segment_size as nat);
    }
    let e = edge(&sig, log2_l, segment_size);
    [e[0] as usize, e[1] as usize, e[2] as usize]
}

/// Adds the edge `i` to the cell of the vertex `v`, unless the cell is full.
fn attach(cells: &mut Vec<EdgeList>, v: usize, i: usize) -> (ok: bool)
    requires
        v < old(cells)@.len(),
        old(cells)@[v as int].spec_degree() < MAX_DEGREE ==> old(cells)@[v as int].spec_sum() + i
            <= EDGE_INDEX_MASK,
    ensures
        ok == (old(cells)@[v as int].spec_degree() < MAX_DEGREE),
        !ok ==> final(cells)@ == old(cells)@,
        ok ==> final(cells)@.len() == old(cells)@.len() && final(cells)@[v as int].spec_degree()
            == old(cells)@[v as int].spec_degree() + 1 && final(cells)@[v as int].spec_sum() == old(
            cells,
        )@[v as int].spec_sum() + i && forall|u: int|
            0 <= u < old(cells)@.len() && u != v ==> final(cells)@[u] == old(cells)@[u],
{
    let mut c = cells[v];
    if c.degree() >= MAX_DEGREE {
        return false;
    }
    c.add(i as u64);
    cells.set(v, c);
    true
}

/// Builds the cells of a chunk: each vertex gets the number and the sum of
/// the indices of the edges that touch it. Gives up where a vertex is
/// touched by more edges than a cell can count.
#[verifier::rlimit(50)]
pub fn build_cells(
    sigs: &Vec<Signed>,
    start: usize,
    end: usize,
    log2_l: u32,
    segment_size: u64,
    num_vertices: usize,
) -> (r: Option<Vec<EdgeList>>)
    requires
        start <= end <= sigs@.len(),
        end - start <= MAX_EDGES,
        log2_l <= MAX_LOG2_L,
        1 <= segment_size <= MAX_SEGMENT_SIZE,
        num_vertices == vertices_per_chunk(log2_l as nat, segment_size as nat),
    ensures
        r is Some <==> degrees_fit(
            chunk_edges(sigs@, start as int, end as int, log2_l as nat, segment_size as nat),
            num_vertices as nat,
        ),
        r matches Some(cells) ==> cells@.len() == num_vertices && cells_match(
            cells@,
            chunk_edges(sigs@, start as int, end as int, log2_l as nat, segment_size as nat),
            all_present((end - start) as nat),
            (end - start) as nat,
        ),
{
    let m = end - start;
    let ghost edges = chunk_edges(
        sigs@,
        start as int,
        end as int,
        log2_l as nat,
        segment_size as nat,
    );
    let ghost present = all_present(m as nat);
    let mut cells: Vec<EdgeList> = vec![EdgeList(0); num_vertices];
    let mut i: usize = 0;
    while i < m
        invariant
            i <= m,
            m == end - start,
            start <= end <= sigs@.len(),
            m <= MAX_EDGES,
            log2_l <= MAX_LOG2_L,
            1 <= segment_size <= MAX_SEGMENT_SIZE,
            num_vertices == vertices_per_chunk(log2_l as nat, segment_size as nat),
            edges == chunk_edges(
                sigs@,
                start as int,
                end as int,
                log2_l as nat,
                segment_size as nat,
            ),
            present == all_present(m as nat),
            cells@.len() == num_vertices,
            cells_match(cells@, edges, present, i as nat),
        decreases m - i,
    {
        let e = edge_at(sigs, start, end, i, log2_l, segment_size);
        let ghost before = cells@;
        proof {
            lemma_sum_fits(edges, present, e[0] as nat, i as nat);
            lemma_sum_fits(edges, present, e[1] as nat, i as nat);
            lemma_sum_fits(edges, present, e[2] as nat, i as nat);
        }
        if !attach(&mut cells, e[0], i) {
            proof {
                lemma_full_vertex(edges, e[0] as nat, i as nat, num_vertices as nat);
            }
            return None;
        }
        if !attach(&mut cells, e[1], i) {
            proof {
                lemma_full_vertex(edges, e[1] as nat, i as nat, num_vertices as nat);
            }
            return None;
        }
        if !attach(&mut cells, e[2], i) {
            proof {
                lemma_full_vertex(edges, e[2] as nat, i as nat, num_vertices as nat);
            }
            return None;
        }
        proof {
            assert(incident(edges, present, e[0] as nat, i as int));
            assert forall|v: int| 0 <= v < cells@.len() implies (#[trigger] cells@[v]).spec_degree()
                == degree(edges, present, v as nat, (i + 1) as nat) && cells@[v].spec_sum()
                == index_sum(edges, present, v as nat, (i + 1) as nat) by {
                assert(before[v].spec_degree() == degree(edges, present, v as nat, i as nat));
            }
        }
        i += 1;
    }
    proof {
        assert forall|v: nat| v < num_vertices implies #[trigger] degree(
            edges,
            all_present(edges.len()),
            v,
            edges.len(),
        ) <= MAX_DEGREE by {
            assert(cells@[v as int].spec_degree() == degree(edges, present, v, m as nat));
        }
    }
    Some(cells)
}

/// A vertex whose cell is full when one more edge touches it is touched by
/// more edges than a cell can count.
pub proof fn lemma_full_vertex(edges: Seq<Edge>, v: nat, i: nat, num_vertices: nat)
    requires
        i < edges.len(),
        v < num_vertices,
        touches(edges[i as int], v),
        degree(edges, all_present(edges.len()), v, i) >= MAX_DEGREE,
    ensures
        !degrees_fit(edges, num_vertices),
{
    let present = all_present(edges.len());
    assert(incident(edges, present, v, i as int));
    lemma_degree_grows(edges, present, v, i + 1, edges.len());
}

/// The sum of a vertex that fewer than a thousand of the first `n` edges
/// touch leaves room for one index more.
pub proof fn lemma_sum_fits(edges: Seq<Edge>, present: Seq<bool>, v: nat, n: nat)
    requires
        n <= MAX_EDGES,
    ensures
        degree(edges, present, v, n) < MAX_DEGREE ==> index_sum(edges, present, v, n) + n
            <= EDGE_INDEX_MASK,
{
    lemma_degree_bounds(edges, present, v, n);
    let d = degree(edges, present, v, n);
    if d < MAX_DEGREE {
        assert(d * n <= 1022 * 0x1000_0000_0000) by (nonlinear_arith)
            requires
                d <= 1022,
                n <= 0x1000_0000_0000,
        ;
    }
}

/// What holds while a chunk is peeled. The cells of the vertices that are
/// not peeled hold their degree and their sum; those of the vertices that
/// are peeled keep the index of the edge that was peeled with them, which
/// `owner` records, and no edge that is there touches them. `order` lists
/// the steps made so far and `position` the step of each edge that is gone.
pub open spec fn peeling_state(
    edges: Seq<Edge>,
    cells: Seq<EdgeList>,
    present: Seq<bool>,
    owner: Seq<int>,
    order: Seq<(nat, nat)>,
    position: Seq<int>,
) -> bool {
    let m = edges.len();
    &&& present.len() == m
    &&& position.len() == m
    &&& owner.len() == cells.len()
    &&& forall|v: int|
        0 <= v < cells.len() ==> (#[trigger] cells[v]).spec_degree() == degree(
            edges,
            present,
            v as nat,
            m,
        ) && if owner[v] < 0 {
            cells[v].spec_sum() == index_sum(edges, present, v as nat, m)
        } else {
            cells[v].spec_sum() == owner[v] && cells[v].spec_degree() == 0
        }
    &&& forall|k: int|
        0 <= k < order.len() ==> {
            &&& (#[trigger] order[k]).0 < cells.len()
            &&& order[k].1 < m
            &&& owner[order[k].0 as int] == order[k].1
            &&& !present[order[k].1 as int]
            &&& position[order[k].1 as int] == k
            &&& touches(edges[order[k].1 as int], order[k].0)
        }
    &&& forall|k: int, k2: int|
        0 <= k < k2 < order.len() ==> !touches(
            edges[(#[trigger] order[k2]).1 as int],
            (#[trigger] order[k]).0,
        )
    &&& forall|e: int|
        0 <= e < m && !#[trigger] present[e] ==> 0 <= position[e] < order.len() && order[position[e]].1
            == e
    &&& count_present(present, m) + order.len() == m
}

/// Takes the edge `edge_index` out of the cell of the vertex `x`, and puts
/// the vertex on the stack if one edge is left to it.
fn detach(cells: &mut Vec<EdgeList>, stack: &mut Vec<usize>, x: usize, edge_index: usize)
    requires
        x < old(cells)@.len(),
        old(cells)@[x as int].spec_degree() >= 1,
        old(cells)@[x as int].spec_sum() >= edge_index,
    ensures
        final(cells)@.len() == old(cells)@.len(),
        final(cells)@[x as int].spec_degree() == old(cells)@[x as int].spec_degree() - 1,
        final(cells)@[x as int].spec_sum() == old(cells)@[x as int].spec_sum() - edge_index,
        forall|u: int| 0 <= u < old(cells)@.len() && u != x ==> final(cells)@[u] == old(cells)@[u],
        final(stack)@ == (if final(cells)@[x as int].spec_degree() == 1 {
            old(stack)@.push(x)
        } else {
            old(stack)@
        }),
{
    let mut c = cells[x];
    c.remove(edge_index as u64);
    cells.set(x, c);
    if c.degree() == 1 {
        stack.push(x);
    }
}

/// Peels a chunk: looks for vertices that a single edge touches, takes
/// that edge away, and goes on with the vertices that this leaves with a
/// single edge. Where every edge goes, returns the vertices in the order in
/// which they were found, together with the cells, each of which has kept
/// the index of the edge that went with its vertex.
#[verifier::rlimit(50)]
pub fn peel(
    sigs: &Vec<Signed>,
    start: usize,
    end: usize,
    log2_l: u32,
    segment_size: u64,
    num_vertices: usize,
) -> (r: Option<(Vec<usize>, Vec<EdgeList>, Ghost<Seq<int>>)>)
    requires
        start <= end <= sigs@.len(),
        end - start <= MAX_EDGES,
        log2_l <= MAX_LOG2_L,
        1 <= segment_size <= MAX_SEGMENT_SIZE,
        num_vertices == vertices_per_chunk(log2_l as nat, segment_size as nat),
    ensures
        r is Some <==> degrees_fit(
            chunk_edges(sigs@, start as int, end as int, log2_l as nat, segment_size as nat),
            num_vertices as nat,
        ) && peelable(
            chunk_edges(sigs@, start as int, end as int, log2_l as nat, segment_size as nat),
        ),
        r matches Some((stack, cells, position)) ==> {
            &&& stack@.len() == end - start
            &&& cells@.len() == num_vertices
            &&& forall|k: int| 0 <= k < stack@.len() ==> #[trigger] stack@[k] < num_vertices
            &&& is_peeling(
                chunk_edges(sigs@, start as int, end as int, log2_l as nat, segment_size as nat),
                peel_order(stack@, cells@),
                position@,
            )
        },
{
    let m = end - start;
    let ghost edges = chunk_edges(
        sigs@,
        start as int,
        end as int,
        log2_l as nat,
        segment_size as nat,
    );
    let mut cells = match build_cells(sigs, start, end, log2_l, segment_size, num_vertices) {
        Some(cells) => cells,
        None => {
            return None;
        },
    };
    let ghost mut present = all_present(m as nat);
    let ghost mut owner: Seq<int> = Seq::new(num_vertices as nat, |v: int| -1int);
    let ghost mut order: Seq<(nat, nat)> = Seq::empty();
    let ghost mut position: Seq<int> = Seq::new(m as nat, |e: int| -1int);
    proof {
        lemma_all_present(present, m as nat);
    }
    let mut stack: Vec<usize> = Vec::new();
    let mut v: usize = 0;
    while v < num_vertices
        invariant
            v <= num_vertices,
            m == end - start,
            start <= end <= sigs@.len(),
            log2_l <= MAX_LOG2_L,
            1 <= segment_size <= MAX_SEGMENT_SIZE,
            num_vertices == vertices_per_chunk(log2_l as nat, segment_size as nat),
            edges == chunk_edges(
                sigs@,
                start as int,
                end as int,
                log2_l as nat,
                segment_size as nat,
            ),
            cells@.len() == num_vertices,
            peeling_state(edges, cells@, present, owner, order, position),
            stack@.len() == order.len(),
            forall|k: int| 0 <= k < stack@.len() ==> #[trigger] stack@[k] == order[k].0,
            forall|w: int| 0 <= w < v ==> (#[trigger] cells@[w]).spec_degree() != 1,
            degrees_fit(edges, num_vertices as nat),
        decreases num_vertices - v,
    {
        if cells[v].degree() == 1 {
            let mut pos = stack.len();
            let mut curr = stack.len();
            stack.push(v);
            proof {
                assert(stack@[pos as int] == v);
                assert(waiting(stack@, pos as int, v as int));
            }
            while pos < stack.len()
                invariant
                    m == end - start,
                    start <= end <= sigs@.len(),
                    log2_l <= MAX_LOG2_L,
                    1 <= segment_size <= MAX_SEGMENT_SIZE,
                    num_vertices == vertices_per_chunk(log2_l as nat, segment_size as nat),
                    edges == chunk_edges(
                        sigs@,
                        start as int,
                        end as int,
                        log2_l as nat,
                        segment_size as nat,
                    ),
                    cells@.len() == num_vertices,
                    peeling_state(edges, cells@, present, owner, order, position),
                    curr == order.len(),
                    curr <= pos <= stack@.len(),
                    forall|k: int| 0 <= k < curr ==> #[trigger] stack@[k] == order[k].0,
                    forall|k: int| pos <= k < stack@.len() ==> #[trigger] stack@[k] < num_vertices,
                    v < num_vertices,
                    forall|w: int|
                        0 <= w <= v && (#[trigger] cells@[w]).spec_degree() == 1 ==> waiting(
                            stack@,
                            pos as int,
                            w,
                        ),
                decreases 2 * count_present(present, m as nat) + stack@.len() - pos,
            {
                let u = stack[pos];
                pos += 1;
                proof {
                    // Whatever waits, other than `u`, waits further up the stack.
                    assert forall|w: int|
                        0 <= w <= v && (#[trigger] cells@[w]).spec_degree() == 1
                            && w != u implies waiting(stack@, pos as int, w) by {
                        assert(waiting(stack@, pos - 1, w));
                        let k = choose|k: int| pos - 1 <= k < stack@.len() && #[trigger] stack@[k] == w;
                        assert(pos <= k < stack@.len() && stack@[k] == w);
                    }
                }
                if cells[u].degree() != 1 {
                    // The edge that this vertex was waiting with has gone meanwhile.
                    continue ;
                }
                let ghost before_cells = cells@;
                let ghost before_present = present;
                let ghost before_stack = stack@;
                proof {
                    if owner[u as int] >= 0 {
                        assert(cells@[u as int].spec_degree() == 0);
                    }
                    lemma_degree_one(edges, present, u as nat, m as nat);
                }
                let mut c = cells[u];
                c.dec();
                let edge_index = c.edge_index() as usize;
                cells.set(u, c);
                stack.set(curr, u);
                curr += 1;
                let e = edge_at(sigs, start, end, edge_index, log2_l, segment_size);
                proof {
                    assert(owner[u as int] < 0);
                    assert(edge_index == index_sum(edges, before_present, u as nat, m as nat));
                    assert(incident(edges, before_present, u as nat, edge_index as int));
                    present = present.update(edge_index as int, false);
                    lemma_take_edge(edges, before_present, 0, m as nat, edge_index as int);
                    assert forall|x: int|
                        0 <= x < num_vertices && touches(edges[edge_index as int], x as nat)
                            && x != u implies owner[x] < 0 && before_cells[x].spec_degree() >= 1
                        && before_cells[x].spec_sum() >= edge_index by {
                        assert(incident(edges, before_present, x as nat, edge_index as int));
                        assert(before_cells[x].spec_degree() == degree(
                            edges,
                            before_present,
                            x as nat,
                            m as nat,
                        ));
                        lemma_incident_counts(
                            edges,
                            before_present,
                            x as nat,
                            m as nat,
                            edge_index as int,
                        );
                    }
                    assert forall|k: int| 0 <= k < order.len() implies !touches(
                        edges[edge_index as int],
                        (#[trigger] order[k]).0,
                    ) by {
                        let w = order[k].0;
                        assert(before_cells[w as int].spec_degree() == 0);
                        lemma_degree_zero(edges, before_present, w, m as nat);
                        assert(!incident(edges, before_present, w, edge_index as int));
                    }
                    owner = owner.update(u as int, edge_index as int);
                    position = position.update(edge_index as int, order.len() as int);
                    order = order.push((u as nat, edge_index as nat));
                }
                let ghost stack0 = stack@;
                let ghost cells0 = cells@;
                if e[0] != u {
                    detach(&mut cells, &mut stack, e[0], edge_index);
                }
                let ghost stack1 = stack@;
                if e[1] != u {
                    detach(&mut cells, &mut stack, e[1], edge_index);
                }
                let ghost stack2 = stack@;
                if e[2] != u {
                    detach(&mut cells, &mut stack, e[2], edge_index);
                }
                proof {
                    assert forall|w: int|
                        0 <= w <= v && (#[trigger] cells@[w]).spec_degree() == 1 implies waiting(
                        stack@,
                        pos as int,
                        w,
                    ) by {
                        if w == e[2] && e[2] != u {
                            assert(stack@[stack@.len() - 1] == w);
                        } else if w == e[1] && e[1] != u {
                            assert(stack2[stack2.len() - 1] == w);
                            assert(stack@[stack2.len() - 1] == w);
                        } else if w == e[0] && e[0] != u {
                            assert(stack1[stack1.len() - 1] == w);
                            assert(stack@[stack1.len() - 1] == w);
                        } else {
                            assert(w != u);
                            assert(cells@[w] == before_cells[w]);
                            let k = choose|k: int|
                                pos <= k < before_stack.len() && #[trigger] before_stack[k] == w;
                            assert(stack0[k] == before_stack[k]);
                            assert(stack@[k] == w);
                        }
                    }
                    assert forall|w: int| 0 <= w < cells@.len() implies (#[trigger] cells@[w]).spec_degree()
                        == degree(edges, present, w as nat, m as nat) && if owner[w] < 0 {
                        cells@[w].spec_sum() == index_sum(edges, present, w as nat, m as nat)
                    } else {
                        cells@[w].spec_sum() == owner[w] && cells@[w].spec_degree() == 0
                    } by {
                        assert(before_cells[w].spec_degree() == degree(
                            edges,
                            before_present,
                            w as nat,
                            m as nat,
                        ));
                        lemma_take_edge(edges, before_present, w as nat, m as nat, edge_index as int);
                    }
                }
            }
            proof {
                assert forall|w: int| 0 <= w < v + 1 implies (#[trigger] cells@[w]).spec_degree()
                    != 1 by {
                    if cells@[w].spec_degree() == 1 {
                        assert(waiting(stack@, pos as int, w));
                    }
                }
            }
            stack.truncate(curr);
        }
        v += 1;
    }
    proof {
        lemma_chunk_edges(
            sigs@,
            start as int,
            end as int,
            log2_l as nat,
            segment_size as nat,
        );
    }
    if stack.len() != m {
        proof {
            assert forall|w: nat| w < num_vertices implies #[trigger] degree(
                edges,
                present,
                w,
                edges.len(),
            ) != 1 by {
                assert(cells@[w as int].spec_degree() != 1);
            }
            lemma_stuck(edges, present, num_vertices as nat);
        }
        return None;
    }
    proof {
        lemma_none_present(present, m as nat);
        let steps = peel_order(stack@, cells@);
        assert(steps =~= order) by {
            assert forall|k: int| 0 <= k < order.len() implies steps[k] == order[k] by {
                let w = order[k].0 as int;
                assert(owner[w] == order[k].1);
                assert(cells@[w].spec_sum() == owner[w]);
            }
        }
        assert forall|k: int| 0 <= k < stack@.len() implies #[trigger] stack@[k] < num_vertices by {
            assert(order[k].0 < cells@.len());
        }
        assert(is_peeling(edges, order, position)) by {
            assert forall|e: int| 0 <= e < edges.len() implies 0 <= #[trigger] position[e]
                < order.len() && order[position[e]].1 == e by {
                assert(!present[e]);
            }
        }
        assert(peelable(edges));
    }
    Some((stack, cells, Ghost(position)))
}

} // verus!
