//! Building a retrieval function: signing the keys, splitting them into
//! chunks, peeling each chunk and giving its vertices their values.

use crate::bits::bit_field_vec::BitFieldVec;
use crate::bits::word::low_mask;
use crate::func::edge_list::EdgeList;
use crate::func::function::{
    chunk, chunk_of, lemma_edge_of, lemma_small_pow2, lemma_xor_bound, lookup,
    vertices_per_chunk, Function, MAX_HIGH_BITS, MAX_LOG2_L, MAX_SEGMENT_SIZE,
};
use crate::func::graph::{is_peeling, peelable, touches, Edge};
use crate::func::params::{choose_params, pow2, settled_entry, settled_high_bits};
use crate::func::peel::{
    chunk_edges, degrees_fit, edge_at, peel, peel_order, Signed, MAX_EDGES,
};
use crate::func::remap::Remap;
use rayon::slice::ParallelSliceMut;
use vstd::prelude::*;

verus! {

/// The order of signatures with their values: by the first word, then the
/// second, then the value.
pub open spec fn signed_le(a: Signed, b: Signed) -> bool {
    a.0 < b.0 || (a.0 == b.0 && (a.1 < b.1 || (a.1 == b.1 && a.2 <= b.2)))
}

/// The signatures are in ascending order.
pub open spec fn sorted(s: Seq<Signed>) -> bool {
    forall|i: int, j: int| 0 <= i <= j < s.len() ==> signed_le(#[trigger] s[i], #[trigger] s[j])
}

/// Two entries have the same signature.
pub open spec fn same_signature(a: Signed, b: Signed) -> bool {
    a.0 == b.0 && a.1 == b.1
}

/// Two entries of `s` at different places have the same signature.
pub open spec fn has_collision(s: Seq<Signed>) -> bool {
    exists|i: int, j: int|
        0 <= i < s.len() && 0 <= j < s.len() && i != j && same_signature(
            #[trigger] s[i],
            #[trigger] s[j],
        )
}

/// The signatures of the keys under `seed`, each with the value of its key.
pub open spec fn signed_keys<T: Remap>(keys: Seq<T>, values: Seq<u64>, seed: u64) -> Seq<Signed> {
    Seq::new(
        keys.len(),
        |i: int| (T::signature(&keys[i], seed).0, T::signature(&keys[i], seed).1, values[i]),
    )
}

/// Two keys at different places have the same signature under `seed`.
pub open spec fn has_duplicate_signatures<T: Remap>(keys: Seq<T>, seed: u64) -> bool {
    exists|i: int, j: int|
        0 <= i < keys.len() && 0 <= j < keys.len() && i != j && T::signature(
            #[trigger] &keys[i],
            seed,
        ) == T::signature(#[trigger] &keys[j], seed)
}

/// Sorts the signatures in ascending order.
///
/// Calls `par_sort_unstable` of rayon, which sorts a slice by the order of
/// its items, here that of tuples of integers, and keeps the items as they
/// are: the same entries, each as often as before.
#[verifier::external_body]
fn sort_signatures(sigs: &mut Vec<Signed>)
    ensures
        final(sigs)@.to_multiset() == old(sigs)@.to_multiset(),
        sorted(final(sigs)@),
{
    sigs.par_sort_unstable();
}

/// Computes the signature of each key and pairs it with the key's value.
pub fn sign_keys<T: Remap>(keys: &[T], values: &[u64], seed: u64) -> (r: Vec<Signed>)
    requires
        values@.len() >= keys@.len(),
    ensures
        r@ == signed_keys(keys@, values@, seed),
{
    let n = keys.len();
    let mut sigs: Vec<Signed> = Vec::with_capacity(n);
    let mut i: usize = 0;
    while i < n
        invariant
            i <= n,
            n == keys@.len(),
            values@.len() >= n,
            sigs@.len() == i,
            forall|j: int| 0 <= j < i ==> #[trigger] sigs@[j] == signed_keys(keys@, values@, seed)[j],
        decreases n - i,
    {
        let sig = T::remap(&keys[i], seed);
        sigs.push((sig[0], sig[1], values[i]));
        i += 1;
    }
    assert(sigs@ =~= signed_keys(keys@, values@, seed));
    sigs
}

/// Two sequences with the same entries have a collision together or not at all.
pub proof fn lemma_collision_moves(a: Seq<Signed>, b: Seq<Signed>)
    requires
        a.to_multiset() == b.to_multiset(),
        has_collision(a),
    ensures
        has_collision(b),
{
    broadcast use vstd::seq_lib::group_to_multiset_ensures;

    let (i, j) = choose|i: int, j: int|
        0 <= i < a.len() && 0 <= j < a.len() && i != j && same_signature(
            #[trigger] a[i],
            #[trigger] a[j],
        );
    if a[i] == a[j] {
        if b.no_duplicates() {
            b.lemma_multiset_has_no_duplicates();
            a.lemma_multiset_has_no_duplicates_conv();
            assert(false);
        }
        let (p, q) = choose|p: int, q: int|
            0 <= p < b.len() && 0 <= q < b.len() && p != q && b[p] == b[q];
        assert(same_signature(b[p], b[q]));
    } else {
        assert(a.contains(a[i]));
        assert(a.contains(a[j]));
        assert(b.to_multiset().count(a[i]) > 0);
        assert(b.to_multiset().count(a[j]) > 0);
        assert(b.contains(a[i]));
        assert(b.contains(a[j]));
        let p = choose|p: int| 0 <= p < b.len() && b[p] == a[i];
        let q = choose|q: int| 0 <= q < b.len() && b[q] == a[j];
        assert(same_signature(b[p], b[q]));
    }
}

/// In sorted signatures a collision shows between neighbours.
pub proof fn lemma_collision_adjacent(s: Seq<Signed>)
    requires
        sorted(s),
        has_collision(s),
    ensures
        exists|p: int| 0 <= p < s.len() - 1 && same_signature(#[trigger] s[p], s[p + 1]),
{
    let (i, j) = choose|i: int, j: int|
        0 <= i < s.len() && 0 <= j < s.len() && i != j && same_signature(
            #[trigger] s[i],
            #[trigger] s[j],
        );
    let p = if i < j {
        i
    } else {
        j
    };
    let q = if i < j {
        j
    } else {
        i
    };
    assert(signed_le(s[p], s[p + 1]));
    assert(signed_le(s[p + 1], s[q]));
    assert(same_signature(s[p], s[p + 1]));
}

/// The keys have two equal signatures exactly when their signed entries
/// have a collision.
pub proof fn lemma_duplicates_are_collisions<T: Remap>(keys: Seq<T>, values: Seq<u64>, seed: u64)
    ensures
        has_duplicate_signatures(keys, seed) <==> has_collision(signed_keys(keys, values, seed)),
{
    let s = signed_keys(keys, values, seed);
    if has_duplicate_signatures(keys, seed) {
        let (i, j) = choose|i: int, j: int|
            0 <= i < keys.len() && 0 <= j < keys.len() && i != j && T::signature(
                #[trigger] &keys[i],
                seed,
            ) == T::signature(#[trigger] &keys[j], seed);
        assert(same_signature(s[i], s[j]));
    }
    if has_collision(s) {
        let (i, j) = choose|i: int, j: int|
            0 <= i < s.len() && 0 <= j < s.len() && i != j && same_signature(
                #[trigger] s[i],
                #[trigger] s[j],
            );
        assert(T::signature(&keys[i], seed) == T::signature(&keys[j], seed));
    }
}

/// The chunk of a signature grows with the signature.
pub proof fn lemma_chunk_grows(a: u64, b: u64, high_bits: nat)
    requires
        a <= b,
        high_bits <= 64,
    ensures
        chunk_of(a, high_bits) <= chunk_of(b, high_bits),
{
    vstd::arithmetic::power2::lemma_pow2_pos((64 - high_bits) as nat);
    vstd::arithmetic::div_mod::lemma_div_is_ordered(
        a as int,
        b as int,
        pow2((64 - high_bits) as nat) as int,
    );
}

/// The entry `p` lies in the part of the chunk `c` and belongs to that chunk.
pub open spec fn in_chunk(sigs: Seq<Signed>, bounds: Seq<usize>, high_bits: nat, c: int, p: int)
    -> bool {
    bounds[c] <= p < bounds[c + 1] ==> chunk_of(sigs[p].0, high_bits) == c
}

/// The bounds split the sorted signatures into chunks: the entries from
/// `bounds[c]` up to `bounds[c + 1]` are those of the chunk `c`.
pub open spec fn splits(sigs: Seq<Signed>, bounds: Seq<usize>, high_bits: nat) -> bool {
    &&& bounds.len() == pow2(high_bits) + 1
    &&& bounds[0] == 0
    &&& bounds[bounds.len() - 1] == sigs.len()
    &&& forall|c: int| 0 <= c < bounds.len() - 1 ==> #[trigger] bounds[c] <= bounds[c + 1]
    &&& forall|c: int, p: int|
        0 <= c < bounds.len() - 1 && 0 <= p < sigs.len() ==> #[trigger] in_chunk(
            sigs,
            bounds,
            high_bits,
            c,
            p,
        )
}

/// Tells whether two of the sorted signatures are the same: whether two
/// neighbours are.
pub fn find_collision(sigs: &Vec<Signed>) -> (r: bool)
    requires
        sorted(sigs@),
    ensures
        r == has_collision(sigs@),
{
    let n = sigs.len();
    let last = if n == 0 {
        0
    } else {
        n - 1
    };
    let mut p: usize = 0;
    while p < last
        invariant
            n == sigs@.len(),
            p <= last,
            last + 1 == n || (last == 0 && n == 0),
            forall|q: int| 0 <= q < p && q + 1 < n ==> !same_signature(#[trigger] sigs@[q], sigs@[q + 1]),
        decreases last - p,
    {
        if sigs[p].0 == sigs[p + 1].0 && sigs[p].1 == sigs[p + 1].1 {
            proof {
                assert(same_signature(sigs@[p as int], sigs@[p + 1]));
            }
            return true;
        }
        p += 1;
    }
    proof {
        if has_collision(sigs@) {
            lemma_collision_adjacent(sigs@);
        }
    }
    false
}

/// Splits the sorted signatures into chunks.
#[verifier::rlimit(50)]
pub fn split_chunks(sigs: &Vec<Signed>, high_bits: u32, chunk_mask: u32) -> (bounds: Vec<usize>)
    requires
        sorted(sigs@),
        high_bits <= MAX_HIGH_BITS,
        chunk_mask == low_mask(high_bits as u64),
        pow2(high_bits as nat) < usize::MAX,
    ensures
        splits(sigs@, bounds@, high_bits as nat),
{
    let n = sigs.len();
    proof {
        lemma_small_pow2(high_bits as nat);
    }
    let num_chunks = (1u64 << high_bits) as usize;
    let mut bounds: Vec<usize> = Vec::new();
    bounds.push(0);
    let mut p: usize = 0;
    let mut c: usize = 0;
    while c < num_chunks
        invariant
            c <= num_chunks,
            num_chunks == pow2(high_bits as nat),
            num_chunks < usize::MAX,
            n == sigs@.len(),
            p <= n,
            sorted(sigs@),
            high_bits <= MAX_HIGH_BITS,
            chunk_mask == low_mask(high_bits as u64),
            bounds@.len() == c + 1,
            bounds@[0] == 0,
            bounds@[c as int] == p,
            forall|d: int| 0 <= d < c ==> #[trigger] bounds@[d] <= bounds@[d + 1],
            forall|d: int, q: int|
                0 <= d < c && 0 <= q < n ==> #[trigger] in_chunk(
                    sigs@,
                    bounds@,
                    high_bits as nat,
                    d,
                    q,
                ),
            p < n ==> chunk_of(sigs@[p as int].0, high_bits as nat) >= c,
        decreases num_chunks - c,
    {
        let ghost first = p;
        while p < n && chunk(&[sigs[p].0, sigs[p].1], high_bits, chunk_mask) == c as u64
            invariant
                c < num_chunks,
                first <= p <= n,
                n == sigs@.len(),
                sorted(sigs@),
                high_bits <= MAX_HIGH_BITS,
                chunk_mask == low_mask(high_bits as u64),
                forall|q: int|
                    first <= q < p ==> chunk_of((#[trigger] sigs@[q]).0, high_bits as nat) == c,
                p < n ==> chunk_of(sigs@[p as int].0, high_bits as nat) >= c,
            decreases n - p,
        {
            proof {
                if p + 1 < n {
                    assert(signed_le(sigs@[p as int], sigs@[p + 1]));
                    lemma_chunk_grows(sigs@[p as int].0, sigs@[p + 1].0, high_bits as nat);
                }
            }
            p += 1;
        }
        let ghost before = bounds@;
        bounds.push(p);
        proof {
            assert forall|d: int, q: int| 0 <= d < c + 1 && 0 <= q < n implies #[trigger] in_chunk(
                sigs@,
                bounds@,
                high_bits as nat,
                d,
                q,
            ) by {
                if d < c {
                    assert(in_chunk(sigs@, before, high_bits as nat, d, q));
                    assert(bounds@[d] == before[d]);
                    assert(bounds@[d + 1] == before[d + 1]);
                }
            }
            assert forall|d: int| 0 <= d < c + 1 implies #[trigger] bounds@[d] <= bounds@[d + 1] by {
                if d < c {
                    assert(before[d] <= before[d + 1]);
                }
            }
        }
        c += 1;
    }
    proof {
        if p < n {
            // The entry would belong to a chunk that does not exist.
            lemma_chunk_in_range(sigs@[p as int].0, high_bits as nat);
        }
    }
    bounds
}

/// The chunk of a signature is one of the `2^high_bits` chunks.
pub proof fn lemma_chunk_in_range(s0: u64, high_bits: nat)
    requires
        high_bits <= 64,
    ensures
        chunk_of(s0, high_bits) < pow2(high_bits),
{
    let low = (64 - high_bits) as nat;
    vstd::arithmetic::power2::lemma_pow2_pos(low);
    vstd::arithmetic::power2::lemma_pow2_adds(high_bits, low);
    vstd::arithmetic::power2::lemma2_to64_rest();
    vstd::arithmetic::power2::lemma2_to64();
    assert(pow2(64) == 0x1_0000_0000_0000_0000);
    let d = pow2(low) as int;
    let h = pow2(high_bits) as int;
    assert(h * d == pow2(64));
    if s0 as int / d >= h {
        vstd::arithmetic::div_mod::lemma_fundamental_div_mod(s0 as int, d);
        assert(d * (s0 as int / d) >= d * h) by (nonlinear_arith)
            requires
                s0 as int / d >= h,
                d > 0,
        ;
        assert(d * h == h * d) by (nonlinear_arith);
        assert(false);
    }
}

/// The largest number of entries of a chunk.
pub open spec fn max_chunk_len(bounds: Seq<usize>, chunks: nat) -> nat
    decreases chunks,
{
    if chunks == 0 {
        0
    } else {
        let rest = max_chunk_len(bounds, (chunks - 1) as nat);
        let last = (bounds[chunks as int] - bounds[chunks - 1]) as nat;
        if last > rest {
            last
        } else {
            rest
        }
    }
}

/// Computes the largest number of entries of a chunk.
pub fn largest_chunk(bounds: &Vec<usize>) -> (r: usize)
    requires
        bounds@.len() >= 1,
        forall|c: int| 0 <= c < bounds@.len() - 1 ==> #[trigger] bounds@[c] <= bounds@[c + 1],
    ensures
        r == max_chunk_len(bounds@, (bounds@.len() - 1) as nat),
        forall|c: int| 0 <= c < bounds@.len() - 1 ==> #[trigger] bounds@[c + 1] - bounds@[c] <= r,
{
    let chunks = bounds.len() - 1;
    let mut largest: usize = 0;
    let mut c: usize = 0;
    while c < chunks
        invariant
            c <= chunks,
            chunks == bounds@.len() - 1,
            forall|d: int| 0 <= d < bounds@.len() - 1 ==> #[trigger] bounds@[d] <= bounds@[d + 1],
            largest == max_chunk_len(bounds@, c as nat),
            forall|d: int| 0 <= d < c ==> #[trigger] bounds@[d + 1] - bounds@[d] <= largest,
        decreases chunks - c,
    {
        assert(bounds@[c as int] <= bounds@[c + 1]);
        let len = bounds[c + 1] - bounds[c];
        if len > largest {
            largest = len;
        }
        c += 1;
    }
    largest
}

/// The length of a segment for chunks of at most `max_count` keys: the
/// chunk gets `c100` hundredths of a vertex for each key, rounded up, and
/// `2^log2_l + 1` more, in `2^log2_l + 2` segments of the same length.
pub open spec fn segment_size_for(max_count: nat, log2_l: nat, c100: nat) -> nat {
    let l = pow2(log2_l);
    let room = (max_count * c100 + 99) / 100;
    (room + l + 1 + l + 1) / (l + 2)
}

/// Computes the length of a segment.
pub fn segment_size(max_count: usize, log2_l: u32, c100: u64) -> (r: u64)
    requires
        max_count <= MAX_EDGES,
        log2_l <= MAX_LOG2_L,
        c100 <= 1000,
    ensures
        r == segment_size_for(max_count as nat, log2_l as nat, c100 as nat),
        r >= 1,
{
    proof {
        lemma_small_pow2(log2_l as nat);
        assert(max_count * c100 <= 0x1000_0000_0000 * 1000) by (nonlinear_arith)
            requires
                max_count <= 0x1000_0000_0000,
                c100 <= 1000,
        ;
    }
    let l = 1u64 << log2_l;
    let room = ((max_count as u64) * c100 + 99) / 100;
    assert((room + l + 1 + l + 1) / (l + 2) >= 1) by (nonlinear_arith)
        requires
            room + l + 1 + l + 1 >= l + 2,
            l + 2 > 0,
    ;
    (room + l + 1 + l + 1) / (l + 2)
}

/// The three vertices of the key `i` of a chunk hold its value together.
pub open spec fn chunk_solved(
    data: Seq<u64>,
    edges: Seq<Edge>,
    offset: nat,
    sigs: Seq<Signed>,
    start: int,
    i: int,
) -> bool {
    data[(offset + edges[i].0) as int] ^ data[(offset + edges[i].1) as int] ^ data[(offset
        + edges[i].2) as int] == sigs[start + i].2
}

/// Gives the vertices of a peeled chunk their values, last peeled first:
/// each vertex gets what makes the three vertices of its key hold the key's
/// value together. No key peeled later touches the vertex, so what was
/// settled stays settled.
#[verifier::rlimit(50)]
pub fn assign_chunk(
    data: &mut BitFieldVec,
    sigs: &Vec<Signed>,
    start: usize,
    end: usize,
    log2_l: u32,
    segment_size: u64,
    num_vertices: usize,
    offset: usize,
    stack: &Vec<usize>,
    cells: &Vec<EdgeList>,
    Ghost(position): Ghost<Seq<int>>,
)
    requires
        old(data).wf(),
        offset + num_vertices <= old(data).spec_len(),
        start <= end <= sigs@.len(),
        log2_l <= MAX_LOG2_L,
        1 <= segment_size <= MAX_SEGMENT_SIZE,
        num_vertices == vertices_per_chunk(log2_l as nat, segment_size as nat),
        stack@.len() == end - start,
        cells@.len() == num_vertices,
        forall|k: int| 0 <= k < stack@.len() ==> #[trigger] stack@[k] < num_vertices,
        is_peeling(
            chunk_edges(sigs@, start as int, end as int, log2_l as nat, segment_size as nat),
            peel_order(stack@, cells@),
            position,
        ),
        forall|p: int| start <= p < end ==> (#[trigger] sigs@[p]).2 <= old(data).spec_mask(),
    ensures
        final(data).wf(),
        final(data).spec_bit_width() == old(data).spec_bit_width(),
        final(data).spec_len() == old(data).spec_len(),
        final(data).spec_mask() == old(data).spec_mask(),
        forall|x: int|
            0 <= x < old(data).spec_len() && !(offset <= x < offset + num_vertices)
                ==> final(data)@[x] == old(data)@[x],
        forall|i: int|
            0 <= i < end - start ==> chunk_solved(
                final(data)@,
                chunk_edges(sigs@, start as int, end as int, log2_l as nat, segment_size as nat),
                offset as nat,
                sigs@,
                start as int,
                i,
            ),
{
    let m = end - start;
    let ghost edges = chunk_edges(
        sigs@,
        start as int,
        end as int,
        log2_l as nat,
        segment_size as nat,
    );
    let ghost order = peel_order(stack@, cells@);
    let mut k = m;
    while k > 0
        invariant
            k <= m,
            m == end - start,
            data.wf(),
            data.spec_bit_width() == old(data).spec_bit_width(),
            data.spec_len() == old(data).spec_len(),
            data.spec_mask() == old(data).spec_mask(),
            offset + num_vertices <= data.spec_len(),
            start <= end <= sigs@.len(),
            log2_l <= MAX_LOG2_L,
            1 <= segment_size <= MAX_SEGMENT_SIZE,
            num_vertices == vertices_per_chunk(log2_l as nat, segment_size as nat),
            stack@.len() == m,
            cells@.len() == num_vertices,
            forall|j: int| 0 <= j < stack@.len() ==> #[trigger] stack@[j] < num_vertices,
            edges == chunk_edges(
                sigs@,
                start as int,
                end as int,
                log2_l as nat,
                segment_size as nat,
            ),
            order == peel_order(stack@, cells@),
            is_peeling(edges, order, position),
            forall|p: int| start <= p < end ==> (#[trigger] sigs@[p]).2 <= data.spec_mask(),
            forall|x: int|
                0 <= x < data.spec_len() && !(offset <= x < offset + num_vertices) ==> data@[x]
                    == old(data)@[x],
            forall|j: int|
                k <= j < m ==> chunk_solved(
                    data@,
                    edges,
                    offset as nat,
                    sigs@,
                    start as int,
                    (#[trigger] order[j]).1 as int,
                ),
        decreases k,
    {
        k -= 1;
        let v = stack[k];
        proof {
            assert(order[k as int].1 == cells@[v as int].spec_sum());
            data.lemma_wf();
        }
        let edge_index = cells[v].edge_index() as usize;
        proof {
            assert(touches(edges[edge_index as int], v as nat));
        }
        let e = edge_at(sigs, start, end, edge_index, log2_l, segment_size);
        let ghost before = data@;
        let wanted = sigs[start + edge_index].2;
        let value = if v == e[0] {
            data.get(e[1] + offset) ^ data.get(e[2] + offset)
        } else if v == e[1] {
            data.get(e[0] + offset) ^ data.get(e[2] + offset)
        } else {
            data.get(e[0] + offset) ^ data.get(e[1] + offset)
        };
        proof {
            let n = data.spec_bit_width() as u64;
            if v == e[0] {
                lemma_xor_bound(wanted, before[e[1] + offset], before[e[2] + offset], n);
            } else if v == e[1] {
                lemma_xor_bound(wanted, before[e[0] + offset], before[e[2] + offset], n);
            } else {
                lemma_xor_bound(wanted, before[e[0] + offset], before[e[1] + offset], n);
            }
        }
        data.set(v + offset, wanted ^ value);
        proof {
            assert(chunk_solved(
                data@,
                edges,
                offset as nat,
                sigs@,
                start as int,
                edge_index as int,
            ));
            assert forall|j: int| k <= j < m implies chunk_solved(
                data@,
                edges,
                offset as nat,
                sigs@,
                start as int,
                (#[trigger] order[j]).1 as int,
            ) by {
                if j > k {
                    let later = order[j].1 as int;
                    assert(!touches(edges[later], order[k as int].0));
                    assert(chunk_solved(before, edges, offset as nat, sigs@, start as int, later));
                    lemma_edge_of(
                        sigs@[start + later].0,
                        sigs@[start + later].1,
                        log2_l as nat,
                        segment_size as nat,
                    );
                }
            }
        }
    }
    proof {
        assert forall|i: int| 0 <= i < m implies chunk_solved(
            data@,
            edges,
            offset as nat,
            sigs@,
            start as int,
            i,
        ) by {
            let j = position[i];
            assert(order[j].1 == i);
        }
    }
}

/// The three vertices of the entry `p` hold its value together, in the
/// vector of all chunks.
pub open spec fn entry_solved(
    data: Seq<u64>,
    sigs: Seq<Signed>,
    p: int,
    high_bits: nat,
    log2_l: nat,
    segment_size: nat,
) -> bool {
    lookup(data, sigs[p].0, sigs[p].1, high_bits, log2_l, segment_size) == sigs[p].2
}

/// Every entry lies in the part of some chunk.
pub proof fn lemma_covered(bounds: Seq<usize>, c: int, p: int)
    requires
        0 <= c < bounds.len(),
        bounds[0] == 0,
        0 <= p < bounds[c],
    ensures
        exists|d: int| 0 <= d < c && #[trigger] bounds[d] <= p < bounds[d + 1],
    decreases c,
{
    if p >= bounds[c - 1] {
        assert(bounds[c - 1] <= p < bounds[c - 1 + 1]);
    } else {
        lemma_covered(bounds, c - 1, p);
    }
}

/// The signatures in ascending order.
pub open spec fn the_sorted(s: Seq<Signed>) -> Seq<Signed> {
    choose|t: Seq<Signed>| sorted(t) && t.to_multiset() == s.to_multiset()
}

/// The bounds of the chunks of sorted signatures.
pub open spec fn the_bounds(t: Seq<Signed>, high_bits: nat) -> Seq<usize> {
    choose|b: Seq<usize>| splits(t, b, high_bits)
}

/// There is one way to sort signatures.
pub proof fn lemma_the_sorted(s: Seq<Signed>, t: Seq<Signed>)
    requires
        sorted(t),
        t.to_multiset() == s.to_multiset(),
    ensures
        the_sorted(s) == t,
{
    let other = the_sorted(s);
    let leq = |a: Signed, b: Signed| signed_le(a, b);
    assert(vstd::relations::total_ordering(leq)) by {
        assert(vstd::relations::reflexive(leq));
        assert(vstd::relations::antisymmetric(leq));
        assert(vstd::relations::transitive(leq));
        assert(vstd::relations::strongly_connected(leq));
    }
    assert(vstd::relations::sorted_by(t, leq));
    assert(vstd::relations::sorted_by(other, leq));
    vstd::seq_lib::lemma_sorted_unique(other, t, leq);
}

/// Every entry from the bound of a chunk on lies in the part of that chunk
/// or of a later one.
pub proof fn lemma_covered_after(bounds: Seq<usize>, c: int, p: int)
    requires
        0 <= c < bounds.len() - 1,
        bounds[c] <= p < bounds[bounds.len() - 1],
    ensures
        exists|d: int| c <= d < bounds.len() - 1 && #[trigger] bounds[d] <= p < bounds[d + 1],
    decreases bounds.len() - c,
{
    if p < bounds[c + 1] {
        assert(bounds[c] <= p < bounds[c + 1]);
    } else {
        lemma_covered_after(bounds, c + 1, p);
    }
}

/// Two ways to split sorted signatures into chunks have the same bounds.
pub proof fn lemma_same_bound(t: Seq<Signed>, a: Seq<usize>, b: Seq<usize>, high_bits: nat, c: int)
    requires
        splits(t, a, high_bits),
        splits(t, b, high_bits),
        0 <= c < a.len(),
    ensures
        a[c] <= b[c],
{
    if a[c] > b[c] {
        // The entry at the bound of the one lies before the bound of the other.
        let p = b[c] as int;
        lemma_bounds_within(a, c);
        lemma_covered(a, c, p);
        let d = choose|d: int| 0 <= d < c && #[trigger] a[d] <= p < a[d + 1];
        assert(in_chunk(t, a, high_bits, d, p));
        lemma_covered_after(b, c, p);
        let e = choose|e: int| c <= e < b.len() - 1 && #[trigger] b[e] <= p < b[e + 1];
        assert(in_chunk(t, b, high_bits, e, p));
    }
}

/// There is one way to split sorted signatures into chunks.
pub proof fn lemma_the_bounds(t: Seq<Signed>, b: Seq<usize>, high_bits: nat)
    requires
        splits(t, b, high_bits),
    ensures
        the_bounds(t, high_bits) == b,
{
    let other = the_bounds(t, high_bits);
    assert forall|c: int| 0 <= c < b.len() implies other[c] == b[c] by {
        lemma_same_bound(t, other, b, high_bits, c);
        lemma_same_bound(t, b, other, high_bits, c);
    }
    assert(other =~= b);
}

/// The ways in which an attempt can end.
pub enum AttemptKind {
    /// The function is built.
    Built,
    /// Two keys have the same signature.
    Duplicate,
    /// A chunk cannot be peeled.
    Unpeelable,
    /// The vertices do not fit into the memory of the machine.
    TooLarge,
}

/// The length of a segment for sorted signatures: that for their largest
/// chunk, under the settled parameters.
pub open spec fn sorted_segment_size(sigs: Seq<Signed>, high_bits: nat) -> nat {
    let chunk_bits = settled_high_bits(sigs.len(), high_bits);
    let entry = settled_entry(sigs.len(), high_bits);
    segment_size_for(
        max_chunk_len(the_bounds(sigs, chunk_bits), pow2(chunk_bits)),
        entry.1,
        entry.2,
    )
}

/// The length of a segment of the function that is built for the keys
/// under `seed`.
pub open spec fn settled_segment_size<T: Remap>(
    keys: Seq<T>,
    values: Seq<u64>,
    high_bits: nat,
    seed: u64,
) -> nat {
    sorted_segment_size(the_sorted(signed_keys(keys, values, seed)), high_bits)
}

/// How the attempt to build a function ends for sorted signatures, no two
/// of which are the same.
///
/// The signatures are split into `2^high_bits` chunks, for the settled
/// number of chunk bits, and the length of a segment follows from the
/// largest chunk. The attempt then builds the function if all this fits the
/// machine and every chunk can be peeled.
pub open spec fn sorted_kind(sigs: Seq<Signed>, bit_width: nat, high_bits: nat) -> AttemptKind {
    let chunk_bits = settled_high_bits(sigs.len(), high_bits);
    let entry = settled_entry(sigs.len(), high_bits);
    let bounds = the_bounds(sigs, chunk_bits);
    let largest = max_chunk_len(bounds, pow2(chunk_bits));
    let segment = segment_size_for(largest, entry.1, entry.2);
    if pow2(chunk_bits) >= usize::MAX || largest > MAX_EDGES || segment > MAX_SEGMENT_SIZE || !fits(
        chunk_bits,
        entry.1,
        segment,
        bit_width,
    ) {
        AttemptKind::TooLarge
    } else if all_solvable(sigs, bounds, pow2(chunk_bits), entry.1, segment) {
        AttemptKind::Built
    } else {
        AttemptKind::Unpeelable
    }
}

/// How the attempt to build a function for the keys under `seed` ends:
/// two keys with the same signature end it first, and otherwise the
/// sorted signatures decide.
pub open spec fn attempt_kind<T: Remap>(
    keys: Seq<T>,
    values: Seq<u64>,
    bit_width: nat,
    high_bits: nat,
    seed: u64,
) -> AttemptKind {
    if has_duplicate_signatures(keys, seed) {
        AttemptKind::Duplicate
    } else {
        sorted_kind(the_sorted(signed_keys(keys, values, seed)), bit_width, high_bits)
    }
}

/// How an attempt to build a function under one seed ends.
pub enum Attempt<T: Remap> {
    /// The function was built.
    Built(Function<T>),
    /// Two keys have the same signature under the seed.
    Duplicate,
    /// A chunk could not be peeled under the seed.
    Unpeelable,
    /// The vertices do not fit into the memory of the machine.
    TooLarge,
}

impl<T: Remap> Attempt<T> {
    /// The way in which the attempt ended.
    pub open spec fn kind(&self) -> AttemptKind {
        match self {
            Attempt::Built(_) => AttemptKind::Built,
            Attempt::Duplicate => AttemptKind::Duplicate,
            Attempt::Unpeelable => AttemptKind::Unpeelable,
            Attempt::TooLarge => AttemptKind::TooLarge,
        }
    }
}

/// The chunks and their vertices can be counted and held on this machine.
pub open spec fn fits(high_bits: nat, log2_l: nat, segment: nat, bit_width: nat) -> bool {
    let per_chunk = vertices_per_chunk(log2_l, segment);
    &&& pow2(high_bits) < usize::MAX
    &&& per_chunk <= usize::MAX
    &&& pow2(high_bits) * per_chunk <= usize::MAX
    &&& pow2(high_bits) * per_chunk * bit_width + 64 <= usize::MAX
}

/// The number of vertices of a chunk and of all chunks together, where
/// they fit the machine.
pub fn plan(high_bits: u32, log2_l: u32, segment: u64, bit_width: usize) -> (r: Option<
    (usize, usize),
>)
    requires
        high_bits <= MAX_HIGH_BITS,
        log2_l <= MAX_LOG2_L,
        1 <= segment <= MAX_SEGMENT_SIZE,
        bit_width <= 64,
    ensures
        r is Some <==> fits(high_bits as nat, log2_l as nat, segment as nat, bit_width as nat),
        r matches Some((num_vertices, total)) ==> {
            &&& num_vertices == vertices_per_chunk(log2_l as nat, segment as nat)
            &&& total == pow2(high_bits as nat) * num_vertices
            &&& total * bit_width + 64 <= usize::MAX
            &&& pow2(high_bits as nat) < usize::MAX
            &&& segment <= num_vertices
        },
{
    proof {
        lemma_small_pow2(high_bits as nat);
        lemma_small_pow2(log2_l as nat);
        assert(segment * (pow2(log2_l as nat) + 2) >= segment) by (nonlinear_arith)
            requires
                pow2(log2_l as nat) >= 1,
        ;
    }
    let chunks64 = 1u64 << high_bits;
    if chunks64 >= usize::MAX as u64 {
        return None;
    }
    let l = 1u64 << log2_l;
    assert(segment * (l + 2) <= 0x1_0000_0000 * 0x1_0002) by (nonlinear_arith)
        requires
            segment <= 0x1_0000_0000,
            l <= 0x1_0000,
    ;
    let vertices64 = segment * (l + 2);
    if vertices64 > usize::MAX as u64 {
        return None;
    }
    let num_vertices = vertices64 as usize;
    let total = match (chunks64 as usize).checked_mul(num_vertices) {
        Some(total) => total,
        None => {
            return None;
        },
    };
    match total.checked_mul(bit_width) {
        Some(bits) => {
            if bits > usize::MAX - 64 {
                return None;
            }
        },
        None => {
            return None;
        },
    }
    Some((num_vertices, total))
}

/// The chunk `c` can be solved: its edges can be peeled and none of its
/// vertices is touched by more edges than a cell can count.
pub open spec fn chunk_solvable(
    sigs: Seq<Signed>,
    bounds: Seq<usize>,
    c: int,
    log2_l: nat,
    segment: nat,
) -> bool {
    let edges = chunk_edges(sigs, bounds[c] as int, bounds[c + 1] as int, log2_l, segment);
    degrees_fit(edges, vertices_per_chunk(log2_l, segment)) && peelable(edges)
}

/// Every chunk can be solved.
pub open spec fn all_solvable(
    sigs: Seq<Signed>,
    bounds: Seq<usize>,
    chunks: nat,
    log2_l: nat,
    segment: nat,
) -> bool {
    forall|c: int| 0 <= c < chunks ==> #[trigger] chunk_solvable(sigs, bounds, c, log2_l, segment)
}

/// Peels every chunk and gives its vertices their values. Where every
/// chunk can be peeled, the three vertices of each entry hold its value
/// together.
#[verifier::rlimit(50)]
pub fn solve_chunks(
    sigs: &Vec<Signed>,
    bounds: &Vec<usize>,
    high_bits: u32,
    log2_l: u32,
    segment: u64,
    num_vertices: usize,
    total: usize,
    bit_width: usize,
) -> (r: Option<BitFieldVec>)
    requires
        high_bits <= MAX_HIGH_BITS,
        log2_l <= MAX_LOG2_L,
        1 <= segment <= MAX_SEGMENT_SIZE,
        bit_width <= 64,
        num_vertices == vertices_per_chunk(log2_l as nat, segment as nat),
        total == pow2(high_bits as nat) * num_vertices,
        total * bit_width + 64 <= usize::MAX,
        pow2(high_bits as nat) < usize::MAX,
        splits(sigs@, bounds@, high_bits as nat),
        forall|d: int| 0 <= d < bounds@.len() - 1 ==> #[trigger] bounds@[d + 1] - bounds@[d]
            <= MAX_EDGES,
        forall|p: int| 0 <= p < sigs@.len() ==> (#[trigger] sigs@[p]).2 <= low_mask(
            bit_width as u64,
        ),
    ensures
        r is Some <==> all_solvable(
            sigs@,
            bounds@,
            pow2(high_bits as nat),
            log2_l as nat,
            segment as nat,
        ),
        r matches Some(data) ==> {
            &&& data.wf()
            &&& data.spec_len() == total
            &&& data.spec_bit_width() == bit_width
            &&& forall|p: int|
                0 <= p < sigs@.len() ==> #[trigger] entry_solved(
                    data@,
                    sigs@,
                    p,
                    high_bits as nat,
                    log2_l as nat,
                    segment as nat,
                )
        },
{
    proof {
        lemma_small_pow2(high_bits as nat);
    }
    let num_chunks = (1u64 << high_bits) as usize;
    let mut data = BitFieldVec::new(bit_width, total);
    let ghost hb = high_bits as nat;
    let ghost ll = log2_l as nat;
    let ghost seg = segment as nat;
    proof {
        data.lemma_wf();
    }
    let mut c: usize = 0;
    while c < num_chunks
        invariant
            c <= num_chunks,
            num_chunks == pow2(hb),
            hb == high_bits,
            ll == log2_l,
            seg == segment,
            high_bits <= MAX_HIGH_BITS,
            log2_l <= MAX_LOG2_L,
            1 <= segment <= MAX_SEGMENT_SIZE,
            num_vertices == vertices_per_chunk(ll, seg),
            total == num_chunks * num_vertices,
            data.wf(),
            data.spec_len() == total,
            data.spec_bit_width() == bit_width,
            data.spec_mask() == low_mask(bit_width as u64),
            splits(sigs@, bounds@, hb),
            forall|d: int| 0 <= d < bounds@.len() - 1 ==> #[trigger] bounds@[d + 1] - bounds@[d]
                <= MAX_EDGES,
            forall|p: int| 0 <= p < sigs@.len() ==> (#[trigger] sigs@[p]).2 <= low_mask(
                bit_width as u64,
            ),
            forall|d: int, p: int|
                0 <= d < c && bounds@[d] <= p < bounds@[d + 1] ==> #[trigger] entry_solved(
                    data@,
                    sigs@,
                    p,
                    hb,
                    ll,
                    seg,
                ) || #[trigger] bounds@[d] > p,
            forall|d: int| 0 <= d < c ==> #[trigger] chunk_solvable(sigs@, bounds@, d, ll, seg),
        decreases num_chunks - c,
    {
        let start = bounds[c];
        let end = bounds[c + 1];
        proof {
            assert(bounds@[c as int] <= bounds@[c + 1]);
            assert(bounds@[c + 1] - bounds@[c as int] <= MAX_EDGES);
            lemma_bounds_within(bounds@, c + 1);
            assert((c + 1) * num_vertices <= num_chunks * num_vertices) by (nonlinear_arith)
                requires
                    c + 1 <= num_chunks,
            ;
            assert((c + 1) * num_vertices == c * num_vertices + num_vertices) by (nonlinear_arith);
        }
        let peeled = peel(sigs, start, end, log2_l, segment, num_vertices);
        let (stack, cells, position) = match peeled {
            Some(found) => found,
            None => {
                proof {
                    assert(!chunk_solvable(sigs@, bounds@, c as int, ll, seg));
                }
                return None;
            },
        };
        proof {
            assert(chunk_solvable(sigs@, bounds@, c as int, ll, seg));
        }
        let offset = c * num_vertices;
        let ghost before = data@;
        assign_chunk(
            &mut data,
            sigs,
            start,
            end,
            log2_l,
            segment,
            num_vertices,
            offset,
            &stack,
            &cells,
            position,
        );
        proof {
            let edges = chunk_edges(sigs@, start as int, end as int, ll, seg);
            assert forall|d: int, p: int|
                0 <= d < c + 1 && bounds@[d] <= p < bounds@[d + 1] implies #[trigger] entry_solved(
                data@,
                sigs@,
                p,
                hb,
                ll,
                seg,
            ) || #[trigger] bounds@[d] > p by {
                lemma_bounds_within(bounds@, d + 1);
                assert(in_chunk(sigs@, bounds@, hb, d, p));
                lemma_edge_of(sigs@[p].0, sigs@[p].1, ll, seg);
                if d == c {
                    assert(chunk_solved(data@, edges, offset as nat, sigs@, start as int, p - start));
                } else {
                    assert(entry_solved(before, sigs@, p, hb, ll, seg) || bounds@[d] > p);
                    assert((d + 1) * num_vertices <= c * num_vertices) by (nonlinear_arith)
                        requires
                            d + 1 <= c,
                    ;
                    assert((d + 1) * num_vertices == d * num_vertices + num_vertices)
                        by (nonlinear_arith);
                }
            }
        }
        c += 1;
    }
    proof {
        assert forall|p: int| 0 <= p < sigs@.len() implies #[trigger] entry_solved(
            data@,
            sigs@,
            p,
            hb,
            ll,
            seg,
        ) by {
            lemma_covered(bounds@, num_chunks as int, p);
            let d = choose|d: int| 0 <= d < num_chunks && #[trigger] bounds@[d] <= p < bounds@[d + 1];
            assert(entry_solved(data@, sigs@, p, hb, ll, seg) || bounds@[d] > p);
        }
    }
    Some(data)
}

/// The values of sorted entries are those of the entries before sorting.
pub proof fn lemma_values_fit(before: Seq<Signed>, after: Seq<Signed>, bound: u64)
    requires
        before.to_multiset() == after.to_multiset(),
        forall|i: int| 0 <= i < before.len() ==> (#[trigger] before[i]).2 <= bound,
    ensures
        forall|p: int| 0 <= p < after.len() ==> (#[trigger] after[p]).2 <= bound,
{
    broadcast use vstd::seq_lib::group_to_multiset_ensures;

    assert forall|p: int| 0 <= p < after.len() implies (#[trigger] after[p]).2 <= bound by {
        assert(after.contains(after[p]));
        assert(before.to_multiset().count(after[p]) > 0);
        assert(before.contains(after[p]));
        let i = choose|i: int| 0 <= i < before.len() && before[i] == after[p];
        assert(before[i].2 <= bound);
    }
}

/// Each entry is found again among the sorted entries.
pub proof fn lemma_entry_kept(before: Seq<Signed>, after: Seq<Signed>, i: int)
    requires
        before.to_multiset() == after.to_multiset(),
        0 <= i < before.len(),
    ensures
        exists|p: int| 0 <= p < after.len() && after[p] == before[i],
{
    broadcast use vstd::seq_lib::group_to_multiset_ensures;

    assert(before.contains(before[i]));
    assert(after.to_multiset().count(before[i]) > 0);
    assert(after.contains(before[i]));
}

/// Signs the keys and sorts the signatures.
pub fn sorted_signatures<T: Remap>(keys: &[T], values: &[u64], seed: u64) -> (sigs: Vec<Signed>)
    requires
        values@.len() >= keys@.len(),
    ensures
        sigs@ == the_sorted(signed_keys(keys@, values@, seed)),
        sigs@.len() == keys@.len(),
        sorted(sigs@),
        sigs@.to_multiset() == signed_keys(keys@, values@, seed).to_multiset(),
        has_collision(sigs@) <==> has_duplicate_signatures(keys@, seed),
{
    let mut sigs = sign_keys(keys, values, seed);
    let ghost signed = sigs@;
    sort_signatures(&mut sigs);
    proof {
        lemma_duplicates_are_collisions(keys@, values@, seed);
        if has_collision(signed) {
            lemma_collision_moves(signed, sigs@);
        }
        if has_collision(sigs@) {
            lemma_collision_moves(sigs@, signed);
        }
        lemma_the_sorted(signed, sigs@);
        vstd::seq_lib::to_multiset_len(signed);
        vstd::seq_lib::to_multiset_len(sigs@);
    }
    sigs
}

/// How building the values from sorted signatures ends.
pub enum Solution {
    /// The values, with the number of chunk bits, `log2_l` and the length
    /// of a segment that they are for.
    Solved(BitFieldVec, u32, u32, u64),
    /// A chunk could not be peeled.
    Unpeelable,
    /// The vertices do not fit into the memory of the machine.
    TooLarge,
}

impl Solution {
    /// The way in which the attempt ends that the solution belongs to.
    pub open spec fn kind(&self) -> AttemptKind {
        match self {
            Solution::Solved(_, _, _, _) => AttemptKind::Built,
            Solution::Unpeelable => AttemptKind::Unpeelable,
            Solution::TooLarge => AttemptKind::TooLarge,
        }
    }
}

/// Builds the values for sorted signatures, no two of which are the same:
/// settles the parameters, splits the signatures into chunks and solves
/// each chunk.
#[verifier::rlimit(50)]
pub fn solve(sigs: &Vec<Signed>, bit_width: usize, high_bits: u32) -> (r: Solution)
    requires
        sorted(sigs@),
        bit_width <= 64,
        high_bits <= MAX_HIGH_BITS,
        forall|p: int| 0 <= p < sigs@.len() ==> (#[trigger] sigs@[p]).2 <= low_mask(
            bit_width as u64,
        ),
    ensures
        r.kind() == sorted_kind(sigs@, bit_width as nat, high_bits as nat),
        r matches Solution::Solved(data, chunk_bits, log2_l, segment) ==> {
            &&& chunk_bits == settled_high_bits(sigs@.len(), high_bits as nat)
            &&& log2_l == settled_entry(sigs@.len(), high_bits as nat).1
            &&& segment == sorted_segment_size(sigs@, high_bits as nat)
            &&& chunk_bits <= MAX_HIGH_BITS
            &&& log2_l <= MAX_LOG2_L
            &&& 1 <= segment <= MAX_SEGMENT_SIZE
            &&& segment <= usize::MAX
            &&& data.wf()
            &&& data.spec_bit_width() == bit_width
            &&& data@.len() == pow2(chunk_bits as nat) * vertices_per_chunk(
                log2_l as nat,
                segment as nat,
            )
            &&& forall|p: int|
                0 <= p < sigs@.len() ==> #[trigger] entry_solved(
                    data@,
                    sigs@,
                    p,
                    chunk_bits as nat,
                    log2_l as nat,
                    segment as nat,
                )
        },
{
    let n = sigs.len();
    let (chunk_bits, log2_l, c100) = choose_params(n, high_bits);
    let ghost wanted = sorted_kind(sigs@, bit_width as nat, high_bits as nat);
    proof {
        lemma_small_pow2(chunk_bits as nat);
        if chunk_bits > 0 {
            crate::bits::word::lemma_pow2_minus_one(chunk_bits as u64);
        }
    }
    let chunks64 = 1u64 << chunk_bits;
    if chunks64 >= usize::MAX as u64 {
        assert(wanted is TooLarge);
        return Solution::TooLarge;
    }
    let chunk_mask = (chunks64 - 1) as u32;
    let bounds = split_chunks(sigs, chunk_bits, chunk_mask);
    proof {
        lemma_the_bounds(sigs@, bounds@, chunk_bits as nat);
    }
    let max_count = largest_chunk(&bounds);
    if max_count as u64 > MAX_EDGES {
        assert(wanted is TooLarge);
        return Solution::TooLarge;
    }
    let segment = segment_size(max_count, log2_l, c100);
    if segment > MAX_SEGMENT_SIZE {
        assert(wanted is TooLarge);
        return Solution::TooLarge;
    }
    let (num_vertices, total) = match plan(chunk_bits, log2_l, segment, bit_width) {
        Some(found) => found,
        None => {
            assert(wanted is TooLarge);
            return Solution::TooLarge;
        },
    };
    assert(wanted == (if all_solvable(
        sigs@,
        bounds@,
        pow2(chunk_bits as nat),
        log2_l as nat,
        segment as nat,
    ) {
        AttemptKind::Built
    } else {
        AttemptKind::Unpeelable
    }));
    match solve_chunks(sigs, &bounds, chunk_bits, log2_l, segment, num_vertices, total, bit_width) {
        Some(data) => {
            proof {
                data.lemma_wf();
            }
            Solution::Solved(data, chunk_bits, log2_l, segment)
        },
        None => Solution::Unpeelable,
    }
}

/// Tries to build a function for the keys under one seed.
///
/// Of a function that is built, every key returns its value.
#[verifier::rlimit(50)]
pub fn attempt<T: Remap>(
    keys: &[T],
    values: &[u64],
    bit_width: usize,
    high_bits: u32,
    seed: u64,
) -> (r: Attempt<T>)
    requires
        values@.len() >= keys@.len(),
        bit_width <= 64,
        high_bits <= MAX_HIGH_BITS,
        forall|i: int| 0 <= i < keys@.len() ==> #[trigger] values@[i] <= low_mask(bit_width as u64),
    ensures
        r.kind() == attempt_kind(keys@, values@, bit_width as nat, high_bits as nat, seed),
        r matches Attempt::Built(f) ==> {
            &&& f.wf()
            &&& f.seed() == seed
            &&& f.spec_len() == keys@.len()
            &&& f.values().spec_bit_width() == bit_width
            &&& f.high_bits() == settled_high_bits(keys@.len(), high_bits as nat)
            &&& f.log2_l() == settled_entry(keys@.len(), high_bits as nat).1
            &&& f.segment_size() == settled_segment_size(keys@, values@, high_bits as nat, seed)
            &&& forall|i: int| 0 <= i < keys@.len() ==> f.value_of(&keys@[i]) == #[trigger] values@[i]
        },
{
    let n = keys.len();
    let sigs = sorted_signatures(keys, values, seed);
    let ghost signed = signed_keys(keys@, values@, seed);
    proof {
        lemma_values_fit(signed, sigs@, low_mask(bit_width as u64));
    }
    if find_collision(&sigs) {
        return Attempt::Duplicate;
    }
    match solve(&sigs, bit_width, high_bits) {
        Solution::Solved(data, chunk_bits, log2_l, segment) => {
            let f = Function::from_parts(seed, log2_l, chunk_bits, n, segment as usize, data);
            proof {
                assert forall|i: int| 0 <= i < keys@.len() implies f.value_of(&keys@[i])
                    == #[trigger] values@[i] by {
                    lemma_entry_kept(signed, sigs@, i);
                    let p = choose|p: int| 0 <= p < sigs@.len() && sigs@[p] == signed[i];
                    assert(entry_solved(
                        data@,
                        sigs@,
                        p,
                        chunk_bits as nat,
                        log2_l as nat,
                        segment as nat,
                    ));
                }
            }
            Attempt::Built(f)
        },
        Solution::Unpeelable => Attempt::Unpeelable,
        Solution::TooLarge => Attempt::TooLarge,
    }
}

/// The bounds of the chunks lie within the entries.
pub proof fn lemma_bounds_within(bounds: Seq<usize>, c: int)
    requires
        0 <= c < bounds.len(),
        forall|d: int| 0 <= d < bounds.len() - 1 ==> #[trigger] bounds[d] <= bounds[d + 1],
    ensures
        bounds[c] <= bounds[bounds.len() - 1],
    decreases bounds.len() - c,
{
    if c < bounds.len() - 1 {
        lemma_bounds_within(bounds, c + 1);
    }
}

/// Why no function was built.
#[derive(Debug, Clone, Copy, PartialEq, Eq)]
pub enum BuildError {
    /// Two keys had the same signature under three seeds: there are
    /// duplicate keys.
    DuplicateKeys,
    /// The vertices do not fit into the memory of the machine.
    TooLarge,
    /// No seed is left to try.
    SeedsExhausted,
}

impl BuildError {
    /// Says in words why no function was built.
    pub fn message(&self) -> (r: &'static str)
        ensures
            r@ == (match self {
                BuildError::DuplicateKeys => "duplicate keys"@,
                BuildError::TooLarge => "too many vertices for this machine"@,
                BuildError::SeedsExhausted => "no seed left to try"@,
            }),
    {
        match self {
            BuildError::DuplicateKeys => "duplicate keys",
            BuildError::TooLarge => "too many vertices for this machine",
            BuildError::SeedsExhausted => "no seed left to try",
        }
    }
}

/// How the construction ends that starts at `seed` after `dups` seeds
/// have given two keys the same signature: with the seed under which the
/// function is built, or with the reason why none is.
///
/// The seeds are tried one after the other. The third seed that gives two
/// keys the same signature ends the construction, and so does a seed under
/// which the vertices do not fit the machine.
pub open spec fn construction<T: Remap>(
    keys: Seq<T>,
    values: Seq<u64>,
    bit_width: nat,
    high_bits: nat,
    seed: u64,
    dups: nat,
) -> Result<u64, BuildError>
    decreases u64::MAX - seed,
{
    let kind = attempt_kind(keys, values, bit_width, high_bits, seed);
    if kind is Built {
        Ok(seed)
    } else if kind is TooLarge {
        Err(BuildError::TooLarge)
    } else if kind is Duplicate && dups + 1 >= 3 {
        Err(BuildError::DuplicateKeys)
    } else if seed == u64::MAX {
        Err(BuildError::SeedsExhausted)
    } else {
        construction(
            keys,
            values,
            bit_width,
            high_bits,
            (seed + 1) as u64,
            if kind is Duplicate {
                dups + 1
            } else {
                dups
            },
        )
    }
}

/// Keys that have two equal signatures under every seed, as keys that hold
/// a duplicate do, end the construction as duplicate keys.
pub proof fn lemma_duplicate_keys<T: Remap>(
    keys: Seq<T>,
    values: Seq<u64>,
    bit_width: nat,
    high_bits: nat,
)
    requires
        forall|seed: u64| has_duplicate_signatures(keys, seed),
    ensures
        construction(keys, values, bit_width, high_bits, 0, 0) == Err::<u64, BuildError>(
            BuildError::DuplicateKeys,
        ),
{
    assert(has_duplicate_signatures(keys, 0));
    assert(has_duplicate_signatures(keys, 1));
    assert(has_duplicate_signatures(keys, 2));
    reveal_with_fuel(construction, 4);
}

/// Keys that never have two equal signatures do not end the construction
/// as duplicate keys.
pub proof fn lemma_no_duplicates<T: Remap>(
    keys: Seq<T>,
    values: Seq<u64>,
    bit_width: nat,
    high_bits: nat,
    seed: u64,
    dups: nat,
)
    requires
        forall|seed: u64| !has_duplicate_signatures(keys, seed),
    ensures
        construction(keys, values, bit_width, high_bits, seed, dups) != Err::<u64, BuildError>(
            BuildError::DuplicateKeys,
        ),
    decreases u64::MAX - seed,
{
    assert(!has_duplicate_signatures(keys, seed));
    if seed < u64::MAX {
        lemma_no_duplicates(keys, values, bit_width, high_bits, (seed + 1) as u64, dups);
    }
}

impl<T: Remap> Function<T> {
    /// Builds a function that returns, for each key, the value at the same
    /// place in `values`.
    ///
    /// The keys are signed under the seeds 0, 1, 2 and so on until a function
    /// is built. Under the third seed that gives two keys the same
    /// signature the keys are taken to hold duplicates, and the
    /// construction fails. `high_bits` is the number of chunk bits to start
    /// from.
    pub fn new(keys: &[T], values: &[u64], bit_width: usize, high_bits: u32) -> (r: Result<
        Self,
        BuildError,
    >)
        requires
            values@.len() >= keys@.len(),
            bit_width <= 64,
            high_bits <= MAX_HIGH_BITS,
            forall|i: int|
                0 <= i < keys@.len() ==> #[trigger] values@[i] <= low_mask(bit_width as u64),
        ensures
            r matches Ok(f) ==> {
                &&& construction(keys@, values@, bit_width as nat, high_bits as nat, 0, 0) == Ok::<
                    u64,
                    BuildError,
                >(f.seed())
                &&& f.wf()
                &&& f.spec_len() == keys@.len()
                &&& f.values().spec_bit_width() == bit_width
                &&& f.high_bits() == settled_high_bits(keys@.len(), high_bits as nat)
                &&& f.log2_l() == settled_entry(keys@.len(), high_bits as nat).1
                &&& f.segment_size() == settled_segment_size(
                    keys@,
                    values@,
                    high_bits as nat,
                    f.seed(),
                )
                &&& forall|i: int|
                    0 <= i < keys@.len() ==> f.value_of(&keys@[i]) == #[trigger] values@[i]
            },
            r matches Err(e) ==> construction(
                keys@,
                values@,
                bit_width as nat,
                high_bits as nat,
                0,
                0,
            ) == Err::<u64, BuildError>(e),
    {
        let mut dup_count: usize = 0;
        let mut seed: u64 = 0;
        loop
            invariant
                values@.len() >= keys@.len(),
                bit_width <= 64,
                high_bits <= MAX_HIGH_BITS,
                forall|i: int|
                    0 <= i < keys@.len() ==> #[trigger] values@[i] <= low_mask(bit_width as u64),
                dup_count < 3,
                construction(keys@, values@, bit_width as nat, high_bits as nat, 0, 0)
                    == construction(
                    keys@,
                    values@,
                    bit_width as nat,
                    high_bits as nat,
                    seed,
                    dup_count as nat,
                ),
            decreases u64::MAX - seed,
        {
            match attempt(keys, values, bit_width, high_bits, seed) {
                Attempt::Built(f) => {
                    return Ok(f);
                },
                Attempt::Duplicate => {
                    dup_count += 1;
                    if dup_count == 3 {
                        return Err(BuildError::DuplicateKeys);
                    }
                },
                Attempt::Unpeelable => {},
                Attempt::TooLarge => {
                    return Err(BuildError::TooLarge);
                },
            }
            if seed == u64::MAX {
                return Err(BuildError::SeedsExhausted);
            }
            seed += 1;
        }
    }
}

} // verus!
