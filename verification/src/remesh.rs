use crate::function::{single_valued2, single_valued4};
use crate::geometry::Vec2;
use crate::ring::{next_index, next_of};
use vstd::prelude::*;

verus! {

/// Number of vertices that edge `i` contributes to the split ring: its
/// segment count, or one where the edge is not split.
pub open spec fn pieces(segments: Seq<usize>, i: int) -> int {
    if segments[i] > 1 {
        segments[i] as int
    } else {
        1
    }
}

/// Index, in the split ring, of the start vertex of edge `upto`: the
/// vertices that the edges before it contribute.
pub open spec fn split_offset(segments: Seq<usize>, upto: nat) -> int
    decreases upto,
{
    if upto == 0 {
        0
    } else {
        split_offset(segments, (upto - 1) as nat) + pieces(segments, upto - 1)
    }
}

/// Index, in the split ring, of point `k` of edge `i`; point zero is the
/// edge's start vertex.
pub open spec fn slot(segments: Seq<usize>, i: int, k: int) -> int {
    split_offset(segments, i as nat) + k
}

/// `out` is the ring `v` with every edge `i` cut into `pieces(segments, i)`
/// parts: the vertices of `v` in their order, each followed by the inner
/// points of the edge that starts there, where inner point `k` is a value
/// that `lerp` may return for the edge's end points, `k` and the edge's
/// segment count.
pub open spec fn is_split<L: Fn(Vec2, Vec2, usize, usize) -> Vec2>(
    lerp: L,
    v: Seq<Vec2>,
    segments: Seq<usize>,
    out: Seq<Vec2>,
) -> bool {
    &&& segments.len() == v.len()
    &&& out.len() == split_offset(segments, v.len())
    &&& forall|i: int| 0 <= i < v.len() ==> out[#[trigger] slot(segments, i, 0)] == v[i]
    &&& forall|i: int, k: int|
        0 <= i < v.len() && 1 <= k < pieces(segments, i) ==> call_ensures(
            lerp,
            (v[i], v[next_of(i, v.len() as int)], k as usize, segments[i]),
            out[#[trigger] slot(segments, i, k)],
        )
}

/// `segments` holds, for every edge of the ring `v`, a segment count that
/// `count` may return for the edge's end points.
pub open spec fn edge_counts<N: Fn(Vec2, Vec2) -> usize>(count: N, v: Seq<Vec2>, segments: Seq<usize>) -> bool {
    &&& segments.len() == v.len()
    &&& forall|i: int|
        0 <= i < v.len() ==> call_ensures(count, (v[i], v[next_of(i, v.len() as int)]), #[trigger] segments[i])
}

/// `out` is what the edge split makes of the ring `v`: `v` itself where it
/// has fewer than two vertices, else `v` with every edge cut into as many
/// parts as `count` asks for.
pub open spec fn split_result<N: Fn(Vec2, Vec2) -> usize, L: Fn(Vec2, Vec2, usize, usize) -> Vec2>(
    count: N,
    lerp: L,
    v: Seq<Vec2>,
    out: Seq<Vec2>,
) -> bool {
    if v.len() < 2 {
        out == v
    } else {
        exists|segments: Seq<usize>| #[trigger]
            edge_counts(count, v, segments) && is_split(lerp, v, segments, out)
    }
}

/// The offset of an edge does not depend on the counts of later edges.
proof fn lemma_split_offset_agree(segments: Seq<usize>, other: Seq<usize>, upto: nat)
    requires
        forall|i: int| 0 <= i < upto ==> segments[i] == other[i],
    ensures
        split_offset(segments, upto) == split_offset(other, upto),
    decreases upto,
{
    if upto > 0 {
        lemma_split_offset_agree(segments, other, (upto - 1) as nat);
    }
}

/// Every edge contributes at least its start vertex, so the start vertices
/// keep their order and the ring does not shrink.
proof fn lemma_split_offset_grows(segments: Seq<usize>, i: nat, j: nat)
    requires
        i <= j,
    ensures
        split_offset(segments, j) - split_offset(segments, i) >= j - i,
    decreases j,
{
    if i < j {
        lemma_split_offset_grows(segments, i, (j - 1) as nat);
    }
}

/// Where no edge is cut, every vertex keeps its index.
proof fn lemma_split_offset_uncut(segments: Seq<usize>, upto: nat)
    requires
        forall|i: int| 0 <= i < upto ==> segments[i] <= 1,
    ensures
        split_offset(segments, upto) == upto,
    decreases upto,
{
    if upto > 0 {
        lemma_split_offset_uncut(segments, (upto - 1) as nat);
    }
}

/// The split ring holds every vertex of the ring it was made from, in the
/// same order: none is dropped and none overtakes another.
pub proof fn lemma_split_keeps_vertices<L: Fn(Vec2, Vec2, usize, usize) -> Vec2>(
    lerp: L,
    v: Seq<Vec2>,
    segments: Seq<usize>,
    out: Seq<Vec2>,
    i: int,
    j: int,
)
    requires
        is_split(lerp, v, segments, out),
        0 <= i < j < v.len(),
    ensures
        out.len() >= v.len(),
        0 <= slot(segments, i, 0) < slot(segments, j, 0) < out.len(),
        out[slot(segments, i, 0)] == v[i],
        out[slot(segments, j, 0)] == v[j],
{
    lemma_split_offset_grows(segments, 0, v.len());
    lemma_split_offset_grows(segments, 0, i as nat);
    lemma_split_offset_grows(segments, i as nat, j as nat);
    lemma_split_offset_grows(segments, (j + 1) as nat, v.len());
}

/// Splitting a ring of which no edge is cut gives the ring back.
pub proof fn lemma_split_uncut_is_identity<L: Fn(Vec2, Vec2, usize, usize) -> Vec2>(
    lerp: L,
    v: Seq<Vec2>,
    segments: Seq<usize>,
    out: Seq<Vec2>,
)
    requires
        is_split(lerp, v, segments, out),
        forall|i: int| 0 <= i < v.len() ==> segments[i] <= 1,
    ensures
        out == v,
{
    lemma_split_offset_uncut(segments, v.len());
    assert forall|i: int| 0 <= i < v.len() implies out[i] == v[i] by {
        lemma_split_offset_uncut(segments, i as nat);
        assert(slot(segments, i, 0) == i);
    }
    assert(out =~= v);
}

/// Every index of the split ring is the slot of one point of one edge.
proof fn lemma_slot_of_index(segments: Seq<usize>, upto: nat, t: int) -> (at: (int, int))
    requires
        0 <= t < split_offset(segments, upto),
    ensures
        0 <= at.0 < upto,
        0 <= at.1 < pieces(segments, at.0),
        slot(segments, at.0, at.1) == t,
    decreases upto,
{
    if t >= split_offset(segments, (upto - 1) as nat) {
        (upto - 1, t - split_offset(segments, (upto - 1) as nat))
    } else {
        lemma_slot_of_index(segments, (upto - 1) as nat, t)
    }
}

/// A single-valued interpolation leaves one way only to cut a ring into
/// given segment counts.
pub proof fn lemma_is_split_is_function<L: Fn(Vec2, Vec2, usize, usize) -> Vec2>(
    lerp: L,
    v: Seq<Vec2>,
    segments: Seq<usize>,
    one: Seq<Vec2>,
    other: Seq<Vec2>,
)
    requires
        single_valued4(lerp),
        is_split(lerp, v, segments, one),
        is_split(lerp, v, segments, other),
    ensures
        one == other,
{
    assert forall|t: int| 0 <= t < one.len() implies one[t] == other[t] by {
        let at = lemma_slot_of_index(segments, v.len(), t);
        let i = at.0;
        let k = at.1;
        if k == 0 {
            assert(one[slot(segments, i, 0)] == v[i]);
            assert(other[slot(segments, i, 0)] == v[i]);
        } else {
            let args = (v[i], v[next_of(i, v.len() as int)], k as usize, segments[i]);
            assert(call_ensures(lerp, args, one[slot(segments, i, k)]));
            assert(call_ensures(lerp, args, other[slot(segments, i, k)]));
        }
    }
    assert(one =~= other);
}

/// With a single-valued segment count and a single-valued interpolation
/// the edge split has one result only.
pub proof fn lemma_split_is_function<N: Fn(Vec2, Vec2) -> usize, L: Fn(Vec2, Vec2, usize, usize) -> Vec2>(
    count: N,
    lerp: L,
    v: Seq<Vec2>,
    one: Seq<Vec2>,
    other: Seq<Vec2>,
)
    requires
        single_valued2(count),
        single_valued4(lerp),
        split_result(count, lerp, v, one),
        split_result(count, lerp, v, other),
    ensures
        one == other,
{
    if v.len() >= 2 {
        let s = choose|s: Seq<usize>| #[trigger] edge_counts(count, v, s) && is_split(lerp, v, s, one);
        let t = choose|t: Seq<usize>| #[trigger] edge_counts(count, v, t) && is_split(lerp, v, t, other);
        assert(s =~= t);
        lemma_is_split_is_function(lerp, v, s, one, other);
    }
}

/// The edge split drops no vertex.
pub proof fn lemma_split_grows<N: Fn(Vec2, Vec2) -> usize, L: Fn(Vec2, Vec2, usize, usize) -> Vec2>(
    count: N,
    lerp: L,
    v: Seq<Vec2>,
    out: Seq<Vec2>,
)
    requires
        split_result(count, lerp, v, out),
    ensures
        out.len() >= v.len(),
{
    if v.len() >= 2 {
        let s = choose|s: Seq<usize>| #[trigger] edge_counts(count, v, s) && is_split(lerp, v, s, out);
        lemma_split_offset_grows(s, 0, v.len());
    }
}

/// Where the segment count asks for no cut of any edge, the edge split
/// gives the ring back.
pub proof fn lemma_split_without_cut<N: Fn(Vec2, Vec2) -> usize, L: Fn(Vec2, Vec2, usize, usize) -> Vec2>(
    count: N,
    lerp: L,
    v: Seq<Vec2>,
    out: Seq<Vec2>,
)
    requires
        split_result(count, lerp, v, out),
        forall|i: int, cuts: usize|
            0 <= i < v.len() && #[trigger] call_ensures(count, (v[i], v[next_of(i, v.len() as int)]), cuts) ==> cuts
                <= 1,
    ensures
        out == v,
{
    if v.len() >= 2 {
        let s = choose|s: Seq<usize>| #[trigger] edge_counts(count, v, s) && is_split(lerp, v, s, out);
        assert forall|i: int| 0 <= i < v.len() implies s[i] <= 1 by {
            assert(call_ensures(count, (v[i], v[next_of(i, v.len() as int)]), s[i]));
        }
        lemma_split_uncut_is_identity(lerp, v, s, out);
    }
}

/// Edge split: walks the edges of the ring in index order; each edge gives
/// its start vertex and then, where `count` asks for more than one segment,
/// the inner points `lerp(a, b, k, segments)` for `k` from one up to the
/// segment count, exclusive. A ring of fewer than two vertices is returned
/// as it is.
pub fn split_edges<N: Fn(Vec2, Vec2) -> usize, L: Fn(Vec2, Vec2, usize, usize) -> Vec2>(
    vertices: Vec<Vec2>,
    count: &N,
    lerp: &L,
) -> (out: Vec<Vec2>)
    requires
        forall|a: Vec2, b: Vec2| call_requires(*count, (a, b)),
        forall|a: Vec2, b: Vec2, k: usize, s: usize| 1 <= k < s ==> call_requires(*lerp, (a, b, k, s)),
    ensures
        split_result(*count, *lerp, vertices@, out@),
{
    let n = vertices.len();
    if n < 2 {
        return vertices;
    }
    let ghost mut segments: Seq<usize> = Seq::empty();
    let mut out: Vec<Vec2> = Vec::with_capacity(n);
    let mut i: usize = 0;
    while i < n
        invariant
            n == vertices@.len(),
            i <= n,
            segments.len() == i,
            out@.len() == split_offset(segments, i as nat),
            forall|a: Vec2, b: Vec2| call_requires(*count, (a, b)),
            forall|a: Vec2, b: Vec2, k: usize, s: usize| 1 <= k < s ==> call_requires(*lerp, (a, b, k, s)),
            forall|e: int|
                0 <= e < i ==> call_ensures(
                    *count,
                    (vertices@[e], vertices@[next_of(e, n as int)]),
                    #[trigger] segments[e],
                ),
            forall|e: int| 0 <= e < i ==> out@[#[trigger] slot(segments, e, 0)] == vertices@[e],
            forall|e: int, k: int|
                0 <= e < i && 1 <= k < pieces(segments, e) ==> call_ensures(
                    *lerp,
                    (vertices@[e], vertices@[next_of(e, n as int)], k as usize, segments[e]),
                    out@[#[trigger] slot(segments, e, k)],
                ),
        decreases n - i,
    {
        let a = vertices[i];
        let b = vertices[next_index(i, n)];
        let cuts = count(a, b);
        let ghost earlier = segments;
        let ghost filled = out@;
        proof {
            segments = segments.push(cuts);
            lemma_split_offset_agree(segments, earlier, i as nat);
            assert forall|e: int, k: int| 0 <= e <= i implies #[trigger] slot(segments, e, k) == slot(earlier, e, k) by {
                lemma_split_offset_agree(segments, earlier, e as nat);
            }
            assert forall|e: int, k: int| 0 <= e < i && 0 <= k < pieces(earlier, e) implies 0 <= #[trigger] slot(
                earlier,
                e,
                k,
            ) < filled.len() by {
                lemma_split_offset_grows(earlier, e as nat, i as nat);
                lemma_split_offset_grows(earlier, 0, e as nat);
                lemma_split_offset_grows(earlier, (e + 1) as nat, i as nat);
            }
        }
        out.push(a);
        let mut k: usize = 1;
        while k < cuts
            invariant
                n == vertices@.len(),
                i < n,
                a == vertices@[i as int],
                b == vertices@[next_of(i as int, n as int)],
                segments == earlier.push(cuts),
                earlier.len() == i,
                filled.len() == split_offset(segments, i as nat),
                1 <= k,
                k <= cuts || k == 1,
                out@.len() == filled.len() + k,
                forall|t: int| 0 <= t < filled.len() ==> out@[t] == filled[t],
                out@[slot(segments, i as int, 0)] == a,
                forall|a: Vec2, b: Vec2, k: usize, s: usize| 1 <= k < s ==> call_requires(*lerp, (a, b, k, s)),
                forall|t: int|
                    1 <= t < k ==> call_ensures(*lerp, (a, b, t as usize, cuts), out@[#[trigger] slot(segments, i as int, t)]),
            decreases cuts - k,
        {
            out.push(lerp(a, b, k, cuts));
            k += 1;
        }
        i += 1;
    }
    proof {
        assert(edge_counts(*count, vertices@, segments));
        assert(is_split(*lerp, vertices@, segments, out@));
    }
    out
}

} // verus!
