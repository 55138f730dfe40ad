use crate::function::single_valued3;
use crate::ring::{next_index, next_of};
use vstd::prelude::*;
use vstd::slice::slice_to_vec;

verus! {

/// `glam::DVec2`: a planar point or displacement. The library moves such
/// values around and hands them to `glam`; it never looks inside one.
#[verifier::external_type_specification]
#[verifier::external_body]
pub struct ExDVec2(glam::DVec2);

pub type Vec2 = glam::DVec2;

/// The componentwise sum `a + b` as `glam` computes it.
pub uninterp spec fn vec_sum(a: Vec2, b: Vec2) -> Vec2;

/// The componentwise difference `a - b` as `glam` computes it.
pub uninterp spec fn vec_diff(a: Vec2, b: Vec2) -> Vec2;

/// `<DVec2 as Add>::add`: each component of the result is the sum of the
/// two corresponding components, a function of the operands alone.
#[verifier::external_body]
pub(crate) fn vec_add(a: Vec2, b: Vec2) -> (r: Vec2)
    ensures
        r == vec_sum(a, b),
{
    a + b
}

/// `<DVec2 as Sub>::sub`: each component of the result is the difference
/// of the two corresponding components, a function of the operands alone.
#[verifier::external_body]
pub(crate) fn vec_sub(a: Vec2, b: Vec2) -> (r: Vec2)
    ensures
        r == vec_diff(a, b),
{
    a - b
}

/// `acc` records a walk along the edges of the ring `p` in index order: it
/// starts with `init`, and each edge turns one entry into the next, which
/// is a value that `f` may return for the entry and the edge's two end
/// points.
pub open spec fn edge_walk<T, F: Fn(T, Vec2, Vec2) -> T>(f: F, p: Seq<Vec2>, init: T, acc: Seq<T>) -> bool {
    &&& acc.len() == p.len() + 1
    &&& acc[0] == init
    &&& forall|i: int|
        0 <= i < p.len() ==> call_ensures(f, (#[trigger] acc[i], p[i], p[next_of(i, p.len() as int)]), acc[i + 1])
}

/// `total` is what a walk along all edges of the ring `p` ends with.
pub open spec fn folds_to<T, F: Fn(T, Vec2, Vec2) -> T>(f: F, p: Seq<Vec2>, init: T, total: T) -> bool {
    exists|acc: Seq<T>| #[trigger] edge_walk(f, p, init, acc) && total == acc[p.len() as int]
}

/// Two walks along the same ring with the same single-valued `f` from the
/// same start agree entry by entry.
proof fn lemma_edge_walks_agree<T, F: Fn(T, Vec2, Vec2) -> T>(
    f: F,
    p: Seq<Vec2>,
    init: T,
    one: Seq<T>,
    other: Seq<T>,
    upto: nat,
)
    requires
        single_valued3(f),
        edge_walk(f, p, init, one),
        edge_walk(f, p, init, other),
        upto <= p.len(),
    ensures
        one[upto as int] == other[upto as int],
    decreases upto,
{
    if upto > 0 {
        let i = upto - 1;
        lemma_edge_walks_agree(f, p, init, one, other, i as nat);
        assert(call_ensures(f, (one[i], p[i], p[next_of(i, p.len() as int)]), one[i + 1]));
        assert(call_ensures(f, (other[i], p[i], p[next_of(i, p.len() as int)]), other[i + 1]));
    }
}

/// A walk with a single-valued `f` has one end only.
pub proof fn lemma_fold_is_function<T, F: Fn(T, Vec2, Vec2) -> T>(f: F, p: Seq<Vec2>, init: T, one: T, other: T)
    requires
        single_valued3(f),
        folds_to(f, p, init, one),
        folds_to(f, p, init, other),
    ensures
        one == other,
{
    let a = choose|a: Seq<T>| #[trigger] edge_walk(f, p, init, a) && one == a[p.len() as int];
    let b = choose|b: Seq<T>| #[trigger] edge_walk(f, p, init, b) && other == b[p.len() as int];
    lemma_edge_walks_agree(f, p, init, a, b, p.len());
}

/// The sum of the first `upto` vertices of `p`, added one after the other
/// to `zero` in index order.
pub open spec fn vertex_sum(p: Seq<Vec2>, zero: Vec2, upto: nat) -> Vec2
    decreases upto,
{
    if upto == 0 {
        zero
    } else {
        vec_sum(vertex_sum(p, zero, (upto - 1) as nat), p[upto - 1])
    }
}

/// Closed planar polyline: vertex `i` is joined to vertex `(i + 1) mod n`.
#[derive(Debug)]
pub struct Polygon {
    vertices: Vec<Vec2>,
}

impl View for Polygon {
    type V = Seq<Vec2>;

    closed spec fn view(&self) -> Seq<Vec2> {
        self.vertices@
    }
}

impl Clone for Polygon {
    fn clone(&self) -> (copy: Polygon)
        ensures
            copy@ == self@,
    {
        Polygon { vertices: slice_to_vec(self.vertices.as_slice()) }
    }
}

impl Default for Polygon {
    fn default() -> (p: Polygon)
        ensures
            p@ == Seq::<Vec2>::empty(),
    {
        Polygon { vertices: Vec::new() }
    }
}

impl Polygon {
    /// The polygon without vertices.
    pub fn new() -> (p: Polygon)
        ensures
            p@ == Seq::<Vec2>::empty(),
    {
        Polygon { vertices: Vec::new() }
    }

    /// The polygon whose vertices are `vertices`, in that order.
    pub fn with_vertices(vertices: Vec<Vec2>) -> (p: Polygon)
        ensures
            p@ == vertices@,
    {
        Polygon { vertices }
    }

    /// Appends `vertex` after the last vertex.
    pub fn push(&mut self, vertex: Vec2)
        ensures
            final(self)@ == old(self)@.push(vertex),
    {
        self.vertices.push(vertex);
    }

    /// Removes every vertex.
    pub fn clear(&mut self)
        ensures
            final(self)@ == Seq::<Vec2>::empty(),
    {
        self.vertices.clear();
    }

    /// Number of vertices.
    pub fn len(&self) -> (n: usize)
        ensures
            n == self@.len(),
    {
        self.vertices.len()
    }

    /// Whether the polygon has no vertex.
    pub fn is_empty(&self) -> (empty: bool)
        ensures
            empty == (self@.len() == 0),
    {
        self.vertices.len() == 0
    }

    /// The vertices in ring order.
    pub fn vertices(&self) -> (s: &[Vec2])
        ensures
            s@ == self@,
    {
        self.vertices.as_slice()
    }

    /// The polygon of `sides` vertices of which vertex `i` is
    /// `vertex_at(i)`; the empty polygon for fewer than three sides.
    pub fn regular_ngon<F: Fn(usize) -> Vec2>(sides: usize, vertex_at: &F) -> (p: Polygon)
        requires
            forall|i: usize| call_requires(*vertex_at, (i,)),
        ensures
            sides < 3 ==> p@.len() == 0,
            sides >= 3 ==> p@.len() == sides,
            forall|i: int| 0 <= i < p@.len() ==> call_ensures(*vertex_at, (i as usize,), #[trigger] p@[i]),
    {
        if sides < 3 {
            return Polygon::new();
        }
        let mut vertices: Vec<Vec2> = Vec::with_capacity(sides);
        let mut i: usize = 0;
        while i < sides
            invariant
                i <= sides,
                vertices@.len() == i,
                forall|k: usize| call_requires(*vertex_at, (k,)),
                forall|k: int| 0 <= k < i ==> call_ensures(*vertex_at, (k as usize,), #[trigger] vertices@[k]),
            decreases sides - i,
        {
            vertices.push(vertex_at(i));
            i += 1;
        }
        Polygon { vertices }
    }

    /// Walks along the edges in ring order, the closing edge last, and
    /// hands each edge's end points with the value so far to `f`; returns
    /// the last value.
    pub fn fold_edges<T, F: Fn(T, Vec2, Vec2) -> T>(&self, init: T, f: &F) -> (total: T)
        requires
            forall|t: T, a: Vec2, b: Vec2| call_requires(*f, (t, a, b)),
        ensures
            folds_to(*f, self@, init, total),
    {
        let n = self.vertices.len();
        let ghost mut acc: Seq<T> = seq![init];
        let mut total = init;
        let mut i: usize = 0;
        while i < n
            invariant
                n == self.vertices@.len(),
                i <= n,
                acc.len() == i + 1,
                acc[0] == init,
                total == acc[i as int],
                forall|t: T, a: Vec2, b: Vec2| call_requires(*f, (t, a, b)),
                forall|k: int|
                    0 <= k < i ==> call_ensures(
                        *f,
                        (#[trigger] acc[k], self.vertices@[k], self.vertices@[next_of(k, n as int)]),
                        acc[k + 1],
                    ),
            decreases n - i,
        {
            total = f(total, self.vertices[i], self.vertices[next_index(i, n)]);
            proof {
                acc = acc.push(total);
            }
            i += 1;
        }
        proof {
            assert(edge_walk(*f, self@, init, acc));
        }
        total
    }

    /// The measures of all edges, the closing edge included, added up by
    /// `add_edge` from `zero` in ring order; `zero` below two vertices.
    pub fn perimeter<T, F: Fn(T, Vec2, Vec2) -> T>(&self, zero: T, add_edge: &F) -> (total: T)
        requires
            forall|t: T, a: Vec2, b: Vec2| call_requires(*add_edge, (t, a, b)),
        ensures
            self@.len() < 2 ==> total == zero,
            self@.len() >= 2 ==> folds_to(*add_edge, self@, zero, total),
    {
        if self.vertices.len() < 2 {
            return zero;
        }
        self.fold_edges(zero, add_edge)
    }

    /// The mean of the vertices: `mean` of their sum, added up from `zero`
    /// in index order, and their number; `None` for the empty polygon.
    pub fn centroid<M: Fn(Vec2, usize) -> Vec2>(&self, zero: Vec2, mean: &M) -> (center: Option<Vec2>)
        requires
            forall|sum: Vec2, n: usize| n > 0 ==> call_requires(*mean, (sum, n)),
        ensures
            center is None <==> self@.len() == 0,
            center matches Some(c) ==> call_ensures(
                *mean,
                (vertex_sum(self@, zero, self@.len()), self@.len() as usize),
                c,
            ),
    {
        let n = self.vertices.len();
        if n == 0 {
            return None;
        }
        let mut sum = zero;
        let mut i: usize = 0;
        while i < n
            invariant
                n == self.vertices@.len(),
                i <= n,
                sum == vertex_sum(self.vertices@, zero, i as nat),
            decreases n - i,
        {
            sum = vec_add(sum, self.vertices[i]);
            i += 1;
        }
        Some(mean(sum, n))
    }

    /// Replaces the whole vertex sequence.
    pub(crate) fn replace_vertices(&mut self, vertices: Vec<Vec2>)
        ensures
            final(self)@ == vertices@,
    {
        self.vertices = vertices;
    }
}

} // verus!
