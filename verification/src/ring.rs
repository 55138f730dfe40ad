use vstd::arithmetic::div_mod::{lemma_fundamental_div_mod, lemma_fundamental_div_mod_converse};
use vstd::prelude::*;

verus! {

/// Index of the vertex that follows `i` on a closed ring of `n` vertices.
pub open spec fn next_of(i: int, n: int) -> int {
    (i + 1) % n
}

/// Index of the vertex that precedes `i` on a closed ring of `n` vertices.
pub open spec fn prev_of(i: int, n: int) -> int {
    (i + n - 1) % n
}

/// Whether `j` is excluded from pairwise interaction with `i`: the two are
/// the same vertex or share an edge. On a ring of fewer than two vertices
/// every pair counts as adjacent.
pub open spec fn adjacent(i: int, j: int, n: int) -> bool {
    n < 2 || i == j || j == next_of(i, n) || j == prev_of(i, n)
}

/// Successor and predecessor without the modulus, from the residue of `i`.
pub proof fn lemma_ring_steps(i: int, n: int)
    requires
        0 <= i,
        0 < n,
    ensures
        next_of(i, n) == (if i % n + 1 == n { 0 } else { i % n + 1 }),
        prev_of(i, n) == (if i % n == 0 { n - 1 } else { i % n - 1 }),
        0 <= next_of(i, n) < n,
        0 <= prev_of(i, n) < n,
{
    let q = i / n;
    let r = i % n;
    lemma_fundamental_div_mod(i, n);
    assert(n * q == q * n) by (nonlinear_arith);
    assert((q + 1) * n == q * n + n) by (nonlinear_arith);
    if r + 1 == n {
        lemma_fundamental_div_mod_converse(i + 1, n, q + 1, 0);
    } else {
        lemma_fundamental_div_mod_converse(i + 1, n, q, r + 1);
    }
    if r == 0 {
        lemma_fundamental_div_mod_converse(i + n - 1, n, q, n - 1);
    } else {
        lemma_fundamental_div_mod_converse(i + n - 1, n, q + 1, r - 1);
    }
}

/// An index below `n` is its own residue.
proof fn lemma_residue_of_index(i: int, n: int)
    requires
        0 <= i < n,
    ensures
        i % n == i,
{
    lemma_fundamental_div_mod_converse(i, n, 0, i);
}

/// Adjacency does not depend on the order of the two vertices.
pub proof fn lemma_adjacent_symmetric(i: int, j: int, n: int)
    requires
        0 <= i < n,
        0 <= j < n,
    ensures
        adjacent(i, j, n) == adjacent(j, i, n),
{
    lemma_ring_steps(i, n);
    lemma_ring_steps(j, n);
    lemma_residue_of_index(i, n);
    lemma_residue_of_index(j, n);
}

/// On a ring of at most three vertices every pair is adjacent, so no pair
/// is left for pairwise interaction.
pub proof fn lemma_small_ring_all_adjacent(i: int, j: int, n: int)
    requires
        n <= 3,
        0 <= i < n,
        0 <= j < n,
    ensures
        adjacent(i, j, n),
{
    lemma_ring_steps(i, n);
    lemma_residue_of_index(i, n);
}

/// The vertex after `i` on a ring of `n` vertices.
pub fn next_index(i: usize, n: usize) -> (j: usize)
    requires
        i < n,
    ensures
        j == next_of(i as int, n as int),
        j < n,
{
    proof {
        lemma_ring_steps(i as int, n as int);
        lemma_residue_of_index(i as int, n as int);
    }
    if i + 1 == n {
        0
    } else {
        i + 1
    }
}

/// The vertex before `i` on a ring of `n` vertices.
pub fn prev_index(i: usize, n: usize) -> (j: usize)
    requires
        i < n,
    ensures
        j == prev_of(i as int, n as int),
        j < n,
{
    proof {
        lemma_ring_steps(i as int, n as int);
        lemma_residue_of_index(i as int, n as int);
    }
    if i == 0 {
        n - 1
    } else {
        i - 1
    }
}

/// Whether vertices `i` and `j` of a ring of `n` vertices are excluded from
/// pairwise interaction.
pub fn are_neighbors(i: usize, j: usize, n: usize) -> (excluded: bool)
    ensures
        excluded == adjacent(i as int, j as int, n as int),
{
    if n < 2 || i == j {
        return true;
    }
    proof {
        lemma_ring_steps(i as int, n as int);
    }
    let r: usize = i % n;
    let next_i: usize = if r + 1 == n { 0 } else { r + 1 };
    let prev_i: usize = if r == 0 { n - 1 } else { r - 1 };
    j == next_i || j == prev_i
}

} // verus!
