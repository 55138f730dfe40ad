use crate::function::{single_valued1, single_valued2};
use crate::geometry::{vec_add, vec_diff, vec_sub, vec_sum, Vec2};
use crate::ring::{
    adjacent, are_neighbors, lemma_small_ring_all_adjacent, next_index, next_of, prev_index, prev_of,
};
use crate::rng::{state_after, unit_at, Rng};
use vstd::prelude::*;

verus! {

/// `d` after `c` was added to entry `to` and then subtracted from entry
/// `from`.
pub open spec fn transfer(d: Seq<Vec2>, to: int, from: int, c: Vec2) -> Seq<Vec2> {
    let a = d.update(to, vec_sum(d[to], c));
    a.update(from, vec_diff(a[from], c))
}

/// The displacement buffer after the edges `0 .. upto` of a ring of `n`
/// vertices were visited in index order, where `c[i]` is the correction of
/// edge `i`, or `None` for an edge that is skipped: the correction is added
/// at the edge's start and subtracted at its end.
pub open spec fn edge_fold(d: Seq<Vec2>, n: int, c: Seq<Option<Vec2>>, upto: nat) -> Seq<Vec2>
    decreases upto,
{
    if upto == 0 {
        d
    } else {
        let i = upto - 1;
        let before = edge_fold(d, n, c, i as nat);
        match c[i] {
            Some(v) => transfer(before, i, next_of(i, n), v),
            None => before,
        }
    }
}

/// `c` holds, for every edge of the ring `p`, a correction that `spring`
/// may return for the edge's two end points.
pub open spec fn edge_corrections<F: Fn(Vec2, Vec2) -> Option<Vec2>>(
    spring: F,
    p: Seq<Vec2>,
    c: Seq<Option<Vec2>>,
) -> bool {
    &&& c.len() == p.len()
    &&& forall|i: int|
        0 <= i < p.len() ==> call_ensures(spring, (p[i], p[next_of(i, p.len() as int)]), #[trigger] c[i])
}

/// `after` is `before` with the corrections of all edges of `p` applied.
pub open spec fn edge_pass_result<F: Fn(Vec2, Vec2) -> Option<Vec2>>(
    spring: F,
    p: Seq<Vec2>,
    before: Seq<Vec2>,
    after: Seq<Vec2>,
) -> bool {
    exists|c: Seq<Option<Vec2>>| #[trigger]
        edge_corrections(spring, p, c) && after == edge_fold(before, p.len() as int, c, p.len())
}

/// An edge fold reads no correction but those of the edges it visits.
proof fn lemma_edge_fold_agree(d: Seq<Vec2>, n: int, c: Seq<Option<Vec2>>, e: Seq<Option<Vec2>>, upto: nat)
    requires
        forall|i: int| 0 <= i < upto ==> c[i] == e[i],
    ensures
        edge_fold(d, n, c, upto) == edge_fold(d, n, e, upto),
    decreases upto,
{
    if upto > 0 {
        lemma_edge_fold_agree(d, n, c, e, (upto - 1) as nat);
    }
}

/// A single-valued spring law leaves one buffer only.
pub proof fn lemma_edge_pass_is_function<F: Fn(Vec2, Vec2) -> Option<Vec2>>(
    spring: F,
    p: Seq<Vec2>,
    before: Seq<Vec2>,
    one: Seq<Vec2>,
    other: Seq<Vec2>,
)
    requires
        single_valued2(spring),
        edge_pass_result(spring, p, before, one),
        edge_pass_result(spring, p, before, other),
    ensures
        one == other,
{
    let c = choose|c: Seq<Option<Vec2>>| #[trigger]
        edge_corrections(spring, p, c) && one == edge_fold(before, p.len() as int, c, p.len());
    let e = choose|e: Seq<Option<Vec2>>| #[trigger]
        edge_corrections(spring, p, e) && other == edge_fold(before, p.len() as int, e, p.len());
    lemma_edge_fold_agree(before, p.len() as int, c, e, p.len());
}

/// Edge kernel: visits every directed edge `i -> next(i)` of the frozen
/// positions in index order and applies its correction, equal and opposite,
/// to the two end points.
pub fn edge_pass<F: Fn(Vec2, Vec2) -> Option<Vec2>>(positions: &Vec<Vec2>, delta: &mut Vec<Vec2>, spring: &F)
    requires
        old(delta)@.len() == positions@.len(),
        forall|a: Vec2, b: Vec2| call_requires(*spring, (a, b)),
    ensures
        edge_pass_result(*spring, positions@, old(delta)@, final(delta)@),
        final(delta)@.len() == old(delta)@.len(),
{
    let n = positions.len();
    let ghost mut c: Seq<Option<Vec2>> = Seq::empty();
    let mut i: usize = 0;
    while i < n
        invariant
            n == positions@.len(),
            old(delta)@.len() == n,
            delta@.len() == n,
            i <= n,
            c.len() == i,
            forall|a: Vec2, b: Vec2| call_requires(*spring, (a, b)),
            forall|k: int|
                0 <= k < i ==> call_ensures(
                    *spring,
                    (positions@[k], positions@[next_of(k, n as int)]),
                    #[trigger] c[k],
                ),
            delta@ == edge_fold(old(delta)@, n as int, c, i as nat),
        decreases n - i,
    {
        let j = next_index(i, n);
        let correction = spring(positions[i], positions[j]);
        let ghost before = delta@;
        proof {
            let extended = c.push(correction);
            lemma_edge_fold_agree(old(delta)@, n as int, c, extended, i as nat);
            c = extended;
        }
        if let Some(v) = correction {
            let moved_start = vec_add(delta[i], v);
            delta.set(i, moved_start);
            let moved_end = vec_sub(delta[j], v);
            delta.set(j, moved_end);
            assert(delta@ =~= transfer(before, i as int, j as int, v));
        }
        i += 1;
    }
    proof {
        assert(edge_corrections(*spring, positions@, c));
    }
}


/// The displacement buffer after vertex `i` met the vertices `i + 1 .. upto`
/// in index order, where `row[j]` is the push of the pair `(i, j)`, or
/// `None` for a pair that is skipped. Adjacent pairs are passed over; a
/// push is added at `j` and subtracted at `i`.
pub open spec fn repel_row_fold(d: Seq<Vec2>, n: int, i: int, row: Seq<Option<Vec2>>, upto: nat) -> Seq<Vec2>
    decreases upto,
{
    if upto == 0 || upto <= i + 1 {
        d
    } else {
        let j = upto - 1;
        let before = repel_row_fold(d, n, i, row, j as nat);
        if adjacent(i, j, n) {
            before
        } else {
            match row[j] {
                Some(v) => transfer(before, j, i, v),
                None => before,
            }
        }
    }
}

/// The displacement buffer after the vertices `0 .. upto` each met all
/// vertices of higher index, in index order.
pub open spec fn repel_fold(d: Seq<Vec2>, n: int, rows: Seq<Seq<Option<Vec2>>>, upto: nat) -> Seq<Vec2>
    decreases upto,
{
    if upto == 0 {
        d
    } else {
        let i = upto - 1;
        repel_row_fold(repel_fold(d, n, rows, i as nat), n, i, rows[i], n as nat)
    }
}

/// `rows[i][j]` holds, for every pair `i < j` of vertices of the ring `p`
/// that are not adjacent, a push that `repel` may return for the two.
pub open spec fn repel_pushes<F: Fn(Vec2, Vec2) -> Option<Vec2>>(
    repel: F,
    p: Seq<Vec2>,
    rows: Seq<Seq<Option<Vec2>>>,
) -> bool {
    &&& rows.len() == p.len()
    &&& forall|i: int, j: int|
        0 <= i < j < p.len() && !adjacent(i, j, p.len() as int) ==> call_ensures(
            repel,
            (p[i], p[j]),
            #[trigger] rows[i][j],
        )
}

/// `after` is `before` with the pushes of all pairs of `p` that are not
/// adjacent applied.
pub open spec fn repel_pass_result<F: Fn(Vec2, Vec2) -> Option<Vec2>>(
    repel: F,
    p: Seq<Vec2>,
    before: Seq<Vec2>,
    after: Seq<Vec2>,
) -> bool {
    exists|rows: Seq<Seq<Option<Vec2>>>| #[trigger]
        repel_pushes(repel, p, rows) && after == repel_fold(before, p.len() as int, rows, p.len())
}

/// A row fold reads no entry of the row but those of the pairs it visits.
proof fn lemma_repel_row_fold_agree(
    d: Seq<Vec2>,
    n: int,
    i: int,
    row: Seq<Option<Vec2>>,
    other: Seq<Option<Vec2>>,
    upto: nat,
)
    requires
        forall|j: int| i < j < upto && !adjacent(i, j, n) ==> row[j] == other[j],
    ensures
        repel_row_fold(d, n, i, row, upto) == repel_row_fold(d, n, i, other, upto),
    decreases upto,
{
    if !(upto == 0 || upto <= i + 1) {
        lemma_repel_row_fold_agree(d, n, i, row, other, (upto - 1) as nat);
    }
}

/// A fold over the first `upto` rows reads no entry but those of the pairs
/// it visits.
proof fn lemma_repel_fold_agree(
    d: Seq<Vec2>,
    n: int,
    rows: Seq<Seq<Option<Vec2>>>,
    others: Seq<Seq<Option<Vec2>>>,
    upto: nat,
)
    requires
        forall|i: int, j: int| 0 <= i < upto && i < j < n && !adjacent(i, j, n) ==> rows[i][j] == others[i][j],
    ensures
        repel_fold(d, n, rows, upto) == repel_fold(d, n, others, upto),
    decreases upto,
{
    if upto > 0 {
        let i = upto - 1;
        lemma_repel_fold_agree(d, n, rows, others, i as nat);
        lemma_repel_row_fold_agree(repel_fold(d, n, rows, i as nat), n, i, rows[i], others[i], n as nat);
    }
}

/// A single-valued repulsion law leaves one buffer only.
pub proof fn lemma_repel_pass_is_function<F: Fn(Vec2, Vec2) -> Option<Vec2>>(
    repel: F,
    p: Seq<Vec2>,
    before: Seq<Vec2>,
    one: Seq<Vec2>,
    other: Seq<Vec2>,
)
    requires
        single_valued2(repel),
        repel_pass_result(repel, p, before, one),
        repel_pass_result(repel, p, before, other),
    ensures
        one == other,
{
    let n = p.len() as int;
    let r = choose|r: Seq<Seq<Option<Vec2>>>| #[trigger]
        repel_pushes(repel, p, r) && one == repel_fold(before, n, r, p.len());
    let s = choose|s: Seq<Seq<Option<Vec2>>>| #[trigger]
        repel_pushes(repel, p, s) && other == repel_fold(before, n, s, p.len());
    assert forall|i: int, j: int| 0 <= i < n && i < j < n && !adjacent(i, j, n) implies r[i][j] == s[i][j] by {
        assert(call_ensures(repel, (p[i], p[j]), r[i][j]));
        assert(call_ensures(repel, (p[i], p[j]), s[i][j]));
    }
    lemma_repel_fold_agree(before, n, r, s, p.len());
}

/// Where the law has no push for any pair of vertices that are not
/// adjacent, the repulsion kernel leaves the buffer as it was, whatever
/// the law would answer for adjacent vertices. On a ring of at most three
/// vertices that is so for every law.
pub proof fn lemma_repel_pass_without_push<F: Fn(Vec2, Vec2) -> Option<Vec2>>(
    repel: F,
    p: Seq<Vec2>,
    before: Seq<Vec2>,
    after: Seq<Vec2>,
)
    requires
        repel_pass_result(repel, p, before, after),
        forall|i: int, j: int, push: Option<Vec2>|
            0 <= i < j < p.len() && !adjacent(i, j, p.len() as int) && #[trigger] call_ensures(
                repel,
                (p[i], p[j]),
                push,
            ) ==> push is None,
    ensures
        after == before,
{
    let n = p.len() as int;
    let r = choose|r: Seq<Seq<Option<Vec2>>>| #[trigger]
        repel_pushes(repel, p, r) && after == repel_fold(before, n, r, p.len());
    let silent = Seq::new(p.len(), |i: int| Seq::new(p.len(), |j: int| None::<Vec2>));
    assert forall|i: int, j: int| 0 <= i < n && i < j < n && !adjacent(i, j, n) implies r[i][j] == silent[i][j] by {
        assert(call_ensures(repel, (p[i], p[j]), r[i][j]));
    }
    lemma_repel_fold_agree(before, n, r, silent, p.len());
    lemma_repel_fold_silent(before, n, silent, p.len());
}

/// A fold over rows without a push changes nothing.
proof fn lemma_repel_fold_silent(d: Seq<Vec2>, n: int, rows: Seq<Seq<Option<Vec2>>>, upto: nat)
    requires
        0 <= n,
        forall|i: int, j: int| 0 <= i < upto && i < j < n && !adjacent(i, j, n) ==> rows[i][j] is None,
    ensures
        repel_fold(d, n, rows, upto) == d,
    decreases upto,
{
    if upto > 0 {
        let i = upto - 1;
        lemma_repel_fold_silent(d, n, rows, i as nat);
        lemma_repel_row_fold_silent(d, n, i, rows[i], n as nat);
    }
}

/// A fold over a row without a push changes nothing.
proof fn lemma_repel_row_fold_silent(d: Seq<Vec2>, n: int, i: int, row: Seq<Option<Vec2>>, upto: nat)
    requires
        forall|j: int| i < j < upto && !adjacent(i, j, n) ==> row[j] is None,
    ensures
        repel_row_fold(d, n, i, row, upto) == d,
    decreases upto,
{
    if !(upto == 0 || upto <= i + 1) {
        lemma_repel_row_fold_silent(d, n, i, row, (upto - 1) as nat);
    }
}

/// On a ring of at most three vertices the repulsion kernel has no pair to
/// visit.
pub proof fn lemma_repel_pass_small_ring<F: Fn(Vec2, Vec2) -> Option<Vec2>>(
    repel: F,
    p: Seq<Vec2>,
    before: Seq<Vec2>,
    after: Seq<Vec2>,
)
    requires
        p.len() <= 3,
        repel_pass_result(repel, p, before, after),
    ensures
        after == before,
{
    assert forall|i: int, j: int| 0 <= i < j < p.len() implies adjacent(i, j, p.len() as int) by {
        lemma_small_ring_all_adjacent(i, j, p.len() as int);
    }
    lemma_repel_pass_without_push(repel, p, before, after);
}

/// Repulsion kernel: visits every pair `i < j` of the frozen positions in
/// lexicographic order, passes over adjacent pairs, and applies the push of
/// each other pair, equal and opposite, to the two vertices.
pub fn repel_pass<F: Fn(Vec2, Vec2) -> Option<Vec2>>(positions: &Vec<Vec2>, delta: &mut Vec<Vec2>, repel: &F)
    requires
        old(delta)@.len() == positions@.len(),
        forall|a: Vec2, b: Vec2| call_requires(*repel, (a, b)),
    ensures
        repel_pass_result(*repel, positions@, old(delta)@, final(delta)@),
        final(delta)@.len() == old(delta)@.len(),
{
    let n = positions.len();
    let ghost mut rows: Seq<Seq<Option<Vec2>>> = Seq::empty();
    let mut i: usize = 0;
    while i < n
        invariant
            n == positions@.len(),
            old(delta)@.len() == n,
            delta@.len() == n,
            i <= n,
            rows.len() == i,
            forall|a: Vec2, b: Vec2| call_requires(*repel, (a, b)),
            forall|a: int, b: int|
                0 <= a < i && a < b < n && !adjacent(a, b, n as int) ==> call_ensures(
                    *repel,
                    (positions@[a], positions@[b]),
                    #[trigger] rows[a][b],
                ),
            delta@ == repel_fold(old(delta)@, n as int, rows, i as nat),
        decreases n - i,
    {
        let ghost row_start = delta@;
        let ghost mut row: Seq<Option<Vec2>> = Seq::new(n as nat, |k: int| None);
        let mut j: usize = i + 1;
        while j < n
            invariant
                n == positions@.len(),
                delta@.len() == n,
                i < j <= n,
                row.len() == n,
                forall|a: Vec2, b: Vec2| call_requires(*repel, (a, b)),
                forall|b: int|
                    i < b < j && !adjacent(i as int, b, n as int) ==> call_ensures(
                        *repel,
                        (positions@[i as int], positions@[b]),
                        #[trigger] row[b],
                    ),
                delta@ == repel_row_fold(row_start, n as int, i as int, row, j as nat),
            decreases n - j,
        {
            if !are_neighbors(i, j, n) {
                let push = repel(positions[i], positions[j]);
                let ghost before = delta@;
                proof {
                    let updated = row.update(j as int, push);
                    lemma_repel_row_fold_agree(row_start, n as int, i as int, row, updated, j as nat);
                    row = updated;
                }
                if let Some(v) = push {
                    let pushed = vec_add(delta[j], v);
                    delta.set(j, pushed);
                    let pulled = vec_sub(delta[i], v);
                    delta.set(i, pulled);
                    assert(delta@ =~= transfer(before, j as int, i as int, v));
                }
            }
            j += 1;
        }
        proof {
            let extended = rows.push(row);
            lemma_repel_fold_agree(old(delta)@, n as int, rows, extended, i as nat);
            rows = extended;
        }
        i += 1;
    }
    proof {
        assert(repel_pushes(*repel, positions@, rows));
    }
}

/// `d` with `c[i]` added to entry `i`, for every `i`.
pub open spec fn shifted(d: Seq<Vec2>, c: Seq<Vec2>) -> Seq<Vec2> {
    Seq::new(d.len(), |i: int| vec_sum(d[i], c[i]))
}

/// `d` with `c[i]` added to entry `i` wherever there is a `c[i]`.
pub open spec fn bumped(d: Seq<Vec2>, c: Seq<Option<Vec2>>) -> Seq<Vec2> {
    Seq::new(
        d.len(),
        |i: int|
            match c[i] {
                Some(v) => vec_sum(d[i], v),
                None => d[i],
            },
    )
}

/// `c` holds, for every vertex of the ring `p`, a drift that `grow` may
/// return for the vertex's two ring neighbours, predecessor first.
pub open spec fn growth_drifts<F: Fn(Vec2, Vec2) -> Option<Vec2>>(grow: F, p: Seq<Vec2>, c: Seq<Option<Vec2>>) -> bool {
    &&& c.len() == p.len()
    &&& forall|i: int|
        0 <= i < p.len() ==> call_ensures(
            grow,
            (p[prev_of(i, p.len() as int)], p[next_of(i, p.len() as int)]),
            #[trigger] c[i],
        )
}

/// `after` is `before` with the drift of every vertex of `p` added.
pub open spec fn growth_pass_result<F: Fn(Vec2, Vec2) -> Option<Vec2>>(
    grow: F,
    p: Seq<Vec2>,
    before: Seq<Vec2>,
    after: Seq<Vec2>,
) -> bool {
    exists|c: Seq<Option<Vec2>>| #[trigger] growth_drifts(grow, p, c) && after == bumped(before, c)
}

/// A single-valued growth law leaves one buffer only.
pub proof fn lemma_growth_pass_is_function<F: Fn(Vec2, Vec2) -> Option<Vec2>>(
    grow: F,
    p: Seq<Vec2>,
    before: Seq<Vec2>,
    one: Seq<Vec2>,
    other: Seq<Vec2>,
)
    requires
        single_valued2(grow),
        before.len() == p.len(),
        growth_pass_result(grow, p, before, one),
        growth_pass_result(grow, p, before, other),
    ensures
        one == other,
{
    let c = choose|c: Seq<Option<Vec2>>| #[trigger] growth_drifts(grow, p, c) && one == bumped(before, c);
    let e = choose|e: Seq<Option<Vec2>>| #[trigger] growth_drifts(grow, p, e) && other == bumped(before, e);
    assert(bumped(before, c) =~= bumped(before, e));
}

/// Growth kernel: visits every vertex in index order and adds the drift
/// that belongs to the chord between its two ring neighbours.
pub fn growth_pass<F: Fn(Vec2, Vec2) -> Option<Vec2>>(positions: &Vec<Vec2>, delta: &mut Vec<Vec2>, grow: &F)
    requires
        old(delta)@.len() == positions@.len(),
        forall|a: Vec2, b: Vec2| call_requires(*grow, (a, b)),
    ensures
        growth_pass_result(*grow, positions@, old(delta)@, final(delta)@),
        final(delta)@.len() == old(delta)@.len(),
{
    let n = positions.len();
    let ghost mut c: Seq<Option<Vec2>> = Seq::empty();
    let mut i: usize = 0;
    while i < n
        invariant
            n == positions@.len(),
            old(delta)@.len() == n,
            delta@.len() == n,
            i <= n,
            c.len() == i,
            forall|a: Vec2, b: Vec2| call_requires(*grow, (a, b)),
            forall|k: int|
                0 <= k < i ==> call_ensures(
                    *grow,
                    (positions@[prev_of(k, n as int)], positions@[next_of(k, n as int)]),
                    #[trigger] c[k],
                ),
            forall|k: int| 0 <= k < i ==> delta@[k] == bumped(old(delta)@, c)[k],
            forall|k: int| i <= k < n ==> delta@[k] == old(delta)@[k],
        decreases n - i,
    {
        let before = prev_index(i, n);
        let after = next_index(i, n);
        let drift = grow(positions[before], positions[after]);
        proof {
            c = c.push(drift);
        }
        if let Some(v) = drift {
            let moved = vec_add(delta[i], v);
            delta.set(i, moved);
        }
        i += 1;
    }
    proof {
        assert(growth_drifts(*grow, positions@, c));
        assert(delta@ =~= bumped(old(delta)@, c));
    }
}

/// `c` holds, for every vertex of `p`, a correction that `constrain` may
/// return for it.
pub open spec fn constraint_pulls<F: Fn(Vec2) -> Option<Vec2>>(constrain: F, p: Seq<Vec2>, c: Seq<Option<Vec2>>) -> bool {
    &&& c.len() == p.len()
    &&& forall|i: int| 0 <= i < p.len() ==> call_ensures(constrain, (p[i],), #[trigger] c[i])
}

/// `after` is `before` with the correction of every vertex of `p` added.
pub open spec fn constraint_pass_result<F: Fn(Vec2) -> Option<Vec2>>(
    constrain: F,
    p: Seq<Vec2>,
    before: Seq<Vec2>,
    after: Seq<Vec2>,
) -> bool {
    exists|c: Seq<Option<Vec2>>| #[trigger] constraint_pulls(constrain, p, c) && after == bumped(before, c)
}

/// A single-valued constraint law leaves one buffer only.
pub proof fn lemma_constraint_pass_is_function<F: Fn(Vec2) -> Option<Vec2>>(
    constrain: F,
    p: Seq<Vec2>,
    before: Seq<Vec2>,
    one: Seq<Vec2>,
    other: Seq<Vec2>,
)
    requires
        single_valued1(constrain),
        before.len() == p.len(),
        constraint_pass_result(constrain, p, before, one),
        constraint_pass_result(constrain, p, before, other),
    ensures
        one == other,
{
    let c = choose|c: Seq<Option<Vec2>>| #[trigger] constraint_pulls(constrain, p, c) && one == bumped(before, c);
    let e = choose|e: Seq<Option<Vec2>>| #[trigger] constraint_pulls(constrain, p, e) && other == bumped(before, e);
    assert(bumped(before, c) =~= bumped(before, e));
}

/// Constraint kernel: visits every vertex in index order and adds the
/// correction that belongs to its own position.
pub fn constraint_pass<F: Fn(Vec2) -> Option<Vec2>>(positions: &Vec<Vec2>, delta: &mut Vec<Vec2>, constrain: &F)
    requires
        old(delta)@.len() == positions@.len(),
        forall|a: Vec2| call_requires(*constrain, (a,)),
    ensures
        constraint_pass_result(*constrain, positions@, old(delta)@, final(delta)@),
        final(delta)@.len() == old(delta)@.len(),
{
    let n = positions.len();
    let ghost mut c: Seq<Option<Vec2>> = Seq::empty();
    let mut i: usize = 0;
    while i < n
        invariant
            n == positions@.len(),
            old(delta)@.len() == n,
            delta@.len() == n,
            i <= n,
            c.len() == i,
            forall|a: Vec2| call_requires(*constrain, (a,)),
            forall|k: int| 0 <= k < i ==> call_ensures(*constrain, (positions@[k],), #[trigger] c[k]),
            forall|k: int| 0 <= k < i ==> delta@[k] == bumped(old(delta)@, c)[k],
            forall|k: int| i <= k < n ==> delta@[k] == old(delta)@[k],
        decreases n - i,
    {
        let pull = constrain(positions[i]);
        proof {
            c = c.push(pull);
        }
        if let Some(v) = pull {
            let moved = vec_add(delta[i], v);
            delta.set(i, moved);
        }
        i += 1;
    }
    proof {
        assert(constraint_pulls(*constrain, positions@, c));
        assert(delta@ =~= bumped(old(delta)@, c));
    }
}

/// `c` holds, for every one of `n` vertices, a perturbation that `jitter`
/// may return for the vertex's two draws, of which vertex `i` gets draws
/// `2 i` and `2 i + 1` of a generator that starts in `state`.
pub open spec fn jitter_kicks<F: Fn(i64, i64) -> Vec2>(jitter: F, state: u64, n: nat, c: Seq<Vec2>) -> bool {
    &&& c.len() == n
    &&& forall|i: int|
        0 <= i < n ==> call_ensures(
            jitter,
            (unit_at(state, (2 * i) as nat) as i64, unit_at(state, (2 * i + 1) as nat) as i64),
            #[trigger] c[i],
        )
}

/// `after` is `before` with the perturbation of every vertex added.
pub open spec fn jitter_pass_result<F: Fn(i64, i64) -> Vec2>(
    jitter: F,
    state: u64,
    before: Seq<Vec2>,
    after: Seq<Vec2>,
) -> bool {
    exists|c: Seq<Vec2>| #[trigger] jitter_kicks(jitter, state, before.len(), c) && after == shifted(before, c)
}

/// A single-valued jitter law leaves one buffer only.
pub proof fn lemma_jitter_pass_is_function<F: Fn(i64, i64) -> Vec2>(
    jitter: F,
    state: u64,
    before: Seq<Vec2>,
    one: Seq<Vec2>,
    other: Seq<Vec2>,
)
    requires
        single_valued2(jitter),
        jitter_pass_result(jitter, state, before, one),
        jitter_pass_result(jitter, state, before, other),
    ensures
        one == other,
{
    let c = choose|c: Seq<Vec2>| #[trigger] jitter_kicks(jitter, state, before.len(), c) && one == shifted(before, c);
    let e = choose|e: Seq<Vec2>| #[trigger] jitter_kicks(jitter, state, before.len(), e) && other == shifted(before, e);
    assert(shifted(before, c) =~= shifted(before, e));
}

/// Jitter kernel: visits every vertex in index order, draws twice from the
/// generator for it, and adds the perturbation that belongs to the two
/// draws.
pub fn jitter_pass<F: Fn(i64, i64) -> Vec2>(rng: &mut Rng, delta: &mut Vec<Vec2>, jitter: &F)
    requires
        forall|x: i64, y: i64| call_requires(*jitter, (x, y)),
    ensures
        final(rng)@ == state_after(old(rng)@, 2 * old(delta)@.len()),
        jitter_pass_result(*jitter, old(rng)@, old(delta)@, final(delta)@),
        final(delta)@.len() == old(delta)@.len(),
{
    let n = delta.len();
    let ghost mut c: Seq<Vec2> = Seq::empty();
    let mut i: usize = 0;
    while i < n
        invariant
            old(delta)@.len() == n,
            delta@.len() == n,
            i <= n,
            c.len() == i,
            rng@ == state_after(old(rng)@, (2 * i) as nat),
            forall|x: i64, y: i64| call_requires(*jitter, (x, y)),
            forall|k: int|
                0 <= k < i ==> call_ensures(
                    *jitter,
                    (unit_at(old(rng)@, (2 * k) as nat) as i64, unit_at(old(rng)@, (2 * k + 1) as nat) as i64),
                    #[trigger] c[k],
                ),
            forall|k: int| 0 <= k < i ==> delta@[k] == vec_sum(old(delta)@[k], c[k]),
            forall|k: int| i <= k < n ==> delta@[k] == old(delta)@[k],
        decreases n - i,
    {
        let x = rng.next_signed_unit();
        assert(rng@ == state_after(old(rng)@, (2 * i + 1) as nat));
        let y = rng.next_signed_unit();
        assert(rng@ == state_after(old(rng)@, (2 * i + 2) as nat));
        let kick = jitter(x, y);
        proof {
            c = c.push(kick);
        }
        let moved = vec_add(delta[i], kick);
        delta.set(i, moved);
        i += 1;
    }
    proof {
        assert(jitter_kicks(*jitter, old(rng)@, n as nat, c));
        assert(delta@ =~= shifted(old(delta)@, c));
    }
}

/// Adds the displacement buffer to the positions, entry by entry.
pub fn apply_displacement(positions: &Vec<Vec2>, delta: &Vec<Vec2>) -> (moved: Vec<Vec2>)
    requires
        delta@.len() == positions@.len(),
    ensures
        moved@ == shifted(positions@, delta@),
{
    let n = positions.len();
    let mut moved: Vec<Vec2> = Vec::with_capacity(n);
    let mut i: usize = 0;
    while i < n
        invariant
            n == positions@.len(),
            delta@.len() == n,
            i <= n,
            moved@.len() == i,
            forall|k: int| 0 <= k < i ==> moved@[k] == vec_sum(positions@[k], delta@[k]),
        decreases n - i,
    {
        moved.push(vec_add(positions[i], delta[i]));
        i += 1;
    }
    assert(moved@ =~= shifted(positions@, delta@));
    moved
}

} // verus!
