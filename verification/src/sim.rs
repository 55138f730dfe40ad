use crate::forces::{
    apply_displacement, constraint_pass, constraint_pass_result, edge_pass, edge_pass_result,
    growth_pass, growth_pass_result, jitter_pass, jitter_pass_result,
    lemma_constraint_pass_is_function, lemma_edge_pass_is_function, lemma_growth_pass_is_function,
    lemma_jitter_pass_is_function, lemma_repel_pass_is_function, repel_pass, repel_pass_result,
    shifted,
};
use crate::function::{single_valued1, single_valued2, single_valued4};
use crate::geometry::{folds_to, Polygon, Vec2};
use crate::remesh::{lemma_split_grows, lemma_split_is_function, split_edges, split_result};
use crate::rng::{seed_state, state_after, Rng};
use vstd::prelude::*;
use vstd::slice::slice_to_vec;

verus! {

/// The force laws and the split rule that drive one step. A kernel that is
/// `None` is switched off. Each law is a function of the positions it is
/// handed; the stepper decides which positions those are, in which order
/// the laws are asked, and where their answers go.
pub struct Kernels<S, R, G, C, J, N, L> {
    /// The displacement every vertex starts the step with.
    pub zero: Vec2,
    /// Correction of the edge from the first point to the second, or `None`
    /// for an edge that is skipped.
    pub spring: Option<S>,
    /// Push between two vertices that are not adjacent, directed from the
    /// first to the second, or `None` for a pair that is skipped.
    pub repel: Option<R>,
    /// Drift of a vertex whose ring neighbours are the two points,
    /// predecessor first, or `None` for a vertex that is skipped.
    pub grow: Option<G>,
    /// Correction of a vertex at the point, or `None` for a vertex that
    /// needs none.
    pub constrain: Option<C>,
    /// Perturbation for two signed unit draws, each a numerator over
    /// `UNIT_SCALE`.
    pub jitter: Option<J>,
    /// Segment count of the edge between two points, and inner point `k` of
    /// that edge for a given segment count.
    pub split: Option<(N, L)>,
}

/// What a simulation holds: the polygon's vertices in ring order, the
/// number of steps taken and the generator's state.
pub struct SimulationView {
    pub vertices: Seq<Vec2>,
    pub generation: u64,
    pub rng_state: u64,
}

/// The displacement buffers between the stages of one step, and the
/// displaced positions.
pub struct StepTrace {
    pub after_springs: Seq<Vec2>,
    pub after_repulsion: Seq<Vec2>,
    pub after_growth: Seq<Vec2>,
    pub after_constraint: Seq<Vec2>,
    pub after_jitter: Seq<Vec2>,
    pub moved: Seq<Vec2>,
}

/// The generation that follows `generation`: one more, held at the largest
/// value.
pub open spec fn next_generation(generation: u64) -> u64 {
    if generation == u64::MAX {
        u64::MAX
    } else {
        (generation + 1) as u64
    }
}

impl<S, R, G, C, J, N, L> Kernels<S, R, G, C, J, N, L> where
    S: Fn(Vec2, Vec2) -> Option<Vec2>,
    R: Fn(Vec2, Vec2) -> Option<Vec2>,
    G: Fn(Vec2, Vec2) -> Option<Vec2>,
    C: Fn(Vec2) -> Option<Vec2>,
    J: Fn(i64, i64) -> Vec2,
    N: Fn(Vec2, Vec2) -> usize,
    L: Fn(Vec2, Vec2, usize, usize) -> Vec2,
 {
    /// Every law that is switched on accepts every argument the stepper may
    /// hand it.
    pub open spec fn callable(self) -> bool {
        &&& self.spring matches Some(f) ==> forall|a: Vec2, b: Vec2| call_requires(f, (a, b))
        &&& self.repel matches Some(f) ==> forall|a: Vec2, b: Vec2| call_requires(f, (a, b))
        &&& self.grow matches Some(f) ==> forall|a: Vec2, b: Vec2| call_requires(f, (a, b))
        &&& self.constrain matches Some(f) ==> forall|a: Vec2| call_requires(f, (a,))
        &&& self.jitter matches Some(f) ==> forall|x: i64, y: i64| call_requires(f, (x, y))
        &&& self.split matches Some(rule) ==> {
            &&& forall|a: Vec2, b: Vec2| call_requires(rule.0, (a, b))
            &&& forall|a: Vec2, b: Vec2, k: usize, s: usize| 1 <= k < s ==> call_requires(rule.1, (a, b, k, s))
        }
    }

    /// Every law that is switched on has at most one answer for each
    /// argument.
    pub open spec fn single_valued(self) -> bool {
        &&& self.spring matches Some(f) ==> single_valued2(f)
        &&& self.repel matches Some(f) ==> single_valued2(f)
        &&& self.grow matches Some(f) ==> single_valued2(f)
        &&& self.constrain matches Some(f) ==> single_valued1(f)
        &&& self.jitter matches Some(f) ==> single_valued2(f)
        &&& self.split matches Some(rule) ==> single_valued2(rule.0) && single_valued4(rule.1)
    }

    /// `trace` records a run of the stages of one step, in their fixed
    /// order, from the frozen positions `p` and the generator state
    /// `state`: springs, repulsion, growth, constraint and jitter each take
    /// the buffer that the stage before left, starting from a buffer filled
    /// with `zero`; the buffer is then added to `p`. Only jitter draws from
    /// the generator, twice per vertex, and leaves it in `state_out`.
    pub open spec fn runs(self, p: Seq<Vec2>, state: u64, trace: StepTrace, state_out: u64) -> bool {
        &&& trace.after_springs.len() == p.len()
        &&& trace.after_repulsion.len() == p.len()
        &&& trace.after_growth.len() == p.len()
        &&& trace.after_constraint.len() == p.len()
        &&& trace.after_jitter.len() == p.len()
        &&& match self.spring {
            Some(f) => edge_pass_result(f, p, Seq::new(p.len(), |i: int| self.zero), trace.after_springs),
            None => trace.after_springs == Seq::new(p.len(), |i: int| self.zero),
        }
        &&& match self.repel {
            Some(f) => repel_pass_result(f, p, trace.after_springs, trace.after_repulsion),
            None => trace.after_repulsion == trace.after_springs,
        }
        &&& match self.grow {
            Some(f) => growth_pass_result(f, p, trace.after_repulsion, trace.after_growth),
            None => trace.after_growth == trace.after_repulsion,
        }
        &&& match self.constrain {
            Some(f) => constraint_pass_result(f, p, trace.after_growth, trace.after_constraint),
            None => trace.after_constraint == trace.after_growth,
        }
        &&& match self.jitter {
            Some(f) => {
                &&& jitter_pass_result(f, state, trace.after_constraint, trace.after_jitter)
                &&& state_out == state_after(state, 2 * p.len())
            },
            None => trace.after_jitter == trace.after_constraint && state_out == state,
        }
        &&& trace.moved == shifted(p, trace.after_jitter)
    }

    /// One step leads from `pre` to `post`: the generation advances; an
    /// empty polygon and its generator stay as they are; any other polygon
    /// is displaced by a run of the stages and then split, where splitting
    /// is switched on.
    pub open spec fn steps(self, pre: SimulationView, post: SimulationView) -> bool {
        &&& post.generation == next_generation(pre.generation)
        &&& if pre.vertices.len() == 0 {
            post.vertices == pre.vertices && post.rng_state == pre.rng_state
        } else {
            exists|trace: StepTrace|
                {
                    &&& #[trigger] self.runs(pre.vertices, pre.rng_state, trace, post.rng_state)
                    &&& match self.split {
                        Some(rule) => split_result(rule.0, rule.1, trace.moved, post.vertices),
                        None => post.vertices == trace.moved,
                    }
                }
        }
    }

    /// `states` holds the states that a run of one step for each entry of
    /// `laws`, in order, passes through, the first and the last included.
    pub open spec fn passes_through(laws: Seq<Self>, states: Seq<SimulationView>) -> bool {
        &&& states.len() == laws.len() + 1
        &&& forall|i: int| 0 <= i < laws.len() ==> (#[trigger] laws[i]).steps(states[i], states[i + 1])
    }
}

/// Determinism: with laws that have one answer for each argument, a step
/// leads from one state to one state only. Two simulations that agree on
/// polygon, generation and generator state, and are stepped with the same
/// laws, agree afterwards, vertex for vertex.
pub proof fn lemma_step_is_function<S, R, G, C, J, N, L>(
    kernels: Kernels<S, R, G, C, J, N, L>,
    pre: SimulationView,
    one: SimulationView,
    other: SimulationView,
) where
    S: Fn(Vec2, Vec2) -> Option<Vec2>,
    R: Fn(Vec2, Vec2) -> Option<Vec2>,
    G: Fn(Vec2, Vec2) -> Option<Vec2>,
    C: Fn(Vec2) -> Option<Vec2>,
    J: Fn(i64, i64) -> Vec2,
    N: Fn(Vec2, Vec2) -> usize,
    L: Fn(Vec2, Vec2, usize, usize) -> Vec2,

    requires
        kernels.single_valued(),
        kernels.steps(pre, one),
        kernels.steps(pre, other),
    ensures
        one == other,
{
    if pre.vertices.len() != 0 {
        let p = pre.vertices;
        let t = choose|t: StepTrace|
            {
                &&& #[trigger] kernels.runs(p, pre.rng_state, t, one.rng_state)
                &&& match kernels.split {
                    Some(rule) => split_result(rule.0, rule.1, t.moved, one.vertices),
                    None => one.vertices == t.moved,
                }
            };
        let u = choose|u: StepTrace|
            {
                &&& #[trigger] kernels.runs(p, pre.rng_state, u, other.rng_state)
                &&& match kernels.split {
                    Some(rule) => split_result(rule.0, rule.1, u.moved, other.vertices),
                    None => other.vertices == u.moved,
                }
            };
        let start = Seq::new(p.len(), |i: int| kernels.zero);
        if let Some(f) = kernels.spring {
            lemma_edge_pass_is_function(f, p, start, t.after_springs, u.after_springs);
        }
        if let Some(f) = kernels.repel {
            lemma_repel_pass_is_function(f, p, t.after_springs, t.after_repulsion, u.after_repulsion);
        }
        if let Some(f) = kernels.grow {
            lemma_growth_pass_is_function(f, p, t.after_repulsion, t.after_growth, u.after_growth);
        }
        if let Some(f) = kernels.constrain {
            lemma_constraint_pass_is_function(f, p, t.after_growth, t.after_constraint, u.after_constraint);
        }
        if let Some(f) = kernels.jitter {
            lemma_jitter_pass_is_function(f, pre.rng_state, t.after_constraint, t.after_jitter, u.after_jitter);
        }
        if let Some(rule) = kernels.split {
            lemma_split_is_function(rule.0, rule.1, t.moved, one.vertices, other.vertices);
        }
    }
}

/// Determinism over any number of generations: two runs from the same
/// state with the same sequence of single-valued laws pass through the
/// same states, generation by generation.
pub proof fn lemma_run_is_function<S, R, G, C, J, N, L>(
    laws: Seq<Kernels<S, R, G, C, J, N, L>>,
    one: Seq<SimulationView>,
    other: Seq<SimulationView>,
    generation: nat,
) where
    S: Fn(Vec2, Vec2) -> Option<Vec2>,
    R: Fn(Vec2, Vec2) -> Option<Vec2>,
    G: Fn(Vec2, Vec2) -> Option<Vec2>,
    C: Fn(Vec2) -> Option<Vec2>,
    J: Fn(i64, i64) -> Vec2,
    N: Fn(Vec2, Vec2) -> usize,
    L: Fn(Vec2, Vec2, usize, usize) -> Vec2,

    requires
        forall|i: int| 0 <= i < laws.len() ==> (#[trigger] laws[i]).single_valued(),
        Kernels::passes_through(laws, one),
        Kernels::passes_through(laws, other),
        one[0] == other[0],
        generation <= laws.len(),
    ensures
        one[generation as int] == other[generation as int],
    decreases generation,
{
    if generation > 0 {
        let i = generation - 1;
        lemma_run_is_function(laws, one, other, i as nat);
        assert(laws[i].steps(one[i], one[i + 1]));
        assert(laws[i].steps(other[i], other[i + 1]));
        lemma_step_is_function(laws[i], one[i], one[i + 1], other[i + 1]);
    }
}

/// Only jitter draws from the generator: a step with jitter switched on
/// takes exactly two draws per vertex, and any other step leaves the
/// generator where it was, whichever other kernels are switched on.
pub proof fn lemma_step_draws<S, R, G, C, J, N, L>(
    kernels: Kernels<S, R, G, C, J, N, L>,
    pre: SimulationView,
    post: SimulationView,
) where
    S: Fn(Vec2, Vec2) -> Option<Vec2>,
    R: Fn(Vec2, Vec2) -> Option<Vec2>,
    G: Fn(Vec2, Vec2) -> Option<Vec2>,
    C: Fn(Vec2) -> Option<Vec2>,
    J: Fn(i64, i64) -> Vec2,
    N: Fn(Vec2, Vec2) -> usize,
    L: Fn(Vec2, Vec2, usize, usize) -> Vec2,

    requires
        kernels.steps(pre, post),
    ensures
        kernels.jitter is Some ==> post.rng_state == state_after(pre.rng_state, 2 * pre.vertices.len()),
        kernels.jitter is None ==> post.rng_state == pre.rng_state,
{
}

/// A step drops no vertex: without splitting the polygon keeps its number
/// of vertices, and splitting can only add to it.
pub proof fn lemma_step_keeps_vertices<S, R, G, C, J, N, L>(
    kernels: Kernels<S, R, G, C, J, N, L>,
    pre: SimulationView,
    post: SimulationView,
) where
    S: Fn(Vec2, Vec2) -> Option<Vec2>,
    R: Fn(Vec2, Vec2) -> Option<Vec2>,
    G: Fn(Vec2, Vec2) -> Option<Vec2>,
    C: Fn(Vec2) -> Option<Vec2>,
    J: Fn(i64, i64) -> Vec2,
    N: Fn(Vec2, Vec2) -> usize,
    L: Fn(Vec2, Vec2, usize, usize) -> Vec2,

    requires
        kernels.steps(pre, post),
    ensures
        post.vertices.len() >= pre.vertices.len(),
        kernels.split is None ==> post.vertices.len() == pre.vertices.len(),
{
    if pre.vertices.len() != 0 {
        let t = choose|t: StepTrace|
            {
                &&& #[trigger] kernels.runs(pre.vertices, pre.rng_state, t, post.rng_state)
                &&& match kernels.split {
                    Some(rule) => split_result(rule.0, rule.1, t.moved, post.vertices),
                    None => post.vertices == t.moved,
                }
            };
        if let Some(rule) = kernels.split {
            lemma_split_grows(rule.0, rule.1, t.moved, post.vertices);
        }
    }
}

/// A growing closed polygon with its generation counter and its source of
/// randomness.
#[derive(Debug)]
pub struct Simulation {
    polygon: Polygon,
    generation: u64,
    rng: Rng,
}

impl View for Simulation {
    type V = SimulationView;

    closed spec fn view(&self) -> SimulationView {
        SimulationView { vertices: self.polygon@, generation: self.generation, rng_state: self.rng@ }
    }
}

/// The mean edge measure of a closed polygon: the measures of all edges,
/// added up by `add_edge` from `zero`, divided by the number of edges;
/// `zero` below two vertices.
pub fn average_edge_length<T, F: Fn(T, Vec2, Vec2) -> T, D: Fn(T, usize) -> T>(
    polygon: &Polygon,
    zero: T,
    add_edge: &F,
    divide: &D,
) -> (mean: T)
    requires
        forall|t: T, a: Vec2, b: Vec2| call_requires(*add_edge, (t, a, b)),
        forall|t: T, n: usize| n >= 2 ==> call_requires(*divide, (t, n)),
    ensures
        polygon@.len() < 2 ==> mean == zero,
        polygon@.len() >= 2 ==> exists|total: T| #[trigger]
            folds_to(*add_edge, polygon@, zero, total) && call_ensures(
                *divide,
                (total, polygon@.len() as usize),
                mean,
            ),
{
    let n = polygon.len();
    if n < 2 {
        return zero;
    }
    let total = polygon.perimeter(zero, add_edge);
    divide(total, n)
}

/// A buffer of `n` copies of `value`.
fn filled(value: Vec2, n: usize) -> (buffer: Vec<Vec2>)
    ensures
        buffer@ == Seq::new(n as nat, |i: int| value),
{
    let mut buffer: Vec<Vec2> = Vec::with_capacity(n);
    let mut i: usize = 0;
    while i < n
        invariant
            i <= n,
            buffer@.len() == i,
            forall|k: int| 0 <= k < i ==> buffer@[k] == value,
        decreases n - i,
    {
        buffer.push(value);
        i += 1;
    }
    assert(buffer@ =~= Seq::new(n as nat, |i: int| value));
    buffer
}

impl Simulation {
    /// A simulation with an empty polygon, at generation zero, whose
    /// generator is seeded with `seed`.
    pub fn new(seed: u64) -> (sim: Simulation)
        ensures
            sim@ == (SimulationView { vertices: Seq::empty(), generation: 0, rng_state: seed_state(seed) }),
    {
        Simulation { polygon: Polygon::new(), generation: 0, rng: Rng::new(seed) }
    }

    pub fn polygon(&self) -> (polygon: &Polygon)
        ensures
            polygon@ == self@.vertices,
    {
        &self.polygon
    }

    pub fn generation(&self) -> (generation: u64)
        ensures
            generation == self@.generation,
    {
        self.generation
    }

    /// Replaces the generator by one seeded with `seed`; the polygon and
    /// the generation stay.
    pub fn reset_seed(&mut self, seed: u64)
        ensures
            final(self)@ == (SimulationView { rng_state: seed_state(seed), ..old(self)@ }),
    {
        self.rng = Rng::new(seed);
    }

    /// Replaces the polygon and starts counting generations from zero; the
    /// generator stays.
    pub fn rebuild_polygon(&mut self, polygon: Polygon)
        ensures
            final(self)@ == (SimulationView { vertices: polygon@, generation: 0, ..old(self)@ }),
    {
        self.polygon = polygon;
        self.generation = 0;
    }

    /// Advances one generation: freezes the positions, lets every kernel
    /// that is switched on add into one displacement buffer (springs,
    /// repulsion, growth, constraint, jitter, in this order), moves the
    /// vertices by the buffer, splits edges, and counts the generation.
    pub fn step<S, R, G, C, J, N, L>(&mut self, kernels: &Kernels<S, R, G, C, J, N, L>) where
        S: Fn(Vec2, Vec2) -> Option<Vec2>,
        R: Fn(Vec2, Vec2) -> Option<Vec2>,
        G: Fn(Vec2, Vec2) -> Option<Vec2>,
        C: Fn(Vec2) -> Option<Vec2>,
        J: Fn(i64, i64) -> Vec2,
        N: Fn(Vec2, Vec2) -> usize,
        L: Fn(Vec2, Vec2, usize, usize) -> Vec2,

        requires
            kernels.callable(),
        ensures
            kernels.steps(old(self)@, final(self)@),
    {
        let n = self.polygon.len();
        if n > 0 {
            let positions = slice_to_vec(self.polygon.vertices());
            let mut delta = filled(kernels.zero, n);
            if let Some(f) = &kernels.spring {
                edge_pass(&positions, &mut delta, f);
            }
            let ghost after_springs = delta@;
            if let Some(f) = &kernels.repel {
                repel_pass(&positions, &mut delta, f);
            }
            let ghost after_repulsion = delta@;
            if let Some(f) = &kernels.grow {
                growth_pass(&positions, &mut delta, f);
            }
            let ghost after_growth = delta@;
            if let Some(f) = &kernels.constrain {
                constraint_pass(&positions, &mut delta, f);
            }
            let ghost after_constraint = delta@;
            if let Some(f) = &kernels.jitter {
                jitter_pass(&mut self.rng, &mut delta, f);
            }
            let ghost after_jitter = delta@;
            let moved = apply_displacement(&positions, &delta);
            let ghost trace = StepTrace {
                after_springs,
                after_repulsion,
                after_growth,
                after_constraint,
                after_jitter,
                moved: moved@,
            };
            let next = match &kernels.split {
                Some(rule) => split_edges(moved, &rule.0, &rule.1),
                None => moved,
            };
            self.polygon.replace_vertices(next);
            proof {
                let post = SimulationView { generation: next_generation(old(self)@.generation), ..self@ };
                assert(kernels.runs(old(self)@.vertices, old(self)@.rng_state, trace, post.rng_state));
                assert(match kernels.split {
                    Some(rule) => split_result(rule.0, rule.1, trace.moved, post.vertices),
                    None => post.vertices == trace.moved,
                });
                assert(kernels.steps(old(self)@, post));
            }
        }
        self.generation = self.generation.saturating_add(1);
    }
}

} // verus!
