use crate::order;
use crate::order::descending_order;
use crate::single::Single;
use rand::rngs::StdRng;
use vstd::prelude::*;

verus! {

/// Choice of a subset: take what is relevant, but not the same thing twice, and
/// not more tokens than the budget allows. The better the choice, the lower its
/// energy:
///
/// `E(x) = - sum r_i x_i + lambda sum s_ij x_i x_j + mu max(0, sum t_i x_i - B)^2`
#[derive(Debug)]
pub struct QuboProblem {
    /// How relevant each item is.
    pub relevance: Vec<Single>,
    /// How alike each two items are; what stands at `i` and then at `j` counts
    /// for `i < j`.
    pub similarity: Vec<Vec<Single>>,
    /// How many tokens each item takes.
    pub tokens: Vec<usize>,
    pub budget: usize,
    /// Weight of redundancy.
    pub lambda: Single,
    /// Weight of the tokens beyond the budget.
    pub mu: Single,
}

/// What a `QuboProblem` holds.
#[verifier::ext_equal]
pub struct ProblemView {
    pub relevance: Seq<Single>,
    pub similarity: Seq<Seq<Single>>,
    pub tokens: Seq<usize>,
    pub budget: usize,
    pub lambda: Single,
    pub mu: Single,
}

impl View for QuboProblem {
    type V = ProblemView;

    open spec fn view(&self) -> ProblemView {
        ProblemView {
            relevance: self.relevance@,
            similarity: self.similarity@.map_values(|row: Vec<Single>| row@),
            tokens: self.tokens@,
            budget: self.budget,
            lambda: self.lambda,
            mu: self.mu,
        }
    }
}

/// What the energy of a choice is computed from.
#[derive(Debug)]
pub struct EnergyTerms {
    /// Relevance of the chosen items, in order.
    pub relevance: Vec<Single>,
    /// Similarity of each two chosen items, by the first and then the second.
    pub similarity: Vec<Single>,
    /// Tokens beyond the budget.
    pub overflow: u128,
    pub lambda: Single,
    pub mu: Single,
}

/// What `EnergyTerms` hold.
#[verifier::ext_equal]
pub struct EnergyView {
    pub relevance: Seq<Single>,
    pub similarity: Seq<Single>,
    pub overflow: u128,
    pub lambda: Single,
    pub mu: Single,
}

impl View for EnergyTerms {
    type V = EnergyView;

    open spec fn view(&self) -> EnergyView {
        EnergyView {
            relevance: self.relevance@,
            similarity: self.similarity@,
            overflow: self.overflow,
            lambda: self.lambda,
            mu: self.mu,
        }
    }
}

/// The members of `values` that are chosen.
pub open spec fn chosen<T>(values: Seq<T>, x: Seq<bool>) -> Seq<T>
    decreases x.len(),
{
    if x.len() == 0 {
        Seq::empty()
    } else {
        let before = chosen(values, x.drop_last());
        if x.last() {
            before.push(values[x.len() - 1])
        } else {
            before
        }
    }
}

/// The members of a row behind position `i` that are chosen.
pub open spec fn chosen_behind(row: Seq<Single>, x: Seq<bool>, i: int) -> Seq<Single>
    decreases x.len(),
{
    if x.len() == 0 || x.len() <= i + 1 {
        Seq::empty()
    } else {
        let before = chosen_behind(row, x.drop_last(), i);
        if x.last() {
            before.push(row[x.len() - 1])
        } else {
            before
        }
    }
}

/// The similarity of each two chosen items of which the first stands before `n`.
pub open spec fn chosen_pairs(similarity: Seq<Seq<Single>>, x: Seq<bool>, n: int) -> Seq<Single>
    decreases n,
{
    if n <= 0 {
        Seq::empty()
    } else {
        let before = chosen_pairs(similarity, x, n - 1);
        if x[n - 1] {
            before + chosen_behind(similarity[n - 1], x, n - 1)
        } else {
            before
        }
    }
}

/// The tokens that the chosen items take; items without an entry take none.
pub open spec fn used_tokens(tokens: Seq<usize>, x: Seq<bool>) -> int
    decreases x.len(),
{
    if x.len() == 0 {
        0
    } else {
        used_tokens(tokens, x.drop_last()) + if x.last() && x.len() <= tokens.len() {
            tokens[x.len() - 1] as int
        } else {
            0
        }
    }
}

impl ProblemView {
    /// There are tokens for each item, and a similarity for each two.
    pub open spec fn wf(self) -> bool {
        let n = self.relevance.len();
        &&& self.tokens.len() >= n
        &&& forall|i: int, j: int|
            #![trigger self.similarity[i][j]]
            0 <= i < j < n ==> i < self.similarity.len() && j < self.similarity[i].len()
    }

    /// There is a relevance for each item of the choice `x`, and a similarity
    /// for each two.
    pub open spec fn covers(self, x: Seq<bool>) -> bool {
        &&& forall|i: int| 0 <= i < x.len() && #[trigger] x[i] ==> i < self.relevance.len()
        &&& forall|i: int, j: int|
            #![trigger x[i], x[j]]
            0 <= i < j < x.len() && x[i] && x[j] ==> i < self.similarity.len() && j
                < self.similarity[i].len()
    }

    /// What the energy of the choice `x` is computed from.
    pub open spec fn terms(self, x: Seq<bool>) -> EnergyView {
        let used = used_tokens(self.tokens, x);
        EnergyView {
            relevance: chosen(self.relevance, x),
            similarity: chosen_pairs(self.similarity, x, x.len() as int),
            overflow: if used > self.budget {
                (used - self.budget) as u128
            } else {
                0
            },
            lambda: self.lambda,
            mu: self.mu,
        }
    }
}

/// A problem covers every choice among its items.
proof fn lemma_covers(p: ProblemView, x: Seq<bool>)
    requires
        p.wf(),
        x.len() <= p.relevance.len(),
    ensures
        p.covers(x),
{
    assert forall|i: int, j: int|
        #![trigger x[i], x[j]]
        0 <= i < j < x.len() && x[i] && x[j] implies i < p.similarity.len() && j
        < p.similarity[i].len() by {
        let s = p.similarity[i][j];
    }
}

/// The tokens taken are bounded by the number of items.
pub proof fn lemma_used_bound(tokens: Seq<usize>, x: Seq<bool>)
    ensures
        0 <= used_tokens(tokens, x) <= x.len() * usize::MAX,
    decreases x.len(),
{
    if x.len() > 0 {
        lemma_used_bound(tokens, x.drop_last());
        assert((x.len() - 1) * usize::MAX + usize::MAX == x.len() * usize::MAX) by (nonlinear_arith);
    }
}

impl QuboProblem {
    /// What the energy of the choice `x` is computed from.
    pub fn energy(&self, x: &Vec<bool>) -> (r: EnergyTerms)
        requires
            self@.covers(x@),
        ensures
            r@ == self@.terms(x@),
    {
        let mut relevance: Vec<Single> = Vec::new();
        let mut used: u128 = 0;
        let mut i: usize = 0;
        assert(x@.take(0) =~= Seq::<bool>::empty());
        while i < x.len()
            invariant
                i <= x.len(),
                self@.covers(x@),
                relevance@ == chosen(self.relevance@, x@.take(i as int)),
                used == used_tokens(self.tokens@, x@.take(i as int)),
            decreases x.len() - i,
        {
            proof {
                assert(x@.take(i + 1).drop_last() =~= x@.take(i as int));
                lemma_used_bound(self.tokens@, x@.take(i as int));
                assert(i * usize::MAX + usize::MAX <= u128::MAX) by (nonlinear_arith)
                    requires
                        i < u64::MAX,
                        usize::MAX <= u64::MAX,
                ;
            }
            if x[i] {
                relevance.push(self.relevance[i]);
                if i < self.tokens.len() {
                    used = used + self.tokens[i] as u128;
                }
            }
            i = i + 1;
        }
        assert(x@.take(x@.len() as int) =~= x@);
        let similarity: Vec<Single> = self.pair_terms(x);
        let budget: u128 = self.budget as u128;
        let overflow: u128 = if used > budget {
            used - budget
        } else {
            0
        };
        EnergyTerms { relevance, similarity, overflow, lambda: self.lambda, mu: self.mu }
    }

    /// The similarity of each two chosen items.
    fn pair_terms(&self, x: &Vec<bool>) -> (r: Vec<Single>)
        requires
            self@.covers(x@),
        ensures
            r@ == chosen_pairs(self@.similarity, x@, x@.len() as int),
    {
        let mut out: Vec<Single> = Vec::new();
        let mut i: usize = 0;
        while i < x.len()
            invariant
                i <= x.len(),
                self@.covers(x@),
                out@ == chosen_pairs(self@.similarity, x@, i as int),
            decreases x.len() - i,
        {
            if x[i] {
                let ghost row = self@.similarity[i as int];
                let ghost before = out@;
                let mut j: usize = i + 1;
                assert(before + chosen_behind(row, x@.take(j as int), i as int) =~= before);
                while j < x.len()
                    invariant
                        i < j <= x.len(),
                        x@[i as int],
                        self@.covers(x@),
                        row == self@.similarity[i as int],
                        out@ == before + chosen_behind(row, x@.take(j as int), i as int),
                    decreases x.len() - j,
                {
                    assert(x@.take(j + 1).drop_last() =~= x@.take(j as int));
                    if x[j] {
                        assert(i < self@.similarity.len() && j < row.len());
                        assert(row == self.similarity@[i as int]@);
                        out.push(self.similarity[i][j]);
                        assert(out@ =~= before + chosen_behind(row, x@.take(j + 1), i as int));
                    }
                    j = j + 1;
                }
                assert(x@.take(x@.len() as int) =~= x@);
            }
            i = i + 1;
        }
        out
    }
}

/// The choice made of the first `k` positions of `order`, and the tokens it
/// takes: each item is taken if it still fits into the budget.
pub open spec fn filled(p: ProblemView, order: Seq<usize>, k: int) -> (Seq<bool>, int)
    decreases k,
{
    if k <= 0 {
        (Seq::new(p.relevance.len(), |i: int| false), 0)
    } else {
        let before = filled(p, order, k - 1);
        let i = order[k - 1] as int;
        if before.1 + p.tokens[i] <= p.budget {
            (before.0.update(i, true), before.1 + p.tokens[i])
        } else {
            before
        }
    }
}

/// `x` is the greedy choice: the most relevant items first, as long as they fit.
pub open spec fn is_greedy(p: ProblemView, x: Seq<bool>) -> bool {
    exists|order: Seq<usize>| #[trigger]
        order::is_stable_descending(p.relevance, order) && x == filled(
            p,
            order,
            p.relevance.len() as int,
        ).0
}

/// The greedy choice: the most relevant items first, as long as they fit.
pub fn greedy_init(problem: &QuboProblem) -> (r: Vec<bool>)
    requires
        problem@.tokens.len() >= problem@.relevance.len(),
    ensures
        is_greedy(problem@, r@),
        r@.len() == problem@.relevance.len(),
{
    let n: usize = problem.relevance.len();
    let order: Vec<usize> = descending_order(&problem.relevance);
    let ghost p = problem@;
    let mut x: Vec<bool> = Vec::new();
    while x.len() < n
        invariant
            x.len() <= n,
            forall|i: int| 0 <= i < x.len() ==> x@[i] == false,
        decreases n - x.len(),
    {
        x.push(false);
    }
    let mut used: usize = 0;
    let mut k: usize = 0;
    assert(x@ =~= filled(p, order@, 0).0);
    while k < order.len()
        invariant
            k <= order.len(),
            p == problem@,
            p.tokens.len() >= n,
            n == p.relevance.len(),
            order@.len() == n,
            x@.len() == n,
            forall|i: int| 0 <= i < order@.len() ==> 0 <= #[trigger] order@[i] < n,
            x@ == filled(p, order@, k as int).0,
            used == filled(p, order@, k as int).1,
            used <= problem.budget,
        decreases order.len() - k,
    {
        let i: usize = order[k];
        let t: usize = problem.tokens[i];
        if t <= problem.budget - used {
            x.set(i, true);
            used = used + t;
        }
        k = k + 1;
    }
    assert(order::is_stable_descending(p.relevance, order@));
    x
}

/// Choosing one more item adds its tokens.
proof fn lemma_used_update(tokens: Seq<usize>, x: Seq<bool>, i: int)
    requires
        0 <= i < x.len() <= tokens.len(),
        !x[i],
    ensures
        used_tokens(tokens, x.update(i, true)) == used_tokens(tokens, x) + tokens[i],
    decreases x.len(),
{
    let y = x.update(i, true);
    if i == x.len() - 1 {
        assert(y.drop_last() =~= x.drop_last());
    } else {
        assert(y.drop_last() =~= x.drop_last().update(i, true));
        lemma_used_update(tokens, x.drop_last(), i);
    }
}

/// The tokens counted on the way are those of the choice, and only positions
/// already passed are chosen.
proof fn lemma_filled(p: ProblemView, order: Seq<usize>, k: int)
    requires
        p.tokens.len() >= p.relevance.len(),
        order::is_stable_descending(p.relevance, order),
        0 <= k <= order.len(),
    ensures
        filled(p, order, k).0.len() == p.relevance.len(),
        filled(p, order, k).1 == used_tokens(p.tokens, filled(p, order, k).0),
        0 <= filled(p, order, k).1 <= p.budget,
        forall|j: int| k <= j < order.len() ==> !filled(p, order, k).0[#[trigger] order[j] as int],
    decreases k,
{
    if k <= 0 {
        lemma_used_none(p.tokens, filled(p, order, 0).0);
    } else {
        lemma_filled(p, order, k - 1);
        let before = filled(p, order, k - 1);
        let i = order[k - 1] as int;
        let prior = order::descending(p.relevance);
        if before.1 + p.tokens[i] <= p.budget {
            lemma_used_update(p.tokens, before.0, i);
        }
        assert forall|j: int| k <= j < order.len() implies !filled(p, order, k).0[
            #[trigger] order[j] as int] by {
            assert(prior(order[k - 1] as int, order[j] as int));
        }
    }
}

/// Choosing nothing takes no tokens.
proof fn lemma_used_none(tokens: Seq<usize>, x: Seq<bool>)
    requires
        forall|i: int| 0 <= i < x.len() ==> !x[i],
    ensures
        used_tokens(tokens, x) == 0,
    decreases x.len(),
{
    if x.len() > 0 {
        lemma_used_none(tokens, x.drop_last());
    }
}

/// The greedy choice keeps to the budget.
pub proof fn law_greedy_keeps_to_budget(p: ProblemView, x: Seq<bool>)
    requires
        p.tokens.len() >= p.relevance.len(),
        is_greedy(p, x),
    ensures
        used_tokens(p.tokens, x) <= p.budget,
        p.terms(x).overflow == 0,
{
    let order = choose|order: Seq<usize>| #[trigger]
        order::is_stable_descending(p.relevance, order) && x == filled(
            p,
            order,
            p.relevance.len() as int,
        ).0;
    lemma_filled(p, order, p.relevance.len() as int);
}

/// There is only one greedy choice.
pub proof fn law_greedy_is_unique(p: ProblemView, a: Seq<bool>, b: Seq<bool>)
    requires
        is_greedy(p, a),
        is_greedy(p, b),
    ensures
        a == b,
{
    let n = p.relevance.len() as int;
    let s = choose|order: Seq<usize>| #[trigger]
        order::is_stable_descending(p.relevance, order) && a == filled(p, order, n).0;
    let t = choose|order: Seq<usize>| #[trigger]
        order::is_stable_descending(p.relevance, order) && b == filled(p, order, n).0;
    order::lemma_stable_order_unique(p.relevance, s, t);
}

/// `rand::rngs::StdRng`.
#[verifier::external_type_specification]
#[verifier::external_body]
pub struct ExStdRng(StdRng);

/// The generator that `SeedableRng::seed_from_u64` makes of `seed`.
pub uninterp spec fn seeded_rng(seed: u64) -> StdRng;

/// What `Rng::random_range` draws from `rng` for the range from 0 up to `n`.
pub uninterp spec fn drawn(rng: StdRng, n: usize) -> usize;

/// What such a draw leaves of the generator.
pub uninterp spec fn after_draw(rng: StdRng, n: usize) -> StdRng;

/// `SeedableRng::seed_from_u64`: the generator depends on the seed alone.
#[verifier::external_body]
fn seed_rng(seed: u64) -> (r: StdRng)
    ensures
        r == seeded_rng(seed),
{
    rand::SeedableRng::seed_from_u64(seed)
}

/// `Rng::random_range` on the range from 0 up to `n`, which must not be empty:
/// a number below `n`. The number and what becomes of the generator depend on
/// the generator and `n` alone.
#[verifier::external_body]
fn draw_below(rng: &mut StdRng, n: usize) -> (r: usize)
    requires
        n > 0,
    ensures
        r < n,
        r == drawn(*old(rng), n),
        *final(rng) == after_draw(*old(rng), n),
{
    rand::Rng::random_range(rng, 0..n)
}

/// Search by simulated annealing: starts from the greedy choice, changes one
/// item at a time, takes every change for the better and some for the worse,
/// fewer as the temperature falls, and returns the best choice it came by.
#[derive(Clone, Copy, Debug, PartialEq, Eq, Structural)]
pub struct SimulatedAnnealer {
    pub initial_temp: Single,
    pub final_temp: Single,
    pub steps: usize,
    pub seed: u64,
}

impl Default for SimulatedAnnealer {
    /// From temperature 5 down to 0.01 in 5000 steps, with a fixed seed.
    fn default() -> (r: Self)
        ensures
            r == (SimulatedAnnealer {
                initial_temp: Single { bits: 0x40A0_0000 },
                final_temp: Single { bits: 0x3C23_D70A },
                steps: 5000,
                seed: 0xC0DE_F00D,
            }),
    {
        SimulatedAnnealer {
            initial_temp: Single { bits: 0x40A0_0000 },
            final_temp: Single { bits: 0x3C23_D70A },
            steps: 5000,
            seed: 0xC0DE_F00D,
        }
    }
}

/// `e` is the energy of the choice `x`: what `evaluate` makes of its terms.
pub open spec fn is_energy<E: Fn(&EnergyTerms) -> Single>(
    p: ProblemView,
    x: Seq<bool>,
    evaluate: E,
    e: Single,
) -> bool {
    exists|terms: EnergyTerms|
        terms@ == p.terms(x) && #[trigger] call_ensures(evaluate, (&terms,), e)
}

/// The choice `x` with item `i` the other way.
pub open spec fn flipped(x: Seq<bool>, i: int) -> Seq<bool> {
    x.update(i, !x[i])
}

/// Where the search stands: the generator, the choice, its energy and the
/// temperature.
pub struct RunState {
    pub rng: StdRng,
    pub x: Seq<bool>,
    pub energy: Single,
    pub temp: Single,
}

/// One step of the search from `a` to `b`. The item to change is drawn. A
/// change that lowers the energy is taken without asking; of any other,
/// `accept` says whether it is, given the generator, both energies and the
/// temperature. Then `cool` lowers the temperature by the annealer's schedule.
pub open spec fn is_step<
    E: Fn(&EnergyTerms) -> Single,
    C: Fn(SimulatedAnnealer, Single) -> Single,
    A: Fn(StdRng, Single, Single, Single) -> (StdRng, bool),
>(
    annealer: SimulatedAnnealer,
    p: ProblemView,
    evaluate: E,
    cool: C,
    accept: A,
    a: RunState,
    b: RunState,
    e: Single,
) -> bool {
    let n = p.relevance.len() as usize;
    let rng = after_draw(a.rng, n);
    let y = flipped(a.x, drawn(a.rng, n) as int);
    &&& drawn(a.rng, n) < n
    &&& is_energy(p, y, evaluate, e)
    &&& call_ensures(cool, (annealer, a.temp), b.temp)
    &&& if e.lt(a.energy) {
        b.rng == rng && b.x == y && b.energy == e
    } else if b.x == y && b.energy == e {
        call_ensures(accept, (rng, e, a.energy, a.temp), (b.rng, true))
    } else {
        &&& b.x == a.x
        &&& b.energy == a.energy
        &&& call_ensures(accept, (rng, e, a.energy, a.temp), (b.rng, false))
    }
}

/// `run` is a search of the annealer: it starts with the greedy choice, the
/// seeded generator and the initial temperature, and goes on step by step.
/// `tried` holds the energies of the changes that were tried.
pub open spec fn is_run<
    E: Fn(&EnergyTerms) -> Single,
    C: Fn(SimulatedAnnealer, Single) -> Single,
    A: Fn(StdRng, Single, Single, Single) -> (StdRng, bool),
>(
    annealer: SimulatedAnnealer,
    p: ProblemView,
    evaluate: E,
    cool: C,
    accept: A,
    run: Seq<RunState>,
    tried: Seq<Single>,
) -> bool {
    &&& run.len() == tried.len() + 1
    &&& run[0].rng == seeded_rng(annealer.seed)
    &&& run[0].temp == annealer.initial_temp
    &&& is_greedy(p, run[0].x)
    &&& is_energy(p, run[0].x, evaluate, run[0].energy)
    &&& forall|i: int|
        #![trigger tried[i]]
        0 <= i < tried.len() ==> is_step(
            annealer,
            p,
            evaluate,
            cool,
            accept,
            run[i],
            run[i + 1],
            tried[i],
        )
}

/// The best state of `run`: the first one, until another has less energy, and
/// so on.
pub open spec fn best_at(run: Seq<RunState>) -> int
    decreases run.len(),
{
    if run.len() <= 1 {
        0
    } else {
        let before = best_at(run.drop_last());
        if run.last().energy.lt(run[before].energy) {
            run.len() - 1
        } else {
            before
        }
    }
}

/// `x` is the choice that the annealer comes up with: the best in a search of
/// as many steps as it makes.
pub open spec fn is_solution<
    E: Fn(&EnergyTerms) -> Single,
    C: Fn(SimulatedAnnealer, Single) -> Single,
    A: Fn(StdRng, Single, Single, Single) -> (StdRng, bool),
>(
    annealer: SimulatedAnnealer,
    p: ProblemView,
    evaluate: E,
    cool: C,
    accept: A,
    x: Seq<bool>,
) -> bool {
    if p.relevance.len() == 0 {
        x.len() == 0
    } else {
        exists|run: Seq<RunState>, tried: Seq<Single>|
            {
                &&& #[trigger] is_run(annealer, p, evaluate, cool, accept, run, tried)
                &&& tried.len() == annealer.steps
                &&& x == run[best_at(run)].x
            }
    }
}

/// A copy of `x`.
fn copy_choice(x: &Vec<bool>) -> (r: Vec<bool>)
    ensures
        r@ == x@,
{
    let mut out: Vec<bool> = Vec::new();
    let mut i: usize = 0;
    while i < x.len()
        invariant
            i <= x.len(),
            out@ == x@.take(i as int),
        decreases x.len() - i,
    {
        out.push(x[i]);
        i = i + 1;
        assert(out@ =~= x@.take(i as int));
    }
    assert(out@ =~= x@);
    out
}

/// The functions take whatever the search hands them.
pub open spec fn take_all<
    E: Fn(&EnergyTerms) -> Single,
    C: Fn(SimulatedAnnealer, Single) -> Single,
    A: Fn(StdRng, Single, Single, Single) -> (StdRng, bool),
>(evaluate: E, cool: C, accept: A) -> bool {
    &&& forall|terms: EnergyTerms| #[trigger] call_requires(evaluate, (&terms,))
    &&& forall|annealer: SimulatedAnnealer, temp: Single| #[trigger]
        call_requires(cool, (annealer, temp))
    &&& forall|rng: StdRng, new: Single, cur: Single, temp: Single| #[trigger]
        call_requires(accept, (rng, new, cur, temp))
}

impl SimulatedAnnealer {
    /// Searches for a choice of low energy. `evaluate` computes an energy from
    /// its terms, `cool` lowers the temperature by the schedule of the annealer
    /// it is given, and `accept` decides on a change that does not lower the energy, given the generator, the new and
    /// the present energy and the temperature; it hands the generator back.
    pub fn solve<
        E: Fn(&EnergyTerms) -> Single,
        C: Fn(SimulatedAnnealer, Single) -> Single,
        A: Fn(StdRng, Single, Single, Single) -> (StdRng, bool),
    >(&self, problem: &QuboProblem, evaluate: &E, cool: &C, accept: &A) -> (r: Vec<bool>)
        requires
            problem@.wf(),
            take_all(*evaluate, *cool, *accept),
        ensures
            r@.len() == problem@.relevance.len(),
            is_solution(*self, problem@, *evaluate, *cool, *accept, r@),
    {
        let n: usize = problem.relevance.len();
        if n == 0 {
            return Vec::new();
        }
        let ghost p = problem@;
        let mut rng: StdRng = seed_rng(self.seed);
        let mut x: Vec<bool> = greedy_init(problem);
        proof {
            lemma_covers(p, x@);
        }
        let first: EnergyTerms = problem.energy(&x);
        assert(call_requires(*evaluate, (&first,)));
        let mut cur: Single = evaluate(&first);
        let mut best_x: Vec<bool> = copy_choice(&x);
        let mut best: Single = cur;
        let mut temp: Single = self.initial_temp;
        let ghost mut run: Seq<RunState> = seq![RunState { rng, x: x@, energy: cur, temp }];
        let ghost mut tried: Seq<Single> = Seq::empty();
        let ghost mut at: int = 0;
        let mut step: usize = 0;
        while step < self.steps
            invariant
                step <= self.steps,
                p == problem@,
                p.wf(),
                n == p.relevance.len(),
                n > 0,
                take_all(*evaluate, *cool, *accept),
                x@.len() == n,
                tried.len() == step,
                is_run(*self, p, *evaluate, *cool, *accept, run, tried),
                run[step as int] == (RunState { rng, x: x@, energy: cur, temp }),
                at == best_at(run),
                0 <= at < run.len(),
                !cur.lt(best),
                best_x@ == run[at].x,
                best == run[at].energy,
                best_x@.len() == n,
            decreases self.steps - step,
        {
            let ghost a = run[step as int];
            let idx: usize = draw_below(&mut rng, n);
            let ghost drawn_rng = rng;
            let old_bit: bool = x[idx];
            x.set(idx, !old_bit);
            let ghost y = x@;
            proof {
                lemma_covers(p, y);
            }
            let terms: EnergyTerms = problem.energy(&x);
            assert(call_requires(*evaluate, (&terms,)));
            let new: Single = evaluate(&terms);
            assert(is_energy(p, y, *evaluate, new));
            let take: bool = if new.less_than(cur) {
                true
            } else {
                let verdict: (StdRng, bool) = accept(rng, new, cur, temp);
                rng = verdict.0;
                verdict.1
            };
            let ghost improved = take && new.lt(best);
            if take {
                cur = new;
                if cur.less_than(best) {
                    best = cur;
                    best_x = copy_choice(&x);
                }
            } else {
                x.set(idx, old_bit);
                assert(x@ =~= a.x);
            }
            temp = cool(*self, temp);
            proof {
                let b = RunState { rng, x: x@, energy: cur, temp };
                let before = run;
                let tested = tried;
                assert(y =~= flipped(a.x, drawn(a.rng, n) as int));
                if !take {
                    assert(a.x[idx as int] == old_bit);
                    assert(y[idx as int] != old_bit);
                    assert(b.x != y);
                }
                assert(is_step(*self, p, *evaluate, *cool, *accept, a, b, new));
                run = run.push(b);
                tried = tried.push(new);
                assert forall|i: int|
                    #![trigger tried[i]]
                    0 <= i < tried.len() implies is_step(
                    *self,
                    p,
                    *evaluate,
                    *cool,
                    *accept,
                    run[i],
                    run[i + 1],
                    tried[i],
                ) by {
                    if i < tested.len() {
                        assert(tested[i] == tried[i]);
                        assert(run[i] == before[i] && run[i + 1] == before[i + 1]);
                    }
                }
                assert(run[0] == before[0]);
                if improved {
                    at = run.len() - 1;
                }
                assert(run.drop_last() =~= before);
                assert(best_at(run) == at);
            }
            step = step + 1;
        }
        proof {
            assert(is_run(*self, p, *evaluate, *cool, *accept, run, tried));
        }
        best_x
    }
}

/// Every state of a search knows the energy of its choice.
proof fn lemma_run_energies<
    E: Fn(&EnergyTerms) -> Single,
    C: Fn(SimulatedAnnealer, Single) -> Single,
    A: Fn(StdRng, Single, Single, Single) -> (StdRng, bool),
>(
    annealer: SimulatedAnnealer,
    p: ProblemView,
    evaluate: E,
    cool: C,
    accept: A,
    run: Seq<RunState>,
    tried: Seq<Single>,
    k: int,
)
    requires
        is_run(annealer, p, evaluate, cool, accept, run, tried),
        0 <= k < run.len(),
    ensures
        is_energy(p, run[k].x, evaluate, run[k].energy),
    decreases k,
{
    if k > 0 {
        lemma_run_energies(annealer, p, evaluate, cool, accept, run, tried, k - 1);
        let e = tried[k - 1];
        assert(is_step(annealer, p, evaluate, cool, accept, run[k - 1], run[k - 1 + 1], e));
    }
}

/// The best state is one of the run, and it is the first one or has less energy.
proof fn lemma_best_at(run: Seq<RunState>)
    requires
        run.len() > 0,
    ensures
        0 <= best_at(run) < run.len(),
        run[best_at(run)].energy == run[0].energy || run[best_at(run)].energy.lt(run[0].energy),
    decreases run.len(),
{
    if run.len() > 1 {
        lemma_best_at(run.drop_last());
    }
}

/// Where all energies are numbers, the best state is the first of the lowest
/// energy.
pub proof fn law_best_state_is_the_first_lowest(run: Seq<RunState>)
    requires
        run.len() > 0,
        forall|i: int| 0 <= i < run.len() ==> (#[trigger] run[i]).energy.is_number(),
    ensures
        0 <= best_at(run) < run.len(),
        forall|i: int|
            #![trigger run[i]]
            0 <= i < run.len() ==> run[best_at(run)].energy.key() <= run[i].energy.key(),
        forall|i: int|
            #![trigger run[i]]
            0 <= i < best_at(run) ==> run[best_at(run)].energy.lt(run[i].energy),
    decreases run.len(),
{
    if run.len() > 1 {
        let init = run.drop_last();
        assert forall|i: int| 0 <= i < init.len() implies (#[trigger] init[i]).energy.is_number() by {
            assert(init[i] == run[i]);
        }
        law_best_state_is_the_first_lowest(init);
        assert forall|i: int| #![trigger run[i]] 0 <= i < run.len() implies run[best_at(
            run,
        )].energy.key() <= run[i].energy.key() by {
            if i < init.len() {
                assert(run[i] == init[i]);
            }
        }
        assert forall|i: int| #![trigger run[i]] 0 <= i < best_at(run) implies run[best_at(
            run,
        )].energy.lt(run[i].energy) by {
            assert(run[i] == init[i]);
        }
    }
}

/// The choice returned is at least as good as the greedy one: it has the same
/// energy or less.
pub proof fn law_solution_is_no_worse_than_greedy<
    E: Fn(&EnergyTerms) -> Single,
    C: Fn(SimulatedAnnealer, Single) -> Single,
    A: Fn(StdRng, Single, Single, Single) -> (StdRng, bool),
>(
    annealer: SimulatedAnnealer,
    p: ProblemView,
    evaluate: E,
    cool: C,
    accept: A,
    x: Seq<bool>,
)
    requires
        p.relevance.len() > 0,
        is_solution(annealer, p, evaluate, cool, accept, x),
    ensures
        exists|greedy: Seq<bool>, start: Single, found: Single|
            {
                &&& #[trigger] is_energy(p, greedy, evaluate, start)
                &&& is_greedy(p, greedy)
                &&& #[trigger] is_energy(p, x, evaluate, found)
                &&& found == start || found.lt(start)
            },
{
    let (run, tried) = choose|run: Seq<RunState>, tried: Seq<Single>|
        {
            &&& #[trigger] is_run(annealer, p, evaluate, cool, accept, run, tried)
            &&& tried.len() == annealer.steps
            &&& x == run[best_at(run)].x
        };
    let k = best_at(run);
    lemma_best_at(run);
    lemma_run_energies(annealer, p, evaluate, cool, accept, run, tried, k);
    assert(is_energy(p, run[0].x, evaluate, run[0].energy));
}

/// Without steps the choice is the greedy one.
pub proof fn law_no_steps_leave_the_greedy_choice<
    E: Fn(&EnergyTerms) -> Single,
    C: Fn(SimulatedAnnealer, Single) -> Single,
    A: Fn(StdRng, Single, Single, Single) -> (StdRng, bool),
>(
    annealer: SimulatedAnnealer,
    p: ProblemView,
    evaluate: E,
    cool: C,
    accept: A,
    x: Seq<bool>,
)
    requires
        annealer.steps == 0,
        is_solution(annealer, p, evaluate, cool, accept, x),
    ensures
        is_greedy(p, x),
{
    if p.relevance.len() == 0 {
        let order = Seq::<usize>::empty();
        assert(order::is_stable_descending(p.relevance, order));
        assert(x =~= filled(p, order, 0).0);
    }
}

/// The functions give the same answer whenever they are asked the same.
pub open spec fn answer_alike<
    E: Fn(&EnergyTerms) -> Single,
    C: Fn(SimulatedAnnealer, Single) -> Single,
    A: Fn(StdRng, Single, Single, Single) -> (StdRng, bool),
>(evaluate: E, cool: C, accept: A) -> bool {
    &&& forall|s: EnergyTerms, t: EnergyTerms, a: Single, b: Single|
        s@ == t@ && #[trigger] call_ensures(evaluate, (&s,), a) && #[trigger] call_ensures(
            evaluate,
            (&t,),
            b,
        ) ==> a == b
    &&& forall|annealer: SimulatedAnnealer, temp: Single, a: Single, b: Single| #[trigger]
        call_ensures(cool, (annealer, temp), a) && #[trigger] call_ensures(
            cool,
            (annealer, temp),
            b,
        ) ==> a == b
    &&& forall|
        rng: StdRng,
        new: Single,
        cur: Single,
        temp: Single,
        a: (StdRng, bool),
        b: (StdRng, bool),
    | #[trigger]
        call_ensures(accept, (rng, new, cur, temp), a) && #[trigger] call_ensures(
            accept,
            (rng, new, cur, temp),
            b,
        ) ==> a == b
}

/// Two searches with the same start go the same way.
proof fn lemma_runs_agree<
    E: Fn(&EnergyTerms) -> Single,
    C: Fn(SimulatedAnnealer, Single) -> Single,
    A: Fn(StdRng, Single, Single, Single) -> (StdRng, bool),
>(
    annealer: SimulatedAnnealer,
    p: ProblemView,
    evaluate: E,
    cool: C,
    accept: A,
    run: Seq<RunState>,
    tried: Seq<Single>,
    other: Seq<RunState>,
    other_tried: Seq<Single>,
    k: int,
)
    requires
        answer_alike(evaluate, cool, accept),
        is_run(annealer, p, evaluate, cool, accept, run, tried),
        is_run(annealer, p, evaluate, cool, accept, other, other_tried),
        0 <= k < run.len(),
        k < other.len(),
    ensures
        run[k] == other[k],
    decreases k,
{
    if k == 0 {
        law_greedy_is_unique(p, run[0].x, other[0].x);
    } else {
        lemma_runs_agree(
            annealer,
            p,
            evaluate,
            cool,
            accept,
            run,
            tried,
            other,
            other_tried,
            k - 1,
        );
        let a = run[k - 1];
        let n = p.relevance.len() as usize;
        let y = flipped(a.x, drawn(a.rng, n) as int);
        let e = tried[k - 1];
        let f = other_tried[k - 1];
        assert(is_step(annealer, p, evaluate, cool, accept, a, run[k - 1 + 1], e));
        assert(is_step(annealer, p, evaluate, cool, accept, a, other[k - 1 + 1], f));
        assert(e == f);
    }
}

/// A fixed seed gives a fixed answer: two searches of the same problem by the
/// same annealer end with the same choice, if the functions they ask give the
/// same answer whenever they are asked the same.
pub proof fn law_same_seed_same_choice<
    E: Fn(&EnergyTerms) -> Single,
    C: Fn(SimulatedAnnealer, Single) -> Single,
    A: Fn(StdRng, Single, Single, Single) -> (StdRng, bool),
>(
    annealer: SimulatedAnnealer,
    p: ProblemView,
    evaluate: E,
    cool: C,
    accept: A,
    x: Seq<bool>,
    y: Seq<bool>,
)
    requires
        answer_alike(evaluate, cool, accept),
        is_solution(annealer, p, evaluate, cool, accept, x),
        is_solution(annealer, p, evaluate, cool, accept, y),
    ensures
        x == y,
{
    if p.relevance.len() == 0 {
        assert(x =~= y);
    } else {
        let (run, tried) = choose|run: Seq<RunState>, tried: Seq<Single>|
            {
                &&& #[trigger] is_run(annealer, p, evaluate, cool, accept, run, tried)
                &&& tried.len() == annealer.steps
                &&& x == run[best_at(run)].x
            };
        let (other, other_tried) = choose|run: Seq<RunState>, tried: Seq<Single>|
            {
                &&& #[trigger] is_run(annealer, p, evaluate, cool, accept, run, tried)
                &&& tried.len() == annealer.steps
                &&& y == run[best_at(run)].x
            };
        assert forall|i: int| 0 <= i < run.len() implies run[i] == other[i] by {
            lemma_runs_agree(
                annealer,
                p,
                evaluate,
                cool,
                accept,
                run,
                tried,
                other,
                other_tried,
                i,
            );
        }
        assert(run =~= other);
    }
}

/// Filling keeps the number of items.
proof fn lemma_filled_len(p: ProblemView, order: Seq<usize>, k: int)
    requires
        order::is_stable_descending(p.relevance, order),
        k <= order.len(),
    ensures
        filled(p, order, k).0.len() == p.relevance.len(),
    decreases k,
{
    if k > 0 {
        lemma_filled_len(p, order, k - 1);
    }
}

/// Every state of a search is a choice among all items.
proof fn lemma_run_lengths<
    E: Fn(&EnergyTerms) -> Single,
    C: Fn(SimulatedAnnealer, Single) -> Single,
    A: Fn(StdRng, Single, Single, Single) -> (StdRng, bool),
>(
    annealer: SimulatedAnnealer,
    p: ProblemView,
    evaluate: E,
    cool: C,
    accept: A,
    run: Seq<RunState>,
    tried: Seq<Single>,
    k: int,
)
    requires
        is_run(annealer, p, evaluate, cool, accept, run, tried),
        0 <= k < run.len(),
    ensures
        run[k].x.len() == p.relevance.len(),
    decreases k,
{
    if k == 0 {
        let order = choose|order: Seq<usize>| #[trigger]
            order::is_stable_descending(p.relevance, order) && run[0].x == filled(
                p,
                order,
                p.relevance.len() as int,
            ).0;
        lemma_filled_len(p, order, p.relevance.len() as int);
    } else {
        lemma_run_lengths(annealer, p, evaluate, cool, accept, run, tried, k - 1);
        let e = tried[k - 1];
        assert(is_step(annealer, p, evaluate, cool, accept, run[k - 1], run[k - 1 + 1], e));
    }
}

/// The choice returned says yes or no to each item.
pub proof fn lemma_solution_len<
    E: Fn(&EnergyTerms) -> Single,
    C: Fn(SimulatedAnnealer, Single) -> Single,
    A: Fn(StdRng, Single, Single, Single) -> (StdRng, bool),
>(
    annealer: SimulatedAnnealer,
    p: ProblemView,
    evaluate: E,
    cool: C,
    accept: A,
    x: Seq<bool>,
)
    requires
        is_solution(annealer, p, evaluate, cool, accept, x),
    ensures
        x.len() == p.relevance.len(),
{
    if p.relevance.len() > 0 {
        let (run, tried) = choose|run: Seq<RunState>, tried: Seq<Single>|
            {
                &&& #[trigger] is_run(annealer, p, evaluate, cool, accept, run, tried)
                &&& tried.len() == annealer.steps
                &&& x == run[best_at(run)].x
            };
        lemma_best_at(run);
        lemma_run_lengths(annealer, p, evaluate, cool, accept, run, tried, best_at(run));
    }
}

/// How many of a choice are taken.
pub open spec fn count_taken(x: Seq<bool>) -> int
    decreases x.len(),
{
    if x.len() == 0 {
        0
    } else {
        count_taken(x.drop_last()) + if x.last() {
            1int
        } else {
            0
        }
    }
}

/// Which members of `values` are chosen, by their places.
pub proof fn lemma_chosen_at<T>(values: Seq<T>, x: Seq<bool>) -> (at: Seq<int>)
    ensures
        at.len() == chosen(values, x).len(),
        at.len() == count_taken(x),
        forall|k: int|
            #![trigger at[k]]
            0 <= k < at.len() ==> 0 <= at[k] < x.len() && x[at[k]] && chosen(values, x)[k]
                == values[at[k]],
        forall|k: int, l: int|
            #![trigger at[k], at[l]]
            0 <= k < l < at.len() ==> at[k] < at[l],
        forall|i: int| #![trigger x[i]] 0 <= i < x.len() && x[i] ==> at.contains(i),
    decreases x.len(),
{
    if x.len() == 0 {
        Seq::empty()
    } else {
        let init = x.drop_last();
        let n = x.len() - 1;
        let before = lemma_chosen_at(values, init);
        let at = if x.last() {
            before.push(n)
        } else {
            before
        };
        assert forall|k: int| #![trigger at[k]] 0 <= k < at.len() implies 0 <= at[k] < x.len()
            && x[at[k]] && chosen(values, x)[k] == values[at[k]] by {
            if k < before.len() {
                assert(at[k] == before[k]);
                assert(init[before[k]] == x[before[k]]);
            }
        }
        assert forall|i: int| #![trigger x[i]] 0 <= i < x.len() && x[i] implies at.contains(i) by {
            if i < n {
                assert(init[i] == x[i]);
                assert(before.contains(i));
                let k = choose|k: int| 0 <= k < before.len() && before[k] == i;
                assert(at[k] == i);
            } else {
                assert(at[before.len() as int] == i);
            }
        }
        at
    }
}

/// What stands behind a place in a row and is chosen.
proof fn lemma_chosen_behind(row: Seq<Single>, x: Seq<bool>, i: int)
    requires
        0 <= i < x.len(),
    ensures
        chosen_behind(row, x, i).len() == count_taken(x) - count_taken(x.take(i + 1)),
        forall|j: int|
            #![trigger x[j]]
            i < j < x.len() && x[j] ==> chosen_behind(row, x, i).contains(row[j]),
    decreases x.len(),
{
    let init = x.drop_last();
    let n = x.len() - 1;
    if i == n {
        assert(x.take(i + 1) =~= x);
    } else {
        lemma_chosen_behind(row, init, i);
        assert(init.take(i + 1) =~= x.take(i + 1));
        let before = chosen_behind(row, init, i);
        let all = chosen_behind(row, x, i);
        assert forall|j: int| #![trigger x[j]] i < j < x.len() && x[j] implies all.contains(
            row[j],
        ) by {
            if j < n {
                assert(init[j] == x[j]);
                assert(before.contains(row[j]));
                let k = choose|k: int| 0 <= k < before.len() && before[k] == row[j];
                assert(all[k] == row[j]);
            } else {
                assert(all[before.len() as int] == row[j]);
            }
        }
    }
}

/// Each two that are chosen have their similarity in the list, and nothing else is
/// there.
proof fn lemma_chosen_pairs(similarity: Seq<Seq<Single>>, x: Seq<bool>, n: int)
    requires
        0 <= n <= x.len(),
    ensures
        2 * chosen_pairs(similarity, x, n).len() == count_taken(x.take(n)) * (2 * count_taken(x)
            - count_taken(x.take(n)) - 1),
        forall|i: int, j: int|
            #![trigger x[i], x[j]]
            0 <= i < n && i < j < x.len() && x[i] && x[j] ==> chosen_pairs(
                similarity,
                x,
                n,
            ).contains(similarity[i][j]),
    decreases n,
{
    if n == 0 {
        assert(x.take(0).len() == 0);
        assert(0 * (2 * count_taken(x) - 1) == 0) by (nonlinear_arith);
    } else {
        lemma_chosen_pairs(similarity, x, n - 1);
        assert(x.take(n).drop_last() =~= x.take(n - 1));
        let before = chosen_pairs(similarity, x, n - 1);
        let all = chosen_pairs(similarity, x, n);
        let c = count_taken(x.take(n - 1));
        let m = count_taken(x);
        let row = similarity[n - 1];
        lemma_chosen_behind(row, x, n - 1);
        if x[n - 1] {
            assert(c * (2 * m - c - 1) + 2 * (m - (c + 1)) == (c + 1) * (2 * m - (c + 1) - 1))
                by (nonlinear_arith);
        }
        assert forall|i: int, j: int|
            #![trigger x[i], x[j]]
            0 <= i < n && i < j < x.len() && x[i] && x[j] implies all.contains(
            similarity[i][j],
        ) by {
            if i < n - 1 {
                assert(before.contains(similarity[i][j]));
                let k = choose|k: int| 0 <= k < before.len() && before[k] == similarity[i][j];
                assert(all[k] == similarity[i][j]);
            } else {
                let behind = chosen_behind(row, x, n - 1);
                assert(behind.contains(row[j]));
                let k = choose|k: int| 0 <= k < behind.len() && behind[k] == row[j];
                assert(all[before.len() + k] == row[j]);
            }
        }
    }
}

/// The energy of a choice is made of the relevance of each chosen item, as they
/// stand; of the similarity of each two of them, once; and of the tokens that they
/// take beyond the budget.
pub proof fn law_energy_is_of_all_that_is_chosen(p: ProblemView, x: Seq<bool>)
    ensures
        exists|at: Seq<int>|
            {
                &&& #[trigger] at.len() == p.terms(x).relevance.len()
                &&& forall|k: int|
                    #![trigger at[k]]
                    0 <= k < at.len() ==> 0 <= at[k] < x.len() && x[at[k]] && p.terms(
                        x,
                    ).relevance[k] == p.relevance[at[k]]
                &&& forall|k: int, l: int|
                    #![trigger at[k], at[l]]
                    0 <= k < l < at.len() ==> at[k] < at[l]
                &&& forall|i: int| #![trigger x[i]] 0 <= i < x.len() && x[i] ==> at.contains(i)
            },
        2 * p.terms(x).similarity.len() == p.terms(x).relevance.len() * (p.terms(
            x,
        ).relevance.len() - 1),
        forall|i: int, j: int|
            #![trigger x[i], x[j]]
            0 <= i < j < x.len() && x[i] && x[j] ==> p.terms(x).similarity.contains(
                p.similarity[i][j],
            ),
        used_tokens(p.tokens, x) <= p.budget ==> p.terms(x).overflow == 0,
        p.budget < used_tokens(p.tokens, x) <= u128::MAX ==> p.terms(x).overflow == used_tokens(
            p.tokens,
            x,
        ) - p.budget,
        p.terms(x).lambda == p.lambda,
        p.terms(x).mu == p.mu,
{
    let at = lemma_chosen_at(p.relevance, x);
    let n = x.len() as int;
    let m = at.len() as int;
    assert(at.len() == p.terms(x).relevance.len());
    lemma_chosen_pairs(p.similarity, x, n);
    assert(x.take(n) =~= x);
    assert(m * (2 * m - m - 1) == m * (m - 1)) by (nonlinear_arith);
}

/// The tokens of a choice add up: nothing chosen takes none, and one item more
/// takes its own in addition.
pub proof fn law_tokens_add_up(tokens: Seq<usize>, x: Seq<bool>, i: int)
    requires
        0 <= i < x.len() <= tokens.len(),
        !x[i],
    ensures
        used_tokens(tokens, x.update(i, true)) == used_tokens(tokens, x) + tokens[i],
        (forall|k: int| 0 <= k < x.len() ==> !x[k]) ==> used_tokens(tokens, x) == 0,
{
    lemma_used_update(tokens, x, i);
    if forall|k: int| 0 <= k < x.len() ==> !x[k] {
        lemma_used_none(tokens, x);
    }
}

/// Item `j` comes before item `i`: it is more relevant, or as relevant and further
/// in front.
pub open spec fn goes_first(relevance: Seq<Single>, j: int, i: int) -> bool {
    relevance[j].key() > relevance[i].key() || (relevance[j].key() == relevance[i].key() && j < i)
}

/// The part of the choice `x` that comes before item `i`.
pub open spec fn chosen_first(relevance: Seq<Single>, x: Seq<bool>, i: int) -> Seq<bool> {
    Seq::new(x.len(), |j: int| x[j] && goes_first(relevance, j, i))
}

/// What is chosen on the way is what is chosen in the end, as far as it was passed.
proof fn lemma_filled_on_the_way(p: ProblemView, order: Seq<usize>, k: int, m: int)
    requires
        p.tokens.len() >= p.relevance.len(),
        order::is_stable_descending(p.relevance, order),
        0 <= k <= m <= order.len(),
    ensures
        forall|j: int|
            #![trigger order[j]]
            0 <= j < k ==> filled(p, order, k).0[order[j] as int] == filled(
                p,
                order,
                m,
            ).0[order[j] as int],
    decreases m - k,
{
    if k < m {
        lemma_filled_on_the_way(p, order, k, m - 1);
        lemma_filled(p, order, m - 1);
        let prior = order::descending(p.relevance);
        assert forall|j: int| #![trigger order[j]] 0 <= j < k implies filled(
            p,
            order,
            k,
        ).0[order[j] as int] == filled(p, order, m).0[order[j] as int] by {
            assert(prior(order[j] as int, order[m - 1] as int));
        }
    }
}

/// The greedy choice goes from the most to the least relevant item and takes each
/// that still fits into the budget beside what it took before, and no other.
pub proof fn law_greedy_takes_what_fits(p: ProblemView, x: Seq<bool>, i: int)
    requires
        p.tokens.len() >= p.relevance.len(),
        p.relevance.len() <= usize::MAX,
        is_greedy(p, x),
        0 <= i < p.relevance.len(),
    ensures
        x.len() == p.relevance.len(),
        x[i] <==> used_tokens(p.tokens, chosen_first(p.relevance, x, i)) + p.tokens[i] <= p.budget,
{
    let n = p.relevance.len() as int;
    let order = choose|order: Seq<usize>| #[trigger]
        order::is_stable_descending(p.relevance, order) && x == filled(p, order, n).0;
    lemma_filled(p, order, n);
    assert(order.contains(i as usize));
    let k = choose|k: int| 0 <= k < order.len() && order[k] == i as usize;
    let prior = order::descending(p.relevance);
    lemma_filled(p, order, k);
    lemma_filled_on_the_way(p, order, k, n);
    lemma_filled_on_the_way(p, order, k + 1, n);
    let before = filled(p, order, k).0;
    let first = chosen_first(p.relevance, x, i);
    assert forall|j: int| 0 <= j < n implies before[j] == first[j] by {
        assert(order.contains(j as usize));
        let l = choose|l: int| 0 <= l < order.len() && order[l] == j as usize;
        if l < k {
            assert(prior(order[l] as int, order[k] as int));
            assert(before[order[l] as int] == x[order[l] as int]);
        } else if k < l {
            assert(prior(order[k] as int, order[l] as int));
            assert(!before[order[l] as int]);
        } else {
            assert(!before[order[k] as int]);
        }
    }
    assert(before =~= first);
    assert(x[order[k] as int] == filled(p, order, k + 1).0[order[k] as int]);
    assert(!before[order[k] as int]);
}

/// Less than less is less.
proof fn lemma_lt_transitive(a: Single, b: Single, c: Single)
    requires
        a.lt(b),
        b.lt(c),
    ensures
        a.lt(c),
{
}

/// No state of a search has less energy than the best one, and the best one is the
/// first or has less energy than the first.
pub proof fn law_no_state_is_better_than_the_best(run: Seq<RunState>, i: int)
    requires
        0 <= i < run.len(),
    ensures
        0 <= best_at(run) < run.len(),
        !run[i].energy.lt(run[best_at(run)].energy),
        best_at(run) == 0 || run[best_at(run)].energy.lt(run[0].energy),
    decreases run.len(),
{
    if run.len() > 1 {
        let init = run.drop_last();
        let n = run.len() - 1;
        law_no_state_is_better_than_the_best(
            init,
            if i < n {
                i
            } else {
                0
            },
        );
        let b = best_at(init);
        if run.last().energy.lt(run[b].energy) {
            if i < n && run[i].energy.lt(run.last().energy) {
                lemma_lt_transitive(run[i].energy, run.last().energy, run[b].energy);
            }
            if b != 0 {
                lemma_lt_transitive(run.last().energy, run[b].energy, run[0].energy);
            }
        }
    }
}

/// A solution is the best state of a search that starts with the greedy choice and
/// makes as many steps as the annealer says. In each step one item is drawn and
/// turned over; the change stays where it lowers the energy, and where `accept`
/// says so otherwise. Each temperature is what `cool` makes of the one before it.
pub proof fn law_solution_is_searched_step_by_step<
    E: Fn(&EnergyTerms) -> Single,
    C: Fn(SimulatedAnnealer, Single) -> Single,
    A: Fn(StdRng, Single, Single, Single) -> (StdRng, bool),
>(
    annealer: SimulatedAnnealer,
    p: ProblemView,
    evaluate: E,
    cool: C,
    accept: A,
    x: Seq<bool>,
)
    requires
        p.relevance.len() > 0,
        is_solution(annealer, p, evaluate, cool, accept, x),
    ensures
        exists|run: Seq<RunState>, k: int|
            {
                &&& #[trigger] run.len() == annealer.steps + 1
                &&& run[0].rng == seeded_rng(annealer.seed)
                &&& run[0].temp == annealer.initial_temp
                &&& is_greedy(p, run[0].x)
                &&& 0 <= k < run.len()
                &&& x == #[trigger] run[k].x
                &&& forall|i: int|
                    #![trigger run[i]]
                    0 <= i < run.len() ==> has_energy(p, evaluate, run[i].x, run[i].energy)
                        && !run[i].energy.lt(run[k].energy)
                &&& forall|i: int|
                    0 <= i < run.len() - 1 ==> #[trigger] goes_on(
                        annealer,
                        p,
                        evaluate,
                        cool,
                        accept,
                        run,
                        i,
                    )
            },
{
    let (run, tried) = choose|run: Seq<RunState>, tried: Seq<Single>|
        {
            &&& #[trigger] is_run(annealer, p, evaluate, cool, accept, run, tried)
            &&& tried.len() == annealer.steps
            &&& x == run[best_at(run)].x
        };
    let k = best_at(run);
    law_no_state_is_better_than_the_best(run, 0);
    assert forall|i: int| #![trigger run[i]] 0 <= i < run.len() implies has_energy(
        p,
        evaluate,
        run[i].x,
        run[i].energy,
    ) && !run[i].energy.lt(run[k].energy) by {
        law_no_state_is_better_than_the_best(run, i);
        lemma_run_energies(annealer, p, evaluate, cool, accept, run, tried, i);
    }
    assert forall|i: int| 0 <= i < run.len() - 1 implies #[trigger] goes_on(
        annealer,
        p,
        evaluate,
        cool,
        accept,
        run,
        i,
    ) by {
        let e = tried[i];
        assert(is_step(annealer, p, evaluate, cool, accept, run[i], run[i + 1], e));
        let n = p.relevance.len() as usize;
        let at = drawn(run[i].rng, n) as int;
        let y = turned_over(run[i].x, at);
        assert(y == flipped(run[i].x, at));
        assert(is_energy(p, y, evaluate, e));
        assert(has_energy(p, evaluate, y, e));
    }
    assert(run.len() == annealer.steps + 1);
    assert(x == run[k].x);
}

/// `e` is what `evaluate` makes of the relevance, the similarities and the tokens
/// of the choice `x`.
pub open spec fn has_energy<E: Fn(&EnergyTerms) -> Single>(
    p: ProblemView,
    evaluate: E,
    x: Seq<bool>,
    e: Single,
) -> bool {
    exists|terms: EnergyTerms|
        {
            &&& #[trigger] call_ensures(evaluate, (&terms,), e)
            &&& terms.relevance@ == p.terms(x).relevance
            &&& terms.similarity@ == p.terms(x).similarity
            &&& terms.overflow == p.terms(x).overflow
            &&& terms.lambda == p.lambda
            &&& terms.mu == p.mu
        }
}

/// The choice `x` with the item at `at` turned over.
pub open spec fn turned_over(x: Seq<bool>, at: int) -> Seq<bool> {
    if x[at] {
        x.update(at, false)
    } else {
        x.update(at, true)
    }
}

/// One item is drawn and turned over, and the change is taken or not.
pub open spec fn goes_on<
    E: Fn(&EnergyTerms) -> Single,
    C: Fn(SimulatedAnnealer, Single) -> Single,
    A: Fn(StdRng, Single, Single, Single) -> (StdRng, bool),
>(
    annealer: SimulatedAnnealer,
    p: ProblemView,
    evaluate: E,
    cool: C,
    accept: A,
    run: Seq<RunState>,
    i: int,
) -> bool {
    let n = p.relevance.len() as usize;
    let at = drawn(run[i].rng, n) as int;
    let y = turned_over(run[i].x, at);
    let rng = after_draw(run[i].rng, n);
    &&& 0 <= at < n
    &&& call_ensures(cool, (annealer, run[i].temp), run[i + 1].temp)
    &&& exists|e: Single|
        {
            &&& #[trigger] has_energy(p, evaluate, y, e)
            &&& e.lt(run[i].energy) ==> run[i + 1].x == y && run[i + 1].energy == e && run[i
                + 1].rng == rng
            &&& !e.lt(run[i].energy) ==> {
                ||| run[i + 1].x == y && run[i + 1].energy == e && call_ensures(
                    accept,
                    (rng, e, run[i].energy, run[i].temp),
                    (run[i + 1].rng, true),
                )
                ||| run[i + 1].x == run[i].x && run[i + 1].energy == run[i].energy && call_ensures(
                    accept,
                    (rng, e, run[i].energy, run[i].temp),
                    (run[i + 1].rng, false),
                )
            }
        }
}

/// What goes beyond the budget is never chosen where that does not pay: a solution
/// keeps to the budget if no choice beyond it has less energy than one within it.
pub proof fn law_solution_keeps_to_budget<
    E: Fn(&EnergyTerms) -> Single,
    C: Fn(SimulatedAnnealer, Single) -> Single,
    A: Fn(StdRng, Single, Single, Single) -> (StdRng, bool),
>(
    annealer: SimulatedAnnealer,
    p: ProblemView,
    evaluate: E,
    cool: C,
    accept: A,
    x: Seq<bool>,
)
    requires
        p.tokens.len() >= p.relevance.len(),
        p.relevance.len() <= usize::MAX,
        excess_never_pays(evaluate),
        is_solution(annealer, p, evaluate, cool, accept, x),
    ensures
        x.len() == p.relevance.len(),
        used_tokens(p.tokens, x) <= p.budget,
{
    lemma_solution_len(annealer, p, evaluate, cool, accept, x);
    if p.relevance.len() > 0 {
        let (run, tried) = choose|run: Seq<RunState>, tried: Seq<Single>|
            {
                &&& #[trigger] is_run(annealer, p, evaluate, cool, accept, run, tried)
                &&& tried.len() == annealer.steps
                &&& x == run[best_at(run)].x
            };
        let k = best_at(run);
        law_no_state_is_better_than_the_best(run, 0);
        law_greedy_keeps_to_budget(p, run[0].x);
        if k > 0 && used_tokens(p.tokens, x) > p.budget {
            lemma_run_energies(annealer, p, evaluate, cool, accept, run, tried, k);
            let a = choose|terms: EnergyTerms|
                terms@ == p.terms(x) && #[trigger] call_ensures(
                    evaluate,
                    (&terms,),
                    run[k].energy,
                );
            let b = choose|terms: EnergyTerms|
                terms@ == p.terms(run[0].x) && #[trigger] call_ensures(
                    evaluate,
                    (&terms,),
                    run[0].energy,
                );
            lemma_used_bound(p.tokens, x);
            assert(x.len() * usize::MAX <= u128::MAX) by (nonlinear_arith)
                requires
                    x.len() <= usize::MAX,
                    usize::MAX <= u64::MAX,
            ;
            assert(a.overflow == p.terms(x).overflow);
            assert(a.overflow > 0);
            assert(b.overflow == 0);
        }
    }
}

/// No choice beyond the budget has less energy than one within it.
pub open spec fn excess_never_pays<E: Fn(&EnergyTerms) -> Single>(evaluate: E) -> bool {
    forall|a: EnergyTerms, b: EnergyTerms, e: Single, d: Single|
        a.overflow > 0 && b.overflow == 0 && #[trigger] call_ensures(evaluate, (&a,), e)
            && #[trigger] call_ensures(evaluate, (&b,), d) ==> !e.lt(d)
}

/// A solution that is found keeps to the budget if no choice beyond it has less
/// energy than one within it.
pub proof fn law_found_solution_keeps_to_budget<
    E: Fn(&EnergyTerms) -> Single,
    C: Fn(SimulatedAnnealer, Single) -> Single,
    A: Fn(StdRng, Single, Single, Single) -> (StdRng, bool),
>(
    annealer: &SimulatedAnnealer,
    problem: &QuboProblem,
    evaluate: &E,
    cool: &C,
    accept: &A,
    r: Vec<bool>,
)
    requires
        call_ensures(
            SimulatedAnnealer::solve::<E, C, A>,
            (annealer, problem, evaluate, cool, accept),
            r,
        ),
        problem@.wf(),
        problem@.relevance.len() <= usize::MAX,
        excess_never_pays(*evaluate),
    ensures
        r@.len() == problem@.relevance.len(),
        used_tokens(problem@.tokens, r@) <= problem@.budget,
{
    law_solution_keeps_to_budget(*annealer, problem@, *evaluate, *cool, *accept, r@);
}

/// The greedy choice takes, from the most to the least relevant item, each that
/// still fits, and no other.
pub proof fn law_greedy_choice_takes_what_fits(problem: &QuboProblem, r: Vec<bool>, i: int)
    requires
        call_ensures(greedy_init, (problem,), r),
        problem@.tokens.len() >= problem@.relevance.len(),
        problem@.relevance.len() <= usize::MAX,
        0 <= i < problem@.relevance.len(),
    ensures
        r@[i] <==> used_tokens(problem@.tokens, chosen_first(problem@.relevance, r@, i))
            + problem@.tokens[i] <= problem@.budget,
{
    law_greedy_takes_what_fits(problem@, r@, i);
}

/// The energy of a choice has as many relevances as items are chosen, a similarity
/// for each two of them, and what they take beyond the budget.
pub proof fn law_energy_counts_what_is_chosen(problem: &QuboProblem, x: &Vec<bool>, r: EnergyTerms)
    requires
        call_ensures(QuboProblem::energy, (problem, x), r),
    ensures
        2 * r.similarity@.len() == r.relevance@.len() * (r.relevance@.len() - 1),
        forall|i: int|
            #![trigger x@[i]]
            0 <= i < x@.len() && x@[i] ==> r.relevance@.contains(problem@.relevance[i]),
        used_tokens(problem@.tokens, x@) <= problem@.budget ==> r.overflow == 0,
        problem@.budget < used_tokens(problem@.tokens, x@) <= u128::MAX ==> r.overflow
            == used_tokens(problem@.tokens, x@) - problem@.budget,
        r.lambda == problem@.lambda,
        r.mu == problem@.mu,
{
    let p = problem@;
    law_energy_is_of_all_that_is_chosen(p, x@);
    assert(r@ == p.terms(x@));
    let at = lemma_chosen_at(p.relevance, x@);
    assert forall|i: int| #![trigger x@[i]] 0 <= i < x@.len() && x@[i] implies {
        r.relevance@.contains(p.relevance[i])
    } by {
        assert(at.contains(i));
        let k = choose|k: int| 0 <= k < at.len() && at[k] == i;
        assert(r.relevance@[k] == p.relevance[i]);
    }
}

} // verus!
