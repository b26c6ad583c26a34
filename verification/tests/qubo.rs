use rand::rngs::StdRng;
use rand::{Rng, SeedableRng};
use rand_chacha::ChaCha8Rng;
use rand_distr::{Distribution, Uniform};
use rpgrep::search::qubo::{greedy_init, EnergyTerms, QuboProblem, SimulatedAnnealer};
use rpgrep::single::Single;

fn single(v: f32) -> Single {
    Single { bits: v.to_bits() }
}

fn value(s: Single) -> f32 {
    f32::from_bits(s.bits)
}

struct Floats {
    relevance: Vec<f32>,
    similarity: Vec<Vec<f32>>,
    tokens: Vec<usize>,
    budget: usize,
    lambda: f32,
    mu: f32,
}

impl Floats {
    fn problem(&self) -> QuboProblem {
        QuboProblem {
            relevance: self.relevance.iter().map(|v| single(*v)).collect(),
            similarity: self
                .similarity
                .iter()
                .map(|row| row.iter().map(|v| single(*v)).collect())
                .collect(),
            tokens: self.tokens.clone(),
            budget: self.budget,
            lambda: single(self.lambda),
            mu: single(self.mu),
        }
    }

    fn energy(&self, x: &[bool]) -> f32 {
        let mut e: f32 = 0.0;
        for (i, &xi) in x.iter().enumerate() {
            if xi {
                e -= self.relevance[i];
            }
        }
        for i in 0..x.len() {
            for j in (i + 1)..x.len() {
                if x[i] && x[j] {
                    e += self.lambda * self.similarity[i][j];
                }
            }
        }
        let used: i64 = x.iter().zip(&self.tokens).map(|(&xi, &t)| if xi { t as i64 } else { 0 }).sum();
        let overflow = (used - self.budget as i64).max(0) as f32;
        e + self.mu * overflow * overflow
    }

    fn greedy(&self) -> Vec<bool> {
        let mut order: Vec<usize> = (0..self.relevance.len()).collect();
        order.sort_by(|&a, &b| self.relevance[b].partial_cmp(&self.relevance[a]).unwrap());
        let mut x = vec![false; self.relevance.len()];
        let mut used = 0;
        for i in order {
            if used + self.tokens[i] <= self.budget {
                x[i] = true;
                used += self.tokens[i];
            }
        }
        x
    }

    /// The search written out with floating-point numbers throughout.
    fn solve(&self, seed: u64, steps: usize) -> Vec<bool> {
        let n = self.relevance.len();
        let mut rng = StdRng::seed_from_u64(seed);
        let uniform = Uniform::new(0.0_f32, 1.0_f32).unwrap();
        let mut x = self.greedy();
        let mut best_x = x.clone();
        let mut best_e = self.energy(&x);
        let mut cur_e = best_e;
        let alpha = (0.01f32 / 5.0).powf(1.0 / steps.max(1) as f32);
        let mut temp = 5.0f32;
        for _ in 0..steps {
            let idx = rng.random_range(0..n);
            x[idx] = !x[idx];
            let new_e = self.energy(&x);
            let delta = new_e - cur_e;
            if delta < 0.0 || uniform.sample(&mut rng) < (-delta / temp).exp() {
                cur_e = new_e;
                if cur_e < best_e {
                    best_e = cur_e;
                    best_x = x.clone();
                }
            } else {
                x[idx] = !x[idx];
            }
            temp *= alpha;
        }
        best_x
    }
}

fn evaluate(t: &EnergyTerms) -> Single {
    let mut e: f32 = 0.0;
    for r in &t.relevance {
        e -= value(*r);
    }
    for s in &t.similarity {
        e += value(t.lambda) * value(*s);
    }
    let overflow = t.overflow as f32;
    single(e + value(t.mu) * overflow * overflow)
}

fn accept(mut rng: StdRng, new: Single, cur: Single, temp: Single) -> (StdRng, bool) {
    let uniform = Uniform::new(0.0_f32, 1.0_f32).unwrap();
    let delta = value(new) - value(cur);
    let taken = uniform.sample(&mut rng) < (-delta / value(temp)).exp();
    (rng, taken)
}

fn cool(annealer: SimulatedAnnealer, temp: Single) -> Single {
    let ratio = value(annealer.final_temp) / value(annealer.initial_temp);
    single(value(temp) * ratio.powf(1.0 / annealer.steps.max(1) as f32))
}

fn solve(solver: &SimulatedAnnealer, problem: &QuboProblem) -> Vec<bool> {
    solver.solve(problem, &evaluate, &cool, &accept)
}

fn energy(problem: &QuboProblem, x: &Vec<bool>) -> f32 {
    value(evaluate(&problem.energy(x)))
}

#[test]
fn respects_budget_approximately() {
    let n = 5;
    let problem = Floats {
        relevance: vec![1.0, 0.8, 0.6, 0.9, 0.5],
        similarity: vec![vec![0.0; n]; n],
        tokens: vec![100, 200, 150, 250, 100],
        budget: 400,
        lambda: 1.0,
        mu: 0.01,
    }
    .problem();
    let x = solve(&SimulatedAnnealer::default(), &problem);
    let used: usize = x.iter().zip(&problem.tokens).map(|(&xi, &t)| if xi { t } else { 0 }).sum();
    assert!(used <= problem.budget + 50, "too many tokens: {used}");
}

#[test]
fn prefers_diverse_chunks_over_redundant_ones() {
    let n = 3;
    let mut similarity = vec![vec![0.0_f32; n]; n];
    similarity[0][1] = 0.95;
    similarity[1][0] = 0.95;
    let problem = Floats {
        relevance: vec![0.9, 0.85, 0.7],
        similarity,
        tokens: vec![100, 100, 100],
        budget: 250,
        lambda: 2.0,
        mu: 0.01,
    }
    .problem();
    let x = solve(&SimulatedAnnealer::default(), &problem);
    assert!(!(x[0] && x[1]), "both of two redundant items were taken");
    assert!(x[2], "the different item was not taken");
}

fn random_problem(n: usize, seed: u64) -> Floats {
    let mut rng = ChaCha8Rng::seed_from_u64(seed);
    let relevance: Vec<f32> = (0..n).map(|_| rng.random::<f32>()).collect();
    let tokens: Vec<usize> = (0..n).map(|i| 50 + (i * 7) % 80).collect();
    let mut similarity = vec![vec![0.0_f32; n]; n];
    for i in 0..n {
        for j in (i + 1)..n {
            let s = rng.random::<f32>() * 0.3;
            similarity[i][j] = s;
            similarity[j][i] = s;
        }
    }
    Floats {
        relevance,
        similarity,
        tokens,
        budget: 600,
        lambda: 0.5,
        mu: 0.001,
    }
}

#[test]
fn annealer_is_deterministic_with_fixed_seed() {
    let problem = random_problem(30, 0xDEAD_BEEF).problem();
    let assignment_a = solve(&SimulatedAnnealer::default(), &problem);
    let assignment_b = solve(&SimulatedAnnealer::default(), &problem);
    assert_eq!(assignment_a, assignment_b);
    let e_a = energy(&problem, &assignment_a);
    let e_b = energy(&problem, &assignment_b);
    assert_eq!(e_a.to_bits(), e_b.to_bits());
}

#[test]
fn budget_overflow_is_tolerated_when_energy_drops() {
    let problem = Floats {
        relevance: vec![1.0, 0.6],
        similarity: vec![vec![0.0, 0.0], vec![0.0, 0.0]],
        tokens: vec![100, 50],
        budget: 100,
        lambda: 1.0,
        mu: 0.0001,
    }
    .problem();
    let only_first = vec![true, false];
    let both = vec![true, true];
    assert!(energy(&problem, &both) < energy(&problem, &only_first));
    let assignment = solve(&SimulatedAnnealer::default(), &problem);
    assert_eq!(assignment, vec![true, true]);
}

#[test]
fn the_search_agrees_with_its_floating_point_form() {
    for seed in [1u64, 2, 3] {
        let floats = random_problem(20, seed);
        let problem = floats.problem();
        assert_eq!(greedy_init(&problem), floats.greedy());
        let solver = SimulatedAnnealer::default();
        assert_eq!(solve(&solver, &problem), floats.solve(solver.seed, solver.steps));
        let other = SimulatedAnnealer { steps: 137, seed: 99, ..solver };
        assert_eq!(solve(&other, &problem), floats.solve(99, 137));
    }
}

#[test]
fn the_answer_is_no_worse_than_the_greedy_one() {
    for seed in 10..20u64 {
        let problem = random_problem(15, seed).problem();
        let start = energy(&problem, &greedy_init(&problem));
        let found = energy(&problem, &solve(&SimulatedAnnealer::default(), &problem));
        assert!(found <= start);
    }
}

#[test]
fn greedy_takes_what_fits_most_relevant_first() {
    let floats = Floats {
        relevance: vec![0.5, 0.9, 0.9, 0.1],
        similarity: vec![vec![0.0; 4]; 4],
        tokens: vec![30, 60, 50, 40],
        budget: 100,
        lambda: 1.0,
        mu: 1.0,
    };
    // 60, then not 50, then 30, then not 40.
    assert_eq!(greedy_init(&floats.problem()), vec![true, true, false, false]);
    let mut huge = floats.problem();
    huge.budget = usize::MAX;
    huge.tokens = vec![usize::MAX, 1, 1, usize::MAX];
    assert_eq!(greedy_init(&huge), vec![false, true, true, false]);
}

#[test]
fn energy_terms_are_those_of_the_choice() {
    let mut similarity = vec![vec![single(0.0); 3]; 3];
    similarity[0][1] = single(0.25);
    similarity[0][2] = single(0.5);
    similarity[1][2] = single(0.75);
    let problem = QuboProblem {
        relevance: vec![single(1.0), single(2.0), single(4.0)],
        similarity: similarity.clone(),
        tokens: vec![10, 20, 40],
        budget: 45,
        lambda: single(0.5),
        mu: single(0.25),
    };
    let all = problem.energy(&vec![true, true, true]);
    assert_eq!(all.relevance, vec![single(1.0), single(2.0), single(4.0)]);
    assert_eq!(all.similarity, vec![similarity[0][1], similarity[0][2], similarity[1][2]]);
    assert_eq!(all.overflow, 25);
    assert_eq!((all.lambda, all.mu), (single(0.5), single(0.25)));
    // -7 + 0.5 * 1.5 + 0.25 * 625
    assert_eq!(energy(&problem, &vec![true, true, true]), 150.0);
    let some = problem.energy(&vec![true, false, true]);
    assert_eq!(some.similarity, vec![similarity[0][2]]);
    assert_eq!(some.overflow, 5);
    let few = problem.energy(&vec![false, true, false]);
    assert!(few.similarity.is_empty());
    assert_eq!(few.overflow, 0);
    assert_eq!(problem.energy(&vec![]).relevance, vec![]);
}

#[test]
fn nothing_to_choose_from() {
    let problem = Floats {
        relevance: vec![],
        similarity: vec![],
        tokens: vec![],
        budget: 10,
        lambda: 1.0,
        mu: 1.0,
    }
    .problem();
    assert!(solve(&SimulatedAnnealer::default(), &problem).is_empty());
    let solver = SimulatedAnnealer { steps: 0, ..SimulatedAnnealer::default() };
    let one = random_problem(4, 5).problem();
    assert_eq!(solve(&solver, &one), greedy_init(&one));
}

#[test]
fn default_settings() {
    let d = SimulatedAnnealer::default();
    assert_eq!(value(d.initial_temp), 5.0);
    assert_eq!(value(d.final_temp), 0.01);
    assert_eq!(d.steps, 5_000);
    assert_eq!(d.seed, 0xC0DE_F00D);
}

#[test]
fn the_final_temperature_steers_the_search() {
    let floats = random_problem(20, 7);
    let problem = floats.problem();
    let seen = |final_temp: f32| {
        let solver = SimulatedAnnealer { final_temp: single(final_temp), ..SimulatedAnnealer::default() };
        let asked = std::cell::Cell::new(0.0_f32);
        let watched = |a: SimulatedAnnealer, t: Single| {
            let next = cool(a, t);
            asked.set(value(next));
            next
        };
        solver.solve(&problem, &evaluate, &watched, &accept);
        asked.get()
    };
    assert!((seen(0.01) - 0.01).abs() < 0.001);
    assert!((seen(1.0) - 1.0).abs() < 0.01);
}

#[test]
fn an_energy_that_is_not_a_number_is_no_improvement() {
    let mut problem = random_problem(6, 11).problem();
    problem.budget = usize::MAX;
    let greedy = greedy_init(&problem);
    let n = greedy.len();
    let odd = |t: &EnergyTerms| {
        if t.relevance.len() == n {
            single(0.0)
        } else {
            Single { bits: 0xFFC0_0000 }
        }
    };
    let solver = SimulatedAnnealer::default();
    assert_eq!(solver.solve(&problem, &odd, &cool, &accept), greedy);
}

#[test]
fn similarities_may_be_negative_and_lists_longer_or_shorter() {
    let problem = QuboProblem {
        relevance: vec![single(1.0), single(2.0)],
        similarity: vec![vec![single(0.0), single(-0.5), single(9.0)]],
        tokens: vec![10],
        budget: 4,
        lambda: single(2.0),
        mu: single(1.0),
    };
    // -3 + 2 * -0.5 + 36: the second item has no entry among the tokens.
    assert_eq!(energy(&problem, &vec![true, true]), 32.0);
    assert_eq!(energy(&problem, &vec![false, true, false, false]), -2.0);
}
