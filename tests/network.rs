use std::cell::Cell;

use tiny_nn::nn::{cost, descend, finite_diff, forward, train, Arith, ModelParams};

type Ops = Arith<
    f32,
    fn(f32, f32) -> f32,
    fn(f32, f32) -> f32,
    fn(f32) -> f32,
    fn(f32, f32) -> f32,
    fn(f32, usize) -> f32,
>;

fn mul(a: f32, b: f32) -> f32 {
    a * b
}

fn plus(a: f32, b: f32) -> f32 {
    a + b
}

fn logistic(x: f32) -> f32 {
    1.0 / (1.0 + (-x).exp())
}

fn sq_err(g: f32, y: f32) -> f32 {
    (g - y) * (g - y)
}

fn mean(total: f32, n: usize) -> f32 {
    total / (n as f32)
}

fn ops() -> Ops {
    Arith { zero: 0.0, mul, plus, act: logistic, sq_err, mean }
}

fn rows(v: &[&[f32]]) -> Vec<Vec<f32>> {
    v.iter().map(|r| r.to_vec()).collect()
}

/// A fixed pseudo-random stream in [0, 1), so that training runs repeat.
fn seeded(seed: u32) -> impl Fn() -> f32 {
    let state = Cell::new(seed);
    move || {
        let s = state.get().wrapping_mul(1664525).wrapping_add(1013904223);
        state.set(s);
        (s >> 8) as f32 / (1u32 << 24) as f32
    }
}

fn all_params(p: &ModelParams<f32>) -> Vec<f32> {
    let s = p.structure();
    let mut out = Vec::new();
    for l in 0..s.len() - 1 {
        for j in 0..s[l] {
            for k in 0..s[l + 1] {
                out.push(p.param(false, l, j, k));
            }
        }
        for k in 0..s[l + 1] {
            out.push(p.param(true, l, 0, k));
        }
    }
    out
}

fn run(
    m: ModelParams<f32>,
    ins: &Vec<Vec<f32>>,
    outs: &Vec<Vec<f32>>,
    iterations: usize,
    eps: f32,
    rate: f32,
) -> (ModelParams<f32>, Vec<f32>) {
    let nudge = move |x: f32| x + eps;
    let slope = move |c1: f32, c0: f32| (c1 - c0) / eps;
    let step = move |p: f32, g: f32| p - rate * g;
    train(&m, ins, outs, &ops(), &nudge, &slope, &step, iterations).unwrap()
}

#[test]
fn new_recovers_its_structure() {
    for s in [vec![2usize, 1], vec![2, 2, 1], vec![3, 5, 4, 2]] {
        let p = ModelParams::new(&s, 0.0f32).unwrap();
        assert_eq!(p.structure(), s);
        assert!(all_params(&p).iter().all(|v| *v == 0.0));
    }
}

#[test]
fn new_rejects_fewer_than_two_widths() {
    assert!(ModelParams::new(&vec![], 0.0f32).is_none());
    assert!(ModelParams::new(&vec![4], 0.0f32).is_none());
}

#[test]
fn randomize_keeps_structure_and_draws_in_range() {
    let mut p = ModelParams::new(&vec![2, 3, 1], 0.0f32).unwrap();
    let draw = || rand::random::<f32>() * 2.0 - 1.0;
    p.randomize(&draw);
    assert_eq!(p.structure(), vec![2, 3, 1]);
    let v = all_params(&p);
    assert_eq!(v.len(), 2 * 3 + 3 + 3 * 1 + 1);
    assert!(v.iter().all(|x| *x >= -1.0 && *x < 1.0));
}

#[test]
fn set_param_changes_one_entry() {
    let mut p = ModelParams::new(&vec![2, 2], 0.0f32).unwrap();
    p.set_param(false, 0, 1, 0, 3.0);
    p.set_param(true, 0, 0, 1, -1.0);
    assert_eq!(all_params(&p), vec![0.0, 0.0, 3.0, 0.0, 0.0, -1.0]);
    let q = p.duplicate();
    assert_eq!(all_params(&q), all_params(&p));
}

#[test]
fn forward_of_zero_network_is_one_half() {
    let p = ModelParams::new(&vec![2, 1], 0.0f32).unwrap();
    for (x, y) in [(0.0f32, 0.0f32), (1.0, -3.0), (100.0, 7.5)] {
        assert_eq!(forward(&p, &vec![x, y], &ops()), vec![0.5]);
    }
}

#[test]
fn forward_applies_weights_and_biases() {
    let mut p = ModelParams::new(&vec![2, 1], 0.0f32).unwrap();
    p.set_param(false, 0, 0, 0, 2.0);
    p.set_param(false, 0, 1, 0, -1.0);
    p.set_param(true, 0, 0, 0, 0.5);
    let out = forward(&p, &vec![1.0, 3.0], &ops());
    assert_eq!(out, vec![logistic(2.0 * 1.0 - 1.0 * 3.0 + 0.5)]);
}

#[test]
fn forward_outputs_lie_strictly_between_zero_and_one() {
    let mut p = ModelParams::new(&vec![3, 4, 2], 0.0f32).unwrap();
    p.randomize(&seeded(7));
    let out = forward(&p, &vec![0.3, -2.0, 1.5], &ops());
    assert_eq!(out.len(), 2);
    assert!(out.iter().all(|v| *v > 0.0 && *v < 1.0));
}

#[test]
fn cost_divides_by_sample_count_only() {
    let p = ModelParams::new(&vec![1, 2], 0.0f32).unwrap();
    let ins = rows(&[&[3.0]]);
    let outs = rows(&[&[0.0, 0.0]]);
    assert_eq!(cost(&p, &ins, &outs, &ops()), Some(0.5));
}

#[test]
fn cost_of_zero_network_on_two_samples() {
    let p = ModelParams::new(&vec![2, 1], 0.0f32).unwrap();
    let ins = rows(&[&[0.0, 0.0], &[1.0, 1.0]]);
    let outs = rows(&[&[1.0], &[0.5]]);
    assert_eq!(cost(&p, &ins, &outs, &ops()), Some(0.125));
}

#[test]
fn cost_is_zero_on_an_exact_fit_and_never_negative() {
    let p = ModelParams::new(&vec![2, 1], 0.0f32).unwrap();
    let ins = rows(&[&[0.0, 1.0], &[4.0, 2.0]]);
    let exact = rows(&[&[0.5], &[0.5]]);
    assert_eq!(cost(&p, &ins, &exact, &ops()), Some(0.0));
    let off = rows(&[&[0.0], &[1.0]]);
    let c = cost(&p, &ins, &off, &ops()).unwrap();
    assert!(c > 0.0);
}

#[test]
fn cost_rejects_ill_shaped_training_sets() {
    let p = ModelParams::new(&vec![2, 1], 0.0f32).unwrap();
    let ops = ops();
    let good_in = rows(&[&[0.0, 0.0]]);
    let good_out = rows(&[&[0.0]]);
    assert!(cost(&p, &good_in, &good_out, &ops).is_some());
    assert!(cost(&p, &rows(&[]), &rows(&[]), &ops).is_none());
    assert!(cost(&p, &good_in, &rows(&[&[0.0], &[1.0]]), &ops).is_none());
    assert!(cost(&p, &rows(&[&[0.0]]), &good_out, &ops).is_none());
    assert!(cost(&p, &good_in, &rows(&[&[0.0, 1.0]]), &ops).is_none());
}

#[test]
fn finite_diff_is_the_forward_difference_quotient() {
    let mut p = ModelParams::new(&vec![2, 1], 0.0f32).unwrap();
    p.set_param(false, 0, 0, 0, 0.25);
    let ins = rows(&[&[1.0, 2.0]]);
    let outs = rows(&[&[1.0]]);
    let ops = ops();
    let eps = 0.5f32;
    let nudge = move |x: f32| x + eps;
    let slope = move |c1: f32, c0: f32| (c1 - c0) / eps;
    let g = finite_diff(&p, &ins, &outs, &ops, &nudge, &slope).unwrap();
    assert_eq!(g.structure(), vec![2, 1]);
    let c0 = cost(&p, &ins, &outs, &ops).unwrap();
    let coords = [(false, 0usize, 0usize), (false, 1, 0), (true, 0, 0)];
    for (bias, j, k) in coords {
        let mut q = p.duplicate();
        q.set_param(bias, 0, j, k, p.param(bias, 0, j, k) + eps);
        let c1 = cost(&q, &ins, &outs, &ops).unwrap();
        assert_eq!(g.param(bias, 0, j, k), (c1 - c0) / eps);
    }
    assert!(g.param(false, 0, 1, 0) < 0.0);
    assert_eq!(p.param(false, 0, 0, 0), 0.25);
}

#[test]
fn finite_diff_rejects_ill_shaped_training_sets() {
    let p = ModelParams::new(&vec![2, 1], 0.0f32).unwrap();
    let nudge = |x: f32| x + 0.1;
    let slope = |c1: f32, c0: f32| (c1 - c0) / 0.1;
    let r = finite_diff(&p, &rows(&[&[1.0]]), &rows(&[&[1.0]]), &ops(), &nudge, &slope);
    assert!(r.is_none());
}

#[test]
fn descend_moves_against_the_gradient() {
    let mut p = ModelParams::new(&vec![1, 1], 0.0f32).unwrap();
    p.set_param(false, 0, 0, 0, 1.0);
    p.set_param(true, 0, 0, 0, 2.0);
    let mut g = ModelParams::new(&vec![1, 1], 0.0f32).unwrap();
    g.set_param(false, 0, 0, 0, 0.5);
    g.set_param(true, 0, 0, 0, -4.0);
    let rate = 0.25f32;
    let step = move |x: f32, d: f32| x - rate * d;
    let r = descend(&p, &g, &step);
    assert_eq!(all_params(&r), vec![0.875, 3.0]);
    assert_eq!(all_params(&p), vec![1.0, 2.0]);
    assert_eq!(all_params(&g), vec![0.5, -4.0]);
}

#[test]
fn training_on_xor_lowers_the_cost() {
    let mut p = ModelParams::new(&vec![2, 2, 1], 0.0f32).unwrap();
    p.randomize(&seeded(42));
    let ins = rows(&[&[0.0, 0.0], &[0.0, 1.0], &[1.0, 0.0], &[1.0, 1.0]]);
    let outs = rows(&[&[0.0], &[1.0], &[1.0], &[0.0]]);
    let (_, costs) = run(p, &ins, &outs, 10000, 0.1, 1.0);
    assert_eq!(costs.len(), 10000);
    assert!(costs[9999] < costs[0]);
}

#[test]
fn training_on_or_orders_the_outputs() {
    let mut p = ModelParams::new(&vec![2, 1], 0.0f32).unwrap();
    p.randomize(&seeded(3));
    let ins = rows(&[&[0.0, 0.0], &[0.0, 1.0], &[1.0, 0.0], &[1.0, 1.0]]);
    let outs = rows(&[&[0.0], &[1.0], &[1.0], &[1.0]]);
    let (m, costs) = run(p, &ins, &outs, 2000, 0.1, 1.0);
    assert!(costs[1999] < costs[0]);
    let ops = ops();
    let hi = forward(&m, &vec![1.0, 1.0], &ops)[0];
    let lo = forward(&m, &vec![0.0, 0.0], &ops)[0];
    assert!((1.0 - hi).abs() < (1.0 - lo).abs());
}

#[test]
fn train_runs_the_fixed_number_of_steps() {
    let mut p = ModelParams::new(&vec![2, 1], 0.0f32).unwrap();
    p.randomize(&seeded(11));
    let ins = rows(&[&[0.0, 1.0], &[1.0, 1.0]]);
    let outs = rows(&[&[1.0], &[0.0]]);
    let ops = ops();
    let (same, none) = run(p.duplicate(), &ins, &outs, 0, 0.1, 1.0);
    assert!(none.is_empty());
    assert_eq!(all_params(&same), all_params(&p));

    let (after, costs) = run(p.duplicate(), &ins, &outs, 3, 0.1, 1.0);
    assert_eq!(costs.len(), 3);
    assert_eq!(after.structure(), vec![2, 1]);
    let nudge = |x: f32| x + 0.1;
    let slope = |c1: f32, c0: f32| (c1 - c0) / 0.1;
    let step = |x: f32, g: f32| x - 1.0 * g;
    let mut q = p.duplicate();
    for i in 0..3 {
        assert_eq!(costs[i], cost(&q, &ins, &outs, &ops).unwrap());
        let g = finite_diff(&q, &ins, &outs, &ops, &nudge, &slope).unwrap();
        q = descend(&q, &g, &step);
    }
    assert_eq!(all_params(&after), all_params(&q));
}

#[test]
fn train_rejects_ill_shaped_training_sets() {
    let p = ModelParams::new(&vec![2, 1], 0.0f32).unwrap();
    let nudge = |x: f32| x + 0.1;
    let slope = |c1: f32, c0: f32| (c1 - c0) / 0.1;
    let step = |x: f32, g: f32| x - g;
    let ins = rows(&[&[1.0, 2.0]]);
    let outs = rows(&[&[1.0, 0.0]]);
    assert!(train(&p, &ins, &outs, &ops(), &nudge, &slope, &step, 5).is_none());
}
