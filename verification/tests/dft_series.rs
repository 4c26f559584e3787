//! End-to-end tests of the DFT engine, the series evaluator and the scene:
//! reconstruction, truncation, periodicity, chain consistency, frequency
//! folding, and the square-ish four-point scenario.

use epicycles::complex::{Complex, FP_ONE};
use epicycles::dft::{compute_dft, FourierComponent};
use epicycles::scene::{advance_time, PathFourier};
use epicycles::series::{evaluate, evaluate_chain};

fn fp(x: f64) -> i128 {
    (x * FP_ONE as f64).round() as i128
}

fn cpx(re: f64, im: f64) -> Complex {
    Complex::new(fp(re), fp(im))
}

/// Twiddle table for an `n`-point DFT: entry `m` is `e^{-2*pi*i*m/n}`.
fn dft_table(n: usize) -> Vec<Complex> {
    let mut t = Vec::new();
    for m in 0..n {
        let a = -2.0 * std::f64::consts::PI * (m as f64) / (n as f64);
        t.push(cpx(a.cos(), a.sin()));
    }
    t
}

/// Rotation table for evaluation with `den` time steps per period: entry
/// `m` is `e^{2*pi*i*m/den}`.
fn eval_table(den: usize) -> Vec<Complex> {
    let mut t = Vec::new();
    for m in 0..den {
        let a = 2.0 * std::f64::consts::PI * (m as f64) / (den as f64);
        t.push(cpx(a.cos(), a.sin()));
    }
    t
}

fn square_ish() -> Vec<Complex> {
    vec![cpx(1.0, 0.0), cpx(0.0, 1.0), cpx(-1.0, 0.0), cpx(0.0, -1.0)]
}

fn circle_points(n: usize, radius: f64) -> Vec<Complex> {
    let mut p = Vec::new();
    for j in 0..n {
        let a = 2.0 * std::f64::consts::PI * (j as f64) / (n as f64);
        p.push(cpx(radius * a.cos(), radius * a.sin()));
    }
    p
}

fn max_reconstruction_error(
    signal: &Vec<Complex>,
    comps: &Vec<FourierComponent>,
    table: &Vec<Complex>,
) -> i128 {
    let mut worst: i128 = 0;
    for j in 0..signal.len() {
        // Sample j sits at time j/n of the cycle; the table has n entries.
        let r = evaluate(comps, table, j as u64);
        let de = (r.re - signal[j].re).abs();
        let di = (r.im - signal[j].im).abs();
        let d = if de > di { de } else { di };
        if d > worst {
            worst = d;
        }
    }
    worst
}

#[test]
fn empty_signal_yields_no_components() {
    let signal: Vec<Complex> = Vec::new();
    let twiddles: Vec<Complex> = Vec::new();
    let comps = compute_dft(&signal, &twiddles, 100);
    assert_eq!(comps.len(), 0);
}

#[test]
fn zero_component_count_yields_empty() {
    let signal = square_ish();
    let comps = compute_dft(&signal, &dft_table(4), 0);
    assert_eq!(comps.len(), 0);
}

#[test]
fn truncation_caps_the_count() {
    let signal = square_ish();
    let comps = compute_dft(&signal, &dft_table(4), 2);
    assert_eq!(comps.len(), 2);
    let comps_all = compute_dft(&signal, &dft_table(4), 100);
    assert_eq!(comps_all.len(), 4);
}

#[test]
fn components_come_in_ascending_frequency_order() {
    let signal = circle_points(8, 50.0);
    let comps = compute_dft(&signal, &dft_table(8), 8);
    for w in comps.windows(2) {
        assert!(w[0].freq <= w[1].freq);
    }
}

#[test]
fn frequency_folding_stays_in_half_open_band() {
    // For a signal of length n every frequency lies in (-n/2, n/2].
    for n in [1usize, 2, 3, 4, 5, 8, 13] {
        let signal = circle_points(n, 10.0);
        let comps = compute_dft(&signal, &dft_table(n), n);
        assert_eq!(comps.len(), n);
        for c in &comps {
            assert!(-(n as i64) < 2 * c.freq);
            assert!(2 * c.freq <= n as i64);
        }
    }
}

#[test]
fn folding_convention_keeps_the_half_frequency_positive() {
    // Index k maps to k for k <= n/2 and to k - n above, so an even length
    // keeps +n/2 (not -n/2); the full set in ascending order is exact.
    let cases: [(usize, Vec<i64>); 2] =
        [(4, vec![-1, 0, 1, 2]), (5, vec![-2, -1, 0, 1, 2])];
    for (n, expect) in cases {
        let signal = circle_points(n, 10.0);
        let comps = compute_dft(&signal, &dft_table(n), n);
        let freqs: Vec<i64> = comps.iter().map(|c| c.freq).collect();
        assert_eq!(freqs, expect);
    }
}

#[test]
fn advance_time_wraps_at_the_period() {
    assert_eq!(advance_time(0, 4), 1);
    assert_eq!(advance_time(2, 4), 3);
    assert_eq!(advance_time(3, 4), 0);
    assert_eq!(advance_time(0, 1), 0);
}

#[test]
fn square_ish_scenario_concentrates_at_frequency_one() {
    let signal = square_ish();
    let comps = compute_dft(&signal, &dft_table(4), 4);
    // The dominant component sits at frequency 1 with unit magnitude (the
    // input is e^{2*pi*i*j/4}); every other coefficient is negligible.
    let mut dominant = comps[0];
    for c in &comps {
        if c.coef.magnitude() > dominant.coef.magnitude() {
            dominant = *c;
        }
    }
    assert_eq!(dominant.freq, 1);
    let mag = dominant.coef.magnitude() as i128;
    assert!((mag - FP_ONE).abs() <= 4);
    for c in &comps {
        if c.freq != 1 {
            assert!((c.coef.magnitude() as i128) <= 4);
        }
    }
}

#[test]
fn square_ish_scenario_reproduces_the_points_in_order() {
    let signal = square_ish();
    let comps = compute_dft(&signal, &dft_table(4), 4);
    let table = eval_table(4);
    for j in 0..4 {
        let r = evaluate(&comps, &table, j as u64);
        assert!((r.re - signal[j].re).abs() <= 4);
        assert!((r.im - signal[j].im).abs() <= 4);
    }
}

#[test]
fn full_dft_reconstructs_the_signal() {
    // Inverse-DFT identity: with no truncation, evaluating at each sample's
    // time fraction recovers the sample, up to fixed-point rounding.
    let signal = circle_points(8, 100.0);
    let comps = compute_dft(&signal, &dft_table(8), 8);
    let err = max_reconstruction_error(&signal, &comps, &eval_table(8));
    assert!(err <= FP_ONE / 4, "error {} too large", err);

    let signal = square_ish();
    let comps = compute_dft(&signal, &dft_table(4), 4);
    let err = max_reconstruction_error(&signal, &comps, &eval_table(4));
    assert!(err <= 8, "error {} too large", err);
}

#[test]
fn more_components_never_fit_worse() {
    // Truncation monotonicity on fixed signals: the maximum pointwise
    // reconstruction error does not grow as max_components increases,
    // up to the jitter of truncating fixed-point rounding (a few steps
    // of 1 / FP_ONE per term).
    let slack: i128 = 16;
    for signal in [square_ish(), circle_points(8, 100.0)] {
        let n = signal.len();
        let twiddles = dft_table(n);
        let table = eval_table(n);
        let mut prev: Option<i128> = None;
        for m in 0..=n {
            let comps = compute_dft(&signal, &twiddles, m);
            let err = max_reconstruction_error(&signal, &comps, &table);
            if let Some(p) = prev {
                assert!(err <= p + slack, "error grew from {} to {} at m = {}", p, err, m);
            }
            prev = Some(err);
        }
    }
}

#[test]
fn truncation_keeps_the_most_significant_components() {
    // Two harmonics of different strength: radius 100 at frequency 1 and
    // radius 20 at frequency 3. Truncation must keep the stronger one
    // first, then both, in ascending frequency order.
    let n = 16;
    let mut signal = Vec::new();
    for j in 0..n {
        let a = 2.0 * std::f64::consts::PI * (j as f64) / (n as f64);
        signal.push(cpx(
            100.0 * a.cos() + 20.0 * (3.0 * a).cos(),
            100.0 * a.sin() + 20.0 * (3.0 * a).sin(),
        ));
    }
    let twiddles = dft_table(n);
    let one = compute_dft(&signal, &twiddles, 1);
    assert_eq!(one.len(), 1);
    assert_eq!(one[0].freq, 1);
    assert!((one[0].coef.magnitude() as i128 - 100 * FP_ONE).abs() < FP_ONE);
    let two = compute_dft(&signal, &twiddles, 2);
    assert_eq!(two.len(), 2);
    assert_eq!(two[0].freq, 1);
    assert_eq!(two[1].freq, 3);
}

#[test]
fn component_order_does_not_change_the_value() {
    // Fixed-point addition is exact, so any permutation of the component
    // set reconstructs the identical point.
    let signal = circle_points(8, 90.0);
    let comps = compute_dft(&signal, &dft_table(8), 8);
    let mut reversed = comps.clone();
    reversed.reverse();
    let table = eval_table(16);
    for j in 0..16u64 {
        assert_eq!(evaluate(&comps, &table, j), evaluate(&reversed, &table, j));
    }
}

#[test]
fn evaluation_is_periodic_in_one_cycle() {
    let signal = circle_points(8, 75.0);
    let comps = compute_dft(&signal, &dft_table(8), 8);
    let table = eval_table(16);
    for j in 0..16u64 {
        let a = evaluate(&comps, &table, j);
        let b = evaluate(&comps, &table, j + 16);
        assert_eq!(a, b);
    }
}

#[test]
fn chain_end_equals_evaluate() {
    let signal = circle_points(8, 60.0);
    let comps = compute_dft(&signal, &dft_table(8), 8);
    let table = eval_table(32);
    for j in 0..32u64 {
        let chain = evaluate_chain(&comps, &table, j);
        assert_eq!(chain.len(), comps.len());
        let total = evaluate(&comps, &table, j);
        assert_eq!(chain[chain.len() - 1].1, total);
        // The chain starts at the zero vector and each link is contiguous.
        assert_eq!(chain[0].0, Complex::new(0, 0));
        for w in chain.windows(2) {
            assert_eq!(w[0].1, w[1].0);
        }
    }
}

#[test]
fn scene_centers_the_path_before_analysis() {
    // A circle around (7, -3) must give the same components as the same
    // circle around the origin: the constructor subtracts the centroid.
    let centered = circle_points(8, 40.0);
    let mut shifted = Vec::new();
    for p in &centered {
        shifted.push(p.add(&cpx(7.0, -3.0)));
    }
    let twiddles = dft_table(8);
    let a = PathFourier::new(&centered, &twiddles, cpx(0.0, 0.0), 1, 8);
    let b = PathFourier::new(&shifted, &twiddles, cpx(0.0, 0.0), 2, 8);
    assert_eq!(a.components.len(), b.components.len());
    for (x, y) in a.components.iter().zip(b.components.iter()) {
        assert_eq!(x.freq, y.freq);
        assert!((x.coef.re - y.coef.re).abs() <= 2);
        assert!((x.coef.im - y.coef.im).abs() <= 2);
    }
}

#[test]
fn scene_evaluate_applies_the_center_offset() {
    let path = circle_points(8, 40.0);
    let twiddles = dft_table(8);
    let center = cpx(300.0, 200.0);
    let s = PathFourier::new(&path, &twiddles, center, 0, 8);
    let table = eval_table(8);
    let p = s.evaluate(&table, 0);
    let raw = evaluate(&s.components, &table, 0);
    assert_eq!(p.re, center.re + raw.re);
    assert_eq!(p.im, center.im + raw.im);
}

#[test]
fn scene_epicycle_chain_links_to_the_reconstructed_point() {
    let path = circle_points(8, 40.0);
    let twiddles = dft_table(8);
    let center = cpx(300.0, 200.0);
    let s = PathFourier::new(&path, &twiddles, center, 0, 8);
    let table = eval_table(8);
    let chain = s.epicycle_chain(&table, 3);
    assert_eq!(chain.len(), s.components.len());
    assert_eq!(chain[0].0, center);
    for w in chain.windows(2) {
        assert_eq!(w[0].1, w[1].0);
    }
    let p = s.evaluate(&table, 3);
    assert_eq!(chain[chain.len() - 1].1, p);
    // Each arm's radius is its coefficient's magnitude.
    for (link, c) in chain.iter().zip(s.components.iter()) {
        assert_eq!(link.2, c.coef.magnitude());
    }
}

#[test]
fn scene_trail_tracks_recent_points() {
    let path = circle_points(8, 40.0);
    let twiddles = dft_table(8);
    let mut s = PathFourier::new(&path, &twiddles, cpx(0.0, 0.0), 0, 8);
    let table = eval_table(64);
    for j in 0..10u64 {
        let p = s.evaluate(&table, j);
        s.update_path(p, 4);
        assert!(s.trail.points.len() <= 4);
        assert_eq!(s.trail.points[0], p);
    }
    let segs = s.trail_segments(2000);
    assert_eq!(segs.len(), 3);
    assert_eq!(segs[0].0, s.trail.points[0]);
    assert_eq!(segs[0].1, s.trail.points[1]);
}

#[test]
fn empty_path_always_evaluates_to_the_center() {
    let empty: Vec<Complex> = Vec::new();
    let s = PathFourier::new(&empty, &Vec::new(), cpx(10.0, 20.0), 0, 100);
    assert_eq!(s.components.len(), 0);
    let table = eval_table(8);
    for j in 0..8u64 {
        let p = s.evaluate(&table, j);
        assert_eq!(p, cpx(10.0, 20.0));
    }
}
