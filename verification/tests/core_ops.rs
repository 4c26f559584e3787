//! Unit tests for the fixed-point complex primitive and the trail.

use epicycles::complex::{Complex, FP_ONE};
use epicycles::trail::Trail;

fn fp(x: f64) -> i128 {
    (x * FP_ONE as f64).round() as i128
}

fn cpx(re: f64, im: f64) -> Complex {
    Complex::new(fp(re), fp(im))
}

#[test]
fn add_is_component_wise() {
    let a = cpx(1.5, -2.0);
    let b = cpx(0.25, 3.0);
    let r = a.add(&b);
    assert_eq!(r.re, fp(1.75));
    assert_eq!(r.im, fp(1.0));
}

#[test]
fn sub_is_component_wise() {
    let a = cpx(1.5, -2.0);
    let b = cpx(0.5, 1.0);
    let r = a.sub(&b);
    assert_eq!(r.re, fp(1.0));
    assert_eq!(r.im, fp(-3.0));
}

#[test]
fn scale_by_half() {
    let a = cpx(2.0, -1.0);
    let r = a.scale(fp(0.5));
    assert_eq!(r.re, fp(1.0));
    assert_eq!(r.im, fp(-0.5));
}

#[test]
fn multiply_matches_complex_product() {
    // (1 + 2i) * (3 + 4i) = -5 + 10i
    let a = cpx(1.0, 2.0);
    let b = cpx(3.0, 4.0);
    let r = a.multiply(&b);
    assert_eq!(r.re, fp(-5.0));
    assert_eq!(r.im, fp(10.0));
}

#[test]
fn rotate_by_quarter_turn() {
    // Rotating 1 by the unit vector (0, 1) gives i.
    let a = cpx(1.0, 0.0);
    let unit = cpx(0.0, 1.0);
    let r = a.rotate_by(&unit);
    assert_eq!(r.re, 0);
    assert_eq!(r.im, FP_ONE);
}

#[test]
fn magnitude_of_three_four_five() {
    let a = cpx(3.0, 4.0);
    assert_eq!(a.magnitude(), (5 * FP_ONE) as u128);
    assert_eq!(a.magnitude_sq(), 25 * FP_ONE * FP_ONE);
}

#[test]
fn magnitude_rounds_down() {
    // |(1, 1)| = sqrt(2): the result is the floor of sqrt(2) * FP_ONE.
    let a = cpx(1.0, 1.0);
    let m = a.magnitude();
    let exact = (2.0f64).sqrt() * FP_ONE as f64;
    assert!(m as f64 <= exact);
    assert!(m as f64 > exact - 1.0);
}

#[test]
fn trail_prepends_newest_first() {
    let mut t = Trail::new();
    t.update(cpx(1.0, 0.0), 10);
    t.update(cpx(2.0, 0.0), 10);
    t.update(cpx(3.0, 0.0), 10);
    assert_eq!(t.points.len(), 3);
    assert_eq!(t.points[0], cpx(3.0, 0.0));
    assert_eq!(t.points[1], cpx(2.0, 0.0));
    assert_eq!(t.points[2], cpx(1.0, 0.0));
}

#[test]
fn trail_never_exceeds_max_length() {
    let mut t = Trail::new();
    for k in 0..50 {
        t.update(cpx(k as f64, 0.0), 3);
        assert!(t.points.len() <= 3);
        assert_eq!(t.points[0], cpx(k as f64, 0.0));
    }
    assert_eq!(t.points.len(), 3);
    assert_eq!(t.points[0], cpx(49.0, 0.0));
    assert_eq!(t.points[1], cpx(48.0, 0.0));
    assert_eq!(t.points[2], cpx(47.0, 0.0));
}

#[test]
fn trail_with_zero_cap_stays_empty() {
    let mut t = Trail::new();
    t.update(cpx(1.0, 0.0), 0);
    assert_eq!(t.points.len(), 0);
}

#[test]
fn render_weights_fade_linearly() {
    let mut t = Trail::new();
    for k in 0..5 {
        t.update(cpx(k as f64, 0.0), 100);
    }
    let w = t.render_weights(2000);
    // 5 points, effective span 5: 4 pairs with alphas (5-i)*255/5.
    assert_eq!(w.len(), 4);
    assert_eq!(w[0].2, 204);
    assert_eq!(w[1].2, 153);
    assert_eq!(w[2].2, 102);
    assert_eq!(w[3].2, 51);
    assert_eq!(w[0].0, cpx(4.0, 0.0));
    assert_eq!(w[0].1, cpx(3.0, 0.0));
}

#[test]
fn render_weights_respect_visual_cap() {
    let mut t = Trail::new();
    for k in 0..10 {
        t.update(cpx(k as f64, 0.0), 100);
    }
    let w = t.render_weights(4);
    assert_eq!(w.len(), 3);
    assert_eq!(w[0].2, 191);
}

#[test]
fn render_weights_short_trail_has_no_pairs() {
    let mut t = Trail::new();
    assert_eq!(t.render_weights(2000).len(), 0);
    t.update(cpx(1.0, 0.0), 10);
    assert_eq!(t.render_weights(2000).len(), 0);
}
