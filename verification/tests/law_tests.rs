//! Concrete checks of the quantified invariants.

use truck_geometry::knot_vec::KnotVec;
use truck_geometry::bspcurve::BSplineCurve;
use truck_geometry::bspsurface::BSplineSurface;

fn b(x: f64) -> u64 {
    x.to_bits()
}

fn fb(x: u64) -> f64 {
    f64::from_bits(x)
}

fn pt(v: &[f64]) -> Vec<u64> {
    v.iter().map(|x| x.to_bits()).collect()
}

fn kv(v: &[f64]) -> KnotVec {
    KnotVec::try_new(v.iter().map(|x| x.to_bits()).collect()).unwrap()
}

fn near_f(a: f64, c: f64) -> bool {
    (a - c).abs() <= 1e-7 * a.abs().max(c.abs()).max(1.0)
}

fn near2_f(a: f64, c: f64) -> bool {
    (a - c).abs() <= 1e-14 * a.abs().max(c.abs()).max(1.0)
}

#[test]
fn p1_partition_of_unity() {
    let knots = kv(&[0.0, 0.0, 0.0, 0.25, 0.25, 0.5, 0.5, 0.75, 0.75, 1.0, 1.0, 1.0]);
    for i in 0..=100 {
        let t = (i as f64) / 100.0;
        let basis = knots.bspline_basis_functions(2, b(t));
        let sum: f64 = basis.iter().map(|x| f64::from_bits(*x)).sum();
        assert!(near2_f(sum, 1.0), "t = {} sum = {}", t, sum);
    }
}

#[test]
fn p2_insertion_preserves_evaluation() {
    let knots = kv(&[0.0, 0.0, 0.0, 1.0, 1.0, 1.0]);
    let pts = vec![pt(&[0.0, 0.0]), pt(&[0.5, -1.0]), pt(&[1.0, 0.0])];
    let org = BSplineCurve::try_new(knots, pts).unwrap();
    let mut c = org.duplicate();
    c.add_knot(b(0.3));
    c.add_knot(b(0.7));
    for i in 0..=100 {
        let t = (i as f64) / 100.0;
        let v0 = org.subs(b(t));
        let v1 = c.subs(b(t));
        assert!(near2_f(fb(v0[0]), fb(v1[0])), "t = {}", t);
        assert!(near2_f(fb(v0[1]), fb(v1[1])), "t = {}", t);
    }
}

#[test]
fn p3_insert_remove_restores_exactly() {
    let knots = kv(&[0.0, 0.0, 1.0, 1.0]);
    let pts = vec![pt(&[0.0, 0.0]), pt(&[1.0, 2.0])];
    let org = BSplineCurve::try_new(knots, pts).unwrap();
    let mut c = org.duplicate();
    let idx = c.add_knot(b(0.5));
    assert_eq!(idx, 2);
    assert!(c.try_remove_knot(idx).is_ok());
    assert_eq!(c.control_points(), org.control_points());
    assert_eq!(c.knot_vec().knots(), org.knot_vec().knots());
}

#[test]
fn p4_derivative_matches_difference_quotient() {
    let s_knots = kv(&[0.0, 0.0, 0.0, 1.0, 1.0, 1.0]);
    let pts = vec![pt(&[0.0, 0.0]), pt(&[0.5, -1.0]), pt(&[1.0, 0.0])];
    let c = BSplineCurve::try_new(s_knots, pts).unwrap();
    let d = c.derivation();
    let h = 1e-4;
    for i in 1..10 {
        let t = (i as f64) / 10.0;
        let vp = c.subs(b(t + h));
        let vm = c.subs(b(t - h));
        let dv = d.subs(b(t));
        for q in 0..2 {
            let quotient = (fb(vp[q]) - fb(vm[q])) / (2.0 * h);
            assert!((quotient - fb(dv[q])).abs() <= 1e-3, "t = {} q = {}", t, q);
        }
    }
}

#[test]
fn p5_syncro_idempotence() {
    // A degree-one and a degree-two Bezier curve over the unit range.
    let c0k = kv(&[0.0, 0.0, 1.0, 1.0]);
    let c0p = vec![pt(&[0.0, 0.0]), pt(&[1.0, 1.0])];
    let mut c0 = BSplineCurve::try_new(c0k, c0p).unwrap();
    let c1k = kv(&[0.0, 0.0, 0.0, 1.0, 1.0, 1.0]);
    let c1p = vec![pt(&[0.0, 2.0]), pt(&[0.5, 3.0]), pt(&[1.0, 2.0])];
    let mut c1 = BSplineCurve::try_new(c1k, c1p).unwrap();

    assert!(c0.syncro_degree(&mut c1));
    assert_eq!(c0.degree(), c1.degree());
    assert!(c0.syncro_knot(&mut c1));
    assert_eq!(c0.knot_vec().knots(), c1.knot_vec().knots());

    // Repeating either synchronization is a no-op.
    let s0 = c0.duplicate();
    let s1 = c1.duplicate();
    assert!(c0.syncro_degree(&mut c1));
    assert_eq!(c0.control_points(), s0.control_points());
    assert_eq!(c1.control_points(), s1.control_points());
    assert!(c0.syncro_knot(&mut c1));
    assert_eq!(c0.knot_vec().knots(), s0.knot_vec().knots());
    assert_eq!(c1.knot_vec().knots(), s1.knot_vec().knots());
    assert_eq!(c0.control_points(), s0.control_points());
    assert_eq!(c1.control_points(), s1.control_points());
}

#[test]
fn p6_swap_axes_involution() {
    let ku = kv(&[0.0, 0.0, 1.0, 1.0]);
    let kvv = kv(&[0.0, 0.0, 0.0, 1.0, 1.0, 1.0]);
    let net = vec![
        vec![pt(&[0.0, 0.0]), pt(&[0.5, -1.0]), pt(&[1.0, 0.0])],
        vec![pt(&[0.0, 1.0]), pt(&[0.5, 2.0]), pt(&[1.0, 1.0])],
    ];
    let org = BSplineSurface::try_new((ku, kvv), net).unwrap();
    let mut s = org.duplicate();
    s.swap_axes();
    assert_eq!(s.uknot_vec().knots(), org.vknot_vec().knots());
    assert_eq!(s.control_points()[1][0], org.control_points()[0][1]);
    s.swap_axes();
    assert_eq!(s.uknot_vec().knots(), org.uknot_vec().knots());
    assert_eq!(s.vknot_vec().knots(), org.vknot_vec().knots());
    assert_eq!(s.control_points(), org.control_points());
}

#[test]
fn p7_normalization_sets_unit_ends() {
    let knots = kv(&[2.0, 2.0, 2.5, 3.0, 3.0]);
    let pts = vec![pt(&[0.0]), pt(&[1.0]), pt(&[2.0])];
    let mut c = BSplineCurve::try_new(knots, pts).unwrap();
    assert!(c.knot_normalize());
    let n = c.knot_vec().len();
    assert_eq!(c.knot_vec().knot(0), 0.0f64.to_bits());
    assert_eq!(c.knot_vec().knot(n - 1), 1.0f64.to_bits());

    let ku = kv(&[-1.0, -1.0, 3.0, 3.0]);
    let kvv = kv(&[10.0, 10.0, 10.0, 14.0, 14.0, 14.0]);
    let net = vec![
        vec![pt(&[0.0, 0.0]), pt(&[0.5, -1.0]), pt(&[1.0, 0.0])],
        vec![pt(&[0.0, 1.0]), pt(&[0.5, 2.0]), pt(&[1.0, 1.0])],
    ];
    let mut s = BSplineSurface::try_new((ku, kvv), net).unwrap();
    assert!(s.knot_normalize());
    assert_eq!(s.uknot(0), 0.0f64.to_bits());
    assert_eq!(s.uknot(3), 1.0f64.to_bits());
    assert_eq!(s.vknot(0), 0.0f64.to_bits());
    assert_eq!(s.vknot(5), 1.0f64.to_bits());
    for i in 0..s.uknot_vec().len() {
        let x = fb(s.uknot(i));
        assert!((0.0..=1.0).contains(&x));
    }

    // Normalizing an already-normalized surface is an exact identity.
    let u_before: Vec<u64> = s.uknot_vec().knots().clone();
    let v_before: Vec<u64> = s.vknot_vec().knots().clone();
    assert!(s.knot_normalize());
    assert_eq!(s.uknot_vec().knots(), &u_before);
    assert_eq!(s.vknot_vec().knots(), &v_before);
}
