//! Unit checks of the scalar layer, the tolerances, the constructors'
//! failure values, and the smaller spline operations.

use truck_geometry::scalar;
use truck_geometry::tolerance;
use truck_geometry::vector;
use truck_geometry::knot_vec::KnotVec;
use truck_geometry::bspcurve::BSplineCurve;
use truck_geometry::bspsurface::BSplineSurface;
use truck_geometry::errors::Error;

fn b(x: f64) -> u64 {
    x.to_bits()
}

fn fb(x: u64) -> f64 {
    f64::from_bits(x)
}

fn pt(v: &[f64]) -> Vec<u64> {
    v.iter().map(|x| x.to_bits()).collect()
}

fn kv(v: &[f64]) -> KnotVec {
    KnotVec::try_new(v.iter().map(|x| x.to_bits()).collect()).unwrap()
}

#[test]
fn tolerance_constants_match_their_values() {
    assert_eq!(truck_geometry::TOL_BITS, (1.0e-7f64).to_bits());
    assert_eq!(truck_geometry::TOL2_BITS, (1.0e-14f64).to_bits());
    assert_eq!(truck_geometry::ONE_BITS, (1.0f64).to_bits());
}

#[test]
fn scalar_arithmetic_matches_hardware() {
    let cases = [
        (0.1f64, 0.2f64),
        (1.5, -2.25),
        (1e300, 1e-300),
        (-0.75, 3.0),
        (7.0, 0.3),
    ];
    for (x, y) in cases {
        let c = BSplineCurve::try_new(
            kv(&[0.0, 0.0, 1.0, 1.0]),
            vec![pt(&[x]), pt(&[y])],
        )
        .unwrap();
        // The midpoint of a linear segment is (x + y) / 2 computed by
        // rounded multiplications and additions.
        let mid = fb(c.subs(b(0.5))[0]);
        let expect = 0.5 * x + 0.5 * y;
        assert!((mid - expect).abs() <= 1e-15 * expect.abs().max(1.0), "{} {}", x, y);
    }
}

#[test]
fn scalar_order_matches_hardware() {
    let vals = [
        0.0f64, -0.0, 1.0, -1.0, 1.5, f64::INFINITY, f64::NEG_INFINITY, f64::NAN, 1e-320,
        -1e-320,
    ];
    for &x in &vals {
        for &y in &vals {
            assert_eq!(scalar::le(b(x), b(y)), x <= y, "{} <= {}", x, y);
            assert_eq!(scalar::lt(b(x), b(y)), x < y, "{} < {}", x, y);
            assert_eq!(scalar::eq(b(x), b(y)), x == y, "{} == {}", x, y);
        }
        assert_eq!(scalar::is_nan(b(x)), x.is_nan());
        assert_eq!(scalar::is_finite(b(x)), x.is_finite());
        assert_eq!(fb(scalar::abs(b(x))).to_bits(), x.abs().to_bits());
        assert_eq!(fb(scalar::neg(b(x))).to_bits(), (-x).to_bits());
    }
}

#[test]
fn tolerance_predicates() {
    assert!(tolerance::near(b(1.0), b(1.0 + 1e-9)));
    assert!(!tolerance::near(b(1.0), b(1.1)));
    assert!(tolerance::near2(b(1.0), b(1.0 + 1e-16)));
    assert!(!tolerance::near2(b(1.0), b(1.0 + 1e-9)));
    assert!(tolerance::so_small(b(1e-8)));
    assert!(tolerance::so_small(b(-1e-8)));
    assert!(!tolerance::so_small(b(1e-6)));
    assert_eq!(fb(tolerance::inv_or_zero(b(2.0))), 0.5);
    assert_eq!(fb(tolerance::inv_or_zero(b(1e-9))), 0.0);
}

#[test]
fn vector_norm_and_cross() {
    let a = pt(&[3.0, 4.0]);
    let n = vector::vnorm(&a);
    assert!((fb(n) - 5.0).abs() <= 1e-12);
    let x = pt(&[1.0, 0.0, 0.0]);
    let y = pt(&[0.0, 1.0, 0.0]);
    let c = vector::vcross(&x, &y);
    assert_eq!(fb(c[0]), 0.0);
    assert_eq!(fb(c[1]), 0.0);
    assert_eq!(fb(c[2]), 1.0);
    let p = pt(&[2.0, 6.0, 2.0]);
    let proj = vector::rational_projection(&p);
    assert_eq!(fb(proj[0]), 1.0);
    assert_eq!(fb(proj[1]), 3.0);
}

#[test]
fn knot_vec_validation_and_edits() {
    assert!(KnotVec::try_new(vec![b(1.0), b(0.0)]).is_none());
    assert!(KnotVec::try_new(vec![b(1.0), b(1.0)]).is_none());
    assert!(KnotVec::try_new(vec![b(0.0)]).is_none());
    let mut k = kv(&[0.0, 0.0, 1.0, 1.0]);
    let idx = k.add_knot(b(0.5));
    assert_eq!(idx, 2);
    assert_eq!(k.knots(), &vec![b(0.0), b(0.0), b(0.5), b(1.0), b(1.0)]);
    let idx2 = k.add_knot(b(-1.0));
    assert_eq!(idx2, 0);
    k.remove(3);
    assert_eq!(k.knots(), &vec![b(-1.0), b(0.0), b(0.0), b(1.0), b(1.0)]);
    assert!(k.translate(b(2.0)));
    assert_eq!(k.knots(), &vec![b(1.0), b(2.0), b(2.0), b(3.0), b(3.0)]);
    let bez = KnotVec::bezier_knot(2);
    assert_eq!(bez.knots(), &vec![b(0.0), b(0.0), b(0.0), b(1.0), b(1.0), b(1.0)]);
    assert!(bez.is_clamped(2));
    assert!(!kv(&[0.0, 0.0, 1.0, 1.0]).is_clamped(2));
}

#[test]
fn knot_translate_overflow_falls_back() {
    // Both ends overflow to the same infinity: the shifted sequence is
    // no longer a valid knot vector, so the knots are left unchanged.
    let mut k = kv(&[1.0e308, 1.7e308]);
    assert!(!k.translate(b(1.5e308)));
    assert_eq!(k.knots(), &vec![b(1.0e308), b(1.7e308)]);
}

#[test]
fn knot_normalize_rejects_tiny_range() {
    let mut k = kv(&[0.0, 1e-9]);
    assert_eq!(k.try_normalize(), Err(truck_geometry::errors::Error::ZeroRange));
    assert_eq!(k.knots(), &vec![b(0.0), b(1e-9)]);
}

#[test]
fn constructor_failures() {
    let k = kv(&[0.0, 0.0, 1.0, 1.0]);
    assert_eq!(
        BSplineCurve::try_new(k, Vec::new()).err(),
        Some(Error::EmptyControlPoints),
    );
    let k = kv(&[0.0, 0.0, 1.0, 1.0]);
    assert_eq!(
        BSplineCurve::try_new(k, vec![pt(&[0.0]); 4]).err(),
        Some(Error::TooShortKnotVector(4, 4)),
    );
    let k = kv(&[0.0, 1e-9]);
    assert_eq!(
        BSplineCurve::try_new(k, vec![pt(&[0.0])]).err(),
        Some(Error::ZeroRange),
    );
    let k = kv(&[0.0, 0.0, 1.0, 1.0]);
    assert_eq!(
        BSplineCurve::try_new(k, vec![pt(&[0.0]), pt(&[0.0, 1.0])]).err(),
        Some(Error::IrregularControlPoints),
    );
    let ku = kv(&[0.0, 0.0, 1.0, 1.0]);
    let kvv = kv(&[0.0, 0.0, 1.0, 1.0]);
    assert_eq!(
        BSplineSurface::try_new(
            (ku, kvv),
            vec![vec![pt(&[0.0]), pt(&[1.0])], vec![pt(&[2.0])]],
        )
        .err(),
        Some(Error::IrregularControlPoints),
    );
}

#[test]
fn curve_invert_and_translate() {
    let knots = kv(&[0.0, 0.0, 0.0, 1.0, 1.0, 1.0]);
    let pts = vec![pt(&[0.0, 0.0]), pt(&[0.5, -1.0]), pt(&[1.0, 0.0])];
    let mut c = BSplineCurve::try_new(knots, pts).unwrap();
    assert!(c.knot_translate(b(1.0)));
    assert_eq!(
        c.knot_vec().knots(),
        &vec![b(1.0), b(1.0), b(1.0), b(2.0), b(2.0), b(2.0)],
    );
    assert!(c.invert());
    assert_eq!(c.control_points()[0], pt(&[1.0, 0.0]));
    assert_eq!(c.control_points()[2], pt(&[0.0, 0.0]));
    assert_eq!(c.knot_vec().knot(0), b(1.0));
    assert_eq!(c.knot_vec().knot(5), b(2.0));
    // Inverting twice restores the control points.
    assert!(c.invert());
    assert_eq!(c.control_points()[0], pt(&[0.0, 0.0]));
}

#[test]
fn curve_optimize_removes_inserted_knots() {
    let knots = kv(&[0.0, 0.0, 0.0, 1.0, 1.0, 1.0]);
    let pts = vec![pt(&[0.0, 0.0]), pt(&[0.5, -1.0]), pt(&[1.0, 0.0])];
    let org = BSplineCurve::try_new(knots, pts).unwrap();
    let mut c = org.duplicate();
    c.add_knot(b(0.3));
    c.add_knot(b(0.6));
    c.optimize();
    assert_eq!(c.knot_vec().len(), org.knot_vec().len());
    for i in 0..=20 {
        let t = (i as f64) / 20.0;
        let v0 = org.subs(b(t));
        let v1 = c.subs(b(t));
        assert!((fb(v0[0]) - fb(v1[0])).abs() <= 1e-7);
        assert!((fb(v0[1]) - fb(v1[1])).abs() <= 1e-7);
    }
}

#[test]
fn curve_elevation_preserves_shape() {
    let c0k = kv(&[0.0, 0.0, 1.0, 1.0]);
    let c0p = vec![pt(&[0.0, 0.0]), pt(&[2.0, 4.0])];
    let org = BSplineCurve::try_new(c0k, c0p).unwrap();
    let mut c = org.duplicate();
    assert!(c.elevate_degree());
    assert_eq!(c.degree(), 2);
    for i in 0..=20 {
        let t = (i as f64) / 20.0;
        let v0 = org.subs(b(t));
        let v1 = c.subs(b(t));
        assert!((fb(v0[0]) - fb(v1[0])).abs() <= 1e-12, "t = {}", t);
        assert!((fb(v0[1]) - fb(v1[1])).abs() <= 1e-12, "t = {}", t);
    }
}

#[test]
fn curve_concat_joins_segments() {
    let k0 = kv(&[0.0, 0.0, 1.0, 1.0]);
    let p0 = vec![pt(&[0.0, 0.0]), pt(&[1.0, 1.0])];
    let mut c0 = BSplineCurve::try_new(k0, p0).unwrap();
    let k1 = kv(&[0.0, 0.0, 1.0, 1.0]);
    let p1 = vec![pt(&[1.0, 1.0]), pt(&[2.0, 0.0])];
    let c1 = BSplineCurve::try_new(k1, p1).unwrap();
    assert!(c0.concat(&c1));
    assert_eq!(c0.control_points().len(), 3);
    assert_eq!(c0.knot_vec().len(), 5);
    assert_eq!(
        c0.knot_vec().knots(),
        &vec![b(0.0), b(0.0), b(1.0), b(2.0), b(2.0)],
    );
    assert_eq!(c0.control_points()[1], pt(&[1.0, 1.0]));
    // The curve now runs to (2, 0) at the end of the joined range.
    let n = c0.knot_vec().len();
    let end = c0.subs(c0.knot_vec().knot(n - 1));
    assert!((fb(end[0]) - 2.0).abs() <= 1e-12);
}

#[test]
fn homotopy_lofts_two_curves() {
    let k0 = kv(&[0.0, 0.0, 0.0, 1.0, 1.0, 1.0]);
    let p0 = vec![pt(&[0.0, 0.0]), pt(&[0.5, -1.0]), pt(&[1.0, 0.0])];
    let c0 = BSplineCurve::try_new(k0, p0).unwrap();
    let k1 = kv(&[0.0, 0.0, 0.0, 1.0, 1.0, 1.0]);
    let p1 = vec![pt(&[0.0, 2.0]), pt(&[0.5, 1.0]), pt(&[1.0, 2.0])];
    let c1 = BSplineCurve::try_new(k1, p1).unwrap();
    let s = BSplineSurface::homotopy(c0, c1).unwrap();
    assert_eq!(
        s.control_points(),
        &vec![
            vec![pt(&[0.0, 0.0]), pt(&[0.0, 2.0])],
            vec![pt(&[0.5, -1.0]), pt(&[0.5, 1.0])],
            vec![pt(&[1.0, 0.0]), pt(&[1.0, 2.0])],
        ],
    );
}

#[test]
fn by_boundary_interpolates_edges() {
    let edge = |a: [f64; 2], m: [f64; 2], z: [f64; 2]| {
        BSplineCurve::try_new(
            kv(&[0.0, 0.0, 0.0, 1.0, 1.0, 1.0]),
            vec![pt(&a), pt(&m), pt(&z)],
        )
        .unwrap()
    };
    let c0 = edge([0.0, 0.0], [0.5, 0.0], [1.0, 0.0]);
    let c1 = edge([1.0, 0.0], [1.0, 0.5], [1.0, 1.0]);
    let c2 = edge([1.0, 1.0], [0.5, 1.0], [0.0, 1.0]);
    let c3 = edge([0.0, 1.0], [0.0, 0.5], [0.0, 0.0]);
    let s = BSplineSurface::by_boundary(c0, c1, c2, c3).unwrap();
    // A surface filling the unit square.
    let p = s.subs(b(0.5), b(0.5));
    assert!((fb(p[0]) - 0.5).abs() <= 0.25);
    assert!((fb(p[1]) - 0.5).abs() <= 0.25);
}

#[test]
fn surface_boundary_is_closed_loop() {
    let ku = kv(&[0.0, 0.0, 1.0, 1.0]);
    let kvv = kv(&[0.0, 0.0, 0.0, 1.0, 1.0, 1.0]);
    let net = vec![
        vec![pt(&[0.0, 0.0]), pt(&[0.5, -1.0]), pt(&[1.0, 0.0])],
        vec![pt(&[0.0, 1.0]), pt(&[0.5, 2.0]), pt(&[1.0, 1.0])],
    ];
    let s = BSplineSurface::try_new((ku, kvv), net).unwrap();
    let (b0, b1, b2, b3) = s.splitted_boundary();
    assert_eq!(b0.control_points(), &vec![pt(&[0.0, 0.0]), pt(&[0.0, 1.0])]);
    assert_eq!(
        b1.control_points(),
        &vec![pt(&[0.0, 1.0]), pt(&[0.5, 2.0]), pt(&[1.0, 1.0])],
    );
    assert_eq!(b2.control_points(), &vec![pt(&[1.0, 0.0]), pt(&[1.0, 1.0])]);
    assert_eq!(b3.control_points(), &vec![pt(&[0.0, 0.0]), pt(&[0.5, -1.0]), pt(&[1.0, 0.0])]);
    let boundary = s.boundary();
    let n = boundary.knot_vec().len();
    let start = boundary.subs(boundary.knot_vec().knot(0));
    let end = boundary.subs(boundary.knot_vec().knot(n - 1));
    assert!((fb(start[0]) - fb(end[0])).abs() <= 1e-7);
    assert!((fb(start[1]) - fb(end[1])).abs() <= 1e-7);
}

#[test]
fn surface_is_const_and_rational_const() {
    let ku = KnotVec::bezier_knot(1);
    let kvv = KnotVec::bezier_knot(2);
    let p = pt(&[1.0, 2.0]);
    let net = vec![vec![p.clone(), p.clone(), p.clone()], vec![p.clone(), p.clone(), p.clone()]];
    let mut s = BSplineSurface::try_new((ku, kvv), net).unwrap();
    assert!(s.is_const());
    s.set_control_point(1, 2, pt(&[2.0, 3.0]));
    assert!(!s.is_const());

    let ku = KnotVec::bezier_knot(1);
    let kvv = KnotVec::bezier_knot(2);
    let rp = |s: f64| pt(&[1.0 * s, 2.0 * s, s]);
    let net = vec![
        vec![rp(1.0), rp(2.0), rp(3.0)],
        vec![rp(0.5), rp(0.25), rp(0.125)],
    ];
    let mut s2 = BSplineSurface::try_new((ku, kvv), net).unwrap();
    assert!(s2.is_rational_const());
    s2.set_control_point(1, 2, pt(&[2.0, 3.0, 1.0]));
    assert!(!s2.is_rational_const());
}

#[test]
fn surface_normal_vectors_are_unit() {
    let ku = kv(&[0.0, 0.0, 1.0, 1.0]);
    let kvv = kv(&[0.0, 0.0, 0.0, 1.0, 1.0, 1.0]);
    let net = vec![
        vec![pt(&[0.0, 0.0, 0.0]), pt(&[0.5, -1.0, 0.5]), pt(&[1.0, 0.0, 0.3])],
        vec![pt(&[0.0, 1.0, 0.2]), pt(&[0.5, 2.0, 1.0]), pt(&[1.0, 1.0, 0.0])],
    ];
    let s = BSplineSurface::try_new((ku, kvv), net).unwrap();
    let params = vec![(b(0.2), b(0.3)), (b(0.5), b(0.5)), (b(0.9), b(0.1))];
    let normals = s.normal_vectors(&params);
    assert_eq!(normals.len(), 3);
    for nv in &normals {
        let len2: f64 = nv.iter().map(|x| fb(*x) * fb(*x)).sum();
        assert!((len2 - 1.0).abs() <= 1e-9, "len2 = {}", len2);
    }
    let single = s.normal_vector(b(0.5), b(0.5));
    assert_eq!(single, normals[1]);
}

#[test]
fn rational_surface_normal_is_unit() {
    let ku = kv(&[0.0, 0.0, 1.0, 1.0]);
    let kvv = kv(&[0.0, 0.0, 0.0, 1.0, 1.0, 1.0]);
    let net = vec![
        vec![
            pt(&[0.0, 0.0, 0.0, 1.0]),
            pt(&[0.5, -1.0, 0.5, 1.0]),
            pt(&[1.0, 0.0, 0.3, 1.0]),
        ],
        vec![
            pt(&[0.0, 1.0, 0.2, 2.0]),
            pt(&[0.5, 2.0, 1.0, 2.0]),
            pt(&[1.0, 1.0, 0.0, 2.0]),
        ],
    ];
    let s = BSplineSurface::try_new((ku, kvv), net).unwrap();
    let nv = s.rational_normal_vector(b(0.4), b(0.6));
    let len2: f64 = nv.iter().map(|x| fb(*x) * fb(*x)).sum();
    assert!((len2 - 1.0).abs() <= 1e-9, "len2 = {}", len2);
    let nvs = s.rational_normal_vectors(&vec![(b(0.4), b(0.6))]);
    assert_eq!(nvs[0], nv);
}

#[test]
fn control_point_cursors() {
    let ku = KnotVec::bezier_knot(1);
    let kvv = KnotVec::bezier_knot(2);
    let net = vec![
        vec![pt(&[0.0, 0.0, 0.0]), pt(&[1.0, 0.0, 1.0]), pt(&[2.0, 0.0, 2.0])],
        vec![pt(&[0.0, 1.0, 0.0]), pt(&[1.0, 1.0, 1.0]), pt(&[2.0, 1.0, 2.0])],
    ];
    let s = BSplineSurface::try_new((ku, kvv), net).unwrap();
    let mut it = s.ctrl_pts_row_iter(1);
    assert_eq!(it.len(), 2);
    assert_eq!(it.size_hint(), (2, Some(2)));
    assert_eq!(it.next(), Some(pt(&[1.0, 0.0, 1.0])));
    assert_eq!(it.next(), Some(pt(&[1.0, 1.0, 1.0])));
    assert_eq!(it.next(), None);
    let mut it2 = s.ctrl_pts_column_iter(1);
    assert_eq!(it2.next(), Some(pt(&[0.0, 1.0, 0.0])));
    assert_eq!(it2.len(), 2);
    let mut it3 = s.ctrl_pts_row_iter(0);
    assert_eq!(it3.next_back(), Some(pt(&[0.0, 1.0, 0.0])));
    assert_eq!(it3.count(), 1);
}

#[test]
fn surface_add_vknot_preserves_shape() {
    let ku = kv(&[0.0, 0.0, 1.0, 1.0]);
    let kvv = kv(&[0.0, 0.0, 0.0, 1.0, 1.0, 1.0]);
    let net = vec![
        vec![pt(&[0.0, 0.0]), pt(&[0.5, -1.0]), pt(&[1.0, 0.0])],
        vec![pt(&[0.0, 1.0]), pt(&[0.5, 2.0]), pt(&[1.0, 1.0])],
    ];
    let org = BSplineSurface::try_new((ku, kvv), net).unwrap();
    let mut s = org.duplicate();
    s.add_vknot(b(0.4));
    s.add_vknot(b(0.8));
    assert_eq!(s.vknot_vec().len(), org.vknot_vec().len() + 2);
    assert!(s.near2_as_surface(&org));
    assert_eq!(s.try_remove_vknot(2), Err(Error::CannotRemoveKnot(2)));
    let mut t = org.duplicate();
    t.add_vknot(b(0.4));
    assert!(t.remove_vknot(3));
    assert_eq!(t.vknot_vec().len(), org.vknot_vec().len());
    assert!(t.near2_as_surface(&org));
}

#[test]
fn curve_scale_and_transform() {
    let knots = kv(&[0.0, 0.0, 1.0, 1.0]);
    let pts = vec![pt(&[1.0, 2.0]), pt(&[3.0, -4.0])];
    let mut c = BSplineCurve::try_new(knots, pts).unwrap();
    c.scale(b(2.0));
    assert_eq!(c.control_points()[0], pt(&[2.0, 4.0]));
    assert_eq!(c.control_points()[1], pt(&[6.0, -8.0]));
    // A quarter-turn rotation acting on each control point.
    let rot = vec![pt(&[0.0, -1.0]), pt(&[1.0, 0.0])];
    c.transform(&rot);
    assert_eq!(c.control_points()[0], pt(&[-4.0, 2.0]));
    assert_eq!(c.control_points()[1], pt(&[8.0, 6.0]));
}

#[test]
fn surface_scale_keeps_knots() {
    let ku = kv(&[0.0, 0.0, 1.0, 1.0]);
    let kvv = kv(&[0.0, 0.0, 1.0, 1.0]);
    let net = vec![
        vec![pt(&[1.0, 2.0]), pt(&[3.0, 4.0])],
        vec![pt(&[5.0, 6.0]), pt(&[7.0, 8.0])],
    ];
    let mut s = BSplineSurface::try_new((ku, kvv), net).unwrap();
    s.scale(b(0.5));
    assert_eq!(s.control_points()[1][1], pt(&[3.5, 4.0]));
    assert_eq!(s.uknot_vec().knots(), &vec![b(0.0), b(0.0), b(1.0), b(1.0)]);
    let flip = vec![pt(&[0.0, 1.0]), pt(&[1.0, 0.0])];
    s.transform(&flip);
    assert_eq!(s.control_points()[0][0], pt(&[1.0, 0.5]));
}

#[test]
fn surface_optimize_undoes_insertions() {
    let ku = kv(&[0.0, 0.0, 1.0, 1.0]);
    let kvv = kv(&[0.0, 0.0, 0.0, 1.0, 1.0, 1.0]);
    let net = vec![
        vec![pt(&[0.0, 0.0]), pt(&[0.5, -1.0]), pt(&[1.0, 0.0])],
        vec![pt(&[0.0, 1.0]), pt(&[0.5, 2.0]), pt(&[1.0, 1.0])],
    ];
    let org = BSplineSurface::try_new((ku, kvv), net).unwrap();
    let mut s = org.duplicate();
    s.add_uknot(b(0.5));
    s.add_vknot(b(0.5));
    s.optimize();
    assert_eq!(s.uknot_vec().len(), org.uknot_vec().len());
    assert_eq!(s.vknot_vec().len(), org.vknot_vec().len());
    assert!(s.near2_as_surface(&org));
}
