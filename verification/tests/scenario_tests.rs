//! End-to-end scenarios over concrete spline data.

use truck_geometry::knot_vec::KnotVec;
use truck_geometry::bspcurve::BSplineCurve;
use truck_geometry::bspsurface::BSplineSurface;
use truck_geometry::errors::Error;

fn b(x: f64) -> u64 {
    x.to_bits()
}

fn fb(x: u64) -> f64 {
    f64::from_bits(x)
}

fn pt(v: &[f64]) -> Vec<u64> {
    v.iter().map(|x| x.to_bits()).collect()
}

fn kv(v: &[f64]) -> KnotVec {
    KnotVec::try_new(v.iter().map(|x| x.to_bits()).collect()).unwrap()
}

fn near2_f(a: f64, c: f64) -> bool {
    (a - c).abs() <= 1e-14 * a.abs().max(c.abs()).max(1.0)
}

fn s3_patch() -> BSplineSurface {
    let ku = kv(&[0.0, 0.0, 1.0, 1.0]);
    let kvv = kv(&[0.0, 0.0, 0.0, 1.0, 1.0, 1.0]);
    let net = vec![
        vec![pt(&[0.0, 0.0]), pt(&[0.5, -1.0]), pt(&[1.0, 0.0])],
        vec![pt(&[0.0, 1.0]), pt(&[0.5, 2.0]), pt(&[1.0, 1.0])],
    ];
    BSplineSurface::try_new((ku, kvv), net).unwrap()
}

#[test]
fn s1_nurbs_circle() {
    let knots = kv(&[0.0, 0.0, 0.0, 0.25, 0.25, 0.5, 0.5, 0.75, 0.75, 1.0, 1.0, 1.0]);
    let pts = vec![
        pt(&[0.0, -2.0, 2.0]),
        pt(&[1.0, -1.0, 1.0]),
        pt(&[1.0, 0.0, 1.0]),
        pt(&[1.0, 1.0, 1.0]),
        pt(&[0.0, 2.0, 2.0]),
        pt(&[-1.0, 1.0, 1.0]),
        pt(&[-1.0, 0.0, 1.0]),
        pt(&[-1.0, -1.0, 1.0]),
        pt(&[0.0, -2.0, 2.0]),
    ];
    let c = BSplineCurve::try_new(knots, pts).unwrap();
    for i in 0..100 {
        let t = (i as f64) / 100.0;
        let v = c.subs(b(t));
        let x = fb(v[0]) / fb(v[2]);
        let y = fb(v[1]) / fb(v[2]);
        assert!(near2_f(x * x + y * y, 1.0), "t = {}", t);
    }
}

#[test]
fn s2_nurbs_sphere() {
    let ku = kv(&[0.0, 0.0, 0.0, 0.0, 1.0, 1.0, 1.0, 1.0]);
    let kvv = kv(&[0.0, 0.0, 0.0, 0.0, 0.5, 0.5, 0.5, 1.0, 1.0, 1.0, 1.0]);
    let rv = |x: f64, y: f64, z: f64, s: f64| pt(&[x / s, y / s, z / s, 1.0 / s]);
    let net = vec![
        vec![
            rv(0.0, 0.0, 1.0, 1.0),
            rv(0.0, 0.0, 1.0, 3.0),
            rv(0.0, 0.0, 1.0, 3.0),
            rv(0.0, 0.0, 1.0, 1.0),
            rv(0.0, 0.0, 1.0, 3.0),
            rv(0.0, 0.0, 1.0, 3.0),
            rv(0.0, 0.0, 1.0, 1.0),
        ],
        vec![
            rv(2.0, 0.0, 1.0, 3.0),
            rv(2.0, 4.0, 1.0, 9.0),
            rv(-2.0, 4.0, 1.0, 9.0),
            rv(-2.0, 0.0, 1.0, 3.0),
            rv(-2.0, -4.0, 1.0, 9.0),
            rv(2.0, -4.0, 1.0, 9.0),
            rv(2.0, 0.0, 1.0, 3.0),
        ],
        vec![
            rv(2.0, 0.0, -1.0, 3.0),
            rv(2.0, 4.0, -1.0, 9.0),
            rv(-2.0, 4.0, -1.0, 9.0),
            rv(-2.0, 0.0, -1.0, 3.0),
            rv(-2.0, -4.0, -1.0, 9.0),
            rv(2.0, -4.0, -1.0, 9.0),
            rv(2.0, 0.0, -1.0, 3.0),
        ],
        vec![
            rv(0.0, 0.0, -1.0, 1.0),
            rv(0.0, 0.0, -1.0, 3.0),
            rv(0.0, 0.0, -1.0, 3.0),
            rv(0.0, 0.0, -1.0, 1.0),
            rv(0.0, 0.0, -1.0, 3.0),
            rv(0.0, 0.0, -1.0, 3.0),
            rv(0.0, 0.0, -1.0, 1.0),
        ],
    ];
    let s = BSplineSurface::try_new((ku, kvv), net).unwrap();
    for i in 0..100 {
        for j in 0..100 {
            let u = (i as f64) / 100.0;
            let v = (j as f64) / 100.0;
            let p = s.subs(b(u), b(v));
            let w = fb(p[3]);
            let x = fb(p[0]) / w;
            let y = fb(p[1]) / w;
            let z = fb(p[2]) / w;
            assert!(near2_f(x * x + y * y + z * z, 1.0), "u = {} v = {}", u, v);
        }
    }
}

#[test]
fn s3_affine_bilinear_patch() {
    let s = s3_patch();
    for i in 0..=100 {
        let u = (i as f64) / 100.0;
        for j in 0..=100 {
            let v = (j as f64) / 100.0;
            let p = s.subs(b(u), b(v));
            let ex = v;
            let ey = 2.0 * v * (1.0 - v) * (2.0 * u - 1.0) + u;
            assert!(near2_f(fb(p[0]), ex), "u={} v={}", u, v);
            assert!(near2_f(fb(p[1]), ey), "u={} v={}", u, v);
        }
    }
}

#[test]
fn s4_uderivation_of_patch() {
    let s = s3_patch();
    let d = s.uderivation();
    for i in 0..=100 {
        let u = (i as f64) / 100.0;
        for j in 0..=100 {
            let v = (j as f64) / 100.0;
            let p = d.subs(b(u), b(v));
            assert!(near2_f(fb(p[0]), 0.0), "u={} v={}", u, v);
            assert!(near2_f(fb(p[1]), 4.0 * v * (1.0 - v) + 1.0), "u={} v={}", u, v);
        }
    }
}

#[test]
fn s5_knot_add_remove_round_trip() {
    let mut s = s3_patch();
    let org = s3_patch();
    let org_len = org.uknot_vec().len();
    s.add_uknot(b(0.0));
    s.add_uknot(b(0.3));
    s.add_uknot(b(0.5));
    s.add_uknot(b(1.0));
    assert_eq!(s.uknot_vec().len(), org_len + 4);
    assert!(s.near2_as_surface(&org));
    // The two interior insertions are undone by removal; the two
    // end insertions only padded the clamp blocks with zero rows and
    // are not invertible by the Boehm recurrence.
    assert!(s.remove_uknot(3));
    assert!(s.remove_uknot(3));
    assert_eq!(s.uknot_vec().len(), org_len + 2);
    assert!(s.near2_as_surface(&org));

    // Four interior insertions round-trip completely: the knot vector
    // length returns to the original after four removals.
    let mut t = s3_patch();
    t.add_uknot(b(0.2));
    t.add_uknot(b(0.4));
    t.add_uknot(b(0.6));
    t.add_uknot(b(0.8));
    assert_eq!(t.uknot_vec().len(), org_len + 4);
    assert!(t.near2_as_surface(&org));
    for idx in [5usize, 4, 3, 2] {
        assert!(t.remove_uknot(idx), "index {} knots {:?}", idx, t.uknot_vec().knots());
    }
    assert_eq!(t.uknot_vec().len(), org_len);
    assert!(t.near2_as_surface(&org));
}

#[test]
fn s6_removal_rejection() {
    let knots = kv(&[0.0, 0.0, 0.0, 1.0, 1.0, 1.0]);
    let pts = vec![pt(&[0.0, 0.0]), pt(&[0.5, -1.0]), pt(&[1.0, 0.0])];
    let mut c = BSplineCurve::try_new(knots, pts).unwrap();
    assert_eq!(c.try_remove_knot(2), Err(Error::CannotRemoveKnot(2)));
}
