use view_cone_2d::geometry::{isqrt, Point, Ray2d, RayError, Transform2d, FIXED_ONE};
use view_cone_2d::segment::Seg2d;

fn p(x: i64, y: i64) -> Point {
    Point::new(x, y)
}

#[test]
fn isqrt_rounds_down() {
    assert_eq!(isqrt(0), 0);
    assert_eq!(isqrt(1), 1);
    assert_eq!(isqrt(15), 3);
    assert_eq!(isqrt(16), 4);
    assert_eq!(isqrt(17), 4);
    assert_eq!(isqrt(u64::MAX), 4294967295);
}

#[test]
fn ray_refuses_zero_direction() {
    assert_eq!(Ray2d::new(p(0, 0), p(0, 0)), Err(RayError::DegenerateDirection));
    assert_eq!(Ray2d::new(p(5_000_000, 0), p(1, 0)), Err(RayError::OutOfRange));
    let r = Ray2d::new(p(3, 4), p(-1, 2)).unwrap();
    assert_eq!(r.origin, p(3, 4));
    assert_eq!(r.direction, p(-1, 2));
}

#[test]
fn identity_keeps_points() {
    let t = Transform2d::identity();
    assert_eq!(t.transform_point(p(-7, 12)), Some(p(-7, 12)));
}

#[test]
fn quarter_turn_and_translation() {
    let t = Transform2d::from_parts(0, -FIXED_ONE, FIXED_ONE, 0, p(100, -5)).unwrap();
    assert_eq!(t.transform_point(p(10, 0)), Some(p(100, 5)));
    assert_eq!(t.transform_point(p(0, 10)), Some(p(90, -5)));
}

#[test]
fn half_scale_rounds_down() {
    let t = Transform2d::from_parts(FIXED_ONE / 2, 0, 0, FIXED_ONE / 2, p(0, 0)).unwrap();
    assert_eq!(t.transform_point(p(3, -3)), Some(p(1, -2)));
}

#[test]
fn transform_limits() {
    assert!(Transform2d::from_parts(1 << 30, 0, 0, FIXED_ONE, p(0, 0)).is_none());
    assert!(Transform2d::from_parts(FIXED_ONE, 0, 0, FIXED_ONE, p(2_000_000, 0)).is_none());
    let t = Transform2d::from_parts(FIXED_ONE, 0, 0, FIXED_ONE, p(1_048_576, 0)).unwrap();
    assert_eq!(t.transform_point(p(1, 0)), None);
}

#[test]
fn segment_transformed_moves_each_endpoint() {
    let t = Transform2d::from_parts(0, -FIXED_ONE, FIXED_ONE, 0, p(10, 20)).unwrap();
    let s = Seg2d(p(1, 2), p(-3, 4));
    let w = s.transformed(&t).unwrap();
    assert_eq!(w.0, t.transform_point(s.0).unwrap());
    assert_eq!(w.1, t.transform_point(s.1).unwrap());
    assert_eq!(w.0, p(8, 21));
    assert_eq!(w.1, p(6, 17));
}

#[test]
fn segment_equality_ignores_order() {
    let a = Seg2d(p(1, 2), p(3, 4));
    let b = Seg2d(p(3, 4), p(1, 2));
    let c = Seg2d(p(1, 2), p(3, 5));
    assert!(a == b);
    assert!(a != c);
    assert_eq!(a.canonical(), b.canonical());
    assert_eq!(b.canonical(), (p(1, 2), p(3, 4)));
}

#[test]
fn segment_measures() {
    let s = Seg2d(p(1, 1), p(4, 5));
    assert_eq!(s.length(), 5);
    assert_eq!(Seg2d(p(0, 0), p(1, 1)).length(), 1);
    let m = s.get_middle();
    assert_eq!((m.x, m.y, m.den), (5, 6, 2));
    assert_eq!(s.get_normals(), (p(-4, 3), p(4, -3)));
}
