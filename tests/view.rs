use view_cone_2d::geometry::{Point, Transform2d};
use view_cone_2d::mesh::RaycastMesh2d;
use view_cone_2d::raycast::{Obstacle, Raycast2d};
use view_cone_2d::segment::Seg2d;
use view_cone_2d::view::{angle_from_front_le, fan_indices, sample_directions, view_polygon, view_polygon_among, OuterVertex, ViewSource};

fn p(x: i64, y: i64) -> Point {
    Point::new(x, y)
}

fn square_obstacle(half: i64) -> Obstacle {
    let lines = vec![
        Seg2d(p(-half, -half), p(half, -half)),
        Seg2d(p(half, -half), p(half, half)),
        Seg2d(p(half, half), p(-half, half)),
        Seg2d(p(-half, half), p(-half, -half)),
    ];
    Obstacle { id: 7, mesh: RaycastMesh2d { lines }, transform: Transform2d::identity() }
}

fn angle(v: &OuterVertex) -> f64 {
    let (x, y) = match v.hit {
        Some(h) if h.1.distance.num == 0 => (0.0, 0.0),
        _ => (v.direction.x as f64, v.direction.y as f64),
    };
    let a = y.atan2(x);
    if a < 0.0 { a + 2.0 * std::f64::consts::PI } else { a }
}

#[test]
fn square_seen_from_the_left() {
    let caster = Raycast2d { obstacles: vec![square_obstacle(50)] };
    let source = ViewSource::new(p(-300, 0), 1000);
    let poly = view_polygon(&source, &caster);
    assert_eq!(poly.hub, p(-300, 0));
    assert_eq!(poly.view_distance, 1000);
    assert_eq!(poly.outer.len(), 24);
    assert_eq!(poly.indices.len(), 3 * 24);
    let mut on_left_edge = 0;
    for v in &poly.outer {
        match v.hit {
            Some((id, h)) => {
                assert_eq!(id, 7);
                let x = h.position.x as f64 / h.position.den as f64;
                let y = h.position.y as f64 / h.position.den as f64;
                assert!(x >= -50.0 && x <= 50.0 && y >= -50.0 && y <= 50.0);
                assert!(x == -50.0 || y.abs() == 50.0);
                if h.position.x == -50 * h.position.den {
                    on_left_edge += 1;
                }
            }
            None => {}
        }
    }
    assert!(on_left_edge > 0);
    assert!(poly.outer.iter().any(|v| v.hit.is_none()));
}

#[test]
fn no_obstacles_full_circle() {
    let caster = Raycast2d { obstacles: vec![] };
    let poly = view_polygon(&ViewSource::new(p(0, 0), 500), &caster);
    assert_eq!(poly.outer.len(), 8);
    assert!(poly.outer.iter().all(|v| v.hit.is_none()));
    assert_eq!(poly.view_distance, 500);
    assert_eq!(poly.indices.len(), 24);
    assert_eq!(&poly.indices[0..3], &[0, 1, 2]);
    assert_eq!(&poly.indices[21..24], &[0, 8, 1]);
    assert_eq!(poly.outer[0].direction, p(1, 0));
    assert_eq!(poly.outer[2].direction, p(0, 1));
}

#[test]
fn observer_on_obstacle_vertex() {
    let caster = Raycast2d { obstacles: vec![square_obstacle(50)] };
    let poly = view_polygon(&ViewSource::new(p(-50, -50), 400), &caster);
    assert_eq!(poly.outer.len(), 22);
    assert!(poly.outer.iter().all(|v| v.direction != p(0, 0)));
    assert_eq!(poly.indices.len(), 3 * poly.outer.len());
}

#[test]
fn outer_vertices_sorted_by_angle() {
    let caster = Raycast2d { obstacles: vec![square_obstacle(50)] };
    for &(x, y) in &[(-300, 0), (0, 200), (120, -90), (10, 10)] {
        let poly = view_polygon(&ViewSource::new(p(x, y), 1000), &caster);
        for w in poly.outer.windows(2) {
            assert!(angle(&w[0]) <= angle(&w[1]) + 1e-12);
        }
    }
}

#[test]
fn too_few_samples_give_empty_polygon() {
    let lines = vec![(3u64, Seg2d(p(5, 5), p(5, 5)))];
    assert_eq!(sample_directions(p(0, 0), &lines).len(), 2);
    let poly = view_polygon_among(&ViewSource::new(p(0, 0), 10), &lines);
    assert!(poly.outer.is_empty());
    assert!(poly.indices.is_empty());
}

#[test]
fn corner_samples() {
    let lines = vec![(0u64, Seg2d(p(10, 0), p(10, 100)))];
    let d = sample_directions(p(0, 0), &lines);
    assert_eq!(d, vec![p(10, 0), p(1000, -1600), p(1000, 1200), p(10, 100), p(1000, 11600), p(1000, 8800)]);
}

#[test]
fn fan_closes() {
    assert_eq!(fan_indices(3), vec![0, 1, 2, 0, 2, 3, 0, 3, 1]);
    assert_eq!(fan_indices(4).len(), 12);
}

#[test]
fn angle_order() {
    assert!(angle_from_front_le(p(1, 0), p(0, 1)));
    assert!(!angle_from_front_le(p(0, -1), p(0, 1)));
    assert!(angle_from_front_le(p(0, 0), p(1, 0)));
    assert!(angle_from_front_le(p(-1, 0), p(0, -1)));
    assert!(angle_from_front_le(p(-1, 1), p(-1, 0)));
    assert!(!angle_from_front_le(p(1, -1), p(1, 0)));
}
