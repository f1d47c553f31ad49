use view_cone_2d::geometry::{Point, Ray2d, Transform2d};
use view_cone_2d::mesh::{remove_duplicates, GeometryError, Mesh2d, RaycastMesh2d};
use view_cone_2d::raycast::{Obstacle, Raycast2d};
use view_cone_2d::segment::Seg2d;

fn p(x: i64, y: i64) -> Point {
    Point::new(x, y)
}

fn ray(ox: i64, oy: i64, dx: i64, dy: i64) -> Ray2d {
    Ray2d::new(p(ox, oy), p(dx, dy)).unwrap()
}

fn square_mesh(half: i64) -> Mesh2d {
    Mesh2d {
        positions: Some(vec![p(-half, -half), p(half, -half), p(half, half), p(-half, half)]),
        indices: Some(vec![0, 1, 2, 0, 2, 3]),
    }
}

#[test]
fn hit_straight_on() {
    let s = Seg2d(p(0, -10), p(0, 10));
    let h = s.intersection(ray(-20, 0, 1, 0)).unwrap();
    assert_eq!(h.distance.num, 20 * h.distance.den);
    assert_eq!(h.position.x, 0);
    assert_eq!(h.position.y, 0);
    assert_eq!(h.normal, p(-20, 0));
    let h2 = s.intersection(ray(30, 5, -1, 0)).unwrap();
    assert_eq!(h2.distance.num, 30 * h2.distance.den);
    assert_eq!(h2.position.y, 5 * h2.position.den);
    assert_eq!(h2.normal, p(20, 0));
}

#[test]
fn closest_normal_faces_the_ray() {
    let s = Seg2d(p(0, -10), p(0, 10));
    assert_eq!(s.get_closest_normal(ray(-20, 0, 1, 0)), p(-20, 0));
    assert_eq!(s.get_closest_normal(ray(20, 0, -1, 0)), p(20, 0));
}

#[test]
fn parallel_ray_misses() {
    let s = Seg2d(p(0, -10), p(0, 10));
    assert!(s.intersection(ray(-20, 0, 0, 1)).is_none());
    assert!(s.intersection(ray(0, -30, 0, 1)).is_none());
}

#[test]
fn ray_pointing_away_misses() {
    let s = Seg2d(p(0, -10), p(0, 10));
    assert!(s.intersection(ray(20, 0, 1, 0)).is_none());
}

#[test]
fn half_length_bound() {
    let s = Seg2d(p(0, -10), p(0, 10));
    assert!(s.intersection(ray(-20, 10, 1, 0)).is_some());
    assert!(s.intersection(ray(-20, 11, 1, 0)).is_none());
    assert!(s.intersection(ray(-20, -11, 1, 0)).is_none());
}

#[test]
fn ray_from_normal_offset_hits_midpoint() {
    let s = Seg2d(p(0, 0), p(4, 0));
    let (n0, n1) = s.get_normals();
    assert_eq!(n0, p(0, 4));
    let h = s.intersection(ray(2, 4, -n0.x, -n0.y)).unwrap();
    assert_eq!(h.distance.num, h.distance.den);
    assert_eq!((h.position.x, h.position.y), (2 * h.position.den, 0));
    assert_eq!(h.normal, n0);
    let h = s.intersection(ray(2, -12, -n1.x, -n1.y)).unwrap();
    assert_eq!(h.distance.num, 3 * h.distance.den);
    assert_eq!(h.normal, n1);
    let h = s.intersection(ray(2, 0, -n0.x, -n0.y)).unwrap();
    assert_eq!(h.distance.num, 0);
}

#[test]
fn square_mesh_edges_deduplicated() {
    let lines = square_mesh(50).to_lines().unwrap();
    assert_eq!(lines.len(), 5);
    for i in 0..lines.len() {
        for j in (i + 1)..lines.len() {
            assert!(lines[i] != lines[j]);
        }
    }
    assert!(lines.contains(&Seg2d(p(-50, -50), p(50, 50))));
    assert!(lines.contains(&Seg2d(p(-50, 50), p(-50, -50))));
}

#[test]
fn leftover_indices_form_no_triangle() {
    let m = Mesh2d {
        positions: Some(vec![p(0, 0), p(10, 0), p(0, 10), p(10, 10)]),
        indices: Some(vec![0, 1, 2, 3]),
    };
    let lines = m.to_lines().unwrap();
    assert_eq!(lines.len(), 3);
    assert!(!lines.iter().any(|l| l.0 == p(10, 10) || l.1 == p(10, 10)));
    let m2 = Mesh2d {
        positions: Some(vec![p(0, 0), p(10, 0), p(0, 10), p(10, 10)]),
        indices: Some(vec![1, 3, 2]),
    };
    let lines2 = m2.to_lines().unwrap();
    assert_eq!(lines2[0], Seg2d(p(10, 0), p(10, 10)));
    assert_eq!(lines2[1], Seg2d(p(10, 10), p(0, 10)));
    assert_eq!(lines2[2], Seg2d(p(0, 10), p(10, 0)));
}

#[test]
fn mesh_errors() {
    let no_pos = Mesh2d { positions: None, indices: Some(vec![0, 1, 2]) };
    assert_eq!(no_pos.to_lines().unwrap_err(), GeometryError::MissingPositions);
    let no_idx = Mesh2d { positions: Some(vec![p(0, 0)]), indices: None };
    assert_eq!(no_idx.to_lines().unwrap_err(), GeometryError::MissingIndices);
    let far = Mesh2d { positions: Some(vec![p(0, 0), p(2_000_000, 0), p(0, 1)]), indices: Some(vec![0, 1, 2]) };
    assert_eq!(far.to_lines().unwrap_err(), GeometryError::CoordinateOutOfRange);
    let bad = Mesh2d { positions: Some(vec![p(0, 0), p(1, 0), p(0, 1)]), indices: Some(vec![0, 1, 3]) };
    assert_eq!(bad.to_lines().unwrap_err(), GeometryError::IndexOutOfRange);
    assert!(RaycastMesh2d::from_mesh(&bad).is_err());
}

#[test]
fn duplicates_removed_in_either_order() {
    let out = remove_duplicates(vec![
        Seg2d(p(0, 0), p(1, 0)),
        Seg2d(p(1, 0), p(0, 0)),
        Seg2d(p(0, 0), p(1, 0)),
        Seg2d(p(2, 2), p(3, 3)),
    ]);
    assert_eq!(out.len(), 2);
    assert_eq!(out[0], Seg2d(p(0, 0), p(1, 0)));
    assert_eq!(out[1], Seg2d(p(2, 2), p(3, 3)));
}

#[test]
fn world_lines_follow_transform() {
    let mesh = RaycastMesh2d::from_mesh(&square_mesh(10)).unwrap();
    let t = Transform2d::from_parts(65536, 0, 0, 65536, p(100, 0)).unwrap();
    let world = mesh.get_transformed_lines(&t);
    assert_eq!(world.len(), mesh.lines.len());
    for (w, l) in world.iter().zip(mesh.lines.iter()) {
        assert_eq!(w.0, p(l.0.x + 100, l.0.y));
        assert_eq!(w.1, p(l.1.x + 100, l.1.y));
    }
    let hits = mesh.get_intersections(ray(0, 0, 1, 0), &t);
    assert!(hits.len() >= 2);
}

#[test]
fn cast_ray_sorted_by_distance() {
    let near = Obstacle {
        id: 1,
        mesh: RaycastMesh2d::from_mesh(&square_mesh(10)).unwrap(),
        transform: Transform2d::from_parts(65536, 0, 0, 65536, p(100, 0)).unwrap(),
    };
    let far = Obstacle {
        id: 2,
        mesh: RaycastMesh2d::from_mesh(&square_mesh(10)).unwrap(),
        transform: Transform2d::from_parts(65536, 0, 0, 65536, p(50, 0)).unwrap(),
    };
    let caster = Raycast2d { obstacles: vec![near, far] };
    let hits = caster.cast_ray(ray(0, 0, 1, 0));
    assert!(hits.len() >= 4);
    for w in hits.windows(2) {
        let (a, b) = (w[0].1.distance, w[1].1.distance);
        assert!(a.num * b.den <= b.num * a.den);
    }
    assert_eq!(hits[0].0, 2);
    assert_eq!(hits[0].1.distance.num, 40 * hits[0].1.distance.den);
    assert_eq!(hits[hits.len() - 1].0, 1);
    assert!(caster.cast_ray(ray(0, 0, -1, 0)).is_empty());
}

#[test]
fn mesh_transformed_lines() {
    let t = Transform2d::from_parts(65536, 0, 0, 65536, p(0, 30)).unwrap();
    let local = square_mesh(5).to_lines().unwrap();
    let world = square_mesh(5).to_transformed_lines(&t).unwrap();
    assert_eq!(world.len(), local.len());
    for (w, l) in world.iter().zip(local.iter()) {
        assert_eq!(*w, Seg2d(p(l.0.x, l.0.y + 30), p(l.1.x, l.1.y + 30)));
    }
    let no_pos = Mesh2d { positions: None, indices: None };
    assert_eq!(no_pos.to_transformed_lines(&t).unwrap_err(), GeometryError::MissingPositions);
}
