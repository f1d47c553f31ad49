//! The visibility polygon: what an observer sees among the obstacles, as a
//! triangle fan around the observer.
use vstd::prelude::*;

use crate::geometry::{cross, dir_in_range, isqrt, Point, Ray2d};
use crate::raycast::{cast_against, tagged_hits, tagged_in_range, world_lines, Raycast2d};
use crate::segment::{IntersectionData2d, Seg2d};

verus! {

broadcast use vstd::seq_lib::group_to_multiset_ensures;

/// Distance, in grid units, from a corner to the sample just past it.
pub const CORNER_OUTWARD: i64 = 16;

/// Distance, in grid units, from a corner to the sample just before it,
/// along the edge.
pub const CORNER_INWARD: i64 = 12;

/// The observer: a position and how far it sees.
#[derive(Clone, Copy, Debug, PartialEq, Eq, Structural)]
pub struct ViewSource {
    pub position: Point,
    pub view_distance: u64,
}

impl ViewSource {
    pub fn new(position: Point, view_distance: u64) -> (r: ViewSource)
        ensures
            r.position == position,
            r.view_distance == view_distance,
    {
        ViewSource { position, view_distance }
    }
}

/// One outer vertex of the polygon: the direction sampled from the
/// observer, and the nearest obstacle hit along it with the obstacle's
/// identifier. Without a hit the vertex lies at the view distance along
/// the direction.
#[derive(Clone, Copy, Debug)]
pub struct OuterVertex {
    pub direction: Point,
    pub hit: Option<(u64, IntersectionData2d)>,
}

/// The polygon as a triangle fan: vertex 0 is the hub (the observer), the
/// outer vertices follow as 1..=N, and `indices` holds the triangles as
/// triples.
#[derive(Debug)]
pub struct VisibilityPolygon {
    pub hub: Point,
    pub view_distance: u64,
    pub outer: Vec<OuterVertex>,
    pub indices: Vec<u32>,
}

/// Directions used when there are no obstacle edges at all: the eight
/// compass directions, counter-clockwise from the positive x axis.
pub open spec fn fallback_dirs() -> Seq<(int, int)> {
    seq![(1int, 0int), (1, 1), (0, 1), (-1, 1), (-1, 0), (-1, -1), (0, -1), (1, -1)]
}

/// `r` is the square root of `n`, rounded down.
pub open spec fn is_floor_sqrt(n: int, r: int) -> bool {
    0 <= r && r * r <= n < (r + 1) * (r + 1)
}

pub open spec fn floor_sqrt(n: int) -> int {
    choose|r: int| is_floor_sqrt(n, r)
}

/// The directions sampled from `source` for one edge `(a, b)`: toward each
/// endpoint, and toward a point just past and just before each endpoint
/// along the edge. The offset points are `a - OUT d / L`, `a + IN d / L`,
/// `b + OUT d / L`, `b - IN d / L` for `d = b - a` and `L` its length
/// rounded down; their directions are scaled by `L` to stay on the grid.
/// A zero-length edge gives its endpoints only.
pub open spec fn edge_dirs(source: Point, seg: Seg2d) -> Seq<(int, int)> {
    let (a, b, s) = (seg.0, seg.1, source);
    let d = seg.dir();
    let l = floor_sqrt(seg.sq_length());
    let ea = (a.x - s.x, a.y - s.y);
    let eb = (b.x - s.x, b.y - s.y);
    if d == (0int, 0int) {
        seq![ea, eb]
    } else {
        seq![
            ea,
            (l * ea.0 - CORNER_OUTWARD * d.0, l * ea.1 - CORNER_OUTWARD * d.1),
            (l * ea.0 + CORNER_INWARD * d.0, l * ea.1 + CORNER_INWARD * d.1),
            eb,
            (l * eb.0 + CORNER_OUTWARD * d.0, l * eb.1 + CORNER_OUTWARD * d.1),
            (l * eb.0 - CORNER_INWARD * d.0, l * eb.1 - CORNER_INWARD * d.1),
        ]
    }
}

/// `s` without its zero vectors.
pub open spec fn drop_zero(s: Seq<(int, int)>) -> Seq<(int, int)>
    decreases s.len(),
{
    if s.len() == 0 {
        Seq::empty()
    } else if s.last() == (0int, 0int) {
        drop_zero(s.drop_last())
    } else {
        drop_zero(s.drop_last()).push(s.last())
    }
}

/// The non-zero sample directions of all edges, edge by edge.
pub open spec fn edge_samples(source: Point, lines: Seq<(u64, Seg2d)>) -> Seq<(int, int)>
    decreases lines.len(),
{
    if lines.len() == 0 {
        Seq::empty()
    } else {
        edge_samples(source, lines.drop_last()) + drop_zero(edge_dirs(source, lines.last().1))
    }
}

/// The directions that the polygon samples: those of the edges, or the
/// fallback directions where there is no edge.
pub open spec fn sample_dirs(source: Point, lines: Seq<(u64, Seg2d)>) -> Seq<(int, int)> {
    if lines.len() == 0 {
        fallback_dirs()
    } else {
        edge_samples(source, lines)
    }
}

/// `v` is what the observer at `source` sees along `v.direction`: no hit
/// where the ray meets no edge, else a hit of the ray, none nearer.
pub open spec fn vertex_ok(source: Point, lines: Seq<(u64, Seg2d)>, v: OuterVertex) -> bool {
    let hs = tagged_hits(lines, Ray2d { origin: source, direction: v.direction });
    &&& v.direction@ != (0int, 0int)
    &&& match v.hit {
        None => hs.len() == 0,
        Some(h) => hs.contains(h) && forall|i: int|
            0 <= i < hs.len() ==> h.1.distance.le(#[trigger] hs[i].1.distance),
    }
}

/// Which part of the turn from the positive x axis `p` lies in: the zero
/// vector first, then angles in `[0, pi)`, then `[pi, 2 pi)`.
pub open spec fn angle_class(p: (int, int)) -> int {
    if p == (0int, 0int) {
        0
    } else if p.1 > 0 || (p.1 == 0 && p.0 > 0) {
        1
    } else {
        2
    }
}

/// The angle of `p`, counter-clockwise from the positive x axis in
/// `[0, 2 pi)`, is at most that of `q`; the zero vector counts as angle 0
/// and comes before every other.
pub open spec fn angle_le(p: (int, int), q: (int, int)) -> bool {
    angle_class(p) < angle_class(q) || (angle_class(p) == angle_class(q) && (angle_class(p) == 0
        || cross(p, q) >= 0))
}

/// The vector from the observer toward the vertex: the sampled direction,
/// or zero where the hit lies at the observer itself.
pub open spec fn offset_dir(v: OuterVertex) -> (int, int) {
    match v.hit {
        Some(h) => if h.1.distance.num == 0 {
            (0int, 0int)
        } else {
            v.direction@
        },
        None => v.direction@,
    }
}

/// Outer vertices in order of non-decreasing angle around the observer.
pub open spec fn sorted_by_angle(s: Seq<OuterVertex>) -> bool {
    forall|i: int, j: int| 0 <= i < j < s.len() ==> angle_le(offset_dir(#[trigger] s[i]), offset_dir(#[trigger] s[j]))
}

/// The fan over `n` outer vertices: triangle `i` is `(0, i + 1, i + 2)`,
/// and the last one, `(0, n, 1)`, closes the fan.
pub open spec fn fan(n: int) -> Seq<u32> {
    Seq::new(
        (3 * n) as nat,
        |k: int|
            if k % 3 == 0 {
                0u32
            } else if k % 3 == 1 {
                (k / 3 + 1) as u32
            } else if k / 3 + 2 <= n {
                (k / 3 + 2) as u32
            } else {
                1u32
            },
    )
}

pub proof fn lemma_floor_sqrt_unique(n: int, r: int)
    requires
        is_floor_sqrt(n, r),
    ensures
        floor_sqrt(n) == r,
{
    let q = floor_sqrt(n);
    assert(is_floor_sqrt(n, q));
    if q < r {
        assert((q + 1) * (q + 1) <= r * r) by (nonlinear_arith)
            requires
                0 <= q < r,
        ;
    } else if q > r {
        assert((r + 1) * (r + 1) <= q * q) by (nonlinear_arith)
            requires
                0 <= r < q,
        ;
    }
}

/// In the half-turn `[0, pi)`, counter-clockwise order is transitive.
proof fn lemma_upper_trans(a0: int, a1: int, b0: int, b1: int, c0: int, c1: int)
    requires
        a1 > 0 || (a1 == 0 && a0 > 0),
        b1 > 0 || (b1 == 0 && b0 > 0),
        c1 > 0 || (c1 == 0 && c0 > 0),
        a0 * b1 - a1 * b0 >= 0,
        b0 * c1 - b1 * c0 >= 0,
    ensures
        a0 * c1 - a1 * c0 >= 0,
{
    let ab = a0 * b1 - a1 * b0;
    let bc = b0 * c1 - b1 * c0;
    let ac = a0 * c1 - a1 * c0;
    assert(ac * b1 == ab * c1 + bc * a1) by (nonlinear_arith)
        requires
            ab == a0 * b1 - a1 * b0,
            bc == b0 * c1 - b1 * c0,
            ac == a0 * c1 - a1 * c0,
    ;
    if b1 > 0 {
        assert(ab * c1 + bc * a1 >= 0) by (nonlinear_arith)
            requires
                ab >= 0,
                bc >= 0,
                c1 >= 0,
                a1 >= 0,
        ;
        assert(ac >= 0) by (nonlinear_arith)
            requires
                ac * b1 >= 0,
                b1 > 0,
        ;
    } else {
        assert(a1 == 0) by (nonlinear_arith)
            requires
                ab == a0 * b1 - a1 * b0,
                b1 == 0,
                b0 > 0,
                ab >= 0,
                a1 >= 0,
        ;
        assert(ac >= 0) by (nonlinear_arith)
            requires
                ac == a0 * c1 - a1 * c0,
                a1 == 0,
                a0 > 0,
                c1 >= 0,
        ;
    }
}

/// `angle_le` is transitive.
pub proof fn lemma_angle_le_trans(a: (int, int), b: (int, int), c: (int, int))
    requires
        angle_le(a, b),
        angle_le(b, c),
    ensures
        angle_le(a, c),
{
    if angle_class(a) == angle_class(b) && angle_class(b) == angle_class(c) {
        if angle_class(a) == 1 {
            lemma_upper_trans(a.0, a.1, b.0, b.1, c.0, c.1);
        } else if angle_class(a) == 2 {
            assert(cross(a, b) == (-a.0) * (-b.1) - (-a.1) * (-b.0)) by (nonlinear_arith);
            assert(cross(b, c) == (-b.0) * (-c.1) - (-b.1) * (-c.0)) by (nonlinear_arith);
            assert(cross(a, c) == (-a.0) * (-c.1) - (-a.1) * (-c.0)) by (nonlinear_arith);
            lemma_upper_trans(-a.0, -a.1, -b.0, -b.1, -c.0, -c.1);
        }
    }
}

/// `angle_le` is total.
pub proof fn lemma_angle_le_total(a: (int, int), b: (int, int))
    ensures
        angle_le(a, b) || angle_le(b, a),
{
    assert(cross(b, a) == -cross(a, b)) by (nonlinear_arith);
}

/// The grid vectors of `s`.
pub open spec fn views(s: Seq<Point>) -> Seq<(int, int)> {
    s.map_values(|p: Point| p@)
}

pub open spec fn dirs_ok(s: Seq<Point>) -> bool {
    forall|i: int| 0 <= i < s.len() ==> dir_in_range(#[trigger] s[i])
}

/// The sample directions of one edge (see `edge_dirs`).
fn edge_directions(source: Point, seg: Seg2d) -> (r: Vec<Point>)
    requires
        source.in_range(),
        seg.in_range(),
    ensures
        views(r@) == edge_dirs(source, seg),
        dirs_ok(r@),
{
    let ea = Point { x: seg.0.x - source.x, y: seg.0.y - source.y };
    let eb = Point { x: seg.1.x - source.x, y: seg.1.y - source.y };
    let dx = seg.1.x - seg.0.x;
    let dy = seg.1.y - seg.0.y;
    if dx == 0 && dy == 0 {
        let r = vec![ea, eb];
        proof {
            assert(views(r@) =~= edge_dirs(source, seg));
        }
        return r;
    }
    let len = seg.length();
    proof {
        lemma_floor_sqrt_unique(seg.sq_length(), len as int);
        assert(seg.sq_length() <= 8796093022208) by (nonlinear_arith)
            requires
                seg.sq_length() == dx * dx + dy * dy,
                -2097152 <= dx <= 2097152,
                -2097152 <= dy <= 2097152,
        ;
        assert(len < 4194304) by (nonlinear_arith)
            requires
                len * len <= seg.sq_length(),
                seg.sq_length() <= 8796093022208,
        ;
        crate::segment::lemma_mul_bound(len as int, ea.x as int, 4194304, 2097152);
        crate::segment::lemma_mul_bound(len as int, ea.y as int, 4194304, 2097152);
        crate::segment::lemma_mul_bound(len as int, eb.x as int, 4194304, 2097152);
        crate::segment::lemma_mul_bound(len as int, eb.y as int, 4194304, 2097152);
    }
    let l = len as i64;
    let past_a = Point { x: l * ea.x - CORNER_OUTWARD * dx, y: l * ea.y - CORNER_OUTWARD * dy };
    let before_a = Point { x: l * ea.x + CORNER_INWARD * dx, y: l * ea.y + CORNER_INWARD * dy };
    let past_b = Point { x: l * eb.x + CORNER_OUTWARD * dx, y: l * eb.y + CORNER_OUTWARD * dy };
    let before_b = Point { x: l * eb.x - CORNER_INWARD * dx, y: l * eb.y - CORNER_INWARD * dy };
    let r = vec![ea, past_a, before_a, eb, past_b, before_b];
    proof {
        assert(views(r@) =~= edge_dirs(source, seg));
    }
    r
}

/// The directions that the polygon samples (see `sample_dirs`).
pub fn sample_directions(source: Point, lines: &Vec<(u64, Seg2d)>) -> (r: Vec<Point>)
    requires
        source.in_range(),
        tagged_in_range(lines@),
    ensures
        views(r@) == sample_dirs(source, lines@),
        dirs_ok(r@),
        forall|i: int| 0 <= i < r@.len() ==> (#[trigger] r@[i])@ != (0int, 0int),
{
    if lines.len() == 0 {
        let r = vec![
            Point::new(1, 0),
            Point::new(1, 1),
            Point::new(0, 1),
            Point::new(-1, 1),
            Point::new(-1, 0),
            Point::new(-1, -1),
            Point::new(0, -1),
            Point::new(1, -1),
        ];
        proof {
            assert(views(r@) =~= fallback_dirs());
        }
        return r;
    }
    let mut out: Vec<Point> = Vec::new();
    let mut i: usize = 0;
    while i < lines.len()
        invariant
            i <= lines@.len(),
            source.in_range(),
            tagged_in_range(lines@),
            views(out@) == edge_samples(source, lines@.subrange(0, i as int)),
            dirs_ok(out@),
            forall|k: int| 0 <= k < out@.len() ==> (#[trigger] out@[k])@ != (0int, 0int),
        decreases lines@.len() - i,
    {
        let cand = edge_directions(source, lines[i].1);
        let ghost start = out@;
        let mut j: usize = 0;
        while j < cand.len()
            invariant
                j <= cand@.len(),
                dirs_ok(cand@),
                dirs_ok(out@),
                views(out@) == views(start) + drop_zero(views(cand@.subrange(0, j as int))),
                forall|k: int| 0 <= k < out@.len() ==> (#[trigger] out@[k])@ != (0int, 0int),
            decreases cand@.len() - j,
        {
            let c = cand[j];
            proof {
                assert(views(cand@.subrange(0, j + 1)).drop_last() =~= views(
                    cand@.subrange(0, j as int),
                ));
                assert(views(cand@.subrange(0, j + 1)).last() == c@);
            }
            if c.x != 0 || c.y != 0 {
                let ghost mid = out@;
                out.push(c);
                proof {
                    assert(views(out@) =~= views(mid).push(c@));
                }
            }
            j += 1;
        }
        proof {
            assert(cand@.subrange(0, cand@.len() as int) =~= cand@);
            assert(lines@.subrange(0, i + 1).drop_last() =~= lines@.subrange(0, i as int));
        }
        i += 1;
    }
    proof {
        assert(lines@.subrange(0, lines@.len() as int) =~= lines@);
    }
    out
}

/// What the observer at `source` sees along `direction`: the nearest hit
/// among the edges, or none.
fn nearest_vertex(source: Point, lines: &Vec<(u64, Seg2d)>, direction: Point) -> (r: OuterVertex)
    requires
        source.in_range(),
        tagged_in_range(lines@),
        dir_in_range(direction),
        direction@ != (0int, 0int),
    ensures
        r.direction == direction,
        vertex_ok(source, lines@, r),
{
    let ray = Ray2d { origin: source, direction };
    let hits = cast_against(lines, ray);
    let ghost th = tagged_hits(lines@, ray);
    if hits.len() == 0 {
        proof {
            assert(th.to_multiset().len() == 0);
        }
        OuterVertex { direction, hit: None }
    } else {
        let h = hits[0];
        proof {
            assert(hits@.contains(h));
            assert(th.to_multiset().count(h) > 0);
            assert forall|i: int| 0 <= i < th.len() implies h.1.distance.le(
                #[trigger] th[i].1.distance,
            ) by {
                assert(th.contains(th[i]));
                assert(hits@.to_multiset().count(th[i]) > 0);
                assert(hits@.contains(th[i]));
                let k = choose|k: int| 0 <= k < hits@.len() && hits@[k] == th[i];
                if k > 0 {
                    assert(hits@[0].1.distance.le(hits@[k].1.distance));
                }
            }
        }
        OuterVertex { direction, hit: Some(h) }
    }
}

/// The vector from the observer toward `v` (see `offset_dir`).
fn offset_of(v: &OuterVertex) -> (r: Point)
    requires
        dir_in_range(v.direction),
    ensures
        r@ == offset_dir(*v),
        dir_in_range(r),
{
    match v.hit {
        Some(h) => if h.1.distance.num == 0 {
            Point { x: 0, y: 0 }
        } else {
            v.direction
        },
        None => v.direction,
    }
}

/// Whether the angle of `p` is at most that of `q` (see `angle_le`).
pub fn angle_from_front_le(p: Point, q: Point) -> (r: bool)
    requires
        dir_in_range(p),
        dir_in_range(q),
    ensures
        r == angle_le(p@, q@),
{
    let cp: u8 = if p.x == 0 && p.y == 0 {
        0
    } else if p.y > 0 || (p.y == 0 && p.x > 0) {
        1
    } else {
        2
    };
    let cq: u8 = if q.x == 0 && q.y == 0 {
        0
    } else if q.y > 0 || (q.y == 0 && q.x > 0) {
        1
    } else {
        2
    };
    if cp != cq {
        return cp < cq;
    }
    if cp == 0 {
        return true;
    }
    proof {
        crate::segment::lemma_mul_bound(p.x as int, q.y as int, 17592186044416, 17592186044416);
        crate::segment::lemma_mul_bound(p.y as int, q.x as int, 17592186044416, 17592186044416);
    }
    p.x as i128 * q.y as i128 - p.y as i128 * q.x as i128 >= 0
}

pub open spec fn vertex_dirs_ok(s: Seq<OuterVertex>) -> bool {
    forall|i: int| 0 <= i < s.len() ==> dir_in_range((#[trigger] s[i]).direction)
}

/// The vertices in order of non-decreasing angle around the observer;
/// vertices of equal angle keep their input order.
fn sort_by_angle(v: Vec<OuterVertex>) -> (r: Vec<OuterVertex>)
    requires
        vertex_dirs_ok(v@),
    ensures
        r@.to_multiset() == v@.to_multiset(),
        sorted_by_angle(r@),
{
    let mut out: Vec<OuterVertex> = Vec::new();
    let mut i: usize = 0;
    while i < v.len()
        invariant
            i <= v@.len(),
            vertex_dirs_ok(v@),
            vertex_dirs_ok(out@),
            sorted_by_angle(out@),
            out@.to_multiset() == v@.subrange(0, i as int).to_multiset(),
        decreases v@.len() - i,
    {
        let x = v[i];
        let xo = offset_of(&x);
        let mut j: usize = 0;
        while j < out.len() && angle_from_front_le(offset_of(&out[j]), xo)
            invariant
                j <= out@.len(),
                dir_in_range(xo),
                xo@ == offset_dir(x),
                vertex_dirs_ok(out@),
                forall|k: int| 0 <= k < j ==> angle_le(offset_dir(#[trigger] out@[k]), xo@),
            decreases out@.len() - j,
        {
            j += 1;
        }
        let ghost before = out@;
        out.insert(j, x);
        proof {
            assert(out@ == before.insert(j as int, x));
            assert(v@.subrange(0, i + 1) =~= v@.subrange(0, i as int).push(x));
            if j < before.len() {
                assert(!angle_le(offset_dir(before[j as int]), xo@));
                lemma_angle_le_total(offset_dir(before[j as int]), xo@);
            }
            assert forall|a: int, b: int| 0 <= a < b < out@.len() implies angle_le(
                offset_dir(#[trigger] out@[a]),
                offset_dir(#[trigger] out@[b]),
            ) by {
                if b < j {
                    assert(out@[a] == before[a] && out@[b] == before[b]);
                } else if b == j {
                    assert(out@[a] == before[a]);
                } else if a > j {
                    assert(out@[a] == before[a - 1] && out@[b] == before[b - 1]);
                } else if a == j {
                    assert(out@[b] == before[b - 1]);
                    if b - 1 > j {
                        lemma_angle_le_trans(
                            xo@,
                            offset_dir(before[j as int]),
                            offset_dir(before[b - 1]),
                        );
                    }
                } else {
                    assert(out@[a] == before[a] && out@[b] == before[b - 1]);
                    lemma_angle_le_trans(
                        offset_dir(before[a]),
                        xo@,
                        offset_dir(before[j as int]),
                    );
                    if b - 1 > j {
                        lemma_angle_le_trans(
                            offset_dir(before[a]),
                            offset_dir(before[j as int]),
                            offset_dir(before[b - 1]),
                        );
                    }
                }
            }
            assert forall|k: int| 0 <= k < out@.len() implies dir_in_range(
                (#[trigger] out@[k]).direction,
            ) by {
                if k < j {
                    assert(out@[k] == before[k]);
                } else if k > j {
                    assert(out@[k] == before[k - 1]);
                }
            }
        }
        i += 1;
    }
    proof {
        assert(v@.subrange(0, v@.len() as int) =~= v@);
    }
    out
}

/// The fan's triangles over `n` outer vertices (see `fan`).
pub fn fan_indices(n: usize) -> (r: Vec<u32>)
    requires
        n < 4294967295,
    ensures
        r@ == fan(n as int),
{
    let mut out: Vec<u32> = Vec::new();
    let mut i: usize = 0;
    while i < n
        invariant
            i <= n < 4294967295,
            out@.len() == 3 * i,
            forall|k: int| 0 <= k < 3 * i ==> out@[k] == #[trigger] fan(n as int)[k],
        decreases n - i,
    {
        out.push(0);
        out.push((i + 1) as u32);
        if i + 2 <= n {
            out.push((i + 2) as u32);
        } else {
            out.push(1);
        }
        proof {
            assert forall|k: int| 3 * i <= k < 3 * i + 3 implies out@[k] == #[trigger] fan(
                n as int,
            )[k] by {
                assert(k / 3 == i);
                assert(k % 3 == k - 3 * i);
            }
        }
        i += 1;
    }
    proof {
        assert(out@ =~= fan(n as int));
    }
    out
}

/// `r` is the visibility polygon of `source` among the tagged world edges
/// `lines`: with fewer than three sample directions (or more than 32-bit
/// indices can name) it is empty; otherwise its outer vertices are one per
/// sample direction, each the nearest hit along it or none, ordered by
/// angle around the observer, and its triangles close the fan.
pub open spec fn polygon_ok(source: ViewSource, lines: Seq<(u64, Seg2d)>, r: VisibilityPolygon) -> bool {
    let dirs = sample_dirs(source.position, lines);
    &&& r.hub == source.position
    &&& r.view_distance == source.view_distance
    &&& (dirs.len() < 3 || dirs.len() >= 4294967295) ==> r.outer@.len() == 0 && r.indices@.len() == 0
    &&& (3 <= dirs.len() < 4294967295) ==> {
        &&& exists|vs: Seq<OuterVertex>|
            vs.len() == dirs.len() && (forall|i: int|
                0 <= i < vs.len() ==> (#[trigger] vs[i]).direction@ == dirs[i])
                && r.outer@.to_multiset() == #[trigger] vs.to_multiset()
        &&& forall|i: int|
            0 <= i < r.outer@.len() ==> vertex_ok(source.position, lines, #[trigger] r.outer@[i])
        &&& sorted_by_angle(r.outer@)
        &&& r.indices@ == fan(r.outer@.len() as int)
        &&& r.indices@.len() == 3 * r.outer@.len()
    }
}

/// The visibility polygon of `source` among the tagged world edges
/// `lines` (see `polygon_ok`).
pub fn view_polygon_among(source: &ViewSource, lines: &Vec<(u64, Seg2d)>) -> (r: VisibilityPolygon)
    requires
        source.position.in_range(),
        tagged_in_range(lines@),
    ensures
        polygon_ok(*source, lines@, r),
{
    let dirs = sample_directions(source.position, lines);
    let ghost sd = sample_dirs(source.position, lines@);
    assert(dirs@.len() == sd.len());
    if dirs.len() < 3 || dirs.len() >= 4294967295 {
        return VisibilityPolygon {
            hub: source.position,
            view_distance: source.view_distance,
            outer: Vec::new(),
            indices: Vec::new(),
        };
    }
    let mut verts: Vec<OuterVertex> = Vec::new();
    let mut i: usize = 0;
    while i < dirs.len()
        invariant
            i <= dirs@.len(),
            source.position.in_range(),
            tagged_in_range(lines@),
            dirs_ok(dirs@),
            forall|k: int| 0 <= k < dirs@.len() ==> (#[trigger] dirs@[k])@ != (0int, 0int),
            verts@.len() == i,
            forall|k: int| 0 <= k < i ==> (#[trigger] verts@[k]).direction == dirs@[k],
            forall|k: int| 0 <= k < i ==> vertex_ok(source.position, lines@, #[trigger] verts@[k]),
        decreases dirs@.len() - i,
    {
        let v = nearest_vertex(source.position, lines, dirs[i]);
        verts.push(v);
        i += 1;
    }
    proof {
        assert forall|k: int| 0 <= k < verts@.len() implies (#[trigger] verts@[k]).direction@ == sd[k] by {
            assert(views(dirs@)[k] == dirs@[k]@);
        }
        assert(vertex_dirs_ok(verts@));
    }
    let ghost vs = verts@;
    let outer = sort_by_angle(verts);
    proof {
        assert(outer@.len() == vs.len()) by {
            assert(outer@.to_multiset().len() == vs.to_multiset().len());
        }
        assert forall|k: int| 0 <= k < outer@.len() implies vertex_ok(source.position, lines@, #[trigger] outer@[k]) by {
            assert(outer@.contains(outer@[k]));
            assert(vs.to_multiset().count(outer@[k]) > 0);
            assert(vs.contains(outer@[k]));
        }
    }
    let indices = fan_indices(outer.len());
    VisibilityPolygon {
        hub: source.position,
        view_distance: source.view_distance,
        outer,
        indices,
    }
}

/// The visibility polygon of `source` among the obstacles of `caster`.
pub fn view_polygon(source: &ViewSource, caster: &Raycast2d) -> (r: VisibilityPolygon)
    requires
        source.position.in_range(),
        caster.wf(),
    ensures
        polygon_ok(*source, world_lines(caster.obstacles@), r),
{
    let lines = caster.world_lines();
    view_polygon_among(source, &lines)
}

} // verus!
