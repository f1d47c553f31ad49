//! Undirected segments and the midpoint/front-normal ray intersection.
use vstd::prelude::*;

use crate::geometry::{
    abs, cross, dir_in_range, dot, sq_len, Frac, Point, RatPoint, Ray2d, Transform2d,
};

verus! {

/// An undirected edge between two grid points. Two segments are equal when
/// they join the same two points, in either order.
#[derive(Clone, Copy, Debug)]
pub struct Seg2d(pub Point, pub Point);

/// An obstacle edge; the same type as `Seg2d`.
pub type Line = Seg2d;

/// The result of a ray against one segment: where the ray meets it, the
/// segment's normal facing the ray, and the distance along the ray in
/// multiples of the ray's direction vector.
#[derive(Clone, Copy, Debug, PartialEq, Eq, Structural)]
pub struct IntersectionData2d {
    pub position: RatPoint,
    pub normal: Point,
    pub distance: Frac,
}

impl IntersectionData2d {
    /// The same intersection at another position.
    pub fn with_position(&self, position: RatPoint) -> (r: IntersectionData2d)
        ensures
            r == (IntersectionData2d { position, ..*self }),
    {
        IntersectionData2d { position, normal: self.normal, distance: self.distance }
    }
}

/// `p` before `q` in lexicographic order of `(x, y)`.
pub open spec fn lex_le(p: Point, q: Point) -> bool {
    p.x < q.x || (p.x == q.x && p.y <= q.y)
}

impl PartialEq for Seg2d {
    fn eq(&self, other: &Seg2d) -> (r: bool)
        ensures
            r == self.same(*other),
    {
        (self.0 == other.0 && self.1 == other.1) || (self.0 == other.1 && self.1 == other.0)
    }
}

impl vstd::std_specs::cmp::PartialEqSpecImpl for Seg2d {
    open spec fn obeys_eq_spec() -> bool {
        true
    }

    open spec fn eq_spec(&self, other: &Seg2d) -> bool {
        self.same(*other)
    }
}

impl Eq for Seg2d {}

impl Seg2d {
    /// Both segments join the same two points.
    pub open spec fn same(self, other: Seg2d) -> bool {
        (self.0 == other.0 && self.1 == other.1) || (self.0 == other.1 && self.1 == other.0)
    }

    pub open spec fn in_range(self) -> bool {
        self.0.in_range() && self.1.in_range()
    }

    /// The endpoints, lexicographically smaller first.
    pub open spec fn canonical_spec(self) -> (Point, Point) {
        if lex_le(self.0, self.1) {
            (self.0, self.1)
        } else {
            (self.1, self.0)
        }
    }

    /// The direction vector, end minus start.
    pub open spec fn dir(self) -> (int, int) {
        (self.1.x - self.0.x, self.1.y - self.0.y)
    }

    /// Twice the midpoint.
    pub open spec fn doubled_mid(self) -> (int, int) {
        (self.0.x + self.1.x, self.0.y + self.1.y)
    }

    /// The two perpendicular normals `(-dy, dx)` and `(dy, -dx)`.
    pub open spec fn normals(self) -> ((int, int), (int, int)) {
        ((-self.dir().1, self.dir().0), (self.dir().1, -self.dir().0))
    }

    /// The normal that makes an angle of more than 90 degrees with `v`,
    /// the first one unless that one does not.
    pub open spec fn front_normal(self, v: (int, int)) -> (int, int) {
        if dot(self.normals().0, v) < 0 {
            self.normals().0
        } else {
            self.normals().1
        }
    }

    /// Twice the ray's origin-to-midpoint vector: `2 * (m - o)`.
    pub open spec fn doubled_offset(self, ray: Ray2d) -> (int, int) {
        (self.doubled_mid().0 - 2 * ray.origin.x, self.doubled_mid().1 - 2 * ray.origin.y)
    }

    /// Numerator of the distance to the line through the midpoint with the
    /// front normal `n`: `n . 2(m - o)`.
    pub open spec fn plane_num(self, ray: Ray2d) -> int {
        dot(self.front_normal(ray.direction@), self.doubled_offset(ray))
    }

    /// Denominator of that distance: `2 (n . v)`; zero where the ray is
    /// parallel to the line.
    pub open spec fn plane_den(self, ray: Ray2d) -> int {
        2 * dot(self.front_normal(ray.direction@), ray.direction@)
    }

    /// `2 D (p - m)` for the candidate point `p = o + (N / D) v`, where `N`
    /// and `D` are the numerator and denominator above.
    pub open spec fn scaled_offset_from_mid(self, ray: Ray2d) -> (int, int) {
        (
            2 * self.plane_num(ray) * ray.direction.x - self.plane_den(ray)
                * self.doubled_offset(ray).0,
            2 * self.plane_num(ray) * ray.direction.y - self.plane_den(ray)
                * self.doubled_offset(ray).1,
        )
    }

    /// The ray meets the segment: it is not parallel to the line, the
    /// distance `N / D` is not negative, and the point it gives lies within
    /// half the segment's length of the midpoint (`|p - m| <= len / 2`, here
    /// squared and multiplied out).
    pub open spec fn hits(self, ray: Ray2d) -> bool {
        &&& self.plane_den(ray) != 0
        &&& self.plane_num(ray) * self.plane_den(ray) >= 0
        &&& sq_len(self.scaled_offset_from_mid(ray)) <= self.plane_den(ray) * self.plane_den(ray)
            * sq_len(self.dir())
    }

    /// The intersection where `hits` holds: position `o + (N / D) v` over
    /// the positive denominator `-D`, the front normal, and distance `N / D`.
    pub open spec fn hit_spec(self, ray: Ray2d) -> IntersectionData2d {
        let num = -self.plane_num(ray);
        let den = -self.plane_den(ray);
        let n = self.front_normal(ray.direction@);
        IntersectionData2d {
            position: RatPoint {
                x: (den * ray.origin.x + num * ray.direction.x) as i128,
                y: (den * ray.origin.y + num * ray.direction.y) as i128,
                den: den as i128,
            },
            normal: Point { x: n.0 as i64, y: n.1 as i64 },
            distance: Frac { num: num as i128, den: den as i128 },
        }
    }

    pub open spec fn intersection_spec(self, ray: Ray2d) -> Option<IntersectionData2d> {
        if self.hits(ray) {
            Some(self.hit_spec(ray))
        } else {
            None
        }
    }

    /// The endpoints in a fixed order that does not depend on the order in
    /// which the segment was built: what a hash of it is taken from.
    pub fn canonical(&self) -> (r: (Point, Point))
        ensures
            r == self.canonical_spec(),
    {
        if self.0.x < self.1.x || (self.0.x == self.1.x && self.0.y <= self.1.y) {
            (self.0, self.1)
        } else {
            (self.1, self.0)
        }
    }

    /// Twice the midpoint over the denominator 2: the midpoint itself.
    pub fn get_middle(&self) -> (r: RatPoint)
        requires
            self.in_range(),
        ensures
            r.x == self.doubled_mid().0,
            r.y == self.doubled_mid().1,
            r.den == 2,
    {
        RatPoint {
            x: self.0.x as i128 + self.1.x as i128,
            y: self.0.y as i128 + self.1.y as i128,
            den: 2,
        }
    }

    /// The two normals `(-dy, dx)` and `(dy, -dx)`.
    pub fn get_normals(&self) -> (r: (Point, Point))
        requires
            self.in_range(),
        ensures
            r.0@ == self.normals().0,
            r.1@ == self.normals().1,
    {
        let dx = self.1.x - self.0.x;
        let dy = self.1.y - self.0.y;
        (Point { x: -dy, y: dx }, Point { x: dy, y: -dx })
    }

    /// The normal that faces the ray (see `front_normal`).
    pub fn get_closest_normal(&self, ray: Ray2d) -> (r: Point)
        requires
            self.in_range(),
            ray.wf(),
        ensures
            r@ == self.front_normal(ray.direction@),
    {
        let normals = self.get_normals();
        let v = ray.direction;
        proof {
            lemma_mul_bound(normals.0.x as int, v.x as int, 2097152, 17592186044416);
            lemma_mul_bound(normals.0.y as int, v.y as int, 2097152, 17592186044416);
        }
        let d: i128 = normals.0.x as i128 * v.x as i128 + normals.0.y as i128 * v.y as i128;
        if d < 0 {
            normals.0
        } else {
            normals.1
        }
    }

    /// The squared length.
    pub open spec fn sq_length(self) -> int {
        sq_len(self.dir())
    }

    /// The length, rounded down to a whole grid unit.
    pub fn length(&self) -> (r: u64)
        requires
            self.in_range(),
        ensures
            r * r <= self.sq_length() < (r + 1) * (r + 1),
    {
        let dx = (self.1.x - self.0.x) as i128;
        let dy = (self.1.y - self.0.y) as i128;
        proof {
            lemma_mul_bound(dx as int, dx as int, 2097152, 2097152);
            lemma_mul_bound(dy as int, dy as int, 2097152, 2097152);
            assert(dx * dx >= 0 && dy * dy >= 0) by (nonlinear_arith);
        }
        let sq = (dx * dx + dy * dy) as u64;
        crate::geometry::isqrt(sq)
    }

    /// The segment with both endpoints under `t`, or `None` where one of
    /// them leaves the grid.
    pub fn transformed(&self, t: &Transform2d) -> (r: Option<Seg2d>)
        requires
            self.in_range(),
            t.wf(),
        ensures
            r == transformed_spec(*self, *t),
    {
        match (t.transform_point(self.0), t.transform_point(self.1)) {
            (Some(p), Some(q)) => Some(Seg2d(p, q)),
            _ => None,
        }
    }

    /// Where `ray` meets this segment, by the midpoint/front-normal method:
    /// the ray is intersected with the line through the midpoint whose
    /// normal faces the ray, and the point is kept where it lies within half
    /// the segment's length of the midpoint. No margin widens that bound:
    /// the arithmetic is exact.
    pub fn intersection(&self, ray: Ray2d) -> (r: Option<IntersectionData2d>)
        requires
            self.in_range(),
            ray.wf(),
        ensures
            r == self.intersection_spec(ray),
            r matches Some(h) ==> h.distance.bounded(),
    {
        let mid = self.get_middle();
        let n = self.get_closest_normal(ray);
        let o = ray.origin;
        let v = ray.direction;
        let wx: i128 = mid.x - 2 * o.x as i128;
        let wy: i128 = mid.y - 2 * o.y as i128;
        proof {
            lemma_mul_bound(n.x as int, wx as int, 2097152, 4194304);
            lemma_mul_bound(n.y as int, wy as int, 2097152, 4194304);
            lemma_mul_bound(n.x as int, v.x as int, 2097152, 17592186044416);
            lemma_mul_bound(n.y as int, v.y as int, 2097152, 17592186044416);
            lemma_mul_bound(v.x as int, wy as int, 17592186044416, 4194304);
            lemma_mul_bound(v.y as int, wx as int, 17592186044416, 4194304);
        }
        let plane_num: i128 = n.x as i128 * wx + n.y as i128 * wy;
        let plane_den: i128 = 2 * (n.x as i128 * v.x as i128 + n.y as i128 * v.y as i128);
        proof {
            self.lemma_front_normal_opposes(ray);
        }
        if plane_den == 0 {
            return None;
        }
        let num = -plane_num;
        let den = -plane_den;
        if num < 0 {
            return None;
        }
        let ray_cross: i128 = v.x as i128 * wy - v.y as i128 * wx;
        let seg_cross: i128 = plane_den / 2;
        proof {
            self.lemma_bound_by_crosses(ray);
        }
        let within = if ray_cross < 0 {
            if seg_cross < 0 {
                -ray_cross <= -seg_cross
            } else {
                -ray_cross <= seg_cross
            }
        } else {
            if seg_cross < 0 {
                ray_cross <= -seg_cross
            } else {
                ray_cross <= seg_cross
            }
        };
        if !within {
            return None;
        }
        proof {
            lemma_mul_bound(den as int, o.x as int, 147573952589676412928, 1048576);
            lemma_mul_bound(den as int, o.y as int, 147573952589676412928, 1048576);
            lemma_mul_bound(num as int, v.x as int, 17592186044416, 17592186044416);
            lemma_mul_bound(num as int, v.y as int, 17592186044416, 17592186044416);
        }
        Some(
            IntersectionData2d {
                position: RatPoint {
                    x: den * o.x as i128 + num * v.x as i128,
                    y: den * o.y as i128 + num * v.y as i128,
                    den,
                },
                normal: n,
                distance: Frac { num, den },
            },
        )
    }
}

/// The segment with both endpoints placed by `t`, where both stay on the
/// grid.
pub open spec fn transformed_spec(s: Seg2d, t: Transform2d) -> Option<Seg2d> {
    match (t.place(s.0), t.place(s.1)) {
        (Some(p), Some(q)) => Some(Seg2d(p, q)),
        _ => None,
    }
}

/// `(n . w) v - (n . v) w = cross(v, w) d` for the normal `n = (-dy, dx)`
/// of `d`, and `-cross(v, w) d` for `n = (dy, -dx)`, in each coordinate.
proof fn lemma_normal_identity(d0: int, d1: int, w0: int, w1: int, v0: int, v1: int)
    ensures
        ((-d1) * w0 + d0 * w1) * v0 - ((-d1) * v0 + d0 * v1) * w0 == (v0 * w1 - v1 * w0) * d0,
        ((-d1) * w0 + d0 * w1) * v1 - ((-d1) * v0 + d0 * v1) * w1 == (v0 * w1 - v1 * w0) * d1,
        (d1 * w0 + (-d0) * w1) * v0 - (d1 * v0 + (-d0) * v1) * w0 == -((v0 * w1 - v1 * w0) * d0),
        (d1 * w0 + (-d0) * w1) * v1 - (d1 * v0 + (-d0) * v1) * w1 == -((v0 * w1 - v1 * w0) * d1),
{
    lemma_triple_identity(d1, d0, w0, w1, v0, v1);
    lemma_triple_identity(d1, d0, w0, w1, v1, v0);
    lemma_triple_identity(-d1, -d0, w0, w1, v0, v1);
    lemma_triple_identity(-d1, -d0, w0, w1, v1, v0);
    assert((v1 * w0 - v0 * w1) * d1 == -((v0 * w1 - v1 * w0) * d1)) by (nonlinear_arith);
    assert((v0 * w1 - v1 * w0) * (-d0) == -((v0 * w1 - v1 * w0) * d0)) by (nonlinear_arith);
    assert((v1 * w0 - v0 * w1) * (-d1) == (v0 * w1 - v1 * w0) * d1) by (nonlinear_arith);
    assert((v0 * w1 - v1 * w0) * (-d1) == -((v0 * w1 - v1 * w0) * d1)) by (nonlinear_arith);
    assert(((-(-d1)) * w0 + (-d0) * w1) == (d1 * w0 + (-d0) * w1)) by (nonlinear_arith);
    assert(((-(-d1)) * v0 + (-d0) * v1) == (d1 * v0 + (-d0) * v1)) by (nonlinear_arith);
}

/// `((-a) w0 + b w1) x - ((-a) x + b y) w0 = (x w1 - y w0) b`.
#[verifier::rlimit(40)]
proof fn lemma_triple_identity(a: int, b: int, w0: int, w1: int, x: int, y: int)
    ensures
        ((-a) * w0 + b * w1) * x - ((-a) * x + b * y) * w0 == (x * w1 - y * w0) * b,
        ((-a) * w0 + b * w1) * y - ((-a) * x + b * y) * w1 == (x * w1 - y * w0) * a,
{
    assert(((-a) * w0 + b * w1) * x == -(a * w0 * x) + b * w1 * x) by (nonlinear_arith);
    assert(((-a) * x + b * y) * w0 == -(a * x * w0) + b * y * w0) by (nonlinear_arith);
    assert((x * w1 - y * w0) * b == b * w1 * x - b * y * w0) by (nonlinear_arith);
    assert(a * w0 * x == a * x * w0) by (nonlinear_arith);
    assert(((-a) * w0 + b * w1) * y == -(a * w0 * y) + b * w1 * y) by (nonlinear_arith);
    assert(((-a) * x + b * y) * w1 == -(a * x * w1) + b * y * w1) by (nonlinear_arith);
    assert((x * w1 - y * w0) * a == a * x * w1 - a * y * w0) by (nonlinear_arith);
    assert(b * w1 * y == b * y * w1) by (nonlinear_arith);
    assert(a * w0 * y == a * y * w0) by (nonlinear_arith);
}

pub proof fn lemma_mul_bound(a: int, b: int, ba: int, bb: int)
    requires
        abs(a) <= ba,
        abs(b) <= bb,
    ensures
        abs(a * b) <= ba * bb,
        -(ba * bb) <= a * b <= ba * bb,
{
    assert(abs(a * b) <= ba * bb) by (nonlinear_arith)
        requires
            abs(a) <= ba,
            abs(b) <= bb,
    ;
}

impl Seg2d {
    /// The front normal makes `n . v <= 0`, and `|n . v| = |cross(d, v)|`.
    proof fn lemma_front_normal_opposes(self, ray: Ray2d)
        ensures
            self.plane_den(ray) <= 0,
            self.plane_num(ray) * self.plane_den(ray) >= 0 <==> (self.plane_den(ray) == 0
                || self.plane_num(ray) <= 0),
            self.front_normal(ray.direction@) == self.normals().0 || self.front_normal(
                ray.direction@,
            ) == self.normals().1,
    {
        let den = self.plane_den(ray);
        let num = self.plane_num(ray);
        let d = self.dir();
        let v = ray.direction@;
        assert(dot(self.normals().1, v) == -dot(self.normals().0, v)) by (nonlinear_arith)
            requires
                self.normals() == ((-d.1, d.0), (d.1, -d.0)),
        ;
        assert(den <= 0);
        assert(num * den >= 0 <==> (den == 0 || num <= 0)) by (nonlinear_arith)
            requires
                den <= 0,
        ;
    }

    /// The half-length bound of `hits`, multiplied out, holds exactly when
    /// `|cross(v, w)| <= |n . v|`, for `w = 2(m - o)`.
    proof fn lemma_bound_by_crosses(self, ray: Ray2d)
        requires
            self.plane_den(ray) != 0,
        ensures
            (sq_len(self.scaled_offset_from_mid(ray)) <= self.plane_den(ray) * self.plane_den(ray)
                * sq_len(self.dir())) == (abs(cross(ray.direction@, self.doubled_offset(ray)))
                <= abs(dot(self.front_normal(ray.direction@), ray.direction@))),
    {
        let d = self.dir();
        let n = self.front_normal(ray.direction@);
        let w = self.doubled_offset(ray);
        let v = ray.direction@;
        let num = self.plane_num(ray);
        let c = dot(n, v);
        let x = cross(v, w);
        let sc = self.scaled_offset_from_mid(ray);
        let l = sq_len(d);
        let (d0, d1, w0, w1, v0, v1) = (d.0, d.1, w.0, w.1, v.0, v.1);
        assert(sc.0 == 2 * (num * v0 - c * w0) && sc.1 == 2 * (num * v1 - c * w1))
            by (nonlinear_arith)
            requires
                sc.0 == 2 * num * v0 - (2 * c) * w0,
                sc.1 == 2 * num * v1 - (2 * c) * w1,
        ;
        lemma_normal_identity(d0, d1, w0, w1, v0, v1);
        if n == self.normals().0 {
            assert(num == (-d1) * w0 + d0 * w1);
            assert(c == (-d1) * v0 + d0 * v1);
            assert(sc.0 == 2 * x * d.0 && sc.1 == 2 * x * d.1) by (nonlinear_arith)
                requires
                    sc.0 == 2 * (num * v0 - c * w0),
                    sc.1 == 2 * (num * v1 - c * w1),
                    num * v0 - c * w0 == x * d0,
                    num * v1 - c * w1 == x * d1,
                    d == (d0, d1),
            ;
        } else {
            assert(num == d1 * w0 + (-d0) * w1);
            assert(c == d1 * v0 + (-d0) * v1);
            assert(sc.0 == -2 * x * d.0 && sc.1 == -2 * x * d.1) by (nonlinear_arith)
                requires
                    sc.0 == 2 * (num * v0 - c * w0),
                    sc.1 == 2 * (num * v1 - c * w1),
                    num * v0 - c * w0 == -(x * d0),
                    num * v1 - c * w1 == -(x * d1),
                    d == (d0, d1),
            ;
        }
        assert(sq_len(sc) == 4 * (x * x) * l) by (nonlinear_arith)
            requires
                (sc.0 == 2 * x * d.0 && sc.1 == 2 * x * d.1) || (sc.0 == -2 * x * d.0 && sc.1 == -2
                    * x * d.1),
                l == d.0 * d.0 + d.1 * d.1,
        ;
        assert((2 * c) * (2 * c) * l == 4 * (c * c) * l) by (nonlinear_arith);
        if l == 0 {
            assert(d.0 == 0 && d.1 == 0) by (nonlinear_arith)
                requires
                    l == d.0 * d.0 + d.1 * d.1,
                    l == 0,
            ;
            assert(n == (0int, 0int));
            assert(c == 0);
        }
        assert(l > 0) by (nonlinear_arith)
            requires
                l == d.0 * d.0 + d.1 * d.1,
                l != 0,
        ;
        assert((4 * (x * x) * l <= 4 * (c * c) * l) == (abs(x) <= abs(c))) by (nonlinear_arith)
            requires
                l > 0,
        ;
    }
}

/// A ray that starts `k` normal-lengths out from a segment's midpoint,
/// along either of its normals, and points back along that normal, meets
/// the segment at its midpoint, at distance `k`, with that normal in front.
pub proof fn lemma_normal_ray_hits_midpoint(s: Seg2d, n: (int, int), k: int, ray: Ray2d)
    requires
        s.in_range(),
        ray.wf(),
        s.dir() != (0int, 0int),
        n == s.normals().0 || n == s.normals().1,
        k >= 0,
        ray.direction@ == (-n.0, -n.1),
        2 * ray.origin.x == s.doubled_mid().0 + 2 * k * n.0,
        2 * ray.origin.y == s.doubled_mid().1 + 2 * k * n.1,
    ensures
        s.hits(ray),
        s.front_normal(ray.direction@) == n,
        -s.plane_num(ray) == k * -s.plane_den(ray),
        2 * (-s.plane_den(ray) * ray.origin.x + -s.plane_num(ray) * ray.direction.x)
            == s.doubled_mid().0 * -s.plane_den(ray),
        2 * (-s.plane_den(ray) * ray.origin.y + -s.plane_num(ray) * ray.direction.y)
            == s.doubled_mid().1 * -s.plane_den(ray),
{
    let d = s.dir();
    let (n0, n1) = (n.0, n.1);
    let l = n0 * n0 + n1 * n1;
    assert(l > 0) by (nonlinear_arith)
        requires
            l == n0 * n0 + n1 * n1,
            n0 != 0 || n1 != 0,
    ;
    let v = ray.direction@;
    let m0 = s.normals().0;
    if n == m0 {
        assert(dot(m0, v) == -l) by (nonlinear_arith)
            requires
                m0 == (n0, n1),
                v == (-n0, -n1),
                l == n0 * n0 + n1 * n1,
        ;
    } else {
        assert(dot(m0, v) == l) by (nonlinear_arith)
            requires
                m0 == (-n0, -n1),
                v == (-n0, -n1),
                l == n0 * n0 + n1 * n1,
        ;
    }
    assert(s.front_normal(v) == n);
    let w = s.doubled_offset(ray);
    assert(w == (-(2 * k * n0), -(2 * k * n1)));
    let num = s.plane_num(ray);
    let den = s.plane_den(ray);
    assert(num == -2 * k * l && den == -2 * l) by (nonlinear_arith)
        requires
            num == n0 * w.0 + n1 * w.1,
            den == 2 * (n0 * v.0 + n1 * v.1),
            w == (-(2 * k * n0), -(2 * k * n1)),
            v == (-n0, -n1),
            l == n0 * n0 + n1 * n1,
    ;
    let sc = s.scaled_offset_from_mid(ray);
    assert(sc == (0int, 0int)) by (nonlinear_arith)
        requires
            sc == (2 * num * v.0 - den * w.0, 2 * num * v.1 - den * w.1),
            num == -2 * k * l,
            den == -2 * l,
            w == (-(2 * k * n0), -(2 * k * n1)),
            v == (-n0, -n1),
    ;
    let sl = sq_len(d);
    assert(sq_len(sc) <= den * den * sl && num * den >= 0) by (nonlinear_arith)
        requires
            sc == (0int, 0int),
            sl == d.0 * d.0 + d.1 * d.1,
            num == -2 * k * l,
            den == -2 * l,
            k >= 0,
    ;
    let o = ray.origin@;
    let dm = s.doubled_mid();
    assert(2 * (-den * o.0 + -num * v.0) == dm.0 * -den && 2 * (-den * o.1 + -num * v.1) == dm.1
        * -den) by (nonlinear_arith)
        requires
            2 * o.0 == dm.0 + 2 * k * n0,
            2 * o.1 == dm.1 + 2 * k * n1,
            num == -2 * k * l,
            den == -2 * l,
            v == (-n0, -n1),
    ;
    assert(-num == k * -den) by (nonlinear_arith)
        requires
            num == -2 * k * l,
            den == -2 * l,
    ;
}

/// A ray parallel to a segment's line never meets the segment.
pub proof fn lemma_parallel_ray_misses(s: Seg2d, ray: Ray2d)
    requires
        cross(s.dir(), ray.direction@) == 0,
    ensures
        s.intersection_spec(ray) is None,
{
    let d = s.dir();
    let v = ray.direction@;
    assert(dot(s.normals().0, v) == cross(d, v) && dot(s.normals().1, v) == -cross(d, v))
        by (nonlinear_arith)
        requires
            s.normals() == ((-d.1, d.0), (d.1, -d.0)),
    ;
}

/// Two segments are equal exactly when their canonical endpoint pairs
/// are: a hash taken from the canonical pair agrees with equality.
pub proof fn lemma_same_iff_canonical(s: Seg2d, t: Seg2d)
    ensures
        s.same(t) <==> s.canonical_spec() == t.canonical_spec(),
{
    if s.canonical_spec() == t.canonical_spec() {
        if lex_le(s.0, s.1) && lex_le(s.1, s.0) {
            assert(s.0 == s.1);
        }
        if lex_le(t.0, t.1) && lex_le(t.1, t.0) {
            assert(t.0 == t.1);
        }
    }
}

} // verus!
