//! Points, rays, fractions and rigid transforms on the integer grid.
use vstd::prelude::*;

verus! {

/// Largest magnitude of a coordinate that the geometry accepts, in grid units.
pub const COORD_LIMIT: i64 = 1048576;

/// Largest magnitude of a ray direction component.
pub const DIR_LIMIT: i64 = 17592186044416;

/// Denominator of the fixed-point entries of a transform's linear part.
pub const FIXED_ONE: i64 = 65536;

/// Largest magnitude of a transform's linear entries (a scale of up to 256).
pub const MATRIX_LIMIT: i64 = 16777216;

pub open spec fn dot(a: (int, int), b: (int, int)) -> int {
    a.0 * b.0 + a.1 * b.1
}

pub open spec fn cross(a: (int, int), b: (int, int)) -> int {
    a.0 * b.1 - a.1 * b.0
}

pub open spec fn sub(a: (int, int), b: (int, int)) -> (int, int) {
    (a.0 - b.0, a.1 - b.1)
}

pub open spec fn sq_len(a: (int, int)) -> int {
    dot(a, a)
}

pub open spec fn abs(a: int) -> int {
    if a < 0 { -a } else { a }
}

/// A point (or a vector) on the integer grid.
#[derive(Clone, Copy, Debug, PartialEq, Eq, Structural)]
pub struct Point {
    pub x: i64,
    pub y: i64,
}

impl View for Point {
    type V = (int, int);

    open spec fn view(&self) -> (int, int) {
        (self.x as int, self.y as int)
    }
}

impl Point {
    /// Both coordinates lie within `COORD_LIMIT`.
    pub open spec fn in_range(self) -> bool {
        -COORD_LIMIT <= self.x <= COORD_LIMIT && -COORD_LIMIT <= self.y <= COORD_LIMIT
    }

    pub fn new(x: i64, y: i64) -> (r: Point)
        ensures
            r.x == x,
            r.y == y,
    {
        Point { x, y }
    }
}

/// The exact fraction `num / den`, with `den > 0`.
#[derive(Clone, Copy, Debug, PartialEq, Eq, Structural)]
pub struct Frac {
    pub num: i128,
    pub den: i128,
}

impl Frac {
    pub open spec fn wf(self) -> bool {
        self.den > 0
    }

    /// Small enough that two such fractions compare without overflow:
    /// `0 <= num <= 2^45`, `0 < den <= 2^68`.
    pub open spec fn bounded(self) -> bool {
        0 <= self.num <= 35184372088832 && 0 < self.den <= 295147905179352825856
    }

    /// `self < other` as rational numbers.
    pub open spec fn lt(self, other: Frac) -> bool {
        self.num * other.den < other.num * self.den
    }

    /// `self <= other` as rational numbers.
    pub open spec fn le(self, other: Frac) -> bool {
        self.num * other.den <= other.num * self.den
    }
}

/// `<=` on fractions with positive denominators is transitive.
pub proof fn lemma_frac_le_trans(a: Frac, b: Frac, c: Frac)
    requires
        a.wf(),
        b.wf(),
        c.wf(),
        a.le(b),
        b.le(c),
    ensures
        a.le(c),
{
    let (an, ad, bn, bd, cn, cd) = (a.num as int, a.den as int, b.num as int, b.den as int, c.num as int, c.den as int);
    assert(an * bd * cd <= bn * ad * cd) by (nonlinear_arith)
        requires
            an * bd <= bn * ad,
            cd > 0,
    ;
    assert(bn * cd * ad <= cn * bd * ad) by (nonlinear_arith)
        requires
            bn * cd <= cn * bd,
            ad > 0,
    ;
    assert(an * cd <= cn * ad) by (nonlinear_arith)
        requires
            an * bd * cd <= bn * ad * cd,
            bn * cd * ad <= cn * bd * ad,
            bd > 0,
    ;
}

/// A point with rational coordinates `(x / den, y / den)`, with `den > 0`.
#[derive(Clone, Copy, Debug, PartialEq, Eq, Structural)]
pub struct RatPoint {
    pub x: i128,
    pub y: i128,
    pub den: i128,
}

/// A ray: an origin on the grid and a non-zero direction. Distances along
/// the ray are measured in multiples of the direction vector.
#[derive(Clone, Copy, Debug, PartialEq, Eq, Structural)]
pub struct Ray2d {
    pub origin: Point,
    pub direction: Point,
}

/// Why a ray could not be made.
#[derive(Clone, Copy, Debug, PartialEq, Eq, Structural)]
pub enum RayError {
    /// The direction is the zero vector.
    DegenerateDirection,
    /// The origin or the direction exceeds the grid's limits.
    OutOfRange,
}

pub open spec fn dir_in_range(d: Point) -> bool {
    -DIR_LIMIT <= d.x <= DIR_LIMIT && -DIR_LIMIT <= d.y <= DIR_LIMIT
}

impl Ray2d {
    pub open spec fn wf(self) -> bool {
        &&& self.origin.in_range()
        &&& dir_in_range(self.direction)
        &&& self.direction@ != (0int, 0int)
    }

    /// A ray from `origin` along `direction`; the zero direction is refused.
    pub fn new(origin: Point, direction: Point) -> (r: Result<Ray2d, RayError>)
        ensures
            direction@ == (0int, 0int) ==> r == Err::<Ray2d, RayError>(RayError::DegenerateDirection),
            direction@ != (0int, 0int) && !(origin.in_range() && dir_in_range(direction))
                ==> r == Err::<Ray2d, RayError>(RayError::OutOfRange),
            direction@ != (0int, 0int) && origin.in_range() && dir_in_range(direction)
                ==> r == Ok::<Ray2d, RayError>(Ray2d { origin, direction }),
            r is Ok ==> r->Ok_0.wf(),
    {
        if direction.x == 0 && direction.y == 0 {
            Err(RayError::DegenerateDirection)
        } else if -COORD_LIMIT <= origin.x && origin.x <= COORD_LIMIT && -COORD_LIMIT <= origin.y
            && origin.y <= COORD_LIMIT && -DIR_LIMIT <= direction.x && direction.x <= DIR_LIMIT
            && -DIR_LIMIT <= direction.y && direction.y <= DIR_LIMIT {
            Ok(Ray2d { origin, direction })
        } else {
            Err(RayError::OutOfRange)
        }
    }
}

/// An affine map of the plane: a fixed-point linear part (rotation and
/// scale, entries over `FIXED_ONE`) followed by a translation. A mapped
/// coordinate is rounded down to the grid.
#[derive(Clone, Copy, Debug, PartialEq, Eq, Structural)]
pub struct Transform2d {
    pub xx: i64,
    pub xy: i64,
    pub yx: i64,
    pub yy: i64,
    pub translation: Point,
}

pub open spec fn entry_in_range(e: i64) -> bool {
    -MATRIX_LIMIT <= e <= MATRIX_LIMIT
}

impl Transform2d {
    pub open spec fn wf(self) -> bool {
        &&& entry_in_range(self.xx)
        &&& entry_in_range(self.xy)
        &&& entry_in_range(self.yx)
        &&& entry_in_range(self.yy)
        &&& self.translation.in_range()
    }

    /// The mapped x coordinate of `p`, before any range check.
    pub open spec fn map_x(self, p: Point) -> int {
        (self.xx * p.x + self.xy * p.y) / (FIXED_ONE as int) + self.translation.x
    }

    /// The mapped y coordinate of `p`, before any range check.
    pub open spec fn map_y(self, p: Point) -> int {
        (self.yx * p.x + self.yy * p.y) / (FIXED_ONE as int) + self.translation.y
    }

    /// `p` under this transform, where the result stays on the grid.
    pub open spec fn place(self, p: Point) -> Option<Point> {
        if -COORD_LIMIT <= self.map_x(p) <= COORD_LIMIT && -COORD_LIMIT <= self.map_y(p)
            <= COORD_LIMIT {
            Some(Point { x: self.map_x(p) as i64, y: self.map_y(p) as i64 })
        } else {
            None
        }
    }

    /// The identity map.
    pub fn identity() -> (r: Transform2d)
        ensures
            r.wf(),
            forall|p: Point| p.in_range() ==> #[trigger] r.place(p) == Some(p),
    {
        let r = Transform2d {
            xx: FIXED_ONE,
            xy: 0,
            yx: 0,
            yy: FIXED_ONE,
            translation: Point { x: 0, y: 0 },
        };
        assert forall|p: Point| p.in_range() implies #[trigger] r.place(p) == Some(p) by {
            vstd::arithmetic::div_mod::lemma_fundamental_div_mod_converse(
                FIXED_ONE * p.x + 0 * p.y,
                FIXED_ONE as int,
                p.x as int,
                0,
            );
            vstd::arithmetic::div_mod::lemma_fundamental_div_mod_converse(
                0 * p.x + FIXED_ONE * p.y,
                FIXED_ONE as int,
                p.y as int,
                0,
            );
        }
        r
    }

    /// A transform from its linear entries and translation, where they lie
    /// within the limits.
    pub fn from_parts(xx: i64, xy: i64, yx: i64, yy: i64, translation: Point) -> (r: Option<Transform2d>)
        ensures
            r == (if (Transform2d { xx, xy, yx, yy, translation }).wf() {
                Some(Transform2d { xx, xy, yx, yy, translation })
            } else {
                None
            }),
    {
        let t = Transform2d { xx, xy, yx, yy, translation };
        if -MATRIX_LIMIT <= xx && xx <= MATRIX_LIMIT && -MATRIX_LIMIT <= xy && xy <= MATRIX_LIMIT
            && -MATRIX_LIMIT <= yx && yx <= MATRIX_LIMIT && -MATRIX_LIMIT <= yy && yy
            <= MATRIX_LIMIT && -COORD_LIMIT <= translation.x && translation.x <= COORD_LIMIT
            && -COORD_LIMIT <= translation.y && translation.y <= COORD_LIMIT {
            Some(t)
        } else {
            None
        }
    }

    /// `p` under this transform, or `None` where it would leave the grid.
    pub fn transform_point(&self, p: Point) -> (r: Option<Point>)
        requires
            self.wf(),
            p.in_range(),
        ensures
            r == self.place(p),
    {
        let lx = linear_part(self.xx, self.xy, p);
        let ly = linear_part(self.yx, self.yy, p);
        let x = lx + self.translation.x;
        let y = ly + self.translation.y;
        if -COORD_LIMIT <= x && x <= COORD_LIMIT && -COORD_LIMIT <= y && y <= COORD_LIMIT {
            Some(Point { x, y })
        } else {
            None
        }
    }
}

proof fn lemma_linear_bound(a: int, b: int, x: int, y: int)
    requires
        -MATRIX_LIMIT <= a <= MATRIX_LIMIT,
        -MATRIX_LIMIT <= b <= MATRIX_LIMIT,
        -COORD_LIMIT <= x <= COORD_LIMIT,
        -COORD_LIMIT <= y <= COORD_LIMIT,
    ensures
        -MATRIX_LIMIT * COORD_LIMIT <= a * x <= MATRIX_LIMIT * COORD_LIMIT,
        -MATRIX_LIMIT * COORD_LIMIT <= b * y <= MATRIX_LIMIT * COORD_LIMIT,
        -2 * MATRIX_LIMIT * COORD_LIMIT <= a * x + b * y <= 2 * MATRIX_LIMIT * COORD_LIMIT,
{
    assert(-MATRIX_LIMIT * COORD_LIMIT <= a * x <= MATRIX_LIMIT * COORD_LIMIT) by (nonlinear_arith)
        requires
            -MATRIX_LIMIT <= a <= MATRIX_LIMIT,
            -COORD_LIMIT <= x <= COORD_LIMIT,
    ;
    assert(-MATRIX_LIMIT * COORD_LIMIT <= b * y <= MATRIX_LIMIT * COORD_LIMIT) by (nonlinear_arith)
        requires
            -MATRIX_LIMIT <= b <= MATRIX_LIMIT,
            -COORD_LIMIT <= y <= COORD_LIMIT,
    ;
}

/// `(a * p.x + b * p.y) / FIXED_ONE`, rounded down.
fn linear_part(a: i64, b: i64, p: Point) -> (r: i64)
    requires
        entry_in_range(a),
        entry_in_range(b),
        p.in_range(),
    ensures
        r == (a * p.x + b * p.y) / (FIXED_ONE as int),
        -536870912 <= r <= 536870912,
{
    proof {
        lemma_linear_bound(a as int, b as int, p.x as int, p.y as int);
    }
    let s: i64 = a * p.x + b * p.y;
    let r = floor_div_fixed(s);
    proof {
        vstd::arithmetic::div_mod::lemma_fundamental_div_mod_converse(
            2 * MATRIX_LIMIT * COORD_LIMIT,
            FIXED_ONE as int,
            536870912,
            0,
        );
        vstd::arithmetic::div_mod::lemma_fundamental_div_mod_converse(
            -2 * MATRIX_LIMIT * COORD_LIMIT,
            FIXED_ONE as int,
            -536870912,
            0,
        );
        vstd::arithmetic::div_mod::lemma_div_is_ordered(
            -2 * MATRIX_LIMIT * COORD_LIMIT,
            s as int,
            FIXED_ONE as int,
        );
        vstd::arithmetic::div_mod::lemma_div_is_ordered(
            s as int,
            2 * MATRIX_LIMIT * COORD_LIMIT,
            FIXED_ONE as int,
        );
    }
    r
}

/// `n / FIXED_ONE` rounded down. The numerator is first shifted to be
/// non-negative, where the machine division rounds down as well.
fn floor_div_fixed(n: i64) -> (r: i64)
    requires
        -4 * MATRIX_LIMIT * COORD_LIMIT <= n <= 4 * MATRIX_LIMIT * COORD_LIMIT,
    ensures
        r == (n as int) / (FIXED_ONE as int),
{
    let shift: i64 = 1073741824;
    let shifted: i64 = n + shift * FIXED_ONE;
    let q: i64 = shifted / FIXED_ONE;
    let m: i64 = shifted % FIXED_ONE;
    proof {
        vstd::arithmetic::div_mod::lemma_fundamental_div_mod(shifted as int, FIXED_ONE as int);
        vstd::arithmetic::div_mod::lemma_fundamental_div_mod_converse(
            n as int,
            FIXED_ONE as int,
            q - shift,
            m as int,
        );
    }
    q - shift
}

/// The square root of `n`, rounded down.
pub fn isqrt(n: u64) -> (r: u64)
    ensures
        r * r <= n < (r + 1) * (r + 1),
{
    let mut lo: u64 = 0;
    let mut hi: u64 = 4294967296;
    assert(hi * hi > n) by (nonlinear_arith)
        requires
            hi == 4294967296,
            n <= u64::MAX,
    ;
    while hi - lo > 1
        invariant
            lo < hi <= 4294967296,
            lo * lo <= n < hi * hi,
        decreases hi - lo,
    {
        let mid: u64 = lo + (hi - lo) / 2;
        assert((mid as int) * (mid as int) < 18446744073709551616) by (nonlinear_arith)
            requires
                mid < 4294967296,
        ;
        let sq: u128 = (mid as u128) * (mid as u128);
        if sq <= n as u128 {
            lo = mid;
        } else {
            hi = mid;
        }
    }
    assert(hi == lo + 1);
    lo
}

} // verus!
