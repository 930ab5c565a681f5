//! Fixed-point plane geometry: vectors and the two collision predicates.
//!
//! One map tile is `UNIT` units wide, so every length in the game is an
//! integer number of thousandths of a tile.
use vstd::prelude::*;

verus! {

/// Number of fixed-point units in one map tile.
pub const UNIT: i64 = 1000;

/// Bound on coordinates accepted by the collision predicates, so that every
/// difference and square they take fits in machine integers.
pub const COORD_LIMIT: i64 = 0x1000_0000_0000_0000;

/// A point or displacement in the plane, in fixed-point units.
#[derive(Clone, Copy, Debug, PartialEq, Eq, Structural)]
pub struct Vector2 {
    pub x: i64,
    pub y: i64,
}

/// One of the eight compass directions.
#[derive(Clone, Copy, Debug, PartialEq, Eq, Structural)]
pub enum Direction {
    North,
    NorthEast,
    East,
    SouthEast,
    South,
    SouthWest,
    West,
    NorthWest,
}

/// Division that rounds toward zero, as integer division does on machine integers.
pub open spec fn trunc_div(a: int, d: int) -> int {
    if a >= 0 {
        a / d
    } else {
        -((-a) / d)
    }
}

/// `a * b / d`, rounded toward zero.
pub open spec fn mul_div(a: int, b: int, d: int) -> int {
    trunc_div(a * b, d)
}

/// `r` is the integer square root of `v`: the largest integer whose square is at most `v`.
pub open spec fn is_sqrt_floor(v: int, r: int) -> bool {
    0 <= r && r * r <= v && v < (r + 1) * (r + 1)
}

/// The integer square root of a non-negative `v`.
pub open spec fn sqrt_floor(v: int) -> int {
    choose|r: int| is_sqrt_floor(v, r)
}

/// Squared length of a vector.
pub open spec fn norm_sq(x: int, y: int) -> int {
    x * x + y * y
}

pub open spec fn in_range(v: Vector2) -> bool {
    -COORD_LIMIT <= v.x <= COORD_LIMIT && -COORD_LIMIT <= v.y <= COORD_LIMIT
}

pub open spec fn vec_plus(a: Vector2, b: Vector2) -> Vector2 {
    Vector2 { x: (a.x + b.x) as i64, y: (a.y + b.y) as i64 }
}

pub open spec fn vec_scale(a: Vector2, factor: int) -> Vector2 {
    Vector2 { x: mul_div(a.x as int, factor, UNIT as int) as i64, y: mul_div(a.y as int, factor, UNIT as int) as i64 }
}

/// The unit vector (at scale `UNIT`) pointing the same way as `a`; zero stays zero.
pub open spec fn vec_normalize(a: Vector2) -> Vector2 {
    let m = sqrt_floor(norm_sq(a.x as int, a.y as int));
    if m == 0 {
        Vector2 { x: 0, y: 0 }
    } else {
        Vector2 { x: mul_div(a.x as int, UNIT as int, m) as i64, y: mul_div(a.y as int, UNIT as int, m) as i64 }
    }
}

pub open spec fn direction_vector(d: Direction) -> Vector2 {
    match d {
        Direction::North => Vector2 { x: 0, y: (-UNIT) as i64 },
        Direction::NorthEast => Vector2 { x: UNIT, y: (-UNIT) as i64 },
        Direction::East => Vector2 { x: UNIT, y: 0 },
        Direction::SouthEast => Vector2 { x: UNIT, y: UNIT },
        Direction::South => Vector2 { x: 0, y: UNIT },
        Direction::SouthWest => Vector2 { x: (-UNIT) as i64, y: UNIT },
        Direction::West => Vector2 { x: (-UNIT) as i64, y: 0 },
        Direction::NorthWest => Vector2 { x: (-UNIT) as i64, y: (-UNIT) as i64 },
    }
}

/// Two circles overlap: the squared distance of their centres is below the
/// square of the sum of their radii.
pub open spec fn circles_overlap(p1: Vector2, r1: int, p2: Vector2, r2: int) -> bool {
    norm_sq(p2.x - p1.x, p2.y - p1.y) < (r1 + r2) * (r1 + r2)
}

/// `v` clamped into `[lo, hi]`.
pub open spec fn clamp(v: int, lo: int, hi: int) -> int {
    if v < lo {
        lo
    } else if v > hi {
        hi
    } else {
        v
    }
}

/// Offset from the circle centre `c` to the nearest point of the rectangle
/// with corner `rect` and size `w` by `h`.
pub open spec fn rect_offset(c: Vector2, rect: Vector2, w: int, h: int) -> Vector2 {
    Vector2 {
        x: (clamp(c.x as int, rect.x as int, rect.x + w) - c.x) as i64,
        y: (clamp(c.y as int, rect.y as int, rect.y + h) - c.y) as i64,
    }
}

/// A circle overlaps a rectangle: the nearest point of the rectangle lies
/// strictly inside the circle.
pub open spec fn circle_rect_overlap(c: Vector2, radius: int, rect: Vector2, w: int, h: int) -> bool {
    let d = rect_offset(c, rect, w, h);
    norm_sq(d.x as int, d.y as int) < radius * radius
}

/// `a * b / d` rounded toward zero, for a result that fits.
pub fn mul_div_i64(a: i64, b: i64, d: i64) -> (r: i64)
    requires
        d > 0,
        i64::MIN <= mul_div(a as int, b as int, d as int) <= i64::MAX,
    ensures
        r == mul_div(a as int, b as int, d as int),
{
    proof {
        lemma_product_bound(a as int, b as int, 0x8000_0000_0000_0000, 0x8000_0000_0000_0000);
    }
    let p: i128 = (a as i128) * (b as i128);
    if p >= 0 {
        let q: i128 = p / (d as i128);
        q as i64
    } else {
        let q: i128 = (-p) / (d as i128);
        (-q) as i64
    }
}

/// A product of two bounded integers is bounded by the product of the bounds.
proof fn lemma_product_bound(a: int, b: int, ka: int, kb: int)
    requires
        -ka <= a <= ka,
        -kb <= b <= kb,
    ensures
        -(ka * kb) <= a * b <= ka * kb,
        a == b ==> 0 <= a * b,
{
    assert(-(ka * kb) <= a * b <= ka * kb) by (nonlinear_arith)
        requires
            -ka <= a <= ka,
            -kb <= b <= kb,
    ;
    assert(a * a >= 0) by (nonlinear_arith);
}

/// Integer square root by bisection.
pub fn sqrt_floor_u128(v: u128) -> (r: u64)
    ensures
        is_sqrt_floor(v as int, r as int),
        r == sqrt_floor(v as int),
{
    let mut lo: u128 = 0;
    let mut hi: u128 = 0x1_0000_0000_0000_0000;
    assert(v < hi * hi) by (nonlinear_arith)
        requires
            v <= u128::MAX,
            hi == 0x1_0000_0000_0000_0000u128,
    ;
    while hi - lo > 1
        invariant
            lo < hi <= 0x1_0000_0000_0000_0000u128,
            lo * lo <= v,
            v < hi * hi,
        decreases hi - lo,
    {
        let mid: u128 = lo + (hi - lo) / 2;
        assert(mid * mid <= 0xFFFF_FFFF_FFFF_FFFF * 0xFFFF_FFFF_FFFF_FFFFu128) by (nonlinear_arith)
            requires
                mid < 0x1_0000_0000_0000_0000u128,
        ;
        if mid * mid <= v {
            lo = mid;
        } else {
            hi = mid;
        }
    }
    proof {
        lemma_sqrt_floor_unique(v as int, lo as int);
    }
    lo as u64
}

/// The integer square root is unique, so `sqrt_floor` names it.
pub proof fn lemma_sqrt_floor_unique(v: int, r: int)
    requires
        is_sqrt_floor(v, r),
    ensures
        sqrt_floor(v) == r,
{
    let s = sqrt_floor(v);
    assert(is_sqrt_floor(v, s));
    if s < r {
        assert((s + 1) * (s + 1) <= r * r) by (nonlinear_arith)
            requires
                0 <= s < r,
        ;
    } else if r < s {
        assert((r + 1) * (r + 1) <= s * s) by (nonlinear_arith)
            requires
                0 <= r < s,
        ;
    }
}

/// A coordinate is no larger in size than the length of its vector.
proof fn lemma_coord_le_length(x: int, y: int, m: int)
    requires
        is_sqrt_floor(norm_sq(x, y), m),
    ensures
        -m <= x <= m,
{
    if x > m {
        assert(x * x >= (m + 1) * (m + 1)) by (nonlinear_arith)
            requires
                x >= m + 1,
                m >= 0,
        ;
        assert(y * y >= 0) by (nonlinear_arith);
    } else if x < -m {
        assert(x * x >= (m + 1) * (m + 1)) by (nonlinear_arith)
            requires
                -x >= m + 1,
                m >= 0,
        ;
        assert(y * y >= 0) by (nonlinear_arith);
    }
}

/// `a * UNIT / m` stays within `[-UNIT, UNIT]` when `|a| <= m`.
proof fn lemma_unit_quotient_bounded(a: int, m: int)
    requires
        m > 0,
        -m <= a <= m,
    ensures
        -UNIT <= mul_div(a, UNIT as int, m) <= UNIT,
{
    if a >= 0 {
        assert(a * 1000 / m <= 1000) by (nonlinear_arith)
            requires
                0 <= a <= m,
                m > 0,
        ;
        assert(a * 1000 / m >= 0) by (nonlinear_arith)
            requires
                0 <= a,
                m > 0,
        ;
    } else {
        assert((-a) * 1000 / m <= 1000) by (nonlinear_arith)
            requires
                0 <= -a <= m,
                m > 0,
        ;
        assert((-a) * 1000 / m >= 0) by (nonlinear_arith)
            requires
                0 <= -a,
                m > 0,
        ;
        assert(a * 1000 == -((-a) * 1000));
    }
}

impl Vector2 {
    pub fn new(x: i64, y: i64) -> (r: Vector2)
        ensures
            r == (Vector2 { x, y }),
    {
        Vector2 { x, y }
    }

    pub fn zero() -> (r: Vector2)
        ensures
            r == (Vector2 { x: 0, y: 0 }),
    {
        Vector2 { x: 0, y: 0 }
    }

    /// Component-wise sum.
    pub fn plus(&self, coord: &Vector2) -> (r: Vector2)
        requires
            i64::MIN <= self.x + coord.x <= i64::MAX,
            i64::MIN <= self.y + coord.y <= i64::MAX,
        ensures
            r == vec_plus(*self, *coord),
    {
        Vector2 { x: self.x + coord.x, y: self.y + coord.y }
    }

    /// Multiplies by the fixed-point factor `factor / UNIT`, rounding toward zero.
    pub fn scale(&self, factor: i64) -> (r: Vector2)
        requires
            i64::MIN <= mul_div(self.x as int, factor as int, UNIT as int) <= i64::MAX,
            i64::MIN <= mul_div(self.y as int, factor as int, UNIT as int) <= i64::MAX,
        ensures
            r == vec_scale(*self, factor as int),
    {
        Vector2 { x: mul_div_i64(self.x, factor, UNIT), y: mul_div_i64(self.y, factor, UNIT) }
    }

    /// Length of the vector, rounded down.
    pub fn magnitude(&self) -> (r: u64)
        ensures
            r == sqrt_floor(norm_sq(self.x as int, self.y as int)),
            is_sqrt_floor(norm_sq(self.x as int, self.y as int), r as int),
    {
        proof {
            lemma_product_bound(self.x as int, self.x as int, 0x8000_0000_0000_0000, 0x8000_0000_0000_0000);
            lemma_product_bound(self.y as int, self.y as int, 0x8000_0000_0000_0000, 0x8000_0000_0000_0000);
        }
        let xx: u128 = (self.x as i128 * self.x as i128) as u128;
        let yy: u128 = (self.y as i128 * self.y as i128) as u128;
        sqrt_floor_u128(xx + yy)
    }

    /// The vector scaled to length `UNIT`, pointing the same way; the zero
    /// vector normalizes to zero.
    pub fn normalize(&self) -> (r: Vector2)
        ensures
            r == vec_normalize(*self),
            -UNIT <= r.x <= UNIT,
            -UNIT <= r.y <= UNIT,
    {
        let m = self.magnitude();
        if m == 0 {
            Vector2 { x: 0, y: 0 }
        } else {
            proof {
                lemma_coord_le_length(self.x as int, self.y as int, m as int);
                lemma_coord_le_length(self.y as int, self.x as int, m as int);
                assert(norm_sq(self.y as int, self.x as int) == norm_sq(self.x as int, self.y as int));
                lemma_unit_quotient_bounded(self.x as int, m as int);
                lemma_unit_quotient_bounded(self.y as int, m as int);
            }
            let x = Self::mul_div_len(self.x, m);
            let y = Self::mul_div_len(self.y, m);
            Vector2 { x, y }
        }
    }

    /// `a * UNIT / m` for `|a| <= m`.
    fn mul_div_len(a: i64, m: u64) -> (r: i64)
        requires
            m > 0,
            -(m as int) <= a <= m,
        ensures
            r == mul_div(a as int, UNIT as int, m as int),
    {
        proof {
            lemma_unit_quotient_bounded(a as int, m as int);
        }
        let p: i128 = (a as i128) * 1000;
        if p >= 0 {
            (p / (m as i128)) as i64
        } else {
            (-((-p) / (m as i128))) as i64
        }
    }

    /// Unit-length (per axis) vector of a compass direction.
    pub fn from_direction(dir: &Direction) -> (r: Vector2)
        ensures
            r == direction_vector(*dir),
    {
        match dir {
            Direction::North => Vector2 { x: 0, y: -UNIT },
            Direction::NorthEast => Vector2 { x: UNIT, y: -UNIT },
            Direction::East => Vector2 { x: UNIT, y: 0 },
            Direction::SouthEast => Vector2 { x: UNIT, y: UNIT },
            Direction::South => Vector2 { x: 0, y: UNIT },
            Direction::SouthWest => Vector2 { x: -UNIT, y: UNIT },
            Direction::West => Vector2 { x: -UNIT, y: 0 },
            Direction::NorthWest => Vector2 { x: -UNIT, y: -UNIT },
        }
    }
}

/// Circle-circle test. `Err` carries the offset from the first centre to the
/// second when the circles overlap; `Ok` means they do not.
pub fn circle_circle_collision(p1: &Vector2, r1: i64, p2: &Vector2, r2: i64) -> (r: Result<(), Vector2>)
    requires
        in_range(*p1),
        in_range(*p2),
        0 <= r1 <= COORD_LIMIT,
        0 <= r2 <= COORD_LIMIT,
    ensures
        r is Err <==> circles_overlap(*p1, r1 as int, *p2, r2 as int),
        r is Err ==> r->Err_0 == (Vector2 { x: (p2.x - p1.x) as i64, y: (p2.y - p1.y) as i64 }),
{
    let dx: i64 = p2.x - p1.x;
    let dy: i64 = p2.y - p1.y;
    let rs: i128 = r1 as i128 + r2 as i128;
    proof {
        lemma_product_bound(dx as int, dx as int, 0x2000_0000_0000_0000, 0x2000_0000_0000_0000);
        lemma_product_bound(dy as int, dy as int, 0x2000_0000_0000_0000, 0x2000_0000_0000_0000);
        lemma_product_bound(rs as int, rs as int, 0x2000_0000_0000_0000, 0x2000_0000_0000_0000);
    }
    let d2: i128 = dx as i128 * dx as i128 + dy as i128 * dy as i128;
    if d2 < rs * rs {
        Err(Vector2 { x: dx, y: dy })
    } else {
        Ok(())
    }
}

/// Overlap of two circles does not depend on which one is named first.
pub proof fn lemma_circle_collision_symmetric(p1: Vector2, r1: int, p2: Vector2, r2: int)
    ensures
        circles_overlap(p1, r1, p2, r2) == circles_overlap(p2, r2, p1, r1),
{
    assert((p2.x - p1.x) * (p2.x - p1.x) == (p1.x - p2.x) * (p1.x - p2.x)) by (nonlinear_arith);
    assert((p2.y - p1.y) * (p2.y - p1.y) == (p1.y - p2.y) * (p1.y - p2.y)) by (nonlinear_arith);
    assert((r1 + r2) * (r1 + r2) == (r2 + r1) * (r2 + r1)) by (nonlinear_arith);
}

pub fn clamp_i64(v: i64, lo: i64, hi: i64) -> (r: i64)
    ensures
        r == clamp(v as int, lo as int, hi as int),
{
    if v < lo {
        lo
    } else if v > hi {
        hi
    } else {
        v
    }
}

/// Circle-rectangle test against the rectangle with corner `rect` and size
/// `w` by `h`. `Err` carries the offset from the circle centre to the nearest
/// point of the rectangle when they overlap; `Ok` means they do not.
pub fn circle_rect_collision(circle: &Vector2, radius: i64, rect: &Vector2, w: i64, h: i64) -> (r: Result<(), Vector2>)
    requires
        in_range(*circle),
        in_range(*rect),
        0 <= w <= COORD_LIMIT,
        0 <= h <= COORD_LIMIT,
        0 <= radius <= COORD_LIMIT,
    ensures
        r is Err <==> circle_rect_overlap(*circle, radius as int, *rect, w as int, h as int),
        r is Err ==> r->Err_0 == rect_offset(*circle, *rect, w as int, h as int),
{
    let dx: i64 = clamp_i64(circle.x, rect.x, rect.x + w) - circle.x;
    let dy: i64 = clamp_i64(circle.y, rect.y, rect.y + h) - circle.y;
    proof {
        lemma_product_bound(dx as int, dx as int, 0x3000_0000_0000_0000, 0x3000_0000_0000_0000);
        lemma_product_bound(dy as int, dy as int, 0x3000_0000_0000_0000, 0x3000_0000_0000_0000);
        lemma_product_bound(radius as int, radius as int, 0x1000_0000_0000_0000, 0x1000_0000_0000_0000);
    }
    let d2: i128 = dx as i128 * dx as i128 + dy as i128 * dy as i128;
    if d2 < radius as i128 * radius as i128 {
        Err(Vector2 { x: dx, y: dy })
    } else {
        Ok(())
    }
}

} // verus!
