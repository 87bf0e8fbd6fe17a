//! Shape-agnostic geometric primitives on the integer canvas: orientation
//! predicates, segment intersection, axis-aligned rectangles, fixed-point
//! rotation, and ray/border intersection for circles and squares.
use vstd::prelude::*;
use vstd::arithmetic::div_mod::*;
use vstd::arithmetic::mul::*;

verus! {

/// A point (or vector) on the canvas, in integer canvas units.
#[derive(Clone, Copy, Debug, PartialEq, Eq, Structural)]
pub struct Point {
    pub x: i64,
    pub y: i64,
}

/// An axis-aligned rectangle given by its two corners, `min` componentwise at
/// most `max`.
#[derive(Clone, Copy, Debug, PartialEq, Eq, Structural)]
pub struct Rect {
    pub min: Point,
    pub max: Point,
}

/// Turn direction of the ordered point triple used by the segment
/// intersection test.
#[derive(Clone, Copy, Debug, PartialEq, Eq, Structural)]
pub enum Orientation {
    /// The three points lie on one line.
    Collinear,
    /// Clockwise turn (in screen coordinates, y growing downward).
    Clockwise,
    /// Counterclockwise turn.
    CounterClockwise,
}

/// Coordinates admitted by the geometric predicates; wide enough for any
/// canvas, narrow enough that all intermediate products fit in `i128`.
pub const COORD_LIMIT: i64 = 0x1000_0000_0000_0000;

/// Coordinates admitted by the border-point and rotation functions, whose
/// intermediates square a coordinate difference.
pub const UNIT_LIMIT: i64 = 0x4000_0000;

pub open spec fn coord_ok(p: Point) -> bool {
    -COORD_LIMIT <= p.x <= COORD_LIMIT && -COORD_LIMIT <= p.y <= COORD_LIMIT
}

pub open spec fn unit_ok(p: Point) -> bool {
    -UNIT_LIMIT <= p.x <= UNIT_LIMIT && -UNIT_LIMIT <= p.y <= UNIT_LIMIT
}

/// Twice the signed area of the triangle (a, b, c); its sign gives the turn
/// direction of the triple.
pub open spec fn cross_of_triple(a: Point, b: Point, c: Point) -> int {
    (b.y - a.y) * (c.x - b.x) - (b.x - a.x) * (c.y - b.y)
}

/// Bound on a product of two magnitude-bounded factors.
pub proof fn lemma_mul_bound(x: int, y: int, m: int)
    by (nonlinear_arith)
    requires
        -m <= x <= m,
        -m <= y <= m,
        0 <= m,
    ensures
        -(m * m) <= x * y <= m * m,
{
}

pub open spec fn orientation_of(a: Point, b: Point, c: Point) -> Orientation {
    let v = cross_of_triple(a, b, c);
    if v == 0 {
        Orientation::Collinear
    } else if v > 0 {
        Orientation::Clockwise
    } else {
        Orientation::CounterClockwise
    }
}

/// Orientation of the ordered triple (a, b, c).
pub fn orientation(a: Point, b: Point, c: Point) -> (r: Orientation)
    requires
        coord_ok(a),
        coord_ok(b),
        coord_ok(c),
    ensures
        r == orientation_of(a, b, c),
{
    let f1: i128 = b.y as i128 - a.y as i128;
    let f2: i128 = c.x as i128 - b.x as i128;
    let f3: i128 = b.x as i128 - a.x as i128;
    let f4: i128 = c.y as i128 - b.y as i128;
    proof {
        lemma_mul_bound(f1 as int, f2 as int, 2 * COORD_LIMIT as int);
        lemma_mul_bound(f3 as int, f4 as int, 2 * COORD_LIMIT as int);
    }
    let v: i128 = f1 * f2 - f3 * f4;
    if v == 0 {
        Orientation::Collinear
    } else if v > 0 {
        Orientation::Clockwise
    } else {
        Orientation::CounterClockwise
    }
}

/// Whether `b` lies inside the bounding box of the segment (a, c).
pub open spec fn within_segment_box(a: Point, b: Point, c: Point) -> bool {
    &&& (b.x >= a.x || b.x >= c.x)
    &&& (b.x <= a.x || b.x <= c.x)
    &&& (b.y >= a.y || b.y >= c.y)
    &&& (b.y <= a.y || b.y <= c.y)
}

/// Bounding-box containment check used as the collinear-overlap fallback of
/// the segment intersection test.
pub fn on_segment(a: Point, b: Point, c: Point) -> (r: bool)
    ensures
        r == within_segment_box(a, b, c),
{
    let min_x = if a.x < c.x { a.x } else { c.x };
    let max_x = if a.x > c.x { a.x } else { c.x };
    let min_y = if a.y < c.y { a.y } else { c.y };
    let max_y = if a.y > c.y { a.y } else { c.y };
    b.x >= min_x && b.x <= max_x && b.y >= min_y && b.y <= max_y
}

/// Whether segments (a, b) and (c, d) intersect: the general case by the
/// orientation predicate, collinear overlap by bounding-box containment.
pub open spec fn segments_intersect_at(a: Point, b: Point, c: Point, d: Point) -> bool {
    let o1 = orientation_of(a, b, c);
    let o2 = orientation_of(a, b, d);
    let o3 = orientation_of(c, d, a);
    let o4 = orientation_of(c, d, b);
    ||| (o1 != o2 && o3 != o4)
    ||| (o1 == Orientation::Collinear && within_segment_box(a, c, b))
    ||| (o2 == Orientation::Collinear && within_segment_box(a, d, b))
    ||| (o3 == Orientation::Collinear && within_segment_box(c, a, d))
    ||| (o4 == Orientation::Collinear && within_segment_box(c, b, d))
}

/// Whether segments (a, b) and (c, d) intersect.
pub fn segments_intersect(a: Point, b: Point, c: Point, d: Point) -> (r: bool)
    requires
        coord_ok(a),
        coord_ok(b),
        coord_ok(c),
        coord_ok(d),
    ensures
        r == segments_intersect_at(a, b, c, d),
{
    let o1 = orientation(a, b, c);
    let o2 = orientation(a, b, d);
    let o3 = orientation(c, d, a);
    let o4 = orientation(c, d, b);
    if o1 != o2 && o3 != o4 {
        return true;
    }
    (o1 == Orientation::Collinear && on_segment(a, c, b)) || (o2 == Orientation::Collinear
        && on_segment(a, d, b)) || (o3 == Orientation::Collinear && on_segment(c, a, d)) || (o4
        == Orientation::Collinear && on_segment(c, b, d))
}

pub open spec fn rect_contains_point(r: Rect, p: Point) -> bool {
    r.min.x <= p.x <= r.max.x && r.min.y <= p.y <= r.max.y
}

/// Whether `p` lies in `r`, borders included.
pub fn rect_contains(r: &Rect, p: Point) -> (b: bool)
    ensures
        b == rect_contains_point(*r, p),
{
    r.min.x <= p.x && p.x <= r.max.x && r.min.y <= p.y && p.y <= r.max.y
}

/// The square of half side length `half` centered at `center`.
pub fn square_around(center: Point, half: i64) -> (r: Rect)
    requires
        0 <= half,
        -COORD_LIMIT + half <= center.x <= COORD_LIMIT - half,
        -COORD_LIMIT + half <= center.y <= COORD_LIMIT - half,
    ensures
        r.min.x == center.x - half,
        r.min.y == center.y - half,
        r.max.x == center.x + half,
        r.max.y == center.y + half,
{
    Rect {
        min: Point { x: center.x - half, y: center.y - half },
        max: Point { x: center.x + half, y: center.y + half },
    }
}

/// Division with the quotient rounded toward zero, for a positive divisor;
/// this is how the executable code divides signed intermediates.
pub open spec fn div_towards_zero(n: int, d: int) -> int {
    if n >= 0 {
        n / d
    } else {
        -((-n) / d)
    }
}

/// `(a * b) / d`, rounded toward zero.
pub open spec fn mul_div_v(a: int, b: int, d: int) -> int {
    div_towards_zero(a * b, d)
}

/// `(a * b) / d` rounded toward zero, for `|a| <= d`; the result magnitude
/// never exceeds `b`.
pub fn mul_div(a: i64, b: i64, d: i64) -> (r: i64)
    requires
        0 <= b <= UNIT_LIMIT,
        0 < d <= 0x100_0000_0000,
        -d <= a <= d,
    ensures
        r == mul_div_v(a as int, b as int, d as int),
        -b <= r <= b,
{
    let neg = a < 0;
    let ua: u64 = if a >= 0 {
        a as u64
    } else {
        (-a) as u64
    };
    proof {
        lemma_mul_bound(ua as int, b as int, 0x100_0000_0000);
    }
    let prod: u128 = (ua as u128) * (b as u128);
    let q: u128 = prod / (d as u128);
    proof {
        lemma_mul_inequality(ua as int, d as int, b as int);
        lemma_div_is_ordered(prod as int, (d as int) * (b as int), d as int);
        lemma_div_multiples_vanish(b as int, d as int);
        assert((d as int) * (b as int) == (b as int) * (d as int)) by (nonlinear_arith);
        lemma_div_pos_is_pos(prod as int, d as int);
        if a < 0 {
            assert((ua as int) * (b as int) == -((a as int) * (b as int))) by (nonlinear_arith)
                requires
                    ua as int == -(a as int),
            ;
        }
    }
    let qi: i64 = q as i64;
    if neg {
        -qi
    } else {
        qi
    }
}

/// Division of a wide signed intermediate by a positive scale, rounded toward
/// zero; the quotient bound is part of the precondition.
pub fn div_wide(n: i128, d: i64) -> (r: i64)
    requires
        0 < d,
        -(d as int) * 0x1_0000_0000 <= n as int <= (d as int) * 0x1_0000_0000,
    ensures
        r == div_towards_zero(n as int, d as int),
        -0x1_0000_0000 <= r <= 0x1_0000_0000,
{
    let neg = n < 0;
    let un: u128 = if n >= 0 {
        n as u128
    } else {
        (-n) as u128
    };
    let q: u128 = un / (d as u128);
    proof {
        lemma_div_is_ordered(un as int, (d as int) * 0x1_0000_0000, d as int);
        lemma_div_multiples_vanish(0x1_0000_0000, d as int);
        assert((d as int) * 0x1_0000_0000 == 0x1_0000_0000 * (d as int)) by (nonlinear_arith);
        lemma_div_pos_is_pos(un as int, d as int);
    }
    let qi: i64 = q as i64;
    if neg {
        -qi
    } else {
        qi
    }
}

/// The integer square root: the largest `r` with `r * r <= n`.
pub open spec fn is_sqrt_of(n: int, r: int) -> bool {
    0 <= r && r * r <= n < (r + 1) * (r + 1)
}

pub open spec fn isqrt_v(n: nat) -> nat
    decreases n,
{
    if n == 0 {
        0
    } else {
        let p = isqrt_v((n - 1) as nat);
        if (p + 1) * (p + 1) <= n {
            p + 1
        } else {
            p
        }
    }
}

pub proof fn lemma_isqrt_v(n: nat)
    ensures
        is_sqrt_of(n as int, isqrt_v(n) as int),
    decreases n,
{
    if n == 0 {
    } else {
        let p = isqrt_v((n - 1) as nat);
        lemma_isqrt_v((n - 1) as nat);
        if (p + 1) * (p + 1) <= n {
            assert((p + 1 + 1) * (p + 1 + 1) > n) by (nonlinear_arith)
                requires
                    n - 1 < (p + 1) * (p + 1),
            ;
        }
    }
}

pub proof fn lemma_sqrt_unique(n: int, r1: int, r2: int)
    by (nonlinear_arith)
    requires
        is_sqrt_of(n, r1),
        is_sqrt_of(n, r2),
    ensures
        r1 == r2,
{
}

/// Integer square root by bisection.
pub fn isqrt(n: u64) -> (r: u64)
    ensures
        r == isqrt_v(n as nat),
        is_sqrt_of(n as int, r as int),
{
    let mut lo: u64 = 0;
    let mut hi: u64 = 0x1_0000_0000;
    proof {
        assert((hi as int) * (hi as int) > n as int) by (nonlinear_arith)
            requires
                hi == 0x1_0000_0000 && n <= 0xffff_ffff_ffff_ffff,
        ;
    }
    while hi - lo > 1
        invariant
            lo < hi <= 0x1_0000_0000,
            (lo as int) * (lo as int) <= n as int,
            (hi as int) * (hi as int) > n as int,
        decreases hi - lo,
    {
        let mid = lo + (hi - lo) / 2;
        proof {
            lemma_mul_bound(mid as int, mid as int, 0x1_0000_0000);
        }
        if (mid as u128) * (mid as u128) <= n as u128 {
            lo = mid;
        } else {
            hi = mid;
        }
    }
    proof {
        lemma_isqrt_v(n as nat);
        lemma_sqrt_unique(n as int, lo as int, isqrt_v(n as nat) as int);
    }
    lo
}

/// A fixed-point rotation: the pair (cos, sin) scaled by `scale`.
#[derive(Clone, Copy, Debug, PartialEq, Eq, Structural)]
pub struct Rotation {
    pub cos: i64,
    pub sin: i64,
    pub scale: i64,
}

impl Rotation {
    pub open spec fn wf(self) -> bool {
        &&& 0 < self.scale <= UNIT_LIMIT
        &&& -self.scale <= self.cos <= self.scale
        &&& -self.scale <= self.sin <= self.scale
    }

    /// The identity rotation at the given scale.
    pub fn identity(scale: i64) -> (r: Rotation)
        requires
            0 < scale <= UNIT_LIMIT,
        ensures
            r.wf(),
            r.cos == scale,
            r.sin == 0,
            r.scale == scale,
    {
        Rotation { cos: scale, sin: 0, scale }
    }

    /// The rotation by the opposite angle.
    pub fn inverse(self) -> (r: Rotation)
        requires
            self.wf(),
        ensures
            r.wf(),
            r.cos == self.cos,
            r.sin == -self.sin,
            r.scale == self.scale,
    {
        Rotation { cos: self.cos, sin: -self.sin, scale: self.scale }
    }
}

/// The numerators of a fixed-point rotation stay within `scale * 2^32` for
/// vectors within twice the unit limit.
pub proof fn lemma_rotate_numerator_bound(dx: int, dy: int, c: int, s: int, scale: int)
    by (nonlinear_arith)
    requires
        0 < scale,
        -scale <= c <= scale,
        -scale <= s <= scale,
        -2 * UNIT_LIMIT <= dx <= 2 * UNIT_LIMIT,
        -2 * UNIT_LIMIT <= dy <= 2 * UNIT_LIMIT,
    ensures
        -scale * 0x1_0000_0000 <= dx * c - dy * s <= scale * 0x1_0000_0000,
        -scale * 0x1_0000_0000 <= dx * s + dy * c <= scale * 0x1_0000_0000,
{
}

/// The numerators of a fixed-point rotation are bounded by the vector's
/// own coordinate sum times the scale.
pub proof fn lemma_rotate_numerator_tight(dx: int, dy: int, c: int, s: int, scale: int)
    by (nonlinear_arith)
    requires
        0 < scale,
        -scale <= c <= scale,
        -scale <= s <= scale,
    ensures
        -(abs_of(dx) + abs_of(dy)) * scale <= dx * c - dy * s <= (abs_of(dx) + abs_of(dy))
            * scale,
        -(abs_of(dx) + abs_of(dy)) * scale <= dx * s + dy * c <= (abs_of(dx) + abs_of(dy))
            * scale,
{
}

/// x component of the rotation of the vector `d`.
pub open spec fn rotate_x(d: Point, r: Rotation) -> int {
    div_towards_zero(d.x * r.cos - d.y * r.sin, r.scale as int)
}

/// y component of the rotation of the vector `d`.
pub open spec fn rotate_y(d: Point, r: Rotation) -> int {
    div_towards_zero(d.x * r.sin + d.y * r.cos, r.scale as int)
}

pub open spec fn point_minus(p: Point, center: Point) -> Point {
    Point { x: (p.x - center.x) as i64, y: (p.y - center.y) as i64 }
}

/// Rotates `p` around `center` by the fixed-point rotation `rot`.
pub fn rotate_around(p: Point, center: Point, rot: Rotation) -> (r: Point)
    requires
        unit_ok(p),
        unit_ok(center),
        rot.wf(),
    ensures
        r.x == center.x + rotate_x(point_minus(p, center), rot),
        r.y == center.y + rotate_y(point_minus(p, center), rot),
        r == rotated_point(p, center, rot),
        -4 * UNIT_LIMIT <= r.x - center.x <= 4 * UNIT_LIMIT,
        -4 * UNIT_LIMIT <= r.y - center.y <= 4 * UNIT_LIMIT,
        ({
            let m = abs_of(p.x - center.x) + abs_of(p.y - center.y);
            -m <= r.x - center.x <= m && -m <= r.y - center.y <= m
        }),
{
    let dx: i64 = p.x - center.x;
    let dy: i64 = p.y - center.y;
    proof {
        lemma_mul_bound(dx as int, rot.cos as int, 2 * UNIT_LIMIT as int);
        lemma_mul_bound(dy as int, rot.sin as int, 2 * UNIT_LIMIT as int);
        lemma_mul_bound(dx as int, rot.sin as int, 2 * UNIT_LIMIT as int);
        lemma_mul_bound(dy as int, rot.cos as int, 2 * UNIT_LIMIT as int);
        lemma_rotate_numerator_bound(dx as int, dy as int, rot.cos as int, rot.sin as int,
            rot.scale as int);
        lemma_rotate_numerator_tight(dx as int, dy as int, rot.cos as int, rot.sin as int,
            rot.scale as int);
    }
    let nx: i128 = (dx as i128) * (rot.cos as i128) - (dy as i128) * (rot.sin as i128);
    let ny: i128 = (dx as i128) * (rot.sin as i128) + (dy as i128) * (rot.cos as i128);
    let rx = div_wide(nx, rot.scale);
    let ry = div_wide(ny, rot.scale);
    proof {
        let m = abs_of(dx as int) + abs_of(dy as int);
        assert(m * (rot.scale as int) == (rot.scale as int) * m) by (nonlinear_arith);
        assert((-m) * (rot.scale as int) == -((rot.scale as int) * m)) by (nonlinear_arith);
        lemma_div_towards_zero_bound(nx as int, rot.scale as int, m);
        lemma_div_towards_zero_bound(ny as int, rot.scale as int, m);
    }
    Point { x: center.x + rx, y: center.y + ry }
}

pub open spec fn abs_of(n: int) -> int {
    if n >= 0 {
        n
    } else {
        -n
    }
}

pub open spec fn sign_of(n: int) -> int {
    if n > 0 {
        1
    } else if n < 0 {
        -1
    } else {
        0
    }
}

/// The fixed fallback for a zero-length direction: due east. Zero-length
/// directions would otherwise make the border-point functions undefined.
pub open spec fn fallback_dir(d: Point) -> Point {
    if d.x == 0 && d.y == 0 {
        Point { x: 1 as i64, y: 0 as i64 }
    } else {
        d
    }
}

/// The integer length of a direction vector.
pub open spec fn len_of_dir(d: Point) -> int {
    isqrt_v((d.x * d.x + d.y * d.y) as nat) as int
}

pub open spec fn circle_border_x(center: Point, size: i64, dir: Point) -> int {
    let d = fallback_dir(dir);
    center.x + mul_div_v(d.x as int, size as int, len_of_dir(d))
}

pub open spec fn circle_border_y(center: Point, size: i64, dir: Point) -> int {
    let d = fallback_dir(dir);
    center.y + mul_div_v(d.y as int, size as int, len_of_dir(d))
}

/// Squares of both components of a unit-bounded vector fit below `2^61`, and
/// the components are bounded by the vector's integer length.
proof fn lemma_dir_len_facts(d: Point)
    requires
        unit_ok(d),
        !(d.x == 0 && d.y == 0),
    ensures
        1 <= d.x * d.x + d.y * d.y <= 0x2000_0000_0000_0000,
        1 <= len_of_dir(d) <= 0x8000_0000,
        -len_of_dir(d) <= d.x <= len_of_dir(d),
        -len_of_dir(d) <= d.y <= len_of_dir(d),
{
    let sum = d.x * d.x + d.y * d.y;
    assert(1 <= sum <= 0x2000_0000_0000_0000) by (nonlinear_arith)
        requires
            -UNIT_LIMIT <= d.x <= UNIT_LIMIT,
            -UNIT_LIMIT <= d.y <= UNIT_LIMIT,
            !(d.x == 0 && d.y == 0),
            sum == d.x * d.x + d.y * d.y,
    ;
    lemma_isqrt_v(sum as nat);
    let len = len_of_dir(d);
    assert(1 <= len <= 0x8000_0000 && -len <= d.x <= len && -len <= d.y <= len)
        by (nonlinear_arith)
        requires
            len * len <= sum < (len + 1) * (len + 1),
            0 <= len,
            1 <= sum <= 0x2000_0000_0000_0000,
            sum == d.x * d.x + d.y * d.y,
    ;
}

/// The point on the outline of the circle of radius `size` around `center`,
/// in the direction `direction` from the center. A zero direction falls back
/// to due east.
pub fn circle_border_point(center: Point, size: i64, direction: Point) -> (r: Point)
    requires
        unit_ok(center),
        unit_ok(direction),
        0 <= size <= UNIT_LIMIT,
    ensures
        r.x == circle_border_x(center, size, direction),
        r.y == circle_border_y(center, size, direction),
        center.x - size <= r.x <= center.x + size,
        center.y - size <= r.y <= center.y + size,
{
    let d = if direction.x == 0 && direction.y == 0 {
        Point { x: 1, y: 0 }
    } else {
        direction
    };
    proof {
        lemma_dir_len_facts(d);
        lemma_mul_bound(d.x as int, d.x as int, UNIT_LIMIT as int);
        lemma_mul_bound(d.y as int, d.y as int, UNIT_LIMIT as int);
    }
    let sum: u64 = ((d.x as i128) * (d.x as i128) + (d.y as i128) * (d.y as i128)) as u64;
    let len64 = isqrt(sum);
    let len: i64 = len64 as i64;
    let ox = mul_div(d.x, size, len);
    let oy = mul_div(d.y, size, len);
    Point { x: center.x + ox, y: center.y + oy }
}

/// Law: a circle border point lies exactly on the circle whenever the
/// direction's length is exact and the scaled offsets divide evenly; in
/// general the point is within rounding distance of the circle.
pub proof fn lemma_circle_border_on_circle(center: Point, size: i64, dir: Point)
    requires
        !(dir.x == 0 && dir.y == 0),
        unit_ok(dir),
        0 <= size,
        len_of_dir(dir) * len_of_dir(dir) == dir.x * dir.x + dir.y * dir.y,
        (dir.x * size) % len_of_dir(dir) == 0,
        (dir.y * size) % len_of_dir(dir) == 0,
    ensures
        (circle_border_x(center, size, dir) - center.x) * (circle_border_x(center, size, dir)
            - center.x) + (circle_border_y(center, size, dir) - center.y) * (circle_border_y(
            center, size, dir) - center.y) == (size as int) * (size as int),
{
    let d = fallback_dir(dir);
    let len = len_of_dir(d);
    assert(1 <= d.x * d.x + d.y * d.y) by (nonlinear_arith)
        requires
            !(d.x == 0 && d.y == 0),
    ;
    lemma_isqrt_v((d.x * d.x + d.y * d.y) as nat);
    assert(len >= 1) by (nonlinear_arith)
        requires
            len * len <= d.x * d.x + d.y * d.y < (len + 1) * (len + 1),
            0 <= len,
            1 <= d.x * d.x + d.y * d.y,
    ;
    let qx = mul_div_v(d.x as int, size as int, len);
    let qy = mul_div_v(d.y as int, size as int, len);
    lemma_div_exact(d.x * size, len);
    lemma_div_exact(d.y * size, len);
    lemma_scaled_norm(qx, qy, d.x as int, d.y as int, size as int, len);
}

/// If the scaled offsets are exact fractions `d * size / len` and `len` is
/// the exact length of `d`, the offsets' squared norm is `size` squared.
proof fn lemma_scaled_norm(qx: int, qy: int, dx: int, dy: int, size: int, len: int)
    requires
        qx * len == dx * size,
        qy * len == dy * size,
        len * len == dx * dx + dy * dy,
        1 <= len,
    ensures
        qx * qx + qy * qy == size * size,
{
    assert((qx * qx) * (len * len) == (dx * dx) * (size * size)) by (nonlinear_arith)
        requires
            qx * len == dx * size,
    ;
    assert((qy * qy) * (len * len) == (dy * dy) * (size * size)) by (nonlinear_arith)
        requires
            qy * len == dy * size,
    ;
    assert((qx * qx + qy * qy) * (len * len) == (dx * dx + dy * dy) * (size * size))
        by (nonlinear_arith)
        requires
            (qx * qx) * (len * len) == (dx * dx) * (size * size),
            (qy * qy) * (len * len) == (dy * dy) * (size * size),
    ;
    assert((dx * dx + dy * dy) * (size * size) == (size * size) * (len * len))
        by (nonlinear_arith)
        requires
            len * len == dx * dx + dy * dy,
    ;
    assert(qx * qx + qy * qy == size * size) by (nonlinear_arith)
        requires
            (qx * qx + qy * qy) * (len * len) == (size * size) * (len * len),
            1 <= len,
    ;
}

/// Exact division rounded toward zero recovers the quotient: if `d` divides
/// `n` evenly then the truncated quotient times `d` gives back `n`.
pub proof fn lemma_div_exact(n: int, d: int)
    requires
        0 < d,
        n % d == 0,
    ensures
        div_towards_zero(n, d) * d == n,
{
    lemma_fundamental_div_mod(n, d);
    if n >= 0 {
        assert(d * (n / d) == (n / d) * d) by (nonlinear_arith);
    } else {
        lemma_mod_of_negated(n, d);
        lemma_fundamental_div_mod(-n, d);
        assert(d * ((-n) / d) == ((-n) / d) * d) by (nonlinear_arith);
        assert((-((-n) / d)) * d == -(((-n) / d) * d)) by (nonlinear_arith);
    }
}

/// Euclidean divisibility is symmetric under negation of the dividend.
proof fn lemma_mod_of_negated(n: int, d: int)
    requires
        0 < d,
        n % d == 0,
    ensures
        (-n) % d == 0,
{
    lemma_fundamental_div_mod(n, d);
    assert(n == d * (n / d));
    assert((-n) == d * (-(n / d))) by (nonlinear_arith)
        requires
            n == d * (n / d),
    ;
    lemma_mod_multiples_basic(-(n / d), d);
}

/// The dominant magnitude of a direction vector: the larger of the absolute
/// components.
pub open spec fn dom_of_dir(d: Point) -> int {
    if abs_of(d.x as int) >= abs_of(d.y as int) {
        abs_of(d.x as int)
    } else {
        abs_of(d.y as int)
    }
}

pub open spec fn square_border_x(center: Point, half_size: i64, dir: Point) -> int {
    let d = fallback_dir(dir);
    center.x + mul_div_v(d.x as int, half_size as int, dom_of_dir(d))
}

pub open spec fn square_border_y(center: Point, half_size: i64, dir: Point) -> int {
    let d = fallback_dir(dir);
    center.y + mul_div_v(d.y as int, half_size as int, dom_of_dir(d))
}

/// The point where a ray from `center` in `direction` exits the axis-aligned
/// square of half side `half_size` around `center`: the ray is scaled so that
/// its dominant component reaches the square's edge. A zero direction falls
/// back to due east.
pub fn intersect_rect_edge(center: Point, half_size: i64, direction: Point) -> (r: Point)
    requires
        unit_ok(center),
        unit_ok(direction),
        0 <= half_size <= UNIT_LIMIT,
    ensures
        r.x == square_border_x(center, half_size, direction),
        r.y == square_border_y(center, half_size, direction),
        center.x - half_size <= r.x <= center.x + half_size,
        center.y - half_size <= r.y <= center.y + half_size,
        ({
            let d = fallback_dir(direction);
            abs_of(d.x as int) >= abs_of(d.y as int) ==> r.x - center.x == sign_of(d.x as int)
                * half_size
        }),
        ({
            let d = fallback_dir(direction);
            abs_of(d.x as int) < abs_of(d.y as int) ==> r.y - center.y == sign_of(d.y as int)
                * half_size
        }),
{
    let d = if direction.x == 0 && direction.y == 0 {
        Point { x: 1, y: 0 }
    } else {
        direction
    };
    let ax: i64 = if d.x >= 0 {
        d.x
    } else {
        -d.x
    };
    let ay: i64 = if d.y >= 0 {
        d.y
    } else {
        -d.y
    };
    let m: i64 = if ax >= ay {
        ax
    } else {
        ay
    };
    let ox = mul_div(d.x, half_size, m);
    let oy = mul_div(d.y, half_size, m);
    proof {
        if ax >= ay {
            lemma_dominant_exact(d.x as int, half_size as int);
        } else {
            lemma_dominant_exact(d.y as int, half_size as int);
        }
    }
    Point { x: center.x + ox, y: center.y + oy }
}

/// Scaling a component by `half / |component|` lands exactly on the border.
proof fn lemma_dominant_exact(v: int, half: int)
    requires
        v != 0,
        0 <= half,
    ensures
        mul_div_v(v, half, abs_of(v)) == sign_of(v) * half,
{
    if v > 0 {
        lemma_div_multiples_vanish(half, v);
        assert(v * half == half * v) by (nonlinear_arith);
    } else {
        lemma_div_multiples_vanish(half, -v);
        assert(-(v * half) == half * (-v) && (-v) * half == half * (-v)) by (nonlinear_arith);
    }
}

/// x component of the radial projection of the vector `d` onto the square
/// border of half side `half`: the vector is scaled by `half` over its
/// dominant magnitude.
pub open spec fn proj_x(d: Point, half: int) -> int {
    if abs_of(d.x as int) > abs_of(d.y as int) {
        sign_of(d.x as int) * half
    } else {
        mul_div_v(d.x as int, half, abs_of(d.y as int))
    }
}

/// y component of the radial projection onto the square border.
pub open spec fn proj_y(d: Point, half: int) -> int {
    if abs_of(d.x as int) > abs_of(d.y as int) {
        mul_div_v(d.y as int, half, abs_of(d.x as int))
    } else {
        sign_of(d.y as int) * half
    }
}

/// Snaps `pos` onto the perimeter of the square of half side `half_size`
/// around `center`, scaling along the ray from the center (dominant-axis
/// projection). A position at the center falls back to due east.
pub fn project_to_square_edge(pos: Point, center: Point, half_size: i64) -> (r: Point)
    requires
        unit_ok(center),
        -0x1_0000_0000 <= pos.x - center.x <= 0x1_0000_0000,
        -0x1_0000_0000 <= pos.y - center.y <= 0x1_0000_0000,
        0 <= half_size <= UNIT_LIMIT,
    ensures
        r.x == center.x + proj_x(fallback_dir(point_minus(pos, center)), half_size as int),
        r.y == center.y + proj_y(fallback_dir(point_minus(pos, center)), half_size as int),
        center.x - half_size <= r.x <= center.x + half_size,
        center.y - half_size <= r.y <= center.y + half_size,
{
    let dx: i64 = pos.x - center.x;
    let dy: i64 = pos.y - center.y;
    let d = if dx == 0 && dy == 0 {
        Point { x: 1, y: 0 }
    } else {
        Point { x: dx, y: dy }
    };
    let ax: i64 = if d.x >= 0 {
        d.x
    } else {
        -d.x
    };
    let ay: i64 = if d.y >= 0 {
        d.y
    } else {
        -d.y
    };
    proof {
        assert(d == fallback_dir(point_minus(pos, center)));
        assert(ax == abs_of(d.x as int));
        assert(ay == abs_of(d.y as int));
    }
    if ax > ay {
        let oy = mul_div(d.y, half_size, ax);
        let ox = if d.x > 0 {
            half_size
        } else {
            -half_size
        };
        proof {
            assert(abs_of(d.x as int) > abs_of(d.y as int));
            assert(ox as int == sign_of(d.x as int) * (half_size as int));
            assert(oy as int == mul_div_v(d.y as int, half_size as int, abs_of(d.x as int)));
            assert(proj_x(d, half_size as int) == ox as int);
            assert(proj_y(d, half_size as int) == oy as int);
        }
        Point { x: center.x + ox, y: center.y + oy }
    } else {
        proof {
            assert(ay >= 1) by {
                if ay == 0 {
                    assert(d.x == 0 && d.y == 0);
                }
            }
        }
        let ox = mul_div(d.x, half_size, ay);
        let oy = if d.y > 0 {
            half_size
        } else {
            -half_size
        };
        proof {
            assert(abs_of(d.x as int) <= abs_of(d.y as int));
            if d.y > 0 {
                assert(sign_of(d.y as int) == 1);
            } else {
                assert(d.y < 0);
                assert(sign_of(d.y as int) == -1);
            }
            assert(oy as int == sign_of(d.y as int) * (half_size as int));
            assert(ox as int == mul_div_v(d.x as int, half_size as int, abs_of(d.y as int)));
            assert(proj_x(d, half_size as int) == ox as int);
            assert(proj_y(d, half_size as int) == oy as int);
        }
        Point { x: center.x + ox, y: center.y + oy }
    }
}

/// The result of `rotate_around`, as a spec-level point.
pub open spec fn rotated_point(p: Point, center: Point, rot: Rotation) -> Point {
    Point {
        x: (center.x + rotate_x(point_minus(p, center), rot)) as i64,
        y: (center.y + rotate_y(point_minus(p, center), rot)) as i64,
    }
}

/// Rotates a point lying on a circle border around the circle's center.
pub fn rotate_cirlce_border_point(border_pos: Point, center_pos: Point, rot: Rotation) -> (r:
    Point)
    requires
        unit_ok(border_pos),
        unit_ok(center_pos),
        rot.wf(),
    ensures
        r == rotated_point(border_pos, center_pos, rot),
        -4 * UNIT_LIMIT <= r.x - center_pos.x <= 4 * UNIT_LIMIT,
        -4 * UNIT_LIMIT <= r.y - center_pos.y <= 4 * UNIT_LIMIT,
        ({
            let m = abs_of(border_pos.x - center_pos.x) + abs_of(border_pos.y - center_pos.y);
            -m <= r.x - center_pos.x <= m && -m <= r.y - center_pos.y <= m
        }),
{
    rotate_around(border_pos, center_pos, rot)
}

/// Rotates a point on a square's border around the square's center, then
/// snaps the result back onto the square's perimeter.
pub fn rotate_square_border_point(border_pos: Point, center: Point, rot: Rotation, half_size: i64)
    -> (r: Point)
    requires
        unit_ok(border_pos),
        unit_ok(center),
        rot.wf(),
        0 <= half_size <= UNIT_LIMIT,
    ensures
        ({
            let rp = rotated_point(border_pos, center, rot);
            r.x == center.x + proj_x(fallback_dir(point_minus(rp, center)), half_size as int)
                && r.y == center.y + proj_y(fallback_dir(point_minus(rp, center)), half_size
                as int)
        }),
        center.x - half_size <= r.x <= center.x + half_size,
        center.y - half_size <= r.y <= center.y + half_size,
{
    let rotated = rotate_around(border_pos, center, rot);
    project_to_square_edge(rotated, center, half_size)
}

/// Law: a fixed-point rotation that divides evenly, by a pair with
/// `cos^2 + sin^2 == scale^2`, is undone exactly by the rotation with the
/// opposite angle.
pub proof fn lemma_rotation_closure(dx: int, dy: int, c: int, s: int, scale: int)
    requires
        0 < scale,
        c * c + s * s == scale * scale,
        (dx * c - dy * s) % scale == 0,
        (dx * s + dy * c) % scale == 0,
    ensures
        ({
            let rx = div_towards_zero(dx * c - dy * s, scale);
            let ry = div_towards_zero(dx * s + dy * c, scale);
            div_towards_zero(rx * c - ry * (-s), scale) == dx && div_towards_zero(rx * (-s) + ry
                * c, scale) == dy
        }),
{
    let rx = div_towards_zero(dx * c - dy * s, scale);
    let ry = div_towards_zero(dx * s + dy * c, scale);
    lemma_div_exact(dx * c - dy * s, scale);
    lemma_div_exact(dx * s + dy * c, scale);
    assert((rx * c + ry * s) * scale == (rx * scale) * c + (ry * scale) * s)
        by (nonlinear_arith);
    assert((dx * c - dy * s) * c + (dx * s + dy * c) * s == dx * (c * c + s * s))
        by (nonlinear_arith);
    assert((rx * c + ry * s) * scale == dx * (scale * scale)) by (nonlinear_arith)
        requires
            (rx * c + ry * s) * scale == (rx * scale) * c + (ry * scale) * s,
            rx * scale == dx * c - dy * s,
            ry * scale == dx * s + dy * c,
            (dx * c - dy * s) * c + (dx * s + dy * c) * s == dx * (c * c + s * s),
            c * c + s * s == scale * scale,
    ;
    assert((ry * c - rx * s) * scale == (ry * scale) * c - (rx * scale) * s)
        by (nonlinear_arith);
    assert((dx * s + dy * c) * c - (dx * c - dy * s) * s == dy * (c * c + s * s))
        by (nonlinear_arith);
    assert((ry * c - rx * s) * scale == dy * (scale * scale)) by (nonlinear_arith)
        requires
            (ry * c - rx * s) * scale == (ry * scale) * c - (rx * scale) * s,
            rx * scale == dx * c - dy * s,
            ry * scale == dx * s + dy * c,
            (dx * s + dy * c) * c - (dx * c - dy * s) * s == dy * (c * c + s * s),
            c * c + s * s == scale * scale,
    ;
    assert(rx * c + ry * s == dx * scale && ry * c - rx * s == dy * scale) by (nonlinear_arith)
        requires
            (rx * c + ry * s) * scale == dx * (scale * scale),
            (ry * c - rx * s) * scale == dy * (scale * scale),
            0 < scale,
    ;
    lemma_mod_multiples_basic(dx, scale);
    lemma_mod_multiples_basic(dy, scale);
    lemma_div_exact(dx * scale, scale);
    lemma_div_exact(dy * scale, scale);
    assert(div_towards_zero(dx * scale, scale) == dx && div_towards_zero(dy * scale, scale)
        == dy) by (nonlinear_arith)
        requires
            div_towards_zero(dx * scale, scale) * scale == dx * scale,
            div_towards_zero(dy * scale, scale) * scale == dy * scale,
            0 < scale,
    ;
    assert(rx * c - ry * (-s) == rx * c + ry * s) by (nonlinear_arith);
    assert(rx * (-s) + ry * c == ry * c - rx * s) by (nonlinear_arith);
}

/// Law: on a circle, rotating a border point by an exact fixed-point
/// rotation and then by its inverse returns the original point.
pub proof fn lemma_circle_rotation_closure(p: Point, center: Point, rot: Rotation)
    requires
        unit_ok(p),
        unit_ok(center),
        rot.wf(),
        rot.cos * rot.cos + rot.sin * rot.sin == rot.scale * rot.scale,
        (point_minus(p, center).x * rot.cos - point_minus(p, center).y * rot.sin) % (
        rot.scale as int) == 0,
        (point_minus(p, center).x * rot.sin + point_minus(p, center).y * rot.cos) % (
        rot.scale as int) == 0,
    ensures
        ({
            let back = Rotation { cos: rot.cos, sin: (-rot.sin as int) as i64, scale: rot.scale };
            rotated_point(rotated_point(p, center, rot), center, back) == p
        }),
{
    let d = point_minus(p, center);
    let c = rot.cos as int;
    let s = rot.sin as int;
    let scale = rot.scale as int;
    lemma_rotation_closure(d.x as int, d.y as int, c, s, scale);
    let rx = div_towards_zero(d.x * c - d.y * s, scale);
    let ry = div_towards_zero(d.x * s + d.y * c, scale);
    lemma_rotate_numerator_bound(d.x as int, d.y as int, c, s, scale);
    assert(-(scale * 0x1_0000_0000) == -scale * 0x1_0000_0000) by (nonlinear_arith);
    lemma_div_towards_zero_bound(d.x * c - d.y * s, scale, 0x1_0000_0000);
    lemma_div_towards_zero_bound(d.x * s + d.y * c, scale, 0x1_0000_0000);
    let q = rotated_point(p, center, rot);
    assert(q.x == center.x + rx && q.y == center.y + ry);
    assert(point_minus(q, center).x == rx && point_minus(q, center).y == ry);
    let back = Rotation { cos: rot.cos, sin: (-rot.sin as int) as i64, scale: rot.scale };
    assert(back.cos as int == c && back.sin as int == -s && back.scale as int == scale);
    assert(rotate_x(point_minus(q, center), back) == div_towards_zero(
        rx * c - ry * (-s),
        scale,
    ));
    assert(rotate_y(point_minus(q, center), back) == div_towards_zero(
        rx * (-s) + ry * c,
        scale,
    ));
    assert(rotated_point(q, center, back) == p);
}

/// The truncated quotient of a numerator within `scale * m` stays within
/// `m`.
pub proof fn lemma_div_towards_zero_bound(n: int, d: int, m: int)
    requires
        0 < d,
        0 <= m,
        -(d * m) <= n <= d * m,
    ensures
        -m <= div_towards_zero(n, d) <= m,
{
    if n >= 0 {
        lemma_div_is_ordered(n, d * m, d);
        lemma_div_multiples_vanish(m, d);
        lemma_div_pos_is_pos(n, d);
    } else {
        lemma_div_is_ordered(-n, d * m, d);
        lemma_div_multiples_vanish(m, d);
        lemma_div_pos_is_pos(-n, d);
    }
}

} // verus!
