//! Vectors whose components are fixed-point numbers with 16 fractional bits:
//! the integer `ONE` (65536) stands for 1.0 and `HALF` for 0.5.

use vstd::prelude::*;

verus! {

/// 1.0 in the fixed-point scale of the vector components.
pub const ONE: i32 = 65536;

/// 0.5 in the fixed-point scale of the vector components.
pub const HALF: i32 = 32768;

/// -1.0 in the fixed-point scale of the vector components.
pub const NEG_ONE: i32 = -65536;

/// -0.5 in the fixed-point scale of the vector components.
pub const NEG_HALF: i32 = -32768;

#[derive(Clone, Copy, Debug, PartialEq, Eq, Structural)]
pub struct Vec2 {
    pub x: i32,
    pub y: i32,
}

#[derive(Clone, Copy, Debug, PartialEq, Eq, Structural)]
pub struct Vec3 {
    pub x: i32,
    pub y: i32,
    pub z: i32,
}

#[derive(Clone, Copy, Debug, PartialEq, Eq, Structural)]
pub struct Vec4 {
    pub x: i32,
    pub y: i32,
    pub z: i32,
    pub w: i32,
}

impl Vec2 {
    pub fn make(x: i32, y: i32) -> (v: Self)
        ensures
            v == (Vec2 { x, y }),
    {
        Vec2 { x, y }
    }
}

impl Vec3 {
    /// The zero vector.
    pub fn new() -> (v: Self)
        ensures
            v == (Vec3 { x: 0, y: 0, z: 0 }),
    {
        Vec3 { x: 0, y: 0, z: 0 }
    }

    pub fn make(x: i32, y: i32, z: i32) -> (v: Self)
        ensures
            v == (Vec3 { x, y, z }),
    {
        Vec3 { x, y, z }
    }
}

impl Vec4 {
    pub open spec fn spec_zero() -> Self {
        Vec4 { x: 0, y: 0, z: 0, w: 0 }
    }

    /// The zero vector.
    pub fn zero() -> (v: Self)
        ensures
            v == Self::spec_zero(),
    {
        Vec4 { x: 0, y: 0, z: 0, w: 0 }
    }
}


/// `r` is the integer square root of `n`, rounded down.
pub open spec fn is_floor_sqrt(n: int, r: int) -> bool {
    0 <= r && r * r <= n < (r + 1) * (r + 1)
}

/// The integer square root of `n`, rounded down.
pub open spec fn floor_sqrt(n: int) -> int {
    choose|r: int| is_floor_sqrt(n, r)
}

/// A number has one rounded-down square root.
pub proof fn lemma_floor_sqrt_unique(n: int, r1: int, r2: int)
    requires
        is_floor_sqrt(n, r1),
        is_floor_sqrt(n, r2),
    ensures
        r1 == r2,
{
    if r1 < r2 {
        assert((r1 + 1) * (r1 + 1) <= r2 * r2) by (nonlinear_arith)
            requires
                0 <= r1,
                r1 + 1 <= r2,
        ;
    }
    if r2 < r1 {
        assert((r2 + 1) * (r2 + 1) <= r1 * r1) by (nonlinear_arith)
            requires
                0 <= r2,
                r2 + 1 <= r1,
        ;
    }
}

/// The integer square root of `n`, rounded down, by bisection.
pub fn isqrt(n: u128) -> (r: u128)
    ensures
        is_floor_sqrt(n as int, r as int),
        r == floor_sqrt(n as int),
{
    let mut lo: u128 = 0;
    let mut hi: u128 = 18446744073709551616;
    assert(18446744073709551616 * 18446744073709551616 > u128::MAX) by (nonlinear_arith);
    while lo + 1 < hi
        invariant
            lo < hi <= 18446744073709551616,
            lo * lo <= n,
            n < hi * hi,
        decreases hi - lo,
    {
        let mid = lo + (hi - lo) / 2;
        assert(mid * mid <= 0xffff_ffff_ffff_ffff * 0xffff_ffff_ffff_ffff) by (nonlinear_arith)
            requires
                mid <= 0xffff_ffff_ffff_ffff,
        ;
        if mid * mid <= n {
            lo = mid;
        } else {
            hi = mid;
        }
    }
    proof {
        lemma_floor_sqrt_unique(n as int, lo as int, floor_sqrt(n as int));
    }
    lo
}


/// The components of an executable triple as integers.
pub open spec fn triple(t: (i128, i128, i128)) -> (int, int, int) {
    (t.0 as int, t.1 as int, t.2 as int)
}

/// The absolute value of `x`.
pub open spec fn magnitude(x: int) -> int {
    if x < 0 {
        -x
    } else {
        x
    }
}

/// `n / d` rounded toward zero; zero where `d` is zero.
pub open spec fn quot(n: int, d: int) -> int {
    if d == 0 {
        0
    } else if (n < 0) == (d < 0) {
        magnitude(n) / magnitude(d)
    } else {
        -(magnitude(n) / magnitude(d))
    }
}

/// `n / d` rounded toward zero, zero where `d` is zero.
pub fn quot_exec(n: i128, d: i128) -> (r: i128)
    requires
        -0x8000_0000_0000_0000_0000_0000_0000_0000 < n,
        -0x8000_0000_0000_0000_0000_0000_0000_0000 < d,
    ensures
        r == quot(n as int, d as int),
        magnitude(r as int) <= magnitude(n as int),
{
    if d == 0 {
        return 0;
    }
    let an: u128 = if n < 0 {
        (-n) as u128
    } else {
        n as u128
    };
    let ad: u128 = if d < 0 {
        (-d) as u128
    } else {
        d as u128
    };
    let q = an / ad;
    proof {
        vstd::arithmetic::div_mod::lemma_div_is_ordered_by_denominator(an as int, 1, ad as int);
        assert(an as int / 1 == an as int);
    }
    if (n < 0) == (d < 0) {
        q as i128
    } else {
        -(q as i128)
    }
}

/// Components below this magnitude (exclusive) are small enough to be squared and
/// summed within 128 bits.
pub open spec fn small_bound() -> int {
    0x4000_0000_0000_0000
}

/// Every component of `p` is below `bound` in magnitude.
pub open spec fn is_below(p: (int, int, int), bound: int) -> bool {
    &&& magnitude(p.0) < bound
    &&& magnitude(p.1) < bound
    &&& magnitude(p.2) < bound
}

/// `p` halved, each component rounded toward zero, until every component is below
/// `bound` (or nothing is left).
pub open spec fn halve_below(p: (int, int, int), bound: int) -> (int, int, int)
    decreases magnitude(p.0) + magnitude(p.1) + magnitude(p.2),
{
    if is_below(p, bound) || p == (0int, 0int, 0int) {
        p
    } else {
        halve_below((quot(p.0, 2), quot(p.1, 2), quot(p.2, 2)), bound)
    }
}

/// `p` halved until every component is small.
pub open spec fn halve_until_small(p: (int, int, int)) -> (int, int, int) {
    halve_below(p, small_bound())
}

/// `p` halved until every component is below `bound`.
pub(crate) fn halve_below_exec(p: (i128, i128, i128), bound: i128) -> (r: (i128, i128, i128))
    requires
        bound >= 1,
        -0x8000_0000_0000_0000_0000_0000_0000_0000 < p.0,
        -0x8000_0000_0000_0000_0000_0000_0000_0000 < p.1,
        -0x8000_0000_0000_0000_0000_0000_0000_0000 < p.2,
    ensures
        triple(r) == halve_below(triple(p), bound as int),
        is_below(triple(r), bound as int),
        magnitude(r.0 as int) <= magnitude(p.0 as int),
        magnitude(r.1 as int) <= magnitude(p.1 as int),
        magnitude(r.2 as int) <= magnitude(p.2 as int),
{
    let mut cur = p;
    while !(-bound < cur.0 && cur.0 < bound && -bound < cur.1 && cur.1 < bound && -bound < cur.2 && cur.2 < bound)
        invariant
            bound >= 1,
            halve_below(triple(cur), bound as int) == halve_below(triple(p), bound as int),
            magnitude(cur.0 as int) <= magnitude(p.0 as int),
            magnitude(cur.1 as int) <= magnitude(p.1 as int),
            magnitude(cur.2 as int) <= magnitude(p.2 as int),
            -0x8000_0000_0000_0000_0000_0000_0000_0000 < p.0,
            -0x8000_0000_0000_0000_0000_0000_0000_0000 < p.1,
            -0x8000_0000_0000_0000_0000_0000_0000_0000 < p.2,
        decreases magnitude(cur.0 as int) + magnitude(cur.1 as int) + magnitude(cur.2 as int),
    {
        cur = (quot_exec(cur.0, 2), quot_exec(cur.1, 2), quot_exec(cur.2, 2));
    }
    cur
}

/// The cross product of `b - a` and `c - a`: the triangle's normal direction, scaled
/// by twice its area.
pub open spec fn triangle_cross(a: Vec3, b: Vec3, c: Vec3) -> (int, int, int) {
    let (ux, uy, uz) = (b.x - a.x, b.y - a.y, b.z - a.z);
    let (vx, vy, vz) = (c.x - a.x, c.y - a.y, c.z - a.z);
    (uy * vz - uz * vy, uz * vx - ux * vz, ux * vy - uy * vx)
}

/// The triangle has no area, so no normal.
pub open spec fn is_degenerate(a: Vec3, b: Vec3, c: Vec3) -> bool {
    triangle_cross(a, b, c) == (0int, 0int, 0int)
}

/// `c / len` in fixed point, rounded toward zero.
pub open spec fn unit_component(c: int, len: int) -> int {
    if c >= 0 {
        c * ONE / len
    } else {
        -((-c) * ONE / len)
    }
}

/// Cross products are halved, each component rounded toward zero, until every component
/// is below this magnitude (exclusive), so that their squares sum within 128 bits.
pub open spec fn normal_bound() -> int {
    0x8000_0000_0000_0000
}

/// The unit normal of the triangle `a`, `b`, `c` (counter-clockwise seen from the
/// front): the cross product, halved below `normal_bound()`, divided by its length,
/// whose square root is rounded down, each component in fixed point rounded toward zero.
pub open spec fn triangle_normal(a: Vec3, b: Vec3, c: Vec3) -> Vec3 {
    let (nx, ny, nz) = halve_below(triangle_cross(a, b, c), normal_bound());
    let len = floor_sqrt(nx * nx + ny * ny + nz * nz);
    Vec3 {
        x: unit_component(nx, len) as i32,
        y: unit_component(ny, len) as i32,
        z: unit_component(nz, len) as i32,
    }
}

pub(crate) proof fn lemma_square_below(a: int, b: int)
    requires
        b >= 0,
        a * a < (b + 1) * (b + 1),
    ensures
        a * a <= b * b,
{
    if a * a > b * b {
        if a >= 0 {
            assert(a > b) by (nonlinear_arith)
                requires
                    a * a > b * b,
                    a >= 0,
                    b >= 0,
            ;
            assert(a * a >= (b + 1) * (b + 1)) by (nonlinear_arith)
                requires
                    a >= b + 1,
                    b >= 0,
            ;
        } else {
            assert(-a > b) by (nonlinear_arith)
                requires
                    a * a > b * b,
                    a < 0,
                    b >= 0,
            ;
            assert(a * a >= (b + 1) * (b + 1)) by (nonlinear_arith)
                requires
                    -a >= b + 1,
                    b >= 0,
            ;
        }
    }
}

/// `x * ONE / len` for `0 <= x <= len`, with `x < 2^63`, rounded down.
fn scaled_ratio(x: u128, len: u128) -> (r: i32)
    requires
        x <= len,
        0 < len,
        x < 0x8000_0000_0000_0000,
    ensures
        r == (x as int) * (ONE as int) / (len as int),
        0 <= r <= ONE,
{
    let p = x * 65536;
    proof {
        let xi = x as int;
        let li = len as int;
        assert(xi * 65536 <= li * 65536) by (nonlinear_arith)
            requires
                xi <= li,
        ;
        vstd::arithmetic::div_mod::lemma_div_is_ordered(xi * 65536, li * 65536, li);
        vstd::arithmetic::div_mod::lemma_div_multiples_vanish(65536, li);
        assert(li * 65536 == 65536 * li) by (nonlinear_arith);
        assert(xi * 65536 >= 0) by (nonlinear_arith)
            requires
                xi >= 0,
        ;
        vstd::arithmetic::div_mod::lemma_div_pos_is_pos(xi * 65536, li);
    }
    (p / len) as i32
}

pub(crate) fn unit_component_exec(c: i128, len: u128) -> (r: i32)
    requires
        0 < len,
        c * c <= len * len,
        -0x8000_0000_0000_0000 < c < 0x8000_0000_0000_0000,
    ensures
        r == unit_component(c as int, len as int),
{
    if c >= 0 {
        assert(c <= len) by (nonlinear_arith)
            requires
                c * c <= len * len,
                0 <= c,
                0 < len,
        ;
        scaled_ratio(c as u128, len)
    } else {
        let m = -c;
        assert(c * c == m * m) by (nonlinear_arith)
            requires
                m == -c,
        ;
        assert(m <= len) by (nonlinear_arith)
            requires
                m * m <= len * len,
                0 <= m,
                0 < len,
        ;
        let q = scaled_ratio(m as u128, len);
        -q
    }
}

/// Halving never turns a vector that is not zero into zero.
pub proof fn lemma_halve_nonzero(p: (int, int, int), bound: int)
    requires
        bound >= 2,
        p != (0int, 0int, 0int),
    ensures
        halve_below(p, bound) != (0int, 0int, 0int),
    decreases magnitude(p.0) + magnitude(p.1) + magnitude(p.2),
{
    if !is_below(p, bound) {
        let q = (quot(p.0, 2), quot(p.1, 2), quot(p.2, 2));
        assert(q != (0int, 0int, 0int)) by {
            if magnitude(p.0) >= bound {
                assert(magnitude(p.0) / 2 >= 1);
            } else if magnitude(p.1) >= bound {
                assert(magnitude(p.1) / 2 >= 1);
            } else {
                assert(magnitude(p.2) / 2 >= 1);
            }
        }
        assert(magnitude(q.0) + magnitude(q.1) + magnitude(q.2) < magnitude(p.0) + magnitude(p.1) + magnitude(p.2));
        lemma_halve_nonzero(q, bound);
    }
}

/// Every number that is not negative has its rounded-down square root.
pub proof fn lemma_floor_sqrt(n: int)
    requires
        n >= 0,
    ensures
        is_floor_sqrt(n, floor_sqrt(n)),
    decreases n,
{
    if n == 0 {
        assert(is_floor_sqrt(0, 0));
    } else {
        lemma_floor_sqrt(n - 1);
        let r = floor_sqrt(n - 1);
        if (r + 1) * (r + 1) <= n {
            assert((r + 1) * (r + 1) == n);
            assert(n < (r + 2) * (r + 2)) by (nonlinear_arith)
                requires
                    (r + 1) * (r + 1) == n,
                    r >= 0,
            ;
            assert(is_floor_sqrt(n, r + 1));
        } else {
            assert(is_floor_sqrt(n, r));
        }
    }
}

/// Halving keeps the sign of each component, or makes it zero.
pub proof fn lemma_halve_signs(p: (int, int, int), bound: int)
    ensures
        ({
            let h = halve_below(p, bound);
            &&& (h.0 > 0 ==> p.0 > 0) && (h.0 < 0 ==> p.0 < 0)
            &&& (h.1 > 0 ==> p.1 > 0) && (h.1 < 0 ==> p.1 < 0)
            &&& (h.2 > 0 ==> p.2 > 0) && (h.2 < 0 ==> p.2 < 0)
        }),
    decreases magnitude(p.0) + magnitude(p.1) + magnitude(p.2),
{
    if !(is_below(p, bound) || p == (0int, 0int, 0int)) {
        let q = (quot(p.0, 2), quot(p.1, 2), quot(p.2, 2));
        assert(magnitude(q.0) == magnitude(p.0) / 2 && magnitude(q.1) == magnitude(p.1) / 2 && magnitude(q.2)
            == magnitude(p.2) / 2);
        assert(magnitude(q.0) + magnitude(q.1) + magnitude(q.2) < magnitude(p.0) + magnitude(p.1) + magnitude(p.2));
        lemma_halve_signs(q, bound);
    }
}

/// A component of the unit vector of `h`, whose length rounded down is `len`, has the
/// sign of the component of `h`, and is not zero where the component is at least half
/// as long as the vector.
proof fn lemma_unit_component_sign(c: int, len: int)
    requires
        len > 0,
    ensures
        c >= 0 ==> unit_component(c, len) >= 0,
        c <= 0 ==> unit_component(c, len) <= 0,
        2 * c > len ==> unit_component(c, len) > 0,
        2 * c < -len ==> unit_component(c, len) < 0,
{
    if c >= 0 {
        assert(c * ONE >= 0) by (nonlinear_arith)
            requires
                c >= 0,
        ;
        if 2 * c > len {
            assert(c * ONE >= len) by (nonlinear_arith)
                requires
                    2 * c > len,
                    c >= 0,
            ;
            vstd::arithmetic::div_mod::lemma_div_is_ordered(len, c * ONE, len);
            vstd::arithmetic::div_mod::lemma_div_by_self(len);
        }
    } else {
        assert((-c) * ONE >= 0) by (nonlinear_arith)
            requires
                c < 0,
        ;
        if 2 * c < -len {
            assert((-c) * ONE >= len) by (nonlinear_arith)
                requires
                    2 * c < -len,
                    len > 0,
            ;
            vstd::arithmetic::div_mod::lemma_div_is_ordered(len, (-c) * ONE, len);
            vstd::arithmetic::div_mod::lemma_div_by_self(len);
        }
    }
}

/// A component no longer than the vector has a unit component between -1 and 1.
proof fn lemma_unit_component_range(c: int, len: int)
    requires
        len > 0,
        c * c <= len * len,
    ensures
        -ONE <= unit_component(c, len) <= ONE,
{
    let m = if c >= 0 { c } else { -c };
    assert(m * m == c * c) by (nonlinear_arith)
        requires
            m == c || m == -c,
    ;
    assert(0 <= m <= len) by (nonlinear_arith)
        requires
            m * m == c * c,
            c * c <= len * len,
            m >= 0,
            len > 0,
    ;
    assert(m * ONE <= len * ONE && m * ONE >= 0) by (nonlinear_arith)
        requires
            0 <= m <= len,
    ;
    vstd::arithmetic::div_mod::lemma_div_is_ordered(m * ONE, len * ONE, len);
    vstd::arithmetic::div_mod::lemma_div_multiples_vanish(ONE as int, len);
    assert(len * ONE == len * (ONE as int));
    assert((len * (ONE as int)) / len == ONE) by {
        vstd::arithmetic::div_mod::lemma_div_multiples_vanish(ONE as int, len);
    }
    vstd::arithmetic::div_mod::lemma_div_pos_is_pos(m * ONE, len);
    if c < 0 {
        assert(m == -c);
    }
}

/// The unit vector of `p`, taken after halving `p` below `bound`, points along `p`: its
/// dot product with `p` is positive, and no component points against `p`'s.
pub proof fn lemma_unit_along(p: (int, int, int), bound: int)
    requires
        bound >= 2,
        p != (0int, 0int, 0int),
    ensures
        ({
            let h = halve_below(p, bound);
            let len = floor_sqrt(h.0 * h.0 + h.1 * h.1 + h.2 * h.2);
            let (u0, u1, u2) = (unit_component(h.0, len), unit_component(h.1, len), unit_component(h.2, len));
            &&& len > 0
            &&& u0 * p.0 >= 0 && u1 * p.1 >= 0 && u2 * p.2 >= 0
            &&& u0 * p.0 + u1 * p.1 + u2 * p.2 > 0
        }),
{
    let h = halve_below(p, bound);
    lemma_halve_nonzero(p, bound);
    lemma_halve_signs(p, bound);
    let (a, b, c) = (h.0, h.1, h.2);
    let sum = a * a + b * b + c * c;
    assert(sum >= 0 && sum > 0) by (nonlinear_arith)
        requires
            sum == a * a + b * b + c * c,
            a != 0 || b != 0 || c != 0,
    ;
    lemma_floor_sqrt(sum);
    let len = floor_sqrt(sum);
    assert(len > 0) by (nonlinear_arith)
        requires
            0 <= len,
            sum < (len + 1) * (len + 1),
            sum > 0,
    ;
    lemma_unit_component_sign(a, len);
    lemma_unit_component_sign(b, len);
    lemma_unit_component_sign(c, len);
    let (u0, u1, u2) = (unit_component(a, len), unit_component(b, len), unit_component(c, len));
    assert(u0 * p.0 >= 0 && u1 * p.1 >= 0 && u2 * p.2 >= 0) by (nonlinear_arith)
        requires
            a >= 0 ==> u0 >= 0,
            a <= 0 ==> u0 <= 0,
            b >= 0 ==> u1 >= 0,
            b <= 0 ==> u1 <= 0,
            c >= 0 ==> u2 >= 0,
            c <= 0 ==> u2 <= 0,
            a > 0 ==> p.0 > 0,
            a < 0 ==> p.0 < 0,
            b > 0 ==> p.1 > 0,
            b < 0 ==> p.1 < 0,
            c > 0 ==> p.2 > 0,
            c < 0 ==> p.2 < 0,
            a == 0 ==> u0 == 0,
            b == 0 ==> u1 == 0,
            c == 0 ==> u2 == 0,
    ;
    // The longest component is at least half the length.
    assert(4 * a * a > len * len || 4 * b * b > len * len || 4 * c * c > len * len) by (nonlinear_arith)
        requires
            len * len <= a * a + b * b + c * c,
            a != 0 || b != 0 || c != 0,
            len > 0,
    ;
    assert(2 * a > len || 2 * a < -len || 2 * b > len || 2 * b < -len || 2 * c > len || 2 * c < -len) by (nonlinear_arith)
        requires
            4 * a * a > len * len || 4 * b * b > len * len || 4 * c * c > len * len,
            len > 0,
    ;
    assert(u0 * p.0 > 0 || u1 * p.1 > 0 || u2 * p.2 > 0) by (nonlinear_arith)
        requires
            2 * a > len ==> u0 > 0,
            2 * a < -len ==> u0 < 0,
            2 * b > len ==> u1 > 0,
            2 * b < -len ==> u1 < 0,
            2 * c > len ==> u2 > 0,
            2 * c < -len ==> u2 < 0,
            a > 0 ==> p.0 > 0,
            a < 0 ==> p.0 < 0,
            b > 0 ==> p.1 > 0,
            b < 0 ==> p.1 < 0,
            c > 0 ==> p.2 > 0,
            c < 0 ==> p.2 < 0,
            2 * a > len || 2 * a < -len || 2 * b > len || 2 * b < -len || 2 * c > len || 2 * c < -len,
            len > 0,
    ;
}

/// The unit normal of a triangle with area faces the side from which its corners run
/// counter-clockwise: no component points against the cross product of its edges, and
/// its dot product with that cross product is positive.
pub proof fn lemma_normal_follows_winding(a: Vec3, b: Vec3, c: Vec3)
    requires
        ({
            let (ux, uy, uz) = (b.x - a.x, b.y - a.y, b.z - a.z);
            let (vx, vy, vz) = (c.x - a.x, c.y - a.y, c.z - a.z);
            uy * vz - uz * vy != 0 || uz * vx - ux * vz != 0 || ux * vy - uy * vx != 0
        }),
    ensures
        ({
            let (ux, uy, uz) = (b.x - a.x, b.y - a.y, b.z - a.z);
            let (vx, vy, vz) = (c.x - a.x, c.y - a.y, c.z - a.z);
            let (cx, cy, cz) = (uy * vz - uz * vy, uz * vx - ux * vz, ux * vy - uy * vx);
            let n = triangle_normal(a, b, c);
            &&& n.x * cx >= 0 && n.y * cy >= 0 && n.z * cz >= 0
            &&& n.x * cx + n.y * cy + n.z * cz > 0
        }),
{
    let p = triangle_cross(a, b, c);
    lemma_unit_along(p, normal_bound());
    lemma_unit_in_range(halve_below(p, normal_bound()));
}

/// The components of a unit vector lie between -1 and 1.
pub proof fn lemma_unit_in_range(h: (int, int, int))
    ensures
        ({
            let len = floor_sqrt(h.0 * h.0 + h.1 * h.1 + h.2 * h.2);
            len > 0 ==> {
                &&& -ONE <= unit_component(h.0, len) <= ONE
                &&& -ONE <= unit_component(h.1, len) <= ONE
                &&& -ONE <= unit_component(h.2, len) <= ONE
            }
        }),
{
    let len = floor_sqrt(h.0 * h.0 + h.1 * h.1 + h.2 * h.2);
    assert(h.0 * h.0 >= 0 && h.1 * h.1 >= 0 && h.2 * h.2 >= 0) by (nonlinear_arith);
    lemma_floor_sqrt(h.0 * h.0 + h.1 * h.1 + h.2 * h.2);
    if len > 0 {
        assert(h.0 * h.0 < (len + 1) * (len + 1) && h.1 * h.1 < (len + 1) * (len + 1) && h.2 * h.2 < (len + 1) * (
            len + 1)) by (nonlinear_arith)
            requires
                h.0 * h.0 + h.1 * h.1 + h.2 * h.2 < (len + 1) * (len + 1),
                h.0 * h.0 >= 0 && h.1 * h.1 >= 0 && h.2 * h.2 >= 0,
        ;
        lemma_square_below(h.0, len);
        lemma_square_below(h.1, len);
        lemma_square_below(h.2, len);
        lemma_unit_component_range(h.0, len);
        lemma_unit_component_range(h.1, len);
        lemma_unit_component_range(h.2, len);
    }
}

/// The cross product of `b - a` and `c - a`.
pub fn triangle_cross_exec(a: Vec3, b: Vec3, c: Vec3) -> (n: (i128, i128, i128))
    ensures
        triple(n) == triangle_cross(a, b, c),
        -0x4_0000_0000_0000_0000 < n.0 < 0x4_0000_0000_0000_0000,
        -0x4_0000_0000_0000_0000 < n.1 < 0x4_0000_0000_0000_0000,
        -0x4_0000_0000_0000_0000 < n.2 < 0x4_0000_0000_0000_0000,
{
    let ux = b.x as i128 - a.x as i128;
    let uy = b.y as i128 - a.y as i128;
    let uz = b.z as i128 - a.z as i128;
    let vx = c.x as i128 - a.x as i128;
    let vy = c.y as i128 - a.y as i128;
    let vz = c.z as i128 - a.z as i128;
    proof {
        lemma_difference_product(uy as int, vz as int);
        lemma_difference_product(uz as int, vy as int);
        lemma_difference_product(uz as int, vx as int);
        lemma_difference_product(ux as int, vz as int);
        lemma_difference_product(ux as int, vy as int);
        lemma_difference_product(uy as int, vx as int);
    }
    let nx = uy * vz - uz * vy;
    let ny = uz * vx - ux * vz;
    let nz = ux * vy - uy * vx;
    (nx, ny, nz)
}

/// Products of two coordinate differences stay below 2^64 in magnitude.
proof fn lemma_difference_product(a: int, b: int)
    requires
        -0x1_0000_0000 < a < 0x1_0000_0000,
        -0x1_0000_0000 < b < 0x1_0000_0000,
    ensures
        -0x1_0000_0000_0000_0000 < a * b < 0x1_0000_0000_0000_0000,
{
    assert(-0x1_0000_0000_0000_0000 < a * b < 0x1_0000_0000_0000_0000) by (nonlinear_arith)
        requires
            -0x1_0000_0000 < a < 0x1_0000_0000,
            -0x1_0000_0000 < b < 0x1_0000_0000,
    ;
}

/// Whether the triangle has no area.
pub fn is_degenerate_exec(a: Vec3, b: Vec3, c: Vec3) -> (d: bool)
    ensures
        d == is_degenerate(a, b, c),
{
    let (nx, ny, nz) = triangle_cross_exec(a, b, c);
    nx == 0 && ny == 0 && nz == 0
}

/// The unit normal of a triangle with nonzero area.
pub fn triangle_normal_exec(a: Vec3, b: Vec3, c: Vec3) -> (n: Vec3)
    requires
        !is_degenerate(a, b, c),
    ensures
        n == triangle_normal(a, b, c),
{
    let p = triangle_cross_exec(a, b, c);
    let (nx, ny, nz) = halve_below_exec(p, 0x8000_0000_0000_0000);
    proof {
        lemma_halve_nonzero(triple(p), normal_bound());
        assert(0 <= nx * nx <= 0x4000_0000_0000_0000_0000_0000_0000_0000) by (nonlinear_arith)
            requires
                -0x8000_0000_0000_0000 < nx < 0x8000_0000_0000_0000,
        ;
        assert(0 <= ny * ny <= 0x4000_0000_0000_0000_0000_0000_0000_0000) by (nonlinear_arith)
            requires
                -0x8000_0000_0000_0000 < ny < 0x8000_0000_0000_0000,
        ;
        assert(0 <= nz * nz <= 0x4000_0000_0000_0000_0000_0000_0000_0000) by (nonlinear_arith)
            requires
                -0x8000_0000_0000_0000 < nz < 0x8000_0000_0000_0000,
        ;
    }
    let sum: u128 = (nx * nx) as u128 + (ny * ny) as u128 + (nz * nz) as u128;
    let len = isqrt(sum);
    proof {
        let s = sum as int;
        let l = len as int;
        assert(l * l <= s < (l + 1) * (l + 1));
        assert(s > 0) by (nonlinear_arith)
            requires
                s == nx * nx + ny * ny + nz * nz,
                nx != 0 || ny != 0 || nz != 0,
        ;
        assert(l > 0) by (nonlinear_arith)
            requires
                s < (l + 1) * (l + 1),
                s > 0,
                l >= 0,
        ;
        lemma_square_below(nx as int, l);
        lemma_square_below(ny as int, l);
        lemma_square_below(nz as int, l);
    }
    Vec3 {
        x: unit_component_exec(nx, len),
        y: unit_component_exec(ny, len),
        z: unit_component_exec(nz, len),
    }
}

}
