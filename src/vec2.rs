use vstd::prelude::*;
use vstd::arithmetic::div_mod::{lemma_fundamental_div_mod, lemma_mod_pos_bound};

verus! {

/// A 2D vector in fixed point: each component counts thousandths of a pixel
/// (for a position), of a pixel per second (for a velocity), or of a pixel per
/// second squared (for an acceleration).
#[derive(Clone, Copy, Debug, PartialEq, Eq, Structural)]
pub struct Vec2 {
    pub x: i64,
    pub y: i64,
}

impl View for Vec2 {
    type V = (int, int);

    open spec fn view(&self) -> (int, int) {
        (self.x as int, self.y as int)
    }
}

/// Squared Euclidean length.
pub open spec fn norm_sq(v: (int, int)) -> int {
    v.0 * v.0 + v.1 * v.1
}

/// `r` is the least non-negative integer whose square reaches `n`.
pub open spec fn is_ceil_sqrt(n: int, r: int) -> bool {
    0 <= r && n <= r * r && (r == 0 || (r - 1) * (r - 1) < n)
}

/// Square root of `n`, rounded up.
pub open spec fn ceil_sqrt(n: int) -> int {
    choose|r: int| is_ceil_sqrt(n, r)
}

/// Euclidean length, rounded up to a whole unit.
pub open spec fn length(v: (int, int)) -> int {
    ceil_sqrt(norm_sq(v))
}

/// Division that rounds toward zero, for a positive divisor.
pub open spec fn tdiv(a: int, b: int) -> int {
    if a >= 0 {
        a / b
    } else {
        -((-a) / b)
    }
}

/// Factor applied to a short vector before it is measured, so that its length
/// is known to many more digits: `2^31` when the squared length is below
/// `2^64`, else `1`.
pub open spec fn precision_factor(v: (int, int)) -> int {
    if norm_sq(v) < 0x1_0000_0000_0000_0000 {
        0x8000_0000
    } else {
        1
    }
}

/// `v` multiplied by its precision factor.
pub open spec fn refined(v: (int, int)) -> (int, int) {
    (v.0 * precision_factor(v), v.1 * precision_factor(v))
}

/// `u` times `l / length(u)`, each component rounded toward zero.
pub open spec fn rescaled(u: (int, int), l: int) -> (int, int) {
    (tdiv(u.0 * l, length(u)), tdiv(u.1 * l, length(u)))
}

/// `v` rescaled to length `l` along its own direction (each component rounded
/// toward zero); the zero vector stays zero.
pub open spec fn with_length_of(v: (int, int), l: int) -> (int, int) {
    if v == (0int, 0int) {
        (0, 0)
    } else {
        rescaled(refined(v), l)
    }
}

/// `v` shortened to length `m` when it is longer than `m`; otherwise `v`.
pub open spec fn limit_of(v: (int, int), m: int) -> (int, int) {
    if norm_sq(v) > m * m {
        with_length_of(v, m)
    } else {
        v
    }
}

/// One coordinate teleported across the edges of `[0, size]`.
pub open spec fn wrap_coord(c: int, size: int) -> int {
    if c > size {
        0
    } else if c < 0 {
        size
    } else {
        c
    }
}

/// `v` teleported across the edges of the screen `[0, w] x [0, h]`.
pub open spec fn wrap_of(v: (int, int), w: int, h: int) -> (int, int) {
    (wrap_coord(v.0, w), wrap_coord(v.1, h))
}

/// Both components of `v` lie within `[-b, b]`.
pub open spec fn bounded(v: (int, int), b: int) -> bool {
    -b <= v.0 <= b && -b <= v.1 <= b
}

/// The rounded-up square root is the only value with its defining property.
pub proof fn lemma_ceil_sqrt_unique(n: int, r: int)
    requires
        is_ceil_sqrt(n, r),
    ensures
        ceil_sqrt(n) == r,
{
    let c = ceil_sqrt(n);
    assert(is_ceil_sqrt(n, c));
    if c < r {
        assert(c * c <= (r - 1) * (r - 1)) by (nonlinear_arith)
            requires
                0 <= c,
                c <= r - 1,
        ;
    } else if r < c {
        assert(r * r <= (c - 1) * (c - 1)) by (nonlinear_arith)
            requires
                0 <= r,
                r <= c - 1,
        ;
    }
}

/// A component is no longer than a length whose square reaches the squared norm.
pub proof fn lemma_component_le(a: int, b: int, n: int)
    requires
        0 <= n,
        a * a + b * b <= n * n,
    ensures
        -n <= a <= n,
{
    if a > n {
        assert(a * a > n * n) by (nonlinear_arith)
            requires
                a > n,
                n >= 0,
        ;
        assert(b * b >= 0) by (nonlinear_arith);
    }
    if a < -n {
        assert(a * a > n * n) by (nonlinear_arith)
            requires
                -a > n,
                n >= 0,
        ;
        assert(b * b >= 0) by (nonlinear_arith);
    }
}

/// Rounding toward zero never grows the magnitude past the exact quotient.
pub proof fn lemma_tdiv_bound(a: int, b: int)
    requires
        b > 0,
    ensures
        (if a >= 0 { tdiv(a, b) } else { -tdiv(a, b) }) * b <= (if a >= 0 { a } else { -a }),
        (if a >= 0 { tdiv(a, b) } else { -tdiv(a, b) }) >= 0,
        a >= 0 ==> tdiv(a, b) >= 0,
        a <= 0 ==> tdiv(a, b) <= 0,
        tdiv(-a, b) == -tdiv(a, b),
        ((if a >= 0 { tdiv(a, b) } else { -tdiv(a, b) }) + 1) * b > (if a >= 0 { a } else { -a }),
{
    let p = if a >= 0 { a } else { -a };
    lemma_fundamental_div_mod(p, b);
    lemma_mod_pos_bound(p, b);
    assert((p / b + 1) * b > p) by (nonlinear_arith)
        requires
            p == b * (p / b) + p % b,
            p % b < b,
    ;
    assert(p / b * b <= p) by (nonlinear_arith)
        requires
            b > 0,
            p >= 0,
    ;
    assert(p / b >= 0) by (nonlinear_arith)
        requires
            b > 0,
            p >= 0,
    ;
    assert(0int / b == 0);
}

/// Rescaling by `m / n` with `n` at least the length keeps the result within `m`.
pub proof fn lemma_scaled_norm(x: int, y: int, m: int, n: int, qx: int, qy: int)
    requires
        n > 0,
        m >= 0,
        x * x + y * y <= n * n,
        (if qx >= 0 { qx } else { -qx }) * n <= (if x >= 0 { x } else { -x }) * m,
        (if qy >= 0 { qy } else { -qy }) * n <= (if y >= 0 { y } else { -y }) * m,
    ensures
        qx * qx + qy * qy <= m * m,
{
    let ax = if x >= 0 { x } else { -x };
    let ay = if y >= 0 { y } else { -y };
    let aqx = if qx >= 0 { qx } else { -qx };
    let aqy = if qy >= 0 { qy } else { -qy };
    lemma_square_of_abs(x, ax);
    lemma_square_of_abs(y, ay);
    lemma_square_of_abs(qx, aqx);
    lemma_square_of_abs(qy, aqy);
    let xx = aqx * aqx;
    let yy = aqy * aqy;
    let nn = n * n;
    let mm = m * m;
    let pp = ax * ax;
    let qq = ay * ay;
    assert(xx * nn <= pp * mm) by (nonlinear_arith)
        requires
            0 <= aqx * n,
            aqx * n <= ax * m,
            xx == aqx * aqx,
            nn == n * n,
            pp == ax * ax,
            mm == m * m,
    ;
    assert(yy * nn <= qq * mm) by (nonlinear_arith)
        requires
            0 <= aqy * n,
            aqy * n <= ay * m,
            yy == aqy * aqy,
            nn == n * n,
            qq == ay * ay,
            mm == m * m,
    ;
    assert((xx + yy) * nn <= nn * mm) by (nonlinear_arith)
        requires
            xx * nn <= pp * mm,
            yy * nn <= qq * mm,
            pp + qq <= nn,
            mm >= 0,
    ;
    assert(nn > 0) by (nonlinear_arith)
        requires
            n > 0,
            nn == n * n,
    ;
    assert(xx + yy <= mm) by (nonlinear_arith)
        requires
            (xx + yy) * nn <= nn * mm,
            nn > 0,
    ;
}

/// The absolute value squares to the same as the value.
proof fn lemma_square_of_abs(a: int, b: int)
    requires
        b == (if a >= 0 { a } else { -a }),
    ensures
        b * b == a * a,
        b >= 0,
{
    if a < 0 {
        assert(b * b == a * a) by (nonlinear_arith)
            requires
                b == -a,
        ;
    }
}

/// Square root of `n`, rounded up, by bisection.
fn ceil_sqrt_u128(n: u128) -> (r: u64)
    requires
        n <= 0x8000_0000_0000_0000_0000_0000_0000_0000u128,
    ensures
        r as int == ceil_sqrt(n as int),
{
    let mut lo: u128 = 0;
    let mut hi: u128 = 0xFFFF_FFFF_FFFF_FFFFu128;
    assert(n <= hi * hi) by (nonlinear_arith)
        requires
            n <= 0x8000_0000_0000_0000_0000_0000_0000_0000u128,
            hi == 0xFFFF_FFFF_FFFF_FFFFu128,
    ;
    while lo < hi
        invariant
            lo <= hi <= 0xFFFF_FFFF_FFFF_FFFFu128,
            n <= hi * hi,
            lo == 0 || (lo - 1) * (lo - 1) < n,
        decreases hi - lo,
    {
        let mid: u128 = lo + (hi - lo) / 2;
        assert(mid * mid <= 0xFFFF_FFFF_FFFF_FFFFu128 * 0xFFFF_FFFF_FFFF_FFFFu128) by (nonlinear_arith)
            requires
                mid <= 0xFFFF_FFFF_FFFF_FFFFu128,
        ;
        if mid * mid >= n {
            hi = mid;
        } else {
            lo = mid + 1;
        }
    }
    proof {
        lemma_ceil_sqrt_unique(n as int, lo as int);
    }
    lo as u64
}

/// `a / b` rounded toward zero.
pub(crate) fn tdiv_i128(a: i128, b: i128) -> (r: i128)
    requires
        b > 0,
        a > i128::MIN,
    ensures
        r == tdiv(a as int, b as int),
{
    if a >= 0 {
        a / b
    } else {
        -((-a) / b)
    }
}

/// Relies on macroquad's `rand::gen_range` (quad-rand) on `i64`: it computes
/// `low + (high - low) * u` in `f64` for some `u` in `[0, 1)` and rounds toward
/// zero, which stays within `[low, high]` while both bounds are exact in `f64`.
#[verifier::external_body]
fn gen_range_i64(low: i64, high: i64) -> (r: i64)
    requires
        -RANDOM_BOUND <= low <= high <= RANDOM_BOUND,
    ensures
        low <= r <= high,
{
    new_egui_macroquad::macroquad::rand::gen_range::<i64>(low, high)
}

/// Largest magnitude of a bound handed to the random source (2^52).
pub const RANDOM_BOUND: i64 = 4_503_599_627_370_496;

impl Vec2 {
    /// A vector whose components are drawn independently from `[min, max]`.
    pub fn random(min: i64, max: i64) -> (r: Vec2)
        requires
            -RANDOM_BOUND <= min <= max <= RANDOM_BOUND,
        ensures
            min <= r.x <= max,
            min <= r.y <= max,
    {
        let x = gen_range_i64(min, max);
        let y = gen_range_i64(min, max);
        Vec2 { x, y }
    }

    /// A point drawn from the screen `[0, width] x [0, height]`.
    pub fn random_in_screen(width: i64, height: i64) -> (r: Vec2)
        requires
            0 <= width <= RANDOM_BOUND,
            0 <= height <= RANDOM_BOUND,
        ensures
            0 <= r.x <= width,
            0 <= r.y <= height,
    {
        let x = gen_range_i64(0, width);
        let y = gen_range_i64(0, height);
        Vec2 { x, y }
    }

    /// The vector `(x, y)`.
    pub fn new(x: i64, y: i64) -> (r: Vec2)
        ensures
            r.x == x,
            r.y == y,
    {
        Vec2 { x, y }
    }

    /// The zero vector.
    pub fn zero() -> (r: Vec2)
        ensures
            r@ == (0int, 0int),
    {
        Vec2 { x: 0, y: 0 }
    }

    /// Squared Euclidean length; exact for every pair of components.
    pub fn length_sq(&self) -> (r: u128)
        ensures
            r as int == norm_sq(self@),
            r <= 0x8000_0000_0000_0000_0000_0000_0000_0000u128,
    {
        let x = self.x as i128;
        let y = self.y as i128;
        assert(x * x <= 0x4000_0000_0000_0000_0000_0000_0000_0000i128 && x * x >= 0)
            by (nonlinear_arith)
            requires
                -0x8000_0000_0000_0000i128 <= x <= 0x7FFF_FFFF_FFFF_FFFFi128,
        ;
        assert(y * y <= 0x4000_0000_0000_0000_0000_0000_0000_0000i128 && y * y >= 0)
            by (nonlinear_arith)
            requires
                -0x8000_0000_0000_0000i128 <= y <= 0x7FFF_FFFF_FFFF_FFFFi128,
        ;
        (x * x) as u128 + (y * y) as u128
    }

    /// Euclidean length, rounded up to a whole unit.
    pub fn length(&self) -> (r: u64)
        ensures
            r as int == length(self@),
    {
        ceil_sqrt_u128(self.length_sq())
    }

    /// The vector rescaled to `length` along its own direction; zero stays zero.
    pub fn with_length(&self, length: i64) -> (r: Vec2)
        requires
            length >= 0,
        ensures
            r@ == with_length_of(self@, length as int),
            norm_sq(r@) <= length * length,
    {
        if self.x == 0 && self.y == 0 {
            assert(norm_sq((0int, 0int)) == 0);
            return Vec2::zero();
        }
        let n = self.length_sq();
        let f: i128 = if n < 0x1_0000_0000_0000_0000u128 { 0x8000_0000 } else { 1 };
        let ghost v = self@;
        let ghost u = refined(v);
        proof {
            if f == 1 {
                assert(u == v);
            } else {
                lemma_component_le(v.0, v.1, 0x1_0000_0000);
                lemma_component_le(v.1, v.0, 0x1_0000_0000);
            }
            assert(-0x8000_0000_0000_0000 <= v.0 * f <= 0x8000_0000_0000_0000
                && -0x8000_0000_0000_0000 <= v.1 * f <= 0x8000_0000_0000_0000) by (nonlinear_arith)
                requires
                    f == 1 || (f == 0x8000_0000 && -0x1_0000_0000 <= v.0 <= 0x1_0000_0000
                        && -0x1_0000_0000 <= v.1 <= 0x1_0000_0000),
                    -0x8000_0000_0000_0000 <= v.0 <= 0x7FFF_FFFF_FFFF_FFFF,
                    -0x8000_0000_0000_0000 <= v.1 <= 0x7FFF_FFFF_FFFF_FFFF,
            ;
        }
        let ux = self.x as i128 * f;
        let uy = self.y as i128 * f;
        proof {
            assert(0 <= ux * ux <= 0x4000_0000_0000_0000_0000_0000_0000_0000 && 0 <= uy * uy
                <= 0x4000_0000_0000_0000_0000_0000_0000_0000) by (nonlinear_arith)
                requires
                    -0x8000_0000_0000_0000 <= ux <= 0x8000_0000_0000_0000,
                    -0x8000_0000_0000_0000 <= uy <= 0x8000_0000_0000_0000,
            ;
            assert(-0x8000_0000_0000_0000 * 0x7FFF_FFFF_FFFF_FFFF <= ux * length
                <= 0x8000_0000_0000_0000 * 0x7FFF_FFFF_FFFF_FFFF && -0x8000_0000_0000_0000
                * 0x7FFF_FFFF_FFFF_FFFF <= uy * length <= 0x8000_0000_0000_0000
                * 0x7FFF_FFFF_FFFF_FFFF) by (nonlinear_arith)
                requires
                    -0x8000_0000_0000_0000 <= ux <= 0x8000_0000_0000_0000,
                    -0x8000_0000_0000_0000 <= uy <= 0x8000_0000_0000_0000,
                    0 <= length <= 0x7FFF_FFFF_FFFF_FFFF,
            ;
            assert(u != (0int, 0int)) by (nonlinear_arith)
                requires
                    v.0 != 0 || v.1 != 0,
                    f > 0,
                    u.0 == v.0 * f,
                    u.1 == v.1 * f,
            ;
            lemma_length_positive(u);
        }
        let len = ceil_sqrt_u128((ux * ux) as u128 + (uy * uy) as u128);
        let qx = tdiv_i128(ux * length as i128, len as i128);
        let qy = tdiv_i128(uy * length as i128, len as i128);
        proof {
            lemma_with_length_bound(v, length as int);
        }
        Vec2 { x: qx as i64, y: qy as i64 }
    }

    /// Shortens the vector to `max_length` when it is longer, keeping its
    /// direction; a vector within the bound is left as it is.
    pub fn limit(&mut self, max_length: i64)
        requires
            max_length >= 0,
        ensures
            final(self)@ == limit_of(old(self)@, max_length as int),
            norm_sq(final(self)@) <= max_length * max_length,
    {
        let m = max_length as u128;
        assert(m * m <= 0x7FFF_FFFF_FFFF_FFFFu128 * 0x7FFF_FFFF_FFFF_FFFFu128) by (nonlinear_arith)
            requires
                m <= 0x7FFF_FFFF_FFFF_FFFFu128,
        ;
        if self.length_sq() > m * m {
            *self = self.with_length(max_length);
        }
    }

    /// Teleports the point across the edges of the screen `[0, width] x [0, height]`:
    /// past the far edge it goes to zero, below zero it goes to the far edge.
    pub fn wrap_around(&mut self, width: i64, height: i64)
        requires
            width >= 0,
            height >= 0,
        ensures
            final(self)@ == wrap_of(old(self)@, width as int, height as int),
            0 <= final(self).x <= width,
            0 <= final(self).y <= height,
    {
        if self.x > width {
            self.x = 0;
        } else if self.x < 0 {
            self.x = width;
        }
        if self.y > height {
            self.y = 0;
        } else if self.y < 0 {
            self.y = height;
        }
    }
}

/// Every non-negative integer has a rounded-up square root.
pub proof fn lemma_ceil_sqrt_exists(n: int)
    requires
        n >= 0,
    ensures
        is_ceil_sqrt(n, ceil_sqrt(n)),
    decreases n,
{
    if n == 0 {
        assert(is_ceil_sqrt(0, 0));
    } else {
        lemma_ceil_sqrt_exists(n - 1);
        let r = ceil_sqrt(n - 1);
        if n <= r * r {
            assert(is_ceil_sqrt(n, r));
        } else {
            assert(n <= (r + 1) * (r + 1)) by (nonlinear_arith)
                requires
                    n == r * r + 1,
                    r >= 0,
            ;
            assert(is_ceil_sqrt(n, r + 1));
        }
    }
}

/// A rescaled vector is no longer than the length asked for, and each of its
/// components lies within that length.
pub proof fn lemma_with_length_bound(v: (int, int), l: int)
    requires
        l >= 0,
    ensures
        norm_sq(with_length_of(v, l)) <= l * l,
        bounded(with_length_of(v, l), l),
{
    let r = with_length_of(v, l);
    if v == (0int, 0int) {
        assert(norm_sq(r) == 0);
    } else {
        let f = precision_factor(v);
        let u = refined(v);
        assert(u.0 != 0 || u.1 != 0) by (nonlinear_arith)
            requires
                v.0 != 0 || v.1 != 0,
                f > 0,
                u.0 == v.0 * f,
                u.1 == v.1 * f,
        ;
        lemma_rescaled_bound(u, l);
    }
    lemma_component_le(r.0, r.1, l);
    lemma_component_le(r.1, r.0, l);
}

/// The length of a non-zero vector, rounded up, is positive.
pub proof fn lemma_length_positive(u: (int, int))
    requires
        u != (0int, 0int),
    ensures
        length(u) > 0,
        is_ceil_sqrt(norm_sq(u), length(u)),
{
    assert(u.0 * u.0 >= 0 && u.1 * u.1 >= 0) by (nonlinear_arith);
    assert(u.0 * u.0 > 0 || u.1 * u.1 > 0) by (nonlinear_arith)
        requires
            u.0 != 0 || u.1 != 0,
    ;
    lemma_ceil_sqrt_exists(norm_sq(u));
    let len = length(u);
    if len == 0 {
        assert(len * len == 0) by (nonlinear_arith)
            requires
                len == 0,
        ;
    }
}

/// Rescaling a non-zero vector keeps it within the length asked for.
proof fn lemma_rescaled_bound(u: (int, int), l: int)
    requires
        l >= 0,
        u != (0int, 0int),
    ensures
        norm_sq(rescaled(u, l)) <= l * l,
{
    let r = rescaled(u, l);
    lemma_length_positive(u);
    let len = length(u);
    lemma_tdiv_bound(u.0 * l, len);
    lemma_tdiv_bound(u.1 * l, len);
    let ax = if u.0 >= 0 { u.0 } else { -u.0 };
    let ay = if u.1 >= 0 { u.1 } else { -u.1 };
    assert(ax * l == (if u.0 * l >= 0 { u.0 * l } else { -(u.0 * l) })) by (nonlinear_arith)
        requires
            l >= 0,
            ax == (if u.0 >= 0 { u.0 } else { -u.0 }),
    ;
    assert(ay * l == (if u.1 * l >= 0 { u.1 * l } else { -(u.1 * l) })) by (nonlinear_arith)
        requires
            l >= 0,
            ay == (if u.1 >= 0 { u.1 } else { -u.1 }),
    ;
    lemma_scaled_norm(u.0, u.1, l, len, r.0, r.1);
}

/// Rescaling the zero vector gives zero; rescaling any other vector gives one
/// no longer than the length asked for; the result is always a pair of
/// integers, never undefined.
pub proof fn lemma_with_length_law(v: (int, int), l: int)
    requires
        l >= 0,
    ensures
        v == (0int, 0int) ==> with_length_of(v, l) == (0int, 0int),
        norm_sq(with_length_of(v, l)) <= l * l,
{
    lemma_with_length_bound(v, l);
}

/// A non-zero vector rescaled to a length `l` of at most `2^31` comes out no
/// shorter than `l - 3`: only the rounding of each component is lost.
pub proof fn lemma_with_length_long_enough(v: (int, int), l: int)
    requires
        v != (0int, 0int),
        3 <= l <= 0x8000_0000,
    ensures
        norm_sq(with_length_of(v, l)) >= (l - 3) * (l - 3),
{
    let f = precision_factor(v);
    let u = refined(v);
    assert(u != (0int, 0int)) by (nonlinear_arith)
        requires
            v.0 != 0 || v.1 != 0,
            f > 0,
            u.0 == v.0 * f,
            u.1 == v.1 * f,
    ;
    lemma_length_positive(u);
    let n = length(u);
    let nu = norm_sq(u);
    let nv = norm_sq(v);
    assert(nv >= 1) by (nonlinear_arith)
        requires
            v.0 != 0 || v.1 != 0,
            nv == v.0 * v.0 + v.1 * v.1,
    ;
    assert(nu >= 0x4000_0000_0000_0000) by (nonlinear_arith)
        requires
            nv >= 1,
            nv == v.0 * v.0 + v.1 * v.1,
            nu == u.0 * u.0 + u.1 * u.1,
            u.0 == v.0 * f,
            u.1 == v.1 * f,
            f == 0x8000_0000 || (f == 1 && nv >= 0x1_0000_0000_0000_0000),
    ;
    assert(n >= l) by (nonlinear_arith)
        requires
            nu <= n * n,
            nu >= 0x4000_0000_0000_0000,
            n >= 0,
            l <= 0x8000_0000,
    ;
    let r = rescaled(u, l);
    lemma_tdiv_bound(u.0 * l, n);
    lemma_tdiv_bound(u.1 * l, n);
    let ax = if u.0 >= 0 { u.0 } else { -u.0 };
    let ay = if u.1 >= 0 { u.1 } else { -u.1 };
    let qx = if r.0 >= 0 { r.0 } else { -r.0 };
    let qy = if r.1 >= 0 { r.1 } else { -r.1 };
    assert(ax * l == (if u.0 * l >= 0 { u.0 * l } else { -(u.0 * l) })) by (nonlinear_arith)
        requires
            l >= 0,
            ax == (if u.0 >= 0 { u.0 } else { -u.0 }),
    ;
    assert(ay * l == (if u.1 * l >= 0 { u.1 * l } else { -(u.1 * l) })) by (nonlinear_arith)
        requires
            l >= 0,
            ay == (if u.1 >= 0 { u.1 } else { -u.1 }),
    ;
    assert(qx == (if u.0 * l >= 0 { r.0 } else { -r.0 }));
    assert(qy == (if u.1 * l >= 0 { r.1 } else { -r.1 }));
    lemma_square_of_abs(u.0, ax);
    lemma_square_of_abs(u.1, ay);
    lemma_square_of_abs(r.0, qx);
    lemma_square_of_abs(r.1, qy);
    // Each component rounded up again reaches the exact rescaled one.
    let big = (qx + 1) * (qx + 1) + (qy + 1) * (qy + 1);
    let nn = n * n;
    let ll = l * l;
    let px = (qx + 1) * (qx + 1);
    let py = (qy + 1) * (qy + 1);
    let sx = ax * ax;
    let sy = ay * ay;
    lemma_square_mono((qx + 1) * n, ax * l);
    lemma_square_mono((qy + 1) * n, ay * l);
    assert(((qx + 1) * n) * ((qx + 1) * n) == px * nn && (ax * l) * (ax * l) == sx * ll)
        by (nonlinear_arith)
        requires
            px == (qx + 1) * (qx + 1),
            sx == ax * ax,
            nn == n * n,
            ll == l * l,
    ;
    assert(((qy + 1) * n) * ((qy + 1) * n) == py * nn && (ay * l) * (ay * l) == sy * ll)
        by (nonlinear_arith)
        requires
            py == (qy + 1) * (qy + 1),
            sy == ay * ay,
            nn == n * n,
            ll == l * l,
    ;
    assert(big * nn >= nu * ll) by (nonlinear_arith)
        requires
            px * nn >= sx * ll,
            py * nn >= sy * ll,
            big == px + py,
            nu == sx + sy,
    ;
    assert(nu >= nn - 2 * n + 2) by (nonlinear_arith)
        requires
            (n - 1) * (n - 1) < nu,
            nn == n * n,
    ;
    assert(big * nn >= (l * l - 2 * l) * nn) by (nonlinear_arith)
        requires
            big * nn >= nu * (l * l),
            nu >= nn - 2 * n + 2,
            nn == n * n,
            n >= l,
            l >= 0,
    ;
    assert(big >= l * l - 2 * l) by (nonlinear_arith)
        requires
            big * nn >= (l * l - 2 * l) * nn,
            nn == n * n,
            n > 0,
    ;
    let a = qx * qx + qy * qy;
    if a < (l - 3) * (l - 3) {
        assert(qx < l - 3 && qy < l - 3) by (nonlinear_arith)
            requires
                qx * qx + qy * qy < (l - 3) * (l - 3),
                qx >= 0,
                qy >= 0,
                l >= 3,
        ;
        assert(big < l * l - 2 * l) by (nonlinear_arith)
            requires
                big == (qx + 1) * (qx + 1) + (qy + 1) * (qy + 1),
                qx * qx + qy * qy < (l - 3) * (l - 3),
                qx < l - 3,
                qy < l - 3,
        ;
    }
}

/// Squaring keeps the order of non-negative numbers.
proof fn lemma_square_mono(a: int, b: int)
    requires
        a >= b,
        b >= 0,
    ensures
        a * a >= b * b,
{
    assert(a * a >= b * b) by (nonlinear_arith)
        requires
            a >= b,
            b >= 0,
    ;
}

/// Limiting twice is limiting once.
pub proof fn lemma_limit_idempotent(v: (int, int), m: int)
    requires
        m >= 0,
    ensures
        limit_of(limit_of(v, m), m) == limit_of(v, m),
{
    lemma_with_length_bound(v, m);
}

} // verus!
