//! Fixed-point plane geometry: distances and unit directions on integers.

use vstd::prelude::*;

verus! {

/// Stored coordinates count thousandths of a world unit, so `UNIT` stands for
/// a length of one and a unit direction has components between `-UNIT` and
/// `UNIT`.
pub const UNIT: i32 = 1000;

/// The largest natural number whose square does not exceed `n`.
pub open spec fn floor_sqrt(n: nat) -> nat
    decreases n,
{
    if n == 0 {
        0
    } else {
        let r = floor_sqrt((n - 1) as nat);
        if (r + 1) * (r + 1) <= n {
            r + 1
        } else {
            r
        }
    }
}

/// `floor_sqrt(n)` squared is at most `n`, and the next square is above `n`.
pub proof fn lemma_floor_sqrt_bounds(n: nat)
    ensures
        floor_sqrt(n) * floor_sqrt(n) <= n,
        n < (floor_sqrt(n) + 1) * (floor_sqrt(n) + 1),
    decreases n,
{
    let s = floor_sqrt(n);
    if n == 0 {
        assert(s == 0);
        assert((s + 1) * (s + 1) == 1) by (nonlinear_arith)
            requires
                s == 0,
        ;
    } else {
        lemma_floor_sqrt_bounds((n - 1) as nat);
        let r = floor_sqrt((n - 1) as nat);
        if (r + 1) * (r + 1) <= n {
            assert(s == r + 1);
            assert(n < (s + 1) * (s + 1)) by (nonlinear_arith)
                requires
                    s == r + 1,
                    n - 1 < (r + 1) * (r + 1),
            ;
        } else {
            assert(s == r);
            assert(n < (s + 1) * (s + 1));
        }
    }
}

/// Squaring is strictly monotone on the naturals.
pub proof fn lemma_square_monotone(a: nat, b: nat)
    ensures
        a <= b <==> a * a <= b * b,
{
    assert(a <= b ==> a * a <= b * b) by (nonlinear_arith);
    assert(a > b ==> a * a > b * b) by (nonlinear_arith);
}

/// Only one natural number lies between the two bounds of a floor square root.
pub proof fn lemma_floor_sqrt_unique(n: nat, r: nat)
    requires
        r * r <= n,
        n < (r + 1) * (r + 1),
    ensures
        r == floor_sqrt(n),
{
    let s = floor_sqrt(n);
    lemma_floor_sqrt_bounds(n);
    lemma_square_monotone(s + 1, r);
    lemma_square_monotone(r + 1, s);
}

/// A floor square root is below `r` exactly when the number is below `r * r`.
pub proof fn lemma_floor_sqrt_below(n: nat, r: nat)
    ensures
        floor_sqrt(n) < r <==> n < r * r,
{
    let s = floor_sqrt(n);
    lemma_floor_sqrt_bounds(n);
    lemma_square_monotone(s + 1, r);
    lemma_square_monotone(r, s);
}

/// Integer square root, rounded down.
pub fn isqrt(n: u128) -> (r: u64)
    ensures
        r == floor_sqrt(n as nat),
{
    let mut lo: u128 = 0;
    let mut hi: u128 = 0x1_0000_0000_0000_0000;
    assert(0x1_0000_0000_0000_0000int * 0x1_0000_0000_0000_0000int > u128::MAX)
        by (nonlinear_arith);
    while hi - lo > 1
        invariant
            lo < hi <= 0x1_0000_0000_0000_0000,
            lo * lo <= n,
            n < hi * hi,
        decreases hi - lo,
    {
        let mid: u128 = lo + (hi - lo) / 2;
        assert(mid * mid <= u128::MAX) by (nonlinear_arith)
            requires
                mid <= 0xFFFF_FFFF_FFFF_FFFF,
        ;
        if mid * mid <= n {
            lo = mid;
        } else {
            hi = mid;
        }
    }
    proof {
        lemma_floor_sqrt_unique(n as nat, lo as nat);
    }
    lo as u64
}

/// The rounded-down Euclidean distance between `(x1, y1)` and `(x2, y2)`.
pub open spec fn distance(x1: int, x2: int, y1: int, y2: int) -> nat {
    floor_sqrt(((x1 - x2) * (x1 - x2) + (y1 - y2) * (y1 - y2)) as nat)
}

/// A distance is below `r` exactly when the squared distance is below `r * r`.
pub proof fn lemma_distance_below(x1: int, x2: int, y1: int, y2: int, r: nat)
    ensures
        distance(x1, x2, y1, y2) < r <==> (x1 - x2) * (x1 - x2) + (y1 - y2) * (y1 - y2) < r * r,
{
    assert((x1 - x2) * (x1 - x2) >= 0) by (nonlinear_arith);
    assert((y1 - y2) * (y1 - y2) >= 0) by (nonlinear_arith);
    lemma_floor_sqrt_below(((x1 - x2) * (x1 - x2) + (y1 - y2) * (y1 - y2)) as nat, r);
}

/// The distance between two stored positions stays below two to the 33.
pub proof fn lemma_distance_bounded(x1: int, x2: int, y1: int, y2: int)
    requires
        i32::MIN <= x1 <= i32::MAX,
        i32::MIN <= x2 <= i32::MAX,
        i32::MIN <= y1 <= i32::MAX,
        i32::MIN <= y2 <= i32::MAX,
    ensures
        distance(x1, x2, y1, y2) < 0x2_0000_0000,
{
    assert((x1 - x2) * (x1 - x2) <= 0xFFFF_FFFF * 0xFFFF_FFFF) by (nonlinear_arith)
        requires
            -0xFFFF_FFFF <= x1 - x2 <= 0xFFFF_FFFF,
    ;
    assert((y1 - y2) * (y1 - y2) <= 0xFFFF_FFFF * 0xFFFF_FFFF) by (nonlinear_arith)
        requires
            -0xFFFF_FFFF <= y1 - y2 <= 0xFFFF_FFFF,
    ;
    lemma_distance_below(x1, x2, y1, y2, 0x2_0000_0000);
}

/// The absolute difference of two coordinates.
pub fn span(a: i32, b: i32) -> (d: u64)
    ensures
        d == if a >= b { a - b } else { b - a },
        d <= 0xFFFF_FFFF,
{
    if a >= b {
        (a as i64 - b as i64) as u64
    } else {
        (b as i64 - a as i64) as u64
    }
}

/// Euclidean distance between `(x1, y1)` and `(x2, y2)`, rounded down.
pub fn get_distance(x1: i32, x2: i32, y1: i32, y2: i32) -> (d: u64)
    ensures
        d == distance(x1 as int, x2 as int, y1 as int, y2 as int),
{
    let dx: u128 = span(x1, x2) as u128;
    let dy: u128 = span(y1, y2) as u128;
    assert(dx * dx <= 0xFFFF_FFFF * 0xFFFF_FFFF) by (nonlinear_arith)
        requires
            dx <= 0xFFFF_FFFF,
    ;
    assert(dy * dy <= 0xFFFF_FFFF * 0xFFFF_FFFF) by (nonlinear_arith)
        requires
            dy <= 0xFFFF_FFFF,
    ;
    assert(dx * dx == (x1 - x2) * (x1 - x2)) by (nonlinear_arith)
        requires
            dx == x1 - x2 || dx == x2 - x1,
    ;
    assert(dy * dy == (y1 - y2) * (y1 - y2)) by (nonlinear_arith)
        requires
            dy == y1 - y2 || dy == y2 - y1,
    ;
    isqrt(dx * dx + dy * dy)
}

/// The nearest stored coordinate to `v`: `v` itself when it fits.
pub open spec fn clamp_coord(v: int) -> int {
    if v < i32::MIN {
        i32::MIN as int
    } else if v > i32::MAX {
        i32::MAX as int
    } else {
        v
    }
}

/// Brings a widened coordinate back into the stored range.
pub fn saturate(v: i64) -> (r: i32)
    ensures
        r == clamp_coord(v as int),
{
    if v < i32::MIN as i64 {
        i32::MIN
    } else if v > i32::MAX as i64 {
        i32::MAX
    } else {
        v as i32
    }
}

/// A coordinate after `steps` moves of `step` each, saturating.
pub open spec fn shifted(v: int, step: int, steps: int) -> int {
    clamp_coord(v + step * steps)
}

/// Moves `v` by `steps` times `step`, saturating at the ends of the range.
pub fn shift(v: i32, step: i32, steps: i32) -> (r: i32)
    ensures
        r == shifted(v as int, step as int, steps as int),
{
    assert(-0x8000_0000 * 0x8000_0000 <= step * steps <= 0x8000_0000 * 0x8000_0000)
        by (nonlinear_arith)
        requires
            -0x8000_0000 <= step <= 0x7FFF_FFFF,
            -0x8000_0000 <= steps <= 0x7FFF_FFFF,
    ;
    saturate(v as i64 + step as i64 * steps as i64)
}

/// `UNIT` times the length of `(vx, vy)`, rounded down: the length at a
/// scale fine enough to divide by without losing the direction of a short
/// vector.
pub open spec fn fine_magnitude(vx: int, vy: int) -> nat {
    floor_sqrt(((vx * vx + vy * vy) * UNIT * UNIT) as nat)
}

/// One component `v` of a vector of fine magnitude `fine`, scaled so that
/// the vector gets length `UNIT`: `v * UNIT * UNIT / fine`, rounded toward
/// zero.
pub open spec fn scaled(v: int, fine: int) -> int {
    if v >= 0 {
        (v * UNIT * UNIT) / fine
    } else {
        -((-v * UNIT * UNIT) / fine)
    }
}

/// The direction of `(vx, vy)`: the vector scaled to length `UNIT`, each
/// component rounded toward zero. The zero vector stays zero.
pub open spec fn normalized(vx: int, vy: int) -> (int, int) {
    let fine = fine_magnitude(vx, vy) as int;
    if fine == 0 {
        (0, 0)
    } else {
        (scaled(vx, fine), scaled(vy, fine))
    }
}

/// The squared length of `(x, y)`.
pub open spec fn length_squared(x: int, y: int) -> int {
    x * x + y * y
}

/// The fine magnitude of a vector is at least `UNIT` times the size of each
/// component, and at least `UNIT` unless the vector is zero.
pub proof fn lemma_fine_magnitude_dominates(vx: int, vy: int)
    ensures
        fine_magnitude(vx, vy) >= UNIT * vx,
        fine_magnitude(vx, vy) >= UNIT * -vx,
        fine_magnitude(vx, vy) >= UNIT * vy,
        fine_magnitude(vx, vy) >= UNIT * -vy,
        vx != 0 || vy != 0 ==> fine_magnitude(vx, vy) >= UNIT,
{
    assert(vx * vx >= 0 && vy * vy >= 0) by (nonlinear_arith);
    let n = ((vx * vx + vy * vy) * UNIT * UNIT) as nat;
    let ax: nat = if vx >= 0 { vx as nat } else { (-vx) as nat };
    let ay: nat = if vy >= 0 { vy as nat } else { (-vy) as nat };
    assert((1000 * ax) * (1000 * ax) <= (vx * vx + vy * vy) * 1000 * 1000) by (nonlinear_arith)
        requires
            ax == vx || ax == -vx,
            vy * vy >= 0,
    ;
    assert((1000 * ay) * (1000 * ay) <= (vx * vx + vy * vy) * 1000 * 1000) by (nonlinear_arith)
        requires
            ay == vy || ay == -vy,
            vx * vx >= 0,
    ;
    lemma_floor_sqrt_below(n, 1000 * ax);
    lemma_floor_sqrt_below(n, 1000 * ay);
}

/// A quotient of naturals, times the divisor, is at most the dividend, and
/// with one more it is above the dividend.
pub proof fn lemma_quotient_bounds(x: int, d: int)
    requires
        0 <= x,
        0 < d,
    ensures
        0 <= x / d,
        (x / d) * d <= x,
        x < (x / d + 1) * d,
{
    vstd::arithmetic::div_mod::lemma_fundamental_div_mod(x, d);
    vstd::arithmetic::div_mod::lemma_mod_pos_bound(x, d);
    vstd::arithmetic::div_mod::lemma_div_pos_is_pos(x, d);
    assert((x / d) * d == d * (x / d)) by (nonlinear_arith);
    assert((x / d + 1) * d == d * (x / d) + d) by (nonlinear_arith);
}

/// Scaling a component by a fine magnitude that dominates it stays within
/// `UNIT` and keeps the sign.
pub proof fn lemma_scaled_bounded(v: int, fine: int)
    requires
        fine > 0,
        -fine <= UNIT * v <= fine,
    ensures
        -UNIT <= scaled(v, fine) <= UNIT,
        v >= 0 ==> scaled(v, fine) >= 0,
        v <= 0 ==> scaled(v, fine) <= 0,
{
    let a = if v >= 0 { v } else { -v };
    lemma_quotient_bounds(a * 1000 * 1000, fine);
    let q = (a * 1000 * 1000) / fine;
    assert(q <= 1000) by (nonlinear_arith)
        requires
            q * fine <= a * 1000 * 1000,
            1000 * a <= fine,
            fine > 0,
            q >= 0,
            a >= 0,
    ;
}

/// Each component of a normalized vector lies between `-UNIT` and `UNIT`
/// and has the sign of the component it came from.
pub proof fn lemma_normalized_bounded(vx: int, vy: int)
    ensures
        -UNIT <= normalized(vx, vy).0 <= UNIT,
        -UNIT <= normalized(vx, vy).1 <= UNIT,
        vx >= 0 ==> normalized(vx, vy).0 >= 0,
        vx <= 0 ==> normalized(vx, vy).0 <= 0,
        vy >= 0 ==> normalized(vx, vy).1 >= 0,
        vy <= 0 ==> normalized(vx, vy).1 <= 0,
{
    let fine = fine_magnitude(vx, vy) as int;
    lemma_fine_magnitude_dominates(vx, vy);
    if fine != 0 {
        lemma_scaled_bounded(vx, fine);
        lemma_scaled_bounded(vy, fine);
    }
}

/// The length of a normalized vector is `UNIT` up to rounding: unless the
/// vector was zero, its squared length lies above `UNIT * UNIT - 4 * UNIT -
/// 2` and below `(UNIT + 1) * (UNIT + 1)`, so the length lies between
/// `UNIT - 3` and `UNIT + 1`.
pub proof fn lemma_normalized_length(vx: int, vy: int)
    requires
        vx != 0 || vy != 0,
    ensures
        UNIT * UNIT - 4 * UNIT - 2 < length_squared(normalized(vx, vy).0, normalized(vx, vy).1),
        length_squared(normalized(vx, vy).0, normalized(vx, vy).1) < (UNIT + 1) * (UNIT + 1),
{
    lemma_fine_magnitude_dominates(vx, vy);
    assert(vx * vx >= 0 && vy * vy >= 0) by (nonlinear_arith);
    let big = ((vx * vx + vy * vy) * UNIT * UNIT) as nat;
    lemma_floor_sqrt_bounds(big);
    let m = fine_magnitude(vx, vy) as int;
    let a = if vx >= 0 { vx } else { -vx };
    let b = if vy >= 0 { vy } else { -vy };
    let xa = a * 1000 * 1000;
    let xb = b * 1000 * 1000;
    let p = xa / m;
    let q = xb / m;
    lemma_quotient_bounds(xa, m);
    lemma_quotient_bounds(xb, m);
    lemma_scaled_bounded(vx, m);
    lemma_scaled_bounded(vy, m);
    let rx = normalized(vx, vy).0;
    let ry = normalized(vx, vy).1;
    assert(rx == p || rx == -p);
    assert(ry == q || ry == -q);
    assert(rx * rx == p * p) by (nonlinear_arith)
        requires
            rx == p || rx == -p,
    ;
    assert(ry * ry == q * q) by (nonlinear_arith)
        requires
            ry == q || ry == -q,
    ;
    assert(xa * xa + xb * xb == big * 1000 * 1000) by (nonlinear_arith)
        requires
            xa == a * 1000 * 1000,
            xb == b * 1000 * 1000,
            a == vx || a == -vx,
            b == vy || b == -vy,
            big == (vx * vx + vy * vy) * 1000 * 1000,
    ;
    // Above: (p * m)^2 + (q * m)^2 <= xa^2 + xb^2 < (1001 * m)^2.
    assert((p * m) * (p * m) <= xa * xa) by (nonlinear_arith)
        requires
            0 <= p * m <= xa,
    ;
    assert((q * m) * (q * m) <= xb * xb) by (nonlinear_arith)
        requires
            0 <= q * m <= xb,
    ;
    assert(0 <= p * m && 0 <= q * m) by (nonlinear_arith)
        requires
            p >= 0,
            q >= 0,
            m > 0,
    ;
    assert((m + 1) * (m + 1) * 1000 * 1000 <= (1001 * m) * (1001 * m)) by (nonlinear_arith)
        requires
            m >= 1000,
    ;
    assert((p * p + q * q) * (m * m) == (p * m) * (p * m) + (q * m) * (q * m))
        by (nonlinear_arith);
    assert((1001 * m) * (1001 * m) == (1001 * 1001) * (m * m)) by (nonlinear_arith);
    assert(big * 1000 * 1000 < (m + 1) * (m + 1) * 1000 * 1000) by (nonlinear_arith)
        requires
            big < (m + 1) * (m + 1),
    ;
    assert(p * p + q * q < 1001 * 1001) by (nonlinear_arith)
        requires
            (p * p + q * q) * (m * m) < (1001 * 1001) * (m * m),
            m > 0,
    ;
    // Below: ((p + 1) * m)^2 + ((q + 1) * m)^2 > xa^2 + xb^2 >= (1000 * m)^2.
    assert(((p + 1) * m) * ((p + 1) * m) > xa * xa) by (nonlinear_arith)
        requires
            0 <= xa < (p + 1) * m,
    ;
    assert(((q + 1) * m) * ((q + 1) * m) > xb * xb) by (nonlinear_arith)
        requires
            0 <= xb < (q + 1) * m,
    ;
    assert(((p + 1) * (p + 1) + (q + 1) * (q + 1)) * (m * m)
        == ((p + 1) * m) * ((p + 1) * m) + ((q + 1) * m) * ((q + 1) * m)) by (nonlinear_arith);
    assert(big * 1000 * 1000 >= (1000 * 1000) * (m * m)) by (nonlinear_arith)
        requires
            m * m <= big,
    ;
    assert((p + 1) * (p + 1) + (q + 1) * (q + 1) > 1000 * 1000) by (nonlinear_arith)
        requires
            ((p + 1) * (p + 1) + (q + 1) * (q + 1)) * (m * m) > (1000 * 1000) * (m * m),
            m > 0,
    ;
    assert((p + 1) * (p + 1) + (q + 1) * (q + 1) == p * p + q * q + 2 * p + 2 * q + 2)
        by (nonlinear_arith);
}

/// `UNIT` times the length of `(vx, vy)`, rounded down.
pub fn fine_length(vx: i32, vy: i32) -> (fine: u64)
    ensures
        fine == fine_magnitude(vx as int, vy as int),
{
    let ax: u128 = span(vx, 0) as u128;
    let ay: u128 = span(vy, 0) as u128;
    assert(ax * ax <= 0x8000_0000 * 0x8000_0000) by (nonlinear_arith)
        requires
            ax <= 0x8000_0000,
    ;
    assert(ay * ay <= 0x8000_0000 * 0x8000_0000) by (nonlinear_arith)
        requires
            ay <= 0x8000_0000,
    ;
    assert(ax * ax == vx * vx) by (nonlinear_arith)
        requires
            ax == vx || ax == -vx,
    ;
    assert(ay * ay == vy * vy) by (nonlinear_arith)
        requires
            ay == vy || ay == -vy,
    ;
    let squares: u128 = ax * ax + ay * ay;
    assert(squares * 1_000_000 == (vx * vx + vy * vy) * UNIT * UNIT) by (nonlinear_arith)
        requires
            squares == vx * vx + vy * vy,
    ;
    isqrt(squares * 1_000_000)
}

/// Scales one component: `|v| * UNIT * UNIT / fine` with the sign of `v`.
fn scale(v: i32, fine: u64) -> (r: i32)
    requires
        fine > 0,
        -fine <= UNIT * v <= fine,
    ensures
        r == scaled(v as int, fine as int),
{
    proof {
        lemma_scaled_bounded(v as int, fine as int);
    }
    if v >= 0 {
        let q: u64 = (v as u64 * 1_000_000) / fine;
        q as i32
    } else {
        let a: u64 = (-(v as i64)) as u64;
        let q: u64 = (a * 1_000_000) / fine;
        -(q as i32)
    }
}

/// Scales a vector to length `UNIT`; the zero vector is returned unchanged.
/// Each component keeps its sign and is rounded toward zero, so the length
/// of the result lies between `UNIT - 3` and `UNIT + 1`.
pub fn normalize(vec: (i32, i32)) -> (r: (i32, i32))
    ensures
        (r.0 as int, r.1 as int) == normalized(vec.0 as int, vec.1 as int),
        -UNIT <= r.0 <= UNIT,
        -UNIT <= r.1 <= UNIT,
        vec.0 >= 0 ==> r.0 >= 0,
        vec.0 <= 0 ==> r.0 <= 0,
        vec.1 >= 0 ==> r.1 >= 0,
        vec.1 <= 0 ==> r.1 <= 0,
        vec == (0i32, 0i32) ==> r == (0i32, 0i32),
        vec != (0i32, 0i32) ==> {
            &&& UNIT * UNIT - 4 * UNIT - 2 < length_squared(r.0 as int, r.1 as int)
            &&& length_squared(r.0 as int, r.1 as int) < (UNIT + 1) * (UNIT + 1)
        },
{
    let fine = fine_length(vec.0, vec.1);
    proof {
        lemma_fine_magnitude_dominates(vec.0 as int, vec.1 as int);
        lemma_normalized_bounded(vec.0 as int, vec.1 as int);
        if vec.0 != 0 || vec.1 != 0 {
            lemma_normalized_length(vec.0 as int, vec.1 as int);
        }
    }
    if fine == 0 {
        (0, 0)
    } else {
        (scale(vec.0, fine), scale(vec.1, fine))
    }
}

} // verus!
