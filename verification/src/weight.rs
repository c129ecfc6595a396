//! How much two changes weigh together, in fixed point.
//!
//! A range counts 40 for each line it goes beyond and 1 for each character, up
//! to 130. The two sides of a change add up to a weight of
//! `(x^1.5 + y^1.5)^1.5`; two changes are heavy if their weights come to more
//! than `1.3 * (130^1.5)^1.5`. The powers are computed in fixed point with 28
//! fractional bits, rounded down. That this judges every two changes as floating
//! point does is not proved here; `tests/weights.rs` shows it.

use vstd::prelude::*;

use crate::ranges::least;

verus! {

/// What 1 stands for in fixed point.
pub const SCALE: u128 = 0x1000_0000;

/// The most that a range counts.
pub const RANGE_CAP: u128 = 130;

/// What each line that a range goes beyond counts.
pub const LINE_COUNTS: u128 = 40;

/// `r` is the square root of `x`, rounded down.
pub open spec fn is_root(r: int, x: int) -> bool {
    0 <= r && r * r <= x && x < (r + 1) * (r + 1)
}

/// The square root, rounded down.
pub open spec fn root(x: int) -> int {
    choose|r: int| is_root(r, x)
}

/// `x^1.5` in fixed point.
pub open spec fn power(x: int) -> int {
    root(x * x * x / SCALE as int)
}

/// What a range counts, in fixed point.
pub open spec fn counts(lines: int, length: int) -> int {
    least(lines * LINE_COUNTS + length, RANGE_CAP as int) * SCALE
}

/// What a change weighs whose sides count `x` and `y`.
pub open spec fn weight(x: int, y: int) -> int {
    power(power(x) + power(y))
}

/// Two weights come to more than the limit.
pub open spec fn heavy(before: int, after: int) -> bool {
    10 * (before + after) > 13 * power(power(RANGE_CAP * SCALE))
}

pub proof fn lemma_root_unique(r: int, x: int)
    requires
        is_root(r, x),
    ensures
        root(x) == r,
{
    let q = root(x);
    assert(is_root(q, x));
    assert(q == r) by (nonlinear_arith)
        requires
            0 <= r,
            0 <= q,
            r * r <= x,
            x < (r + 1) * (r + 1),
            q * q <= x,
            x < (q + 1) * (q + 1),
    ;
}

proof fn lemma_root_exists(x: int)
    requires
        0 <= x,
    ensures
        is_root(root(x), x),
    decreases x,
{
    if x == 0 {
        assert(is_root(0, 0));
    } else {
        lemma_root_exists(x - 1);
        let r = root(x - 1);
        if (r + 1) * (r + 1) <= x {
            assert((r + 2) * (r + 2) > (r + 1) * (r + 1)) by (nonlinear_arith)
                requires
                    0 <= r,
            ;
            assert(is_root(r + 1, x));
        } else {
            assert(is_root(r, x));
        }
    }
}

/// `power` of a fixed-point number is the largest fixed-point number whose square
/// is not above the cube of the number.
pub proof fn powers_are_rounded_down(x: int)
    requires
        0 <= x,
    ensures
        0 <= power(x),
        power(x) * power(x) * 0x1000_0000 <= x * x * x,
        x * x * x < (power(x) + 1) * (power(x) + 1) * 0x1000_0000,
{
    let cube = x * x * x;
    assert(0 <= cube) by (nonlinear_arith)
        requires
            0 <= x,
            cube == x * x * x,
    ;
    lemma_root_exists(cube / 0x1000_0000);
    let p = power(x);
    let square = p * p;
    let above = (p + 1) * (p + 1);
    assert(square <= cube / 0x1000_0000 < above);
}

/// The square root, rounded down.
fn square_root(x: u128) -> (r: u128)
    requires
        x < 0x1000_0000_0000_0000_0000_0000_0000_0000,
    ensures
        r == root(x as int),
        is_root(r as int, x as int),
{
    let mut low: u128 = 0;
    let mut high: u128 = 0x4000_0000_0000_0000;
    assert(0x4000_0000_0000_0000 * 0x4000_0000_0000_0000
        == 0x1000_0000_0000_0000_0000_0000_0000_0000);
    while high - low > 1
        invariant
            low < high <= 0x4000_0000_0000_0000,
            low * low <= x < high * high,
        decreases high - low,
    {
        let mid: u128 = low + (high - low) / 2;
        assert(mid * mid <= 0x1000_0000_0000_0000_0000_0000_0000_0000) by (nonlinear_arith)
            requires
                mid <= 0x4000_0000_0000_0000,
        ;
        if mid * mid <= x {
            low = mid;
        } else {
            high = mid;
        }
    }
    proof {
        assert(high == low + 1);
        lemma_root_unique(low as int, x as int);
    }
    low
}

/// `x^1.5` in fixed point.
fn three_halves(x: u128) -> (p: u128)
    requires
        x <= 0x100_0000_0000,
    ensures
        p == power(x as int),
        is_root(p as int, x * x * x / SCALE as int),
{
    assert(x * x <= 0x1_0000_0000_0000_0000_0000) by (nonlinear_arith)
        requires
            x <= 0x100_0000_0000,
    ;
    let square: u128 = x * x;
    assert(square * x <= 0x100_0000_0000_0000_0000_0000_0000_0000) by (nonlinear_arith)
        requires
            square <= 0x1_0000_0000_0000_0000_0000,
            x <= 0x100_0000_0000,
    ;
    square_root(square * x / SCALE)
}

/// The power of what a range counts leaves room to be added up.
proof fn lemma_power_bound(x: int, p: int)
    requires
        0 <= x <= RANGE_CAP * SCALE,
        is_root(p, x * x * x / SCALE as int),
    ensures
        p < 0x80_0000_0000,
{
    assert(x * x <= 34896609280 * 34896609280) by (nonlinear_arith)
        requires
            0 <= x <= 34896609280,
    ;
    assert(x * x * x <= 34896609280 * 34896609280 * 34896609280) by (nonlinear_arith)
        requires
            0 <= x <= 34896609280,
            x * x <= 34896609280 * 34896609280,
    ;
    assert(x * x * x / 0x1000_0000 < 0x80_0000_0000 * 0x80_0000_0000);
    assert(p < 0x80_0000_0000) by (nonlinear_arith)
        requires
            0 <= p,
            p * p < 0x80_0000_0000 * 0x80_0000_0000,
    ;
}

/// What a range of so many lines and characters counts, in fixed point.
pub fn range_counts(lines: u64, length: u64) -> (value: u128)
    ensures
        value == counts(lines as int, length as int),
        value <= RANGE_CAP * SCALE,
{
    let total: u128 = lines as u128 * LINE_COUNTS + length as u128;
    let capped: u128 = if total <= RANGE_CAP {
        total
    } else {
        RANGE_CAP
    };
    capped * SCALE
}

/// What a change weighs whose sides count `x` and `y`.
pub fn change_weight(x: u128, y: u128) -> (value: u128)
    requires
        x <= RANGE_CAP * SCALE,
        y <= RANGE_CAP * SCALE,
    ensures
        value == weight(x as int, y as int),
        value <= 0x1000_0000_0000_0000,
{
    let p: u128 = three_halves(x);
    let q: u128 = three_halves(y);
    proof {
        lemma_power_bound(x as int, p as int);
        lemma_power_bound(y as int, q as int);
    }
    let sum: u128 = p + q;
    let value: u128 = three_halves(sum);
    proof {
        let s = sum as int;
        assert(s * s * s <= 0x100_0000_0000 * 0x100_0000_0000 * 0x100_0000_0000) by (
        nonlinear_arith)
            requires
                0 <= s <= 0x100_0000_0000,
        ;
        let v = value as int;
        assert(v <= 0x1000_0000_0000_0000) by (nonlinear_arith)
            requires
                0 <= v,
                v * v <= 0x100_0000_0000 * 0x100_0000_0000 * 0x100_0000_0000,
        ;
    }
    value
}

/// Two changes of these weights are heavy enough to be joined.
pub fn are_heavy(before: u128, after: u128) -> (yes: bool)
    requires
        before <= 0x1000_0000_0000_0000,
        after <= 0x1000_0000_0000_0000,
    ensures
        yes == heavy(before as int, after as int),
{
    let cap: u128 = three_halves(RANGE_CAP * SCALE);
    proof {
        lemma_power_bound(RANGE_CAP * SCALE, cap as int);
    }
    let limit: u128 = three_halves(cap);
    proof {
        let c = cap as int;
        assert(c * c * c <= 0x100_0000_0000 * 0x100_0000_0000 * 0x100_0000_0000) by (
        nonlinear_arith)
            requires
                0 <= c <= 0x100_0000_0000,
        ;
        let v = limit as int;
        assert(v <= 0x1000_0000_0000_0000) by (nonlinear_arith)
            requires
                0 <= v,
                v * v <= 0x100_0000_0000 * 0x100_0000_0000 * 0x100_0000_0000,
        ;
    }
    10 * (before + after) > 13 * limit
}

} // verus!
