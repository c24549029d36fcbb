//! Exponential decay in fixed point.
//!
//! A value that halves every [`HALF_LIFE_MS`](crate::config::HALF_LIFE_MS) is
//! scaled by `2^(-t / half-life)`, which is irrational for nearly every `t`.
//! This module keeps that factor as an integer over [`SCALE`], and proves how
//! far the integer can be from the factor it stands for.

use crate::config::HALF_LIFE_MS;
use vstd::arithmetic::mul::*;
use vstd::arithmetic::power::*;
use vstd::prelude::*;

verus! {

/// The fixed-point one.
pub const SCALE: u64 = 0x4000_0000_0000_0000;

/// `2^(-1 / HALF_LIFE_MS)` in fixed point, rounded down: what a value keeps
/// over one millisecond.
pub const KEPT_PER_MS: u64 = 0x3fff_9f17_9529_aff9;

/// What a value keeps over `ms` milliseconds, in fixed point: the
/// `ms`-th power of [`KEPT_PER_MS`], rounded down at each multiplication.
pub open spec fn kept(ms: nat) -> nat
    decreases ms,
{
    if ms == 0 {
        SCALE as nat
    } else if ms % 2 == 0 {
        kept(ms / 2) * kept(ms / 2) / SCALE as nat
    } else {
        kept((ms - 1) as nat) * KEPT_PER_MS as nat / SCALE as nat
    }
}

/// No value grows by decaying.
pub proof fn lemma_kept_bounded(ms: nat)
    ensures
        kept(ms) <= SCALE,
    decreases ms,
{
    if ms == 0 {
    } else if ms % 2 == 0 {
        lemma_kept_bounded(ms / 2);
        let h = kept(ms / 2);
        assert(h * h / (SCALE as nat) <= SCALE) by (nonlinear_arith)
            requires
                h <= SCALE,
        ;
    } else {
        lemma_kept_bounded((ms - 1) as nat);
        let h = kept((ms - 1) as nat);
        assert(h * (KEPT_PER_MS as nat) / (SCALE as nat) <= SCALE) by (nonlinear_arith)
            requires
                h <= SCALE,
        ;
    }
}

/// Computes [`kept`] by repeated squaring.
pub fn kept_over(ms: u64) -> (r: u64)
    ensures
        r == kept(ms as nat),
        r <= SCALE,
    decreases ms,
{
    proof {
        lemma_kept_bounded(ms as nat);
    }
    if ms == 0 {
        SCALE
    } else if ms % 2 == 0 {
        let h = kept_over(ms / 2) as u128;
        assert(h * h <= 0x1000_0000_0000_0000_0000_0000_0000_0000) by (nonlinear_arith)
            requires
                h <= 0x4000_0000_0000_0000,
        ;
        (h * h / SCALE as u128) as u64
    } else {
        let h = kept_over(ms - 1) as u128;
        assert(h * KEPT_PER_MS <= 0x1000_0000_0000_0000_0000_0000_0000_0000) by (nonlinear_arith)
            requires
                h <= 0x4000_0000_0000_0000,
        ;
        (h * KEPT_PER_MS as u128 / SCALE as u128) as u64
    }
}

/// A larger base has a larger power.
pub proof fn lemma_pow_base(a: int, b: int, e: nat)
    requires
        0 <= a <= b,
    ensures
        0 <= pow(a, e) <= pow(b, e),
    decreases e,
{
    reveal(pow);
    if e > 0 {
        lemma_pow_base(a, b, (e - 1) as nat);
        let x = pow(a, (e - 1) as nat);
        let y = pow(b, (e - 1) as nat);
        assert(0 <= a * x <= b * y) by (nonlinear_arith)
            requires
                0 <= a <= b,
                0 <= x <= y,
        ;
    }
}

/// `pow(base, e * n)` with the two exponents exchanged.
proof fn lemma_pow_swap(base: int, e: nat, n: nat)
    ensures
        pow(pow(base, e), n) == pow(pow(base, n), e),
{
    lemma_pow_multiplies(base, e, n);
    lemma_pow_multiplies(base, n, e);
    assert(e * n == n * e) by (nonlinear_arith);
}

/// The denominator of the constants below.
spec fn fine() -> int {
    0x100_0000_0000_0000_0000_0000_0000_0000
}

/// `a / fine()` is at least the `e`-th power of `KEPT_PER_MS / SCALE`.
spec fn above(e: nat, a: int) -> bool {
    pow(KEPT_PER_MS as int, e) * fine() <= a * pow(SCALE as int, e)
}

/// `a / fine()` is at most the `e`-th power of `(KEPT_PER_MS + 1) / SCALE`.
spec fn below(e: nat, a: int) -> bool {
    a * pow(SCALE as int, e) <= pow(KEPT_PER_MS + 1, e) * fine()
}

proof fn lemma_above_square(e: nat, a: int, b: int)
    requires
        above(e, a),
        0 <= a,
        a * a <= b * fine(),
    ensures
        above(2 * e, b),
{
    let p = pow(KEPT_PER_MS as int, e);
    let s = pow(SCALE as int, e);
    lemma_pow_positive(KEPT_PER_MS as int, e);
    lemma_pow_positive(SCALE as int, e);
    lemma_pow_adds(KEPT_PER_MS as int, e, e);
    lemma_pow_adds(SCALE as int, e, e);
    assert((p * p) * fine() <= b * (s * s)) by {
        assert((p * fine()) * (p * fine()) <= (a * s) * (a * s)) by (nonlinear_arith)
            requires
                0 <= p * fine() <= a * s,
        ;
        assert((a * s) * (a * s) == (a * a) * (s * s)) by (nonlinear_arith);
        assert((a * a) * (s * s) <= (b * fine()) * (s * s)) by (nonlinear_arith)
            requires
                a * a <= b * fine(),
                s > 0,
        ;
        assert((p * fine()) * (p * fine()) == ((p * p) * fine()) * fine()) by (nonlinear_arith);
        assert((b * fine()) * (s * s) == (b * (s * s)) * fine()) by (nonlinear_arith);
    }
}

proof fn lemma_above_step(e: nat, a: int, b: int)
    requires
        above(e, a),
        a * KEPT_PER_MS <= b * SCALE,
    ensures
        above(e + 1, b),
{
    let p = pow(KEPT_PER_MS as int, e);
    let s = pow(SCALE as int, e);
    lemma_pow_positive(SCALE as int, e);
    lemma_pow_adds(KEPT_PER_MS as int, e, 1);
    lemma_pow_adds(SCALE as int, e, 1);
    lemma_pow1(KEPT_PER_MS as int);
    lemma_pow1(SCALE as int);
    let c = KEPT_PER_MS as int;
    let w = SCALE as int;
    assert((p * c) * fine() <= b * (s * w)) by {
        assert((p * c) * fine() == (p * fine()) * c) by (nonlinear_arith);
        assert((p * fine()) * c <= (a * s) * c) by (nonlinear_arith)
            requires
                p * fine() <= a * s,
                c >= 0,
        ;
        assert((a * s) * c == (a * c) * s) by (nonlinear_arith);
        assert((a * c) * s <= (b * w) * s) by (nonlinear_arith)
            requires
                a * c <= b * w,
                s > 0,
        ;
        assert((b * w) * s == b * (s * w)) by (nonlinear_arith);
    }
}

proof fn lemma_below_square(e: nat, a: int, b: int)
    requires
        below(e, a),
        0 <= a,
        b * fine() <= a * a,
    ensures
        below(2 * e, b),
{
    let p = pow(KEPT_PER_MS + 1, e);
    let s = pow(SCALE as int, e);
    lemma_pow_positive(KEPT_PER_MS + 1, e);
    lemma_pow_positive(SCALE as int, e);
    lemma_pow_adds(KEPT_PER_MS + 1, e, e);
    lemma_pow_adds(SCALE as int, e, e);
    assert(b * (s * s) <= (p * p) * fine()) by {
        assert((a * s) * (a * s) <= (p * fine()) * (p * fine())) by (nonlinear_arith)
            requires
                0 <= a,
                0 < s,
                a * s <= p * fine(),
        ;
        assert((a * s) * (a * s) == (a * a) * (s * s)) by (nonlinear_arith);
        assert((b * fine()) * (s * s) <= (a * a) * (s * s)) by (nonlinear_arith)
            requires
                b * fine() <= a * a,
                s > 0,
        ;
        assert((p * fine()) * (p * fine()) == ((p * p) * fine()) * fine()) by (nonlinear_arith);
        assert((b * fine()) * (s * s) == (b * (s * s)) * fine()) by (nonlinear_arith);
    }
}

proof fn lemma_below_step(e: nat, a: int, b: int)
    requires
        below(e, a),
        b * SCALE <= a * (KEPT_PER_MS + 1),
    ensures
        below(e + 1, b),
{
    let c = KEPT_PER_MS + 1;
    let p = pow(c, e);
    let s = pow(SCALE as int, e);
    lemma_pow_positive(SCALE as int, e);
    lemma_pow_adds(c, e, 1);
    lemma_pow_adds(SCALE as int, e, 1);
    lemma_pow1(c);
    lemma_pow1(SCALE as int);
    let w = SCALE as int;
    assert(b * (s * w) <= (p * c) * fine()) by {
        assert((p * c) * fine() == (p * fine()) * c) by (nonlinear_arith);
        assert((a * s) * c <= (p * fine()) * c) by (nonlinear_arith)
            requires
                a * s <= p * fine(),
                c >= 0,
        ;
        assert((a * s) * c == (a * c) * s) by (nonlinear_arith);
        assert((b * w) * s <= (a * c) * s) by (nonlinear_arith)
            requires
                b * w <= a * c,
                s > 0,
        ;
        assert((b * w) * s == b * (s * w)) by (nonlinear_arith);
    }
}

/// Over one half-life [`KEPT_PER_MS`] keeps at most a half.
proof fn lemma_half_life_low()
    ensures
        2 * pow(KEPT_PER_MS as int, HALF_LIFE_MS as nat) <= pow(SCALE as int, HALF_LIFE_MS as nat),
{
    lemma_pow1(KEPT_PER_MS as int);
    lemma_pow1(SCALE as int);
    assert(above(1, 0xfffe7c5e54a6bfe400000000000000));
    lemma_above_square(1, 0xfffe7c5e54a6bfe400000000000000, 0xfffcf8bef43fb1f0d0c7a5fb0b8604);
    lemma_above_step(2, 0xfffcf8bef43fb1f0d0c7a5fb0b8604, 0xfffb7521dec75d67a55549f6926a83);
    lemma_above_square(3, 0xfffb7521dec75d67a55549f6926a83, 0xfff6ea585fd40123114351b2f2c331);
    lemma_above_step(6, 0xfff6ea585fd40123114351b2f2c331, 0xfff566c475f3db3714e2f07605b96f);
    lemma_above_square(7, 0xfff566c475f3db3714e2f07605b96f, 0xffeacdf94046b83c797a751273cd02);
    lemma_above_square(14, 0xffeacdf94046b83c797a751273cd02, 0xffd59db3bf6f87f0a556b8f2ba8c0f);
    lemma_above_step(28, 0xffd59db3bf6f87f0a556b8f2ba8c0f, 0xffd41a524173bdd35e8a338fd2215e);
    lemma_above_square(29, 0xffd41a524173bdd35e8a338fd2215e, 0xffa83c2b7955cb96fddc6cf3fc7fa6);
    lemma_above_square(58, 0xffa83c2b7955cb96fddc6cf3fc7fa6, 0xff50966da2ec947437adb54b3c8870);
    lemma_above_step(116, 0xff50966da2ec947437adb54b3c8870, 0xff4f13d592f264c5821b1fe66aa302);
    lemma_above_square(117, 0xff4f13d592f264c5821b1fe66aa302, 0xfe9ea1f0ba18fc5981c2b8b93601aa);
    lemma_above_square(234, 0xfe9ea1f0ba18fc5981c2b8b93601aa, 0xfd3f2ba5fcdff809ff84a1181f54e9);
    lemma_above_square(468, 0xfd3f2ba5fcdff809ff84a1181f54e9, 0xfa85ebdc98f6551307cab6b0a7aeaa);
    lemma_above_step(936, 0xfa85ebdc98f6551307cab6b0a7aeaa, 0xfa847085ef7fb84236c8c61bb4fc8a);
    lemma_above_square(937, 0xfa847085ef7fb84236c8c61bb4fc8a, 0xf526f049d359e739d347c07afca277);
    lemma_above_step(1874, 0xf526f049d359e739d347c07afca277, 0xf5257d152486b3db9904a61909a95e);
    lemma_above_square(1875, 0xf5257d152486b3db9904a61909a95e, 0xeac0c6e7dd240a9cdf5140301ffd01);
    lemma_above_square(3750, 0xeac0c6e7dd240a9cdf5140301ffd01, 0xd744fccad69d158b4a0c932accb883);
    lemma_above_square(7500, 0xd744fccad69d158b4a0c932accb883, 0xb504f333f9ddd4e00e9bafe1fea531);
    lemma_above_square(15000, 0xb504f333f9ddd4e00e9bafe1fea531, 0x7fffffffffff34dc200e10e98b5c9c);
    let p = pow(KEPT_PER_MS as int, 30000);
    let s = pow(SCALE as int, 30000);
    lemma_pow_positive(SCALE as int, 30000);
    assert(2 * p <= s) by (nonlinear_arith)
        requires
            p * fine() <= 0x7fffffffffff34dc200e10e98b5c9c * s,
            2 * 0x7fffffffffff34dc200e10e98b5c9c <= fine(),
            fine() > 0,
            s > 0,
    ;
}

/// Over one half-life one unit more than [`KEPT_PER_MS`] keeps at least a half.
proof fn lemma_half_life_high()
    ensures
        pow(SCALE as int, HALF_LIFE_MS as nat) <= 2 * pow(KEPT_PER_MS + 1, HALF_LIFE_MS as nat),
{
    lemma_pow1(KEPT_PER_MS + 1);
    lemma_pow1(SCALE as int);
    assert(below(1, 0xfffe7c5e54a6bfe800000000000000));
    lemma_below_square(1, 0xfffe7c5e54a6bfe800000000000000, 0xfffcf8bef43fb1f8d0bb88edb0bc02);
    lemma_below_step(2, 0xfffcf8bef43fb1f8d0bb88edb0bc02, 0xfffb7521dec75d73a530f2ea0566d9);
    lemma_below_square(3, 0xfffb7521dec75d73a530f2ea0566d9, 0xfff6ea585fd4013b108da010e0baf6);
    lemma_below_step(6, 0xfff6ea585fd4013b108da010e0baf6, 0xfff566c475f3db5313e4922080e98a);
    lemma_below_square(7, 0xfff566c475f3db5313e4922080e98a, 0xffeacdf94046b874752c4871194798);
    lemma_below_square(14, 0xffeacdf94046b874752c4871194798, 0xffd59db3bf6f88609375333e3a76bc);
    lemma_below_step(28, 0xffd59db3bf6f88609375333e3a76bc, 0xffd41a524173be474b55a90290aaf4);
    lemma_below_square(29, 0xffd41a524173be474b55a90290aaf4, 0xffa83c2b7955cc7eafb1c88167660e);
    lemma_below_square(58, 0xffa83c2b7955cc7eafb1c88167660e, 0xff50966da2ec9642fc7b13c4831bec);
    lemma_below_step(116, 0xff50966da2ec9642fc7b13c4831bec, 0xff4f13d592f26698416e2054432398);
    lemma_below_square(117, 0xff4f13d592f26698416e2054432398, 0xfe9ea1f0ba18fffc7b447bfed76ba6);
    lemma_below_square(234, 0xfe9ea1f0ba18fffc7b447bfed76ba6, 0xfd3f2ba5fcdfff45e867f175e8da26);
    lemma_below_square(468, 0xfd3f2ba5fcdfff45e867f175e8da26, 0xfa85ebdc98f663630410252cc34689);
    lemma_below_step(936, 0xfa85ebdc98f663630410252cc34689, 0xfa847085ef7fc6960779efcb2bd737);
    lemma_below_square(937, 0xfa847085ef7fc6960779efcb2bd737, 0xf526f049d35a034459e95119568801);
    lemma_below_step(1874, 0xf526f049d35a034459e95119568801, 0xf5257d152486cfe9c9cc58f4f91f32);
    lemma_below_square(1875, 0xf5257d152486cfe9c9cc58f4f91f32, 0xeac0c6e7dd2440584034143b586830);
    lemma_below_square(3750, 0xeac0c6e7dd2440584034143b586830, 0xd744fccad69d7816c3bbc1e9cbc39b);
    lemma_below_square(7500, 0xd744fccad69d7816c3bbc1e9cbc39b, 0xb504f333f9de7a9b71b7565ed60872);
    lemma_below_square(15000, 0xb504f333f9de7a9b71b7565ed60872, 0x8000000000001f3d82f34d896e2b7c);
    let p = pow(KEPT_PER_MS + 1, 30000);
    let s = pow(SCALE as int, 30000);
    lemma_pow_positive(SCALE as int, 30000);
    assert(s <= 2 * p) by (nonlinear_arith)
        requires
            0x8000000000001f3d82f34d896e2b7c * s <= p * fine(),
            2 * 0x8000000000001f3d82f34d896e2b7c >= fine(),
            fine() > 0,
            s > 0,
    ;
}

/// Rounding down never overtakes the exact power of [`KEPT_PER_MS`].
proof fn lemma_kept_low(ms: nat)
    ensures
        kept(ms) * pow(SCALE as int, ms) <= pow(KEPT_PER_MS as int, ms) * SCALE,
    decreases ms,
{
    let w = SCALE as int;
    let c = KEPT_PER_MS as int;
    if ms == 0 {
        lemma_pow0(w);
        lemma_pow0(c);
    } else if ms % 2 == 0 {
        let half = ms / 2;
        lemma_kept_low(half);
        lemma_pow_adds(w, half, half);
        lemma_pow_adds(c, half, half);
        lemma_pow_positive(w, half);
        lemma_pow_positive(c, half);
        let h = kept(half) as int;
        let d = kept(ms) as int;
        let s = pow(w, half);
        let p = pow(c, half);
        assert(half + half == ms);
        assert(d * (s * s) <= (p * p) * w) by {
            assert(d * w <= h * h) by (nonlinear_arith)
                requires
                    d == h * h / w,
                    w > 0,
            ;
            assert((h * s) * (h * s) <= (p * w) * (p * w)) by (nonlinear_arith)
                requires
                    0 <= h,
                    0 < s,
                    h * s <= p * w,
            ;
            assert((h * s) * (h * s) == (h * h) * (s * s)) by (nonlinear_arith);
            assert((d * w) * (s * s) <= (h * h) * (s * s)) by (nonlinear_arith)
                requires
                    d * w <= h * h,
            ;
            assert((p * w) * (p * w) == ((p * p) * w) * w) by (nonlinear_arith);
            assert((d * w) * (s * s) == (d * (s * s)) * w) by (nonlinear_arith);
            lemma_mul_inequality_converse(d * (s * s), (p * p) * w, w);
        }
    } else {
        let e = (ms - 1) as nat;
        lemma_kept_low(e);
        lemma_pow_adds(w, e, 1);
        lemma_pow_adds(c, e, 1);
        lemma_pow1(w);
        lemma_pow1(c);
        lemma_pow_positive(w, e);
        let h = kept(e) as int;
        let d = kept(ms) as int;
        let s = pow(w, e);
        let p = pow(c, e);
        assert(d * (s * w) <= (p * c) * w) by {
            assert(d * w <= h * c) by (nonlinear_arith)
                requires
                    d == h * c / w,
                    w > 0,
            ;
            assert((d * w) * s <= (h * c) * s) by (nonlinear_arith)
                requires
                    d * w <= h * c,
                    s > 0,
            ;
            assert((h * s) * c <= (p * w) * c) by (nonlinear_arith)
                requires
                    h * s <= p * w,
                    c > 0,
            ;
            assert((d * w) * s == d * (s * w)) by (nonlinear_arith);
            assert((h * c) * s == (h * s) * c) by (nonlinear_arith);
            assert((p * w) * c == (p * c) * w) by (nonlinear_arith);
        }
    }
}

/// Rounding down loses less than four units for each millisecond.
proof fn lemma_kept_high(ms: nat)
    requires
        ms <= HALF_LIFE_MS,
    ensures
        (kept(ms) + 4 * ms) * pow(SCALE as int, ms) >= pow(KEPT_PER_MS + 1, ms) * SCALE,
        ms > 0 ==> (kept(ms) + 4 * ms - 2) * pow(SCALE as int, ms) >= pow(KEPT_PER_MS + 1, ms)
            * SCALE,
    decreases ms,
{
    let w = SCALE as int;
    let c = KEPT_PER_MS + 1;
    if ms == 0 {
        lemma_pow0(w);
        lemma_pow0(c);
    } else {
        let (half, rest) = if ms % 2 == 0 {
            (ms / 2, ms / 2)
        } else {
            ((ms - 1) as nat, 1nat)
        };
        lemma_kept_high(half);
        lemma_kept_bounded(half);
        lemma_pow_adds(w, half, rest);
        lemma_pow_adds(c, half, rest);
        lemma_pow1(w);
        lemma_pow1(c);
        lemma_pow_positive(w, half);
        lemma_pow_positive(w, ms);
        lemma_pow_positive(c, half);
        let h = kept(half) as int;
        let d = kept(ms) as int;
        let s = pow(w, half);
        let p = pow(c, half);
        let g = if half == 0 {
            h
        } else {
            h + 4 * half - 2
        };
        let x = d + 4 * ms - 2;
        if ms % 2 == 0 {
            let k = 4 * half - 2;
            assert(x * w >= g * g) by {
                assert(d * w >= h * h - w + 1) by (nonlinear_arith)
                    requires
                        d == h * h / w,
                        w > 0,
                ;
                assert(x * w == d * w + (2 * k + 2) * w) by (nonlinear_arith)
                    requires
                        x == d + 2 * k + 2,
                ;
                assert(g * g == h * h + 2 * (k * h) + k * k) by (nonlinear_arith)
                    requires
                        g == h + k,
                ;
                assert(k * h <= k * w) by (nonlinear_arith)
                    requires
                        0 <= k,
                        h <= w,
                ;
                assert(k * k <= w) by (nonlinear_arith)
                    requires
                        0 <= k <= 120000,
                        w == 0x4000_0000_0000_0000,
                ;
                assert((2 * k + 2) * w == 2 * (k * w) + 2 * w) by (nonlinear_arith);
            }
            assert(x * (s * s) >= (p * p) * w) by {
                assert((g * s) * (g * s) >= (p * w) * (p * w)) by (nonlinear_arith)
                    requires
                        0 < p,
                        0 < w,
                        g * s >= p * w,
                ;
                assert((g * s) * (g * s) == (g * g) * (s * s)) by (nonlinear_arith);
                assert((x * w) * (s * s) >= (g * g) * (s * s)) by (nonlinear_arith)
                    requires
                        x * w >= g * g,
                ;
                assert((p * w) * (p * w) == ((p * p) * w) * w) by (nonlinear_arith);
                assert((x * w) * (s * s) == (x * (s * s)) * w) by (nonlinear_arith);
                lemma_mul_inequality_converse((p * p) * w, x * (s * s), w);
            }
        } else {
            let b = KEPT_PER_MS as int;
            let k = g - h;
            assert(x * w >= g * c) by {
                assert(d * w >= h * b - w + 1) by (nonlinear_arith)
                    requires
                        d == h * b / w,
                        w > 0,
                ;
                assert(x * w >= d * w + (k + 2) * w) by (nonlinear_arith)
                    requires
                        x >= d + k + 2,
                        w > 0,
                ;
                assert(g * c == h * b + h + k * c) by (nonlinear_arith)
                    requires
                        g == h + k,
                        c == b + 1,
                ;
                assert(k * c <= k * w) by (nonlinear_arith)
                    requires
                        0 <= k,
                        c <= w,
                ;
                assert((k + 2) * w == k * w + 2 * w) by (nonlinear_arith);
            }
            assert(x * (s * w) >= (p * c) * w) by {
                assert((g * s) * c >= (p * w) * c) by (nonlinear_arith)
                    requires
                        g * s >= p * w,
                        c > 0,
                ;
                assert((x * w) * s >= (g * c) * s) by (nonlinear_arith)
                    requires
                        x * w >= g * c,
                        s > 0,
                ;
                assert((x * w) * s == x * (s * w)) by (nonlinear_arith);
                assert((g * c) * s == (g * s) * c) by (nonlinear_arith);
                assert((p * w) * c == (p * c) * w) by (nonlinear_arith);
            }
        }
        assert((x + 2) * pow(w, ms) >= x * pow(w, ms)) by (nonlinear_arith)
            requires
                pow(w, ms) > 0,
        ;
    }
}

/// How far the fixed-point factor can be from `2^(-ms / HALF_LIFE_MS)`: it is
/// never above it, and less than four units for each millisecond below it.
/// Both are stated on the `HALF_LIFE_MS`-th powers, which are whole.
pub proof fn law_kept_is_accurate(ms: nat)
    requires
        ms <= HALF_LIFE_MS,
    ensures
        pow(kept(ms) as int, HALF_LIFE_MS as nat) * pow(2, ms) <= pow(
            SCALE as int,
            HALF_LIFE_MS as nat,
        ),
        pow(SCALE as int, HALF_LIFE_MS as nat) <= pow(
            (kept(ms) + 4 * ms) as int,
            HALF_LIFE_MS as nat,
        ) * pow(2, ms),
{
    let n = HALF_LIFE_MS as nat;
    let w = SCALE as int;
    let s = pow(w, n);
    let sr = pow(s, ms);
    lemma_pow_positive(w, n);
    lemma_pow_positive(s, ms);
    lemma_pow_swap(w, ms, n);
    let two = pow(2, ms);
    lemma_pow_positive(2, ms);
    {
        let c = KEPT_PER_MS as int;
        let d = kept(ms) as int;
        let cr = pow(pow(c, n), ms);
        let dn = pow(d, n);
        lemma_pow_positive(w, ms);
        lemma_pow_positive(c, ms);
        lemma_kept_low(ms);
        assert(0 <= d * pow(w, ms)) by (nonlinear_arith)
            requires
                0 <= d,
                0 < pow(w, ms),
        ;
        lemma_pow_base(d * pow(w, ms), pow(c, ms) * w, n);
        lemma_pow_distributes(d, pow(w, ms), n);
        lemma_pow_distributes(pow(c, ms), w, n);
        lemma_pow_swap(c, ms, n);
        assert(dn * sr <= cr * s);
        lemma_half_life_low();
        lemma_pow_positive(c, n);
        lemma_pow_base(2 * pow(c, n), s, ms);
        lemma_pow_distributes(2, pow(c, n), ms);
        assert(two * cr <= sr);
        assert((dn * two) * sr <= s * sr) by {
            assert((dn * sr) * two <= (cr * s) * two) by (nonlinear_arith)
                requires
                    dn * sr <= cr * s,
                    two > 0,
            ;
            assert((two * cr) * s <= sr * s) by (nonlinear_arith)
                requires
                    two * cr <= sr,
                    s > 0,
            ;
            assert((dn * two) * sr == (dn * sr) * two) by (nonlinear_arith);
            assert((cr * s) * two == (two * cr) * s) by (nonlinear_arith);
            assert(sr * s == s * sr) by (nonlinear_arith);
        }
        lemma_mul_inequality_converse(dn * two, s, sr);
    }
    {
        let c = KEPT_PER_MS + 1;
        let d = (kept(ms) + 4 * ms) as int;
        let cr = pow(pow(c, n), ms);
        let dn = pow(d, n);
        lemma_pow_positive(w, ms);
        lemma_pow_positive(c, ms);
        lemma_kept_high(ms);
        assert(0 <= pow(c, ms) * w) by (nonlinear_arith)
            requires
                0 <= w,
                0 < pow(c, ms),
        ;
        lemma_pow_base(pow(c, ms) * w, d * pow(w, ms), n);
        lemma_pow_distributes(d, pow(w, ms), n);
        lemma_pow_distributes(pow(c, ms), w, n);
        lemma_pow_swap(c, ms, n);
        assert(dn * sr >= cr * s);
        lemma_half_life_high();
        lemma_pow_positive(c, n);
        lemma_pow_base(s, 2 * pow(c, n), ms);
        lemma_pow_distributes(2, pow(c, n), ms);
        assert(two * cr >= sr);
        assert(s * sr <= (dn * two) * sr) by {
            assert((dn * sr) * two >= (cr * s) * two) by (nonlinear_arith)
                requires
                    dn * sr >= cr * s,
                    two > 0,
            ;
            assert((two * cr) * s >= sr * s) by (nonlinear_arith)
                requires
                    two * cr >= sr,
                    s > 0,
            ;
            assert((dn * two) * sr == (dn * sr) * two) by (nonlinear_arith);
            assert((cr * s) * two == (two * cr) * s) by (nonlinear_arith);
            assert(sr * s == s * sr) by (nonlinear_arith);
        }
        lemma_mul_inequality_converse(s, dn * two, sr);
    }
}

/// A strictly larger base has a strictly larger power.
proof fn lemma_pow_base_strict(a: int, b: int, e: nat)
    requires
        0 <= a < b,
        e > 0,
    ensures
        pow(a, e) < pow(b, e),
{
    reveal(pow);
    let x = pow(a, (e - 1) as nat);
    let y = pow(b, (e - 1) as nat);
    lemma_pow_base(a, b, (e - 1) as nat);
    lemma_pow_positive(b, (e - 1) as nat);
    assert(a * x < b * y) by (nonlinear_arith)
        requires
            0 <= a < b,
            0 <= x <= y,
            0 < y,
    ;
}

/// Within one half-life a value loses little more than half.
proof fn lemma_kept_near_half(ms: nat)
    requires
        ms <= HALF_LIFE_MS,
    ensures
        2 * (kept(ms) + 4 * ms) >= SCALE,
{
    let n = HALF_LIFE_MS as nat;
    let k = (kept(ms) + 4 * ms) as int;
    law_kept_is_accurate(ms);
    lemma_pow_increases(2, ms, n);
    lemma_pow_distributes(2, k, n);
    lemma_pow_base(0, k, n);
    assert(pow(k, n) * pow(2, ms) <= pow(2, n) * pow(k, n)) by (nonlinear_arith)
        requires
            0 <= pow(k, n),
            pow(2, ms) <= pow(2, n),
    ;
    if 2 * k < SCALE {
        lemma_pow_base_strict(2 * k, SCALE as int, n);
    }
}

/// Within one half-life the factor only falls, and before its end it is at
/// least a half.
pub proof fn law_kept_falls(ms: nat)
    requires
        ms < HALF_LIFE_MS,
    ensures
        kept(ms + 1) <= kept(ms),
        2 * kept(ms) >= SCALE,
{
    let w = SCALE as int;
    let c = KEPT_PER_MS as int;
    let s = pow(w, ms);
    let k = (kept(ms) + 4 * ms) as int;
    let d = kept(ms + 1) as int;
    lemma_kept_low(ms + 1);
    lemma_kept_high(ms);
    lemma_pow_adds(w, ms, 1);
    lemma_pow_adds(c, ms, 1);
    lemma_pow1(w);
    lemma_pow1(c);
    lemma_pow_positive(w, ms);
    lemma_pow_base(c, c + 1, ms);
    assert(d * w <= c * k) by {
        let p = pow(c, ms);
        let q = pow(c + 1, ms);
        assert(p * w <= q * w) by (nonlinear_arith)
            requires
                p <= q,
                w > 0,
        ;
        assert((p * w) * c <= (k * s) * c) by (nonlinear_arith)
            requires
                p * w <= k * s,
                c > 0,
        ;
        assert(d * (s * w) == (d * w) * s) by (nonlinear_arith);
        assert((p * c) * w == (p * w) * c) by (nonlinear_arith);
        assert((k * s) * c == (c * k) * s) by (nonlinear_arith);
        lemma_mul_inequality_converse(d * w, c * k, s);
    }
    lemma_kept_near_half(ms);
    lemma_kept_near_half(ms + 1);
    assert(d * 0x4000_0000_0000_0000 <= 0x3fff_9f17_9529_aff9 * k);
}

}
