//! Counts scaled by a single-precision factor, rounded as binary32 arithmetic rounds.
//!
//! A scaled count is the product of two single-precision numbers: the count, rounded to 24
//! significant bits, and the factor. The product is rounded to 24 significant bits in turn, and
//! then to a whole number, down or up.

use crate::float::Float32;
use vstd::arithmetic::div_mod::*;
use vstd::arithmetic::power2::*;
use vstd::prelude::*;

verus! {

/// A quotient rounded to the nearest whole number, and to the even one of two that are equally
/// near.
pub open spec fn half_even(x: nat, d: nat) -> nat {
    let q = x / d;
    let r = x % d;
    if 2 * r < d || (2 * r == d && q % 2 == 0) {
        q
    } else {
        q + 1
    }
}

/// How many bits a number has beyond the 24 that a significand holds.
pub open spec fn spare_bits(x: nat) -> nat
    decreases x,
{
    if x < 0x100_0000 {
        0
    } else {
        1 + spare_bits(x / 2)
    }
}

/// The significand of a number rounded to 24 significant bits; its unit is the power of two with
/// the number's spare bits as exponent.
pub open spec fn significand(x: nat) -> nat {
    half_even(x, pow2(spare_bits(x)))
}

/// The significand of a finite single-precision number, without its sign.
pub open spec fn factor_significand(factor: Float32) -> nat {
    let fraction = factor.magnitude() % 0x80_0000;
    if factor.magnitude() < 0x80_0000 {
        fraction as nat
    } else {
        (fraction + 0x80_0000) as nat
    }
}

/// The exponent of the unit of a finite single-precision number's significand.
pub open spec fn factor_exponent(factor: Float32) -> int {
    if factor.magnitude() < 0x80_0000 {
        -149
    } else {
        factor.magnitude() / 0x80_0000 - 150
    }
}

/// The product of a count and a finite factor: its significand, and the exponent of its unit.
pub open spec fn product(n: nat, factor: Float32) -> (nat, int) {
    let exact = significand(n) * factor_significand(factor);
    (significand(exact), spare_bits(exact) + spare_bits(n) + factor_exponent(factor))
}

/// A significand and the exponent of its unit as a whole number, rounded up or down.
pub open spec fn whole(m: nat, exponent: int, up: bool) -> nat {
    if exponent >= 0 {
        m * pow2(exponent as nat)
    } else {
        let unit = pow2((-exponent) as nat);
        if up && m % unit != 0 {
            m / unit + 1
        } else {
            m / unit
        }
    }
}

/// A count scaled by a factor, as a whole number that fits: at least zero, and at most the
/// largest. Zero stands for what is not a number.
pub open spec fn scaled(n: nat, factor: Float32, up: bool) -> nat {
    if factor.nan() || factor.negative() || n == 0 {
        0
    } else if factor.magnitude() == 0x7f80_0000 {
        usize::MAX as nat
    } else {
        let (m, exponent) = product(n, factor);
        let w = whole(m, exponent, up);
        if w <= usize::MAX {
            w
        } else {
            usize::MAX as nat
        }
    }
}

// ---------------------------------------------------------------------------------------------
// Computing it

fn round_half_even(x: u64, d: u64) -> (r: u64)
    requires
        0 < d < 0x1_0000_0000_0000,
        x / d < 0x1_0000_0000_0000,
    ensures
        r == half_even(x as nat, d as nat),
{
    let q: u64 = x / d;
    let r: u64 = x % d;
    if 2 * r < d || (2 * r == d && q % 2 == 0) {
        q
    } else {
        q + 1
    }
}

/// Rounds a number to 24 significant bits.
fn round_to_significand(x: u64) -> (r: (u64, u32))
    ensures
        r.0 == significand(x as nat),
        r.1 == spare_bits(x as nat),
        r.0 <= 0x100_0000,
        r.1 <= 40,
{
    let mut rest: u64 = x;
    let mut unit: u64 = 1;
    let mut spare: u32 = 0;
    proof {
        lemma2_to64();
    }
    while rest >= 0x100_0000
        invariant
            spare_bits(x as nat) == spare + spare_bits(rest as nat),
            unit == pow2(spare as nat),
            unit > 0,
            rest == x / unit,
            unit * rest <= x,
            spare == 0 || rest >= 0x80_0000,
            spare <= 40,
        decreases rest,
    {
        proof {
            assert(unit <= 0x100_0000_0000) by (nonlinear_arith)
                requires
                    unit * rest <= x,
                    rest >= 0x100_0000,
                    x <= 0xffff_ffff_ffff_ffff,
            ;
            lemma_div_denominator(x as int, unit as int, 2);
            lemma_pow2_unfold((spare + 1) as nat);
            assert((unit * 2) * (rest / 2) <= unit * rest) by (nonlinear_arith)
                requires
                    unit > 0,
                    rest >= 0,
            ;
            if spare == 40 {
                lemma2_to64_rest();
                assert(pow2(40) == 0x100_0000_0000);
                assert(false) by (nonlinear_arith)
                    requires
                        unit == 0x100_0000_0000,
                        unit * rest <= x,
                        rest >= 0x100_0000,
                        x <= 0xffff_ffff_ffff_ffff,
                ;
            }
        }
        rest = rest / 2;
        unit = unit * 2;
        spare = spare + 1;
    }
    proof {
        if spare == 0 {
            assert(unit == 1);
        } else {
            assert(unit <= 0x200_0000_0000) by (nonlinear_arith)
                requires
                    unit * rest <= x,
                    rest >= 0x80_0000,
                    x <= 0xffff_ffff_ffff_ffff,
            ;
        }
    }
    (round_half_even(x, unit), spare)
}

fn power_of_two(e: u32) -> (r: u128)
    requires
        e <= 64,
    ensures
        r == pow2(e as nat),
        0 < r <= 0x1_0000_0000_0000_0000,
{
    let mut r: u128 = 1;
    let mut i: u32 = 0;
    proof {
        lemma2_to64();
    }
    while i < e
        invariant
            i <= e <= 64,
            r == pow2(i as nat),
            r > 0,
        decreases e - i,
    {
        proof {
            lemma_pow2_unfold((i + 1) as nat);
            lemma2_to64();
            lemma2_to64_rest();
            lemma_pow2_strictly_increases(i as nat, 64);
        }
        r = r * 2;
        i = i + 1;
    }
    proof {
        lemma2_to64_rest();
        if e < 64 {
            lemma_pow2_strictly_increases(e as nat, 64);
        }
    }
    r
}

/// A significand and the exponent of its unit as a whole number, at most the largest.
fn to_whole(m: u64, exponent: i32, up: bool) -> (r: usize)
    requires
        m <= 0x100_0000,
        -200 <= exponent <= 200,
    ensures
        r == if whole(m as nat, exponent as int, up) <= usize::MAX {
            whole(m as nat, exponent as int, up)
        } else {
            usize::MAX as nat
        },
{
    if m == 0 {
        proof {
            if exponent < 0 {
                lemma_pow2_pos((-exponent) as nat);
                assert(0int / (pow2((-exponent) as nat) as int) == 0) by {
                    lemma_div_basics(pow2((-exponent) as nat) as int);
                }
                lemma_small_mod(0, pow2((-exponent) as nat));
            }
        }
        return 0;
    }
    if exponent >= 0 {
        if exponent >= 64 {
            proof {
                lemma2_to64_rest();
                if exponent > 64 {
                    lemma_pow2_strictly_increases(64, exponent as nat);
                }
                assert(m * pow2(exponent as nat) >= 0x1_0000_0000_0000_0000) by (nonlinear_arith)
                    requires
                        m >= 1,
                        pow2(exponent as nat) >= 0x1_0000_0000_0000_0000,
                ;
            }
            return usize::MAX;
        }
        let unit: u128 = power_of_two(exponent as u32);
        assert(m * unit <= 0x100_0000 * 0x1_0000_0000_0000_0000) by (nonlinear_arith)
            requires
                m <= 0x100_0000,
                unit <= 0x1_0000_0000_0000_0000,
        ;
        let w: u128 = m as u128 * unit;
        if w <= usize::MAX as u128 {
            w as usize
        } else {
            usize::MAX
        }
    } else if exponent < -30 {
        proof {
            let e = (-exponent) as nat;
            lemma2_to64();
            lemma_pow2_strictly_increases(30, e);
            lemma_basic_div(m as int, pow2(e) as int);
            lemma_small_mod(m as nat, pow2(e));
        }
        if up {
            1
        } else {
            0
        }
    } else {
        let unit: u128 = power_of_two((-exponent) as u32);
        let q: u128 = m as u128 / unit;
        proof {
            assert(q <= m) by (nonlinear_arith)
                requires
                    q == m as u128 / unit,
                    unit > 0,
            ;
        }
        if up && m as u128 % unit != 0 {
            (q + 1) as usize
        } else {
            q as usize
        }
    }
}

/// A count scaled by a factor, rounded down or up.
pub fn scale(n: usize, factor: Float32, up: bool) -> (r: usize)
    ensures
        r == scaled(n as nat, factor, up),
{
    if factor.is_nan() || factor.bits >= 0x8000_0000 || n == 0 {
        return 0;
    }
    if factor.bits == 0x7f80_0000 {
        return usize::MAX;
    }
    let fraction: u32 = factor.bits % 0x80_0000;
    let field: u32 = factor.bits / 0x80_0000;
    assert(field < 255);
    let (m2, e2): (u64, i32) = if field == 0 {
        (fraction as u64, -149)
    } else {
        ((fraction + 0x80_0000) as u64, field as i32 - 150)
    };
    let (m1, s1) = round_to_significand(n as u64);
    assert(m1 * m2 <= 0x100_0000 * 0x100_0000) by (nonlinear_arith)
        requires
            m1 <= 0x100_0000,
            m2 <= 0x100_0000,
    ;
    let (m, s) = round_to_significand(m1 * m2);
    to_whole(m, s as i32 + s1 as i32 + e2, up)
}

// ---------------------------------------------------------------------------------------------
// Laws

/// A rounded quotient lies within half a unit of the quotient, and not beyond a whole number
/// that the quotient does not pass.
proof fn lemma_half_even(x: nat, d: nat)
    requires
        d > 0,
    ensures
        2 * (d * half_even(x, d)) <= 2 * x + d,
        forall|bound: nat| x <= #[trigger] (bound * d) ==> half_even(x, d) <= bound,
        forall|bound: nat| x >= #[trigger] (bound * d) ==> half_even(x, d) >= bound,
{
    let q = x / d;
    let r = x % d;
    let h = half_even(x, d);
    lemma_fundamental_div_mod(x as int, d as int);
    assert(0 <= r < d) by {
        lemma_mod_bound(x as int, d as int);
    }
    assert(2 * (d * h) <= 2 * x + d) by (nonlinear_arith)
        requires
            x == d * q + r,
            h == q || (h == q + 1 && 2 * r >= d),
    ;
    assert forall|bound: nat| x <= #[trigger] (bound * d) implies h <= bound by {
        assert(q <= bound) by (nonlinear_arith)
            requires
                x == d * q + r,
                x <= bound * d,
                r >= 0,
                d > 0,
        ;
        if h == q + 1 {
            assert(r > 0);
            assert(q < bound) by (nonlinear_arith)
                requires
                    x == d * q + r,
                    x <= bound * d,
                    r > 0,
                    d > 0,
            ;
        }
    }
    assert forall|bound: nat| x >= #[trigger] (bound * d) implies h >= bound by {
        assert(q >= bound) by (nonlinear_arith)
            requires
                x == d * q + r,
                x >= bound * d,
                r < d,
                d > 0,
        ;
    }
}

/// A number with fewer bits has fewer spare ones.
proof fn lemma_spare_bits_at_most(x: nat, k: nat)
    requires
        x < pow2(24 + k),
    ensures
        spare_bits(x) <= k,
    decreases k,
{
    lemma2_to64();
    if x >= 0x100_0000 {
        if k == 0 {
            assert(false);
        }
        lemma_pow2_unfold(24 + k);
        assert((24 + k - 1) as nat == 24 + (k - 1) as nat);
        lemma_spare_bits_at_most(x / 2, (k - 1) as nat);
    }
}

/// A number with spare bits fills the bits of a significand.
proof fn lemma_spare_bits_filled(x: nat)
    ensures
        spare_bits(x) > 0 ==> x >= 0x80_0000 * pow2(spare_bits(x)),
        x > 0 ==> x >= pow2(spare_bits(x)),
    decreases x,
{
    lemma2_to64();
    if x >= 0x100_0000 {
        lemma_spare_bits_filled(x / 2);
        lemma_pow2_unfold(spare_bits(x));
    }
}

/// Numbers of at most 24 bits are not rounded.
proof fn lemma_small_significand(n: nat)
    requires
        n < 0x100_0000,
    ensures
        spare_bits(n) == 0,
        significand(n) == n,
{
    lemma2_to64();
    assert(n / 1 == n && n % 1 == 0);
}

/// The significand of a positive number is positive, and fills its bits where the number has
/// spare ones.
proof fn lemma_significand_positive(x: nat)
    requires
        x > 0,
    ensures
        significand(x) > 0,
        spare_bits(x) > 0 ==> significand(x) >= 0x80_0000,
        spare_bits(x) == 0 ==> significand(x) == x,
{
    lemma_spare_bits_filled(x);
    lemma_pow2_pos(spare_bits(x));
    lemma_half_even(x, pow2(spare_bits(x)));
    assert(1 * pow2(spare_bits(x)) == pow2(spare_bits(x)));
    if spare_bits(x) == 0 {
        lemma_small_significand(x);
    }
}

/// A count that is scaled by a positive factor and rounded up is not zero.
pub proof fn scaled_up_is_positive(n: nat, factor: Float32)
    requires
        0 < n <= usize::MAX,
        !factor.nan(),
        !factor.negative(),
        factor.magnitude() > 0,
    ensures
        scaled(n, factor, true) > 0,
{
    if factor.magnitude() != 0x7f80_0000 {
        let m1 = significand(n);
        let m2 = factor_significand(factor);
        lemma_significand_positive(n);
        assert(m2 > 0);
        assert(m1 * m2 > 0) by (nonlinear_arith)
            requires
                m1 > 0,
                m2 > 0,
        ;
        lemma_significand_positive(m1 * m2);
        let (m, exponent) = product(n, factor);
        if exponent >= 0 {
            lemma_pow2_pos(exponent as nat);
            assert(m * pow2(exponent as nat) > 0) by (nonlinear_arith)
                requires
                    m > 0,
                    pow2(exponent as nat) > 0,
            ;
        } else {
            let unit = pow2((-exponent) as nat);
            lemma_pow2_pos((-exponent) as nat);
            lemma_fundamental_div_mod(m as int, unit as int);
            assert(m % unit == 0 ==> m / unit > 0) by (nonlinear_arith)
                requires
                    m == unit * (m / unit) + m % unit,
                    m > 0,
                    unit > 0,
            ;
            lemma_div_pos_is_pos(m as int, unit as int);
        }
    }
}

/// A count scaled by zero is zero.
pub proof fn scaled_by_zero(n: nat, up: bool)
    requires
        n <= usize::MAX,
    ensures
        scaled(n, Float32 { bits: 0 }, up) == 0,
{
    let zero = Float32 { bits: 0 };
    let exact = significand(n) * factor_significand(zero);
    assert(exact == 0) by (nonlinear_arith)
        requires
            exact == significand(n) * factor_significand(zero),
            factor_significand(zero) == 0,
    ;
    lemma_small_significand(0);
    let (m, exponent) = product(n, zero);
    assert(m == 0);
    if exponent >= 0 {
        assert(0 * pow2(exponent as nat) == 0);
    } else {
        lemma_pow2_pos((-exponent) as nat);
        lemma_div_basics(pow2((-exponent) as nat) as int);
        lemma_small_mod(0, pow2((-exponent) as nat));
    }
}

/// The product of a small count with a factor of at most one, against the count.
proof fn lemma_unit_product(n: nat, factor: Float32)
    requires
        n < 0x100_0000,
        factor.magnitude() <= 0x3f80_0000,
        !factor.negative(),
    ensures
        ({
            let (m, exponent) = product(n, factor);
            &&& exponent <= 0
            &&& m <= n * pow2((-exponent) as nat)
            &&& factor.magnitude() == 0x3f80_0000 ==> m == n * pow2((-exponent) as nat)
        }),
{
    let m2 = factor_significand(factor);
    let down = (-factor_exponent(factor)) as nat;
    let exact = n * m2;
    let t = spare_bits(exact);
    lemma_small_significand(n);
    assert(down >= 23);
    lemma2_to64();
    lemma_pow2_pos(down);
    assert(m2 <= pow2(down)) by {
        if factor.magnitude() == 0x3f80_0000 {
            assert(m2 == 0x80_0000 && down == 23);
        } else {
            assert(down >= 24);
            if down > 24 {
                lemma_pow2_strictly_increases(24, down);
            }
        }
    }
    assert(n * m2 <= n * pow2(down)) by (nonlinear_arith)
        requires
            m2 <= pow2(down),
    ;
    assert(n * pow2(down) < 0x100_0000 * pow2(down)) by (nonlinear_arith)
        requires
            n < 0x100_0000,
            pow2(down) > 0,
    ;
    lemma_pow2_adds(24, down);
    lemma_spare_bits_at_most(exact, down);
    let rest = (down - t) as nat;
    lemma_pow2_adds(rest, t);
    lemma_pow2_pos(t);
    lemma_half_even(exact, pow2(t));
    assert(n * pow2(down) == (n * pow2(rest)) * pow2(t)) by (nonlinear_arith)
        requires
            pow2(down) == pow2(rest) * pow2(t),
    ;
}

/// A count scaled by a factor of at most one does not grow, and scaled by one it stays as it is,
/// as long as it has no more bits than a significand holds.
pub proof fn scaled_within_count(n: nat, factor: Float32, up: bool)
    requires
        n < 0x100_0000,
        n <= usize::MAX,
        factor.magnitude() <= 0x3f80_0000,
    ensures
        scaled(n, factor, up) <= n,
        !factor.negative() && factor.magnitude() == 0x3f80_0000 ==> scaled(n, factor, up) == n,
{
    if !factor.negative() && n > 0 {
        lemma_unit_product(n, factor);
        let (m, exponent) = product(n, factor);
        let unit = pow2((-exponent) as nat);
        lemma2_to64();
        lemma_pow2_pos((-exponent) as nat);
        if exponent == 0 {
            assert(unit == 1);
            assert(m * pow2(0) == m) by (nonlinear_arith)
                requires
                    pow2(0) == 1,
            ;
            assert(n * unit == n) by (nonlinear_arith)
                requires
                    unit == 1,
            ;
        } else {
            lemma_fundamental_div_mod(m as int, unit as int);
            lemma_mod_bound(m as int, unit as int);
            let q = m / unit;
            let r = m % unit;
            assert(q <= n && (r != 0 ==> q < n) && (m == n * unit ==> q == n && r == 0))
                by (nonlinear_arith)
                requires
                    m == unit * q + r,
                    0 <= r < unit,
                    m <= n * unit,
            ;
        }
    }
}

/// A tenth, as a single-precision number.
pub open spec fn tenth() -> Float32 {
    Float32 { bits: 0x3dcc_cccd }
}

/// A tenth of a count below ten thousand is the whole part of its tenth.
proof fn lemma_small_tenth(n: nat)
    requires
        n < 10000,
        n <= usize::MAX,
    ensures
        scaled(n, tenth(), false) == n / 10,
{
    if n > 0 {
        let m2 = factor_significand(tenth());
        assert(m2 == 13421773);
        assert(factor_exponent(tenth()) == -27);
        lemma_small_significand(n);
        let exact = n * m2;
        let t = spare_bits(exact);
        let k = n / 10;
        lemma2_to64();
        lemma2_to64_rest();
        assert(pow2(37) == 0x20_0000_0000 && pow2(27) == 0x800_0000 && pow2(13) == 0x2000);
        lemma_spare_bits_at_most(exact, 13);
        let rest = (27 - t) as nat;
        lemma_pow2_adds(rest, t);
        lemma_pow2_pos(t);
        lemma_pow2_pos(rest);
        if t < 13 {
            lemma_pow2_strictly_increases(t, 13);
        }
        lemma_half_even(exact, pow2(t));
        let m = half_even(exact, pow2(t));
        let unit = pow2(rest);
        let d = pow2(t);
        assert(k * 0x800_0000 == (k * unit) * d) by (nonlinear_arith)
            requires
                unit * d == 0x800_0000,
        ;
        assert(m >= k * unit);
        assert(2 * (d * m) < 2 * ((k + 1) * 0x800_0000));
        assert(m < (k + 1) * unit) by (nonlinear_arith)
            requires
                2 * (d * m) < 2 * ((k + 1) * 0x800_0000),
                unit * d == 0x800_0000,
                d > 0,
        ;
        lemma_fundamental_div_mod(m as int, unit as int);
        lemma_mod_bound(m as int, unit as int);
        let q = m / unit;
        assert(q == k) by (nonlinear_arith)
            requires
                m == unit * q + m % unit,
                0 <= m % unit < unit,
                k * unit <= m < (k + 1) * unit,
        ;
    }
}

/// A tenth of a count of ten thousand or more is at least a thousand.
proof fn lemma_large_tenth(n: nat)
    requires
        10000 <= n <= usize::MAX,
    ensures
        scaled(n, tenth(), false) >= 1000,
{
    let m1 = significand(n);
    let s1 = spare_bits(n);
    let m2 = factor_significand(tenth());
    let exact = m1 * m2;
    let t = spare_bits(exact);
    lemma2_to64();
    lemma2_to64_rest();
    assert(m2 == 13421773);
    assert(factor_exponent(tenth()) == -27);
    lemma_significand_positive(n);
    lemma_pow2_pos(s1);
    assert(m1 >= 10000);
    assert(m1 * pow2(s1) >= 10000) by (nonlinear_arith)
        requires
            m1 >= 10000,
            pow2(s1) >= 1,
    ;
    lemma_significand_positive(exact);
    let (m, exponent) = product(n, tenth());
    assert(m >= 0x80_0000);
    if exponent >= 0 {
        lemma_pow2_pos(exponent as nat);
        assert(m * pow2(exponent as nat) >= 1000) by (nonlinear_arith)
            requires
                m >= 0x80_0000,
                pow2(exponent as nat) >= 1,
        ;
    } else {
        let rest = (-exponent) as nat;
        let unit = pow2(rest);
        lemma_pow2_pos(rest);
        lemma_pow2_pos(t);
        lemma_pow2_adds(rest, t);
        lemma_pow2_adds(rest + t, s1);
        assert(rest + t + s1 == 27);
        assert(pow2(27) == 0x800_0000);
        lemma_half_even(exact, pow2(t));
        assert(exact >= (1000 * unit) * pow2(t)) by (nonlinear_arith)
            requires
                exact == m1 * 13421773,
                m1 * pow2(s1) >= 10000,
                (unit * pow2(t)) * pow2(s1) == 0x800_0000,
                pow2(s1) >= 1,
        {
            assert(exact * pow2(s1) == (m1 * pow2(s1)) * 13421773);
            assert(exact * pow2(s1) >= 1000 * 0x800_0000);
            assert(((1000 * unit) * pow2(t)) * pow2(s1) == 1000 * ((unit * pow2(t)) * pow2(s1)));
        }
        assert(m >= 1000 * unit);
        lemma_fundamental_div_mod(m as int, unit as int);
        lemma_mod_bound(m as int, unit as int);
        let q = m / unit;
        if q < 1000 {
            assert(unit * q <= unit * 999) by (nonlinear_arith)
                requires
                    q <= 999,
                    unit > 0,
            ;
        }
    }
}

/// A tenth of a count, rounded down: the whole part of its tenth below ten thousand, and from
/// there on at least a thousand.
pub proof fn scaled_tenth(n: nat)
    requires
        n <= usize::MAX,
    ensures
        n < 10000 ==> scaled(n, tenth(), false) == n / 10,
        n >= 10000 ==> scaled(n, tenth(), false) >= 1000,
{
    if n < 10000 {
        lemma_small_tenth(n);
    } else {
        lemma_large_tenth(n);
    }
}

} // verus!
