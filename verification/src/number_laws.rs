//! Laws of numbers: what single-precision numbers stand for, and how counts are scaled by them.

use crate::float;
use crate::float::Float32;
use crate::scaling;
use vstd::arithmetic::div_mod::*;
use vstd::arithmetic::power2::*;
use vstd::prelude::*;

verus! {

/// The exponent field of a single-precision number.
pub open spec fn exponent_field(x: Float32) -> nat {
    (x.bits as nat / 0x80_0000) % 256
}

/// The fraction field of a single-precision number.
pub open spec fn fraction_field(x: Float32) -> nat {
    x.bits as nat % 0x80_0000
}

/// Whether a single-precision number stands for a number, finite or not.
pub open spec fn is_number(x: Float32) -> bool {
    exponent_field(x) < 255 || fraction_field(x) == 0
}

/// The fraction of a single-precision number with the bit that its exponent implies.
pub open spec fn full_fraction(x: Float32) -> nat {
    if exponent_field(x) == 0 {
        fraction_field(x)
    } else {
        0x80_0000 + fraction_field(x)
    }
}

/// The exponent of the unit of a full fraction, in the smallest units that there are.
pub open spec fn unit_exponent(x: Float32) -> nat {
    if exponent_field(x) == 0 {
        0
    } else {
        (exponent_field(x) - 1) as nat
    }
}

/// The number that a single-precision number stands for, counted in the smallest units that there
/// are. An infinite one counts as the power of two after the finite ones.
pub open spec fn numeric_value(x: Float32) -> int {
    let size = full_fraction(x) * pow2(unit_exponent(x));
    if x.bits >= 0x8000_0000 {
        -(size as int)
    } else {
        size as int
    }
}

/// The size of a number with a magnitude.
spec fn size_of(magnitude: nat) -> nat {
    let e = magnitude / 0x80_0000;
    let f = magnitude % 0x80_0000;
    if e == 0 {
        f
    } else {
        (0x80_0000 + f) * pow2((e - 1) as nat)
    }
}

proof fn lemma_size_grows(a: nat, b: nat)
    requires
        a < b,
    ensures
        size_of(a) < size_of(b),
{
    let ea = a / 0x80_0000;
    let fa = a % 0x80_0000;
    let eb = b / 0x80_0000;
    let fb = b % 0x80_0000;
    lemma2_to64();
    assert(ea <= eb);
    if ea == eb {
        assert(fa < fb);
        if ea > 0 {
            let p = pow2((ea - 1) as nat);
            lemma_pow2_pos((ea - 1) as nat);
            assert((0x80_0000 + fa) * p < (0x80_0000 + fb) * p) by (nonlinear_arith)
                requires
                    fa < fb,
                    p > 0,
            ;
        }
    } else {
        let p = pow2(ea);
        let q = pow2((eb - 1) as nat);
        lemma_pow2_pos(ea);
        if ea < eb - 1 {
            lemma_pow2_strictly_increases(ea, (eb - 1) as nat);
        }
        assert(p <= q);
        assert(size_of(a) < 0x80_0000 * p) by {
            if ea > 0 {
                lemma_pow2_unfold(ea);
                let half = pow2((ea - 1) as nat);
                lemma_pow2_pos((ea - 1) as nat);
                assert((0x80_0000 + fa) * half < 0x80_0000 * (2 * half)) by (nonlinear_arith)
                    requires
                        fa < 0x80_0000,
                        half > 0,
                ;
            }
        }
        assert(size_of(b) >= 0x80_0000 * p) by {
            assert((0x80_0000 + fb) * q >= 0x80_0000 * p) by (nonlinear_arith)
                requires
                    p <= q,
            ;
        }
    }
}

proof fn lemma_magnitude(x: Float32)
    ensures
        0 <= x.magnitude() < 0x8000_0000,
        exponent_field(x) == x.magnitude() as nat / 0x80_0000,
        fraction_field(x) == x.magnitude() as nat % 0x80_0000,
        x.negative() <==> x.bits >= 0x8000_0000,
        numeric_value(x) == if x.negative() {
            -(size_of(x.magnitude() as nat) as int)
        } else {
            size_of(x.magnitude() as nat) as int
        },
        size_of(0) == 0,
{
    lemma2_to64();
    let size = full_fraction(x) * pow2(unit_exponent(x));
    if exponent_field(x) == 0 {
        assert(size == fraction_field(x) * 1);
    }
}

/// Single-precision numbers are compared as the numbers they stand for. What is no number is neither
/// below, nor equal to, nor at least any other.
pub proof fn floats_compare_as_numbers(a: Float32, b: Float32)
    ensures
        a.nan() <==> !is_number(a),
        a.below(b) <==> is_number(a) && is_number(b) && numeric_value(a) < numeric_value(b),
        a.reaches(b) <==> is_number(a) && is_number(b) && numeric_value(a) >= numeric_value(b),
        a.equals(b) <==> is_number(a) && is_number(b) && numeric_value(a) == numeric_value(b),
{
    lemma_magnitude(a);
    lemma_magnitude(b);
    let m = a.magnitude() as nat;
    let n = b.magnitude() as nat;
    if m < n {
        lemma_size_grows(m, n);
    }
    if n < m {
        lemma_size_grows(n, m);
    }
    if 0 < m {
        lemma_size_grows(0, m);
    }
    if 0 < n {
        lemma_size_grows(0, n);
    }
}

/// The order in which records are ranked goes by the numbers, puts the negative zero before the
/// other, and what is no number at the ends, by its sign.
pub proof fn ranks_go_by_numbers(a: Float32, b: Float32)
    ensures
        is_number(a) && is_number(b) && numeric_value(a) < numeric_value(b) ==> a.total()
            < b.total(),
        is_number(a) && !is_number(b) && b.bits < 0x8000_0000 ==> a.total() < b.total(),
        is_number(a) && !is_number(b) && b.bits >= 0x8000_0000 ==> b.total() < a.total(),
        a.bits == 0x8000_0000 && b.bits == 0 ==> a.total() < b.total(),
        a.total() == b.total() ==> a == b,
{
    floats_compare_as_numbers(a, b);
    floats_compare_as_numbers(b, a);
}

/// The bounds of the unit range are zero and one, and the lowest number is below every other.
pub proof fn what_the_named_numbers_are(x: Float32)
    ensures
        numeric_value(float::float_zero()) == 0,
        numeric_value(float::float_one()) == pow2(149),
        float::float_zero().bits < 0x8000_0000,
        is_number(x) && x != float::float_negative_infinity()
            ==> float::float_negative_infinity().below(x),
        float::in_unit_range(x) <==> is_number(x) && 0 <= numeric_value(x) <= pow2(149),
{
    lemma2_to64();
    let zero = float::float_zero();
    let one = float::float_one();
    let low = float::float_negative_infinity();
    assert(full_fraction(zero) == 0);
    assert(numeric_value(zero) == 0);
    assert(full_fraction(one) == 0x80_0000 && unit_exponent(one) == 126);
    lemma_pow2_adds(23, 126);
    assert(numeric_value(one) == pow2(149));
    floats_compare_as_numbers(low, x);
    floats_compare_as_numbers(x, zero);
    floats_compare_as_numbers(one, x);
}

/// Clamping to the unit range passes no number of the range: a number stays on its side of each of
/// them. What is no number stays as it is.
pub proof fn clamping_keeps_sides(x: Float32, u: Float32)
    requires
        float::in_unit_range(u),
    ensures
        x.reaches(u) ==> float::clamped_to_unit(x).reaches(u),
        u.reaches(x) ==> u.reaches(float::clamped_to_unit(x)),
        is_number(x) ==> float::in_unit_range(float::clamped_to_unit(x)),
        !is_number(x) || float::in_unit_range(x) ==> float::clamped_to_unit(x) == x,
{
    floats_compare_as_numbers(x, u);
}

// ---------------------------------------------------------------------------------------------
// Scaled counts

/// Whether a multiple of a unit is a number rounded to 24 significant bits: no multiple is nearer, of
/// two that are equally near it is the even one, and the unit is no larger than it has to be.
pub open spec fn rounds_to(x: nat, multiple: nat, unit: nat) -> bool {
    &&& x < 0x100_0000 * unit
    &&& unit == 1 || x >= 0x80_0000 * unit
    &&& -(unit as int) <= 2 * (multiple * unit - x) <= unit
    &&& (2 * (multiple * unit - x) == unit || 2 * (multiple * unit - x) == -(unit as int))
        ==> multiple % 2 == 0
}

proof fn lemma_spare_bits_hold(x: nat)
    ensures
        x < 0x100_0000 * pow2(scaling::spare_bits(x)),
        scaling::spare_bits(x) == 0 || x >= 0x80_0000 * pow2(scaling::spare_bits(x)),
    decreases x,
{
    lemma2_to64();
    if x >= 0x100_0000 {
        lemma_spare_bits_hold(x / 2);
        lemma_pow2_unfold(scaling::spare_bits(x));
    }
}

proof fn lemma_rounds(x: nat)
    ensures
        rounds_to(x, scaling::significand(x), pow2(scaling::spare_bits(x))),
{
    lemma2_to64();
    lemma_spare_bits_hold(x);
    let unit = pow2(scaling::spare_bits(x));
    lemma_pow2_pos(scaling::spare_bits(x));
    let q = x / unit;
    let r = x % unit;
    lemma_fundamental_div_mod(x as int, unit as int);
    lemma_mod_bound(x as int, unit as int);
    let h = scaling::significand(x);
    assert(q * unit == unit * q) by (nonlinear_arith);
    assert((q + 1) * unit == unit * q + unit) by (nonlinear_arith);
    assert(x == unit * q + r);
    assert(h == q || h == q + 1);
    if 2 * r == unit {
        assert(q % 2 == 0 ==> h == q);
    }
}

/// Whether a whole number is a number of units rounded down, or up.
pub open spec fn rounds_to_whole(m: nat, unit: nat, w: nat, up: bool) -> bool {
    if up {
        (w - 1) * unit < m <= w * unit
    } else {
        w * unit <= m < (w + 1) * unit
    }
}

/// The smaller of a count and the largest that there is.
pub open spec fn held(w: nat) -> nat {
    if w <= usize::MAX {
        w
    } else {
        usize::MAX as nat
    }
}

/// What scaling a count is: the count and its product with the factor are each rounded to 24
/// significant bits, and the product down or up to a whole number. It is zero for a factor that is
/// negative or no number, and the largest count for one that is infinite.
pub proof fn what_a_scaled_count_is(n: nat, factor: Float32, up: bool) -> (r: (
    nat,
    nat,
    nat,
    nat,
    nat,
))
    requires
        n <= usize::MAX,
    ensures
        n == 0 || !is_number(factor) || factor.bits >= 0x8000_0000 ==> scaling::scaled(
            n,
            factor,
            up,
        ) == 0,
        n > 0 && is_number(factor) && factor.bits < 0x8000_0000 && exponent_field(factor) == 255
            ==> scaling::scaled(n, factor, up) == usize::MAX,
        n > 0 && factor.bits < 0x8000_0000 && exponent_field(factor) < 255 ==> ({
            let (count, i, m, j, w) = r;
            &&& rounds_to(n, count, pow2(i))
            &&& rounds_to(count * full_fraction(factor), m, pow2(j))
            &&& i + j + unit_exponent(factor) >= 149 ==> w == m * pow2(
                (i + j + unit_exponent(factor) - 149) as nat,
            )
            &&& i + j + unit_exponent(factor) < 149 ==> rounds_to_whole(
                m,
                pow2((149 - i - j - unit_exponent(factor)) as nat),
                w,
                up,
            )
            &&& scaling::scaled(n, factor, up) == held(w)
        }),
{
    lemma_magnitude(factor);
    let count = scaling::significand(n);
    let i = scaling::spare_bits(n);
    let exact = count * scaling::factor_significand(factor);
    let m = scaling::significand(exact);
    let j = scaling::spare_bits(exact);
    let (product, exponent) = scaling::product(n, factor);
    let w = scaling::whole(product, exponent, up);
    lemma_rounds(n);
    lemma_rounds(exact);
    if exponent_field(factor) < 255 {
        assert(scaling::factor_significand(factor) == full_fraction(factor));
        assert(exponent == i + j + unit_exponent(factor) - 149);
        if exponent < 0 {
            let unit = pow2((-exponent) as nat);
            lemma_pow2_pos((-exponent) as nat);
            lemma_fundamental_div_mod(m as int, unit as int);
            lemma_mod_bound(m as int, unit as int);
            let q = m / unit;
            let rest = m % unit;
            assert(q * unit == unit * q && (q + 1) * unit == unit * q + unit && (q - 1) * unit
                == unit * q - unit) by (nonlinear_arith);
            assert((149 - i - j - unit_exponent(factor)) as nat == (-exponent) as nat);
            assert(rounds_to_whole(m, unit, w, up));
        }
    }
    (count, i, m, j, w)
}

} // verus!
