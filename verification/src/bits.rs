//! IEEE 754 bit patterns as ordered integers.
//!
//! Vectors and distances are single-precision floats. The library never does
//! arithmetic on them: it stores them, moves them and compares them. So they
//! are held as bit patterns, and this module says how two patterns compare:
//! by the ordinary `<` and `<=` of floats, which are false as soon as a NaN
//! takes part and which see no difference between the two zeros, and by the
//! total order of the standard, which ranks every pattern.

use vstd::arithmetic::power2::{lemma_pow2_pos, lemma_pow2_strictly_increases, lemma_pow2_unfold, pow2};
use vstd::prelude::*;

verus! {

/// The bit pattern of positive infinity.
pub const INFINITY: u32 = 0x7f80_0000;

/// Whether a pattern is one of the NaNs, of either sign.
pub open spec fn is_nan(b: u32) -> bool {
    ||| 0x7f80_0000 < b < 0x8000_0000
    ||| 0xff80_0000 < b
}

/// Where a number stands among the numbers; both zeros stand at 0.
pub open spec fn position(b: u32) -> int {
    if b < 0x8000_0000 {
        b as int
    } else {
        0x8000_0000 - b
    }
}

/// `a < b` as floats.
pub open spec fn precedes(a: u32, b: u32) -> bool {
    !is_nan(a) && !is_nan(b) && position(a) < position(b)
}

/// `a <= b` as floats.
pub open spec fn at_most(a: u32, b: u32) -> bool {
    !is_nan(a) && !is_nan(b) && position(a) <= position(b)
}

/// Place of a pattern in the total order of all patterns: negative NaNs,
/// negative numbers, the negative zero, the positive zero, positive numbers,
/// positive NaNs.
pub open spec fn rank(b: u32) -> int {
    if b < 0x8000_0000 {
        b as int
    } else {
        0x7fff_ffff - b
    }
}

/// Place of a double-precision pattern in the total order of its kind.
pub open spec fn rank_double(b: u64) -> int {
    if b < 0x8000_0000_0000_0000 {
        b as int
    } else {
        0x7fff_ffff_ffff_ffff - b
    }
}

/// `a < b` as floats.
pub fn less(a: u32, b: u32) -> (r: bool)
    ensures
        r == precedes(a, b),
{
    if nan(a) || nan(b) {
        false
    } else {
        place(a) < place(b)
    }
}

/// `a <= b` as floats.
pub fn less_eq(a: u32, b: u32) -> (r: bool)
    ensures
        r == at_most(a, b),
{
    if nan(a) || nan(b) {
        false
    } else {
        place(a) <= place(b)
    }
}

/// Rank of a pattern in the total order.
pub fn total_rank(b: u32) -> (r: i64)
    ensures
        r == rank(b),
{
    if b < 0x8000_0000 {
        b as i64
    } else {
        0x7fff_ffffi64 - b as i64
    }
}

/// Rank of a double-precision pattern in the total order.
pub fn total_rank_double(b: u64) -> (r: i128)
    ensures
        r == rank_double(b),
{
    if b < 0x8000_0000_0000_0000 {
        b as i128
    } else {
        0x7fff_ffff_ffff_ffffi128 - b as i128
    }
}

fn nan(b: u32) -> (r: bool)
    ensures
        r == is_nan(b),
{
    (b > 0x7f80_0000 && b < 0x8000_0000) || b > 0xff80_0000
}

fn place(b: u32) -> (r: i64)
    ensures
        r == position(b),
{
    if b < 0x8000_0000 {
        b as i64
    } else {
        0x8000_0000i64 - b as i64
    }
}

/// The total order tells any two patterns apart.
pub proof fn law_rank_is_injective(a: u32, b: u32)
    ensures
        rank(a) == rank(b) ==> a == b,
{
}

/// On numbers the total order refines `<`: it only adds an order between the
/// two zeros.
pub proof fn law_rank_refines_precedes(a: u32, b: u32)
    requires
        !is_nan(a),
        !is_nan(b),
    ensures
        precedes(a, b) ==> rank(a) < rank(b),
        rank(a) <= rank(b) ==> at_most(a, b),
        at_most(a, b) == !precedes(b, a),
{
}

/// The number that a finite pattern stands for, in units of the smallest
/// positive number: by its sign, its exponent and its mantissa.
pub open spec fn units(b: u32) -> int {
    let exponent = b as int / 0x80_0000 % 256;
    let mantissa = b as int % 0x80_0000;
    let size = if exponent == 0 {
        mantissa
    } else {
        (0x80_0000 + mantissa) * pow2((exponent - 1) as nat)
    };
    if b >= 0x8000_0000 {
        -size
    } else {
        size
    }
}

/// A pattern is finite if its exponent is not the last one, and a NaN if it
/// is and the mantissa is not 0.
pub proof fn law_nans_have_the_last_exponent(b: u32)
    ensures
        is_nan(b) <==> b as int / 0x80_0000 % 256 == 255 && b as int % 0x80_0000 != 0,
{
}

/// Finite patterns compare as the numbers that they stand for.
pub proof fn law_finite_patterns_compare_by_value(a: u32, b: u32)
    requires
        a as int / 0x80_0000 % 256 != 255,
        b as int / 0x80_0000 % 256 != 255,
    ensures
        precedes(a, b) <==> units(a) < units(b),
        at_most(a, b) <==> units(a) <= units(b),
{
    let ma = if a < 0x8000_0000 { a } else { (a - 0x8000_0000) as u32 };
    let mb = if b < 0x8000_0000 { b } else { (b - 0x8000_0000) as u32 };
    assert(a as int % 0x80_0000 == ma as int % 0x80_0000 && a as int / 0x80_0000 % 256 == ma as int / 0x80_0000);
    assert(b as int % 0x80_0000 == mb as int % 0x80_0000 && b as int / 0x80_0000 % 256 == mb as int / 0x80_0000);
    lemma_units(ma);
    lemma_units(mb);
    if ma < mb {
        lemma_units_ascend(ma, mb);
    }
    if mb < ma {
        lemma_units_ascend(mb, ma);
    }
}

proof fn lemma_units(m: u32)
    requires
        m < 0x8000_0000,
    ensures
        units(m) >= 0,
        units(m) == 0 <==> m == 0,
{
    let e = m as int / 0x80_0000;
    assert(e % 256 == e);
    if e > 0 {
        lemma_pow2_pos((e - 1) as nat);
        let f = m as int % 0x80_0000;
        let p = pow2((e - 1) as nat) as int;
        assert((0x80_0000 + f) * p > 0) by (nonlinear_arith)
            requires
                f >= 0,
                p > 0,
        ;
    }
}

proof fn lemma_units_ascend(a: u32, b: u32)
    requires
        a < b < 0x8000_0000,
    ensures
        units(a) < units(b),
{
    let (ea, eb) = (a as int / 0x80_0000, b as int / 0x80_0000);
    let (fa, fb) = (a as int % 0x80_0000, b as int % 0x80_0000);
    assert(ea % 256 == ea && eb % 256 == eb);
    assert(ea <= eb);
    if ea == eb {
        assert(fa < fb);
        if ea > 0 {
            lemma_pow2_pos((ea - 1) as nat);
            let p = pow2((ea - 1) as nat) as int;
            assert((0x80_0000 + fa) * p < (0x80_0000 + fb) * p) by (nonlinear_arith)
                requires
                    fa < fb,
                    p > 0,
            ;
        }
    } else {
        let q = pow2((eb - 1) as nat) as int;
        lemma_pow2_pos((eb - 1) as nat);
        assert((0x80_0000 + fb) * q >= 0x80_0000 * q) by (nonlinear_arith)
            requires
                fb >= 0,
                q > 0,
        ;
        if ea == 0 {
            assert(0x80_0000 * q >= 0x80_0000) by (nonlinear_arith)
                requires
                    q >= 1,
            ;
        } else {
            let p = pow2((ea - 1) as nat) as int;
            lemma_pow2_pos((ea - 1) as nat);
            lemma_pow2_unfold(ea as nat);
            if ea < eb - 1 {
                lemma_pow2_strictly_increases(ea as nat, (eb - 1) as nat);
            }
            assert(2 * p <= q);
            assert((0x80_0000 + fa) * p < 0x80_0000 * q) by (nonlinear_arith)
                requires
                    0 <= fa < 0x80_0000,
                    p > 0,
                    2 * p <= q,
            ;
        }
    }
}

/// Infinity is above all finite numbers, and its negative below.
pub proof fn law_infinities_are_at_the_ends(b: u32)
    requires
        b as int / 0x80_0000 % 256 != 255,
    ensures
        precedes(b, 0x7f80_0000),
        precedes(0xff80_0000, b),
        precedes(0xff80_0000, 0x7f80_0000),
{
}

/// A NaN compares with nothing; all else compares one way or the other.
pub proof fn law_numbers_compare_and_nans_do_not(a: u32, b: u32)
    ensures
        is_nan(a) || is_nan(b) ==> !precedes(a, b) && !at_most(a, b),
        !is_nan(a) && !is_nan(b) ==> (at_most(a, b) <==> !precedes(b, a)),
        precedes(a, b) <==> at_most(a, b) && !at_most(b, a),
{
}

/// The total order puts patterns with a sign before those without, orders
/// these as integers, and the others the opposite way.
pub proof fn law_total_order_goes_by_sign_and_size(a: u32, b: u32)
    ensures
        a >= 0x8000_0000 && b < 0x8000_0000 ==> rank(a) < rank(b),
        a < 0x8000_0000 && b < 0x8000_0000 ==> (rank(a) < rank(b) <==> a < b),
        a >= 0x8000_0000 && b >= 0x8000_0000 ==> (rank(a) < rank(b) <==> b < a),
        rank(a) == rank(b) <==> a == b,
{
}

/// The same holds of double-precision patterns.
pub proof fn law_double_order_goes_by_sign_and_size(a: u64, b: u64)
    ensures
        a >= 0x8000_0000_0000_0000 && b < 0x8000_0000_0000_0000 ==> rank_double(a) < rank_double(b),
        a < 0x8000_0000_0000_0000 && b < 0x8000_0000_0000_0000 ==> (rank_double(a) < rank_double(b) <==> a < b),
        a >= 0x8000_0000_0000_0000 && b >= 0x8000_0000_0000_0000 ==> (rank_double(a) < rank_double(b) <==> b < a),
        rank_double(a) == rank_double(b) <==> a == b,
{
}

} // verus!
