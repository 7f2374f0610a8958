//! Orders of floating-point numbers, read off their bit patterns.
//!
//! A `u32` stands for a single-precision number and a `u64` for a
//! double-precision one. Two orders matter: the partial order of the comparison
//! operators, in which the zeros are equal and nothing compares with a NaN, and
//! the total order that also ranks the zeros and the NaNs.

use vstd::arithmetic::div_mod::{
    lemma_div_pos_is_pos, lemma_fundamental_div_mod, lemma_fundamental_div_mod_converse,
    lemma_mod_bound,
};
use vstd::arithmetic::power2::{lemma_pow2_pos, lemma_pow2_unfold, pow2};
use vstd::prelude::*;

verus! {

/// The sign bit of a single-precision pattern, as a number.
pub const SIGN: u32 = 0x8000_0000;

/// The pattern of positive infinity. Every pattern above it, sign aside, is a NaN.
pub const INFINITY: u32 = 0x7f80_0000;

/// The pattern of the largest finite number.
pub const MAX: u32 = 0x7f7f_ffff;

/// The pattern without its sign bit.
pub open spec fn magnitude(a: u32) -> int {
    if a < SIGN {
        a as int
    } else {
        a - SIGN
    }
}

/// Whether the pattern is that of a NaN.
pub open spec fn nan(a: u32) -> bool {
    magnitude(a) > INFINITY
}

/// The place of a number among the numbers; both zeros have the same place.
pub open spec fn place(a: u32) -> int {
    if a < SIGN {
        a as int
    } else {
        SIGN - a
    }
}

/// The place of a pattern in the total order: negative NaNs, negative numbers,
/// the negative zero, the positive zero, positive numbers, positive NaNs.
pub open spec fn rank(a: u32) -> int {
    if a < SIGN {
        a as int
    } else {
        SIGN - a - 1
    }
}

/// `a < b` on numbers.
pub open spec fn below(a: u32, b: u32) -> bool {
    !nan(a) && !nan(b) && place(a) < place(b)
}

/// `a <= b` on numbers.
pub open spec fn at_most(a: u32, b: u32) -> bool {
    !nan(a) && !nan(b) && place(a) <= place(b)
}

/// The pattern of the number with its sign flipped.
pub open spec fn negated(a: u32) -> u32 {
    if a < SIGN {
        (a + SIGN) as u32
    } else {
        (a - SIGN) as u32
    }
}

/// Whether `a` is a NaN.
pub fn is_nan(a: u32) -> (r: bool)
    ensures
        r == nan(a),
{
    if a < SIGN {
        a > INFINITY
    } else {
        a - SIGN > INFINITY
    }
}

/// `a < b`.
pub fn lt(a: u32, b: u32) -> (r: bool)
    ensures
        r == below(a, b),
{
    if is_nan(a) || is_nan(b) {
        false
    } else if a < SIGN {
        b < SIGN && a < b
    } else if b < SIGN {
        a > SIGN || b > 0
    } else {
        b < a
    }
}

/// `a <= b`.
pub fn le(a: u32, b: u32) -> (r: bool)
    ensures
        r == at_most(a, b),
{
    if is_nan(a) || is_nan(b) {
        false
    } else {
        !lt(b, a)
    }
}

/// Whether `a` comes before `b` in the total order.
pub fn ranked_before(a: u32, b: u32) -> (r: bool)
    ensures
        r == (rank(a) < rank(b)),
{
    if a < SIGN {
        b < SIGN && a < b
    } else if b < SIGN {
        true
    } else {
        b < a
    }
}

/// The number with its sign flipped.
pub fn negate(a: u32) -> (r: u32)
    ensures
        r == negated(a),
{
    if a < SIGN {
        a + SIGN
    } else {
        a - SIGN
    }
}

/// Flipping the sign twice changes nothing, and flipping it once reverses both
/// orders.
pub proof fn law_negation(a: u32, b: u32)
    ensures
        negated(negated(a)) == a,
        nan(negated(a)) == nan(a),
        below(negated(a), negated(b)) == below(b, a),
        (rank(negated(a)) < rank(negated(b))) == (rank(b) < rank(a)),
{
}

/// The total order tells patterns apart, and agrees with the comparison operators:
/// whatever is below comes before, and among numbers whatever comes before is at
/// most as large.
pub proof fn law_orders_agree(a: u32, b: u32)
    ensures
        rank(a) == rank(b) ==> a == b,
        below(a, b) ==> rank(a) < rank(b),
        !nan(a) && !nan(b) && rank(a) <= rank(b) ==> at_most(a, b),
{
}

// ------------------------------------------------------------ double precision

/// The sign bit of a double-precision pattern, as a number.
pub const WIDE_SIGN: u64 = 0x8000_0000_0000_0000;

/// The double-precision pattern of positive infinity.
pub const WIDE_INFINITY: u64 = 0x7ff0_0000_0000_0000;

/// Whether the pattern is that of a NaN.
pub open spec fn wide_nan(a: u64) -> bool {
    (if a < WIDE_SIGN {
        a as int
    } else {
        a - WIDE_SIGN
    }) > WIDE_INFINITY
}

/// The place of a number among the numbers; both zeros have the same place.
pub open spec fn wide_place(a: u64) -> int {
    if a < WIDE_SIGN {
        a as int
    } else {
        WIDE_SIGN - a
    }
}

/// `a < b` on numbers.
pub open spec fn wide_below(a: u64, b: u64) -> bool {
    !wide_nan(a) && !wide_nan(b) && wide_place(a) < wide_place(b)
}

/// `a <= b` on numbers.
pub open spec fn wide_at_most(a: u64, b: u64) -> bool {
    !wide_nan(a) && !wide_nan(b) && wide_place(a) <= wide_place(b)
}

/// `a == b` on numbers.
pub open spec fn wide_same(a: u64, b: u64) -> bool {
    !wide_nan(a) && !wide_nan(b) && wide_place(a) == wide_place(b)
}

fn is_wide_nan(a: u64) -> (r: bool)
    ensures
        r == wide_nan(a),
{
    if a < WIDE_SIGN {
        a > WIDE_INFINITY
    } else {
        a - WIDE_SIGN > WIDE_INFINITY
    }
}

/// `a < b`.
pub fn wide_lt(a: u64, b: u64) -> (r: bool)
    ensures
        r == wide_below(a, b),
{
    if is_wide_nan(a) || is_wide_nan(b) {
        false
    } else if a < WIDE_SIGN {
        b < WIDE_SIGN && a < b
    } else if b < WIDE_SIGN {
        a > WIDE_SIGN || b > 0
    } else {
        b < a
    }
}

/// `a <= b`.
pub fn wide_le(a: u64, b: u64) -> (r: bool)
    ensures
        r == wide_at_most(a, b),
{
    if is_wide_nan(a) || is_wide_nan(b) {
        false
    } else {
        !wide_lt(b, a)
    }
}

/// `a == b`.
pub fn wide_eq(a: u64, b: u64) -> (r: bool)
    ensures
        r == wide_same(a, b),
{
    wide_le(a, b) && wide_le(b, a)
}

// ------------------------------------------------------------ what patterns stand for

/// What a pattern without its sign bit stands for, as a multiple of the smallest positive number:
/// a fraction of `one` parts, and an exponent above it.
pub open spec fn amount(pattern: int, one: int) -> int {
    let fraction = pattern % one;
    let exponent = pattern / one;
    if exponent == 0 {
        fraction
    } else {
        (one + fraction) * pow2((exponent - 1) as nat)
    }
}

/// The number that a single-precision pattern stands for, as a multiple of the smallest positive
/// one. Infinity stands for more than any other number.
pub open spec fn number(a: u32) -> int {
    if a / 0x8000_0000 == 0 {
        amount(a as int % 0x8000_0000, 0x80_0000)
    } else {
        -amount(a as int % 0x8000_0000, 0x80_0000)
    }
}

/// The number that a double-precision pattern stands for, as a multiple of the smallest positive
/// one. Infinity stands for more than any other number.
pub open spec fn wide_number(a: u64) -> int {
    if a / 0x8000_0000_0000_0000 == 0 {
        amount(a as int % 0x8000_0000_0000_0000, 0x10_0000_0000_0000)
    } else {
        -amount(a as int % 0x8000_0000_0000_0000, 0x10_0000_0000_0000)
    }
}

/// A pattern that is greater by one stands for more.
proof fn lemma_amount_next(pattern: int, one: int)
    requires
        pattern >= 0,
        one > 1,
    ensures
        0 <= amount(pattern, one) < amount(pattern + 1, one),
{
    let f = pattern % one;
    let e = pattern / one;
    lemma_fundamental_div_mod(pattern, one);
    lemma_mod_bound(pattern, one);
    lemma_div_pos_is_pos(pattern, one);
    if f + 1 < one {
        lemma_fundamental_div_mod_converse(pattern + 1, one, e, f + 1);
        if e > 0 {
            let p = pow2((e - 1) as nat) as int;
            lemma_pow2_pos((e - 1) as nat);
            assert(0 <= (one + f) * p < (one + f + 1) * p) by (nonlinear_arith)
                requires
                    p > 0,
                    one + f >= 0,
            ;
        }
    } else {
        assert(pattern + 1 == (e + 1) * one + 0) by (nonlinear_arith)
            requires
                pattern == one * e + f,
                f + 1 == one,
        ;
        lemma_fundamental_div_mod_converse(pattern + 1, one, e + 1, 0);
        let q = pow2(e as nat) as int;
        lemma_pow2_pos(e as nat);
        if e > 0 {
            let p = pow2((e - 1) as nat) as int;
            lemma_pow2_pos((e - 1) as nat);
            lemma_pow2_unfold(e as nat);
            assert(0 <= (one + f) * p < (one + 0) * q) by (nonlinear_arith)
                requires
                    p > 0,
                    q == 2 * p,
                    f + 1 == one,
                    one > 1,
            ;
        } else {
            assert(f < (one + 0) * q) by (nonlinear_arith)
                requires
                    q > 0,
                    f + 1 == one,
                    one > 1,
            ;
        }
    }
}

/// A greater pattern stands for more.
proof fn lemma_amount_more(a: int, b: int, one: int)
    requires
        0 <= a <= b,
        one > 1,
    ensures
        0 <= amount(a, one) <= amount(b, one),
        a < b ==> amount(a, one) < amount(b, one),
        a > 0 ==> amount(a, one) > 0,
    decreases b - a,
{
    lemma_amount_next(a, one);
    if a > 0 {
        lemma_amount_next(a - 1, one);
    }
    if a < b {
        lemma_amount_more(a + 1, b, one);
    }
}

/// Comparing patterns is comparing the numbers that they stand for: `0.0` and `-0.0` stand for
/// the same one, and a pattern whose exponent is all ones and whose fraction is not zero stands
/// for none and compares with nothing. Flipping the sign gives the opposite number.
pub proof fn law_patterns_compare_as_numbers(a: u32, b: u32)
    ensures
        nan(a) == ((a / 0x80_0000) % 0x100 == 0xff && a % 0x80_0000 != 0),
        nan(a) || nan(b) ==> !below(a, b) && !at_most(a, b),
        !nan(a) && !nan(b) ==> below(a, b) == (number(a) < number(b)) && at_most(a, b) == (
        number(a) <= number(b)),
        number(negated(a)) == -number(a),
{
    lemma_number(a);
    lemma_number(b);
    lemma_number(negated(a));
    let x = place(a);
    let y = place(b);
    lemma_number_order(x, y, 0x80_0000);
    assert(place(negated(a)) == -place(a));
}

/// Comparing double-precision patterns is comparing the numbers that they stand for.
pub proof fn law_wide_patterns_compare_as_numbers(a: u64, b: u64)
    ensures
        wide_nan(a) == ((a / 0x10_0000_0000_0000) % 0x800 == 0x7ff && a % 0x10_0000_0000_0000 != 0),
        wide_nan(a) || wide_nan(b) ==> !wide_below(a, b) && !wide_at_most(a, b) && !wide_same(a, b),
        !wide_nan(a) && !wide_nan(b) ==> wide_below(a, b) == (wide_number(a) < wide_number(b))
            && wide_at_most(a, b) == (wide_number(a) <= wide_number(b)) && wide_same(a, b) == (
        wide_number(a) == wide_number(b)),
{
    lemma_number_order(wide_place(a), wide_place(b), 0x10_0000_0000_0000);
    assert(wide_number(a) == signed(wide_place(a), 0x10_0000_0000_0000));
    assert(wide_number(b) == signed(wide_place(b), 0x10_0000_0000_0000));
}

/// The number that stands at a place among the numbers.
spec fn signed(x: int, one: int) -> int {
    if x >= 0 {
        amount(x, one)
    } else {
        -amount(-x, one)
    }
}

proof fn lemma_number(a: u32)
    ensures
        number(a) == signed(place(a), 0x80_0000),
{
    assert(amount(0, 0x80_0000) == 0);
}

/// Numbers are in the order of their places.
proof fn lemma_number_order(x: int, y: int, one: int)
    requires
        one > 1,
    ensures
        (signed(x, one) < signed(y, one)) == (x < y),
        (signed(x, one) <= signed(y, one)) == (x <= y),
        amount(0, one) == 0,
        signed(-x, one) == -signed(x, one),
{
    assert(0int % one == 0 && 0int / one == 0) by (nonlinear_arith)
        requires
            one > 1,
    ;
    let a = if x < 0 { -x } else { x };
    let b = if y < 0 { -y } else { y };
    lemma_amount_more(0, a, one);
    lemma_amount_more(0, b, one);
    if a <= b {
        lemma_amount_more(a, b, one);
    }
    if b <= a {
        lemma_amount_more(b, a, one);
    }
}

} // verus!
