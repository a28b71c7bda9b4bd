//! Two's complement reduction of mathematical integers to `i32`.
use vstd::prelude::*;
use vstd::arithmetic::div_mod::{lemma_add_mod_noop, lemma_mul_mod_noop_left};

verus! {

/// Number of distinct `i32` values.
pub open spec fn modulus() -> int {
    0x1_0000_0000
}

/// The `i32` congruent to `x` modulo 2^32: what fixed-width wrapping
/// arithmetic yields for an exact result `x`.
pub open spec fn wrap_i32(x: int) -> i32 {
    let r = x % modulus();
    if r > i32::MAX {
        (r - modulus()) as i32
    } else {
        r as i32
    }
}

/// Wrapping keeps the residue modulo 2^32.
pub proof fn lemma_wrap_congruent(x: int)
    ensures
        wrap_i32(x) as int % modulus() == x % modulus(),
{
    let r = x % modulus();
    assert(0 <= r < modulus());
    if r > i32::MAX {
        assert((r - modulus()) % modulus() == r % modulus()) by {
            vstd::arithmetic::div_mod::lemma_mod_sub_multiples_vanish(r, modulus());
        }
    }
    vstd::arithmetic::div_mod::lemma_mod_twice(x, modulus());
}

/// Values with the same residue wrap to the same `i32`.
pub proof fn lemma_wrap_same_residue(x: int, y: int)
    requires
        x % modulus() == y % modulus(),
    ensures
        wrap_i32(x) == wrap_i32(y),
{
}

/// A value already in range is left as it is.
pub proof fn lemma_wrap_in_range(x: int)
    requires
        i32::MIN <= x <= i32::MAX,
    ensures
        wrap_i32(x) == x,
{
    if x >= 0 {
        vstd::arithmetic::div_mod::lemma_small_mod(x as nat, modulus() as nat);
    } else {
        assert((x + modulus()) % modulus() == x % modulus()) by {
            vstd::arithmetic::div_mod::lemma_mod_add_multiples_vanish(x, modulus());
        }
        vstd::arithmetic::div_mod::lemma_small_mod((x + modulus()) as nat, modulus() as nat);
    }
}

/// One step of reading a decimal numeral with wrapping arithmetic:
/// wrapping after every step agrees with wrapping once at the end.
pub proof fn lemma_wrap_decimal_step(v: int, d: int)
    ensures
        wrap_i32(wrap_i32(wrap_i32(v) * 10) + d) == wrap_i32(v * 10 + d),
{
    let w = wrap_i32(v) as int;
    lemma_wrap_congruent(v);
    lemma_wrap_congruent(w * 10);
    lemma_mul_mod_noop_left(w, 10, modulus());
    lemma_mul_mod_noop_left(v, 10, modulus());
    lemma_add_mod_noop(wrap_i32(w * 10) as int, d, modulus());
    lemma_add_mod_noop(v * 10, d, modulus());
    lemma_wrap_same_residue(wrap_i32(w * 10) + d, v * 10 + d);
}

/// `wrapping_add` yields the wrapped exact sum.
pub proof fn lemma_wrapping_add(a: i32, b: i32)
    ensures
        a.wrapping_add(b) == wrap_i32(a + b),
{
    let x = a + b;
    if x > i32::MAX {
        lemma_wrap_in_range(x - modulus());
        lemma_wrap_same_residue(x - modulus(), x);
        vstd::arithmetic::div_mod::lemma_mod_sub_multiples_vanish(x, modulus());
    } else if x < i32::MIN {
        lemma_wrap_in_range(x + modulus());
        lemma_wrap_same_residue(x + modulus(), x);
        vstd::arithmetic::div_mod::lemma_mod_add_multiples_vanish(x, modulus());
    } else {
        lemma_wrap_in_range(x);
    }
}

/// `wrapping_sub` yields the wrapped exact difference.
pub proof fn lemma_wrapping_sub(a: i32, b: i32)
    ensures
        a.wrapping_sub(b) == wrap_i32(a - b),
{
    let x = a - b;
    if x > i32::MAX {
        lemma_wrap_in_range(x - modulus());
        lemma_wrap_same_residue(x - modulus(), x);
        vstd::arithmetic::div_mod::lemma_mod_sub_multiples_vanish(x, modulus());
    } else if x < i32::MIN {
        lemma_wrap_in_range(x + modulus());
        lemma_wrap_same_residue(x + modulus(), x);
        vstd::arithmetic::div_mod::lemma_mod_add_multiples_vanish(x, modulus());
    } else {
        lemma_wrap_in_range(x);
    }
}

/// `wrapping_mul` yields the wrapped exact product.
pub proof fn lemma_wrapping_mul(a: i32, b: i32)
    ensures
        a.wrapping_mul(b) == wrap_i32(a * b),
{
}

pub open spec fn abs(x: int) -> int {
    if x < 0 {
        -x
    } else {
        x
    }
}

/// Quotient of `a` by `b` rounded toward zero.
pub open spec fn truncated_quotient(a: int, b: int) -> int {
    let q = abs(a) / abs(b);
    if (a < 0) == (b < 0) {
        q
    } else {
        -q
    }
}

/// `checked_div` by a nonzero divisor gives the wrapped truncated quotient,
/// except on the one overflowing quotient, whose wrapped value is the
/// dividend itself.
pub proof fn lemma_checked_div(a: i32, b: i32)
    requires
        b != 0,
    ensures
        match a.checked_div(b) {
            Some(q) => q == wrap_i32(truncated_quotient(a as int, b as int)),
            None => wrap_i32(truncated_quotient(a as int, b as int)) == a,
        },
{
    let x = abs(a as int);
    let d = abs(b as int);
    let q = x / d;
    vstd::arithmetic::div_mod::lemma_div_nonincreasing(x, d);
    vstd::arithmetic::div_mod::lemma_div_pos_is_pos(x, d);
    if d >= 2 {
        vstd::arithmetic::div_mod::lemma_div_is_ordered_by_denominator(x, 2, d);
    }
    let t = truncated_quotient(a as int, b as int);
    if i32::MIN <= t <= i32::MAX {
        lemma_wrap_in_range(t);
    } else {
        assert(d == 1);
        assert(t == 0x8000_0000);
        lemma_wrap_same_residue(t, t - modulus());
        vstd::arithmetic::div_mod::lemma_mod_sub_multiples_vanish(t, modulus());
        lemma_wrap_in_range(t - modulus());
    }
}

} // verus!
