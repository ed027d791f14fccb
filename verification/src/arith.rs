use vstd::prelude::*;
use vstd::arithmetic::div_mod::{lemma_mod_add_multiples_vanish, lemma_mod_twice, lemma_small_mod};
use vstd::arithmetic::div_mod::{lemma_div_nonincreasing, lemma_div_pos_is_pos};
use vstd::wrapping::i64_specs;

verus! {

/// The two's-complement wrap of an unbounded integer into `i64`.
pub open spec fn wrap(x: int) -> i64 {
    i64_specs::signed_crop(x)
}

/// The quotient of hardware division: truncated toward zero.
pub open spec fn tq(a: int, d: int) -> int
    recommends
        d != 0,
{
    if a == 0 {
        0
    } else if a > 0 && d > 0 {
        a / d
    } else if a < 0 && d < 0 {
        (a * -1) / (d * -1)
    } else if a < 0 {
        ((a * -1) / d) * -1
    } else {
        (a / (d * -1)) * -1
    }
}

/// What dividing an `i64` by a nonzero divisor yields, wrap included
/// (the one wrapping quotient is `i64::MIN / -1`).
pub open spec fn wdiv(a: i64, d: int) -> i64 {
    wrap(tq(a as int, d))
}

pub proof fn lemma_wrap_cases(x: int)
    ensures
        i64::MIN <= x <= i64::MAX ==> wrap(x) == x,
        i64::MAX < x < 0x1_0000_0000_0000_0000 ==> wrap(x) as int == x - 0x1_0000_0000_0000_0000,
        -0x1_0000_0000_0000_0000 < x < i64::MIN ==> wrap(x) as int == x + 0x1_0000_0000_0000_0000,
{
    let m: int = 0x1_0000_0000_0000_0000;
    if 0 <= x < m {
        lemma_small_mod(x as nat, m as nat);
    } else if -m < x < 0 {
        lemma_mod_add_multiples_vanish(x, m);
        lemma_small_mod((x + m) as nat, m as nat);
    }
}

pub proof fn lemma_wrap_mod(x: int)
    ensures
        (wrap(x) as int) % 0x1_0000_0000_0000_0000 == x % 0x1_0000_0000_0000_0000,
{
    let m: int = 0x1_0000_0000_0000_0000;
    lemma_mod_twice(x, m);
    if (x % m) > i64::MAX {
        assert(wrap(x) as int == (x % m) - m);
        lemma_mod_add_multiples_vanish((x % m) - m, m);
    } else {
        assert(wrap(x) as int == x % m);
    }
}

/// Wrapping is a function of the residue alone.
pub proof fn lemma_wrap_congruent(x: int, y: int)
    requires
        x % 0x1_0000_0000_0000_0000 == y % 0x1_0000_0000_0000_0000,
    ensures
        wrap(x) == wrap(y),
{
}

/// Wrapping subtraction on `i64`.
pub fn wsub(a: i64, b: i64) -> (r: i64)
    ensures
        r == wrap(a - b),
{
    proof {
        lemma_wrap_cases(a - b);
    }
    a.wrapping_sub(b)
}

/// Wrapping multiplication on `i64`.
pub fn wmul(a: i64, b: i64) -> (r: i64)
    ensures
        r == wrap(a * b),
{
    a.wrapping_mul(b)
}

pub proof fn lemma_tq_bounds(a: int, d: int)
    requires
        d != 0,
        i64::MIN <= a <= i64::MAX,
    ensures
        -0x8000_0000_0000_0000 <= tq(a, d) <= 0x8000_0000_0000_0000,
{
    if a == 0 {
    } else if a > 0 && d > 0 {
        lemma_div_pos_is_pos(a, d);
        lemma_div_nonincreasing(a, d);
    } else if a < 0 && d < 0 {
        lemma_div_pos_is_pos(a * -1, d * -1);
        lemma_div_nonincreasing(a * -1, d * -1);
    } else if a < 0 {
        lemma_div_pos_is_pos(a * -1, d);
        lemma_div_nonincreasing(a * -1, d);
    } else {
        lemma_div_pos_is_pos(a, d * -1);
        lemma_div_nonincreasing(a, d * -1);
    }
}

/// Wrapping (hardware) division on `i64`: truncated toward zero, with
/// `i64::MIN / -1` wrapping back to `i64::MIN`.
pub fn divw(a: i64, d: i64) -> (r: i64)
    requires
        d != 0,
    ensures
        r == wdiv(a, d as int),
{
    proof {
        lemma_tq_bounds(a as int, d as int);
        lemma_wrap_cases(tq(a as int, d as int));
    }
    match a.checked_div(d) {
        Some(q) => q,
        None => i64::MIN,
    }
}

} // verus!
