//! Rounding a requested byte count up to the nearest power of two.

use vstd::prelude::*;
use vstd::arithmetic::power2::is_pow2;
use crate::err::AllocError;

verus! {

/// The largest power of two that a `usize` can hold.
pub const MAX_POW2: usize = usize::MAX / 2 + 1;

/// Smallest power of two that is at least `v`, reached by doubling `p`.
/// Meaningful for `1 <= p <= 2 * v`; `round_up_spec` starts it at one.
pub open spec fn round_up_from(v: int, p: int) -> int
    decreases 2 * v - p
        when 1 <= p && p <= 2 * v
{
    if p >= v {
        p
    } else {
        round_up_from(v, 2 * p)
    }
}

/// The smallest power of two that is at least `v` (meaningful for `v >= 1`).
pub open spec fn round_up_spec(v: int) -> int {
    round_up_from(v, 1)
}

/// Doubling a power of two yields a power of two.
pub proof fn lemma_pow2_double(p: int)
    requires
        is_pow2(p),
    ensures
        is_pow2(2 * p),
{
    reveal(is_pow2);
}

/// Distinct powers of two are at least a factor of two apart.
pub proof fn lemma_pow2_double_gap(a: int, b: int)
    requires
        is_pow2(a),
        is_pow2(b),
        a < b,
    ensures
        2 * a <= b,
    decreases a,
{
    reveal(is_pow2);
    if a == 1 {
        // b is a power of two above 1, hence even and at least 2
    } else {
        lemma_pow2_double_gap(a / 2, b / 2);
    }
}

/// A power of two divides every power of two at least as large.
pub proof fn lemma_pow2_divides(a: int, b: int)
    requires
        is_pow2(a),
        is_pow2(b),
        a <= b,
    ensures
        b % a == 0,
    decreases a,
{
    reveal(is_pow2);
    if a == 1 {
        assert(b % 1 == 0);
    } else {
        lemma_pow2_divides(a / 2, b / 2);
        let h = a / 2;
        let q = (b / 2) / h;
        vstd::arithmetic::div_mod::lemma_fundamental_div_mod(b / 2, h);
        assert(b / 2 == h * q);
        assert(b == 2 * (h * q));
        assert((2 * h) * q == 2 * (h * q)) by (nonlinear_arith);
        assert(b == a * q);
        assert(a * q == q * a) by (nonlinear_arith);
        vstd::arithmetic::div_mod::lemma_fundamental_div_mod_converse_mod(b, a, q, 0);
    }
}

/// In the half-open interval `[v, 2v)` there is at most one power of two.
pub proof fn lemma_pow2_unique_in_range(a: int, b: int, v: int)
    requires
        1 <= v,
        is_pow2(a),
        is_pow2(b),
        v <= a < 2 * v,
        v <= b < 2 * v,
    ensures
        a == b,
{
    if a < b {
        lemma_pow2_double_gap(a, b);
    }
    if b < a {
        lemma_pow2_double_gap(b, a);
    }
}

/// `round_up_from(v, p)` is the power of two the allocator rounds to:
/// itself a power of two, at least `v`, and below `2 * v`.
pub proof fn lemma_round_up_from_props(v: int, p: int)
    requires
        1 <= p,
        p <= 2 * v - 1,
        is_pow2(p),
    ensures
        is_pow2(round_up_from(v, p)),
        v <= round_up_from(v, p) <= 2 * v - 1,
        p <= round_up_from(v, p),
    decreases 2 * v - p,
{
    if p >= v {
    } else {
        lemma_pow2_double(p);
        lemma_round_up_from_props(v, 2 * p);
    }
}

/// The properties of `round_up_spec` that every caller needs.
pub proof fn lemma_round_up_spec_props(v: int)
    requires
        1 <= v,
    ensures
        is_pow2(round_up_spec(v)),
        v <= round_up_spec(v) <= 2 * v - 1,
        (is_pow2(v) ==> round_up_spec(v) == v),
{
    reveal(is_pow2);
    assert(is_pow2(1));
    lemma_round_up_from_props(v, 1);
    if is_pow2(v) {
        lemma_pow2_unique_in_range(round_up_spec(v), v, v);
    }
}

/// Rounds `v` up to the nearest power of two.
///
/// Fails with `OutOfRange` when no representable power of two is large
/// enough; a request of zero bytes is likewise rejected as out of range,
/// since no rounding result is defined for it.
pub fn round_up_to_nearest_pow2(v: usize) -> (r: Result<usize, AllocError>)
    ensures
        r is Ok <==> 1 <= v <= MAX_POW2,
        (r matches Ok(p) ==> {
            &&& p == round_up_spec(v as int)
            &&& is_pow2(p as int)
            &&& v <= p < 2 * (v as int)
            &&& (is_pow2(v as int) ==> p == v)
        }),
        (r is Err ==> r == Err::<usize, AllocError>(AllocError::OutOfRange)),
{
    if v == 0 || v > MAX_POW2 {
        return Err(AllocError::OutOfRange);
    }
    proof {
        lemma_round_up_spec_props(v as int);
        reveal(is_pow2);
        assert(is_pow2(1));
    }
    let mut p: usize = 1;
    while p < v
        invariant
            1 <= v <= MAX_POW2,
            1 <= p <= 2 * (v as int) - 1,
            is_pow2(p as int),
            round_up_from(v as int, p as int) == round_up_spec(v as int),
        decreases 2 * (v as int) - p,
    {
        proof {
            lemma_pow2_double(p as int);
        }
        p = p * 2;
    }
    proof {
        lemma_round_up_spec_props(v as int);
        lemma_pow2_unique_in_range(p as int, round_up_spec(v as int), v as int);
    }
    Ok(p)
}

/// Runtime test matching the `is_pow2` specification; unverified callers use
/// it to validate an alignment before asking for memory.
pub fn is_power_of_two(x: usize) -> (b: bool)
    ensures
        b == is_pow2(x as int),
{
    proof {
        reveal(is_pow2);
    }
    if x == 0 {
        return false;
    }
    let mut y = x;
    while y > 1
        invariant
            1 <= y,
            is_pow2(x as int) == is_pow2(y as int),
        decreases y,
    {
        proof {
            reveal(is_pow2);
        }
        if y % 2 != 0 {
            return false;
        }
        y = y / 2;
    }
    proof {
        reveal(is_pow2);
    }
    true
}

} // verus!
