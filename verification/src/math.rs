//! The constant-product pricing primitive.
//!
//! `get_amount_out` computes `floor(997 * amount_in * reserve_out /
//! (1000 * reserve_in + 997 * amount_in))`: the output of a swap against a
//! constant-product pool that keeps a 0.3% trading fee, with the division
//! truncating toward zero.  Inputs are 128-bit integers, so the numerator
//! needs up to 266 bits; the wide multiplications and the final division
//! are delegated to `alloy`'s fixed-width integers, exactly as a contract
//! on chain would perform them.

use vstd::prelude::*;
use vstd::arithmetic::div_mod::{
    lemma_div_is_ordered, lemma_div_multiples_vanish, lemma_div_of0, lemma_div_pos_is_pos,
    lemma_fundamental_div_mod, lemma_multiply_divide_le, lemma_multiply_divide_lt,
};
use vstd::arithmetic::mul::lemma_mul_inequality;
use alloy::primitives::{U256, U512};

verus! {

/// `2^128`, the weight of the high half of a `Wide` value.
#[verifier::inline]
pub open spec fn pow128() -> int {
    u128::MAX + 1
}

/// `2^256`, one past the largest value a `Wide` can hold.
#[verifier::inline]
spec fn pow256() -> int {
    pow128() * pow128()
}

/// A 256-bit unsigned value split into two 128-bit halves.
#[derive(Clone, Copy, PartialEq, Eq, Structural, Debug)]
struct Wide {
    hi: u128,
    lo: u128,
}

/// The number a `Wide` stands for.
spec fn wide_val(w: Wide) -> int {
    w.hi * pow128() + w.lo
}

/// Relies on `alloy::primitives::U256` (`ruint::Uint`) multiplication:
/// the product of two 128-bit values always fits in 256 bits, and the
/// shift and mask return exactly the two halves of that product.
#[verifier::external_body]
fn mul_wide(a: u128, b: u128) -> (r: Wide)
    ensures
        wide_val(r) == a * b,
{
    let p = U256::from(a) * U256::from(b);
    let hi: u128 = (p >> 128usize).to::<u128>();
    let lo: u128 = (p & U256::from(u128::MAX)).to::<u128>();
    Wide { hi, lo }
}

/// Relies on `alloy::primitives::U512` (`ruint::Uint`) multiplication and
/// floor division: the product of a 256-bit and a 128-bit value fits in
/// 512 bits, and `/` truncates toward zero.
#[verifier::external_body]
fn mul_div_wide(n: Wide, m: u128, d: Wide) -> (r: u128)
    requires
        wide_val(d) > 0,
        wide_val(n) * m / wide_val(d) <= u128::MAX,
    ensures
        r == wide_val(n) * m / wide_val(d),
{
    let nn = (U512::from(n.hi) << 128usize) | U512::from(n.lo);
    let dd = (U512::from(d.hi) << 128usize) | U512::from(d.lo);
    let q: U512 = (nn * U512::from(m)) / dd;
    q.to::<u128>()
}

/// Adds two 256-bit values, carrying between the halves.
fn add_wide(a: Wide, b: Wide) -> (r: Wide)
    requires
        wide_val(a) + wide_val(b) < pow256(),
    ensures
        wide_val(r) == wide_val(a) + wide_val(b),
{
    if a.lo <= u128::MAX - b.lo {
        Wide { hi: a.hi + b.hi, lo: a.lo + b.lo }
    } else {
        Wide { hi: a.hi + b.hi + 1, lo: a.lo - (u128::MAX - b.lo) - 1 }
    }
}

/// What a constant-product pool with a 0.3% fee pays out:
/// `floor(997 * amount_in * reserve_out / (1000 * reserve_in + 997 * amount_in))`,
/// and `0` whenever either reserve is empty.
pub open spec fn quote_spec(amount_in: int, reserve_in: int, reserve_out: int) -> int
    recommends
        0 <= amount_in,
        0 <= reserve_in,
        0 <= reserve_out,
{
    if reserve_in <= 0 || reserve_out <= 0 {
        0
    } else {
        997 * amount_in * reserve_out / (1000 * reserve_in + 997 * amount_in)
    }
}

/// The output amount a swap of `amount_in` would yield against reserves
/// `(reserve_in, reserve_out)`.  Total over all 128-bit inputs: an empty
/// reserve, like a zero input, yields zero rather than an error.
pub fn get_amount_out(amount_in: u128, reserve_in: u128, reserve_out: u128) -> (amount_out: u128)
    ensures
        amount_out == quote_spec(amount_in as int, reserve_in as int, reserve_out as int),
{
    if reserve_in == 0 || reserve_out == 0 {
        return 0;
    }
    let fee = mul_wide(amount_in, 997);
    let base = mul_wide(reserve_in, 1000);
    proof {
        assert(wide_val(fee) + wide_val(base) < pow256()) by (nonlinear_arith)
            requires
                wide_val(fee) == amount_in * 997,
                wide_val(base) == reserve_in * 1000,
                amount_in <= u128::MAX,
                reserve_in <= u128::MAX;
    }
    let den = add_wide(base, fee);
    proof {
        lemma_mul_inequality(wide_val(fee), wide_val(den), reserve_out as int);
        lemma_multiply_divide_le(
            wide_val(fee) * (reserve_out as int),
            wide_val(den),
            reserve_out as int,
        );
    }
    let q: u128 = mul_div_wide(fee, reserve_out, den);
    proof {
        assert(wide_val(fee) * (reserve_out as int) == 997 * (amount_in as int) * (reserve_out as int))
            by (nonlinear_arith)
            requires
                wide_val(fee) == amount_in * 997;
    }
    q
}

/// Any two quotes computed from the same arguments agree: the pricing
/// primitive is a pure function of its inputs.
pub proof fn lemma_quote_deterministic(
    amount_in: int,
    reserve_in: int,
    reserve_out: int,
    q1: int,
    q2: int,
)
    requires
        q1 == quote_spec(amount_in, reserve_in, reserve_out),
        q2 == quote_spec(amount_in, reserve_in, reserve_out),
    ensures
        q1 == q2,
{
}

/// A pool with an empty reserve on either side quotes zero.
pub proof fn lemma_quote_zero_reserves(amount_in: int, reserve: int)
    ensures
        quote_spec(amount_in, 0, reserve) == 0,
        quote_spec(amount_in, reserve, 0) == 0,
{
}

/// A zero input yields zero output, whatever the reserves.
pub proof fn lemma_quote_zero_input(reserve_in: int, reserve_out: int)
    requires
        0 <= reserve_in,
        0 <= reserve_out,
    ensures
        quote_spec(0, reserve_in, reserve_out) == 0,
{
    if reserve_in > 0 && reserve_out > 0 {
        lemma_div_of0(1000 * reserve_in + 997 * 0);
    }
}

/// The quote is non-negative, never exceeds the output reserve, and is
/// strictly below it whenever the trade and both reserves are positive.
pub proof fn lemma_quote_bounds(amount_in: int, reserve_in: int, reserve_out: int)
    requires
        0 <= amount_in,
        0 <= reserve_in,
        0 <= reserve_out,
    ensures
        0 <= quote_spec(amount_in, reserve_in, reserve_out),
        quote_spec(amount_in, reserve_in, reserve_out) <= reserve_out,
        amount_in > 0 && reserve_in > 0 && reserve_out > 0 ==> quote_spec(
            amount_in,
            reserve_in,
            reserve_out,
        ) < reserve_out,
{
    if reserve_in > 0 && reserve_out > 0 {
        let n = 997 * amount_in * reserve_out;
        let d = 1000 * reserve_in + 997 * amount_in;
        assert(0 <= n && 997 * amount_in < d && n <= d * reserve_out) by (nonlinear_arith)
            requires
                0 <= amount_in,
                0 < reserve_in,
                0 < reserve_out,
                n == 997 * amount_in * reserve_out,
                d == 1000 * reserve_in + 997 * amount_in;
        lemma_div_pos_is_pos(n, d);
        lemma_multiply_divide_le(n, d, reserve_out);
        if amount_in > 0 {
            assert(n < d * reserve_out) by (nonlinear_arith)
                requires
                    0 < amount_in,
                    0 < reserve_in,
                    0 < reserve_out,
                    n == 997 * amount_in * reserve_out,
                    d == 1000 * reserve_in + 997 * amount_in;
            lemma_multiply_divide_lt(n, d, reserve_out);
        }
    }
}

/// Floor division respects cross-multiplied ordering: if `n1/d1 <= n2/d2`
/// as exact fractions, the same holds after truncation.
proof fn lemma_div_cross(n1: int, d1: int, n2: int, d2: int)
    requires
        0 <= n1,
        0 < d1,
        0 <= n2,
        0 < d2,
        n1 * d2 <= n2 * d1,
    ensures
        n1 / d1 <= n2 / d2,
{
    let q = n1 / d1;
    lemma_fundamental_div_mod(n1, d1);
    lemma_div_pos_is_pos(n1, d1);
    assert(d1 * q <= n1);
    lemma_mul_inequality(d1 * q, n1, d2);
    assert(d2 * q <= n2) by (nonlinear_arith)
        requires
            (d1 * q) * d2 <= n1 * d2,
            n1 * d2 <= n2 * d1,
            0 < d1,
            0 < d2,
            0 <= q;
    lemma_div_multiples_vanish(q, d2);
    lemma_div_is_ordered(d2 * q, n2, d2);
}

/// The quote is monotonically non-decreasing in the input amount.
pub proof fn lemma_quote_monotonic(a1: int, a2: int, reserve_in: int, reserve_out: int)
    requires
        0 <= a1 <= a2,
        0 <= reserve_in,
        0 <= reserve_out,
    ensures
        quote_spec(a1, reserve_in, reserve_out) <= quote_spec(a2, reserve_in, reserve_out),
{
    if reserve_in > 0 && reserve_out > 0 {
        let n1 = 997 * a1 * reserve_out;
        let d1 = 1000 * reserve_in + 997 * a1;
        let n2 = 997 * a2 * reserve_out;
        let d2 = 1000 * reserve_in + 997 * a2;
        assert(0 <= n1 && 0 < d1 && 0 <= n2 && 0 < d2 && n1 * d2 <= n2 * d1) by (nonlinear_arith)
            requires
                0 <= a1 <= a2,
                0 < reserve_in,
                0 < reserve_out,
                n1 == 997 * a1 * reserve_out,
                d1 == 1000 * reserve_in + 997 * a1,
                n2 == 997 * a2 * reserve_out,
                d2 == 1000 * reserve_in + 997 * a2;
        lemma_div_cross(n1, d1, n2, d2);
    }
}

/// Price impact: once a trade of `amount_in` is applied to a pool, the
/// same trade quoted against the updated reserves pays out no more than
/// it did before.
pub proof fn lemma_price_impact(amount_in: int, reserve_in: int, reserve_out: int)
    requires
        0 < amount_in,
        0 < reserve_in,
        0 < reserve_out,
    ensures
        quote_spec(
            amount_in,
            reserve_in + amount_in,
            reserve_out - quote_spec(amount_in, reserve_in, reserve_out),
        ) <= quote_spec(amount_in, reserve_in, reserve_out),
{
    let q = quote_spec(amount_in, reserve_in, reserve_out);
    lemma_quote_bounds(amount_in, reserve_in, reserve_out);
    if reserve_out - q > 0 {
        let n1 = 997 * amount_in * (reserve_out - q);
        let d1 = 1000 * (reserve_in + amount_in) + 997 * amount_in;
        let n2 = 997 * amount_in * reserve_out;
        let d2 = 1000 * reserve_in + 997 * amount_in;
        assert(0 <= n1 && 0 < d1 && 0 <= n2 && 0 < d2 && n1 * d2 <= n2 * d1) by (nonlinear_arith)
            requires
                0 < amount_in,
                0 < reserve_in,
                0 < reserve_out,
                0 <= q < reserve_out,
                n1 == 997 * amount_in * (reserve_out - q),
                d1 == 1000 * (reserve_in + amount_in) + 997 * amount_in,
                n2 == 997 * amount_in * reserve_out,
                d2 == 1000 * reserve_in + 997 * amount_in;
        lemma_div_cross(n1, d1, n2, d2);
    }
}

} // verus!
