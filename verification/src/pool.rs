//! Pool state: one liquidity pool's identity and its two token reserves.
//!
//! A pool is created with its token addresses in canonical order (the
//! numerically smaller address is `token0`) and zero reserves; the caller
//! populates the reserves once from the outside world and the router then
//! mutates them in place through simulated swaps.

use vstd::prelude::*;
use crate::math::{pow128, quote_spec, lemma_quote_bounds};

verus! {

/// A 160-bit on-chain address, split into its 32 high and 128 low bits.
#[derive(Clone, Copy, PartialEq, Eq, Structural, Debug)]
pub struct Address {
    pub hi: u32,
    pub lo: u128,
}

/// The number an address stands for; the canonical token order is by
/// this value.
pub open spec fn addr_val(a: Address) -> int {
    a.hi * pow128() + a.lo
}

/// Numeric comparison of two addresses.
pub fn addr_less(a: Address, b: Address) -> (r: bool)
    ensures
        r == (addr_val(a) < addr_val(b)),
{
    a.hi < b.hi || (a.hi == b.hi && a.lo < b.lo)
}

/// One liquidity pool: its identity and its current (simulated) reserves,
/// in the smallest on-chain unit of each token.
#[derive(Clone, Debug)]
pub struct Pool {
    pub pool_address: Address,
    pub token0_address: Address,
    pub token1_address: Address,
    pub reserve_token0: u128,
    pub reserve_token1: u128,
    pub name: String,
}

/// What a quote against this pool yields: the input side is `token0`'s
/// reserve when `input_is_token0`, `token1`'s otherwise.
pub open spec fn spec_quote(p: Pool, amount_in: int, input_is_token0: bool) -> int {
    if input_is_token0 {
        quote_spec(amount_in, p.reserve_token0 as int, p.reserve_token1 as int)
    } else {
        quote_spec(amount_in, p.reserve_token1 as int, p.reserve_token0 as int)
    }
}

/// The pool after a simulated swap: the input-side reserve grows by the
/// input amount, the output-side reserve shrinks by the quoted output.
pub open spec fn spec_after_swap(p: Pool, amount_in: int, input_is_token0: bool) -> Pool {
    let out = spec_quote(p, amount_in, input_is_token0);
    if input_is_token0 {
        Pool {
            reserve_token0: (p.reserve_token0 + amount_in) as u128,
            reserve_token1: (p.reserve_token1 - out) as u128,
            ..p
        }
    } else {
        Pool {
            reserve_token1: (p.reserve_token1 + amount_in) as u128,
            reserve_token0: (p.reserve_token0 - out) as u128,
            ..p
        }
    }
}

impl Pool {
    /// The construction-time invariant: the token addresses are stored in
    /// canonical (numerically non-decreasing) order.
    pub open spec fn wf(self) -> bool {
        addr_val(self.token0_address) <= addr_val(self.token1_address)
    }

    /// Creates a pool with zero reserves, normalizing the token order so
    /// that the numerically smaller address becomes `token0`.
    pub fn new(
        pool_address: Address,
        token0_address: Address,
        token1_address: Address,
        name: String,
    ) -> (pool: Pool)
        ensures
            pool.wf(),
            pool.pool_address == pool_address,
            pool.name == name,
            pool.reserve_token0 == 0,
            pool.reserve_token1 == 0,
            addr_val(token0_address) < addr_val(token1_address) ==> pool.token0_address
                == token0_address && pool.token1_address == token1_address,
            addr_val(token0_address) >= addr_val(token1_address) ==> pool.token0_address
                == token1_address && pool.token1_address == token0_address,
    {
        let (token0, token1) = if addr_less(token0_address, token1_address) {
            (token0_address, token1_address)
        } else {
            (token1_address, token0_address)
        };
        Pool {
            pool_address,
            token0_address: token0,
            token1_address: token1,
            reserve_token0: 0,
            reserve_token1: 0,
            name,
        }
    }

    /// Replaces both reserves with externally fetched values.  This is the
    /// only way reserves change other than through `mock_swap`.
    pub fn set_reserves(&mut self, reserve0: u128, reserve1: u128)
        ensures
            final(self).reserve_token0 == reserve0,
            final(self).reserve_token1 == reserve1,
            final(self).pool_address == old(self).pool_address,
            final(self).token0_address == old(self).token0_address,
            final(self).token1_address == old(self).token1_address,
            final(self).name == old(self).name,
            old(self).wf() ==> final(self).wf(),
    {
        self.reserve_token0 = reserve0;
        self.reserve_token1 = reserve1;
    }

    /// Quotes a swap against the current reserves without mutating them.
    pub fn get_amount_out(&self, amount_in: u128, input_is_token0: bool) -> (amount_out: u128)
        ensures
            amount_out == spec_quote(*self, amount_in as int, input_is_token0),
    {
        if input_is_token0 {
            crate::math::get_amount_out(amount_in, self.reserve_token0, self.reserve_token1)
        } else {
            crate::math::get_amount_out(amount_in, self.reserve_token1, self.reserve_token0)
        }
    }

    /// Simulates executing the swap: returns the same value a quote would,
    /// and commits the trade to the reserves, so the next quote against
    /// this pool sees the price impact.  Token conservation holds exactly:
    /// the input side gains `amount_in`, the output side loses the
    /// returned amount, which never exceeds the output-side reserve.
    pub fn mock_swap(&mut self, amount_in: u128, input_is_token0: bool) -> (amount_out: u128)
        requires
            input_is_token0 ==> old(self).reserve_token0 + amount_in <= u128::MAX,
            !input_is_token0 ==> old(self).reserve_token1 + amount_in <= u128::MAX,
        ensures
            amount_out == spec_quote(*old(self), amount_in as int, input_is_token0),
            *final(self) == spec_after_swap(*old(self), amount_in as int, input_is_token0),
            input_is_token0 ==> final(self).reserve_token0 == old(self).reserve_token0
                + amount_in && old(self).reserve_token1 == final(self).reserve_token1
                + amount_out,
            !input_is_token0 ==> final(self).reserve_token1 == old(self).reserve_token1
                + amount_in && old(self).reserve_token0 == final(self).reserve_token0
                + amount_out,
            old(self).wf() ==> final(self).wf(),
    {
        let amount_out = self.get_amount_out(amount_in, input_is_token0);
        proof {
            if input_is_token0 {
                lemma_quote_bounds(
                    amount_in as int,
                    self.reserve_token0 as int,
                    self.reserve_token1 as int,
                );
            } else {
                lemma_quote_bounds(
                    amount_in as int,
                    self.reserve_token1 as int,
                    self.reserve_token0 as int,
                );
            }
        }
        if input_is_token0 {
            self.reserve_token0 = self.reserve_token0 + amount_in;
            self.reserve_token1 = self.reserve_token1 - amount_out;
        } else {
            self.reserve_token1 = self.reserve_token1 + amount_in;
            self.reserve_token0 = self.reserve_token0 - amount_out;
        }
        amount_out
    }
}

} // verus!
