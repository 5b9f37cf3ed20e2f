//! Canonical token identities and trade sizing for the USDC -> WETH run
//! on Polygon.

use vstd::prelude::*;
use crate::pool::Address;

verus! {

/// Decimals of the input token: 1 USDC = 10^6 raw units.
pub const USDC_DECIMALS: u8 = 6;

/// Decimals of the output token: 1 WETH = 10^18 raw units.
pub const WETH_DECIMALS: u8 = 18;

/// 10^6, raw units per whole USDC.
pub const USDC_SCALE: u128 = 1_000_000;

/// 10^18, raw units per whole WETH.
pub const WETH_SCALE: u128 = 1_000_000_000_000_000_000;

/// The total input routed by one run, in raw USDC units.
pub const TOTAL_USDC_AMOUNT: u128 = 1_000_000_000_000;

/// How many equal chunks the total input is split into.
pub const NUM_CHUNKS: u64 = 100;

/// USDC on Polygon (native USD Coin).
pub open spec fn spec_usdc_address() -> Address {
    Address { hi: 0x3c499c54, lo: 0x2cEF5E3811e1192ce70d8cC03d5c3359 }
}

/// USDC.e on Polygon (bridged USD Coin), accepted as an equivalent of
/// the input token.
pub open spec fn spec_usdc_e_address() -> Address {
    Address { hi: 0x2791bca1, lo: 0xf2de4661ed88a30c99a7a9449aa84174 }
}

/// WETH on Polygon (wrapped ETH), the output token.
pub open spec fn spec_weth_address() -> Address {
    Address { hi: 0x7ceB23fD, lo: 0x6bC0adD59E62ac25578270cFf1b9f619 }
}

/// USDC on Polygon.
pub fn usdc_address() -> (a: Address)
    ensures
        a == spec_usdc_address(),
{
    Address { hi: 0x3c499c54, lo: 0x2cEF5E3811e1192ce70d8cC03d5c3359 }
}

/// USDC.e on Polygon.
pub fn usdc_e_address() -> (a: Address)
    ensures
        a == spec_usdc_e_address(),
{
    Address { hi: 0x2791bca1, lo: 0xf2de4661ed88a30c99a7a9449aa84174 }
}

/// WETH on Polygon.
pub fn weth_address() -> (a: Address)
    ensures
        a == spec_weth_address(),
{
    Address { hi: 0x7ceB23fD, lo: 0x6bC0adD59E62ac25578270cFf1b9f619 }
}

/// The raw input amount of one chunk: the total divided evenly over the
/// chunks; the remainder of the division is not routed.
pub fn get_chunk_usdc_amount() -> (amount: u128)
    ensures
        amount == TOTAL_USDC_AMOUNT / (NUM_CHUNKS as u128),
{
    TOTAL_USDC_AMOUNT / (NUM_CHUNKS as u128)
}

} // verus!
