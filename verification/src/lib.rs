//! An order-splitting router for constant-product liquidity pools.
//!
//! The library divides a total input amount into equal chunks, greedily
//! assigns each chunk to the pool that currently quotes the best output,
//! and updates an in-memory model of the chosen pool's reserves so that
//! later chunks see the price impact of earlier ones.

pub mod config;
pub mod math;
pub mod pool;
pub mod solver;
