use swap_router::config::{
    get_chunk_usdc_amount, usdc_address, usdc_e_address, weth_address, NUM_CHUNKS,
    TOTAL_USDC_AMOUNT, USDC_SCALE, WETH_SCALE,
};
use swap_router::pool::Pool;

#[test]
fn test_chunk_amount_is_total_over_chunks() {
    assert_eq!(TOTAL_USDC_AMOUNT, 1_000_000_000_000);
    assert_eq!(NUM_CHUNKS, 100);
    assert_eq!(get_chunk_usdc_amount(), 10_000_000_000);
}

#[test]
fn test_scales() {
    assert_eq!(USDC_SCALE, 1_000_000);
    assert_eq!(WETH_SCALE, 1_000_000_000_000_000_000);
}

#[test]
fn test_token_addresses_are_distinct() {
    let usdc = usdc_address();
    let usdc_e = usdc_e_address();
    let weth = weth_address();
    assert_ne!(usdc, usdc_e);
    assert_ne!(usdc, weth);
    assert_ne!(usdc_e, weth);
}

#[test]
fn test_usdc_weth_canonical_order() {
    // On Polygon, USDC (0x3c49...) sorts numerically below WETH
    // (0x7ceB...), so USDC is token0 of their pair.
    let pool = Pool::new(
        swap_router::pool::Address { hi: 0, lo: 1 },
        weth_address(),
        usdc_address(),
        "pair".to_string(),
    );
    assert_eq!(pool.token0_address, usdc_address());
    assert_eq!(pool.token1_address, weth_address());
}

#[test]
fn test_usdc_address_value() {
    // 0x3c499c542cEF5E3811e1192ce70d8cC03d5c3359, split after the top
    // four bytes.
    let usdc = usdc_address();
    assert_eq!(usdc.hi, 0x3c499c54);
    assert_eq!(usdc.lo, 0x2cEF5E3811e1192ce70d8cC03d5c3359);
}
