use swap_router::pool::{Address, Pool};

fn addr(n: u128) -> Address {
    Address { hi: 0, lo: n }
}

fn pool_with_reserves(token0: Address, token1: Address, r0: u128, r1: u128) -> Pool {
    let mut pool = Pool::new(addr(0xabc), token0, token1, "test pool".to_string());
    pool.set_reserves(r0, r1);
    pool
}

#[test]
fn test_new_starts_with_zero_reserves() {
    let pool = Pool::new(addr(1), addr(2), addr(3), "empty".to_string());
    assert_eq!(pool.reserve_token0, 0);
    assert_eq!(pool.reserve_token1, 0);
    assert_eq!(pool.name, "empty".to_string());
}

#[test]
fn test_new_normalizes_token_order() {
    let small = addr(5);
    let large = addr(9);

    let in_order = Pool::new(addr(1), small, large, "a".to_string());
    assert_eq!(in_order.token0_address, small);
    assert_eq!(in_order.token1_address, large);

    let reversed = Pool::new(addr(1), large, small, "b".to_string());
    assert_eq!(reversed.token0_address, small);
    assert_eq!(reversed.token1_address, large);
}

#[test]
fn test_new_normalizes_by_high_bits() {
    let low = Address { hi: 1, lo: u128::MAX };
    let high = Address { hi: 2, lo: 0 };
    let pool = Pool::new(addr(1), high, low, "c".to_string());
    assert_eq!(pool.token0_address, low);
    assert_eq!(pool.token1_address, high);
}

#[test]
fn test_get_amount_out_uses_the_right_side() {
    let pool = pool_with_reserves(addr(1), addr(2), 100000, 50000);
    // token0 in: reserves (100000, 50000)
    assert_eq!(
        pool.get_amount_out(1000, true),
        swap_router::math::get_amount_out(1000, 100000, 50000)
    );
    // token1 in: reserves reversed
    assert_eq!(
        pool.get_amount_out(1000, false),
        swap_router::math::get_amount_out(1000, 50000, 100000)
    );
}

#[test]
fn test_mock_swap_conserves_tokens() {
    let mut pool = pool_with_reserves(addr(1), addr(2), 100000, 100000);
    let out = pool.mock_swap(10000, true);
    assert_eq!(out, 9066);
    // Input side grows by exactly the input, output side shrinks by
    // exactly the returned output.
    assert_eq!(pool.reserve_token0, 110000);
    assert_eq!(pool.reserve_token1, 100000 - 9066);
}

#[test]
fn test_mock_swap_token1_side() {
    let mut pool = pool_with_reserves(addr(1), addr(2), 60000, 30000);
    let quoted = pool.get_amount_out(5000, false);
    let out = pool.mock_swap(5000, false);
    assert_eq!(out, quoted);
    assert_eq!(pool.reserve_token1, 35000);
    assert_eq!(pool.reserve_token0, 60000 - out);
}

#[test]
fn test_mock_swap_then_quote_is_worse() {
    // After committing a trade, the same trade quotes no better.
    let mut pool = pool_with_reserves(addr(1), addr(2), 100000, 100000);
    let first = pool.mock_swap(10000, true);
    let second_quote = pool.get_amount_out(10000, true);
    assert!(second_quote <= first);
}

#[test]
fn test_mock_swap_on_empty_pool_moves_nothing() {
    let mut pool = pool_with_reserves(addr(1), addr(2), 0, 0);
    let out = pool.mock_swap(12345, true);
    assert_eq!(out, 0);
    assert_eq!(pool.reserve_token0, 12345);
    assert_eq!(pool.reserve_token1, 0);
}
