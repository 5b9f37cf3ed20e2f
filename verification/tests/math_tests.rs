use swap_router::math::get_amount_out;

#[test]
fn test_get_amount_out_basic() {
    let amount_in: u128 = 1000;
    let reserve_in: u128 = 100000;
    let reserve_out: u128 = 100000;

    let result = get_amount_out(amount_in, reserve_in, reserve_out);

    // 1000 * 997 * 100000 / (100000 * 1000 + 1000 * 997) = 99700000000 / 100997000 = 987
    let expected: u128 = 987;
    assert_eq!(result, expected);
}

#[test]
fn test_get_amount_out_zero_reserves() {
    let amount_in: u128 = 1000;

    assert_eq!(get_amount_out(amount_in, 0, 100000), 0);
    assert_eq!(get_amount_out(amount_in, 100000, 0), 0);
    assert_eq!(get_amount_out(amount_in, 0, 0), 0);
}

#[test]
fn test_get_amount_out_zero_input() {
    let reserve_in: u128 = 100000;
    let reserve_out: u128 = 100000;

    let result = get_amount_out(0, reserve_in, reserve_out);
    assert_eq!(result, 0);
}

#[test]
fn test_get_amount_out_large_numbers() {
    let amount_in: u128 = 1_000_000; // 1M USDC
    let reserve_in: u128 = 10_000_000_000; // 10B USDC
    let reserve_out: u128 = 5_000_000_000; // 5B WETH

    let result = get_amount_out(amount_in, reserve_in, reserve_out);

    assert!(result > 0);
    assert!(result < reserve_out);

    // 1M * 997 * 5B / (10B * 1000 + 1M * 997) ~= 498,551
    assert!(result >= 498_000 && result < 499_000);
}

#[test]
fn test_get_amount_out_golden_vector() {
    // 10000 * 997 * 100000 / (100000 * 1000 + 10000 * 997)
    //   = 997000000000 / 109970000 = 9066 (floor)
    assert_eq!(get_amount_out(10000, 100000, 100000), 9066);
}

#[test]
fn test_get_amount_out_monotonic_in_amount() {
    let mut previous: u128 = 0;
    let mut amount: u128 = 0;
    while amount <= 50000 {
        let quote = get_amount_out(amount, 100000, 100000);
        assert!(quote >= previous);
        previous = quote;
        amount += 2500;
    }
}

#[test]
fn test_get_amount_out_bounded_by_reserve_out() {
    // Even an enormous trade cannot drain the full output reserve.
    let result = get_amount_out(u128::MAX / 2, 1, 12345);
    assert!(result < 12345);
}

#[test]
fn test_get_amount_out_pure() {
    // The primitive is a pure function: identical arguments, identical
    // results, with no hidden state between the calls.
    let first = get_amount_out(7777, 123456, 654321);
    let second = get_amount_out(7777, 123456, 654321);
    assert_eq!(first, second);
}

#[test]
fn test_get_amount_out_wide_intermediates() {
    // Reserves near the 2^112 scale of on-chain accounting: the numerator
    // does not fit in 128 bits, so this exercises the wide arithmetic.
    let big: u128 = 1 << 112;
    let result = get_amount_out(1 << 80, big, big);
    assert!(result > 0);
    assert!(result < big);
    // Close to the fee-discounted input for a tiny trade against deep
    // liquidity: 997/1000 of 2^80, up to price impact.
    let approx: u128 = (1u128 << 80) * 997 / 1000;
    assert!(result <= approx);
    assert!(result > approx - approx / 1000);
}
