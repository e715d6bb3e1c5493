//! End-to-end tests of the AMM core: the factory, the liquidity engine,
//! the swap engine, the invariant checker and the fixed-point layer.

use solana_uniswap_v2::checker::check_non_decreasing;
use solana_uniswap_v2::checker::compute_invariant;
use solana_uniswap_v2::errors::CustomError;
use solana_uniswap_v2::factory::initialize_amm;
use solana_uniswap_v2::liquidity::compute_deposit_amounts;
use solana_uniswap_v2::liquidity::deposit_liquidity;
use solana_uniswap_v2::liquidity::initialize_pool;
use solana_uniswap_v2::liquidity::withdraw_liquidity;
use solana_uniswap_v2::math;
use solana_uniswap_v2::state::Amm;
use solana_uniswap_v2::state::MIN_LIQUIDITY;
use solana_uniswap_v2::state::Pool;
use solana_uniswap_v2::state::Pubkey;
use solana_uniswap_v2::state::pubkey_eq;
use solana_uniswap_v2::swap::swap;

fn key(tag: u8) -> Pubkey {
    Pubkey { bytes: [tag; 32] }
}

fn fresh_amm(fee: u16) -> Amm {
    initialize_amm(key(1), key(2), fee).expect("fee below 10000 must be accepted")
}

fn fresh_pool() -> Pool {
    initialize_pool(key(1), key(3), key(4)).expect("distinct mints must be accepted")
}

#[test]
fn initialize_amm_accepts_valid_fees() {
    let amm = initialize_amm(key(1), key(2), 0).unwrap();
    assert_eq!(amm.fee, 0);
    let amm = initialize_amm(key(1), key(2), 30).unwrap();
    assert_eq!(amm.fee, 30);
    assert!(pubkey_eq(&amm.id, &key(1)));
    assert!(pubkey_eq(&amm.admin, &key(2)));
    let amm = initialize_amm(key(1), key(2), 9999).unwrap();
    assert_eq!(amm.fee, 9999);
}

#[test]
fn initialize_amm_rejects_fee_of_10000_or_more() {
    match initialize_amm(key(1), key(2), 10000) {
        Err(e) => assert_eq!(e, CustomError::InvalidFee),
        Ok(_) => panic!("a fee of 10000 must be rejected"),
    }
    match initialize_amm(key(1), key(2), u16::MAX) {
        Err(e) => assert_eq!(e, CustomError::InvalidFee),
        Ok(_) => panic!("a fee above 10000 must be rejected"),
    }
}

#[test]
fn initialize_pool_rejects_equal_mints() {
    match initialize_pool(key(1), key(3), key(3)) {
        Err(e) => assert_eq!(e, CustomError::InvalidTokenMint),
        Ok(_) => panic!("a pool with one asset twice must be rejected"),
    }
}

#[test]
fn first_deposit_mints_sqrt_shares_and_withholds_minimum() {
    let mut pool = fresh_pool();
    let minted = deposit_liquidity(&mut pool, 1000, 1000).unwrap();
    // floor(sqrt(2000)) == 44 shares, MIN_LIQUIDITY of them withheld
    assert_eq!(minted, 44 - MIN_LIQUIDITY);
    assert_eq!(pool.reserve_a, 1000);
    assert_eq!(pool.reserve_b, 1000);
    assert_eq!(pool.liquidity_supply, 44);
}

#[test]
fn first_deposit_below_minimum_fails_and_changes_nothing() {
    let mut pool = fresh_pool();
    // floor(sqrt(20)) == 4 < MIN_LIQUIDITY
    match deposit_liquidity(&mut pool, 10, 10) {
        Err(e) => assert_eq!(e, CustomError::InsufficientDepositAmount),
        Ok(_) => panic!("a first deposit below the withheld minimum must fail"),
    }
    assert_eq!(pool.reserve_a, 0);
    assert_eq!(pool.reserve_b, 0);
    assert_eq!(pool.liquidity_supply, 0);
}

#[test]
fn first_deposit_with_huge_amount_overflows() {
    let mut pool = fresh_pool();
    match deposit_liquidity(&mut pool, u64::MAX, 1) {
        Err(e) => assert_eq!(e, CustomError::ArithmeticOverflow),
        Ok(_) => panic!("a request beyond the integer bits must fail"),
    }
    assert_eq!(pool.reserve_a, 0);
    assert_eq!(pool.liquidity_supply, 0);
}

#[test]
fn later_deposit_scales_larger_side_up_to_ratio() {
    let mut pool = fresh_pool();
    deposit_liquidity(&mut pool, 2000, 1000).unwrap();
    // reserve_a is double reserve_b, so the A side is recomputed as b * 2
    let minted = deposit_liquidity(&mut pool, 100, 100).unwrap();
    assert_eq!(pool.reserve_a, 2200);
    assert_eq!(pool.reserve_b, 1100);
    // floor(sqrt(200 + 100)) == 17, all of it to the depositor
    assert_eq!(minted, 17);
}

#[test]
fn later_deposit_scales_smaller_side_down_to_ratio() {
    let mut pool = fresh_pool();
    deposit_liquidity(&mut pool, 1000, 2000).unwrap();
    // reserve_b is double reserve_a, so the B side is recomputed as a * 2
    deposit_liquidity(&mut pool, 100, 100).unwrap();
    assert_eq!(pool.reserve_a, 1100);
    assert_eq!(pool.reserve_b, 2200);
}

#[test]
fn deposit_amounts_pass_through_on_first_deposit() {
    assert_eq!(compute_deposit_amounts(0, 0, 123, 456).unwrap(), (123, 456));
}

#[test]
fn withdraw_rounds_a_side_up_and_b_side_down() {
    let mut pool = fresh_pool();
    deposit_liquidity(&mut pool, 1000, 1000).unwrap();
    // supply 44, burn all 34 circulating shares: 34000/44 = 772.72...
    let (wa, wb) = withdraw_liquidity(&mut pool, 44 - MIN_LIQUIDITY).unwrap();
    assert_eq!(wa, 773);
    assert_eq!(wb, 772);
    assert_eq!(pool.reserve_a, 227);
    assert_eq!(pool.reserve_b, 228);
    assert_eq!(pool.liquidity_supply, MIN_LIQUIDITY);
}

#[test]
fn withdraw_cannot_touch_withheld_shares() {
    let mut pool = fresh_pool();
    deposit_liquidity(&mut pool, 1000, 1000).unwrap();
    match withdraw_liquidity(&mut pool, 44 - MIN_LIQUIDITY + 1) {
        Err(e) => assert_eq!(e, CustomError::TransferFailure),
        Ok(_) => panic!("burning into the withheld minimum must fail"),
    }
    assert_eq!(pool.reserve_a, 1000);
    assert_eq!(pool.reserve_b, 1000);
    assert_eq!(pool.liquidity_supply, 44);
}

#[test]
fn withdraw_from_empty_pool_fails() {
    let mut pool = fresh_pool();
    assert_eq!(withdraw_liquidity(&mut pool, 0), Err(CustomError::TransferFailure));
}

#[test]
fn withdraw_then_deposit_round_trip_restores_reserves() {
    let mut pool = fresh_pool();
    // supply becomes floor(sqrt(2500)) == 50, which divides 1250 evenly
    deposit_liquidity(&mut pool, 1250, 1250).unwrap();
    assert_eq!(pool.liquidity_supply, 50);
    let (wa, wb) = withdraw_liquidity(&mut pool, 50 - MIN_LIQUIDITY).unwrap();
    assert_eq!(wa, 1000);
    assert_eq!(wb, 1000);
    assert_eq!(pool.reserve_a, 250);
    assert_eq!(pool.reserve_b, 250);
    deposit_liquidity(&mut pool, wa, wb).unwrap();
    assert_eq!(pool.reserve_a, 1250);
    assert_eq!(pool.reserve_b, 1250);
}

#[test]
fn swap_example_with_30_bps_fee() {
    let amm = fresh_amm(30);
    let mut pool = fresh_pool();
    deposit_liquidity(&mut pool, 10000, 10000).unwrap();
    // effective input 1000 - 3 = 997; output 997*10000/10997 = 906 floored
    let out = swap(&mut pool, &amm, true, 1000, 900, 1000).unwrap();
    assert_eq!(out, 906);
    assert_eq!(pool.reserve_a, 11000);
    assert_eq!(pool.reserve_b, 10000 - 906);
}

#[test]
fn swap_below_minimum_output_fails_and_changes_nothing() {
    let amm = fresh_amm(30);
    let mut pool = fresh_pool();
    deposit_liquidity(&mut pool, 10000, 10000).unwrap();
    match swap(&mut pool, &amm, true, 1000, 950, 1000) {
        Err(e) => assert_eq!(e, CustomError::SwapResultUnderflow),
        Ok(_) => panic!("an output of 906 must not satisfy a minimum of 950"),
    }
    assert_eq!(pool.reserve_a, 10000);
    assert_eq!(pool.reserve_b, 10000);
}

#[test]
fn swap_clamps_input_to_trader_balance() {
    let amm = fresh_amm(30);
    let mut pool = fresh_pool();
    deposit_liquidity(&mut pool, 10000, 10000).unwrap();
    // a request of 5000 backed by a balance of 1000 trades as 1000
    let out = swap(&mut pool, &amm, true, 5000, 0, 1000).unwrap();
    assert_eq!(out, 906);
    assert_eq!(pool.reserve_a, 11000);
}

#[test]
fn swap_works_in_both_directions() {
    let amm = fresh_amm(30);
    let mut pool = fresh_pool();
    deposit_liquidity(&mut pool, 10000, 10000).unwrap();
    let out = swap(&mut pool, &amm, false, 1000, 0, 1000).unwrap();
    assert_eq!(out, 906);
    assert_eq!(pool.reserve_b, 11000);
    assert_eq!(pool.reserve_a, 10000 - 906);
}

#[test]
fn swap_sequence_never_decreases_invariant() {
    let amm = fresh_amm(30);
    let mut pool = fresh_pool();
    deposit_liquidity(&mut pool, 10000, 10000).unwrap();
    let mut previous = compute_invariant(pool.reserve_a, pool.reserve_b);
    let trades = [
        (true, 1000u64),
        (false, 2500u64),
        (true, 123u64),
        (true, 4567u64),
        (false, 1u64),
        (false, 999u64),
    ];
    let mut i = 0;
    while i < trades.len() {
        let (side, amount) = trades[i];
        swap(&mut pool, &amm, side, amount, 0, amount).unwrap();
        let current = compute_invariant(pool.reserve_a, pool.reserve_b);
        assert!(current >= previous);
        previous = current;
        i += 1;
    }
}

#[test]
fn swap_with_zero_fee_can_keep_invariant_exact() {
    let amm = fresh_amm(0);
    let mut pool = fresh_pool();
    deposit_liquidity(&mut pool, 1000, 4000).unwrap();
    // untaxed input of 1000 against (1000, 4000): output 1000*4000/2000 = 2000
    let out = swap(&mut pool, &amm, true, 1000, 0, 1000).unwrap();
    assert_eq!(out, 2000);
    assert_eq!(compute_invariant(pool.reserve_a, pool.reserve_b), 1000 * 4000);
}

#[test]
fn later_deposit_into_one_sided_pool_overflows() {
    let mut pool = fresh_pool();
    // floor(sqrt(100)) == MIN_LIQUIDITY, so the bootstrap just succeeds
    let minted = deposit_liquidity(&mut pool, 100, 0).unwrap();
    assert_eq!(minted, 0);
    // the ratio against an empty B reserve cannot be computed
    match deposit_liquidity(&mut pool, 5, 5) {
        Err(e) => assert_eq!(e, CustomError::ArithmeticOverflow),
        Ok(_) => panic!("a ratio with a zero divisor must fail"),
    }
    assert_eq!(pool.reserve_a, 100);
    assert_eq!(pool.reserve_b, 0);
}

#[test]
fn withdraw_of_zero_shares_moves_nothing() {
    let mut pool = fresh_pool();
    deposit_liquidity(&mut pool, 1000, 1000).unwrap();
    let (wa, wb) = withdraw_liquidity(&mut pool, 0).unwrap();
    assert_eq!((wa, wb), (0, 0));
    assert_eq!(pool.reserve_a, 1000);
    assert_eq!(pool.liquidity_supply, 44);
}

#[test]
fn swap_with_tiny_input_can_keep_invariant_exact_despite_fee() {
    // with an input so small the skim rounds to zero and a division that
    // comes out even, the invariant stays exactly constant even at 30 bps
    let amm = fresh_amm(30);
    let mut pool = fresh_pool();
    deposit_liquidity(&mut pool, 999, 2000).unwrap();
    let out = swap(&mut pool, &amm, true, 1, 0, 1).unwrap();
    assert_eq!(out, 2);
    assert_eq!(compute_invariant(pool.reserve_a, pool.reserve_b), 999 * 2000);
}

#[test]
fn invariant_checker_compares_products() {
    assert_eq!(compute_invariant(3, 5), 15);
    assert_eq!(compute_invariant(u64::MAX, u64::MAX), (u64::MAX as u128) * (u64::MAX as u128));
    assert!(check_non_decreasing(15, 15).is_ok());
    assert!(check_non_decreasing(15, 16).is_ok());
    assert_eq!(check_non_decreasing(16, 15), Err(CustomError::InvariantViolation));
}

#[test]
fn fixed_point_multiplication_and_division_round_down() {
    let six = math::from_u64(6).unwrap();
    let seven = math::from_u64(7).unwrap();
    let p = math::mul(six, seven).unwrap();
    assert_eq!(math::floor_to_u64(p).unwrap(), 42);
    let two = math::from_u64(2).unwrap();
    let q = math::div(seven, two).unwrap();
    assert_eq!(math::floor_to_u64(q).unwrap(), 3);
    assert_eq!(math::ceil_to_u64(q).unwrap(), 4);
    let s = math::add(six, seven).unwrap();
    assert_eq!(math::floor_to_u64(s).unwrap(), 13);
}

#[test]
fn fixed_point_square_root_rounds_down() {
    let n = math::from_u64(2000).unwrap();
    let r = math::sqrt(n).unwrap();
    assert_eq!(math::floor_to_u64(r).unwrap(), 44);
    let exact = math::from_u64(144).unwrap();
    let r = math::sqrt(exact).unwrap();
    assert_eq!(math::floor_to_u64(r).unwrap(), 12);
}

#[test]
fn fixed_point_rejects_out_of_range_operands() {
    assert_eq!(math::from_u64(u64::MAX), Err(CustomError::ArithmeticOverflow));
    assert_eq!(math::from_u64(1u64 << 63), Err(CustomError::ArithmeticOverflow));
    assert!(math::from_u64((1u64 << 63) - 1).is_ok());
    let negative = math::FixedPoint { bits: -1 };
    assert_eq!(math::sqrt(negative), Err(CustomError::InvalidOperand));
    assert_eq!(math::floor_to_u64(negative), Err(CustomError::InvalidOperand));
    assert_eq!(math::ceil_to_u64(negative), Err(CustomError::InvalidOperand));
    let zero = math::from_u64(0).unwrap();
    let one = math::from_u64(1).unwrap();
    assert_eq!(math::div(one, zero), Err(CustomError::ArithmeticOverflow));
}
