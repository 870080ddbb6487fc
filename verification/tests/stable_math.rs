use mini_stabble::math::stable_laws::SOLVER_SLACK;
use mini_stabble::math::stable::{
    calc_in_given_out, calc_invariant, calc_lp_tokens_for_deposit_simple,
    calc_lp_tokens_for_deposit_with_fee, calc_out_given_in, calc_token_out_for_lp_burn,
    calc_tokens_in_proportional, calc_tokens_out_proportional, checked_sum,
    get_token_balance_given_invariant_and_others,
};

#[test]
fn test_calc_invariant_basic() {
    let amp = 5_000_000;
    let balances = vec![40_000_000_000_000_000_u64, 60_000_000_000_000_000_u64];

    let result = calc_invariant(amp, &balances);

    assert!(result.is_some(), "calc_invariant should return Some");

    let d = result.unwrap();
    println!("D = {}", d);

    let expected = 99999583421855646_u64;

    assert_eq!(
        d, expected,
        "D should match reference. Got {}, expected {}",
        d, expected
    );
}

#[test]
fn test_calc_out_given_in() {
    let amp = 5_000_000;
    let balances = vec![894_520_800_000_000_u64, 467_581_800_000_000_u64];

    let invariant = calc_invariant(amp, &balances).unwrap();
    println!("D = {}", invariant);

    let amount_in = 1_000_000_000_000_u64;
    let result = calc_out_given_in(amp, &balances, 0, 1, amount_in);

    println!("calc_out_given_in result: {:?}", result);

    let amount_out = result.unwrap();
    println!("Swapping {} token0 -> {} token1", amount_in, amount_out);

    let expected = 999845351779_u64;
    assert_eq!(
        amount_out, expected,
        "Output should match reference. Got {}, expected {}",
        amount_out, expected
    );
}

#[test]
fn test_calc_out_given_in_smaller_amounts() {
    let amp = 5_000_000;
    let balances = vec![894_520_800_000_000_u64, 467_581_800_000_000_u64];

    let amount_in = 1_000_000_000_u64;
    let amount_out = calc_out_given_in(amp, &balances, 0, 1, amount_in).unwrap();
    println!("1B swap: {} -> {}", amount_in, amount_out);
    assert_eq!(amount_out, 999845869, "1B swap should match reference");

    let amount_in = 1_000_000_u64;
    let amount_out = calc_out_given_in(amp, &balances, 0, 1, amount_in).unwrap();
    println!("1M swap: {} -> {}", amount_in, amount_out);
    assert_eq!(amount_out, 999845, "1M swap should match reference");
}

#[test]
fn test_calc_in_given_out() {
    let amp = 5_000_000;
    let balances = vec![894_520_800_000_000_u64, 467_581_800_000_000_u64];

    let amount_out = 100_000_000_000_u64;
    let result = calc_in_given_out(amp, &balances, 0, 1, amount_out);

    println!("calc_in_given_out result: {:?}", result);

    let amount_in = result.unwrap();
    println!("To get {} token1, need {} token0", amount_out, amount_in);

    assert!(amount_in > 0, "Should need some input");
    assert!(
        amount_in < amount_out * 2,
        "Input shouldn't be more than 2x output for stableswap"
    );
}

#[test]
fn test_calc_invariant_three_tokens() {
    let amp = 750_000;
    let balances = vec![
        40_000_000_000_000_000_u64,
        50_000_000_000_000_000_u64,
        60_000_000_000_000_000_u64,
    ];

    let invariant = calc_invariant(amp, &balances).unwrap();
    let expected = 149997226126050479_u64;

    assert_eq!(
        invariant, expected,
        "3-token invariant should match reference. Got {}, expected {}",
        invariant, expected
    );
}

#[test]
fn test_calc_invariant_four_tokens() {
    let amp = 150_000;
    let balances = vec![
        40_000_000_000_000_000_u64,
        50_000_000_000_000_000_u64,
        60_000_000_000_000_000_u64,
        70_000_000_000_000_000_u64,
    ];

    let invariant = calc_invariant(amp, &balances).unwrap();
    let expected = 219967475585041316_u64;

    assert_eq!(
        invariant, expected,
        "4-token invariant should match reference. Got {}, expected {}",
        invariant, expected
    );
}

#[test]
fn test_calc_lp_tokens_for_deposit_simple() {
    let amp = 5_000_000;
    let balances = vec![1_000_000_000_000_u64, 1_000_000_000_000_u64];
    let lp_supply = 2_000_000_000_000_u64;

    let amounts_in = vec![100_000_000_000_u64, 100_000_000_000_u64];

    let lp_out =
        calc_lp_tokens_for_deposit_simple(amp, &balances, &amounts_in, lp_supply).unwrap();

    println!("Balanced deposit: depositing 100B + 100B");
    println!("LP tokens received: {}", lp_out);

    assert!(
        lp_out > 190_000_000_000,
        "Should get roughly 10% of LP supply"
    );
    assert!(
        lp_out < 210_000_000_000,
        "Should get roughly 10% of LP supply"
    );
}

#[test]
fn test_calc_proportional_withdraw() {
    let balances = vec![1_000_000_000_000_u64, 2_000_000_000_000_u64];
    let lp_supply = 3_000_000_000_000_u64;

    let lp_amount = 300_000_000_000_u64;

    let amounts_out = calc_tokens_out_proportional(&balances, lp_amount, lp_supply).unwrap();

    println!("Proportional withdraw: {} LP", lp_amount);
    println!("Token 0 out: {}", amounts_out[0]);
    println!("Token 1 out: {}", amounts_out[1]);

    assert_eq!(amounts_out[0], 100_000_000_000, "Should get 10% of token 0");
    assert_eq!(amounts_out[1], 200_000_000_000, "Should get 10% of token 1");
}

#[test]
fn test_calc_proportional_deposit() {
    let balances = vec![1_000_000_000_000_u64, 2_000_000_000_000_u64];
    let lp_supply = 3_000_000_000_000_u64;

    let lp_amount = 300_000_000_000_u64;

    let amounts_in = calc_tokens_in_proportional(&balances, lp_amount, lp_supply).unwrap();

    println!("Proportional deposit for {} LP", lp_amount);
    println!("Token 0 needed: {}", amounts_in[0]);
    println!("Token 1 needed: {}", amounts_in[1]);

    assert!(
        amounts_in[0] >= 100_000_000_000,
        "Should need ~10% of token 0"
    );
    assert!(
        amounts_in[1] >= 200_000_000_000,
        "Should need ~10% of token 1"
    );
}

#[test]
fn test_calc_lp_tokens_with_fee_imbalanced() {
    let amp = 5_000_000;
    let balances = vec![1_000_000_000_000_u64, 1_000_000_000_000_u64];
    let lp_supply = 2_000_000_000_000_u64;
    let swap_fee = 3_000_000_u64;

    let current_invariant = calc_invariant(amp, &balances).unwrap();

    let amounts_in = vec![200_000_000_000_u64, 0_u64];

    let lp_out_with_fee = calc_lp_tokens_for_deposit_with_fee(
        amp,
        &balances,
        &amounts_in,
        lp_supply,
        current_invariant,
        swap_fee,
    )
    .unwrap();

    let lp_out_simple =
        calc_lp_tokens_for_deposit_simple(amp, &balances, &amounts_in, lp_supply).unwrap();

    println!("Imbalanced deposit: 200B + 0");
    println!("LP with fee: {}", lp_out_with_fee);
    println!("LP without fee: {}", lp_out_simple);

    assert!(
        lp_out_with_fee < lp_out_simple,
        "Fee should reduce LP tokens"
    );
    assert!(lp_out_with_fee > 0, "Should still get some LP tokens");
}

const AMP: u64 = 5_000_000;
const POOL: [u64; 2] = [894_520_800_000_000, 467_581_800_000_000];
const EVEN: [u64; 2] = [1_000_000_000_000, 1_000_000_000_000];

#[test]
fn invariant_of_balances_that_sum_to_zero_is_zero() {
    assert_eq!(calc_invariant(AMP, &[]), Some(0));
    assert_eq!(calc_invariant(AMP, &[0, 0]), Some(0));
}

#[test]
fn invariant_of_tiny_even_pool_is_the_sum() {
    assert_eq!(calc_invariant(AMP, &[1, 1]), Some(2));
    assert_eq!(calc_invariant(AMP, &EVEN), Some(2_000_000_000_000));
}

#[test]
fn invariant_fails_on_a_zero_balance_beside_others() {
    assert_eq!(calc_invariant(AMP, &[5, 0]), None);
}

#[test]
fn invariant_fails_when_the_sum_overflows() {
    assert_eq!(
        calc_invariant(AMP, &[10_000_000_000_000_000_000, 10_000_000_000_000_000_000]),
        None
    );
    assert_eq!(checked_sum(&[u64::MAX, 1]), None);
    assert_eq!(checked_sum(&[u64::MAX - 1, 1]), Some(u64::MAX));
    assert_eq!(checked_sum(&[]), Some(0));
}

#[test]
fn invariant_fails_below_the_amplification_precision() {
    assert_eq!(calc_invariant(1, &EVEN), None);
    assert_eq!(calc_invariant(u64::MAX, &EVEN), None);
}

#[test]
fn balance_solver_recovers_a_balance_of_the_pool() {
    let d = calc_invariant(AMP, &POOL).unwrap();
    let y = get_token_balance_given_invariant_and_others(AMP, &POOL, d, 1).unwrap();
    assert!(y.abs_diff(POOL[1]) <= 2, "got {}", y);
}

#[test]
fn balance_solver_rejects_bad_inputs() {
    let d = calc_invariant(AMP, &POOL).unwrap();
    assert_eq!(get_token_balance_given_invariant_and_others(AMP, &POOL, d, 2), None);
    assert_eq!(get_token_balance_given_invariant_and_others(AMP, &[], d, 0), None);
    assert_eq!(get_token_balance_given_invariant_and_others(AMP, &POOL, 0, 0), None);
    assert_eq!(get_token_balance_given_invariant_and_others(0, &POOL, d, 0), None);
}

#[test]
fn in_given_out_matches_the_formula() {
    assert_eq!(
        calc_in_given_out(AMP, &POOL, 0, 1, 100_000_000_000),
        Some(100_015_420_477)
    );
}

#[test]
fn swap_with_three_tokens() {
    let balances = [
        40_000_000_000_000_000_u64,
        50_000_000_000_000_000,
        60_000_000_000_000_000,
    ];
    assert_eq!(
        calc_out_given_in(750_000, &balances, 2, 0, 1_000_000_000_000_000),
        Some(999_388_141_690_298)
    );
}

#[test]
fn swaps_reject_indices_outside_the_pool() {
    assert_eq!(calc_out_given_in(AMP, &POOL, 2, 1, 1_000_000), None);
    assert_eq!(calc_out_given_in(AMP, &POOL, 0, 2, 1_000_000), None);
    assert_eq!(calc_in_given_out(AMP, &POOL, 2, 1, 1_000_000), None);
    assert_eq!(calc_in_given_out(AMP, &POOL, 0, 2, 1_000_000), None);
    assert_eq!(calc_out_given_in(AMP, &[], 0, 1, 1_000_000), None);
}

#[test]
fn swaps_reject_amounts_the_pool_cannot_hold_or_pay() {
    assert_eq!(calc_out_given_in(AMP, &POOL, 0, 1, u64::MAX), None);
    assert_eq!(calc_in_given_out(AMP, &POOL, 0, 1, POOL[1] + 1), None);
}

#[test]
fn stable_out_given_in_does_not_decrease_with_the_amount_in() {
    let amounts = [1_000_000_u64, 1_000_001, 1_000_002, 2_000_000, 1_000_000_000_000];
    let outs: Vec<u64> = amounts
        .iter()
        .map(|a| calc_out_given_in(AMP, &POOL, 0, 1, *a).unwrap())
        .collect();
    assert_eq!(outs[0], 999_845);
    assert_eq!(outs[1], 999_846);
    assert_eq!(outs[2], 999_847);
    assert_eq!(outs[3], 1_999_690);
    for pair in outs.windows(2) {
        assert!(pair[0] <= pair[1]);
    }
}

#[test]
fn stable_in_given_out_does_not_decrease_with_the_amount_out() {
    let amounts = [1_000_000_u64, 1_000_001, 1_000_002, 2_000_000, 100_000_000_000];
    let ins: Vec<u64> = amounts
        .iter()
        .map(|a| calc_in_given_out(AMP, &POOL, 0, 1, *a).unwrap())
        .collect();
    assert_eq!(ins[0], 1_000_156);
    assert_eq!(ins[1], 1_000_157);
    assert_eq!(ins[2], 1_000_158);
    assert_eq!(ins[3], 2_000_310);
    for pair in ins.windows(2) {
        assert!(pair[0] <= pair[1]);
    }
}

#[test]
fn stable_swap_there_and_back_returns_no_more_than_was_paid() {
    let amount_in = 1_000_000_000_000_u64;
    let amount_out = calc_out_given_in(AMP, &POOL, 0, 1, amount_in).unwrap();
    let after = [POOL[0] + amount_in, POOL[1] - amount_out];
    let back = calc_out_given_in(AMP, &after, 1, 0, amount_out).unwrap();
    assert_eq!(back, 999_999_999_995);
    assert!(back <= amount_in);
}

#[test]
fn deposit_simple_exact_values() {
    assert_eq!(
        calc_lp_tokens_for_deposit_simple(
            AMP,
            &EVEN,
            &[100_000_000_000, 100_000_000_000],
            2_000_000_000_000
        ),
        Some(200_000_000_000)
    );
    assert_eq!(
        calc_lp_tokens_for_deposit_simple(AMP, &EVEN, &[200_000_000_000, 0], 2_000_000_000_000),
        Some(199_998_167_037)
    );
}

#[test]
fn deposit_simple_rejects_mismatched_and_empty_input() {
    assert_eq!(
        calc_lp_tokens_for_deposit_simple(AMP, &EVEN, &[1], 2_000_000_000_000),
        None
    );
    assert_eq!(
        calc_lp_tokens_for_deposit_simple(AMP, &EVEN, &[1, 2, 3], 2_000_000_000_000),
        None
    );
    assert_eq!(calc_lp_tokens_for_deposit_simple(AMP, &[], &[], 2_000_000_000_000), None);
    assert_eq!(calc_lp_tokens_for_deposit_simple(AMP, &[0, 0], &[1, 1], 1), None);
    assert_eq!(calc_lp_tokens_for_deposit_simple(AMP, &EVEN, &[1, 1], 0), None);
}

#[test]
fn deposit_simple_mints_nothing_for_a_shrinking_invariant() {
    // The solver settles at 307 before and at 294 after this deposit.
    assert_eq!(calc_invariant(1_000, &[25, 378]), Some(307));
    assert_eq!(calc_invariant(1_000, &[25, 415]), Some(294));
    assert_eq!(calc_lp_tokens_for_deposit_simple(1_000, &[25, 378], &[0, 37], 1_000), None);
    assert_eq!(calc_lp_tokens_for_deposit_simple(1_000, &[25, 378], &[0, 37], 0), None);
}

#[test]
fn deposit_with_fee_exact_values() {
    let d = calc_invariant(AMP, &EVEN).unwrap();
    assert_eq!(
        calc_lp_tokens_for_deposit_with_fee(
            AMP,
            &EVEN,
            &[200_000_000_000, 0],
            2_000_000_000_000,
            d,
            3_000_000
        ),
        Some(199_698_172_000)
    );
    assert_eq!(
        calc_lp_tokens_for_deposit_with_fee(
            AMP,
            &EVEN,
            &[100_000_000_000, 100_000_000_000],
            2_000_000_000_000,
            d,
            3_000_000
        ),
        Some(200_000_000_000)
    );
}

#[test]
fn deposit_with_fee_mints_nothing_when_the_invariant_does_not_grow() {
    let d = calc_invariant(AMP, &EVEN).unwrap();
    assert_eq!(
        calc_lp_tokens_for_deposit_with_fee(AMP, &EVEN, &[0, 0], 2_000_000_000_000, d, 3_000_000),
        Some(0)
    );
}

#[test]
fn deposit_with_fee_rejects_mismatched_empty_and_zero_input() {
    let d = calc_invariant(AMP, &EVEN).unwrap();
    assert_eq!(
        calc_lp_tokens_for_deposit_with_fee(AMP, &EVEN, &[1], 1, d, 3_000_000),
        None
    );
    assert_eq!(calc_lp_tokens_for_deposit_with_fee(AMP, &[], &[], 1, d, 3_000_000), None);
    assert_eq!(
        calc_lp_tokens_for_deposit_with_fee(AMP, &EVEN, &[1, 1], 1, 0, 3_000_000),
        None
    );
    assert_eq!(
        calc_lp_tokens_for_deposit_with_fee(AMP, &[1_000, 0], &[1, 1], 1, d, 3_000_000),
        None
    );
}

#[test]
fn burn_for_one_token_exact_values() {
    let d = calc_invariant(AMP, &EVEN).unwrap();
    assert_eq!(
        calc_token_out_for_lp_burn(
            AMP,
            &EVEN,
            0,
            100_000_000_000,
            2_000_000_000_000,
            d,
            3_000_000
        ),
        Some(99_849_473_123)
    );
    assert_eq!(
        calc_token_out_for_lp_burn(AMP, &EVEN, 1, 200_000_000_000, 2_000_000_000_000, d, 0),
        Some(199_997_750_511)
    );
}

#[test]
fn burn_rejects_bad_input() {
    let d = calc_invariant(AMP, &EVEN).unwrap();
    assert_eq!(calc_token_out_for_lp_burn(AMP, &EVEN, 2, 1, 10, d, 0), None);
    assert_eq!(calc_token_out_for_lp_burn(AMP, &EVEN, 0, 11, 10, d, 0), None);
    assert_eq!(calc_token_out_for_lp_burn(AMP, &EVEN, 0, 0, 0, d, 0), None);
    assert_eq!(calc_token_out_for_lp_burn(AMP, &[], 0, 1, 10, d, 0), None);
}

#[test]
fn proportional_amounts_round_down_out_and_up_in() {
    let balances = [10_u64, 7, 1];
    assert_eq!(calc_tokens_out_proportional(&balances, 1, 3), Some(vec![3, 2, 0]));
    assert_eq!(calc_tokens_in_proportional(&balances, 1, 3), Some(vec![4, 3, 1]));
    assert_eq!(
        calc_tokens_in_proportional(
            &[1_000_000_000_000, 2_000_000_000_000],
            300_000_000_000,
            3_000_000_000_000
        ),
        Some(vec![100_000_000_000, 200_000_000_000])
    );
}

#[test]
fn proportional_amounts_reject_empty_zero_and_overflowing_input() {
    assert_eq!(calc_tokens_out_proportional(&[], 1, 3), None);
    assert_eq!(calc_tokens_in_proportional(&[], 1, 3), None);
    assert_eq!(calc_tokens_out_proportional(&[1, 2], 1, 0), None);
    assert_eq!(calc_tokens_in_proportional(&[1, 2], 1, 0), None);
    assert_eq!(calc_tokens_out_proportional(&[u64::MAX], 2, 1), None);
    assert_eq!(calc_tokens_in_proportional(&[u64::MAX], 2, 1), None);
    assert_eq!(calc_tokens_out_proportional(&[u64::MAX], 1, 1), Some(vec![u64::MAX]));
}

#[test]
fn a_tiny_pool_settles_within_the_solver_tolerance() {
    // With balances of a few units the tolerance of one unit shows: one
    // more unit paid in can buy one unit less.
    assert_eq!(calc_out_given_in(1_000, &[1, 11], 0, 1, 8), Some(8));
    assert_eq!(calc_out_given_in(1_000, &[1, 11], 0, 1, 9), Some(7));
    assert_eq!(calc_in_given_out(1_000, &[1, 11], 0, 1, 1), Some(3));
    assert_eq!(calc_in_given_out(1_000, &[1, 11], 0, 1, 2), Some(2));
}

#[test]
fn swaps_fall_short_of_monotone_by_the_solver_slack_at_most() {
    assert_eq!(SOLVER_SLACK, 3);
    // One more unit paid in can buy one unit less on a tiny pool.
    assert_eq!(calc_out_given_in(10_000_000, &[93, 14], 0, 1, 27), Some(12));
    assert_eq!(calc_out_given_in(10_000_000, &[93, 14], 0, 1, 29), Some(11));
    assert_eq!(calc_out_given_in(10_000, &[13, 109], 1, 0, 57), Some(10));
    assert_eq!(calc_out_given_in(10_000, &[13, 109], 1, 0, 58), Some(9));
    let pools: [(u64, [u64; 2]); 5] = [
        (1_000, [1, 11]),
        (10_000_000, [93, 14]),
        (10_000, [13, 109]),
        (2_000, [30, 30]),
        (5_000_000, [1_000, 7]),
    ];
    for (amp, balances) in pools {
        let mut outs: Vec<u64> = Vec::new();
        let mut ins: Vec<u64> = Vec::new();
        for amount in 1..200_u64 {
            if let Some(out) = calc_out_given_in(amp, &balances, 0, 1, amount) {
                for earlier in &outs {
                    assert!(*earlier <= out + SOLVER_SLACK);
                }
                outs.push(out);
            }
            if let Some(asked) = calc_in_given_out(amp, &balances, 0, 1, amount) {
                for earlier in &ins {
                    assert!(*earlier <= asked + SOLVER_SLACK);
                }
                ins.push(asked);
            }
        }
        assert!(!outs.is_empty());
    }
}
