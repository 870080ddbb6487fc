use mini_stabble::errors::MiniStabbleError;
use mini_stabble::math::fixed::ONE;
use mini_stabble::math::weighted::{
    calc_in_given_out, calc_invariant, calc_lp_to_mint, calc_out_given_in, HALF,
};

#[test]
fn invariant_of_one_token_with_weight_one_is_its_balance() {
    assert_eq!(calc_invariant(&[7 * ONE], &[ONE]), Ok(7 * ONE));
    assert_eq!(calc_invariant(&[1], &[ONE]), Ok(1));
    assert_eq!(calc_invariant(&[123_456_789_012_345], &[ONE]), Ok(123_456_789_012_345));
}

#[test]
fn invariant_of_two_equal_weights_is_the_geometric_mean() {
    assert_eq!(HALF, ONE / 2);
    assert_eq!(calc_invariant(&[4 * ONE, 9 * ONE], &[HALF, HALF]), Ok(6 * ONE));
    // sqrt(2) * sqrt(8) = 4, each root rounded down
    assert_eq!(calc_invariant(&[2 * ONE, 8 * ONE], &[HALF, HALF]), Ok(3_999_999_997));
    // sqrt(15) = 3.872983346...
    let mean = calc_invariant(&[3 * ONE, 5 * ONE], &[HALF, HALF]).unwrap();
    assert_eq!(mean, 3_872_983_344);
    assert!(mean * mean <= 15 * ONE * ONE);
    assert!((mean + 3) * (mean + 3) > 15 * ONE * ONE);
}

#[test]
fn invariant_of_unequal_weights() {
    // 100^0.8 * 25^0.2 = 75.78582832...
    assert_eq!(
        calc_invariant(&[100 * ONE, 25 * ONE], &[800_000_000, 200_000_000]),
        Ok(75_785_824_883)
    );
    // 16^0.5 * 81^0.25 * 256^0.25 = 48
    assert_eq!(
        calc_invariant(&[16 * ONE, 81 * ONE, 256 * ONE], &[HALF, HALF / 2, HALF / 2]),
        Ok(48 * ONE)
    );
}

#[test]
fn invariant_rejects_empty_mismatched_and_zero_input() {
    assert_eq!(calc_invariant(&[], &[]), Err(MiniStabbleError::InvalidAmount));
    assert_eq!(calc_invariant(&[ONE], &[]), Err(MiniStabbleError::InvalidAmount));
    assert_eq!(calc_invariant(&[], &[ONE]), Err(MiniStabbleError::InvalidAmount));
    assert_eq!(
        calc_invariant(&[ONE, ONE], &[HALF]),
        Err(MiniStabbleError::InvalidAmount)
    );
    assert_eq!(calc_invariant(&[0], &[ONE]), Err(MiniStabbleError::InvalidAmount));
    assert_eq!(
        calc_invariant(&[0, 9 * ONE], &[HALF, HALF]),
        Err(MiniStabbleError::InvalidAmount)
    );
}

#[test]
fn invariant_reports_overflow() {
    assert_eq!(
        calc_invariant(&[u128::MAX, ONE], &[HALF, HALF]),
        Err(MiniStabbleError::MathOverflow)
    );
    assert_eq!(
        calc_invariant(&[u128::MAX], &[ONE]),
        Err(MiniStabbleError::MathOverflow)
    );
}

#[test]
fn out_given_in_exact_values() {
    // equal weights: 1000 * (1 - 1000 / 1010) = 9.900990099...
    assert_eq!(
        calc_out_given_in(1_000 * ONE, HALF, 1_000 * ONE, HALF, 10 * ONE),
        Ok(9_900_990_000)
    );
    // 80/20: 500 * (1 - (1000 / 1010)^4) = 19.50982775...
    assert_eq!(
        calc_out_given_in(1_000 * ONE, 800_000_000, 500 * ONE, 200_000_000, 10 * ONE),
        Ok(19_509_827_000)
    );
    // 20/80: 500 * (1 - (1000 / 1010)^0.25) = 1.24224562...
    assert_eq!(
        calc_out_given_in(1_000 * ONE, 200_000_000, 500 * ONE, 800_000_000, 10 * ONE),
        Ok(1_242_245_000)
    );
    // 60/40: 500 * (1 - (1000 / 1010)^1.5) = 7.40733157...
    assert_eq!(
        calc_out_given_in(1_000 * ONE, 600_000_000, 500 * ONE, 400_000_000, 10 * ONE),
        Ok(7_407_331_000)
    );
}

#[test]
fn out_given_in_is_rounded_down() {
    let out = calc_out_given_in(1_000 * ONE, 800_000_000, 500 * ONE, 200_000_000, 10 * ONE)
        .unwrap();
    assert!(out <= 19_509_827_758);
    let out = calc_out_given_in(1_000 * ONE, 600_000_000, 500 * ONE, 400_000_000, 10 * ONE)
        .unwrap();
    assert!(out <= 7_407_331_579);
}

#[test]
fn out_given_in_errors() {
    assert_eq!(
        calc_out_given_in(u128::MAX, HALF, ONE, HALF, 1),
        Err(MiniStabbleError::MathOverflow)
    );
    assert_eq!(
        calc_out_given_in(u128::MAX / 2, HALF, ONE, HALF, 1),
        Err(MiniStabbleError::MathOverflow)
    );
}

#[test]
fn out_given_in_rejects_a_zero_amount_and_zero_weights() {
    let invalid = Err(MiniStabbleError::InvalidAmount);
    assert_eq!(calc_out_given_in(ONE, HALF, ONE, HALF, 0), invalid);
    assert_eq!(calc_out_given_in(100, 500_000_000, 300, 500_000_000, 0), invalid);
    assert_eq!(calc_out_given_in(0, HALF, ONE, HALF, 0), invalid);
    assert_eq!(calc_out_given_in(ONE, 0, ONE, HALF, ONE), invalid);
    assert_eq!(calc_out_given_in(ONE, HALF, ONE, 0, ONE), invalid);
    assert_eq!(calc_out_given_in(ONE, 0, ONE, 0, 0), invalid);
    // the weights are tested before any arithmetic
    assert_eq!(calc_out_given_in(u128::MAX, 0, ONE, HALF, 1), invalid);
    assert_eq!(calc_out_given_in(u128::MAX, HALF, ONE, HALF, 0), invalid);
}

#[test]
fn weighted_out_given_in_does_not_decrease_with_the_amount_in() {
    let amounts = [1_u128, ONE, 10 * ONE, 10 * ONE + 1, 100 * ONE];
    let expected = [0_u128, 1_995_006_500, 19_509_827_000, 19_509_827_000, 158_493_270_500];
    let mut last = 0;
    for (amount, want) in amounts.iter().zip(expected) {
        let out =
            calc_out_given_in(1_000 * ONE, 800_000_000, 500 * ONE, 200_000_000, *amount).unwrap();
        assert_eq!(out, want);
        assert!(last <= out);
        last = out;
    }
    let expected = [0_u128, 124_921_500, 1_242_245_000, 1_242_245_000, 11_772_954_500];
    let mut last = 0;
    for (amount, want) in amounts.iter().zip(expected) {
        let out =
            calc_out_given_in(1_000 * ONE, 200_000_000, 500 * ONE, 800_000_000, *amount).unwrap();
        assert_eq!(out, want);
        assert!(last <= out);
        last = out;
    }
}

#[test]
fn in_given_out_exact_values() {
    // equal weights: 1000 * (1000 / 990 - 1) = 10.10101010...
    assert_eq!(
        calc_in_given_out(1_000 * ONE, HALF, 1_000 * ONE, HALF, 10 * ONE),
        Ok(10_101_011_000)
    );
    // 20/80: 1000 * ((500 / 490)^4 - 1) = 84.16578473...
    assert_eq!(
        calc_in_given_out(1_000 * ONE, 200_000_000, 500 * ONE, 800_000_000, 10 * ONE),
        Ok(84_165_790_000)
    );
    // 80/20: 1000 * ((500 / 490)^0.25 - 1) = 5.06345299...
    assert_eq!(
        calc_in_given_out(1_000 * ONE, 800_000_000, 500 * ONE, 200_000_000, 10 * ONE),
        Ok(5_063_454_000)
    );
}

#[test]
fn in_given_out_is_rounded_up() {
    let amount_in =
        calc_in_given_out(1_000 * ONE, 800_000_000, 500 * ONE, 200_000_000, 10 * ONE).unwrap();
    assert!(amount_in >= 5_063_452_998);
    let amount_in = calc_in_given_out(1_000 * ONE, HALF, 1_000 * ONE, HALF, 10 * ONE).unwrap();
    assert!(amount_in >= 10_101_010_102);
}

#[test]
fn in_given_out_errors() {
    assert_eq!(
        calc_in_given_out(ONE, HALF, ONE, HALF, ONE + 1),
        Err(MiniStabbleError::MathOverflow)
    );
    assert_eq!(
        calc_in_given_out(ONE, HALF, ONE, HALF, ONE),
        Err(MiniStabbleError::DivideByZero)
    );
}

#[test]
fn in_given_out_rejects_a_zero_amount_and_zero_weights() {
    let invalid = Err(MiniStabbleError::InvalidAmount);
    assert_eq!(calc_in_given_out(ONE, 0, ONE, HALF, 1), invalid);
    assert_eq!(calc_in_given_out(100, 0, 300, 500_000_000, 7), invalid);
    assert_eq!(calc_in_given_out(ONE, HALF, ONE, 0, 1), invalid);
    assert_eq!(calc_in_given_out(ONE, HALF, ONE, HALF, 0), invalid);
    assert_eq!(calc_in_given_out(ONE, 0, ONE, 0, 0), invalid);
    // the weights are tested before any arithmetic
    assert_eq!(calc_in_given_out(ONE, 0, ONE, HALF, ONE + 1), invalid);
    assert_eq!(calc_in_given_out(ONE, 0, u128::MAX, HALF, 1), invalid);
    assert_eq!(calc_in_given_out(ONE, HALF, ONE, 0, ONE), invalid);
}

#[test]
fn weighted_in_given_out_does_not_decrease_with_the_amount_out() {
    let amounts = [1_u128, ONE, 10 * ONE, 10 * ONE + 1, 100 * ONE];
    let expected = [1_000_u128, 500_627_000, 5_063_454_000, 5_063_454_000, 57_371_264_000];
    let mut last = 0;
    for (amount, want) in amounts.iter().zip(expected) {
        let amount_in =
            calc_in_given_out(1_000 * ONE, 800_000_000, 500 * ONE, 200_000_000, *amount).unwrap();
        assert_eq!(amount_in, want);
        assert!(last <= amount_in);
        last = amount_in;
    }
}

#[test]
fn weighted_swap_there_and_back_returns_no_more_than_was_paid() {
    let amount_in = 10 * ONE;
    let out = calc_out_given_in(1_000 * ONE, HALF, 1_000 * ONE, HALF, amount_in).unwrap();
    let back =
        calc_out_given_in(1_000 * ONE - out, HALF, 1_000 * ONE + amount_in, HALF, out).unwrap();
    assert_eq!(back, 9_999_999_900);
    assert!(back <= amount_in);

    let out =
        calc_out_given_in(1_000 * ONE, 800_000_000, 500 * ONE, 200_000_000, amount_in).unwrap();
    let back = calc_out_given_in(
        500 * ONE - out,
        200_000_000,
        1_000 * ONE + amount_in,
        800_000_000,
        out,
    )
    .unwrap();
    assert!(back <= amount_in);
}

#[test]
fn lp_to_mint_exact_values() {
    // 1000 * (110 / 100 - 1) = 100
    assert_eq!(calc_lp_to_mint(1_000 * ONE, 110 * ONE, 100 * ONE, ONE), Ok(100 * ONE));
    // 1000 * (sqrt(1.1) - 1) = 48.80884817...
    assert_eq!(
        calc_lp_to_mint(1_000 * ONE, 110 * ONE, 100 * ONE, HALF),
        Ok(48_808_848_000)
    );
    assert_eq!(calc_lp_to_mint(1_000 * ONE, 100 * ONE, 100 * ONE, ONE), Ok(0));
}

#[test]
fn lp_to_mint_errors() {
    assert_eq!(
        calc_lp_to_mint(1_000 * ONE, 110 * ONE, 0, ONE),
        Err(MiniStabbleError::DivideByZero)
    );
    assert_eq!(
        calc_lp_to_mint(1_000 * ONE, 99 * ONE, 100 * ONE, ONE),
        Err(MiniStabbleError::MathOverflow)
    );
    assert_eq!(
        calc_lp_to_mint(1_000 * ONE, u128::MAX, 100 * ONE, ONE),
        Err(MiniStabbleError::MathOverflow)
    );
}

fn log_product(balance_in: u128, weight_in: u128, balance_out: u128, weight_out: u128) -> f64 {
    (weight_in as f64) * (balance_in as f64).ln() + (weight_out as f64) * (balance_out as f64).ln()
}

#[test]
fn swaps_never_lower_the_weighted_product() {
    let pools: [(u128, u128, u128, u128); 4] = [
        (1_000 * ONE, HALF, 1_000 * ONE, HALF),
        (1_000 * ONE, 800_000_000, 500 * ONE, 200_000_000),
        (1_000 * ONE, 200_000_000, 500 * ONE, 800_000_000),
        (123_456_789_012, 333_333_333, 987_654_321_098, 666_666_667),
    ];
    for (balance_in, weight_in, balance_out, weight_out) in pools {
        let before = log_product(balance_in, weight_in, balance_out, weight_out);
        for amount in [1_u128, 1_000, ONE, 10 * ONE, 77 * ONE] {
            let out =
                calc_out_given_in(balance_in, weight_in, balance_out, weight_out, amount).unwrap();
            assert!(out <= balance_out);
            let after =
                log_product(balance_in + amount, weight_in, balance_out - out, weight_out);
            assert!(after >= before - 1e-3, "{} {}", before, after);

            let asked =
                calc_in_given_out(balance_in, weight_in, balance_out, weight_out, amount).unwrap();
            let after =
                log_product(balance_in + asked, weight_in, balance_out - amount, weight_out);
            assert!(after >= before - 1e-3, "{} {}", before, after);
        }
    }
}

#[test]
fn the_invariant_is_at_most_the_exact_product() {
    // 100^0.8 * 25^0.2 = 75.785828325...
    let k = calc_invariant(&[100 * ONE, 25 * ONE], &[800_000_000, 200_000_000]).unwrap();
    assert!(k <= 75_785_828_325);
    // sqrt(3 * 5) = 3.8729833462...
    let k = calc_invariant(&[3 * ONE, 5 * ONE], &[HALF, HALF]).unwrap();
    assert!(k <= 3_872_983_346);
}

#[test]
fn minted_shares_are_at_most_the_exact_growth() {
    // 1000 * (sqrt(1.1) - 1) = 48.808848170...
    let minted = calc_lp_to_mint(1_000 * ONE, 110 * ONE, 100 * ONE, HALF).unwrap();
    assert!(minted <= 48_808_848_170);
    // 1000 * ((7 / 3)^0.3 - 1) = 289.3834...
    let minted = calc_lp_to_mint(1_000 * ONE, 7 * ONE, 3 * ONE, 300_000_000).unwrap();
    let exact = 1_000.0 * ((7.0_f64 / 3.0).powf(0.3) - 1.0);
    assert!((minted as f64) / 1e9 <= exact);
    assert!((minted as f64) / 1e9 >= exact - 1e-3);
}
