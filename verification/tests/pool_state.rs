use mini_stabble::errors::MiniStabbleError;
use mini_stabble::instructions::initialize_stable_pool;
use mini_stabble::instructions::initialize_weighted_pool;
use mini_stabble::instructions::initialize_weighted_pool::TokenAccounts;
use mini_stabble::state::pool::{scaling_factor_for, set_balances, Address, PoolToken};

fn address(first: u8, last: u8) -> Address {
    let mut bytes = [0_u8; 32];
    bytes[0] = first;
    bytes[31] = last;
    Address { bytes }
}

fn token(mint: Address, decimals: u8, vault_amount: u64) -> TokenAccounts {
    TokenAccounts { mint, decimals, vault: address(200, mint.bytes[31]), vault_amount }
}

#[test]
fn addresses_compare_as_byte_strings() {
    assert!(address(1, 2).same(&address(1, 2)));
    assert!(!address(1, 2).same(&address(1, 3)));
    assert!(address(1, 2).precedes(&address(1, 3)));
    assert!(address(1, 9).precedes(&address(2, 0)));
    assert!(!address(2, 0).precedes(&address(1, 9)));
    assert!(!address(1, 2).precedes(&address(1, 2)));
}

#[test]
fn scaling_factors_are_powers_of_ten() {
    assert_eq!(scaling_factor_for(9, 9), Some(1));
    assert_eq!(scaling_factor_for(9, 6), Some(1_000));
    assert_eq!(scaling_factor_for(19, 0), Some(10_000_000_000_000_000_000));
    assert_eq!(scaling_factor_for(20, 0), None);
    assert_eq!(scaling_factor_for(6, 9), None);
}

#[test]
fn amounts_scale_up_and_down() {
    let pool_token = PoolToken {
        mint: address(1, 1),
        token_account: address(2, 2),
        decimals: 6,
        scaling_factor: 1_000,
        balance: 0,
        weight: 0,
    };
    assert_eq!(pool_token.scale_amount_up(7), 7_000);
    assert_eq!(pool_token.scale_amount_down(7_999), 7);
    assert_eq!(pool_token.checked_scale_amount_up(7), Some(7_000));
    assert_eq!(pool_token.checked_scale_amount_up(u64::MAX), None);
    assert_eq!(pool_token.checked_scale_amount_up(u64::MAX / 1_000), Some(18_446_744_073_709_551_000));
}

#[test]
fn weighted_pool_is_created_with_both_tokens() {
    let a = token(address(1, 1), 6, 5);
    let b = token(address(1, 2), 9, 8);
    let pool = initialize_weighted_pool::handler(
        address(9, 9),
        address(8, 8),
        254,
        a,
        b,
        3_000_000,
        800_000_000,
    )
    .unwrap();
    assert!(pool.is_active);
    assert_eq!(pool.cached_invariant, 0);
    assert_eq!(pool.swap_fee, 3_000_000);
    assert_eq!(pool.bump, 254);
    assert!(pool.authority.same(&address(9, 9)));
    assert!(pool.lp_mint.same(&address(8, 8)));
    assert_eq!(pool.tokens.len(), 2);
    assert_eq!(pool.tokens[0].decimals, 6);
    assert_eq!(pool.tokens[0].scaling_factor, 1_000);
    assert_eq!(pool.tokens[0].weight, 800_000_000);
    assert_eq!(pool.tokens[0].balance, 5);
    assert!(pool.tokens[0].token_account.same(&a.vault));
    assert_eq!(pool.tokens[1].scaling_factor, 1);
    assert_eq!(pool.tokens[1].weight, 200_000_000);
    assert_eq!(pool.get_balances(), vec![5, 8]);
    assert_eq!(pool.get_weights(), vec![800_000_000, 200_000_000]);
    assert_eq!(pool.get_token_index(&address(1, 1)), Some(0));
    assert_eq!(pool.get_token_index(&address(1, 2)), Some(1));
    assert_eq!(pool.get_token_index(&address(1, 3)), None);
}

#[test]
fn weighted_pool_creation_is_refused() {
    let a = token(address(1, 1), 6, 0);
    let b = token(address(1, 2), 9, 0);
    let create = |a: TokenAccounts, b: TokenAccounts, fee: u64, weight: u64| {
        initialize_weighted_pool::handler(address(9, 9), address(8, 8), 1, a, b, fee, weight)
            .map(|_| ())
    };
    assert_eq!(create(b, a, 0, 500_000_000), Err(MiniStabbleError::MintOrderInvalid));
    assert_eq!(create(a, a, 0, 500_000_000), Err(MiniStabbleError::MintOrderInvalid));
    assert_eq!(create(a, b, 0, 0), Err(MiniStabbleError::InvalidWeight));
    assert_eq!(create(a, b, 0, 1_000_000_000), Err(MiniStabbleError::InvalidWeight));
    assert_eq!(create(a, b, 1_000_000_000, 500_000_000), Err(MiniStabbleError::InvalidAmount));
    let far = token(address(1, 2), 30, 0);
    assert_eq!(create(a, far, 0, 500_000_000), Err(MiniStabbleError::MathOverflow));
    assert_eq!(create(a, b, 999_999_999, 999_999_999), Ok(()));
}

#[test]
fn stable_pool_is_created_with_its_amplification() {
    let a = token(address(1, 1), 9, 5);
    let b = token(address(1, 2), 6, 8);
    let pool = initialize_stable_pool::handler(
        address(9, 9),
        address(8, 8),
        7,
        a,
        b,
        3_000_000,
        5_000,
    )
    .unwrap();
    assert!(pool.is_active);
    assert_eq!(pool.amp, 5_000_000);
    assert_eq!(pool.get_current_amp(), 5_000_000);
    assert_eq!(pool.amp_target, 5_000_000);
    assert_eq!(pool.amp_start_ts, 0);
    assert_eq!(pool.amp_end_ts, 0);
    assert_eq!(pool.cached_invariant, 0);
    assert_eq!(pool.swap_fee, 3_000_000);
    assert_eq!(pool.tokens[0].scaling_factor, 1);
    assert_eq!(pool.tokens[1].scaling_factor, 1_000);
    assert_eq!(pool.tokens[0].weight, 0);
    assert_eq!(pool.tokens[1].weight, 0);
    assert_eq!(pool.get_balances(), vec![5, 8]);
    assert_eq!(pool.get_token_index(&address(1, 2)), Some(1));
    assert_eq!(pool.get_token_index(&address(7, 7)), None);
}

#[test]
fn stable_pool_creation_is_refused() {
    let a = token(address(1, 1), 6, 0);
    let b = token(address(1, 2), 9, 0);
    let create = |a: TokenAccounts, b: TokenAccounts, fee: u64, amp: u64| {
        initialize_stable_pool::handler(address(9, 9), address(8, 8), 1, a, b, fee, amp)
            .map(|_| ())
    };
    assert_eq!(create(b, a, 0, 100), Err(MiniStabbleError::MintOrderInvalid));
    assert_eq!(create(a, b, 0, 0), Err(MiniStabbleError::AmpTooLow));
    assert_eq!(create(a, b, 0, 10_001), Err(MiniStabbleError::AmpTooHigh));
    assert_eq!(create(a, b, 1_000_000_000, 100), Err(MiniStabbleError::InvalidAmount));
    assert_eq!(create(a, b, 0, 1), Ok(()));
    assert_eq!(create(a, b, 0, 10_000), Ok(()));
}

#[test]
fn balances_are_replaced_in_place() {
    let a = token(address(1, 1), 6, 5);
    let b = token(address(1, 2), 9, 8);
    let mut pool =
        initialize_weighted_pool::handler(address(9, 9), address(8, 8), 1, a, b, 0, 500_000_000)
            .unwrap();
    set_balances(&mut pool.tokens, 1, 80, 0, 50);
    assert_eq!(pool.get_balances(), vec![50, 80]);
    assert_eq!(pool.get_weights(), vec![500_000_000, 500_000_000]);
}

#[test]
fn errors_have_messages() {
    assert_eq!(MiniStabbleError::MathOverflow.message(), "Math overflow");
    assert_eq!(MiniStabbleError::DivideByZero.message(), "Divide by zero");
    assert_eq!(MiniStabbleError::InvalidAmount.message(), "Invalid token amount");
    assert_eq!(MiniStabbleError::SlippageExceeded.message(), "Slippage exceeded");
    assert_eq!(
        MiniStabbleError::NoProfitableArbitrage.message(),
        "No profitable arbitrage opportunity"
    );
    assert_eq!(
        MiniStabbleError::MintOrderInvalid.message(),
        "Token A mint should be less than Token B Mint"
    );
    assert_eq!(MiniStabbleError::InvalidWeight.message(), "Invalid Token Weight");
    assert_eq!(MiniStabbleError::PoolInActive.message(), "Pool is not active");
    assert_eq!(MiniStabbleError::InvalidMint.message(), "Mint is not part of the pool");
    assert_eq!(MiniStabbleError::AmpTooLow.message(), "Amplification too low");
    assert_eq!(MiniStabbleError::AmpTooHigh.message(), "Amplification too high");
}
