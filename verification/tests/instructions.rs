use mini_stabble::errors::MiniStabbleError;
use mini_stabble::instructions::initialize_weighted_pool::TokenAccounts;
use mini_stabble::instructions::{
    deposit, deposit_unbalanced, initialize_stable_pool, initialize_weighted_pool, stable_deposit,
    stable_swap, swap, DepositTransfers, SwapTransfers,
};
use mini_stabble::state::pool::{Address, StablePool, WeightedPool};

fn address(first: u8, last: u8) -> Address {
    let mut bytes = [0_u8; 32];
    bytes[0] = first;
    bytes[31] = last;
    Address { bytes }
}

fn mint_a() -> Address {
    address(1, 1)
}

fn mint_b() -> Address {
    address(1, 2)
}

fn stranger() -> Address {
    address(5, 5)
}

fn weighted_pool(decimals_a: u8, balance_a: u64, balance_b: u64, weight_a: u64) -> WeightedPool {
    let a = TokenAccounts {
        mint: mint_a(),
        decimals: decimals_a,
        vault: address(2, 1),
        vault_amount: balance_a,
    };
    let b =
        TokenAccounts { mint: mint_b(), decimals: 9, vault: address(2, 2), vault_amount: balance_b };
    initialize_weighted_pool::handler(address(9, 9), address(8, 8), 1, a, b, 3_000_000, weight_a)
        .unwrap()
}

fn stable_pool(decimals_a: u8, balance_a: u64, balance_b: u64) -> StablePool {
    let a = TokenAccounts {
        mint: mint_a(),
        decimals: decimals_a,
        vault: address(2, 1),
        vault_amount: balance_a,
    };
    let b =
        TokenAccounts { mint: mint_b(), decimals: 9, vault: address(2, 2), vault_amount: balance_b };
    initialize_stable_pool::handler(address(9, 9), address(8, 8), 1, a, b, 3_000_000, 5_000)
        .unwrap()
}

#[test]
fn weighted_swap_pays_out_net_of_the_fee() {
    let mut pool = weighted_pool(9, 1_000_000_000_000, 500_000_000_000, 800_000_000);
    let transfers = swap::handler(&mut pool, &mint_a(), &mint_b(), 10_000_000_000, 1).unwrap();
    assert_eq!(
        transfers,
        SwapTransfers { amount_in: 10_000_000_000, amount_out: 19_451_297_519 }
    );
    assert_eq!(
        pool.get_balances(),
        vec![1_010_000_000_000, 500_000_000_000 - 19_451_297_519]
    );
    assert_eq!(pool.get_weights(), vec![800_000_000, 200_000_000]);
}

#[test]
fn weighted_swap_is_refused_and_leaves_the_pool() {
    let mut pool = weighted_pool(9, 1_000_000_000_000, 500_000_000_000, 800_000_000);
    let a = mint_a();
    let b = mint_b();
    assert_eq!(swap::handler(&mut pool, &a, &b, 0, 1), Err(MiniStabbleError::InvalidAmount));
    assert_eq!(swap::handler(&mut pool, &a, &b, 1, 0), Err(MiniStabbleError::InvalidAmount));
    assert_eq!(
        swap::handler(&mut pool, &stranger(), &b, 1, 1),
        Err(MiniStabbleError::InvalidMint)
    );
    assert_eq!(
        swap::handler(&mut pool, &a, &stranger(), 1, 1),
        Err(MiniStabbleError::InvalidMint)
    );
    assert_eq!(swap::handler(&mut pool, &a, &a, 1, 1), Err(MiniStabbleError::InvalidMint));
    assert_eq!(
        swap::handler(&mut pool, &a, &b, 10_000_000_000, 19_451_297_520),
        Err(MiniStabbleError::SlippageExceeded)
    );
    assert_eq!(
        swap::handler(&mut pool, &a, &b, u64::MAX, 1),
        Err(MiniStabbleError::MathOverflow)
    );
    pool.is_active = false;
    assert_eq!(
        swap::handler(&mut pool, &a, &b, 10_000_000_000, 1),
        Err(MiniStabbleError::PoolInActive)
    );
    assert_eq!(pool.get_balances(), vec![1_000_000_000_000, 500_000_000_000]);
}

#[test]
fn stable_swap_pays_out_net_of_the_fee() {
    let mut pool = stable_pool(9, 894_520_800_000_000, 467_581_800_000_000);
    let transfers =
        stable_swap::handler(&mut pool, &mint_a(), &mint_b(), 1_000_000_000_000, 1).unwrap();
    assert_eq!(
        transfers,
        SwapTransfers { amount_in: 1_000_000_000_000, amount_out: 996_845_815_723 }
    );
    assert_eq!(
        pool.get_balances(),
        vec![895_520_800_000_000, 467_581_800_000_000 - 996_845_815_723]
    );
}

#[test]
fn stable_swap_scales_raw_amounts() {
    let mut pool = stable_pool(6, 894_520_800_000_000, 467_581_800_000_000);
    let transfers =
        stable_swap::handler(&mut pool, &mint_a(), &mint_b(), 1_000_000_000, 1).unwrap();
    assert_eq!(transfers.amount_in, 1_000_000_000);
    assert_eq!(transfers.amount_out, 996_845_815_723);
    let mut pool = stable_pool(6, 894_520_800_000_000, 467_581_800_000_000);
    let transfers =
        stable_swap::handler(&mut pool, &mint_b(), &mint_a(), 1_000_000_000_000, 1).unwrap();
    let scaled_out = 894_520_800_000_000 - pool.get_balances()[0];
    assert_eq!(transfers.amount_out, scaled_out / 1_000);
    assert_eq!(pool.get_balances()[1], 468_581_800_000_000);
}

#[test]
fn stable_swap_is_refused_and_leaves_the_pool() {
    let mut pool = stable_pool(9, 894_520_800_000_000, 467_581_800_000_000);
    let a = mint_a();
    let b = mint_b();
    assert_eq!(stable_swap::handler(&mut pool, &a, &b, 0, 1), Err(MiniStabbleError::InvalidAmount));
    assert_eq!(stable_swap::handler(&mut pool, &a, &b, 1, 0), Err(MiniStabbleError::InvalidAmount));
    assert_eq!(
        stable_swap::handler(&mut pool, &stranger(), &b, 1, 1),
        Err(MiniStabbleError::InvalidMint)
    );
    assert_eq!(stable_swap::handler(&mut pool, &b, &b, 1, 1), Err(MiniStabbleError::InvalidMint));
    assert_eq!(
        stable_swap::handler(&mut pool, &a, &b, 1_000_000_000_000, 996_845_815_724),
        Err(MiniStabbleError::SlippageExceeded)
    );
    // the engine finds no amount out
    assert_eq!(
        stable_swap::handler(&mut pool, &a, &b, u64::MAX, 1),
        Err(MiniStabbleError::InvalidAmount)
    );
    pool.is_active = false;
    assert_eq!(
        stable_swap::handler(&mut pool, &a, &b, 1_000, 1),
        Err(MiniStabbleError::PoolInActive)
    );
    assert_eq!(pool.get_balances(), vec![894_520_800_000_000, 467_581_800_000_000]);
}

#[test]
fn first_weighted_deposit_mints_the_root_of_the_product() {
    let mut pool = weighted_pool(6, 0, 0, 500_000_000);
    let transfers =
        deposit::handler(&mut pool, &mint_a(), &mint_b(), 0, 0, 4_000_000, 9_000_000_000).unwrap();
    assert_eq!(
        transfers,
        DepositTransfers { amount_a: 4_000_000, amount_b: 9_000_000_000, lp_to_mint: 6_000_000_000 }
    );
    assert_eq!(pool.get_balances(), vec![4_000_000_000, 9_000_000_000]);
}

#[test]
fn later_weighted_deposit_takes_what_the_shares_ask_for() {
    let mut pool = weighted_pool(6, 4_000_000_000, 9_000_000_000, 500_000_000);
    let transfers = deposit::handler(
        &mut pool,
        &mint_a(),
        &mint_b(),
        6_000_000_000_000,
        600,
        400_000,
        900_000_000,
    )
    .unwrap();
    assert_eq!(
        transfers,
        DepositTransfers { amount_a: 400_000, amount_b: 900_000_000, lp_to_mint: 600 }
    );
    assert_eq!(pool.get_balances(), vec![4_400_000_000, 9_900_000_000]);
}

#[test]
fn weighted_deposit_is_refused_and_leaves_the_pool() {
    let mut pool = weighted_pool(6, 4_000_000_000, 9_000_000_000, 500_000_000);
    let a = mint_a();
    let b = mint_b();
    assert_eq!(
        deposit::handler(&mut pool, &a, &b, 0, 0, 0, 1),
        Err(MiniStabbleError::InvalidAmount)
    );
    assert_eq!(
        deposit::handler(&mut pool, &a, &b, 0, 0, 1, 0),
        Err(MiniStabbleError::InvalidAmount)
    );
    assert_eq!(
        deposit::handler(&mut pool, &a, &b, 10, 0, 1, 1),
        Err(MiniStabbleError::InvalidAmount)
    );
    assert_eq!(
        deposit::handler(&mut pool, &a, &stranger(), 10, 1, 1, 1),
        Err(MiniStabbleError::InvalidMint)
    );
    assert_eq!(
        deposit::handler(&mut pool, &a, &b, 6_000_000_000_000, 600, 399_999, 900_000_000),
        Err(MiniStabbleError::SlippageExceeded)
    );
    assert_eq!(
        deposit::handler(&mut pool, &a, &b, 6_000_000_000_000, 600, 400_000, 899_999_999),
        Err(MiniStabbleError::SlippageExceeded)
    );
    assert_eq!(
        deposit::handler(&mut pool, &a, &b, 0, 0, u64::MAX, 1),
        Err(MiniStabbleError::MathOverflow)
    );
    assert_eq!(
        deposit::handler(&mut pool, &a, &b, 1, u64::MAX, u64::MAX, u64::MAX),
        Err(MiniStabbleError::MathOverflow)
    );
    pool.is_active = false;
    assert_eq!(
        deposit::handler(&mut pool, &a, &b, 0, 0, 1, 1),
        Err(MiniStabbleError::PoolInActive)
    );
    assert_eq!(pool.get_balances(), vec![4_000_000_000, 9_000_000_000]);
}

#[test]
fn unbalanced_deposit_charges_the_fee_on_the_excess() {
    let supply = 1_000_000_000_000;
    let mut pool = weighted_pool(9, 1_000_000_000_000, 500_000_000_000, 800_000_000);
    let transfers = deposit_unbalanced::handler(
        &mut pool,
        &mint_a(),
        &mint_b(),
        supply,
        1,
        100_000_000_000,
        10_000_000_000,
    )
    .unwrap();
    assert_eq!(
        transfers,
        DepositTransfers {
            amount_a: 100_000_000_000,
            amount_b: 10_000_000_000,
            lp_to_mint: 83_324_014_000
        }
    );
    assert_eq!(pool.get_balances(), vec![1_100_000_000_000, 510_000_000_000]);

    let mut pool = weighted_pool(9, 1_000_000_000_000, 500_000_000_000, 800_000_000);
    let transfers = deposit_unbalanced::handler(
        &mut pool,
        &mint_a(),
        &mint_b(),
        supply,
        1,
        10_000_000_000,
        100_000_000_000,
    )
    .unwrap();
    assert_eq!(transfers.lp_to_mint, 45_326_790_000);

    let mut pool = weighted_pool(9, 1_000_000_000_000, 500_000_000_000, 800_000_000);
    let transfers = deposit_unbalanced::handler(
        &mut pool,
        &mint_a(),
        &mint_b(),
        supply,
        1,
        20_000_000_000,
        10_000_000_000,
    )
    .unwrap();
    assert_eq!(transfers.lp_to_mint, 20_000_002_000);
}

#[test]
fn unbalanced_deposit_is_refused_and_leaves_the_pool() {
    let supply = 1_000_000_000_000;
    let mut pool = weighted_pool(9, 1_000_000_000_000, 500_000_000_000, 800_000_000);
    let a = mint_a();
    let b = mint_b();
    assert_eq!(
        deposit_unbalanced::handler(&mut pool, &a, &b, supply, 0, 1, 1),
        Err(MiniStabbleError::InvalidAmount)
    );
    assert_eq!(
        deposit_unbalanced::handler(&mut pool, &a, &b, supply, 1, 0, 1),
        Err(MiniStabbleError::InvalidAmount)
    );
    assert_eq!(
        deposit_unbalanced::handler(&mut pool, &a, &b, supply, 1, 1, 0),
        Err(MiniStabbleError::InvalidAmount)
    );
    assert_eq!(
        deposit_unbalanced::handler(&mut pool, &stranger(), &b, supply, 1, 1, 1),
        Err(MiniStabbleError::InvalidMint)
    );
    assert_eq!(
        deposit_unbalanced::handler(
            &mut pool,
            &a,
            &b,
            supply,
            83_324_014_001,
            100_000_000_000,
            10_000_000_000
        ),
        Err(MiniStabbleError::SlippageExceeded)
    );
    pool.is_active = false;
    assert_eq!(
        deposit_unbalanced::handler(&mut pool, &a, &b, supply, 1, 1, 1),
        Err(MiniStabbleError::PoolInActive)
    );
    assert_eq!(pool.get_balances(), vec![1_000_000_000_000, 500_000_000_000]);

    let mut empty = weighted_pool(9, 0, 0, 800_000_000);
    assert_eq!(
        deposit_unbalanced::handler(&mut empty, &a, &b, supply, 1, 1, 1),
        Err(MiniStabbleError::MathOverflow)
    );
}

#[test]
fn first_stable_deposit_mints_the_root_of_the_product() {
    let mut pool = stable_pool(6, 0, 0);
    let transfers =
        stable_deposit::handler(&mut pool, &mint_a(), &mint_b(), 0, 4_000_000, 9_000_000_000, 0)
            .unwrap();
    assert_eq!(
        transfers,
        DepositTransfers { amount_a: 4_000_000, amount_b: 9_000_000_000, lp_to_mint: 6_000_000_000 }
    );
    assert_eq!(pool.get_balances(), vec![4_000_000_000, 9_000_000_000]);
}

#[test]
fn later_stable_deposit_takes_each_balance_in_proportion() {
    let mut pool = stable_pool(6, 4_000_000_000, 9_000_000_000);
    let transfers = stable_deposit::handler(
        &mut pool,
        &mint_a(),
        &mint_b(),
        6_000_000_000,
        1_000_000,
        1_000_000_000,
        600_000_000,
    )
    .unwrap();
    assert_eq!(
        transfers,
        DepositTransfers { amount_a: 400_000, amount_b: 900_000_000, lp_to_mint: 600_000_000 }
    );
    assert_eq!(pool.get_balances(), vec![4_400_000_000, 9_900_000_000]);
}

#[test]
fn stable_deposit_is_refused_and_leaves_the_pool() {
    let mut pool = stable_pool(6, 4_000_000_000, 9_000_000_000);
    let a = mint_a();
    let b = mint_b();
    assert_eq!(
        stable_deposit::handler(&mut pool, &a, &b, 10, 0, 1, 1),
        Err(MiniStabbleError::InvalidAmount)
    );
    assert_eq!(
        stable_deposit::handler(&mut pool, &a, &b, 10, 1, 0, 1),
        Err(MiniStabbleError::InvalidAmount)
    );
    assert_eq!(
        stable_deposit::handler(&mut pool, &a, &b, 10, 1, 1, 0),
        Err(MiniStabbleError::InvalidAmount)
    );
    assert_eq!(
        stable_deposit::handler(&mut pool, &a, &stranger(), 10, 1, 1, 1),
        Err(MiniStabbleError::InvalidMint)
    );
    assert_eq!(
        stable_deposit::handler(
            &mut pool,
            &a,
            &b,
            6_000_000_000,
            399_999,
            1_000_000_000,
            600_000_000
        ),
        Err(MiniStabbleError::SlippageExceeded)
    );
    assert_eq!(
        stable_deposit::handler(&mut pool, &a, &b, 10, u64::MAX, 1, 1),
        Err(MiniStabbleError::MathOverflow)
    );
    assert_eq!(
        stable_deposit::handler(&mut pool, &a, &b, 10, 1, 1, u64::MAX),
        Err(MiniStabbleError::MathOverflow)
    );
    pool.is_active = false;
    assert_eq!(
        stable_deposit::handler(&mut pool, &a, &b, 10, 1, 1, 1),
        Err(MiniStabbleError::PoolInActive)
    );
    assert_eq!(pool.get_balances(), vec![4_000_000_000, 9_000_000_000]);
}
