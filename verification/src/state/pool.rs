//! Pool tokens and the two kinds of pool.
//!
//! Balances are held in scaled units: a raw amount times the token's scaling
//! factor, so that tokens of different decimals meet on one decimal base.
use crate::math::fixed::ONE_U64;
use crate::math::stable::{AMP_PRECISION, MAX_AMP, MIN_AMP};
use vstd::prelude::*;

verus! {

/// The fewest tokens that a pool holds.
pub const MIN_TOKENS: usize = 2;

/// The most tokens that a pool holds.
pub const MAX_TOKENS: usize = 8;

/// The identity of a mint or an account: 32 bytes, ordered as byte strings.
#[derive(Clone, Copy, Debug)]
pub struct Address {
    pub bytes: [u8; 32],
}

/// Whether `a` and `b` agree before the place `k` and `a` holds the
/// smaller byte there.
pub open spec fn smaller_at(a: Seq<u8>, b: Seq<u8>, k: int) -> bool {
    0 <= k < a.len() && k < b.len() && a[k] < b[k] && a.take(k) == b.take(k)
}

/// Whether the byte string `a` comes before `b`: at the first place where
/// the two differ, `a` holds the smaller byte.
pub open spec fn bytes_precede(a: Seq<u8>, b: Seq<u8>) -> bool {
    exists|k: int| smaller_at(a, b, k)
}

impl Address {
    /// Whether the two addresses are the same.
    pub fn same(&self, other: &Address) -> (result: bool)
        ensures
            result == (self.bytes@ == other.bytes@),
    {
        let mut i: usize = 0;
        while i < 32
            invariant
                i <= 32,
                forall|j: int| 0 <= j < i ==> self.bytes@[j] == other.bytes@[j],
            decreases 32 - i,
        {
            if self.bytes[i] != other.bytes[i] {
                return false;
            }
            i = i + 1;
        }
        assert(self.bytes@ =~= other.bytes@);
        true
    }

    /// Whether this address comes before the other.
    pub fn precedes(&self, other: &Address) -> (result: bool)
        ensures
            result == bytes_precede(self.bytes@, other.bytes@),
    {
        let mut i: usize = 0;
        while i < 32
            invariant
                i <= 32,
                self.bytes@.take(i as int) == other.bytes@.take(i as int),
            decreases 32 - i,
        {
            if self.bytes[i] != other.bytes[i] {
                let before = self.bytes[i] < other.bytes[i];
                proof {
                    lemma_first_difference_decides(self.bytes@, other.bytes@, i as int);
                }
                return before;
            }
            proof {
                assert(self.bytes@.take(i + 1) =~= self.bytes@.take(i as int).push(
                    self.bytes@[i as int],
                ));
                assert(other.bytes@.take(i + 1) =~= other.bytes@.take(i as int).push(
                    other.bytes@[i as int],
                ));
            }
            i = i + 1;
        }
        proof {
            assert(self.bytes@.take(32) =~= self.bytes@);
            assert(other.bytes@.take(32) =~= other.bytes@);
            assert forall|k: int| !smaller_at(self.bytes@, other.bytes@, k) by {}
        }
        false
    }
}

/// Where two byte strings first differ at `at`, the bytes there decide which
/// comes first.
pub proof fn lemma_first_difference_decides(a: Seq<u8>, b: Seq<u8>, at: int)
    requires
        0 <= at < a.len(),
        at < b.len(),
        a.take(at) == b.take(at),
        a[at] != b[at],
    ensures
        bytes_precede(a, b) == (a[at] < b[at]),
{
    if a[at] < b[at] {
        assert(smaller_at(a, b, at));
    }
    if bytes_precede(a, b) {
        let k = choose|k: int| smaller_at(a, b, k);
        if k < at {
            assert(a.take(at)[k] == a[k]);
            assert(b.take(at)[k] == b[k]);
            assert(false);
        } else if k > at {
            assert(a.take(k)[at] == a[at]);
            assert(b.take(k)[at] == b[at]);
            assert(false);
        }
        assert(k == at);
    }
}

/// `10^e`.
pub open spec fn pow10(e: nat) -> nat
    decreases e,
{
    if e == 0 {
        1
    } else {
        10 * pow10((e - 1) as nat)
    }
}

/// The factor that brings a token of `decimals` decimals to the pool's
/// common base of `max_decimals`: `10^(max_decimals - decimals)`, where it
/// fits 64 bits.
pub fn scaling_factor_for(max_decimals: u8, decimals: u8) -> (result: Option<u64>)
    ensures
        result == if decimals <= max_decimals && pow10((max_decimals - decimals) as nat)
            <= u64::MAX {
            Some(pow10((max_decimals - decimals) as nat) as u64)
        } else {
            None
        },
        result.is_some() ==> result.unwrap() >= 1,
{
    if decimals > max_decimals {
        return None;
    }
    let exponent: u8 = max_decimals - decimals;
    let mut factor: u64 = 1;
    let mut i: u8 = 0;
    while i < exponent
        invariant
            i <= exponent,
            decimals <= max_decimals,
            exponent == max_decimals - decimals,
            factor == pow10(i as nat),
            factor >= 1,
        decreases exponent - i,
    {
        factor = match factor.checked_mul(10) {
            None => {
                proof {
                    lemma_pow10_grows((i + 1) as nat, exponent as nat);
                }
                return None;
            },
            Some(v) => v,
        };
        i = i + 1;
    }
    Some(factor)
}

/// Powers of ten grow with the exponent.
pub proof fn lemma_pow10_grows(smaller: nat, larger: nat)
    requires
        smaller <= larger,
    ensures
        1 <= pow10(smaller) <= pow10(larger),
    decreases larger,
{
    if larger == 0 {
    } else if smaller == larger {
        lemma_pow10_grows((smaller - 1) as nat, (larger - 1) as nat);
    } else {
        lemma_pow10_grows(smaller, (larger - 1) as nat);
    }
}

/// One token of a pool.
#[derive(Clone, Copy, Debug)]
pub struct PoolToken {
    /// The token's mint.
    pub mint: Address,
    /// The account in which the pool keeps the token.
    pub token_account: Address,
    /// The decimals of the mint.
    pub decimals: u8,
    /// The factor between raw and scaled amounts.
    pub scaling_factor: u64,
    /// The pool's balance of the token, in scaled units.
    pub balance: u64,
    /// The token's weight, a fraction of `ONE_U64`; zero in a stable pool.
    pub weight: u64,
}

impl PoolToken {
    /// A raw amount in scaled units.
    ///
    /// The product has to fit 64 bits; `checked_scale_amount_up` tests it.
    pub fn scale_amount_up(&self, raw_amount: u64) -> (scaled: u64)
        requires
            raw_amount * self.scaling_factor <= u64::MAX,
        ensures
            scaled == raw_amount * self.scaling_factor,
    {
        raw_amount * self.scaling_factor
    }

    /// A raw amount in scaled units, where the product fits 64 bits.
    pub fn checked_scale_amount_up(&self, raw_amount: u64) -> (scaled: Option<u64>)
        ensures
            scaled == if raw_amount * self.scaling_factor <= u64::MAX {
                Some((raw_amount * self.scaling_factor) as u64)
            } else {
                None
            },
    {
        raw_amount.checked_mul(self.scaling_factor)
    }

    /// A scaled amount in raw units, rounded down.
    ///
    /// The scaling factor must not be zero; `checked_scale_amount_down`
    /// tests it.
    pub fn scale_amount_down(&self, scaled_amount: u64) -> (raw: u64)
        requires
            self.scaling_factor != 0,
        ensures
            raw == scaled_amount / self.scaling_factor,
    {
        scaled_amount / self.scaling_factor
    }

    /// A scaled amount in raw units, rounded down, where the scaling factor
    /// is not zero.
    pub fn checked_scale_amount_down(&self, scaled_amount: u64) -> (raw: Option<u64>)
        ensures
            raw == if self.scaling_factor != 0 {
                Some(scaled_amount / self.scaling_factor)
            } else {
                None
            },
    {
        if self.scaling_factor == 0 {
            None
        } else {
            Some(scaled_amount / self.scaling_factor)
        }
    }
}

/// The place of the first token with the given mint, if there is one.
pub open spec fn index_of_mint(tokens: Seq<PoolToken>, mint: Address, count: nat) -> Option<
    usize,
>
    decreases count,
{
    if count == 0 {
        None
    } else {
        match index_of_mint(tokens, mint, (count - 1) as nat) {
            Some(i) => Some(i),
            None => if tokens[count - 1].mint.bytes@ == mint.bytes@ {
                Some((count - 1) as usize)
            } else {
                None
            },
        }
    }
}

/// The balances of the tokens, in their order.
pub open spec fn balances_of(tokens: Seq<PoolToken>) -> Seq<u64> {
    Seq::new(tokens.len(), |i: int| tokens[i].balance)
}

/// The weights of the tokens, in their order.
pub open spec fn weights_of(tokens: Seq<PoolToken>) -> Seq<u64> {
    Seq::new(tokens.len(), |i: int| tokens[i].weight)
}

/// The sum of the weights of the first `count` tokens.
pub open spec fn weight_sum(tokens: Seq<PoolToken>, count: nat) -> int
    decreases count,
{
    if count == 0 {
        0
    } else {
        weight_sum(tokens, (count - 1) as nat) + tokens[count - 1].weight
    }
}

/// The place of the first token with the given mint.
fn find_token(tokens: &Vec<PoolToken>, mint: &Address) -> (result: Option<usize>)
    ensures
        result == index_of_mint(tokens@, *mint, tokens@.len()),
        result.is_some() ==> result.unwrap() < tokens@.len() && tokens@[result.unwrap() as int].mint.bytes@
            == mint.bytes@,
{
    let mut i: usize = 0;
    while i < tokens.len()
        invariant
            i <= tokens@.len(),
            index_of_mint(tokens@, *mint, i as nat).is_none(),
        decreases tokens@.len() - i,
    {
        if tokens[i].mint.same(mint) {
            proof {
                lemma_index_of_mint_stays(tokens@, *mint, (i + 1) as nat, tokens@.len());
            }
            return Some(i);
        }
        i = i + 1;
    }
    None
}

/// Once a mint is found among the first tokens, more tokens do not change
/// its place.
pub proof fn lemma_index_of_mint_stays(
    tokens: Seq<PoolToken>,
    mint: Address,
    count: nat,
    longer: nat,
)
    requires
        index_of_mint(tokens, mint, count).is_some(),
        count <= longer,
    ensures
        index_of_mint(tokens, mint, longer) == index_of_mint(tokens, mint, count),
    decreases longer,
{
    if longer > count {
        lemma_index_of_mint_stays(tokens, mint, count, (longer - 1) as nat);
    }
}

/// The balances of the tokens, in their order.
fn collect_balances(tokens: &Vec<PoolToken>) -> (result: Vec<u64>)
    ensures
        result@ == balances_of(tokens@),
{
    let mut balances: Vec<u64> = Vec::with_capacity(tokens.len());
    let mut i: usize = 0;
    while i < tokens.len()
        invariant
            i <= tokens@.len(),
            balances@.len() == i,
            forall|j: int| 0 <= j < i ==> balances@[j] == tokens@[j].balance,
        decreases tokens@.len() - i,
    {
        balances.push(tokens[i].balance);
        i = i + 1;
    }
    assert(balances@ =~= balances_of(tokens@));
    balances
}

/// The token with another balance.
pub open spec fn with_balance(token: PoolToken, balance: u64) -> PoolToken {
    PoolToken { balance, ..token }
}

/// The tokens with other balances at the places `i` and `j`.
pub open spec fn with_balances(
    tokens: Seq<PoolToken>,
    i: int,
    balance_i: u64,
    j: int,
    balance_j: u64,
) -> Seq<PoolToken> {
    tokens.update(i, with_balance(tokens[i], balance_i)).update(
        j,
        with_balance(tokens[j], balance_j),
    )
}

/// Whether two lists of tokens differ in nothing but balances.
pub open spec fn same_but_balances(before: Seq<PoolToken>, after: Seq<PoolToken>) -> bool {
    &&& before.len() == after.len()
    &&& forall|k: int|
        0 <= k < before.len() ==> (#[trigger] after[k]) == with_balance(before[k], after[k].balance)
}

/// Tokens that differ in nothing but balances have the same sum of weights,
/// and a mint has the same place among them.
pub proof fn lemma_same_but_balances(
    before: Seq<PoolToken>,
    after: Seq<PoolToken>,
    mint: Address,
    count: nat,
)
    requires
        same_but_balances(before, after),
        count <= before.len(),
    ensures
        weight_sum(after, count) == weight_sum(before, count),
        index_of_mint(after, mint, count) == index_of_mint(before, mint, count),
    decreases count,
{
    if count > 0 {
        lemma_same_but_balances(before, after, mint, (count - 1) as nat);
        assert(after[count - 1] == with_balance(before[count - 1], after[count - 1].balance));
    }
}

/// Replaces the balances of the tokens at two different places.
pub fn set_balances(
    tokens: &mut Vec<PoolToken>,
    i: usize,
    balance_i: u64,
    j: usize,
    balance_j: u64,
)
    requires
        i < old(tokens)@.len(),
        j < old(tokens)@.len(),
        i != j,
    ensures
        final(tokens)@ == with_balances(old(tokens)@, i as int, balance_i, j as int, balance_j),
        same_but_balances(old(tokens)@, final(tokens)@),
        final(tokens)@[i as int].balance == balance_i,
        final(tokens)@[j as int].balance == balance_j,
{
    let token_i = tokens[i];
    let token_j = tokens[j];
    tokens.set(i, PoolToken { balance: balance_i, ..token_i });
    tokens.set(j, PoolToken { balance: balance_j, ..token_j });
}

/// A pool of the constant weighted product.
#[derive(Clone, Debug)]
pub struct WeightedPool {
    /// The address that signs for the pool's transfers.
    pub authority: Address,
    /// The mint of the pool's shares.
    pub lp_mint: Address,
    /// Whether trading is enabled.
    pub is_active: bool,
    /// The invariant as last stored.
    pub cached_invariant: u64,
    /// The swap fee, a fraction of `ONE_U64`.
    pub swap_fee: u64,
    /// The pool's tokens.
    pub tokens: Vec<PoolToken>,
    /// The bump seed of the pool's address.
    pub bump: u8,
}

impl WeightedPool {
    /// What holds of a weighted pool as it is created: two to eight tokens,
    /// a fee below one, every weight strictly between zero and one, the
    /// weights summing to one, and no scaling factor of zero.
    pub open spec fn well_formed(&self) -> bool {
        &&& MIN_TOKENS <= self.tokens@.len() <= MAX_TOKENS
        &&& self.swap_fee < ONE_U64
        &&& forall|i: int|
            0 <= i < self.tokens@.len() ==> 0 < (#[trigger] self.tokens@[i]).weight < ONE_U64
        &&& weight_sum(self.tokens@, self.tokens@.len()) == ONE_U64
        &&& forall|i: int|
            0 <= i < self.tokens@.len() ==> (#[trigger] self.tokens@[i]).scaling_factor >= 1
    }

    /// A pool whose tokens change in nothing but balances stays well formed.
    pub proof fn lemma_well_formed_kept(self, after: WeightedPool)
        requires
            self.well_formed(),
            same_but_balances(self.tokens@, after.tokens@),
            after.swap_fee == self.swap_fee,
        ensures
            after.well_formed(),
    {
        lemma_same_but_balances(self.tokens@, after.tokens@, self.lp_mint, self.tokens@.len());
        assert forall|i: int| 0 <= i < after.tokens@.len() implies 0 < (
        #[trigger] after.tokens@[i]).weight < ONE_U64 && after.tokens@[i].scaling_factor >= 1 by {
            assert(after.tokens@[i] == with_balance(self.tokens@[i], after.tokens@[i].balance));
        }
    }

    /// The place of the token with the given mint.
    pub fn get_token_index(&self, mint: &Address) -> (result: Option<usize>)
        ensures
            result == index_of_mint(self.tokens@, *mint, self.tokens@.len()),
            result.is_some() ==> result.unwrap() < self.tokens@.len()
                && self.tokens@[result.unwrap() as int].mint.bytes@ == mint.bytes@,
    {
        find_token(&self.tokens, mint)
    }

    /// The balances of the pool's tokens.
    pub fn get_balances(&self) -> (result: Vec<u64>)
        ensures
            result@ == balances_of(self.tokens@),
    {
        collect_balances(&self.tokens)
    }

    /// The weights of the pool's tokens.
    pub fn get_weights(&self) -> (result: Vec<u64>)
        ensures
            result@ == weights_of(self.tokens@),
    {
        let mut weights: Vec<u64> = Vec::with_capacity(self.tokens.len());
        let mut i: usize = 0;
        while i < self.tokens.len()
            invariant
                i <= self.tokens@.len(),
                weights@.len() == i,
                forall|j: int| 0 <= j < i ==> weights@[j] == self.tokens@[j].weight,
            decreases self.tokens@.len() - i,
        {
            weights.push(self.tokens[i].weight);
            i = i + 1;
        }
        assert(weights@ =~= weights_of(self.tokens@));
        weights
    }
}

/// A StableSwap pool.
#[derive(Clone, Debug)]
pub struct StablePool {
    /// The address that signs for the pool's transfers.
    pub authority: Address,
    /// The mint of the pool's shares.
    pub lp_mint: Address,
    /// Whether trading is enabled.
    pub is_active: bool,
    /// The invariant as last stored.
    pub cached_invariant: u64,
    /// The swap fee, a fraction of `ONE_U64`.
    pub swap_fee: u64,
    /// The amplification, times `AMP_PRECISION`.
    pub amp: u64,
    /// The amplification that a ramp leads to.
    pub amp_target: u64,
    /// When the ramp starts.
    pub amp_start_ts: i64,
    /// When the ramp ends.
    pub amp_end_ts: i64,
    /// The pool's tokens.
    pub tokens: Vec<PoolToken>,
    /// The bump seed of the pool's address.
    pub bump: u8,
}

impl StablePool {
    /// What holds of a stable pool: two to eight tokens, a fee below one,
    /// an amplification within its bounds, and no scaling factor of zero.
    pub open spec fn well_formed(&self) -> bool {
        &&& MIN_TOKENS <= self.tokens@.len() <= MAX_TOKENS
        &&& self.swap_fee < ONE_U64
        &&& MIN_AMP * AMP_PRECISION <= self.amp <= MAX_AMP * AMP_PRECISION
        &&& forall|i: int|
            0 <= i < self.tokens@.len() ==> (#[trigger] self.tokens@[i]).scaling_factor >= 1
    }

    /// A pool whose tokens change in nothing but balances stays well formed.
    pub proof fn lemma_well_formed_kept(self, after: StablePool)
        requires
            self.well_formed(),
            same_but_balances(self.tokens@, after.tokens@),
            after.swap_fee == self.swap_fee,
            after.amp == self.amp,
        ensures
            after.well_formed(),
    {
        assert forall|i: int| 0 <= i < after.tokens@.len() implies (
        #[trigger] after.tokens@[i]).scaling_factor >= 1 by {
            assert(after.tokens@[i] == with_balance(self.tokens@[i], after.tokens@[i].balance));
        }
    }

    /// The place of the token with the given mint.
    pub fn get_token_index(&self, mint: &Address) -> (result: Option<usize>)
        ensures
            result == index_of_mint(self.tokens@, *mint, self.tokens@.len()),
            result.is_some() ==> result.unwrap() < self.tokens@.len()
                && self.tokens@[result.unwrap() as int].mint.bytes@ == mint.bytes@,
    {
        find_token(&self.tokens, mint)
    }

    /// The balances of the pool's tokens.
    pub fn get_balances(&self) -> (result: Vec<u64>)
        ensures
            result@ == balances_of(self.tokens@),
    {
        collect_balances(&self.tokens)
    }

    /// The amplification in force.
    pub fn get_current_amp(&self) -> (result: u64)
        ensures
            result == self.amp,
    {
        self.amp
    }
}

} // verus!
