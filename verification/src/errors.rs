use vstd::prelude::*;

verus! {

/// The failures that the engine and the accounting around it can signal.
#[derive(Clone, Copy, Debug, PartialEq, Eq, Structural)]
pub enum MiniStabbleError {
    /// A checked addition or multiplication exceeded the working width.
    MathOverflow,
    /// A fixed-point division had a zero divisor.
    DivideByZero,
    /// A structurally invalid amount: zero, empty, mismatched, or a
    /// solver that found no result.
    InvalidAmount,
    /// A result fell outside the bound that the caller asked for.
    SlippageExceeded,
    NoProfitableArbitrage,
    MintOrderInvalid,
    /// A token weight outside the open interval between zero and one.
    InvalidWeight,
    /// The pool does not accept trades at present.
    PoolInActive,
    /// The mint is not one of the pool's tokens.
    InvalidMint,
    /// The amplification is below the smallest accepted value.
    AmpTooLow,
    /// The amplification is above the largest accepted value.
    AmpTooHigh,
}

impl MiniStabbleError {
    /// The text of the message shown for this error.
    pub open spec fn message_text(&self) -> Seq<char> {
        match self {
            MiniStabbleError::MathOverflow => "Math overflow"@,
            MiniStabbleError::DivideByZero => "Divide by zero"@,
            MiniStabbleError::InvalidAmount => "Invalid token amount"@,
            MiniStabbleError::SlippageExceeded => "Slippage exceeded"@,
            MiniStabbleError::NoProfitableArbitrage => "No profitable arbitrage opportunity"@,
            MiniStabbleError::MintOrderInvalid => "Token A mint should be less than Token B Mint"@,
            MiniStabbleError::InvalidWeight => "Invalid Token Weight"@,
            MiniStabbleError::PoolInActive => "Pool is not active"@,
            MiniStabbleError::InvalidMint => "Mint is not part of the pool"@,
            MiniStabbleError::AmpTooLow => "Amplification too low"@,
            MiniStabbleError::AmpTooHigh => "Amplification too high"@,
        }
    }

    /// The message shown for this error.
    pub fn message(&self) -> (text: &'static str)
        ensures
            text@ == self.message_text(),
    {
        match self {
            MiniStabbleError::MathOverflow => "Math overflow",
            MiniStabbleError::DivideByZero => "Divide by zero",
            MiniStabbleError::InvalidAmount => "Invalid token amount",
            MiniStabbleError::SlippageExceeded => "Slippage exceeded",
            MiniStabbleError::NoProfitableArbitrage => "No profitable arbitrage opportunity",
            MiniStabbleError::MintOrderInvalid => "Token A mint should be less than Token B Mint",
            MiniStabbleError::InvalidWeight => "Invalid Token Weight",
            MiniStabbleError::PoolInActive => "Pool is not active",
            MiniStabbleError::InvalidMint => "Mint is not part of the pool",
            MiniStabbleError::AmpTooLow => "Amplification too low",
            MiniStabbleError::AmpTooHigh => "Amplification too high",
        }
    }
}

} // verus!
