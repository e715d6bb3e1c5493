//! Failure taxonomy shared by every state transition.

use vstd::prelude::*;

verus! {

/// Why a transition was rejected. Every failure aborts the whole transition
/// with no state change; the variants separate business-rule rejections
/// (`InvalidFee`, `InvalidTokenMint`, `InsufficientDepositAmount`,
/// `SwapResultUnderflow`) from consistency faults (`InvariantViolation`,
/// `ArithmeticOverflow`, `InvalidOperand`) and from custody-side refusals
/// (`TransferFailure`).
#[derive(Clone, Copy, Debug, PartialEq, Eq, Structural)]
pub enum CustomError {
    /// A fee of 10000 basis points or more was asked of `initialize_amm`.
    InvalidFee,
    /// The two asset identifiers of a new pool coincide.
    InvalidTokenMint,
    /// A first deposit would mint fewer shares than the withheld minimum.
    InsufficientDepositAmount,
    /// A swap's computed output fell below the caller's stated minimum.
    SwapResultUnderflow,
    /// The constant-product invariant decreased across a trade.
    InvariantViolation,
    /// An exact arithmetic result did not fit its fixed-point representation.
    ArithmeticOverflow,
    /// An operand outside an operation's domain, such as a negative square-root input.
    InvalidOperand,
    /// The custody collaborator cannot honour the requested movement,
    /// such as burning more shares than circulate.
    TransferFailure,
}

} // verus!
