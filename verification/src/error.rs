//! Error taxonomy: input validation, per-leg transfer failures, and not-found.

use vstd::prelude::*;

verus! {

/// Caller-visible failure codes of the two handlers.
///
/// The three vault-related codes are the per-leg failures of the take
/// operation; the rest reject invalid input before any state is touched.
#[derive(Clone, Copy, Debug, PartialEq, Eq, Structural)]
pub enum ErrorCode {
    /// Leg 1 of a take failed: the custody account could not be drained.
    FailedVaultWithdrawal,
    /// Leg 2 of a take failed: the custody account could not be closed.
    FailedVaultClosure,
    /// Leg 3 of a take failed: the taker cannot pay the wanted amount.
    InsufficientTakerBalance,
    /// The maker does not hold the offered amount of asset A.
    InsufficientMakerBalance,
    /// The offered amount must be positive.
    InvalidAmount,
    /// An offer with the same (maker, id) key already exists.
    DuplicateOffer,
    /// No offer exists under the given (maker, id) key.
    OfferNotFound,
    /// The supplied accounts do not match the offer record's terms.
    AccountMismatch,
}

/// Failure codes of the shared transfer adapter, the single choke point
/// through which every balance movement passes.  Handlers map these to an
/// `ErrorCode` specific to the failing leg.
#[derive(Clone, Copy, Debug, PartialEq, Eq, Structural)]
pub enum TransferError {
    /// The presented authorization does not control the source account.
    Unauthorized,
    /// The source account holds less than the requested amount.
    InsufficientFunds,
    /// The destination balance would exceed the representable maximum.
    Overflow,
    /// The touched account does not exist (custody accounts are never
    /// created implicitly).
    AccountNotFound,
    /// Only an empty account can be closed.
    AccountNotEmpty,
}

} // verus!
