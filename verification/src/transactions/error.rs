//! The errors with which the transactions of the ledger fail.
use vstd::prelude::*;

verus! {

/// Errors that a transfer of coins may raise.
pub enum TransferError {
    /// The sending account holds less than the amount to transfer.
    InsufficientBalanceError,
    /// The contract of the sending or of the receiving address did not
    /// authorize the transfer.
    ContractDeniedError,
}

/// Errors that may occur when a project is registered.
pub enum RegisterProjectError {
    /// A project is already registered under the account identifier.
    AccountIdInUseError,
    /// The canonical source URL of the project is not valid.
    InvalidURLError,
}

/// Errors that may occur when a key is added to or removed from a project.
pub enum KeysetError {
    /// No project is registered under the account identifier.
    AccountIfNotInUseError,
}

/// Errors that may happen when a project is unregistered. No causes are
/// told apart so far.
pub enum UnregisterProjectError {
    /// The project could not be unregistered.
    Failed,
}

/// Errors that may occur when a project is checkpointed.
pub enum CheckpointError {
    /// A dependency update adds a dependency that the project already has.
    UsedDependencyAddedError,
    /// A dependency update removes a dependency that the project does not
    /// have.
    UnusedDependencyRemovedError,
    /// The list of dependency updates names a dependency twice.
    DuplicateDependenciesError,
}

/// Errors that may occur when the handler of a project's contract is
/// updated.
pub enum ContractUpdateError {
    /// The code of the new handler was rejected, for instance because it
    /// is too large.
    InvalidHandlerCodeError,
    /// The handler to update does not exist.
    NonExistentHandlerNameError,
    /// The contract's own update handler rejected the update.
    UpdateRejectedError,
}

} // verus!
