//! The transactions that the full ledger is designed to have.
//!
//! These are declarations only: the traits say which transactions and views
//! a ledger offers and with which errors they fail. Nothing implements them
//! yet.
pub mod error;
pub mod types;

use vstd::prelude::*;

verus! {

/// The transactions of the ledger.
///
/// Each of them changes the state of the ledger and returns nothing when it
/// succeeds.
pub trait LedgerTransactions {
    /// Transfers coins from one account to another.
    fn transfer_oscoin(
        from_acc: types::AccountId,
        to_acc: types::AccountId,
        amount: types::Oscoin,
    ) -> Result<(), error::TransferError>;

    /// Registers a project and returns the new project's identifier.
    ///
    /// The sender of the transaction becomes the first maintainer of the
    /// project.
    fn register_project(project_source_url: types::URL) -> Result<
        types::ProjectId,
        error::RegisterProjectError,
    >;

    /// Adds a key to the set of keys of a project.
    fn addkey(id: types::ProjectId, maintainer_key: types::AccountId) -> Result<
        (),
        error::KeysetError,
    >;

    /// Removes a key from the set of keys of a project.
    fn removekey(id: types::ProjectId, maintainer_key: types::AccountId) -> Result<
        (),
        error::KeysetError,
    >;

    /// Removes a project from the ledger.
    fn unregister_project(id: types::ProjectId) -> Result<(), error::UnregisterProjectError>;

    /// Adds a checkpoint to a project. The new hash becomes the project's
    /// current hash. The dependency updates apply from left to right.
    fn checkpoint(
        project_account: types::AccountId,
        new_project_hash: types::Hash,
        project_url: types::URL,
        contribution_list: types::HashLinkedList<types::Contribution>,
        dependency_updates: Vec<types::DependencyUpdate>,
    ) -> Result<(), error::CheckpointError>;
}

/// Functions to access information from the ledger state.
pub trait LedgerView {
    /// The project registered at the given address, or `None` if no project
    /// was registered there or it was unregistered.
    fn get_project(project_address: types::AccountId) -> Option<types::Project>;

    /// The account at the given address. Every address has an account: one
    /// that never received anything is empty.
    fn get_account(address: types::AccountId) -> types::Account;
}

} // verus!
