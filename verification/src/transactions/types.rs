//! The data that the transactions of the ledger speak of.
use vstd::prelude::*;

verus! {

/// An address of the ledger. What it consists of is left open.
pub struct Address;

/// The identifier of an account.
pub type AccountId = Address;

/// The identifier of a project.
pub type ProjectId = Address;

/// A public key. What it consists of is left open.
pub struct PublicKey;

/// A hash digest, for instance of a commit.
pub struct Hash;

/// A URL, for instance of a project's page.
pub struct URL;

/// An amount of coins. Its number type is left open.
pub struct Oscoin;

/// The author of a contribution.
pub struct Author;

/// An account: how many transactions it sent, and what it holds.
pub struct Account {
    pub nonce: u64,
    pub balance: Oscoin,
}

/// A project in the ledger.
pub struct Project {
    pub addr: Address,
    /// The hash of the project's latest commit.
    pub hash: Hash,
    pub url: URL,
}

/// A list whose members are linked by hashes: each member names the hash of
/// the member before it.
///
/// For two consecutive members, the commit hash of the first is the
/// previous hash of the second. The previous hash of the first member is
/// the last hash of the checkpoint before, or empty at a project's first
/// checkpoint.
#[verifier::reject_recursive_types(T)]
pub struct HashLinkedList<T> {
    pub contributions: core::marker::PhantomData<T>,
}

/// A contribution to a project, as a checkpoint lists it.
pub struct Contribution {
    pub prev: Hash,
    pub commit: Hash,
    pub author: Author,
    pub signoff: PublicKey,
}

/// A change to the dependencies of a project, as a checkpoint lists it.
pub enum DependencyUpdate {
    /// Adds a dependency.
    Depend {
        /// Address of the project that becomes a dependency.
        addr: Address,
        /// Zero-based index of the checkpoint in which it is added.
        cp_index: u64,
    },
    /// Removes a dependency.
    Undepend {
        /// Address of the project that stops being a dependency.
        addr: Address,
        /// Zero-based index of the checkpoint in which it is removed.
        cp_index: u64,
    },
}

} // verus!
