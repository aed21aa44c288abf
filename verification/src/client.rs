//! What a client of the ledger decides about the answers of a node.
use vstd::prelude::*;

verus! {

/// Whether a transaction failed, going by the status of its receipt.
///
/// A node reports the failure of a transaction only as a status of zero.
/// A receipt without a status counts as a success.
pub fn transaction_failed(status: Option<u64>) -> (failed: bool)
    ensures
        failed == (status == Some(0u64)),
{
    match status {
        Some(code) => code == 0,
        None => false,
    }
}

} // verus!
