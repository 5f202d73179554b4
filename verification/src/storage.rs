//! What a write to a storage slot of 256 bits amounts to.

use vstd::prelude::*;

verus! {

/// A value of 256 bits, as two halves.
#[derive(Clone, Copy, Debug, PartialEq, Eq, Structural)]
pub struct U256 {
    pub hi: u128,
    pub lo: u128,
}

/// The effect of a write on a storage item.
#[derive(Clone, Copy, Debug, PartialEq, Eq, Structural)]
pub enum StorageStatus {
    /// The value of a storage item has been left unchanged: 0 -> 0 and X -> X.
    Unchanged,
    /// The value of a storage item has been modified: X -> Y.
    Modified,
    /// A storage item has been modified after being modified before: X -> Y -> Z.
    ModifiedAgain,
    /// A new storage item has been added: 0 -> X.
    Added,
    /// A storage item has been deleted: X -> 0.
    Deleted,
}

/// What has to be done to the stored item.
#[derive(Clone, Copy, Debug, PartialEq, Eq, Structural)]
pub enum StorageWrite {
    /// Nothing.
    Keep,
    /// Remove the item.
    Delete,
    /// Store the value.
    Store(U256),
}

impl StorageStatus {
    /// The effect of writing `value` over `prev`, `None` standing for an
    /// item that is not there.
    pub open spec fn of_change(prev: Option<U256>, value: Option<U256>) -> StorageStatus {
        match (prev, value) {
            (None, None) => StorageStatus::Unchanged,
            (Some(_), None) => StorageStatus::Deleted,
            (None, Some(_)) => StorageStatus::Added,
            (Some(p), Some(n)) => if p == n {
                StorageStatus::Unchanged
            } else {
                StorageStatus::Modified
            },
        }
    }

    /// Decides what a write of `value` over `prev` does: the effect to
    /// report, and the change to make to the store. Nothing is written where
    /// the value stays the same.
    pub fn decide(prev: Option<U256>, value: Option<U256>) -> (r: (StorageStatus, StorageWrite))
        ensures
            r.0 == StorageStatus::of_change(prev, value),
            r.1 == match r.0 {
                StorageStatus::Unchanged => StorageWrite::Keep,
                StorageStatus::Deleted => StorageWrite::Delete,
                _ => StorageWrite::Store(value->Some_0),
            },
    {
        match (prev, value) {
            (None, None) => (StorageStatus::Unchanged, StorageWrite::Keep),
            (Some(_), None) => (StorageStatus::Deleted, StorageWrite::Delete),
            (None, Some(v)) => (StorageStatus::Added, StorageWrite::Store(v)),
            (Some(p), Some(n)) => if p == n {
                (StorageStatus::Unchanged, StorageWrite::Keep)
            } else {
                (StorageStatus::Modified, StorageWrite::Store(n))
            },
        }
    }
}

} // verus!
