//! Client-side-validation reconciliation for contracts anchored in a
//! blockchain: the merge algebra of witnesses and anchors, consignments and
//! their history replay, and the construction of consignments from a stash.

use vstd::prelude::*;

pub mod anchors;
pub mod consignment;
pub mod inventory;
pub mod operations;

verus! {

/// Identifier of a witness transaction.
pub type Txid = u64;

/// Identifier of a transition bundle (the message committed into an anchor).
pub type BundleId = u64;

/// Identifier of a contract operation (genesis, transition or extension).
pub type OpId = u64;

} // verus!
