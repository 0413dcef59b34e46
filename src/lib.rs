//! Fork-replay and voting core of a proof-of-stake validator: per-slot progress
//! bookkeeping, propagation tracking, vote and reset selection, root advancement
//! and the block-structure checks applied while replaying a slot.
use vstd::prelude::*;

pub mod blockstore_processor;
pub mod progress_map;
pub mod replay_stage;

verus! {

/// Position of a candidate block in time.
pub type Slot = u64;

/// Content digest of a frozen block or of a ledger entry.
pub type BlockHash = u64;

/// Identity of a validator node or of a vote account.
pub type Pubkey = u64;

/// Identity of a signed transaction.
pub type Signature = u64;

/// An amount of delegated stake.
pub type Stake = u64;

} // verus!
