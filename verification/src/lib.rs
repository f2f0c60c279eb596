//! Versioned chain-state core: a persistent, structurally shared key-value
//! structure, the unspent-output ledger built on it, and the multiverse store
//! that keeps one immutable ledger snapshot per block and reclaims snapshots
//! that are old, unpinned and far behind the longest known chain.

pub mod digest;
pub mod pmap;
pub mod utxo;
pub mod multiverse;
pub mod pots;
pub mod error;

use vstd::prelude::*;

verus! {

} // verus!
