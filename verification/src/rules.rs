//! Per-folder rules: brake thresholds, tier size limits and fetch slots.

use crate::ordmap::Value;
use vstd::prelude::*;

verus! {

/// Thresholds and limits for one folder.
#[derive(Clone, Copy, Debug, PartialEq, Eq, Hash, Structural)]
pub struct Rules {
    /// Deletions and modifications at or above this, together with the percentage rule, hold a
    /// batch. 0 switches the rule off.
    pub hold_count: u64,
    /// Deletions and modifications at or above this percent of the folder's tracked entries,
    /// together with the count rule, hold a batch.
    pub hold_pct: u8,
    /// A batch that writes more bytes than this is held.
    pub hold_size: u64,
    /// Files over this are deferred on a direct connection.
    pub direct_limit: u64,
    /// Files over this are deferred on a relayed connection.
    pub relay_limit: u64,
    /// Fetches from one peer at a time.
    pub max_fetches_per_peer: u32,
    /// Fetches in one folder at a time.
    pub max_fetches_per_folder: u32,
}

impl Rules {
    /// The rules of a folder that has none of its own: 50 entries and 25 percent, 20 GiB; 1 GiB
    /// direct and 50 MiB relayed; 4 fetches from a peer and 16 in a folder.
    pub open spec fn standard() -> Rules {
        Rules {
            hold_count: 50,
            hold_pct: 25,
            hold_size: 21_474_836_480,
            direct_limit: 1_073_741_824,
            relay_limit: 52_428_800,
            max_fetches_per_peer: 4,
            max_fetches_per_folder: 16,
        }
    }
}

impl Default for Rules {
    fn default() -> (r: Rules)
        ensures
            r == Rules::standard(),
    {
        Rules {
            hold_count: 50,
            hold_pct: 25,
            hold_size: 21_474_836_480,
            direct_limit: 1_073_741_824,
            relay_limit: 52_428_800,
            max_fetches_per_peer: 4,
            max_fetches_per_folder: 16,
        }
    }
}

impl DeepView for Rules {
    type V = Rules;

    open spec fn deep_view(&self) -> Rules {
        *self
    }
}

impl Value for Rules {
    fn dup(&self) -> (r: Rules) {
        *self
    }

    fn same(&self, other: &Rules) -> (r: bool) {
        *self == *other
    }
}

} // verus!
