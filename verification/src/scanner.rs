use vstd::prelude::*;

verus! {

/// Progress is reported every this many files discovered during the walk.
pub const WALK_REPORT_EVERY: u32 = 200;
/// Progress is reported every this many rows stored during the upsert.
pub const INSERT_REPORT_EVERY: u32 = 50;

/// Report walk progress after `discovered` files (every 200th).
pub fn walk_tick(discovered: u32) -> (r: bool)
    ensures
        r == (discovered % 200 == 0),
{
    discovered % WALK_REPORT_EVERY == 0
}

/// Report upsert progress after `indexed` of `total` rows (every 50th, and
/// the last one).
pub fn insert_tick(indexed: u32, total: u32) -> (r: bool)
    ensures
        r == (indexed % 50 == 0 || indexed == total),
{
    indexed % INSERT_REPORT_EVERY == 0 || indexed == total
}

} // verus!
