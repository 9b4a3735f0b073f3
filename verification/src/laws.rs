//! What holds across the encodings: replaying the same skips on each of
//! them leaves them in agreement.

use vstd::prelude::*;
use crate::bitmask_skipfield::BitmaskSkipfield;
use crate::bool_skipfield::BoolSkipfield;
use crate::lcjc_skipfield::LCJCSkipfield;
use crate::model::{active_indices, all_active, count_active, count_skipped, first_active};
use crate::model::lemma_counts_partition;

verus! {

/// The flags of a space of `n` slots, fully active at first, after the
/// slots `ops` have been skipped one after the other.
pub open spec fn skipped_in_turn(n: nat, ops: Seq<int>) -> Seq<bool>
    decreases ops.len(),
{
    if ops.len() == 0 {
        all_active(n)
    } else {
        skipped_in_turn(n, ops.drop_last()).update(ops.last(), true)
    }
}

/// Replaying skips keeps the number of slots, and the active and the
/// skipped slots still add up to it.
pub proof fn lemma_replay_keeps_partition(n: nat, ops: Seq<int>)
    requires
        forall|k: int| 0 <= k < ops.len() ==> 0 <= #[trigger] ops[k] < n,
    ensures
        skipped_in_turn(n, ops).len() == n,
        count_active(skipped_in_turn(n, ops)) + count_skipped(skipped_in_turn(n, ops)) == n,
    decreases ops.len(),
{
    if ops.len() > 0 {
        lemma_replay_keeps_partition(n, ops.drop_last());
    }
    lemma_counts_partition(skipped_in_turn(n, ops));
}

/// The flag array, the bitmask and the run counters, each made with `n`
/// slots and taken through the same skips, list the same active indices,
/// count alike and name the same first active slot.
pub proof fn lemma_encodings_agree(
    flags: BoolSkipfield,
    mask: BitmaskSkipfield,
    runs: LCJCSkipfield,
    n: nat,
    ops: Seq<int>,
)
    requires
        mask.wf(),
        runs.wf(),
        flags@ == skipped_in_turn(n, ops),
        mask@ == skipped_in_turn(n, ops),
        runs@ == skipped_in_turn(n, ops),
    ensures
        active_indices(flags@) == active_indices(mask@),
        active_indices(flags@) == active_indices(runs@),
        count_skipped(flags@) == count_skipped(mask@),
        count_skipped(flags@) == count_skipped(runs@),
        count_active(flags@) == count_active(mask@),
        count_active(flags@) == count_active(runs@),
        first_active(flags@) == first_active(mask@),
        first_active(flags@) == first_active(runs@),
{
}

} // verus!
