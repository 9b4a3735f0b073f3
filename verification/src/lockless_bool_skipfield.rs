//! The atomic encoding: one atomic flag per slot, for concurrent use.
//!
//! A flag is `true` while its slot is active. Each operation on one slot is
//! a single atomic swap or load, acquire on read and release on write, so
//! operations on the same slot are linearizable. Nothing orders operations
//! on different slots: a scan over all slots sees each slot at the moment
//! it reads it. Other threads may change a flag at any time, so what a swap
//! or a load returns is not determined by the caller's own earlier calls,
//! and the contracts promise of it only what holds whatever it was.

use vstd::prelude::*;
use std::sync::atomic::AtomicBool;
use std::sync::atomic::Ordering;
use crate::model::active_indices;
use crate::model::lemma_active_indices_exact;

verus! {

/// A skipfield of atomic flags that threads share without locking.
pub struct LockLessBoolSkipfield {
    flags: Vec<AtomicBool>,
}

/// The skip flags that a reading of activity flags stands for: a slot is
/// skipped where its flag was read as `false`.
pub open spec fn skipped_where_unset(seen: Seq<bool>) -> Seq<bool> {
    Seq::new(seen.len(), |i: int| !seen[i])
}

/// The indices at which a reading of the flags found an active slot, in
/// ascending order.
pub fn alive_in(seen: &[bool]) -> (r: Vec<usize>)
    ensures
        r@ == active_indices(skipped_where_unset(seen@)),
{
    let n: usize = seen.len();
    let ghost skipped = skipped_where_unset(seen@);
    let mut out: Vec<usize> = Vec::new();
    let mut i: usize = 0;
    while i < n
        invariant
            n == seen@.len(),
            skipped == skipped_where_unset(seen@),
            i <= n,
            out@ == active_indices(skipped.take(i as int)),
        decreases n - i,
    {
        proof {
            assert(skipped.take(i + 1).drop_last() =~= skipped.take(i as int));
        }
        if seen[i] {
            out.push(i);
        }
        i += 1;
    }
    assert(skipped.take(n as int) =~= skipped);
    out
}

/// The indices ascend strictly and lie below `n`.
pub open spec fn ascending_below(s: Seq<usize>, n: nat) -> bool {
    &&& forall|k: int| 0 <= k < s.len() ==> #[trigger] s[k] < n
    &&& forall|k: int, l: int| 0 <= k < l < s.len() ==> #[trigger] s[k] < #[trigger] s[l]
}

impl LockLessBoolSkipfield {
    /// The number of slots.
    pub closed spec fn slots(&self) -> nat {
        self.flags@.len()
    }

    /// A skipfield of `size` slots, all of them skipped: a slot is unskipped
    /// before it is used.
    pub fn new(size: usize) -> (r: Self)
        ensures
            r.slots() == size,
    {
        let mut flags: Vec<AtomicBool> = Vec::new();
        let mut i: usize = 0;
        while i < size
            invariant
                i <= size,
                flags@.len() == i,
            decreases size - i,
        {
            flags.push(AtomicBool::new(false));
            i += 1;
        }
        Self { flags }
    }

    /// Marks slot `idx` active with one atomic swap. Returns whether the
    /// slot was skipped before, that is whether this call claimed it.
    pub fn unskip(&self, idx: usize) -> (claimed: bool)
        requires
            idx < self.slots(),
    {
        claims_slot(self.flags[idx].swap(true, Ordering::AcqRel))
    }

    /// Marks slot `idx` skipped with one atomic swap. Returns whether the
    /// slot was active before.
    pub fn skip(&self, idx: usize) -> (was_active: bool)
        requires
            idx < self.slots(),
    {
        self.flags[idx].swap(false, Ordering::AcqRel)
    }

    /// Whether slot `idx` is active at the moment of the load.
    pub fn is_active(&self, idx: usize) -> (r: bool)
        requires
            idx < self.slots(),
    {
        self.flags[idx].load(Ordering::Acquire)
    }

    /// One reading of every flag, from the lowest slot to the highest, each
    /// slot read once at its turn. Under concurrent writers this is no
    /// snapshot of one moment.
    pub fn read_all(&self) -> (seen: Vec<bool>)
        ensures
            seen@.len() == self.slots(),
    {
        let n: usize = self.flags.len();
        let mut seen: Vec<bool> = Vec::new();
        let mut i: usize = 0;
        while i < n
            invariant
                n == self.slots(),
                i <= n,
                seen@.len() == i,
            decreases n - i,
        {
            seen.push(self.is_active(i));
            i += 1;
        }
        seen
    }

    /// The indices that one reading of every flag found active, in
    /// ascending order.
    pub fn alive_indices(&self) -> (r: Vec<usize>)
        ensures
            ascending_below(r@, self.slots()),
    {
        let seen = self.read_all();
        proof {
            assert(seen@.len() == seen.len());
            lemma_active_indices_exact(skipped_where_unset(seen@));
        }
        alive_in(seen.as_slice())
    }
}

/// Whether an unskip claimed its slot, given what its swap found there: it
/// did where the slot was not active before.
pub fn claims_slot(was_active: bool) -> (claimed: bool)
    ensures
        claimed == !was_active,
{
    !was_active
}

} // verus!
