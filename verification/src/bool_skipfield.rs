//! The flag-array encoding: one boolean per slot.

use vstd::prelude::*;
use crate::model::{active_indices, count_active, count_skipped, first_active, all_active};
use crate::model::{lemma_counts_partition, lemma_first_active_split, lemma_all_skipped};

verus! {

/// A skipfield that stores one flag per slot.
pub struct BoolSkipfield {
    flags: Vec<bool>,
}

impl View for BoolSkipfield {
    type V = Seq<bool>;

    /// One entry per slot; `true` means skipped.
    closed spec fn view(&self) -> Seq<bool> {
        self.flags@
    }
}

impl BoolSkipfield {
    /// A fully active skipfield of `size` slots.
    pub fn new(size: usize) -> (r: Self)
        ensures
            r@ == all_active(size as nat),
    {
        let r = Self { flags: vec![false; size] };
        assert(r@ =~= all_active(size as nat));
        r
    }

    /// Marks slot `index` skipped.
    pub fn skip(&mut self, index: usize)
        requires
            index < old(self)@.len(),
        ensures
            final(self)@ == old(self)@.update(index as int, true),
    {
        self.flags[index] = true;
    }

    /// Marks slot `index` active.
    pub fn unskip(&mut self, index: usize)
        requires
            index < old(self)@.len(),
        ensures
            final(self)@ == old(self)@.update(index as int, false),
            !old(self)@[index as int] ==> final(self)@ == old(self)@,
    {
        self.flags[index] = false;
        assert(!old(self)@[index as int] ==> self@ =~= old(self)@);
    }

    /// Whether slot `index` is skipped.
    pub fn is_skipped(&self, index: usize) -> (r: bool)
        requires
            index < self@.len(),
        ensures
            r == self@[index as int],
    {
        self.flags[index]
    }

    /// Number of skipped slots.
    pub fn count_skipped(&self) -> (r: usize)
        ensures
            r == count_skipped(self@),
    {
        let mut count: usize = 0;
        let n: usize = self.flags.len();
        let mut i: usize = 0;
        while i < n
            invariant
                n == self.flags@.len(),
                i <= n,
                count == count_skipped(self.flags@.take(i as int)),
                count <= i,
            decreases n - i,
        {
            proof {
                assert(self.flags@.take(i + 1).drop_last() =~= self.flags@.take(i as int));
            }
            if self.flags[i] {
                count += 1;
            }
            i += 1;
        }
        assert(self.flags@.take(n as int) =~= self.flags@);
        count
    }

    /// Number of active slots.
    pub fn count_active(&self) -> (r: usize)
        ensures
            r == count_active(self@),
            r + count_skipped(self@) == self@.len(),
    {
        proof {
            lemma_counts_partition(self@);
        }
        self.flags.len() - self.count_skipped()
    }

    /// The active indices, in ascending order.
    pub fn active_indices(&self) -> (r: Vec<usize>)
        ensures
            r@ == active_indices(self@),
    {
        let mut out: Vec<usize> = Vec::new();
        let n: usize = self.flags.len();
        let mut i: usize = 0;
        while i < n
            invariant
                n == self.flags@.len(),
                i <= n,
                out@ == active_indices(self.flags@.take(i as int)),
            decreases n - i,
        {
            proof {
                assert(self.flags@.take(i + 1).drop_last() =~= self.flags@.take(i as int));
            }
            if !self.flags[i] {
                out.push(i);
            }
            i += 1;
        }
        assert(self.flags@.take(n as int) =~= self.flags@);
        out
    }

    /// The lowest active index, or `None` when every slot is skipped.
    pub fn first_active(&self) -> (r: Option<usize>)
        ensures
            r == first_active(self@),
    {
        let n: usize = self.flags.len();
        let mut i: usize = 0;
        while i < n
            invariant
                n == self.flags@.len(),
                i <= n,
                forall|j: int| 0 <= j < i ==> self.flags@[j],
            decreases n - i,
        {
            if !self.flags[i] {
                proof {
                    lemma_first_active_split(self@, i as int);
                }
                return Some(i);
            }
            i += 1;
        }
        proof {
            lemma_all_skipped(self@);
        }
        None
    }
}

} // verus!
