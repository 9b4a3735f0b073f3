//! The run-count ("jump-counting") encoding: one small counter per slot.
//!
//! A counter of 0 marks an active slot. The first and the last counter of
//! every maximal run of skipped slots hold the run's length, so a scan leaps
//! over a whole run in one step and a skip next to a run touches the run's
//! two ends only. Counters inside a run are not zero and mean nothing more.

use vstd::prelude::*;
use crate::model::{active_indices, all_active, count_active, count_skipped, first_active};
use crate::model::{lemma_all_skipped, lemma_counts_partition, lemma_first_active_split};
use crate::runs::{counters_after_skip, counters_after_unskip};
use crate::runs::{flags_of, is_maximal_run, run_end, run_len, run_start, tagged};
use crate::runs::{
    lemma_maximal_run_unique,
    lemma_neighbour_runs,
    lemma_run_is_maximal,
    lemma_skip_keeps_tagging,
    lemma_skipped_block,
    lemma_unskip_keeps_tagging,
};

verus! {

/// A skipfield that stores run lengths at the ends of each run.
pub struct LCJCSkipfield {
    nodes: Vec<u8>,
}

impl View for LCJCSkipfield {
    type V = Seq<bool>;

    /// One entry per slot; `true` means skipped.
    open spec fn view(&self) -> Seq<bool> {
        flags_of(self.counters())
    }
}

/// Whether the boundaries that a caller hands to `unskip` describe the run
/// that contains the skipped slot `i`: a boundary that is given is the true
/// one, the start is given unless `i` is the start, and the end is given
/// unless `i` is the end.
pub open spec fn boundaries_known(
    v: Seq<bool>,
    i: int,
    start: Option<usize>,
    end: Option<usize>,
) -> bool {
    &&& start matches Some(s) ==> s == run_start(v, i)
    &&& end matches Some(e) ==> e == run_end(v, i)
    &&& run_start(v, i) < i ==> end is Some
    &&& i < run_end(v, i) ==> start is Some
}

impl LCJCSkipfield {
    /// The stored counters, one per slot.
    pub closed spec fn counters(&self) -> Seq<u8> {
        self.nodes@
    }

    /// The counters are boundary-tagged.
    pub open spec fn wf(&self) -> bool {
        tagged(self.counters())
    }

    /// A fully active skipfield of `size` slots.
    pub fn new(size: usize) -> (r: Self)
        ensures
            r.wf(),
            r@ == all_active(size as nat),
            r.counters() == Seq::new(size as nat, |i: int| 0u8),
    {
        let r = Self { nodes: vec![0; size] };
        assert(r@ =~= all_active(size as nat));
        assert forall|s: int, e: int| #[trigger] is_maximal_run(r@, s, e) implies false by {
            assert(r@[s]);
        }
        assert(r.counters() =~= Seq::new(size as nat, |i: int| 0u8));
        r
    }

    /// Marks slot `i` skipped, merging it with the runs beside it. Only the
    /// two ends of the resulting run and slot `i` are written.
    ///
    /// The run that slot `i` joins must fit a counter.
    pub fn skip(&mut self, i: usize)
        requires
            old(self).wf(),
            i < old(self)@.len(),
            !old(self)@[i as int] ==> run_len(old(self)@.update(i as int, true), i as int)
                <= u8::MAX,
        ensures
            final(self).wf(),
            final(self)@ == old(self)@.update(i as int, true),
            old(self)@[i as int] ==> final(self).counters() == old(self).counters(),
            !old(self)@[i as int] ==> final(self).counters() == counters_after_skip(
                old(self).counters(),
                i as int,
                i - run_start(final(self)@, i as int),
                run_end(final(self)@, i as int) - i,
            ),
    {
        if self.nodes[i] != 0 {
            assert(self@ =~= old(self)@.update(i as int, true));
            return ;
        }
        let n: usize = self.nodes.len();
        let left: u8 = if i > 0 {
            self.nodes[i - 1]
        } else {
            0
        };
        let right: u8 = if i + 1 < n {
            self.nodes[i + 1]
        } else {
            0
        };
        let ghost c = self.nodes@;
        proof {
            lemma_neighbour_runs(c, i as int, left as int, right as int);
            lemma_maximal_run_unique(
                flags_of(c).update(i as int, true),
                i - left,
                i + right,
                i as int,
            );
        }
        let start: usize = i - left as usize;
        let end: usize = i + right as usize;
        let val: u8 = left + right + 1;
        self.nodes[start] = val;
        self.nodes[end] = val;
        self.nodes[i] = val;
        proof {
            assert(self.nodes@ == counters_after_skip(c, i as int, left as int, right as int));
            lemma_skip_keeps_tagging(c, i as int, left as int, right as int);
        }
    }

    /// Marks slot `i` active. `start` and `end` are the first and last slot
    /// of the run that contains `i`, as the caller knows them. What is left
    /// of the run on either side of `i` becomes a run of its own. On an
    /// active slot nothing changes.
    pub fn unskip(&mut self, i: usize, start: Option<usize>, end: Option<usize>)
        requires
            old(self).wf(),
            i < old(self)@.len(),
            old(self)@[i as int] ==> boundaries_known(old(self)@, i as int, start, end),
        ensures
            final(self).wf(),
            final(self)@ == old(self)@.update(i as int, false),
            !old(self)@[i as int] ==> final(self).counters() == old(self).counters(),
            old(self)@[i as int] ==> final(self).counters() == counters_after_unskip(
                old(self).counters(),
                i as int,
                run_start(old(self)@, i as int),
                run_end(old(self)@, i as int),
            ),
    {
        if self.nodes[i] == 0 {
            assert(self@ =~= old(self)@.update(i as int, false));
            return ;
        }
        let ghost c = self.nodes@;
        let ghost s0 = run_start(flags_of(c), i as int);
        let ghost e0 = run_end(flags_of(c), i as int);
        proof {
            lemma_run_is_maximal(flags_of(c), i as int);
            assert(old(self)@ == flags_of(c));
            assert(c[s0] == e0 - s0 + 1 && c[e0] == e0 - s0 + 1);
            assert(e0 < self.nodes.len());
        }
        match (start, end) {
            (Some(s), Some(e)) if i > s && i < e => {
                let left_len: usize = i - s;
                let right_len: usize = e - i;
                self.nodes[s] = left_len as u8;
                self.nodes[i - 1] = left_len as u8;
                self.nodes[e] = right_len as u8;
                self.nodes[i + 1] = right_len as u8;
                self.nodes[i] = 0;
            },
            (Some(s), _) if i == s => {
                let len: u8 = self.nodes[s] - 1;
                if len > 0 {
                    let e: usize = i + len as usize;
                    self.nodes[i + 1] = len;
                    self.nodes[e] = len;
                }
                self.nodes[i] = 0;
            },
            (_, Some(e)) if i == e => {
                let len: u8 = self.nodes[e] - 1;
                if len > 0 {
                    let s: usize = i - len as usize;
                    self.nodes[i - 1] = len;
                    self.nodes[s] = len;
                }
                self.nodes[i] = 0;
            },
            _ => {
                self.nodes[i] = 0;
            },
        }
        proof {
            assert(self.nodes@ =~= counters_after_unskip(c, i as int, s0, e0));
            lemma_unskip_keeps_tagging(c, i as int, s0, e0);
        }
    }

    /// Whether slot `i` is skipped.
    pub fn is_skipped(&self, i: usize) -> (r: bool)
        requires
            i < self@.len(),
        ensures
            r == self@[i as int],
    {
        self.nodes[i] != 0
    }

    /// Number of skipped slots, found by leaping from run to run.
    pub fn count_skipped(&self) -> (r: usize)
        requires
            self.wf(),
        ensures
            r == count_skipped(self@),
    {
        let n: usize = self.nodes.len();
        let mut i: usize = 0;
        let mut total: usize = 0;
        while i < n
            invariant
                self.wf(),
                n == self.nodes@.len(),
                i <= n,
                total <= i,
                total == count_skipped(self@.take(i as int)),
                0 < i < n && self@[i - 1] ==> !self@[i as int],
            decreases n - i,
        {
            if self.nodes[i] == 0 {
                proof {
                    assert(self@.take(i + 1).drop_last() =~= self@.take(i as int));
                }
                i += 1;
            } else {
                proof {
                    self.lemma_leap(i as int);
                }
                let skip: usize = self.nodes[i] as usize;
                total += skip;
                i += skip;
            }
        }
        assert(self@.take(n as int) =~= self@);
        total
    }

    /// The active indices, in ascending order, found by leaping from run to
    /// run.
    pub fn active_indices(&self) -> (r: Vec<usize>)
        requires
            self.wf(),
        ensures
            r@ == active_indices(self@),
    {
        let n: usize = self.nodes.len();
        let mut out: Vec<usize> = Vec::new();
        let mut i: usize = 0;
        while i < n
            invariant
                self.wf(),
                n == self.nodes@.len(),
                i <= n,
                out@ == active_indices(self@.take(i as int)),
                0 < i < n && self@[i - 1] ==> !self@[i as int],
            decreases n - i,
        {
            if self.nodes[i] == 0 {
                proof {
                    assert(self@.take(i + 1).drop_last() =~= self@.take(i as int));
                }
                out.push(i);
                i += 1;
            } else {
                proof {
                    self.lemma_leap(i as int);
                }
                i += self.nodes[i] as usize;
            }
        }
        assert(self@.take(n as int) =~= self@);
        out
    }

    /// Number of active slots.
    pub fn count_active(&self) -> (r: usize)
        requires
            self.wf(),
        ensures
            r == count_active(self@),
            r + count_skipped(self@) == self@.len(),
    {
        proof {
            lemma_counts_partition(self@);
        }
        self.nodes.len() - self.count_skipped()
    }

    /// The lowest active index, or `None` when every slot is skipped.
    pub fn first_active(&self) -> (r: Option<usize>)
        requires
            self.wf(),
        ensures
            r == first_active(self@),
    {
        let n: usize = self.nodes.len();
        let mut i: usize = 0;
        while i < n
            invariant
                self.wf(),
                n == self.nodes@.len(),
                i <= n,
                forall|j: int| 0 <= j < i ==> self@[j],
                0 < i < n && self@[i - 1] ==> !self@[i as int],
            decreases n - i,
        {
            if self.nodes[i] == 0 {
                proof {
                    lemma_first_active_split(self@, i as int);
                }
                return Some(i);
            } else {
                proof {
                    self.lemma_leap(i as int);
                }
                i += self.nodes[i] as usize;
            }
        }
        proof {
            lemma_all_skipped(self@);
        }
        None
    }

    /// The stored counters.
    pub fn debug(&self) -> (r: &[u8])
        ensures
            r@ == self.counters(),
    {
        self.nodes.as_slice()
    }

    /// At the first slot `i` of a run, the counter leads to the slot just
    /// behind the run, and every slot that the leap passes is skipped.
    proof fn lemma_leap(&self, i: int)
        requires
            self.wf(),
            0 <= i < self@.len(),
            self@[i],
            i > 0 ==> !self@[i - 1],
        ensures
            1 <= self.counters()[i],
            i + self.counters()[i] <= self@.len(),
            forall|k: int| i <= k < i + self.counters()[i] ==> self@[k],
            i + self.counters()[i] < self@.len() ==> !self@[i + self.counters()[i]],
            count_skipped(self@.take(i + self.counters()[i])) == count_skipped(self@.take(i))
                + self.counters()[i],
            active_indices(self@.take(i + self.counters()[i])) == active_indices(self@.take(i)),
    {
        let v = self@;
        lemma_run_is_maximal(v, i);
        assert(is_maximal_run(v, i, run_end(v, i)));
        lemma_skipped_block(v, i, run_end(v, i) + 1);
    }
}

} // verus!
