//! The plain packed skipfield for sequential use: one bit per slot in 64-bit
//! words, with the queries that a slot allocator needs and no iteration.
//!
//! It keeps the same words as the bitmask encoding: a set bit marks a
//! skipped slot, and the padding bits of the last word are always set.

use vstd::prelude::*;
use crate::bits::{bit, count_ones, word_flags, words_flags, words_wf};
use crate::bits::{
    lemma_bit_and,
    lemma_bit_high_mask,
    lemma_bit_not,
    lemma_bit_or,
    lemma_bit_single,
    lemma_bit_test,
    lemma_bit_zero,
    lemma_clear_unset_bit,
    lemma_full_word,
    lemma_lowest_set_bit,
    lemma_masked_ones,
    lemma_ones_bound,
    lemma_take_word,
    lemma_word_update,
};
use crate::model::{all_active, count_skipped, first_active};
use crate::model::{
    lemma_all_skipped,
    lemma_count_bound,
    lemma_count_concat,
    lemma_first_active_split,
};

verus! {

/// A packed skipfield without iteration.
pub struct Skipfield {
    chunks: Vec<u64>,
    len: usize,
}

impl View for Skipfield {
    type V = Seq<bool>;

    /// One entry per slot; `true` means skipped.
    open spec fn view(&self) -> Seq<bool> {
        words_flags(self.words()).take(self.slots() as int)
    }
}

impl Skipfield {
    /// The packed words.
    pub closed spec fn words(&self) -> Seq<u64> {
        self.chunks@
    }

    /// The number of slots.
    pub closed spec fn slots(&self) -> nat {
        self.len as nat
    }

    /// There are just enough words for the slots, and every padding bit is
    /// set.
    pub open spec fn wf(&self) -> bool {
        words_wf(self.words(), self.slots())
    }

    /// A fully active skipfield of `len` slots.
    pub fn new(len: usize) -> (r: Self)
        ensures
            r.wf(),
            r.slots() == len,
            r@ == all_active(len as nat),
    {
        let tail_bits: usize = len % 64;
        let num_chunks: usize = if tail_bits > 0 {
            len / 64 + 1
        } else {
            len / 64
        };
        let mut chunks: Vec<u64> = vec![0u64; num_chunks];
        if tail_bits > 0 {
            chunks[num_chunks - 1] = u64::MAX << (tail_bits as u64);
        }
        let r = Self { chunks, len };
        proof {
            let ws = r.chunks@;
            assert forall|i: int| 0 <= i < 64 * ws.len() implies words_flags(ws)[i] == (i
                >= len) by {
                let k = (i % 64) as u64;
                lemma_bit_zero(k);
                if tail_bits > 0 {
                    lemma_bit_high_mask(tail_bits as u64, k);
                }
            }
            assert(r@ =~= all_active(len as nat));
        }
        r
    }

    /// Marks slot `idx` skipped.
    pub fn skip(&mut self, idx: usize)
        requires
            old(self).wf(),
            idx < old(self)@.len(),
        ensures
            final(self).wf(),
            final(self).slots() == old(self).slots(),
            final(self)@ == old(self)@.update(idx as int, true),
            final(self).words() == old(self).words().update(
                idx as int / 64,
                old(self).words()[idx as int / 64] | (1u64 << ((idx % 64) as u64)),
            ),
    {
        let (chunk_idx, bit_idx) = Self::bit_pos(idx);
        let word: u64 = self.chunks[chunk_idx];
        let set: u64 = word | (1u64 << (bit_idx as u64));
        proof {
            assert forall|k: u64| k < 64 implies #[trigger] bit(set, k) == (if k == idx % 64 {
                true
            } else {
                bit(word, k)
            }) by {
                lemma_bit_or(word, 1u64 << (bit_idx as u64), k);
                lemma_bit_single(bit_idx as u64, k);
            }
            lemma_word_update(self.chunks@, self.len as nat, idx as int, set, true);
        }
        self.chunks[chunk_idx] = set;
    }

    /// Marks slot `idx` active and leaves every other slot as it is.
    pub fn unskip(&mut self, idx: usize)
        requires
            old(self).wf(),
            idx < old(self)@.len(),
        ensures
            final(self).wf(),
            final(self).slots() == old(self).slots(),
            final(self)@ == old(self)@.update(idx as int, false),
            final(self).words() == old(self).words().update(
                idx as int / 64,
                old(self).words()[idx as int / 64] & !(1u64 << ((idx % 64) as u64)),
            ),
            !old(self)@[idx as int] ==> final(self).words() == old(self).words(),
    {
        let (chunk_idx, bit_idx) = Self::bit_pos(idx);
        let word: u64 = self.chunks[chunk_idx];
        let cleared: u64 = word & !(1u64 << (bit_idx as u64));
        proof {
            assert forall|k: u64| k < 64 implies #[trigger] bit(cleared, k) == (if k == idx % 64 {
                false
            } else {
                bit(word, k)
            }) by {
                lemma_bit_and(word, !(1u64 << (bit_idx as u64)), k);
                lemma_bit_not(1u64 << (bit_idx as u64), k);
                lemma_bit_single(bit_idx as u64, k);
            }
            lemma_word_update(self.chunks@, self.len as nat, idx as int, cleared, false);
            if !old(self)@[idx as int] {
                lemma_clear_unset_bit(word, bit_idx as u64);
            }
        }
        self.chunks[chunk_idx] = cleared;
        proof {
            if !old(self)@[idx as int] {
                assert(self.chunks@ =~= old(self).chunks@);
            }
        }
    }

    /// Whether slot `index` is skipped.
    pub fn is_skipped(&self, index: usize) -> (r: bool)
        requires
            self.wf(),
            index < self@.len(),
        ensures
            r == self@[index as int],
    {
        let (chunk_idx, bit_idx) = Self::bit_pos(index);
        proof {
            lemma_bit_test(self.chunks@[chunk_idx as int], bit_idx as u64);
        }
        (self.chunks[chunk_idx] & (1u64 << (bit_idx as u64))) != 0
    }

    /// The lowest active index, or `None` when every slot is skipped: the
    /// lowest zero bit of the first word that is not full.
    pub fn first_free(&self) -> (r: Option<usize>)
        requires
            self.wf(),
        ensures
            r == first_active(self@),
    {
        let n: usize = self.chunks.len();
        let mut chunk_i: usize = 0;
        while chunk_i < n
            invariant
                self.wf(),
                n == self.chunks@.len(),
                chunk_i <= n,
                forall|j: int| 0 <= j < 64 * chunk_i ==> words_flags(self.chunks@)[j],
            decreases n - chunk_i,
        {
            let chunk: u64 = self.chunks[chunk_i];
            let inv: u64 = !chunk;
            if inv != 0 {
                let tz: u32 = inv.trailing_zeros();
                proof {
                    let i = 64 * chunk_i + tz as int;
                    lemma_lowest_set_bit(inv);
                    lemma_bit_not(chunk, tz as u64);
                    assert(!words_flags(self.chunks@)[i]);
                    assert forall|j: int| 0 <= j < i implies self@[j] by {
                        if j / 64 == chunk_i {
                            lemma_bit_not(chunk, (j % 64) as u64);
                            assert(!bit(inv, (j % 64) as u64));
                        }
                        assert(words_flags(self.chunks@)[j]);
                    }
                    lemma_first_active_split(self@, i);
                }
                return Some(chunk_i * 64 + tz as usize);
            }
            proof {
                assert forall|j: int| 0 <= j < 64 * (chunk_i + 1) implies words_flags(
                    self.chunks@,
                )[j] by {
                    if j / 64 == chunk_i {
                        lemma_full_word(chunk, (j % 64) as u64);
                    }
                }
            }
            chunk_i += 1;
        }
        proof {
            lemma_all_skipped(self@);
        }
        None
    }

    /// Number of skipped slots. The padding is not counted.
    pub fn count_skipped(&self) -> (r: usize)
        requires
            self.wf(),
        ensures
            r == count_skipped(self@),
    {
        let full_chunks: usize = self.len / 64;
        let tail_bits: usize = self.len % 64;
        let mut skipped: usize = 0;
        let mut i: usize = 0;
        while i < full_chunks
            invariant
                self.wf(),
                full_chunks == self.len / 64,
                i <= full_chunks,
                skipped <= 64 * i,
                skipped == count_skipped(words_flags(self.chunks@).take(64 * i)),
            decreases full_chunks - i,
        {
            proof {
                lemma_take_word(self.chunks@, i as int);
                lemma_ones_bound(self.chunks@[i as int]);
            }
            skipped += count_ones(self.chunks[i]) as usize;
            i += 1;
        }
        if tail_bits > 0 {
            let last_chunk: u64 = self.chunks[full_chunks];
            proof {
                lemma_masked_ones(last_chunk, tail_bits as u64);
                let f = words_flags(self.chunks@);
                let tail = word_flags(last_chunk).take(tail_bits as int);
                assert(self@ =~= f.take(64 * full_chunks) + tail);
                lemma_count_concat(f.take(64 * full_chunks), tail);
                lemma_count_bound(tail);
            }
            let mask: u64 = (1u64 << (tail_bits as u64)) - 1;
            skipped += count_ones(last_chunk & mask) as usize;
        }
        skipped
    }

    fn bit_pos(index: usize) -> (r: (usize, usize))
        ensures
            r.0 == index / 64,
            r.1 == index % 64,
    {
        (index / 64, index % 64)
    }
}

} // verus!
