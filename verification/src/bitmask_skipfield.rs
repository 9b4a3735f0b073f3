//! The bitmask encoding: one bit per slot, packed into 64-bit words.
//!
//! A set bit marks a skipped slot. The bits of the last word that lie behind
//! the last slot are padding: they are set when the skipfield is made and no
//! operation clears them, so a scan for zero bits never finds one there.

use vstd::prelude::*;
use vstd::std_specs::bits::u64_trailing_zeros;
use crate::bits::{bit, count_ones, word_flags, words_flags, words_wf};
use crate::bits::{
    lemma_active_bit_in_range,
    lemma_bit_and,
    lemma_bit_high_mask,
    lemma_bit_not,
    lemma_bit_or,
    lemma_bit_single,
    lemma_bit_test,
    lemma_bit_zero,
    lemma_clear_lowest,
    lemma_clear_unset_bit,
    lemma_full_word,
    lemma_lowest_set_bit,
    lemma_masked_ones,
    lemma_ones_bound,
    lemma_padding_is_skipped,
    lemma_take_word,
    lemma_word_update,
};
use crate::model::{active_indices, all_active, count_active, count_skipped, first_active};
use crate::model::{
    lemma_active_indices_exact,
    lemma_all_skipped,
    lemma_count_bound,
    lemma_count_concat,
    lemma_counts_partition,
    lemma_first_active_split,
};

verus! {

/// The flags that a word-at-a-time scan still has to visit when it stands in
/// word `c` with the bits `rest` left to emit: the words below `c` are done
/// and count as skipped, word `c` is read from `rest`, where a set bit is an
/// active slot, and the words above `c` are read from `ws`.
pub open spec fn pending_flags(ws: Seq<u64>, c: int, rest: u64) -> Seq<bool> {
    Seq::new(
        64 * ws.len(),
        |i: int|
            if i / 64 < c {
                true
            } else if i / 64 == c {
                !bit(rest, (i % 64) as u64)
            } else {
                bit(ws[i / 64], (i % 64) as u64)
            },
    )
}

/// The flags that a scan still has to visit before it enters word `c`.
pub open spec fn unvisited_flags(ws: Seq<u64>, c: int) -> Seq<bool> {
    Seq::new(64 * ws.len(), |i: int| i / 64 < c || bit(ws[i / 64], (i % 64) as u64))
}

/// Emitting the lowest set bit of `rest` in word `c` yields the first of the
/// pending active indices and leaves the others pending.
proof fn lemma_emit_lowest(ws: Seq<u64>, c: int, rest: u64)
    requires
        0 <= c < ws.len(),
        rest != 0,
    ensures
        active_indices(pending_flags(ws, c, rest)) == seq![
            (64 * c + u64_trailing_zeros(rest)) as usize,
        ] + active_indices(pending_flags(ws, c, rest & ((rest - 1) as u64))),
{
    let tz = u64_trailing_zeros(rest);
    let p = pending_flags(ws, c, rest);
    let rest2 = rest & ((rest - 1) as u64);
    let i = 64 * c + tz;
    lemma_lowest_set_bit(rest);
    assert forall|j: int| 0 <= j < i implies p[j] by {
        if j / 64 == c {
            assert(!bit(rest, (j % 64) as u64));
        }
    }
    assert(!p[i]);
    lemma_first_active_split(p, i);
    assert forall|j: int| 0 <= j < 64 * ws.len() implies pending_flags(ws, c, rest2)[j]
        == p.update(i, true)[j] by {
        if j / 64 == c {
            lemma_clear_lowest(rest, (j % 64) as u64);
        }
    }
    assert(pending_flags(ws, c, rest2) =~= p.update(i, true));
}

/// A scan that enters word `c` has the complement of that word left to emit.
proof fn lemma_enter_word(ws: Seq<u64>, c: int)
    requires
        0 <= c < ws.len(),
    ensures
        pending_flags(ws, c, !ws[c]) == unvisited_flags(ws, c),
{
    assert forall|j: int| 0 <= j < 64 * ws.len() implies pending_flags(ws, c, !ws[c])[j]
        == unvisited_flags(ws, c)[j] by {
        lemma_bit_not(ws[c], (j % 64) as u64);
    }
    assert(pending_flags(ws, c, !ws[c]) =~= unvisited_flags(ws, c));
}

/// A scan with nothing left to emit in word `c` has visited it.
proof fn lemma_leave_word(ws: Seq<u64>, c: int)
    ensures
        pending_flags(ws, c, 0) == unvisited_flags(ws, c + 1),
{
    assert forall|j: int| 0 <= j < 64 * ws.len() implies pending_flags(ws, c, 0)[j]
        == unvisited_flags(ws, c + 1)[j] by {
        lemma_bit_zero((j % 64) as u64);
    }
    assert(pending_flags(ws, c, 0) =~= unvisited_flags(ws, c + 1));
}

/// A skipfield that packs one bit per slot into 64-bit words.
pub struct BitmaskSkipfield {
    chunks: Vec<u64>,
    len: usize,
}

impl View for BitmaskSkipfield {
    type V = Seq<bool>;

    /// One entry per slot; `true` means skipped. The padding is no part of
    /// it.
    open spec fn view(&self) -> Seq<bool> {
        words_flags(self.words()).take(self.slots() as int)
    }
}

impl BitmaskSkipfield {
    /// The packed words.
    pub closed spec fn words(&self) -> Seq<u64> {
        self.chunks@
    }

    /// The number of slots.
    pub closed spec fn slots(&self) -> nat {
        self.len as nat
    }

    /// There are just enough words for the slots, and every padding bit is
    /// set.
    pub open spec fn wf(&self) -> bool {
        words_wf(self.words(), self.slots())
    }

    /// A fully active skipfield of `len` slots, with the padding set.
    pub fn new(len: usize) -> (r: Self)
        ensures
            r.wf(),
            r.slots() == len,
            r@ == all_active(len as nat),
    {
        let tail_bits: usize = len % 64;
        let num_chunks: usize = if tail_bits > 0 {
            len / 64 + 1
        } else {
            len / 64
        };
        let mut chunks: Vec<u64> = vec![0u64; num_chunks];
        if tail_bits > 0 {
            let mask: u64 = u64::MAX << (tail_bits as u64);
            let last: u64 = chunks[num_chunks - 1];
            chunks[num_chunks - 1] = last | mask;
        }
        let r = Self { chunks, len };
        proof {
            let ws = r.chunks@;
            assert forall|i: int| 0 <= i < 64 * ws.len() implies words_flags(ws)[i] == (i
                >= len) by {
                let k = (i % 64) as u64;
                lemma_bit_zero(k);
                if tail_bits > 0 {
                    lemma_bit_or(0, u64::MAX << (tail_bits as u64), k);
                    lemma_bit_high_mask(tail_bits as u64, k);
                }
            }
            assert(r@ =~= all_active(len as nat));
        }
        r
    }

    /// Marks slot `idx` skipped.
    pub fn skip(&mut self, idx: usize)
        requires
            old(self).wf(),
            idx < old(self)@.len(),
        ensures
            final(self).wf(),
            final(self).slots() == old(self).slots(),
            final(self)@ == old(self)@.update(idx as int, true),
            final(self).words() == old(self).words().update(
                idx as int / 64,
                old(self).words()[idx as int / 64] | (1u64 << ((idx % 64) as u64)),
            ),
    {
        let (chunk_idx, bit_idx) = Self::bit_pos(idx);
        let word: u64 = self.chunks[chunk_idx];
        let set: u64 = word | (1u64 << (bit_idx as u64));
        proof {
            assert forall|k: u64| k < 64 implies #[trigger] bit(set, k) == (if k == idx % 64 {
                true
            } else {
                bit(word, k)
            }) by {
                lemma_bit_or(word, 1u64 << (bit_idx as u64), k);
                lemma_bit_single(bit_idx as u64, k);
            }
            lemma_word_update(self.chunks@, self.len as nat, idx as int, set, true);
        }
        self.chunks[chunk_idx] = set;
    }

    /// Marks slot `idx` active.
    pub fn unskip(&mut self, idx: usize)
        requires
            old(self).wf(),
            idx < old(self)@.len(),
        ensures
            final(self).wf(),
            final(self).slots() == old(self).slots(),
            final(self)@ == old(self)@.update(idx as int, false),
            final(self).words() == old(self).words().update(
                idx as int / 64,
                old(self).words()[idx as int / 64] & !(1u64 << ((idx % 64) as u64)),
            ),
            !old(self)@[idx as int] ==> final(self).words() == old(self).words(),
    {
        let (chunk_idx, bit_idx) = Self::bit_pos(idx);
        let word: u64 = self.chunks[chunk_idx];
        let cleared: u64 = word & !(1u64 << (bit_idx as u64));
        proof {
            assert forall|k: u64| k < 64 implies #[trigger] bit(cleared, k) == (if k == idx % 64 {
                false
            } else {
                bit(word, k)
            }) by {
                lemma_bit_and(word, !(1u64 << (bit_idx as u64)), k);
                lemma_bit_not(1u64 << (bit_idx as u64), k);
                lemma_bit_single(bit_idx as u64, k);
            }
            lemma_word_update(self.chunks@, self.len as nat, idx as int, cleared, false);
            if !old(self)@[idx as int] {
                lemma_clear_unset_bit(word, bit_idx as u64);
            }
        }
        self.chunks[chunk_idx] = cleared;
        proof {
            if !old(self)@[idx as int] {
                assert(self.chunks@ =~= old(self).chunks@);
            }
        }
    }

    /// Whether slot `idx` is skipped.
    pub fn is_skipped(&self, idx: usize) -> (r: bool)
        requires
            self.wf(),
            idx < self@.len(),
        ensures
            r == self@[idx as int],
    {
        let (chunk_idx, bit_idx) = Self::bit_pos(idx);
        proof {
            lemma_bit_test(self.chunks@[chunk_idx as int], bit_idx as u64);
        }
        (self.chunks[chunk_idx] & (1u64 << (bit_idx as u64))) != 0
    }

    /// The lowest active index, or `None` when every slot is skipped: the
    /// lowest zero bit of the first word that is not full.
    pub fn first_active(&self) -> (r: Option<usize>)
        requires
            self.wf(),
        ensures
            r == first_active(self@),
    {
        let n: usize = self.chunks.len();
        let mut chunk_i: usize = 0;
        while chunk_i < n
            invariant
                self.wf(),
                n == self.chunks@.len(),
                chunk_i <= n,
                forall|j: int| 0 <= j < 64 * chunk_i ==> words_flags(self.chunks@)[j],
            decreases n - chunk_i,
        {
            let chunk: u64 = self.chunks[chunk_i];
            let inv: u64 = !chunk;
            if inv != 0 {
                let tz: u32 = inv.trailing_zeros();
                proof {
                    let i = 64 * chunk_i + tz as int;
                    lemma_lowest_set_bit(inv);
                    lemma_bit_not(chunk, tz as u64);
                    assert(!words_flags(self.chunks@)[i]);
                    assert forall|j: int| 0 <= j < i implies self@[j] by {
                        if j / 64 == chunk_i {
                            lemma_bit_not(chunk, (j % 64) as u64);
                            assert(!bit(inv, (j % 64) as u64));
                        }
                        assert(words_flags(self.chunks@)[j]);
                    }
                    lemma_first_active_split(self@, i);
                }
                return Some(chunk_i * 64 + tz as usize);
            }
            proof {
                assert forall|j: int| 0 <= j < 64 * (chunk_i + 1) implies words_flags(
                    self.chunks@,
                )[j] by {
                    if j / 64 == chunk_i {
                        lemma_full_word(chunk, (j % 64) as u64);
                    }
                }
            }
            chunk_i += 1;
        }
        proof {
            lemma_all_skipped(self@);
        }
        None
    }

    /// Number of skipped slots: the one bits of the full words, and those
    /// of the last word that lie below the padding.
    pub fn count_skipped(&self) -> (r: usize)
        requires
            self.wf(),
        ensures
            r == count_skipped(self@),
    {
        let full_chunks: usize = self.len / 64;
        let tail_bits: usize = self.len % 64;
        let mut count: usize = 0;
        let mut i: usize = 0;
        while i < full_chunks
            invariant
                self.wf(),
                full_chunks == self.len / 64,
                i <= full_chunks,
                count <= 64 * i,
                count == count_skipped(words_flags(self.chunks@).take(64 * i)),
            decreases full_chunks - i,
        {
            proof {
                lemma_take_word(self.chunks@, i as int);
                lemma_ones_bound(self.chunks@[i as int]);
            }
            count += count_ones(self.chunks[i]) as usize;
            i += 1;
        }
        if tail_bits > 0 {
            let last_chunk: u64 = self.chunks[full_chunks];
            proof {
                lemma_masked_ones(last_chunk, tail_bits as u64);
                lemma_ones_bound(last_chunk & (((1u64 << (tail_bits as u64)) - 1) as u64));
                let f = words_flags(self.chunks@);
                assert(self@ =~= f.take(64 * full_chunks) + word_flags(last_chunk).take(
                    tail_bits as int,
                ));
                lemma_count_concat(
                    f.take(64 * full_chunks),
                    word_flags(last_chunk).take(tail_bits as int),
                );
                lemma_count_bound(word_flags(last_chunk).take(tail_bits as int));
            }
            let mask: u64 = (1u64 << (tail_bits as u64)) - 1;
            count += count_ones(last_chunk & mask) as usize;
        }
        count
    }

    /// Number of active slots. The padding is not among them.
    pub fn count_active(&self) -> (r: usize)
        requires
            self.wf(),
        ensures
            r == count_active(self@),
            r + count_skipped(self@) == self@.len(),
    {
        proof {
            lemma_counts_partition(self@);
        }
        self.len - self.count_skipped()
    }

    /// The active indices, in ascending order, found slot by slot.
    pub fn active_indices_1(&self) -> (r: Vec<usize>)
        requires
            self.wf(),
        ensures
            r@ == active_indices(self@),
    {
        let mut out: Vec<usize> = Vec::new();
        let mut i: usize = 0;
        while i < self.len
            invariant
                self.wf(),
                i <= self.len,
                out@ == active_indices(self@.take(i as int)),
            decreases self.len - i,
        {
            proof {
                assert(self@.take(i + 1).drop_last() =~= self@.take(i as int));
            }
            if !self.is_skipped(i) {
                out.push(i);
            }
            i += 1;
        }
        assert(self@.take(self.len as int) =~= self@);
        out
    }

    /// The active indices, in ascending order, found word by word: the
    /// lowest set bit of a word's complement is emitted and cleared until
    /// the complement is zero.
    pub fn active_indices_2(&self) -> (r: Vec<usize>)
        requires
            self.wf(),
        ensures
            r@ == active_indices(self@),
    {
        let mut out: Vec<usize> = Vec::new();
        let n: usize = self.chunks.len();
        let mut chunk_i: usize = 0;
        let ghost ws = self.chunks@;
        let ghost all = active_indices(words_flags(ws));
        proof {
            assert(unvisited_flags(ws, 0) =~= words_flags(ws));
            assert(out@ + all =~= all);
        }
        while chunk_i < n
            invariant
                self.wf(),
                ws == self.chunks@,
                n == ws.len(),
                chunk_i <= n,
                all == active_indices(words_flags(ws)),
                out@ + active_indices(unvisited_flags(ws, chunk_i as int)) == all,
            decreases n - chunk_i,
        {
            let chunk: u64 = self.chunks[chunk_i];
            let mut inv: u64 = !chunk;
            let base: usize = chunk_i * 64;
            proof {
                lemma_enter_word(ws, chunk_i as int);
                assert forall|k: u64| k < 64 && #[trigger] bit(inv, k) implies !bit(chunk, k) by {
                    lemma_bit_not(chunk, k);
                }
            }
            while inv != 0
                invariant
                    self.wf(),
                    ws == self.chunks@,
                    n == ws.len(),
                    chunk_i < n,
                    base == chunk_i * 64,
                    chunk == ws[chunk_i as int],
                    forall|k: u64| k < 64 && #[trigger] bit(inv, k) ==> !bit(chunk, k),
                    out@ + active_indices(pending_flags(ws, chunk_i as int, inv)) == all,
                decreases inv,
            {
                let tz: usize = inv.trailing_zeros() as usize;
                proof {
                    lemma_emit_lowest(ws, chunk_i as int, inv);
                    lemma_lowest_set_bit(inv);
                    lemma_active_bit_in_range(ws, self.len as nat, chunk_i as int, tz as u64);
                    let rest = active_indices(
                        pending_flags(ws, chunk_i as int, inv & ((inv - 1) as u64)),
                    );
                    assert(out@.push((base + tz) as usize) + rest =~= out@ + (seq![
                        (base + tz) as usize,
                    ] + rest));
                    assert forall|k: u64| k < 64 && #[trigger] bit(
                        inv & ((inv - 1) as u64),
                        k,
                    ) implies !bit(chunk, k) by {
                        lemma_clear_lowest(inv, k);
                    }
                    lemma_and_decreases(inv);
                }
                inv = inv & (inv - 1);
                out.push(base + tz);
            }
            proof {
                lemma_leave_word(ws, chunk_i as int);
            }
            chunk_i += 1;
        }
        proof {
            lemma_all_skipped(unvisited_flags(ws, n as int));
            assert(out@ + Seq::<usize>::empty() =~= out@);
            lemma_padding_is_skipped(ws, self.len as nat);
        }
        out
    }

    /// A forward scan over the active indices, which starts at the lowest.
    pub fn iter(&self) -> (r: BitmaskSkipfieldIter<'_>)
        requires
            self.wf(),
        ensures
            r.wf(),
            r.words() == self.words(),
            r.slots() == self.slots(),
            r.remaining() == active_indices(self@),
    {
        BitmaskSkipfieldIter::new(self.chunks.as_slice(), self.len)
    }

    /// The packed words, padding included. Bit `i % 64` of word `i / 64`
    /// is set where slot `i` is skipped.
    pub fn chunks(&self) -> (r: &[u64])
        ensures
            r@ == self.words(),
    {
        self.chunks.as_slice()
    }

    /// The word that holds slot `index`, and the slot's bit in that word.
    pub fn bit_pos(index: usize) -> (r: (usize, usize))
        ensures
            r.0 == index / 64,
            r.1 == index % 64,
    {
        (index / 64, index % 64)
    }
}

/// The padding reads as skipped and never shows: no active index reaches
/// the number of slots, and counting or listing over the whole words gives
/// what the slots alone give.
pub proof fn lemma_padding_never_active(sf: BitmaskSkipfield)
    requires
        sf.wf(),
    ensures
        forall|i: int|
            sf.slots() <= i < 64 * sf.words().len() ==> #[trigger] words_flags(sf.words())[i],
        forall|k: int|
            0 <= k < active_indices(sf@).len() ==> (#[trigger] active_indices(sf@)[k])
                < sf.slots(),
        count_active(sf@) <= sf.slots(),
        active_indices(words_flags(sf.words())) == active_indices(sf@),
        count_active(words_flags(sf.words())) == count_active(sf@),
{
    lemma_padding_is_skipped(sf.words(), sf.slots());
    lemma_active_indices_exact(sf@);
    lemma_counts_partition(sf@);
}

/// A forward scan over the active indices of packed words. Its state is the
/// word it stands in and the bits of that word's complement that it has not
/// emitted yet, so each call of `next` resumes where the last one stopped.
pub struct BitmaskSkipfieldIter<'a> {
    chunks: &'a [u64],
    len: usize,
    chunk_i: usize,
    bitset: u64,
}

impl<'a> BitmaskSkipfieldIter<'a> {
    /// The packed words that the scan reads.
    pub closed spec fn words(&self) -> Seq<u64> {
        self.chunks@
    }

    /// The number of slots.
    pub closed spec fn slots(&self) -> nat {
        self.len as nat
    }

    /// The words are well formed, and the bits left to emit are zero bits
    /// of the word that the scan stands in.
    pub closed spec fn wf(&self) -> bool {
        &&& words_wf(self.chunks@, self.len as nat)
        &&& self.chunk_i <= self.chunks@.len()
        &&& self.chunk_i == self.chunks@.len() ==> self.bitset == 0
        &&& self.chunk_i < self.chunks@.len() ==> forall|k: u64|
            k < 64 && #[trigger] bit(self.bitset, k) ==> !bit(self.chunks@[self.chunk_i as int], k)
    }

    /// The active indices that the scan has not produced yet, in the order
    /// in which `next` will produce them.
    pub closed spec fn remaining(&self) -> Seq<usize> {
        active_indices(pending_flags(self.chunks@, self.chunk_i as int, self.bitset))
    }

    /// A scan over `chunks`, which hold `len` slots, from the lowest index.
    pub fn new(chunks: &'a [u64], len: usize) -> (r: Self)
        requires
            words_wf(chunks@, len as nat),
        ensures
            r.wf(),
            r.words() == chunks@,
            r.slots() == len,
            r.remaining() == active_indices(words_flags(chunks@).take(len as int)),
    {
        let mut iter = Self { chunks, len, chunk_i: 0, bitset: 0 };
        if chunks.len() > 0 {
            iter.bitset = !chunks[0];
        }
        proof {
            let ws = chunks@;
            if ws.len() > 0 {
                lemma_enter_word(ws, 0);
                assert forall|k: u64| k < 64 && #[trigger] bit(iter.bitset, k) implies !bit(
                    ws[0],
                    k,
                ) by {
                    lemma_bit_not(ws[0], k);
                }
            } else {
                assert(pending_flags(ws, 0, 0) =~= unvisited_flags(ws, 0));
            }
            assert(unvisited_flags(ws, 0) =~= words_flags(ws));
            lemma_padding_is_skipped(ws, len as nat);
        }
        iter
    }

    /// Moves to the first word at or above the current one that has an
    /// active slot, and loads its complement; stops behind the last word
    /// when there is none.
    fn advance_to_next_chunk(&mut self)
        requires
            old(self).wf(),
            old(self).bitset == 0,
        ensures
            final(self).wf(),
            final(self).chunks == old(self).chunks,
            final(self).len == old(self).len,
            final(self).chunk_i < final(self).chunks@.len() ==> final(self).bitset != 0,
            final(self).remaining() == active_indices(
                unvisited_flags(old(self).chunks@, old(self).chunk_i as int),
            ),
    {
        let ghost ws = self.chunks@;
        let ghost todo = unvisited_flags(ws, self.chunk_i as int);
        while self.chunk_i < self.chunks.len()
            invariant
                self.wf(),
                self.bitset == 0,
                self.chunks == old(self).chunks,
                self.len == old(self).len,
                ws == self.chunks@,
                todo == unvisited_flags(ws, old(self).chunk_i as int),
                unvisited_flags(ws, self.chunk_i as int) == todo,
            decreases self.chunks@.len() - self.chunk_i,
        {
            let inv: u64 = !self.chunks[self.chunk_i];
            if inv != 0 {
                proof {
                    lemma_enter_word(ws, self.chunk_i as int);
                    assert forall|k: u64| k < 64 && #[trigger] bit(inv, k) implies !bit(
                        ws[self.chunk_i as int],
                        k,
                    ) by {
                        lemma_bit_not(ws[self.chunk_i as int], k);
                    }
                }
                self.bitset = inv;
                return ;
            }
            proof {
                let c = self.chunk_i as int;
                assert forall|j: int| 0 <= j < 64 * ws.len() implies unvisited_flags(ws, c)[j]
                    == unvisited_flags(ws, c + 1)[j] by {
                    if j / 64 == c {
                        lemma_full_word(ws[c], (j % 64) as u64);
                    }
                }
                assert(unvisited_flags(ws, c) =~= unvisited_flags(ws, c + 1));
                assert forall|k: u64| k < 64 && #[trigger] bit(0, k) implies false by {
                    lemma_bit_zero(k);
                }
            }
            self.chunk_i += 1;
        }
        proof {
            assert(pending_flags(ws, self.chunk_i as int, 0) =~= unvisited_flags(
                ws,
                self.chunk_i as int,
            ));
        }
    }

    /// The next active index, or `None` when the scan is over.
    pub fn next(&mut self) -> (r: Option<usize>)
        requires
            old(self).wf(),
        ensures
            final(self).wf(),
            final(self).words() == old(self).words(),
            final(self).slots() == old(self).slots(),
            old(self).remaining().len() == 0 ==> r is None && final(self).remaining().len() == 0,
            old(self).remaining().len() > 0 ==> r == Some(old(self).remaining()[0])
                && final(self).remaining() == old(self).remaining().skip(1),
    {
        let ghost ws = self.chunks@;
        if self.bitset == 0 {
            if self.chunk_i >= self.chunks.len() {
                proof {
                    lemma_all_skipped(pending_flags(ws, self.chunk_i as int, 0));
                }
                return None;
            }
            proof {
                lemma_leave_word(ws, self.chunk_i as int);
                assert forall|k: u64| k < 64 && #[trigger] bit(0, k) implies false by {
                    lemma_bit_zero(k);
                }
            }
            self.chunk_i += 1;
            self.advance_to_next_chunk();
            if self.chunk_i >= self.chunks.len() {
                proof {
                    lemma_all_skipped(pending_flags(ws, self.chunk_i as int, 0));
                }
                return None;
            }
        }
        let tz: usize = self.bitset.trailing_zeros() as usize;
        proof {
            let rest = self.bitset & ((self.bitset - 1) as u64);
            lemma_emit_lowest(ws, self.chunk_i as int, self.bitset);
            lemma_lowest_set_bit(self.bitset);
            lemma_active_bit_in_range(ws, self.len as nat, self.chunk_i as int, tz as u64);
            assert forall|k: u64| k < 64 && #[trigger] bit(rest, k) implies !bit(
                ws[self.chunk_i as int],
                k,
            ) by {
                lemma_clear_lowest(self.bitset, k);
            }
            let emitted = seq![(64 * self.chunk_i + tz) as usize];
            let later = active_indices(pending_flags(ws, self.chunk_i as int, rest));
            assert((emitted + later).skip(1) =~= later);
        }
        self.bitset = self.bitset & (self.bitset - 1);
        Some(self.chunk_i * 64 + tz)
    }
}

/// Clearing the lowest set bit makes a word smaller.
proof fn lemma_and_decreases(w: u64)
    by (bit_vector)
    requires
        w != 0,
    ensures
        w & ((w - 1) as u64) < w,
{
}

} // verus!
