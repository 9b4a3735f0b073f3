//! Words of 64 flags: how the bits of a `u64` read as slots, and the facts
//! about bitwise operations that the packed encodings rest on.

use vstd::prelude::*;
use vstd::std_specs::bits::{axiom_u64_trailing_zeros, u64_trailing_zeros};
use crate::model::{active_indices, all_active, count_active, count_skipped};
use crate::model::{lemma_all_active, lemma_append_skipped, lemma_count_bound, lemma_count_concat};

verus! {

/// Bit `k` of `w`, for `k < 64`.
pub open spec fn bit(w: u64, k: u64) -> bool {
    (w >> k) & 1 == 1
}

/// The 64 bits of a word as flags, lowest bit first.
pub open spec fn word_flags(w: u64) -> Seq<bool> {
    Seq::new(64, |k: int| bit(w, k as u64))
}

/// Number of one bits of a word: how many of its 64 flags are set.
pub open spec fn ones(w: u64) -> nat {
    count_skipped(word_flags(w))
}

/// The bits of all words laid end to end: slot `i` is bit `i % 64` of word
/// `i / 64`.
pub open spec fn words_flags(ws: Seq<u64>) -> Seq<bool> {
    Seq::new(64 * ws.len(), |i: int| bit(ws[i / 64], (i % 64) as u64))
}

/// The words hold `len` slots: there are just enough of them, and the
/// padding bits behind slot `len - 1` are all set.
pub open spec fn words_wf(ws: Seq<u64>, len: nat) -> bool {
    &&& ws.len() == (len + 63) / 64
    &&& forall|i: int| len <= i < 64 * ws.len() ==> #[trigger] words_flags(ws)[i]
}

/// `u64::count_ones`, which returns the number of one bits in the binary
/// representation of its argument.
#[verifier::external_body]
pub(crate) fn count_ones(w: u64) -> (r: u32)
    ensures
        r == ones(w),
{
    w.count_ones()
}

/// A bit of `a | b` is set where it is set in `a` or in `b`.
pub proof fn lemma_bit_or(a: u64, b: u64, k: u64)
    by (bit_vector)
    requires
        k < 64,
    ensures
        bit(a | b, k) == (bit(a, k) || bit(b, k)),
{
}

/// A bit of `a & b` is set where it is set in `a` and in `b`.
pub proof fn lemma_bit_and(a: u64, b: u64, k: u64)
    by (bit_vector)
    requires
        k < 64,
    ensures
        bit(a & b, k) == (bit(a, k) && bit(b, k)),
{
}

/// A bit of `!a` is set where it is clear in `a`.
pub proof fn lemma_bit_not(a: u64, k: u64)
    by (bit_vector)
    requires
        k < 64,
    ensures
        bit(!a, k) == !bit(a, k),
{
}

/// Zero has no bit set.
pub proof fn lemma_bit_zero(k: u64)
    by (bit_vector)
    requires
        k < 64,
    ensures
        !bit(0, k),
{
}

/// `1 << b` has bit `b` set and no other.
pub proof fn lemma_bit_single(b: u64, k: u64)
    by (bit_vector)
    requires
        b < 64,
        k < 64,
    ensures
        bit(1u64 << b, k) == (k == b),
{
}

/// `u64::MAX << t` has the bits from `t` upwards set.
pub proof fn lemma_bit_high_mask(t: u64, k: u64)
    by (bit_vector)
    requires
        t < 64,
        k < 64,
    ensures
        bit(0xffff_ffff_ffff_ffffu64 << t, k) == (k >= t),
{
}

/// `(1 << t) - 1` has the bits below `t` set.
pub proof fn lemma_bit_low_mask(t: u64, k: u64)
    by (bit_vector)
    requires
        t < 64,
        k < 64,
    ensures
        (1u64 << t) >= 1,
        bit(((1u64 << t) - 1) as u64, k) == (k < t),
{
}

/// A word masked with `1 << b` is non-zero exactly when bit `b` is set.
pub proof fn lemma_bit_test(w: u64, b: u64)
    by (bit_vector)
    requires
        b < 64,
    ensures
        ((w & (1u64 << b)) != 0) == bit(w, b),
{
}

/// `w & (w - 1)` clears bit `tz` and keeps the others, where `tz` is the
/// lowest set bit of `w`.
proof fn lemma_clear_lowest_bv(w: u64, tz: u64, k: u64)
    by (bit_vector)
    requires
        tz < 64,
        k < 64,
        bit(w, tz),
        w << ((64 - tz) as u64) == 0,
    ensures
        w >= 1,
        bit(w & ((w - 1) as u64), k) == (bit(w, k) && k != tz),
{
}

/// The trailing zeros of a non-zero word lead to its lowest set bit.
pub proof fn lemma_lowest_set_bit(w: u64)
    requires
        w != 0,
    ensures
        u64_trailing_zeros(w) < 64,
        bit(w, u64_trailing_zeros(w) as u64),
        forall|k: u64| k < u64_trailing_zeros(w) ==> !#[trigger] bit(w, k),
{
    axiom_u64_trailing_zeros(w);
    let tz = u64_trailing_zeros(w) as u64;
    assert forall|k: u64| k < u64_trailing_zeros(w) implies !#[trigger] bit(w, k) by {
        assert((w >> k) & 1u64 == 0u64);
    }
}

/// `w & (w - 1)` clears the lowest set bit of `w` and keeps the others.
pub proof fn lemma_clear_lowest(w: u64, k: u64)
    requires
        w != 0,
        k < 64,
    ensures
        bit((w & ((w - 1) as u64)), k) == (bit(w, k) && k != u64_trailing_zeros(w)),
{
    axiom_u64_trailing_zeros(w);
    let tz = u64_trailing_zeros(w) as u64;
    lemma_clear_lowest_bv(w, tz, k);
}

/// Clearing a bit that is not set leaves the word as it is.
pub proof fn lemma_clear_unset_bit(w: u64, b: u64)
    by (bit_vector)
    requires
        b < 64,
        !bit(w, b),
    ensures
        w & !(1u64 << b) == w,
{
}

/// A word whose complement is zero has every bit set.
pub proof fn lemma_full_word(w: u64, k: u64)
    by (bit_vector)
    requires
        !w == 0,
        k < 64,
    ensures
        bit(w, k),
{
}

/// The padding adds no active index: the active indices of the words are
/// those of the first `len` slots.
pub proof fn lemma_padding_is_skipped(ws: Seq<u64>, len: nat)
    requires
        words_wf(ws, len),
    ensures
        active_indices(words_flags(ws)) == active_indices(words_flags(ws).take(len as int)),
        count_active(words_flags(ws)) == count_active(words_flags(ws).take(len as int)),
{
    let f = words_flags(ws);
    assert(f =~= f.take(len as int) + f.skip(len as int));
    lemma_append_skipped(f.take(len as int), f.skip(len as int));
}

/// Replacing word `i / 64` by a word that differs from it in bit `i % 64`
/// at most changes slot `i` and no other, and keeps the padding.
pub proof fn lemma_word_update(ws: Seq<u64>, len: nat, i: int, w: u64, val: bool)
    requires
        words_wf(ws, len),
        0 <= i < len,
        forall|k: u64|
            k < 64 ==> #[trigger] bit(w, k) == (if k == i % 64 {
                val
            } else {
                bit(ws[i / 64], k)
            }),
    ensures
        words_wf(ws.update(i / 64, w), len),
        words_flags(ws.update(i / 64, w)).take(len as int) == words_flags(ws).take(
            len as int,
        ).update(i, val),
{
    let ws2 = ws.update(i / 64, w);
    assert forall|j: int| 0 <= j < 64 * ws.len() implies words_flags(ws2)[j] == words_flags(
        ws,
    ).update(i, val)[j] by {
        if j / 64 == i / 64 {
            let k = (j % 64) as u64;
            assert(bit(w, k) == (if k == i % 64 {
                val
            } else {
                bit(ws[i / 64], k)
            }));
        }
    }
    assert(words_flags(ws2) =~= words_flags(ws).update(i, val));
    assert(words_flags(ws2).take(len as int) =~= words_flags(ws).take(len as int).update(i, val));
    assert forall|j: int| len <= j < 64 * ws2.len() implies #[trigger] words_flags(ws2)[j] by {
        assert(words_flags(ws)[j]);
    }
}

/// The slots of word `c` follow those of the words below it.
pub proof fn lemma_take_word(ws: Seq<u64>, c: int)
    requires
        0 <= c < ws.len(),
    ensures
        words_flags(ws).take(64 * (c + 1)) == words_flags(ws).take(64 * c) + word_flags(ws[c]),
        count_skipped(words_flags(ws).take(64 * (c + 1))) == count_skipped(
            words_flags(ws).take(64 * c),
        ) + ones(ws[c]),
{
    let f = words_flags(ws);
    assert(f.take(64 * (c + 1)) =~= f.take(64 * c) + word_flags(ws[c]));
    lemma_count_concat(f.take(64 * c), word_flags(ws[c]));
}

/// Masking a word to its lowest `t` bits leaves as many one bits as the
/// first `t` slots of the word have skipped slots.
pub proof fn lemma_masked_ones(w: u64, t: u64)
    requires
        0 < t < 64,
    ensures
        (1u64 << t) >= 1,
        ones(w & (((1u64 << t) - 1) as u64)) == count_skipped(word_flags(w).take(t as int)),
{
    lemma_bit_low_mask(t, 0);
    let m = ((1u64 << t) - 1) as u64;
    let low = word_flags(w).take(t as int);
    let high = all_active((64 - t) as nat);
    assert forall|k: int| 0 <= k < 64 implies word_flags(w & m)[k] == (low + high)[k] by {
        lemma_bit_and(w, m, k as u64);
        lemma_bit_low_mask(t, k as u64);
    }
    assert(word_flags(w & m) =~= low + high);
    lemma_count_concat(low, high);
    lemma_all_active((64 - t) as nat);
}

/// A zero bit of a word is a slot: it does not lie in the padding.
pub proof fn lemma_active_bit_in_range(ws: Seq<u64>, len: nat, c: int, k: u64)
    requires
        words_wf(ws, len),
        0 <= c < ws.len(),
        k < 64,
        !bit(ws[c], k),
    ensures
        64 * c + k < len,
{
    let i = 64 * c + k;
    if i >= len {
        assert(words_flags(ws)[i]);
    }
}

/// A word has at most 64 one bits.
pub proof fn lemma_ones_bound(w: u64)
    ensures
        ones(w) <= 64,
{
    lemma_count_bound(word_flags(w));
}

} // verus!
