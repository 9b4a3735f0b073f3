//! The mathematical model shared by every encoding: a sequence of flags, one
//! per slot, where `true` means "skipped".

use vstd::prelude::*;

verus! {

/// Number of skipped slots.
pub open spec fn count_skipped(s: Seq<bool>) -> nat
    decreases s.len(),
{
    if s.len() == 0 {
        0
    } else {
        count_skipped(s.drop_last()) + if s.last() { 1nat } else { 0nat }
    }
}

/// Number of active slots.
pub open spec fn count_active(s: Seq<bool>) -> nat
    decreases s.len(),
{
    if s.len() == 0 {
        0
    } else {
        count_active(s.drop_last()) + if s.last() { 0nat } else { 1nat }
    }
}

/// The active indices, in ascending order.
pub open spec fn active_indices(s: Seq<bool>) -> Seq<usize>
    decreases s.len(),
{
    if s.len() == 0 {
        Seq::empty()
    } else if s.last() {
        active_indices(s.drop_last())
    } else {
        active_indices(s.drop_last()).push((s.len() - 1) as usize)
    }
}

/// The lowest active index, if any slot is active.
pub open spec fn first_active(s: Seq<bool>) -> Option<usize> {
    if active_indices(s).len() == 0 {
        None
    } else {
        Some(active_indices(s)[0])
    }
}

/// Every slot of `s` is skipped.
pub open spec fn all_skipped(s: Seq<bool>) -> bool {
    forall|j: int| 0 <= j < s.len() ==> s[j]
}

/// A fully active index space of `n` slots.
pub open spec fn all_active(n: nat) -> Seq<bool> {
    Seq::new(n, |i: int| false)
}

/// Active and skipped slots partition the index space.
pub proof fn lemma_counts_partition(s: Seq<bool>)
    ensures
        count_active(s) + count_skipped(s) == s.len(),
    decreases s.len(),
{
    if s.len() > 0 {
        lemma_counts_partition(s.drop_last());
    }
}

/// No more slots are skipped than there are.
pub proof fn lemma_count_bound(s: Seq<bool>)
    ensures
        count_skipped(s) <= s.len(),
{
    lemma_counts_partition(s);
}

/// There are as many active indices as there are active slots.
pub proof fn lemma_active_indices_len(s: Seq<bool>)
    ensures
        active_indices(s).len() == count_active(s),
    decreases s.len(),
{
    if s.len() > 0 {
        lemma_active_indices_len(s.drop_last());
    }
}

/// The active indices are in range, name active slots only, ascend strictly
/// and miss no active slot.
pub proof fn lemma_active_indices_exact(s: Seq<bool>)
    requires
        s.len() <= usize::MAX,
    ensures
        forall|k: int|
            0 <= k < active_indices(s).len() ==> (#[trigger] active_indices(s)[k]) < s.len()
                && !s[active_indices(s)[k] as int],
        forall|k: int, l: int|
            0 <= k < l < active_indices(s).len() ==> (#[trigger] active_indices(s)[k])
                < #[trigger] active_indices(s)[l],
        forall|i: int|
            0 <= i < s.len() && !(#[trigger] s[i]) ==> active_indices(s).contains(i as usize),
    decreases s.len(),
{
    if s.len() > 0 {
        let t = s.drop_last();
        lemma_active_indices_exact(t);
        let a = active_indices(t);
        let b = active_indices(s);
        assert forall|i: int| 0 <= i < s.len() && !(#[trigger] s[i]) implies b.contains(
            i as usize,
        ) by {
            if i < t.len() {
                assert(!t[i]);
                let k = choose|k: int| 0 <= k < a.len() && a[k] == i as usize;
                assert(b[k] == i as usize);
            } else {
                assert(b[b.len() - 1] == i as usize);
            }
        }
    }
}

/// A fully skipped index space has no active index.
pub proof fn lemma_all_skipped(s: Seq<bool>)
    requires
        all_skipped(s),
    ensures
        active_indices(s) == Seq::<usize>::empty(),
        count_skipped(s) == s.len(),
        count_active(s) == 0,
    decreases s.len(),
{
    if s.len() > 0 {
        lemma_all_skipped(s.drop_last());
    }
}

/// A fully active index space lists every index.
pub proof fn lemma_all_active(n: nat)
    ensures
        count_skipped(all_active(n)) == 0,
        count_active(all_active(n)) == n,
        active_indices(all_active(n)).len() == n,
        forall|k: int| 0 <= k < n ==> (#[trigger] active_indices(all_active(n))[k]) == k as usize,
    decreases n,
{
    if n > 0 {
        lemma_all_active((n - 1) as nat);
        assert(all_active(n).drop_last() =~= all_active((n - 1) as nat));
    }
}

/// Counting distributes over concatenation.
pub proof fn lemma_count_concat(a: Seq<bool>, b: Seq<bool>)
    ensures
        count_skipped(a + b) == count_skipped(a) + count_skipped(b),
    decreases b.len(),
{
    if b.len() == 0 {
        assert(a + b =~= a);
    } else {
        lemma_count_concat(a, b.drop_last());
        assert((a + b).drop_last() =~= a + b.drop_last());
    }
}

/// Skipped slots appended at the end add no active index.
pub proof fn lemma_append_skipped(a: Seq<bool>, b: Seq<bool>)
    requires
        all_skipped(b),
    ensures
        active_indices(a + b) == active_indices(a),
        count_active(a + b) == count_active(a),
    decreases b.len(),
{
    if b.len() == 0 {
        assert(a + b =~= a);
    } else {
        lemma_append_skipped(a, b.drop_last());
        assert((a + b).drop_last() =~= a + b.drop_last());
        assert((a + b).last() == b.last());
    }
}

/// The lowest active index heads the active indices, and the rest are the
/// active indices once that slot is skipped.
pub proof fn lemma_first_active_split(s: Seq<bool>, i: int)
    requires
        0 <= i < s.len(),
        !s[i],
        forall|j: int| 0 <= j < i ==> s[j],
    ensures
        active_indices(s) == seq![i as usize] + active_indices(s.update(i, true)),
    decreases s.len(),
{
    let t = s.drop_last();
    let u = s.update(i, true);
    if i == s.len() - 1 {
        lemma_all_skipped(t);
        assert(u.drop_last() =~= t);
        assert(active_indices(s) =~= seq![i as usize] + active_indices(u));
    } else {
        lemma_first_active_split(t, i);
        assert(u.drop_last() =~= t.update(i, true));
        assert(active_indices(s) =~= seq![i as usize] + active_indices(u));
    }
}

/// What `first_active` names: an active slot with only skipped slots below
/// it, or nothing when every slot is skipped.
pub proof fn lemma_first_active_exact(s: Seq<bool>)
    requires
        s.len() <= usize::MAX,
    ensures
        match first_active(s) {
            Some(i) => i < s.len() && !s[i as int] && forall|j: int| 0 <= j < i ==> s[j],
            None => all_skipped(s),
        },
{
    lemma_active_indices_exact(s);
    let a = active_indices(s);
    if a.len() == 0 {
        assert forall|j: int| 0 <= j < s.len() implies s[j] by {
            if !s[j] {
                assert(a.contains(j as usize));
            }
        }
    } else {
        let i = a[0];
        assert forall|j: int| 0 <= j < i implies s[j] by {
            if !s[j] {
                let k = choose|k: int| 0 <= k < a.len() && a[k] == j as usize;
                assert(a[0] <= a[k]);
            }
        }
    }
}

/// An active slot below which every slot is skipped is the first active
/// one.
pub proof fn lemma_first_active_is(s: Seq<bool>, i: int)
    requires
        0 <= i < s.len(),
        !s[i],
        forall|j: int| 0 <= j < i ==> s[j],
    ensures
        first_active(s) == Some(i as usize),
{
    lemma_first_active_split(s, i);
}

/// Setting one flag moves one slot between the skipped and the active
/// ones, or none if the flag was set so before.
pub proof fn lemma_count_after_update(s: Seq<bool>, i: int, skipped: bool)
    requires
        0 <= i < s.len(),
    ensures
        count_skipped(s.update(i, skipped)) == count_skipped(s) + (if skipped && !s[i] {
            1int
        } else if !skipped && s[i] {
            -1int
        } else {
            0int
        }),
        count_active(s.update(i, skipped)) + count_skipped(s.update(i, skipped)) == s.len(),
    decreases s.len(),
{
    let u = s.update(i, skipped);
    lemma_counts_partition(u);
    if i == s.len() - 1 {
        assert(u.drop_last() =~= s.drop_last());
    } else {
        lemma_count_after_update(s.drop_last(), i, skipped);
        assert(u.drop_last() =~= s.drop_last().update(i, skipped));
    }
}

/// The order in which two slots are skipped makes no difference.
pub proof fn lemma_skips_commute(s: Seq<bool>, a: int, b: int)
    requires
        0 <= a < s.len(),
        0 <= b < s.len(),
    ensures
        s.update(a, true).update(b, true) == s.update(b, true).update(a, true),
{
    assert(s.update(a, true).update(b, true) =~= s.update(b, true).update(a, true));
}

/// Skipping a slot and unskipping it again leaves it active and every other
/// slot as it was.
pub proof fn lemma_skip_unskip_round_trip(s: Seq<bool>, i: int)
    requires
        0 <= i < s.len(),
    ensures
        !s.update(i, true).update(i, false)[i],
        forall|j: int|
            0 <= j < s.len() && j != i ==> s.update(i, true).update(i, false)[j] == s[j],
        !s[i] ==> s.update(i, true).update(i, false) == s,
{
    if !s[i] {
        assert(s.update(i, true).update(i, false) =~= s);
    }
}

/// Unskipping an active slot changes nothing.
pub proof fn lemma_unskip_active_is_noop(s: Seq<bool>, i: int)
    requires
        0 <= i < s.len(),
        !s[i],
    ensures
        s.update(i, false) == s,
{
    assert(s.update(i, false) =~= s);
}

} // verus!
