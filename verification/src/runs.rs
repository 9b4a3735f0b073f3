//! Runs: maximal contiguous blocks of skipped slots, and the boundary
//! tagging that the run-count encoding keeps.

use vstd::prelude::*;
use crate::model::{active_indices, count_skipped};

verus! {

/// `[s, e]` is a maximal contiguous block of skipped slots of `v`.
pub open spec fn is_maximal_run(v: Seq<bool>, s: int, e: int) -> bool {
    &&& 0 <= s <= e < v.len()
    &&& forall|k: int| s <= k <= e ==> v[k]
    &&& (s == 0 || !v[s - 1])
    &&& (e == v.len() - 1 || !v[e + 1])
}

/// First slot of the run that contains the skipped slot `i`.
pub open spec fn run_start(v: Seq<bool>, i: int) -> int
    decreases i,
{
    if 0 < i < v.len() && v[i - 1] {
        run_start(v, i - 1)
    } else {
        i
    }
}

/// Last slot of the run that contains the skipped slot `i`.
pub open spec fn run_end(v: Seq<bool>, i: int) -> int
    decreases v.len() - i,
{
    if 0 <= i && i + 1 < v.len() && v[i + 1] {
        run_end(v, i + 1)
    } else {
        i
    }
}

/// Length of the run that contains the skipped slot `i`.
pub open spec fn run_len(v: Seq<bool>, i: int) -> int {
    run_end(v, i) - run_start(v, i) + 1
}

/// The flags that a sequence of run counters stands for: a slot is skipped
/// where its counter is not zero.
pub open spec fn flags_of(c: Seq<u8>) -> Seq<bool> {
    Seq::new(c.len(), |i: int| c[i] != 0)
}

/// Boundary tagging: the first and the last counter of every maximal run
/// hold the run's length.
pub open spec fn tagged(c: Seq<u8>) -> bool {
    forall|s: int, e: int| #[trigger]
        is_maximal_run(flags_of(c), s, e) ==> c[s] == e - s + 1 && c[e] == e - s + 1
}

/// The counters after slot `i` of the run `[s, e]` is unskipped: slot `i` is
/// zeroed, and what is left of the run on either side of it is tagged at
/// both ends with its own length. No other counter changes.
pub open spec fn counters_after_unskip(c: Seq<u8>, i: int, s: int, e: int) -> Seq<u8> {
    let left = if s < i {
        c.update(s, (i - s) as u8).update(i - 1, (i - s) as u8)
    } else {
        c
    };
    let both = if i < e {
        left.update(i + 1, (e - i) as u8).update(e, (e - i) as u8)
    } else {
        left
    };
    both.update(i, 0)
}

/// The counters after the active slot `i` is skipped, with `l` the counter
/// to its left and `r` the counter to its right (0 at the ends of the
/// space): the merged length `l + r + 1` is written at the two ends of the
/// merged run, `i - l` and `i + r`, and at slot `i`. No other counter
/// changes.
pub open spec fn counters_after_skip(c: Seq<u8>, i: int, l: int, r: int) -> Seq<u8> {
    c.update(i - l, (l + r + 1) as u8).update(i + r, (l + r + 1) as u8).update(
        i,
        (l + r + 1) as u8,
    )
}

proof fn lemma_run_start(v: Seq<bool>, i: int)
    requires
        0 <= i < v.len(),
        v[i],
    ensures
        0 <= run_start(v, i) <= i,
        forall|k: int| run_start(v, i) <= k <= i ==> v[k],
        run_start(v, i) == 0 || !v[run_start(v, i) - 1],
    decreases i,
{
    if 0 < i && v[i - 1] {
        lemma_run_start(v, i - 1);
    }
}

proof fn lemma_run_end(v: Seq<bool>, i: int)
    requires
        0 <= i < v.len(),
        v[i],
    ensures
        i <= run_end(v, i) < v.len(),
        forall|k: int| i <= k <= run_end(v, i) ==> v[k],
        run_end(v, i) == v.len() - 1 || !v[run_end(v, i) + 1],
    decreases v.len() - i,
{
    if i + 1 < v.len() && v[i + 1] {
        lemma_run_end(v, i + 1);
    }
}

/// Every skipped slot lies in a maximal run, which `run_start` and `run_end`
/// delimit.
pub proof fn lemma_run_is_maximal(v: Seq<bool>, i: int)
    requires
        0 <= i < v.len(),
        v[i],
    ensures
        is_maximal_run(v, run_start(v, i), run_end(v, i)),
        run_start(v, i) <= i <= run_end(v, i),
        1 <= run_len(v, i) <= v.len(),
{
    lemma_run_start(v, i);
    lemma_run_end(v, i);
}

/// A slot lies in one maximal run only.
pub proof fn lemma_maximal_run_unique(v: Seq<bool>, s: int, e: int, i: int)
    requires
        is_maximal_run(v, s, e),
        s <= i <= e,
    ensures
        run_start(v, i) == s,
        run_end(v, i) == e,
{
    lemma_run_is_maximal(v, i);
    let a = run_start(v, i);
    let b = run_end(v, i);
    if a < s {
        assert(v[s - 1]);
    }
    if s < a {
        assert(v[a - 1]);
    }
    if b < e {
        assert(v[b + 1]);
    }
    if e < b {
        assert(v[e + 1]);
    }
}

/// A block of skipped slots adds its length to the count of skipped slots
/// and nothing to the active indices.
pub proof fn lemma_skipped_block(v: Seq<bool>, a: int, b: int)
    requires
        0 <= a <= b <= v.len(),
        forall|k: int| a <= k < b ==> v[k],
    ensures
        count_skipped(v.take(b)) == count_skipped(v.take(a)) + (b - a),
        active_indices(v.take(b)) == active_indices(v.take(a)),
    decreases b - a,
{
    if a < b {
        lemma_skipped_block(v, a, b - 1);
        assert(v.take(b).drop_last() =~= v.take(b - 1));
    }
}

/// In a tagged sequence of counters the run that contains a skipped slot has
/// its length at both ends.
pub proof fn lemma_boundaries_hold_run_len(c: Seq<u8>, i: int)
    requires
        tagged(c),
        0 <= i < c.len(),
        c[i] != 0,
    ensures
        c[run_start(flags_of(c), i)] == run_len(flags_of(c), i),
        c[run_end(flags_of(c), i)] == run_len(flags_of(c), i),
{
    lemma_run_is_maximal(flags_of(c), i);
}

/// The counters beside an active slot `i` of boundary-tagged counters delimit
/// the runs that end and start there.
pub proof fn lemma_neighbour_runs(c: Seq<u8>, i: int, l: int, r: int)
    requires
        tagged(c),
        0 <= i < c.len(),
        c[i] == 0,
        l == (if i > 0 { c[i - 1] as int } else { 0 }),
        r == (if i + 1 < c.len() { c[i + 1] as int } else { 0 }),
    ensures
        i - l >= 0,
        i + r < c.len(),
        forall|k: int| i - l <= k <= i + r && k != i ==> c[k] != 0,
        i - l == 0 || c[i - l - 1] == 0,
        i + r == c.len() - 1 || c[i + r + 1] == 0,
        l > 0 ==> c[i - l] == l,
        r > 0 ==> c[i + r] == r,
        is_maximal_run(flags_of(c).update(i, true), i - l, i + r),
{
    let v = flags_of(c);
    if l > 0 {
        lemma_run_is_maximal(v, i - 1);
        lemma_maximal_run_unique(v, run_start(v, i - 1), i - 1, i - 1);
        assert(is_maximal_run(v, run_start(v, i - 1), i - 1));
        assert(run_start(v, i - 1) == i - l);
    }
    if r > 0 {
        lemma_run_is_maximal(v, i + 1);
        assert(is_maximal_run(v, i + 1, run_end(v, i + 1)));
        assert(run_end(v, i + 1) == i + r);
    }
    assert forall|k: int| i - l <= k <= i + r && k != i implies c[k] != 0 by {
        assert(v[k]);
    }
    if i - l > 0 {
        assert(!v[i - l - 1]);
    }
    if i + r < c.len() - 1 {
        assert(!v[i + r + 1]);
    }
}

/// Skipping the active slot `i` keeps the boundary tagging, skips exactly
/// slot `i`, and makes `[i - l, i + r]` one run.
pub proof fn lemma_skip_keeps_tagging(c: Seq<u8>, i: int, l: int, r: int)
    requires
        tagged(c),
        0 <= i < c.len(),
        c[i] == 0,
        l == (if i > 0 { c[i - 1] as int } else { 0 }),
        r == (if i + 1 < c.len() { c[i + 1] as int } else { 0 }),
        l + r + 1 <= u8::MAX,
    ensures
        i - l >= 0,
        i + r < c.len(),
        tagged(counters_after_skip(c, i, l, r)),
        flags_of(counters_after_skip(c, i, l, r)) == flags_of(c).update(i, true),
        is_maximal_run(flags_of(counters_after_skip(c, i, l, r)), i - l, i + r),
{
    let v = flags_of(c);
    let c2 = counters_after_skip(c, i, l, r);
    lemma_neighbour_runs(c, i, l, r);
    let v2 = flags_of(c2);
    assert(v2 =~= v.update(i, true));
    assert(is_maximal_run(v2, i - l, i + r));
    assert forall|s: int, e: int| #[trigger] is_maximal_run(v2, s, e) implies c2[s] == e - s + 1
        && c2[e] == e - s + 1 by {
        if s <= i <= e {
            lemma_maximal_run_unique(v2, s, e, i);
            lemma_maximal_run_unique(v2, i - l, i + r, i);
        } else if e < i {
            assert(v2[i]);
            assert(e + 1 < i);
            assert(!v[e + 1]);
            if l > 0 && i - l <= e {
                assert(v[e + 1]);
            }
            assert forall|k: int| s <= k <= e implies v[k] by {
                assert(v2[k]);
            }
            assert(is_maximal_run(v, s, e));
        } else {
            assert(s - 1 > i);
            assert(!v[s - 1]);
            if r > 0 && s <= i + r {
                assert(v[s - 1]);
            }
            assert forall|k: int| s <= k <= e implies v[k] by {
                assert(v2[k]);
            }
            assert(is_maximal_run(v, s, e));
        }
    }
}

/// Unskipping slot `i` of the run `[s, e]` keeps the boundary tagging and
/// unskips exactly slot `i`.
pub proof fn lemma_unskip_keeps_tagging(c: Seq<u8>, i: int, s: int, e: int)
    requires
        tagged(c),
        is_maximal_run(flags_of(c), s, e),
        s <= i <= e,
    ensures
        tagged(counters_after_unskip(c, i, s, e)),
        flags_of(counters_after_unskip(c, i, s, e)) == flags_of(c).update(i, false),
{
    let v = flags_of(c);
    let c2 = counters_after_unskip(c, i, s, e);
    assert(c[s] == e - s + 1);
    let v2 = flags_of(c2);
    assert forall|k: int| 0 <= k < c.len() implies v2[k] == v.update(i, false)[k] by {
        if s <= k <= e {
            assert(v[k]);
        }
    }
    assert(v2 =~= v.update(i, false));
    assert forall|a: int, b: int| #[trigger] is_maximal_run(v2, a, b) implies c2[a] == b - a + 1
        && c2[b] == b - a + 1 by {
        assert(v2[a] && v2[b]);
        if b < s || a > e {
            assert forall|k: int| a <= k <= b implies v[k] by {
                assert(v2[k]);
            }
            if a > 0 {
                assert(!v2[a - 1]);
            }
            if b < v.len() - 1 {
                assert(!v2[b + 1]);
            }
            assert(is_maximal_run(v, a, b));
        } else if b < i {
            assert(a >= s) by {
                if a < s {
                    assert(v2[s - 1]);
                }
            }
            if a > s {
                assert(v2[a - 1]);
            }
            if b < i - 1 {
                assert(v2[b + 1]);
            }
        } else {
            assert(a > i) by {
                if a <= i {
                    assert(v2[i]);
                }
            }
            assert(b <= e) by {
                if b > e {
                    assert(v2[e + 1]);
                }
            }
            if b < e {
                assert(v2[b + 1]);
            }
            if a > i + 1 {
                assert(v2[a - 1]);
            }
        }
    }
}

/// Skipping the active slot `i` and then unskipping it with the boundaries
/// of the run that it joined restores every counter.
pub proof fn lemma_skip_unskip_restores_counters(c: Seq<u8>, i: int, l: int, r: int)
    requires
        tagged(c),
        0 <= i < c.len(),
        c[i] == 0,
        l == (if i > 0 { c[i - 1] as int } else { 0 }),
        r == (if i + 1 < c.len() { c[i + 1] as int } else { 0 }),
        l + r + 1 <= u8::MAX,
    ensures
        is_maximal_run(flags_of(counters_after_skip(c, i, l, r)), i - l, i + r),
        counters_after_unskip(counters_after_skip(c, i, l, r), i, i - l, i + r) == c,
{
    lemma_skip_keeps_tagging(c, i, l, r);
    lemma_neighbour_runs(c, i, l, r);
    assert(counters_after_unskip(counters_after_skip(c, i, l, r), i, i - l, i + r) =~= c);
}

/// Three adjacent slots that were skipped one by one, in whatever order,
/// and have active slots or the ends of the space beside them, form one run
/// of length 3: both of its ends hold 3, and the slot between them holds a
/// mark that is not zero.
pub proof fn lemma_three_adjacent_skips(c: Seq<u8>, i: int)
    requires
        tagged(c),
        0 <= i,
        i + 2 < c.len(),
        c[i] != 0 && c[i + 1] != 0 && c[i + 2] != 0,
        i == 0 || c[i - 1] == 0,
        i + 3 == c.len() || c[i + 3] == 0,
    ensures
        c[i] == 3,
        c[i + 2] == 3,
        run_start(flags_of(c), i + 1) == i,
        run_end(flags_of(c), i + 1) == i + 2,
{
    let v = flags_of(c);
    assert(is_maximal_run(v, i, i + 2)) by {
        assert forall|k: int| i <= k <= i + 2 implies v[k] by {
            assert(k == i || k == i + 1 || k == i + 2);
        }
    }
    lemma_maximal_run_unique(v, i, i + 2, i + 1);
}

} // verus!
