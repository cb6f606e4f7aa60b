//! The horizontal sample decimator.
//!
//! `equal_remove` marks a requested number of positions of a slice as removed,
//! spreading the removals evenly over the index range by recursive halving;
//! `remove_evenly` then drops the marked positions. The survivors keep their
//! relative order, exactly the requested number of samples disappears, and
//! the whole operation is a function of the series and the count alone.

use vstd::prelude::*;

verus! {

/// The sentinel that tags a removed position. It is reserved: series handed
/// to the decimator may not contain it as a real value.
pub const REMOVED: usize = usize::MAX;

/// A sequence with every position of `[start, end)` marked removed.
pub open spec fn mark_range(s: Seq<usize>, start: int, end: int) -> Seq<usize> {
    Seq::new(s.len(), |i: int| if start <= i < end { REMOVED } else { s[i] })
}

/// The marking pass of the decimator: the sequence `s` with `amount`
/// positions of `[start, end)` tagged `REMOVED`, spread by recursive halving.
/// Mirrors `equal_remove`.
pub open spec fn spec_equal_remove(
    s: Seq<usize>,
    start: int,
    end: int,
    amount: int,
    is_left: bool,
) -> Seq<usize>
    decreases end - start,
{
    if end - start < 1 {
        s
    } else {
        let length = end - start;
        let sep = start + length / 2;
        let s1 = if amount % 2 == 1 { s.update(sep, REMOVED) } else { s };
        let a = if amount % 2 == 1 { amount - 1 } else { amount };
        if length == a {
            mark_range(s1, start, end)
        } else {
            let s2 = if length >= 2 {
                spec_equal_remove(s1, start, sep, a / 2, !is_left)
            } else {
                s1
            };
            if length >= 3 {
                spec_equal_remove(s2, sep + 1, end, a / 2, is_left)
            } else {
                s2
            }
        }
    }
}

/// How many positions of `[start, end)` carry the removal mark.
pub open spec fn count_removed(s: Seq<usize>, start: int, end: int) -> int
    decreases end - start,
{
    if start >= end {
        0
    } else {
        count_removed(s, start, end - 1) + if s[end - 1] == REMOVED {
            1int
        } else {
            0int
        }
    }
}

proof fn lemma_count_split(s: Seq<usize>, a: int, b: int, c: int)
    requires
        a <= b <= c,
    ensures
        count_removed(s, a, c) == count_removed(s, a, b) + count_removed(s, b, c),
    decreases c - b,
{
    if b == c {
    } else {
        lemma_count_split(s, a, b, c - 1);
    }
}

proof fn lemma_count_agree(s1: Seq<usize>, s2: Seq<usize>, a: int, b: int)
    requires
        forall|i: int| a <= i < b ==> s1[i] == s2[i],
    ensures
        count_removed(s1, a, b) == count_removed(s2, a, b),
    decreases b - a,
{
    if a < b {
        lemma_count_agree(s1, s2, a, b - 1);
    }
}

proof fn lemma_count_all_removed(s: Seq<usize>, a: int, b: int)
    requires
        a <= b,
        forall|i: int| a <= i < b ==> s[i] == REMOVED,
    ensures
        count_removed(s, a, b) == b - a,
    decreases b - a,
{
    if a < b {
        lemma_count_all_removed(s, a, b - 1);
    }
}

proof fn lemma_count_none_removed(s: Seq<usize>, a: int, b: int)
    requires
        forall|i: int| a <= i < b ==> s[i] != REMOVED,
    ensures
        count_removed(s, a, b) == 0,
    decreases b - a,
{
    if a < b {
        lemma_count_none_removed(s, a, b - 1);
    }
}

/// Mark `amount` positions of `arr[start..end]` as removed, spreading them
/// evenly: an odd request marks the midpoint, and the even remainder is split
/// half and half between the two sides of the midpoint. Returns the number of
/// positions marked, which is exactly the number requested.
pub fn equal_remove(
    arr: &mut Vec<usize>,
    start: usize,
    end: usize,
    amount: usize,
    is_left: bool,
) -> (removed: usize)
    requires
        start < end,
        end <= old(arr)@.len(),
        amount <= end - start,
        forall|i: int| start <= i < end ==> old(arr)@[i] != REMOVED,
    ensures
        final(arr)@ == spec_equal_remove(
            old(arr)@,
            start as int,
            end as int,
            amount as int,
            is_left,
        ),
        removed == amount,
        final(arr)@.len() == old(arr)@.len(),
        forall|i: int|
            0 <= i < old(arr)@.len() && !(start <= i < end) ==> final(arr)@[i] == old(arr)@[i],
        forall|i: int|
            start <= i < end ==> (final(arr)@[i] == old(arr)@[i] || final(arr)@[i] == REMOVED),
        count_removed(final(arr)@, start as int, end as int) == amount,
    decreases end - start,
{
    let length = end - start;
    let sep = start + length / 2;
    let mut amt = amount;
    let mut removed: usize = 0;

    if amt % 2 != 0 {
        arr[sep] = REMOVED;
        amt -= 1;
        removed += 1;
    }
    let ghost s1 = arr@;

    if length == amt {
        let mut i = start;
        while i < end
            invariant
                start <= i <= end,
                end <= arr@.len(),
                arr@.len() == s1.len(),
                forall|j: int| 0 <= j < arr@.len() && !(start <= j < i) ==> arr@[j] == s1[j],
                forall|j: int| start <= j < i ==> arr@[j] == REMOVED,
            decreases end - i,
        {
            arr[i] = REMOVED;
            i += 1;
        }
        proof {
            assert(arr@ =~= mark_range(s1, start as int, end as int));
            lemma_count_all_removed(arr@, start as int, end as int);
        }
        return amount;
    }

    if length >= 2 {
        let r1 = equal_remove(arr, start, sep, amt / 2, !is_left);
        removed = removed + r1;
    }
    let ghost s2 = arr@;
    if length >= 3 {
        let r2 = equal_remove(arr, sep + 1, end, amt / 2, is_left);
        removed = removed + r2;
    }

    proof {
        let fin = arr@;
        let o = old(arr)@;
        lemma_count_split(fin, start as int, sep as int, end as int);
        lemma_count_split(fin, sep as int, sep + 1, end as int);
        if length >= 2 {
            lemma_count_agree(fin, s2, start as int, sep as int);
        } else {
            lemma_count_none_removed(fin, start as int, sep as int);
        }
        if length < 3 {
            lemma_count_none_removed(fin, sep + 1, end as int);
        }
        assert(fin[sep as int] == s2[sep as int]);
        assert(s2[sep as int] == s1[sep as int]);
        assert(count_removed(fin, sep as int, sep as int) == 0);
        assert(count_removed(fin, sep as int, sep + 1) == if amount % 2 == 1 {
            1int
        } else {
            0int
        });
    }
    removed
}

/// The survivors of a marked sequence: the values that do not carry the mark,
/// in their original order.
pub open spec fn survivors(s: Seq<usize>) -> Seq<usize>
    decreases s.len(),
{
    if s.len() == 0 {
        Seq::empty()
    } else {
        let pre = survivors(s.drop_last());
        if s.last() == REMOVED {
            pre
        } else {
            pre.push(s.last())
        }
    }
}

/// The subsequence of `s` selected by the mask `m`: the values at the
/// positions where `m` is true, in their original order.
pub open spec fn mask_keep(s: Seq<usize>, m: Seq<bool>) -> Seq<usize>
    recommends
        m.len() == s.len(),
    decreases s.len(),
{
    if s.len() == 0 {
        Seq::empty()
    } else {
        let pre = mask_keep(s.drop_last(), m.drop_last());
        if m.last() {
            pre.push(s.last())
        } else {
            pre
        }
    }
}

/// `sub` arises from `sup` by deleting positions: some mask selects it.
/// Survivor order is therefore never a reordering of the original.
pub open spec fn is_subsequence_of(sub: Seq<usize>, sup: Seq<usize>) -> bool {
    exists|m: Seq<bool>| m.len() == sup.len() && sub == mask_keep(sup, m)
}

proof fn lemma_survivors_as_mask(orig: Seq<usize>, marks: Seq<usize>)
    requires
        orig.len() == marks.len(),
        forall|i: int| 0 <= i < marks.len() ==> marks[i] == REMOVED || marks[i] == orig[i],
    ensures
        survivors(marks) == mask_keep(orig, Seq::new(marks.len() as nat, |i: int| marks[i] != REMOVED)),
    decreases orig.len(),
{
    let m = Seq::new(marks.len() as nat, |i: int| marks[i] != REMOVED);
    if orig.len() == 0 {
        assert(survivors(marks) =~= mask_keep(orig, m));
    } else {
        lemma_survivors_as_mask(orig.drop_last(), marks.drop_last());
        let mpre = Seq::new((marks.len() - 1) as nat, |i: int| marks.drop_last()[i] != REMOVED);
        assert(mpre =~= m.drop_last());
        if marks.last() == REMOVED {
            assert(survivors(marks) =~= mask_keep(orig, m));
        } else {
            assert(marks.last() == orig.last());
            assert(survivors(marks) =~= mask_keep(orig, m));
        }
    }
}

proof fn lemma_survivors_len(s: Seq<usize>)
    ensures
        survivors(s).len() + count_removed(s, 0, s.len() as int) == s.len(),
    decreases s.len(),
{
    if s.len() > 0 {
        lemma_survivors_len(s.drop_last());
        lemma_count_agree(s, s.drop_last(), 0, s.len() - 1);
    }
}

/// What `remove_evenly` returns: the survivors of the evenly spread marking.
pub open spec fn spec_remove_evenly(s: Seq<usize>, amount: int) -> Seq<usize> {
    survivors(spec_equal_remove(s, 0, s.len() as int, amount, false))
}

fn filter_survivors(arr: &Vec<usize>) -> (r: Vec<usize>)
    ensures
        r@ == survivors(arr@),
{
    let mut out: Vec<usize> = Vec::new();
    let mut i: usize = 0;
    while i < arr.len()
        invariant
            i <= arr@.len(),
            out@ == survivors(arr@.take(i as int)),
        decreases arr@.len() - i,
    {
        proof {
            assert(arr@.take(i + 1).drop_last() =~= arr@.take(i as int));
            assert(arr@.take(i + 1).last() == arr@[i as int]);
        }
        if arr[i] != REMOVED {
            out.push(arr[i]);
        }
        i += 1;
    }
    proof {
        assert(arr@.take(arr@.len() as int) =~= arr@);
    }
    out
}

/// Remove exactly `amount` samples from the series, spread evenly across it.
/// Exactly `series.len() - amount` samples survive, and they stand in their
/// original relative order: the result is a subsequence of the input.
pub fn remove_evenly(series: &Vec<usize>, amount: usize) -> (r: Vec<usize>)
    requires
        amount <= series@.len(),
        forall|i: int| 0 <= i < series@.len() ==> series@[i] != REMOVED,
    ensures
        r@ == spec_remove_evenly(series@, amount as int),
        r@.len() == series@.len() - amount,
        is_subsequence_of(r@, series@),
{
    let mut work: Vec<usize> = Vec::new();
    let mut i: usize = 0;
    while i < series.len()
        invariant
            i <= series@.len(),
            work@ =~= series@.take(i as int),
        decreases series@.len() - i,
    {
        work.push(series[i]);
        i += 1;
    }
    proof {
        assert(work@ =~= series@);
    }

    if work.len() == 0 {
        proof {
            assert(spec_remove_evenly(series@, amount as int) =~= Seq::<usize>::empty());
            let m = Seq::<bool>::empty();
            assert(m.len() == series@.len() && Seq::<usize>::empty() == mask_keep(series@, m));
        }
        return work;
    }

    let len = work.len();
    equal_remove(&mut work, 0, len, amount, false);
    let r = filter_survivors(&work);
    proof {
        lemma_survivors_as_mask(series@, work@);
        lemma_survivors_len(work@);
        let m = Seq::new(work@.len() as nat, |i: int| work@[i] != REMOVED);
        assert(m.len() == series@.len() && r@ == mask_keep(series@, m));
    }
    r
}

} // verus!
