//! The order of index values, and sorting by it.
//!
//! Index values are ordered as numbers; an undefined value comes after every
//! number and ties with itself. Sorting is stable: entries whose values tie
//! keep the order in which they stood.

use crate::cli::SortDirection;
use crate::data::{entry_views, SchoenerD, SchoenerDView};
use crate::ratio::{at_most, Ratio};
use vstd::prelude::*;

verus! {

/// Whether `x` may stand before `y` in the given direction.
pub open spec fn in_order(direction: SortDirection, x: Option<real>, y: Option<real>) -> bool {
    match direction {
        SortDirection::Ascending => at_most(x, y),
        SortDirection::Descending => at_most(y, x),
    }
}

/// Whether every entry may stand before all that follow it.
pub open spec fn is_sorted(entries: Seq<SchoenerDView>, direction: SortDirection) -> bool {
    forall|a: int, b: int|
        0 <= a < b < entries.len() ==> in_order(
            direction,
            (#[trigger] entries[a]).index,
            (#[trigger] entries[b]).index,
        )
}

/// The entries whose index is `x`, in the order in which they stand.
pub open spec fn with_index(entries: Seq<SchoenerDView>, x: Option<real>) -> Seq<SchoenerDView>
    decreases entries.len(),
{
    if entries.len() == 0 {
        Seq::empty()
    } else {
        let front = with_index(entries.drop_last(), x);
        if entries.last().index == x {
            front.push(entries.last())
        } else {
            front
        }
    }
}

/// Whether `after` is `before` sorted stably: it is in order, and for each
/// index value it holds the same entries in the same order as `before`.
pub open spec fn is_stable_sort(
    before: Seq<SchoenerDView>,
    after: Seq<SchoenerDView>,
    direction: SortDirection,
) -> bool {
    &&& after.len() == before.len()
    &&& is_sorted(after, direction)
    &&& forall|x: Option<real>| #[trigger] with_index(after, x) == with_index(before, x)
}

/// Adding an entry at the end adds it to the entries of its index, and to
/// no others.
proof fn lemma_with_index_push(entries: Seq<SchoenerDView>, entry: SchoenerDView, x: Option<real>)
    ensures
        with_index(entries.push(entry), x) == if entry.index == x {
            with_index(entries, x).push(entry)
        } else {
            with_index(entries, x)
        },
{
    assert(entries.push(entry).drop_last() =~= entries);
}

/// The entries of an index in two sequences joined are those in the first,
/// then those in the second.
proof fn lemma_with_index_add(a: Seq<SchoenerDView>, b: Seq<SchoenerDView>, x: Option<real>)
    ensures
        with_index(a + b, x) == with_index(a, x) + with_index(b, x),
    decreases b.len(),
{
    if b.len() == 0 {
        assert(a + b =~= a);
        assert(with_index(a, x) + with_index(b, x) =~= with_index(a, x));
    } else {
        lemma_with_index_add(a, b.drop_last(), x);
        assert((a + b).drop_last() =~= a + b.drop_last());
        assert((a + b).last() == b.last());
        if b.last().index == x {
            assert((with_index(a, x) + with_index(b.drop_last(), x)).push(b.last())
                =~= with_index(a, x) + with_index(b.drop_last(), x).push(b.last()));
        }
    }
}

/// Entries none of which has index `x` hold no entry with index `x`.
pub(crate) proof fn lemma_with_index_none(entries: Seq<SchoenerDView>, x: Option<real>)
    requires
        forall|k: int| 0 <= k < entries.len() ==> (#[trigger] entries[k]).index != x,
    ensures
        with_index(entries, x) == Seq::<SchoenerDView>::empty(),
    decreases entries.len(),
{
    if entries.len() > 0 {
        let front = entries.drop_last();
        assert forall|k: int| 0 <= k < front.len() implies (#[trigger] front[k]).index != x by {
            assert(front[k] == entries[k]);
        }
        lemma_with_index_none(front, x);
        assert(entries.last() == entries[entries.len() - 1]);
    }
}

/// Whether an entry with index `a` may stand before one with index `b`.
pub fn index_in_order(direction: SortDirection, a: &Ratio, b: &Ratio) -> (r: bool)
    ensures
        r == in_order(direction, a.value(), b.value()),
{
    match direction {
        SortDirection::Ascending => a.at_most(b),
        SortDirection::Descending => b.at_most(a),
    }
}

/// Merges two sorted runs. Where an entry of each ties, the one of the left
/// run comes first.
fn merge<'a>(
    left: &Vec<SchoenerD<'a>>,
    right: &Vec<SchoenerD<'a>>,
    direction: SortDirection,
) -> (out: Vec<SchoenerD<'a>>)
    requires
        is_sorted(entry_views(left@), direction),
        is_sorted(entry_views(right@), direction),
        left.len() + right.len() <= usize::MAX,
    ensures
        is_stable_sort(entry_views(left@) + entry_views(right@), entry_views(out@), direction),
{
    let ghost l = entry_views(left@);
    let ghost r = entry_views(right@);
    let mut out: Vec<SchoenerD<'a>> = Vec::new();
    let mut i: usize = 0;
    let mut j: usize = 0;
    proof {
        assert forall|x: Option<real>| #[trigger]
            with_index(entry_views(out@), x) == with_index(l.subrange(0, 0), x) + with_index(
                r.subrange(0, 0),
                x,
            ) by {
            assert(l.subrange(0, 0) =~= Seq::<SchoenerDView>::empty());
            assert(r.subrange(0, 0) =~= Seq::<SchoenerDView>::empty());
            assert(entry_views(out@) =~= Seq::<SchoenerDView>::empty());
            assert(with_index(Seq::<SchoenerDView>::empty(), x) + with_index(
                Seq::<SchoenerDView>::empty(),
                x,
            ) =~= Seq::<SchoenerDView>::empty());
        }
    }
    while i < left.len() || j < right.len()
        invariant
            i <= left.len(),
            j <= right.len(),
            left.len() + right.len() <= usize::MAX,
            out.len() == i + j,
            l == entry_views(left@),
            r == entry_views(right@),
            is_sorted(l, direction),
            is_sorted(r, direction),
            is_sorted(entry_views(out@), direction),
            forall|k: int|
                0 <= k < out.len() && i < left.len() ==> in_order(
                    direction,
                    (#[trigger] entry_views(out@)[k]).index,
                    l[i as int].index,
                ),
            forall|k: int|
                0 <= k < out.len() && j < right.len() ==> in_order(
                    direction,
                    (#[trigger] entry_views(out@)[k]).index,
                    r[j as int].index,
                ),
            forall|k: int|
                0 <= k < j && i < left.len() ==> !in_order(
                    direction,
                    l[i as int].index,
                    (#[trigger] r[k]).index,
                ),
            forall|x: Option<real>| #[trigger]
                with_index(entry_views(out@), x) == with_index(l.subrange(0, i as int), x)
                    + with_index(r.subrange(0, j as int), x),
        decreases (left.len() - i) + (right.len() - j),
    {
        let ghost o = entry_views(out@);
        let take_left = j >= right.len() || (i < left.len() && index_in_order(
            direction,
            &left[i].index(),
            &right[j].index(),
        ));
        if take_left {
            out.push(left[i]);
            proof {
                let e = l[i as int];
                let taken = r.subrange(0, j as int);
                assert(entry_views(out@) =~= o.push(e));
                assert(l.subrange(0, i + 1) =~= l.subrange(0, i as int).push(e));
                assert forall|k: int| 0 <= k < taken.len() implies (#[trigger] taken[k]).index
                    != e.index by {
                    assert(taken[k] == r[k]);
                }
                lemma_with_index_none(taken, e.index);
                assert forall|x: Option<real>| #[trigger]
                    with_index(entry_views(out@), x) == with_index(l.subrange(0, i + 1), x)
                        + with_index(taken, x) by {
                    lemma_with_index_push(o, e, x);
                    lemma_with_index_push(l.subrange(0, i as int), e, x);
                    if e.index == x {
                        assert((with_index(l.subrange(0, i as int), x) + with_index(taken, x)).push(
                            e,
                        ) =~= with_index(l.subrange(0, i as int), x).push(e) + with_index(
                            taken,
                            x,
                        ));
                    }
                }
                assert forall|k: int| 0 <= k < j && i + 1 < left.len() implies !in_order(
                    direction,
                    l[i + 1].index,
                    (#[trigger] r[k]).index,
                ) by {
                    assert(in_order(direction, l[i as int].index, l[i + 1].index));
                }
                assert forall|k: int| 0 <= k < out.len() && i + 1 < left.len() implies in_order(
                    direction,
                    (#[trigger] entry_views(out@)[k]).index,
                    l[i + 1].index,
                ) by {
                    assert(in_order(direction, l[i as int].index, l[i + 1].index));
                    if k < o.len() {
                        assert(entry_views(out@)[k] == o[k]);
                    }
                }
                assert forall|k: int| 0 <= k < out.len() && j < right.len() implies in_order(
                    direction,
                    (#[trigger] entry_views(out@)[k]).index,
                    r[j as int].index,
                ) by {
                    if k < o.len() {
                        assert(entry_views(out@)[k] == o[k]);
                    }
                }
                assert forall|a: int, b: int| 0 <= a < b < out.len() implies in_order(
                    direction,
                    (#[trigger] entry_views(out@)[a]).index,
                    (#[trigger] entry_views(out@)[b]).index,
                ) by {
                    assert(entry_views(out@)[a] == o[a]);
                    if b < o.len() {
                        assert(entry_views(out@)[b] == o[b]);
                    }
                }
            }
            i = i + 1;
        } else {
            out.push(right[j]);
            proof {
                let e = r[j as int];
                let taken = l.subrange(0, i as int);
                assert(entry_views(out@) =~= o.push(e));
                assert(r.subrange(0, j + 1) =~= r.subrange(0, j as int).push(e));
                assert forall|x: Option<real>| #[trigger]
                    with_index(entry_views(out@), x) == with_index(taken, x) + with_index(
                        r.subrange(0, j + 1),
                        x,
                    ) by {
                    lemma_with_index_push(o, e, x);
                    lemma_with_index_push(r.subrange(0, j as int), e, x);
                    if e.index == x {
                        assert((with_index(taken, x) + with_index(r.subrange(0, j as int), x)).push(
                            e,
                        ) =~= with_index(taken, x) + with_index(r.subrange(0, j as int), x).push(
                            e,
                        ));
                    }
                }
                assert forall|k: int| 0 <= k < out.len() && i < left.len() implies in_order(
                    direction,
                    (#[trigger] entry_views(out@)[k]).index,
                    l[i as int].index,
                ) by {
                    if k < o.len() {
                        assert(entry_views(out@)[k] == o[k]);
                    }
                }
                assert forall|k: int| 0 <= k < out.len() && j + 1 < right.len() implies in_order(
                    direction,
                    (#[trigger] entry_views(out@)[k]).index,
                    r[j + 1].index,
                ) by {
                    assert(in_order(direction, r[j as int].index, r[j + 1].index));
                    if k < o.len() {
                        assert(entry_views(out@)[k] == o[k]);
                    }
                }
                assert forall|a: int, b: int| 0 <= a < b < out.len() implies in_order(
                    direction,
                    (#[trigger] entry_views(out@)[a]).index,
                    (#[trigger] entry_views(out@)[b]).index,
                ) by {
                    assert(entry_views(out@)[a] == o[a]);
                    if b < o.len() {
                        assert(entry_views(out@)[b] == o[b]);
                    }
                }
            }
            j = j + 1;
        }
    }
    proof {
        assert(l.subrange(0, i as int) =~= l);
        assert(r.subrange(0, j as int) =~= r);
        assert forall|x: Option<real>| #[trigger]
            with_index(entry_views(out@), x) == with_index(l + r, x) by {
            lemma_with_index_add(l, r, x);
        }
    }
    out
}

/// Sorts the entries from position `lo` up to position `hi`.
fn sort_range<'a>(
    entries: &Vec<SchoenerD<'a>>,
    lo: usize,
    hi: usize,
    direction: SortDirection,
) -> (out: Vec<SchoenerD<'a>>)
    requires
        lo <= hi <= entries.len(),
    ensures
        is_stable_sort(
            entry_views(entries@).subrange(lo as int, hi as int),
            entry_views(out@),
            direction,
        ),
    decreases hi - lo,
{
    let ghost source = entry_views(entries@).subrange(lo as int, hi as int);
    if hi - lo <= 1 {
        let mut out: Vec<SchoenerD<'a>> = Vec::new();
        if lo < hi {
            out.push(entries[lo]);
        }
        assert(entry_views(out@) =~= source);
        return out;
    }
    let mid: usize = lo + (hi - lo) / 2;
    let left = sort_range(entries, lo, mid, direction);
    let right = sort_range(entries, mid, hi, direction);
    let out = merge(&left, &right, direction);
    proof {
        let first = entry_views(entries@).subrange(lo as int, mid as int);
        let second = entry_views(entries@).subrange(mid as int, hi as int);
        assert(source =~= first + second);
        assert forall|x: Option<real>| #[trigger]
            with_index(entry_views(out@), x) == with_index(source, x) by {
            lemma_with_index_add(entry_views(left@), entry_views(right@), x);
            lemma_with_index_add(first, second, x);
            assert(with_index(entry_views(left@), x) == with_index(first, x));
            assert(with_index(entry_views(right@), x) == with_index(second, x));
        }
    }
    out
}

/// The entries sorted stably by their index in the given direction.
pub fn sorted<'a>(entries: &Vec<SchoenerD<'a>>, direction: SortDirection) -> (out: Vec<
    SchoenerD<'a>,
>)
    ensures
        is_stable_sort(entry_views(entries@), entry_views(out@), direction),
{
    assert(entry_views(entries@).subrange(0, entries.len() as int) =~= entry_views(entries@));
    sort_range(entries, 0, entries.len(), direction)
}

} // verus!
