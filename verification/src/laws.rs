//! Laws of normalizing, of the index and of sorting.

use crate::cli::SortDirection;
use crate::data::SchoenerDView;
use crate::error::ErrorView;
use crate::input::field::{field_count, ParseFieldErrorKind};
use crate::input::{
    cell_count, first_bad_field, first_index_of, header_of, header_pollinators,
    lemma_count_total_prefix, loaded, push_row, read_rows, Rows,
};
use crate::model::{count_cells, count_total};
use crate::model::{
    absolute, column_sum, difference_sum, in_unit_range, normalized, pair_position, pairs_before,
    quotient, schoener_d,
};
use crate::order::{in_order, is_sorted, is_stable_sort, lemma_with_index_none, with_index};
use vstd::prelude::*;
use vstd::seq_lib::to_multiset_build;
use vstd::utf8::encode_utf8;

verus! {

/// Whether every row has `cols` cells.
pub open spec fn rectangular(cells: Seq<Seq<Option<real>>>, cols: int) -> bool {
    forall|r: int| 0 <= r < cells.len() ==> (#[trigger] cells[r]).len() == cols
}

/// Whether every defined cell of column `c` is zero or more.
pub open spec fn column_nonnegative(cells: Seq<Seq<Option<real>>>, c: int) -> bool {
    forall|r: int|
        0 <= r < cells.len() ==> ((#[trigger] cells[r])[c] matches Some(x) ==> x >= 0real)
}

/// The distance between two columns does not depend on which comes first.
proof fn lemma_difference_sum_symmetric(cells: Seq<Seq<Option<real>>>, i: int, j: int, n: int)
    ensures
        difference_sum(cells, i, j, n) == difference_sum(cells, j, i, n),
    decreases n,
{
    if n > 0 {
        lemma_difference_sum_symmetric(cells, i, j, n - 1);
        if cells[n - 1][i] is Some && cells[n - 1][j] is Some {
            let x = cells[n - 1][i]->0;
            let y = cells[n - 1][j]->0;
            assert(absolute(x - y) == absolute(y - x));
        }
    }
}

/// The index of a pair of columns does not depend on which of them is named
/// first.
pub proof fn lemma_schoener_d_symmetric(cells: Seq<Seq<Option<real>>>, i: int, j: int)
    ensures
        schoener_d(cells, i, j) == schoener_d(cells, j, i),
{
    lemma_difference_sum_symmetric(cells, i, j, cells.len() as int);
}

/// The sum of a column depends on the cells of that column only.
proof fn lemma_column_sum_of_column(
    a: Seq<Seq<Option<real>>>,
    b: Seq<Seq<Option<real>>>,
    c: int,
    k: int,
    n: int,
)
    requires
        forall|r: int| 0 <= r < n ==> (#[trigger] a[r])[c] == (#[trigger] b[r])[k],
    ensures
        column_sum(a, c, n) == column_sum(b, k, n),
    decreases n,
{
    if n > 0 {
        lemma_column_sum_of_column(a, b, c, k, n - 1);
        assert(a[n - 1][c] == b[n - 1][k]);
    }
}

/// The distance between two columns depends on the cells of those columns
/// only.
proof fn lemma_difference_sum_of_columns(
    a: Seq<Seq<Option<real>>>,
    b: Seq<Seq<Option<real>>>,
    i: int,
    j: int,
    k: int,
    l: int,
    n: int,
)
    requires
        forall|r: int| 0 <= r < n ==> (#[trigger] a[r])[i] == (#[trigger] b[r])[k],
        forall|r: int| 0 <= r < n ==> (#[trigger] a[r])[j] == (#[trigger] b[r])[l],
    ensures
        difference_sum(a, i, j, n) == difference_sum(b, k, l, n),
    decreases n,
{
    if n > 0 {
        lemma_difference_sum_of_columns(a, b, i, j, k, l, n - 1);
        assert(a[n - 1][i] == b[n - 1][k]);
        assert(a[n - 1][j] == b[n - 1][l]);
    }
}

/// The index of a pair of pollinators, taken after normalizing, does not
/// depend on where their columns stand in the matrix, nor on which of them
/// comes first: two matrices that hold the same two columns, at whatever
/// places, give the pair the same index.
pub proof fn lemma_index_ignores_column_order(
    a: Seq<Seq<Option<real>>>,
    b: Seq<Seq<Option<real>>>,
    i: int,
    j: int,
    k: int,
    l: int,
)
    requires
        a.len() == b.len(),
        forall|r: int|
            0 <= r < a.len() ==> 0 <= i < (#[trigger] a[r]).len() && 0 <= j < a[r].len(),
        forall|r: int|
            0 <= r < b.len() ==> 0 <= k < (#[trigger] b[r]).len() && 0 <= l < b[r].len(),
        forall|r: int| 0 <= r < a.len() ==> (#[trigger] a[r])[i] == (#[trigger] b[r])[k],
        forall|r: int| 0 <= r < a.len() ==> (#[trigger] a[r])[j] == (#[trigger] b[r])[l],
    ensures
        schoener_d(normalized(a), i, j) == schoener_d(normalized(b), k, l),
        schoener_d(normalized(a), i, j) == schoener_d(normalized(b), l, k),
{
    let n = a.len() as int;
    lemma_column_sum_of_column(a, b, i, k, n);
    lemma_column_sum_of_column(a, b, j, l, n);
    assert forall|r: int| 0 <= r < n implies (#[trigger] normalized(a)[r])[i] == (
    #[trigger] normalized(b)[r])[k] by {
        assert(a[r][i] == b[r][k]);
    }
    assert forall|r: int| 0 <= r < n implies (#[trigger] normalized(a)[r])[j] == (
    #[trigger] normalized(b)[r])[l] by {
        assert(a[r][j] == b[r][l]);
    }
    lemma_difference_sum_of_columns(normalized(a), normalized(b), i, j, k, l, n);
    lemma_schoener_d_symmetric(normalized(b), k, l);
}

/// Where the distance between two columns is defined, so are their sums, and
/// the distance is at most the two sums together.
proof fn lemma_difference_sum_bound(cells: Seq<Seq<Option<real>>>, i: int, j: int, n: int)
    requires
        n <= cells.len(),
        column_nonnegative(cells, i),
        column_nonnegative(cells, j),
        difference_sum(cells, i, j, n) is Some,
    ensures
        column_sum(cells, i, n) is Some,
        column_sum(cells, j, n) is Some,
        0real <= difference_sum(cells, i, j, n)->0 <= column_sum(cells, i, n)->0 + column_sum(
            cells,
            j,
            n,
        )->0,
    decreases n,
{
    if n > 0 {
        lemma_difference_sum_bound(cells, i, j, n - 1);
        let x = cells[n - 1][i]->0;
        let y = cells[n - 1][j]->0;
        assert(cells[n - 1][i] is Some && cells[n - 1][j] is Some);
        assert(0real <= absolute(x - y) <= x + y);
    }
}

/// The index of two columns that each sum to one, and hold no negative
/// cell, lies between zero and one.
pub proof fn lemma_schoener_d_range(cells: Seq<Seq<Option<real>>>, i: int, j: int)
    requires
        column_nonnegative(cells, i),
        column_nonnegative(cells, j),
        column_sum(cells, i, cells.len() as int) is Some ==> column_sum(
            cells,
            i,
            cells.len() as int,
        ) == Some(1real),
        column_sum(cells, j, cells.len() as int) is Some ==> column_sum(
            cells,
            j,
            cells.len() as int,
        ) == Some(1real),
    ensures
        in_unit_range(schoener_d(cells, i, j)),
{
    if difference_sum(cells, i, j, cells.len() as int) is Some {
        lemma_difference_sum_bound(cells, i, j, cells.len() as int);
    }
}

/// A column whose sum is defined holds defined cells only.
proof fn lemma_column_sum_defined(cells: Seq<Seq<Option<real>>>, c: int, n: int, r: int)
    requires
        column_sum(cells, c, n) is Some,
        0 <= r < n,
    ensures
        cells[r][c] is Some,
    decreases n,
{
    if r < n - 1 {
        lemma_column_sum_defined(cells, c, n - 1, r);
    }
}

/// The sum of a column of quotients by `s` is the quotient of the sum by
/// `s`.
proof fn lemma_column_sum_of_quotients(
    cells: Seq<Seq<Option<real>>>,
    quotients: Seq<Seq<Option<real>>>,
    c: int,
    s: real,
    n: int,
)
    requires
        s != 0real,
        column_sum(cells, c, n) is Some,
        forall|r: int|
            0 <= r < n ==> (#[trigger] quotients[r])[c] == quotient(cells[r][c], Some(s)),
    ensures
        column_sum(quotients, c, n) == Some(column_sum(cells, c, n)->0 / s),
    decreases n,
{
    if n > 0 {
        lemma_column_sum_of_quotients(cells, quotients, c, s, n - 1);
        let before = column_sum(cells, c, n - 1)->0;
        let x = cells[n - 1][c]->0;
        assert(quotients[n - 1][c] == quotient(cells[n - 1][c], Some(s)));
        assert(before / s + x / s == (before + x) / s) by (nonlinear_arith)
            requires
                s != 0real,
        ;
    } else {
        assert(0real / s == 0real) by (nonlinear_arith)
            requires
                s != 0real,
        ;
    }
}

/// Normalizing twice is normalizing once: in a normalized matrix every
/// column sums to one or is undefined, and dividing by that sum changes
/// nothing.
pub proof fn lemma_normalize_idempotent(cells: Seq<Seq<Option<real>>>, cols: int)
    requires
        rectangular(cells, cols),
    ensures
        normalized(normalized(cells)) == normalized(cells),
{
    let n = cells.len() as int;
    let once = normalized(cells);
    let twice = normalized(once);
    assert forall|r: int| 0 <= r < n implies #[trigger] twice[r] == once[r] by {
        assert forall|c: int| 0 <= c < cols implies #[trigger] twice[r][c] == once[r][c] by {
            let sum = column_sum(cells, c, n);
            assert(once[r][c] == quotient(cells[r][c], sum));
            assert(twice[r][c] == quotient(once[r][c], column_sum(once, c, n)));
            if sum is Some && sum->0 != 0real {
                let s = sum->0;
                assert forall|k: int| 0 <= k < n implies (#[trigger] once[k])[c] == quotient(
                    cells[k][c],
                    Some(s),
                ) by {}
                lemma_column_sum_of_quotients(cells, once, c, s, n);
                lemma_column_sum_defined(cells, c, n, r);
                let x = cells[r][c]->0;
                assert(s / s == 1real) by (nonlinear_arith)
                    requires
                        s != 0real,
                ;
                assert((x / s) / 1real == x / s) by (nonlinear_arith);
            }
        }
        assert(twice[r] =~= once[r]);
    }
    assert(twice =~= once);
}

/// Normalizing leaves a normalized matrix as it is: one of which every
/// column sums to one or is undefined in every row.
pub proof fn lemma_normalize_keeps_normalized(cells: Seq<Seq<Option<real>>>, cols: int)
    requires
        rectangular(cells, cols),
        forall|c: int|
            0 <= c < cols ==> {
                ||| #[trigger] column_sum(cells, c, cells.len() as int) == Some(1real)
                ||| forall|r: int| 0 <= r < cells.len() ==> (#[trigger] cells[r])[c] is None
            },
    ensures
        normalized(cells) == cells,
{
    let n = cells.len() as int;
    let once = normalized(cells);
    assert forall|r: int| 0 <= r < n implies #[trigger] once[r] == cells[r] by {
        assert forall|c: int| 0 <= c < cols implies #[trigger] once[r][c] == cells[r][c] by {
            let sum = column_sum(cells, c, n);
            assert(once[r][c] == quotient(cells[r][c], sum));
            if sum == Some(1real) {
                lemma_column_sum_defined(cells, c, n, r);
                let x = cells[r][c]->0;
                assert(x / 1real == x) by (nonlinear_arith);
            } else {
                assert(cells[r][c] is None);
            }
        }
        assert(once[r] =~= cells[r]);
    }
    assert(once =~= cells);
}

/// After normalizing, every column sums to one, but for those whose sum was
/// zero or undefined: these are undefined.
pub proof fn lemma_normalized_columns(cells: Seq<Seq<Option<real>>>, cols: int, c: int)
    requires
        rectangular(cells, cols),
        cells.len() >= 1,
        0 <= c < cols,
    ensures
        column_sum(normalized(cells), c, cells.len() as int) == match column_sum(
            cells,
            c,
            cells.len() as int,
        ) {
            Some(sum) => if sum == 0real {
                None
            } else {
                Some(1real)
            },
            None => None,
        },
{
    let n = cells.len() as int;
    let once = normalized(cells);
    let sum = column_sum(cells, c, n);
    if sum is Some && sum->0 != 0real {
        let s = sum->0;
        assert forall|k: int| 0 <= k < n implies (#[trigger] once[k])[c] == quotient(
            cells[k][c],
            Some(s),
        ) by {}
        lemma_column_sum_of_quotients(cells, once, c, s, n);
        assert(s / s == 1real) by (nonlinear_arith)
            requires
                s != 0real,
        ;
    } else {
        assert(once[n - 1][c] == quotient(cells[n - 1][c], sum));
    }
}

/// The places of two pairs differ: the pair that comes first, by its first
/// column and then by its second, has the lower place; and every place lies
/// below the number of pairs.
pub proof fn lemma_pair_position_increases(cols: int, a: int, b: int, i: int, j: int)
    requires
        0 <= a < b < cols,
        0 <= i < j < cols,
        a < i || (a == i && b < j),
    ensures
        0 <= pair_position(cols, a, b) < pair_position(cols, i, j) < pairs_before(cols, cols),
{
    lemma_pairs_before_increases(cols, 0, a);
    lemma_pairs_before_increases(cols, i + 1, cols);
    if a < i {
        lemma_pairs_before_increases(cols, a + 1, i);
    }
}

/// The number of pairs before a column grows with the column.
proof fn lemma_pairs_before_increases(cols: int, a: int, i: int)
    requires
        0 <= a <= i <= cols,
    ensures
        pairs_before(cols, a) <= pairs_before(cols, i),
        pairs_before(cols, 0) == 0,
    decreases i - a,
{
    if a < i {
        lemma_pairs_before_increases(cols, a, i - 1);
    }
}

/// Index values that may stand either way round are one value.
proof fn lemma_tie_is_equality(direction: SortDirection, x: Option<real>, y: Option<real>)
    requires
        in_order(direction, x, y),
        in_order(direction, y, x),
    ensures
        x == y,
{
}

/// Where some entry has index `x`, one stands at some position.
proof fn lemma_with_index_witness(entries: Seq<SchoenerDView>, x: Option<real>) -> (k: int)
    requires
        with_index(entries, x).len() > 0,
    ensures
        0 <= k < entries.len(),
        entries[k].index == x,
{
    if forall|k: int| 0 <= k < entries.len() ==> (#[trigger] entries[k]).index != x {
        lemma_with_index_none(entries, x);
    }
    choose|k: int| 0 <= k < entries.len() && (#[trigger] entries[k]).index == x
}

/// Sequences that are in order, and that hold for each index value the same
/// entries in the same order, are one sequence.
proof fn lemma_sorted_unique(
    a: Seq<SchoenerDView>,
    b: Seq<SchoenerDView>,
    direction: SortDirection,
)
    requires
        a.len() == b.len(),
        is_sorted(a, direction),
        is_sorted(b, direction),
        forall|x: Option<real>| #[trigger] with_index(a, x) == with_index(b, x),
    ensures
        a == b,
    decreases a.len(),
{
    if a.len() == 0 {
        assert(a =~= b);
    } else {
        let n = a.len() as int;
        let x = a.last().index;
        let y = b.last().index;
        assert(with_index(a, x) == with_index(b, x));
        assert(with_index(a, y) == with_index(b, y));
        if x != y {
            let p = lemma_with_index_witness(a, y);
            let q = lemma_with_index_witness(b, x);
            assert(a[n - 1].index == x);
            assert(b[n - 1].index == y);
            assert(in_order(direction, a[p].index, a[n - 1].index));
            assert(in_order(direction, b[q].index, b[n - 1].index));
            lemma_tie_is_equality(direction, x, y);
        }
        let front_a = a.drop_last();
        let front_b = b.drop_last();
        assert(with_index(a, x) == with_index(front_a, x).push(a.last()));
        assert(with_index(b, x) == with_index(front_b, x).push(b.last()));
        assert(with_index(a, x).last() == a.last());
        assert(with_index(b, x).last() == b.last());
        assert(with_index(a, x).drop_last() =~= with_index(front_a, x));
        assert(with_index(b, x).drop_last() =~= with_index(front_b, x));
        assert forall|z: Option<real>| #[trigger]
            with_index(front_a, z) == with_index(front_b, z) by {
            assert(with_index(a, z) == with_index(b, z));
        }
        assert forall|i: int, j: int| 0 <= i < j < front_a.len() implies in_order(
            direction,
            (#[trigger] front_a[i]).index,
            (#[trigger] front_a[j]).index,
        ) by {
            assert(front_a[i] == a[i] && front_a[j] == a[j]);
        }
        assert forall|i: int, j: int| 0 <= i < j < front_b.len() implies in_order(
            direction,
            (#[trigger] front_b[i]).index,
            (#[trigger] front_b[j]).index,
        ) by {
            assert(front_b[i] == b[i] && front_b[j] == b[j]);
        }
        lemma_sorted_unique(front_a, front_b, direction);
        assert(a =~= front_a.push(a.last()));
        assert(b =~= front_b.push(b.last()));
    }
}

/// Sorting has one result: whatever sorts a sequence stably in a direction
/// yields the same sequence.
pub proof fn lemma_stable_sort_unique(
    before: Seq<SchoenerDView>,
    a: Seq<SchoenerDView>,
    b: Seq<SchoenerDView>,
    direction: SortDirection,
)
    requires
        is_stable_sort(before, a, direction),
        is_stable_sort(before, b, direction),
    ensures
        a == b,
{
    assert forall|x: Option<real>| #[trigger] with_index(a, x) == with_index(b, x) by {
        assert(with_index(a, x) == with_index(before, x));
        assert(with_index(b, x) == with_index(before, x));
    }
    lemma_sorted_unique(a, b, direction);
}

/// An entry stands in a sequence as often as among the entries of the
/// sequence that have its index.
proof fn lemma_count_with_index(entries: Seq<SchoenerDView>, entry: SchoenerDView)
    ensures
        entries.to_multiset().count(entry) == with_index(entries, entry.index).to_multiset().count(
            entry,
        ),
    decreases entries.len(),
{
    if entries.len() == 0 {
        assert(with_index(entries, entry.index) =~= entries);
    } else {
        let front = entries.drop_last();
        let last = entries.last();
        lemma_count_with_index(front, entry);
        assert(entries =~= front.push(last));
        to_multiset_build(front, last);
        to_multiset_build(with_index(front, entry.index), last);
    }
}

/// Sorting keeps every entry: what comes out holds each entry as often as
/// what went in.
pub proof fn lemma_stable_sort_permutes(
    before: Seq<SchoenerDView>,
    after: Seq<SchoenerDView>,
    direction: SortDirection,
)
    requires
        is_stable_sort(before, after, direction),
    ensures
        after.to_multiset() == before.to_multiset(),
{
    assert forall|entry: SchoenerDView|
        after.to_multiset().count(entry) == before.to_multiset().count(entry) by {
        lemma_count_with_index(after, entry);
        lemma_count_with_index(before, entry);
        assert(with_index(after, entry.index) == with_index(before, entry.index));
    }
    assert(after.to_multiset() =~= before.to_multiset());
}

/// A sequence that is in order in one direction, sorted in any direction and
/// then back in the first, is as it was: ties keep their order through both
/// sorts.
pub proof fn lemma_sort_round_trip(
    start: Seq<SchoenerDView>,
    there: Seq<SchoenerDView>,
    back: Seq<SchoenerDView>,
    direction: SortDirection,
    other: SortDirection,
)
    requires
        is_sorted(start, direction),
        is_stable_sort(start, there, other),
        is_stable_sort(there, back, direction),
    ensures
        back == start,
{
    assert forall|x: Option<real>| #[trigger] with_index(back, x) == with_index(start, x) by {
        assert(with_index(back, x) == with_index(there, x));
        assert(with_index(there, x) == with_index(start, x));
    }
    lemma_sorted_unique(back, start, direction);
}

/// Whether the rows read from the first `n` of `records` are in shape: there
/// are two pollinators or more; every plant has a name, a line and one count
/// for each pollinator; no two plants share a name; each plant was read from
/// the line that is held for it, and the lines grow; and the total of every
/// column fits in 64 bits.
pub open spec fn rows_shaped(records: Seq<Seq<Seq<char>>>, rows: Rows, n: int) -> bool {
    &&& rows.pollinators == header_pollinators(header_of(records))
    &&& rows.pollinators.len() >= 2
    &&& rows.lines.len() == rows.plants.len()
    &&& rows.counts.len() == rows.plants.len()
    &&& forall|r: int|
        0 <= r < rows.counts.len() ==> (#[trigger] rows.counts[r]).len() == rows.pollinators.len()
    &&& forall|r: int| 0 <= r < rows.plants.len() ==> (#[trigger] rows.plants[r]).len() > 0
    &&& forall|r: int, s: int|
        0 <= r < s < rows.plants.len() ==> #[trigger] rows.plants[r] != #[trigger] rows.plants[s]
    &&& forall|r: int|
        0 <= r < rows.lines.len() ==> 2 <= #[trigger] rows.lines[r] <= n && records[rows.lines[r]
            - 1][0] == rows.plants[r]
    &&& forall|r: int, s: int|
        0 <= r < s < rows.lines.len() ==> #[trigger] rows.lines[r] < #[trigger] rows.lines[s]
    &&& forall|c: int|
        0 <= c < rows.pollinators.len() ==> #[trigger] count_total(
            rows.counts,
            c,
            rows.counts.len() as int,
        ) <= u64::MAX
}

/// Whether a row was read from the given line.
pub open spec fn was_read(rows: Rows, line: int) -> bool {
    exists|r: int| 0 <= r < rows.lines.len() && #[trigger] rows.lines[r] == line
}

/// Whether every one of the first `n` of `records` that has fields, the
/// header aside, was read.
pub open spec fn rows_complete(records: Seq<Seq<Seq<char>>>, rows: Rows, n: int) -> bool {
    forall|k: int| 1 <= k < n && records[k].len() > 0 ==> #[trigger] was_read(rows, k + 1)
}

/// Whether each count is what its field denotes.
pub open spec fn rows_counted(records: Seq<Seq<Seq<char>>>, rows: Rows) -> bool {
    forall|r: int, c: int|
        0 <= r < rows.counts.len() && 0 <= c < rows.pollinators.len() ==> field_count(
            encode_utf8(records[rows.lines[r] - 1][c + 1]),
        ) == Ok::<u64, ParseFieldErrorKind>(#[trigger] rows.counts[r][c])
}

/// What holds of the rows read from the first `n` of `records` at every
/// moment.
pub open spec fn rows_sound(records: Seq<Seq<Seq<char>>>, rows: Rows, n: int) -> bool {
    &&& rows_shaped(records, rows, n)
    &&& rows_complete(records, rows, n)
    &&& rows_counted(records, rows)
}

/// `first_index_of` finds the first of the positions from `from` on at which
/// the plant stands.
proof fn lemma_first_index_of(plants: Seq<Seq<char>>, plant: Seq<char>, from: int)
    requires
        0 <= from <= plants.len(),
    ensures
        from <= first_index_of(plants, plant, from) <= plants.len(),
        first_index_of(plants, plant, from) < plants.len() ==> plants[first_index_of(
            plants,
            plant,
            from,
        )] == plant,
        forall|k: int|
            from <= k < first_index_of(plants, plant, from) ==> #[trigger] plants[k] != plant,
    decreases plants.len() - from,
{
    if from < plants.len() && plants[from] != plant {
        lemma_first_index_of(plants, plant, from + 1);
    }
}

/// `first_bad_field` finds the first of the fields from `from` on that holds
/// no acceptable count.
proof fn lemma_first_bad_field(rows: Rows, record: Seq<Seq<char>>, from: int)
    requires
        0 <= from <= record.len(),
    ensures
        from <= first_bad_field(rows, record, from) <= record.len(),
        first_bad_field(rows, record, from) < record.len() ==> cell_count(
            rows,
            record,
            first_bad_field(rows, record, from),
        ) is Err,
        forall|f: int|
            from <= f < first_bad_field(rows, record, from) ==> #[trigger] cell_count(
                rows,
                record,
                f,
            ) is Ok,
    decreases record.len() - from,
{
    if from < record.len() && cell_count(rows, record, from) is Ok {
        lemma_first_bad_field(rows, record, from + 1);
    }
}

/// Reading keeps the rows in shape.
proof fn lemma_read_rows_shaped(records: Seq<Seq<Seq<char>>>, n: int)
    requires
        n <= records.len() <= usize::MAX,
        read_rows(records, n) is Ok,
    ensures
        rows_shaped(records, read_rows(records, n)->Ok_0, n),
    decreases n,
{
    reveal(push_row);
    let after = read_rows(records, n)->Ok_0;
    if n <= 1 {
        assert(after.plants.len() == 0);
    } else {
        let before = read_rows(records, n - 1)->Ok_0;
        let record = records[n - 1];
        lemma_read_rows_shaped(records, n - 1);
        assert(push_row(before, n as usize, record) == Ok::<Rows, ErrorView>(after));
        if record.len() > 0 {
            let cols = before.pollinators.len() as int;
            let rows = before.plants.len() as int;
            lemma_first_index_of(before.plants, record[0], 0);
            lemma_first_bad_field(before, record, 1);
            assert(after.plants == before.plants.push(record[0]));
            assert(after.lines == before.lines.push(n as usize));
            assert forall|r: int, s: int| 0 <= r < s < after.plants.len() implies #[trigger]
                after.plants[r] != #[trigger] after.plants[s] by {
                if s == rows {
                    assert(before.plants[r] != record[0]);
                }
            }
            assert forall|r: int, s: int| 0 <= r < s < after.lines.len() implies #[trigger]
                after.lines[r] < #[trigger] after.lines[s] by {
                if s == rows {
                    assert(before.lines[r] <= n - 1);
                }
            }
            assert forall|c: int| 0 <= c < cols implies #[trigger] count_total(
                after.counts,
                c,
                after.counts.len() as int,
            ) <= u64::MAX by {
                lemma_count_total_prefix(after.counts, before.counts, c, rows);
                assert(cell_count(before, record, c + 1) is Ok);
                assert(after.counts[rows][c] == cell_count(before, record, c + 1)->Ok_0);
            }
        }
    }
}

/// Reading passes over no record that has fields.
proof fn lemma_read_rows_complete(records: Seq<Seq<Seq<char>>>, n: int)
    requires
        n <= records.len() <= usize::MAX,
        read_rows(records, n) is Ok,
    ensures
        rows_complete(records, read_rows(records, n)->Ok_0, n),
    decreases n,
{
    reveal(push_row);
    let after = read_rows(records, n)->Ok_0;
    if n > 1 {
        let before = read_rows(records, n - 1)->Ok_0;
        let record = records[n - 1];
        lemma_read_rows_complete(records, n - 1);
        assert(push_row(before, n as usize, record) == Ok::<Rows, ErrorView>(after));
        assert forall|k: int| 1 <= k < n && records[k].len() > 0 implies #[trigger] was_read(
            after,
            k + 1,
        ) by {
            if k < n - 1 {
                assert(was_read(before, k + 1));
                let r = choose|r: int|
                    0 <= r < before.lines.len() && #[trigger] before.lines[r] == k + 1;
                assert(after.lines[r] == k + 1);
            } else {
                assert(after.lines[before.lines.len() as int] == n);
            }
        }
    }
}

/// Reading holds of each field the count that the field denotes.
proof fn lemma_read_rows_counted(records: Seq<Seq<Seq<char>>>, n: int)
    requires
        n <= records.len() <= usize::MAX,
        read_rows(records, n) is Ok,
    ensures
        rows_counted(records, read_rows(records, n)->Ok_0),
    decreases n,
{
    reveal(push_row);
    let after = read_rows(records, n)->Ok_0;
    if n > 1 {
        let before = read_rows(records, n - 1)->Ok_0;
        let record = records[n - 1];
        lemma_read_rows_counted(records, n - 1);
        lemma_read_rows_shaped(records, n - 1);
        assert(push_row(before, n as usize, record) == Ok::<Rows, ErrorView>(after));
        if record.len() > 0 {
            let cols = before.pollinators.len() as int;
            let rows = before.plants.len() as int;
            lemma_first_bad_field(before, record, 1);
            assert forall|r: int, c: int|
                0 <= r < after.counts.len() && 0 <= c < cols implies field_count(
                encode_utf8(records[after.lines[r] - 1][c + 1]),
            ) == Ok::<u64, ParseFieldErrorKind>(#[trigger] after.counts[r][c]) by {
                if r == rows {
                    assert(cell_count(before, record, c + 1) is Ok);
                    assert(after.counts[rows][c] == cell_count(before, record, c + 1)->Ok_0);
                    assert(after.lines[rows] == n);
                } else {
                    assert(after.counts[r] == before.counts[r]);
                    assert(after.lines[r] == before.lines[r]);
                    assert(field_count(encode_utf8(records[before.lines[r] - 1][c + 1])) == Ok::<
                        u64,
                        ParseFieldErrorKind,
                    >(before.counts[r][c]));
                }
            }
        }
    }
}

/// Reading keeps the rows sound: whatever has been read without failure is
/// in shape, leaves out no record that has fields, and holds of each field
/// the count that the field denotes.
pub proof fn lemma_read_rows_sound(records: Seq<Seq<Seq<char>>>, n: int)
    requires
        n <= records.len() <= usize::MAX,
        read_rows(records, n) is Ok,
    ensures
        rows_sound(records, read_rows(records, n)->Ok_0, n),
{
    lemma_read_rows_shaped(records, n);
    lemma_read_rows_complete(records, n);
    lemma_read_rows_counted(records, n);
}

/// The cell that holds the number `count`.
pub open spec fn count_cell(count: nat) -> Option<real> {
    Some(count as real)
}

/// Whether a cell holds a whole number that is not negative.
pub open spec fn is_count(cell: Option<real>) -> bool {
    exists|count: nat| cell == #[trigger] count_cell(count)
}

/// A matrix that was loaded has two columns or more, one row or more and a
/// cell for each plant and pollinator; its cells are whole numbers, none
/// below zero; and no two of its plants share a name.
pub proof fn lemma_loaded_sound(records: Seq<Seq<Seq<char>>>)
    requires
        records.len() <= usize::MAX,
        loaded(records) is Ok,
    ensures
        loaded(records)->Ok_0.shaped(),
        loaded(records)->Ok_0.pollinators == header_pollinators(header_of(records)),
        loaded(records)->Ok_0.pollinators.len() >= 2,
        loaded(records)->Ok_0.plants.len() >= 1,
        forall|r: int, s: int|
            0 <= r < s < loaded(records)->Ok_0.plants.len() ==> #[trigger] loaded(
                records,
            )->Ok_0.plants[r] != #[trigger] loaded(records)->Ok_0.plants[s],
        forall|r: int, c: int|
            0 <= r < loaded(records)->Ok_0.plants.len() && 0 <= c < loaded(
                records,
            )->Ok_0.pollinators.len() ==> is_count(#[trigger] loaded(records)->Ok_0.cells[r][c]),
{
    let n = records.len() as int;
    lemma_read_rows_sound(records, n);
    let rows = read_rows(records, n)->Ok_0;
    let matrix = loaded(records)->Ok_0;
    assert(matrix.plants == rows.plants);
    assert(matrix.pollinators == rows.pollinators);
    assert(matrix.cells == count_cells(rows.counts));
    assert forall|r: int| 0 <= r < matrix.cells.len() implies (#[trigger] matrix.cells[r]).len()
        == matrix.pollinators.len() by {
        assert(rows.counts[r].len() == rows.pollinators.len());
    }
    assert forall|r: int, c: int|
        0 <= r < matrix.plants.len() && 0 <= c < matrix.pollinators.len() implies is_count(
        #[trigger] matrix.cells[r][c],
    ) by {
        let count = rows.counts[r][c] as nat;
        assert(rows.counts[r].len() == rows.pollinators.len());
        assert(matrix.cells[r][c] == count_cell(count));
    }
}

} // verus!
