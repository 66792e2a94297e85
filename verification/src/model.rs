//! The mathematics of the index, over matrices of real numbers.
//!
//! A cell of a matrix is a real number or undefined (`None`). Undefined
//! stands for the result of dividing by zero and spreads through every sum
//! and quotient that it enters.

use vstd::prelude::*;

verus! {

/// A plant-by-pollinator matrix: one row per plant, one column per
/// pollinator.
pub ghost struct Matrix {
    pub pollinators: Seq<Seq<char>>,
    pub plants: Seq<Seq<char>>,
    pub cells: Seq<Seq<Option<real>>>,
}

/// The table with `rows` rows and `cols` columns that `flat` holds row by row.
pub open spec fn grid(flat: Seq<u64>, rows: int, cols: int) -> Seq<Seq<u64>> {
    Seq::new(rows as nat, |r: int| Seq::new(cols as nat, |c: int| flat[r * cols + c]))
}

/// The sum of column `c` over the first `n` rows of a table of counts.
pub open spec fn count_total(counts: Seq<Seq<u64>>, c: int, n: int) -> int
    decreases n,
{
    if n <= 0 {
        0
    } else {
        count_total(counts, c, n - 1) + counts[n - 1][c]
    }
}

/// The matrix of real numbers that a table of counts stands for.
pub open spec fn count_cells(counts: Seq<Seq<u64>>) -> Seq<Seq<Option<real>>> {
    Seq::new(
        counts.len(),
        |r: int| Seq::new(counts[r].len(), |c: int| Some(counts[r][c] as real)),
    )
}

/// A position of a row-major table lies inside it.
pub(crate) proof fn lemma_flat_index(r: int, c: int, rows: int, cols: int)
    requires
        0 <= r < rows,
        0 <= c < cols,
    ensures
        0 <= r * cols + c < rows * cols,
        r * cols + c < (r + 1) * cols,
        (r + 1) * cols <= rows * cols,
{
    assert(r * cols >= 0) by (nonlinear_arith)
        requires
            r >= 0,
            cols > 0,
    ;
    assert((r + 1) * cols == r * cols + cols) by (nonlinear_arith);
    assert((r + 1) * cols <= rows * cols) by (nonlinear_arith)
        requires
            r + 1 <= rows,
            cols > 0,
    ;
}

/// The value of a cell that holds `count` in a column with divisor `scale`:
/// their quotient, undefined where the divisor is zero.
pub(crate) open spec fn cell_of(count: u64, scale: u64) -> Option<real> {
    if scale == 0 {
        None
    } else {
        Some(count as real / scale as real)
    }
}

/// The distance of a number from zero.
pub open spec fn absolute(x: real) -> real {
    if x < 0real {
        -x
    } else {
        x
    }
}

/// The lesser of two numbers.
pub(crate) open spec fn least(x: int, y: int) -> int {
    if x <= y {
        x
    } else {
        y
    }
}

/// The quotient of two cells: undefined where either is, and where the
/// divisor is zero.
pub open spec fn quotient(a: Option<real>, b: Option<real>) -> Option<real> {
    match (a, b) {
        (Some(x), Some(y)) => if y == 0real {
            None
        } else {
            Some(x / y)
        },
        _ => None,
    }
}

/// The sum of column `c` over the first `n` rows.
pub open spec fn column_sum(cells: Seq<Seq<Option<real>>>, c: int, n: int) -> Option<real>
    decreases n,
{
    if n <= 0 {
        Some(0real)
    } else {
        match (column_sum(cells, c, n - 1), cells[n - 1][c]) {
            (Some(sum), Some(x)) => Some(sum + x),
            _ => None,
        }
    }
}

/// Every cell divided by the sum of its column.
pub open spec fn normalized(cells: Seq<Seq<Option<real>>>) -> Seq<Seq<Option<real>>> {
    Seq::new(
        cells.len(),
        |r: int|
            Seq::new(
                cells[r].len(),
                |c: int| quotient(cells[r][c], column_sum(cells, c, cells.len() as int)),
            ),
    )
}

/// The sum over the first `n` rows of the distance between columns `i` and
/// `j`.
pub open spec fn difference_sum(cells: Seq<Seq<Option<real>>>, i: int, j: int, n: int) -> Option<
    real,
>
    decreases n,
{
    if n <= 0 {
        Some(0real)
    } else {
        match (difference_sum(cells, i, j, n - 1), cells[n - 1][i], cells[n - 1][j]) {
            (Some(sum), Some(x), Some(y)) => Some(sum + absolute(x - y)),
            _ => None,
        }
    }
}

/// Schoener's D index of columns `i` and `j`: one minus half the sum of the
/// distances between them, row by row.
pub open spec fn schoener_d(cells: Seq<Seq<Option<real>>>, i: int, j: int) -> Option<real> {
    match difference_sum(cells, i, j, cells.len() as int) {
        Some(sum) => Some(1real - sum / 2real),
        None => None,
    }
}

/// The number of pairs whose first column comes before column `i`.
pub open spec fn pairs_before(cols: int, i: int) -> int
    decreases i,
{
    if i <= 0 {
        0
    } else {
        pairs_before(cols, i - 1) + (cols - i)
    }
}

/// The place of the pair of columns `i < j` among all pairs, which are
/// ordered by `i` and then by `j`.
pub open spec fn pair_position(cols: int, i: int, j: int) -> int {
    pairs_before(cols, i) + (j - i - 1)
}

impl Matrix {
    /// There is a row of cells for each plant, and in it a cell for each
    /// pollinator.
    pub open spec fn shaped(self) -> bool {
        &&& self.cells.len() == self.plants.len()
        &&& forall|r: int|
            0 <= r < self.cells.len() ==> (#[trigger] self.cells[r]).len()
                == self.pollinators.len()
    }

    /// Every column sums to one or is undefined.
    pub open spec fn is_normalized(self) -> bool {
        forall|c: int|
            0 <= c < self.pollinators.len() ==> {
                let sum = #[trigger] column_sum(self.cells, c, self.cells.len() as int);
                sum is None || sum == Some(1real)
            }
    }

    /// The matrix with every cell divided by the sum of its column.
    pub open spec fn normalize(self) -> Matrix {
        Matrix {
            pollinators: self.pollinators,
            plants: self.plants,
            cells: normalized(self.cells),
        }
    }
}

/// The sum over the first `n` rows of the lesser of the two counts of a row,
/// each weighted with the divisor of the other column.
pub(crate) open spec fn overlap_total(
    counts: Seq<Seq<u64>>,
    i: int,
    j: int,
    si: int,
    sj: int,
    n: int,
) -> int
    decreases n,
{
    if n <= 0 {
        0
    } else {
        overlap_total(counts, i, j, si, sj, n - 1) + least(
            counts[n - 1][i] * sj,
            counts[n - 1][j] * si,
        )
    }
}

/// The total of a column grows with the number of rows that are summed.
pub(crate) proof fn lemma_count_total_increases(counts: Seq<Seq<u64>>, c: int, m: int, n: int)
    requires
        m <= n,
    ensures
        0 <= count_total(counts, c, m) <= count_total(counts, c, n),
    decreases n,
{
    if n > 0 && m < n {
        lemma_count_total_increases(counts, c, m, n - 1);
    } else if n > 0 {
        lemma_count_total_increases(counts, c, m - 1, n - 1);
    }
}

/// The overlap of two columns is at most the first column's total, weighted.
pub(crate) proof fn lemma_overlap_total_bound(
    counts: Seq<Seq<u64>>,
    i: int,
    j: int,
    si: int,
    sj: int,
    n: int,
)
    requires
        si >= 0,
        sj >= 0,
    ensures
        0 <= overlap_total(counts, i, j, si, sj, n) <= count_total(counts, i, n) * sj,
    decreases n,
{
    if n > 0 {
        lemma_overlap_total_bound(counts, i, j, si, sj, n - 1);
        let a = counts[n - 1][i] as int;
        let b = counts[n - 1][j] as int;
        let t = count_total(counts, i, n - 1);
        assert(a * sj >= 0 && b * si >= 0) by (nonlinear_arith)
            requires
                a >= 0,
                b >= 0,
                si >= 0,
                sj >= 0,
        ;
        assert((t + a) * sj == t * sj + a * sj) by (nonlinear_arith);
    } else {
        assert(0 * sj == 0) by (nonlinear_arith);
    }
}

/// The sum of a column whose cells are counts over a common divisor is the
/// total of the counts over that divisor.
pub(crate) proof fn lemma_scaled_column_sum(
    counts: Seq<Seq<u64>>,
    cells: Seq<Seq<Option<real>>>,
    c: int,
    scale: u64,
    n: int,
)
    requires
        forall|r: int| 0 <= r < n ==> (#[trigger] cells[r])[c] == cell_of(counts[r][c], scale),
    ensures
        column_sum(cells, c, n) == if n <= 0 {
            Some(0real)
        } else if scale == 0 {
            None
        } else {
            Some(count_total(counts, c, n) as real / scale as real)
        },
    decreases n,
{
    if n > 0 {
        lemma_scaled_column_sum(counts, cells, c, scale, n - 1);
        assert(cells[n - 1][c] == cell_of(counts[n - 1][c], scale));
        if scale != 0 {
            let t = count_total(counts, c, n - 1);
            let a = counts[n - 1][c];
            let s = scale as real;
            assert(column_sum(cells, c, n - 1) == Some(t as real / s)) by {
                if n - 1 <= 0 {
                    assert(0real / s == 0real) by (nonlinear_arith)
                        requires
                            s > 0real,
                    ;
                }
            }
            assert(t as real / s + a as real / s == (t + a) as real / s) by (nonlinear_arith)
                requires
                    s > 0real,
            ;
        }
    }
}

/// One row's share of the distance between two columns, in whole numbers.
proof fn lemma_scaled_distance(a: int, b: int, s: int, t: int)
    requires
        s > 0,
        t > 0,
    ensures
        absolute(a as real / s as real - b as real / t as real) * (s * t) as real == (a * t + b * s
            - 2 * least(a * t, b * s)) as real,
{
    let p = a as real / s as real;
    let q = b as real / t as real;
    let sr = s as real;
    let tr = t as real;
    assert(p * sr == a as real) by (nonlinear_arith)
        requires
            p == a as real / sr,
            sr > 0real,
    ;
    assert(q * tr == b as real) by (nonlinear_arith)
        requires
            q == b as real / tr,
            tr > 0real,
    ;
    assert((p - q) * (sr * tr) == (a as real) * tr - (b as real) * sr) by (nonlinear_arith)
        requires
            p * sr == a as real,
            q * tr == b as real,
    ;
    assert((s * t) as real == sr * tr) by (nonlinear_arith)
        requires
            sr == s as real,
            tr == t as real,
    ;
    assert((a * t) as real == (a as real) * tr) by (nonlinear_arith)
        requires
            tr == t as real,
    ;
    assert((b * s) as real == (b as real) * sr) by (nonlinear_arith)
        requires
            sr == s as real,
    ;
    if p - q < 0real {
        assert((p - q) * (sr * tr) < 0real) by (nonlinear_arith)
            requires
                p - q < 0real,
                sr > 0real,
                tr > 0real,
        ;
        assert(absolute(p - q) * (sr * tr) == -((p - q) * (sr * tr))) by (nonlinear_arith)
            requires
                absolute(p - q) == -(p - q),
        ;
    } else {
        assert((p - q) * (sr * tr) >= 0real) by (nonlinear_arith)
            requires
                p - q >= 0real,
                sr > 0real,
                tr > 0real,
        ;
    }
}

/// The distance between two columns of counts over divisors, in whole
/// numbers: scaled by both divisors, it is the two weighted totals less
/// twice the overlap.
pub(crate) proof fn lemma_scaled_difference_sum(
    counts: Seq<Seq<u64>>,
    cells: Seq<Seq<Option<real>>>,
    i: int,
    j: int,
    si: u64,
    sj: u64,
    n: int,
)
    requires
        si > 0,
        sj > 0,
        forall|r: int| 0 <= r < n ==> (#[trigger] cells[r])[i] == cell_of(counts[r][i], si),
        forall|r: int| 0 <= r < n ==> (#[trigger] cells[r])[j] == cell_of(counts[r][j], sj),
    ensures
        difference_sum(cells, i, j, n) is Some,
        difference_sum(cells, i, j, n)->0 * (si * sj) as real == (count_total(counts, i, n) * sj
            + count_total(counts, j, n) * si - 2 * overlap_total(
            counts,
            i,
            j,
            si as int,
            sj as int,
            n,
        )) as real,
    decreases n,
{
    if n > 0 {
        lemma_scaled_difference_sum(counts, cells, i, j, si, sj, n - 1);
        let a = counts[n - 1][i] as int;
        let b = counts[n - 1][j] as int;
        assert(cells[n - 1][i] == cell_of(counts[n - 1][i], si));
        assert(cells[n - 1][j] == cell_of(counts[n - 1][j], sj));
        lemma_scaled_distance(a, b, si as int, sj as int);
        let before = difference_sum(cells, i, j, n - 1)->0;
        let step = absolute(a as real / si as real - b as real / sj as real);
        let d = (si * sj) as real;
        let ti = count_total(counts, i, n - 1);
        let tj = count_total(counts, j, n - 1);
        let m = overlap_total(counts, i, j, si as int, sj as int, n - 1);
        let l = least(a * sj, b * si);
        assert(difference_sum(cells, i, j, n)->0 == before + step);
        assert((before + step) * d == before * d + step * d) by (nonlinear_arith);
        assert((ti + a) * sj + (tj + b) * si - 2 * (m + l) == (ti * sj + tj * si - 2 * m) + (a
            * sj + b * si - 2 * l)) by (nonlinear_arith);
    } else {
        assert(0real * (si * sj) as real == 0real) by (nonlinear_arith);
        assert(0 * sj + 0 * si - 2 * 0 == 0) by (nonlinear_arith);
    }
}

/// Twice the number of pairs before column `i`, in closed form.
pub(crate) proof fn lemma_pairs_before(cols: int, i: int)
    requires
        0 <= i,
    ensures
        2 * pairs_before(cols, i) == i * (2 * cols - i - 1),
    decreases i,
{
    if i > 0 {
        lemma_pairs_before(cols, i - 1);
        assert((i - 1) * (2 * cols - (i - 1) - 1) + 2 * (cols - i) == i * (2 * cols - i - 1))
            by (nonlinear_arith);
    } else {
        assert(0 * (2 * cols - 0 - 1) == 0) by (nonlinear_arith);
    }
}

/// Whether a cell is undefined or lies between zero and one.
pub open spec fn in_unit_range(x: Option<real>) -> bool {
    match x {
        Some(v) => 0real <= v <= 1real,
        None => true,
    }
}

/// Where the distance between two columns, scaled by `d`, is twice `d` less
/// twice the overlap `m`, one minus half the distance is `m` over `d`.
pub(crate) proof fn lemma_overlap_quotient(m: int, d: int, x: real)
    requires
        d > 0,
        0 <= m <= d,
        x * d as real == (2 * d - 2 * m) as real,
    ensures
        1real - x / 2real == m as real / d as real,
        0real <= m as real / d as real <= 1real,
{
    let dr = d as real;
    let mr = m as real;
    assert((2 * d - 2 * m) as real == 2real * dr - 2real * mr);
    assert(1real - x / 2real == mr / dr) by (nonlinear_arith)
        requires
            x * dr == 2real * dr - 2real * mr,
            dr > 0real,
    ;
    assert(0real <= mr / dr <= 1real) by (nonlinear_arith)
        requires
            0real <= mr <= dr,
            dr > 0real,
    ;
}

} // verus!
