//! Interaction data and the indexes computed from it.

use crate::cli::SortDirection;
use crate::error::Error;
use crate::input::{loaded, Input};
use crate::model::{
    cell_of, column_sum, count_cells, count_total, difference_sum, grid, in_unit_range,
    lemma_count_total_increases, lemma_flat_index, lemma_overlap_quotient,
    lemma_overlap_total_bound, lemma_pairs_before, lemma_scaled_column_sum,
    lemma_scaled_difference_sum, overlap_total, pair_position, pairs_before, quotient,
    schoener_d, Matrix,
};
use crate::order::{is_stable_sort, sorted};
use crate::ratio::Ratio;
use vstd::prelude::*;

verus! {

/// Schoener's D index.
#[derive(Debug, Clone, Copy)]
pub struct SchoenerD<'a> {
    first_species: &'a str,
    second_species: &'a str,
    index: Ratio,
}

/// A [`SchoenerD`] with its names as character sequences and its index as a
/// real number.
pub ghost struct SchoenerDView {
    pub first_species: Seq<char>,
    pub second_species: Seq<char>,
    pub index: Option<real>,
}

impl<'a> View for SchoenerD<'a> {
    type V = SchoenerDView;

    closed spec fn view(&self) -> SchoenerDView {
        SchoenerDView {
            first_species: self.first_species@,
            second_species: self.second_species@,
            index: self.index.value(),
        }
    }
}

impl<'a> SchoenerD<'a> {
    /// Constructs a new [`SchoenerD`].
    pub fn new(first_species: &'a str, second_species: &'a str, index: Ratio) -> (entry: Self)
        ensures
            entry@ == (SchoenerDView {
                first_species: first_species@,
                second_species: second_species@,
                index: index.value(),
            }),
    {
        Self { first_species, second_species, index }
    }

    /// The name of the first species of the pair.
    pub fn first_species(&self) -> (name: &'a str)
        ensures
            name@ == self@.first_species,
    {
        self.first_species
    }

    /// The name of the second species of the pair.
    pub fn second_species(&self) -> (name: &'a str)
        ensures
            name@ == self@.second_species,
    {
        self.second_species
    }

    /// The index of the pair.
    pub fn index(&self) -> (index: Ratio)
        ensures
            index.value() == self@.index,
    {
        self.index
    }
}

/// The views of a sequence of entries.
pub open spec fn entry_views(entries: Seq<SchoenerD>) -> Seq<SchoenerDView> {
    Seq::new(entries.len(), |k: int| entries[k]@)
}

/// Schoener D indexes.
#[derive(Debug)]
pub struct SchoenerIndexes<'a>(Vec<SchoenerD<'a>>);

impl<'a> View for SchoenerIndexes<'a> {
    type V = Seq<SchoenerDView>;

    closed spec fn view(&self) -> Seq<SchoenerDView> {
        entry_views(self.0@)
    }
}

impl<'a> SchoenerIndexes<'a> {
    /// Constructs a new [`SchoenerIndexes`] instance with given capacity.
    pub fn with_capacity(capacity: usize) -> (indexes: Self)
        ensures
            indexes@ == Seq::<SchoenerDView>::empty(),
    {
        let indexes = Self(Vec::with_capacity(capacity));
        assert(indexes@ =~= Seq::<SchoenerDView>::empty());
        indexes
    }

    /// Adds a new [`SchoenerD`].
    pub fn add_index(&mut self, first_species: &'a str, second_species: &'a str, index: Ratio)
        ensures
            final(self)@ == old(self)@.push(
                SchoenerDView {
                    first_species: first_species@,
                    second_species: second_species@,
                    index: index.value(),
                },
            ),
    {
        self.0.push(SchoenerD::new(first_species, second_species, index));
        assert(self@ =~= old(self)@.push(
            SchoenerDView {
                first_species: first_species@,
                second_species: second_species@,
                index: index.value(),
            },
        ));
    }

    /// The number of entries.
    pub fn len(&self) -> (n: usize)
        ensures
            n == self@.len(),
    {
        self.0.len()
    }

    /// The entry at position `k`, if there is one.
    pub fn get(&self, k: usize) -> (entry: Option<SchoenerD<'a>>)
        ensures
            match entry {
                Some(e) => k < self@.len() && e@ == self@[k as int],
                None => k >= self@.len(),
            },
    {
        if k < self.0.len() {
            Some(self.0[k])
        } else {
            None
        }
    }

    /// Sorts [`SchoenerIndexes`] entries by D index value by given sorting
    /// direction. Entries whose values tie keep their order.
    pub fn sort(&mut self, direction: SortDirection)
        ensures
            is_stable_sort(old(self)@, final(self)@, direction),
    {
        let entries = sorted(&self.0, direction);
        self.0 = entries;
    }
}

/// Interaction data.
///
/// Each cell is held exactly, as a whole count over the divisor of its
/// column. Loading yields the counts themselves (every divisor is 1);
/// normalizing changes the divisors only.
#[derive(Debug)]
pub struct InteractionData {
    /// Pollinator species names
    /// (its length represents the number of columns of the `interactions` matrix).
    pollinators: Vec<String>,
    /// Plant species names
    /// (its length represents the number of rows of the `interactions` matrix).
    plants: Vec<String>,
    /// Interaction counts, row by row.
    interactions: Vec<u64>,
    /// The divisor of each column.
    scales: Vec<u64>,
}

impl View for InteractionData {
    type V = Matrix;

    closed spec fn view(&self) -> Matrix {
        Matrix {
            pollinators: self.pollinators.deep_view(),
            plants: self.plants.deep_view(),
            cells: Seq::new(
                self.plants.len() as nat,
                |r: int|
                    Seq::new(
                        self.pollinators.len() as nat,
                        |c: int|
                            cell_of(
                                self.interactions[r * self.pollinators.len() + c],
                                self.scales[c],
                            ),
                    ),
            ),
        }
    }
}

impl InteractionData {
    /// The counts as a table.
    spec fn counts(self) -> Seq<Seq<u64>> {
        grid(self.interactions@, self.plants.len() as int, self.pollinators.len() as int)
    }

    /// There are two columns or more and one row or more, a count for each
    /// row and column and a divisor for each column; the total of the counts
    /// of every column fits in 64 bits; and the divisors are all 1, or each
    /// is the total of its column.
    #[verifier::type_invariant]
    spec fn well_formed(self) -> bool {
        &&& self.pollinators.len() >= 2
        &&& self.plants.len() >= 1
        &&& self.interactions.len() == self.plants.len() * self.pollinators.len()
        &&& self.scales.len() == self.pollinators.len()
        &&& forall|c: int|
            0 <= c < self.pollinators.len() ==> #[trigger] count_total(
                self.counts(),
                c,
                self.plants.len() as int,
            ) <= u64::MAX
        &&& {
            ||| forall|c: int| 0 <= c < self.scales.len() ==> #[trigger] self.scales[c] == 1
            ||| forall|c: int|
                0 <= c < self.scales.len() ==> #[trigger] self.scales[c] == count_total(
                    self.counts(),
                    c,
                    self.plants.len() as int,
                )
        }
    }

    /// Interaction data that holds the given counts, row by row.
    pub(crate) fn from_counts(
        pollinators: Vec<String>,
        plants: Vec<String>,
        interactions: Vec<u64>,
    ) -> (data: InteractionData)
        requires
            pollinators.len() >= 2,
            plants.len() >= 1,
            interactions.len() == plants.len() * pollinators.len(),
            forall|c: int|
                0 <= c < pollinators.len() ==> #[trigger] count_total(
                    grid(interactions@, plants.len() as int, pollinators.len() as int),
                    c,
                    plants.len() as int,
                ) <= u64::MAX,
        ensures
            data@ == (Matrix {
                pollinators: pollinators.deep_view(),
                plants: plants.deep_view(),
                cells: count_cells(
                    grid(interactions@, plants.len() as int, pollinators.len() as int),
                ),
            }),
    {
        let mut scales: Vec<u64> = Vec::new();
        let mut c: usize = 0;
        while c < pollinators.len()
            invariant
                c <= pollinators.len(),
                scales.len() == c,
                forall|k: int| 0 <= k < c ==> #[trigger] scales[k] == 1,
            decreases pollinators.len() - c,
        {
            scales.push(1);
            c = c + 1;
        }
        let data = InteractionData { pollinators, plants, interactions, scales };
        proof {
            let table = grid(
                data.interactions@,
                data.plants.len() as int,
                data.pollinators.len() as int,
            );
            assert forall|r: int| 0 <= r < data.plants.len() implies #[trigger] data@.cells[r]
                == count_cells(table)[r] by {
                assert forall|c: int| 0 <= c < data.pollinators.len() implies #[trigger] data@.cells[r][c]
                    == count_cells(table)[r][c] by {
                    let count = table[r][c];
                    assert(data.scales[c] == 1);
                    assert(count as real / 1 as real == count as real) by (nonlinear_arith);
                }
                assert(data@.cells[r] =~= count_cells(table)[r]);
            }
            assert(data@.cells =~= count_cells(table));
        }
        data
    }

    /// Parses [`InteractionData`] from [`Input`].
    pub fn parse(input: Input) -> (r: Result<InteractionData, Error>)
        ensures
            match loaded(input@) {
                Ok(matrix) => r is Ok && r->Ok_0@ == matrix,
                Err(error) => r is Err && r->Err_0@ == error,
            },
    {
        match input.load() {
            Ok(loader) => loader.finish(),
            Err(error) => Err(error),
        }
    }

    /// Pollinator species names, one for each column.
    pub fn pollinators(&self) -> (names: &Vec<String>)
        ensures
            names.deep_view() == self@.pollinators,
    {
        &self.pollinators
    }

    /// Plant species names, one for each row.
    pub fn plants(&self) -> (names: &Vec<String>)
        ensures
            names.deep_view() == self@.plants,
    {
        &self.plants
    }

    /// The value of the cell in the given row and column, if there is such a
    /// cell.
    pub fn cell(&self, row: usize, col: usize) -> (cell: Option<Ratio>)
        ensures
            match cell {
                Some(ratio) => {
                    &&& row < self@.plants.len()
                    &&& col < self@.pollinators.len()
                    &&& ratio.value() == self@.cells[row as int][col as int]
                },
                None => row >= self@.plants.len() || col >= self@.pollinators.len(),
            },
    {
        proof {
            use_type_invariant(self);
        }
        let cols: usize = self.pollinators.len();
        if row >= self.plants.len() || col >= cols {
            return None;
        }
        proof {
            lemma_flat_index(row as int, col as int, self.plants.len() as int, cols as int);
        }
        Some(Ratio::new(self.interactions[row * cols + col] as u128, self.scales[col] as u128))
    }

    /// Whether every column sums to one or is undefined.
    pub fn is_normalized(&self) -> (r: bool)
        ensures
            r == self@.is_normalized(),
    {
        proof {
            use_type_invariant(self);
        }
        let cols: usize = self.pollinators.len();
        let ghost cells = self@.cells;
        let ghost rows = self.plants.len() as int;
        let mut c: usize = 0;
        while c < cols
            invariant
                c <= cols,
                cols == self.pollinators.len(),
                cols == self.scales.len(),
                cells == self@.cells,
                rows == self.plants.len(),
                rows >= 1,
                forall|k: int|
                    0 <= k < c ==> {
                        let sum = #[trigger] column_sum(cells, k, rows);
                        sum is None || sum == Some(1real)
                    },
            decreases cols - c,
        {
            let scale: u64 = self.scales[c];
            let total: u64 = self.column_total(c);
            proof {
                use_type_invariant(self);
                assert forall|k: int| 0 <= k < rows implies (#[trigger] cells[k])[c as int]
                    == cell_of(self.counts()[k][c as int], scale) by {
                    lemma_flat_index(k, c as int, rows, cols as int);
                }
                lemma_scaled_column_sum(self.counts(), cells, c as int, scale, rows);
                if scale != 0 {
                    assert((total as real / scale as real == 1real) <==> total == scale)
                        by (nonlinear_arith)
                        requires
                            scale > 0,
                    ;
                }
            }
            if scale != 0 && scale != total {
                assert(!({
                    let sum = column_sum(cells, c as int, rows);
                    sum is None || sum == Some(1real)
                }));
                return false;
            }
            c = c + 1;
        }
        true
    }

    /// The total of the counts of column `c`.
    fn column_total(&self, c: usize) -> (total: u64)
        requires
            c < self.pollinators.len(),
        ensures
            total == count_total(self.counts(), c as int, self.plants.len() as int),
    {
        proof {
            use_type_invariant(self);
        }
        let cols: usize = self.pollinators.len();
        let rows: usize = self.plants.len();
        let mut total: u64 = 0;
        let mut r: usize = 0;
        while r < rows
            invariant
                r <= rows,
                c < cols,
                rows == self.plants.len(),
                cols == self.pollinators.len(),
                self.interactions.len() == rows * cols,
                count_total(self.counts(), c as int, rows as int) <= u64::MAX,
                total == count_total(self.counts(), c as int, r as int),
            decreases rows - r,
        {
            proof {
                lemma_flat_index(r as int, c as int, rows as int, cols as int);
                lemma_count_total_increases(self.counts(), c as int, r + 1, rows as int);
            }
            total = total + self.interactions[r * cols + c];
            r = r + 1;
        }
        total
    }

    /// Normalize [`InteractionData`] as relative frequencies per species:
    /// every cell is divided by the sum of its column. A cell is undefined
    /// afterwards where that sum is zero or undefined.
    pub fn normalize(&mut self)
        ensures
            final(self)@ == old(self)@.normalize(),
            final(self)@.is_normalized(),
    {
        proof {
            use_type_invariant(&*self);
        }
        let cols: usize = self.pollinators.len();
        let mut scales: Vec<u64> = Vec::new();
        let mut c: usize = 0;
        while c < cols
            invariant
                c <= cols,
                cols == self.pollinators.len(),
                cols == self.scales.len(),
                scales.len() == c,
                forall|k: int|
                    0 <= k < c ==> #[trigger] scales[k] == count_total(
                        self.counts(),
                        k,
                        self.plants.len() as int,
                    ),
            decreases cols - c,
        {
            let total: u64 = self.column_total(c);
            scales.push(total);
            c = c + 1;
        }
        let ghost before = *self;
        proof {
            let after = InteractionData {
                pollinators: self.pollinators,
                plants: self.plants,
                interactions: self.interactions,
                scales,
            };
            assert(after.counts() == before.counts());
            assert(after.well_formed());
        }
        self.scales = scales;
        proof {
            let rows = self.plants.len() as int;
            let old_cells = before@.cells;
            let new_cells = self@.cells;
            let goal = before@.normalize().cells;
            assert(self.counts() == before.counts());
            assert(rows >= 1);
            assert forall|r: int| 0 <= r < rows implies #[trigger] new_cells[r] == goal[r] by {
                assert forall|c: int| 0 <= c < cols implies #[trigger] new_cells[r][c]
                    == goal[r][c] by {
                    lemma_flat_index(r, c, rows, cols as int);
                    let a = before.interactions[r * cols + c];
                    let s = before.scales[c];
                    let t = count_total(before.counts(), c, rows);
                    assert forall|k: int| 0 <= k < rows implies (#[trigger] old_cells[k])[c]
                        == cell_of(before.counts()[k][c], s) by {
                        lemma_flat_index(k, c, rows, cols as int);
                    }
                    lemma_scaled_column_sum(before.counts(), old_cells, c, s, rows);
                    assert(old_cells[r][c] == cell_of(a, s));
                    assert(self.scales[c] == t);
                    assert(before.scales[c] == 0 ==> t == 0);
                    assert(new_cells[r][c] == cell_of(a, self.scales[c]));
                    assert(goal[r][c] == quotient(old_cells[r][c], column_sum(old_cells, c, rows)));
                    if s != 0 {
                        if t != 0 {
                            assert((a as real / s as real) / (t as real / s as real) == a as real
                                / t as real) by (nonlinear_arith)
                                requires
                                    s > 0,
                                    t > 0,
                            ;
                            assert(t as real / s as real > 0real) by (nonlinear_arith)
                                requires
                                    s > 0,
                                    t > 0,
                            ;
                        } else {
                            assert(0 as real / s as real == 0real) by (nonlinear_arith)
                                requires
                                    s > 0,
                            ;
                        }
                    }
                }
                assert(new_cells[r] =~= goal[r]);
            }
            assert(new_cells =~= goal);
            assert forall|c: int| 0 <= c < cols implies {
                let sum = #[trigger] column_sum(new_cells, c, new_cells.len() as int);
                sum is None || sum == Some(1real)
            } by {
                assert forall|k: int| 0 <= k < rows implies (#[trigger] new_cells[k])[c]
                    == cell_of(self.counts()[k][c], self.scales[c]) by {
                    lemma_flat_index(k, c, rows, cols as int);
                }
                lemma_scaled_column_sum(self.counts(), new_cells, c, self.scales[c], rows);
                let t = self.scales[c];
                if t != 0 {
                    assert(t as real / t as real == 1real) by (nonlinear_arith)
                        requires
                            t > 0,
                    ;
                }
            }
        }
    }

    /// The overlap of columns `i` and `j`: the sum over the rows of the
    /// lesser of the two counts, each weighted with the divisor of the other
    /// column.
    fn overlap(&self, i: usize, j: usize) -> (sum: u128)
        requires
            i < self.pollinators.len(),
            j < self.pollinators.len(),
        ensures
            sum == overlap_total(
                self.counts(),
                i as int,
                j as int,
                self.scales[i as int] as int,
                self.scales[j as int] as int,
                self.plants.len() as int,
            ),
    {
        proof {
            use_type_invariant(self);
        }
        let cols: usize = self.pollinators.len();
        let rows: usize = self.plants.len();
        let si: u64 = self.scales[i];
        let sj: u64 = self.scales[j];
        let ghost counts = self.counts();
        let ghost ti = count_total(counts, i as int, rows as int);
        proof {
            lemma_count_total_increases(counts, i as int, 0, rows as int);
            assert(ti * sj <= u128::MAX) by (nonlinear_arith)
                requires
                    0 <= ti <= u64::MAX,
                    sj <= u64::MAX,
            ;
        }
        let mut sum: u128 = 0;
        let mut r: usize = 0;
        while r < rows
            invariant
                r <= rows,
                i < cols,
                j < cols,
                rows == self.plants.len(),
                cols == self.pollinators.len(),
                self.interactions.len() == rows * cols,
                counts == self.counts(),
                ti == count_total(counts, i as int, rows as int),
                ti * sj <= u128::MAX,
                sum == overlap_total(counts, i as int, j as int, si as int, sj as int, r as int),
            decreases rows - r,
        {
            proof {
                lemma_flat_index(r as int, i as int, rows as int, cols as int);
                lemma_flat_index(r as int, j as int, rows as int, cols as int);
                lemma_overlap_total_bound(counts, i as int, j as int, si as int, sj as int, r + 1);
                lemma_count_total_increases(counts, i as int, r + 1, rows as int);
                let t = count_total(counts, i as int, r + 1);
                assert(t * sj <= ti * sj) by (nonlinear_arith)
                    requires
                        0 <= t <= ti,
                        sj >= 0,
                ;
            }
            let a: u64 = self.interactions[r * cols + i];
            let b: u64 = self.interactions[r * cols + j];
            proof {
                assert(a * sj <= u128::MAX && b * si <= u128::MAX) by (nonlinear_arith)
                    requires
                        a <= u64::MAX,
                        b <= u64::MAX,
                        si <= u64::MAX,
                        sj <= u64::MAX,
                ;
            }
            let x: u128 = (a as u128) * (sj as u128);
            let y: u128 = (b as u128) * (si as u128);
            sum = sum + if x <= y {
                x
            } else {
                y
            };
            r = r + 1;
        }
        sum
    }

    /// The index of the pair of columns `i` and `j`.
    fn pair_index(&self, i: usize, j: usize) -> (index: Ratio)
        requires
            i < self.pollinators.len(),
            j < self.pollinators.len(),
        ensures
            index.value() == schoener_d(self@.cells, i as int, j as int),
            self@.is_normalized() ==> in_unit_range(index.value()),
    {
        proof {
            use_type_invariant(self);
        }
        let cols: usize = self.pollinators.len();
        let rows: usize = self.plants.len();
        let si: u64 = self.scales[i];
        let sj: u64 = self.scales[j];
        let ghost cells = self@.cells;
        let ghost counts = self.counts();
        proof {
            assert forall|r: int| 0 <= r < rows implies (#[trigger] cells[r])[i as int] == cell_of(
                counts[r][i as int],
                si,
            ) by {
                lemma_flat_index(r, i as int, rows as int, cols as int);
            }
            assert forall|r: int| 0 <= r < rows implies (#[trigger] cells[r])[j as int] == cell_of(
                counts[r][j as int],
                sj,
            ) by {
                lemma_flat_index(r, j as int, rows as int, cols as int);
            }
        }
        if si == 0 || sj == 0 {
            proof {
                assert(cells[rows - 1][i as int] == cell_of(counts[rows - 1][i as int], si));
                assert(cells[rows - 1][j as int] == cell_of(counts[rows - 1][j as int], sj));
            }
            return Ratio::undefined();
        }
        let ti: u64 = self.column_total(i);
        let tj: u64 = self.column_total(j);
        let shared: u128 = self.overlap(i, j);
        proof {
            lemma_scaled_difference_sum(counts, cells, i as int, j as int, si, sj, rows as int);
            lemma_overlap_total_bound(counts, i as int, j as int, si as int, sj as int, rows as int);
        }
        let ghost distance = difference_sum(cells, i as int, j as int, rows as int)->0;
        if si == ti && sj == tj {
            proof {
                assert(si * sj <= u128::MAX) by (nonlinear_arith)
                    requires
                        si <= u64::MAX,
                        sj <= u64::MAX,
                ;
                assert(ti * sj + tj * si - 2 * shared == 2 * (si * sj) - 2 * shared)
                    by (nonlinear_arith)
                    requires
                        ti == si,
                        tj == sj,
                ;
                assert(si * sj > 0) by (nonlinear_arith)
                    requires
                        si > 0,
                        sj > 0,
                ;
                lemma_overlap_quotient(shared as int, si * sj, distance);
            }
            Ratio::new(shared, (si as u128) * (sj as u128))
        } else {
            proof {
                assert(si == 1 && sj == 1);
                assert(ti * 1 == ti && tj * 1 == tj && si * sj == 1) by (nonlinear_arith)
                    requires
                        si == 1,
                        sj == 1,
                ;
                assert(distance == (ti + tj - 2 * shared) as real) by (nonlinear_arith)
                    requires
                        distance * 1 as real == (ti + tj - 2 * shared) as real,
                ;
                lemma_scaled_column_sum(counts, cells, i as int, si, rows as int);
                lemma_scaled_column_sum(counts, cells, j as int, sj, rows as int);
                assert(ti as real / 1 as real == ti as real) by (nonlinear_arith);
                assert(tj as real / 1 as real == tj as real) by (nonlinear_arith);
                if ti != 1 {
                    assert(column_sum(cells, i as int, cells.len() as int) == Some(ti as real));
                } else {
                    assert(column_sum(cells, j as int, cells.len() as int) == Some(tj as real));
                }
                assert(!self@.is_normalized());
            }
            let gain: u128 = 2 + 2 * shared;
            let loss: u128 = ti as u128 + tj as u128;
            if gain >= loss {
                proof {
                    let d = (gain - loss) as real;
                    assert(1real - distance / 2real == d / 2 as real) by (nonlinear_arith)
                        requires
                            distance == (ti + tj - 2 * shared) as real,
                            d == (2 + 2 * shared - ti - tj) as real,
                    ;
                }
                Ratio::new(gain - loss, 2)
            } else {
                proof {
                    let d = (loss - gain) as real;
                    assert(1real - distance / 2real == -(d / 2 as real)) by (nonlinear_arith)
                        requires
                            distance == (ti + tj - 2 * shared) as real,
                            d == (ti + tj - 2 - 2 * shared) as real,
                    ;
                }
                Ratio { negative: true, numerator: loss - gain, denominator: 2 }
            }
        }
    }

    /// Calculates the Schoener's D index of every pair of pollinators, from
    /// the cells as they are. The pairs come in the order of their first
    /// column, then of their second. The indexes of a normalized matrix lie
    /// between zero and one.
    pub fn schoener_indexes<'a>(&'a self) -> (indexes: SchoenerIndexes<'a>)
        ensures
            indexes@.len() == self@.pollinators.len() * (self@.pollinators.len() - 1) / 2,
            forall|i: int, j: int|
                0 <= i < j < self@.pollinators.len() ==> {
                    let k = #[trigger] pair_position(self@.pollinators.len() as int, i, j);
                    &&& 0 <= k < indexes@.len()
                    &&& indexes@[k] == (SchoenerDView {
                        first_species: self@.pollinators[i],
                        second_species: self@.pollinators[j],
                        index: schoener_d(self@.cells, i, j),
                    })
                },
            self@.is_normalized() ==> forall|k: int|
                0 <= k < indexes@.len() ==> in_unit_range(#[trigger] indexes@[k].index),
    {
        proof {
            use_type_invariant(self);
        }
        let cols: usize = self.pollinators.len();
        let ghost names = self@.pollinators;
        let ghost cells = self@.cells;
        let mut entries: Vec<SchoenerD<'a>> = Vec::new();
        let mut i: usize = 0;
        while i < cols
            invariant
                i <= cols,
                cols == self.pollinators.len(),
                names == self@.pollinators,
                cells == self@.cells,
                entries.len() == pairs_before(cols as int, i as int),
                forall|a: int, b: int|
                    0 <= a < b < cols && a < i ==> {
                        let k = #[trigger] pair_position(cols as int, a, b);
                        &&& 0 <= k < entries.len()
                        &&& entries[k]@ == (SchoenerDView {
                            first_species: names[a],
                            second_species: names[b],
                            index: schoener_d(cells, a, b),
                        })
                    },
                self@.is_normalized() ==> forall|k: int|
                    0 <= k < entries.len() ==> in_unit_range(#[trigger] entries[k]@.index),
            decreases cols - i,
        {
            let mut j: usize = i + 1;
            while j < cols
                invariant
                    i < j <= cols,
                    cols == self.pollinators.len(),
                    names == self@.pollinators,
                    cells == self@.cells,
                    entries.len() == pair_position(cols as int, i as int, j as int),
                    forall|a: int, b: int|
                        0 <= a < b < cols && (a < i || (a == i && b < j)) ==> {
                            let k = #[trigger] pair_position(cols as int, a, b);
                            &&& 0 <= k < entries.len()
                            &&& entries[k]@ == (SchoenerDView {
                                first_species: names[a],
                                second_species: names[b],
                                index: schoener_d(cells, a, b),
                            })
                        },
                    self@.is_normalized() ==> forall|k: int|
                        0 <= k < entries.len() ==> in_unit_range(#[trigger] entries[k]@.index),
                decreases cols - j,
            {
                let index = self.pair_index(i, j);
                let entry = SchoenerD::new(
                    self.pollinators[i].as_str(),
                    self.pollinators[j].as_str(),
                    index,
                );
                assert(names[i as int] == self.pollinators[i as int]@);
                assert(names[j as int] == self.pollinators[j as int]@);
                let ghost before = entries@;
                entries.push(entry);
                assert(forall|k: int| 0 <= k < before.len() ==> entries[k] == before[k]);
                j = j + 1;
            }
            i = i + 1;
        }
        proof {
            lemma_pairs_before(cols as int, cols as int);
            assert(cols * (2 * cols - cols - 1) == cols * (cols - 1)) by (nonlinear_arith);
        }
        let indexes = SchoenerIndexes(entries);
        assert(forall|k: int| 0 <= k < entries.len() ==> indexes@[k] == entries[k]@);
        indexes
    }
}

} // verus!
