//! Reading an interaction matrix from a sequence of text records.
//!
//! The first record is the header: a label for the plant column, then one
//! name per pollinator. Every later record is a row: the name of a plant,
//! then one interaction count per pollinator. A record without any field is
//! passed over. Line numbers count the header as line 1.

pub mod field;

use crate::data::InteractionData;
use crate::error::{Error, ErrorView};
use crate::model::{count_cells, count_total, grid, lemma_flat_index, Matrix};
use vstd::prelude::*;
use vstd::utf8::encode_utf8;

pub use field::{FloatSyntaxError, InteractionField, ParseFieldError, ParseFieldErrorKind};

verus! {

/// What a [`Loader`] has read so far: the pollinators of the header, and for
/// each row its plant, the line it stood on and its counts.
pub ghost struct Rows {
    pub pollinators: Seq<Seq<char>>,
    pub plants: Seq<Seq<char>>,
    pub lines: Seq<usize>,
    pub counts: Seq<Seq<u64>>,
}

/// The pollinator names of a header: all its fields but the first.
pub open spec fn header_pollinators(header: Seq<Seq<char>>) -> Seq<Seq<char>> {
    if header.len() == 0 {
        Seq::empty()
    } else {
        header.skip(1)
    }
}

/// What reading a header yields.
pub open spec fn start(header: Seq<Seq<char>>) -> Result<Rows, ErrorView> {
    let pollinators = header_pollinators(header);
    if pollinators.len() < 2 {
        Err(ErrorView::InsufficientInputColumns { pollinators })
    } else {
        Ok(Rows { pollinators, plants: Seq::empty(), lines: Seq::empty(), counts: Seq::empty() })
    }
}

/// The first position at or after `from` at which `plant` stands in
/// `plants`, or the length of `plants` if there is none.
pub open spec fn first_index_of(plants: Seq<Seq<char>>, plant: Seq<char>, from: int) -> int
    decreases plants.len() - from,
{
    if 0 <= from < plants.len() && plants[from] != plant {
        first_index_of(plants, plant, from + 1)
    } else {
        from
    }
}

/// The count in field `f` of a row, given the rows before it: the field must
/// hold a count, and the total of its column must still fit in 64 bits.
pub open spec fn cell_count(rows: Rows, record: Seq<Seq<char>>, f: int) -> Result<
    u64,
    ParseFieldErrorKind,
> {
    match field::field_count(encode_utf8(record[f])) {
        Ok(count) => if count_total(rows.counts, f - 1, rows.counts.len() as int) + count
            <= u64::MAX {
            Ok(count)
        } else {
            Err(ParseFieldErrorKind::TooLarge)
        },
        Err(kind) => Err(kind),
    }
}

/// The first field at or after `from` that holds no acceptable count, or the
/// length of the record if there is none.
pub open spec fn first_bad_field(rows: Rows, record: Seq<Seq<char>>, from: int) -> int
    decreases record.len() - from,
{
    if 0 <= from < record.len() && cell_count(rows, record, from) is Ok {
        first_bad_field(rows, record, from + 1)
    } else {
        from
    }
}

/// What reading one more record yields. The checks come in this order: the
/// number of fields, the plant's name, that the plant is new, then the
/// counts from left to right.
#[verifier::opaque]
pub open spec fn push_row(rows: Rows, line_nr: usize, record: Seq<Seq<char>>) -> Result<
    Rows,
    ErrorView,
> {
    let cols = rows.pollinators.len();
    let earlier = first_index_of(rows.plants, record[0], 0);
    let bad = first_bad_field(rows, record, 1);
    if record.len() == 0 {
        Ok(rows)
    } else if record.len() != cols + 1 {
        Err(
            ErrorView::RaggedRecord {
                line_nr,
                expected: (cols + 1) as usize,
                found: record.len() as usize,
            },
        )
    } else if record[0].len() == 0 {
        Err(ErrorView::MissingPlantIdent { line_nr })
    } else if earlier < rows.plants.len() {
        Err(
            ErrorView::DuplicatePlantIdent {
                prev_occ_line_nr: rows.lines[earlier],
                line_nr,
                plant: record[0],
            },
        )
    } else if bad < record.len() {
        Err(
            ErrorView::InvalidFieldValue {
                line_nr,
                field_nr: (bad + 1) as usize,
                field_value: record[bad],
                kind: cell_count(rows, record, bad)->Err_0,
            },
        )
    } else {
        Ok(
            Rows {
                pollinators: rows.pollinators,
                plants: rows.plants.push(record[0]),
                lines: rows.lines.push(line_nr),
                counts: rows.counts.push(
                    Seq::new(cols, |c: int| cell_count(rows, record, c + 1)->Ok_0),
                ),
            },
        )
    }
}

/// What the rows read make up once the input has ended.
pub open spec fn finished(rows: Rows) -> Result<Matrix, ErrorView> {
    if rows.plants.len() == 0 {
        Err(ErrorView::MissingData)
    } else {
        Ok(
            Matrix {
                pollinators: rows.pollinators,
                plants: rows.plants,
                cells: count_cells(rows.counts),
            },
        )
    }
}

/// The header of a sequence of records: the first of them, if there is one.
pub open spec fn header_of(records: Seq<Seq<Seq<char>>>) -> Seq<Seq<char>> {
    if records.len() == 0 {
        Seq::empty()
    } else {
        records[0]
    }
}

/// What reading the header and the records before position `n` yields. The
/// first failure ends the reading.
pub open spec fn read_rows(records: Seq<Seq<Seq<char>>>, n: int) -> Result<Rows, ErrorView>
    decreases n,
{
    if n <= 1 {
        start(header_of(records))
    } else {
        match read_rows(records, n - 1) {
            Ok(rows) => push_row(rows, n as usize, records[n - 1]),
            Err(error) => Err(error),
        }
    }
}

/// The matrix that a sequence of records holds, or why it holds none.
pub open spec fn loaded(records: Seq<Seq<Seq<char>>>) -> Result<Matrix, ErrorView> {
    match read_rows(records, records.len() as int) {
        Ok(rows) => finished(rows),
        Err(error) => Err(error),
    }
}

/// Once reading has failed, it has failed for good.
pub proof fn lemma_read_rows_error(records: Seq<Seq<Seq<char>>>, k: int, n: int)
    requires
        read_rows(records, k) is Err,
        k <= n,
    ensures
        read_rows(records, n) == read_rows(records, k),
    decreases n - k,
{
    if k < n {
        lemma_read_rows_error(records, k, n - 1);
        if n <= 1 {
            assert(read_rows(records, n) == read_rows(records, k));
        }
    }
}

/// The total of a column depends on the rows that are summed only.
pub(crate) proof fn lemma_count_total_prefix(a: Seq<Seq<u64>>, b: Seq<Seq<u64>>, c: int, n: int)
    requires
        forall|r: int| 0 <= r < n ==> (#[trigger] a[r])[c] == (#[trigger] b[r])[c],
    ensures
        count_total(a, c, n) == count_total(b, c, n),
    decreases n,
{
    if n > 0 {
        lemma_count_total_prefix(a, b, c, n - 1);
        assert(a[n - 1][c] == b[n - 1][c]);
    }
}

/// Reads a matrix record by record.
#[derive(Debug)]
pub struct Loader {
    pollinators: Vec<String>,
    plants: Vec<String>,
    lines: Vec<usize>,
    interactions: Vec<u64>,
    totals: Vec<u64>,
}

impl View for Loader {
    type V = Rows;

    closed spec fn view(&self) -> Rows {
        Rows {
            pollinators: self.pollinators.deep_view(),
            plants: self.plants.deep_view(),
            lines: self.lines@,
            counts: grid(
                self.interactions@,
                self.plants.len() as int,
                self.pollinators.len() as int,
            ),
        }
    }
}

impl Loader {
    /// There are two columns or more; every plant has a line and a row of
    /// counts; and the total of each column is held, so that it fits in 64
    /// bits.
    #[verifier::type_invariant]
    spec fn well_formed(self) -> bool {
        &&& 2 <= self.pollinators.len() < usize::MAX
        &&& self.lines.len() == self.plants.len()
        &&& self.interactions.len() == self.plants.len() * self.pollinators.len()
        &&& self.totals.len() == self.pollinators.len()
        &&& forall|c: int|
            0 <= c < self.totals.len() ==> #[trigger] self.totals[c] == count_total(
                self@.counts,
                c,
                self.plants.len() as int,
            )
    }

    /// Starts loading with the header record.
    pub fn new(header: &Vec<String>) -> (r: Result<Loader, Error>)
        ensures
            match start(header.deep_view()) {
                Ok(rows) => r is Ok && r->Ok_0@ == rows,
                Err(error) => r is Err && r->Err_0@ == error,
            },
    {
        let pollinators = header_names(header);
        let mut totals: Vec<u64> = Vec::new();
        let mut c: usize = 0;
        while c < pollinators.len()
            invariant
                c <= pollinators.len(),
                totals.len() == c,
                forall|k: int| 0 <= k < c ==> #[trigger] totals[k] == 0,
            decreases pollinators.len() - c,
        {
            totals.push(0);
            c = c + 1;
        }
        if pollinators.len() < 2 {
            return Err(Error::InsufficientInputColumns { pollinators });
        }
        let loader = Loader {
            pollinators,
            plants: Vec::new(),
            lines: Vec::new(),
            interactions: Vec::new(),
            totals,
        };
        assert(loader@.plants =~= Seq::<Seq<char>>::empty());
        assert(loader@.counts =~= Seq::<Seq<u64>>::empty());
        Ok(loader)
    }

    /// Reads the record that stands on line `line_nr`.
    pub fn push_record(self, line_nr: usize, record: &Vec<String>) -> (r: Result<Loader, Error>)
        ensures
            match push_row(self@, line_nr, record.deep_view()) {
                Ok(rows) => r is Ok && r->Ok_0@ == rows,
                Err(error) => r is Err && r->Err_0@ == error,
            },
    {
        proof {
            use_type_invariant(&self);
            reveal(push_row);
        }
        let ghost rows = self@;
        let ghost fields = record.deep_view();
        let cols: usize = self.pollinators.len();
        if record.len() == 0 {
            return Ok(self);
        }
        if record.len() != cols + 1 {
            return Err(Error::RaggedRecord { line_nr, expected: cols + 1, found: record.len() });
        }
        assert(fields[0] == record[0]@);
        if record[0].as_str().is_empty() {
            return Err(Error::MissingPlantIdent { line_nr });
        }
        let earlier: usize = find_plant(&self.plants, &record[0]);
        if earlier < self.plants.len() {
            return Err(
                Error::DuplicatePlantIdent {
                    prev_occ_line_nr: self.lines[earlier],
                    line_nr,
                    plant: record[0].clone(),
                },
            );
        }
        match read_counts(record, &self.totals, Ghost(rows)) {
            Err((bad, kind)) => {
                assert(fields[bad as int] == record[bad as int]@);
                Err(
                    Error::InvalidFieldValue(
                        ParseFieldError {
                            line_nr,
                            field_nr: bad + 1,
                            field_value: record[bad].clone(),
                            kind,
                        },
                    ),
                )
            },
            Ok((row, totals)) => {
                let ghost before = self;
                let Loader { pollinators, mut plants, mut lines, mut interactions, totals: _ } =
                    self;
                plants.push(record[0].clone());
                lines.push(line_nr);
                extend(&mut interactions, &row);
                proof {
                    let n = before.plants.len() as int;
                    let w = cols as int;
                    let table = grid(interactions@, n + 1, w);
                    let added = Seq::new(
                        w as nat,
                        |c: int| cell_count(rows, fields, c + 1)->Ok_0,
                    );
                    assert(n * w + w == (n + 1) * w) by (nonlinear_arith);
                    assert(row@ =~= added);
                    assert forall|r: int| 0 <= r < n implies #[trigger] table[r]
                        == rows.counts[r] by {
                        assert forall|c: int| 0 <= c < w implies #[trigger] table[r][c]
                            == rows.counts[r][c] by {
                            lemma_flat_index(r, c, n, w);
                        }
                        assert(table[r] =~= rows.counts[r]);
                    }
                    assert(table[n] =~= added) by {
                        assert forall|c: int| 0 <= c < w implies #[trigger] table[n][c]
                            == added[c] by {
                            assert(interactions@[n * w + c] == row@[c]);
                        }
                    }
                    assert(table =~= rows.counts.push(added));
                    assert(plants.deep_view() =~= rows.plants.push(fields[0]));
                    assert forall|c: int| 0 <= c < w implies #[trigger] totals[c] == count_total(
                        table,
                        c,
                        n + 1,
                    ) by {
                        lemma_count_total_prefix(table, rows.counts, c, n);
                        assert(totals[c] == before.totals[c] + row[c]);
                        assert(table[n][c] == row[c]);
                    }
                }
                Ok(Loader { pollinators, plants, lines, interactions, totals })
            },
        }
    }

    /// Ends loading: the rows read make up the matrix.
    pub fn finish(self) -> (r: Result<InteractionData, Error>)
        ensures
            match finished(self@) {
                Ok(matrix) => r is Ok && r->Ok_0@ == matrix,
                Err(error) => r is Err && r->Err_0@ == error,
            },
    {
        proof {
            use_type_invariant(&self);
        }
        if self.plants.len() == 0 {
            return Err(Error::MissingData);
        }
        proof {
            assert forall|c: int| 0 <= c < self.pollinators.len() implies #[trigger] count_total(
                grid(
                    self.interactions@,
                    self.plants.len() as int,
                    self.pollinators.len() as int,
                ),
                c,
                self.plants.len() as int,
            ) <= u64::MAX by {
                assert(self.totals[c] <= u64::MAX);
            }
        }
        let Loader { pollinators, plants, lines: _, interactions, totals: _ } = self;
        Ok(InteractionData::from_counts(pollinators, plants, interactions))
    }

    /// The plants read so far, and their counts row by row.
    fn into_parts(self) -> (parts: (Vec<String>, Vec<u64>))
        ensures
            parts.0.deep_view() == self@.plants,
            parts.1.len() == self@.plants.len() * self@.pollinators.len(),
            grid(parts.1@, self@.plants.len() as int, self@.pollinators.len() as int)
                == self@.counts,
    {
        proof {
            use_type_invariant(&self);
        }
        (self.plants, self.interactions)
    }
}

/// A tabular source held in memory: the header, then the rows.
#[derive(Debug)]
pub struct Input {
    records: Vec<Vec<String>>,
}

impl View for Input {
    type V = Seq<Seq<Seq<char>>>;

    closed spec fn view(&self) -> Seq<Seq<Seq<char>>> {
        self.records.deep_view()
    }
}

impl Input {
    /// Constructs a new [`Input`] instance.
    pub fn new(records: Vec<Vec<String>>) -> (input: Input)
        ensures
            input@ == records.deep_view(),
    {
        Input { records }
    }

    /// Returns a vector of pollinators species names.
    pub fn pollinators(&self) -> (r: Result<Vec<String>, Error>)
        ensures
            match start(header_of(self@)) {
                Ok(rows) => r is Ok && r->Ok_0.deep_view() == rows.pollinators,
                Err(error) => r is Err && r->Err_0@ == error,
            },
    {
        let pollinators = if self.records.len() == 0 {
            let none: Vec<String> = Vec::new();
            assert(none.deep_view() =~= header_pollinators(header_of(self@)));
            none
        } else {
            assert(self@[0] == self.records[0].deep_view());
            header_names(&self.records[0])
        };
        if pollinators.len() < 2 {
            return Err(Error::InsufficientInputColumns { pollinators });
        }
        Ok(pollinators)
    }

    /// Reads every record.
    pub(crate) fn load(&self) -> (r: Result<Loader, Error>)
        ensures
            match read_rows(self@, self@.len() as int) {
                Ok(rows) => r is Ok && r->Ok_0@ == rows,
                Err(error) => r is Err && r->Err_0@ == error,
            },
    {
        let n: usize = self.records.len();
        let started = if n == 0 {
            let header: Vec<String> = Vec::new();
            assert(header.deep_view() =~= header_of(self@));
            Loader::new(&header)
        } else {
            assert(self@[0] == self.records[0].deep_view());
            Loader::new(&self.records[0])
        };
        let mut loader = match started {
            Ok(loader) => loader,
            Err(error) => {
                proof {
                    if n >= 1 {
                        lemma_read_rows_error(self@, 1, n as int);
                    }
                }
                return Err(error);
            },
        };
        let mut k: usize = 1;
        while k < n
            invariant
                1 <= k,
                k <= n || n == 0,
                n == self.records.len(),
                read_rows(self@, k as int) == Ok::<Rows, ErrorView>(loader@),
            decreases n - k,
        {
            assert(self@[k as int] == self.records[k as int].deep_view());
            match loader.push_record(k + 1, &self.records[k]) {
                Ok(next) => {
                    loader = next;
                },
                Err(error) => {
                    proof {
                        lemma_read_rows_error(self@, k + 1, n as int);
                    }
                    return Err(error);
                },
            }
            k = k + 1;
        }
        Ok(loader)
    }

    /// Returns vectors of plants species names and interaction data respectively.
    pub fn plants_interactions(&self) -> (r: Result<(Vec<String>, Vec<u64>), Error>)
        ensures
            match read_rows(self@, self@.len() as int) {
                Ok(rows) => if rows.plants.len() == 0 {
                    r is Err && r->Err_0@ == ErrorView::MissingData
                } else {
                    &&& r is Ok
                    &&& r->Ok_0.0.deep_view() == rows.plants
                    &&& r->Ok_0.1.len() == rows.plants.len() * rows.pollinators.len()
                    &&& grid(
                        r->Ok_0.1@,
                        rows.plants.len() as int,
                        rows.pollinators.len() as int,
                    ) == rows.counts
                },
                Err(error) => r is Err && r->Err_0@ == error,
            },
    {
        let loader = self.load()?;
        let (plants, interactions) = loader.into_parts();
        if plants.len() == 0 {
            return Err(Error::MissingData);
        }
        Ok((plants, interactions))
    }
}

/// The pollinator names of a header.
fn header_names(header: &Vec<String>) -> (pollinators: Vec<String>)
    ensures
        pollinators.deep_view() == header_pollinators(header.deep_view()),
        pollinators.len() < usize::MAX,
{
    let mut pollinators: Vec<String> = Vec::new();
    let mut i: usize = 1;
    while i < header.len()
        invariant
            1 <= i,
            i <= header.len() || i == 1,
            pollinators.len() == i - 1,
            forall|c: int| 0 <= c < i - 1 ==> #[trigger] pollinators[c]@ == header[c + 1]@,
        decreases header.len() - i,
    {
        pollinators.push(header[i].clone());
        i = i + 1;
    }
    proof {
        let names = header_pollinators(header.deep_view());
        assert(pollinators.deep_view().len() == names.len());
        assert forall|c: int| 0 <= c < names.len() implies pollinators.deep_view()[c]
            == names[c] by {
            assert(pollinators[c]@ == header[c + 1]@);
            assert(header.deep_view()[c + 1] == header[c + 1]@);
        }
        assert(pollinators.deep_view() =~= names);
    }
    pollinators
}

/// The first position at which `plant` stands in `plants`, or their number.
fn find_plant(plants: &Vec<String>, plant: &String) -> (i: usize)
    ensures
        i == first_index_of(plants.deep_view(), plant@, 0),
        i <= plants.len(),
{
    let mut i: usize = 0;
    while i < plants.len()
        invariant
            i <= plants.len(),
            first_index_of(plants.deep_view(), plant@, 0) == first_index_of(
                plants.deep_view(),
                plant@,
                i as int,
            ),
        decreases plants.len() - i,
    {
        assert(plants.deep_view()[i as int] == plants[i as int]@);
        if plants[i] == *plant {
            return i;
        }
        i = i + 1;
    }
    i
}

/// Reads the counts of a row, and with them the new totals of the columns;
/// or finds the first field that holds no acceptable count.
fn read_counts(record: &Vec<String>, totals: &Vec<u64>, Ghost(rows): Ghost<Rows>) -> (r: Result<
    (Vec<u64>, Vec<u64>),
    (usize, ParseFieldErrorKind),
>)
    requires
        record.len() == totals.len() + 1,
        forall|c: int|
            0 <= c < totals.len() ==> #[trigger] totals[c] == count_total(
                rows.counts,
                c,
                rows.counts.len() as int,
            ),
    ensures
        match r {
            Ok((row, sums)) => {
                &&& first_bad_field(rows, record.deep_view(), 1) == record.len()
                &&& row.len() == totals.len()
                &&& sums.len() == totals.len()
                &&& forall|c: int|
                    0 <= c < row.len() ==> cell_count(rows, record.deep_view(), c + 1) == Ok::<
                        u64,
                        ParseFieldErrorKind,
                    >(#[trigger] row[c])
                &&& forall|c: int| 0 <= c < row.len() ==> #[trigger] sums[c] == totals[c] + row[c]
            },
            Err((bad, kind)) => {
                &&& bad == first_bad_field(rows, record.deep_view(), 1)
                &&& 1 <= bad < record.len()
                &&& cell_count(rows, record.deep_view(), bad as int) == Err::<
                    u64,
                    ParseFieldErrorKind,
                >(kind)
            },
        },
{
    let ghost fields = record.deep_view();
    let cols: usize = totals.len();
    let mut row: Vec<u64> = Vec::new();
    let mut sums: Vec<u64> = Vec::new();
    let mut f: usize = 1;
    while f <= cols
        invariant
            1 <= f <= cols + 1,
            record.len() == cols + 1,
            cols == totals.len(),
            row.len() == f - 1,
            sums.len() == f - 1,
            fields == record.deep_view(),
            first_bad_field(rows, fields, 1) == first_bad_field(rows, fields, f as int),
            forall|c: int|
                0 <= c < totals.len() ==> #[trigger] totals[c] == count_total(
                    rows.counts,
                    c,
                    rows.counts.len() as int,
                ),
            forall|c: int|
                0 <= c < f - 1 ==> cell_count(rows, fields, c + 1) == Ok::<
                    u64,
                    ParseFieldErrorKind,
                >(#[trigger] row[c]),
            forall|c: int| 0 <= c < f - 1 ==> #[trigger] sums[c] == totals[c] + row[c],
        decreases cols + 1 - f,
    {
        assert(fields[f as int] == record[f as int]@);
        let total: u64 = totals[f - 1];
        match InteractionField::parse(record[f].as_str()) {
            Err(kind) => {
                return Err((f, kind));
            },
            Ok(count) => {
                if count > u64::MAX - total {
                    return Err((f, ParseFieldErrorKind::TooLarge));
                }
                row.push(count);
                sums.push(total + count);
            },
        }
        f = f + 1;
    }
    Ok((row, sums))
}

/// Appends a row to a row-major table.
fn extend(interactions: &mut Vec<u64>, row: &Vec<u64>)
    ensures
        final(interactions)@ == old(interactions)@ + row@,
{
    let mut c: usize = 0;
    while c < row.len()
        invariant
            c <= row.len(),
            interactions@ == old(interactions)@ + row@.subrange(0, c as int),
        decreases row.len() - c,
    {
        interactions.push(row[c]);
        c = c + 1;
        assert(interactions@ =~= old(interactions)@ + row@.subrange(0, c as int));
    }
    assert(row@.subrange(0, row.len() as int) =~= row@);
}

} // verus!
