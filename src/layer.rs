//! Layer files: write-once columnar datasets.  Column 0 is one group of
//! rows; each row of column `i` owns a nonempty group of rows of column
//! `i + 1`.  Every group holds strictly ascending keys.
use vstd::prelude::*;

use crate::order::{lemma_seq_lt_asymmetric, lemma_seq_lt_transitive, lemma_seq_lt_trichotomy, seq_lt, DBData};

verus! {

/// The model of a row: its key's and its auxiliary datum's representation.
pub type RowView = (Seq<int>, Seq<int>);

pub open spec fn row_view<K: DBData, A: DBData>(r: (K, A)) -> RowView {
    (r.0.repr(), r.1.repr())
}

pub open spec fn rows_view<K: DBData, A: DBData>(s: Seq<(K, A)>) -> Seq<RowView> {
    s.map_values(|r: (K, A)| row_view(r))
}

/// Keys strictly ascending over `[lo, hi)`.
pub open spec fn ascending(s: Seq<RowView>, lo: int, hi: int) -> bool {
    forall|i: int, j: int| lo <= i < j < hi ==> #[trigger] seq_lt(s[i].0, s[j].0)
}

/// Group ends strictly ascending: every group nonempty.
pub open spec fn ends_ascending(ends: Seq<usize>) -> bool {
    forall|i: int, j: int| 0 <= i < j < ends.len() ==> #[trigger] ends[i] < #[trigger] ends[j]
}

/// One column: its rows and, for every row but in the last column, the end
/// of the row's group in the next column.
pub struct Column<K, A> {
    rows: Vec<(K, A)>,
    ends: Vec<usize>,
}

/// Why a write or a close is refused.
#[derive(Clone, Copy, Debug, PartialEq, Eq)]
pub enum LayerError {
    /// The column does not exist.
    NoSuchColumn,
    /// The key is not greater than the previous key of its group.
    OutOfOrder,
    /// A row would own an empty group of the next column.
    EmptyGroup,
    /// Rows of a column are left without an owner.
    UnfinishedGroup,
}

/// The start of the group that ends at index `r` of `ends`.
pub open spec fn group_lo(ends: Seq<usize>, r: int) -> int {
    if r == 0 {
        0
    } else {
        ends[r - 1] as int
    }
}

/// The rows of the current (last, unowned) group of column `c` start here.
pub open spec fn open_start(cols: Seq<(Seq<RowView>, Seq<usize>)>, c: int) -> int {
    if c == 0 || cols[c - 1].1.len() == 0 {
        0
    } else {
        cols[c - 1].1.last() as int
    }
}

/// A column's group ends agree with the rows of the next column: one end
/// per row, every group nonempty, and keys ascending within each group.
pub open spec fn ends_ok(cur: (Seq<RowView>, Seq<usize>), nxt: Seq<RowView>) -> bool {
    &&& cur.1.len() == cur.0.len()
    &&& ends_ascending(cur.1)
    &&& cur.1.len() > 0 ==> cur.1.last() <= nxt.len() && cur.1[0] > 0
    &&& forall|r: int| 0 <= r < cur.1.len() ==> ascending(nxt, group_lo(cur.1, r), #[trigger] cur.1[r] as int)
}

/// The structure shared by a writer in progress and a finished file.
#[verifier::opaque]
pub open spec fn columns_ok(cols: Seq<(Seq<RowView>, Seq<usize>)>) -> bool {
    &&& cols.len() > 0
    &&& forall|c: int| 0 <= c < cols.len() - 1 ==> ends_ok(#[trigger] cols[c], cols[c + 1].0)
    &&& cols[cols.len() - 1].1.len() == 0
    &&& forall|c: int| 0 <= c < cols.len() ==> ascending((#[trigger] cols[c]).0, open_start(cols, c), cols[c].0.len() as int)
}

/// Every row of every column but the first has an owner.
pub open spec fn columns_closed(cols: Seq<(Seq<RowView>, Seq<usize>)>) -> bool {
    forall|c: int| 0 < c < cols.len() ==> open_start(cols, c) == (#[trigger] cols[c]).0.len()
}

pub closed spec fn column_view<K: DBData, A: DBData>(c: Column<K, A>) -> (Seq<RowView>, Seq<usize>) {
    (rows_view(c.rows@), c.ends@)
}

pub open spec fn columns_view<K: DBData, A: DBData>(cs: Seq<Column<K, A>>) -> Seq<(Seq<RowView>, Seq<usize>)> {
    cs.map_values(|c: Column<K, A>| column_view(c))
}


/// Column `c` has rows not yet owned by a row of column `c - 1` (for `c`
/// = 0: has rows).
pub open spec fn open_nonempty(cols: Seq<(Seq<RowView>, Seq<usize>)>, c: int) -> bool {
    open_start(cols, c) < cols[c].0.len()
}

/// The columns after writing `row` to column `c`.
pub open spec fn written(cols: Seq<(Seq<RowView>, Seq<usize>)>, c: int, row: RowView) -> Seq<(Seq<RowView>, Seq<usize>)> {
    cols.update(
        c,
        (
            cols[c].0.push(row),
            if c + 1 < cols.len() {
                cols[c].1.push(cols[c + 1].0.len() as usize)
            } else {
                cols[c].1
            },
        ),
    )
}

/// Writing `row` to column `c` is accepted: its key follows the keys of
/// its group, and the group it owns in the next column is nonempty.
pub open spec fn write_ok(cols: Seq<(Seq<RowView>, Seq<usize>)>, c: int, row: RowView) -> bool {
    &&& 0 <= c < cols.len()
    &&& open_nonempty(cols, c) ==> seq_lt(cols[c].0.last().0, row.0)
    &&& c + 1 < cols.len() ==> open_nonempty(cols, c + 1)
}

proof fn lemma_ascending_push(rows: Seq<RowView>, lo: int, row: RowView)
    requires
        0 <= lo,
        ascending(rows, lo, rows.len() as int),
        lo < rows.len() ==> seq_lt(rows.last().0, row.0),
    ensures
        ascending(rows.push(row), lo, rows.len() + 1 as int),
{
    let rs2 = rows.push(row);
    assert forall|i: int, j: int| lo <= i < j < rs2.len() implies #[trigger] seq_lt(rs2[i].0, rs2[j].0) by {
        if j == rows.len() {
            assert(rs2[i] == rows[i]);
            if i < rows.len() - 1 {
                assert(seq_lt(rows[i].0, rows[rows.len() - 1].0));
                lemma_seq_lt_transitive(rows[i].0, rows[rows.len() - 1].0, row.0);
            }
        } else {
            assert(rs2[i] == rows[i] && rs2[j] == rows[j]);
        }
    }
}

proof fn lemma_ascending_prefix(rows: Seq<RowView>, row: RowView, lo: int, hi: int)
    requires
        0 <= lo,
        ascending(rows, lo, hi),
        hi <= rows.len(),
    ensures
        ascending(rows.push(row), lo, hi),
{
    let rs2 = rows.push(row);
    assert forall|i: int, j: int| lo <= i < j < hi implies #[trigger] seq_lt(rs2[i].0, rs2[j].0) by {
        assert(rs2[i] == rows[i] && rs2[j] == rows[j]);
    }
}

/// A row written to the next column leaves this column's ends valid.
proof fn lemma_ends_grow_next(cur: (Seq<RowView>, Seq<usize>), nxt: Seq<RowView>, row: RowView)
    requires
        ends_ok(cur, nxt),
    ensures
        ends_ok(cur, nxt.push(row)),
{
    let e = cur.1;
    assert forall|r: int| 0 <= r < e.len() implies ascending(nxt.push(row), group_lo(e, r), #[trigger] e[r] as int) by {
        assert(ascending(nxt, group_lo(e, r), e[r] as int));
        if r < e.len() - 1 {
            assert(e[r] < e[e.len() - 1]);
        }
        lemma_ascending_prefix(nxt, row, group_lo(e, r), e[r] as int);
    }
}

/// A row that takes the open group of the next column as its own.
proof fn lemma_ends_push(cur: (Seq<RowView>, Seq<usize>), nxt: Seq<RowView>, row: RowView, lo: int)
    requires
        ends_ok(cur, nxt),
        lo == (if cur.1.len() == 0 {
            0
        } else {
            cur.1.last() as int
        }),
        lo < nxt.len(),
        nxt.len() <= usize::MAX,
        ascending(nxt, lo, nxt.len() as int),
    ensures
        ends_ok((cur.0.push(row), cur.1.push(nxt.len() as usize)), nxt),
{
    let e = cur.1;
    let e2 = e.push(nxt.len() as usize);
    assert forall|i: int, j: int| 0 <= i < j < e2.len() implies #[trigger] e2[i] < #[trigger] e2[j] by {
        assert(e2[i] == e[i]);
        if j < e.len() {
            assert(e2[j] == e[j]);
        } else if i < e.len() - 1 {
            assert(e[i] < e[e.len() - 1]);
        }
    }
    assert forall|r: int| 0 <= r < e2.len() implies ascending(nxt, group_lo(e2, r), #[trigger] e2[r] as int) by {
        if r < e.len() {
            assert(e2[r] == e[r]);
            if r > 0 {
                assert(e2[r - 1] == e[r - 1]);
            }
            assert(ascending(nxt, group_lo(e, r), e[r] as int));
        } else if r > 0 {
            assert(e2[r - 1] == e[r - 1]);
        }
    }
}

proof fn lemma_write_ok(cols: Seq<(Seq<RowView>, Seq<usize>)>, c: int, row: RowView)
    requires
        columns_ok(cols),
        write_ok(cols, c, row),
        c + 1 < cols.len() ==> cols[c + 1].0.len() <= usize::MAX,
    ensures
        columns_ok(written(cols, c, row)),
        written(cols, c, row).len() == cols.len(),
{
    reveal(columns_ok);
    let w = written(cols, c, row);
    let n = cols.len() as int;
    assert forall|d: int| 0 <= d < n && d != c + 1 implies open_start(w, d) == open_start(cols, d) by {
        if d > 0 && d - 1 != c {
            assert(w[d - 1] == cols[d - 1]);
        }
    }
    assert forall|d: int| 0 <= d < n - 1 implies ends_ok(#[trigger] w[d], w[d + 1].0) by {
        assert(ends_ok(cols[d], cols[d + 1].0));
        if d == c {
            let lo = open_start(cols, c + 1);
            assert(ascending(cols[c + 1].0, lo, cols[c + 1].0.len() as int));
            lemma_ends_push(cols[c], cols[c + 1].0, row, lo);
        } else if d + 1 == c {
            lemma_ends_grow_next(cols[d], cols[c].0, row);
        } else {
            assert(w[d] == cols[d] && w[d + 1] == cols[d + 1]);
        }
    }
    assert forall|d: int| 0 <= d < n implies ascending((#[trigger] w[d]).0, open_start(w, d), w[d].0.len() as int) by {
        assert(ascending(cols[d].0, open_start(cols, d), cols[d].0.len() as int));
        if d == c {
            lemma_ascending_push(cols[c].0, open_start(cols, c), row);
        } else if d == c + 1 {
            assert(open_start(w, d) == w[d].0.len());
        }
    }
    assert(w[n - 1].1.len() == 0);
}

/// The unowned rows of a column lie within it, and open starts are
/// nonnegative.
pub proof fn lemma_open_start_bound(cols: Seq<(Seq<RowView>, Seq<usize>)>, c: int)
    requires
        columns_ok(cols),
        0 <= c < cols.len(),
    ensures
        0 <= open_start(cols, c) <= cols[c].0.len(),
{
    reveal(columns_ok);
    if c > 0 {
        assert(ends_ok(cols[c - 1], cols[c].0));
    }
}

pub proof fn lemma_columns_nonempty(cols: Seq<(Seq<RowView>, Seq<usize>)>)
    requires
        columns_ok(cols),
    ensures
        cols.len() > 0,
{
    reveal(columns_ok);
}

/// Builds a layer file column by column, in one pass: the rows of a group
/// of column `i + 1` are written before the row of column `i` that owns
/// them.
pub struct Writer<K, A> {
    columns: Vec<Column<K, A>>,
}

/// A finished layer file.
pub struct LayerFile<K, A> {
    columns: Vec<Column<K, A>>,
}

impl<K: DBData, A: DBData> Writer<K, A> {
    pub closed spec fn view_columns(&self) -> Seq<(Seq<RowView>, Seq<usize>)> {
        columns_view(self.columns@)
    }

    pub closed spec fn well_formed(&self) -> bool {
        columns_ok(self.view_columns()) && self.columns@.len() <= usize::MAX
    }

    /// A writer of `n_columns` empty columns.
    pub fn new(n_columns: usize) -> (r: Self)
        requires
            n_columns > 0,
        ensures
            r.well_formed(),
            r.view_columns().len() == n_columns,
            forall|c: int| 0 <= c < n_columns ==> (#[trigger] r.view_columns()[c]).0.len() == 0,
    {
        let mut columns: Vec<Column<K, A>> = Vec::new();
        let mut i: usize = 0;
        while i < n_columns
            invariant
                i <= n_columns,
                columns@.len() == i,
                forall|c: int| 0 <= c < i ==> (#[trigger] columns@[c]).rows@.len() == 0 && columns@[c].ends@.len() == 0,
            decreases n_columns - i,
        {
            columns.push(Column { rows: Vec::new(), ends: Vec::new() });
            i = i + 1;
        }
        let r = Writer { columns };
        proof {
            reveal(columns_ok);
            let cols = r.view_columns();
            assert forall|c: int| 0 <= c < cols.len() implies (#[trigger] cols[c]).0.len() == 0 && cols[c].1.len() == 0 by {
                assert(cols[c] == column_view(r.columns@[c]));
            }
        }
        r
    }

    /// The start of the unowned rows of column `c`.
    fn open_start_exec(&self, c: usize) -> (r: usize)
        requires
            self.well_formed(),
            c < self.view_columns().len(),
        ensures
            r == open_start(self.view_columns(), c as int),
            r <= self.view_columns()[c as int].0.len(),
    {
        proof {
            let cols = self.view_columns();
            lemma_open_start_bound(cols, c as int);
            if c > 0 {
                assert(cols[c - 1] == column_view(self.columns@[c - 1]));
            }
            assert(cols[c as int] == column_view(self.columns@[c as int]));
        }
        if c == 0 {
            0
        } else {
            let ends = &self.columns[c - 1].ends;
            if ends.len() == 0 {
                0
            } else {
                ends[ends.len() - 1]
            }
        }
    }

    /// Writes a row to `column`.
    pub fn write(&mut self, column: usize, key: K, aux: A) -> (r: Result<(), LayerError>)
        requires
            old(self).well_formed(),
        ensures
            final(self).well_formed(),
            ({
                let cols = old(self).view_columns();
                let row = (key.repr(), aux.repr());
                match r {
                    Ok(()) => write_ok(cols, column as int, row) && final(self).view_columns() == written(cols, column as int, row),
                    Err(e) => !write_ok(cols, column as int, row) && final(self).view_columns() == cols && e == (
                        if column >= cols.len() {
                            LayerError::NoSuchColumn
                        } else if open_nonempty(cols, column as int) && !seq_lt(cols[column as int].0.last().0, row.0) {
                            LayerError::OutOfOrder
                        } else {
                            LayerError::EmptyGroup
                        }),
                }
            }),
    {
        let ghost cols = self.view_columns();
        let ghost row = (key.repr(), aux.repr());
        let n = self.columns.len();
        if column >= n {
            return Err(LayerError::NoSuchColumn);
        }
        proof {
            assert(cols[column as int] == column_view(self.columns@[column as int]));
            if column + 1 < n {
                assert(cols[column + 1] == column_view(self.columns@[column + 1]));
            }
        }
        let start = self.open_start_exec(column);
        let len = self.columns[column].rows.len();
        if start < len {
            let last = &self.columns[column].rows[len - 1];
            assert(row_view(*last) == cols[column as int].0.last());
            if !matches!(last.0.compare(&key), core::cmp::Ordering::Less) {
                return Err(LayerError::OutOfOrder);
            }
        }
        let mut next_len: usize = 0;
        if column + 1 < n {
            let next_start = self.open_start_exec(column + 1);
            next_len = self.columns[column + 1].rows.len();
            if next_start >= next_len {
                return Err(LayerError::EmptyGroup);
            }
        }
        proof {
            assert(write_ok(cols, column as int, row));
            lemma_write_ok(cols, column as int, row);
        }
        let mut col = self.columns.remove(column);
        col.rows.push((key, aux));
        if column + 1 < n {
            col.ends.push(next_len);
        }
        self.columns.insert(column, col);
        proof {
            let w = written(cols, column as int, row);
            assert(self.columns@.len() == n);
            assert forall|d: int| 0 <= d < n implies #[trigger] self.view_columns()[d] == w[d] by {
                if d == column {
                    assert(rows_view(col.rows@) =~= cols[column as int].0.push(row));
                } else {
                    assert(self.columns@[d] == old(self).columns@[d]);
                }
            }
            assert(self.view_columns() =~= w);
        }
        Ok(())
    }

    /// Seals the file, once every row of every column but the first has an
    /// owner.
    pub fn close(self) -> (r: Result<LayerFile<K, A>, LayerError>)
        requires
            self.well_formed(),
        ensures
            match r {
                Ok(f) => f.well_formed() && f.view_columns() == self.view_columns(),
                Err(e) => e == LayerError::UnfinishedGroup && !columns_closed(self.view_columns()),
            },
    {
        let n = self.columns.len();
        proof {
            lemma_columns_nonempty(self.view_columns());
        }
        let mut c: usize = 1;
        while c < n
            invariant
                1 <= c <= n,
                n == self.view_columns().len(),
                self.well_formed(),
                forall|d: int| 0 < d < c ==> open_start(self.view_columns(), d) == (#[trigger] self.view_columns()[d]).0.len(),
            decreases n - c,
        {
            let start = self.open_start_exec(c);
            proof {
                assert(self.view_columns()[c as int] == column_view(self.columns@[c as int]));
            }
            if start != self.columns[c].rows.len() {
                return Err(LayerError::UnfinishedGroup);
            }
            c = c + 1;
        }
        Ok(LayerFile { columns: self.columns })
    }
}

impl<K: DBData, A: DBData> LayerFile<K, A> {
    pub closed spec fn view_columns(&self) -> Seq<(Seq<RowView>, Seq<usize>)> {
        columns_view(self.columns@)
    }

    pub closed spec fn well_formed(&self) -> bool {
        columns_ok(self.view_columns()) && columns_closed(self.view_columns())
    }

    /// The number of columns.
    pub fn n_columns(&self) -> (r: usize)
        requires
            self.well_formed(),
        ensures
            r == self.view_columns().len(),
    {
        self.columns.len()
    }

    /// The single group of column 0.
    pub fn rows(&self) -> (r: RowGroup<'_, K, A>)
        requires
            self.well_formed(),
        ensures
            r.well_formed(),
            r.column() == 0,
            r.source() == *self,
            r.rows() == self.view_columns()[0].0,
            r.lo() == 0,
            r.hi() == self.view_columns()[0].0.len(),
    {
        proof {
            lemma_first_column(self.view_columns());
            assert(self.view_columns()[0] == column_view(self.columns@[0]));
        }
        RowGroup { file: self, column: 0, lo: 0, hi: self.columns[0].rows.len() }
    }
}

/// Column 0 is ascending as a whole.
pub proof fn lemma_first_column(cols: Seq<(Seq<RowView>, Seq<usize>)>)
    requires
        columns_ok(cols),
    ensures
        cols.len() > 0,
        ascending(cols[0].0, 0, cols[0].0.len() as int),
{
    reveal(columns_ok);
    assert(open_start(cols, 0) == 0);
}

proof fn lemma_ends_ok(cols: Seq<(Seq<RowView>, Seq<usize>)>, c: int)
    requires
        columns_ok(cols),
        0 <= c < cols.len() - 1,
    ensures
        ends_ok(cols[c], cols[c + 1].0),
{
    reveal(columns_ok);
}

/// The group that row `r` of column `c` owns in column `c + 1`.
pub proof fn lemma_child_group(cols: Seq<(Seq<RowView>, Seq<usize>)>, c: int, r: int)
    requires
        columns_ok(cols),
        0 <= c < cols.len() - 1,
        0 <= r < cols[c].0.len(),
    ensures
        cols[c].1.len() == cols[c].0.len(),
        0 <= group_lo(cols[c].1, r) < cols[c].1[r] <= cols[c + 1].0.len(),
        ascending(cols[c + 1].0, group_lo(cols[c].1, r), cols[c].1[r] as int),
{
    lemma_ends_ok(cols, c);
    let e = cols[c].1;
    if r > 0 {
        assert(e[r - 1] < e[r]);
    }
    if r < e.len() - 1 {
        assert(e[r] < e[e.len() - 1]);
    }
}

/// A group of consecutive rows of one column, keys strictly ascending.
pub struct RowGroup<'a, K, A> {
    file: &'a LayerFile<K, A>,
    column: usize,
    lo: usize,
    hi: usize,
}

impl<'a, K: DBData, A: DBData> RowGroup<'a, K, A> {
    /// The rows of the group's column.
    pub closed spec fn rows(&self) -> Seq<RowView> {
        self.file.view_columns()[self.column as int].0
    }

    /// The file of the group.
    pub closed spec fn source(&self) -> LayerFile<K, A> {
        *self.file
    }

    pub closed spec fn column(&self) -> int {
        self.column as int
    }

    /// The group is rows `lo..hi` of its column.
    pub closed spec fn lo(&self) -> int {
        self.lo as int
    }

    pub closed spec fn hi(&self) -> int {
        self.hi as int
    }

    pub closed spec fn well_formed(&self) -> bool {
        &&& self.file.well_formed()
        &&& self.column < self.file.view_columns().len()
        &&& self.lo <= self.hi <= self.rows().len()
        &&& ascending(self.rows(), self.lo as int, self.hi as int)
        &&& self.file.columns@.len() == self.file.view_columns().len()
    }

    /// The number of rows.
    pub fn len(&self) -> (r: u64)
        requires
            self.well_formed(),
        ensures
            r == self.hi() - self.lo(),
    {
        (self.hi - self.lo) as u64
    }

    pub fn is_empty(&self) -> (r: bool)
        requires
            self.well_formed(),
        ensures
            r == (self.hi() == self.lo()),
    {
        self.hi == self.lo
    }

    /// The rows `lo..hi` of this group, counted from its first row.
    pub fn subset(&self, lo: u64, hi: u64) -> (r: RowGroup<'a, K, A>)
        requires
            self.well_formed(),
            lo <= hi <= self.hi() - self.lo(),
        ensures
            r.well_formed(),
            r.rows() == self.rows(),
            r.column() == self.column(),
            r.source() == self.source(),
            r.lo() == self.lo() + lo,
            r.hi() == self.lo() + hi,
    {
        RowGroup { file: self.file, column: self.column, lo: self.lo + lo as usize, hi: self.lo + hi as usize }
    }

    /// A cursor at row `k` of the group, or past its end.
    pub fn nth(&self, k: u64) -> (r: LayerCursor<'a, K, A>)
        requires
            self.well_formed(),
        ensures
            r.well_formed(),
            r.rows() == self.rows(),
            r.column() == self.column(),
            r.source() == self.source(),
            r.lo() == self.lo(),
            r.hi() == self.hi(),
            r.row() == if k < self.hi() - self.lo() {
                Some(self.lo() + k)
            } else {
                None::<int>
            },
            !r.before(),
    {
        let pos = if k < (self.hi - self.lo) as u64 {
            self.lo + k as usize
        } else {
            self.hi
        };
        LayerCursor { file: self.file, column: self.column, lo: self.lo, hi: self.hi, pos, before: false }
    }

    /// A cursor at the first row (past the end for an empty group).
    pub fn first(&self) -> (r: LayerCursor<'a, K, A>)
        requires
            self.well_formed(),
        ensures
            r.well_formed(),
            r.rows() == self.rows(),
            r.column() == self.column(),
            r.source() == self.source(),
            r.lo() == self.lo(),
            r.hi() == self.hi(),
            r.row() == if self.lo() < self.hi() {
                Some(self.lo())
            } else {
                None::<int>
            },
            !r.before(),
    {
        self.nth(0)
    }

    /// A cursor at the last row (before the start for an empty group).
    pub fn last(&self) -> (r: LayerCursor<'a, K, A>)
        requires
            self.well_formed(),
        ensures
            r.well_formed(),
            r.rows() == self.rows(),
            r.column() == self.column(),
            r.source() == self.source(),
            r.lo() == self.lo(),
            r.hi() == self.hi(),
            r.row() == if self.lo() < self.hi() {
                Some(self.hi() - 1)
            } else {
                None::<int>
            },
            r.before() == (self.lo() >= self.hi()),
    {
        if self.lo < self.hi {
            LayerCursor { file: self.file, column: self.column, lo: self.lo, hi: self.hi, pos: self.hi - 1, before: false }
        } else {
            LayerCursor { file: self.file, column: self.column, lo: self.lo, hi: self.hi, pos: self.lo, before: true }
        }
    }
}

/// A cursor over a row group.  It is at a row, before the first row, or
/// past the last one.
pub struct LayerCursor<'a, K, A> {
    file: &'a LayerFile<K, A>,
    column: usize,
    lo: usize,
    hi: usize,
    pos: usize,
    before: bool,
}

impl<'a, K: DBData, A: DBData> LayerCursor<'a, K, A> {
    pub closed spec fn rows(&self) -> Seq<RowView> {
        self.file.view_columns()[self.column as int].0
    }

    /// The file under the cursor.
    pub closed spec fn source(&self) -> LayerFile<K, A> {
        *self.file
    }

    pub closed spec fn column(&self) -> int {
        self.column as int
    }

    pub closed spec fn lo(&self) -> int {
        self.lo as int
    }

    pub closed spec fn hi(&self) -> int {
        self.hi as int
    }

    /// The key stored at row `p` of the column.
    pub closed spec fn key_at(&self, p: int) -> K {
        layer_key(*self.file, self.column as int, p)
    }

    /// The current row, if the cursor is at one.
    pub closed spec fn row(&self) -> Option<int> {
        if !self.before && self.pos < self.hi {
            Some(self.pos as int)
        } else {
            None
        }
    }

    /// The cursor is before the first row.
    pub closed spec fn before(&self) -> bool {
        self.before
    }

    pub closed spec fn well_formed(&self) -> bool {
        &&& self.file.well_formed()
        &&& self.column < self.file.view_columns().len()
        &&& self.file.columns@.len() == self.file.view_columns().len()
        &&& self.lo <= self.pos <= self.hi <= self.rows().len()
        &&& self.before ==> self.pos == self.lo
        &&& ascending(self.rows(), self.lo as int, self.hi as int)
    }

    proof fn lemma_key_at(&self, p: int)
        requires
            self.well_formed(),
            0 <= p < self.rows().len(),
        ensures
            self.key_at(p).repr() == self.rows()[p].0,
    {
        let cs = self.file.columns@;
        assert(self.file.view_columns()[self.column as int] == column_view(cs[self.column as int]));
    }


    /// How the raw position, the before-start mark and the stored keys
    /// relate to `row()` and `rows()`.
    pub proof fn lemma_view(&self)
        requires
            self.well_formed(),
        ensures
            self.lo() <= self.pos_spec() <= self.hi() <= self.rows().len(),
            self.before() ==> self.pos_spec() == self.lo(),
            self.row() == if !self.before() && self.pos_spec() < self.hi() {
                Some(self.pos_spec())
            } else {
                None::<int>
            },
            forall|p: int| 0 <= p < self.rows().len() ==> (#[trigger] self.key_at(p)).repr() == self.rows()[p].0,
    {
        assert forall|p: int| 0 <= p < self.rows().len() implies (#[trigger] self.key_at(p)).repr() == self.rows()[p].0 by {
            self.lemma_key_at(p);
        }
    }

    /// The current row's key and auxiliary datum.
    pub fn item(&self) -> (r: Option<(K, A)>)
        requires
            self.well_formed(),
        ensures
            match self.row() {
                Some(p) => r is Some && row_view(r.unwrap()) == self.rows()[p],
                None => r is None,
            },
    {
        if !self.before && self.pos < self.hi {
            let t = &self.file.columns[self.column].rows[self.pos];
            proof {
                let cs = self.file.columns@;
                assert(self.file.view_columns()[self.column as int] == column_view(cs[self.column as int]));
            }
            Some((t.0.duplicate(), t.1.duplicate()))
        } else {
            None
        }
    }

    /// Whether the cursor is at a row.
    pub fn has_value(&self) -> (r: bool)
        requires
            self.well_formed(),
        ensures
            r == self.row().is_some(),
    {
        !self.before && self.pos < self.hi
    }

    /// The number of rows of the group.
    pub fn n_rows(&self) -> (r: u64)
        requires
            self.well_formed(),
        ensures
            r == self.hi() - self.lo(),
    {
        (self.hi - self.lo) as u64
    }

    /// The current row's index within the group (the group's size past
    /// its end, 0 before its start).
    pub fn position(&self) -> (r: u64)
        requires
            self.well_formed(),
        ensures
            match self.row() {
                Some(p) => r == p - self.lo(),
                None => r == (if self.before() {
                    0
                } else {
                    self.hi() - self.lo()
                }),
            },
    {
        (self.pos - self.lo) as u64
    }

    /// Steps to the next row; from the last row, past the end.
    pub fn move_next(&mut self)
        requires
            old(self).well_formed(),
        ensures
            final(self).well_formed(),
            final(self).rows() == old(self).rows() && final(self).lo() == old(self).lo() && final(self).hi() == old(self).hi() && final(self).column() == old(self).column() && final(self).source() == old(self).source(),
            !final(self).before(),
            final(self).row() == if old(self).before() {
                if old(self).lo() < old(self).hi() {
                    Some(old(self).lo())
                } else {
                    None::<int>
                }
            } else {
                match old(self).row() {
                    Some(p) => if p + 1 < old(self).hi() {
                        Some(p + 1)
                    } else {
                        None::<int>
                    },
                    None => None::<int>,
                }
            },
    {
        if self.before {
            self.before = false;
        } else if self.pos < self.hi {
            self.pos = self.pos + 1;
        }
    }

    /// Steps to the previous row; from the first row, before the start.
    pub fn move_prev(&mut self)
        requires
            old(self).well_formed(),
        ensures
            final(self).well_formed(),
            final(self).rows() == old(self).rows() && final(self).lo() == old(self).lo() && final(self).hi() == old(self).hi() && final(self).column() == old(self).column() && final(self).source() == old(self).source(),
            final(self).row() == if old(self).before() {
                None::<int>
            } else if old(self).row() is None {
                if old(self).lo() < old(self).hi() {
                    Some(old(self).hi() - 1)
                } else {
                    None::<int>
                }
            } else if old(self).row().unwrap() > old(self).lo() {
                Some(old(self).row().unwrap() - 1)
            } else {
                None::<int>
            },
            final(self).row() is None && !old(self).before() && old(self).row() is Some ==> final(self).before(),
    {
        if self.before {
        } else if self.pos == self.lo {
            self.before = true;
        } else {
            self.pos = self.pos - 1;
        }
    }

    /// Moves to the group's first row.
    pub fn move_first(&mut self)
        requires
            old(self).well_formed(),
        ensures
            final(self).well_formed(),
            final(self).rows() == old(self).rows() && final(self).lo() == old(self).lo() && final(self).hi() == old(self).hi() && final(self).column() == old(self).column() && final(self).source() == old(self).source(),
            final(self).row() == if old(self).lo() < old(self).hi() {
                Some(old(self).lo())
            } else {
                None::<int>
            },
            !final(self).before(),
    {
        self.pos = self.lo;
        self.before = false;
    }

    /// Moves to the group's last row.
    pub fn move_last(&mut self)
        requires
            old(self).well_formed(),
        ensures
            final(self).well_formed(),
            final(self).rows() == old(self).rows() && final(self).lo() == old(self).lo() && final(self).hi() == old(self).hi() && final(self).column() == old(self).column() && final(self).source() == old(self).source(),
            final(self).row() == if old(self).lo() < old(self).hi() {
                Some(old(self).hi() - 1)
            } else {
                None::<int>
            },
            final(self).before() == (old(self).lo() >= old(self).hi()),
    {
        if self.lo < self.hi {
            self.pos = self.hi - 1;
            self.before = false;
        } else {
            self.pos = self.lo;
            self.before = true;
        }
    }

    /// Moves to row `row` of the group, or past its end.
    pub fn move_to_row(&mut self, row: u64)
        requires
            old(self).well_formed(),
        ensures
            final(self).well_formed(),
            final(self).rows() == old(self).rows() && final(self).lo() == old(self).lo() && final(self).hi() == old(self).hi() && final(self).column() == old(self).column() && final(self).source() == old(self).source(),
            final(self).row() == if row < old(self).hi() - old(self).lo() {
                Some(old(self).lo() + row)
            } else {
                None::<int>
            },
            !final(self).before(),
    {
        self.before = false;
        if row < (self.hi - self.lo) as u64 {
            self.pos = self.lo + row as usize;
        } else {
            self.pos = self.hi;
        }
    }

    /// Index of the first row of `lo..hi` whose key is not less than
    /// `key` (`hi` if none).
    fn lower_bound(&self, key: &K, lo: usize, hi: usize, strict: bool) -> (r: usize)
        requires
            self.well_formed(),
            self.lo() <= lo <= hi <= self.hi(),
        ensures
            lo <= r <= hi,
            forall|j: int| lo <= j < r ==> #[trigger] below(self.rows()[j].0, key.repr(), strict),
            forall|j: int| r <= j < hi ==> !#[trigger] below(self.rows()[j].0, key.repr(), strict),
    {
        let ghost rows = self.rows();
        let mut a = lo;
        let mut b = hi;
        while a < b
            invariant
                self.well_formed(),
                rows == self.rows(),
                lo <= a <= b <= hi,
                self.lo() <= lo,
                hi <= self.hi(),
                forall|j: int| lo <= j < a ==> #[trigger] below(rows[j].0, key.repr(), strict),
                forall|j: int| b <= j < hi ==> !#[trigger] below(rows[j].0, key.repr(), strict),
            decreases b - a,
        {
            let m = a + (b - a) / 2;
            let c = self.file.columns[self.column].rows[m].0.compare(key);
            proof {
                self.lemma_key_at(m as int);
            }
            let is_below = match c {
                core::cmp::Ordering::Less => true,
                core::cmp::Ordering::Equal => !strict,
                core::cmp::Ordering::Greater => false,
            };
            proof {
                assert(is_below == below(rows[m as int].0, key.repr(), strict));
            }
            if is_below {
                proof {
                    assert forall|j: int| lo <= j < m + 1 implies #[trigger] below(rows[j].0, key.repr(), strict) by {
                        if j >= a && j < m {
                            assert(seq_lt(rows[j].0, rows[m as int].0));
                            lemma_below_down(rows[j].0, rows[m as int].0, key.repr(), strict);
                        }
                    }
                }
                a = m + 1;
            } else {
                proof {
                    assert forall|j: int| m <= j < hi implies !#[trigger] below(rows[j].0, key.repr(), strict) by {
                        if j > m && j < b {
                            assert(seq_lt(rows[m as int].0, rows[j].0));
                            lemma_below_down(rows[m as int].0, rows[j].0, key.repr(), strict);
                        }
                    }
                }
                b = m;
            }
        }
        a
    }

    /// Moves to the first row of the group whose key is not less than
    /// `key`, or past the end if there is none.
    pub fn advance_to_value_or_larger(&mut self, key: &K)
        requires
            old(self).well_formed(),
        ensures
            final(self).well_formed(),
            final(self).rows() == old(self).rows() && final(self).lo() == old(self).lo() && final(self).hi() == old(self).hi() && final(self).column() == old(self).column() && final(self).source() == old(self).source(),
            !final(self).before(),
            match final(self).row() {
                Some(p) => old(self).lo() <= p < old(self).hi() && !seq_lt(final(self).rows()[p].0, key.repr())
                    && forall|j: int| old(self).lo() <= j < p ==> seq_lt((#[trigger] final(self).rows()[j]).0, key.repr()),
                None => forall|j: int| old(self).lo() <= j < old(self).hi() ==> seq_lt((#[trigger] final(self).rows()[j]).0, key.repr()),
            },
    {
        let p = self.lower_bound(key, self.lo, self.hi, true);
        proof {
            assert forall|j: int| self.lo <= j < p implies seq_lt((#[trigger] self.rows()[j]).0, key.repr()) by {
                assert(below(self.rows()[j].0, key.repr(), true));
            }
            if p < self.hi {
                assert(!below(self.rows()[p as int].0, key.repr(), true));
            }
        }
        self.pos = p;
        self.before = false;
    }

    /// Moves to the last row of the group whose key is not greater than
    /// `key`, or before the start if there is none.
    pub fn rewind_to_value_or_smaller(&mut self, key: &K)
        requires
            old(self).well_formed(),
        ensures
            final(self).well_formed(),
            final(self).rows() == old(self).rows() && final(self).lo() == old(self).lo() && final(self).hi() == old(self).hi() && final(self).column() == old(self).column() && final(self).source() == old(self).source(),
            match final(self).row() {
                Some(p) => old(self).lo() <= p < old(self).hi() && !seq_lt(key.repr(), final(self).rows()[p].0)
                    && forall|j: int| p < j < old(self).hi() ==> seq_lt(key.repr(), (#[trigger] final(self).rows()[j]).0),
                None => final(self).before() && forall|j: int| old(self).lo() <= j < old(self).hi() ==> seq_lt(key.repr(), (#[trigger] final(self).rows()[j]).0),
            },
    {
        let p = self.lower_bound(key, self.lo, self.hi, false);
        proof {
            assert forall|j: int| self.lo <= j < p implies !seq_lt(key.repr(), #[trigger] self.rows()[j].0) by {
                assert(below(self.rows()[j].0, key.repr(), false));
                if seq_lt(self.rows()[j].0, key.repr()) {
                    lemma_seq_lt_asymmetric(self.rows()[j].0, key.repr());
                } else {
                    crate::order::lemma_seq_lt_irreflexive(key.repr());
                }
            }
            assert forall|j: int| p <= j < self.hi implies seq_lt(key.repr(), #[trigger] self.rows()[j].0) by {
                assert(!below(self.rows()[j].0, key.repr(), false));
                lemma_seq_lt_trichotomy(self.rows()[j].0, key.repr());
            }
        }
        if p == self.lo {
            self.pos = self.lo;
            self.before = true;
        } else {
            self.pos = p - 1;
            self.before = false;
        }
    }

    /// Moves forward, from the current row (or the first, from before the
    /// start), to the first row whose key satisfies `predicate`, or past
    /// the end.
    pub fn seek_forward_until<P: Fn(&K) -> bool>(&mut self, predicate: P)
        requires
            old(self).well_formed(),
            forall|k: &K| #[trigger] predicate.requires((k,)),
        ensures
            final(self).well_formed(),
            final(self).rows() == old(self).rows() && final(self).lo() == old(self).lo() && final(self).hi() == old(self).hi() && final(self).column() == old(self).column() && final(self).source() == old(self).source(),
            !final(self).before(),
            ({
                let from = if old(self).before() { old(self).lo() } else { old(self).pos_spec() };
                &&& forall|j: int| from <= j < final(self).pos_spec() ==> predicate.ensures((&#[trigger] final(self).key_at(j),), false)
                &&& from <= final(self).pos_spec()
                &&& match final(self).row() {
                    Some(p) => p == final(self).pos_spec() && predicate.ensures((&final(self).key_at(p),), true),
                    None => final(self).pos_spec() == old(self).hi(),
                }
            }),
    {
        self.before = false;
        let ghost from = self.pos as int;
        while self.pos < self.hi
            invariant
                self.well_formed(),
                !self.before,
                self.file == old(self).file,
                self.column == old(self).column,
                self.lo == old(self).lo,
                self.hi == old(self).hi,
                from == (if old(self).before() { old(self).lo() } else { old(self).pos_spec() }),
                from <= self.pos,
                forall|k: &K| #[trigger] predicate.requires((k,)),
                forall|j: int| from <= j < self.pos ==> predicate.ensures((&#[trigger] layer_key(*self.file, self.column as int, j),), false),
            decreases self.hi - self.pos,
        {
            let k = &self.file.columns[self.column].rows[self.pos].0;
            assert(*k == self.key_at(self.pos as int));
            let hit = predicate(k);
            if hit {
                return;
            }
            assert(predicate.ensures((&self.key_at(self.pos as int),), false));
            self.pos = self.pos + 1;
        }
    }

    /// Moves backward, from the current row (or the last, from past the
    /// end), to the last row whose key satisfies `predicate`, or before the
    /// start.
    pub fn seek_backward_until<P: Fn(&K) -> bool>(&mut self, predicate: P)
        requires
            old(self).well_formed(),
            forall|k: &K| #[trigger] predicate.requires((k,)),
        ensures
            final(self).well_formed(),
            final(self).rows() == old(self).rows() && final(self).lo() == old(self).lo() && final(self).hi() == old(self).hi() && final(self).column() == old(self).column() && final(self).source() == old(self).source(),
            old(self).before() ==> final(self).before(),
            !old(self).before() ==> ({
                let from = if old(self).pos_spec() < old(self).hi() { old(self).pos_spec() } else { old(self).hi() - 1 };
                &&& forall|j: int| final(self).pos_spec() < j <= from ==> predicate.ensures((&#[trigger] final(self).key_at(j),), false)
                &&& match final(self).row() {
                    Some(p) => p == final(self).pos_spec() && p <= from && predicate.ensures((&final(self).key_at(p),), true),
                    None => final(self).before() && forall|j: int| old(self).lo() <= j <= from ==> predicate.ensures((&#[trigger] final(self).key_at(j),), false),
                }
            }),
    {
        if self.before {
            return;
        }
        if self.pos == self.hi {
            if self.lo == self.hi {
                self.before = true;
                return;
            }
            self.pos = self.hi - 1;
        }
        let ghost from = self.pos as int;
        loop
            invariant
                self.well_formed(),
                !self.before,
                self.file == old(self).file,
                self.column == old(self).column,
                self.lo == old(self).lo,
                self.hi == old(self).hi,
                self.pos < self.hi,
                !old(self).before(),
                from == (if old(self).pos_spec() < old(self).hi() { old(self).pos_spec() } else { old(self).hi() - 1 }),
                self.pos <= from,
                forall|k: &K| #[trigger] predicate.requires((k,)),
                forall|j: int| self.pos < j <= from ==> predicate.ensures((&#[trigger] layer_key(*self.file, self.column as int, j),), false),
            decreases self.pos,
        {
            let k = &self.file.columns[self.column].rows[self.pos].0;
            assert(*k == self.key_at(self.pos as int));
            let hit = predicate(k);
            if hit {
                return;
            }
            assert(predicate.ensures((&self.key_at(self.pos as int),), false));
            if self.pos == self.lo {
                self.before = true;
                return;
            }
            self.pos = self.pos - 1;
        }
    }

    /// The number of columns of the file.
    pub closed spec fn n_columns(&self) -> int {
        self.file.view_columns().len() as int
    }

    /// The raw position: the current row, `lo` before the start, `hi` past
    /// the end.
    pub closed spec fn pos_spec(&self) -> int {
        self.pos as int
    }

    /// The group that the current row owns in the next column.
    pub fn next_column(&self) -> (r: Option<RowGroup<'a, K, A>>)
        requires
            self.well_formed(),
            self.row() is Some,
        ensures
            match r {
                Some(g) => {
                    let cols = self.source().view_columns();
                    let p = self.row().unwrap();
                    &&& g.well_formed()
                    &&& g.source() == self.source()
                    &&& g.column() == self.column() + 1
                    &&& g.rows() == cols[self.column() + 1].0
                    &&& g.lo() == group_lo(cols[self.column()].1, p)
                    &&& g.hi() == cols[self.column()].1[p]
                    &&& g.lo() < g.hi()
                },
                None => self.column() + 1 == self.n_columns(),
            },
    {
        let n = self.file.columns.len();
        if n - self.column <= 1 {
            return None;
        }
        proof {
            lemma_child_group(self.file.view_columns(), self.column as int, self.pos as int);
            assert(self.file.view_columns()[self.column as int] == column_view(self.file.columns@[self.column as int]));
        }
        let ends = &self.file.columns[self.column].ends;
        let lo = if self.pos == 0 { 0 } else { ends[self.pos - 1] };
        let hi = ends[self.pos];
        Some(RowGroup { file: self.file, column: self.column + 1, lo, hi })
    }
}

/// A cursor over rows `lo..hi` of column 0 of a layer file of
/// `(key, weight)` rows, holding a copy of the current row.
pub struct FileColumnLayerCursor<'s, K, R> {
    storage: &'s LayerFile<K, R>,
    item: Option<(K, R)>,
    cursor: LayerCursor<'s, K, R>,
}

impl<'s, K: DBData, R: DBData> FileColumnLayerCursor<'s, K, R> {
    pub closed spec fn rows(&self) -> Seq<RowView> {
        self.cursor.rows()
    }

    pub closed spec fn lo(&self) -> int {
        self.cursor.lo()
    }

    pub closed spec fn hi(&self) -> int {
        self.cursor.hi()
    }

    /// The current row, if any.
    pub closed spec fn row(&self) -> Option<int> {
        self.cursor.row()
    }

    /// The inner cursor is valid, whatever the copy of the current row.
    pub closed spec fn positioned(&self) -> bool {
        &&& self.cursor.well_formed()
        &&& self.cursor.column() == 0
        &&& self.cursor.source() == *self.storage
    }

    pub closed spec fn well_formed(&self) -> bool {
        &&& self.positioned()
        &&& match self.cursor.row() {
            Some(p) => self.item is Some && row_view(self.item.unwrap()) == self.cursor.rows()[p],
            None => self.item is None,
        }
    }

    /// A cursor over rows `bounds.0..bounds.1` of column 0, at row `pos`.
    pub fn new(pos: usize, storage: &'s LayerFile<K, R>, bounds: (usize, usize)) -> (r: Self)
        requires
            storage.well_formed(),
            bounds.0 <= pos,
            bounds.0 <= bounds.1 <= storage.view_columns()[0].0.len(),
        ensures
            r.well_formed(),
            r.rows() == storage.view_columns()[0].0,
            r.lo() == bounds.0,
            r.hi() == bounds.1,
            r.row() == if pos < bounds.1 {
                Some(pos as int)
            } else {
                None::<int>
            },
            !r.before(),
            forall|p: int| #[trigger] r.key_at(p) == layer_key(*storage, 0, p),
    {
        let cursor = storage.rows().subset(bounds.0 as u64, bounds.1 as u64).nth((pos - bounds.0) as u64);
        let item = cursor.item();
        FileColumnLayerCursor { storage, item, cursor }
    }

    fn refresh(&mut self)
        requires
            old(self).positioned(),
        ensures
            final(self).well_formed(),
            final(self).cursor == old(self).cursor,
            final(self).storage == old(self).storage,
    {
        self.item = self.cursor.item();
    }

    /// The current key.
    pub fn current_key(&self) -> (r: &K)
        requires
            self.well_formed(),
            self.row() is Some,
        ensures
            r.repr() == self.rows()[self.row().unwrap()].0,
    {
        &self.item.as_ref().unwrap().0
    }

    /// The current weight.
    pub fn current_diff(&self) -> (r: &R)
        requires
            self.well_formed(),
            self.row() is Some,
        ensures
            r.repr() == self.rows()[self.row().unwrap()].1,
    {
        &self.item.as_ref().unwrap().1
    }

    /// The current row.
    pub fn current_item(&self) -> (r: &(K, R))
        requires
            self.well_formed(),
            self.row() is Some,
        ensures
            row_view(*r) == self.rows()[self.row().unwrap()],
    {
        self.item.as_ref().unwrap()
    }

    /// The current row and its weight, if any.
    pub fn item(&self) -> (r: (&K, &R))
        requires
            self.well_formed(),
            self.row() is Some,
        ensures
            (r.0.repr(), r.1.repr()) == self.rows()[self.row().unwrap()],
    {
        (self.current_key(), self.current_diff())
    }

    /// Takes the current row and steps to the next.
    pub fn take_current_item(&mut self) -> (r: Option<(K, R)>)
        requires
            old(self).well_formed(),
        ensures
            final(self).well_formed(),
            final(self).rows() == old(self).rows() && final(self).lo() == old(self).lo() && final(self).hi() == old(self).hi(),
            match old(self).row() {
                Some(p) => r is Some && row_view(r.unwrap()) == old(self).rows()[p] && final(self).row() == if p + 1 < old(self).hi() {
                    Some(p + 1)
                } else {
                    None::<int>
                },
                None => r is None,
            },
    {
        let item = self.item.take();
        if item.is_some() {
            self.step();
        }
        item
    }

    /// The number of rows in the cursor's range.
    pub fn keys(&self) -> (r: usize)
        requires
            self.well_formed(),
        ensures
            r == self.hi() - self.lo(),
    {
        self.cursor.n_rows() as usize
    }

    /// Whether the cursor is at a row.
    pub fn valid(&self) -> (r: bool)
        requires
            self.well_formed(),
        ensures
            r == self.row().is_some(),
    {
        self.cursor.has_value()
    }

    /// Steps to the next row.
    pub fn step(&mut self)
        requires
            old(self).positioned(),
        ensures
            final(self).well_formed(),
            final(self).rows() == old(self).rows() && final(self).lo() == old(self).lo() && final(self).hi() == old(self).hi(),
            old(self).row() matches Some(p) ==> final(self).row() == if p + 1 < old(self).hi() {
                Some(p + 1)
            } else {
                None::<int>
            },
    {
        self.cursor.move_next();
        self.refresh();
    }

    /// Steps to the previous row.
    pub fn step_reverse(&mut self)
        requires
            old(self).well_formed(),
        ensures
            final(self).well_formed(),
            final(self).rows() == old(self).rows() && final(self).lo() == old(self).lo() && final(self).hi() == old(self).hi(),
            old(self).row() matches Some(p) ==> final(self).row() == if p > old(self).lo() {
                Some(p - 1)
            } else {
                None::<int>
            },
    {
        self.cursor.move_prev();
        self.refresh();
    }

    /// Moves to the first row whose key is not less than `key`.
    pub fn seek(&mut self, key: &K)
        requires
            old(self).well_formed(),
        ensures
            final(self).well_formed(),
            final(self).rows() == old(self).rows() && final(self).lo() == old(self).lo() && final(self).hi() == old(self).hi(),
            match final(self).row() {
                Some(p) => old(self).lo() <= p < old(self).hi() && !seq_lt(final(self).rows()[p].0, key.repr())
                    && forall|j: int| old(self).lo() <= j < p ==> seq_lt((#[trigger] final(self).rows()[j]).0, key.repr()),
                None => forall|j: int| old(self).lo() <= j < old(self).hi() ==> seq_lt((#[trigger] final(self).rows()[j]).0, key.repr()),
            },
    {
        self.cursor.advance_to_value_or_larger(key);
        self.refresh();
    }

    /// Moves to the last row whose key is not greater than `key`.
    pub fn seek_reverse(&mut self, key: &K)
        requires
            old(self).well_formed(),
        ensures
            final(self).well_formed(),
            final(self).rows() == old(self).rows() && final(self).lo() == old(self).lo() && final(self).hi() == old(self).hi(),
            match final(self).row() {
                Some(p) => old(self).lo() <= p < old(self).hi() && !seq_lt(key.repr(), final(self).rows()[p].0)
                    && forall|j: int| p < j < old(self).hi() ==> seq_lt(key.repr(), (#[trigger] final(self).rows()[j]).0),
                None => forall|j: int| old(self).lo() <= j < old(self).hi() ==> seq_lt(key.repr(), (#[trigger] final(self).rows()[j]).0),
            },
    {
        self.cursor.rewind_to_value_or_smaller(key);
        self.refresh();
    }

    /// Moves forward to the first row, from the current one (from the
    /// first, before the start), whose key satisfies `predicate`, or past
    /// the end where none does.
    pub fn seek_with<P: Fn(&K) -> bool>(&mut self, predicate: P)
        requires
            old(self).well_formed(),
            forall|k: &K| #[trigger] predicate.requires((k,)),
        ensures
            final(self).well_formed(),
            final(self).rows() == old(self).rows() && final(self).lo() == old(self).lo() && final(self).hi() == old(self).hi(),
            forall|j: int| #[trigger] final(self).key_at(j) == old(self).key_at(j),
            ({
                let from = old(self).start_index();
                &&& from <= final(self).pos_spec()
                &&& forall|j: int| from <= j < final(self).pos_spec() ==> predicate.ensures((&#[trigger] final(self).key_at(j),), false)
                &&& match final(self).row() {
                    Some(p) => p == final(self).pos_spec() && predicate.ensures((&final(self).key_at(p),), true),
                    None => final(self).pos_spec() == old(self).hi(),
                }
            }),
    {
        self.cursor.seek_forward_until(predicate);
        self.refresh();
    }

    /// Moves backward to the last row, from the current one (from the last,
    /// past the end), whose key satisfies `predicate`, or before the start
    /// where none does.
    pub fn seek_with_reverse<P: Fn(&K) -> bool>(&mut self, predicate: P)
        requires
            old(self).well_formed(),
            forall|k: &K| #[trigger] predicate.requires((k,)),
        ensures
            final(self).well_formed(),
            final(self).rows() == old(self).rows() && final(self).lo() == old(self).lo() && final(self).hi() == old(self).hi(),
            forall|j: int| #[trigger] final(self).key_at(j) == old(self).key_at(j),
            old(self).before() ==> final(self).before() && final(self).row() is None,
            !old(self).before() ==> ({
                let from = old(self).back_index();
                &&& forall|j: int| final(self).pos_spec() < j <= from ==> predicate.ensures((&#[trigger] final(self).key_at(j),), false)
                &&& match final(self).row() {
                    Some(p) => p == final(self).pos_spec() && p <= from && predicate.ensures((&final(self).key_at(p),), true),
                    None => forall|j: int| old(self).lo() <= j <= from ==> predicate.ensures((&#[trigger] final(self).key_at(j),), false),
                }
            }),
    {
        self.cursor.seek_backward_until(predicate);
        self.refresh();
    }


    /// How the raw position, the before-start mark and the stored keys
    /// relate to `row()` and `rows()`.
    pub proof fn lemma_view(&self)
        requires
            self.well_formed(),
        ensures
            self.lo() <= self.pos_spec() <= self.hi() <= self.rows().len(),
            self.before() ==> self.pos_spec() == self.lo(),
            self.row() == if !self.before() && self.pos_spec() < self.hi() {
                Some(self.pos_spec())
            } else {
                None::<int>
            },
            forall|p: int| 0 <= p < self.rows().len() ==> (#[trigger] self.key_at(p)).repr() == self.rows()[p].0,
    {
        self.cursor.lemma_view();
    }

    /// The raw position: the current row, `lo` before the start, `hi` past
    /// the end.
    pub closed spec fn pos_spec(&self) -> int {
        self.cursor.pos_spec()
    }

    /// The cursor is before the first row.
    pub closed spec fn before(&self) -> bool {
        self.cursor.before()
    }

    /// Where a forward seek starts: the current row, or the first row from
    /// before the start.
    pub open spec fn start_index(&self) -> int {
        if self.before() {
            self.lo()
        } else {
            self.pos_spec()
        }
    }

    /// Where a backward seek starts: the current row, or the last row from
    /// past the end.
    pub open spec fn back_index(&self) -> int {
        if self.pos_spec() < self.hi() {
            self.pos_spec()
        } else {
            self.hi() - 1
        }
    }

    /// The key stored at row `p`.
    pub closed spec fn key_at(&self, p: int) -> K {
        self.cursor.key_at(p)
    }

    /// Moves to the first row of the range.
    pub fn rewind(&mut self)
        requires
            old(self).well_formed(),
        ensures
            final(self).well_formed(),
            final(self).rows() == old(self).rows() && final(self).lo() == old(self).lo() && final(self).hi() == old(self).hi(),
            final(self).row() == if old(self).lo() < old(self).hi() {
                Some(old(self).lo())
            } else {
                None::<int>
            },
            !final(self).before(),
            forall|j: int| #[trigger] final(self).key_at(j) == old(self).key_at(j),
    {
        self.cursor.move_first();
        self.refresh();
    }

    /// Moves to the last row of the range.
    pub fn fast_forward(&mut self)
        requires
            old(self).well_formed(),
        ensures
            final(self).well_formed(),
            final(self).rows() == old(self).rows() && final(self).lo() == old(self).lo() && final(self).hi() == old(self).hi(),
            final(self).row() == if old(self).lo() < old(self).hi() {
                Some(old(self).hi() - 1)
            } else {
                None::<int>
            },
            final(self).before() == (old(self).lo() >= old(self).hi()),
            forall|j: int| #[trigger] final(self).key_at(j) == old(self).key_at(j),
    {
        self.cursor.move_last();
        self.refresh();
    }

    /// Moves to row `row` of the range, or past its end.
    pub fn move_to_row(&mut self, row: usize)
        requires
            old(self).well_formed(),
        ensures
            final(self).well_formed(),
            final(self).rows() == old(self).rows() && final(self).lo() == old(self).lo() && final(self).hi() == old(self).hi(),
            final(self).row() == if row < old(self).hi() - old(self).lo() {
                Some(old(self).lo() + row)
            } else {
                None::<int>
            },
    {
        self.cursor.move_to_row(row as u64);
        self.refresh();
    }

    /// The current row's index within the range.
    pub fn position(&self) -> (r: usize)
        requires
            self.well_formed(),
        ensures
            self.row() matches Some(p) ==> r == p - self.lo(),
    {
        self.cursor.position() as usize
    }

    /// Narrows the cursor to rows `lower..upper` of column 0, at the first.
    pub fn reposition(&mut self, lower: usize, upper: usize)
        requires
            old(self).well_formed(),
            lower <= upper <= old(self).rows().len(),
        ensures
            final(self).well_formed(),
            final(self).rows() == old(self).rows(),
            final(self).lo() == lower,
            final(self).hi() == upper,
            final(self).row() == if lower < upper {
                Some(lower as int)
            } else {
                None::<int>
            },
    {
        self.cursor = self.storage.rows().subset(lower as u64, upper as u64).first();
        self.refresh();
    }
}

/// The key stored at row `p` of column `c`.
pub closed spec fn layer_key<K, A>(f: LayerFile<K, A>, c: int, p: int) -> K {
    f.columns@[c].rows@[p].0
}

/// `a` comes before `key`: strictly, or (not strict) also when equal.
pub open spec fn below(a: Seq<int>, key: Seq<int>, strict: bool) -> bool {
    if strict {
        seq_lt(a, key)
    } else {
        seq_lt(a, key) || a == key
    }
}

proof fn lemma_below_down(a: Seq<int>, b: Seq<int>, key: Seq<int>, strict: bool)
    requires
        seq_lt(a, b),
    ensures
        below(b, key, strict) ==> below(a, key, strict),
{
    if below(b, key, strict) {
        if seq_lt(b, key) {
            lemma_seq_lt_transitive(a, b, key);
        }
    }
}

} // verus!
