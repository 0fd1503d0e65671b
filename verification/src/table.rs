//! The in-memory table: an ordered schema of column names and a flat,
//! row-major buffer of cell strings. Cell `(i, j)` lives at index
//! `i * n_cols + j` of `contents`, and after every operation
//! `contents.len() == n_rows * n_cols` holds.

use vstd::prelude::*;

use crate::schema::parse_schema_string;
use crate::schema::spec_fields;

verus! {

/// Everything that an operation on a table can report.
///
/// `AlreadyExists`, `NotFound` and the file-system side of creation and
/// loading belong to the caller that owns the files; the in-memory
/// operations here report `SchemaMismatch`, `MalformedRow` and
/// `ColumnNotFound`.
#[derive(Clone, Copy, Debug, PartialEq, Eq, Structural)]
pub enum TableError {
    /// A table file with the requested name already exists.
    AlreadyExists,
    /// No table file with the requested name exists.
    NotFound,
    /// A row handed to `insert` does not have exactly `n_cols` cells.
    SchemaMismatch,
    /// A data line whose cell count differs from the schema's column count:
    /// the zero-based line index within the file, the column count the
    /// schema demands, and the cell count the line has.
    MalformedRow { line: usize, expected: usize, actual: usize },
    /// The requested join column occurs in neither or only one schema.
    ColumnNotFound,
}

/// One table: its name, its column names, and its cells in one flat
/// row-major buffer.
#[derive(Debug)]
pub struct Table {
    pub name: String,
    pub n_rows: usize,
    pub n_cols: usize,
    pub schema: Vec<String>,
    pub contents: Vec<String>,
}

impl Table {
    /// The column names as character sequences.
    pub open spec fn schema_view(self) -> Seq<Seq<char>> {
        self.schema@.map_values(|s: String| s@)
    }

    /// The cell in row `i`, column `j`.
    pub open spec fn spec_cell(self, i: int, j: int) -> Seq<char> {
        self.contents@[i * self.n_cols + j]@
    }

    /// Row `i` as the sequence of its `n_cols` cells.
    pub open spec fn spec_row(self, i: int) -> Seq<Seq<char>> {
        Seq::new(self.n_cols as nat, |j: int| self.spec_cell(i, j))
    }

    /// All rows, in storage order.
    pub open spec fn spec_rows(self) -> Seq<Seq<Seq<char>>> {
        Seq::new(self.n_rows as nat, |i: int| self.spec_row(i))
    }

    /// Well-formedness: the schema names one column per stored column, the
    /// flat buffer holds exactly `n_rows` complete rows, and a table always
    /// has at least one column (a schema line always parses to at least one
    /// name). Every constructor establishes this and every operation keeps
    /// it.
    pub open spec fn wf(self) -> bool {
        &&& self.schema@.len() == self.n_cols
        &&& self.contents@.len() == self.n_rows * self.n_cols
        &&& self.n_cols >= 1
    }

    /// All parts of a table except the row contents: what a join and an
    /// insert leave untouched.
    pub open spec fn same_shape(self, other: Table) -> bool {
        &&& self.name == other.name
        &&& self.schema == other.schema
        &&& self.n_cols == other.n_cols
    }
}

/// A new empty table whose schema is parsed from a raw comma-separated
/// schema line, as it stands on the first line of a table file.
pub fn new(name: &str, schema_string: &str) -> (t: Table)
    ensures
        t.wf(),
        t.name@ == name@,
        t.schema_view() == spec_fields(schema_string@),
        t.n_cols == spec_fields(schema_string@).len(),
        t.n_rows == 0,
        t.spec_rows() == Seq::<Seq<Seq<char>>>::empty(),
{
    let schema = parse_schema_string(schema_string);
    let n_cols = schema.len();
    let t = Table {
        name: name.to_owned(),
        n_rows: 0,
        n_cols,
        schema,
        contents: Vec::new(),
    };
    proof {
        assert(t.spec_rows() =~= Seq::<Seq<Seq<char>>>::empty());
    }
    t
}

/// A new empty table over an already-parsed schema; touches no file. This
/// is the constructor a join output uses.
pub fn new_empty(name: &str, schema: Vec<String>) -> (t: Table)
    requires
        schema@.len() >= 1,
    ensures
        t.wf(),
        t.name@ == name@,
        t.schema == schema,
        t.n_cols == schema@.len(),
        t.n_rows == 0,
        t.spec_rows() == Seq::<Seq<Seq<char>>>::empty(),
{
    let n_cols = schema.len();
    let t = Table {
        name: name.to_owned(),
        n_rows: 0,
        n_cols,
        schema,
        contents: Vec::new(),
    };
    proof {
        assert(t.spec_rows() =~= Seq::<Seq<Seq<char>>>::empty());
    }
    t
}

impl Table {
    /// Appends a row already known to have exactly `n_cols` cells.
    #[verifier::loop_isolation(false)]
    pub(crate) fn push_row(&mut self, row: Vec<String>)
        requires
            old(self).wf(),
            row@.len() == old(self).n_cols,
        ensures
            final(self).wf(),
            final(self).same_shape(*old(self)),
            final(self).n_rows == old(self).n_rows + 1,
            final(self).spec_rows() == old(self).spec_rows().push(
                row@.map_values(|s: String| s@),
            ),
    {
        let ghost n = old(self).n_rows as int;
        let ghost c = old(self).n_cols as int;
        let ghost row0 = row@;
        let mut row = row;
        self.contents.append(&mut row);
        let len = self.contents.len();
        proof {
            assert(n + 1 <= len) by (nonlinear_arith)
                requires
                    len == n * c + c,
                    c >= 1,
                    n >= 0,
            ;
        }
        self.n_rows = self.n_rows + 1;
        proof {
            let post = *self;
            assert(post.contents@.len() == post.n_rows * post.n_cols) by (nonlinear_arith)
                requires
                    post.contents@.len() == n * c + c,
                    post.n_rows == n + 1,
                    post.n_cols == c,
            ;
            assert forall|i: int| 0 <= i < n implies post.spec_row(i) == old(self).spec_row(i) by {
                assert forall|j: int| 0 <= j < c implies post.spec_cell(i, j) == old(
                    self,
                ).spec_cell(i, j) by {
                    assert(0 <= i * c + j < n * c) by (nonlinear_arith)
                        requires
                            0 <= i < n,
                            0 <= j < c,
                    ;
                }
                assert(post.spec_row(i) =~= old(self).spec_row(i));
            }
            assert forall|j: int| 0 <= j < c implies post.spec_cell(n, j) == row0.map_values(
                |s: String| s@,
            )[j] by {
                assert(n * c + j - n * c == j) by (nonlinear_arith);
                assert(old(self).contents@.len() == n * c);
            }
            assert(post.spec_row(n) =~= row0.map_values(|s: String| s@));
            assert(post.spec_rows() =~= old(self).spec_rows().push(
                row0.map_values(|s: String| s@),
            ));
        }
    }

    /// Validated append: the only mutator. A row with exactly `n_cols`
    /// cells is appended and counted; any other row leaves the table
    /// untouched and reports `SchemaMismatch`.
    pub fn insert(&mut self, row: Vec<String>) -> (r: Result<(), TableError>)
        requires
            old(self).wf(),
        ensures
            final(self).wf(),
            final(self).same_shape(*old(self)),
            row@.len() == old(self).n_cols ==> {
                &&& r == Ok::<(), TableError>(())
                &&& final(self).n_rows == old(self).n_rows + 1
                &&& final(self).spec_rows() == old(self).spec_rows().push(
                    row@.map_values(|s: String| s@),
                )
            },
            row@.len() != old(self).n_cols ==> {
                &&& r == Err::<(), TableError>(TableError::SchemaMismatch)
                &&& *final(self) == *old(self)
            },
    {
        if row.len() != self.n_cols {
            return Err(TableError::SchemaMismatch);
        }
        self.push_row(row);
        Ok(())
    }

    /// The cell in row `i`, column `j`, as an owned copy.
    pub fn cell_at(&self, i: usize, j: usize) -> (r: String)
        requires
            self.wf(),
            i < self.n_rows,
            j < self.n_cols,
        ensures
            r@ == self.spec_cell(i as int, j as int),
    {
        let len = self.contents.len();
        let ghost nr = self.n_rows as int;
        let ghost nc = self.n_cols as int;
        proof {
            assert(0 <= (i as int) * nc + (j as int) < nr * nc) by (nonlinear_arith)
                requires
                    0 <= (i as int) < nr,
                    0 <= (j as int) < nc,
            ;
        }
        let idx = i * self.n_cols + j;
        self.contents[idx].clone()
    }

    /// Row `i` as a fresh vector of owned cell copies; nothing in the
    /// result aliases the table.
    #[verifier::loop_isolation(false)]
    pub fn row_at(&self, i: usize) -> (r: Vec<String>)
        requires
            self.wf(),
            i < self.n_rows,
        ensures
            r@.map_values(|s: String| s@) == self.spec_row(i as int),
            r@.len() == self.n_cols,
    {
        let mut row: Vec<String> = Vec::new();
        for j in 0..self.n_cols
            invariant
                row@.len() == j,
                forall|k: int| 0 <= k < j ==> row@[k]@ == self.spec_cell(i as int, k),
        {
            let c = self.cell_at(i, j);
            row.push(c);
        }
        proof {
            assert(row@.map_values(|s: String| s@) =~= self.spec_row(i as int));
        }
        row
    }

    /// A fresh traversal of the rows, starting at row 0.
    pub fn iter_rows(&self) -> (it: RowIterator<'_>)
        ensures
            it.table == self,
            it.index == 0,
    {
        RowIterator { table: self, index: 0 }
    }
}

/// A forward-only cursor over a table's rows. Each step yields a freshly
/// materialized copy of one row, never a view into the table's buffer.
pub struct RowIterator<'a> {
    pub table: &'a Table,
    pub index: usize,
}

impl<'a> RowIterator<'a> {
    /// The next row in storage order, or `None` once all rows are spent.
    pub fn next(&mut self) -> (r: Option<Vec<String>>)
        requires
            old(self).table.wf(),
        ensures
            final(self).table == old(self).table,
            (match r {
                Some(row) => {
                    &&& old(self).index < old(self).table.n_rows
                    &&& row@.map_values(|s: String| s@) == old(self).table.spec_row(
                        old(self).index as int,
                    )
                    &&& row@.len() == old(self).table.n_cols
                    &&& final(self).index == old(self).index + 1
                },
                None => {
                    &&& old(self).index >= old(self).table.n_rows
                    &&& final(self).index == old(self).index
                },
            }),
    {
        if self.index < self.table.n_rows {
            let row = self.table.row_at(self.index);
            self.index = self.index + 1;
            Some(row)
        } else {
            None
        }
    }
}

} // verus!
