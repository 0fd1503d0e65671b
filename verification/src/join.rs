//! Left join of two tables on a shared column name.
//!
//! Both variants produce, for every row of the left table in storage order,
//! one output row per matching right-table row, in the right table's storage
//! order; a left row without a match contributes nothing. An output row is
//! the left row followed by the matching right row minus its join column.
//! The naive variant scans the right table once per left row; the grouped
//! variant first builds an index from join-column value to the ordered list
//! of right row indices carrying it.

use vstd::prelude::*;

use crate::table::Table;
use crate::table::TableError;
use crate::table::new_empty;

verus! {

/// The character sequences of a vector of strings.
pub open spec fn spec_views(v: Seq<String>) -> Seq<Seq<char>> {
    v.map_values(|s: String| s@)
}

/// Whether some column of `schema` is named `name`.
pub open spec fn spec_has_col(schema: Seq<Seq<char>>, name: Seq<char>) -> bool
    decreases schema.len(),
{
    schema.len() > 0 && (schema[0] == name || spec_has_col(schema.drop_first(), name))
}

/// The first position of the column named `name`; meaningful only when
/// `spec_has_col` holds.
pub open spec fn spec_col_index(schema: Seq<Seq<char>>, name: Seq<char>) -> int
    decreases schema.len(),
{
    if schema.len() == 0 {
        0
    } else if schema[0] == name {
        0
    } else {
        1 + spec_col_index(schema.drop_first(), name)
    }
}

/// A row sequence with the cell at column `c` removed.
pub open spec fn spec_drop_col(row: Seq<Seq<char>>, c: int) -> Seq<Seq<char>> {
    row.take(c) + row.skip(c + 1)
}

/// The schema of a join output: the left schema, then the right schema
/// minus the join column.
pub open spec fn spec_join_schema(sa: Seq<Seq<char>>, sb: Seq<Seq<char>>, cb: int) -> Seq<
    Seq<char>,
> {
    sa + spec_drop_col(sb, cb)
}

/// One output row: the left row, then the matching right row minus its
/// join column.
pub open spec fn spec_join_row(ra: Seq<Seq<char>>, rb: Seq<Seq<char>>, cb: int) -> Seq<
    Seq<char>,
> {
    ra + spec_drop_col(rb, cb)
}

/// The output rows that one left row `ra` contributes: one per right row
/// whose join cell equals `ra`'s, in the right table's row order.
pub open spec fn spec_matches(
    ra: Seq<Seq<char>>,
    rows_b: Seq<Seq<Seq<char>>>,
    ca: int,
    cb: int,
) -> Seq<Seq<Seq<char>>>
    decreases rows_b.len(),
{
    if rows_b.len() == 0 {
        Seq::empty()
    } else {
        let rest = spec_matches(ra, rows_b.drop_last(), ca, cb);
        if rows_b.last()[cb] == ra[ca] {
            rest.push(spec_join_row(ra, rows_b.last(), cb))
        } else {
            rest
        }
    }
}

/// All output rows of the join: the contributions of the left rows in
/// storage order.
pub open spec fn spec_join_rows(
    rows_a: Seq<Seq<Seq<char>>>,
    rows_b: Seq<Seq<Seq<char>>>,
    ca: int,
    cb: int,
) -> Seq<Seq<Seq<char>>>
    decreases rows_a.len(),
{
    if rows_a.len() == 0 {
        Seq::empty()
    } else {
        spec_join_rows(rows_a.drop_last(), rows_b, ca, cb) + spec_matches(
            rows_a.last(),
            rows_b,
            ca,
            cb,
        )
    }
}

/// The equality group of `key` in the right table: the indices, in
/// increasing order, of the rows whose cell in column `cb` equals `key`.
pub open spec fn spec_group(rows_b: Seq<Seq<Seq<char>>>, cb: int, key: Seq<char>) -> Seq<int>
    decreases rows_b.len(),
{
    if rows_b.len() == 0 {
        Seq::empty()
    } else {
        let rest = spec_group(rows_b.drop_last(), cb, key);
        if rows_b.last()[cb] == key {
            rest.push(rows_b.len() - 1)
        } else {
            rest
        }
    }
}

/// One left row's contribution as the grouped-index variant computes it:
/// the rows named by the equality group of its join cell.
pub open spec fn spec_grouped_matches(
    ra: Seq<Seq<char>>,
    rows_b: Seq<Seq<Seq<char>>>,
    ca: int,
    cb: int,
) -> Seq<Seq<Seq<char>>> {
    spec_group(rows_b, cb, ra[ca]).map_values(|bi: int| spec_join_row(ra, rows_b[bi], cb))
}

/// All output rows as the grouped-index variant computes them.
pub open spec fn spec_join_rows_grouped(
    rows_a: Seq<Seq<Seq<char>>>,
    rows_b: Seq<Seq<Seq<char>>>,
    ca: int,
    cb: int,
) -> Seq<Seq<Seq<char>>>
    decreases rows_a.len(),
{
    if rows_a.len() == 0 {
        Seq::empty()
    } else {
        spec_join_rows_grouped(rows_a.drop_last(), rows_b, ca, cb) + spec_grouped_matches(
            rows_a.last(),
            rows_b,
            ca,
            cb,
        )
    }
}

/// Scanning a prefix without finding `name`, then finding it (or running
/// out), pins down `spec_has_col` and `spec_col_index`.
proof fn lemma_col_index_of_prefix(s: Seq<Seq<char>>, name: Seq<char>, i: int)
    requires
        0 <= i <= s.len(),
        forall|k: int| 0 <= k < i ==> s[k] != name,
    ensures
        (i < s.len() && s[i] == name) ==> (spec_has_col(s, name) && spec_col_index(s, name)
            == i),
        i == s.len() ==> !spec_has_col(s, name),
    decreases i,
{
    if i == 0 {
    } else {
        assert(s[0] != name);
        lemma_col_index_of_prefix(s.drop_first(), name, i - 1);
    }
}

/// Where `spec_has_col` holds, the index it names is in range and names
/// the column.
proof fn lemma_col_index_props(s: Seq<Seq<char>>, name: Seq<char>)
    requires
        spec_has_col(s, name),
    ensures
        0 <= spec_col_index(s, name) < s.len(),
        s[spec_col_index(s, name)] == name,
    decreases s.len(),
{
    if s[0] != name {
        lemma_col_index_props(s.drop_first(), name);
    }
}

/// A schema without the column has it at no position.
proof fn lemma_not_has_col(s: Seq<Seq<char>>, name: Seq<char>)
    requires
        !spec_has_col(s, name),
    ensures
        forall|k: int| 0 <= k < s.len() ==> s[k] != name,
    decreases s.len(),
{
    if s.len() > 0 {
        lemma_not_has_col(s.drop_first(), name);
        assert forall|k: int| 0 <= k < s.len() implies s[k] != name by {
            if k > 0 {
                assert(s.drop_first()[k - 1] != name);
            }
        }
    }
}

/// Appending a column name leaves every other lookup unchanged and makes
/// the appended name present.
proof fn lemma_has_col_push(s: Seq<Seq<char>>, x: Seq<char>, name: Seq<char>)
    ensures
        spec_has_col(s.push(x), name) == (spec_has_col(s, name) || x == name),
    decreases s.len(),
{
    if s.len() == 0 {
        assert(s.push(x).drop_first() =~= Seq::<Seq<char>>::empty());
        assert(!spec_has_col(Seq::<Seq<char>>::empty(), name));
        assert(s.push(x)[0] == x);
    } else {
        assert(s.push(x).drop_first() =~= s.drop_first().push(x));
        lemma_has_col_push(s.drop_first(), x, name);
    }
}

/// One more right row extends its key's equality group by its index and
/// leaves every other group unchanged.
proof fn lemma_group_push(rows: Seq<Seq<Seq<char>>>, row: Seq<Seq<char>>, cb: int, key: Seq<char>)
    ensures
        row[cb] == key ==> spec_group(rows.push(row), cb, key) == spec_group(rows, cb, key).push(
            rows.len() as int,
        ),
        row[cb] != key ==> spec_group(rows.push(row), cb, key) == spec_group(rows, cb, key),
{
    assert(rows.push(row).drop_last() =~= rows);
    assert(rows.push(row).last() == row);
}

/// Every index in an equality group is a right-table row index, and the
/// row there carries the key.
proof fn lemma_group_props(rows: Seq<Seq<Seq<char>>>, cb: int, key: Seq<char>)
    ensures
        forall|m: int| 0 <= m < spec_group(rows, cb, key).len() ==> {
            &&& 0 <= spec_group(rows, cb, key)[m] < rows.len()
            &&& rows[spec_group(rows, cb, key)[m]][cb] == key
        },
    decreases rows.len(),
{
    if rows.len() > 0 {
        lemma_group_props(rows.drop_last(), cb, key);
        let t = rows.drop_last();
        let gt = spec_group(t, cb, key);
        let g = spec_group(rows, cb, key);
        assert forall|m: int| 0 <= m < g.len() implies (0 <= g[m] < rows.len() && rows[g[m]][cb]
            == key) by {
            if m < gt.len() {
                assert(0 <= gt[m] < t.len());
                assert(t[gt[m]][cb] == key);
                assert(rows[gt[m]] == t[gt[m]]);
            } else {
                assert(rows.last()[cb] == key);
            }
        }
    }
}

/// A key that no right row carries has an empty equality group.
proof fn lemma_group_empty(rows: Seq<Seq<Seq<char>>>, cb: int, key: Seq<char>)
    requires
        forall|r: int| 0 <= r < rows.len() ==> rows[r][cb] != key,
    ensures
        spec_group(rows, cb, key) == Seq::<int>::empty(),
    decreases rows.len(),
{
    if rows.len() > 0 {
        lemma_group_empty(rows.drop_last(), cb, key);
    }
}

/// One more right row extends one left row's contribution exactly when it
/// matches.
proof fn lemma_matches_push(
    ra: Seq<Seq<char>>,
    rows: Seq<Seq<Seq<char>>>,
    row: Seq<Seq<char>>,
    ca: int,
    cb: int,
)
    ensures
        row[cb] == ra[ca] ==> spec_matches(ra, rows.push(row), ca, cb) == spec_matches(
            ra,
            rows,
            ca,
            cb,
        ).push(spec_join_row(ra, row, cb)),
        row[cb] != ra[ca] ==> spec_matches(ra, rows.push(row), ca, cb) == spec_matches(
            ra,
            rows,
            ca,
            cb,
        ),
{
    assert(rows.push(row).drop_last() =~= rows);
    assert(rows.push(row).last() == row);
}

/// One more left row appends exactly its contribution to the join output.
proof fn lemma_join_rows_push(
    rows_a: Seq<Seq<Seq<char>>>,
    ra: Seq<Seq<char>>,
    rows_b: Seq<Seq<Seq<char>>>,
    ca: int,
    cb: int,
)
    ensures
        spec_join_rows(rows_a.push(ra), rows_b, ca, cb) == spec_join_rows(rows_a, rows_b, ca, cb)
            + spec_matches(ra, rows_b, ca, cb),
{
    assert(rows_a.push(ra).drop_last() =~= rows_a);
    assert(rows_a.push(ra).last() == ra);
}

/// One left row's contribution is exactly what its equality group names:
/// scanning the right table and walking the group emit the same rows in
/// the same order.
pub proof fn lemma_matches_grouped(
    ra: Seq<Seq<char>>,
    rows_b: Seq<Seq<Seq<char>>>,
    ca: int,
    cb: int,
)
    ensures
        spec_grouped_matches(ra, rows_b, ca, cb) == spec_matches(ra, rows_b, ca, cb),
    decreases rows_b.len(),
{
    let key = ra[ca];
    let f = |bi: int| spec_join_row(ra, rows_b[bi], cb);
    if rows_b.len() == 0 {
        assert(spec_group(rows_b, cb, key).map_values(f) =~= Seq::<Seq<Seq<char>>>::empty());
    } else {
        let t = rows_b.drop_last();
        let ft = |bi: int| spec_join_row(ra, t[bi], cb);
        lemma_matches_grouped(ra, t, ca, cb);
        lemma_group_props(t, cb, key);
        let gt = spec_group(t, cb, key);
        assert(gt.map_values(f) =~= gt.map_values(ft));
        if rows_b.last()[cb] == key {
            assert(spec_group(rows_b, cb, key) == gt.push(rows_b.len() - 1));
            assert(spec_group(rows_b, cb, key).map_values(f) =~= gt.map_values(f).push(
                f(rows_b.len() - 1),
            ));
        } else {
            assert(spec_group(rows_b, cb, key) == gt);
        }
    }
}

/// The two join formulations agree: the naive scan and the grouped index
/// produce the same output rows in the same order, for every pair of row
/// sequences and every pair of column positions.
pub proof fn lemma_join_rows_grouped_agree(
    rows_a: Seq<Seq<Seq<char>>>,
    rows_b: Seq<Seq<Seq<char>>>,
    ca: int,
    cb: int,
)
    ensures
        spec_join_rows_grouped(rows_a, rows_b, ca, cb) == spec_join_rows(rows_a, rows_b, ca, cb),
    decreases rows_a.len(),
{
    if rows_a.len() > 0 {
        lemma_join_rows_grouped_agree(rows_a.drop_last(), rows_b, ca, cb);
        lemma_matches_grouped(rows_a.last(), rows_b, ca, cb);
    }
}

/// The first position in `v` holding the string `target`, if any.
#[verifier::loop_isolation(false)]
fn find_string(v: &Vec<String>, target: &String) -> (r: Option<usize>)
    ensures
        (match r {
            Some(i) => {
                &&& spec_has_col(v@.map_values(|s: String| s@), target@)
                &&& spec_col_index(v@.map_values(|s: String| s@), target@) == i as int
                &&& (i as int) < v@.len()
            },
            None => !spec_has_col(v@.map_values(|s: String| s@), target@),
        }),
{
    let ghost m = v@.map_values(|s: String| s@);
    let n = v.len();
    for i in 0..n
        invariant
            forall|k: int| 0 <= k < i ==> m[k] != target@,
    {
        if v[i] == *target {
            proof {
                assert(m[i as int] == v@[i as int]@);
                lemma_col_index_of_prefix(m, target@, i as int);
            }
            return Some(i);
        }
        proof {
            assert(m[i as int] == v@[i as int]@);
        }
    }
    proof {
        lemma_col_index_of_prefix(m, target@, m.len() as int);
    }
    None
}

/// The join output's schema: the left schema, then every right column but
/// the join column, in the right schema's order.
#[verifier::loop_isolation(false)]
fn join_schema_vec(a: &Table, b: &Table, cb: usize) -> (r: Vec<String>)
    requires
        a.wf(),
        b.wf(),
        cb < b.n_cols,
    ensures
        r@.map_values(|s: String| s@) == spec_join_schema(
            a.schema_view(),
            b.schema_view(),
            cb as int,
        ),
        r@.len() == a.n_cols + b.n_cols - 1,
{
    let mut schema: Vec<String> = Vec::new();
    let na = a.schema.len();
    for j in 0..na
        invariant
            schema@.len() == j,
            forall|k: int| 0 <= k < j ==> schema@[k]@ == a.schema_view()[k],
    {
        schema.push(a.schema[j].clone());
        proof {
            assert(a.schema_view()[j as int] == a.schema@[j as int]@);
        }
    }
    let nb = b.schema.len();
    for j in 0..nb
        invariant
            schema@.len() == a.n_cols + (if j <= cb {
                j as int
            } else {
                j - 1
            }),
            forall|k: int| 0 <= k < a.n_cols ==> schema@[k]@ == a.schema_view()[k],
            forall|k: int|
                a.n_cols <= k < schema@.len() && k - a.n_cols < cb ==> schema@[k]@
                    == b.schema_view()[k - a.n_cols],
            forall|k: int|
                a.n_cols <= k < schema@.len() && k - a.n_cols >= cb ==> schema@[k]@
                    == b.schema_view()[k - a.n_cols + 1],
    {
        if j != cb {
            schema.push(b.schema[j].clone());
            proof {
                assert(b.schema_view()[j as int] == b.schema@[j as int]@);
            }
        }
    }
    proof {
        assert(schema@.map_values(|s: String| s@) =~~= spec_join_schema(
            a.schema_view(),
            b.schema_view(),
            cb as int,
        ));
    }
    schema
}

/// The name a join output carries: the two input names joined by an
/// underscore.
fn joined_name(a: &Table, b: &Table) -> (r: String)
    ensures
        r@ == a.name@ + seq!['_'] + b.name@,
{
    let mut name = a.name.clone();
    name.append("_");
    name.append(b.name.as_str());
    proof {
        reveal_strlit("_");
        assert(name@ =~= a.name@ + seq!['_'] + b.name@);
    }
    name
}

/// One output row: a fresh copy of the left row, extended with the right
/// row at index `bi` minus its join column.
#[verifier::loop_isolation(false)]
fn joined_row(row_a: &Vec<String>, b: &Table, bi: usize, cb: usize) -> (r: Vec<String>)
    requires
        b.wf(),
        bi < b.n_rows,
        cb < b.n_cols,
    ensures
        r@.map_values(|s: String| s@) == spec_join_row(
            row_a@.map_values(|s: String| s@),
            b.spec_row(bi as int),
            cb as int,
        ),
        r@.len() == row_a@.len() + b.n_cols - 1,
{
    let ghost ra = row_a@.map_values(|s: String| s@);
    let ghost rb = b.spec_row(bi as int);
    let mut r: Vec<String> = Vec::new();
    let na = row_a.len();
    for k in 0..na
        invariant
            r@.len() == k,
            forall|k2: int| 0 <= k2 < k ==> r@[k2]@ == ra[k2],
    {
        r.push(row_a[k].clone());
        proof {
            assert(ra[k as int] == row_a@[k as int]@);
        }
    }
    for j in 0..b.n_cols
        invariant
            r@.len() == na + (if j <= cb {
                j as int
            } else {
                j - 1
            }),
            forall|k2: int| 0 <= k2 < na ==> r@[k2]@ == ra[k2],
            forall|k2: int|
                na <= k2 < r@.len() && k2 - na < cb ==> r@[k2]@ == rb[k2 - na],
            forall|k2: int|
                na <= k2 < r@.len() && k2 - na >= cb ==> r@[k2]@ == rb[k2 - na + 1],
    {
        if j != cb {
            let c = b.cell_at(bi, j);
            r.push(c);
        }
    }
    proof {
        assert(r@.map_values(|s: String| s@) =~~= spec_join_row(ra, rb, cb as int));
    }
    r
}

impl Table {
    /// Left join by nested scan: for each row here, every row of `other`
    /// is examined in storage order and each match emits one output row.
    /// Fails with `ColumnNotFound` exactly when either schema lacks the
    /// join column.
    #[verifier::loop_isolation(false)]
    pub fn left_join(&self, other: &Table, column: &str) -> (r: Result<Table, TableError>)
        requires
            self.wf(),
            other.wf(),
        ensures
            (match r {
                Ok(t) => {
                    &&& spec_has_col(self.schema_view(), column@)
                    &&& spec_has_col(other.schema_view(), column@)
                    &&& t.wf()
                    &&& t.name@ == self.name@ + seq!['_'] + other.name@
                    &&& t.n_cols == self.n_cols + other.n_cols - 1
                    &&& t.schema_view() == spec_join_schema(
                        self.schema_view(),
                        other.schema_view(),
                        spec_col_index(other.schema_view(), column@),
                    )
                    &&& t.spec_rows() == spec_join_rows(
                        self.spec_rows(),
                        other.spec_rows(),
                        spec_col_index(self.schema_view(), column@),
                        spec_col_index(other.schema_view(), column@),
                    )
                },
                Err(e) => {
                    &&& e == TableError::ColumnNotFound
                    &&& (!spec_has_col(self.schema_view(), column@) || !spec_has_col(
                        other.schema_view(),
                        column@,
                    ))
                },
            }),
    {
        let col = column.to_owned();
        let ca = match find_string(&self.schema, &col) {
            Some(i) => i,
            None => {
                return Err(TableError::ColumnNotFound);
            },
        };
        let cb = match find_string(&other.schema, &col) {
            Some(i) => i,
            None => {
                return Err(TableError::ColumnNotFound);
            },
        };
        proof {
            lemma_col_index_props(self.schema_view(), col@);
            lemma_col_index_props(other.schema_view(), col@);
        }
        let ghost rows_a = self.spec_rows();
        let ghost rows_b = other.spec_rows();
        let schema = join_schema_vec(self, other, cb);
        let name = joined_name(self, other);
        let mut joined = new_empty(name.as_str(), schema);
        proof {
            assert(rows_a.take(0) =~= Seq::<Seq<Seq<char>>>::empty());
        }
        for i in 0..self.n_rows
            invariant
                joined.wf(),
                joined.n_cols == self.n_cols + other.n_cols - 1,
                joined.name@ == self.name@ + seq!['_'] + other.name@,
                joined.schema_view() == spec_join_schema(
                    self.schema_view(),
                    other.schema_view(),
                    cb as int,
                ),
                joined.spec_rows() == spec_join_rows(
                    rows_a.take(i as int),
                    rows_b,
                    ca as int,
                    cb as int,
                ),
        {
            let row_a = self.row_at(i);
            let ghost ra = self.spec_row(i as int);
            let ghost base = joined.spec_rows();
            proof {
                assert(rows_b.take(0) =~= Seq::<Seq<Seq<char>>>::empty());
            }
            for j in 0..other.n_rows
                invariant
                    joined.wf(),
                    joined.n_cols == self.n_cols + other.n_cols - 1,
                    joined.name@ == self.name@ + seq!['_'] + other.name@,
                    joined.schema_view() == spec_join_schema(
                        self.schema_view(),
                        other.schema_view(),
                        cb as int,
                    ),
                    joined.spec_rows() == base + spec_matches(
                        ra,
                        rows_b.take(j as int),
                        ca as int,
                        cb as int,
                    ),
            {
                let c_b = other.cell_at(j, cb);
                proof {
                    assert(rows_b.take(j + 1) =~= rows_b.take(j as int).push(rows_b[j as int]));
                    lemma_matches_push(
                        ra,
                        rows_b.take(j as int),
                        rows_b[j as int],
                        ca as int,
                        cb as int,
                    );
                    assert(rows_b[j as int] == other.spec_row(j as int));
                    assert(rows_b[j as int][cb as int] == c_b@);
                    assert(ra[ca as int] == row_a@.map_values(|s: String| s@)[ca as int]);
                }
                if row_a[ca] == c_b {
                    let new_row = joined_row(&row_a, other, j, cb);
                    joined.push_row(new_row);
                    proof {
                        assert(joined.spec_rows() =~= base + spec_matches(
                            ra,
                            rows_b.take(j + 1),
                            ca as int,
                            cb as int,
                        ));
                    }
                }
            }
            proof {
                assert(rows_b.take(other.n_rows as int) =~= rows_b);
                assert(rows_a.take(i + 1) =~= rows_a.take(i as int).push(rows_a[i as int]));
                lemma_join_rows_push(
                    rows_a.take(i as int),
                    rows_a[i as int],
                    rows_b,
                    ca as int,
                    cb as int,
                );
                assert(rows_a[i as int] == ra);
            }
        }
        proof {
            assert(rows_a.take(self.n_rows as int) =~= rows_a);
        }
        Ok(joined)
    }

    /// Left join through an equality-grouped index: one pass over `other`
    /// builds, for each join-column value, the ordered list of row indices
    /// carrying it; each row here then emits its group's rows directly.
    /// Produces exactly the rows `left_join` produces, in the same order.
    #[verifier::loop_isolation(false)]
    #[verifier::rlimit(100)]
    pub fn left_join_fast(&self, other: &Table, column: &str) -> (r: Result<Table, TableError>)
        requires
            self.wf(),
            other.wf(),
        ensures
            (match r {
                Ok(t) => {
                    &&& spec_has_col(self.schema_view(), column@)
                    &&& spec_has_col(other.schema_view(), column@)
                    &&& t.wf()
                    &&& t.name@ == self.name@ + seq!['_'] + other.name@
                    &&& t.n_cols == self.n_cols + other.n_cols - 1
                    &&& t.schema_view() == spec_join_schema(
                        self.schema_view(),
                        other.schema_view(),
                        spec_col_index(other.schema_view(), column@),
                    )
                    &&& t.spec_rows() == spec_join_rows(
                        self.spec_rows(),
                        other.spec_rows(),
                        spec_col_index(self.schema_view(), column@),
                        spec_col_index(other.schema_view(), column@),
                    )
                },
                Err(e) => {
                    &&& e == TableError::ColumnNotFound
                    &&& (!spec_has_col(self.schema_view(), column@) || !spec_has_col(
                        other.schema_view(),
                        column@,
                    ))
                },
            }),
    {
        let col = column.to_owned();
        let ca = match find_string(&self.schema, &col) {
            Some(i) => i,
            None => {
                return Err(TableError::ColumnNotFound);
            },
        };
        let cb = match find_string(&other.schema, &col) {
            Some(i) => i,
            None => {
                return Err(TableError::ColumnNotFound);
            },
        };
        proof {
            lemma_col_index_props(self.schema_view(), col@);
            lemma_col_index_props(other.schema_view(), col@);
        }
        let ghost rows_a = self.spec_rows();
        let ghost rows_b = other.spec_rows();

        // Build the equality-grouped index over the right table: `keys`
        // holds each distinct join-column value once, `groups[k]` the
        // ordered indices of the rows whose join cell is `keys[k]`.
        let mut keys: Vec<String> = Vec::new();
        let mut groups: Vec<Vec<usize>> = Vec::new();
        for i in 0..other.n_rows
            invariant
                keys@.len() == groups@.len(),
                forall|k1: int, k2: int|
                    0 <= k1 < k2 < keys@.len() ==> keys@[k1]@ != keys@[k2]@,
                forall|k: int|
                    0 <= k < keys@.len() ==> groups@[k]@.map_values(|u: usize| u as int)
                        == spec_group(rows_b.take(i as int), cb as int, keys@[k]@),
                forall|r2: int|
                    0 <= r2 < i ==> #[trigger] spec_has_col(
                        spec_views(keys@),
                        rows_b[r2][cb as int],
                    ),
        {
            let key = other.cell_at(i, cb);
            proof {
                assert(rows_b.take(i + 1) =~= rows_b.take(i as int).push(rows_b[i as int]));
                assert(rows_b[i as int][cb as int] == key@);
            }
            match find_string(&keys, &key) {
                Some(k) => {
                    proof {
                        lemma_col_index_props(keys@.map_values(|s: String| s@), key@);
                        assert(keys@[k as int]@ == key@);
                    }
                    let ghost pre_groups = groups@;
                    groups[k].push(i);
                    proof {
                        assert forall|k2: int| 0 <= k2 < keys@.len() implies groups@[k2]@
                            .map_values(|u: usize| u as int) == spec_group(
                            rows_b.take(i + 1),
                            cb as int,
                            keys@[k2]@,
                        ) by {
                            lemma_group_push(
                                rows_b.take(i as int),
                                rows_b[i as int],
                                cb as int,
                                keys@[k2]@,
                            );
                            if k2 == k as int {
                                assert(groups@[k2]@ =~= pre_groups[k2]@.push(i));
                                assert(groups@[k2]@.map_values(|u: usize| u as int)
                                    =~= pre_groups[k2]@.map_values(|u: usize| u as int).push(
                                    i as int,
                                ));
                            } else {
                                assert(keys@[k2]@ != key@);
                            }
                        }
                        assert forall|r2: int| 0 <= r2 < i + 1 implies spec_has_col(
                            spec_views(keys@),
                            rows_b[r2][cb as int],
                        ) by {
                            if r2 == i as int {
                                assert(rows_b[r2][cb as int] == key@);
                            }
                        }
                    }
                },
                None => {
                    proof {
                        lemma_not_has_col(keys@.map_values(|s: String| s@), key@);
                    }
                    let ghost pre_keys = keys@;
                    proof {
                        assert forall|k1: int| 0 <= k1 < pre_keys.len() implies pre_keys[k1]@
                            != key@ by {
                            assert(pre_keys.map_values(|s: String| s@)[k1] == pre_keys[k1]@);
                        }
                    }
                    keys.push(key);
                    let mut g: Vec<usize> = Vec::new();
                    g.push(i);
                    groups.push(g);
                    proof {
                        assert forall|k2: int| 0 <= k2 < keys@.len() implies groups@[k2]@
                            .map_values(|u: usize| u as int) == spec_group(
                            rows_b.take(i + 1),
                            cb as int,
                            keys@[k2]@,
                        ) by {
                            lemma_group_push(
                                rows_b.take(i as int),
                                rows_b[i as int],
                                cb as int,
                                keys@[k2]@,
                            );
                            if k2 == keys@.len() - 1 {
                                assert(keys@[k2]@ == key@);
                                assert forall|r2: int|
                                    0 <= r2 < rows_b.take(i as int).len() implies rows_b.take(
                                    i as int,
                                )[r2][cb as int] != keys@[k2]@ by {
                                    if rows_b[r2][cb as int] == key@ {
                                        assert(spec_has_col(
                                            spec_views(pre_keys),
                                            rows_b[r2][cb as int],
                                        ));
                                        assert(false);
                                    }
                                }
                                lemma_group_empty(rows_b.take(i as int), cb as int, keys@[k2]@);
                                assert(groups@[k2]@.map_values(|u: usize| u as int) =~= Seq::<
                                    int,
                                >::empty().push(i as int));
                            } else {
                                assert(pre_keys.map_values(|s: String| s@)[k2] != key@);
                                assert(keys@[k2]@ != key@);
                            }
                        }
                        assert forall|r2: int| 0 <= r2 < i + 1 implies spec_has_col(
                            spec_views(keys@),
                            rows_b[r2][cb as int],
                        ) by {
                            assert(spec_views(keys@) =~= spec_views(pre_keys).push(key@));
                            lemma_has_col_push(
                                spec_views(pre_keys),
                                key@,
                                rows_b[r2][cb as int],
                            );
                            if r2 < i as int {
                                assert(spec_has_col(
                                    spec_views(pre_keys),
                                    rows_b[r2][cb as int],
                                ));
                            }
                        }
                    }
                },
            }
        }
        proof {
            assert(rows_b.take(other.n_rows as int) =~= rows_b);
            assert(rows_b.len() == other.n_rows);
            assert forall|r2: int| 0 <= r2 < rows_b.len() implies #[trigger] spec_has_col(
                spec_views(keys@),
                rows_b[r2][cb as int],
            ) by {
                assert(0 <= r2 < other.n_rows as int);
            }
        }

        let schema = join_schema_vec(self, other, cb);
        let name = joined_name(self, other);
        let mut joined = new_empty(name.as_str(), schema);
        proof {
            assert(rows_a.take(0) =~= Seq::<Seq<Seq<char>>>::empty());
        }
        for i in 0..self.n_rows
            invariant
                keys@.len() == groups@.len(),
                forall|k: int|
                    0 <= k < keys@.len() ==> groups@[k]@.map_values(|u: usize| u as int)
                        == spec_group(rows_b, cb as int, keys@[k]@),
                forall|r2: int|
                    0 <= r2 < rows_b.len() ==> #[trigger] spec_has_col(
                        spec_views(keys@),
                        rows_b[r2][cb as int],
                    ),
                joined.wf(),
                joined.n_cols == self.n_cols + other.n_cols - 1,
                joined.name@ == self.name@ + seq!['_'] + other.name@,
                joined.schema_view() == spec_join_schema(
                    self.schema_view(),
                    other.schema_view(),
                    cb as int,
                ),
                joined.spec_rows() == spec_join_rows(
                    rows_a.take(i as int),
                    rows_b,
                    ca as int,
                    cb as int,
                ),
        {
            let row_a = self.row_at(i);
            let key = self.cell_at(i, ca);
            let ghost ra = self.spec_row(i as int);
            let ghost base = joined.spec_rows();
            proof {
                assert(ra[ca as int] == key@);
            }
            match find_string(&keys, &key) {
                None => {
                    proof {
                        assert forall|r2: int| 0 <= r2 < rows_b.len() implies rows_b[r2][cb as int]
                            != key@ by {
                            if rows_b[r2][cb as int] == key@ {
                                assert(spec_has_col(
                                    spec_views(keys@),
                                    rows_b[r2][cb as int],
                                ));
                                assert(false);
                            }
                        }
                        lemma_group_empty(rows_b, cb as int, key@);
                        lemma_matches_grouped(ra, rows_b, ca as int, cb as int);
                        assert(spec_grouped_matches(ra, rows_b, ca as int, cb as int) =~= Seq::<
                            Seq<Seq<char>>,
                        >::empty());
                    }
                },
                Some(k) => {
                    proof {
                        lemma_col_index_props(keys@.map_values(|s: String| s@), key@);
                        assert(keys@[k as int]@ == key@);
                        lemma_group_props(rows_b, cb as int, key@);
                    }
                    let ghost grp = spec_group(rows_b, cb as int, key@);
                    let ghost f = |bi: int| spec_join_row(ra, rows_b[bi], cb as int);
                    let n_matches = groups[k].len();
                    proof {
                        assert(grp.take(0) =~= Seq::<int>::empty());
                        assert(grp.take(0).map_values(f) =~= Seq::<Seq<Seq<char>>>::empty());
                    }
                    for m in 0..n_matches
                        invariant
                            joined.wf(),
                            joined.n_cols == self.n_cols + other.n_cols - 1,
                            joined.name@ == self.name@ + seq!['_'] + other.name@,
                            joined.schema_view() == spec_join_schema(
                                self.schema_view(),
                                other.schema_view(),
                                cb as int,
                            ),
                            joined.spec_rows() == base + grp.take(m as int).map_values(f),
                    {
                        let bi = groups[k][m];
                        proof {
                            assert(groups@[k as int]@.map_values(|u: usize| u as int)[m as int]
                                == grp[m as int]);
                            assert(bi as int == grp[m as int]);
                            assert(0 <= grp[m as int] < rows_b.len());
                            assert(rows_b[bi as int] == other.spec_row(bi as int));
                        }
                        let new_row = joined_row(&row_a, other, bi, cb);
                        joined.push_row(new_row);
                        proof {
                            assert(grp.take(m + 1) =~= grp.take(m as int).push(grp[m as int]));
                            assert(grp.take(m + 1).map_values(f) =~= grp.take(m as int)
                                .map_values(f).push(f(grp[m as int])));
                            assert(joined.spec_rows() =~= base + grp.take(m + 1).map_values(f));
                        }
                    }
                    proof {
                        assert(grp.take(groups@[k as int]@.len() as int) =~= grp);
                        lemma_matches_grouped(ra, rows_b, ca as int, cb as int);
                        assert(spec_grouped_matches(ra, rows_b, ca as int, cb as int)
                            == grp.map_values(f));
                    }
                },
            }
            proof {
                assert(rows_a.take(i + 1) =~= rows_a.take(i as int).push(rows_a[i as int]));
                lemma_join_rows_push(
                    rows_a.take(i as int),
                    rows_a[i as int],
                    rows_b,
                    ca as int,
                    cb as int,
                );
                assert(rows_a[i as int] == ra);
                assert(spec_matches(ra, rows_b, ca as int, cb as int) == spec_grouped_matches(
                    ra,
                    rows_b,
                    ca as int,
                    cb as int,
                )) by {
                    lemma_matches_grouped(ra, rows_b, ca as int, cb as int);
                }
            }
        }
        proof {
            assert(rows_a.take(self.n_rows as int) =~= rows_a);
        }
        Ok(joined)
    }
}

} // verus!
