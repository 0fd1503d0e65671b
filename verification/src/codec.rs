//! The text codec between a table and its on-disk form: line 1 is the
//! comma-separated column names, every further line one comma-separated
//! row, each line ended by a newline. An empty line is not a row; a data
//! line whose cell count differs from the schema's column count is
//! malformed and aborts the parse.

use vstd::prelude::*;

use crate::schema::spec_fields;
use crate::schema::spec_split;
use crate::schema::spec_trim;
use crate::schema::split_plain;
use crate::schema::split_trim_fields;
use crate::table::Table;
use crate::table::TableError;
use crate::table::new_empty;

verus! {

/// The fields joined by the separator: `f0 sep f1 sep ... fn`. No fields
/// yield the empty text.
pub open spec fn spec_join_sep(fields: Seq<Seq<char>>, sep: char) -> Seq<char>
    decreases fields.len(),
{
    if fields.len() == 0 {
        Seq::empty()
    } else if fields.len() == 1 {
        fields[0]
    } else {
        spec_join_sep(fields.drop_last(), sep) + seq![sep] + fields.last()
    }
}

/// The lines each ended by a newline, concatenated.
pub open spec fn spec_render_lines(lines: Seq<Seq<char>>) -> Seq<char>
    decreases lines.len(),
{
    if lines.len() == 0 {
        Seq::empty()
    } else {
        spec_render_lines(lines.drop_last()) + lines.last() + seq!['\n']
    }
}

/// One rendered line per row, in storage order.
pub open spec fn spec_row_lines(t: Table) -> Seq<Seq<char>> {
    t.spec_rows().map_values(|r: Seq<Seq<char>>| spec_join_sep(r, ','))
}

/// A table's lines: the schema line, then one line per row in storage
/// order.
pub open spec fn spec_table_lines(t: Table) -> Seq<Seq<char>> {
    seq![spec_join_sep(t.schema_view(), ',')] + spec_row_lines(t)
}

/// A table's whole file text.
pub open spec fn spec_render(t: Table) -> Seq<char> {
    spec_render_lines(spec_table_lines(t))
}

/// The rows parsed from the lines after the schema line: empty lines are
/// skipped, every other line must have exactly `n_cols` trimmed fields,
/// and any line that does not makes the whole parse fail.
pub open spec fn spec_load_rows(lines: Seq<Seq<char>>, n_cols: int) -> Option<
    Seq<Seq<Seq<char>>>,
>
    decreases lines.len(),
{
    if lines.len() == 0 {
        Some(Seq::empty())
    } else {
        match spec_load_rows(lines.drop_last(), n_cols) {
            None => None,
            Some(rows) => {
                let l = lines.last();
                if l.len() == 0 {
                    Some(rows)
                } else if spec_fields(l).len() == n_cols {
                    Some(rows.push(spec_fields(l)))
                } else {
                    None
                }
            },
        }
    }
}

/// The parse of a whole table file: the schema from the first line, the
/// rows from the rest; `None` exactly when some non-empty data line has a
/// cell count other than the schema's.
pub open spec fn spec_load(text: Seq<char>) -> Option<
    (Seq<Seq<char>>, Seq<Seq<Seq<char>>>),
> {
    let lines = spec_split(text, '\n');
    let schema = spec_fields(lines[0]);
    match spec_load_rows(lines.drop_first(), schema.len() as int) {
        None => None,
        Some(rows) => Some((schema, rows)),
    }
}

/// A field that survives the codec unchanged: free of the two delimiter
/// characters and already trimmed.
pub open spec fn spec_clean_field(f: Seq<char>) -> bool {
    &&& forall|k: int| 0 <= k < f.len() ==> f[k] != ',' && f[k] != '\n'
    &&& spec_trim(f) == f
}

/// The fields of one line, joined by commas, as owned text.
#[verifier::loop_isolation(false)]
fn join_fields(fields: &Vec<String>) -> (r: String)
    ensures
        r@ == spec_join_sep(fields@.map_values(|s: String| s@), ','),
{
    let ghost fs = fields@.map_values(|s: String| s@);
    let mut out = String::new();
    let n = fields.len();
    for k in 0..n
        invariant
            out@ == spec_join_sep(fs.take(k as int), ','),
    {
        proof {
            reveal_strlit(",");
            assert(fs.take(k + 1).drop_last() =~= fs.take(k as int));
            assert(fs.take(k + 1).last() == fields@[k as int]@);
        }
        if k > 0 {
            out.append(",");
        }
        out.append(fields[k].as_str());
        proof {
            if k == 0 {
                assert(out@ == fs.take(1)[0]);
            }
        }
    }
    proof {
        assert(fs.take(n as int) =~= fs);
    }
    out
}

impl Table {
    /// The table's whole file text: the schema line, then one line per
    /// row, each line ended by a newline.
    #[verifier::loop_isolation(false)]
    pub fn to_file_string(&self) -> (r: String)
        requires
            self.wf(),
        ensures
            r@ == spec_render(*self),
    {
        let ghost lines = spec_table_lines(*self);
        let mut out = join_fields(&self.schema);
        out.append("\n");
        proof {
            reveal_strlit("\n");
            assert(spec_render_lines(Seq::<Seq<char>>::empty()) =~= Seq::<char>::empty());
            assert(lines.take(1).drop_last() =~= Seq::<Seq<char>>::empty());
            assert(lines.take(1).last() == lines[0]);
            assert(out@ =~= spec_render_lines(lines.take(1)));
        }
        for i in 0..self.n_rows
            invariant
                out@ == spec_render_lines(lines.take(1 + i as int)),
        {
            let row = self.row_at(i);
            let line = join_fields(&row);
            out.append(line.as_str());
            out.append("\n");
            proof {
                reveal_strlit("\n");
                assert(lines.take(2 + i as int).drop_last() =~= lines.take(1 + i as int));
                assert(lines.take(2 + i as int).last() == lines[1 + i as int]);
                assert(lines[1 + i as int] == spec_row_lines(*self)[i as int]);
                assert(spec_row_lines(*self)[i as int] == spec_join_sep(
                    self.spec_row(i as int),
                    ',',
                ));
                assert(line@ == spec_join_sep(self.spec_row(i as int), ','));
                assert(out@ =~= spec_render_lines(lines.take(2 + i as int)));
            }
        }
        proof {
            assert(lines.take(1 + self.n_rows as int) =~= lines);
        }
        out
    }
}

/// A line list with a bad data line parses to no row list at all.
proof fn lemma_load_rows_has_bad(lines: Seq<Seq<char>>, n_cols: int, j: int)
    requires
        0 <= j < lines.len(),
        lines[j].len() > 0,
        spec_fields(lines[j]).len() != n_cols,
    ensures
        spec_load_rows(lines, n_cols) is None,
    decreases lines.len(),
{
    if j < lines.len() - 1 {
        lemma_load_rows_has_bad(lines.drop_last(), n_cols, j);
    }
}

/// The pure parse of a whole table file, handed its text. Returns the
/// loaded table exactly when `spec_load` succeeds; otherwise reports the
/// first malformed data line with the expected and found cell counts.
#[verifier::loop_isolation(false)]
pub fn load_from_str(name: &str, text: &str) -> (r: Result<Table, TableError>)
    ensures
        r is Ok <==> spec_load(text@) is Some,
        (match r {
            Ok(t) => {
                &&& t.wf()
                &&& t.name@ == name@
                &&& (match spec_load(text@) {
                    Some((schema, rows)) => {
                        &&& t.schema_view() == schema
                        &&& t.n_cols == schema.len()
                        &&& t.spec_rows() == rows
                        &&& t.n_rows == rows.len()
                    },
                    None => false,
                })
            },
            Err(e) => (match e {
                TableError::MalformedRow { line, expected, actual } => {
                    let lines = spec_split(text@, '\n');
                    &&& 1 <= line < lines.len()
                    &&& expected == spec_fields(lines[0]).len()
                    &&& lines[line as int].len() > 0
                    &&& actual == spec_fields(lines[line as int]).len()
                    &&& actual != expected
                    &&& forall|k: int|
                        1 <= k < line ==> (#[trigger] lines[k]).len() == 0 || spec_fields(
                            lines[k],
                        ).len() == expected
                },
                _ => false,
            }),
        }),
{
    let ghost slines = spec_split(text@, '\n');
    let lines = split_plain(text, '\n');
    proof {
        crate::schema::lemma_split_len(text@, '\n');
        assert(lines@[0]@ == slines[0]);
    }
    let schema = split_trim_fields(lines[0].as_str());
    let n_cols = schema.len();
    let mut t = new_empty(name, schema);
    let n_lines = lines.len();
    proof {
        assert(slines.subrange(1, 1) =~= Seq::<Seq<char>>::empty());
    }
    for i in 1..n_lines
        invariant
            1 <= i <= n_lines,
            t.wf(),
            t.name@ == name@,
            t.n_cols == n_cols,
            t.schema_view() == spec_fields(slines[0]),
            spec_load_rows(slines.subrange(1, i as int), n_cols as int) == Some(t.spec_rows()),
            forall|k: int|
                1 <= k < i ==> (#[trigger] slines[k]).len() == 0 || spec_fields(slines[k]).len()
                    == n_cols,
    {
        proof {
            assert(lines@[i as int]@ == slines[i as int]);
            assert(slines.subrange(1, i + 1).drop_last() =~= slines.subrange(1, i as int));
            assert(slines.subrange(1, i + 1).last() == slines[i as int]);
        }
        if !lines[i].as_str().is_empty() {
            let fields = split_trim_fields(lines[i].as_str());
            if fields.len() != n_cols {
                proof {
                    lemma_load_rows_has_bad(
                        slines.drop_first(),
                        n_cols as int,
                        i - 1,
                    );
                }
                return Err(TableError::MalformedRow {
                    line: i,
                    expected: n_cols,
                    actual: fields.len(),
                });
            }
            t.push_row(fields);
        }
    }
    proof {
        assert(slines.subrange(1, n_lines as int) =~= slines.drop_first());
    }
    Ok(t)
}

/// Appending text free of the separator only grows the last field.
proof fn lemma_split_no_sep_append(s: Seq<char>, t: Seq<char>, sep: char)
    requires
        forall|k: int| 0 <= k < t.len() ==> t[k] != sep,
    ensures
        spec_split(s + t, sep) == spec_split(s, sep).update(
            spec_split(s, sep).len() - 1,
            spec_split(s, sep).last() + t,
        ),
    decreases t.len(),
{
    crate::schema::lemma_split_len(s, sep);
    let r = spec_split(s, sep);
    if t.len() == 0 {
        assert(s + t =~= s);
        assert(r.last() + t =~= r.last());
        assert(r.update(r.len() - 1, r.last()) =~= r);
    } else {
        let t0 = t.drop_last();
        lemma_split_no_sep_append(s, t0, sep);
        assert(s + t =~= (s + t0).push(t.last()));
        let r1 = spec_split(s + t0, sep);
        assert((s + t).drop_last() =~= s + t0);
        assert(r1.last() == r.last() + t0);
        assert(r1.update(r1.len() - 1, r1.last().push(t.last())) =~= r.update(
            r.len() - 1,
            r.last() + t,
        )) by {
            assert((r.last() + t0).push(t.last()) =~= r.last() + t);
        }
    }
}

/// A text free of the separator splits to itself alone.
proof fn lemma_split_single(t: Seq<char>, sep: char)
    requires
        forall|k: int| 0 <= k < t.len() ==> t[k] != sep,
    ensures
        spec_split(t, sep) == seq![t],
{
    lemma_split_no_sep_append(Seq::empty(), t, sep);
    assert(Seq::<char>::empty() + t =~= t);
    assert(seq![Seq::<char>::empty()].update(0, Seq::<char>::empty() + t) =~= seq![t]);
}

/// A trailing separator opens a trailing empty field.
proof fn lemma_split_append_sep(s: Seq<char>, sep: char)
    ensures
        spec_split(s + seq![sep], sep) == spec_split(s, sep).push(Seq::<char>::empty()),
{
    assert((s + seq![sep]).drop_last() =~= s);
    assert((s + seq![sep]).last() == sep);
}

/// Splitting undoes joining, for fields free of the separator.
proof fn lemma_split_of_join(fields: Seq<Seq<char>>, sep: char)
    requires
        fields.len() >= 1,
        forall|i: int, k: int|
            0 <= i < fields.len() && 0 <= k < fields[i].len() ==> #[trigger] fields[i][k] != sep,
    ensures
        spec_split(spec_join_sep(fields, sep), sep) == fields,
    decreases fields.len(),
{
    if fields.len() == 1 {
        lemma_split_single(fields[0], sep);
        assert(seq![fields[0]] =~= fields);
    } else {
        let dl = fields.drop_last();
        lemma_split_of_join(dl, sep);
        let j0 = spec_join_sep(dl, sep);
        lemma_split_append_sep(j0, sep);
        assert(j0 + seq![sep] + fields.last() =~= (j0 + seq![sep]) + fields.last());
        lemma_split_no_sep_append(j0 + seq![sep], fields.last(), sep);
        let r1 = spec_split(j0 + seq![sep], sep);
        assert(r1 == dl.push(Seq::<char>::empty()));
        assert(r1.update(r1.len() - 1, r1.last() + fields.last()) =~= fields) by {
            assert(Seq::<char>::empty() + fields.last() =~= fields.last());
        }
    }
}

/// A join of delimiter-free fields holds no newline, and with two or more
/// fields it is never empty.
proof fn lemma_join_sep_chars(fields: Seq<Seq<char>>, sep: char, c: char)
    requires
        c != sep,
        forall|i: int, k: int|
            0 <= i < fields.len() && 0 <= k < fields[i].len() ==> #[trigger] fields[i][k] != c,
    ensures
        forall|k: int|
            0 <= k < spec_join_sep(fields, sep).len() ==> #[trigger] spec_join_sep(fields, sep)[k]
                != c,
        spec_join_sep(fields, sep).len() >= fields.len() - 1,
    decreases fields.len(),
{
    if fields.len() > 1 {
        lemma_join_sep_chars(fields.drop_last(), sep, c);
    }
}

/// Splitting undoes rendering: the rendered lines come back, with one
/// trailing empty line from the final newline.
proof fn lemma_split_of_render(lines: Seq<Seq<char>>)
    requires
        forall|i: int, k: int|
            0 <= i < lines.len() && 0 <= k < lines[i].len() ==> #[trigger] lines[i][k] != '\n',
    ensures
        spec_split(spec_render_lines(lines), '\n') == lines.push(Seq::<char>::empty()),
    decreases lines.len(),
{
    if lines.len() == 0 {
        assert(spec_split(Seq::<char>::empty(), '\n') == seq![Seq::<char>::empty()]);
        assert(seq![Seq::<char>::empty()] =~= lines.push(Seq::<char>::empty()));
    } else {
        let dl = lines.drop_last();
        lemma_split_of_render(dl);
        let r0 = spec_render_lines(dl);
        lemma_split_no_sep_append(r0, lines.last(), '\n');
        let r1 = spec_split(r0 + lines.last(), '\n');
        assert(r1 =~= dl.push(lines.last())) by {
            assert(Seq::<char>::empty() + lines.last() =~= lines.last());
        }
        assert(spec_render_lines(lines) =~= (r0 + lines.last()) + seq!['\n']);
        lemma_split_append_sep(r0 + lines.last(), '\n');
        assert(dl.push(lines.last()).push(Seq::<char>::empty()) =~= lines.push(
            Seq::<char>::empty(),
        ));
    }
}

/// Parsing undoes joining: the trimmed fields of a joined clean row are
/// the row itself.
proof fn lemma_fields_of_join(row: Seq<Seq<char>>)
    requires
        row.len() >= 1,
        forall|j: int| 0 <= j < row.len() ==> spec_clean_field(#[trigger] row[j]),
    ensures
        spec_fields(spec_join_sep(row, ',')) == row,
{
    assert forall|i: int, k: int|
        0 <= i < row.len() && 0 <= k < row[i].len() implies #[trigger] row[i][k] != ',' by {
        assert(spec_clean_field(row[i]));
    }
    lemma_split_of_join(row, ',');
    assert(spec_fields(spec_join_sep(row, ',')) =~= row) by {
        assert forall|j: int| 0 <= j < row.len() implies spec_trim(#[trigger] row[j]) == row[j]
            by {
            assert(spec_clean_field(row[j]));
        }
    }
}

/// Round trip: a well-formed table whose column names and cells are clean
/// (no comma, no newline, no surrounding whitespace) and whose rows render
/// to non-empty lines is recovered exactly, schema and rows, by parsing
/// its own rendered file text.
pub proof fn lemma_render_load_round_trip(t: Table)
    requires
        t.wf(),
        forall|j: int| 0 <= j < t.n_cols ==> spec_clean_field(#[trigger] t.schema_view()[j]),
        forall|i: int, j: int|
            0 <= i < t.n_rows && 0 <= j < t.n_cols ==> spec_clean_field(
                #[trigger] t.spec_cell(i, j),
            ),
        t.n_cols > 1 || (forall|i: int| 0 <= i < t.n_rows ==> t.spec_cell(i, 0).len() > 0),
    ensures
        spec_load(spec_render(t)) == Some((t.schema_view(), t.spec_rows())),
{
    let lines = spec_table_lines(t);
    let rows = t.spec_rows();

    // Every line is free of newlines.
    assert forall|i: int, k: int|
        0 <= i < lines.len() && 0 <= k < lines[i].len() implies #[trigger] lines[i][k] != '\n'
        by {
        if i == 0 {
            assert forall|j: int, k2: int|
                0 <= j < t.schema_view().len() && 0 <= k2 < t.schema_view()[j].len() implies
                #[trigger] t.schema_view()[j][k2] != '\n' by {
                assert(spec_clean_field(t.schema_view()[j]));
            }
            lemma_join_sep_chars(t.schema_view(), ',', '\n');
        } else {
            let row = rows[i - 1];
            assert(lines[i] == spec_join_sep(row, ','));
            assert forall|j: int, k2: int|
                0 <= j < row.len() && 0 <= k2 < row[j].len() implies #[trigger] row[j][k2] != '\n'
                by {
                assert(row[j] == t.spec_cell(i - 1, j));
                assert(spec_clean_field(t.spec_cell(i - 1, j)));
            }
            lemma_join_sep_chars(row, ',', '\n');
        }
    }
    lemma_split_of_render(lines);
    let slines = spec_split(spec_render(t), '\n');
    assert(slines == lines.push(Seq::<char>::empty()));

    // The schema line parses back to the schema.
    assert(slines[0] == spec_join_sep(t.schema_view(), ','));
    lemma_fields_of_join(t.schema_view());
    assert(spec_fields(slines[0]) == t.schema_view());

    // The data lines parse back to the rows, the trailing empty line is
    // skipped.
    let dlines = slines.drop_first();
    assert(dlines =~= spec_row_lines(t).push(Seq::<char>::empty()));
    assert(dlines.drop_last() =~= spec_row_lines(t));
    lemma_load_rows_of_rows(t, rows.len() as int);
    assert(spec_row_lines(t).take(rows.len() as int) =~= spec_row_lines(t));
    assert(rows.take(rows.len() as int) =~= rows);
    assert(spec_load_rows(dlines, t.n_cols as int) == Some(rows));
}

/// The rendered lines of the first `n` rows of a clean table parse back
/// to exactly those rows.
proof fn lemma_load_rows_of_rows(t: Table, n: int)
    requires
        t.wf(),
        0 <= n <= t.n_rows,
        forall|i: int, j: int|
            0 <= i < t.n_rows && 0 <= j < t.n_cols ==> spec_clean_field(
                #[trigger] t.spec_cell(i, j),
            ),
        t.n_cols > 1 || (forall|i: int| 0 <= i < t.n_rows ==> t.spec_cell(i, 0).len() > 0),
    ensures
        spec_load_rows(spec_row_lines(t).take(n), t.n_cols as int) == Some(
            t.spec_rows().take(n),
        ),
    decreases n,
{
    let rows = t.spec_rows();
    if n == 0 {
        assert(spec_row_lines(t).take(0) =~= Seq::<Seq<char>>::empty());
        assert(rows.take(0) =~= Seq::<Seq<Seq<char>>>::empty());
    } else {
        lemma_load_rows_of_rows(t, n - 1);
        let row = rows[n - 1];
        let ls = spec_row_lines(t).take(n);
        assert(ls.drop_last() =~= spec_row_lines(t).take(n - 1));
        assert(ls.last() == spec_join_sep(row, ','));
        assert forall|j: int| 0 <= j < row.len() implies spec_clean_field(#[trigger] row[j]) by {
            assert(row[j] == t.spec_cell(n - 1, j));
        }
        lemma_fields_of_join(row);
        // The rendered line is never empty: with two or more columns it
        // holds a comma, with one column its single cell is non-empty.
        if t.n_cols > 1 {
            lemma_join_sep_chars(row, ',', '\n');
            assert(spec_join_sep(row, ',').len() >= row.len() - 1);
        } else {
            assert(t.spec_cell(n - 1, 0).len() > 0);
            assert(spec_join_sep(row, ',') == row[0]);
        }
        assert(rows.take(n).drop_last() =~= rows.take(n - 1));
        assert(rows.take(n) =~= rows.take(n - 1).push(row));
    }
}

} // verus!
