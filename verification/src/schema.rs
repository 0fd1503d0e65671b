//! Field-level text codec: splitting a line on a separator character and
//! trimming whitespace from the ends of each field.
//!
//! A schema line and a data line are both comma-separated lists of fields;
//! the functions here turn such a line into its list of trimmed fields and
//! state exactly which list that is.

use vstd::prelude::*;

verus! {

/// The whitespace characters that field parsing strips from the ends of a
/// field.
pub open spec fn spec_is_space(c: char) -> bool {
    c == ' ' || c == '\t' || c == '\r' || c == '\n'
}

/// Runtime twin of [`spec_is_space`].
pub fn is_space_char(c: char) -> (r: bool)
    ensures
        r == spec_is_space(c),
{
    c == ' ' || c == '\t' || c == '\r' || c == '\n'
}

/// The fields of `s` split on the separator `sep`, in order, commas not
/// consumed by any field. The empty string has one empty field, and a
/// trailing separator yields a trailing empty field.
pub open spec fn spec_split(s: Seq<char>, sep: char) -> Seq<Seq<char>>
    decreases s.len(),
{
    if s.len() == 0 {
        seq![Seq::<char>::empty()]
    } else if s.last() == sep {
        spec_split(s.drop_last(), sep).push(Seq::<char>::empty())
    } else {
        let r = spec_split(s.drop_last(), sep);
        r.update(r.len() - 1, r.last().push(s.last()))
    }
}

/// Splitting always yields at least one field.
pub proof fn lemma_split_len(s: Seq<char>, sep: char)
    ensures
        spec_split(s, sep).len() >= 1,
    decreases s.len(),
{
    if s.len() > 0 {
        lemma_split_len(s.drop_last(), sep);
    }
}

/// `s` with leading whitespace removed.
pub open spec fn spec_trim_front(s: Seq<char>) -> Seq<char>
    decreases s.len(),
{
    if s.len() > 0 && spec_is_space(s.first()) {
        spec_trim_front(s.drop_first())
    } else {
        s
    }
}

/// `s` with trailing whitespace removed.
pub open spec fn spec_trim_back(s: Seq<char>) -> Seq<char>
    decreases s.len(),
{
    if s.len() > 0 && spec_is_space(s.last()) {
        spec_trim_back(s.drop_last())
    } else {
        s
    }
}

/// `s` with whitespace removed from both ends.
pub open spec fn spec_trim(s: Seq<char>) -> Seq<char> {
    spec_trim_back(spec_trim_front(s))
}

/// The parse of one line: its comma-separated fields, each trimmed.
pub open spec fn spec_fields(s: Seq<char>) -> Seq<Seq<char>> {
    spec_split(s, ',').map_values(|t: Seq<char>| spec_trim(t))
}

/// If the first `lo` characters of `s` are whitespace and the one at `lo`
/// (if any) is not, trimming the front of `s` drops exactly those `lo`
/// characters.
proof fn lemma_trim_front_range(s: Seq<char>, lo: int)
    requires
        0 <= lo <= s.len(),
        forall|k: int| 0 <= k < lo ==> spec_is_space(s[k]),
        lo == s.len() || !spec_is_space(s[lo]),
    ensures
        spec_trim_front(s) == s.subrange(lo, s.len() as int),
    decreases lo,
{
    if lo == 0 {
        assert(s.subrange(0, s.len() as int) =~= s);
    } else {
        lemma_trim_front_range(s.drop_first(), lo - 1);
        assert(s.drop_first().subrange(lo - 1, s.len() - 1) =~= s.subrange(lo, s.len() as int));
    }
}

/// If the characters of `s` from `hi` on are whitespace and the one before
/// `hi` (if any) is not, trimming the back of `s` keeps exactly the first
/// `hi` characters.
proof fn lemma_trim_back_range(s: Seq<char>, hi: int)
    requires
        0 <= hi <= s.len(),
        forall|k: int| hi <= k < s.len() ==> spec_is_space(s[k]),
        hi == 0 || !spec_is_space(s[hi - 1]),
    ensures
        spec_trim_back(s) == s.subrange(0, hi),
    decreases s.len() - hi,
{
    if hi == s.len() {
        assert(s.subrange(0, hi) =~= s);
    } else {
        lemma_trim_back_range(s.drop_last(), hi);
        assert(s.drop_last().subrange(0, hi) =~= s.subrange(0, hi));
    }
}

/// A copy of `s` with whitespace removed from both ends.
#[verifier::loop_isolation(false)]
pub fn trim_string(s: &str) -> (r: String)
    ensures
        r@ == spec_trim(s@),
{
    let n = s.unicode_len();
    let mut lo: usize = 0;
    while lo < n && is_space_char(s.get_char(lo))
        invariant
            0 <= lo <= n,
            forall|k: int| 0 <= k < lo ==> spec_is_space(s@[k]),
        decreases n - lo,
    {
        lo = lo + 1;
    }
    let mut hi: usize = n;
    while hi > lo && is_space_char(s.get_char(hi - 1))
        invariant
            lo <= hi <= n,
            forall|k: int| hi <= k < n ==> spec_is_space(s@[k]),
        decreases hi,
    {
        hi = hi - 1;
    }
    let sub = s.substring_char(lo, hi);
    let r = String::from_str(sub);
    proof {
        lemma_trim_front_range(s@, lo as int);
        let t = s@.subrange(lo as int, s@.len() as int);
        lemma_trim_back_range(t, hi - lo);
        assert(t.subrange(0, hi - lo) =~= s@.subrange(lo as int, hi as int));
    }
    r
}

/// Splitting one more character extends the split of the prefix: a separator
/// opens a new empty field, any other character grows the last field.
proof fn lemma_split_push(s: Seq<char>, c: char, sep: char)
    ensures
        c == sep ==> spec_split(s.push(c), sep) == spec_split(s, sep).push(Seq::<char>::empty()),
        c != sep ==> spec_split(s.push(c), sep) == spec_split(s, sep).update(
            spec_split(s, sep).len() - 1,
            spec_split(s, sep).last().push(c),
        ),
{
    assert(s.push(c).drop_last() =~= s);
    assert(s.push(c).last() == c);
}

/// The fields of `s` split on `sep`, as owned strings.
#[verifier::loop_isolation(false)]
pub fn split_plain(s: &str, sep: char) -> (r: Vec<String>)
    ensures
        r@.map_values(|t: String| t@) == spec_split(s@, sep),
{
    let n = s.unicode_len();
    let mut fields: Vec<String> = Vec::new();
    let mut start: usize = 0;
    proof {
        assert(s@.take(0) =~= Seq::<char>::empty());
        assert(fields@.map_values(|t: String| t@).push(s@.subrange(0, 0))
            =~= seq![Seq::<char>::empty()]);
    }
    for j in 0..n
        invariant
            start <= j <= n,
            fields@.map_values(|t: String| t@).push(s@.subrange(start as int, j as int))
                == spec_split(s@.take(j as int), sep),
    {
        proof {
            assert(s@.take(j + 1) =~= s@.take(j as int).push(s@[j as int]));
            lemma_split_push(s@.take(j as int), s@[j as int], sep);
        }
        if s.get_char(j) == sep {
            let ghost pre = fields@.map_values(|t: String| t@);
            let f = String::from_str(s.substring_char(start, j));
            fields.push(f);
            proof {
                assert(fields@.map_values(|t: String| t@) =~= pre.push(f@));
                assert(fields@.map_values(|t: String| t@).push(s@.subrange(j + 1, j + 1))
                    =~~= pre.push(s@.subrange(start as int, j as int)).push(
                    Seq::<char>::empty(),
                ));
            }
            start = j + 1;
        } else {
            proof {
                let m = fields@.map_values(|t: String| t@);
                assert(m.push(s@.subrange(start as int, j + 1)) =~~= m.push(
                    s@.subrange(start as int, j as int),
                ).update(m.len() as int, s@.subrange(start as int, j as int).push(s@[j as int])));
            }
        }
    }
    let f = String::from_str(s.substring_char(start, n));
    fields.push(f);
    proof {
        assert(s@.take(n as int) == s@) by {
            assert(s@.take(n as int) =~= s@);
        }
        assert(fields@.map_values(|t: String| t@)
            =~= fields@.drop_last().map_values(|t: String| t@).push(f@));
    }
    fields
}

/// The trimmed comma-separated fields of one line.
#[verifier::loop_isolation(false)]
pub fn split_trim_fields(line: &str) -> (r: Vec<String>)
    ensures
        r@.map_values(|t: String| t@) == spec_fields(line@),
        r@.len() >= 1,
{
    let raw = split_plain(line, ',');
    let mut out: Vec<String> = Vec::new();
    let n = raw.len();
    for k in 0..n
        invariant
            out@.map_values(|t: String| t@) == spec_fields(line@).take(k as int),
    {
        let t = trim_string(raw[k].as_str());
        out.push(t);
        proof {
            assert(out@.map_values(|t2: String| t2@)
                =~= out@.drop_last().map_values(|t2: String| t2@).push(t@));
            assert(raw@.map_values(|t2: String| t2@)[k as int] == raw@[k as int]@);
            assert(spec_fields(line@).take(k + 1)
                =~= spec_fields(line@).take(k as int).push(spec_fields(line@)[k as int]));
        }
    }
    proof {
        lemma_split_len(line@, ',');
        assert(spec_fields(line@).take(n as int) =~= spec_fields(line@));
    }
    out
}

/// The ordered column names of a raw schema line: its comma-separated
/// fields, each trimmed of surrounding whitespace. Never fails and never
/// yields an empty list; empty and duplicate names are kept as they stand.
pub fn parse_schema_string(schema_string: &str) -> (r: Vec<String>)
    ensures
        r@.map_values(|t: String| t@) == spec_fields(schema_string@),
        r@.len() >= 1,
{
    split_trim_fields(schema_string)
}

} // verus!
