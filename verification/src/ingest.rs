//! The ingestion boundary's logic: splitting a delimited line into
//! whitespace-trimmed fields, and building a table from a line-oriented
//! source — a header line that becomes the column registry, then one row
//! per line. Reading the source itself is the caller's business; these
//! functions take the lines as plain values.

use crate::table::{Table, TableError};
use vstd::prelude::*;

verus! {

/// The characters `str::trim` strips: Unicode's White_Space set.
pub open spec fn is_ws_char(c: char) -> bool {
    ||| c == ' '
    ||| c == '\t'
    ||| c == '\n'
    ||| c == '\u{0B}'
    ||| c == '\u{0C}'
    ||| c == '\r'
    ||| c == '\u{85}'
    ||| c == '\u{A0}'
    ||| c == '\u{1680}'
    ||| ('\u{2000}' <= c && c <= '\u{200A}')
    ||| c == '\u{2028}'
    ||| c == '\u{2029}'
    ||| c == '\u{202F}'
    ||| c == '\u{205F}'
    ||| c == '\u{3000}'
}

/// Whether `c` is whitespace in the sense of [`is_ws_char`].
pub fn is_ws(c: char) -> (r: bool)
    ensures
        r == is_ws_char(c),
{
    c == ' ' || c == '\t' || c == '\n' || c == '\u{0B}' || c == '\u{0C}' || c == '\r'
        || c == '\u{85}' || c == '\u{A0}' || c == '\u{1680}' || ('\u{2000}' <= c && c
        <= '\u{200A}') || c == '\u{2028}' || c == '\u{2029}' || c == '\u{202F}' || c == '\u{205F}'
        || c == '\u{3000}'
}

/// The sequence without its leading whitespace.
pub open spec fn drop_leading_ws(s: Seq<char>) -> Seq<char>
    decreases s.len(),
{
    if s.len() > 0 && is_ws_char(s[0]) {
        drop_leading_ws(s.drop_first())
    } else {
        s
    }
}

/// The sequence without its trailing whitespace.
pub open spec fn drop_trailing_ws(s: Seq<char>) -> Seq<char>
    decreases s.len(),
{
    if s.len() > 0 && is_ws_char(s.last()) {
        drop_trailing_ws(s.drop_last())
    } else {
        s
    }
}

/// The sequence without leading or trailing whitespace.
pub open spec fn trim_spec(s: Seq<char>) -> Seq<char> {
    drop_trailing_ws(drop_leading_ws(s))
}

/// The fields of `s` split at every occurrence of `d`: always one more
/// field than there are delimiters, so never empty.
pub open spec fn split_spec(s: Seq<char>, d: char) -> Seq<Seq<char>>
    decreases s.len(),
{
    if s.len() == 0 {
        seq![Seq::empty()]
    } else if s[0] == d {
        seq![Seq::<char>::empty()] + split_spec(s.drop_first(), d)
    } else {
        let rest = split_spec(s.drop_first(), d);
        seq![seq![s[0]] + rest[0]] + rest.drop_first()
    }
}

/// The trimmed fields of a delimited line.
pub open spec fn fields_spec(s: Seq<char>, d: char) -> Seq<Seq<char>> {
    split_spec(s, d).map_values(|f: Seq<char>| trim_spec(f))
}

/// A split has at least one field.
pub proof fn lemma_split_len(s: Seq<char>, d: char)
    ensures
        split_spec(s, d).len() >= 1,
    decreases s.len(),
{
    if s.len() > 0 {
        lemma_split_len(s.drop_first(), d);
    }
}

/// Dropping `i` leading whitespace characters leaves the same trim.
proof fn lemma_drop_leading_skip(s: Seq<char>, i: int)
    requires
        0 <= i <= s.len(),
        forall|j: int| 0 <= j < i ==> is_ws_char(#[trigger] s[j]),
        i < s.len() ==> !is_ws_char(s[i]),
    ensures
        drop_leading_ws(s) == s.skip(i),
    decreases i,
{
    if i == 0 {
        assert(s.skip(0) =~= s);
    } else {
        lemma_drop_leading_skip(s.drop_first(), i - 1);
        assert(s.drop_first().skip(i - 1) =~= s.skip(i));
    }
}

/// Keeping everything up to the last non-whitespace character is the same
/// as dropping trailing whitespace.
proof fn lemma_drop_trailing_take(s: Seq<char>, i: int)
    requires
        0 <= i <= s.len(),
        forall|j: int| i <= j < s.len() ==> is_ws_char(#[trigger] s[j]),
        i > 0 ==> !is_ws_char(s[i - 1]),
    ensures
        drop_trailing_ws(s) == s.take(i),
    decreases s.len() - i,
{
    if i == s.len() {
        assert(s.take(i) =~= s);
    } else {
        lemma_drop_trailing_take(s.drop_last(), i);
        assert(s.drop_last().take(i) =~= s.take(i));
    }
}

/// Whitespace is trimmed from both ends: the trim of `s` is its window
/// from the first to the last non-whitespace character.
proof fn lemma_trim_window(s: Seq<char>, lo: int, hi: int)
    requires
        0 <= lo <= hi <= s.len(),
        forall|j: int| 0 <= j < lo ==> is_ws_char(#[trigger] s[j]),
        forall|j: int| hi <= j < s.len() ==> is_ws_char(#[trigger] s[j]),
        lo < hi ==> !is_ws_char(s[lo]) && !is_ws_char(s[hi - 1]),
    ensures
        trim_spec(s) == s.subrange(lo, hi),
{
    if lo == hi {
        lemma_drop_leading_skip(s, s.len() as int);
        assert(drop_leading_ws(s) == s.skip(s.len() as int));
        assert(s.skip(s.len() as int).len() == 0);
        assert(drop_trailing_ws(drop_leading_ws(s)).len() == 0);
        assert(s.subrange(lo, hi) =~= drop_trailing_ws(drop_leading_ws(s)));
    } else {
        lemma_drop_leading_skip(s, lo);
        let mid = s.skip(lo);
        lemma_drop_trailing_take(mid, hi - lo);
        assert(mid.take(hi - lo) =~= s.subrange(lo, hi));
    }
}

/// Trims leading and trailing whitespace from a string slice.
pub fn trim_str(s: &str) -> (r: String)
    ensures
        r@ == trim_spec(s@),
{
    let n = s.unicode_len();
    let mut lo: usize = 0;
    while lo < n
        invariant
            lo <= n,
            n == s@.len(),
            forall|j: int| 0 <= j < lo ==> is_ws_char(#[trigger] s@[j]),
        ensures
            lo <= n,
            n == s@.len(),
            forall|j: int| 0 <= j < lo ==> is_ws_char(#[trigger] s@[j]),
            lo < n ==> !is_ws_char(s@[lo as int]),
        decreases n - lo,
    {
        if !is_ws(s.get_char(lo)) {
            break ;
        }
        lo += 1;
    }
    if lo == n {
        proof {
            lemma_trim_window(s@, n as int, n as int);
        }
        let r = String::new();
        proof {
            assert(r@ =~= s@.subrange(n as int, n as int));
        }
        return r;
    }
    let mut hi: usize = n;
    while hi > lo + 1
        invariant
            lo < hi <= n,
            n == s@.len(),
            forall|j: int| hi <= j < n ==> is_ws_char(#[trigger] s@[j]),
            !is_ws_char(s@[lo as int]),
        ensures
            lo < hi <= n,
            n == s@.len(),
            forall|j: int| hi <= j < n ==> is_ws_char(#[trigger] s@[j]),
            !is_ws_char(s@[lo as int]),
            hi == lo + 1 || !is_ws_char(s@[hi - 1]),
        decreases hi,
    {
        if !is_ws(s.get_char(hi - 1)) {
            break ;
        }
        hi -= 1;
    }
    proof {
        assert(!is_ws_char(s@[hi - 1]));
        lemma_trim_window(s@, lo as int, hi as int);
    }
    let piece = s.substring_char(lo, hi);
    piece.to_owned()
}

/// A split whose input starts with `k` non-delimiter characters and then a
/// delimiter yields that prefix as its first field.
proof fn lemma_split_at_delim(s: Seq<char>, d: char, k: int)
    requires
        0 <= k < s.len(),
        forall|j: int| 0 <= j < k ==> s[j] != d,
        s[k] == d,
    ensures
        split_spec(s, d) == seq![s.take(k)] + split_spec(s.skip(k + 1), d),
    decreases k,
{
    if k == 0 {
        assert(s.take(0) =~= Seq::<char>::empty());
        assert(s.drop_first() =~= s.skip(1));
        assert(split_spec(s, d) =~= seq![s.take(0)] + split_spec(s.skip(1), d));
    } else {
        lemma_split_at_delim(s.drop_first(), d, k - 1);
        lemma_split_len(s.drop_first().skip(k), d);
        assert(s.drop_first().take(k - 1) =~= s.take(k).drop_first());
        assert(s.drop_first().skip(k) =~= s.skip(k + 1));
        let rest = split_spec(s.drop_first(), d);
        assert(rest[0] == s.take(k).drop_first());
        assert(seq![s[0]] + rest[0] =~= s.take(k));
        assert(rest.drop_last().len() >= 0);
        assert(split_spec(s, d) =~= seq![s.take(k)] + split_spec(s.skip(k + 1), d)) by {
            assert(rest.drop_first() =~= split_spec(s.skip(k + 1), d));
        }
    }
}

/// A split of delimiter-free input is the input as its only field.
proof fn lemma_split_no_delim(s: Seq<char>, d: char)
    requires
        forall|j: int| 0 <= j < s.len() ==> s[j] != d,
    ensures
        split_spec(s, d) == seq![s],
    decreases s.len(),
{
    if s.len() == 0 {
        assert(seq![Seq::<char>::empty()] =~~= seq![s]);
    } else {
        lemma_split_no_delim(s.drop_first(), d);
        let rest = split_spec(s.drop_first(), d);
        assert(rest[0] == s.drop_first());
        assert(seq![s[0]] + rest[0] =~= s);
        assert(rest.drop_first() =~= Seq::<Seq<char>>::empty());
        assert(split_spec(s, d) =~= seq![s]);
    }
}

/// Splits `line` at every `delim` and trims whitespace from each field:
/// exactly [`fields_spec`], so always at least one field.
pub fn split_and_trim(line: &str, delim: char) -> (r: Vec<String>)
    ensures
        r.deep_view() == fields_spec(line@, delim),
        r@.len() >= 1,
{
    let ghost tr = |f: Seq<char>| trim_spec(f);
    let n = line.unicode_len();
    let mut out: Vec<String> = Vec::new();
    let mut start: usize = 0;
    let mut i: usize = 0;
    proof {
        assert(line@.skip(0) =~= line@);
        assert(out.deep_view() + split_spec(line@.skip(0), delim).map_values(tr) =~= split_spec(
            line@,
            delim,
        ).map_values(tr));
    }
    while i < n
        invariant
            start <= i <= n,
            n == line@.len(),
            tr == (|f: Seq<char>| trim_spec(f)),
            forall|j: int| start <= j < i ==> line@[j] != delim,
            out.deep_view() + split_spec(line@.skip(start as int), delim).map_values(tr)
                == split_spec(line@, delim).map_values(tr),
        decreases n - i,
    {
        let c = line.get_char(i);
        if c == delim {
            let piece = line.substring_char(start, i);
            let t = trim_str(piece);
            let ghost tv = t@;
            let ghost pre_out = out.deep_view();
            out.push(t);
            proof {
                let suf = line@.skip(start as int);
                assert(suf[i - start] == line@[i as int]);
                assert(forall|j: int| 0 <= j < i - start ==> suf[j] == line@[#[trigger] (j + start)]);
                assert(forall|j: int| 0 <= j < i - start ==> suf[j] != delim);
                lemma_split_at_delim(suf, delim, i - start);
                assert(suf.take(i - start) =~= line@.subrange(start as int, i as int));
                assert(suf.skip(i - start + 1) =~= line@.skip(i + 1));
                assert(tv == tr(suf.take(i - start)));
                assert forall|t2: int| 0 <= t2 < out@.len() implies out.deep_view()[t2]
                    == pre_out.push(tv)[t2] by {
                    assert(out.deep_view()[t2] == out@[t2]@);
                }
                assert(out.deep_view() =~= pre_out.push(tv));
                assert((seq![suf.take(i - start)] + split_spec(line@.skip(i + 1), delim)).map_values(
                    tr,
                ) =~= seq![tr(suf.take(i - start))] + split_spec(line@.skip(i + 1), delim).map_values(
                    tr,
                ));
                assert(out.deep_view() + split_spec(line@.skip(i + 1), delim).map_values(tr)
                    =~= split_spec(line@, delim).map_values(tr));
            }
            start = i + 1;
        }
        i += 1;
    }
    let piece = line.substring_char(start, n);
    let t = trim_str(piece);
    let ghost tv = t@;
    let ghost pre_out = out.deep_view();
    out.push(t);
    proof {
        let suf = line@.skip(start as int);
        assert(forall|j: int| 0 <= j < suf.len() ==> suf[j] == line@[#[trigger] (j + start)]);
        assert(forall|j: int| 0 <= j < suf.len() ==> suf[j] != delim);
        lemma_split_no_delim(suf, delim);
        assert(suf =~= line@.subrange(start as int, n as int));
        assert(tv == tr(suf));
        assert forall|t2: int| 0 <= t2 < out@.len() implies out.deep_view()[t2] == pre_out.push(
            tv,
        )[t2] by {
            assert(out.deep_view()[t2] == out@[t2]@);
        }
        assert(out.deep_view() =~= pre_out.push(tv));
        assert(seq![suf].map_values(tr) =~= seq![tr(suf)]);
        assert(out.deep_view() =~= split_spec(line@, delim).map_values(tr));
        lemma_split_len(line@, delim);
    }
    out
}

/// Builds a table from a line-oriented delimited source: the line at
/// position `skip` becomes the column registry, each later line one row,
/// fields split at `delim` and trimmed. Short and long lines are accepted
/// as they come. Fails with [`TableError::NoHeader`] exactly when no line
/// is left at position `skip`.
pub fn ingest_lines(lines: &Vec<String>, skip: usize, delim: char) -> (r: Result<
    Table,
    TableError,
>)
    ensures
        match r {
            Ok(t) => {
                &&& skip < lines@.len()
                &&& t@.wf()
                &&& t@.shard is None
                &&& t@.name is None
                &&& t@.columns == fields_spec(lines.deep_view()[skip as int], delim)
                &&& t@.latest == lines@.len() - skip - 1
                &&& t@.entries.len() == lines@.len() - skip - 1
                &&& forall|j: int|
                    0 <= j < t@.entries.len() ==> (#[trigger] t@.entries[j]).cells == fields_spec(
                        lines.deep_view()[skip + 1 + j],
                        delim,
                    ) && t@.entries[j].key == j + 1
            },
            Err(e) => e == TableError::NoHeader && skip >= lines@.len(),
        },
{
    if skip >= lines.len() {
        return Err(TableError::NoHeader);
    }
    let header = split_and_trim(lines[skip].as_str(), delim);
    let mut t = Table::new();
    t.import_columns(&header);
    proof {
        assert(lines.deep_view()[skip as int] == lines@[skip as int]@);
        assert(t@.columns == fields_spec(lines.deep_view()[skip as int], delim));
    }
    let n = lines.len();
    let mut i: usize = skip + 1;
    while i < n
        invariant
            skip < i <= n,
            n == lines@.len(),
            t@.wf(),
            t@.shard is None,
            t@.name is None,
            t@.columns == fields_spec(lines.deep_view()[skip as int], delim),
            t@.columns.len() >= 1,
            t@.latest == i - skip - 1,
            t@.entries.len() == i - skip - 1,
            forall|j: int|
                0 <= j < t@.entries.len() ==> (#[trigger] t@.entries[j]).cells == fields_spec(
                    lines.deep_view()[skip + 1 + j],
                    delim,
                ) && t@.entries[j].key == j + 1,
        decreases n - i,
    {
        let row = split_and_trim(lines[i].as_str(), delim);
        proof {
            assert(lines.deep_view()[i as int] == lines@[i as int]@);
        }
        t.add_row(row);
        i += 1;
    }
    Ok(t)
}

/// Builds a table from ready-made records, as a record-oriented reader
/// hands them out: the record at position `skip` becomes the column
/// registry, each later record one row, stored as it comes. Fails with
/// [`TableError::NoHeader`] exactly when no record is left at `skip`.
pub fn from_records(records: &Vec<Vec<String>>, skip: usize) -> (r: Result<Table, TableError>)
    ensures
        match r {
            Ok(t) => {
                &&& skip < records@.len()
                &&& t@.wf()
                &&& t@.shard is None
                &&& t@.name is None
                &&& t@.latest == records@.len() - skip - 1
                &&& t@.entries.len() == records@.len() - skip - 1
                &&& forall|j: int|
                    0 <= j < t@.entries.len() ==> (#[trigger] t@.entries[j]).cells
                        == records.deep_view()[skip + 1 + j] && t@.entries[j].key == j + 1
                &&& records.deep_view()[skip as int].len() > 0 ==> t@.columns
                    == records.deep_view()[skip as int]
            },
            Err(e) => e == TableError::NoHeader && skip >= records@.len(),
        },
{
    if skip >= records.len() {
        return Err(TableError::NoHeader);
    }
    let header = crate::table::clone_row(&records[skip]);
    let mut t = Table::new();
    t.import_columns(&header);
    proof {
        assert(records.deep_view()[skip as int] == records@[skip as int].deep_view());
        assert(t@.columns == records.deep_view()[skip as int]);
    }
    let n = records.len();
    let mut i: usize = skip + 1;
    while i < n
        invariant
            skip < i <= n,
            n == records@.len(),
            t@.wf(),
            t@.shard is None,
            t@.name is None,
            records.deep_view()[skip as int].len() > 0 ==> t@.columns == records.deep_view()[
                skip as int
            ],
            t@.latest == i - skip - 1,
            t@.entries.len() == i - skip - 1,
            forall|j: int|
                0 <= j < t@.entries.len() ==> (#[trigger] t@.entries[j]).cells
                    == records.deep_view()[skip + 1 + j] && t@.entries[j].key == j + 1,
        decreases n - i,
    {
        let row = crate::table::clone_row(&records[i]);
        proof {
            assert(records.deep_view()[i as int] == records@[i as int].deep_view());
        }
        t.add_row(row);
        i += 1;
    }
    Ok(t)
}

} // verus!
