//! The predicate search layer: stateless functions that scan a row
//! collection and keep the rows whose resolved cell at one column position
//! satisfies an equality, inequality or substring predicate against a value
//! set. The scan itself runs on rayon's worker pool; a parallel traversal
//! fixes no result order, so the contracts speak of the result's multiset.

use crate::table::resolved;
use crate::text::{is_substring, str_contains, str_eq};
use rayon::iter::{IntoParallelRefIterator, ParallelIterator};
use vstd::prelude::*;

verus! {

/// The predicate a search applies to the resolved cell.
#[derive(Debug, Clone, Copy, PartialEq, Eq, Structural)]
pub enum MatchMode {
    /// The cell equals one of the given values.
    Eq,
    /// The cell equals none of the given values.
    Ne,
    /// One of the given values occurs inside the cell.
    Contains,
}

/// Whether the cell `cells` resolves at position `col` satisfies `mode`
/// against `values`.
pub open spec fn row_matches(
    mode: MatchMode,
    cells: Seq<Seq<char>>,
    col: int,
    values: Seq<Seq<char>>,
) -> bool {
    let v = resolved(cells, col);
    match mode {
        MatchMode::Eq => values.contains(v),
        MatchMode::Ne => !values.contains(v),
        MatchMode::Contains => exists|i: int|
            0 <= i < values.len() && is_substring(#[trigger] values[i], v),
    }
}

/// The rows of `rowsv` that satisfy `mode` at `col` against `values`, in
/// their original order.
pub open spec fn matching_rows(
    mode: MatchMode,
    rowsv: Seq<Seq<Seq<char>>>,
    col: int,
    values: Seq<Seq<char>>,
) -> Seq<Seq<Seq<char>>> {
    rowsv.filter(|c: Seq<Seq<char>>| row_matches(mode, c, col, values))
}

/// Whether one of `values` equals `cell`.
fn contains_value(values: &Vec<&str>, cell: &str) -> (r: bool)
    ensures
        r == values.deep_view().contains(cell@),
{
    let n = values.len();
    let mut i: usize = 0;
    while i < n
        invariant
            n == values@.len(),
            forall|j: int| 0 <= j < i ==> values.deep_view()[j] != cell@,
        decreases n - i,
    {
        if str_eq(values[i], cell) {
            proof {
                assert(values.deep_view()[i as int] == cell@);
            }
            return true;
        }
        proof {
            assert(values.deep_view()[i as int] != cell@);
        }
        i += 1;
    }
    proof {
        assert(!values.deep_view().contains(cell@));
    }
    false
}

/// Whether one of `values` occurs inside `cell`.
fn contains_substring_value(values: &Vec<&str>, cell: &str) -> (r: bool)
    ensures
        r == exists|i: int|
            0 <= i < values.deep_view().len() && is_substring(
                #[trigger] values.deep_view()[i],
                cell@,
            ),
{
    let n = values.len();
    let mut i: usize = 0;
    while i < n
        invariant
            n == values@.len(),
            forall|j: int| 0 <= j < i ==> !is_substring(#[trigger] values.deep_view()[j], cell@),
        decreases n - i,
    {
        if str_contains(cell, values[i]) {
            proof {
                assert(is_substring(values.deep_view()[i as int], cell@));
            }
            return true;
        }
        i += 1;
    }
    false
}

/// Whether `row`'s resolved cell at `col` satisfies `mode` against
/// `values`. A row too short to reach `col` resolves to the empty string.
pub fn row_satisfies(mode: MatchMode, row: &Vec<String>, col: usize, values: &Vec<&str>) -> (r:
    bool)
    ensures
        r == row_matches(mode, row.deep_view(), col as int, values.deep_view()),
{
    let empty = "";
    let cell: &str = if col < row.len() {
        row[col].as_str()
    } else {
        empty
    };
    proof {
        reveal_strlit("");
        assert(cell@ =~= resolved(row.deep_view(), col as int));
    }
    match mode {
        MatchMode::Eq => contains_value(values, cell),
        MatchMode::Ne => !contains_value(values, cell),
        MatchMode::Contains => contains_substring_value(values, cell),
    }
}

/// Relies on rayon's `par_iter`, `filter`, `cloned` and `collect`: the
/// collected rows are exactly those the verified predicate
/// [`row_satisfies`] accepts, each kept once; the traversal order is the
/// pool's own, so only the multiset of the result is stated.
#[verifier::external_body]
fn par_filter(mode: MatchMode, rows: &Vec<Vec<String>>, col: usize, values: &Vec<&str>) -> (r: Vec<
    Vec<String>,
>)
    ensures
        r.deep_view().to_multiset() == matching_rows(
            mode,
            rows.deep_view(),
            col as int,
            values.deep_view(),
        ).to_multiset(),
{
    rows.par_iter().filter(|row| row_satisfies(mode, row, col, values)).cloned().collect()
}

/// Relies on rayon's `find_first`: the match whose position in the input
/// is lowest, or `None` when no row matches.
#[verifier::external_body]
fn par_find_first(mode: MatchMode, rows: &Vec<Vec<String>>, col: usize, values: &Vec<&str>) -> (r:
    Option<Vec<String>>)
    ensures
        match r {
            Some(row) => exists|i: int|
                0 <= i < rows.deep_view().len() && (#[trigger] rows.deep_view()[i])
                    == row.deep_view() && row_matches(
                    mode,
                    row.deep_view(),
                    col as int,
                    values.deep_view(),
                ) && (forall|j: int|
                    0 <= j < i ==> !row_matches(
                        mode,
                        #[trigger] rows.deep_view()[j],
                        col as int,
                        values.deep_view(),
                    )),
            None => forall|i: int|
                0 <= i < rows.deep_view().len() ==> !row_matches(
                    mode,
                    #[trigger] rows.deep_view()[i],
                    col as int,
                    values.deep_view(),
                ),
        },
{
    rows.par_iter().find_first(|row| row_satisfies(mode, row, col, values)).cloned()
}

/// Relies on rayon's `find_any`: some matching row — whichever a worker
/// reaches first — or `None` exactly when no row matches.
#[verifier::external_body]
fn par_find_any(mode: MatchMode, rows: &Vec<Vec<String>>, col: usize, values: &Vec<&str>) -> (r:
    Option<Vec<String>>)
    ensures
        match r {
            Some(row) => exists|i: int|
                0 <= i < rows.deep_view().len() && (#[trigger] rows.deep_view()[i])
                    == row.deep_view() && row_matches(
                    mode,
                    row.deep_view(),
                    col as int,
                    values.deep_view(),
                ),
            None => forall|i: int|
                0 <= i < rows.deep_view().len() ==> !row_matches(
                    mode,
                    #[trigger] rows.deep_view()[i],
                    col as int,
                    values.deep_view(),
                ),
        },
{
    rows.par_iter().find_any(|row| row_satisfies(mode, row, col, values)).cloned()
}

/// The rows whose cell at `column_index` equals one of `values`.
pub fn rows_eq(rows: &Vec<Vec<String>>, column_index: usize, values: Vec<&str>) -> (r: Vec<
    Vec<String>,
>)
    ensures
        r.deep_view().to_multiset() == matching_rows(
            MatchMode::Eq,
            rows.deep_view(),
            column_index as int,
            values.deep_view(),
        ).to_multiset(),
        r@.len() <= rows@.len(),
{
    let r = par_filter(MatchMode::Eq, rows, column_index, &values);
    proof {
        lemma_matching_len(MatchMode::Eq, rows, column_index as int, values.deep_view(), &r);
    }
    r
}

/// The rows whose cell at `column_index` equals none of `values`.
pub fn rows_ne(rows: &Vec<Vec<String>>, column_index: usize, values: Vec<&str>) -> (r: Vec<
    Vec<String>,
>)
    ensures
        r.deep_view().to_multiset() == matching_rows(
            MatchMode::Ne,
            rows.deep_view(),
            column_index as int,
            values.deep_view(),
        ).to_multiset(),
        r@.len() <= rows@.len(),
{
    let r = par_filter(MatchMode::Ne, rows, column_index, &values);
    proof {
        lemma_matching_len(MatchMode::Ne, rows, column_index as int, values.deep_view(), &r);
    }
    r
}

/// The rows whose cell at `column_index` has one of `values` inside it.
pub fn rows_contains(rows: &Vec<Vec<String>>, column_index: usize, values: Vec<&str>) -> (r: Vec<
    Vec<String>,
>)
    ensures
        r.deep_view().to_multiset() == matching_rows(
            MatchMode::Contains,
            rows.deep_view(),
            column_index as int,
            values.deep_view(),
        ).to_multiset(),
        r@.len() <= rows@.len(),
{
    let r = par_filter(MatchMode::Contains, rows, column_index, &values);
    proof {
        lemma_matching_len(MatchMode::Contains, rows, column_index as int, values.deep_view(), &r);
    }
    r
}

/// The first row, in input order, whose cell equals one of `values`.
pub fn rows_eq_first(rows: &Vec<Vec<String>>, column_index: usize, values: Vec<&str>) -> (r:
    Option<Vec<String>>)
    ensures
        match r {
            Some(row) => exists|i: int|
                0 <= i < rows.deep_view().len() && (#[trigger] rows.deep_view()[i])
                    == row.deep_view() && row_matches(
                    MatchMode::Eq,
                    row.deep_view(),
                    column_index as int,
                    values.deep_view(),
                ) && (forall|j: int|
                    0 <= j < i ==> !row_matches(
                        MatchMode::Eq,
                        #[trigger] rows.deep_view()[j],
                        column_index as int,
                        values.deep_view(),
                    )),
            None => forall|i: int|
                0 <= i < rows.deep_view().len() ==> !row_matches(
                    MatchMode::Eq,
                    #[trigger] rows.deep_view()[i],
                    column_index as int,
                    values.deep_view(),
                ),
        },
{
    par_find_first(MatchMode::Eq, rows, column_index, &values)
}

/// Some row whose cell equals one of `values`, whichever a worker reaches.
pub fn rows_eq_any(rows: &Vec<Vec<String>>, column_index: usize, values: Vec<&str>) -> (r: Option<
    Vec<String>,
>)
    ensures
        match r {
            Some(row) => exists|i: int|
                0 <= i < rows.deep_view().len() && (#[trigger] rows.deep_view()[i])
                    == row.deep_view() && row_matches(
                    MatchMode::Eq,
                    row.deep_view(),
                    column_index as int,
                    values.deep_view(),
                ),
            None => forall|i: int|
                0 <= i < rows.deep_view().len() ==> !row_matches(
                    MatchMode::Eq,
                    #[trigger] rows.deep_view()[i],
                    column_index as int,
                    values.deep_view(),
                ),
        },
{
    par_find_any(MatchMode::Eq, rows, column_index, &values)
}

/// The first row, in input order, whose cell equals none of `values`.
pub fn rows_ne_first(rows: &Vec<Vec<String>>, column_index: usize, values: Vec<&str>) -> (r:
    Option<Vec<String>>)
    ensures
        match r {
            Some(row) => exists|i: int|
                0 <= i < rows.deep_view().len() && (#[trigger] rows.deep_view()[i])
                    == row.deep_view() && row_matches(
                    MatchMode::Ne,
                    row.deep_view(),
                    column_index as int,
                    values.deep_view(),
                ) && (forall|j: int|
                    0 <= j < i ==> !row_matches(
                        MatchMode::Ne,
                        #[trigger] rows.deep_view()[j],
                        column_index as int,
                        values.deep_view(),
                    )),
            None => forall|i: int|
                0 <= i < rows.deep_view().len() ==> !row_matches(
                    MatchMode::Ne,
                    #[trigger] rows.deep_view()[i],
                    column_index as int,
                    values.deep_view(),
                ),
        },
{
    par_find_first(MatchMode::Ne, rows, column_index, &values)
}

/// Some row whose cell equals none of `values`, whichever a worker reaches.
pub fn rows_ne_any(rows: &Vec<Vec<String>>, column_index: usize, values: Vec<&str>) -> (r: Option<
    Vec<String>,
>)
    ensures
        match r {
            Some(row) => exists|i: int|
                0 <= i < rows.deep_view().len() && (#[trigger] rows.deep_view()[i])
                    == row.deep_view() && row_matches(
                    MatchMode::Ne,
                    row.deep_view(),
                    column_index as int,
                    values.deep_view(),
                ),
            None => forall|i: int|
                0 <= i < rows.deep_view().len() ==> !row_matches(
                    MatchMode::Ne,
                    #[trigger] rows.deep_view()[i],
                    column_index as int,
                    values.deep_view(),
                ),
        },
{
    par_find_any(MatchMode::Ne, rows, column_index, &values)
}

/// A filtered result is never longer than its input.
proof fn lemma_matching_len(
    mode: MatchMode,
    rows: &Vec<Vec<String>>,
    col: int,
    values: Seq<Seq<char>>,
    r: &Vec<Vec<String>>,
)
    requires
        r.deep_view().to_multiset() == matching_rows(
            mode,
            rows.deep_view(),
            col,
            values,
        ).to_multiset(),
    ensures
        r@.len() <= rows@.len(),
{
    broadcast use vstd::seq_lib::group_to_multiset_ensures;

    let pred = |c: Seq<Seq<char>>| row_matches(mode, c, col, values);
    rows.deep_view().lemma_filter_len(pred);
    assert(r.deep_view().len() == r.deep_view().to_multiset().len());
    assert(matching_rows(mode, rows.deep_view(), col, values).len() == matching_rows(
        mode,
        rows.deep_view(),
        col,
        values,
    ).to_multiset().len());
}

} // verus!
