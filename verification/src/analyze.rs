//! The pairwise significance analysis: which score columns are compared
//! with which, and how the z-score and p-value tables are laid out. The
//! floating-point statistics themselves are computed outside the library.

use vstd::prelude::*;
use vstd::string::StrSliceExecFns;

use crate::translate::matches_at;

verus! {

/// Whether `sub` occurs contiguously in `s`.
pub open spec fn has_substring(s: Seq<char>, sub: Seq<char>) -> bool {
    exists|i: int| 0 <= i <= s.len() - sub.len() && #[trigger] s.subrange(i, i + sub.len())
        == sub
}

/// Whether `sub` occurs in `s`.
fn str_contains(s: &str, sub: &str) -> (r: bool)
    ensures
        r == has_substring(s@, sub@),
{
    let n = s.unicode_len();
    let m = sub.unicode_len();
    if m > n {
        return false;
    }
    if m == 0 {
        proof {
            assert(s@.subrange(0, 0 + sub@.len() as int) =~= sub@);
        }
        return true;
    }
    let mut i: usize = 0;
    while i <= n - m
        invariant
            n == s@.len(),
            m == sub@.len(),
            1 <= m <= n,
            i <= n - m + 1,
            forall|k: int| 0 <= k < i ==> #[trigger] s@.subrange(k, k + sub@.len()) != sub@,
        decreases n - i,
    {
        if matches_at(s, i, sub) {
            return true;
        }
        i += 1;
    }
    false
}

/// The eight score columns of the analysis, in their fixed order.
pub fn score_columns() -> (r: Vec<String>)
    ensures
        r@.len() == 8,
        r@[0]@ == "google_us_score"@,
        r@[1]@ == "google_uk_score"@,
        r@[2]@ == "default_english_us_score"@,
        r@[3]@ == "default_english_uk_score"@,
        r@[4]@ == "american_english_us_score"@,
        r@[5]@ == "british_english_uk_score"@,
        r@[6]@ == "american_english_seo_us_score"@,
        r@[7]@ == "british_english_seo_uk_score"@,
{
    let mut columns: Vec<String> = Vec::new();
    columns.push("google_us_score".to_owned());
    columns.push("google_uk_score".to_owned());
    columns.push("default_english_us_score".to_owned());
    columns.push("default_english_uk_score".to_owned());
    columns.push("american_english_us_score".to_owned());
    columns.push("british_english_uk_score".to_owned());
    columns.push("american_english_seo_us_score".to_owned());
    columns.push("british_english_seo_uk_score".to_owned());
    columns
}

/// Whether a column is comparison-irrelevant: the columns carrying the
/// source search engine's own score name it, and every pair touching one
/// is excluded from flagging.
pub fn is_baseline_column(name: &String) -> (r: bool)
    ensures
        r == has_substring(name@, "google"@),
{
    str_contains(name.as_str(), "google")
}

/// Whether the ordered pair of column positions takes part in flagging:
/// two distinct columns, neither a baseline column.
pub open spec fn flaggable_pair(columns: Seq<Seq<char>>, p: (usize, usize)) -> bool {
    &&& p.0 < columns.len()
    &&& p.1 < columns.len()
    &&& p.0 != p.1
    &&& !has_substring(columns[p.0 as int], "google"@)
    &&& !has_substring(columns[p.1 as int], "google"@)
}

/// Every ordered pair of columns whose z-score is checked against the
/// flagging threshold: each pair of distinct non-baseline columns, once.
#[verifier::loop_isolation(false)]
pub fn comparison_pairs(columns: &Vec<String>) -> (r: Vec<(usize, usize)>)
    ensures
        forall|p: (usize, usize)| #[trigger] r@.contains(p) <==> flaggable_pair(
            columns.deep_view(),
            p,
        ),
        forall|a: int, b: int| 0 <= a < b < r@.len() ==> r@[a] != r@[b],
{
    let ghost cols = columns.deep_view();
    let n = columns.len();
    let mut pairs: Vec<(usize, usize)> = Vec::new();
    let mut i: usize = 0;
    while i < n
        invariant
            n == cols.len(),
            i <= n,
            forall|p: (usize, usize)| #[trigger] pairs@.contains(p) <==> (flaggable_pair(
                cols,
                p,
            ) && p.0 < i),
            forall|a: int, b: int| 0 <= a < b < pairs@.len() ==> pairs@[a] != pairs@[b],
            forall|a: int| 0 <= a < pairs@.len() ==> (#[trigger] pairs@[a]).0 < i,
        decreases n - i,
    {
        let mut j: usize = 0;
        let excluded_i = is_baseline_column(&columns[i]);
        while j < n
            invariant
                j <= n,
                i < n,
                excluded_i == has_substring(cols[i as int], "google"@),
                forall|p: (usize, usize)| #[trigger] pairs@.contains(p) <==> (flaggable_pair(
                    cols,
                    p,
                ) && (p.0 < i || (p.0 == i && p.1 < j))),
                forall|a: int, b: int| 0 <= a < b < pairs@.len() ==> pairs@[a] != pairs@[b],
                forall|a: int| 0 <= a < pairs@.len() ==> ((#[trigger] pairs@[a]).0 < i || (
                pairs@[a].0 == i && pairs@[a].1 < j)),
            decreases n - j,
        {
            let ghost prev = pairs@;
            if j != i && !excluded_i && !is_baseline_column(&columns[j]) {
                pairs.push((i, j));
                proof {
                    assert(flaggable_pair(cols, (i, j)));
                    assert forall|p: (usize, usize)| #[trigger] pairs@.contains(p) implies (
                    flaggable_pair(cols, p) && (p.0 < i || (p.0 == i && p.1 < j + 1))) by {
                        let idx = choose|idx: int| 0 <= idx < pairs@.len() && pairs@[idx] == p;
                        if idx < prev.len() {
                            assert(prev[idx] == p);
                            assert(prev.contains(p));
                        } else {
                            assert(p == (i, j));
                        }
                    }
                    assert forall|p: (usize, usize)|
                        flaggable_pair(cols, p) && (p.0 < i || (p.0 == i && p.1 < j
                            + 1)) implies #[trigger] pairs@.contains(p) by {
                        if p.0 < i || (p.0 == i && p.1 < j) {
                            assert(prev.contains(p));
                            let idx = choose|idx: int| 0 <= idx < prev.len() && prev[idx] == p;
                            assert(pairs@[idx] == p);
                        } else {
                            assert(p == (i, j));
                            assert(pairs@[prev.len() as int] == p);
                        }
                    }
                }
            } else {
                proof {
                    assert forall|p: (usize, usize)|
                        flaggable_pair(cols, p) && (p.0 < i || (p.0 == i && p.1 < j
                            + 1)) implies #[trigger] pairs@.contains(p) by {
                        if p.0 == i && p.1 == j {
                            assert(!flaggable_pair(cols, p));
                        }
                    }
                }
            }
            j += 1;
        }
        proof {
            assert forall|p: (usize, usize)|
                flaggable_pair(cols, p) && p.0 < i + 1 implies #[trigger] pairs@.contains(p) by {
                if p.0 == i {
                    assert(p.1 < n);
                }
            }
        }
        i += 1;
    }
    pairs
}

/// The header row of a statistic table: an empty corner cell, then the
/// column names.
pub fn table_header(names: &Vec<String>) -> (r: Vec<String>)
    ensures
        r.deep_view().len() == 1 + names.deep_view().len(),
        r.deep_view()[0] == Seq::<char>::empty(),
        forall|i: int| 0 <= i < names.deep_view().len() ==> r.deep_view()[1 + i]
            == names.deep_view()[i],
{
    let mut row: Vec<String> = Vec::new();
    let ghost empty = Seq::<char>::empty();
    row.push(String::new());
    proof {
        assert(row.deep_view() =~= seq![empty]);
    }
    let mut i: usize = 0;
    while i < names.len()
        invariant
            row.deep_view().len() == 1 + i,
            i <= names.deep_view().len(),
            row.deep_view()[0] == Seq::<char>::empty(),
            forall|j: int| 0 <= j < i ==> row.deep_view()[1 + j] == names.deep_view()[j],
        decreases names.deep_view().len() - i,
    {
        let ghost prev = row.deep_view();
        row.push(names[i].clone());
        proof {
            assert(row.deep_view() =~= prev.push(names.deep_view()[i as int]));
        }
        i += 1;
    }
    row
}

/// One data row of a statistic table: the row's column name first, then
/// the rendered statistic against each column in order.
pub fn table_row(name: &String, cells: &Vec<String>) -> (r: Vec<String>)
    ensures
        r.deep_view().len() == 1 + cells.deep_view().len(),
        r.deep_view()[0] == name@,
        forall|i: int| 0 <= i < cells.deep_view().len() ==> r.deep_view()[1 + i]
            == cells.deep_view()[i],
{
    let mut row: Vec<String> = Vec::new();
    row.push(name.clone());
    proof {
        assert(row.deep_view() =~= seq![name@]);
    }
    let mut i: usize = 0;
    while i < cells.len()
        invariant
            row.deep_view().len() == 1 + i,
            i <= cells.deep_view().len(),
            row.deep_view()[0] == name@,
            forall|j: int| 0 <= j < i ==> row.deep_view()[1 + j] == cells.deep_view()[j],
        decreases cells.deep_view().len() - i,
    {
        let ghost prev = row.deep_view();
        row.push(cells[i].clone());
        proof {
            assert(row.deep_view() =~= prev.push(cells.deep_view()[i as int]));
        }
        i += 1;
    }
    row
}

} // verus!
