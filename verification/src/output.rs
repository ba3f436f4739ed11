//! The report's row layout: which cell carries what, with partial rows
//! padded by empty fields. Writing the cells out as a file is the
//! embedding program's part.

use vstd::prelude::*;
use vstd::string::StringExecFns;

use crate::input::ChatgptPrompts;
use crate::scoring::{is_nan_bits, score_is_nan, TranslationScores};
use crate::translate::Translations;

verus! {

/// One output row: its URL, and whatever later stages produced for it. A
/// row whose translation or scoring stage failed keeps `None` there and
/// is still emitted, with empty fields standing in.
pub struct CsvRow {
    pub url: String,
    pub translations: Option<Translations>,
    pub scores: Option<TranslationScores>,
}

impl Default for CsvRow {
    /// An empty row: no URL, no stage output.
    fn default() -> (r: CsvRow)
        ensures
            r.url@ == Seq::<char>::empty(),
            r.translations is None,
            r.scores is None,
    {
        CsvRow { url: String::new(), translations: None, scores: None }
    }
}

impl CsvRow {
    pub fn new(url: String, translations: Option<Translations>, scores: Option<
        TranslationScores,
    >) -> (r: CsvRow)
        ensures
            r.url == url,
            r.translations == translations,
            r.scores == scores,
    {
        CsvRow { url, translations, scores }
    }
}

/// Appends one field.
fn push_field(fields: &mut Vec<String>, field: String)
    ensures
        final(fields).deep_view() == old(fields).deep_view().push(field@),
{
    let ghost prev = fields.deep_view();
    let ghost fv = field@;
    fields.push(field);
    proof {
        assert(fields.deep_view() =~= prev.push(fv));
    }
}

/// How a score reaches its cell: a NaN score (no score) becomes an empty
/// field, never the text "NaN"; any other score keeps the rendering the
/// caller made of it.
pub fn score_cell(bits: u64, rendered: &String) -> (r: String)
    ensures
        r@ == (if is_nan_bits(bits) {
            Seq::<char>::empty()
        } else {
            rendered@
        }),
{
    if score_is_nan(bits) {
        String::new()
    } else {
        rendered.clone()
    }
}

/// The header row: `url`, the translation columns, then the score
/// columns, with one column per prompt in each block.
#[verifier::loop_isolation(false)]
pub fn header_fields(prompts: &ChatgptPrompts) -> (r: Vec<String>)
    requires
        5 + 2 * prompts@.len() <= usize::MAX,
    ensures
        r.deep_view().len() == 5 + 2 * prompts@.len(),
        r.deep_view()[0] == "url"@,
        r.deep_view()[1] == "chinese_text"@,
        r.deep_view()[2] == "google"@,
        forall|i: int| 0 <= i < prompts@.len() ==> r.deep_view()[3 + i] == prompts.names()[i],
        r.deep_view()[3 + prompts@.len() as int] == "google_us_score"@,
        r.deep_view()[4 + prompts@.len() as int] == "google_uk_score"@,
        forall|i: int| 0 <= i < prompts@.len() ==> r.deep_view()[5 + prompts@.len() as int + i]
            == prompts.names()[i] + "_score"@,
{
    let n = prompts.len();
    let mut fields: Vec<String> = Vec::new();
    proof {
        assert(fields.deep_view() =~= Seq::<Seq<char>>::empty());
    }
    push_field(&mut fields, "url".to_owned());
    push_field(&mut fields, "chinese_text".to_owned());
    push_field(&mut fields, "google".to_owned());
    let mut i: usize = 0;
    while i < n
        invariant
            fields.deep_view().len() == 3 + i,
            i <= n,
            fields.deep_view()[0] == "url"@,
            fields.deep_view()[1] == "chinese_text"@,
            fields.deep_view()[2] == "google"@,
            forall|j: int| 0 <= j < i ==> fields.deep_view()[3 + j] == prompts.names()[j],
        decreases n - i,
    {
        push_field(&mut fields, prompts.name_at(i).clone());
        i += 1;
    }
    push_field(&mut fields, "google_us_score".to_owned());
    push_field(&mut fields, "google_uk_score".to_owned());
    let mut i: usize = 0;
    while i < n
        invariant
            fields.deep_view().len() == 5 + n + i,
            i <= n,
            fields.deep_view()[0] == "url"@,
            fields.deep_view()[1] == "chinese_text"@,
            fields.deep_view()[2] == "google"@,
            forall|j: int| 0 <= j < n ==> fields.deep_view()[3 + j] == prompts.names()[j],
            fields.deep_view()[3 + n] == "google_us_score"@,
            fields.deep_view()[4 + n] == "google_uk_score"@,
            forall|j: int| 0 <= j < i ==> fields.deep_view()[5 + n + j] == prompts.names()[j]
                + "_score"@,
        decreases n - i,
    {
        let mut name = prompts.name_at(i).clone();
        name.append("_score");
        push_field(&mut fields, name);
        i += 1;
    }
    fields
}

/// The cells of one data row, in header order: the URL; the translation
/// block, empty when the row's translation stage failed; then the score
/// block, empty when its scoring stage failed, with each present score
/// rendered by the caller and blanked here when it is NaN.
#[verifier::loop_isolation(false)]
pub fn row_fields(row: &CsvRow, prompts: &ChatgptPrompts, rendered: &Vec<String>) -> (r: Vec<
    String,
>)
    requires
        5 + 2 * prompts@.len() <= usize::MAX,
        row.translations matches Some(tr) ==> tr.chatgpt@.len() == prompts@.len(),
        row.scores matches Some(sc) ==> sc.chatgpt_scores@.len() == prompts@.len(),
        rendered.deep_view().len() == 2 + prompts@.len(),
    ensures
        r.deep_view().len() == 5 + 2 * prompts@.len(),
        r.deep_view()[0] == row.url@,
        row.translations matches Some(tr) ==> {
            &&& r.deep_view()[1] == tr.chinese_text@
            &&& r.deep_view()[2] == tr.google@
            &&& (forall|i: int| 0 <= i < prompts@.len() ==> r.deep_view()[3 + i]
                == tr.chatgpt@[i].text@)
        },
        row.translations is None ==> forall|i: int|
            1 <= i < 3 + prompts@.len() ==> r.deep_view()[i] == Seq::<char>::empty(),
        row.scores matches Some(sc) ==> {
            &&& r.deep_view()[3 + prompts@.len() as int] == (if is_nan_bits(sc.google_us_score) {
                Seq::<char>::empty()
            } else {
                rendered.deep_view()[0]
            })
            &&& r.deep_view()[4 + prompts@.len() as int] == (if is_nan_bits(sc.google_uk_score) {
                Seq::<char>::empty()
            } else {
                rendered.deep_view()[1]
            })
            &&& (forall|i: int| 0 <= i < prompts@.len() ==> r.deep_view()[5 + prompts@.len() as int + i]
                == (if is_nan_bits(sc.chatgpt_scores@[i].1) {
                    Seq::<char>::empty()
                } else {
                    rendered.deep_view()[2 + i]
                }))
        },
        row.scores is None ==> forall|i: int|
            3 + prompts@.len() <= i < 5 + 2 * prompts@.len() ==> r.deep_view()[i] == Seq::<
                char,
            >::empty(),
{
    let n = prompts.len();
    let mut fields: Vec<String> = Vec::new();
    proof {
        assert(fields.deep_view() =~= Seq::<Seq<char>>::empty());
    }
    push_field(&mut fields, row.url.clone());
    match &row.translations {
        Some(tr) => {
            push_field(&mut fields, tr.chinese_text.clone());
            push_field(&mut fields, tr.google.clone());
            let mut i: usize = 0;
            while i < n
                invariant
                    fields.deep_view().len() == 3 + i,
                    i <= n,
                    fields.deep_view()[0] == row.url@,
                    fields.deep_view()[1] == tr.chinese_text@,
                    fields.deep_view()[2] == tr.google@,
                    forall|j: int| 0 <= j < i ==> fields.deep_view()[3 + j]
                        == tr.chatgpt@[j].text@,
                decreases n - i,
            {
                push_field(&mut fields, tr.chatgpt[i].text.clone());
                i += 1;
            }
        },
        None => {
            let mut i: usize = 0;
            while i < n + 2
                invariant
                    fields.deep_view().len() == 1 + i,
                    i <= n + 2,
                    fields.deep_view()[0] == row.url@,
                    forall|j: int| 1 <= j < 1 + i ==> fields.deep_view()[j] == Seq::<
                        char,
                    >::empty(),
                decreases n + 2 - i,
            {
                push_field(&mut fields, String::new());
                i += 1;
            }
        },
    }
    match &row.scores {
        Some(sc) => {
            push_field(&mut fields, score_cell(sc.google_us_score, &rendered[0]));
            push_field(&mut fields, score_cell(sc.google_uk_score, &rendered[1]));
            let ghost before = fields.deep_view();
            let mut i: usize = 0;
            while i < n
                invariant
                    fields.deep_view().len() == 5 + n + i,
                    i <= n,
                    forall|j: int| 0 <= j < 5 + n ==> (#[trigger] fields.deep_view()[j])
                        == before[j],
                    forall|j: int| 0 <= j < i ==> (#[trigger] fields.deep_view()[5 + n + j]) == (
                    if is_nan_bits(sc.chatgpt_scores@[j].1) {
                        Seq::<char>::empty()
                    } else {
                        rendered.deep_view()[2 + j]
                    }),
                decreases n - i,
            {
                push_field(&mut fields, score_cell(sc.chatgpt_scores[i].1, &rendered[2 + i]));
                i += 1;
            }
        },
        None => {
            let ghost before = fields.deep_view();
            let mut i: usize = 0;
            while i < n + 2
                invariant
                    fields.deep_view().len() == 3 + n + i,
                    i <= n + 2,
                    forall|j: int| 0 <= j < 3 + n ==> (#[trigger] fields.deep_view()[j])
                        == before[j],
                    forall|j: int| 3 + n <= j < 3 + n + i ==> (#[trigger] fields.deep_view()[j])
                        == Seq::<char>::empty(),
                decreases n + 2 - i,
            {
                push_field(&mut fields, String::new());
                i += 1;
            }
        },
    }
    fields
}

} // verus!
