//! Scoring of translation variants: word extraction, cross-set
//! deduplication, and the cached trend-score lookup that feeds them.

pub mod dedup;
pub mod tokens;
pub mod trends;
pub mod words;

use vstd::prelude::*;

use crate::scoring::dedup::{dedup_sets, is_common, kept_by_dedup};
use crate::scoring::tokens::{extract, extracted_token, VariantWords};
use crate::scoring::words::{lemma_filter_contains_all, lemma_filter_membership, WordSet};
use crate::translate::Translations;

verus! {

/// The market a word's popularity is measured against.
#[derive(Clone, Copy, PartialEq, Eq, Structural, Debug, Hash)]
pub enum Region {
    Britain,
    America,
}

impl Region {
    /// The short code under which a region is serialized in the durable
    /// score store.
    pub open spec fn code(self) -> Seq<char> {
        match self {
            Region::Britain => "britain"@,
            Region::America => "america"@,
        }
    }

    /// Region parsed back from a stored short code; anything but the two
    /// known codes is rejected.
    pub open spec fn spec_from_str(s: Seq<char>) -> Option<Region> {
        if s == "britain"@ {
            Some(Region::Britain)
        } else if s == "america"@ {
            Some(Region::America)
        } else {
            None
        }
    }

    pub fn to_str(&self) -> (r: &'static str)
        ensures
            r@ == self.code(),
    {
        match self {
            Region::Britain => "britain",
            Region::America => "america",
        }
    }

    pub fn from_str(s: &str) -> (r: Option<Region>)
        ensures
            r == Self::spec_from_str(s@),
    {
        let owned = s.to_owned();
        if owned == "britain".to_owned() {
            Some(Region::Britain)
        } else if owned == "america".to_owned() {
            Some(Region::America)
        } else {
            None
        }
    }

    /// The geographic restriction code the trend API expects for the
    /// region.
    pub open spec fn spec_geo_code(self) -> Seq<char> {
        match self {
            Region::Britain => "GB"@,
            Region::America => "US"@,
        }
    }

    pub fn geo_code(&self) -> (r: &'static str)
        ensures
            r@ == self.spec_geo_code(),
    {
        match self {
            Region::Britain => "GB",
            Region::America => "US",
        }
    }
}

/// The relative search-optimization score of each translation variant of
/// one row. A score is the bit pattern of a 64-bit float; the averaging
/// arithmetic happens outside the library, which only carries, stores and
/// classifies the bits.
pub struct TranslationScores {
    pub google_uk_score: u64,
    pub google_us_score: u64,
    /// One score per chat prompt, under the prompt's name, in prompt
    /// order.
    pub chatgpt_scores: Vec<(String, u64)>,
}

/// Whether a 64-bit float bit pattern denotes a NaN under the IEEE 754
/// layout: exponent bits all set and a nonzero mantissa. The average of
/// an empty word set is such a value, and stands for "no score".
pub open spec fn is_nan_bits(bits: u64) -> bool {
    (bits >> 52) & 0x7ff == 0x7ff && (bits & 0xf_ffff_ffff_ffff) != 0
}

/// Whether a score's bits denote a NaN.
pub fn score_is_nan(bits: u64) -> (r: bool)
    ensures
        r == is_nan_bits(bits),
{
    (bits >> 52) & 0x7ff == 0x7ff && (bits & 0xf_ffff_ffff_ffff) != 0
}

/// Whether token `t` belongs to every variant's extracted vocabulary:
/// the google translation's and each chat translation's.
pub open spec fn common_extracted(
    translations: Translations,
    function_words: Seq<Seq<char>>,
    t: Seq<char>,
) -> bool {
    &&& extracted_token(translations.google@, function_words, t)
    &&& (forall|i: int| 0 <= i < translations.chatgpt@.len() ==> extracted_token(
        (#[trigger] translations.chatgpt@[i]).text@,
        function_words,
        t,
    ))
}

/// The word sets that get scored for one row: each translation variant's
/// extracted vocabulary, with the words common to every variant removed.
/// The first element holds the google translation's words; the second,
/// one set per chat prompt, under its name and region.
pub fn translation_word_sets(translations: &Translations, function_words: &WordSet) -> (r: (
    WordSet,
    Vec<VariantWords>,
))
    ensures
        r.0.wf(),
        forall|t: Seq<char>| #[trigger] r.0@.contains(t) <==> (extracted_token(
            translations.google@,
            function_words@,
            t,
        ) && !common_extracted(*translations, function_words@, t)),
        r.1@.len() == translations.chatgpt@.len(),
        forall|i: int| 0 <= i < r.1@.len() ==> {
            &&& (#[trigger] r.1@[i]).name@ == translations.chatgpt@[i].name@
            &&& r.1@[i].region == translations.chatgpt@[i].region
            &&& r.1@[i].words.wf()
            &&& (forall|t: Seq<char>| #[trigger] r.1@[i].words@.contains(t) <==> (
            extracted_token(translations.chatgpt@[i].text@, function_words@, t)
                && !common_extracted(*translations, function_words@, t)))
        },
{
    let ghost fw = function_words@;
    let mut sets: Vec<WordSet> = Vec::new();
    let google = extract(translations.google.as_str(), function_words);
    sets.push(google);
    let mut i: usize = 0;
    while i < translations.chatgpt.len()
        invariant
            fw == function_words@,
            sets@.len() == 1 + i,
            i <= translations.chatgpt@.len(),
            sets@[0].wf(),
            forall|t: Seq<char>| #[trigger] sets@[0]@.contains(t) <==> extracted_token(
                translations.google@,
                fw,
                t,
            ),
            forall|j: int| 0 <= j < i ==> (#[trigger] sets@[1 + j]).wf(),
            forall|j: int, t: Seq<char>|
                0 <= j < i ==> ((#[trigger] sets@[1 + j]@.contains(t)) <==> extracted_token(
                    translations.chatgpt@[j].text@,
                    fw,
                    t,
                )),
        decreases translations.chatgpt@.len() - i,
    {
        let variant = extract(translations.chatgpt[i].text.as_str(), function_words);
        sets.push(variant);
        i += 1;
    }
    let ghost pre = sets@;
    proof {
        assert forall|t: Seq<char>| #[trigger] is_common(pre, t) == common_extracted(
            *translations,
            fw,
            t,
        ) by {
            if is_common(pre, t) {
                assert(pre[0]@.contains(t));
                assert forall|j: int|
                    0 <= j < translations.chatgpt@.len() implies extracted_token(
                    (#[trigger] translations.chatgpt@[j]).text@,
                    fw,
                    t,
                ) by {
                    assert(pre[1 + j]@.contains(t));
                }
            }
            if common_extracted(*translations, fw, t) {
                assert forall|j: int| 0 <= j < pre.len() implies (#[trigger] pre[j])@.contains(
                    t,
                ) by {
                    if j == 0 {
                        assert(extracted_token(translations.google@, fw, t));
                        assert(pre[0]@.contains(t));
                    } else {
                        assert(extracted_token(translations.chatgpt@[j - 1].text@, fw, t));
                        assert(pre[1 + (j - 1)]@.contains(t));
                    }
                }
            }
        }
    }
    proof {
        assert forall|j: int| 0 <= j < sets@.len() implies (#[trigger] sets@[j]).wf() by {
            if j > 0 {
                assert(sets@[1 + (j - 1)].wf());
            }
        }
    }
    dedup_sets(&mut sets);
    proof {
        assert forall|j: int, t: Seq<char>|
            0 <= j < sets@.len() implies ((#[trigger] sets@[j]@.contains(t)) <==> (
        pre[j]@.contains(t) && !common_extracted(*translations, fw, t))) by {
            if sets@[j]@.contains(t) {
                lemma_filter_membership(pre[j]@, kept_by_dedup(pre), t);
            }
            if pre[j]@.contains(t) && !is_common(pre, t) {
                lemma_filter_contains_all(pre[j]@, kept_by_dedup(pre), t);
            }
        }
    }
    let ghost deduped = sets@;
    let mut google_set = sets.remove(0);
    let mut variants: Vec<VariantWords> = Vec::new();
    let mut i: usize = 0;
    while i < translations.chatgpt.len()
        invariant
            fw == function_words@,
            pre.len() == deduped.len(),
            deduped.len() == 1 + translations.chatgpt@.len(),
            sets@ =~= deduped.subrange(1 + i, deduped.len() as int),
            i <= translations.chatgpt@.len(),
            variants@.len() == i,
            forall|j: int| 0 <= j < deduped.len() ==> (#[trigger] deduped[j]).wf(),
            forall|j: int, t: Seq<char>|
                0 <= j < deduped.len() ==> ((#[trigger] deduped[j]@.contains(t)) <==> (
                pre[j]@.contains(t) && !common_extracted(*translations, fw, t))),
            forall|j: int| 0 <= j < i ==> {
                &&& (#[trigger] variants@[j]).name@ == translations.chatgpt@[j].name@
                &&& variants@[j].region == translations.chatgpt@[j].region
                &&& variants@[j].words == deduped[1 + j]
            },
        decreases translations.chatgpt@.len() - i,
    {
        let entry = &translations.chatgpt[i];
        let words = sets.remove(0);
        proof {
            assert(words == deduped[1 + i]);
        }
        variants.push(VariantWords { name: entry.name.clone(), words, region: entry.region });
        i += 1;
    }
    proof {
        assert forall|j: int| 0 <= j < variants@.len() implies {
            &&& (#[trigger] variants@[j]).name@ == translations.chatgpt@[j].name@
            &&& variants@[j].region == translations.chatgpt@[j].region
            &&& variants@[j].words.wf()
            &&& (forall|t: Seq<char>| #[trigger] variants@[j].words@.contains(t) <==> (
            extracted_token(translations.chatgpt@[j].text@, fw, t) && !common_extracted(
                *translations,
                fw,
                t,
            )))
        } by {
            assert(variants@[j].words == deduped[1 + j]);
            assert forall|t: Seq<char>| #[trigger] variants@[j].words@.contains(t) <==> (
            extracted_token(translations.chatgpt@[j].text@, fw, t) && !common_extracted(
                *translations,
                fw,
                t,
            )) by {
                assert(deduped[1 + j]@.contains(t) <==> (pre[1 + j]@.contains(t)
                    && !common_extracted(*translations, fw, t)));
            }
        }
    }
    (google_set, variants)
}

/// A region's short code always parses back to that region: storing a score
/// under `to_str` and reading it back with `from_str` round-trips.
pub proof fn lemma_region_code_round_trip(region: Region)
    ensures
        Region::spec_from_str(region.code()) == Some(region),
{
    reveal_strlit("britain");
    reveal_strlit("america");
    assert("britain"@.len() == 7);
    assert("america"@.len() == 7);
    assert("britain"@[0] == 'b');
    assert("america"@[0] == 'a');
}

} // verus!
