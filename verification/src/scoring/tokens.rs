//! Tokenization of translated text into normalized content words.

use vstd::prelude::*;
use vstd::string::StrSliceExecFns;

use crate::scoring::words::WordSet;
use crate::scoring::Region;
use crate::translate::PromptTranslation;

verus! {

/// Whether a character has the Unicode white-space property.
pub uninterp spec fn is_space_char(c: char) -> bool;

/// Whether a character has the Unicode alphabetic property.
pub uninterp spec fn is_alpha_char(c: char) -> bool;

/// The lowercase form of a character sequence under Unicode case mapping.
pub uninterp spec fn lower_of(s: Seq<char>) -> Seq<char>;

/// Relies on char::is_whitespace: true exactly for characters with the
/// Unicode white-space property, a function of the character alone.
#[verifier::external_body]
fn char_is_whitespace(c: char) -> (r: bool)
    ensures
        r == is_space_char(c),
{
    c.is_whitespace()
}

/// Relies on char::is_alphabetic: true exactly for characters with the
/// Unicode alphabetic property, a function of the character alone.
#[verifier::external_body]
fn char_is_alphabetic(c: char) -> (r: bool)
    ensures
        r == is_alpha_char(c),
{
    c.is_alphabetic()
}

/// Relies on str::to_lowercase: the Unicode lowercase mapping of the
/// text, a function of the characters alone; an empty text stays empty.
#[verifier::external_body]
fn lowercase(s: &str) -> (r: String)
    ensures
        r@ == lower_of(s@),
        s@.len() == 0 ==> r@.len() == 0,
{
    s.to_lowercase()
}

/// A character that ends a token: white space or one of the punctuation
/// marks `,.:;[](){}`.
pub open spec fn is_delimiter(c: char) -> bool {
    ||| is_space_char(c)
    ||| c == ','
    ||| c == '.'
    ||| c == ':'
    ||| c == ';'
    ||| c == '['
    ||| c == ']'
    ||| c == '('
    ||| c == ')'
    ||| c == '{'
    ||| c == '}'
}

/// `[a, b)` is a maximal nonempty run of non-delimiter characters of `s`.
pub open spec fn token_run(s: Seq<char>, a: int, b: int) -> bool {
    &&& 0 <= a < b <= s.len()
    &&& (forall|k: int| a <= k < b ==> !is_delimiter(#[trigger] s[k]))
    &&& (a == 0 || is_delimiter(s[a - 1]))
    &&& (b == s.len() || is_delimiter(s[b]))
}

/// A normalized token survives extraction when it is nonempty, made of
/// alphabetic characters and apostrophes only, and is not a function word.
pub open spec fn keepable(t: Seq<char>, function_words: Seq<Seq<char>>) -> bool {
    &&& t.len() > 0
    &&& (forall|k: int| 0 <= k < t.len() ==> is_alpha_char(#[trigger] t[k]) || t[k] == '\'')
    &&& !function_words.contains(t)
}

/// The tokens `extract` returns for text `s`: the lowercase forms of the
/// maximal runs between delimiters, kept when `keepable`.
pub open spec fn extracted_token(s: Seq<char>, function_words: Seq<Seq<char>>, t: Seq<char>) -> bool {
    exists|a: int, b: int|
        #[trigger] token_run(s, a, b) && t == lower_of(s.subrange(a, b)) && keepable(
            t,
            function_words,
        )
}

/// The tokens whose runs end before position `limit`.
spec fn token_before(s: Seq<char>, function_words: Seq<Seq<char>>, t: Seq<char>, limit: int) -> bool {
    exists|a: int, b: int|
        #[trigger] token_run(s, a, b) && b < limit && t == lower_of(s.subrange(a, b)) && keepable(
            t,
            function_words,
        )
}

/// A run's right end determines its left end: only the current maximal
/// run can end at `b`.
proof fn lemma_run_left_end(s: Seq<char>, start: int, b: int, a: int)
    requires
        0 <= start <= b <= s.len(),
        forall|k: int| start <= k < b ==> !is_delimiter(#[trigger] s[k]),
        start == 0 || is_delimiter(s[start - 1]),
        token_run(s, a, b),
    ensures
        a == start,
{
    if a < start {
        assert(!is_delimiter(s[start - 1]));
        assert(false);
    } else if a > start {
        assert(!is_delimiter(s[a - 1]));
        assert(false);
    }
}

/// Whether every character of the word is alphabetic or an apostrophe.
fn all_alpha_or_apostrophe(word: &String) -> (r: bool)
    ensures
        r == (forall|k: int| 0 <= k < word@.len() ==> is_alpha_char(#[trigger] word@[k])
            || word@[k] == '\''),
{
    let s = word.as_str();
    let n = s.unicode_len();
    let mut i: usize = 0;
    while i < n
        invariant
            n == word@.len(),
            s@ == word@,
            i <= n,
            forall|k: int| 0 <= k < i ==> is_alpha_char(#[trigger] word@[k]) || word@[k] == '\'',
        decreases n - i,
    {
        let c = s.get_char(i);
        if !char_is_alphabetic(c) && c != '\'' {
            return false;
        }
        i += 1;
    }
    true
}

/// Normalizes the run `[a, b)` of `string` and adds it to `result` when it
/// survives the filters.
fn consider_run(
    result: &mut WordSet,
    string: &str,
    function_words: &WordSet,
    a: usize,
    b: usize,
)
    requires
        old(result).wf(),
        a < b <= string@.len(),
    ensures
        final(result).wf(),
        forall|t: Seq<char>| #[trigger] final(result)@.contains(t) <==> old(result)@.contains(t)
            || (t == lower_of(string@.subrange(a as int, b as int)) && keepable(
            t,
            function_words@,
        )),
{
    let token = string.substring_char(a, b);
    let lower = lowercase(token);
    let ghost lv = lower@;
    let ghost prev = result@;
    if !lower.as_str().is_empty() && all_alpha_or_apostrophe(&lower) && !function_words.contains(
        &lower,
    ) {
        assert(keepable(lv, function_words@));
        result.insert(lower);
        proof {
            assert forall|t: Seq<char>| final(result)@.contains(t) implies prev.contains(t) || t
                == lv by {
                if !prev.contains(t) {
                    let idx = choose|idx: int|
                        0 <= idx < result@.len() && result@[idx] == t;
                    if idx < prev.len() {
                        assert(prev[idx] == t);
                    }
                }
            }
            assert forall|t: Seq<char>| prev.contains(t) || t == lv implies result@.contains(
                t,
            ) by {
                if prev.contains(t) {
                    let j = choose|j: int| 0 <= j < prev.len() && prev[j] == t;
                    assert(result@[j] == t);
                } else {
                    if !prev.contains(lv) {
                        assert(result@[prev.len() as int] == lv);
                    }
                }
            }
        }
    }
}

/// Whether `c` splits tokens.
fn is_delim_char(c: char) -> (r: bool)
    ensures
        r == is_delimiter(c),
{
    char_is_whitespace(c) || c == ',' || c == '.' || c == ':' || c == ';' || c == '[' || c == ']'
        || c == '(' || c == ')' || c == '{' || c == '}'
}

/// Split a translated text into its distinctive words: the text is split
/// at white space and at the marks `,.:;[](){}`, each piece is lowercased,
/// and a piece is dropped when it is empty, contains a character that is
/// neither alphabetic nor an apostrophe, or is one of the function words.
pub fn extract(string: &str, function_words: &WordSet) -> (r: WordSet)
    ensures
        r.wf(),
        forall|t: Seq<char>| #[trigger] r@.contains(t) <==> extracted_token(
            string@,
            function_words@,
            t,
        ),
{
    let ghost s = string@;
    let ghost fw = function_words@;
    let n = string.unicode_len();
    let mut result = WordSet::new();
    let mut start: usize = 0;
    let mut i: usize = 0;
    while i < n
        invariant
            n == s.len(),
            s == string@,
            fw == function_words@,
            start <= i <= n,
            result.wf(),
            forall|k: int| start <= k < i ==> !is_delimiter(#[trigger] s[k]),
            start == 0 || is_delimiter(s[start - 1]),
            forall|t: Seq<char>| #[trigger] result@.contains(t) <==> token_before(
                s,
                fw,
                t,
                i as int,
            ),
        decreases n - i,
    {
        let c = string.get_char(i);
        if is_delim_char(c) {
            if start < i {
                let ghost prev = result@;
                consider_run(&mut result, string, function_words, start, i);
                proof {
                    assert(token_run(s, start as int, i as int));
                    assert forall|t: Seq<char>| #[trigger] result@.contains(t) implies
                        token_before(s, fw, t, i + 1) by {
                        if prev.contains(t) {
                            let (a, b) = choose|a: int, b: int|
                                #[trigger] token_run(s, a, b) && b < i && t == lower_of(
                                    s.subrange(a, b),
                                ) && keepable(t, fw);
                            assert(token_run(s, a, b) && b < i + 1);
                        } else {
                            assert(t == lower_of(s.subrange(start as int, i as int))
                                && keepable(t, fw));
                        }
                    }
                    assert forall|t: Seq<char>| token_before(s, fw, t, i + 1) implies #[trigger]
                        result@.contains(t) by {
                        let (a, b) = choose|a: int, b: int|
                            #[trigger] token_run(s, a, b) && b < i + 1 && t == lower_of(
                                s.subrange(a, b),
                            ) && keepable(t, fw);
                        if b < i {
                            assert(prev.contains(t));
                        } else {
                            lemma_run_left_end(s, start as int, i as int, a);
                        }
                    }
                }
            } else {
                proof {
                    assert forall|t: Seq<char>| token_before(s, fw, t, i + 1) implies
                        token_before(s, fw, t, i as int) by {
                        let (a, b) = choose|a: int, b: int|
                            #[trigger] token_run(s, a, b) && b < i + 1 && t == lower_of(
                                s.subrange(a, b),
                            ) && keepable(t, fw);
                        if b == i {
                            lemma_run_left_end(s, start as int, i as int, a);
                            assert(false);
                        }
                    }
                }
            }
            start = i + 1;
        } else {
            proof {
                assert forall|t: Seq<char>| token_before(s, fw, t, i + 1) implies token_before(
                    s,
                    fw,
                    t,
                    i as int,
                ) by {
                    let (a, b) = choose|a: int, b: int|
                        #[trigger] token_run(s, a, b) && b < i + 1 && t == lower_of(
                            s.subrange(a, b),
                        ) && keepable(t, fw);
                    if b == i {
                        assert(is_delimiter(s[i as int]));
                        assert(false);
                    }
                }
            }
        }
        i += 1;
    }
    if start < n {
        let ghost prev = result@;
        consider_run(&mut result, string, function_words, start, n);
        proof {
            assert(token_run(s, start as int, n as int));
            assert forall|t: Seq<char>| #[trigger] result@.contains(t) implies extracted_token(
                s,
                fw,
                t,
            ) by {
                if prev.contains(t) {
                    let (a, b) = choose|a: int, b: int|
                        #[trigger] token_run(s, a, b) && b < n && t == lower_of(s.subrange(a, b))
                            && keepable(t, fw);
                    assert(token_run(s, a, b));
                } else {
                    assert(t == lower_of(s.subrange(start as int, n as int)) && keepable(t, fw));
                }
            }
            assert forall|t: Seq<char>| extracted_token(s, fw, t) implies #[trigger]
                result@.contains(t) by {
                let (a, b) = choose|a: int, b: int|
                    #[trigger] token_run(s, a, b) && t == lower_of(s.subrange(a, b)) && keepable(
                        t,
                        fw,
                    );
                if b < n {
                    assert(prev.contains(t));
                } else {
                    lemma_run_left_end(s, start as int, n as int, a);
                }
            }
        }
    } else {
        proof {
            assert forall|t: Seq<char>| extracted_token(s, fw, t) implies #[trigger]
                result@.contains(t) by {
                let (a, b) = choose|a: int, b: int|
                    #[trigger] token_run(s, a, b) && t == lower_of(s.subrange(a, b)) && keepable(
                        t,
                        fw,
                    );
                if b == n {
                    lemma_run_left_end(s, start as int, n as int, a);
                    assert(false);
                }
            }
            assert forall|t: Seq<char>| #[trigger] result@.contains(t) implies extracted_token(
                s,
                fw,
                t,
            ) by {
                let (a, b) = choose|a: int, b: int|
                    #[trigger] token_run(s, a, b) && b < n && t == lower_of(s.subrange(a, b))
                        && keepable(t, fw);
                assert(token_run(s, a, b));
            }
        }
    }
    result
}

/// Tokens come out clean: every token `extract` returns is nonempty,
/// consists of alphabetic characters and apostrophes only, and is not one
/// of the supplied function words.
pub proof fn lemma_extract_tokens_clean(
    text: Seq<char>,
    function_words: Seq<Seq<char>>,
    t: Seq<char>,
)
    requires
        extracted_token(text, function_words, t),
    ensures
        t.len() > 0,
        forall|k: int| 0 <= k < t.len() ==> is_alpha_char(#[trigger] t[k]) || t[k] == '\'',
        !function_words.contains(t),
{
    let (a, b) = choose|a: int, b: int|
        #[trigger] token_run(text, a, b) && t == lower_of(text.subrange(a, b)) && keepable(
            t,
            function_words,
        );
}

/// The words of one chat translation variant, ready for scoring.
pub struct VariantWords {
    pub name: String,
    pub words: WordSet,
    pub region: Region,
}

/// Calls `extract` on every chat-completion translation, keeping each
/// variant's prompt name and target region.
pub fn extract_chatgpt(chatgpt: &Vec<PromptTranslation>, function_words: &WordSet) -> (r: Vec<
    VariantWords,
>)
    ensures
        r@.len() == chatgpt@.len(),
        forall|i: int| 0 <= i < r@.len() ==> {
            &&& (#[trigger] r@[i]).name@ == chatgpt@[i].name@
            &&& r@[i].region == chatgpt@[i].region
            &&& r@[i].words.wf()
            &&& (forall|t: Seq<char>| #[trigger] r@[i].words@.contains(t) <==> extracted_token(
                chatgpt@[i].text@,
                function_words@,
                t,
            ))
        },
{
    let mut out: Vec<VariantWords> = Vec::new();
    let mut i: usize = 0;
    while i < chatgpt.len()
        invariant
            out@.len() == i,
            i <= chatgpt@.len(),
            forall|j: int| 0 <= j < i ==> {
                &&& (#[trigger] out@[j]).name@ == chatgpt@[j].name@
                &&& out@[j].region == chatgpt@[j].region
                &&& out@[j].words.wf()
                &&& (forall|t: Seq<char>| #[trigger] out@[j].words@.contains(t)
                    <==> extracted_token(chatgpt@[j].text@, function_words@, t))
            },
        decreases chatgpt@.len() - i,
    {
        let entry = &chatgpt[i];
        let words = extract(entry.text.as_str(), function_words);
        out.push(VariantWords { name: entry.name.clone(), words, region: entry.region });
        i += 1;
    }
    out
}

} // verus!
