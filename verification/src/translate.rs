//! The translation bundle a processed row carries, and the pure pieces of
//! the translation collaborators: prompt construction and response
//! post-processing. The network calls themselves live outside the library.

use vstd::prelude::*;
use vstd::string::{StringExecFns, StrSliceExecFns};

use crate::scoring::Region;

verus! {

/// `s` with every occurrence of `pat` replaced by `rep`, scanning left to
/// right without overlap, as `str::replace` does.
pub open spec fn replace_all(s: Seq<char>, pat: Seq<char>, rep: Seq<char>) -> Seq<char>
    recommends
        pat.len() > 0,
    decreases s.len(),
    when pat.len() > 0
{
    if s.len() < pat.len() {
        s
    } else if s.subrange(0, pat.len() as int) == pat {
        rep + replace_all(s.skip(pat.len() as int), pat, rep)
    } else {
        seq![s[0]] + replace_all(s.drop_first(), pat, rep)
    }
}

/// Whether `s` carries `pat` at offset `at`.
pub(crate) fn matches_at(s: &str, at: usize, pat: &str) -> (r: bool)
    requires
        at + pat@.len() <= s@.len(),
    ensures
        r == (s@.subrange(at as int, at + pat@.len()) == pat@),
{
    let total = s.unicode_len();
    let m = pat.unicode_len();
    let mut j: usize = 0;
    while j < m
        invariant
            total == s@.len(),
            m == pat@.len(),
            at + m <= s@.len(),
            j <= m,
            forall|k: int| 0 <= k < j ==> s@[at + k] == pat@[k],
        decreases m - j,
    {
        if s.get_char(at + j) != pat.get_char(j) {
            proof {
                assert(s@.subrange(at as int, at + pat@.len())[j as int] != pat@[j as int]);
            }
            return false;
        }
        j += 1;
    }
    proof {
        assert(s@.subrange(at as int, at + pat@.len()) =~= pat@);
    }
    true
}

/// `template` with every occurrence of `pat` replaced by `value`.
#[verifier::loop_isolation(false)]
fn replace_str(template: &str, pat: &str, value: &str) -> (r: String)
    requires
        pat@.len() > 0,
    ensures
        r@ == replace_all(template@, pat@, value@),
{
    let ghost s = template@;
    let ghost p = pat@;
    let ghost v = value@;
    let n = template.unicode_len();
    let m = pat.unicode_len();
    let mut out = String::new();
    let mut i: usize = 0;
    proof {
        assert(s.skip(0) =~= s);
    }
    while i < n
        invariant
            i <= n,
            replace_all(s, p, v) == out@ + replace_all(s.skip(i as int), p, v),
        decreases n - i,
    {
        let ghost rest = s.skip(i as int);
        if m <= n - i && matches_at(template, i, pat) {
            proof {
                assert(rest.subrange(0, p.len() as int) =~= s.subrange(i as int, i + p.len()));
                assert(rest.skip(p.len() as int) =~= s.skip(i + p.len()));
                assert(replace_all(rest, p, v) == v + replace_all(s.skip(i + p.len()), p, v));
            }
            out.append(value);
            i += m;
        } else {
            proof {
                if rest.len() >= p.len() {
                    assert(rest.subrange(0, p.len() as int) =~= s.subrange(
                        i as int,
                        i + p.len(),
                    ));
                    if m <= n - i {
                        assert(rest.subrange(0, p.len() as int) != p);
                    }
                    assert(rest.drop_first() =~= s.skip(i + 1));
                    assert(replace_all(rest, p, v) == seq![s[i as int]] + replace_all(
                        s.skip(i + 1),
                        p,
                        v,
                    ));
                } else {
                    assert(replace_all(rest, p, v) == rest);
                    assert(rest =~= seq![s[i as int]] + s.skip(i + 1));
                    assert(s.skip(i + 1).len() < p.len());
                    assert(replace_all(s.skip(i + 1), p, v) == s.skip(i + 1));
                }
            }
            let piece = template.substring_char(i, i + 1);
            proof {
                assert(piece@ =~= seq![s[i as int]]);
            }
            out.append(piece);
            i += 1;
        }
    }
    proof {
        assert(s.skip(n as int) =~= Seq::<char>::empty());
        assert(replace_all(s.skip(n as int), p, v) == Seq::<char>::empty());
        assert(out@ + Seq::<char>::empty() =~= out@);
    }
    out
}

/// The prompt sent for one article: the prompt template with every
/// `{chinese}` placeholder replaced by the article's description.
pub fn build_prompt(template: &str, chinese_text: &str) -> (r: String)
    ensures
        r@ == replace_all(template@, "{chinese}"@, chinese_text@),
{
    proof {
        reveal_strlit("{chinese}");
    }
    replace_str(template, "{chinese}", chinese_text)
}

/// The choice texts of a chat answer, joined by single newlines.
pub open spec fn joined_lines(parts: Seq<Seq<char>>) -> Seq<char>
    decreases parts.len(),
{
    if parts.len() == 0 {
        Seq::empty()
    } else if parts.len() == 1 {
        parts[0]
    } else {
        joined_lines(parts.drop_last()) + seq!['\n'] + parts.last()
    }
}

/// `s` without its leading quotation marks.
pub open spec fn trim_lead_quotes(s: Seq<char>) -> Seq<char>
    decreases s.len(),
{
    if s.len() > 0 && s[0] == '"' {
        trim_lead_quotes(s.drop_first())
    } else {
        s
    }
}

/// `s` without its trailing quotation marks.
pub open spec fn trim_trail_quotes(s: Seq<char>) -> Seq<char>
    decreases s.len(),
{
    if s.len() > 0 && s.last() == '"' {
        trim_trail_quotes(s.drop_last())
    } else {
        s
    }
}

/// `s` without quotation marks on either end, as `trim_matches('"')`
/// leaves it.
pub open spec fn trim_quotes(s: Seq<char>) -> Seq<char> {
    trim_trail_quotes(trim_lead_quotes(s))
}

proof fn lemma_trim_lead(s: Seq<char>, a: int)
    requires
        0 <= a <= s.len(),
        forall|k: int| 0 <= k < a ==> s[k] == '"',
        a == s.len() || s[a] != '"',
    ensures
        trim_lead_quotes(s) == s.skip(a),
    decreases a,
{
    if a == 0 {
        assert(s.skip(0) =~= s);
    } else {
        let rest = s.drop_first();
        assert(s[0] == '"');
        assert forall|k: int| 0 <= k < a - 1 implies rest[k] == '"' by {
            assert(rest[k] == s[k + 1]);
        }
        lemma_trim_lead(rest, a - 1);
        assert(rest.skip(a - 1) =~= s.skip(a));
    }
}

proof fn lemma_trim_trail(s: Seq<char>, b: int)
    requires
        0 <= b <= s.len(),
        forall|k: int| b <= k < s.len() ==> s[k] == '"',
        b == 0 || s[b - 1] != '"',
    ensures
        trim_trail_quotes(s) == s.subrange(0, b),
    decreases s.len() - b,
{
    if b == s.len() {
        assert(s.subrange(0, b) =~= s);
    } else {
        let rest = s.drop_last();
        assert(s.last() == '"');
        lemma_trim_trail(rest, b);
        assert(rest.subrange(0, b) =~= s.subrange(0, b));
    }
}

/// The choice texts joined with newlines.
#[verifier::loop_isolation(false)]
fn join_lines(parts: &Vec<String>) -> (r: String)
    ensures
        r@ == joined_lines(parts.deep_view()),
{
    if parts.len() == 0 {
        return String::new();
    }
    let mut out = parts[0].clone();
    let mut i: usize = 1;
    proof {
        assert(parts.deep_view().subrange(0, 1) =~= seq![parts.deep_view()[0]]);
    }
    while i < parts.len()
        invariant
            1 <= i <= parts.deep_view().len(),
            out@ == joined_lines(parts.deep_view().subrange(0, i as int)),
        decreases parts.deep_view().len() - i,
    {
        let ghost all = parts.deep_view();
        out.append("\n");
        out.append(parts[i].as_str());
        proof {
            reveal_strlit("\n");
            assert("\n"@ =~= seq!['\n']);
            assert(all.subrange(0, i + 1).drop_last() =~= all.subrange(0, i as int));
            assert(all.subrange(0, i + 1).last() == all[i as int]);
            assert(parts@[i as int]@ == all[i as int]);
        }
        i += 1;
    }
    proof {
        assert(parts.deep_view().subrange(0, parts.deep_view().len() as int) =~= parts.deep_view());
    }
    out
}

/// `s` with quotation marks trimmed from both ends.
#[verifier::loop_isolation(false)]
fn trim_quote_marks(s: &str) -> (r: String)
    ensures
        r@ == trim_quotes(s@),
{
    let n = s.unicode_len();
    let mut a: usize = 0;
    while a < n && s.get_char(a) == '"'
        invariant
            a <= n,
            n == s@.len(),
            forall|k: int| 0 <= k < a ==> s@[k] == '"',
        decreases n - a,
    {
        a += 1;
    }
    proof {
        lemma_trim_lead(s@, a as int);
    }
    let mut b: usize = n;
    while b > a && s.get_char(b - 1) == '"'
        invariant
            a <= b <= n,
            forall|k: int| b <= k < n ==> s@[k] == '"',
        decreases b,
    {
        b -= 1;
    }
    let ghost t = s@.skip(a as int);
    proof {
        assert forall|k: int| b - a <= k < t.len() implies t[k] == '"' by {
            assert(t[k] == s@[a + k]);
        }
        if b > a {
            assert(t[b - a - 1] == s@[b - 1]);
        }
        lemma_trim_trail(t, b - a);
        assert(t.subrange(0, b - a) =~= s@.subrange(a as int, b as int));
    }
    s.substring_char(a, b).to_owned()
}

/// The final chat answer: the response's choice texts joined with
/// newlines, with quotation marks trimmed from both ends of the joined
/// text.
pub fn assemble_chat_answer(contents: &Vec<String>) -> (r: String)
    ensures
        r@ == trim_quotes(joined_lines(contents.deep_view())),
{
    let joined = join_lines(contents);
    trim_quote_marks(joined.as_str())
}

/// What the chat client does next, given the error shape of an answer.
#[derive(Clone, Copy, PartialEq, Eq, Structural, Debug)]
pub enum ChatAction {
    /// Ask again, without cap or backoff.
    Retry,
    /// Abort the whole run: no retry fixes a configuration or quota
    /// problem.
    Fatal,
}

/// How a chat error answer is handled: an answer with no error code, or
/// with a server-side code in 500..=599, is transient and retried; any
/// other code is fatal.
pub fn chat_error_action(code: Option<u32>) -> (r: ChatAction)
    ensures
        r == (match code {
            None => ChatAction::Retry,
            Some(c) => if 500 <= c <= 599 {
                ChatAction::Retry
            } else {
                ChatAction::Fatal
            },
        }),
{
    match code {
        None => ChatAction::Retry,
        Some(c) => if 500 <= c && c <= 599 {
            ChatAction::Retry
        } else {
            ChatAction::Fatal
        },
    }
}

/// One chat-completion translation, under the name of the prompt that
/// produced it, with the region its prompt targets.
pub struct PromptTranslation {
    pub name: String,
    pub text: String,
    pub region: Region,
}

/// Every translation of one article description.
pub struct Translations {
    pub chinese_text: String,
    pub google: String,
    pub chatgpt: Vec<PromptTranslation>,
}

} // verus!
