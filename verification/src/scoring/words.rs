//! An ordered set of normalized words belonging to one translation variant.

use vstd::prelude::*;

verus! {

/// The predicate under which `WordSet::remove_all` keeps a word.
pub open spec fn not_in(other: Seq<Seq<char>>) -> spec_fn(Seq<char>) -> bool {
    |w: Seq<char>| !other.contains(w)
}

/// The set of content words of one translation variant, kept in insertion
/// order with no duplicates. Viewed as the sequence of its words' character
/// sequences.
pub struct WordSet {
    words: Vec<String>,
}

impl View for WordSet {
    type V = Seq<Seq<char>>;

    closed spec fn view(&self) -> Seq<Seq<char>> {
        self.words.deep_view()
    }
}

impl WordSet {
    /// No word occurs twice.
    pub open spec fn wf(self) -> bool {
        forall|i: int, j: int| 0 <= i < j < self@.len() ==> self@[i] != self@[j]
    }

    pub fn new() -> (r: WordSet)
        ensures
            r@ =~= Seq::<Seq<char>>::empty(),
            r.wf(),
    {
        WordSet { words: Vec::new() }
    }

    pub fn len(&self) -> (r: usize)
        ensures
            r == self@.len(),
    {
        self.words.len()
    }

    pub fn is_empty(&self) -> (r: bool)
        ensures
            r == (self@.len() == 0),
    {
        self.words.len() == 0
    }

    pub fn word_at(&self, i: usize) -> (r: &String)
        requires
            i < self@.len(),
        ensures
            r@ == self@[i as int],
    {
        &self.words[i]
    }

    pub fn contains(&self, word: &String) -> (r: bool)
        ensures
            r == self@.contains(word@),
    {
        let mut i: usize = 0;
        while i < self.words.len()
            invariant
                i <= self@.len(),
                forall|k: int| 0 <= k < i ==> self@[k] != word@,
            decreases self@.len() - i,
        {
            if self.words[i] == *word {
                assert(self@[i as int] == word@);
                return true;
            }
            i += 1;
        }
        false
    }

    /// Adds a word; a word already present is left alone, so membership is
    /// set-like while first-insertion order is kept.
    pub fn insert(&mut self, word: String)
        requires
            old(self).wf(),
        ensures
            final(self).wf(),
            final(self)@ =~= (if old(self)@.contains(word@) {
                old(self)@
            } else {
                old(self)@.push(word@)
            }),
    {
        if !self.contains(&word) {
            let ghost prev = self@;
            self.words.push(word);
            assert(self@ =~= prev.push(word@));
        }
    }

    /// Removes every word that `other` contains; the surviving words keep
    /// their relative order.
    pub fn remove_all(&mut self, other: &WordSet)
        requires
            old(self).wf(),
        ensures
            final(self).wf(),
            final(self)@ =~= old(self)@.filter(not_in(other@)),
    {
        let ghost orig: Seq<Seq<char>> = self@;
        let mut kept: Vec<String> = Vec::new();
        let mut i: usize = 0;
        proof {
            reveal(Seq::filter);
            assert(orig.subrange(0, 0) =~= Seq::<Seq<char>>::empty());
        }
        while i < self.words.len()
            invariant
                i <= orig.len(),
                self@ == orig,
                kept.deep_view() =~= orig.subrange(0, i as int).filter(not_in(other@)),
            decreases orig.len() - i,
        {
            let ghost prev = kept.deep_view();
            assert(self.words[i as int]@ == orig[i as int]);
            if !other.contains(&self.words[i]) {
                kept.push(self.words[i].clone());
                assert(kept.deep_view() =~= prev.push(orig[i as int]));
            }
            proof {
                reveal(Seq::filter);
                assert(orig.subrange(0, i + 1).drop_last() =~= orig.subrange(0, i as int));
                assert(orig.subrange(0, i + 1).last() == orig[i as int]);
            }
            i += 1;
        }
        proof {
            assert(orig.subrange(0, orig.len() as int) =~= orig);
            lemma_filter_distinct(orig, not_in(other@));
        }
        self.words = kept;
    }
}

/// A word the predicate keeps stays in the filtered sequence.
pub(crate) proof fn lemma_filter_contains_all<A>(s: Seq<A>, pred: spec_fn(A) -> bool, x: A)
    requires
        s.contains(x),
        pred(x),
    ensures
        s.filter(pred).contains(x),
{
    let i = choose|i: int| 0 <= i < s.len() && s[i] == x;
    s.lemma_filter_contains(pred, i);
}

/// A word of a filtered sequence was a word of the sequence, and satisfies
/// the predicate.
pub(crate) proof fn lemma_filter_membership<A>(s: Seq<A>, pred: spec_fn(A) -> bool, x: A)
    requires
        s.filter(pred).contains(x),
    ensures
        s.contains(x),
        pred(x),
    decreases s.len(),
{
    reveal(Seq::filter);
    if s.len() > 0 {
        let rest = s.drop_last();
        if pred(s.last()) && x == s.last() {
            assert(s[s.len() - 1] == x);
        } else {
            assert(rest.filter(pred).contains(x));
            lemma_filter_membership(rest, pred, x);
            let j = choose|j: int| 0 <= j < rest.len() && rest[j] == x;
            assert(s[j] == x);
        }
    }
}

/// Filtering a duplicate-free sequence leaves it duplicate-free.
proof fn lemma_filter_distinct<A>(s: Seq<A>, pred: spec_fn(A) -> bool)
    requires
        forall|i: int, j: int| 0 <= i < j < s.len() ==> s[i] != s[j],
    ensures
        forall|i: int, j: int|
            0 <= i < j < s.filter(pred).len() ==> s.filter(pred)[i] != s.filter(pred)[j],
    decreases s.len(),
{
    reveal(Seq::filter);
    if s.len() > 0 {
        let rest = s.drop_last();
        assert(forall|i: int, j: int| 0 <= i < j < rest.len() ==> rest[i] != rest[j]);
        lemma_filter_distinct(rest, pred);
        let f = rest.filter(pred);
        if pred(s.last()) {
            if f.contains(s.last()) {
                lemma_filter_membership(rest, pred, s.last());
                let j = choose|j: int| 0 <= j < rest.len() && rest[j] == s.last();
                assert(s[j] == s[s.len() - 1]);
                assert(false);
            }
            assert forall|i: int, j: int|
                0 <= i < j < s.filter(pred).len() implies s.filter(pred)[i]
                != s.filter(pred)[j] by {
                if j < f.len() {
                    assert(s.filter(pred)[i] == f[i] && s.filter(pred)[j] == f[j]);
                } else {
                    assert(s.filter(pred)[j] == s.last());
                    assert(f.contains(f[i]));
                }
            }
        }
    }
}

} // verus!
