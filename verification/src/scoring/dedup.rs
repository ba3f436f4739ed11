//! Removal of the vocabulary common to every translation variant.

use vstd::prelude::*;

use crate::scoring::words::{lemma_filter_contains_all, lemma_filter_membership, not_in, WordSet};

verus! {

/// Holds when `w` lies in every one of `sets`.
pub open spec fn in_every_set(sets: Seq<WordSet>, w: Seq<char>) -> bool {
    forall|j: int| 0 <= j < sets.len() ==> sets[j]@.contains(w)
}

/// The words `dedup_sets` removes: those of the first set that appear in
/// every set. Membership in the first set is what lets a word be
/// considered at all.
pub open spec fn is_common(sets: Seq<WordSet>, w: Seq<char>) -> bool {
    sets.len() > 0 && sets[0]@.contains(w) && in_every_set(sets, w)
}

/// The predicate under which `dedup_sets` keeps a word.
pub open spec fn kept_by_dedup(sets: Seq<WordSet>) -> spec_fn(Seq<char>) -> bool {
    |w: Seq<char>| !is_common(sets, w)
}

/// The words of the first set that are present in every set.
fn common_words(sets: &Vec<WordSet>) -> (r: WordSet)
    requires
        sets@.len() >= 1,
        forall|i: int| 0 <= i < sets@.len() ==> (#[trigger] sets@[i]).wf(),
    ensures
        r.wf(),
        forall|w: Seq<char>| #[trigger] r@.contains(w) <==> is_common(sets@, w),
{
    let mut common = WordSet::new();
    let first_len = sets[0].len();
    let mut k: usize = 0;
    while k < first_len
        invariant
            first_len == sets@[0]@.len(),
            k <= first_len,
            sets@.len() >= 1,
            forall|i: int| 0 <= i < sets@.len() ==> (#[trigger] sets@[i]).wf(),
            common.wf(),
            forall|w: Seq<char>| #[trigger] common@.contains(w) <==> exists|k2: int|
                0 <= k2 < k && sets@[0]@[k2] == w && in_every_set(sets@, w),
        decreases first_len - k,
    {
        let word = sets[0].word_at(k);
        let mut all = true;
        let mut j: usize = 0;
        while j < sets.len()
            invariant
                j <= sets@.len(),
                word@ == sets@[0]@[k as int],
                all <==> (forall|j2: int| 0 <= j2 < j ==> (#[trigger] sets@[j2])@.contains(
                    word@,
                )),
            decreases sets@.len() - j,
        {
            if !sets[j].contains(word) {
                all = false;
            }
            j += 1;
        }
        let ghost prev = common@;
        if all {
            let owned = word.clone();
            common.insert(owned);
        }
        proof {
            let updated = common@;
            assert forall|w: Seq<char>| #[trigger] updated.contains(w) implies exists|k2: int|
                0 <= k2 < k + 1 && sets@[0]@[k2] == w && in_every_set(sets@, w) by {
                if prev.contains(w) {
                    let k2 = choose|k2: int|
                        0 <= k2 < k && sets@[0]@[k2] == w && in_every_set(sets@, w);
                    assert(0 <= k2 < k + 1 && sets@[0]@[k2] == w && in_every_set(sets@, w));
                } else {
                    let idx = choose|idx: int| 0 <= idx < updated.len() && updated[idx] == w;
                    if idx < prev.len() {
                        assert(prev[idx] == w);
                        assert(false);
                    }
                    assert(w == word@);
                    assert(sets@[0]@[k as int] == w && in_every_set(sets@, w));
                }
            }
            assert forall|w: Seq<char>|
                exists|k2: int|
                    0 <= k2 < k + 1 && sets@[0]@[k2] == w && in_every_set(
                        sets@,
                        w,
                    ) implies #[trigger] updated.contains(w) by {
                let k2 = choose|k2: int|
                    0 <= k2 < k + 1 && sets@[0]@[k2] == w && in_every_set(sets@, w);
                if k2 < k {
                    assert(prev.contains(w));
                    let j = choose|j: int| 0 <= j < prev.len() && prev[j] == w;
                    assert(updated[j] == w);
                } else {
                    assert(w == word@);
                    assert(in_every_set(sets@, w));
                    if prev.contains(w) {
                        let j = choose|j: int| 0 <= j < prev.len() && prev[j] == w;
                        assert(updated[j] == w);
                    } else {
                        assert(updated == prev.push(word@));
                        assert(updated[prev.len() as int] == w);
                    }
                }
            }
        }
        k += 1;
    }
    proof {
        assert forall|w: Seq<char>| is_common(sets@, w) implies common@.contains(w) by {
            let k2 = choose|k2: int| 0 <= k2 < sets@[0]@.len() && sets@[0]@[k2] == w;
        }
    }
    common
}

/// Take a slice of word sets and remove the words present in every set.
///
/// Only words of the first set are candidates: a word absent from the
/// first set stays everywhere, even when every other set holds it.
/// Surviving words keep their relative order.
pub fn dedup_sets(sets: &mut Vec<WordSet>)
    requires
        old(sets)@.len() >= 1,
        forall|i: int| 0 <= i < old(sets)@.len() ==> (#[trigger] old(sets)@[i]).wf(),
    ensures
        final(sets)@.len() == old(sets)@.len(),
        forall|i: int| 0 <= i < final(sets)@.len() ==> (#[trigger] final(sets)@[i]).wf(),
        forall|i: int| 0 <= i < final(sets)@.len() ==> (#[trigger] final(sets)@[i])@ == old(
            sets,
        )@[i]@.filter(kept_by_dedup(old(sets)@)),
{
    let ghost orig = sets@;
    let common = common_words(sets);
    proof {
        assert(not_in(common@) =~= kept_by_dedup(orig));
    }
    let mut i: usize = 0;
    while i < sets.len()
        invariant
            sets@.len() == orig.len(),
            i <= orig.len(),
            common.wf(),
            not_in(common@) == kept_by_dedup(orig),
            forall|idx: int| 0 <= idx < orig.len() ==> (#[trigger] orig[idx]).wf(),
            forall|idx: int| i <= idx < orig.len() ==> sets@[idx] == orig[idx],
            forall|idx: int| 0 <= idx < i ==> (#[trigger] sets@[idx]).wf(),
            forall|idx: int| 0 <= idx < i ==> (#[trigger] sets@[idx])@ == orig[idx]@.filter(
                kept_by_dedup(orig),
            ),
        decreases orig.len() - i,
    {
        proof {
            assert(sets@[i as int] == orig[i as int]);
            assert(orig[i as int].wf());
        }
        sets[i].remove_all(&common);
        i += 1;
    }
}

/// Cross-set deduplication removes exactly the common vocabulary: a word
/// present in every set (the first included) is afterwards absent from
/// every set, while a word absent from the first set keeps its membership
/// in each set unchanged.
pub proof fn lemma_dedup_removes_exactly(pre: Seq<WordSet>, post: Seq<WordSet>, w: Seq<char>)
    requires
        pre.len() >= 1,
        post.len() == pre.len(),
        forall|i: int| 0 <= i < post.len() ==> (#[trigger] post[i])@ == pre[i]@.filter(
            kept_by_dedup(pre),
        ),
    ensures
        is_common(pre, w) ==> forall|i: int|
            0 <= i < post.len() ==> !(#[trigger] post[i])@.contains(w),
        !pre[0]@.contains(w) ==> forall|i: int|
            0 <= i < post.len() ==> (#[trigger] post[i])@.contains(w) == pre[i]@.contains(w),
{
    if is_common(pre, w) {
        assert forall|i: int| 0 <= i < post.len() implies !(#[trigger] post[i])@.contains(w) by {
            if post[i]@.contains(w) {
                lemma_filter_membership(pre[i]@, kept_by_dedup(pre), w);
            }
        }
    }
    if !pre[0]@.contains(w) {
        assert(!is_common(pre, w));
        assert forall|i: int| 0 <= i < post.len() implies (#[trigger] post[i])@.contains(w)
            == pre[i]@.contains(w) by {
            if post[i]@.contains(w) {
                lemma_filter_membership(pre[i]@, kept_by_dedup(pre), w);
            }
            if pre[i]@.contains(w) {
                lemma_filter_contains_all(pre[i]@, kept_by_dedup(pre), w);
            }
        }
    }
}

} // verus!
