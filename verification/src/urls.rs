//! Ordering-preserving deduplication of scraped article URLs.

use vstd::prelude::*;

use crate::scoring::words::WordSet;

verus! {

/// What removing later duplicates leaves: each URL at its first
/// occurrence, in that order.
pub open spec fn first_occurrences(s: Seq<Seq<char>>) -> Seq<Seq<char>>
    decreases s.len(),
{
    if s.len() == 0 {
        s
    } else {
        let rest = first_occurrences(s.drop_last());
        if rest.contains(s.last()) {
            rest
        } else {
            rest.push(s.last())
        }
    }
}

/// Drops every URL equal to an earlier one, keeping first occurrences in
/// their original order.
pub fn dedup_urls(urls: Vec<String>) -> (r: Vec<String>)
    ensures
        r.deep_view() == first_occurrences(urls.deep_view()),
{
    let ghost all = urls.deep_view();
    let mut result: Vec<String> = Vec::new();
    let mut seen = WordSet::new();
    let mut i: usize = 0;
    proof {
        assert(all.subrange(0, 0) =~= Seq::<Seq<char>>::empty());
    }
    while i < urls.len()
        invariant
            all == urls.deep_view(),
            i <= all.len(),
            seen.wf(),
            result.deep_view() =~= first_occurrences(all.subrange(0, i as int)),
            forall|t: Seq<char>| #[trigger] seen@.contains(t) == result.deep_view().contains(t),
        decreases all.len() - i,
    {
        let ghost prefix = all.subrange(0, i as int);
        let ghost prev = result.deep_view();
        let url = &urls[i];
        proof {
            assert(url@ == all[i as int]);
            assert(all.subrange(0, i + 1).drop_last() =~= prefix);
            assert(all.subrange(0, i + 1).last() == all[i as int]);
        }
        if !seen.contains(url) {
            let ghost prev_seen = seen@;
            seen.insert(url.clone());
            result.push(url.clone());
            proof {
                let cur = result.deep_view();
                let u = all[i as int];
                assert(cur =~= prev.push(u));
                assert(seen@ =~= prev_seen.push(u));
                assert(!prev.contains(u));
                assert forall|t: Seq<char>| #[trigger] seen@.contains(t) == cur.contains(t) by {
                    if seen@.contains(t) {
                        let j = choose|j: int| 0 <= j < seen@.len() && seen@[j] == t;
                        if j < prev_seen.len() {
                            assert(prev_seen[j] == t);
                            assert(prev_seen.contains(t));
                            assert(prev.contains(t));
                            let j2 = choose|j2: int| 0 <= j2 < prev.len() && prev[j2] == t;
                            assert(cur[j2] == t);
                        } else {
                            assert(t == u);
                            assert(cur[cur.len() - 1] == t);
                        }
                    }
                    if cur.contains(t) {
                        let j = choose|j: int| 0 <= j < cur.len() && cur[j] == t;
                        if j < prev.len() {
                            assert(prev[j] == t);
                            assert(prev.contains(t));
                            assert(prev_seen.contains(t));
                            let j2 = choose|j2: int|
                                0 <= j2 < prev_seen.len() && prev_seen[j2] == t;
                            assert(seen@[j2] == t);
                        } else {
                            assert(t == u);
                            assert(seen@[prev_seen.len() as int] == t);
                        }
                    }
                }
            }
        } else {
            proof {
                assert(prev.contains(url@));
            }
        }
        i += 1;
    }
    proof {
        assert(all.subrange(0, all.len() as int) =~= all);
    }
    result
}

} // verus!
