//! The trend-score cache: an in-memory table in front of the durable
//! score store, with single-flight bookkeeping for concurrent lookups.
//!
//! The cache itself is a sequential state machine. The caller that drives
//! it concurrently performs each step under one lock and does the actual
//! network fetch between a `Reserved` decision and the matching
//! `complete` or `fail`; a fetched score is persisted to the durable
//! store before `complete` caches it in memory.

use vstd::prelude::*;

use crate::scoring::Region;

verus! {

/// The sole lookup and storage key: a normalized word and the region its
/// popularity is measured in.
pub struct ScoreKey {
    pub word: String,
    pub region: Region,
}

impl View for ScoreKey {
    type V = (Seq<char>, Region);

    open spec fn view(&self) -> (Seq<char>, Region) {
        (self.word@, self.region)
    }
}

/// One observed trend score for a key. The score is carried as the bit
/// pattern of its 64-bit float; the library stores and compares it but
/// never does arithmetic on it.
pub struct ScoreRecord {
    pub key: ScoreKey,
    pub score_bits: u64,
}

/// The score the records give a key: the first record written for the
/// key wins, and later duplicates are ignored.
pub open spec fn store_lookup(records: Seq<ScoreRecord>, k: (Seq<char>, Region)) -> Option<u64>
    decreases records.len(),
{
    if records.len() == 0 {
        None
    } else if records[0].key@ == k {
        Some(records[0].score_bits)
    } else {
        store_lookup(records.drop_first(), k)
    }
}

/// Whether some record carries the key.
pub open spec fn has_record(records: Seq<ScoreRecord>, k: (Seq<char>, Region)) -> bool {
    exists|i: int| 0 <= i < records.len() && (#[trigger] records[i]).key@ == k
}

proof fn lemma_store_lookup_found(s: Seq<ScoreRecord>, k: (Seq<char>, Region), i: int)
    requires
        0 <= i < s.len(),
        s[i].key@ == k,
        forall|j: int| 0 <= j < i ==> (#[trigger] s[j]).key@ != k,
    ensures
        store_lookup(s, k) == Some(s[i].score_bits),
    decreases s.len(),
{
    if i > 0 {
        let rest = s.drop_first();
        assert forall|j: int| 0 <= j < i - 1 implies (#[trigger] rest[j]).key@ != k by {
            assert(rest[j] == s[j + 1]);
        }
        assert(rest[i - 1] == s[i]);
        lemma_store_lookup_found(rest, k, i - 1);
    }
}

proof fn lemma_store_lookup_absent(s: Seq<ScoreRecord>, k: (Seq<char>, Region))
    requires
        forall|j: int| 0 <= j < s.len() ==> (#[trigger] s[j]).key@ != k,
    ensures
        store_lookup(s, k) is None,
    decreases s.len(),
{
    if s.len() > 0 {
        let rest = s.drop_first();
        assert forall|j: int| 0 <= j < rest.len() implies (#[trigger] rest[j]).key@ != k by {
            assert(rest[j] == s[j + 1]);
        }
        lemma_store_lookup_absent(rest, k);
    }
}

proof fn lemma_store_lookup_present(s: Seq<ScoreRecord>, k: (Seq<char>, Region))
    requires
        has_record(s, k),
    ensures
        store_lookup(s, k) is Some,
    decreases s.len(),
{
    let i = choose|i: int| 0 <= i < s.len() && (#[trigger] s[i]).key@ == k;
    if i > 0 && s[0].key@ != k {
        let rest = s.drop_first();
        assert(rest[i - 1] == s[i]);
        assert(has_record(rest, k));
        lemma_store_lookup_present(rest, k);
    }
}

/// Appending a record changes no key already answered, fills exactly the
/// appended key when it was absent, and leaves every other key absent.
pub proof fn lemma_store_lookup_append(s: Seq<ScoreRecord>, rec: ScoreRecord, k: (
    Seq<char>,
    Region,
))
    ensures
        store_lookup(s.push(rec), k) == (if store_lookup(s, k) is Some {
            store_lookup(s, k)
        } else if rec.key@ == k {
            Some(rec.score_bits)
        } else {
            None
        }),
    decreases s.len(),
{
    if s.len() == 0 {
        assert(s.push(rec)[0] == rec);
        assert(s.push(rec).drop_first() =~= Seq::<ScoreRecord>::empty());
        assert(store_lookup(s, k) is None);
        if rec.key@ == k {
            assert(store_lookup(s.push(rec), k) == Some(rec.score_bits));
        } else {
            assert(store_lookup(s.push(rec), k) == store_lookup(
                Seq::<ScoreRecord>::empty(),
                k,
            ));
        }
    } else {
        assert(s.push(rec)[0] == s[0]);
        assert(s.push(rec).drop_first() =~= s.drop_first().push(rec));
        lemma_store_lookup_append(s.drop_first(), rec, k);
        if s[0].key@ == k {
            assert(store_lookup(s.push(rec), k) == Some(s[0].score_bits));
            assert(store_lookup(s, k) == Some(s[0].score_bits));
        } else {
            assert(store_lookup(s.push(rec), k) == store_lookup(s.drop_first().push(rec), k));
            assert(store_lookup(s, k) == store_lookup(s.drop_first(), k));
        }
    }
}

/// The first record whose key matches, scanning from the front.
fn find_score(records: &Vec<ScoreRecord>, word: &String, region: Region) -> (r: Option<u64>)
    ensures
        r == store_lookup(records@, (word@, region)),
{
    let ghost k = (word@, region);
    let mut i: usize = 0;
    while i < records.len()
        invariant
            i <= records@.len(),
            k == (word@, region),
            forall|j: int| 0 <= j < i ==> (#[trigger] records@[j]).key@ != k,
        decreases records@.len() - i,
    {
        let rec = &records[i];
        if rec.key.word == *word && rec.key.region == region {
            proof {
                lemma_store_lookup_found(records@, k, i as int);
            }
            return Some(rec.score_bits);
        }
        i += 1;
    }
    proof {
        lemma_store_lookup_absent(records@, k);
    }
    None
}

/// The durable score store: an append-only table of observed scores that
/// survives restarts. This is the table's logical content; reading and
/// writing the on-disk rows is the embedding program's part, which mirrors
/// every `put` to disk before relying on it.
pub struct ScoreStore {
    records: Vec<ScoreRecord>,
}

impl View for ScoreStore {
    type V = Seq<ScoreRecord>;

    closed spec fn view(&self) -> Seq<ScoreRecord> {
        self.records@
    }
}

impl ScoreStore {
    pub fn new() -> (r: ScoreStore)
        ensures
            r@ =~= Seq::<ScoreRecord>::empty(),
    {
        ScoreStore { records: Vec::new() }
    }

    /// Appends a record. The store is never updated in place: a duplicate
    /// insert for an existing key is kept but never read back, since
    /// lookups take the first match.
    pub fn put(&mut self, record: ScoreRecord)
        ensures
            final(self)@ == old(self)@.push(record),
    {
        self.records.push(record);
    }

    /// The score stored for a key, first writer winning.
    pub fn get(&self, word: &String, region: Region) -> (r: Option<u64>)
        ensures
            r == store_lookup(self@, (word@, region)),
    {
        find_score(&self.records, word, region)
    }

    /// Every record, in insertion order; used once at startup to prime
    /// the in-memory cache.
    pub fn load_all(&self) -> (r: &Vec<ScoreRecord>)
        ensures
            r@ == self@,
    {
        &self.records
    }
}

/// What the cache tells a caller that asks for a key.
#[derive(Clone, Copy, PartialEq, Eq, Structural, Debug)]
pub enum Decision {
    /// The key is cached; this is its score, and every caller gets it.
    Hit(u64),
    /// Someone else's fetch for the key is outstanding: join it and wait.
    InFlight,
    /// The caller now owns the key's one fetch and must end it with
    /// `complete` or `fail`.
    Reserved,
}

/// Google Trends data manager: an in-memory score cache in front of the
/// durable store, collapsing concurrent lookups of one key into a single
/// fetch.
pub struct Trends {
    entries: Vec<ScoreRecord>,
    in_flight: Vec<ScoreKey>,
}

impl Trends {
    /// The score the in-memory cache holds for a key.
    pub closed spec fn cached(self, k: (Seq<char>, Region)) -> Option<u64> {
        store_lookup(self.entries@, k)
    }

    /// Whether a fetch for the key is outstanding.
    pub closed spec fn pending(self, k: (Seq<char>, Region)) -> bool {
        exists|i: int| 0 <= i < self.in_flight@.len() && (#[trigger] self.in_flight@[i])@ == k
    }

    /// Entry keys are unique, outstanding keys are unique, and no
    /// outstanding key is already cached.
    pub closed spec fn wf(self) -> bool {
        &&& (forall|i: int, j: int|
            0 <= i < j < self.entries@.len() ==> (#[trigger] self.entries@[i]).key@ != (
            #[trigger] self.entries@[j]).key@)
        &&& (forall|i: int, j: int|
            0 <= i < j < self.in_flight@.len() ==> (#[trigger] self.in_flight@[i])@ != (
            #[trigger] self.in_flight@[j])@)
        &&& (forall|i: int, j: int|
            0 <= i < self.entries@.len() && 0 <= j < self.in_flight@.len() ==> (
            #[trigger] self.entries@[i]).key@ != (#[trigger] self.in_flight@[j])@)
    }

    /// The decision a lookup takes for a key, determined by the state
    /// alone: a cached key is a hit, an outstanding key is joined, and
    /// only a key that is neither awards the fetch to the caller.
    pub open spec fn spec_decision(self, k: (Seq<char>, Region)) -> Decision {
        match self.cached(k) {
            Some(score_bits) => Decision::Hit(score_bits),
            None => if self.pending(k) {
                Decision::InFlight
            } else {
                Decision::Reserved
            },
        }
    }

    /// Builds the cache from the durable store's records, first writer
    /// winning, with no fetch outstanding.
    pub fn new(records: &Vec<ScoreRecord>) -> (r: Trends)
        ensures
            r.wf(),
            forall|k: (Seq<char>, Region)| #[trigger] r.cached(k) == store_lookup(records@, k),
            forall|k: (Seq<char>, Region)| !(#[trigger] r.pending(k)),
    {
        let mut entries: Vec<ScoreRecord> = Vec::new();
        let mut i: usize = 0;
        proof {
            assert(records@.subrange(0, 0) =~= Seq::<ScoreRecord>::empty());
        }
        while i < records.len()
            invariant
                i <= records@.len(),
                forall|a: int, b: int|
                    0 <= a < b < entries@.len() ==> (#[trigger] entries@[a]).key@ != (
                    #[trigger] entries@[b]).key@,
                forall|k: (Seq<char>, Region)| #[trigger] store_lookup(entries@, k)
                    == store_lookup(records@.subrange(0, i as int), k),
            decreases records@.len() - i,
        {
            let ghost prefix = records@.subrange(0, i as int);
            let ghost prev = entries@;
            let rec = &records[i];
            let existing = find_score(&entries, &rec.key.word, rec.key.region);
            if existing.is_none() {
                entries.push(ScoreRecord {
                    key: ScoreKey { word: rec.key.word.clone(), region: rec.key.region },
                    score_bits: rec.score_bits,
                });
                proof {
                    assert(entries@ == prev.push(entries@[prev.len() as int]));
                    assert(entries@[prev.len() as int].key@ == records@[i as int].key@);
                    assert forall|a: int, b: int|
                        0 <= a < b < entries@.len() implies (#[trigger] entries@[a]).key@ != (
                    #[trigger] entries@[b]).key@ by {
                        if b == entries@.len() - 1 {
                            if entries@[a].key@ == entries@[b].key@ {
                                assert(has_record(prev, entries@[b].key@));
                                lemma_store_lookup_present(prev, entries@[b].key@);
                            }
                        }
                    }
                }
            }
            proof {
                assert(records@.subrange(0, i + 1).drop_last() =~= prefix);
                assert(records@.subrange(0, i + 1) =~= prefix.push(records@[i as int]));
                assert forall|k: (Seq<char>, Region)| #[trigger] store_lookup(entries@, k)
                    == store_lookup(records@.subrange(0, i + 1), k) by {
                    lemma_store_lookup_append(prefix, records@[i as int], k);
                    if existing is None {
                        lemma_store_lookup_append(prev, entries@[prev.len() as int], k);
                    }
                }
            }
            i += 1;
        }
        proof {
            assert(records@.subrange(0, records@.len() as int) =~= records@);
        }
        let trends = Trends { entries, in_flight: Vec::new() };
        proof {
            assert forall|k: (Seq<char>, Region)| !(#[trigger] trends.pending(k)) by {}
        }
        trends
    }

    /// The cached score for a key, with no side effect: a plain read.
    pub fn lookup(&self, word: &String, region: Region) -> (r: Option<u64>)
        ensures
            r == self.cached((word@, region)),
    {
        find_score(&self.entries, word, region)
    }

    /// One atomic check-then-reserve step. A hit returns the cached
    /// score; a key someone is already fetching is joined; otherwise the
    /// caller is awarded the key's single fetch and the key becomes
    /// outstanding. Nothing else changes.
    pub fn lookup_or_reserve(&mut self, word: &String, region: Region) -> (d: Decision)
        requires
            old(self).wf(),
        ensures
            final(self).wf(),
            d == old(self).spec_decision((word@, region)),
            d != Decision::Reserved ==> *final(self) == *old(self),
            forall|k: (Seq<char>, Region)| #[trigger] final(self).cached(k) == old(self).cached(
                k,
            ),
            d == Decision::Reserved ==> final(self).pending((word@, region)),
            forall|k: (Seq<char>, Region)| k != (word@, region) ==> #[trigger] final(self).pending(k) == old(self).pending(k),
    {
        let ghost k = (word@, region);
        match find_score(&self.entries, word, region) {
            Some(score_bits) => Decision::Hit(score_bits),
            None => {
                if self.key_pending(word, region) {
                    Decision::InFlight
                } else {
                    let ghost prev = self.in_flight@;
                    self.in_flight.push(ScoreKey { word: word.clone(), region });
                    proof {
                        assert(self.in_flight@ == prev.push(self.in_flight@[prev.len() as int]));
                        assert(self.in_flight@[prev.len() as int]@ == k);
                        assert(self.pending(k));
                        assert forall|k2: (Seq<char>, Region)|
                            k2 != k implies #[trigger] self.pending(k2) == old(self).pending(
                            k2,
                        ) by {
                            if self.pending(k2) {
                                let idx = choose|idx: int|
                                    0 <= idx < self.in_flight@.len() && (
                                    #[trigger] self.in_flight@[idx])@ == k2;
                                assert(idx < prev.len());
                                assert(prev[idx]@ == k2);
                            }
                            if old(self).pending(k2) {
                                let idx = choose|idx: int|
                                    0 <= idx < prev.len() && (#[trigger] prev[idx])@ == k2;
                                assert(self.in_flight@[idx]@ == k2);
                            }
                        }
                        assert forall|a: int, b: int|
                            0 <= a < b < self.in_flight@.len() implies (
                        #[trigger] self.in_flight@[a])@ != (#[trigger] self.in_flight@[b])@ by {
                            if b == self.in_flight@.len() - 1 {
                                assert(prev[a]@ == self.in_flight@[a]@);
                                assert(!old(self).pending(k));
                            }
                        }
                        assert forall|a: int, b: int|
                            0 <= a < self.entries@.len() && 0 <= b < self.in_flight@.len() implies (
                        #[trigger] self.entries@[a]).key@ != (#[trigger] self.in_flight@[b])@ by {
                            if b == self.in_flight@.len() - 1 {
                                if self.entries@[a].key@ == k {
                                    assert(has_record(self.entries@, k));
                                    lemma_store_lookup_present(self.entries@, k);
                                }
                            }
                        }
                    }
                    Decision::Reserved
                }
            },
        }
    }

    /// Whether a fetch for the key is outstanding; a plain read.
    pub fn key_pending(&self, word: &String, region: Region) -> (r: bool)
        ensures
            r == self.pending((word@, region)),
    {
        let ghost k = (word@, region);
        let mut i: usize = 0;
        while i < self.in_flight.len()
            invariant
                i <= self.in_flight@.len(),
                k == (word@, region),
                forall|j: int| 0 <= j < i ==> (#[trigger] self.in_flight@[j])@ != k,
            decreases self.in_flight@.len() - i,
        {
            let key = &self.in_flight[i];
            if key.word == *word && key.region == region {
                assert(self.in_flight@[i as int]@ == k);
                return true;
            }
            i += 1;
        }
        false
    }

    /// Ends the key's outstanding fetch with its score and caches it; the
    /// caller has already persisted the record to the durable store.
    /// Every key but this one is untouched, so all waiters now hit the
    /// same score.
    pub fn complete(&mut self, word: &String, region: Region, score_bits: u64)
        requires
            old(self).wf(),
            old(self).pending((word@, region)),
        ensures
            final(self).wf(),
            final(self).cached((word@, region)) == Some(score_bits),
            !final(self).pending((word@, region)),
            forall|k: (Seq<char>, Region)| k != (word@, region) ==> #[trigger] final(self).cached(k) == old(self).cached(k),
            forall|k: (Seq<char>, Region)| k != (word@, region) ==> #[trigger] final(self).pending(k) == old(self).pending(k),
    {
        let ghost k = (word@, region);
        self.remove_pending(word, region);
        let ghost mid = *self;
        let ghost mid_entries = self.entries@;
        proof {
            if has_record(self.entries@, k) {
                lemma_store_lookup_present(self.entries@, k);
            }
            lemma_store_lookup_absent_has(self.entries@, k);
        }
        self.entries.push(ScoreRecord {
            key: ScoreKey { word: word.clone(), region },
            score_bits,
        });
        proof {
            assert(self.in_flight@ == mid.in_flight@);
            assert forall|k2: (Seq<char>, Region)| #[trigger] self.pending(k2) == mid.pending(
                k2,
            ) by {
                if self.pending(k2) {
                    let idx = choose|idx: int|
                        0 <= idx < self.in_flight@.len() && (#[trigger] self.in_flight@[idx])@
                            == k2;
                    assert(mid.in_flight@[idx]@ == k2);
                }
                if mid.pending(k2) {
                    let idx = choose|idx: int|
                        0 <= idx < mid.in_flight@.len() && (#[trigger] mid.in_flight@[idx])@ == k2;
                    assert(self.in_flight@[idx]@ == k2);
                }
            }
            let rec = self.entries@[mid_entries.len() as int];
            assert(self.entries@ == mid_entries.push(rec));
            assert(rec.key@ == k);
            assert forall|k2: (Seq<char>, Region)| true implies #[trigger] self.cached(k2) == (
            if k2 == k {
                Some(score_bits)
            } else {
                old(self).cached(k2)
            }) by {
                lemma_store_lookup_append(mid_entries, rec, k2);
            }
            assert forall|a: int, b: int|
                0 <= a < b < self.entries@.len() implies (#[trigger] self.entries@[a]).key@ != (
            #[trigger] self.entries@[b]).key@ by {
                if b == self.entries@.len() - 1 {
                    if self.entries@[a].key@ == k {
                        assert(has_record(mid_entries, k));
                    }
                }
            }
            assert forall|a: int, b: int|
                0 <= a < self.entries@.len() && 0 <= b < self.in_flight@.len() implies (
            #[trigger] self.entries@[a]).key@ != (#[trigger] self.in_flight@[b])@ by {
                if a == self.entries@.len() - 1 {
                    assert(!self.pending(k));
                    assert(self.in_flight@[b]@ != k);
                }
            }
        }
    }

    /// Ends the key's outstanding fetch with its failure. The key is not
    /// cached as failed: the next caller is awarded a fresh fetch.
    pub fn fail(&mut self, word: &String, region: Region)
        requires
            old(self).wf(),
            old(self).pending((word@, region)),
        ensures
            final(self).wf(),
            !final(self).pending((word@, region)),
            forall|k: (Seq<char>, Region)| #[trigger] final(self).cached(k) == old(self).cached(
                k,
            ),
            forall|k: (Seq<char>, Region)| k != (word@, region) ==> #[trigger] final(self).pending(k) == old(self).pending(k),
    {
        self.remove_pending(word, region);
    }

    /// Removes the key's one outstanding entry.
    #[verifier::loop_isolation(false)]
    fn remove_pending(&mut self, word: &String, region: Region)
        requires
            old(self).wf(),
            old(self).pending((word@, region)),
        ensures
            final(self).wf(),
            final(self).entries@ == old(self).entries@,
            !final(self).pending((word@, region)),
            forall|k: (Seq<char>, Region)| k != (word@, region) ==> #[trigger] final(self).pending(k) == old(self).pending(k),
    {
        let ghost k = (word@, region);
        let ghost prev = self.in_flight@;
        let mut i: usize = 0;
        while i < self.in_flight.len()
            invariant
                self.in_flight@ == prev,
                self.entries@ == old(self).entries@,
                i <= prev.len(),
                self.pending(k),
                forall|j: int| 0 <= j < i ==> (#[trigger] prev[j])@ != k,
                k == (word@, region),
            decreases prev.len() - i,
        {
            let key = &self.in_flight[i];
            if key.word == *word && key.region == region {
                assert(prev[i as int]@ == k);
                let ghost idx = i as int;
                self.in_flight.remove(i);
                proof {
                    let cur = self.in_flight@;
                    assert(cur == prev.remove(idx));
                    assert forall|j: int| 0 <= j < cur.len() implies (#[trigger] cur[j])@ != k by {
                        if j < idx {
                            assert(cur[j] == prev[j]);
                        } else {
                            assert(cur[j] == prev[j + 1]);
                            assert(prev[idx]@ == k);
                            assert(prev[idx]@ != prev[j + 1]@);
                        }
                    }
                    assert forall|k2: (Seq<char>, Region)|
                        k2 != k && old(self).pending(k2) implies #[trigger] self.pending(k2) by {
                        let j = choose|j: int| 0 <= j < prev.len() && (#[trigger] prev[j])@ == k2;
                        if j < idx {
                            assert(cur[j]@ == k2);
                        } else {
                            assert(j != idx);
                            assert(cur[j - 1]@ == k2);
                        }
                    }
                    assert forall|k2: (Seq<char>, Region)|
                        k2 != k && self.pending(k2) implies old(self).pending(k2) by {
                        let j = choose|j: int| 0 <= j < cur.len() && (#[trigger] cur[j])@ == k2;
                        if j < idx {
                            assert(prev[j]@ == k2);
                        } else {
                            assert(prev[j + 1]@ == k2);
                        }
                    }
                    assert forall|a: int, b: int|
                        0 <= a < b < cur.len() implies (#[trigger] cur[a])@ != (
                    #[trigger] cur[b])@ by {
                        let pa = if a < idx { a } else { a + 1 };
                        let pb = if b < idx { b } else { b + 1 };
                        assert(cur[a] == prev[pa]);
                        assert(cur[b] == prev[pb]);
                    }
                    assert forall|a: int, b: int|
                        0 <= a < self.entries@.len() && 0 <= b < cur.len() implies (
                    #[trigger] self.entries@[a]).key@ != (#[trigger] cur[b])@ by {
                        let pb = if b < idx { b } else { b + 1 };
                        assert(cur[b] == prev[pb]);
                        assert(self.entries@ == old(self).entries@);
                        assert(old(self).entries@[a].key@ != old(self).in_flight@[pb]@);
                    }
                }
                return ;
            }
            i += 1;
        }
        proof {
            let j = choose|j: int| 0 <= j < prev.len() && (#[trigger] prev[j])@ == k;
            assert(false);
        }
    }
}

proof fn lemma_store_lookup_absent_has(s: Seq<ScoreRecord>, k: (Seq<char>, Region))
    requires
        !has_record(s, k),
    ensures
        store_lookup(s, k) is None,
{
    assert forall|j: int| 0 <= j < s.len() implies (#[trigger] s[j]).key@ != k by {
        if s[j].key@ == k {
            assert(has_record(s, k));
        }
    }
    lemma_store_lookup_absent(s, k);
}

/// The score carried by a trend API response, given as the points of
/// each returned line: the value of the last point of the first line.
/// `None` when the response has no line or the first line has no point,
/// which callers treat as a failed fetch.
pub fn trend_response_value(lines: &Vec<Vec<u64>>) -> (r: Option<u64>)
    ensures
        r == (if lines@.len() > 0 && lines@[0]@.len() > 0 {
            Some(lines@[0]@[lines@[0]@.len() - 1])
        } else {
            None::<u64>
        }),
{
    if lines.len() > 0 {
        let first = &lines[0];
        if first.len() > 0 {
            Some(first[first.len() - 1])
        } else {
            None
        }
    } else {
        None
    }
}

/// Single flight: while one caller's fetch for a key is outstanding, no
/// other caller is ever awarded a second fetch for it; every concurrent
/// lookup of the key is told to join the one in flight.
pub proof fn lemma_single_flight(t: Trends, word: Seq<char>, region: Region)
    requires
        t.wf(),
        t.pending((word, region)),
    ensures
        t.spec_decision((word, region)) == Decision::InFlight,
{
    assert(t.spec_decision((word, region)) != Decision::Reserved);
    if t.cached((word, region)) is Some {
        lemma_cached_not_pending(t, (word, region));
    }
}

proof fn lemma_cached_not_pending(t: Trends, k: (Seq<char>, Region))
    requires
        t.wf(),
        t.pending(k),
    ensures
        t.cached(k) is None,
{
    let j = choose|j: int| 0 <= j < t.in_flight@.len() && (#[trigger] t.in_flight@[j])@ == k;
    assert forall|i: int| 0 <= i < t.entries@.len() implies (#[trigger] t.entries@[i]).key@
        != k by {
        assert(t.entries@[i].key@ != t.in_flight@[j]@);
    }
    lemma_store_lookup_absent(t.entries@, k);
}

/// Once the winning fetch completes, every caller of the key receives the
/// one cached score: joiners and later callers alike see the same hit.
pub proof fn lemma_waiters_share_result(t: Trends, word: Seq<char>, region: Region, score_bits: u64)
    requires
        t.cached((word, region)) == Some(score_bits),
    ensures
        t.spec_decision((word, region)) == Decision::Hit(score_bits),
{
}

/// Cache durability: when a key's record has reached the durable store, a
/// fresh cache primed from that store resolves the key as a hit with the
/// stored score, so no new fetch is spent on it after a restart.
pub proof fn lemma_restart_resolves_from_store(
    store: ScoreStore,
    t: Trends,
    word: Seq<char>,
    region: Region,
    score_bits: u64,
)
    requires
        store_lookup(store@, (word, region)) == Some(score_bits),
        forall|k: (Seq<char>, Region)| #[trigger] t.cached(k) == store_lookup(store@, k),
        forall|k: (Seq<char>, Region)| !(#[trigger] t.pending(k)),
    ensures
        t.spec_decision((word, region)) == Decision::Hit(score_bits),
{
}

} // verus!
