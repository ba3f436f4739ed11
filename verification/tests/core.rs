use dissertation::scoring::dedup::dedup_sets;
use dissertation::scoring::tokens::extract;
use dissertation::scoring::trends::{Decision, ScoreKey, ScoreRecord, ScoreStore, Trends};
use dissertation::scoring::words::WordSet;
use dissertation::scoring::{translation_word_sets, Region};
use dissertation::translate::{PromptTranslation, Translations};

fn set_of(words: &[&str]) -> WordSet {
    let mut set = WordSet::new();
    for w in words {
        set.insert((*w).to_string());
    }
    set
}

fn assert_set_is(set: &WordSet, expected: &[&str]) {
    assert_eq!(set.len(), expected.len());
    for w in expected {
        assert!(set.contains(&(*w).to_string()), "missing word: {w}");
    }
}

#[test]
fn dedup_test() {
    // hello is present in all, so should be the only word removed
    let set1 = set_of(&["hello", "world", "foo"]);
    let set2 = set_of(&["hello", "world"]);
    let set3 = set_of(&["hello", "foo"]);

    let mut sets = vec![set1, set2, set3];

    dedup_sets(&mut sets);

    // hello removed from all
    assert_set_is(&sets[0], &["world", "foo"]);
    assert_set_is(&sets[1], &["world"]);
    assert_set_is(&sets[2], &["foo"]);
}

#[test]
fn dedup_keeps_words_missing_from_first_set() {
    // "shared" is in every set but the first, so it must survive
    // everywhere: only words of the first set are candidates.
    let set1 = set_of(&["alpha"]);
    let set2 = set_of(&["alpha", "shared"]);
    let set3 = set_of(&["alpha", "shared"]);

    let mut sets = vec![set1, set2, set3];
    dedup_sets(&mut sets);

    assert_set_is(&sets[0], &[]);
    assert_set_is(&sets[1], &["shared"]);
    assert_set_is(&sets[2], &["shared"]);
}

#[test]
fn dedup_single_set_does_not_panic() {
    // with one set, every one of its words is common to all sets
    let mut sets = vec![set_of(&["one", "two"])];
    dedup_sets(&mut sets);
    assert_set_is(&sets[0], &[]);
}

#[test]
fn extract_words_works() {
    let function_words = set_of(&["hello"]);
    let set = extract("hello WORld,foo123 234;345(a){b}[c]", &function_words);
    // "hello" is a function word; tokens with digits are dropped.
    assert_set_is(&set, &["world", "a", "b", "c"]);
}

#[test]
fn extract_keeps_apostrophe_only_tokens() {
    let function_words = WordSet::new();
    let set = extract("'' don't (stop)", &function_words);
    assert_set_is(&set, &["''", "don't", "stop"]);
}

#[test]
fn extract_empty_text() {
    let function_words = WordSet::new();
    let set = extract("  ,;  ", &function_words);
    assert_set_is(&set, &[]);
}

#[test]
fn dedup_keeps_relative_order() {
    let set1 = set_of(&["first", "shared", "second", "also"]);
    let set2 = set_of(&["shared", "also", "third"]);
    let mut sets = vec![set1, set2];

    dedup_sets(&mut sets);

    // surviving words stay in insertion order
    assert_eq!(sets[0].len(), 2);
    assert_eq!(sets[0].word_at(0).as_str(), "first");
    assert_eq!(sets[0].word_at(1).as_str(), "second");
    assert_eq!(sets[1].len(), 1);
    assert_eq!(sets[1].word_at(0).as_str(), "third");
}

#[test]
fn translation_sets_drop_shared_vocabulary() {
    let translations = Translations {
        chinese_text: "src".to_string(),
        google: "shared unique".to_string(),
        chatgpt: vec![PromptTranslation {
            name: "default_english".to_string(),
            text: "shared other".to_string(),
            region: Region::Britain,
        }],
    };
    let function_words = WordSet::new();

    let (google, variants) = translation_word_sets(&translations, &function_words);

    assert_set_is(&google, &["unique"]);
    assert_eq!(variants.len(), 1);
    assert_eq!(variants[0].name.as_str(), "default_english");
    assert_eq!(variants[0].region, Region::Britain);
    assert_set_is(&variants[0].words, &["other"]);
}

fn key(word: &str, region: Region) -> ScoreKey {
    ScoreKey { word: word.to_string(), region }
}

#[test]
fn single_flight_one_fetch_per_key() {
    let empty: Vec<ScoreRecord> = Vec::new();
    let mut trends = Trends::new(&empty);
    let word = "tea".to_string();

    // the first caller wins the fetch
    let first = trends.lookup_or_reserve(&word, Region::Britain);
    assert_eq!(first, Decision::Reserved);

    // every concurrent caller joins the one outstanding fetch
    let second = trends.lookup_or_reserve(&word, Region::Britain);
    assert_eq!(second, Decision::InFlight);

    // an unrelated key still gets its own fetch
    let other = trends.lookup_or_reserve(&"coffee".to_string(), Region::Britain);
    assert_eq!(other, Decision::Reserved);
    let other_region = trends.lookup_or_reserve(&word, Region::America);
    assert_eq!(other_region, Decision::Reserved);

    // after completion, everyone sees the one fetched score
    let bits = 42.5f64.to_bits();
    trends.complete(&word, Region::Britain, bits);
    assert_eq!(trends.lookup_or_reserve(&word, Region::Britain), Decision::Hit(bits));
    assert_eq!(trends.lookup(&word, Region::Britain), Some(bits));
}

#[test]
fn failed_fetch_is_not_cached() {
    let empty: Vec<ScoreRecord> = Vec::new();
    let mut trends = Trends::new(&empty);
    let word = "rain".to_string();

    assert_eq!(trends.lookup_or_reserve(&word, Region::America), Decision::Reserved);
    trends.fail(&word, Region::America);

    // the next caller retries from scratch
    assert_eq!(trends.lookup_or_reserve(&word, Region::America), Decision::Reserved);
    assert_eq!(trends.lookup(&word, Region::America), None);
}

#[test]
fn restart_resolves_from_durable_store() {
    let mut store = ScoreStore::new();
    let bits = 7.25f64.to_bits();
    store.put(ScoreRecord { key: key("sun", Region::Britain), score_bits: bits });

    // a fresh cache primed from the store hits without fetching
    let mut fresh = Trends::new(store.load_all());
    assert_eq!(fresh.lookup_or_reserve(&"sun".to_string(), Region::Britain), Decision::Hit(bits));
}

#[test]
fn store_first_writer_wins() {
    let mut store = ScoreStore::new();
    let first = 1.0f64.to_bits();
    let second = 2.0f64.to_bits();
    store.put(ScoreRecord { key: key("sun", Region::America), score_bits: first });
    store.put(ScoreRecord { key: key("sun", Region::America), score_bits: second });

    assert_eq!(store.get(&"sun".to_string(), Region::America), Some(first));
    assert_eq!(store.get(&"sun".to_string(), Region::Britain), None);
    assert_eq!(store.load_all().len(), 2);

    let trends = Trends::new(store.load_all());
    assert_eq!(trends.lookup(&"sun".to_string(), Region::America), Some(first));
}

#[test]
fn region_codes_round_trip() {
    assert_eq!(Region::Britain.to_str(), "britain");
    assert_eq!(Region::America.to_str(), "america");
    assert_eq!(Region::from_str("britain"), Some(Region::Britain));
    assert_eq!(Region::from_str("america"), Some(Region::America));
    assert_eq!(Region::from_str("elsewhere"), None);
    assert_eq!(Region::Britain.geo_code(), "GB");
    assert_eq!(Region::America.geo_code(), "US");
}
