use dissertation::analyze::{comparison_pairs, is_baseline_column, score_columns, table_header, table_row};
use dissertation::input::{default_region, ChatgptPrompts, Prompt};
use dissertation::output::{header_fields, row_fields, score_cell, CsvRow};
use dissertation::rate_limiter::default_quotas;
use dissertation::scoring::trends::trend_response_value;
use dissertation::scoring::{score_is_nan, Region, TranslationScores};
use dissertation::translate::{
    assemble_chat_answer, build_prompt, chat_error_action, ChatAction, PromptTranslation,
    Translations,
};
use dissertation::urls::dedup_urls;

fn one_prompt() -> ChatgptPrompts {
    let entries = vec![(
        "default_english".to_string(),
        Prompt { text: "Translate {chinese} please".to_string(), region: Region::America },
    )];
    ChatgptPrompts::from_entries(entries).unwrap()
}

#[test]
fn prompts_reject_duplicate_names() {
    let entries = vec![
        ("a".to_string(), Prompt { text: "x".to_string(), region: Region::America }),
        ("a".to_string(), Prompt { text: "y".to_string(), region: Region::Britain }),
    ];
    assert!(ChatgptPrompts::from_entries(entries).is_none());

    let prompts = one_prompt();
    assert_eq!(prompts.len(), 1);
    assert_eq!(prompts.name_at(0).as_str(), "default_english");
    assert_eq!(prompts.prompt_at(0).region, Region::America);
    assert_eq!(default_region(), Region::America);
}

#[test]
fn header_has_translation_and_score_columns() {
    let prompts = one_prompt();
    let header = header_fields(&prompts);
    assert_eq!(
        header,
        vec![
            "url",
            "chinese_text",
            "google",
            "default_english",
            "google_us_score",
            "google_uk_score",
            "default_english_score",
        ]
    );
}

fn full_row(url: &str) -> CsvRow {
    let translations = Translations {
        chinese_text: "descr".to_string(),
        google: "google text".to_string(),
        chatgpt: vec![PromptTranslation {
            name: "default_english".to_string(),
            text: "chat text".to_string(),
            region: Region::America,
        }],
    };
    let scores = TranslationScores {
        google_uk_score: 2.5f64.to_bits(),
        google_us_score: 1.5f64.to_bits(),
        chatgpt_scores: vec![("default_english".to_string(), 3.5f64.to_bits())],
    };
    CsvRow::new(url.to_string(), Some(translations), Some(scores))
}

#[test]
fn row_with_all_stages_fills_every_field() {
    let prompts = one_prompt();
    let row = full_row("http://example.invalid/1");
    let rendered = vec!["1.5".to_string(), "2.5".to_string(), "3.5".to_string()];
    let fields = row_fields(&row, &prompts, &rendered);
    assert_eq!(
        fields,
        vec!["http://example.invalid/1", "descr", "google text", "chat text", "1.5", "2.5", "3.5"]
    );
}

#[test]
fn partial_row_pads_with_empty_fields() {
    // one full row and one that failed at the scrape stage: both rows
    // carry exactly as many cells as the header
    let prompts = one_prompt();
    let header = header_fields(&prompts);

    let full = full_row("http://example.invalid/1");
    let rendered = vec!["1.5".to_string(), "2.5".to_string(), "3.5".to_string()];
    let full_fields = row_fields(&full, &prompts, &rendered);

    let failed = CsvRow::new("http://example.invalid/2".to_string(), None, None);
    let failed_fields = row_fields(&failed, &prompts, &rendered);

    assert_eq!(full_fields.len(), header.len());
    assert_eq!(failed_fields.len(), header.len());
    assert_eq!(failed_fields[0], "http://example.invalid/2");
    for field in &failed_fields[1..] {
        assert_eq!(field, "");
    }
}

#[test]
fn nan_score_becomes_empty_field_not_nan_text() {
    let nan_bits = f64::NAN.to_bits();
    assert!(score_is_nan(nan_bits));
    assert!(!score_is_nan(0.0f64.to_bits()));

    assert_eq!(score_cell(nan_bits, &"NaN".to_string()), "");
    assert_eq!(score_cell(1.25f64.to_bits(), &"1.25".to_string()), "1.25");

    // a scored row whose average was NaN (empty word set) leaves the cell empty
    let prompts = one_prompt();
    let scores = TranslationScores {
        google_uk_score: nan_bits,
        google_us_score: 4.0f64.to_bits(),
        chatgpt_scores: vec![("default_english".to_string(), nan_bits)],
    };
    let row = CsvRow::new("u".to_string(), None, Some(scores));
    let rendered = vec!["4".to_string(), "NaN".to_string(), "NaN".to_string()];
    let fields = row_fields(&row, &prompts, &rendered);
    assert_eq!(fields[4], "4");
    assert_eq!(fields[5], "");
    assert_eq!(fields[6], "");
}

#[test]
fn score_columns_and_baseline_exclusion() {
    let columns = score_columns();
    assert_eq!(columns.len(), 8);
    assert_eq!(columns[0], "google_us_score");
    assert!(is_baseline_column(&columns[0]));
    assert!(is_baseline_column(&columns[1]));
    assert!(!is_baseline_column(&columns[2]));

    let pairs = comparison_pairs(&columns);
    // six non-baseline columns, every ordered pair of two distinct ones
    assert_eq!(pairs.len(), 30);
    assert!(pairs.contains(&(2, 3)));
    assert!(pairs.contains(&(7, 2)));
    assert!(!pairs.contains(&(2, 2)));
    assert!(!pairs.contains(&(0, 3)));
    assert!(!pairs.contains(&(3, 1)));
}

#[test]
fn statistic_table_layout() {
    let names = vec!["a".to_string(), "b".to_string()];
    assert_eq!(table_header(&names), vec!["", "a", "b"]);
    let cells = vec!["0.5".to_string(), "NaN".to_string()];
    assert_eq!(table_row(&names[0], &cells), vec!["a", "0.5", "NaN"]);
}

#[test]
fn prompt_template_substitution() {
    let built = build_prompt("Translate {chinese} and again {chinese}.", "XY");
    assert_eq!(built, "Translate XY and again XY.");
    let unchanged = build_prompt("no placeholder", "XY");
    assert_eq!(unchanged, "no placeholder");
}

#[test]
fn chat_answer_is_joined_and_unquoted() {
    let parts = vec!["\"first".to_string(), "second\"".to_string()];
    assert_eq!(assemble_chat_answer(&parts), "first\nsecond");
    let one = vec!["\"\"quoted\"\"".to_string()];
    assert_eq!(assemble_chat_answer(&one), "quoted");
    let empty: Vec<String> = Vec::new();
    assert_eq!(assemble_chat_answer(&empty), "");
}

#[test]
fn chat_error_codes_pick_retry_or_abort() {
    assert_eq!(chat_error_action(None), ChatAction::Retry);
    assert_eq!(chat_error_action(Some(500)), ChatAction::Retry);
    assert_eq!(chat_error_action(Some(599)), ChatAction::Retry);
    assert_eq!(chat_error_action(Some(404)), ChatAction::Fatal);
    assert_eq!(chat_error_action(Some(600)), ChatAction::Fatal);
}

#[test]
fn trend_response_takes_last_point_of_first_line() {
    let lines = vec![vec![1.0f64.to_bits(), 9.5f64.to_bits()], vec![3.0f64.to_bits()]];
    assert_eq!(trend_response_value(&lines), Some(9.5f64.to_bits()));
    assert_eq!(trend_response_value(&Vec::new()), None);
    assert_eq!(trend_response_value(&vec![Vec::new()]), None);
}

#[test]
fn urls_keep_first_occurrence_order() {
    let urls = vec![
        "b".to_string(),
        "a".to_string(),
        "b".to_string(),
        "c".to_string(),
        "a".to_string(),
    ];
    assert_eq!(dedup_urls(urls), vec!["b", "a", "c"]);
}

#[test]
fn quotas_match_service_budgets() {
    let quotas = default_quotas();
    assert_eq!(quotas.scrape.tokens, 20);
    assert_eq!(quotas.scrape.window_seconds, 1);
    assert_eq!(quotas.chatgpt.tokens, 500);
    assert_eq!(quotas.chatgpt.window_seconds, 60);
    assert_eq!(quotas.trends.tokens, 550);
    assert_eq!(quotas.trends.window_seconds, 60);
}
