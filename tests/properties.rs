use rust_span_counter::{
    filter_word_spans, get_word_spans, get_word_spans_default,
    get_word_spans_with_quoted_strings, handle_string_command, locate, push_segment_spans,
    spans_from_segments, text_matches, FilterMode, LiteralRecord, SpanError, StringVisitor,
    WordSpan,
};

fn span(word: &str, start: usize, end: usize) -> WordSpan {
    WordSpan { word: word.to_string(), start, end }
}

fn record(value: &str, start_line: usize, end_line: usize) -> LiteralRecord {
    LiteralRecord { value: value.to_string(), start_line, end_line }
}

/// Each span is the text at its byte range, spans come in order, and every byte
/// outside them belongs to whitespace.
fn assert_partition(text: &str, spans: &[WordSpan]) {
    let mut cursor = 0;
    for s in spans {
        assert!(s.start < s.end);
        assert!(cursor <= s.start);
        assert!(text[cursor..s.start].chars().all(|c| c.is_whitespace()));
        assert_eq!(&text[s.start..s.end], s.word);
        cursor = s.end;
    }
    assert!(text[cursor..].chars().all(|c| c.is_whitespace()));
}

const SAMPLES: [&str; 6] = [
    "hello world",
    "  default(nextval(user_id_seq)),  ",
    "say \"hi there\" and 'x' plus `y` \"open",
    "héllo wörld — ünïcödé\ttabs\nand lines",
    "a\\\"b \"c\\\"d\" e",
    "",
];

#[test]
fn partition_default_mode() {
    for text in SAMPLES {
        let spans = get_word_spans(text, false).unwrap();
        assert_partition(text, &spans);
    }
}

#[test]
fn partition_quoted_mode() {
    for text in SAMPLES {
        let spans = get_word_spans(text, true).unwrap();
        assert_partition(text, &spans);
    }
}

#[test]
fn spans_strictly_ordered() {
    for text in SAMPLES {
        for mode in [false, true] {
            let spans = get_word_spans(text, mode).unwrap();
            for pair in spans.windows(2) {
                assert!(pair[0].start < pair[1].start);
                assert!(pair[0].end <= pair[1].start);
            }
        }
    }
}

#[test]
fn filtering_twice_changes_nothing() {
    let spans = get_word_spans("Hello world, WORLD wonders 42 times", false).unwrap();
    let cases: [(Vec<String>, FilterMode, bool); 4] = [
        (vec!["world".to_string()], FilterMode::Exact, true),
        (vec!["o".to_string(), "4".to_string()], FilterMode::Contains, false),
        (vec![r"^w".to_string()], FilterMode::Regex, true),
        (vec![], FilterMode::Exact, false),
    ];
    for (filters, mode, ignore_case) in cases {
        let once = filter_word_spans(spans.clone(), &filters, &mode, ignore_case).unwrap();
        let twice = filter_word_spans(once.clone(), &filters, &mode, ignore_case).unwrap();
        assert_eq!(once, twice);
    }
}

#[test]
fn every_line_of_a_multi_line_literal_locates_it() {
    let literals = vec![
        record("before", 1, 1),
        record("first\nsecond\nthird", 3, 5),
        record("after", 7, 7),
    ];
    for line in 3..=5 {
        assert_eq!(locate(&literals, line).unwrap(), "first\nsecond\nthird");
    }
    assert!(matches!(locate(&literals, 2), Err(SpanError::NoStringFound)));
    assert!(matches!(locate(&literals, 6), Err(SpanError::NoStringFound)));
}

#[test]
fn scenario_hello_world_default() {
    let spans = get_word_spans_default("hello world").unwrap();
    assert_eq!(spans, vec![span("hello", 0, 5), span("world", 6, 11)]);
}

#[test]
fn scenario_punctuation_each_its_own_token() {
    let spans = get_word_spans("default(nextval(user_id_seq)),", false).unwrap();
    assert_eq!(spans.len(), 8);
    assert_eq!(spans[1], span("(", 7, 8));
}

#[test]
fn scenario_quoted_span_is_one_token() {
    let spans = get_word_spans_with_quoted_strings("hello \"world test\" end").unwrap();
    assert_eq!(
        spans,
        vec![span("hello", 0, 5), span("\"world test\"", 6, 18), span("end", 19, 22)]
    );
}

#[test]
fn scenario_unterminated_quote_runs_to_end() {
    let spans = get_word_spans("hello \"unclosed quote", true).unwrap();
    assert_eq!(spans, vec![span("hello", 0, 5), span("\"unclosed quote", 6, 21)]);
}

#[test]
fn scenario_two_literals_on_one_line() {
    let literals = vec![record("hello", 3, 3), record("world", 3, 3)];
    assert!(matches!(locate(&literals, 3), Err(SpanError::MultipleStringsFound)));
}

#[test]
fn scenario_exact_filter_ignoring_case() {
    let spans = vec![span("Hello", 0, 5), span("WORLD", 6, 11)];
    let filters = vec!["hello".to_string()];
    let result = filter_word_spans(spans, &filters, &FilterMode::Exact, true).unwrap();
    assert_eq!(result, vec![span("Hello", 0, 5)]);
}

#[test]
fn multi_line_literal_overlapped_by_another_is_ambiguous() {
    let literals = vec![record("long\ntext", 2, 4), record("short", 4, 4)];
    assert_eq!(locate(&literals, 2).unwrap(), "long\ntext");
    assert!(matches!(locate(&literals, 4), Err(SpanError::MultipleStringsFound)));
}

#[test]
fn locate_with_no_literals() {
    assert!(matches!(locate(&Vec::new(), 1), Err(SpanError::NoStringFound)));
}

#[test]
fn visitor_keeps_only_covering_literals() {
    let mut visitor = StringVisitor::new(4);
    visitor.visit_literal("a".to_string(), 1, 3);
    visitor.visit_literal("b".to_string(), 4, 4);
    visitor.visit_literal("c".to_string(), 5, 9);
    assert_eq!(visitor.found_strings, vec!["b".to_string()]);
    assert_eq!(visitor.into_result().unwrap(), "b");
}

#[test]
fn non_ascii_offsets_are_bytes() {
    let spans = get_word_spans("héllo wörld", false).unwrap();
    assert_eq!(spans, vec![span("héllo", 0, 6), span("wörld", 7, 13)]);
    let quoted = get_word_spans("é \"ü ö\" x", true).unwrap();
    assert_eq!(quoted, vec![span("é", 0, 2), span("\"ü ö\"", 3, 10), span("x", 11, 12)]);
}

#[test]
fn whitespace_only_text_has_no_tokens() {
    assert_eq!(get_word_spans(" \t\n\u{3000} ", false).unwrap(), vec![]);
    assert_eq!(get_word_spans(" \t\n\u{3000} ", true).unwrap(), vec![]);
}

#[test]
fn quote_inside_other_quotes_is_plain() {
    let spans = get_word_spans("\"it's\" done", true).unwrap();
    assert_eq!(spans, vec![span("\"it's\"", 0, 6), span("done", 7, 11)]);
}

#[test]
fn trailing_backslash_in_open_quote() {
    let spans = get_word_spans("'ab\\", true).unwrap();
    assert_eq!(spans, vec![span("'ab\\", 0, 4)]);
}

#[test]
fn segments_start_at_base_offset() {
    let segments = vec!["foo".to_string(), "  ".to_string(), "(".to_string()];
    let spans = spans_from_segments(&segments, 10);
    assert_eq!(spans, vec![span("foo", 10, 13), span("(", 15, 16)]);
}

#[test]
fn contains_ignoring_case_lowercases_both_sides() {
    let spans = vec![span("WONDERFUL", 0, 9), span("plain", 10, 15)];
    let filters = vec!["NDE".to_string()];
    let result = filter_word_spans(spans, &filters, &FilterMode::Contains, true).unwrap();
    assert_eq!(result, vec![span("WONDERFUL", 0, 9)]);
}

#[test]
fn invalid_pattern_is_reported_before_filtering() {
    let spans = vec![span("hello", 0, 5)];
    let filters = vec!["hel".to_string(), "(unclosed".to_string()];
    let result = filter_word_spans(spans, &filters, &FilterMode::Regex, false);
    assert!(matches!(result, Err(SpanError::RegexError(_))));
}

#[test]
fn invalid_pattern_in_other_modes_is_plain_text() {
    let spans = vec![span("[x", 0, 2)];
    let filters = vec!["[x".to_string()];
    let result = filter_word_spans(spans, &filters, &FilterMode::Exact, false).unwrap();
    assert_eq!(result, vec![span("[x", 0, 2)]);
}

#[test]
fn stdin_is_asked_for_when_no_content() {
    assert_eq!(handle_string_command(None), None);
    assert_eq!(handle_string_command(Some("--")), None);
    assert_eq!(handle_string_command(Some("-")), Some("-".to_string()));
    assert_eq!(handle_string_command(Some("---")), Some("---".to_string()));
}

#[test]
fn default_filter_mode_is_exact() {
    assert_eq!(FilterMode::default(), FilterMode::Exact);
}

#[test]
fn escaped_quote_outside_quotes_opens_no_span() {
    let spans = get_word_spans_with_quoted_strings("a\\\"b").unwrap();
    assert_eq!(
        spans,
        vec![span("a", 0, 1), span("\\", 1, 2), span("\"", 2, 3), span("b", 3, 4)]
    );
}

#[test]
fn escaped_space_stays_in_the_run() {
    let spans = get_word_spans("x\\ 'y z'", true).unwrap();
    assert_eq!(spans, vec![span("x", 0, 1), span("\\", 1, 2), span("'y z'", 3, 8)]);
}

#[test]
fn text_comparison_exact_and_substring() {
    assert!(text_matches("world", "world", false));
    assert!(!text_matches("world", "orl", false));
    assert!(text_matches("world", "orl", true));
    assert!(!text_matches("world", "xyz", true));
    assert!(text_matches("", "", false));
}

#[test]
fn run_segments_append_after_existing_spans() {
    let mut spans = vec![span("\"q\"", 0, 3)];
    let segments = vec!["ab".to_string(), " ".to_string(), "é".to_string()];
    push_segment_spans(&mut spans, &segments, 4);
    assert_eq!(spans, vec![span("\"q\"", 0, 3), span("ab", 4, 6), span("é", 7, 9)]);
}
