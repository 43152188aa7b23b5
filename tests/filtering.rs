use rust_span_counter::{filter_word_spans, FilterMode, SpanError, WordSpan};

#[test]
fn test_filter_exact_match() {
    let spans = vec![
        WordSpan { word: "hello".to_string(), start: 0, end: 5 },
        WordSpan { word: "world".to_string(), start: 6, end: 11 },
        WordSpan { word: "test".to_string(), start: 12, end: 16 }
    ];
    
    let filters = vec!["world".to_string()];
    let result = filter_word_spans(spans, &filters, &FilterMode::Exact, false).unwrap();
    
    assert_eq!(result, vec![
        WordSpan { word: "world".to_string(), start: 6, end: 11 }
    ]);
}

#[test]
fn test_filter_exact_match_multiple() {
    let spans = vec![
        WordSpan { word: "hello".to_string(), start: 0, end: 5 },
        WordSpan { word: "world".to_string(), start: 6, end: 11 },
        WordSpan { word: "test".to_string(), start: 12, end: 16 }
    ];
    
    let filters = vec!["hello".to_string(), "test".to_string()];
    let result = filter_word_spans(spans, &filters, &FilterMode::Exact, false).unwrap();
    
    assert_eq!(result, vec![
        WordSpan { word: "hello".to_string(), start: 0, end: 5 },
        WordSpan { word: "test".to_string(), start: 12, end: 16 }
    ]);
}

#[test]
fn test_filter_exact_match_case_sensitive() {
    let spans = vec![
        WordSpan { word: "Hello".to_string(), start: 0, end: 5 },
        WordSpan { word: "WORLD".to_string(), start: 6, end: 11 },
    ];
    
    let filters = vec!["hello".to_string()];
    let result = filter_word_spans(spans, &filters, &FilterMode::Exact, false).unwrap();
    
    assert_eq!(result, vec![]); // No matches because of case sensitivity
}

#[test]
fn test_filter_exact_match_case_insensitive() {
    let spans = vec![
        WordSpan { word: "Hello".to_string(), start: 0, end: 5 },
        WordSpan { word: "WORLD".to_string(), start: 6, end: 11 },
    ];
    
    let filters = vec!["hello".to_string(), "world".to_string()];
    let result = filter_word_spans(spans, &filters, &FilterMode::Exact, true).unwrap();
    
    assert_eq!(result, vec![
        WordSpan { word: "Hello".to_string(), start: 0, end: 5 },
        WordSpan { word: "WORLD".to_string(), start: 6, end: 11 }
    ]);
}

#[test]
fn test_filter_contains_mode() {
    let spans = vec![
        WordSpan { word: "hello".to_string(), start: 0, end: 5 },
        WordSpan { word: "world".to_string(), start: 6, end: 11 },
        WordSpan { word: "wonderful".to_string(), start: 12, end: 21 }
    ];
    
    let filters = vec!["orl".to_string(), "nde".to_string()];
    let result = filter_word_spans(spans, &filters, &FilterMode::Contains, false).unwrap();
    
    assert_eq!(result, vec![
        WordSpan { word: "world".to_string(), start: 6, end: 11 },
        WordSpan { word: "wonderful".to_string(), start: 12, end: 21 }
    ]);
}

#[test]
fn test_filter_contains_case_insensitive() {
    let spans = vec![
        WordSpan { word: "Hello".to_string(), start: 0, end: 5 },
        WordSpan { word: "WORLD".to_string(), start: 6, end: 11 },
    ];
    
    let filters = vec!["ell".to_string(), "orl".to_string()];
    let result = filter_word_spans(spans, &filters, &FilterMode::Contains, true).unwrap();
    
    assert_eq!(result, vec![
        WordSpan { word: "Hello".to_string(), start: 0, end: 5 },
        WordSpan { word: "WORLD".to_string(), start: 6, end: 11 }
    ]);
}

#[test]
fn test_filter_regex_mode() {
    let spans = vec![
        WordSpan { word: "hello".to_string(), start: 0, end: 5 },
        WordSpan { word: "world".to_string(), start: 6, end: 11 },
        WordSpan { word: "word".to_string(), start: 12, end: 16 },
        WordSpan { word: "test123".to_string(), start: 17, end: 24 }
    ];
    
    let filters = vec![r"wo.*d".to_string()];
    let result = filter_word_spans(spans, &filters, &FilterMode::Regex, false).unwrap();
    
    assert_eq!(result, vec![
        WordSpan { word: "world".to_string(), start: 6, end: 11 },
        WordSpan { word: "word".to_string(), start: 12, end: 16 }
    ]);
}

#[test]
fn test_filter_regex_with_numbers() {
    let spans = vec![
        WordSpan { word: "test123".to_string(), start: 0, end: 7 },
        WordSpan { word: "hello".to_string(), start: 8, end: 13 },
        WordSpan { word: "world456".to_string(), start: 14, end: 22 }
    ];
    
    let filters = vec![r"\d+".to_string()]; // Match words containing digits
    let result = filter_word_spans(spans, &filters, &FilterMode::Regex, false).unwrap();
    
    assert_eq!(result, vec![
        WordSpan { word: "test123".to_string(), start: 0, end: 7 },
        WordSpan { word: "world456".to_string(), start: 14, end: 22 }
    ]);
}

#[test]
fn test_filter_regex_case_insensitive() {
    let spans = vec![
        WordSpan { word: "Hello".to_string(), start: 0, end: 5 },
        WordSpan { word: "WORLD".to_string(), start: 6, end: 11 },
    ];
    
    let filters = vec!["hello".to_string()];
    let result = filter_word_spans(spans, &filters, &FilterMode::Regex, true).unwrap();
    
    assert_eq!(result, vec![
        WordSpan { word: "Hello".to_string(), start: 0, end: 5 }
    ]);
}

#[test]
fn test_filter_invalid_regex() {
    let spans = vec![
        WordSpan { word: "hello".to_string(), start: 0, end: 5 }
    ];
    
    let filters = vec!["[invalid".to_string()]; // Invalid regex
    let result = filter_word_spans(spans, &filters, &FilterMode::Regex, false);
    
    assert!(matches!(result, Err(SpanError::RegexError(_))));
}

#[test]
fn test_filter_empty_filters() {
    let spans = vec![
        WordSpan { word: "hello".to_string(), start: 0, end: 5 },
        WordSpan { word: "world".to_string(), start: 6, end: 11 }
    ];
    
    let filters = vec![];
    let result = filter_word_spans(spans.clone(), &filters, &FilterMode::Exact, false).unwrap();
    
    assert_eq!(result, spans); // Should return all spans when no filters
}

#[test]
fn test_filter_no_matches() {
    let spans = vec![
        WordSpan { word: "hello".to_string(), start: 0, end: 5 },
        WordSpan { word: "world".to_string(), start: 6, end: 11 }
    ];
    
    let filters = vec!["nonexistent".to_string()];
    let result = filter_word_spans(spans, &filters, &FilterMode::Exact, false).unwrap();
    
    assert_eq!(result, vec![]); // Should return empty vec when no matches
}

#[test]
fn test_filter_with_punctuation() {
    let spans = vec![
        WordSpan { word: "hello".to_string(), start: 0, end: 5 },
        WordSpan { word: ",".to_string(), start: 5, end: 6 },
        WordSpan { word: "world".to_string(), start: 7, end: 12 },
        WordSpan { word: "!".to_string(), start: 12, end: 13 }
    ];
    
    let filters = vec![",".to_string(), "!".to_string()];
    let result = filter_word_spans(spans, &filters, &FilterMode::Exact, false).unwrap();
    
    assert_eq!(result, vec![
        WordSpan { word: ",".to_string(), start: 5, end: 6 },
        WordSpan { word: "!".to_string(), start: 12, end: 13 }
    ]);
}
