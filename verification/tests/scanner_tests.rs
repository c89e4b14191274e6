use aegisnode::config::PrivacyRule;
use aegisnode::scanner::{BodyRedaction, PIIScanner, ScanResult};

fn rule(name: &str, rule_type: &str, value: &str, action: Option<&str>, replace: Option<&str>) -> PrivacyRule {
    PrivacyRule {
        name: name.to_string(),
        rule_type: rule_type.to_string(),
        value: value.to_string(),
        action: action.map(|a| a.to_string()),
        replace: replace.map(|r| r.to_string()),
    }
}

fn finding(start: usize, end: usize, content: &str, action: Option<&str>, replace: Option<&str>) -> ScanResult {
    ScanResult {
        rule_name: "manual".to_string(),
        match_content: content.to_string(),
        start_index: start,
        end_index: end,
        action: action.map(|a| a.to_string()),
        replace: replace.map(|r| r.to_string()),
    }
}

#[test]
fn scan_pattern_finds_every_match_with_byte_offsets() {
    let scanner = PIIScanner::new(vec![rule("email", "pattern", r"[a-z]+@[a-z]+\.com", Some("redact"), None)]);
    let found = scanner.scan("mail bob@x.com or amy@y.com");
    assert_eq!(found.len(), 2);
    assert_eq!(found[0].rule_name, "email");
    assert_eq!(found[0].match_content, "bob@x.com");
    assert_eq!((found[0].start_index, found[0].end_index), (5, 14));
    assert_eq!(found[1].match_content, "amy@y.com");
    assert_eq!((found[1].start_index, found[1].end_index), (18, 27));
    assert_eq!(found[1].action.as_deref(), Some("redact"));
    assert_eq!(found[1].replace, None);
}

#[test]
fn scan_offsets_are_bytes_not_chars() {
    let scanner = PIIScanner::new(vec![rule("digits", "pattern", r"\d+", None, None)]);
    let found = scanner.scan("é 42");
    assert_eq!(found.len(), 1);
    assert_eq!((found[0].start_index, found[0].end_index), (3, 5));
    assert_eq!(found[0].match_content, "42");
}

#[test]
fn scan_entity_reports_first_occurrence_only() {
    let scanner = PIIScanner::new(vec![rule("project", "entity", "Apollo", Some("block"), Some("[P]"))]);
    let found = scanner.scan("Apollo and Apollo");
    assert_eq!(found.len(), 1);
    assert_eq!(found[0].match_content, "Apollo");
    assert_eq!((found[0].start_index, found[0].end_index), (0, 6));
    assert_eq!(found[0].replace.as_deref(), Some("[P]"));
}

#[test]
fn scan_entity_after_multibyte_text() {
    let scanner = PIIScanner::new(vec![rule("k", "entity", "key", None, None)]);
    let found = scanner.scan("ünï key");
    assert_eq!((found[0].start_index, found[0].end_index), (6, 9));
}

#[test]
fn scan_skips_invalid_patterns_and_unknown_types() {
    let scanner = PIIScanner::new(vec![
        rule("broken", "pattern", "foo(bar", Some("redact"), None),
        rule("other", "keyword", "foo", Some("redact"), None),
        rule("absent", "entity", "zzz", Some("redact"), None),
    ]);
    assert!(scanner.scan("foo(bar foo").is_empty());
}

#[test]
fn scan_lists_findings_rule_by_rule() {
    let scanner = PIIScanner::new(vec![
        rule("second", "entity", "b", None, None),
        rule("first", "entity", "a", None, None),
    ]);
    let found = scanner.scan("ab");
    assert_eq!(found[0].rule_name, "second");
    assert_eq!(found[1].rule_name, "first");
}

#[test]
fn redact_masks_with_one_asterisk_per_byte() {
    let scanner = PIIScanner::new(vec![rule("name", "entity", "José", Some("redact"), None)]);
    assert_eq!(scanner.redact("hi José!"), "hi *****!");
}

#[test]
fn redact_uses_replacement_text() {
    let scanner = PIIScanner::new(vec![rule("ssn", "pattern", r"\d{3}-\d{2}-\d{4}", Some("block"), Some("[SSN]"))]);
    assert_eq!(scanner.redact("a 123-45-6789 b 987-65-4321"), "a [SSN] b [SSN]");
}

#[test]
fn redact_ignores_other_actions() {
    let scanner = PIIScanner::new(vec![
        rule("log", "entity", "secret", Some("log"), None),
        rule("none", "entity", "secret", None, None),
    ]);
    assert_eq!(scanner.redact("a secret"), "a secret");
}

#[test]
fn redact_without_rules_keeps_text() {
    let scanner = PIIScanner::new(vec![]);
    assert_eq!(scanner.redact("anything at all"), "anything at all");
    assert_eq!(scanner.try_redact(""), Some(String::new()));
}

#[test]
fn redact_several_rules_from_the_back() {
    let scanner = PIIScanner::new(vec![
        rule("a", "entity", "alpha", Some("redact"), Some("A")),
        rule("c", "entity", "gamma", Some("redact"), Some("GGGGGGGG")),
    ]);
    assert_eq!(scanner.redact("alpha beta gamma"), "A beta GGGGGGGG");
}

#[test]
fn overlapping_findings_that_break_boundaries_are_unredactable() {
    let scanner = PIIScanner::new(vec![
        rule("long", "entity", "abcdef", Some("redact"), Some("X")),
        rule("inner", "entity", "cd", Some("redact"), Some("Y")),
    ]);
    assert!(!scanner.redacts_cleanly("abcdef"));
    assert_eq!(scanner.try_redact("abcdef"), None);
    assert!(matches!(scanner.redact_body(b"abcdef"), BodyRedaction::Unredactable));
}

#[test]
fn redact_findings_sorts_by_descending_start() {
    let text = "0123456789";
    let fs = vec![
        finding(1, 3, "12", Some("redact"), Some("<a>")),
        finding(6, 8, "67", Some("redact"), Some("<b>")),
    ];
    assert_eq!(PIIScanner::redact_findings(text, fs), Some("0<a>345<b>89".to_string()));
}

#[test]
fn redact_findings_keeps_scan_order_for_equal_starts() {
    let text = "abcd";
    // both start at 1: the first listed is applied first, then the second
    // works on the text the first produced
    let fs = vec![
        finding(1, 2, "b", Some("redact"), Some("XY")),
        finding(1, 3, "XY", Some("redact"), Some("Z")),
    ];
    assert_eq!(PIIScanner::redact_findings(text, fs), Some("aZcd".to_string()));
}

#[test]
fn redact_findings_rejects_split_characters() {
    // byte 1 falls inside 'é'
    let fs = vec![finding(1, 2, "x", Some("redact"), None)];
    assert_eq!(PIIScanner::redact_findings("é", fs), None);
    let fs = vec![finding(3, 1, "x", Some("block"), None)];
    assert_eq!(PIIScanner::redact_findings("abcd", fs), None);
    let fs = vec![finding(2, 9, "x", Some("block"), None)];
    assert_eq!(PIIScanner::redact_findings("abcd", fs), None);
}

#[test]
fn masking_keeps_byte_length() {
    let scanner = PIIScanner::new(vec![
        rule("word", "pattern", r"[A-Za-zé]+", Some("redact"), None),
    ]);
    let text = "Café au lait";
    let out = scanner.redact(text);
    assert_eq!(out.len(), text.len());
    assert_eq!(out, "***** ** ****");
}

#[test]
fn single_finding_is_replaced_and_rest_kept() {
    let fs = vec![finding(4, 7, "two", Some("redact"), Some("2"))];
    assert_eq!(PIIScanner::redact_findings("one two three", fs), Some("one 2 three".to_string()));
}

#[test]
fn disjoint_findings_always_redact() {
    let scanner = PIIScanner::new(vec![rule("vowel", "pattern", "[aeiou]", Some("redact"), Some("__"))]);
    assert_eq!(scanner.try_redact("banana"), Some("b__n__n__".to_string()));
}

#[test]
fn redact_body_keeps_binary_bodies() {
    let scanner = PIIScanner::new(vec![rule("all", "pattern", ".", Some("redact"), None)]);
    assert!(matches!(scanner.redact_body(&[0xff, 0xfe, 0x00]), BodyRedaction::Unchanged));
}

#[test]
fn redact_body_keeps_text_that_redaction_leaves_alone() {
    let scanner = PIIScanner::new(vec![rule("card", "pattern", r"\d{16}", Some("redact"), None)]);
    assert!(matches!(scanner.redact_body(br#"{"prompt":"hello"}"#), BodyRedaction::Unchanged));
}

#[test]
fn redact_body_replaces_changed_text() {
    let scanner = PIIScanner::new(vec![rule("card", "pattern", r"\d{16}", Some("redact"), Some("[CARD]"))]);
    match scanner.redact_body(br#"{"prompt":"pay 4111111111111111"}"#) {
        BodyRedaction::Redacted { text, content_length } => {
            assert_eq!(text, r#"{"prompt":"pay [CARD]"}"#);
            assert_eq!(content_length.text(), text.len().to_string());
            assert_eq!(content_length.into_value(), hyper::header::HeaderValue::from(text.len()));
        }
        _ => panic!("expected a redacted body"),
    }
}

#[test]
fn empty_regex_matches_redact_to_nothing() {
    let scanner = PIIScanner::new(vec![rule("empty", "pattern", "x*", Some("redact"), None)]);
    assert_eq!(scanner.redact("ab"), "ab");
    assert_eq!(scanner.scan("ab").len(), 3);
}

#[test]
fn several_disjoint_findings_replace_their_spans_and_keep_the_rest() {
    let text = "ab 123 cd 4567 ef";
    let findings = vec![
        finding(3, 6, "123", Some("redact"), Some("[N]")),
        finding(10, 14, "4567", Some("block"), None),
        finding(0, 2, "ab", Some("log"), Some("zz")),
    ];
    let r = PIIScanner::redact_findings(text, findings).unwrap();
    assert_eq!(r, "ab [N] cd **** ef");
}

#[test]
fn masking_by_byte_puts_asterisks_only_in_spans() {
    let text = "x=é1;y=22";
    let findings = vec![finding(8, 10, "22", Some("redact"), None), finding(2, 4, "é", Some("redact"), None)];
    let r = PIIScanner::redact_findings(text, findings).unwrap();
    assert_eq!(r.len(), text.len());
    for (i, (a, b)) in r.bytes().zip(text.bytes()).enumerate() {
        let inside = (2..4).contains(&i) || (8..10).contains(&i);
        assert_eq!(a, if inside { b'*' } else { b });
    }
}

#[test]
fn body_with_known_zero_size_is_not_scanned() {
    assert!(!PIIScanner::body_needs_scan(Some(0)));
    assert!(PIIScanner::body_needs_scan(Some(12)));
    assert!(PIIScanner::body_needs_scan(None));
}

#[test]
fn pattern_findings_are_the_regex_matches() {
    let pattern = r"\b[A-Z][a-z]*\b|\d+";
    let text = "Émile met Bob at 10 and Ann at 1130, ok";
    let scanner = PIIScanner::new(vec![rule("mixed", "pattern", pattern, Some("redact"), None)]);
    let found = scanner.scan(text);
    let expected: Vec<(usize, usize, String)> = regex::Regex::new(pattern)
        .unwrap()
        .find_iter(text)
        .map(|m| (m.start(), m.end(), m.as_str().to_string()))
        .collect();
    let got: Vec<(usize, usize, String)> =
        found.iter().map(|f| (f.start_index, f.end_index, f.match_content.clone())).collect();
    assert_eq!(got, expected);
    assert!(!expected.is_empty());
}

#[test]
fn empty_findings_insert_their_replacement_in_place() {
    let scanner = PIIScanner::new(vec![rule("gap", "pattern", "x*", Some("redact"), Some("#"))]);
    assert_eq!(scanner.redact("ab"), "#a#b#");
    let fs = vec![
        finding(0, 1, "a", Some("redact"), Some("Z")),
        finding(1, 1, "", Some("block"), Some("#")),
        finding(2, 2, "", Some("redact"), Some("!")),
    ];
    assert_eq!(PIIScanner::redact_findings("abc", fs), Some("Z#b!c".to_string()));
}

#[test]
fn insertion_listed_before_a_span_at_its_offset_is_not_in_place() {
    let fs = vec![finding(1, 1, "", Some("redact"), Some("X")), finding(1, 2, "b", Some("redact"), Some("Y"))];
    assert_eq!(PIIScanner::redact_findings("abc", fs), Some("aYbc".to_string()));
    let fs = vec![finding(1, 2, "b", Some("redact"), Some("Y")), finding(1, 1, "", Some("redact"), Some("X"))];
    assert_eq!(PIIScanner::redact_findings("abc", fs), Some("aXYc".to_string()));
}

#[test]
fn masking_by_byte_with_empty_findings() {
    let fs = vec![finding(1, 1, "", Some("redact"), None), finding(1, 3, "bc", Some("redact"), None)];
    assert_eq!(PIIScanner::redact_findings("abcd", fs), Some("a**d".to_string()));
}
