use lexsift::engine::{DictionaryError, Engine, Hit};
use lexsift::normalize::{normalize, Options};
use lexsift::unicode::UnicodeClasses;

fn engine(terms: &[&str], whitelist: &[&str]) -> Engine {
    Engine::new(
        terms.iter().map(|t| t.to_string()).collect(),
        whitelist.iter().map(|t| t.to_string()).collect(),
        Options::default(),
    )
    .unwrap()
}

#[test]
fn contains_matches_scan_across_stream_boundaries_and_all_options() {
    let cases = [
        ("a", "a\u{0301}"),
        ("à", "a\u{0315}\u{0300}"),
        ("가", "ﾡￂ"),
        ("가", "ﾡ👨‍👩‍👧‍👦ￂ"),
        ("ᄀ", "ﾡￂ"),
        ("ffi", "ﬃ"),
        ("i\u{0307}", "İ"),
        ("赌博", "赌1️⃣🇨🇳👍🏽博"),
        ("ab", "A —$ B"),
        ("\0", "\0"),
    ];
    for bits in 0..64 {
        let options = Options {
            unicode_nfkc: bits & 1 != 0,
            lowercase: bits & 2 != 0,
            remove_whitespace: bits & 4 != 0,
            remove_punctuation: bits & 8 != 0,
            remove_symbols: bits & 16 != 0,
            remove_emoji: bits & 32 != 0,
        };
        for (term, input) in cases {
            let engine = Engine::new(vec![term.into()], vec![], options).unwrap();
            for padding in [0, 250, 255, 256, 257] {
                let text = format!("{}{input}{}", "x".repeat(padding), "文".repeat(300));
                assert_eq!(
                    engine.contains(&text),
                    !engine.scan(&text).is_empty(),
                    "options={bits}, term={term:?}, input={input:?}, padding={padding}"
                );
            }
            assert!(!engine.contains(""));
        }
    }
}

#[test]
fn streaming_match_handles_long_patterns_and_unbounded_combining_sequences() {
    for length in [255, 256, 257, 8193] {
        let term = "a".repeat(length);
        let engine = Engine::new(vec![term.clone()], vec![], Options::default()).unwrap();
        for text in [format!("前{term}后"), format!("{}b", "a".repeat(length - 1))] {
            assert_eq!(engine.contains(&text), !engine.scan(&text).is_empty());
        }
    }
    let marks = format!("a{}\u{0300}", "\u{0315}".repeat(10000));
    for term in ["a", "à"] {
        let engine = Engine::new(vec![term.into()], vec![], Options::default()).unwrap();
        assert_eq!(engine.contains(&marks), !engine.scan(&marks).is_empty());
    }
}

#[test]
fn whitelist_after_a_long_prefix_can_exempt_an_early_match() {
    let text = format!("ab{}safe", "文".repeat(10000));
    let engine = Engine::new(vec!["ab".into()], vec![text.clone()], Options::default()).unwrap();
    assert!(!engine.contains(&text));
    assert!(engine.contains(&format!("{text}ab")));
}

#[test]
fn builds_matches_masks_and_replaces_terms_atomically() {
    let mut a = engine(&["赌博"], &[]);
    let b = engine(&["微信"], &[]);

    assert!(a.contains("赌 博"));
    assert!(!b.contains("赌 博"));
    assert_eq!(a.mask("前赌 博后", ""), "前后");
    assert!(a.replace_terms(vec![" ".into()]).is_err());
    assert!(a.contains("赌博"));
    a.replace_terms(vec!["微信".into()]).unwrap();
    assert!(!a.contains("赌博"));
}

#[test]
fn whitelist_must_individually_contain_the_normalized_match() {
    let a = engine(&["i"], &["f"]);
    assert!(a.contains("ﬁ"));

    let a = engine(&["abcd"], &["ab", "cd"]);
    assert!(a.contains("abcd"));
}

#[test]
fn whitelist_filters_all_contained_matches_but_not_a_later_match() {
    let a = engine(&["ab"], &["xab"]);

    assert!(a.contains("xab ab"));
    assert_eq!(
        a.scan("xab ab"),
        vec![Hit {
            term_id: 0,
            start: 4,
            end: 6,
        }]
    );

    let all_whitelisted = engine(&["ab"], &["xab"]);
    assert!(!all_whitelisted.contains("xab"));
    assert!(all_whitelisted.scan("xab").is_empty());
}

#[test]
fn scan_sorts_by_source_range_and_deduplicates_exact_hits() {
    let a = engine(&["a", "ab", "b"], &[]);
    assert_eq!(
        a.scan("ab"),
        vec![
            Hit {
                term_id: 1,
                start: 0,
                end: 2,
            },
            Hit {
                term_id: 0,
                start: 0,
                end: 1,
            },
            Hit {
                term_id: 2,
                start: 1,
                end: 2,
            },
        ]
    );

    let expanded = engine(&["f"], &[]);
    assert_eq!(
        expanded.scan("ﬀ"),
        vec![Hit {
            term_id: 0,
            start: 0,
            end: 3,
        }]
    );
}

#[test]
fn mask_merges_overlapping_and_adjacent_source_ranges() {
    let a = engine(&["ab", "bc", "cd"], &[]);
    assert_eq!(a.mask("abcd", "替换"), "替换");

    let adjacent = engine(&["a", "b"], &[]);
    assert_eq!(adjacent.mask("ab", "*"), "*");
}

#[test]
fn duplicate_normalized_terms_keep_the_first_original() {
    let a = engine(&["ﬁ", "fi"], &[]);

    assert_eq!(a.scan("fi")[0].term_id, 0);
    assert_eq!(a.term(0), "ﬁ");
}

#[test]
fn whitelist_replacement_is_atomic() {
    let mut a = engine(&["ab"], &["ab"]);
    assert!(!a.contains("ab"));

    assert!(a.replace_whitelist(vec![" ".into()]).is_err());
    assert!(!a.contains("ab"));

    a.replace_whitelist(vec![]).unwrap();
    assert!(a.contains("ab"));
}

#[test]
fn empty_normalized_entry_error_reports_index_and_replacement_is_atomic() {
    let error = Engine::new(vec!["valid".into(), " ".into()], vec![], Options::default())
        .err()
        .expect("second term must fail normalization");
    assert_eq!(
        error.message(),
        "dictionary entry at index 1 is empty after normalization"
    );

    let mut engine = engine(&["赌博"], &["微信"]);
    let error = engine
        .replace_terms(vec!["微信".into(), " ".into()])
        .expect_err("second replacement term must fail normalization");
    assert_eq!(
        error.message(),
        "dictionary entry at index 1 is empty after normalization"
    );
    assert!(engine.contains("赌博"));

    let error = engine
        .replace_whitelist(vec!["安全".into(), " ".into()])
        .expect_err("second replacement whitelist entry must fail normalization");
    assert_eq!(
        error.message(),
        "dictionary entry at index 1 is empty after normalization"
    );
    assert!(!engine.contains("微信"));
}

#[test]
fn empty_term_dictionary_has_no_matches() {
    let a = engine(&[], &[]);

    assert!(!a.contains("anything"));
    assert!(a.scan("anything").is_empty());
    assert_eq!(a.mask("anything", "*"), "anything");
}

#[test]
fn contains_stops_after_the_first_valid_match() {
    let a = engine(&["ab", "bc", "cd"], &[]);
    assert!(a.scan("abcd").len() > 1);

    let classes = UnicodeClasses::new();
    let normalized = normalize("abcd", &a.options(), &classes);
    let whitelist = a.whitelist_ranges(normalized.text.as_bytes());
    let (found, visits) = a.has_match(normalized.text.as_bytes(), &whitelist);

    assert!(found);
    assert_eq!(visits, 1);
}

#[test]
fn builds_and_matches_ten_thousand_terms() {
    let terms = (0..10_000).map(|i| format!("term{i:05}")).collect();
    let a = Engine::new(terms, vec![], Options::default()).unwrap();

    assert!(a.contains("prefix term09999 suffix"));
    assert_eq!(a.term(9_999), "term09999");
}

#[test]
fn readme_example_maps_the_match_back_to_the_original_bytes() {
    let a = engine(&["赌博", "博彩", "bad word", "微信"], &["合法博彩说明", "微信支付"]);
    let text = "前赌 博后，微信支付";

    assert!(a.contains(text));
    assert_eq!(
        a.scan(text),
        vec![Hit {
            term_id: 0,
            start: 3,
            end: 10,
        }]
    );
    assert_eq!(&text[3..10], "赌 博");
    assert_eq!(a.mask(text, "*"), "前*后，微信支付");
}

#[test]
fn raw_duplicate_terms_keep_one_entry() {
    let a = engine(&["ab", "ab", "AB"], &[]);

    assert_eq!(a.scan("ab"), vec![Hit { term_id: 0, start: 0, end: 2 }]);
    assert_eq!(a.term(0), "ab");
}

#[test]
fn mask_keeps_unmatched_text_and_writes_the_replacement_once_per_range() {
    let a = engine(&["ab", "cd"], &[]);

    assert_eq!(a.mask("xabycdz", "**"), "x**y**z");
    assert_eq!(a.mask("xabycdz", ""), "xyz");
    assert_eq!(a.mask("xyz", "**"), "xyz");
}

#[test]
fn empty_whitelist_entry_is_reported_at_construction() {
    let error = Engine::new(vec!["ab".into()], vec!["ok".into(), "\u{3000}".into()], Options::default())
        .err()
        .expect("whitelist entry must fail normalization");
    assert!(matches!(error, DictionaryError::EmptyEntry { index: 1 }));
}

#[test]
fn options_are_kept_as_given() {
    let mut options = Options::default();
    options.lowercase = false;
    let a = Engine::new(vec!["A".into()], vec![], options).unwrap();

    assert!(!a.options().lowercase);
    assert!(a.contains("A"));
    assert!(!a.contains("a"));
}

#[test]
fn whitelist_holding_every_term_exempts_every_match() {
    let a = engine(&["ab", "cd"], &["AB", "cd", "zz"]);

    assert!(!a.contains("abcd ab cd"));
    assert!(a.scan("abcd ab cd").is_empty());
    assert_eq!(a.mask("abcd", "*"), "abcd");
}

#[test]
fn adding_whitelist_phrases_only_removes_hits() {
    let plain = engine(&["ab", "bc"], &[]);
    let guarded = engine(&["ab", "bc"], &["xab"]);
    let text = "xabc";

    let all = plain.scan(text);
    let kept = guarded.scan(text);
    assert_eq!(
        all,
        vec![
            Hit { term_id: 0, start: 1, end: 3 },
            Hit { term_id: 1, start: 2, end: 4 },
        ]
    );
    assert_eq!(kept, vec![Hit { term_id: 1, start: 2, end: 4 }]);
    assert!(kept.iter().all(|h| all.contains(h)));
}

#[test]
fn kept_terms_are_numbered_in_order_of_first_occurrence() {
    let a = engine(&["B", "x", "b", "a"], &[]);

    assert_eq!(
        a.scan("ba"),
        vec![
            Hit { term_id: 0, start: 0, end: 1 },
            Hit { term_id: 2, start: 1, end: 2 },
        ]
    );
    assert_eq!(a.term(0), "B");
    assert_eq!(a.term(1), "x");
    assert_eq!(a.term(2), "a");
}

#[test]
fn has_match_looks_at_whitelisted_matches_until_a_valid_one() {
    let a = engine(&["ab", "cd"], &["xab"]);
    let classes = UnicodeClasses::new();
    let normalized = normalize("xabcd", &a.options(), &classes);
    let whitelist = a.whitelist_ranges(normalized.text.as_bytes());
    let (found, visits) = a.has_match(normalized.text.as_bytes(), &whitelist);

    assert!(found);
    assert_eq!(visits, 2);

    let normalized = normalize("xab", &a.options(), &classes);
    let whitelist = a.whitelist_ranges(normalized.text.as_bytes());
    assert_eq!(a.has_match(normalized.text.as_bytes(), &whitelist), (false, 1));
}
