use lexsift::normalize::{keep_char, normalize, normalized_chars, Options, Span};
use lexsift::unicode::UnicodeClasses;
use unicode_normalization::UnicodeNormalization;

fn no_transform_options() -> Options {
    Options {
        unicode_nfkc: false,
        lowercase: false,
        remove_whitespace: false,
        remove_punctuation: false,
        remove_symbols: false,
        remove_emoji: false,
    }
}

fn options_from_bits(bits: u32) -> Options {
    Options {
        unicode_nfkc: bits & 1 != 0,
        lowercase: bits & 2 != 0,
        remove_whitespace: bits & 4 != 0,
        remove_punctuation: bits & 8 != 0,
        remove_symbols: bits & 16 != 0,
        remove_emoji: bits & 32 != 0,
    }
}

#[test]
fn streaming_normalization_matches_mapped_normalization_for_all_options() {
    let classes = UnicodeClasses::new();
    let fragments = [
        "",
        "a",
        "A",
        "\0",
        "\r\n",
        "\u{00a0}",
        "—",
        "$\u{0301}",
        "ﬃİ",
        "Ａ",
        "\u{0315}\u{0300}",
        "a\u{0315}\u{0300}",
        "\u{1100}",
        "\u{1161}\u{11a8}",
        "ﾡ",
        "ￂ",
        "\u{11a8}",
        "👨‍👩‍👧‍👦",
        "👍🏽",
        "🇨🇳",
        "1️⃣",
        "©\u{fe0e}",
        "©\u{fe0f}",
        "🏴\u{e0067}\u{e0062}\u{e007f}",
        "\u{0301}",
        "赌 博",
    ];
    for bits in 0..64 {
        let options = options_from_bits(bits);
        for first in fragments {
            for second in fragments {
                let input = format!("{first}{second}");
                assert_eq!(
                    normalized_chars(&input, &options, &classes),
                    normalize(&input, &options, &classes).text,
                    "options={bits}, input={input:?}"
                );
            }
        }
    }
}

#[test]
fn normalizes_hangul_compatibility_jamo_with_combined_source_span() {
    let classes = UnicodeClasses::new();
    let normalized = normalize("ﾡￂ", &Options::default(), &classes);

    assert_eq!(normalized.text, "가");
    assert_eq!(normalized.source_span(0, 3), Span { start: 0, end: 6 });
}

#[test]
fn expands_compatibility_and_lowercase_characters() {
    let classes = UnicodeClasses::new();
    let normalized = normalize("ﬃİ", &Options::default(), &classes);

    assert_eq!(normalized.text, "ffii\u{0307}");
    assert_eq!(normalized.source_span(0, 3), Span { start: 0, end: 3 });
    assert_eq!(normalized.source_span(3, 6), Span { start: 3, end: 5 });
}

#[test]
fn removed_whitespace_is_included_between_matched_source_clusters() {
    let classes = UnicodeClasses::new();
    let normalized = normalize("前赌 博后", &Options::default(), &classes);

    assert_eq!(normalized.text, "前赌博后");
    assert_eq!(normalized.source_span(3, 9), Span { start: 3, end: 10 });
}

#[test]
fn removes_each_supported_emoji_form_as_a_complete_grapheme() {
    let classes = UnicodeClasses::new();
    let emoji = [
        "👨‍👩‍👧‍👦",
        "👍🏽",
        "🇨🇳",
        "1️⃣",
        "🏴\u{e0067}\u{e0062}\u{e0065}\u{e006e}\u{e0067}\u{e007f}",
        "©",
        "©\u{fe0e}",
        "©\u{fe0f}",
    ];

    for emoji in emoji {
        let input = format!("赌{emoji}博");
        assert_eq!(normalize(&input, &Options::default(), &classes).text, "赌博");
    }
}

#[test]
fn does_not_remove_plain_keycap_bases_as_emoji() {
    let classes = UnicodeClasses::new();
    assert_eq!(normalize("1#*", &Options::default(), &classes).text, "1#*");
}

#[test]
fn removes_unicode_punctuation_and_symbols_independently() {
    let classes = UnicodeClasses::new();
    let mut punctuation = no_transform_options();
    punctuation.remove_punctuation = true;
    assert_eq!(normalize("a—$b", &punctuation, &classes).text, "a$b");

    let mut symbols = no_transform_options();
    symbols.remove_symbols = true;
    assert_eq!(normalize("a—$b", &symbols, &classes).text, "a—b");
}

#[test]
fn retained_combining_mark_maps_to_the_complete_original_grapheme() {
    let classes = UnicodeClasses::new();
    let mut options = no_transform_options();
    options.remove_symbols = true;

    let normalized = normalize("$\u{0301}", &options, &classes);

    assert_eq!(normalized.text, "\u{0301}");
    assert_eq!(normalized.source_span(0, 2), Span { start: 0, end: 3 });
}

#[test]
fn independent_edge_deletions_do_not_expand_the_match_source_span() {
    let classes = UnicodeClasses::new();
    let normalized = normalize(" 赌 博 👨", &Options::default(), &classes);

    assert_eq!(normalized.text, "赌博");
    assert_eq!(normalized.source_span(0, 6), Span { start: 1, end: 8 });
}

#[test]
fn tagged_nfkc_matches_unicode_normalization_for_fixed_corpus() {
    let classes = UnicodeClasses::new();
    let mut options = no_transform_options();
    options.unicode_nfkc = true;
    let corpus = [
        "\u{0315}\u{0300}",
        "a\u{0315}\u{0300}",
        "\u{1100}\u{1161}\u{11a8}",
        "ﾡￂ",
        "ﬃ",
        "İ",
        "\u{212b}",
        "x\u{0301}\u{0327}y",
    ];

    for input in corpus {
        let expected: String = input.nfkc().collect();
        assert_eq!(
            normalize(input, &options, &classes).text,
            expected,
            "input: {input:?}"
        );
    }
}

#[test]
fn no_transform_options_keep_the_text_and_map_each_byte_to_its_grapheme() {
    let classes = UnicodeClasses::new();
    let normalized = normalize("aé", &no_transform_options(), &classes);

    assert_eq!(normalized.text, "aé");
    assert_eq!(
        normalized.spans,
        vec![
            Span { start: 0, end: 1 },
            Span { start: 1, end: 3 },
            Span { start: 1, end: 3 },
        ]
    );
}

#[test]
fn empty_input_normalizes_to_nothing() {
    let classes = UnicodeClasses::new();
    let normalized = normalize("", &Options::default(), &classes);

    assert_eq!(normalized.text, "");
    assert!(normalized.spans.is_empty());
    assert_eq!(normalized_chars("", &Options::default(), &classes), "");
}

#[test]
fn default_options_match_the_documented_defaults() {
    let options = Options::default();

    assert!(options.unicode_nfkc);
    assert!(options.lowercase);
    assert!(options.remove_whitespace);
    assert!(!options.remove_punctuation);
    assert!(!options.remove_symbols);
    assert!(options.remove_emoji);
}

#[test]
fn lowercase_expands_a_character_into_several() {
    let classes = UnicodeClasses::new();
    let mut options = no_transform_options();
    options.lowercase = true;

    let normalized = normalize("AİB", &options, &classes);

    assert_eq!(normalized.text, "ai\u{0307}b");
    assert_eq!(normalized.source_span(1, 4), Span { start: 1, end: 3 });
}

#[test]
fn keep_char_follows_each_removal_option() {
    let classes = UnicodeClasses::new();
    let mut options = no_transform_options();

    assert!(keep_char(' ', &options, &classes));
    options.remove_whitespace = true;
    assert!(!keep_char(' ', &options, &classes));
    assert!(!keep_char('\u{3000}', &options, &classes));
    assert!(!keep_char('\u{85}', &options, &classes));
    assert!(!keep_char('\u{205f}', &options, &classes));
    assert!(keep_char('\u{200b}', &options, &classes));
    assert!(keep_char('a', &options, &classes));

    options.remove_punctuation = true;
    assert!(!keep_char('—', &options, &classes));
    assert!(keep_char('$', &options, &classes));

    options.remove_symbols = true;
    assert!(!keep_char('$', &options, &classes));
    assert!(keep_char('a', &options, &classes));
}

#[test]
fn emoji_classes_recognise_the_documented_forms() {
    let classes = UnicodeClasses::new();

    let thumbs: Vec<char> = "👍🏽".chars().collect();
    assert!(classes.is_emoji(&thumbs));
    assert!(classes.is_emoji(&['©']));
    assert!(!classes.is_emoji(&['1']));
    assert!(classes.is_punctuation('—'));
    assert!(!classes.is_punctuation('$'));
    assert!(classes.is_symbol('$'));
    assert!(!classes.is_symbol('a'));
}
