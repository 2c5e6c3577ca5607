use lexsift::php::{
    zend_offset, ArrayKey, DictionaryInput, Matcher, OptionsInput, PhpError, PhpErrorKind,
    PhpString, ZvalInput,
};

fn dict(values: &[&str]) -> DictionaryInput {
    DictionaryInput(Some(
        values
            .iter()
            .map(|v| ZvalInput::Str(v.as_bytes().to_vec()))
            .collect(),
    ))
}

fn no_options() -> OptionsInput {
    OptionsInput(None)
}

fn option(key: &str, value: ZvalInput) -> (ArrayKey, ZvalInput) {
    (ArrayKey::Str(key.as_bytes().to_vec()), value)
}

fn construct_error(terms: DictionaryInput, whitelist: DictionaryInput, options: OptionsInput) -> PhpError {
    match Matcher::__construct(terms, whitelist, options) {
        Ok(_) => panic!("construction must fail"),
        Err(e) => e,
    }
}

fn text(s: &str) -> PhpString<'_> {
    PhpString(s.as_bytes())
}

#[test]
fn readme_example_scans_masks_and_replaces() {
    let options = OptionsInput(Some(vec![
        option("lowercase", ZvalInput::Bool(true)),
        option("remove_emoji", ZvalInput::Bool(true)),
    ]));
    let mut filter = Matcher::__construct(
        dict(&["赌博", "博彩", "bad word", "微信"]),
        dict(&["合法博彩说明", "微信支付"]),
        options,
    )
    .unwrap();
    let input = "前赌 博后，微信支付";

    assert!(filter.contains(text(input)).unwrap());
    let rows = filter.scan(text(input)).unwrap();
    assert_eq!(rows.len(), 1);
    assert_eq!(rows[0].term, "赌博");
    assert_eq!(rows[0].text, "赌 博");
    assert_eq!(rows[0].start, 3);
    assert_eq!(rows[0].end, 10);
    assert_eq!(filter.mask(text(input), text("*")).unwrap(), "前*后，微信支付");

    filter.replace_terms(dict(&["新的词语", "另一个词语"])).unwrap();
    filter.replace_whitelist(dict(&["允许出现的完整短语"])).unwrap();
    assert!(filter.contains(text("新的词语")).unwrap());
    assert!(!filter.contains(text("赌博")).unwrap());
}

#[test]
fn invalid_utf8_text_is_a_value_error() {
    let m = Matcher::__construct(dict(&["ab"]), DictionaryInput(None), no_options()).unwrap();
    let bad: &[u8] = &[0x61, 0xff];

    let e = m.contains(PhpString(bad)).unwrap_err();
    assert_eq!(e.kind, PhpErrorKind::ValueError);
    assert_eq!(e.message, "text must contain valid UTF-8");

    let e = m.scan(PhpString(bad)).unwrap_err();
    assert_eq!(e.message, "text must contain valid UTF-8");

    let e = m.mask(text("ab"), PhpString(bad)).unwrap_err();
    assert_eq!(e.kind, PhpErrorKind::ValueError);
    assert_eq!(e.message, "replacement must contain valid UTF-8");
}

#[test]
fn dictionary_values_must_be_utf8_strings() {
    let e = construct_error(
        DictionaryInput(Some(vec![ZvalInput::Str(b"ok".to_vec()), ZvalInput::Other])),
        DictionaryInput(None),
        no_options(),
    );
    assert_eq!(e.kind, PhpErrorKind::TypeError);
    assert_eq!(e.message, "terms[1] must be of type string");

    let e = construct_error(
        dict(&["ok"]),
        DictionaryInput(Some(vec![ZvalInput::Str(vec![0xc3])])),
        no_options(),
    );
    assert_eq!(e.kind, PhpErrorKind::ValueError);
    assert_eq!(e.message, "whitelist[0] must contain valid UTF-8");

    let e = construct_error(dict(&["ok", "   "]), DictionaryInput(None), no_options());
    assert_eq!(e.kind, PhpErrorKind::ValueError);
    assert_eq!(e.message, "terms[1] is empty after normalization");

    let e = construct_error(dict(&[""]), DictionaryInput(None), no_options());
    assert_eq!(e.message, "terms[0] is empty after normalization");
}

#[test]
fn options_are_validated_in_order() {
    let e = construct_error(
        dict(&["ab"]),
        DictionaryInput(None),
        OptionsInput(Some(vec![option("unknown", ZvalInput::Bool(true))])),
    );
    assert_eq!(e.kind, PhpErrorKind::ValueError);
    assert_eq!(e.message, "options contains unknown key unknown");

    let e = construct_error(
        dict(&["ab"]),
        DictionaryInput(None),
        OptionsInput(Some(vec![option("lowercase", ZvalInput::Other)])),
    );
    assert_eq!(e.kind, PhpErrorKind::TypeError);
    assert_eq!(e.message, "options[lowercase] must be of type bool");

    let e = construct_error(
        dict(&["ab"]),
        DictionaryInput(None),
        OptionsInput(Some(vec![
            option("lowercase", ZvalInput::Bool(false)),
            (ArrayKey::Long(0), ZvalInput::Bool(true)),
        ])),
    );
    assert_eq!(e.message, "options key at position 1 must be a string");

    let e = construct_error(
        dict(&["ab"]),
        DictionaryInput(None),
        OptionsInput(Some(vec![(ArrayKey::Str(vec![0xff]), ZvalInput::Bool(true))])),
    );
    assert_eq!(e.message, "options key at position 0 must contain valid UTF-8");

    let e = construct_error(
        DictionaryInput(Some(vec![ZvalInput::Other])),
        DictionaryInput(None),
        OptionsInput(Some(vec![option("bogus", ZvalInput::Bool(true))])),
    );
    assert_eq!(e.message, "options contains unknown key bogus");
}

#[test]
fn options_change_what_matches() {
    let m = Matcher::__construct(
        dict(&["A"]),
        DictionaryInput(None),
        OptionsInput(Some(vec![option("lowercase", ZvalInput::Bool(false))])),
    )
    .unwrap();
    assert!(m.contains(text("A")).unwrap());
    assert!(!m.contains(text("a")).unwrap());

    let m = Matcher::__construct(
        dict(&["-—"]),
        DictionaryInput(None),
        OptionsInput(Some(vec![option("remove_punctuation", ZvalInput::Bool(true))])),
    );
    let e = match m {
        Ok(_) => panic!("a term of punctuation only must fail"),
        Err(e) => e,
    };
    assert_eq!(e.message, "terms[0] is empty after normalization");
}

#[test]
fn replacement_errors_keep_the_previous_dictionaries() {
    let mut m = Matcher::__construct(dict(&["赌博"]), dict(&["微信"]), no_options()).unwrap();

    let e = m.replace_terms(dict(&["ok", " "])).unwrap_err();
    assert_eq!(e.kind, PhpErrorKind::ValueError);
    assert_eq!(
        e.message,
        "terms contains an invalid entry: dictionary entry at index 1 is empty after normalization"
    );
    assert!(m.contains(text("赌博")).unwrap());

    let e = m.replace_whitelist(dict(&["安全", " "])).unwrap_err();
    assert_eq!(
        e.message,
        "whitelist contains an invalid entry: dictionary entry at index 1 is empty after normalization"
    );
    assert!(!m.contains(text("微信")).unwrap());

    let e = m
        .replace_terms(DictionaryInput(Some(vec![ZvalInput::Bool(true)])))
        .unwrap_err();
    assert_eq!(e.kind, PhpErrorKind::TypeError);
    assert_eq!(e.message, "terms[0] must be of type string");
    assert!(m.contains(text("赌博")).unwrap());
}

#[test]
fn empty_arrays_are_valid_dictionaries() {
    let mut m = Matcher::__construct(DictionaryInput(None), DictionaryInput(None), no_options()).unwrap();
    assert!(!m.contains(text("anything")).unwrap());
    assert!(m.scan(text("anything")).unwrap().is_empty());
    assert_eq!(m.mask(text("anything"), text("*")).unwrap(), "anything");

    m.replace_terms(dict(&[])).unwrap();
    assert!(!m.contains(text("anything")).unwrap());
}

#[test]
fn scan_rows_give_original_terms_and_byte_offsets() {
    let m = Matcher::__construct(dict(&["ﬁ", "fi", "ab"]), DictionaryInput(None), no_options()).unwrap();
    let input = "x FI ab";
    let rows = m.scan(text(input)).unwrap();

    assert_eq!(rows.len(), 2);
    assert_eq!(rows[0].term, "ﬁ");
    assert_eq!(rows[0].text, "FI");
    assert_eq!((rows[0].start, rows[0].end), (2, 4));
    assert_eq!(rows[1].term, "ab");
    assert_eq!((rows[1].start, rows[1].end), (5, 7));
    for row in &rows {
        assert_eq!(&input[row.start as usize..row.end as usize], row.text);
    }
}

#[test]
fn mask_replacement_may_be_empty_or_long() {
    let m = Matcher::__construct(dict(&["ab", "bc"]), DictionaryInput(None), no_options()).unwrap();

    assert_eq!(m.mask(text("xabcx"), text("")).unwrap(), "xx");
    assert_eq!(m.mask(text("xabcx"), text("[削除]")).unwrap(), "x[削除]x");
}

#[test]
fn zend_offset_checks_the_php_integer_range() {
    assert_eq!(zend_offset(7, "start").unwrap(), 7);
    assert_eq!(zend_offset(i64::MAX as usize, "end").unwrap(), i64::MAX);
    let e = zend_offset(i64::MAX as usize + 1, "start").unwrap_err();
    assert_eq!(e.kind, PhpErrorKind::ValueError);
    assert_eq!(e.message, "match start offset exceeds PHP integer range");
}

#[test]
fn utf8_check_names_the_parameter() {
    let e = PhpString(&[0xe4, 0xb8]).utf8("options key at position 3").unwrap_err();
    assert_eq!(e.message, "options key at position 3 must contain valid UTF-8");
    assert_eq!(PhpString("文".as_bytes()).utf8("text").unwrap(), "文");
}

#[test]
fn options_that_restate_the_defaults_change_nothing() {
    let explicit = OptionsInput(Some(vec![
        option("unicode_nfkc", ZvalInput::Bool(true)),
        option("lowercase", ZvalInput::Bool(true)),
        option("remove_whitespace", ZvalInput::Bool(true)),
        option("remove_punctuation", ZvalInput::Bool(false)),
        option("remove_symbols", ZvalInput::Bool(false)),
        option("remove_emoji", ZvalInput::Bool(true)),
    ]));
    let a = Matcher::__construct(dict(&["赌博", "ﬁ"]), dict(&["微信支付"]), no_options()).unwrap();
    let b = Matcher::__construct(dict(&["赌博", "ﬁ"]), dict(&["微信支付"]), explicit).unwrap();

    for input in ["前赌 博后，微信支付", "FI 👍🏽 fi", ""] {
        assert_eq!(a.contains(text(input)).unwrap(), b.contains(text(input)).unwrap());
        let ra = a.scan(text(input)).unwrap();
        let rb = b.scan(text(input)).unwrap();
        assert_eq!(ra.len(), rb.len());
        for (x, y) in ra.iter().zip(rb.iter()) {
            assert_eq!((&x.term, &x.text, x.start, x.end), (&y.term, &y.text, y.start, y.end));
        }
        assert_eq!(a.mask(text(input), text("#")).unwrap(), b.mask(text(input), text("#")).unwrap());
    }
}

#[test]
fn scan_rows_cover_whole_graphemes() {
    let m = Matcher::__construct(
        dict(&["e"]),
        DictionaryInput(None),
        OptionsInput(Some(vec![option("unicode_nfkc", ZvalInput::Bool(false))])),
    )
    .unwrap();
    let rows = m.scan(text("xe\u{0301}y")).unwrap();

    assert_eq!(rows.len(), 1);
    assert_eq!(rows[0].text, "e\u{0301}");
    assert_eq!((rows[0].start, rows[0].end), (1, 4));
}

#[test]
fn later_duplicate_terms_change_no_result() {
    let a = Matcher::__construct(dict(&["ﬁ"]), DictionaryInput(None), no_options()).unwrap();
    let b = Matcher::__construct(dict(&["ﬁ", "fi", "FI"]), DictionaryInput(None), no_options()).unwrap();
    let ra = a.scan(text("a fi b")).unwrap();
    let rb = b.scan(text("a fi b")).unwrap();

    assert_eq!(ra.len(), 1);
    assert_eq!(rb.len(), 1);
    assert_eq!(rb[0].term, "ﬁ");
    assert_eq!((ra[0].start, ra[0].end), (rb[0].start, rb[0].end));
}

fn row_keys(m: &Matcher, input: &str) -> Vec<(String, String, i64, i64)> {
    m.scan(text(input))
        .unwrap()
        .into_iter()
        .map(|r| (r.term, r.text, r.start, r.end))
        .collect()
}

#[test]
fn replaced_terms_behave_like_a_fresh_matcher() {
    let mut m = Matcher::__construct(dict(&["赌博"]), dict(&["微信支付"]), no_options()).unwrap();
    m.replace_terms(dict(&["微信", "ab", "AB"])).unwrap();
    let fresh = Matcher::__construct(dict(&["微信", "ab", "AB"]), dict(&["微信支付"]), no_options()).unwrap();

    for input in ["微信 微信支付 赌博 ab", "xAbx", ""] {
        assert_eq!(row_keys(&m, input), row_keys(&fresh, input));
        assert_eq!(m.contains(text(input)).unwrap(), fresh.contains(text(input)).unwrap());
        assert_eq!(m.mask(text(input), text("*")).unwrap(), fresh.mask(text(input), text("*")).unwrap());
    }
}

#[test]
fn replaced_whitelist_behaves_like_a_fresh_matcher() {
    let mut m = Matcher::__construct(dict(&["ab", "cd"]), dict(&["xab"]), no_options()).unwrap();
    m.replace_whitelist(dict(&["cdy"])).unwrap();
    let fresh = Matcher::__construct(dict(&["ab", "cd"]), dict(&["cdy"]), no_options()).unwrap();

    for input in ["xab cdy", "abcd", ""] {
        assert_eq!(row_keys(&m, input), row_keys(&fresh, input));
        assert_eq!(m.mask(text(input), text("#")).unwrap(), fresh.mask(text(input), text("#")).unwrap());
    }
    assert_eq!(row_keys(&m, "xab cdy"), vec![("ab".to_string(), "ab".to_string(), 1, 3)]);
}

#[test]
fn failed_replacement_keeps_every_result() {
    let mut m = Matcher::__construct(dict(&["ab"]), dict(&["xab"]), no_options()).unwrap();
    let before = row_keys(&m, "xab ab");
    assert!(m.replace_terms(dict(&["cd", "  "])).is_err());
    assert!(m.replace_whitelist(DictionaryInput(Some(vec![ZvalInput::Other]))).is_err());
    assert_eq!(row_keys(&m, "xab ab"), before);
    assert_eq!(m.mask(text("xab ab"), text("*")).unwrap(), "xab *");
}

#[test]
fn a_longer_whitelist_keeps_a_subsequence_of_rows() {
    let short = Matcher::__construct(dict(&["ab", "bc", "c"]), dict(&["xab"]), no_options()).unwrap();
    let long = Matcher::__construct(dict(&["ab", "bc", "c"]), dict(&["xab", "bcy"]), no_options()).unwrap();
    let input = "xabcy abc";
    let all = row_keys(&short, input);
    let kept = row_keys(&long, input);

    assert_eq!(all.len(), 5);
    assert_eq!(kept.len(), 3);
    let mut pos = 0;
    for row in &kept {
        while all[pos] != *row {
            pos += 1;
        }
        pos += 1;
    }
}
