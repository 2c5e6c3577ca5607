//! The `LexSift\Matcher` interface: argument validation, error messages and
//! result rows, over plain values handed in by the PHP binding.

use crate::engine::{
    compiled_entries, dictionary_ok, hit_in_text, is_compile_error, masked, merge_hits,
    DictionaryError, Engine, Hit,
};
use crate::encoding::slice_str;
use crate::normalize::{grapheme_boundary, normalize, normalized_text, Options};
use crate::text::{decimal, push_decimal};
use crate::unicode::UnicodeClasses;
use vstd::prelude::*;
use vstd::string::StringExecFns;
use vstd::utf8::*;

verus! {

broadcast use vstd::seq_lib::group_seq_properties, vstd::seq::group_seq_axioms;

/// The PHP exception class an error is raised as.
#[derive(Clone, Copy, Debug, PartialEq, Eq, Structural)]
pub enum PhpErrorKind {
    TypeError,
    ValueError,
}

/// An error to be raised as a PHP exception.
#[derive(Debug)]
pub struct PhpError {
    pub kind: PhpErrorKind,
    pub message: String,
}

/// `e` has the given class and message.
pub open spec fn is_error(e: PhpError, kind: PhpErrorKind, message: Seq<char>) -> bool {
    e.kind == kind && e.message@ == message
}

/// A PHP string argument: raw bytes that must be valid UTF-8.
pub struct PhpString<'a>(pub &'a [u8]);

/// A PHP array value, as far as validation needs to tell them apart.
pub enum ZvalInput {
    Str(Vec<u8>),
    Bool(bool),
    Other,
}

/// A PHP array key.
pub enum ArrayKey {
    Long(i64),
    Str(Vec<u8>),
}

/// The values of a dictionary array in iteration order; keys play no part.
/// `None` is the default empty array.
pub struct DictionaryInput(pub Option<Vec<ZvalInput>>);

/// The entries of an options array in iteration order; `None` is the default empty array.
pub struct OptionsInput(pub Option<Vec<(ArrayKey, ZvalInput)>>);

/// One row of `scan()`: the original term, the matched original text and its byte offsets.
#[derive(Debug)]
pub struct ScanRow {
    pub term: String,
    pub text: String,
    pub start: i64,
    pub end: i64,
}

/// `std::str::from_utf8`: the bytes as a string slice when they are valid UTF-8.
#[verifier::external_body]
fn str_from_utf8(bytes: &[u8]) -> (r: Option<&str>)
    ensures
        r is Some <==> valid_utf8(bytes@),
        r matches Some(s) ==> encode_utf8(s@) == bytes@,
{
    std::str::from_utf8(bytes).ok()
}

/// `parameter` followed by `suffix`.
fn message2(parameter: &str, suffix: &str) -> (r: String)
    ensures
        r@ == parameter@ + suffix@,
{
    let mut s = String::from_str(parameter);
    s.append(suffix);
    s
}

/// `"{parameter}[{index}]{suffix}"`.
fn indexed_message(parameter: &str, index: usize, suffix: &str) -> (r: String)
    ensures
        r@ == parameter@ + "["@ + decimal(index as nat) + "]"@ + suffix@,
{
    let mut s = String::from_str(parameter);
    s.append("[");
    push_decimal(&mut s, index);
    s.append("]");
    s.append(suffix);
    s
}

impl<'a> PhpString<'a> {
    /// The bytes as text; invalid UTF-8 is a `ValueError` naming `parameter`.
    pub fn utf8(&self, parameter: &str) -> (r: Result<&'a str, PhpError>)
        ensures
            r is Ok <==> valid_utf8(self.0@),
            r matches Ok(s) ==> encode_utf8(s@) == self.0@,
            r matches Err(e) ==> is_error(
                e,
                PhpErrorKind::ValueError,
                parameter@ + " must contain valid UTF-8"@,
            ),
    {
        match str_from_utf8(self.0) {
            Some(s) => Ok(s),
            None => Err(
                PhpError {
                    kind: PhpErrorKind::ValueError,
                    message: message2(parameter, " must contain valid UTF-8"),
                },
            ),
        }
    }
}

// ---------------------------------------------------------------------------
// Dictionaries.

/// The error of the value at `index` of a dictionary named `parameter`, if it
/// has one: not a string, not UTF-8, or (when options are given) empty after
/// normalization.
pub open spec fn dictionary_value_error(
    v: ZvalInput,
    index: nat,
    parameter: Seq<char>,
    options: Option<Options>,
) -> Option<(PhpErrorKind, Seq<char>)> {
    let name = parameter + "["@ + decimal(index) + "]"@;
    match v {
        ZvalInput::Str(bytes) => if !valid_utf8(bytes@) {
            Some((PhpErrorKind::ValueError, name + " must contain valid UTF-8"@))
        } else if options matches Some(o) && normalized_text(decode_utf8(bytes@), o).len() == 0 {
            Some((PhpErrorKind::ValueError, name + " is empty after normalization"@))
        } else {
            None
        },
        _ => Some((PhpErrorKind::TypeError, name + " must be of type string"@)),
    }
}

/// The error of the first invalid value, if any.
pub open spec fn dictionary_error(
    values: Seq<ZvalInput>,
    parameter: Seq<char>,
    options: Option<Options>,
) -> Option<(PhpErrorKind, Seq<char>)>
    decreases values.len(),
{
    if values.len() == 0 {
        None
    } else {
        match dictionary_error(values.drop_last(), parameter, options) {
            Some(e) => Some(e),
            None => dictionary_value_error(
                values.last(),
                (values.len() - 1) as nat,
                parameter,
                options,
            ),
        }
    }
}

/// The text of a dictionary value (meaningful for valid string values).
pub open spec fn value_text(v: ZvalInput) -> Seq<char> {
    match v {
        ZvalInput::Str(bytes) => decode_utf8(bytes@),
        _ => Seq::empty(),
    }
}

/// The values of a dictionary argument (none for the default).
pub open spec fn dictionary_values(input: DictionaryInput) -> Seq<ZvalInput> {
    match input.0 {
        Some(values) => values@,
        None => Seq::empty(),
    }
}

/// Parses the values of a dictionary array into strings. With `options`,
/// a value that normalizes to nothing is rejected here already.
pub fn parse_dictionary(
    values: DictionaryInput,
    parameter: &str,
    options: Option<&Options>,
    classes: &UnicodeClasses,
) -> (r: Result<Vec<String>, PhpError>)
    ensures
        ({
            let o = match options {
                Some(o) => Some(*o),
                None => None,
            };
            match dictionary_error(dictionary_values(values), parameter@, o) {
                Some((kind, message)) => r matches Err(e) && is_error(e, kind, message),
                None => r matches Ok(v) && v.deep_view() == dictionary_values(values).map_values(
                    |z: ZvalInput| value_text(z),
                ),
            }
        }),
{
    let ghost o = match options {
        Some(o) => Some(*o),
        None => None,
    };
    let ghost vs = dictionary_values(values);
    let list = match values.0 {
        Some(list) => list,
        None => {
            let r: Vec<String> = Vec::new();
            assert(r.deep_view() =~= vs.map_values(|z: ZvalInput| value_text(z)));
            return Ok(r);
        },
    };
    let mut parsed: Vec<String> = Vec::new();
    let n = list.len();
    assert(vs.take(0) =~= Seq::<ZvalInput>::empty());
    for i in 0..n
        invariant
            n == list.len(),
            vs == list@,
            vs == dictionary_values(values),
            dictionary_error(vs.take(i as int), parameter@, o) is None,
            parsed.deep_view() == vs.take(i as int).map_values(|z: ZvalInput| value_text(z)),
            o == match options {
                Some(o) => Some(*o),
                None => None::<Options>,
            },
    {
        assert(vs.take(i + 1).drop_last() =~= vs.take(i as int));
        assert(vs.take(i + 1).last() == vs[i as int]);
        assert(dictionary_error(vs.take(i + 1), parameter@, o) == dictionary_value_error(
            vs[i as int],
            i as nat,
            parameter@,
            o,
        ));
        match &list[i] {
            ZvalInput::Str(bytes) => {
                let text = match str_from_utf8(bytes.as_slice()) {
                    Some(text) => text,
                    None => {
                        proof {
                            lemma_dictionary_error_prefix(vs, parameter@, o, i + 1);
                        }
                        return Err(
                            PhpError {
                                kind: PhpErrorKind::ValueError,
                                message: indexed_message(
                                    parameter,
                                    i,
                                    " must contain valid UTF-8",
                                ),
                            },
                        );
                    },
                };
                proof {
                    encode_utf8_decode_utf8(text@);
                }
                if let Some(options) = options {
                    let normalized = normalize(text, options, classes);
                    if normalized.text.as_str().is_empty() {
                        proof {
                            lemma_dictionary_error_prefix(vs, parameter@, o, i + 1);
                        }
                        return Err(
                            PhpError {
                                kind: PhpErrorKind::ValueError,
                                message: indexed_message(
                                    parameter,
                                    i,
                                    " is empty after normalization",
                                ),
                            },
                        );
                    }
                }
                let owned = String::from_str(text);
                assert(owned@ == value_text(vs[i as int]));
                let ghost before = parsed.deep_view();
                parsed.push(owned);
                assert(parsed.deep_view() =~= before.push(owned@));
                assert(vs.take(i + 1).map_values(|z: ZvalInput| value_text(z)) =~= vs.take(
                    i as int,
                ).map_values(|z: ZvalInput| value_text(z)).push(value_text(vs[i as int])));
            },
            _ => {
                proof {
                    assert(!(vs[i as int] is Str));
                    lemma_dictionary_error_prefix(vs, parameter@, o, i + 1);
                }
                let e = PhpError {
                    kind: PhpErrorKind::TypeError,
                    message: indexed_message(parameter, i, " must be of type string"),
                };
                return Err(e);
            },
        }
    }
    assert(vs.take(n as int) =~= vs);
    Ok(parsed)
}

/// Once a prefix has an error, the whole sequence reports it.
proof fn lemma_dictionary_error_prefix(
    vs: Seq<ZvalInput>,
    parameter: Seq<char>,
    o: Option<Options>,
    k: int,
)
    requires
        0 <= k <= vs.len(),
        dictionary_error(vs.take(k), parameter, o) is Some,
    ensures
        dictionary_error(vs, parameter, o) == dictionary_error(vs.take(k), parameter, o),
    decreases vs.len() - k,
{
    if k < vs.len() {
        assert(vs.take(k + 1).drop_last() =~= vs.take(k));
        lemma_dictionary_error_prefix(vs, parameter, o, k + 1);
    } else {
        assert(vs.take(k) =~= vs);
    }
}


// ---------------------------------------------------------------------------
// Options.

/// The default options.
pub open spec fn default_options() -> Options {
    Options {
        unicode_nfkc: true,
        lowercase: true,
        remove_whitespace: true,
        remove_punctuation: false,
        remove_symbols: false,
        remove_emoji: true,
    }
}

/// `o` with the option named `key` set to `value`, or the unknown-key error.
pub open spec fn set_option(o: Options, key: Seq<char>, value: bool) -> Result<
    Options,
    (PhpErrorKind, Seq<char>),
> {
    if key == "unicode_nfkc"@ {
        Ok(Options { unicode_nfkc: value, ..o })
    } else if key == "lowercase"@ {
        Ok(Options { lowercase: value, ..o })
    } else if key == "remove_whitespace"@ {
        Ok(Options { remove_whitespace: value, ..o })
    } else if key == "remove_punctuation"@ {
        Ok(Options { remove_punctuation: value, ..o })
    } else if key == "remove_symbols"@ {
        Ok(Options { remove_symbols: value, ..o })
    } else if key == "remove_emoji"@ {
        Ok(Options { remove_emoji: value, ..o })
    } else {
        Err((PhpErrorKind::ValueError, "options contains unknown key "@ + key))
    }
}

/// Applies the entry at `index` of the options array.
pub open spec fn option_step(
    acc: Result<Options, (PhpErrorKind, Seq<char>)>,
    entry: (ArrayKey, ZvalInput),
    index: nat,
) -> Result<Options, (PhpErrorKind, Seq<char>)> {
    match acc {
        Err(e) => Err(e),
        Ok(o) => match entry.0 {
            ArrayKey::Long(_) => Err(
                (
                    PhpErrorKind::ValueError,
                    "options key at position "@ + decimal(index) + " must be a string"@,
                ),
            ),
            ArrayKey::Str(bytes) => if !valid_utf8(bytes@) {
                Err(
                    (
                        PhpErrorKind::ValueError,
                        "options key at position "@ + decimal(index) + " must contain valid UTF-8"@,
                    ),
                )
            } else {
                let key = decode_utf8(bytes@);
                match entry.1 {
                    ZvalInput::Bool(value) => set_option(o, key, value),
                    _ => Err(
                        (PhpErrorKind::TypeError, "options["@ + key + "] must be of type bool"@),
                    ),
                }
            },
        },
    }
}

/// The options an options array describes, or its first error.
pub open spec fn parsed_options(entries: Seq<(ArrayKey, ZvalInput)>) -> Result<
    Options,
    (PhpErrorKind, Seq<char>),
>
    decreases entries.len(),
{
    if entries.len() == 0 {
        Ok(default_options())
    } else {
        option_step(
            parsed_options(entries.drop_last()),
            entries.last(),
            (entries.len() - 1) as nat,
        )
    }
}

/// The entries of an options argument (none for the default).
pub open spec fn option_entries(input: OptionsInput) -> Seq<(ArrayKey, ZvalInput)> {
    match input.0 {
        Some(entries) => entries@,
        None => Seq::empty(),
    }
}

/// Whether two strings are equal.
fn same_text(a: &str, b: &str) -> (r: bool)
    ensures
        r == (a@ == b@),
{
    String::from_str(a) == String::from_str(b)
}

/// Reads the six boolean options; options not given keep their defaults.
pub fn parse_options(values: OptionsInput) -> (r: Result<Options, PhpError>)
    ensures
        match parsed_options(option_entries(values)) {
            Ok(o) => r == Ok::<Options, PhpError>(o),
            Err((kind, message)) => r matches Err(e) && is_error(e, kind, message),
        },
{
    let mut options = Options::default();
    let ghost es = option_entries(values);
    let list = match values.0 {
        Some(list) => list,
        None => {
            return Ok(options);
        },
    };
    let n = list.len();
    assert(es.take(0) =~= Seq::<(ArrayKey, ZvalInput)>::empty());
    for index in 0..n
        invariant
            n == list.len(),
            es == list@,
            es == option_entries(values),
            parsed_options(es.take(index as int)) == Ok::<Options, (PhpErrorKind, Seq<char>)>(
                options,
            ),
    {
        assert(es.take(index + 1).drop_last() =~= es.take(index as int));
        assert(es.take(index + 1).last() == es[index as int]);
        let entry = &list[index];
        let key = match &entry.0 {
            ArrayKey::Long(_) => {
                proof {
                    lemma_options_error_prefix(es, index + 1);
                }
                let mut message = String::from_str("options key at position ");
                push_decimal(&mut message, index);
                message.append(" must be a string");
                return Err(PhpError { kind: PhpErrorKind::ValueError, message });
            },
            ArrayKey::Str(bytes) => match str_from_utf8(bytes.as_slice()) {
                Some(key) => key,
                None => {
                    proof {
                        lemma_options_error_prefix(es, index + 1);
                    }
                    let mut message = String::from_str("options key at position ");
                    push_decimal(&mut message, index);
                    message.append(" must contain valid UTF-8");
                    return Err(PhpError { kind: PhpErrorKind::ValueError, message });
                },
            },
        };
        proof {
            encode_utf8_decode_utf8(key@);
        }
        let value = match entry.1 {
            ZvalInput::Bool(value) => value,
            _ => {
                proof {
                    lemma_options_error_prefix(es, index + 1);
                }
                let mut message = String::from_str("options[");
                message.append(key);
                message.append("] must be of type bool");
                return Err(PhpError { kind: PhpErrorKind::TypeError, message });
            },
        };
        if same_text(key, "unicode_nfkc") {
            options.unicode_nfkc = value;
        } else if same_text(key, "lowercase") {
            options.lowercase = value;
        } else if same_text(key, "remove_whitespace") {
            options.remove_whitespace = value;
        } else if same_text(key, "remove_punctuation") {
            options.remove_punctuation = value;
        } else if same_text(key, "remove_symbols") {
            options.remove_symbols = value;
        } else if same_text(key, "remove_emoji") {
            options.remove_emoji = value;
        } else {
            proof {
                lemma_options_error_prefix(es, index + 1);
            }
            let mut message = String::from_str("options contains unknown key ");
            message.append(key);
            return Err(PhpError { kind: PhpErrorKind::ValueError, message });
        }
    }
    assert(es.take(n as int) =~= es);
    Ok(options)
}

/// Once a prefix of the options has an error, the whole array reports it.
proof fn lemma_options_error_prefix(es: Seq<(ArrayKey, ZvalInput)>, k: int)
    requires
        0 <= k <= es.len(),
        parsed_options(es.take(k)) is Err,
    ensures
        parsed_options(es) == parsed_options(es.take(k)),
    decreases es.len() - k,
{
    if k < es.len() {
        assert(es.take(k + 1).drop_last() =~= es.take(k));
        lemma_options_error_prefix(es, k + 1);
    } else {
        assert(es.take(k) =~= es);
    }
}

/// A byte offset as a PHP integer; offsets beyond its range are a `ValueError`.
pub fn zend_offset(offset: usize, name: &str) -> (r: Result<i64, PhpError>)
    ensures
        offset <= i64::MAX ==> r == Ok::<i64, PhpError>(offset as i64),
        offset > i64::MAX ==> (r matches Err(e) && is_error(
            e,
            PhpErrorKind::ValueError,
            "match "@ + name@ + " offset exceeds PHP integer range"@,
        )),
{
    if offset as u64 <= i64::MAX as u64 {
        Ok(offset as i64)
    } else {
        let mut message = String::from_str("match ");
        message.append(name);
        message.append(" offset exceeds PHP integer range");
        Err(PhpError { kind: PhpErrorKind::ValueError, message })
    }
}


// ---------------------------------------------------------------------------
// The matcher.

/// The first offset error of a list of hits, in order, start before end.
pub open spec fn offset_error(hits: Seq<Hit>) -> Option<Seq<char>>
    decreases hits.len(),
{
    if hits.len() == 0 {
        None
    } else {
        match offset_error(hits.drop_last()) {
            Some(m) => Some(m),
            None => if hits.last().start > i64::MAX {
                Some("match start offset exceeds PHP integer range"@)
            } else if hits.last().end > i64::MAX {
                Some("match end offset exceeds PHP integer range"@)
            } else {
                None
            },
        }
    }
}

/// `row` reports `hit` of the text with UTF-8 bytes `bytes`.
pub open spec fn row_of(engine: Engine, bytes: Seq<u8>, hit: Hit, row: ScanRow) -> bool {
    &&& row.term@ == engine.term_originals()[hit.term_id as int]
    &&& encode_utf8(row.text@) == bytes.subrange(hit.start as int, hit.end as int)
    &&& row.start == hit.start as i64
    &&& row.end == hit.end as i64
}

/// The row's range `[start, end)` is non-empty, lies within `bytes` and
/// starts and ends on character boundaries that are also boundaries of
/// extended grapheme clusters of the text.
pub open spec fn row_in_text(bytes: Seq<u8>, row: ScanRow) -> bool {
    &&& 0 <= row.start < row.end <= bytes.len()
    &&& is_char_boundary(bytes, row.start as int)
    &&& is_char_boundary(bytes, row.end as int)
    &&& grapheme_boundary(decode_utf8(bytes), row.start as int)
    &&& grapheme_boundary(decode_utf8(bytes), row.end as int)
}

/// The texts of the valid string values of a dictionary argument.
pub open spec fn dictionary_texts(input: DictionaryInput) -> Seq<Seq<char>> {
    dictionary_values(input).map_values(|z: ZvalInput| value_text(z))
}

/// The dictionary whose compilation fails first: the terms, else the whitelist.
pub open spec fn failing_dictionary(ts: Seq<Seq<char>>, ws: Seq<Seq<char>>, o: Options) -> Seq<Seq<char>> {
    if dictionary_ok(ts, o) {
        ws
    } else {
        ts
    }
}

/// What an engine works with: options, kept term originals and forms, kept
/// whitelist originals and forms.
pub type Config = (Options, Seq<Seq<char>>, Seq<Seq<char>>, Seq<Seq<char>>, Seq<Seq<char>>);

/// The configuration of an engine.
pub open spec fn config_of(e: Engine) -> Config {
    (e.options_spec(), e.term_originals(), e.term_texts(), e.whitelist_originals(), e.whitelist_texts())
}

/// The configuration `c` with its terms compiled anew from `ts`.
pub open spec fn with_terms(c: Config, ts: Seq<Seq<char>>) -> Config {
    (c.0, compiled_entries(ts, c.0).0, compiled_entries(ts, c.0).1, c.3, c.4)
}

/// The configuration `c` with its whitelist compiled anew from `ws`.
pub open spec fn with_whitelist(c: Config, ws: Seq<Seq<char>>) -> Config {
    (c.0, c.1, c.2, compiled_entries(ws, c.0).0, compiled_entries(ws, c.0).1)
}

/// The configuration of a matcher built from these arguments, or `None`
/// when building it fails.
pub open spec fn built_config(
    terms: DictionaryInput,
    whitelist: DictionaryInput,
    options: OptionsInput,
) -> Option<Config> {
    match parsed_options(option_entries(options)) {
        Err(_) => None,
        Ok(o) => {
            let ts = dictionary_texts(terms);
            let ws = dictionary_texts(whitelist);
            if dictionary_error(dictionary_values(terms), "terms"@, Some(o)) is None && dictionary_error(
                dictionary_values(whitelist),
                "whitelist"@,
                Some(o),
            ) is None && dictionary_ok(ts, o) && dictionary_ok(ws, o) {
                Some(
                    (
                        o,
                        compiled_entries(ts, o).0,
                        compiled_entries(ts, o).1,
                        compiled_entries(ws, o).0,
                        compiled_entries(ws, o).1,
                    ),
                )
            } else {
                None
            }
        },
    }
}

/// An independent matcher instance: terms, whitelist and options.
pub struct Matcher {
    engine: Engine,
}

impl Matcher {
    /// The engine behind this matcher.
    pub closed spec fn engine(&self) -> Engine {
        self.engine
    }

    /// Builds a matcher. Options are read first, then terms and whitelist
    /// (values must be UTF-8 strings that do not normalize to nothing); the
    /// dictionaries are then compiled.
    pub fn __construct(terms: DictionaryInput, whitelist: DictionaryInput, options: OptionsInput) -> (r:
        Result<Matcher, PhpError>)
        ensures
            match parsed_options(option_entries(options)) {
                Err((kind, message)) => r matches Err(e) && is_error(e, kind, message),
                Ok(o) => match dictionary_error(dictionary_values(terms), "terms"@, Some(o)) {
                    Some((kind, message)) => r matches Err(e) && is_error(e, kind, message),
                    None => match dictionary_error(
                        dictionary_values(whitelist),
                        "whitelist"@,
                        Some(o),
                    ) {
                        Some((kind, message)) => r matches Err(e) && is_error(e, kind, message),
                        None => {
                            let ts = dictionary_texts(terms);
                            let ws = dictionary_texts(whitelist);
                            &&& r is Ok <==> dictionary_ok(ts, o) && dictionary_ok(ws, o)
                            &&& r matches Err(e) ==> exists|d: DictionaryError|
                                #[trigger] is_compile_error(d, failing_dictionary(ts, ws, o), o)
                                    && is_error(e, PhpErrorKind::ValueError, "invalid dictionary: "@ + d.spec_message())
                            &&& r matches Ok(m) ==> {
                                &&& m.engine().options_spec() == o
                                &&& m.engine().term_originals() == compiled_entries(ts, o).0
                                &&& m.engine().term_texts() == compiled_entries(ts, o).1
                                &&& m.engine().whitelist_originals() == compiled_entries(ws, o).0
                                &&& m.engine().whitelist_texts() == compiled_entries(ws, o).1
                            }
                        },
                    },
                },
            },
            r is Ok <==> built_config(terms, whitelist, options) is Some,
            r matches Ok(m) ==> built_config(terms, whitelist, options) == Some(config_of(m.engine())),
    {
        let o = match parse_options(options) {
            Ok(o) => o,
            Err(e) => {
                return Err(e);
            },
        };
        let classes = UnicodeClasses::new();
        let term_list = match parse_dictionary(terms, "terms", Some(&o), &classes) {
            Ok(v) => v,
            Err(e) => {
                return Err(e);
            },
        };
        let white_list = match parse_dictionary(whitelist, "whitelist", Some(&o), &classes) {
            Ok(v) => v,
            Err(e) => {
                return Err(e);
            },
        };
        let ghost ts = dictionary_texts(terms);
        let ghost ws = dictionary_texts(whitelist);
        assert(term_list.deep_view() == ts);
        assert(white_list.deep_view() == ws);
        match Engine::new(term_list, white_list, o) {
            Ok(engine) => Ok(Matcher { engine }),
            Err(error) => {
                let mut message = String::from_str("invalid dictionary: ");
                let detail = error.message();
                message.append(detail.as_str());
                assert(is_compile_error(error, failing_dictionary(ts, ws, o), o));
                Err(PhpError { kind: PhpErrorKind::ValueError, message })
            },
        }
    }

    /// Whether the text holds a match that no single whitelist match contains.
    pub fn contains(&self, text: PhpString<'_>) -> (r: Result<bool, PhpError>)
        ensures
            r is Ok <==> valid_utf8(text.0@),
            r matches Ok(b) ==> b == self.engine().has_valid_match(decode_utf8(text.0@)),
            r matches Err(e) ==> is_error(e, PhpErrorKind::ValueError, "text must contain valid UTF-8"@),
    {
        match text.utf8("text") {
            Ok(source) => {
                proof {
                    encode_utf8_decode_utf8(source@);
                }
                Ok(self.engine.contains(source))
            },
            Err(e) => {
                proof {
                    lemma_utf8_messages();
                }
                Err(e)
            },
        }
    }

    /// Every valid match as a row: original term, matched original text and
    /// its byte offsets `[start, end)`.
    pub fn scan(&self, text: PhpString<'_>) -> (r: Result<Vec<ScanRow>, PhpError>)
        ensures
            !valid_utf8(text.0@) ==> (r matches Err(e) && is_error(
                e,
                PhpErrorKind::ValueError,
                "text must contain valid UTF-8"@,
            )),
            valid_utf8(text.0@) ==> exists|hits: Seq<Hit>|
                #[trigger] self.engine().is_scan_of(decode_utf8(text.0@), hits) && {
                    &&& r is Ok <==> offset_error(hits) is None
                    &&& r matches Err(e) ==> is_error(
                        e,
                        PhpErrorKind::ValueError,
                        offset_error(hits).unwrap(),
                    )
                    &&& r matches Ok(rows) ==> rows.len() == hits.len() && forall|i: int|
                        0 <= i < hits.len() ==> row_of(
                            self.engine(),
                            text.0@,
                            #[trigger] hits[i],
                            rows@[i],
                        ) && row_in_text(text.0@, rows@[i])
                },
    {
        let bytes = text.0;
        let source = match text.utf8("text") {
            Ok(source) => source,
            Err(e) => {
                proof {
                    lemma_utf8_messages();
                }
                return Err(e);
            },
        };
        proof {
            encode_utf8_decode_utf8(source@);
        }
        let hits = self.engine.scan(source);
        assert(self.engine().is_scan_of(decode_utf8(text.0@), hits@));
        proof {
            lemma_offset_messages();
        }
        let mut rows: Vec<ScanRow> = Vec::new();
        let n = hits.len();
        assert(hits@.take(0) =~= Seq::<Hit>::empty());
        for i in 0..n
            invariant
                n == hits.len(),
                encode_utf8(source@) == bytes@,
                decode_utf8(bytes@) == source@,
                bytes@ == text.0@,
                valid_utf8(text.0@),
                self.engine().is_scan_of(decode_utf8(text.0@), hits@),
                forall|j: int| 0 <= j < hits.len() ==> hit_in_text(source@, #[trigger] hits@[j]),
                forall|j: int|
                    0 <= j < hits.len() ==> (#[trigger] hits@[j]).term_id
                        < self.engine().term_originals().len(),
                "match "@ + "start"@ + " offset exceeds PHP integer range"@
                    == "match start offset exceeds PHP integer range"@,
                "match "@ + "end"@ + " offset exceeds PHP integer range"@
                    == "match end offset exceeds PHP integer range"@,
                offset_error(hits@.take(i as int)) is None,
                rows.len() == i,
                forall|j: int| 0 <= j < i ==> row_of(self.engine(), bytes@, #[trigger] hits@[j], rows@[j]),
                forall|j: int| 0 <= j < i ==> row_in_text(bytes@, #[trigger] rows@[j]),
        {
            let hit = hits[i];
            assert(hit_in_text(source@, hits@[i as int]));
            assert(hits@.take(i + 1).drop_last() =~= hits@.take(i as int));
            assert(hits@.take(i + 1).last() == hit);
            let start = match zend_offset(hit.start, "start") {
                Ok(v) => v,
                Err(e) => {
                    proof {
                        lemma_offset_error_prefix(hits@, i + 1);
                    }
                    return Err(e);
                },
            };
            let end = match zend_offset(hit.end, "end") {
                Ok(v) => v,
                Err(e) => {
                    proof {
                        lemma_offset_error_prefix(hits@, i + 1);
                    }
                    return Err(e);
                },
            };
            let term = String::from_str(self.engine.term(hit.term_id));
            let piece = String::from_str(slice_str(source, hit.start, hit.end));
            let ghost before = rows@;
            rows.push(ScanRow { term, text: piece, start, end });
            assert(row_in_text(bytes@, rows@[i as int]));
            assert(row_of(self.engine(), bytes@, hits@[i as int], rows@[i as int]));
            assert forall|j: int| 0 <= j < i + 1 implies row_in_text(bytes@, #[trigger] rows@[j]) by {
                if j < i {
                    assert(rows@[j] == before[j]);
                }
            }
        }
        assert(hits@.take(n as int) =~= hits@);
        Ok(rows)
    }

    /// The text with every merged run of overlapping or adjacent hits
    /// replaced by one copy of `replacement` (default `*`; empty deletes).
    pub fn mask(&self, text: PhpString<'_>, replacement: PhpString<'_>) -> (r: Result<String, PhpError>)
        ensures
            !valid_utf8(text.0@) ==> (r matches Err(e) && is_error(
                e,
                PhpErrorKind::ValueError,
                "text must contain valid UTF-8"@,
            )),
            valid_utf8(text.0@) && !valid_utf8(replacement.0@) ==> (r matches Err(e) && is_error(
                e,
                PhpErrorKind::ValueError,
                "replacement must contain valid UTF-8"@,
            )),
            valid_utf8(text.0@) && valid_utf8(replacement.0@) ==> (r matches Ok(out)
                && exists|hits: Seq<Hit>|
                #[trigger] self.engine().is_scan_of(decode_utf8(text.0@), hits) && encode_utf8(out@)
                    == masked(text.0@, merge_hits(hits), replacement.0@)),
    {
        proof {
            lemma_utf8_messages();
        }
        let source = match text.utf8("text") {
            Ok(source) => source,
            Err(e) => {
                return Err(e);
            },
        };
        let rep = match replacement.utf8("replacement") {
            Ok(rep) => rep,
            Err(e) => {
                return Err(e);
            },
        };
        proof {
            encode_utf8_decode_utf8(source@);
            encode_utf8_decode_utf8(rep@);
        }
        let out = self.engine.mask(source, rep);
        proof {
            let hits = choose|hits: Seq<Hit>|
                #[trigger] self.engine.is_scan_of(source@, hits) && encode_utf8(out@) == masked(
                    encode_utf8(source@),
                    merge_hits(hits),
                    encode_utf8(rep@),
                );
            assert(self.engine().is_scan_of(decode_utf8(text.0@), hits));
        }
        Ok(out)
    }

    /// Replaces the terms; on failure the current terms stay in use.
    pub fn replace_terms(&mut self, terms: DictionaryInput) -> (r: Result<(), PhpError>)
        ensures
            r is Ok ==> config_of(final(self).engine()) == with_terms(
                config_of(old(self).engine()),
                dictionary_texts(terms),
            ),
            r is Err ==> config_of(final(self).engine()) == config_of(old(self).engine()),
            ({
                let o = old(self).engine().options_spec();
                let ts = dictionary_texts(terms);
                match dictionary_error(dictionary_values(terms), "terms"@, None) {
                    Some((kind, message)) => r matches Err(e) && is_error(e, kind, message),
                    None => {
                        &&& r is Ok <==> dictionary_ok(ts, o)
                        &&& r matches Err(e) ==> exists|d: DictionaryError|
                            #[trigger] is_compile_error(d, ts, o) && is_error(
                                e,
                                PhpErrorKind::ValueError,
                                "terms contains an invalid entry: "@ + d.spec_message(),
                            )
                    },
                }
            }),
            final(self).engine().options_spec() == old(self).engine().options_spec(),
            final(self).engine().whitelist_originals() == old(self).engine().whitelist_originals(),
            final(self).engine().whitelist_texts() == old(self).engine().whitelist_texts(),
            r is Ok ==> final(self).engine().term_originals() == compiled_entries(
                dictionary_texts(terms),
                old(self).engine().options_spec(),
            ).0 && final(self).engine().term_texts() == compiled_entries(
                dictionary_texts(terms),
                old(self).engine().options_spec(),
            ).1,
            r is Err ==> final(self).engine().term_originals() == old(self).engine().term_originals()
                && final(self).engine().term_texts() == old(self).engine().term_texts(),
    {
        let classes = UnicodeClasses::new();
        let list = match parse_dictionary(terms, "terms", None, &classes) {
            Ok(v) => v,
            Err(e) => {
                return Err(e);
            },
        };
        assert(list.deep_view() == dictionary_texts(terms));
        let ghost o = self.engine.options_spec();
        match self.engine.replace_terms(list) {
            Ok(()) => Ok(()),
            Err(error) => {
                assert(is_compile_error(error, dictionary_texts(terms), o));
                let mut message = String::from_str("terms contains an invalid entry: ");
                let detail = error.message();
                message.append(detail.as_str());
                let e = PhpError { kind: PhpErrorKind::ValueError, message };
                assert(is_compile_error(error, dictionary_texts(terms), o) && is_error(
                    e,
                    PhpErrorKind::ValueError,
                    "terms contains an invalid entry: "@ + error.spec_message(),
                ));
                Err(e)
            },
        }
    }

    /// Replaces the whitelist; on failure the current whitelist stays in use.
    pub fn replace_whitelist(&mut self, whitelist: DictionaryInput) -> (r: Result<(), PhpError>)
        ensures
            r is Ok ==> config_of(final(self).engine()) == with_whitelist(
                config_of(old(self).engine()),
                dictionary_texts(whitelist),
            ),
            r is Err ==> config_of(final(self).engine()) == config_of(old(self).engine()),
            ({
                let o = old(self).engine().options_spec();
                let ws = dictionary_texts(whitelist);
                match dictionary_error(dictionary_values(whitelist), "whitelist"@, None) {
                    Some((kind, message)) => r matches Err(e) && is_error(e, kind, message),
                    None => {
                        &&& r is Ok <==> dictionary_ok(ws, o)
                        &&& r matches Err(e) ==> exists|d: DictionaryError|
                            #[trigger] is_compile_error(d, ws, o) && is_error(
                                e,
                                PhpErrorKind::ValueError,
                                "whitelist contains an invalid entry: "@ + d.spec_message(),
                            )
                    },
                }
            }),
            final(self).engine().options_spec() == old(self).engine().options_spec(),
            final(self).engine().term_originals() == old(self).engine().term_originals(),
            final(self).engine().term_texts() == old(self).engine().term_texts(),
            r is Ok ==> final(self).engine().whitelist_originals() == compiled_entries(
                dictionary_texts(whitelist),
                old(self).engine().options_spec(),
            ).0 && final(self).engine().whitelist_texts() == compiled_entries(
                dictionary_texts(whitelist),
                old(self).engine().options_spec(),
            ).1,
            r is Err ==> final(self).engine().whitelist_originals() == old(
                self,
            ).engine().whitelist_originals() && final(self).engine().whitelist_texts() == old(
                self,
            ).engine().whitelist_texts(),
    {
        let classes = UnicodeClasses::new();
        let list = match parse_dictionary(whitelist, "whitelist", None, &classes) {
            Ok(v) => v,
            Err(e) => {
                return Err(e);
            },
        };
        assert(list.deep_view() == dictionary_texts(whitelist));
        let ghost o = self.engine.options_spec();
        match self.engine.replace_whitelist(list) {
            Ok(()) => Ok(()),
            Err(error) => {
                assert(is_compile_error(error, dictionary_texts(whitelist), o));
                let mut message = String::from_str("whitelist contains an invalid entry: ");
                let detail = error.message();
                message.append(detail.as_str());
                let e = PhpError { kind: PhpErrorKind::ValueError, message };
                assert(is_compile_error(error, dictionary_texts(whitelist), o) && is_error(
                    e,
                    PhpErrorKind::ValueError,
                    "whitelist contains an invalid entry: "@ + error.spec_message(),
                ));
                Err(e)
            },
        }
    }
}

/// The messages for text that is not UTF-8, as the parameter names compose them.
proof fn lemma_utf8_messages()
    ensures
        "text"@ + " must contain valid UTF-8"@ == "text must contain valid UTF-8"@,
        "replacement"@ + " must contain valid UTF-8"@ == "replacement must contain valid UTF-8"@,
{
    reveal_strlit("text");
    reveal_strlit("replacement");
    reveal_strlit(" must contain valid UTF-8");
    reveal_strlit("text must contain valid UTF-8");
    reveal_strlit("replacement must contain valid UTF-8");
    assert("text"@ + " must contain valid UTF-8"@ =~= "text must contain valid UTF-8"@);
    assert("replacement"@ + " must contain valid UTF-8"@ =~= "replacement must contain valid UTF-8"@);
}

/// The messages for offsets beyond the PHP integer range.
proof fn lemma_offset_messages()
    ensures
        "match "@ + "start"@ + " offset exceeds PHP integer range"@
            == "match start offset exceeds PHP integer range"@,
        "match "@ + "end"@ + " offset exceeds PHP integer range"@
            == "match end offset exceeds PHP integer range"@,
{
    reveal_strlit("match ");
    reveal_strlit("start");
    reveal_strlit("end");
    reveal_strlit(" offset exceeds PHP integer range");
    reveal_strlit("match start offset exceeds PHP integer range");
    reveal_strlit("match end offset exceeds PHP integer range");
    assert("match "@ + "start"@ + " offset exceeds PHP integer range"@
        =~= "match start offset exceeds PHP integer range"@);
    assert("match "@ + "end"@ + " offset exceeds PHP integer range"@
        =~= "match end offset exceeds PHP integer range"@);
}

/// Once a prefix of the hits has an offset error, the whole list reports it.
proof fn lemma_offset_error_prefix(hits: Seq<Hit>, k: int)
    requires
        0 <= k <= hits.len(),
        offset_error(hits.take(k)) is Some,
    ensures
        offset_error(hits) == offset_error(hits.take(k)),
    decreases hits.len() - k,
{
    if k < hits.len() {
        assert(hits.take(k + 1).drop_last() =~= hits.take(k));
        lemma_offset_error_prefix(hits, k + 1);
    } else {
        assert(hits.take(k) =~= hits);
    }
}

} // verus!
