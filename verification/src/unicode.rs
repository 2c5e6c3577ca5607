//! Unicode services used by normalization: grapheme segmentation, character
//! classes, case mapping and the NFKC building blocks.
//!
//! The trusted items are the declared `Regex` type, the named results
//! (`regex_finds`, `grapheme_clusters`, `lowercase_chars`,
//! `compat_decomposition`, `combining_class`, `composition`, `nfkc_chars`)
//! and the wrappers that call the outside crates or std (`compile_class`,
//! `class_matches`, `graphemes`, `to_lowercase`, `decompose`,
//! `canonical_class`, `compose`, `nfkc`). `is_whitespace` and the
//! `UnicodeClasses` methods are verified; the library's own normalization
//! logic lives in `normalize`.

use regex::Regex;
use unicode_normalization::UnicodeNormalization;
use unicode_segmentation::UnicodeSegmentation;
use vstd::prelude::*;

verus! {

#[verifier::external_type_specification]
#[verifier::external_body]
pub struct ExRegex(Regex);

/// Whether the regular expression `pattern` (regex crate syntax) matches
/// somewhere in `haystack`.
pub uninterp spec fn regex_finds(pattern: Seq<char>, haystack: Seq<char>) -> bool;

/// The extended grapheme clusters of `text`, in order (unicode-segmentation).
pub uninterp spec fn grapheme_clusters(text: Seq<char>) -> Seq<Seq<char>>;

/// The characters produced by `char::to_lowercase`.
pub uninterp spec fn lowercase_chars(c: char) -> Seq<char>;

/// The Unicode `White_Space` property, which `char::is_whitespace` tests:
/// U+0009..U+000D, U+0020, U+0085, U+00A0, U+1680, U+2000..U+200A, U+2028,
/// U+2029, U+202F, U+205F and U+3000.
pub open spec fn is_white_space(c: char) -> bool {
    let u = c as u32;
    ||| 0x09 <= u <= 0x0D
    ||| u == 0x20
    ||| u == 0x85
    ||| u == 0xA0
    ||| u == 0x1680
    ||| 0x2000 <= u <= 0x200A
    ||| u == 0x2028
    ||| u == 0x2029
    ||| u == 0x202F
    ||| u == 0x205F
    ||| u == 0x3000
}

/// The full compatibility decomposition of one character
/// (`unicode_normalization::char::decompose_compatible`).
pub uninterp spec fn compat_decomposition(c: char) -> Seq<char>;

/// The canonical combining class of a character
/// (`unicode_normalization::char::canonical_combining_class`).
pub uninterp spec fn combining_class(c: char) -> u8;

/// The primary composite of two characters, if any
/// (`unicode_normalization::char::compose`).
pub uninterp spec fn composition(a: char, b: char) -> Option<char>;

/// The NFKC form of a character stream (`UnicodeNormalization::nfkc`).
pub uninterp spec fn nfkc_chars(s: Seq<char>) -> Seq<char>;

/// The class of emoji removed as whole graphemes.
pub open spec fn emoji_pattern() -> Seq<char> {
    r"[\p{Extended_Pictographic}\p{Emoji_Presentation}\p{Emoji_Modifier}\p{Regional_Indicator}\u{FE0F}\u{20E3}]"@
}

/// The Unicode punctuation class (`P`).
pub open spec fn punctuation_pattern() -> Seq<char> {
    r"\p{P}"@
}

/// The Unicode symbol class (`S`).
pub open spec fn symbol_pattern() -> Seq<char> {
    r"\p{S}"@
}

/// The ASCII characters of Unicode general category P (punctuation):
/// ! " # % & ' ( ) * , - . / : ; ? @ [ \ ] _ { }
pub open spec fn ascii_punctuation(c: char) -> bool {
    let u = c as u32;
    (0x21 <= u && u <= 0x23) || (0x25 <= u && u <= 0x2A) || (0x2C <= u && u <= 0x2F) || u == 0x3A
        || u == 0x3B || u == 0x3F || u == 0x40 || (0x5B <= u && u <= 0x5D) || u == 0x5F || u == 0x7B
        || u == 0x7D
}

/// The ASCII characters of Unicode general category S (symbols):
/// $ + < = > ^ ` | ~
pub open spec fn ascii_symbol(c: char) -> bool {
    let u = c as u32;
    u == 0x24 || u == 0x2B || (0x3C <= u && u <= 0x3E) || u == 0x5E || u == 0x60 || u == 0x7C || u
        == 0x7E
}

/// The three fixed class patterns of this module.
pub open spec fn is_class_pattern(p: Seq<char>) -> bool {
    p == emoji_pattern() || p == punctuation_pattern() || p == symbol_pattern()
}

/// A compiled character-class regex together with the pattern it was built from.
///
/// Values are only made by `compile_class`, so `pattern()` is always the
/// source of `re`.
pub struct ClassRegex {
    re: Regex,
    pattern: Ghost<Seq<char>>,
}

impl ClassRegex {
    /// The pattern this regex was compiled from.
    pub closed spec fn pattern(&self) -> Seq<char> {
        self.pattern@
    }
}

/// Compiles one of the fixed class patterns with `regex::Regex::new`.
///
/// The three patterns are valid and within the default size limit, so the
/// call succeeds; other patterns are excluded by `requires`. On a single
/// ASCII character, `\p{P}` (general category P) and `\p{S}` (category S)
/// match exactly the ASCII members of those categories.
#[verifier::external_body]
fn compile_class(pattern: &str) -> (r: ClassRegex)
    requires
        is_class_pattern(pattern@),
    ensures
        r.pattern() == pattern@,
        r.pattern() == r"\p{P}"@ ==> forall|c: char|
            (c as u32) < 0x80 ==> (#[trigger] regex_finds(r.pattern(), seq![c]) <==> ascii_punctuation(c)),
        r.pattern() == r"\p{S}"@ ==> forall|c: char|
            (c as u32) < 0x80 ==> (#[trigger] regex_finds(r.pattern(), seq![c]) <==> ascii_symbol(c)),
{
    ClassRegex { re: Regex::new(pattern).expect("class pattern compiles"), pattern: Ghost(pattern@) }
}

/// `regex::Regex::is_match` on a class regex: whether it matches somewhere in `haystack`.
#[verifier::external_body]
fn class_matches(class: &ClassRegex, haystack: &[char]) -> (r: bool)
    ensures
        r == regex_finds(class.pattern(), haystack@),
{
    let text: String = haystack.iter().collect();
    class.re.is_match(&text)
}

/// The three character classes used by normalization, compiled once.
pub struct UnicodeClasses {
    emoji: ClassRegex,
    punctuation: ClassRegex,
    symbol: ClassRegex,
}

impl UnicodeClasses {
    #[verifier::type_invariant]
    closed spec fn wf(&self) -> bool {
        &&& self.emoji.pattern() == emoji_pattern()
        &&& self.punctuation.pattern() == punctuation_pattern()
        &&& self.symbol.pattern() == symbol_pattern()
        &&& forall|c: char|
            (c as u32) < 0x80 ==> (#[trigger] regex_finds(punctuation_pattern(), seq![c]) <==> ascii_punctuation(c))
        &&& forall|c: char|
            (c as u32) < 0x80 ==> (#[trigger] regex_finds(symbol_pattern(), seq![c]) <==> ascii_symbol(c))
    }

    /// The patterns of the emoji, punctuation and symbol classes, in that order.
    pub closed spec fn class_patterns(&self) -> (Seq<char>, Seq<char>, Seq<char>) {
        (self.emoji.pattern(), self.punctuation.pattern(), self.symbol.pattern())
    }

    /// Compiles the emoji, punctuation and symbol classes.
    pub fn new() -> (r: Self)
        ensures
            r.class_patterns() == (emoji_pattern(), punctuation_pattern(), symbol_pattern()),
            forall|c: char|
                (c as u32) < 0x80 ==> (#[trigger] regex_finds(punctuation_pattern(), seq![c]) <==> ascii_punctuation(c)),
            forall|c: char|
                (c as u32) < 0x80 ==> (#[trigger] regex_finds(symbol_pattern(), seq![c]) <==> ascii_symbol(c)),
    {
        let emoji = compile_class(
            r"[\p{Extended_Pictographic}\p{Emoji_Presentation}\p{Emoji_Modifier}\p{Regional_Indicator}\u{FE0F}\u{20E3}]",
        );
        let punctuation = compile_class(r"\p{P}");
        let symbol = compile_class(r"\p{S}");
        UnicodeClasses { emoji, punctuation, symbol }
    }

    /// Whether the grapheme `g` holds an emoji character.
    pub fn is_emoji(&self, g: &[char]) -> (r: bool)
        ensures
            r == regex_finds(emoji_pattern(), g@),
    {
        proof {
            use_type_invariant(self);
        }
        class_matches(&self.emoji, g)
    }

    /// Whether `c` is Unicode punctuation.
    pub fn is_punctuation(&self, c: char) -> (r: bool)
        ensures
            r == regex_finds(punctuation_pattern(), seq![c]),
            (c as u32) < 0x80 ==> (r <==> ascii_punctuation(c)),
    {
        proof {
            use_type_invariant(self);
        }
        let one = [c];
        assert(one@ =~= seq![c]);
        class_matches(&self.punctuation, &one)
    }

    /// Whether `c` is a Unicode symbol.
    pub fn is_symbol(&self, c: char) -> (r: bool)
        ensures
            r == regex_finds(symbol_pattern(), seq![c]),
            (c as u32) < 0x80 ==> (r <==> ascii_symbol(c)),
    {
        proof {
            use_type_invariant(self);
        }
        let one = [c];
        assert(one@ =~= seq![c]);
        class_matches(&self.symbol, &one)
    }
}

/// `UnicodeSegmentation::graphemes(text, true)`: the extended grapheme
/// clusters of `text`. The clusters are non-empty and together spell `text`.
#[verifier::external_body]
pub(crate) fn graphemes(text: &str) -> (r: Vec<Vec<char>>)
    ensures
        r.deep_view() == grapheme_clusters(text@),
        r.deep_view().flatten() == text@,
        forall|i: int| 0 <= i < r.len() ==> #[trigger] r@[i]@.len() > 0,
{
    text.graphemes(true).map(|g| g.chars().collect()).collect()
}

/// `char::to_lowercase`: the (possibly several) lowercase characters of `c`.
#[verifier::external_body]
pub(crate) fn to_lowercase(c: char) -> (r: Vec<char>)
    ensures
        r@ == lowercase_chars(c),
{
    c.to_lowercase().collect()
}

/// Whether `c` has the Unicode `White_Space` property (as `char::is_whitespace`).
pub(crate) fn is_whitespace(c: char) -> (r: bool)
    ensures
        r == is_white_space(c),
{
    let u = c as u32;
    (0x09 <= u && u <= 0x0D) || u == 0x20 || u == 0x85 || u == 0xA0 || u == 0x1680 || (0x2000 <= u
        && u <= 0x200A) || u == 0x2028 || u == 0x2029 || u == 0x202F || u == 0x205F || u == 0x3000
}

/// `unicode_normalization::char::decompose_compatible`: the characters it emits for `c`.
#[verifier::external_body]
pub(crate) fn decompose(c: char) -> (r: Vec<char>)
    ensures
        r@ == compat_decomposition(c),
{
    let mut out = Vec::new();
    unicode_normalization::char::decompose_compatible(c, |d| out.push(d));
    out
}

/// `unicode_normalization::char::canonical_combining_class`.
#[verifier::external_body]
pub(crate) fn canonical_class(c: char) -> (r: u8)
    ensures
        r == combining_class(c),
{
    unicode_normalization::char::canonical_combining_class(c)
}

/// `unicode_normalization::char::compose`.
#[verifier::external_body]
pub(crate) fn compose(a: char, b: char) -> (r: Option<char>)
    ensures
        r == composition(a, b),
{
    unicode_normalization::char::compose(a, b)
}

/// `UnicodeNormalization::nfkc` over a character stream.
#[verifier::external_body]
pub(crate) fn nfkc(s: &[char]) -> (r: Vec<char>)
    ensures
        r@ == nfkc_chars(s@),
{
    s.iter().copied().nfkc().collect()
}

} // verus!
