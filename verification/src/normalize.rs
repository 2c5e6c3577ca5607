//! Unicode normalization of text together with, for every normalized byte,
//! the byte range of the original grapheme it came from.
//!
//! The pipeline is: drop emoji graphemes (optional), tag every remaining
//! character with the byte range of its grapheme, NFKC over the tagged
//! stream (optional), per-character lowercase (optional), and removal of
//! whitespace, punctuation and symbols (each optional).

use crate::encoding::{
    char_bytes, char_utf8_len, lemma_encode_utf8_concat, lemma_encode_utf8_push,
    lemma_prefix_is_char_boundary, lemma_utf8_len_take_monotone, push_char, push_utf8, utf8_len,
};
use crate::unicode::{
    canonical_class, combining_class, compat_decomposition, compose, composition, decompose,
    emoji_pattern, grapheme_clusters, graphemes, is_white_space, is_whitespace, lowercase_chars,
    nfkc, nfkc_chars, punctuation_pattern, regex_finds, symbol_pattern, to_lowercase,
    ascii_punctuation, ascii_symbol, UnicodeClasses,
};
use vstd::prelude::*;
use vstd::utf8::*;

verus! {

broadcast use vstd::seq_lib::group_seq_properties, vstd::seq::group_seq_axioms;

/// A half-open byte range `[start, end)` of the original UTF-8 text.
#[derive(Clone, Copy, Debug, PartialEq, Eq, Structural)]
pub struct Span {
    pub start: usize,
    pub end: usize,
}

/// Normalization options shared by terms, whitelist and text.
#[derive(Clone, Copy, Debug)]
pub struct Options {
    /// Unicode NFKC compatibility normalization of the whole stream.
    pub unicode_nfkc: bool,
    /// Per-character `char::to_lowercase` (no case folding).
    pub lowercase: bool,
    /// Remove Unicode white space.
    pub remove_whitespace: bool,
    /// Remove Unicode punctuation (`P`).
    pub remove_punctuation: bool,
    /// Remove Unicode symbols (`S`).
    pub remove_symbols: bool,
    /// Remove whole original graphemes that hold emoji.
    pub remove_emoji: bool,
}

impl Default for Options {
    fn default() -> (r: Self)
        ensures
            r == (Options {
                unicode_nfkc: true,
                lowercase: true,
                remove_whitespace: true,
                remove_punctuation: false,
                remove_symbols: false,
                remove_emoji: true,
            }),
    {
        Options {
            unicode_nfkc: true,
            lowercase: true,
            remove_whitespace: true,
            remove_punctuation: false,
            remove_symbols: false,
            remove_emoji: true,
        }
    }
}

/// One Unicode scalar value with the byte range of its original grapheme.
#[derive(Clone, Copy, Debug, PartialEq, Eq, Structural)]
pub struct TaggedChar {
    pub ch: char,
    pub span: Span,
}

/// Normalized text and, for each of its UTF-8 bytes, the original range it came from.
pub struct Normalized {
    pub text: String,
    pub spans: Vec<Span>,
}

// ---------------------------------------------------------------------------
// The specification of the pipeline.

/// The character `c` tagged with `span`.
pub open spec fn tag(c: char, span: Span) -> TaggedChar {
    TaggedChar { ch: c, span }
}

/// Tags every character of `cs` with `span`.
pub open spec fn retag(cs: Seq<char>, span: Span) -> Seq<TaggedChar> {
    Seq::new(cs.len(), |j: int| tag(cs[j], span))
}

/// Whether the grapheme `g` holds an emoji character.
pub open spec fn is_emoji_grapheme(g: Seq<char>) -> bool {
    regex_finds(emoji_pattern(), g)
}

/// The byte range of a grapheme that starts at byte `start`.
pub open spec fn grapheme_span(g: Seq<char>, start: int) -> Span {
    Span { start: start as usize, end: (start + utf8_len(g)) as usize }
}

/// Tagged characters of the graphemes `gs` (which start at byte 0), with
/// emoji graphemes dropped when `remove_emoji` holds.
pub open spec fn tag_graphemes(gs: Seq<Seq<char>>, remove_emoji: bool) -> Seq<TaggedChar>
    decreases gs.len(),
{
    if gs.len() == 0 {
        seq![]
    } else {
        let prev = gs.drop_last();
        let g = gs.last();
        tag_graphemes(prev, remove_emoji) + if remove_emoji && is_emoji_grapheme(g) {
            Seq::<TaggedChar>::empty()
        } else {
            retag(g, grapheme_span(g, utf8_len(prev.flatten())))
        }
    }
}

/// Every character replaced by its compatibility decomposition, keeping its span.
pub open spec fn decompose_tags(s: Seq<TaggedChar>) -> Seq<TaggedChar>
    decreases s.len(),
{
    if s.len() == 0 {
        seq![]
    } else {
        decompose_tags(s.drop_last()) + retag(compat_decomposition(s.last().ch), s.last().span)
    }
}

/// Every character replaced by its lowercase mapping, keeping its span.
pub open spec fn lowercase_tags(s: Seq<TaggedChar>) -> Seq<TaggedChar>
    decreases s.len(),
{
    if s.len() == 0 {
        seq![]
    } else {
        lowercase_tags(s.drop_last()) + retag(lowercase_chars(s.last().ch), s.last().span)
    }
}

/// Whether a character survives the optional class filters.
pub open spec fn keeps_char(c: char, o: Options) -> bool {
    !(o.remove_whitespace && is_white_space(c) || o.remove_punctuation && regex_finds(
        punctuation_pattern(),
        seq![c],
    ) || o.remove_symbols && regex_finds(symbol_pattern(), seq![c]))
}

/// The tagged characters that survive the class filters, in order.
pub open spec fn keep_tags(s: Seq<TaggedChar>, o: Options) -> Seq<TaggedChar>
    decreases s.len(),
{
    if s.len() == 0 {
        seq![]
    } else {
        keep_tags(s.drop_last(), o) + if keeps_char(s.last().ch, o) {
            seq![s.last()]
        } else {
            Seq::<TaggedChar>::empty()
        }
    }
}

/// Where a character of class `k` goes in a class-sorted run: after every
/// element of class at most `k` (so equal classes keep their order).
pub open spec fn insert_pos(s: Seq<TaggedChar>, k: u8) -> int
    decreases s.len(),
{
    if s.len() == 0 {
        0
    } else if combining_class(s.last().ch) <= k {
        s.len() as int
    } else {
        insert_pos(s.drop_last(), k)
    }
}

/// A stable sort of `s` by canonical combining class (insertion sort).
pub open spec fn sort_by_class(s: Seq<TaggedChar>) -> Seq<TaggedChar>
    decreases s.len(),
{
    if s.len() == 0 {
        seq![]
    } else {
        let sorted = sort_by_class(s.drop_last());
        sorted.insert(insert_pos(sorted, combining_class(s.last().ch)), s.last())
    }
}

/// Canonical ordering, as a pair (finished output, sorted run of non-starters
/// since the last starter): a starter flushes the run and itself.
pub open spec fn reorder_state(s: Seq<TaggedChar>) -> (Seq<TaggedChar>, Seq<TaggedChar>)
    decreases s.len(),
{
    if s.len() == 0 {
        (seq![], seq![])
    } else {
        let (done, pending) = reorder_state(s.drop_last());
        let t = s.last();
        if combining_class(t.ch) == 0 {
            (done + pending.push(t), seq![])
        } else {
            (done, pending.insert(insert_pos(pending, combining_class(t.ch)), t))
        }
    }
}

/// Canonical ordering: each maximal run of non-starters is stably sorted by class.
pub open spec fn reorder(s: Seq<TaggedChar>) -> Seq<TaggedChar> {
    reorder_state(s).0 + reorder_state(s).1
}

/// The smallest range covering two ranges.
pub open spec fn merge_spans(a: Span, b: Span) -> Span {
    Span {
        start: if a.start <= b.start { a.start } else { b.start },
        end: if a.end >= b.end { a.end } else { b.end },
    }
}

/// One step of canonical composition. The state is (output, index of the
/// last starter, class of the last character not composed since then).
pub open spec fn compose_step(
    st: (Seq<TaggedChar>, Option<int>, Option<u8>),
    t: TaggedChar,
) -> (Seq<TaggedChar>, Option<int>, Option<u8>) {
    let (out, composee, last) = st;
    let k = combining_class(t.ch);
    match composee {
        None => (out.push(t), if k == 0 { Some(out.len() as int) } else { None }, last),
        Some(ci) => {
            let blocked = match last {
                Some(p) => p >= k,
                None => false,
            };
            if !blocked && composition(out[ci].ch, t.ch) is Some {
                (
                    out.update(
                        ci,
                        tag(composition(out[ci].ch, t.ch).unwrap(), merge_spans(out[ci].span, t.span)),
                    ),
                    composee,
                    last,
                )
            } else if k == 0 {
                (out.push(t), Some(out.len() as int), None)
            } else {
                (out.push(t), composee, Some(k))
            }
        },
    }
}

/// The composition state after a whole stream.
pub open spec fn compose_state(s: Seq<TaggedChar>) -> (Seq<TaggedChar>, Option<int>, Option<u8>)
    decreases s.len(),
{
    if s.len() == 0 {
        (seq![], None, None)
    } else {
        compose_step(compose_state(s.drop_last()), s.last())
    }
}

/// Canonical composition of a canonically ordered stream.
pub open spec fn recompose(s: Seq<TaggedChar>) -> Seq<TaggedChar> {
    compose_state(s).0
}

/// NFKC over a tagged stream: decompose, order, compose.
pub open spec fn nfkc_tags(s: Seq<TaggedChar>) -> Seq<TaggedChar> {
    recompose(reorder(decompose_tags(s)))
}

/// The whole pipeline over the characters of the original text.
pub open spec fn normalized_tags(text: Seq<char>, o: Options) -> Seq<TaggedChar> {
    let tagged = tag_graphemes(grapheme_clusters(text), o.remove_emoji);
    let composed = if o.unicode_nfkc {
        nfkc_tags(tagged)
    } else {
        tagged
    };
    let lowered = if o.lowercase {
        lowercase_tags(composed)
    } else {
        composed
    };
    keep_tags(lowered, o)
}

/// The characters of a tagged stream.
pub open spec fn tag_chars(s: Seq<TaggedChar>) -> Seq<char> {
    s.map_values(|t: TaggedChar| t.ch)
}

/// One span per UTF-8 byte of the tagged stream.
pub open spec fn byte_spans(s: Seq<TaggedChar>) -> Seq<Span>
    decreases s.len(),
{
    if s.len() == 0 {
        seq![]
    } else {
        byte_spans(s.drop_last()) + Seq::new(char_bytes(s.last().ch).len(), |j: int| s.last().span)
    }
}

/// The normalized characters of `text`.
pub open spec fn normalized_text(text: Seq<char>, o: Options) -> Seq<char> {
    tag_chars(normalized_tags(text, o))
}

/// The original range of every normalized byte of `text`.
pub open spec fn normalized_spans(text: Seq<char>, o: Options) -> Seq<Span> {
    byte_spans(normalized_tags(text, o))
}

/// The smallest range covering all `spans` (`[usize::MAX, 0)` when there are none).
pub open spec fn span_hull(spans: Seq<Span>) -> Span
    decreases spans.len(),
{
    if spans.len() == 0 {
        Span { start: usize::MAX, end: 0 }
    } else {
        merge_spans(span_hull(spans.drop_last()), spans.last())
    }
}


/// The characters of the graphemes that survive emoji removal, in order.
pub open spec fn kept_grapheme_chars(gs: Seq<Seq<char>>, remove_emoji: bool) -> Seq<char>
    decreases gs.len(),
{
    if gs.len() == 0 {
        seq![]
    } else {
        kept_grapheme_chars(gs.drop_last(), remove_emoji) + if remove_emoji && is_emoji_grapheme(
            gs.last(),
        ) {
            Seq::<char>::empty()
        } else {
            gs.last()
        }
    }
}

/// Every character replaced by its lowercase mapping.
pub open spec fn lowercase_all(cs: Seq<char>) -> Seq<char>
    decreases cs.len(),
{
    if cs.len() == 0 {
        seq![]
    } else {
        lowercase_all(cs.drop_last()) + lowercase_chars(cs.last())
    }
}

/// The characters that survive the class filters.
pub open spec fn keep_all(cs: Seq<char>, o: Options) -> Seq<char>
    decreases cs.len(),
{
    if cs.len() == 0 {
        seq![]
    } else {
        keep_all(cs.drop_last(), o) + if keeps_char(cs.last(), o) {
            seq![cs.last()]
        } else {
            Seq::<char>::empty()
        }
    }
}

/// Normalized characters computed without source ranges, with the NFKC of the
/// unicode-normalization crate applied to the whole stream.
pub open spec fn streamed_text(text: Seq<char>, o: Options) -> Seq<char> {
    let kept = kept_grapheme_chars(grapheme_clusters(text), o.remove_emoji);
    let composed = if o.unicode_nfkc {
        nfkc_chars(kept)
    } else {
        kept
    };
    let lowered = if o.lowercase {
        lowercase_all(composed)
    } else {
        composed
    };
    keep_all(lowered, o)
}


// ---------------------------------------------------------------------------
// Source ranges stay on character boundaries of the original text.

/// `b` is the byte offset in `text` at which one of its extended grapheme
/// clusters starts, or its end.
pub open spec fn grapheme_boundary(text: Seq<char>, b: int) -> bool {
    exists|k: int|
        0 <= k <= grapheme_clusters(text).len() && #[trigger] utf8_len(
            grapheme_clusters(text).take(k).flatten(),
        ) == b
}

/// `sp` is a non-empty range of `text`'s UTF-8 bytes between character
/// boundaries that are also grapheme boundaries.
pub open spec fn span_ok(text: Seq<char>, sp: Span) -> bool {
    &&& sp.start < sp.end <= utf8_len(text)
    &&& is_char_boundary(encode_utf8(text), sp.start as int)
    &&& is_char_boundary(encode_utf8(text), sp.end as int)
    &&& grapheme_boundary(text, sp.start as int)
    &&& grapheme_boundary(text, sp.end as int)
}

/// Every character of `s` is tagged with a range that is `span_ok` in `text`.
pub open spec fn all_spans_ok(text: Seq<char>, s: Seq<TaggedChar>) -> bool {
    forall|i: int| 0 <= i < s.len() ==> span_ok(text, #[trigger] s[i].span)
}

proof fn lemma_retag_ok(text: Seq<char>, cs: Seq<char>, span: Span)
    requires
        span_ok(text, span),
    ensures
        all_spans_ok(text, retag(cs, span)),
{
}

proof fn lemma_concat_ok(text: Seq<char>, a: Seq<TaggedChar>, b: Seq<TaggedChar>)
    requires
        all_spans_ok(text, a),
        all_spans_ok(text, b),
    ensures
        all_spans_ok(text, a + b),
{
    assert forall|i: int| 0 <= i < (a + b).len() implies span_ok(text, #[trigger] (a + b)[i].span) by {
        if i < a.len() {
            assert((a + b)[i] == a[i]);
        } else {
            assert((a + b)[i] == b[i - a.len()]);
        }
    }
}

proof fn lemma_decompose_ok(text: Seq<char>, s: Seq<TaggedChar>)
    requires
        all_spans_ok(text, s),
    ensures
        all_spans_ok(text, decompose_tags(s)),
    decreases s.len(),
{
    if s.len() > 0 {
        lemma_decompose_ok(text, s.drop_last());
        lemma_retag_ok(text, compat_decomposition(s.last().ch), s.last().span);
        lemma_concat_ok(
            text,
            decompose_tags(s.drop_last()),
            retag(compat_decomposition(s.last().ch), s.last().span),
        );
    }
}

proof fn lemma_lowercase_ok(text: Seq<char>, s: Seq<TaggedChar>)
    requires
        all_spans_ok(text, s),
    ensures
        all_spans_ok(text, lowercase_tags(s)),
    decreases s.len(),
{
    if s.len() > 0 {
        lemma_lowercase_ok(text, s.drop_last());
        lemma_retag_ok(text, lowercase_chars(s.last().ch), s.last().span);
        lemma_concat_ok(
            text,
            lowercase_tags(s.drop_last()),
            retag(lowercase_chars(s.last().ch), s.last().span),
        );
    }
}

proof fn lemma_keep_ok(text: Seq<char>, s: Seq<TaggedChar>, o: Options)
    requires
        all_spans_ok(text, s),
    ensures
        all_spans_ok(text, keep_tags(s, o)),
    decreases s.len(),
{
    if s.len() > 0 {
        lemma_keep_ok(text, s.drop_last(), o);
        let tail = if keeps_char(s.last().ch, o) {
            seq![s.last()]
        } else {
            Seq::<TaggedChar>::empty()
        };
        lemma_concat_ok(text, keep_tags(s.drop_last(), o), tail);
    }
}

proof fn lemma_reorder_state_ok(text: Seq<char>, s: Seq<TaggedChar>)
    requires
        all_spans_ok(text, s),
    ensures
        all_spans_ok(text, reorder_state(s).0),
        all_spans_ok(text, reorder_state(s).1),
    decreases s.len(),
{
    if s.len() > 0 {
        lemma_reorder_state_ok(text, s.drop_last());
        let (done, pending) = reorder_state(s.drop_last());
        let t = s.last();
        assert(span_ok(text, t.span));
        if combining_class(t.ch) == 0 {
            lemma_concat_ok(text, done, pending.push(t));
        } else {
            let p = insert_pos(pending, combining_class(t.ch));
            lemma_insert_pos_bound(pending, combining_class(t.ch));
            pending.insert_ensures(p, t);
            assert forall|i: int| 0 <= i < pending.insert(p, t).len() implies span_ok(
                text,
                #[trigger] pending.insert(p, t)[i].span,
            ) by {
                if i < p {
                } else if i == p {
                } else {
                    assert(pending.insert(p, t)[i] == pending[i - 1]);
                }
            }
        }
    }
}

proof fn lemma_insert_pos_bound(s: Seq<TaggedChar>, k: u8)
    ensures
        0 <= insert_pos(s, k) <= s.len(),
    decreases s.len(),
{
    if s.len() > 0 {
        lemma_insert_pos_bound(s.drop_last(), k);
    }
}

proof fn lemma_reorder_ok(text: Seq<char>, s: Seq<TaggedChar>)
    requires
        all_spans_ok(text, s),
    ensures
        all_spans_ok(text, reorder(s)),
{
    lemma_reorder_state_ok(text, s);
    lemma_concat_ok(text, reorder_state(s).0, reorder_state(s).1);
}

proof fn lemma_compose_state_ok(text: Seq<char>, s: Seq<TaggedChar>)
    requires
        all_spans_ok(text, s),
    ensures
        all_spans_ok(text, compose_state(s).0),
        compose_state(s).1 matches Some(ci) ==> 0 <= ci < compose_state(s).0.len(),
    decreases s.len(),
{
    if s.len() > 0 {
        lemma_compose_state_ok(text, s.drop_last());
        let (out, composee, last) = compose_state(s.drop_last());
        let t = s.last();
        assert(span_ok(text, t.span));
        if let Some(ci) = composee {
            let m = merge_spans(out[ci].span, t.span);
            assert(span_ok(text, out[ci].span));
            assert(span_ok(text, m));
        }
    }
}

proof fn lemma_recompose_ok(text: Seq<char>, s: Seq<TaggedChar>)
    requires
        all_spans_ok(text, s),
    ensures
        all_spans_ok(text, recompose(s)),
{
    lemma_compose_state_ok(text, s);
}

/// Every byte span of a stream is the span of one of its characters.
proof fn lemma_byte_spans_ok(text: Seq<char>, s: Seq<TaggedChar>)
    requires
        all_spans_ok(text, s),
    ensures
        forall|i: int| 0 <= i < byte_spans(s).len() ==> span_ok(text, #[trigger] byte_spans(s)[i]),
    decreases s.len(),
{
    if s.len() > 0 {
        lemma_byte_spans_ok(text, s.drop_last());
        let prev = byte_spans(s.drop_last());
        let tail = Seq::new(char_bytes(s.last().ch).len(), |j: int| s.last().span);
        assert(span_ok(text, s.last().span));
        assert forall|i: int| 0 <= i < (prev + tail).len() implies span_ok(
            text,
            #[trigger] (prev + tail)[i],
        ) by {
            if i < prev.len() {
                assert((prev + tail)[i] == prev[i]);
            } else {
                assert((prev + tail)[i] == tail[i - prev.len()]);
            }
        }
    }
}

/// There is one span per UTF-8 byte of the normalized characters.
pub proof fn lemma_byte_spans_len(s: Seq<TaggedChar>)
    ensures
        byte_spans(s).len() == encode_utf8(tag_chars(s)).len(),
    decreases s.len(),
{
    if s.len() > 0 {
        lemma_byte_spans_len(s.drop_last());
        assert(tag_chars(s) =~= tag_chars(s.drop_last()).push(s.last().ch));
        lemma_encode_utf8_push(tag_chars(s.drop_last()), s.last().ch);
    } else {
        assert(tag_chars(s) =~= Seq::<char>::empty());
    }
}

// ---------------------------------------------------------------------------
// Executable stages.

/// Appends the characters of `cs`, each tagged with `span`.
fn push_retagged(out: &mut Vec<TaggedChar>, cs: &Vec<char>, span: Span)
    ensures
        final(out)@ == old(out)@ + retag(cs@, span),
{
    let ghost before = out@;
    let m = cs.len();
    assert(retag(cs@.take(0), span) =~= Seq::<TaggedChar>::empty());
    assert(out@ =~= before + retag(cs@.take(0), span));
    for j in 0..m
        invariant
            m == cs.len(),
            out@ == before + retag(cs@.take(j as int), span),
    {
        out.push(TaggedChar { ch: cs[j], span });
        proof {
            let a = retag(cs@.take(j + 1), span);
            let b = retag(cs@.take(j as int), span).push(tag(cs@[j as int], span));
            assert forall|k: int| 0 <= k < a.len() implies a[k] == b[k] by {
                if k < j {
                    assert(cs@.take(j + 1)[k] == cs@.take(j as int)[k]);
                }
            }
            assert(a =~= b);
            assert(out@ =~= before + a);
        }
    }
    assert(cs@.take(m as int) =~= cs@);
}

/// Replaces every character by its compatibility decomposition.
fn decompose_tagged(input: &Vec<TaggedChar>) -> (r: Vec<TaggedChar>)
    ensures
        r@ == decompose_tags(input@),
{
    let mut out: Vec<TaggedChar> = Vec::new();
    let n = input.len();
    assert(input@.take(0) =~= Seq::<TaggedChar>::empty());
    for i in 0..n
        invariant
            n == input.len(),
            out@ == decompose_tags(input@.take(i as int)),
    {
        let t = input[i];
        let ds = decompose(t.ch);
        push_retagged(&mut out, &ds, t.span);
        assert(input@.take(i + 1).drop_last() =~= input@.take(i as int));
    }
    assert(input@.take(n as int) =~= input@);
    out
}

/// Replaces every character by its lowercase mapping.
fn lowercase_tagged(input: &Vec<TaggedChar>) -> (r: Vec<TaggedChar>)
    ensures
        r@ == lowercase_tags(input@),
{
    let mut out: Vec<TaggedChar> = Vec::new();
    let n = input.len();
    assert(input@.take(0) =~= Seq::<TaggedChar>::empty());
    for i in 0..n
        invariant
            n == input.len(),
            out@ == lowercase_tags(input@.take(i as int)),
    {
        let t = input[i];
        let ds = to_lowercase(t.ch);
        push_retagged(&mut out, &ds, t.span);
        assert(input@.take(i + 1).drop_last() =~= input@.take(i as int));
    }
    assert(input@.take(n as int) =~= input@);
    out
}

/// Whether `c` survives the class filters of `options`.
pub fn keep_char(c: char, options: &Options, classes: &UnicodeClasses) -> (r: bool)
    ensures
        r == keeps_char(c, *options),
        (c as u32) < 0x80 ==> r == !(options.remove_whitespace && is_white_space(c)
            || options.remove_punctuation && ascii_punctuation(c) || options.remove_symbols
            && ascii_symbol(c)),
{
    !(options.remove_whitespace && is_whitespace(c) || options.remove_punctuation
        && classes.is_punctuation(c) || options.remove_symbols && classes.is_symbol(c))
}

/// An ASCII character left by the filters is not of a removed ASCII class.
pub open spec fn ascii_filters_pass(c: char, o: Options) -> bool {
    (c as u32) < 0x80 ==> !(o.remove_punctuation && ascii_punctuation(c)) && !(o.remove_symbols
        && ascii_symbol(c))
}

/// Keeps the characters that survive the class filters.
fn keep_tagged(input: &Vec<TaggedChar>, options: &Options, classes: &UnicodeClasses) -> (r: Vec<
    TaggedChar,
>)
    ensures
        r@ == keep_tags(input@, *options),
        forall|i: int| 0 <= i < r@.len() ==> ascii_filters_pass(#[trigger] r@[i].ch, *options),
{
    let mut out: Vec<TaggedChar> = Vec::new();
    let n = input.len();
    assert(input@.take(0) =~= Seq::<TaggedChar>::empty());
    for i in 0..n
        invariant
            n == input.len(),
            out@ == keep_tags(input@.take(i as int), *options),
            forall|j: int| 0 <= j < out@.len() ==> ascii_filters_pass(#[trigger] out@[j].ch, *options),
    {
        let t = input[i];
        assert(input@.take(i + 1).drop_last() =~= input@.take(i as int));
        if keep_char(t.ch, options, classes) {
            let ghost before = out@;
            out.push(t);
            assert forall|j: int| 0 <= j < out@.len() implies ascii_filters_pass(#[trigger] out@[j].ch, *options) by {
                if j < before.len() {
                    assert(out@[j] == before[j]);
                }
            }
        } else {
            assert(out@ =~= out@ + Seq::<TaggedChar>::empty());
        }
    }
    assert(input@.take(n as int) =~= input@);
    out
}

/// Where a character of class `k` goes in the class-sorted run `run`.
fn insert_position(run: &Vec<TaggedChar>, k: u8) -> (r: usize)
    ensures
        r == insert_pos(run@, k),
        r <= run.len(),
{
    let mut pos = run.len();
    assert(run@.take(pos as int) =~= run@);
    while pos > 0 && canonical_class(run[pos - 1].ch) > k
        invariant
            pos <= run.len(),
            insert_pos(run@.take(pos as int), k) == insert_pos(run@, k),
        decreases pos,
    {
        assert(run@.take(pos as int).drop_last() =~= run@.take(pos - 1));
        pos = pos - 1;
    }
    assert(run@.take(0) =~= Seq::<TaggedChar>::empty());
    pos
}

/// Canonical ordering: stably sorts each run of non-starters by combining class.
fn reorder_tagged(input: &Vec<TaggedChar>) -> (r: Vec<TaggedChar>)
    ensures
        r@ == reorder(input@),
{
    let mut done: Vec<TaggedChar> = Vec::new();
    let mut pending: Vec<TaggedChar> = Vec::new();
    let n = input.len();
    assert(input@.take(0) =~= Seq::<TaggedChar>::empty());
    for i in 0..n
        invariant
            n == input.len(),
            (done@, pending@) == reorder_state(input@.take(i as int)),
    {
        let t = input[i];
        assert(input@.take(i + 1).drop_last() =~= input@.take(i as int));
        let k = canonical_class(t.ch);
        if k == 0 {
            pending.push(t);
            done.append(&mut pending);
        } else {
            let pos = insert_position(&pending, k);
            pending.insert(pos, t);
        }
    }
    assert(input@.take(n as int) =~= input@);
    done.append(&mut pending);
    done
}

/// Canonical composition of a canonically ordered stream; a composed
/// character covers the ranges of both of its parts.
fn recompose_tagged(input: &Vec<TaggedChar>) -> (r: Vec<TaggedChar>)
    ensures
        r@ == recompose(input@),
{
    let mut out: Vec<TaggedChar> = Vec::new();
    let mut composee: Option<usize> = None;
    let mut last: Option<u8> = None;
    let n = input.len();
    assert(input@.take(0) =~= Seq::<TaggedChar>::empty());
    for i in 0..n
        invariant
            n == input.len(),
            out.len() <= i,
            compose_state(input@.take(i as int)) == (
                out@,
                match composee {
                    Some(c) => Some(c as int),
                    None => None,
                },
                last,
            ),
            composee matches Some(c) ==> c < out.len(),
    {
        let t = input[i];
        assert(input@.take(i + 1).drop_last() =~= input@.take(i as int));
        let k = canonical_class(t.ch);
        match composee {
            None => {
                out.push(t);
                if k == 0 {
                    composee = Some(out.len() - 1);
                }
            },
            Some(ci) => {
                let blocked = match last {
                    Some(p) => p >= k,
                    None => false,
                };
                let mut merged = false;
                if !blocked {
                    let base = out[ci];
                    if let Some(c) = compose(base.ch, t.ch) {
                        let span = Span {
                            start: if base.span.start <= t.span.start {
                                base.span.start
                            } else {
                                t.span.start
                            },
                            end: if base.span.end >= t.span.end {
                                base.span.end
                            } else {
                                t.span.end
                            },
                        };
                        let ghost prev = out@;
                        out.set(ci, TaggedChar { ch: c, span });
                        assert(span == merge_spans(base.span, t.span));
                        assert(out@ =~= prev.update(ci as int, tag(c, span)));
                        merged = true;
                    }
                }
                if !merged {
                    out.push(t);
                    if k == 0 {
                        composee = Some(out.len() - 1);
                        last = None;
                    } else {
                        last = Some(k);
                    }
                }
            },
        }
    }
    assert(input@.take(n as int) =~= input@);
    out
}


/// A prefix of graphemes that spell `text` spells a prefix of `text`.
proof fn lemma_prefix_flatten(gs: Seq<Seq<char>>, text: Seq<char>, i: int)
    requires
        gs.flatten() == text,
        0 <= i <= gs.len(),
    ensures
        gs.take(i).flatten().len() <= text.len(),
        gs.take(i).flatten() == text.take(gs.take(i).flatten().len() as int),
{
    assert(gs =~= gs.take(i) + gs.skip(i));
    vstd::seq_lib::lemma_flatten_concat(gs.take(i), gs.skip(i));
    assert(gs.take(i).flatten() =~= text.take(gs.take(i).flatten().len() as int));
}

/// Tags the characters of `input` with their grapheme ranges, dropping emoji
/// graphemes when asked.
fn tag_source(input: &str, remove_emoji: bool, classes: &UnicodeClasses) -> (r: Vec<TaggedChar>)
    requires
        utf8_len(input@) <= usize::MAX,
    ensures
        r@ == tag_graphemes(grapheme_clusters(input@), remove_emoji),
        all_spans_ok(input@, r@),
{
    let clusters = graphemes(input);
    let ghost gs = clusters.deep_view();
    assert forall|k: int| 0 <= k < gs.len() implies #[trigger] gs[k].len() > 0 by {
        assert(gs[k] == clusters@[k]@);
    }
    let mut out: Vec<TaggedChar> = Vec::new();
    let mut offset: usize = 0;
    let n = clusters.len();
    assert(gs.take(0) =~= Seq::<Seq<char>>::empty());
    for i in 0..n
        invariant
            n == clusters.len(),
            gs == clusters.deep_view(),
            gs == grapheme_clusters(input@),
            gs.flatten() == input@,
            utf8_len(input@) <= usize::MAX,
            offset == utf8_len(gs.take(i as int).flatten()),
            out@ == tag_graphemes(gs.take(i as int), remove_emoji),
            forall|k: int| 0 <= k < gs.len() ==> #[trigger] gs[k].len() > 0,
            all_spans_ok(input@, out@),
    {
        let g = &clusters[i];
        let ghost gv = g@;
        assert(gv == gs[i as int]);
        // The bytes before and including this grapheme fit in the input.
        proof {
            assert(gs.take(i + 1) =~= gs.take(i as int).push(gv));
            gs.take(i as int).lemma_flatten_push(gv);
            lemma_encode_utf8_concat(gs.take(i as int).flatten(), gv);
            assert(gs =~= gs.take(i + 1) + gs.skip(i + 1));
            vstd::seq_lib::lemma_flatten_concat(gs.take(i + 1), gs.skip(i + 1));
            lemma_encode_utf8_concat(gs.take(i + 1).flatten(), gs.skip(i + 1).flatten());
        }
        let mut glen: usize = 0;
        let m = g.len();
        assert(gv.take(0) =~= Seq::<char>::empty());
        for j in 0..m
            invariant
                m == g.len(),
                gv == g@,
                glen == utf8_len(gv.take(j as int)),
                offset + utf8_len(gv) <= usize::MAX,
        {
            proof {
                assert(gv.take(j + 1) =~= gv.take(j as int).push(gv[j as int]));
                lemma_encode_utf8_push(gv.take(j as int), gv[j as int]);
                lemma_utf8_len_take_monotone(gv, j + 1, m as int);
            }
            glen = glen + char_utf8_len(g[j]);
        }
        assert(gv.take(m as int) =~= gv);
        let span = Span { start: offset, end: offset + glen };
        assert(span == grapheme_span(gv, offset as int));
        proof {
            lemma_prefix_flatten(gs, input@, i as int);
            lemma_prefix_flatten(gs, input@, i + 1);
            lemma_prefix_is_char_boundary(input@, gs.take(i as int).flatten().len() as int);
            lemma_prefix_is_char_boundary(input@, gs.take(i + 1).flatten().len() as int);
            lemma_utf8_len_take_monotone(gv, 0, gv.len() as int);
            assert(gv.take(0) =~= Seq::<char>::empty());
            assert(utf8_len(gs.take(i + 1).flatten()) == offset + glen);
            assert(grapheme_boundary(input@, span.start as int));
            assert(grapheme_boundary(input@, span.end as int));
            assert(span_ok(input@, span));
            lemma_retag_ok(input@, gv, span);
            lemma_concat_ok(input@, out@, retag(gv, span));
        }
        let ghost before = out@;
        if !(remove_emoji && classes.is_emoji(g.as_slice())) {
            push_retagged(&mut out, g, span);
        } else {
            assert(out@ =~= before + Seq::<TaggedChar>::empty());
        }
        assert(gs.take(i + 1).drop_last() =~= gs.take(i as int));
        offset = offset + glen;
    }
    assert(gs.take(n as int) =~= gs);
    out
}


/// Builds the normalized text and its per-byte source ranges.
fn encode_tagged(tags: &Vec<TaggedChar>) -> (r: Normalized)
    ensures
        r.text@ == tag_chars(tags@),
        r.spans@ == byte_spans(tags@),
{
    let mut text = String::new();
    let mut spans: Vec<Span> = Vec::new();
    let n = tags.len();
    assert(tags@.take(0) =~= Seq::<TaggedChar>::empty());
    assert(text@ =~= tag_chars(tags@.take(0)));
    for i in 0..n
        invariant
            n == tags.len(),
            text@ == tag_chars(tags@.take(i as int)),
            spans@ == byte_spans(tags@.take(i as int)),
    {
        let t = tags[i];
        assert(tags@.take(i + 1).drop_last() =~= tags@.take(i as int));
        assert(tag_chars(tags@.take(i + 1)) =~= tag_chars(tags@.take(i as int)).push(t.ch));
        push_char(&mut text, t.ch);
        let len = char_utf8_len(t.ch);
        let ghost before = spans@;
        for j in 0..len
            invariant
                spans@ == before + Seq::new(j as nat, |k: int| t.span),
        {
            spans.push(t.span);
            assert(spans@ =~= before + Seq::new((j + 1) as nat, |k: int| t.span));
        }
        assert(spans@ =~= byte_spans(tags@.take(i + 1)));
    }
    assert(tags@.take(n as int) =~= tags@);
    Normalized { text, spans }
}

/// Normalizes `input` with `options`, recording for every normalized UTF-8
/// byte the byte range of the original grapheme it came from.
///
/// Emoji graphemes are removed first (as whole graphemes), then NFKC runs over
/// the whole tagged stream, then per-character lowercase, then the class
/// filters. Characters produced from one original grapheme share its range; a
/// composed character covers the ranges of its parts.
pub fn normalize(input: &str, options: &Options, classes: &UnicodeClasses) -> (r: Normalized)
    ensures
        r.text@ == normalized_text(input@, *options),
        r.spans@ == normalized_spans(input@, *options),
        r.spans@.len() == encode_utf8(r.text@).len(),
        forall|i: int| 0 <= i < r.spans@.len() ==> span_ok(input@, #[trigger] r.spans@[i]),
        options.remove_punctuation ==> forall|i: int|
            0 <= i < r.text@.len() ==> !ascii_punctuation(#[trigger] r.text@[i]),
        options.remove_symbols ==> forall|i: int|
            0 <= i < r.text@.len() ==> !ascii_symbol(#[trigger] r.text@[i]),
{
    let total = input.as_bytes().len();
    assert(total == utf8_len(input@));
    let tagged = tag_source(input, options.remove_emoji, classes);
    let composed = if options.unicode_nfkc {
        let decomposed = decompose_tagged(&tagged);
        let ordered = reorder_tagged(&decomposed);
        recompose_tagged(&ordered)
    } else {
        tagged
    };
    let lowered = if options.lowercase {
        lowercase_tagged(&composed)
    } else {
        composed
    };
    let kept = keep_tagged(&lowered, options, classes);
    proof {
        if options.unicode_nfkc {
            lemma_decompose_ok(input@, tagged@);
            lemma_reorder_ok(input@, decompose_tags(tagged@));
            lemma_recompose_ok(input@, reorder(decompose_tags(tagged@)));
        }
        if options.lowercase {
            lemma_lowercase_ok(input@, composed@);
        }
        lemma_keep_ok(input@, lowered@, *options);
        lemma_byte_spans_ok(input@, kept@);
        lemma_byte_spans_len(kept@);
    }
    let r = encode_tagged(&kept);
    assert forall|i: int| 0 <= i < r.text@.len() implies ascii_filters_pass(#[trigger] r.text@[i], *options) by {
        assert(r.text@[i] == kept@[i].ch);
    }
    r
}

/// Normalized text without source ranges. NFKC here is the streaming
/// normalizer of the unicode-normalization crate, applied after emoji
/// removal to the whole character stream.
pub fn normalized_chars(input: &str, options: &Options, classes: &UnicodeClasses) -> (r: String)
    ensures
        r@ == streamed_text(input@, *options),
{
    let clusters = graphemes(input);
    let ghost gs = clusters.deep_view();
    let mut kept: Vec<char> = Vec::new();
    let n = clusters.len();
    assert(gs.take(0) =~= Seq::<Seq<char>>::empty());
    for i in 0..n
        invariant
            n == clusters.len(),
            gs == clusters.deep_view(),
            gs == grapheme_clusters(input@),
            kept@ == kept_grapheme_chars(gs.take(i as int), options.remove_emoji),
    {
        let g = &clusters[i];
        assert(g@ == gs[i as int]);
        assert(gs.take(i + 1).drop_last() =~= gs.take(i as int));
        if !(options.remove_emoji && classes.is_emoji(g.as_slice())) {
            let ghost before = kept@;
            let m = g.len();
            for j in 0..m
                invariant
                    m == g.len(),
                    kept@ == before + g@.take(j as int),
            {
                kept.push(g[j]);
                assert(kept@ =~= before + g@.take(j + 1));
            }
            assert(g@.take(m as int) =~= g@);
        } else {
            assert(kept@ =~= kept@ + Seq::<char>::empty());
        }
    }
    assert(gs.take(n as int) =~= gs);
    let composed = if options.unicode_nfkc {
        nfkc(kept.as_slice())
    } else {
        kept
    };
    let lowered = if options.lowercase {
        let mut out: Vec<char> = Vec::new();
        let m = composed.len();
        assert(composed@.take(0) =~= Seq::<char>::empty());
        for i in 0..m
            invariant
                m == composed.len(),
                out@ == lowercase_all(composed@.take(i as int)),
        {
            let ls = to_lowercase(composed[i]);
            assert(composed@.take(i + 1).drop_last() =~= composed@.take(i as int));
            let ghost before = out@;
            let k = ls.len();
            for j in 0..k
                invariant
                    k == ls.len(),
                    out@ == before + ls@.take(j as int),
            {
                out.push(ls[j]);
                assert(out@ =~= before + ls@.take(j + 1));
            }
            assert(ls@.take(k as int) =~= ls@);
        }
        assert(composed@.take(m as int) =~= composed@);
        out
    } else {
        composed
    };
    let mut text = String::new();
    let m = lowered.len();
    assert(lowered@.take(0) =~= Seq::<char>::empty());
    assert(text@ =~= keep_all(lowered@.take(0), *options));
    for i in 0..m
        invariant
            m == lowered.len(),
            text@ == keep_all(lowered@.take(i as int), *options),
    {
        let c = lowered[i];
        assert(lowered@.take(i + 1).drop_last() =~= lowered@.take(i as int));
        if keep_char(c, options, classes) {
            push_char(&mut text, c);
            assert(text@ =~= keep_all(lowered@.take(i + 1), *options));
        } else {
            assert(text@ =~= keep_all(lowered@.take(i + 1), *options));
        }
    }
    assert(lowered@.take(m as int) =~= lowered@);
    text
}


impl Normalized {
    /// The smallest original range covering the normalized bytes `[start, end)`.
    ///
    /// Composition and reordering can make source positions non-monotone, so
    /// every byte of the range is looked at.
    pub fn source_span(&self, start: usize, end: usize) -> (r: Span)
        requires
            start < end <= self.spans.len(),
        ensures
            r == span_hull(self.spans@.subrange(start as int, end as int)),
    {
        let mut combined = Span { start: usize::MAX, end: 0 };
        assert(self.spans@.subrange(start as int, start as int) =~= Seq::<Span>::empty());
        for i in start..end
            invariant
                start <= end <= self.spans.len(),
                combined == span_hull(self.spans@.subrange(start as int, i as int)),
        {
            let span = self.spans[i];
            assert(self.spans@.subrange(start as int, i + 1).drop_last() =~= self.spans@.subrange(
                start as int,
                i as int,
            ));
            combined = Span {
                start: if combined.start <= span.start {
                    combined.start
                } else {
                    span.start
                },
                end: if combined.end >= span.end {
                    combined.end
                } else {
                    span.end
                },
            };
        }
        combined
    }
}

} // verus!
