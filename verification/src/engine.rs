//! Dictionaries compiled to Aho–Corasick automata, whitelist filtering, and
//! mapping of matches back to byte ranges of the original text.

use crate::automaton::{
    any_occurrence, automaton_builds, automaton_is_match, automaton_is_standard,
    automaton_max_pattern_len, lemma_longest_bounds,
    automaton_patterns, build_automaton, byte_vecs, find_overlapping, occurs_at, overlapping_iter,
    overlapping_next, overlapping_order, overlapping_remaining,
};
use crate::encoding::{lemma_encode_utf8_concat, slice_str, utf8_len};
use crate::normalize::{
    normalize, normalized_spans, normalized_text, span_hull, span_ok, Normalized, Options, Span,
};
use crate::order::{dedup_sorted, key_le, key_lt, sort_keys, sorted_keys, strictly_sorted_keys, Key};
use crate::text::{decimal, push_decimal};
use crate::unicode::UnicodeClasses;
use vstd::hash_set::StringHashSet;
use vstd::prelude::*;
use vstd::string::{StrSliceExecFns, StringExecFns};
use vstd::utf8::*;

verus! {

broadcast use vstd::seq_lib::group_seq_properties, vstd::seq::group_seq_axioms;

/// Why a dictionary could not be compiled.
#[derive(Debug)]
pub enum DictionaryError {
    /// The entry at `index` (the first such) is empty after normalization.
    EmptyEntry { index: usize },
    /// The automaton could not be built; the text comes from aho-corasick.
    Build(String),
}

impl DictionaryError {
    /// The message of this error.
    pub open spec fn spec_message(&self) -> Seq<char> {
        match self {
            DictionaryError::EmptyEntry { index } => "dictionary entry at index "@ + decimal(
                *index as nat,
            ) + " is empty after normalization"@,
            DictionaryError::Build(message) => message@,
        }
    }

    /// The message of this error, e.g.
    /// `dictionary entry at index 1 is empty after normalization`.
    pub fn message(&self) -> (r: String)
        ensures
            r@ == self.spec_message(),
    {
        match self {
            DictionaryError::EmptyEntry { index } => {
                let mut s = String::from_str("dictionary entry at index ");
                push_decimal(&mut s, *index);
                s.append(" is empty after normalization");
                s
            },
            DictionaryError::Build(message) => message.clone(),
        }
    }
}

// ---------------------------------------------------------------------------
// Dictionaries.

/// The UTF-8 patterns of normalized entries.
pub open spec fn patterns_of(texts: Seq<Seq<char>>) -> Seq<Seq<u8>> {
    texts.map_values(|t: Seq<char>| encode_utf8(t))
}

/// The index of the first entry that is empty after normalization, if any.
pub open spec fn first_empty_entry(entries: Seq<Seq<char>>, o: Options) -> Option<int>
    decreases entries.len(),
{
    if entries.len() == 0 {
        None
    } else {
        match first_empty_entry(entries.drop_last(), o) {
            Some(i) => Some(i),
            None => if normalized_text(entries.last(), o).len() == 0 {
                Some(entries.len() - 1)
            } else {
                None
            },
        }
    }
}

/// The entries kept by compilation (the first of each normalized form, in
/// order) and their normalized forms.
pub open spec fn compiled_entries(entries: Seq<Seq<char>>, o: Options) -> (
    Seq<Seq<char>>,
    Seq<Seq<char>>,
)
    decreases entries.len(),
{
    if entries.len() == 0 {
        (seq![], seq![])
    } else {
        let (originals, texts) = compiled_entries(entries.drop_last(), o);
        let text = normalized_text(entries.last(), o);
        if texts.contains(text) {
            (originals, texts)
        } else {
            (originals.push(entries.last()), texts.push(text))
        }
    }
}

/// Whether compilation of `entries` succeeds: no entry normalizes to
/// nothing, and the automaton (if there are patterns) can be built.
pub open spec fn dictionary_ok(entries: Seq<Seq<char>>, o: Options) -> bool {
    &&& first_empty_entry(entries, o) is None
    &&& {
        let texts = compiled_entries(entries, o).1;
        texts.len() == 0 || automaton_builds(patterns_of(texts))
    }
}

/// `error` is the error that compiling `entries` reports.
pub open spec fn is_compile_error(error: DictionaryError, entries: Seq<Seq<char>>, o: Options) -> bool {
    match first_empty_entry(entries, o) {
        Some(i) => error == DictionaryError::EmptyEntry { index: i as usize },
        None => error is Build,
    }
}

/// Original entries and their compiled automaton; an empty dictionary has none.
pub struct Dictionary {
    originals: Vec<String>,
    texts: Ghost<Seq<Seq<char>>>,
    matcher: Option<aho_corasick::AhoCorasick>,
}

impl Dictionary {
    /// The kept original entries; entry `i` has pattern id `i`.
    pub closed spec fn originals(&self) -> Seq<Seq<char>> {
        self.originals.deep_view()
    }

    /// The normalized forms of the kept entries.
    pub closed spec fn texts(&self) -> Seq<Seq<char>> {
        self.texts@
    }

    /// The searched patterns: UTF-8 of the normalized forms.
    pub open spec fn patterns(&self) -> Seq<Seq<u8>> {
        patterns_of(self.texts())
    }

    pub closed spec fn wf(&self) -> bool {
        &&& self.originals@.len() == self.texts@.len()
        &&& self.texts@.len() <= usize::MAX
        &&& forall|i: int| 0 <= i < self.texts@.len() ==> #[trigger] self.texts@[i].len() > 0
        &&& self.matcher is None <==> self.texts@.len() == 0
        &&& self.matcher matches Some(m) ==> automaton_patterns(m) == patterns_of(self.texts@)
            && automaton_is_standard(m)
    }

    /// Every pattern is non-empty.
    proof fn lemma_patterns_nonempty(&self)
        requires
            self.wf(),
        ensures
            forall|p: int| 0 <= p < self.patterns().len() ==> #[trigger] self.patterns()[p].len() > 0,
    {
        assert forall|p: int| 0 <= p < self.patterns().len() implies #[trigger] self.patterns()[p].len()
            > 0 by {
            let t = self.texts@[p];
            assert(t.len() > 0);
            assert(t =~= seq![t[0]] + t.drop_first());
            vstd::utf8::encode_utf8_first_scalar(t);
        }
    }

    /// Normalizes every entry in order, keeps the first entry of each
    /// normalized form, and builds the automaton over the kept forms.
    pub fn compile(entries: &Vec<String>, options: &Options, classes: &UnicodeClasses) -> (r: Result<
        Dictionary,
        DictionaryError,
    >)
        ensures
            r is Ok <==> dictionary_ok(entries.deep_view(), *options),
            r matches Err(e) ==> is_compile_error(e, entries.deep_view(), *options),
            r matches Ok(d) ==> {
                &&& d.wf()
                &&& d.originals() == compiled_entries(entries.deep_view(), *options).0
                &&& d.texts() == compiled_entries(entries.deep_view(), *options).1
            },
    {
        let ghost es = entries.deep_view();
        let mut seen = StringHashSet::new();
        let mut originals: Vec<String> = Vec::new();
        let mut patterns: Vec<Vec<u8>> = Vec::new();
        let ghost mut texts: Seq<Seq<char>> = seq![];
        let n = entries.len();
        assert(es.take(0) =~= Seq::<Seq<char>>::empty());
        for i in 0..n
            invariant
                n == entries.len(),
                es == entries.deep_view(),
                first_empty_entry(es.take(i as int), *options) is None,
                (originals.deep_view(), texts) == compiled_entries(es.take(i as int), *options),
                seen@ == texts.to_set(),
                byte_vecs(patterns@) == patterns_of(texts),
                forall|k: int| 0 <= k < texts.len() ==> #[trigger] texts[k].len() > 0,
                originals.len() == texts.len(),
        {
            let entry = &entries[i];
            assert(entry@ == es[i as int]);
            assert(es.take(i + 1).drop_last() =~= es.take(i as int));
            let normalized = normalize(entry.as_str(), options, classes);
            if normalized.text.as_str().is_empty() {
                assert(first_empty_entry(es.take(i + 1), *options) == Some(i as int));
                proof {
                    lemma_first_empty_prefix(es, *options, i + 1);
                }
                return Err(DictionaryError::EmptyEntry { index: i });
            }
            let ghost text = normalized.text@;
            if seen.insert(normalized.text.clone()) {
                originals.push(entry.clone());
                let bytes = normalized.text.as_str().as_bytes_vec();
                assert(bytes@ == encode_utf8(text));
                let ghost before = byte_vecs(patterns@);
                patterns.push(bytes);
                proof {
                    assert(byte_vecs(patterns@) =~= before.push(encode_utf8(text)));
                    assert(patterns_of(texts.push(text)) =~= patterns_of(texts).push(encode_utf8(text)));
                    texts = texts.push(text);
                    assert(originals.deep_view() =~= compiled_entries(es.take(i + 1), *options).0);
                    assert(byte_vecs(patterns@) =~= patterns_of(texts));
                }
            }
            assert(seen@ =~= texts.to_set());
        }
        assert(es.take(n as int) =~= es);
        if patterns.len() == 0 {
            return Ok(Dictionary { originals, texts: Ghost(texts), matcher: None });
        }
        match build_automaton(&patterns) {
            Ok(matcher) => Ok(Dictionary { originals, texts: Ghost(texts), matcher: Some(matcher) }),
            Err(message) => Err(DictionaryError::Build(message)),
        }
    }
}

/// Once an empty entry has been found, longer prefixes report the same one.
proof fn lemma_first_empty_prefix(es: Seq<Seq<char>>, o: Options, k: int)
    requires
        0 <= k <= es.len(),
        first_empty_entry(es.take(k), o) is Some,
    ensures
        first_empty_entry(es, o) == first_empty_entry(es.take(k), o),
    decreases es.len() - k,
{
    if k < es.len() {
        assert(es.take(k + 1).drop_last() =~= es.take(k));
        lemma_first_empty_prefix(es, o, k + 1);
    } else {
        assert(es.take(k) =~= es);
    }
}


// ---------------------------------------------------------------------------
// Matches, whitelist coverage and hits.

/// One valid match, as a byte range `[start, end)` of the original text.
#[derive(Clone, Copy, Debug, PartialEq, Eq, Structural)]
pub struct Hit {
    /// Index of the kept dictionary entry that matched.
    pub term_id: usize,
    /// First original byte of the match.
    pub start: usize,
    /// One past the last original byte of the match.
    pub end: usize,
}

/// The sort key of a hit: start ascending, end descending, term ascending.
pub open spec fn hit_key(h: Hit) -> Key {
    (h.start, h.end, h.term_id)
}

/// The hit with a given key.
pub open spec fn key_hit(k: Key) -> Hit {
    Hit { term_id: k.2, start: k.0, end: k.1 }
}

/// A whitelist match start with the largest end among all whitelist matches
/// up to it in start order (normalized byte offsets).
#[derive(Clone, Copy, Debug)]
pub struct WhitelistRange {
    pub start: usize,
    pub prefix_max_end: usize,
}

/// Some single whitelist occurrence contains `[s, e)`.
pub open spec fn covered(wp: Seq<Seq<u8>>, hay: Seq<u8>, s: int, e: int) -> bool {
    exists|q: int, ws: int, we: int| #[trigger] occurs_at(wp, hay, q, ws, we) && ws <= s && e <= we
}

/// Starts are sorted and prefix maxima grow.
pub open spec fn ranges_ordered(r: Seq<WhitelistRange>) -> bool {
    forall|i: int, j: int|
        0 <= i <= j < r.len() ==> #[trigger] r[i].start <= #[trigger] r[j].start
            && r[i].prefix_max_end <= r[j].prefix_max_end
}

/// Every prefix maximum is the end of an occurrence that starts no later.
#[verifier::opaque]
pub open spec fn ranges_sound(r: Seq<WhitelistRange>, wp: Seq<Seq<u8>>, hay: Seq<u8>) -> bool {
    forall|i: int| #![trigger r[i]] 0 <= i < r.len() ==> covered_by_occurrence(wp, hay, r[i])
}

/// Some occurrence starts no later than `w.start` and ends no earlier than `w.prefix_max_end`.
pub open spec fn covered_by_occurrence(wp: Seq<Seq<u8>>, hay: Seq<u8>, w: WhitelistRange) -> bool {
    exists|q: int, ws: int, we: int|
        #[trigger] occurs_at(wp, hay, q, ws, we) && ws <= w.start && w.prefix_max_end <= we
}

/// Every occurrence is reflected at its start.
#[verifier::opaque]
pub open spec fn ranges_complete(r: Seq<WhitelistRange>, wp: Seq<Seq<u8>>, hay: Seq<u8>) -> bool {
    forall|q: int, ws: int, we: int|
        #[trigger] occurs_at(wp, hay, q, ws, we) ==> exists|i: int|
            0 <= i < r.len() && (#[trigger] r[i]).start == ws && we <= r[i].prefix_max_end
}

/// `r` indexes the whitelist occurrences in `hay`: starts are sorted, prefix
/// maxima grow, every prefix maximum is the end of an occurrence that starts
/// no later, and every occurrence is reflected at its start.
pub open spec fn whitelist_index(r: Seq<WhitelistRange>, wp: Seq<Seq<u8>>, hay: Seq<u8>) -> bool {
    &&& ranges_ordered(r)
    &&& ranges_sound(r, wp, hay)
    &&& ranges_complete(r, wp, hay)
}

/// The number of ranges that start at or before `s`.
fn ranges_up_to(ranges: &Vec<WhitelistRange>, s: usize) -> (k: usize)
    requires
        forall|i: int, j: int|
            0 <= i <= j < ranges.len() ==> #[trigger] ranges@[i].start <= #[trigger] ranges@[j].start,
    ensures
        k <= ranges.len(),
        forall|i: int| 0 <= i < k ==> #[trigger] ranges@[i].start <= s,
        forall|i: int| k <= i < ranges.len() ==> #[trigger] ranges@[i].start > s,
{
    let mut lo: usize = 0;
    let mut hi: usize = ranges.len();
    while lo < hi
        invariant
            lo <= hi <= ranges.len(),
            forall|i: int, j: int|
                0 <= i <= j < ranges.len() ==> #[trigger] ranges@[i].start
                    <= #[trigger] ranges@[j].start,
            forall|i: int| 0 <= i < lo ==> #[trigger] ranges@[i].start <= s,
            forall|i: int| hi <= i < ranges.len() ==> #[trigger] ranges@[i].start > s,
        decreases hi - lo,
    {
        let mid = lo + (hi - lo) / 2;
        if ranges[mid].start <= s {
            assert forall|i: int| 0 <= i < mid + 1 implies #[trigger] ranges@[i].start <= s by {
                assert(ranges@[i].start <= ranges@[mid as int].start);
            }
            lo = mid + 1;
        } else {
            assert forall|i: int| mid <= i < ranges.len() implies #[trigger] ranges@[i].start > s by {
                assert(ranges@[mid as int].start <= ranges@[i].start);
            }
            hi = mid;
        }
    }
    lo
}

proof fn lemma_index_sound(
    r: Seq<WhitelistRange>,
    wp: Seq<Seq<u8>>,
    hay: Seq<u8>,
    i: int,
    s: int,
    e: int,
)
    requires
        ranges_sound(r, wp, hay),
        0 <= i < r.len(),
        r[i].start <= s,
        e <= r[i].prefix_max_end,
    ensures
        covered(wp, hay, s, e),
{
    reveal(ranges_sound);
    let ri = r[i];
    assert(covered_by_occurrence(wp, hay, ri));
    let (q, ws, we) = choose|q: int, ws: int, we: int|
        #[trigger] occurs_at(wp, hay, q, ws, we) && ws <= ri.start && ri.prefix_max_end <= we;
    assert(occurs_at(wp, hay, q, ws, we) && ws <= s && e <= we);
}

proof fn lemma_index_complete(
    r: Seq<WhitelistRange>,
    wp: Seq<Seq<u8>>,
    hay: Seq<u8>,
    k: int,
    s: int,
    e: int,
)
    requires
        ranges_ordered(r),
        ranges_complete(r, wp, hay),
        0 <= k <= r.len(),
        forall|i: int| k <= i < r.len() ==> #[trigger] r[i].start > s,
        covered(wp, hay, s, e),
    ensures
        k > 0 && e <= r[k - 1].prefix_max_end,
{
    reveal(ranges_complete);
    let (q, ws, we) = choose|q: int, ws: int, we: int|
        #[trigger] occurs_at(wp, hay, q, ws, we) && ws <= s && e <= we;
    let i = choose|i: int| 0 <= i < r.len() && (#[trigger] r[i]).start == ws && we <= r[i].prefix_max_end;
    assert(i < k);
    assert(r[i].start <= r[k - 1].start && r[i].prefix_max_end <= r[k - 1].prefix_max_end);
}

/// For keys sorted by start, each start with the largest end seen so far; the
/// ghost result gives, for each position, the key whose end that is.
fn prefix_max_index(sorted: &Vec<Key>) -> (r: (Vec<WhitelistRange>, Ghost<Seq<int>>))
    requires
        sorted_keys(sorted@),
    ensures
        ranges_ordered(r.0@),
        r.0.len() == sorted.len(),
        r.1@.len() == sorted.len(),
        forall|k: int| 0 <= k < sorted.len() ==> (#[trigger] r.0@[k]).start == sorted@[k].0,
        forall|k: int| 0 <= k < sorted.len() ==> sorted@[k].1 <= (#[trigger] r.0@[k]).prefix_max_end,
        forall|k: int|
            0 <= k < sorted.len() ==> 0 <= #[trigger] r.1@[k] <= k && r.0@[k].prefix_max_end
                == sorted@[r.1@[k]].1,
{
    let mut out: Vec<WhitelistRange> = Vec::new();
    let mut prefix_max_end: usize = 0;
    let ghost mut arg: Seq<int> = seq![];
    let n = sorted.len();
    for i in 0..n
        invariant
            n == sorted.len(),
            sorted_keys(sorted@),
            out.len() == i,
            arg.len() == i,
            forall|k: int| 0 <= k < i ==> (#[trigger] out@[k]).start == sorted@[k].0,
            forall|k: int| 0 <= k < i ==> sorted@[k].1 <= (#[trigger] out@[k]).prefix_max_end,
            forall|k: int|
                0 <= k < i ==> 0 <= #[trigger] arg[k] <= k && out@[k].prefix_max_end
                    == sorted@[arg[k]].1,
            forall|a: int, b: int|
                0 <= a <= b < i ==> (#[trigger] out@[a]).prefix_max_end <= (
                #[trigger] out@[b]).prefix_max_end,
            i > 0 ==> prefix_max_end == out@[i - 1].prefix_max_end,
    {
        let (start, end, _) = sorted[i];
        let ghost best = if i > 0 && end <= prefix_max_end {
            arg[i - 1]
        } else {
            i as int
        };
        if i == 0 || end > prefix_max_end {
            prefix_max_end = end;
        }
        out.push(WhitelistRange { start, prefix_max_end });
        proof {
            arg = arg.push(best);
        }
    }
    assert forall|i: int, j: int| 0 <= i <= j < out@.len() implies #[trigger] out@[i].start
        <= #[trigger] out@[j].start && out@[i].prefix_max_end <= out@[j].prefix_max_end by {
        if i < j {
            assert(key_le(sorted@[i], sorted@[j]));
        }
    }
    (out, Ghost(arg))
}

proof fn lemma_prefix_max_sound(
    r: Seq<WhitelistRange>,
    wp: Seq<Seq<u8>>,
    hay: Seq<u8>,
    sorted: Seq<Key>,
    arg: Seq<int>,
)
    requires
        sorted_keys(sorted),
        r.len() == sorted.len(),
        arg.len() == sorted.len(),
        forall|k: int| 0 <= k < sorted.len() ==> (#[trigger] r[k]).start == sorted[k].0,
        forall|k: int|
            0 <= k < sorted.len() ==> 0 <= #[trigger] arg[k] <= k && r[k].prefix_max_end
                == sorted[arg[k]].1,
        forall|k: int|
            0 <= k < sorted.len() ==> occurs_at(
                wp,
                hay,
                (#[trigger] sorted[k]).2 as int,
                sorted[k].0 as int,
                sorted[k].1 as int,
            ),
    ensures
        ranges_sound(r, wp, hay),
{
    reveal(ranges_sound);
    assert forall|i: int| 0 <= i < r.len() implies #[trigger] covered_by_occurrence(wp, hay, r[i]) by {
        let a = arg[i];
        let x = sorted[a];
        assert(occurs_at(wp, hay, x.2 as int, x.0 as int, x.1 as int));
        if a < i {
            assert(key_le(sorted[a], sorted[i]));
        }
        assert(x.0 <= r[i].start);
    }
}

/// Whether one whitelist occurrence contains the normalized range `[s, e)`.
fn is_whitelisted(
    ranges: &Vec<WhitelistRange>,
    s: usize,
    e: usize,
    wp: Ghost<Seq<Seq<u8>>>,
    hay: Ghost<Seq<u8>>,
) -> (r: bool)
    requires
        whitelist_index(ranges@, wp@, hay@),
    ensures
        r == covered(wp@, hay@, s as int, e as int),
{
    let k = ranges_up_to(ranges, s);
    let r = k > 0 && ranges[k - 1].prefix_max_end >= e;
    proof {
        if r {
            lemma_index_sound(ranges@, wp@, hay@, k - 1, s as int, e as int);
        }
        if covered(wp@, hay@, s as int, e as int) {
            lemma_index_complete(ranges@, wp@, hay@, k as int, s as int, e as int);
        }
    }
    r
}

/// Drops the matches that one whitelist occurrence contains.
fn keep_uncovered(
    found: &Vec<Key>,
    ranges: &Vec<WhitelistRange>,
    wp: Ghost<Seq<Seq<u8>>>,
    hay: Ghost<Seq<u8>>,
) -> (r: Vec<Key>)
    requires
        whitelist_index(ranges@, wp@, hay@),
    ensures
        forall|x: Key|
            r@.contains(x) <==> (found@.contains(x) && !covered(wp@, hay@, x.0 as int, x.1 as int)),
{
    let mut out: Vec<Key> = Vec::new();
    let n = found.len();
    for i in 0..n
        invariant
            n == found.len(),
            whitelist_index(ranges@, wp@, hay@),
            forall|x: Key|
                out@.contains(x) <==> (found@.take(i as int).contains(x) && !covered(
                    wp@,
                    hay@,
                    x.0 as int,
                    x.1 as int,
                )),
    {
        let x = found[i];
        assert(found@.take(i + 1) =~= found@.take(i as int).push(x));
        if !is_whitelisted(ranges, x.0, x.1, wp, hay) {
            out.push(x);
        }
    }
    assert(found@.take(n as int) =~= found@);
    out
}

/// The hit's range is a non-empty range of `text`'s bytes between character boundaries.
pub open spec fn hit_in_text(text: Seq<char>, h: Hit) -> bool {
    span_ok(text, Span { start: h.start, end: h.end })
}

/// The smallest range covering a non-empty run of well-placed ranges is well placed.
proof fn lemma_hull_ok(text: Seq<char>, spans: Seq<Span>)
    requires
        spans.len() > 0,
        forall|i: int| 0 <= i < spans.len() ==> span_ok(text, #[trigger] spans[i]),
    ensures
        span_ok(text, span_hull(spans)),
        exists|i: int| 0 <= i < spans.len() && span_hull(spans).start == (#[trigger] spans[i]).start,
        exists|i: int| 0 <= i < spans.len() && span_hull(spans).end == (#[trigger] spans[i]).end,
    decreases spans.len(),
{
    let last = spans.last();
    assert(span_ok(text, spans[spans.len() - 1]));
    if spans.len() == 1 {
        assert(spans.drop_last() =~= Seq::<Span>::empty());
        assert(span_hull(spans.drop_last()) == Span { start: usize::MAX, end: 0 });
        assert(span_hull(spans).start == spans[0].start);
        assert(span_hull(spans).end == spans[0].end);
    } else {
        let prev = spans.drop_last();
        assert forall|i: int| 0 <= i < prev.len() implies span_ok(text, #[trigger] prev[i]) by {
            assert(prev[i] == spans[i]);
        }
        lemma_hull_ok(text, prev);
        let i0 = choose|i: int| 0 <= i < prev.len() && span_hull(prev).start == (#[trigger] prev[i]).start;
        let i1 = choose|i: int| 0 <= i < prev.len() && span_hull(prev).end == (#[trigger] prev[i]).end;
        assert(prev[i0] == spans[i0]);
        assert(prev[i1] == spans[i1]);
        let h = span_hull(spans);
        if h.start == last.start {
            assert(h.start == spans[spans.len() - 1].start);
        } else {
            assert(h.start == spans[i0].start);
        }
        if h.end == last.end {
            assert(h.end == spans[spans.len() - 1].end);
        } else {
            assert(h.end == spans[i1].end);
        }
    }
}

// ---------------------------------------------------------------------------
// Masking.

/// Hit ranges merged in order: a range that starts at or before the end of
/// the previous merged range extends it; otherwise it starts a new one.
pub open spec fn merge_hits(hits: Seq<Hit>) -> Seq<(int, int)>
    decreases hits.len(),
{
    if hits.len() == 0 {
        seq![]
    } else {
        let m = merge_hits(hits.drop_last());
        let h = hits.last();
        if m.len() > 0 && h.start <= m.last().1 {
            m.update(
                m.len() - 1,
                (m.last().0, if m.last().1 >= h.end {
                    m.last().1
                } else {
                    h.end as int
                }),
            )
        } else {
            m.push((h.start as int, h.end as int))
        }
    }
}

/// Where the last range ends (0 when there is none).
pub open spec fn last_end(ranges: Seq<(int, int)>) -> int {
    if ranges.len() == 0 {
        0
    } else {
        ranges.last().1
    }
}

/// The output up to the end of the last range: the source before each range
/// followed by one copy of `rep` in its place.
pub open spec fn replaced_prefix(src: Seq<u8>, ranges: Seq<(int, int)>, rep: Seq<u8>) -> Seq<u8>
    decreases ranges.len(),
{
    if ranges.len() == 0 {
        seq![]
    } else {
        replaced_prefix(src, ranges.drop_last(), rep) + src.subrange(
            last_end(ranges.drop_last()),
            ranges.last().0,
        ) + rep
    }
}

/// `src` with every range replaced by one copy of `rep`.
pub open spec fn masked(src: Seq<u8>, ranges: Seq<(int, int)>, rep: Seq<u8>) -> Seq<u8> {
    replaced_prefix(src, ranges, rep) + src.subrange(last_end(ranges), src.len() as int)
}

/// Ranges are non-empty, lie between character boundaries of `text`, and
/// are strictly apart in increasing order.
pub open spec fn ranges_in_text(text: Seq<char>, r: Seq<(int, int)>) -> bool {
    &&& forall|k: int|
        0 <= k < r.len() ==> {
            &&& 0 <= (#[trigger] r[k]).0 < r[k].1 <= utf8_len(text)
            &&& is_char_boundary(encode_utf8(text), r[k].0)
            &&& is_char_boundary(encode_utf8(text), r[k].1)
        }
    &&& forall|j: int, k: int| 0 <= j < k < r.len() ==> (#[trigger] r[j]).1 < (#[trigger] r[k]).0
}

/// The integer view of byte ranges.
pub open spec fn int_ranges(v: Seq<(usize, usize)>) -> Seq<(int, int)> {
    v.map_values(|p: (usize, usize)| (p.0 as int, p.1 as int))
}

// ---------------------------------------------------------------------------
// The engine.

/// Terms, whitelist and options of one matcher instance.
pub struct Engine {
    terms: Dictionary,
    whitelist: Dictionary,
    options: Options,
    classes: UnicodeClasses,
}

impl Engine {
    #[verifier::type_invariant]
    closed spec fn inv(&self) -> bool {
        self.terms.wf() && self.whitelist.wf()
    }

    /// The normalization options.
    pub closed spec fn options_spec(&self) -> Options {
        self.options
    }

    /// The kept term entries; term `i` has id `i`.
    pub closed spec fn term_originals(&self) -> Seq<Seq<char>> {
        self.terms.originals()
    }

    /// The normalized forms of the kept terms.
    pub closed spec fn term_texts(&self) -> Seq<Seq<char>> {
        self.terms.texts()
    }

    /// The kept whitelist entries.
    pub closed spec fn whitelist_originals(&self) -> Seq<Seq<char>> {
        self.whitelist.originals()
    }

    /// The normalized forms of the kept whitelist entries.
    pub closed spec fn whitelist_texts(&self) -> Seq<Seq<char>> {
        self.whitelist.texts()
    }

    /// The UTF-8 of the normalized text that the automata search.
    pub open spec fn haystack(&self, text: Seq<char>) -> Seq<u8> {
        encode_utf8(normalized_text(text, self.options_spec()))
    }

    /// Term `p` occurs at normalized bytes `[s, e)` of `text` and no single
    /// whitelist occurrence contains that range.
    pub open spec fn is_valid_match(&self, text: Seq<char>, p: int, s: int, e: int) -> bool {
        &&& occurs_at(patterns_of(self.term_texts()), self.haystack(text), p, s, e)
        &&& !covered(patterns_of(self.whitelist_texts()), self.haystack(text), s, e)
    }

    /// The original byte range of the normalized range `[s, e)` matched by term `p`.
    pub open spec fn hit_for(&self, text: Seq<char>, p: int, s: int, e: int) -> Hit {
        let span = span_hull(normalized_spans(text, self.options_spec()).subrange(s, e));
        Hit { term_id: p as usize, start: span.start, end: span.end }
    }

    /// Some valid match exists in `text`.
    pub open spec fn has_valid_match(&self, text: Seq<char>) -> bool {
        exists|p: int, s: int, e: int| #[trigger] self.is_valid_match(text, p, s, e)
    }

    /// `h` is the original range of some valid match.
    pub open spec fn is_hit(&self, text: Seq<char>, h: Hit) -> bool {
        exists|p: int, s: int, e: int|
            #[trigger] self.is_valid_match(text, p, s, e) && h == self.hit_for(text, p, s, e)
    }

    /// `hits` lists every hit of `text` exactly once, ordered by start,
    /// longer ranges first, then by term.
    pub open spec fn is_scan_of(&self, text: Seq<char>, hits: Seq<Hit>) -> bool {
        &&& strictly_sorted_keys(hits.map_values(|h: Hit| hit_key(h)))
        &&& forall|h: Hit| hits.contains(h) <==> self.is_hit(text, h)
    }

    /// Compiles terms and whitelist with the same options.
    pub fn new(terms: Vec<String>, whitelist: Vec<String>, options: Options) -> (r: Result<
        Engine,
        DictionaryError,
    >)
        ensures
            r is Ok <==> dictionary_ok(terms.deep_view(), options) && dictionary_ok(
                whitelist.deep_view(),
                options,
            ),
            !dictionary_ok(terms.deep_view(), options) ==> (r matches Err(e) && is_compile_error(
                e,
                terms.deep_view(),
                options,
            )),
            dictionary_ok(terms.deep_view(), options) && !dictionary_ok(
                whitelist.deep_view(),
                options,
            ) ==> (r matches Err(e) && is_compile_error(e, whitelist.deep_view(), options)),
            r matches Ok(engine) ==> {
                &&& engine.options_spec() == options
                &&& engine.term_originals() == compiled_entries(terms.deep_view(), options).0
                &&& engine.term_texts() == compiled_entries(terms.deep_view(), options).1
                &&& engine.whitelist_originals() == compiled_entries(whitelist.deep_view(), options).0
                &&& engine.whitelist_texts() == compiled_entries(whitelist.deep_view(), options).1
            },
    {
        let classes = UnicodeClasses::new();
        let terms = Dictionary::compile(&terms, &options, &classes)?;
        let whitelist = Dictionary::compile(&whitelist, &options, &classes)?;
        Ok(Engine { terms, whitelist, options, classes })
    }

    /// The normalization options.
    pub fn options(&self) -> (r: Options)
        ensures
            r == self.options_spec(),
    {
        self.options
    }

    /// Indexes the whitelist occurrences in the normalized bytes `hay`.
    pub fn whitelist_ranges(&self, hay: &[u8]) -> (r: Vec<WhitelistRange>)
        ensures
            whitelist_index(r@, patterns_of(self.whitelist_texts()), hay@),
    {
        proof {
            use_type_invariant(self);
        }
        let ghost wp = patterns_of(self.whitelist_texts());
        match &self.whitelist.matcher {
            None => {
                let r: Vec<WhitelistRange> = Vec::new();
                proof {
                    reveal(ranges_sound);
                    reveal(ranges_complete);
                    assert(wp.len() == 0);
                    assert(ranges_sound(r@, wp, hay@));
                    assert(ranges_complete(r@, wp, hay@));
                }
                r
            },
            Some(m) => {
                proof {
                    self.whitelist.lemma_patterns_nonempty();
                }
                let hay_len = hay.len();
                let found = find_overlapping(m, hay);
                let sorted = sort_keys(found);
                let (out, arg) = prefix_max_index(&sorted);
                proof {
                    reveal(ranges_sound);
                    reveal(ranges_complete);
                    assert forall|k: int| 0 <= k < sorted@.len() implies occurs_at(
                        wp,
                        hay@,
                        (#[trigger] sorted@[k]).2 as int,
                        sorted@[k].0 as int,
                        sorted@[k].1 as int,
                    ) by {
                        let x = sorted@[k];
                        assert(sorted@.contains(x));
                        assert(found@.contains(x));
                        let fi = choose|fi: int| 0 <= fi < found@.len() && found@[fi] == x;
                    }
                    lemma_prefix_max_sound(out@, wp, hay@, sorted@, arg@);
                    assert forall|q: int, ws: int, we: int| #[trigger] occurs_at(wp, hay@, q, ws, we) implies exists|i: int|
                        0 <= i < out@.len() && (#[trigger] out@[i]).start == ws && we
                            <= out@[i].prefix_max_end by {
                        let x = (ws as usize, we as usize, q as usize);
                        assert(found@.contains(x));
                        assert(sorted@.contains(x));
                        let k = choose|k: int| 0 <= k < sorted@.len() && sorted@[k] == x;
                        assert(out@[k].start == ws);
                    }
                    assert(ranges_sound(out@, wp, hay@));
                    assert(ranges_complete(out@, wp, hay@));
                }
                out
            },
        }
    }

    /// All term occurrences in `hay` that no single whitelist occurrence
    /// contains, as `(start, end, term id)` in normalized byte offsets.
    pub fn valid_matches(&self, hay: &[u8], ranges: &Vec<WhitelistRange>) -> (r: Vec<Key>)
        requires
            whitelist_index(ranges@, patterns_of(self.whitelist_texts()), hay@),
        ensures
            forall|x: Key|
                r@.contains(x) <==> {
                    &&& occurs_at(patterns_of(self.term_texts()), hay@, x.2 as int, x.0 as int, x.1 as int)
                    &&& !covered(patterns_of(self.whitelist_texts()), hay@, x.0 as int, x.1 as int)
                },
    {
        proof {
            use_type_invariant(self);
        }
        let ghost tp = patterns_of(self.term_texts());
        match &self.terms.matcher {
            None => {
                let r: Vec<Key> = Vec::new();
                assert(tp.len() == 0);
                r
            },
            Some(m) => {
                proof {
                    self.terms.lemma_patterns_nonempty();
                }
                let found = find_overlapping(m, hay);
                let r = keep_uncovered(
                    &found,
                    ranges,
                    Ghost(patterns_of(self.whitelist_texts())),
                    Ghost(hay@),
                );
                assert forall|x: Key| r@.contains(x) <==> {
                    &&& occurs_at(tp, hay@, x.2 as int, x.0 as int, x.1 as int)
                    &&& !covered(patterns_of(self.whitelist_texts()), hay@, x.0 as int, x.1 as int)
                } by {
                    if found@.contains(x) {
                        let k = choose|k: int| 0 <= k < found@.len() && found@[k] == x;
                        assert(occurs_at(tp, hay@, found@[k].2 as int, found@[k].0 as int, found@[k].1 as int));
                    }
                    if occurs_at(tp, hay@, x.2 as int, x.0 as int, x.1 as int) {
                        assert(found@.contains((x.0 as int as usize, x.1 as int as usize, x.2 as int as usize)));
                    }
                }
                r
            },
        }
    }
}


/// How many occurrences of `order` a search that stops at the first one no
/// single whitelist occurrence contains looks at: up to and including that
/// one, or all of them when there is none.
#[verifier::opaque]
pub open spec fn visited_count(order: Seq<Key>, wp: Seq<Seq<u8>>, hay: Seq<u8>) -> nat
    decreases order.len(),
{
    if order.len() == 0 {
        0
    } else if !covered(wp, hay, order[0].0 as int, order[0].1 as int) {
        1
    } else {
        1 + visited_count(order.drop_first(), wp, hay)
    }
}

/// One step of the early-stopping search.
proof fn lemma_visited_step(order: Seq<Key>, wp: Seq<Seq<u8>>, hay: Seq<u8>)
    ensures
        order.len() == 0 ==> visited_count(order, wp, hay) == 0,
        order.len() > 0 && !covered(wp, hay, order[0].0 as int, order[0].1 as int) ==> visited_count(
            order,
            wp,
            hay,
        ) == 1,
        order.len() > 0 && covered(wp, hay, order[0].0 as int, order[0].1 as int) ==> visited_count(
            order,
            wp,
            hay,
        ) == 1 + visited_count(order.drop_first(), wp, hay),
{
    reveal(visited_count);
}

/// `n` counted up to `usize::MAX`.
pub open spec fn saturating_count(n: nat) -> int {
    if n > usize::MAX {
        usize::MAX as int
    } else {
        n as int
    }
}

impl Engine {
    /// The order in which the lazy overlapping search of the term automaton
    /// reports the term occurrences of `hay` (none without terms).
    pub closed spec fn term_search_order(&self, hay: Seq<u8>) -> Seq<Key> {
        match self.terms.matcher {
            Some(m) => overlapping_order(m, hay),
            None => Seq::empty(),
        }
    }

    /// Whether some term occurrence in `hay` is not contained in a single
    /// whitelist occurrence, together with how many term occurrences were
    /// looked at (counted up to `usize::MAX`): the lazy overlapping search
    /// stops at the first such occurrence.
    pub fn has_match(&self, hay: &[u8], ranges: &Vec<WhitelistRange>) -> (r: (bool, usize))
        requires
            whitelist_index(ranges@, patterns_of(self.whitelist_texts()), hay@),
        ensures
            r.0 == exists|p: int, s: int, e: int|
                #[trigger] occurs_at(patterns_of(self.term_texts()), hay@, p, s, e) && !covered(
                    patterns_of(self.whitelist_texts()),
                    hay@,
                    s,
                    e,
                ),
            r.1 == saturating_count(
                visited_count(
                    self.term_search_order(hay@),
                    patterns_of(self.whitelist_texts()),
                    hay@,
                ),
            ),
    {
        proof {
            use_type_invariant(self);
        }
        let ghost tp = patterns_of(self.term_texts());
        let ghost wp = patterns_of(self.whitelist_texts());
        match &self.terms.matcher {
            None => {
                assert(tp.len() == 0);
                proof {
                    lemma_visited_step(self.term_search_order(hay@), wp, hay@);
                }
                (false, 0)
            },
            Some(m) => {
                proof {
                    self.terms.lemma_patterns_nonempty();
                }
                let mut it = overlapping_iter(m, hay);
                let ghost all = overlapping_remaining(it);
                assert(all.skip(0) =~= all);
                assert(self.term_search_order(hay@) == all);
                let ghost mut visited: int = 0;
                let mut count: usize = 0;
                loop
                    invariant
                        0 <= visited <= all.len(),
                        overlapping_remaining(it) == all.skip(visited),
                        count == saturating_count(visited as nat),
                        all == overlapping_order(*m, hay@),
                        all == self.term_search_order(hay@),
                        visited_count(all, wp, hay@) == visited + visited_count(all.skip(visited), wp, hay@),
                        tp == patterns_of(self.term_texts()),
                        wp == patterns_of(self.whitelist_texts()),
                        tp == automaton_patterns(*m),
                        whitelist_index(ranges@, wp, hay@),
                        forall|i: int|
                            0 <= i < all.len() ==> occurs_at(
                                tp,
                                hay@,
                                (#[trigger] all[i]).2 as int,
                                all[i].0 as int,
                                all[i].1 as int,
                            ),
                        forall|p: int, s: int, e: int|
                            #[trigger] occurs_at(tp, hay@, p, s, e) ==> all.contains(
                                (s as usize, e as usize, p as usize),
                            ),
                        forall|i: int|
                            0 <= i < visited ==> covered(wp, hay@, (#[trigger] all[i]).0 as int, all[i].1 as int),
                    decreases all.len() - visited,
                {
                    match overlapping_next(&mut it) {
                        None => {
                            proof {
                                assert(all.skip(visited).len() == 0);
                                assert(all.take(visited) =~= all);
                                assert forall|p: int, s: int, e: int|
                                    #[trigger] occurs_at(tp, hay@, p, s, e) implies covered(wp, hay@, s, e) by {
                                    assert(all.contains((s as usize, e as usize, p as usize)));
                                    let k = choose|k: int| 0 <= k < all.len() && all[k] == (s as usize, e as usize, p as usize);
                                    assert(k < visited);
                                    assert(covered(wp, hay@, all[k].0 as int, all[k].1 as int));
                                    assert(hay@.len() == hay.len());
                                }
                                assert(all.skip(visited) =~= Seq::<Key>::empty());
                                lemma_visited_step(all.skip(visited), wp, hay@);
                            }
                            return (false, count);
                        },
                        Some(x) => {
                            proof {
                                assert(x == all[visited]);
                            }
                            let ghost before = visited;
                            proof {
                                visited = visited + 1;
                                assert(all.skip(before).drop_first() =~= all.skip(visited));
                                assert(all.skip(before)[0] == x);
                            }
                            if count < usize::MAX {
                                count = count + 1;
                            }
                            let whitelisted = is_whitelisted(ranges, x.0, x.1, Ghost(wp), Ghost(hay@));
                            proof {
                                lemma_visited_step(all.skip(before), wp, hay@);
                            }
                            if !whitelisted {
                                proof {
                                    assert(occurs_at(tp, hay@, x.2 as int, x.0 as int, x.1 as int));
                                }
                                return (true, count);
                            }
                        },
                    }
                }
            },
        }
    }
}

/// Searches the UTF-8 bytes of `chars` in batches: each batch holds at least
/// as many new bytes as the longest pattern, and the last (longest pattern
/// length - 1) bytes of a batch are kept in front of the next one, so an
/// occurrence that spans two batches is still seen whole.
fn contains_chars(matcher: &aho_corasick::AhoCorasick, chars: &str) -> (r: bool)
    requires
        automaton_is_standard(*matcher),
        automaton_patterns(*matcher).len() > 0,
        forall|p: int|
            0 <= p < automaton_patterns(*matcher).len() ==> #[trigger] automaton_patterns(
                *matcher,
            )[p].len() > 0,
    ensures
        r == any_occurrence(automaton_patterns(*matcher), encode_utf8(chars@)),
{
    let ghost pats = automaton_patterns(*matcher);
    let bytes = chars.as_bytes();
    let n = bytes.len();
    let max_len = automaton_max_pattern_len(matcher);
    proof {
        lemma_longest_bounds(pats);
        assert(pats[0].len() > 0);
    }
    let overlap = max_len - 1;
    let batch_len = if max_len < 256 { 256 } else { max_len };
    let mut buffer: Vec<u8> = Vec::new();
    let mut pos: usize = 0;
    let ghost mut buf_start: int = 0;
    loop
        invariant
            n == bytes@.len(),
            bytes@ == encode_utf8(chars@),
            pats == automaton_patterns(*matcher),
            automaton_is_standard(*matcher),
            forall|p: int| 0 <= p < pats.len() ==> #[trigger] pats[p].len() > 0,
            forall|p: int| 0 <= p < pats.len() ==> #[trigger] pats[p].len() <= max_len,
            overlap + 1 == max_len,
            batch_len >= max_len,
            0 <= buf_start <= pos <= n,
            buffer@ == bytes@.subrange(buf_start, pos as int),
            buf_start == 0 || buf_start + overlap <= pos,
            forall|p: int, s: int, e: int| #[trigger] occurs_at(pats, bytes@, p, s, e) ==> e > pos,
        decreases n - pos,
    {
        let prev_len = buffer.len();
        let stop = if n - pos < batch_len { n } else { pos + batch_len };
        let ghost old_pos = pos;
        while pos < stop
            invariant
                n == bytes@.len(),
                old_pos <= pos <= stop <= n,
                0 <= buf_start <= old_pos,
                buffer@ == bytes@.subrange(buf_start, pos as int),
            decreases stop - pos,
        {
            buffer.push(bytes[pos]);
            pos = pos + 1;
            assert(buffer@ =~= bytes@.subrange(buf_start, pos as int));
        }
        if buffer.len() == prev_len {
            proof {
                assert(pos == n);
                if any_occurrence(pats, bytes@) {
                    let (p, s, e) = choose|p: int, s: int, e: int| #[trigger] occurs_at(pats, bytes@, p, s, e);
                    assert(e <= n);
                }
            }
            return false;
        }
        let found = automaton_is_match(matcher, buffer.as_slice());
        if found {
            proof {
                let (p, s, e) = choose|p: int, s: int, e: int| #[trigger] occurs_at(pats, buffer@, p, s, e);
                assert(bytes@.subrange(s + buf_start, e + buf_start) =~= buffer@.subrange(s, e));
                assert(occurs_at(pats, bytes@, p, s + buf_start, e + buf_start));
            }
            return true;
        }
        proof {
            assert forall|p: int, s: int, e: int| #[trigger] occurs_at(pats, bytes@, p, s, e) implies e > pos by {
                if e <= pos {
                    assert(e > old_pos);
                    assert(pats[p].len() <= max_len);
                    assert(s >= buf_start);
                    assert(buffer@.subrange(s - buf_start, e - buf_start) =~= bytes@.subrange(s, e));
                    assert(occurs_at(pats, buffer@, p, s - buf_start, e - buf_start));
                }
            }
        }
        let retained = if overlap < buffer.len() { overlap } else { buffer.len() };
        let start = buffer.len() - retained;
        let mut kept: Vec<u8> = Vec::new();
        let mut k = start;
        while k < buffer.len()
            invariant
                start <= k <= buffer.len(),
                kept@ == buffer@.subrange(start as int, k as int),
            decreases buffer.len() - k,
        {
            kept.push(buffer[k]);
            k = k + 1;
            assert(kept@ =~= buffer@.subrange(start as int, k as int));
        }
        proof {
            buf_start = buf_start + start;
            assert(kept@ =~= bytes@.subrange(buf_start, pos as int));
        }
        buffer = kept;
    }
}

impl Engine {
    /// Whether `text` holds a term match that no single whitelist match contains.
    pub fn contains(&self, text: &str) -> (r: bool)
        ensures
            r == self.has_valid_match(text@),
    {
        proof {
            use_type_invariant(self);
        }
        let ghost tp = patterns_of(self.term_texts());
        let ghost wp = patterns_of(self.whitelist_texts());
        match &self.terms.matcher {
            None => {
                assert(tp.len() == 0);
                assert(!self.has_valid_match(text@));
                false
            },
            Some(m) => {
                proof {
                    self.terms.lemma_patterns_nonempty();
                }
                let normalized = normalize(text, &self.options, &self.classes);
                let hay = normalized.text.as_str().as_bytes();
                assert(hay@ == self.haystack(text@));
                match &self.whitelist.matcher {
                    None => {
                        let found = contains_chars(m, normalized.text.as_str());
                        proof {
                            assert(wp.len() == 0);
                            if found {
                                let (p, s, e) = choose|p: int, s: int, e: int|
                                    #[trigger] occurs_at(tp, hay@, p, s, e);
                                assert(!covered(wp, hay@, s, e));
                                assert(self.is_valid_match(text@, p, s, e));
                            }
                            if self.has_valid_match(text@) {
                                let (p, s, e) = choose|p: int, s: int, e: int|
                                    #[trigger] self.is_valid_match(text@, p, s, e);
                                assert(occurs_at(tp, hay@, p, s, e));
                            }
                        }
                        found
                    },
                    Some(_) => {
                        let ranges = self.whitelist_ranges(hay);
                        let (found, _) = self.has_match(hay, &ranges);
                        proof {
                            if found {
                                let (p, s, e) = choose|p: int, s: int, e: int|
                                    #[trigger] occurs_at(tp, hay@, p, s, e) && !covered(wp, hay@, s, e);
                                assert(self.is_valid_match(text@, p, s, e));
                            }
                            if self.has_valid_match(text@) {
                                let (p, s, e) = choose|p: int, s: int, e: int|
                                    #[trigger] self.is_valid_match(text@, p, s, e);
                                assert(occurs_at(tp, hay@, p, s, e) && !covered(wp, hay@, s, e));
                            }
                        }
                        found
                    },
                }
            },
        }
    }

    /// All valid matches of `text` as original byte ranges, each distinct
    /// (term, range) once, ordered by start, longer first, then by term.
    pub fn scan(&self, text: &str) -> (r: Vec<Hit>)
        ensures
            self.is_scan_of(text@, r@),
            forall|i: int| 0 <= i < r.len() ==> hit_in_text(text@, #[trigger] r@[i]),
            forall|i: int| 0 <= i < r.len() ==> (#[trigger] r@[i]).term_id < self.term_originals().len(),
    {
        proof {
            use_type_invariant(self);
            self.terms.lemma_patterns_nonempty();
        }
        let ghost tp = patterns_of(self.term_texts());
        let ghost wp = patterns_of(self.whitelist_texts());
        let normalized = normalize(text, &self.options, &self.classes);
        let hay = normalized.text.as_str().as_bytes();
        let hay_len = hay.len();
        assert(hay@ == self.haystack(text@));
        let ranges = self.whitelist_ranges(hay);
        let matches = self.valid_matches(hay, &ranges);
        let mut keys: Vec<Key> = Vec::new();
        let n = matches.len();
        for i in 0..n
            invariant
                n == matches.len(),
                hay@ == self.haystack(text@),
                hay_len == hay@.len(),
                normalized.spans@ == normalized_spans(text@, self.options_spec()),
                normalized.spans@.len() == hay@.len(),
                forall|j: int|
                    0 <= j < normalized.spans@.len() ==> span_ok(text@, #[trigger] normalized.spans@[j]),
                forall|p: int| 0 <= p < tp.len() ==> #[trigger] tp[p].len() > 0,
                tp == patterns_of(self.term_texts()),
                wp == patterns_of(self.whitelist_texts()),
                forall|x: Key|
                    matches@.contains(x) <==> {
                        &&& occurs_at(tp, hay@, x.2 as int, x.0 as int, x.1 as int)
                        &&& !covered(wp, hay@, x.0 as int, x.1 as int)
                    },
                forall|y: Key|
                    keys@.contains(y) <==> exists|k: int|
                        0 <= k < i && y == hit_key(
                            self.hit_for(
                                text@,
                                (#[trigger] matches@[k]).2 as int,
                                matches@[k].0 as int,
                                matches@[k].1 as int,
                            ),
                        ),
                forall|j: int| 0 <= j < keys.len() ==> hit_in_text(text@, key_hit(#[trigger] keys@[j])),
                forall|j: int| 0 <= j < keys.len() ==> (#[trigger] keys@[j]).2 < tp.len(),
        {
            let x = matches[i];
            assert(matches@.contains(x));
            let (s, e, p) = x;
            proof {
                assert(tp[p as int].len() > 0);
                assert(hay@.subrange(s as int, e as int).len() == tp[p as int].len());
            }
            let span = normalized.source_span(s, e);
            proof {
                let run = normalized.spans@.subrange(s as int, e as int);
                assert forall|j: int| 0 <= j < run.len() implies span_ok(text@, #[trigger] run[j]) by {
                    assert(run[j] == normalized.spans@[s + j]);
                }
                lemma_hull_ok(text@, run);
            }
            let ghost prev = keys@;
            keys.push((span.start, span.end, p));
            proof {
                assert forall|y: Key| keys@.contains(y) <==> exists|k: int|
                    0 <= k < i + 1 && y == hit_key(
                        self.hit_for(
                            text@,
                            (#[trigger] matches@[k]).2 as int,
                            matches@[k].0 as int,
                            matches@[k].1 as int,
                        ),
                    ) by {
                    if y == (span.start, span.end, p) {
                        assert(y == hit_key(
                            self.hit_for(
                                text@,
                                matches@[i as int].2 as int,
                                matches@[i as int].0 as int,
                                matches@[i as int].1 as int,
                            ),
                        ));
                    }
                    if prev.contains(y) {
                        assert(keys@.contains(y));
                    }
                }
            }
        }
        let sorted = sort_keys(keys);
        let unique = dedup_sorted(&sorted);
        let mut hits: Vec<Hit> = Vec::new();
        let m = unique.len();
        for i in 0..m
            invariant
                m == unique.len(),
                hits@ == unique@.take(i as int).map_values(|k: Key| key_hit(k)),
        {
            let k = unique[i];
            hits.push(Hit { term_id: k.2, start: k.0, end: k.1 });
            assert(unique@.take(i + 1).map_values(|k: Key| key_hit(k)) =~= unique@.take(
                i as int,
            ).map_values(|k: Key| key_hit(k)).push(key_hit(k)));
        }
        assert(unique@.take(m as int) =~= unique@);
        proof {
            assert(hits@.map_values(|h: Hit| hit_key(h)) =~= unique@);
            assert forall|h: Hit| hits@.contains(h) <==> self.is_hit(text@, h) by {
                if hits@.contains(h) {
                    let j = choose|j: int| 0 <= j < hits@.len() && hits@[j] == h;
                    assert(unique@[j] == hit_key(h));
                    assert(unique@.contains(hit_key(h)));
                    assert(keys@.contains(hit_key(h)));
                    let k = choose|k: int|
                        0 <= k < n && hit_key(h) == hit_key(
                            self.hit_for(
                                text@,
                                (#[trigger] matches@[k]).2 as int,
                                matches@[k].0 as int,
                                matches@[k].1 as int,
                            ),
                        );
                    let x = matches@[k];
                    assert(matches@.contains(x));
                    assert(self.is_valid_match(text@, x.2 as int, x.0 as int, x.1 as int));
                }
                if self.is_hit(text@, h) {
                    let (p, s, e) = choose|p: int, s: int, e: int|
                        #[trigger] self.is_valid_match(text@, p, s, e) && h == self.hit_for(
                            text@,
                            p,
                            s,
                            e,
                        );
                    let x = (s as usize, e as usize, p as usize);
                    assert(matches@.contains(x));
                    let k = choose|k: int| 0 <= k < matches@.len() && matches@[k] == x;
                    assert(keys@.contains(hit_key(h)));
                    assert(sorted@.contains(hit_key(h)));
                    assert(unique@.contains(hit_key(h)));
                    let j = choose|j: int| 0 <= j < unique@.len() && unique@[j] == hit_key(h);
                    assert(hits@[j] == h);
                }
            }
            assert forall|i: int| 0 <= i < hits.len() implies hit_in_text(text@, #[trigger] hits@[i])
                && hits@[i].term_id < self.term_originals().len() by {
                assert(unique@.contains(unique@[i]));
                assert(sorted@.contains(unique@[i]));
                assert(keys@.contains(unique@[i]));
                let j = choose|j: int| 0 <= j < keys@.len() && keys@[j] == unique@[i];
                assert(hit_in_text(text@, key_hit(keys@[j])));
            }
        }
        hits
    }

    /// The original entry of a kept term.
    pub fn term(&self, term_id: usize) -> (r: &str)
        requires
            term_id < self.term_originals().len(),
        ensures
            r@ == self.term_originals()[term_id as int],
    {
        proof {
            use_type_invariant(self);
        }
        self.terms.originals[term_id].as_str()
    }

    /// Compiles a new term dictionary and, only on success, replaces the current one.
    pub fn replace_terms(&mut self, terms: Vec<String>) -> (r: Result<(), DictionaryError>)
        ensures
            r is Ok <==> dictionary_ok(terms.deep_view(), old(self).options_spec()),
            r matches Err(e) ==> is_compile_error(e, terms.deep_view(), old(self).options_spec()),
            final(self).options_spec() == old(self).options_spec(),
            final(self).whitelist_originals() == old(self).whitelist_originals(),
            final(self).whitelist_texts() == old(self).whitelist_texts(),
            r is Ok ==> final(self).term_originals() == compiled_entries(
                terms.deep_view(),
                old(self).options_spec(),
            ).0 && final(self).term_texts() == compiled_entries(
                terms.deep_view(),
                old(self).options_spec(),
            ).1,
            r is Err ==> final(self).term_originals() == old(self).term_originals()
                && final(self).term_texts() == old(self).term_texts(),
    {
        proof {
            use_type_invariant(&*self);
        }
        let replacement = Dictionary::compile(&terms, &self.options, &self.classes)?;
        self.terms = replacement;
        Ok(())
    }

    /// Compiles a new whitelist and, only on success, replaces the current one.
    pub fn replace_whitelist(&mut self, whitelist: Vec<String>) -> (r: Result<(), DictionaryError>)
        ensures
            r is Ok <==> dictionary_ok(whitelist.deep_view(), old(self).options_spec()),
            r matches Err(e) ==> is_compile_error(e, whitelist.deep_view(), old(self).options_spec()),
            final(self).options_spec() == old(self).options_spec(),
            final(self).term_originals() == old(self).term_originals(),
            final(self).term_texts() == old(self).term_texts(),
            r is Ok ==> final(self).whitelist_originals() == compiled_entries(
                whitelist.deep_view(),
                old(self).options_spec(),
            ).0 && final(self).whitelist_texts() == compiled_entries(
                whitelist.deep_view(),
                old(self).options_spec(),
            ).1,
            r is Err ==> final(self).whitelist_originals() == old(self).whitelist_originals()
                && final(self).whitelist_texts() == old(self).whitelist_texts(),
    {
        proof {
            use_type_invariant(&*self);
        }
        let replacement = Dictionary::compile(&whitelist, &self.options, &self.classes)?;
        self.whitelist = replacement;
        Ok(())
    }
}


impl Engine {
    /// Replaces every merged run of overlapping or adjacent hits of `text`
    /// by one copy of `replacement`; the rest of `text` is kept byte for byte.
    pub fn mask(&self, text: &str, replacement: &str) -> (r: String)
        ensures
            exists|hits: Seq<Hit>|
                #[trigger] self.is_scan_of(text@, hits) && encode_utf8(r@) == masked(
                    encode_utf8(text@),
                    merge_hits(hits),
                    encode_utf8(replacement@),
                ),
    {
        let hits = self.scan(text);
        let ghost src = encode_utf8(text@);
        let len = text.as_bytes().len();
        assert(len == src.len());
        proof {
            encode_utf8_valid_utf8(text@);
            is_char_boundary_start_end_of_seq(src);
        }
        let mut ranges: Vec<(usize, usize)> = Vec::new();
        let n = hits.len();
        assert(hits@.take(0) =~= Seq::<Hit>::empty());
        for i in 0..n
            invariant
                n == hits.len(),
                strictly_sorted_keys(hits@.map_values(|h: Hit| hit_key(h))),
                forall|j: int| 0 <= j < hits.len() ==> hit_in_text(text@, #[trigger] hits@[j]),
                int_ranges(ranges@) == merge_hits(hits@.take(i as int)),
                ranges_in_text(text@, int_ranges(ranges@)),
                i > 0 ==> ranges.len() > 0 && ranges@.last().0 <= hits@[i - 1].start,
                i == 0 ==> ranges.len() == 0,
        {
            let h = hits[i];
            assert(hit_in_text(text@, hits@[i as int]));
            proof {
                if i > 0 {
                    let keys = hits@.map_values(|h: Hit| hit_key(h));
                    assert(key_lt(keys[i - 1], keys[i as int]));
                }
            }
            assert(hits@.take(i + 1).drop_last() =~= hits@.take(i as int));
            let ghost prev = ranges@;
            let count = ranges.len();
            if count > 0 && h.start <= ranges[count - 1].1 {
                let (a, b) = ranges[count - 1];
                let nb = if b >= h.end {
                    b
                } else {
                    h.end
                };
                ranges.set(count - 1, (a, nb));
                proof {
                    assert(int_ranges(ranges@) =~= int_ranges(prev).update(
                        count - 1,
                        (a as int, nb as int),
                    ));
                    let r = int_ranges(ranges@);
                    assert forall|j: int, k: int| 0 <= j < k < r.len() implies (#[trigger] r[j]).1
                        < (#[trigger] r[k]).0 by {
                        assert(int_ranges(prev)[j].1 < int_ranges(prev)[k].0);
                    }
                    assert forall|k: int| 0 <= k < r.len() implies {
                        &&& 0 <= (#[trigger] r[k]).0 < r[k].1 <= utf8_len(text@)
                        &&& is_char_boundary(encode_utf8(text@), r[k].0)
                        &&& is_char_boundary(encode_utf8(text@), r[k].1)
                    } by {
                        assert(int_ranges(prev)[k].0 < int_ranges(prev)[k].1);
                    }
                }
            } else {
                ranges.push((h.start, h.end));
                proof {
                    assert(int_ranges(ranges@) =~= int_ranges(prev).push(
                        (h.start as int, h.end as int),
                    ));
                    let r = int_ranges(ranges@);
                    assert forall|j: int, k: int| 0 <= j < k < r.len() implies (#[trigger] r[j]).1
                        < (#[trigger] r[k]).0 by {
                        if k == r.len() - 1 && j < k {
                            assert(int_ranges(prev)[j].1 <= int_ranges(prev).last().1);
                        } else {
                            assert(int_ranges(prev)[j].1 < int_ranges(prev)[k].0);
                        }
                    }
                    assert forall|k: int| 0 <= k < r.len() implies {
                        &&& 0 <= (#[trigger] r[k]).0 < r[k].1 <= utf8_len(text@)
                        &&& is_char_boundary(encode_utf8(text@), r[k].0)
                        &&& is_char_boundary(encode_utf8(text@), r[k].1)
                    } by {
                        if k < prev.len() {
                            assert(r[k] == int_ranges(prev)[k]);
                        }
                    }
                }
            }
        }
        assert(hits@.take(n as int) =~= hits@);
        let ghost rv = int_ranges(ranges@);
        let ghost rep = encode_utf8(replacement@);
        let mut out = String::new();
        let mut copied: usize = 0;
        let m = ranges.len();
        assert(rv.take(0) =~= Seq::<(int, int)>::empty());
        assert(encode_utf8(out@) =~= replaced_prefix(src, rv.take(0), rep));
        for k in 0..m
            invariant
                m == ranges.len(),
                rv == int_ranges(ranges@),
                src == encode_utf8(text@),
                len == src.len(),
                rep == encode_utf8(replacement@),
                ranges_in_text(text@, rv),
                encode_utf8(out@) == replaced_prefix(src, rv.take(k as int), rep),
                copied == last_end(rv.take(k as int)),
                copied <= len,
                is_char_boundary(src, copied as int),
                k < m ==> copied <= rv[k as int].0,
        {
            let (a, b) = ranges[k];
            assert(rv[k as int] == (a as int, b as int));
            let piece = slice_str(text, copied, a);
            let ghost before = out@;
            out.append(piece);
            out.append(replacement);
            proof {
                lemma_encode_utf8_concat(before, piece@);
                lemma_encode_utf8_concat(before + piece@, replacement@);
                assert(rv.take(k + 1).drop_last() =~= rv.take(k as int));
                assert(out@ =~= before + piece@ + replacement@);
                if k + 1 < m {
                    assert(rv[k as int].1 < rv[k + 1].0);
                }
            }
            copied = b;
        }
        assert(rv.take(m as int) =~= rv);
        let tail = slice_str(text, copied, len);
        let ghost before = out@;
        out.append(tail);
        proof {
            lemma_encode_utf8_concat(before, tail@);
            assert(self.is_scan_of(text@, hits@));
        }
        out
    }
}

} // verus!
