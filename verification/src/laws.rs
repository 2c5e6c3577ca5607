//! Properties of the library as a whole: how `contains`, `scan` and `mask`
//! relate, what the scan order is, what compilation keeps, how results
//! depend on the configuration, and what the whitelist and the default
//! options do.

use crate::automaton::occurs_at;
use crate::engine::{
    compiled_entries, covered, dictionary_ok, first_empty_entry, hit_in_text, hit_key, masked,
    merge_hits, patterns_of, Engine, Hit,
};
use crate::normalize::{
    decompose_tags, keep_tags, keeps_char, lowercase_all, lowercase_tags, nfkc_tags, normalized_tags,
    normalized_text, retag, tag_chars, tag_graphemes, Options, Span, TaggedChar,
};
use crate::unicode::{
    ascii_punctuation, ascii_symbol, compat_decomposition, grapheme_clusters, lowercase_chars,
    punctuation_pattern, regex_finds, symbol_pattern,
};
use crate::order::{key_lt, strictly_sorted_keys, Key};
use crate::php::{
    built_config, config_of, default_options, dictionary_error, dictionary_texts, dictionary_value_error,
    dictionary_values, option_entries, parsed_options, value_text, with_terms, with_whitelist,
    ArrayKey, DictionaryInput, Matcher, OptionsInput, PhpErrorKind, ZvalInput,
};
use vstd::utf8::{decode_utf8, valid_utf8};
use vstd::prelude::*;

verus! {

broadcast use vstd::seq_lib::group_seq_properties, vstd::seq::group_seq_axioms;

/// `contains` agrees with `scan`: a text contains a valid match exactly
/// when its scan is not empty.
pub proof fn lemma_contains_iff_scan_nonempty(engine: Engine, text: Seq<char>, hits: Seq<Hit>)
    requires
        engine.is_scan_of(text, hits),
    ensures
        hits.len() > 0 <==> engine.has_valid_match(text),
{
    if hits.len() > 0 {
        assert(hits.contains(hits[0]));
        assert(engine.is_hit(text, hits[0]));
    }
    if engine.has_valid_match(text) {
        let (p, s, e) = choose|p: int, s: int, e: int| #[trigger] engine.is_valid_match(text, p, s, e);
        let h = engine.hit_for(text, p, s, e);
        assert(engine.is_hit(text, h));
        assert(hits.contains(h));
    }
}

/// Hit keys are distinct exactly when hits are.
proof fn lemma_hit_key_injective(a: Hit, b: Hit)
    ensures
        hit_key(a) == hit_key(b) <==> a == b,
{
}

/// Two strictly ordered key sequences with the same elements are equal.
proof fn lemma_strictly_sorted_unique(a: Seq<Key>, b: Seq<Key>)
    requires
        strictly_sorted_keys(a),
        strictly_sorted_keys(b),
        forall|k: Key| a.contains(k) <==> b.contains(k),
    ensures
        a == b,
    decreases a.len(),
{
    if a.len() == 0 {
        if b.len() > 0 {
            assert(b.contains(b[0]));
        }
        assert(a =~= b);
    } else {
        assert(a.contains(a[0]));
        assert(b.len() > 0);
        assert(b.contains(b[0]));
        let ia = choose|i: int| 0 <= i < a.len() && a[i] == b[0];
        let ib = choose|i: int| 0 <= i < b.len() && b[i] == a[0];
        if ia > 0 {
            assert(key_lt(a[0], a[ia]));
            if ib > 0 {
                assert(key_lt(b[0], b[ib]));
            }
        }
        assert(a[0] == b[0]);
        let ra = a.drop_first();
        let rb = b.drop_first();
        assert forall|i: int, j: int| 0 <= i < j < ra.len() implies key_lt(
            #[trigger] ra[i],
            #[trigger] ra[j],
        ) by {
            assert(ra[i] == a[i + 1] && ra[j] == a[j + 1]);
        }
        assert forall|i: int, j: int| 0 <= i < j < rb.len() implies key_lt(
            #[trigger] rb[i],
            #[trigger] rb[j],
        ) by {
            assert(rb[i] == b[i + 1] && rb[j] == b[j + 1]);
        }
        assert forall|k: Key| ra.contains(k) <==> rb.contains(k) by {
            if ra.contains(k) {
                let i = choose|i: int| 0 <= i < ra.len() && ra[i] == k;
                assert(a[i + 1] == k);
                assert(key_lt(a[0], a[i + 1]));
                assert(a.contains(k));
                let j = choose|j: int| 0 <= j < b.len() && b[j] == k;
                assert(j != 0);
                assert(rb[j - 1] == k);
            }
            if rb.contains(k) {
                let i = choose|i: int| 0 <= i < rb.len() && rb[i] == k;
                assert(b[i + 1] == k);
                assert(key_lt(b[0], b[i + 1]));
                assert(b.contains(k));
                let j = choose|j: int| 0 <= j < a.len() && a[j] == k;
                assert(j != 0);
                assert(ra[j - 1] == k);
            }
        }
        lemma_strictly_sorted_unique(ra, rb);
        assert(a =~= seq![a[0]] + ra);
        assert(b =~= seq![b[0]] + rb);
    }
}

/// A scan is determined by the engine and the text: two scans of the same
/// text are the same sequence of hits.
pub proof fn lemma_scan_is_unique(engine: Engine, text: Seq<char>, a: Seq<Hit>, b: Seq<Hit>)
    requires
        engine.is_scan_of(text, a),
        engine.is_scan_of(text, b),
    ensures
        a == b,
{
    let ka = a.map_values(|h: Hit| hit_key(h));
    let kb = b.map_values(|h: Hit| hit_key(h));
    assert forall|k: Key| ka.contains(k) <==> kb.contains(k) by {
        if ka.contains(k) {
            let i = choose|i: int| 0 <= i < ka.len() && ka[i] == k;
            assert(a.contains(a[i]));
            assert(b.contains(a[i]));
            let j = choose|j: int| 0 <= j < b.len() && b[j] == a[i];
            assert(kb[j] == k);
        }
        if kb.contains(k) {
            let i = choose|i: int| 0 <= i < kb.len() && kb[i] == k;
            assert(b.contains(b[i]));
            assert(a.contains(b[i]));
            let j = choose|j: int| 0 <= j < a.len() && a[j] == b[i];
            assert(ka[j] == k);
        }
    }
    lemma_strictly_sorted_unique(ka, kb);
    assert(ka.len() == kb.len());
    assert forall|i: int| 0 <= i < a.len() implies a[i] == b[i] by {
        assert(ka[i] == hit_key(a[i]));
        assert(kb[i] == hit_key(b[i]));
        assert(ka[i] == kb[i]);
        lemma_hit_key_injective(a[i], b[i]);
    }
    assert(a =~= b);
}

/// Scan order: by start ascending; at the same start the longer range
/// first; for the same range by term order; no hit twice.
pub proof fn lemma_scan_order(engine: Engine, text: Seq<char>, hits: Seq<Hit>, i: int, j: int)
    requires
        engine.is_scan_of(text, hits),
        0 <= i < j < hits.len(),
    ensures
        hits[i].start <= hits[j].start,
        hits[i].start == hits[j].start ==> hits[i].end >= hits[j].end,
        hits[i].start == hits[j].start && hits[i].end == hits[j].end ==> hits[i].term_id
            < hits[j].term_id,
        hits[i] != hits[j],
{
    let keys = hits.map_values(|h: Hit| hit_key(h));
    assert(key_lt(keys[i], keys[j]));
}

/// With no terms there is nothing to find.
pub proof fn lemma_no_terms_no_match(engine: Engine, text: Seq<char>)
    requires
        engine.term_texts().len() == 0,
    ensures
        !engine.has_valid_match(text),
{
    assert(patterns_of(engine.term_texts()).len() == 0);
    assert forall|p: int, s: int, e: int| !#[trigger] engine.is_valid_match(text, p, s, e) by {
        assert(!occurs_at(patterns_of(engine.term_texts()), engine.haystack(text), p, s, e));
    }
}

/// `entries[i]` is the first entry whose normalized form is `t`.
pub open spec fn first_with_text(entries: Seq<Seq<char>>, o: Options, i: int, t: Seq<char>) -> bool {
    &&& 0 <= i < entries.len()
    &&& normalized_text(entries[i], o) == t
    &&& forall|j: int| 0 <= j < i ==> normalized_text(#[trigger] entries[j], o) != t
}

/// Kept entry `k` is the first entry with its normalized form.
pub open spec fn kept_first(entries: Seq<Seq<char>>, o: Options, k: int) -> bool {
    let (originals, texts) = compiled_entries(entries, o);
    exists|i: int| #[trigger] first_with_text(entries, o, i, texts[k]) && entries[i] == originals[k]
}

/// Each kept entry is the first of its normalized form.
proof fn lemma_kept_first(entries: Seq<Seq<char>>, o: Options, k: int)
    requires
        0 <= k < compiled_entries(entries, o).1.len(),
    ensures
        kept_first(entries, o, k),
    decreases entries.len(),
{
    lemma_compiled_shape(entries, o);
    let prev = entries.drop_last();
    lemma_compiled_shape(prev, o);
    let (po, pt) = compiled_entries(prev, o);
    let (originals, texts) = compiled_entries(entries, o);
    let n = entries.len() - 1;
    if k < pt.len() {
        lemma_kept_first(prev, o, k);
        let i = choose|i: int| #[trigger] first_with_text(prev, o, i, pt[k]) && prev[i] == po[k];
        assert forall|j: int| 0 <= j < i implies normalized_text(#[trigger] entries[j], o) != pt[k] by {
            assert(entries[j] == prev[j]);
        }
        assert(first_with_text(entries, o, i, texts[k]));
    } else {
        assert(!pt.contains(normalized_text(entries[n], o)));
        assert forall|j: int| 0 <= j < n implies normalized_text(#[trigger] entries[j], o) != texts[k] by {
            assert(entries[j] == prev[j]);
            assert(pt.contains(normalized_text(prev[j], o)));
        }
        assert(first_with_text(entries, o, n, texts[k]));
    }
}

/// The kept forms are the normalized kept originals, distinct, and cover
/// every entry.
proof fn lemma_compiled_shape(entries: Seq<Seq<char>>, o: Options)
    ensures
        ({
            let (originals, texts) = compiled_entries(entries, o);
            &&& originals.len() == texts.len()
            &&& forall|k: int|
                0 <= k < texts.len() ==> (#[trigger] texts[k]) == normalized_text(originals[k], o)
            &&& forall|k: int, l: int|
                0 <= k < l < texts.len() ==> (#[trigger] texts[k]) != (#[trigger] texts[l])
            &&& forall|i: int|
                0 <= i < entries.len() ==> texts.contains(normalized_text(#[trigger] entries[i], o))
        }),
    decreases entries.len(),
{
    if entries.len() > 0 {
        let prev = entries.drop_last();
        lemma_compiled_shape(prev, o);
        let (po, pt) = compiled_entries(prev, o);
        let (originals, texts) = compiled_entries(entries, o);
        let t = normalized_text(entries.last(), o);
        let n = entries.len() - 1;
        assert forall|i: int| 0 <= i < n implies pt.contains(normalized_text(#[trigger] entries[i], o)) by {
            assert(entries[i] == prev[i]);
            assert(pt.contains(normalized_text(prev[i], o)));
        }
        if !pt.contains(t) {
            assert(texts[pt.len() as int] == t);
            assert forall|k: int, l: int| 0 <= k < l < texts.len() implies (#[trigger] texts[k])
                != (#[trigger] texts[l]) by {
                if l == pt.len() {
                    assert(pt[k] == texts[k]);
                    assert(pt.contains(pt[k]));
                }
            }
        }
        assert(texts.contains(normalized_text(entries[n], o)));
    }
}

/// Compilation keeps, in order, the first entry of each normalized form:
/// the kept forms are the normalized kept originals, they are distinct,
/// every entry's form is kept, and each kept original is the first entry
/// with its form.
pub proof fn lemma_compiled_keeps_first(entries: Seq<Seq<char>>, o: Options)
    ensures
        ({
            let (originals, texts) = compiled_entries(entries, o);
            &&& originals.len() == texts.len()
            &&& forall|k: int|
                0 <= k < texts.len() ==> (#[trigger] texts[k]) == normalized_text(originals[k], o)
            &&& forall|k: int, l: int|
                0 <= k < l < texts.len() ==> (#[trigger] texts[k]) != (#[trigger] texts[l])
            &&& forall|i: int|
                0 <= i < entries.len() ==> texts.contains(normalized_text(#[trigger] entries[i], o))
            &&& forall|k: int| 0 <= k < texts.len() ==> #[trigger] kept_first(entries, o, k)
        }),
{
    lemma_compiled_shape(entries, o);
    assert forall|k: int| 0 <= k < compiled_entries(entries, o).1.len() implies #[trigger] kept_first(
        entries,
        o,
        k,
    ) by {
        lemma_kept_first(entries, o, k);
    }
}

/// Some range of `m` contains the range of `h`.
#[verifier::opaque]
pub open spec fn within_some(m: Seq<(int, int)>, h: Hit) -> bool {
    exists|k: int| 0 <= k < m.len() && (#[trigger] m[k]).0 <= h.start && h.end <= m[k].1
}

/// Some hit starts at `x`.
#[verifier::opaque]
pub open spec fn starts_some(hits: Seq<Hit>, x: int) -> bool {
    exists|i: int| 0 <= i < hits.len() && (#[trigger] hits[i]).start == x
}

/// Some hit ends at `x`.
#[verifier::opaque]
pub open spec fn ends_some(hits: Seq<Hit>, x: int) -> bool {
    exists|i: int| 0 <= i < hits.len() && (#[trigger] hits[i]).end == x
}

/// Hits are non-empty ranges in start order.
pub open spec fn hits_in_start_order(hits: Seq<Hit>) -> bool {
    &&& forall|i: int| 0 <= i < hits.len() ==> (#[trigger] hits[i]).start < hits[i].end
    &&& forall|i: int, j: int|
        0 <= i < j < hits.len() ==> (#[trigger] hits[i]).start <= (#[trigger] hits[j]).start
}

/// `m` is a merge of `hits`: its ranges are non-empty, strictly apart
/// (neither overlapping nor touching) and in order; every hit lies inside
/// one of them; and each starts at the start of a hit and ends at the end
/// of a hit.
pub open spec fn merged_ok(hits: Seq<Hit>, m: Seq<(int, int)>) -> bool {
    &&& forall|k: int| 0 <= k < m.len() ==> (#[trigger] m[k]).0 < m[k].1
    &&& forall|j: int, k: int| 0 <= j < k < m.len() ==> (#[trigger] m[j]).1 < (#[trigger] m[k]).0
    &&& forall|i: int| 0 <= i < hits.len() ==> within_some(m, #[trigger] hits[i])
    &&& forall|k: int| 0 <= k < m.len() ==> starts_some(hits, (#[trigger] m[k]).0)
    &&& forall|k: int| 0 <= k < m.len() ==> ends_some(hits, (#[trigger] m[k]).1)
}

/// Masking merges overlapping or adjacent hits: for hits in start order,
/// the merged ranges are non-empty, strictly apart and in order, cover
/// every hit, and start and end where hits do.
pub proof fn lemma_merged_ranges(hits: Seq<Hit>)
    requires
        hits_in_start_order(hits),
    ensures
        merged_ok(hits, merge_hits(hits)),
    decreases hits.len(),
{
    if hits.len() > 0 {
        let prev = hits.drop_last();
        assert(hits_in_start_order(prev)) by {
            assert forall|i: int, j: int| 0 <= i < j < prev.len() implies (#[trigger] prev[i]).start
                <= (#[trigger] prev[j]).start by {
                assert(prev[i] == hits[i] && prev[j] == hits[j]);
            }
            assert forall|i: int| 0 <= i < prev.len() implies (#[trigger] prev[i]).start < prev[i].end by {
                assert(prev[i] == hits[i]);
            }
        }
        lemma_merged_ranges(prev);
        let pm = merge_hits(prev);
        if pm.len() > 0 && hits.last().start <= pm.last().1 {
            lemma_merge_extend(hits);
        } else {
            lemma_merge_push(hits);
        }
    }
}

/// What holds of the hits before the last carries over to all of them.
proof fn lemma_merge_prefix(hits: Seq<Hit>)
    requires
        hits.len() > 0,
    ensures
        forall|x: int| starts_some(hits.drop_last(), x) ==> starts_some(hits, x),
        forall|x: int| ends_some(hits.drop_last(), x) ==> ends_some(hits, x),
{
    let prev = hits.drop_last();
    reveal(starts_some);
    reveal(ends_some);
    assert forall|x: int| starts_some(prev, x) implies starts_some(hits, x) by {
        let i = choose|i: int| 0 <= i < prev.len() && (#[trigger] prev[i]).start == x;
        assert(hits[i] == prev[i]);
    }
    assert forall|x: int| ends_some(prev, x) implies ends_some(hits, x) by {
        let i = choose|i: int| 0 <= i < prev.len() && (#[trigger] prev[i]).end == x;
        assert(hits[i] == prev[i]);
    }
}

/// The last hit extends the last merged range.
proof fn lemma_merge_extend(hits: Seq<Hit>)
    requires
        hits.len() > 0,
        hits_in_start_order(hits),
        merged_ok(hits.drop_last(), merge_hits(hits.drop_last())),
        merge_hits(hits.drop_last()).len() > 0,
        hits.last().start <= merge_hits(hits.drop_last()).last().1,
    ensures
        merged_ok(hits, merge_hits(hits)),
{
    let prev = hits.drop_last();
    let pm = merge_hits(prev);
    let m = merge_hits(hits);
    let n = hits.len() - 1;
    let h = hits[n];
    let last = pm.len() - 1;
    lemma_merge_prefix(hits);
    assert(h.start < h.end);
    assert(starts_some(prev, pm[last].0));
    assert(pm[last].0 <= h.start) by {
        reveal(starts_some);
        let i0 = choose|i: int| 0 <= i < prev.len() && (#[trigger] prev[i]).start == pm[last].0;
        assert(hits[i0] == prev[i0]);
    }
    assert forall|i: int| 0 <= i < hits.len() implies within_some(m, #[trigger] hits[i]) by {
        reveal(within_some);
        if i < n {
            assert(hits[i] == prev[i]);
            assert(within_some(pm, prev[i]));
            let k = choose|k: int|
                0 <= k < pm.len() && (#[trigger] pm[k]).0 <= prev[i].start && prev[i].end <= pm[k].1;
            assert(m[k].0 <= hits[i].start && hits[i].end <= m[k].1);
        } else {
            assert(m[last].0 <= hits[i].start && hits[i].end <= m[last].1);
        }
    }
    assert forall|k: int| 0 <= k < m.len() implies ends_some(hits, (#[trigger] m[k]).1) by {
        if k == last && m[k].1 == h.end {
            reveal(ends_some);
            assert(hits[n].end == m[k].1);
        } else {
            assert(ends_some(prev, pm[k].1));
        }
    }
    assert forall|k: int| 0 <= k < m.len() implies starts_some(hits, (#[trigger] m[k]).0) by {
        assert(starts_some(prev, pm[k].0));
    }
}

/// The last hit starts a new merged range.
proof fn lemma_merge_push(hits: Seq<Hit>)
    requires
        hits.len() > 0,
        hits_in_start_order(hits),
        merged_ok(hits.drop_last(), merge_hits(hits.drop_last())),
        !(merge_hits(hits.drop_last()).len() > 0 && hits.last().start <= merge_hits(
            hits.drop_last(),
        ).last().1),
    ensures
        merged_ok(hits, merge_hits(hits)),
{
    let prev = hits.drop_last();
    let pm = merge_hits(prev);
    let m = merge_hits(hits);
    let n = hits.len() - 1;
    let h = hits[n];
    lemma_merge_prefix(hits);
    assert(h.start < h.end);
    if pm.len() > 0 {
        assert(pm[pm.len() - 1].1 < h.start);
    }
    assert forall|i: int| 0 <= i < hits.len() implies within_some(m, #[trigger] hits[i]) by {
        reveal(within_some);
        if i < n {
            assert(hits[i] == prev[i]);
            assert(within_some(pm, prev[i]));
            let k = choose|k: int|
                0 <= k < pm.len() && (#[trigger] pm[k]).0 <= prev[i].start && prev[i].end <= pm[k].1;
            assert(m[k] == pm[k]);
        } else {
            assert(m[pm.len() as int].0 <= hits[i].start && hits[i].end <= m[pm.len() as int].1);
        }
    }
    assert forall|k: int| 0 <= k < m.len() implies starts_some(hits, (#[trigger] m[k]).0) by {
        if k < pm.len() {
            assert(starts_some(prev, pm[k].0));
        } else {
            reveal(starts_some);
            assert(hits[n].start == m[k].0);
        }
    }
    assert forall|k: int| 0 <= k < m.len() implies ends_some(hits, (#[trigger] m[k]).1) by {
        if k < pm.len() {
            assert(ends_some(prev, pm[k].1));
        } else {
            reveal(ends_some);
            assert(hits[n].end == m[k].1);
        }
    }
}

/// The hits of a scan are non-empty ranges in start order, as masking
/// takes them.
pub proof fn lemma_scan_in_start_order(engine: Engine, text: Seq<char>, hits: Seq<Hit>)
    requires
        engine.is_scan_of(text, hits),
        forall|i: int| 0 <= i < hits.len() ==> hit_in_text(text, #[trigger] hits[i]),
    ensures
        hits_in_start_order(hits),
{
    assert forall|i: int, j: int| 0 <= i < j < hits.len() implies (#[trigger] hits[i]).start
        <= (#[trigger] hits[j]).start by {
        lemma_scan_order(engine, text, hits, i, j);
    }
}

/// Two engines with the same options, kept terms and whitelist forms give
/// the same results: `contains`, `scan` (and so `mask`) and the terms that
/// rows report agree on every text.
pub proof fn lemma_same_configuration_same_results(a: Engine, b: Engine, text: Seq<char>)
    requires
        a.options_spec() == b.options_spec(),
        a.term_originals() == b.term_originals(),
        a.term_texts() == b.term_texts(),
        a.whitelist_texts() == b.whitelist_texts(),
    ensures
        a.has_valid_match(text) == b.has_valid_match(text),
        forall|h: Hit| a.is_hit(text, h) == b.is_hit(text, h),
        forall|hits: Seq<Hit>| a.is_scan_of(text, hits) == b.is_scan_of(text, hits),
{
    assert(a.haystack(text) == b.haystack(text));
    assert forall|p: int, s: int, e: int| a.is_valid_match(text, p, s, e) == b.is_valid_match(text, p, s, e) by {}
    assert forall|p: int, s: int, e: int| a.hit_for(text, p, s, e) == b.hit_for(text, p, s, e) by {}
    assert forall|h: Hit| a.is_hit(text, h) == b.is_hit(text, h) by {
        if a.is_hit(text, h) {
            let (p, s, e) = choose|p: int, s: int, e: int|
                #[trigger] a.is_valid_match(text, p, s, e) && h == a.hit_for(text, p, s, e);
            assert(b.is_valid_match(text, p, s, e));
        }
        if b.is_hit(text, h) {
            let (p, s, e) = choose|p: int, s: int, e: int|
                #[trigger] b.is_valid_match(text, p, s, e) && h == b.hit_for(text, p, s, e);
            assert(a.is_valid_match(text, p, s, e));
        }
    }
    if a.has_valid_match(text) {
        let (p, s, e) = choose|p: int, s: int, e: int| #[trigger] a.is_valid_match(text, p, s, e);
        assert(b.is_valid_match(text, p, s, e));
    }
    if b.has_valid_match(text) {
        let (p, s, e) = choose|p: int, s: int, e: int| #[trigger] b.is_valid_match(text, p, s, e);
        assert(a.is_valid_match(text, p, s, e));
    }
}

/// A whitelist that holds the processed form of every term exempts every
/// match: each term occurrence is also an occurrence of the identical
/// whitelist phrase, which contains it.
pub proof fn lemma_whitelist_covering_terms(engine: Engine, text: Seq<char>)
    requires
        forall|k: int|
            0 <= k < engine.term_texts().len() ==> engine.whitelist_texts().contains(
                #[trigger] engine.term_texts()[k],
            ),
    ensures
        !engine.has_valid_match(text),
{
    let tp = patterns_of(engine.term_texts());
    let wp = patterns_of(engine.whitelist_texts());
    let hay = engine.haystack(text);
    assert forall|p: int, s: int, e: int| !#[trigger] engine.is_valid_match(text, p, s, e) by {
        if occurs_at(tp, hay, p, s, e) {
            assert(engine.whitelist_texts().contains(engine.term_texts()[p]));
            let q = choose|q: int|
                0 <= q < engine.whitelist_texts().len() && engine.whitelist_texts()[q]
                    == engine.term_texts()[p];
            assert(wp[q] == tp[p]);
            assert(occurs_at(wp, hay, q, s, e));
            assert(covered(wp, hay, s, e));
        }
    }
}

/// Adding whitelist phrases only removes hits: with the same options and
/// terms, every hit of the engine with the larger whitelist is a hit of the
/// other, so its scan keeps a part of the other's hits, in the same order.
pub proof fn lemma_whitelist_monotone(a: Engine, b: Engine, text: Seq<char>, ha: Seq<Hit>, hb: Seq<Hit>)
    requires
        a.options_spec() == b.options_spec(),
        a.term_texts() == b.term_texts(),
        forall|k: int|
            0 <= k < a.whitelist_texts().len() ==> b.whitelist_texts().contains(
                #[trigger] a.whitelist_texts()[k],
            ),
        a.is_scan_of(text, ha),
        b.is_scan_of(text, hb),
    ensures
        forall|h: Hit| b.is_hit(text, h) ==> a.is_hit(text, h),
        forall|h: Hit| hb.contains(h) ==> ha.contains(h),
{
    let hay = a.haystack(text);
    let wa = patterns_of(a.whitelist_texts());
    let wb = patterns_of(b.whitelist_texts());
    assert(hay == b.haystack(text));
    assert forall|s: int, e: int| covered(wa, hay, s, e) implies covered(wb, hay, s, e) by {
        let (q, ws, we) = choose|q: int, ws: int, we: int|
            #[trigger] occurs_at(wa, hay, q, ws, we) && ws <= s && e <= we;
        assert(b.whitelist_texts().contains(a.whitelist_texts()[q]));
        let q2 = choose|q2: int|
            0 <= q2 < b.whitelist_texts().len() && b.whitelist_texts()[q2] == a.whitelist_texts()[q];
        assert(wb[q2] == wa[q]);
        assert(occurs_at(wb, hay, q2, ws, we));
    }
    assert forall|h: Hit| b.is_hit(text, h) implies a.is_hit(text, h) by {
        let (p, s, e) = choose|p: int, s: int, e: int|
            #[trigger] b.is_valid_match(text, p, s, e) && h == b.hit_for(text, p, s, e);
        assert(a.is_valid_match(text, p, s, e));
        assert(h == a.hit_for(text, p, s, e));
    }
}

/// The documented default of the option named `key`, if it names one.
pub open spec fn default_option_value(key: Seq<char>) -> Option<bool> {
    if key == "unicode_nfkc"@ {
        Some(true)
    } else if key == "lowercase"@ {
        Some(true)
    } else if key == "remove_whitespace"@ {
        Some(true)
    } else if key == "remove_punctuation"@ {
        Some(false)
    } else if key == "remove_symbols"@ {
        Some(false)
    } else if key == "remove_emoji"@ {
        Some(true)
    } else {
        None
    }
}

/// The options entry names an option by a UTF-8 string key and gives it
/// its default boolean value.
pub open spec fn states_default(entry: (ArrayKey, ZvalInput)) -> bool {
    match entry {
        (ArrayKey::Str(bytes), ZvalInput::Bool(value)) => valid_utf8(bytes@) && default_option_value(
            decode_utf8(bytes@),
        ) == Some(value),
        _ => false,
    }
}

/// Options not given keep their defaults: an options array that only
/// restates defaults parses to the same options as an empty one.
pub proof fn lemma_explicit_defaults(entries: Seq<(ArrayKey, ZvalInput)>)
    requires
        forall|i: int| 0 <= i < entries.len() ==> states_default(#[trigger] entries[i]),
    ensures
        parsed_options(entries) == parsed_options(Seq::<(ArrayKey, ZvalInput)>::empty()),
        parsed_options(entries) == Ok::<Options, (PhpErrorKind, Seq<char>)>(default_options()),
    decreases entries.len(),
{
    if entries.len() > 0 {
        let prev = entries.drop_last();
        assert forall|i: int| 0 <= i < prev.len() implies states_default(#[trigger] prev[i]) by {
            assert(prev[i] == entries[i]);
        }
        lemma_explicit_defaults(prev);
        assert(states_default(entries[entries.len() - 1]));
    }
}

/// No entry of a dictionary without an empty entry normalizes to nothing.
proof fn lemma_no_empty_entries(entries: Seq<Seq<char>>, o: Options)
    requires
        first_empty_entry(entries, o) is None,
    ensures
        forall|i: int| 0 <= i < entries.len() ==> normalized_text(#[trigger] entries[i], o).len() > 0,
    decreases entries.len(),
{
    if entries.len() > 0 {
        let prev = entries.drop_last();
        lemma_no_empty_entries(prev, o);
        assert forall|i: int| 0 <= i < entries.len() implies normalized_text(#[trigger] entries[i], o).len() > 0 by {
            if i < prev.len() {
                assert(entries[i] == prev[i]);
            }
        }
    }
}

/// Each kept form is the form of some entry.
proof fn lemma_kept_form_has_entry(entries: Seq<Seq<char>>, o: Options, k: int)
    requires
        0 <= k < compiled_entries(entries, o).1.len(),
    ensures
        exists|i: int|
            0 <= i < entries.len() && normalized_text(#[trigger] entries[i], o) == compiled_entries(
                entries,
                o,
            ).1[k],
{
    lemma_compiled_keeps_first(entries, o);
    let texts = compiled_entries(entries, o).1;
    assert(kept_first(entries, o, k));
    let i = choose|i: int|
        #[trigger] first_with_text(entries, o, i, texts[k]) && entries[i] == compiled_entries(entries, o).0[k];
    assert(normalized_text(entries[i], o) == texts[k]);
}

/// An entry whose processed form is already kept is dropped: appending it
/// changes neither what compilation keeps nor whether it succeeds.
pub proof fn lemma_later_duplicate_dropped(entries: Seq<Seq<char>>, x: Seq<char>, o: Options)
    requires
        compiled_entries(entries, o).1.contains(normalized_text(x, o)),
    ensures
        compiled_entries(entries.push(x), o) == compiled_entries(entries, o),
        dictionary_ok(entries.push(x), o) == dictionary_ok(entries, o),
{
    let all = entries.push(x);
    assert(all.drop_last() =~= entries);
    assert(all.last() == x);
    if first_empty_entry(entries, o) is None {
        let texts = compiled_entries(entries, o).1;
        let k = choose|k: int| 0 <= k < texts.len() && texts[k] == normalized_text(x, o);
        lemma_kept_form_has_entry(entries, o, k);
        lemma_no_empty_entries(entries, o);
        let i = choose|i: int| 0 <= i < entries.len() && normalized_text(#[trigger] entries[i], o) == texts[k];
        assert(normalized_text(entries[i], o).len() > 0);
    }
}

/// Compiling more entries keeps every form that compiling the first ones kept.
pub proof fn lemma_compiled_prefix_kept(a: Seq<Seq<char>>, b: Seq<Seq<char>>, o: Options)
    ensures
        forall|k: int|
            0 <= k < compiled_entries(a, o).1.len() ==> compiled_entries(a + b, o).1.contains(
                #[trigger] compiled_entries(a, o).1[k],
            ),
{
    lemma_compiled_keeps_first(a + b, o);
    assert forall|k: int| 0 <= k < compiled_entries(a, o).1.len() implies compiled_entries(
        a + b,
        o,
    ).1.contains(#[trigger] compiled_entries(a, o).1[k]) by {
        lemma_kept_form_has_entry(a, o, k);
        let i = choose|i: int|
            0 <= i < a.len() && normalized_text(#[trigger] a[i], o) == compiled_entries(a, o).1[k];
        assert((a + b)[i] == a[i]);
    }
}

/// A form kept from the entries before the last has its first entry there.
proof fn lemma_first_in_prefix(entries: Seq<Seq<char>>, o: Options, i: int, t: Seq<char>)
    requires
        entries.len() > 0,
        compiled_entries(entries.drop_last(), o).1.contains(t),
        first_with_text(entries, o, i, t),
    ensures
        i < entries.len() - 1,
        first_with_text(entries.drop_last(), o, i, t),
{
    let prev = entries.drop_last();
    let pt = compiled_entries(prev, o).1;
    let k = choose|k: int| 0 <= k < pt.len() && pt[k] == t;
    lemma_kept_form_has_entry(prev, o, k);
    let i2 = choose|i2: int| 0 <= i2 < prev.len() && normalized_text(#[trigger] prev[i2], o) == pt[k];
    assert(entries[i2] == prev[i2]);
    if i2 < i {
        assert(normalized_text(entries[i2], o) != t);
    }
    assert forall|j: int| 0 <= j < i implies normalized_text(#[trigger] prev[j], o) != t by {
        assert(prev[j] == entries[j]);
    }
}

/// Kept entries are in the order of their first occurrence: a kept term
/// with a smaller id first occurs earlier in the dictionary.
pub proof fn lemma_kept_in_first_order(entries: Seq<Seq<char>>, o: Options, k: int, l: int, i: int, j: int)
    requires
        0 <= k < l < compiled_entries(entries, o).1.len(),
        first_with_text(entries, o, i, compiled_entries(entries, o).1[k]),
        first_with_text(entries, o, j, compiled_entries(entries, o).1[l]),
    ensures
        i < j,
    decreases entries.len(),
{
    let prev = entries.drop_last();
    let pt = compiled_entries(prev, o).1;
    let texts = compiled_entries(entries, o).1;
    let n = entries.len() - 1;
    lemma_compiled_keeps_first(prev, o);
    if l < pt.len() {
        assert(texts[k] == pt[k] && texts[l] == pt[l]);
        lemma_first_in_prefix(entries, o, i, pt[k]);
        lemma_first_in_prefix(entries, o, j, pt[l]);
        lemma_kept_in_first_order(prev, o, k, l, i, j);
    } else {
        assert(!pt.contains(normalized_text(entries[n], o)));
        assert(texts[l] == normalized_text(entries[n], o));
        if j < n {
            assert(prev[j] == entries[j]);
            assert(pt.contains(normalized_text(prev[j], o)));
        }
        assert(texts[k] == pt[k]);
        lemma_first_in_prefix(entries, o, i, pt[k]);
    }
}

/// Two engines give the same results on every text: the same `contains`,
/// the same scans (so the same masks), and the same terms in scan rows.
pub open spec fn same_results(a: Engine, b: Engine) -> bool {
    &&& a.term_originals() == b.term_originals()
    &&& forall|text: Seq<char>| #[trigger] a.has_valid_match(text) == b.has_valid_match(text)
    &&& forall|text: Seq<char>, hits: Seq<Hit>| #[trigger] a.is_scan_of(text, hits) == b.is_scan_of(text, hits)
}

/// Matchers with the same configuration give the same results.
pub proof fn lemma_same_config_same_results(a: Matcher, b: Matcher)
    requires
        config_of(a.engine()) == config_of(b.engine()),
    ensures
        same_results(a.engine(), b.engine()),
{
    assert forall|text: Seq<char>| #[trigger] a.engine().has_valid_match(text) == b.engine().has_valid_match(text) by {
        lemma_same_configuration_same_results(a.engine(), b.engine(), text);
    }
    assert forall|text: Seq<char>, hits: Seq<Hit>| #[trigger] a.engine().is_scan_of(text, hits)
        == b.engine().is_scan_of(text, hits) by {
        lemma_same_configuration_same_results(a.engine(), b.engine(), text);
    }
}

/// Leaving the options out is the same as giving every option its default:
/// building succeeds for both or for neither, and the two matchers give the
/// same results.
pub proof fn lemma_omitted_options_are_defaults(
    terms: DictionaryInput,
    whitelist: DictionaryInput,
    explicit: OptionsInput,
)
    requires
        forall|i: int|
            0 <= i < option_entries(explicit).len() ==> states_default(#[trigger] option_entries(explicit)[i]),
    ensures
        built_config(terms, whitelist, OptionsInput(None)) == built_config(terms, whitelist, explicit),
{
    lemma_explicit_defaults(option_entries(explicit));
    assert(option_entries(OptionsInput(None)) =~= Seq::<(ArrayKey, ZvalInput)>::empty());
}

/// Without an invalid value, a dictionary whose texts have no entry that
/// normalizes to nothing passes the check with options too.
proof fn lemma_dictionary_error_with_options(vs: Seq<ZvalInput>, parameter: Seq<char>, o: Options)
    requires
        dictionary_error(vs, parameter, None) is None,
        first_empty_entry(vs.map_values(|z: ZvalInput| value_text(z)), o) is None,
    ensures
        dictionary_error(vs, parameter, Some(o)) is None,
    decreases vs.len(),
{
    if vs.len() > 0 {
        let prev = vs.drop_last();
        let ts = vs.map_values(|z: ZvalInput| value_text(z));
        assert(ts.drop_last() =~= prev.map_values(|z: ZvalInput| value_text(z)));
        lemma_dictionary_error_with_options(prev, parameter, o);
        assert(ts.last() == value_text(vs.last()));
    }
}

/// A successful `replace_terms` leaves the matcher configured exactly as a
/// matcher freshly built with the new terms, the same whitelist and options.
pub proof fn lemma_replace_terms_like_fresh(
    terms: DictionaryInput,
    whitelist: DictionaryInput,
    options: OptionsInput,
    new_terms: DictionaryInput,
    c: (Options, Seq<Seq<char>>, Seq<Seq<char>>, Seq<Seq<char>>, Seq<Seq<char>>),
)
    requires
        built_config(terms, whitelist, options) == Some(c),
        dictionary_error(dictionary_values(new_terms), "terms"@, None) is None,
        dictionary_ok(dictionary_texts(new_terms), c.0),
    ensures
        built_config(new_terms, whitelist, options) == Some(with_terms(c, dictionary_texts(new_terms))),
{
    lemma_dictionary_error_with_options(dictionary_values(new_terms), "terms"@, c.0);
}

/// A successful `replace_whitelist` leaves the matcher configured exactly
/// as a matcher freshly built with the same terms and options and the new
/// whitelist.
pub proof fn lemma_replace_whitelist_like_fresh(
    terms: DictionaryInput,
    whitelist: DictionaryInput,
    options: OptionsInput,
    new_whitelist: DictionaryInput,
    c: (Options, Seq<Seq<char>>, Seq<Seq<char>>, Seq<Seq<char>>, Seq<Seq<char>>),
)
    requires
        built_config(terms, whitelist, options) == Some(c),
        dictionary_error(dictionary_values(new_whitelist), "whitelist"@, None) is None,
        dictionary_ok(dictionary_texts(new_whitelist), c.0),
    ensures
        built_config(terms, new_whitelist, options) == Some(with_whitelist(c, dictionary_texts(new_whitelist))),
{
    lemma_dictionary_error_with_options(dictionary_values(new_whitelist), "whitelist"@, c.0);
}

/// Appending to the terms a string whose processed form is already kept
/// changes nothing: building succeeds as before, with the same configuration,
/// so every scan keeps its rows and their first original terms.
pub proof fn lemma_later_duplicate_term(
    terms: DictionaryInput,
    longer: DictionaryInput,
    whitelist: DictionaryInput,
    options: OptionsInput,
    bytes: Seq<u8>,
)
    requires
        built_config(terms, whitelist, options) is Some,
        valid_utf8(bytes),
        dictionary_values(longer).len() == dictionary_values(terms).len() + 1,
        dictionary_values(longer).drop_last() == dictionary_values(terms),
        dictionary_values(longer).last() matches ZvalInput::Str(b) && b@ == bytes,
        compiled_entries(
            dictionary_texts(terms),
            built_config(terms, whitelist, options).unwrap().0,
        ).1.contains(normalized_text(decode_utf8(bytes), built_config(terms, whitelist, options).unwrap().0)),
    ensures
        built_config(longer, whitelist, options) == built_config(terms, whitelist, options),
{
    let o = built_config(terms, whitelist, options).unwrap().0;
    let ts = dictionary_texts(terms);
    let x = decode_utf8(bytes);
    let vs = dictionary_values(longer);
    assert(dictionary_texts(longer) =~= ts.push(x)) by {
        assert(vs =~= dictionary_values(terms).push(vs.last()));
    }
    lemma_later_duplicate_dropped(ts, x, o);
    let texts = compiled_entries(ts, o).1;
    let k = choose|k: int| 0 <= k < texts.len() && texts[k] == normalized_text(x, o);
    lemma_kept_form_has_entry(ts, o, k);
    lemma_no_empty_entries(ts, o);
    let i = choose|i: int| 0 <= i < ts.len() && normalized_text(#[trigger] ts[i], o) == texts[k];
    assert(normalized_text(x, o).len() > 0);
    assert(dictionary_value_error(vs.last(), (vs.len() - 1) as nat, "terms"@, Some(o)) is None);
}

/// The term id of a hit of a scan is a kept term.
proof fn lemma_scan_term_ids(engine: Engine, text: Seq<char>, hits: Seq<Hit>, i: int)
    requires
        engine.is_scan_of(text, hits),
        0 <= i < hits.len(),
    ensures
        hits[i].term_id < engine.term_texts().len(),
        exists|p: int, s: int, e: int|
            #[trigger] engine.is_valid_match(text, p, s, e) && hits[i] == engine.hit_for(text, p, s, e),
{
    assert(hits.contains(hits[i]));
    assert(engine.is_hit(text, hits[i]));
}

/// Scan rows are ordered by start, then longer range first, then by the
/// position in the dictionary of the first entry with the term's processed
/// form; and no (term, start, end) row appears twice.
pub proof fn lemma_scan_rows_in_dictionary_order(
    engine: Engine,
    entries: Seq<Seq<char>>,
    o: Options,
    text: Seq<char>,
    hits: Seq<Hit>,
    i: int,
    j: int,
    fi: int,
    fj: int,
)
    requires
        engine.term_originals() == compiled_entries(entries, o).0,
        engine.term_texts() == compiled_entries(entries, o).1,
        engine.is_scan_of(text, hits),
        0 <= i < j < hits.len(),
        first_with_text(entries, o, fi, engine.term_texts()[hits[i].term_id as int]),
        first_with_text(entries, o, fj, engine.term_texts()[hits[j].term_id as int]),
    ensures
        hits[i].start < hits[j].start || (hits[i].start == hits[j].start && hits[i].end > hits[j].end)
            || (hits[i].start == hits[j].start && hits[i].end == hits[j].end && fi < fj),
        (engine.term_originals()[hits[i].term_id as int], hits[i].start, hits[i].end) != (
            engine.term_originals()[hits[j].term_id as int],
            hits[j].start,
            hits[j].end,
        ),
{
    lemma_scan_order(engine, text, hits, i, j);
    lemma_scan_term_ids(engine, text, hits, i);
    lemma_scan_term_ids(engine, text, hits, j);
    lemma_compiled_keeps_first(entries, o);
    let ki = hits[i].term_id as int;
    let kj = hits[j].term_id as int;
    if hits[i].start == hits[j].start && hits[i].end == hits[j].end {
        assert(ki < kj);
        lemma_kept_in_first_order(entries, o, ki, kj, fi, fj);
        let texts = compiled_entries(entries, o).1;
        let originals = compiled_entries(entries, o).0;
        if originals[ki] == originals[kj] {
            assert(texts[ki] == normalized_text(originals[ki], o));
            assert(texts[kj] == normalized_text(originals[kj], o));
            assert(texts[ki] != texts[kj]);
        }
    }
}

/// `h` is the source range of a valid match of a kept term whose original
/// is the first entry with that processed form.
pub open spec fn hull_of_kept_match(engine: Engine, entries: Seq<Seq<char>>, o: Options, text: Seq<char>, h: Hit) -> bool {
    exists|p: int, s: int, e: int|
        #[trigger] engine.is_valid_match(text, p, s, e) && h == engine.hit_for(text, p, s, e) && kept_first(
            entries,
            o,
            p,
        )
}

/// The rows of a scan are exactly the hulls of the valid matches: each hit
/// is the source range of a valid match of a kept term, whose original is
/// the first entry with that processed form, and every valid match has its
/// hit in the scan.
pub proof fn lemma_scan_rows_are_match_hulls(
    engine: Engine,
    entries: Seq<Seq<char>>,
    o: Options,
    text: Seq<char>,
    hits: Seq<Hit>,
)
    requires
        engine.term_originals() == compiled_entries(entries, o).0,
        engine.term_texts() == compiled_entries(entries, o).1,
        engine.is_scan_of(text, hits),
    ensures
        forall|i: int| 0 <= i < hits.len() ==> hull_of_kept_match(engine, entries, o, text, #[trigger] hits[i]),
        forall|p: int, s: int, e: int|
            #[trigger] engine.is_valid_match(text, p, s, e) ==> hits.contains(engine.hit_for(text, p, s, e)),
{
    lemma_compiled_keeps_first(entries, o);
    assert forall|i: int| 0 <= i < hits.len() implies hull_of_kept_match(engine, entries, o, text, #[trigger] hits[i]) by {
        lemma_scan_term_ids(engine, text, hits, i);
        let (p, s, e) = choose|p: int, s: int, e: int|
            #[trigger] engine.is_valid_match(text, p, s, e) && hits[i] == engine.hit_for(text, p, s, e);
        assert(0 <= p < engine.term_texts().len());
        assert(kept_first(entries, o, p));
    }
    assert forall|p: int, s: int, e: int| #[trigger] engine.is_valid_match(text, p, s, e) implies hits.contains(
        engine.hit_for(text, p, s, e),
    ) by {
        assert(engine.is_hit(text, engine.hit_for(text, p, s, e)));
    }
}

/// `f` places each element of `b` at a position of `a` holding it, the
/// positions increasing.
pub open spec fn places_in_order(b: Seq<Hit>, a: Seq<Hit>, f: spec_fn(int) -> int) -> bool {
    &&& forall|k: int| 0 <= k < b.len() ==> 0 <= #[trigger] f(k) < a.len() && a[f(k)] == b[k]
    &&& forall|k: int, l: int| 0 <= k < l < b.len() ==> #[trigger] f(k) < #[trigger] f(l)
}

/// `b` keeps some of the elements of `a`, in the same order.
pub open spec fn is_subsequence(b: Seq<Hit>, a: Seq<Hit>) -> bool {
    exists|f: spec_fn(int) -> int| #[trigger] places_in_order(b, a, f)
}

/// A scan with a larger whitelist is a subsequence of the scan with the
/// smaller one: rows are only removed, never added, changed or reordered.
pub proof fn lemma_whitelist_subsequence(a: Engine, b: Engine, text: Seq<char>, ha: Seq<Hit>, hb: Seq<Hit>)
    requires
        a.options_spec() == b.options_spec(),
        a.term_texts() == b.term_texts(),
        forall|k: int|
            0 <= k < a.whitelist_texts().len() ==> b.whitelist_texts().contains(
                #[trigger] a.whitelist_texts()[k],
            ),
        a.is_scan_of(text, ha),
        b.is_scan_of(text, hb),
    ensures
        is_subsequence(hb, ha),
{
    lemma_whitelist_monotone(a, b, text, ha, hb);
    let f = |k: int| choose|m: int| 0 <= m < ha.len() && ha[m] == hb[k];
    let ka = ha.map_values(|h: Hit| hit_key(h));
    let kb = hb.map_values(|h: Hit| hit_key(h));
    assert forall|k: int| 0 <= k < hb.len() implies 0 <= #[trigger] f(k) < ha.len() && ha[f(k)] == hb[k] by {
        assert(hb.contains(hb[k]));
        assert(ha.contains(hb[k]));
    }
    assert forall|k: int, l: int| 0 <= k < l < hb.len() implies #[trigger] f(k) < #[trigger] f(l) by {
        assert(hb.contains(hb[k]) && ha.contains(hb[k]));
        assert(hb.contains(hb[l]) && ha.contains(hb[l]));
        assert(key_lt(kb[k], kb[l]));
        if f(l) < f(k) {
            assert(key_lt(ka[f(l)], ka[f(k)]));
        }
        if f(l) == f(k) {
            lemma_hit_key_injective(hb[k], hb[l]);
        }
    }
    assert(places_in_order(hb, ha, f));
}

/// For matchers built from the same terms and options, one with whitelist
/// `w1` and one with `w1` followed by more entries, every scan of the second
/// is a subsequence of the scan of the first.
pub proof fn lemma_longer_whitelist_subsequence(
    terms: DictionaryInput,
    w1: DictionaryInput,
    w12: DictionaryInput,
    options: OptionsInput,
    a: Matcher,
    b: Matcher,
    text: Seq<char>,
    ha: Seq<Hit>,
    hb: Seq<Hit>,
)
    requires
        dictionary_values(w12).take(dictionary_values(w1).len() as int) == dictionary_values(w1),
        dictionary_values(w1).len() <= dictionary_values(w12).len(),
        built_config(terms, w1, options) == Some(config_of(a.engine())),
        built_config(terms, w12, options) == Some(config_of(b.engine())),
        a.engine().is_scan_of(text, ha),
        b.engine().is_scan_of(text, hb),
    ensures
        is_subsequence(hb, ha),
{
    let v1 = dictionary_values(w1);
    let v12 = dictionary_values(w12);
    let rest = v12.skip(v1.len() as int);
    assert(v12 =~= v1 + rest);
    let t1 = dictionary_texts(w1);
    let t2 = rest.map_values(|z: ZvalInput| value_text(z));
    assert(dictionary_texts(w12) =~= t1 + t2);
    let o = config_of(a.engine()).0;
    lemma_compiled_prefix_kept(t1, t2, o);
    lemma_whitelist_subsequence(a.engine(), b.engine(), text, ha, hb);
}

/// The characters of a retagged sequence are the sequence itself.
proof fn lemma_retag_chars(cs: Seq<char>, span: Span)
    ensures
        tag_chars(retag(cs, span)) == cs,
{
    assert(tag_chars(retag(cs, span)) =~= cs);
}

/// Compatibility decomposition replaces every character, whatever its code
/// point, by exactly its full compatibility decomposition, in order.
pub proof fn lemma_decomposition_chars(s: Seq<TaggedChar>)
    ensures
        tag_chars(decompose_tags(s)) == tag_chars(s).map_values(|c: char| compat_decomposition(c)).flatten(),
    decreases s.len(),
{
    if s.len() > 0 {
        let prev = s.drop_last();
        lemma_decomposition_chars(prev);
        lemma_retag_chars(compat_decomposition(s.last().ch), s.last().span);
        let f = |c: char| compat_decomposition(c);
        assert(tag_chars(s) =~= tag_chars(prev).push(s.last().ch));
        assert(tag_chars(s).map_values(f) =~= tag_chars(prev).map_values(f).push(f(s.last().ch)));
        tag_chars(prev).map_values(f).lemma_flatten_push(f(s.last().ch));
        assert(tag_chars(decompose_tags(s)) =~= tag_chars(decompose_tags(prev)) + compat_decomposition(s.last().ch));
    } else {
        assert(tag_chars(s).map_values(|c: char| compat_decomposition(c)) =~= Seq::<Seq<char>>::empty());
        assert(tag_chars(decompose_tags(s)) =~= Seq::<char>::empty());
    }
}

/// Every character produced by decomposition keeps the range of the
/// character it came from: a character's decomposition lies in one span.
pub proof fn lemma_decomposition_spans(s: Seq<TaggedChar>, span: Span)
    requires
        forall|i: int| 0 <= i < s.len() ==> (#[trigger] s[i]).span == span,
    ensures
        forall|i: int| 0 <= i < decompose_tags(s).len() ==> (#[trigger] decompose_tags(s)[i]).span == span,
    decreases s.len(),
{
    if s.len() > 0 {
        let prev = s.drop_last();
        assert forall|i: int| 0 <= i < prev.len() implies (#[trigger] prev[i]).span == span by {
            assert(prev[i] == s[i]);
        }
        lemma_decomposition_spans(prev, span);
        let d = decompose_tags(s);
        assert forall|i: int| 0 <= i < d.len() implies (#[trigger] d[i]).span == span by {
            if i < decompose_tags(prev).len() {
                assert(d[i] == decompose_tags(prev)[i]);
            }
        }
    }
}

/// Lowercasing replaces every character, whatever its code point, by
/// exactly what `char::to_lowercase` gives for it, in order.
pub proof fn lemma_lowercase_chars(s: Seq<TaggedChar>)
    ensures
        tag_chars(lowercase_tags(s)) == tag_chars(s).map_values(|c: char| lowercase_chars(c)).flatten(),
    decreases s.len(),
{
    if s.len() > 0 {
        let prev = s.drop_last();
        lemma_lowercase_chars(prev);
        lemma_retag_chars(lowercase_chars(s.last().ch), s.last().span);
        let f = |c: char| lowercase_chars(c);
        assert(tag_chars(s) =~= tag_chars(prev).push(s.last().ch));
        assert(tag_chars(s).map_values(f) =~= tag_chars(prev).map_values(f).push(f(s.last().ch)));
        tag_chars(prev).map_values(f).lemma_flatten_push(f(s.last().ch));
        assert(tag_chars(lowercase_tags(s)) =~= tag_chars(lowercase_tags(prev)) + lowercase_chars(s.last().ch));
    } else {
        assert(tag_chars(s).map_values(|c: char| lowercase_chars(c)) =~= Seq::<Seq<char>>::empty());
        assert(tag_chars(lowercase_tags(s)) =~= Seq::<char>::empty());
    }
}

/// The streamed lowercasing is the same per-character mapping.
pub proof fn lemma_lowercase_all(cs: Seq<char>)
    ensures
        lowercase_all(cs) == cs.map_values(|c: char| lowercase_chars(c)).flatten(),
    decreases cs.len(),
{
    let f = |c: char| lowercase_chars(c);
    if cs.len() > 0 {
        let prev = cs.drop_last();
        lemma_lowercase_all(prev);
        assert(cs.map_values(f) =~= prev.map_values(f).push(f(cs.last())));
        prev.map_values(f).lemma_flatten_push(f(cs.last()));
    } else {
        assert(cs.map_values(f) =~= Seq::<Seq<char>>::empty());
    }
}

/// The class filters keep exactly the characters that pass them, in order.
pub proof fn lemma_filter_chars(s: Seq<TaggedChar>, o: Options)
    ensures
        tag_chars(keep_tags(s, o)) == tag_chars(s).filter(|c: char| keeps_char(c, o)),
    decreases s.len(),
{
    let p = |c: char| keeps_char(c, o);
    reveal(Seq::filter);
    if s.len() > 0 {
        let prev = s.drop_last();
        lemma_filter_chars(prev, o);
        assert(tag_chars(s).drop_last() =~= tag_chars(prev));
        assert(tag_chars(s).last() == s.last().ch);
        assert(tag_chars(prev).filter(p) == tag_chars(keep_tags(prev, o)));
        if keeps_char(s.last().ch, o) {
            assert(tag_chars(keep_tags(s, o)) =~= tag_chars(keep_tags(prev, o)).push(s.last().ch));
            assert(tag_chars(s).filter(p) == tag_chars(prev).filter(p).push(s.last().ch));
        } else {
            assert(tag_chars(keep_tags(s, o)) =~= tag_chars(keep_tags(prev, o)));
            assert(tag_chars(s).filter(p) == tag_chars(prev).filter(p));
        }
    } else {
        assert(tag_chars(keep_tags(s, o)) =~= Seq::<char>::empty());
        assert(tag_chars(s) =~= Seq::<char>::empty());
    }
}

/// The normalized text is built in stages over characters: the optional
/// NFKC stage, then (when asked) every character replaced by its lowercase
/// mapping, then every character that a class filter removes dropped.
pub proof fn lemma_normalized_text_stages(text: Seq<char>, o: Options)
    ensures
        ({
            let tagged = tag_graphemes(grapheme_clusters(text), o.remove_emoji);
            let composed = tag_chars(
                if o.unicode_nfkc {
                    nfkc_tags(tagged)
                } else {
                    tagged
                },
            );
            let lowered = if o.lowercase {
                composed.map_values(|c: char| lowercase_chars(c)).flatten()
            } else {
                composed
            };
            normalized_text(text, o) == lowered.filter(|c: char| keeps_char(c, o))
        }),
{
    let tagged = tag_graphemes(grapheme_clusters(text), o.remove_emoji);
    let composed = if o.unicode_nfkc {
        nfkc_tags(tagged)
    } else {
        tagged
    };
    let lowered = if o.lowercase {
        lowercase_tags(composed)
    } else {
        composed
    };
    lemma_lowercase_chars(composed);
    lemma_filter_chars(lowered, o);
}

/// A Unicode `White_Space` code point: U+0009..U+000D, U+0020, U+0085,
/// U+00A0, U+1680, U+2000..U+200A, U+2028, U+2029, U+202F, U+205F, U+3000.
pub open spec fn white_space_code_point(u: u32) -> bool {
    (9 <= u && u <= 13) || u == 32 || u == 133 || u == 160 || u == 5760 || (8192 <= u && u <= 8202)
        || u == 8232 || u == 8233 || u == 8239 || u == 8287 || u == 12288
}

/// With `remove_whitespace`, every `White_Space` character is removed; with
/// no other class filter, exactly those are.
pub proof fn lemma_white_space_filter(c: char, o: Options)
    ensures
        o.remove_whitespace && white_space_code_point(c as u32) ==> !keeps_char(c, o),
        !o.remove_punctuation && !o.remove_symbols ==> (keeps_char(c, o) <==> !(o.remove_whitespace
            && white_space_code_point(c as u32))),
{
}

/// With `remove_whitespace`, no `White_Space` character is left in the
/// normalized text.
pub proof fn lemma_no_white_space_left(text: Seq<char>, o: Options)
    requires
        o.remove_whitespace,
    ensures
        forall|i: int|
            0 <= i < normalized_text(text, o).len() ==> !white_space_code_point(
                #[trigger] normalized_text(text, o)[i] as u32,
            ),
{
    lemma_normalized_text_stages(text, o);
    let tagged = tag_graphemes(grapheme_clusters(text), o.remove_emoji);
    let composed = tag_chars(
        if o.unicode_nfkc {
            nfkc_tags(tagged)
        } else {
            tagged
        },
    );
    let lowered = if o.lowercase {
        composed.map_values(|c: char| lowercase_chars(c)).flatten()
    } else {
        composed
    };
    let kept = lowered.filter(|c: char| keeps_char(c, o));
    assert forall|i: int| 0 <= i < kept.len() implies !white_space_code_point(#[trigger] kept[i] as u32) by {
        lowered.lemma_filter_pred(|c: char| keeps_char(c, o), i);
        lemma_white_space_filter(kept[i], o);
    }
}

/// The name an options entry gives, when its key is a UTF-8 string.
pub open spec fn entry_name(e: (ArrayKey, ZvalInput)) -> Option<Seq<char>> {
    match e.0 {
        ArrayKey::Str(bytes) => if valid_utf8(bytes@) {
            Some(decode_utf8(bytes@))
        } else {
            None
        },
        ArrayKey::Long(_) => None,
    }
}

/// The entry names one of the six options and gives it a boolean.
pub open spec fn entry_accepted(e: (ArrayKey, ZvalInput)) -> bool {
    &&& entry_name(e) matches Some(k) && default_option_value(k) is Some
    &&& e.1 is Bool
}

/// The value the last entry named `name` gives, or `default` when none does.
pub open spec fn given_value(es: Seq<(ArrayKey, ZvalInput)>, name: Seq<char>, default: bool) -> bool
    decreases es.len(),
{
    if es.len() == 0 {
        default
    } else if entry_name(es.last()) == Some(name) && es.last().1 is Bool {
        es.last().1->Bool_0
    } else {
        given_value(es.drop_last(), name, default)
    }
}

/// Setting option `k` to `v` changes exactly the field named `k`.
proof fn lemma_set_option_fields(o: Options, k: Seq<char>, v: bool)
    ensures
        crate::php::set_option(o, k, v) is Ok <==> default_option_value(k) is Some,
        crate::php::set_option(o, k, v) matches Ok(n) ==> {
            &&& n.unicode_nfkc == (if k == "unicode_nfkc"@ { v } else { o.unicode_nfkc })
            &&& n.lowercase == (if k == "lowercase"@ { v } else { o.lowercase })
            &&& n.remove_whitespace == (if k == "remove_whitespace"@ { v } else { o.remove_whitespace })
            &&& n.remove_punctuation == (if k == "remove_punctuation"@ { v } else { o.remove_punctuation })
            &&& n.remove_symbols == (if k == "remove_symbols"@ { v } else { o.remove_symbols })
            &&& n.remove_emoji == (if k == "remove_emoji"@ { v } else { o.remove_emoji })
        },
{
    reveal_strlit("unicode_nfkc");
    reveal_strlit("lowercase");
    reveal_strlit("remove_whitespace");
    reveal_strlit("remove_punctuation");
    reveal_strlit("remove_symbols");
    reveal_strlit("remove_emoji");
    let (a, b, c, d, e, f) = (
        "unicode_nfkc"@,
        "lowercase"@,
        "remove_whitespace"@,
        "remove_punctuation"@,
        "remove_symbols"@,
        "remove_emoji"@,
    );
    assert(a.len() == 12 && b.len() == 9 && c.len() == 17 && d.len() == 18 && e.len() == 14 && f.len()
        == 12);
    assert(a[0] != f[0]);
    assert(a != f);
    if k == a {
    } else if k == b {
    } else if k == c {
    } else if k == d {
    } else if k == e {
    } else if k == f {
    }
}

/// The options array is accepted exactly when every entry names one of the
/// six options with a boolean; then each option takes the value its last
/// entry gives, and its default when no entry names it.
pub proof fn lemma_parsed_option_fields(es: Seq<(ArrayKey, ZvalInput)>)
    ensures
        parsed_options(es) is Ok <==> forall|i: int| 0 <= i < es.len() ==> entry_accepted(#[trigger] es[i]),
        parsed_options(es) matches Ok(o) ==> {
            &&& o.unicode_nfkc == given_value(es, "unicode_nfkc"@, true)
            &&& o.lowercase == given_value(es, "lowercase"@, true)
            &&& o.remove_whitespace == given_value(es, "remove_whitespace"@, true)
            &&& o.remove_punctuation == given_value(es, "remove_punctuation"@, false)
            &&& o.remove_symbols == given_value(es, "remove_symbols"@, false)
            &&& o.remove_emoji == given_value(es, "remove_emoji"@, true)
        },
    decreases es.len(),
{
    if es.len() > 0 {
        let prev = es.drop_last();
        lemma_parsed_option_fields(prev);
        assert forall|i: int| 0 <= i < prev.len() implies #[trigger] prev[i] == es[i] by {}
        if parsed_options(prev) is Ok {
            let o = parsed_options(prev)->Ok_0;
            let e = es.last();
            if entry_accepted(e) {
                let k = entry_name(e).unwrap();
                let v = e.1->Bool_0;
                assert(e.0 is Str);
                assert(parsed_options(es) == crate::php::set_option(o, k, v));
                lemma_set_option_fields(o, k, v);
            } else {
                match e.0 {
                    ArrayKey::Str(bytes) => {
                        if valid_utf8(bytes@) && e.1 is Bool {
                            lemma_set_option_fields(o, decode_utf8(bytes@), e.1->Bool_0);
                        }
                    },
                    ArrayKey::Long(_) => {},
                }
                assert(parsed_options(es) is Err);
            }
            assert((forall|i: int| 0 <= i < es.len() ==> entry_accepted(#[trigger] es[i])) <==> entry_accepted(
                e,
            )) by {
                if entry_accepted(e) {
                    assert forall|i: int| 0 <= i < es.len() implies entry_accepted(#[trigger] es[i]) by {
                        if i < prev.len() {
                            assert(prev[i] == es[i]);
                        }
                    }
                }
            }
        } else {
            let j = choose|j: int| 0 <= j < prev.len() && !entry_accepted(#[trigger] prev[j]);
            assert(es[j] == prev[j]);
        }
    }
}

/// What `UnicodeClasses::new` establishes of the punctuation and symbol
/// classes on ASCII characters.
pub open spec fn ascii_classes_known() -> bool {
    &&& forall|c: char|
        (c as u32) < 0x80 ==> (#[trigger] regex_finds(punctuation_pattern(), seq![c]) <==> ascii_punctuation(c))
    &&& forall|c: char|
        (c as u32) < 0x80 ==> (#[trigger] regex_finds(symbol_pattern(), seq![c]) <==> ascii_symbol(c))
}

/// On an ASCII character the class filters remove exactly the White_Space
/// characters (with `remove_whitespace`), the characters of general category
/// P (with `remove_punctuation`) and those of category S (with
/// `remove_symbols`).
pub proof fn lemma_ascii_class_filters(c: char, o: Options)
    requires
        ascii_classes_known(),
        (c as u32) < 0x80,
    ensures
        keeps_char(c, o) == !(o.remove_whitespace && white_space_code_point(c as u32)
            || o.remove_punctuation && ascii_punctuation(c) || o.remove_symbols && ascii_symbol(c)),
{
    assert(regex_finds(punctuation_pattern(), seq![c]) == ascii_punctuation(c));
    assert(regex_finds(symbol_pattern(), seq![c]) == ascii_symbol(c));
}

/// With `remove_punctuation` (resp. `remove_symbols`), no ASCII character of
/// general category P (resp. S) is left in the normalized text.
pub proof fn lemma_no_ascii_class_left(text: Seq<char>, o: Options)
    requires
        ascii_classes_known(),
    ensures
        o.remove_punctuation ==> forall|i: int|
            0 <= i < normalized_text(text, o).len() ==> !ascii_punctuation(#[trigger] normalized_text(text, o)[i]),
        o.remove_symbols ==> forall|i: int|
            0 <= i < normalized_text(text, o).len() ==> !ascii_symbol(#[trigger] normalized_text(text, o)[i]),
{
    lemma_normalized_text_stages(text, o);
    let tagged = tag_graphemes(grapheme_clusters(text), o.remove_emoji);
    let composed = tag_chars(
        if o.unicode_nfkc {
            nfkc_tags(tagged)
        } else {
            tagged
        },
    );
    let lowered = if o.lowercase {
        composed.map_values(|c: char| lowercase_chars(c)).flatten()
    } else {
        composed
    };
    let kept = lowered.filter(|c: char| keeps_char(c, o));
    assert forall|i: int| 0 <= i < kept.len() implies keeps_char(#[trigger] kept[i], o) by {
        lowered.lemma_filter_pred(|c: char| keeps_char(c, o), i);
    }
    assert forall|i: int| 0 <= i < kept.len() implies (o.remove_punctuation ==> !ascii_punctuation(#[trigger] kept[i]))
        && (o.remove_symbols ==> !ascii_symbol(kept[i])) by {
        assert(keeps_char(kept[i], o));
        if (kept[i] as u32) < 0x80 {
            lemma_ascii_class_filters(kept[i], o);
        }
    }
}

/// Masking without hits gives the text back unchanged.
pub proof fn lemma_mask_without_hits(src: Seq<u8>, rep: Seq<u8>)
    ensures
        masked(src, merge_hits(Seq::<Hit>::empty()), rep) == src,
{
    assert(src.subrange(0, src.len() as int) =~= src);
    assert(masked(src, merge_hits(Seq::<Hit>::empty()), rep) =~= src);
}

} // verus!
