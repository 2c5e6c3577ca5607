//! The Aho–Corasick automaton of the aho-corasick crate, as used for
//! overlapping multi-pattern search over normalized UTF-8 bytes.

use crate::order::Key;
use aho_corasick::{AhoCorasick, AhoCorasickBuilder, FindOverlappingIter, MatchKind};
use vstd::prelude::*;

verus! {

#[verifier::external_type_specification]
#[verifier::external_body]
pub struct ExAhoCorasick(AhoCorasick);

#[verifier::external_type_specification]
#[verifier::external_body]
pub struct ExFindOverlappingIter<'a, 'h>(FindOverlappingIter<'a, 'h>);

/// The matches, as `(start, end, pattern id)`, that an overlapping search
/// iterator has still to yield, in the order it yields them.
pub uninterp spec fn overlapping_remaining(it: FindOverlappingIter<'_, '_>) -> Seq<Key>;

/// The matches, as `(start, end, pattern id)`, that an overlapping search of
/// `hay` with the automaton `ac` reports, in the order it reports them. The
/// search is deterministic: it depends on the automaton and the haystack alone.
pub uninterp spec fn overlapping_order(ac: AhoCorasick, hay: Seq<u8>) -> Seq<Key>;

/// The patterns an automaton was built from; pattern ids are their indices.
pub uninterp spec fn automaton_patterns(ac: AhoCorasick) -> Seq<Seq<u8>>;

/// Whether an automaton was built with `MatchKind::Standard`, which every
/// search used here (overlapping search in particular) supports.
pub uninterp spec fn automaton_is_standard(ac: AhoCorasick) -> bool;

/// Whether `AhoCorasickBuilder` with `MatchKind::Standard` succeeds on these
/// patterns (it fails only when internal size limits are exceeded).
pub uninterp spec fn automaton_builds(patterns: Seq<Seq<u8>>) -> bool;

/// The byte sequences held by a list of byte vectors.
pub open spec fn byte_vecs(v: Seq<Vec<u8>>) -> Seq<Seq<u8>> {
    v.map_values(|b: Vec<u8>| b@)
}

/// Pattern `p` occurs in `hay` at the byte range `[s, e)`.
pub open spec fn occurs_at(patterns: Seq<Seq<u8>>, hay: Seq<u8>, p: int, s: int, e: int) -> bool {
    &&& 0 <= p < patterns.len()
    &&& 0 <= s <= e <= hay.len()
    &&& hay.subrange(s, e) == patterns[p]
}

/// Some pattern occurs somewhere in `hay`.
pub open spec fn any_occurrence(patterns: Seq<Seq<u8>>, hay: Seq<u8>) -> bool {
    exists|p: int, s: int, e: int| #[trigger] occurs_at(patterns, hay, p, s, e)
}

/// `AhoCorasickBuilder::new().match_kind(MatchKind::Standard).build(patterns)`.
///
/// On success the automaton searches for exactly `patterns`, pattern `i`
/// having id `i`. The error text is `BuildError`'s display, not described here.
#[verifier::external_body]
pub(crate) fn build_automaton(patterns: &Vec<Vec<u8>>) -> (r: Result<AhoCorasick, String>)
    ensures
        r is Ok <==> automaton_builds(byte_vecs(patterns@)),
        r matches Ok(ac) ==> automaton_patterns(ac) == byte_vecs(patterns@)
            && automaton_is_standard(ac),
{
    AhoCorasickBuilder::new().match_kind(MatchKind::Standard).build(patterns).map_err(
        |error| error.to_string(),
    )
}

/// `AhoCorasick::find_overlapping_iter`, collected as `(start, end, pattern id)`.
///
/// With standard semantics it reports every occurrence of every pattern;
/// the order in which they come is not described here.
#[verifier::external_body]
pub(crate) fn find_overlapping(ac: &AhoCorasick, hay: &[u8]) -> (r: Vec<Key>)
    requires
        automaton_is_standard(*ac),
        forall|p: int|
            0 <= p < automaton_patterns(*ac).len() ==> #[trigger] automaton_patterns(*ac)[p].len()
                > 0,
    ensures
        forall|i: int|
            0 <= i < r.len() ==> occurs_at(
                automaton_patterns(*ac),
                hay@,
                (#[trigger] r@[i]).2 as int,
                r@[i].0 as int,
                r@[i].1 as int,
            ),
        forall|p: int, s: int, e: int|
            #[trigger] occurs_at(automaton_patterns(*ac), hay@, p, s, e) ==> r@.contains(
                (s as usize, e as usize, p as usize),
            ),
{
    ac.find_overlapping_iter(hay).map(|m| (m.start(), m.end(), m.pattern().as_usize())).collect()
}

/// `AhoCorasick::find_overlapping_iter`: a lazy overlapping search of `hay`.
///
/// The iterator will yield the overlapping search order of `hay`; with
/// standard semantics that is every occurrence of every pattern, and only
/// occurrences. What the order is, is not described here.
#[verifier::external_body]
pub(crate) fn overlapping_iter<'a, 'h>(ac: &'a AhoCorasick, hay: &'h [u8]) -> (r: FindOverlappingIter<
    'a,
    'h,
>)
    requires
        automaton_is_standard(*ac),
        forall|p: int|
            0 <= p < automaton_patterns(*ac).len() ==> #[trigger] automaton_patterns(*ac)[p].len()
                > 0,
    ensures
        overlapping_remaining(r) == overlapping_order(*ac, hay@),
        forall|i: int|
            0 <= i < overlapping_remaining(r).len() ==> occurs_at(
                automaton_patterns(*ac),
                hay@,
                (#[trigger] overlapping_remaining(r)[i]).2 as int,
                overlapping_remaining(r)[i].0 as int,
                overlapping_remaining(r)[i].1 as int,
            ),
        forall|p: int, s: int, e: int|
            #[trigger] occurs_at(automaton_patterns(*ac), hay@, p, s, e) ==> overlapping_remaining(
                r,
            ).contains((s as usize, e as usize, p as usize)),
{
    ac.find_overlapping_iter(hay)
}

/// `FindOverlappingIter::next`: takes the first of the remaining matches,
/// or `None` when there are none.
#[verifier::external_body]
pub(crate) fn overlapping_next(it: &mut FindOverlappingIter<'_, '_>) -> (r: Option<Key>)
    ensures
        overlapping_remaining(*old(it)).len() == 0 ==> r is None,
        overlapping_remaining(*old(it)).len() > 0 ==> r == Some(overlapping_remaining(*old(it))[0])
            && overlapping_remaining(*final(it)) == overlapping_remaining(*old(it)).drop_first(),
{
    it.next().map(|m| (m.start(), m.end(), m.pattern().as_usize()))
}

/// `AhoCorasick::is_match`: whether any pattern occurs in `hay`.
#[verifier::external_body]
pub(crate) fn automaton_is_match(ac: &AhoCorasick, hay: &[u8]) -> (r: bool)
    requires
        automaton_is_standard(*ac),
        forall|p: int|
            0 <= p < automaton_patterns(*ac).len() ==> #[trigger] automaton_patterns(*ac)[p].len()
                > 0,
    ensures
        r == any_occurrence(automaton_patterns(*ac), hay@),
{
    ac.is_match(hay)
}

/// The length of the longest of `patterns` (0 when there are none).
pub open spec fn longest(patterns: Seq<Seq<u8>>) -> nat
    decreases patterns.len(),
{
    if patterns.len() == 0 {
        0
    } else {
        let rest = longest(patterns.drop_last());
        if patterns.last().len() > rest {
            patterns.last().len()
        } else {
            rest
        }
    }
}

/// No pattern is longer than `longest`.
pub proof fn lemma_longest_bounds(patterns: Seq<Seq<u8>>)
    ensures
        forall|p: int| 0 <= p < patterns.len() ==> #[trigger] patterns[p].len() <= longest(patterns),
    decreases patterns.len(),
{
    if patterns.len() > 0 {
        let rest = patterns.drop_last();
        lemma_longest_bounds(rest);
        assert forall|p: int| 0 <= p < patterns.len() implies #[trigger] patterns[p].len() <= longest(
            patterns,
        ) by {
            if p < rest.len() {
                assert(patterns[p] == rest[p]);
            }
        }
    }
}

/// `AhoCorasick::max_pattern_len`: the length of the longest pattern.
#[verifier::external_body]
pub(crate) fn automaton_max_pattern_len(ac: &AhoCorasick) -> (r: usize)
    requires
        automaton_patterns(*ac).len() > 0,
    ensures
        r == longest(automaton_patterns(*ac)),
{
    ac.max_pattern_len()
}

} // verus!
