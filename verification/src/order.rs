//! Sorting of match keys `(start, end, id)`: by start ascending, then end
//! descending (longer first), then id ascending.

use vstd::prelude::*;

verus! {

broadcast use vstd::seq_lib::group_seq_properties, vstd::seq::group_seq_axioms;

/// A match key: start offset, end offset, pattern id.
pub type Key = (usize, usize, usize);

/// The key order: start ascending, end descending, id ascending.
pub open spec fn key_le(a: Key, b: Key) -> bool {
    a.0 < b.0 || (a.0 == b.0 && (a.1 > b.1 || (a.1 == b.1 && a.2 <= b.2)))
}

/// The strict key order.
pub open spec fn key_lt(a: Key, b: Key) -> bool {
    key_le(a, b) && a != b
}

/// `s` is ordered by `key_le`.
pub open spec fn sorted_keys(s: Seq<Key>) -> bool {
    forall|i: int, j: int| 0 <= i < j < s.len() ==> key_le(#[trigger] s[i], #[trigger] s[j])
}

/// `s` is strictly ordered by `key_lt` (sorted without repeats).
pub open spec fn strictly_sorted_keys(s: Seq<Key>) -> bool {
    forall|i: int, j: int| 0 <= i < j < s.len() ==> key_lt(#[trigger] s[i], #[trigger] s[j])
}

/// Whether `a` orders before or equal to `b`.
pub fn key_le_exec(a: Key, b: Key) -> (r: bool)
    ensures
        r == key_le(a, b),
{
    a.0 < b.0 || (a.0 == b.0 && (a.1 > b.1 || (a.1 == b.1 && a.2 <= b.2)))
}

/// Merges two sorted sequences of keys.
fn merge(a: &Vec<Key>, b: &Vec<Key>) -> (r: Vec<Key>)
    requires
        sorted_keys(a@),
        sorted_keys(b@),
    ensures
        sorted_keys(r@),
        r.len() == a.len() + b.len(),
        forall|x: Key| r@.contains(x) <==> (a@.contains(x) || b@.contains(x)),
        r@.to_multiset() == a@.to_multiset().add(b@.to_multiset()),
{
    broadcast use vstd::seq_lib::group_to_multiset_ensures, vstd::multiset::group_multiset_axioms;

    let mut out: Vec<Key> = Vec::new();
    let mut i: usize = 0;
    let mut j: usize = 0;
    while i < a.len() || j < b.len()
        invariant
            i <= a.len(),
            j <= b.len(),
            sorted_keys(a@),
            sorted_keys(b@),
            sorted_keys(out@),
            out.len() == i + j,
            out@.to_multiset() == a@.take(i as int).to_multiset().add(b@.take(j as int).to_multiset()),
            forall|x: Key| out@.contains(x) <==> (a@.take(i as int).contains(x) || b@.take(j as int).contains(x)),
            out.len() > 0 && i < a.len() ==> key_le(out@.last(), a@[i as int]),
            out.len() > 0 && j < b.len() ==> key_le(out@.last(), b@[j as int]),
        decreases a.len() + b.len() - i - j,
    {
        let ghost prev = out@;
        if j >= b.len() || (i < a.len() && key_le_exec(a[i], b[j])) {
            let x = a[i];
            out.push(x);
            assert(a@.take(i + 1) =~= a@.take(i as int).push(x));
            assert(out@ =~= prev.push(x));
            assert(out@.to_multiset() =~= a@.take(i + 1).to_multiset().add(b@.take(j as int).to_multiset()));
            i = i + 1;
        } else {
            let x = b[j];
            out.push(x);
            assert(b@.take(j + 1) =~= b@.take(j as int).push(x));
            assert(out@ =~= prev.push(x));
            assert(out@.to_multiset() =~= a@.take(i as int).to_multiset().add(b@.take(j + 1).to_multiset()));
            j = j + 1;
        }
        assert forall|p: int, q: int| 0 <= p < q < out@.len() implies key_le(
            #[trigger] out@[p],
            #[trigger] out@[q],
        ) by {
            if q == out@.len() - 1 && p < q {
                assert(key_le(out@[p], prev.last()) || p == prev.len() - 1);
            }
        }
    }
    assert(a@.take(a.len() as int) =~= a@);
    assert(b@.take(b.len() as int) =~= b@);
    out
}

/// Sorts keys by `key_le` (merge sort).
pub fn sort_keys(v: Vec<Key>) -> (r: Vec<Key>)
    ensures
        sorted_keys(r@),
        r.len() == v.len(),
        forall|x: Key| r@.contains(x) <==> v@.contains(x),
        r@.to_multiset() == v@.to_multiset(),
    decreases v.len(),
{
    if v.len() <= 1 {
        return v;
    }
    let ghost whole = v@;
    let mut left = v;
    let mid = left.len() / 2;
    let right = left.split_off(mid);
    assert(whole =~= left@ + right@);
    let l = sort_keys(left);
    let r = sort_keys(right);
    let out = merge(&l, &r);
    proof {
        vstd::seq_lib::lemma_multiset_commutative(left@, right@);
    }
    assert forall|x: Key| out@.contains(x) <==> whole.contains(x) by {
        if whole.contains(x) {
            let k = choose|k: int| 0 <= k < whole.len() && whole[k] == x;
            if k < left@.len() {
                assert(left@[k] == x);
            } else {
                assert(right@[k - left@.len()] == x);
            }
        }
    }
    out
}

/// Drops repeated neighbours of a sorted sequence, leaving it strictly sorted.
pub fn dedup_sorted(v: &Vec<Key>) -> (r: Vec<Key>)
    requires
        sorted_keys(v@),
    ensures
        strictly_sorted_keys(r@),
        forall|x: Key| r@.contains(x) <==> v@.contains(x),
{
    let mut out: Vec<Key> = Vec::new();
    let n = v.len();
    for i in 0..n
        invariant
            n == v.len(),
            sorted_keys(v@),
            strictly_sorted_keys(out@),
            forall|x: Key| out@.contains(x) <==> v@.take(i as int).contains(x),
            i > 0 ==> out.len() > 0 && out@.last() == v@[i - 1],
            out.len() <= i,
    {
        let x = v[i];
        let ghost prev = out@;
        assert(v@.take(i + 1) =~= v@.take(i as int).push(x));
        let fresh = if out.len() == 0 {
            true
        } else {
            let y = out[out.len() - 1];
            !(y.0 == x.0 && y.1 == x.1 && y.2 == x.2)
        };
        if fresh {
            out.push(x);
            assert forall|p: int, q: int| 0 <= p < q < out@.len() implies key_lt(
                #[trigger] out@[p],
                #[trigger] out@[q],
            ) by {
                if q == out@.len() - 1 {
                    assert(key_le(v@[i - 1], v@[i as int]));
                    if p < q - 1 {
                        assert(key_lt(prev[p], prev.last()));
                    }
                }
            }
        }
    }
    assert(v@.take(n as int) =~= v@);
    out
}

} // verus!
