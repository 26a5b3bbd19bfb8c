//! Deduplication that keeps first-seen order.
//!
//! `dedup_first` states the result mathematically: the distinct elements of
//! a sequence, each at its first occurrence, in that order. The executable
//! side is backed by `indexmap::IndexSet`, an insertion-ordered set, reached
//! through the trusted items below.

use vstd::prelude::*;

verus! {

/// `indexmap::IndexSet`, declared so that it can stand in signatures.
#[verifier::external_type_specification]
#[verifier::external_body]
#[verifier::reject_recursive_types(T)]
#[verifier::reject_recursive_types(S)]
pub struct ExIndexSet<T, S>(indexmap::IndexSet<T, S>);

/// The elements a word set holds, in insertion order.
pub uninterp spec fn word_set_elems(s: indexmap::IndexSet<Vec<u8>>) -> Seq<Seq<u8>>;

/// Relies on `indexmap::IndexSet::new`: a new set holds nothing.
#[verifier::external_body]
pub fn word_set_new() -> (r: indexmap::IndexSet<Vec<u8>>)
    ensures
        word_set_elems(r) == Seq::<Seq<u8>>::empty(),
{
    indexmap::IndexSet::new()
}

/// Relies on `indexmap::IndexSet::insert`: inserting an element the set
/// already holds returns false and changes nothing, not even the order;
/// inserting a new element appends it and returns true.
#[verifier::external_body]
pub fn word_set_insert(s: &mut indexmap::IndexSet<Vec<u8>>, v: Vec<u8>) -> (r: bool)
    ensures
        r == !word_set_elems(*old(s)).contains(v@),
        word_set_elems(*final(s)) == (if word_set_elems(*old(s)).contains(v@) {
            word_set_elems(*old(s))
        } else {
            word_set_elems(*old(s)).push(v@)
        }),
{
    s.insert(v)
}

/// Relies on `indexmap::IndexSet::into_iter`: it yields the elements in
/// their order in the set.
#[verifier::external_body]
pub fn word_set_to_vec(s: indexmap::IndexSet<Vec<u8>>) -> (r: Vec<Vec<u8>>)
    ensures
        r@.map_values(|v: Vec<u8>| v@) == word_set_elems(s),
{
    s.into_iter().collect()
}

/// The distinct elements of `ws`, each at its first occurrence, in order.
pub open spec fn dedup_first(ws: Seq<Seq<u8>>) -> Seq<Seq<u8>>
    decreases ws.len(),
{
    if ws.len() == 0 {
        Seq::empty()
    } else {
        let rest = dedup_first(ws.drop_last());
        if rest.contains(ws.last()) {
            rest
        } else {
            rest.push(ws.last())
        }
    }
}

/// No element appears twice.
pub open spec fn distinct_seqs(d: Seq<Seq<u8>>) -> bool {
    forall|i: int, j: int| 0 <= i < j < d.len() ==> d[i] != d[j]
}

/// Deduplication keeps exactly the elements of `ws`: nothing is lost and
/// nothing is invented.
pub proof fn lemma_dedup_first_contains(ws: Seq<Seq<u8>>, x: Seq<u8>)
    ensures
        dedup_first(ws).contains(x) <==> ws.contains(x),
    decreases ws.len(),
{
    if ws.len() > 0 {
        let prefix = ws.drop_last();
        let rest = dedup_first(prefix);
        lemma_dedup_first_contains(prefix, x);
        if ws.last() == x {
            assert(ws[ws.len() - 1] == x);
            assert(ws.contains(x));
            if !rest.contains(x) {
                let d = rest.push(x);
                assert(d[d.len() - 1] == x);
                assert(d.contains(x));
            }
        } else {
            if ws.contains(x) {
                let i = choose|i: int| 0 <= i < ws.len() && ws[i] == x;
                assert(prefix[i] == x);
                assert(prefix.contains(x));
            }
            if prefix.contains(x) {
                let i = choose|i: int| 0 <= i < prefix.len() && prefix[i] == x;
                assert(ws[i] == x);
                assert(ws.contains(x));
            }
            if !rest.contains(ws.last()) {
                let d = rest.push(ws.last());
                if d.contains(x) {
                    let i = choose|i: int| 0 <= i < d.len() && d[i] == x;
                    assert(rest[i] == x);
                    assert(rest.contains(x));
                }
                if rest.contains(x) {
                    let i = choose|i: int| 0 <= i < rest.len() && rest[i] == x;
                    assert(d[i] == x);
                    assert(d.contains(x));
                }
            }
        }
    }
}

/// Deduplication leaves no element twice.
pub proof fn lemma_dedup_first_distinct(ws: Seq<Seq<u8>>)
    ensures
        distinct_seqs(dedup_first(ws)),
    decreases ws.len(),
{
    if ws.len() > 0 {
        let prefix = ws.drop_last();
        let rest = dedup_first(prefix);
        lemma_dedup_first_distinct(prefix);
        if !rest.contains(ws.last()) {
            let d = rest.push(ws.last());
            assert forall|i: int, j: int| 0 <= i < j < d.len() implies d[i] != d[j] by {
                if j == d.len() - 1 {
                    if d[i] == ws.last() {
                        assert(rest[i] == ws.last());
                        assert(rest.contains(ws.last()));
                    }
                } else {
                    assert(rest[i] != rest[j]);
                }
            }
        }
    }
}

/// The candidate set is exactly the set of words seen: deduplication keeps
/// the elements as a set and leaves no duplicates.
pub proof fn lemma_dedup_first_set(ws: Seq<Seq<u8>>)
    ensures
        dedup_first(ws).to_set() == ws.to_set(),
        distinct_seqs(dedup_first(ws)),
{
    lemma_dedup_first_distinct(ws);
    assert forall|x: Seq<u8>| dedup_first(ws).contains(x) <==> ws.contains(x) by {
        lemma_dedup_first_contains(ws, x);
    }
    assert(dedup_first(ws).to_set() =~= ws.to_set());
}

/// Index of the first occurrence of `x` in `ws` (the length if absent).
pub open spec fn first_index_of(ws: Seq<Seq<u8>>, x: Seq<u8>) -> int
    decreases ws.len(),
{
    if ws.len() == 0 {
        0
    } else if ws[0] == x {
        0
    } else {
        1 + first_index_of(ws.skip(1), x)
    }
}

pub proof fn lemma_first_index_of(ws: Seq<Seq<u8>>, x: Seq<u8>)
    requires
        ws.contains(x),
    ensures
        0 <= first_index_of(ws, x) < ws.len(),
        ws[first_index_of(ws, x)] == x,
        forall|m: int| 0 <= m < first_index_of(ws, x) ==> ws[m] != x,
    decreases ws.len(),
{
    if ws[0] != x {
        let i = choose|i: int| 0 <= i < ws.len() && ws[i] == x;
        assert(ws.skip(1)[i - 1] == x);
        assert(ws.skip(1).contains(x));
        lemma_first_index_of(ws.skip(1), x);
        assert forall|m: int| 1 <= m < first_index_of(ws, x) implies ws[m] != x by {
            assert(ws.skip(1)[m - 1] == ws[m]);
        }
    }
}

proof fn lemma_first_index_of_push(ws: Seq<Seq<u8>>, y: Seq<u8>, x: Seq<u8>)
    requires
        ws.contains(x),
    ensures
        first_index_of(ws.push(y), x) == first_index_of(ws, x),
    decreases ws.len(),
{
    if ws[0] == x {
        assert(ws.push(y)[0] == x);
    } else {
        assert(ws.push(y)[0] == ws[0]);
        let i = choose|i: int| 0 <= i < ws.len() && ws[i] == x;
        assert(ws.skip(1)[i - 1] == x);
        assert(ws.skip(1).contains(x));
        lemma_first_index_of_push(ws.skip(1), y, x);
        assert(ws.push(y).skip(1) =~= ws.skip(1).push(y));
    }
}

/// First-seen order is preserved: in the deduplicated sequence, elements
/// stand in the order of their first occurrences in `ws`.
pub proof fn lemma_dedup_first_order(ws: Seq<Seq<u8>>)
    ensures
        forall|i: int, j: int| 0 <= i < j < dedup_first(ws).len()
            ==> first_index_of(ws, dedup_first(ws)[i])
                < first_index_of(ws, dedup_first(ws)[j]),
    decreases ws.len(),
{
    if ws.len() > 0 {
        let prefix = ws.drop_last();
        let rest = dedup_first(prefix);
        let d = dedup_first(ws);
        lemma_dedup_first_order(prefix);
        assert(ws =~= prefix.push(ws.last()));
        assert forall|i: int, j: int| 0 <= i < j < d.len()
            implies first_index_of(ws, d[i]) < first_index_of(ws, d[j]) by {
            assert(rest[i] == d[i]);
            assert(rest.contains(d[i]));
            lemma_dedup_first_contains(prefix, d[i]);
            lemma_first_index_of(prefix, d[i]);
            lemma_first_index_of_push(prefix, ws.last(), d[i]);
            if j < rest.len() {
                assert(rest[j] == d[j]);
                assert(rest.contains(d[j]));
                lemma_dedup_first_contains(prefix, d[j]);
                lemma_first_index_of(prefix, d[j]);
                lemma_first_index_of_push(prefix, ws.last(), d[j]);
            } else {
                // d[j] is the appended last element, absent from the prefix.
                assert(!rest.contains(ws.last()));
                lemma_dedup_first_contains(prefix, ws.last());
                assert(ws[ws.len() - 1] == ws.last());
                assert(ws.contains(ws.last()));
                lemma_first_index_of(ws, ws.last());
                let f = first_index_of(ws, ws.last());
                if f < prefix.len() {
                    assert(prefix[f] == ws.last());
                    assert(prefix.contains(ws.last()));
                }
                assert(f == prefix.len());
                lemma_first_index_of(prefix, d[i]);
            }
        }
    }
}

/// A sequence already free of duplicates is its own deduplication.
pub proof fn lemma_dedup_first_distinct_id(ws: Seq<Seq<u8>>)
    requires
        distinct_seqs(ws),
    ensures
        dedup_first(ws) == ws,
    decreases ws.len(),
{
    if ws.len() > 0 {
        let prefix = ws.drop_last();
        lemma_dedup_first_distinct_id(prefix);
        if prefix.contains(ws.last()) {
            let i = choose|i: int| 0 <= i < prefix.len() && prefix[i] == ws.last();
            assert(ws[i] == ws[ws.len() - 1]);
        }
        assert(dedup_first(ws) =~= ws);
    }
}

/// Deduplicating twice is the same as deduplicating once.
pub proof fn lemma_dedup_first_idempotent(ws: Seq<Seq<u8>>)
    ensures
        dedup_first(dedup_first(ws)) == dedup_first(ws),
{
    lemma_dedup_first_distinct(ws);
    lemma_dedup_first_distinct_id(dedup_first(ws));
}

} // verus!
