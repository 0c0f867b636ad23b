//! Random sampling and sorting of aisle indices.

use rand::rngs::StdRng;
use rand::seq::IteratorRandom;
use std::collections::HashSet;
use vstd::prelude::*;
use vstd::std_specs::iter::IteratorSpec;

verus! {

broadcast use vstd::std_specs::hash::group_hash_axioms;

/// The random number generator of the `rand` crate that the swarm draws from.
#[verifier::external_type_specification]
#[verifier::external_body]
pub struct ExStdRng(StdRng);

/// `IteratorRandom::sample` (rand) over the elements of `pool`, in order.
/// Its documentation and source show that it returns `amount` of the
/// elements, or all of them where there are fewer, each element of `pool` at
/// most once; which ones, and in which order, depends on the generator.
#[verifier::external_body]
pub(crate) fn sample_from<T: Copy>(rng: &mut StdRng, pool: &Vec<T>, amount: usize) -> (picked: Vec<T>)
    ensures
        picked.len() == if amount < pool.len() {
            amount
        } else {
            pool.len()
        },
        picked@.to_multiset().subset_of(pool@.to_multiset()),
{
    pool.iter().copied().sample(rng, amount)
}

/// `slice::sort_unstable` on indices. Its documentation promises that the
/// slice ends up in non-decreasing order and holds the same elements.
#[verifier::external_body]
fn sort_indices(v: &mut Vec<usize>)
    ensures
        final(v)@.to_multiset() == old(v)@.to_multiset(),
        forall|s: int, t: int| 0 <= s < t < final(v)@.len() ==> final(v)@[s] <= final(v)@[t],
{
    v.sort_unstable();
}

/// An element of a sequence with one more element at the end is that
/// element or an element of the shorter sequence.
pub proof fn lemma_push_contains<T>(s: Seq<T>, x: T, y: T)
    ensures
        s.push(x).contains(y) <==> (s.contains(y) || y == x),
{
    if s.push(x).contains(y) {
        let k = choose|k: int| 0 <= k < s.push(x).len() && s.push(x)[k] == y;
        if k < s.len() {
            assert(s[k] == y);
        }
    }
    if s.contains(y) {
        let k = choose|k: int| 0 <= k < s.len() && s[k] == y;
        assert(s.push(x)[k] == y);
    }
    if y == x {
        assert(s.push(x)[s.len() as int] == y);
    }
}

/// What a sample drawn from `pool` holds: elements of `pool`, none twice
/// where `pool` has none twice.
pub proof fn lemma_sample_elements<T>(picked: Seq<T>, pool: Seq<T>)
    requires
        picked.to_multiset().subset_of(pool.to_multiset()),
    ensures
        forall|x: T| picked.contains(x) ==> pool.contains(x),
        pool.no_duplicates() ==> picked.no_duplicates(),
{
    broadcast use vstd::seq_lib::group_to_multiset_ensures;

    assert forall|x: T| picked.contains(x) implies pool.contains(x) by {
        assert(picked.to_multiset().count(x) > 0);
        assert(pool.to_multiset().count(x) > 0);
    }
    if pool.no_duplicates() {
        pool.lemma_multiset_has_no_duplicates();
        assert forall|x: T| picked.to_multiset().count(x) <= 1 by {
            assert(picked.to_multiset().count(x) <= pool.to_multiset().count(x));
        }
        picked.lemma_multiset_has_no_duplicates_conv();
    }
}

/// `s` lists its elements in strictly increasing order.
pub open spec fn ascending(s: Seq<usize>) -> bool {
    forall|p: int, q: int| 0 <= p < q < s.len() ==> s[p] < s[q]
}

/// The elements of `set` in increasing order.
pub fn set_elements(set: &HashSet<usize>) -> (elems: Vec<usize>)
    ensures
        ascending(elems@),
        elems@.to_set() == set@,
        elems@.len() == set@.len(),
{
    let mut elems: Vec<usize> = Vec::new();
    let ghost keys = vstd::std_specs::hash::spec_hash_keys_iter(set).remaining().unref();
    proof {
        vstd::std_specs::hash::axiom_spec_hash_keys_iter(set);
    }
    for e in it: set.iter()
        invariant
            it.seq().unref() == keys,
            elems@ == it.seq().take(it.index() as int).unref(),
    {
        elems.push(*e);
        assert(elems@ =~= it.seq().take(it.index() + 1).unref());
    }
    assert(elems@ =~= keys);
    let ghost listed = elems@;
    assert(listed.to_set() == set@);
    assert(listed.no_duplicates());
    sort_indices(&mut elems);
    proof {
        broadcast use vstd::seq_lib::group_to_multiset_ensures;

        assert(listed.len() == set@.len());
        assert(elems@.to_multiset().len() == listed.to_multiset().len());
        listed.lemma_multiset_has_no_duplicates();
        assert forall|x: usize| elems@.to_multiset().count(x) <= 1 by {}
        elems@.lemma_multiset_has_no_duplicates_conv();
        assert forall|x: usize| elems@.contains(x) <==> listed.contains(x) by {
            assert(elems@.to_multiset().count(x) == listed.to_multiset().count(x));
        }
        assert(elems@.to_set() =~= listed.to_set());
        assert forall|p: int, q: int| 0 <= p < q < elems@.len() implies elems@[p] < elems@[q] by {
            assert(elems@[p] <= elems@[q]);
        }
    }
    elems
}

} // verus!
