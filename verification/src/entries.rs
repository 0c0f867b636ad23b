//! Lists of `(item, quantity)` pairs and the maps they describe.

use std::collections::HashMap;
use vstd::prelude::*;
use vstd::std_specs::iter::IteratorSpec;

verus! {

broadcast use vstd::std_specs::hash::group_hash_axioms;

/// The map that inserting the pairs of `pairs` in order builds: a later pair
/// for an item replaces an earlier one.
pub open spec fn pairs_to_map(pairs: Seq<(usize, u32)>) -> Map<usize, u32>
    decreases pairs.len(),
{
    if pairs.len() == 0 {
        Map::empty()
    } else {
        pairs_to_map(pairs.drop_last()).insert(pairs.last().0, pairs.last().1)
    }
}

/// The sum of the quantities of all pairs, repeated items included.
pub open spec fn pair_total(pairs: Seq<(usize, u32)>) -> int
    decreases pairs.len(),
{
    if pairs.len() == 0 {
        0
    } else {
        pair_total(pairs.drop_last()) + pairs.last().1
    }
}

/// No item occurs twice in `entries`.
pub open spec fn distinct_items(entries: Seq<(usize, u32)>) -> bool {
    forall|s: int, t: int| 0 <= s < t < entries.len() ==> entries[s].0 != entries[t].0
}

/// The quantity that `m` gives `item`, zero where it gives none.
pub open spec fn qty_of(m: Map<usize, u32>, item: int) -> int {
    if 0 <= item <= usize::MAX && m.contains_key(item as usize) {
        m[item as usize] as int
    } else {
        0
    }
}

/// Every item of `m` is below `n`.
pub open spec fn items_below(m: Map<usize, u32>, n: int) -> bool {
    forall|item: usize| m.contains_key(item) ==> item < n
}

/// The keys of the map are the items of the pairs.
pub proof fn lemma_pairs_to_map_keys(pairs: Seq<(usize, u32)>, item: usize)
    ensures
        pairs_to_map(pairs).contains_key(item) <==> exists|s: int|
            0 <= s < pairs.len() && #[trigger] pairs[s].0 == item,
    decreases pairs.len(),
{
    if pairs.len() > 0 {
        lemma_pairs_to_map_keys(pairs.drop_last(), item);
        if pairs_to_map(pairs.drop_last()).contains_key(item) {
            let s = choose|s: int| 0 <= s < pairs.drop_last().len() && pairs.drop_last()[s].0 == item;
            assert(pairs[s].0 == item);
        }
        if exists|s: int| 0 <= s < pairs.len() && #[trigger] pairs[s].0 == item {
            let s = choose|s: int| 0 <= s < pairs.len() && #[trigger] pairs[s].0 == item;
            if s < pairs.len() - 1 {
                assert(pairs.drop_last()[s].0 == item);
            }
        }
    }
}

/// In a list without repeated items, each pair is what the map says.
pub proof fn lemma_distinct_lookup(entries: Seq<(usize, u32)>, s: int)
    requires
        distinct_items(entries),
        0 <= s < entries.len(),
    ensures
        pairs_to_map(entries).contains_key(entries[s].0),
        pairs_to_map(entries)[entries[s].0] == entries[s].1,
    decreases entries.len(),
{
    if s < entries.len() - 1 {
        lemma_distinct_lookup(entries.drop_last(), s);
    }
}

/// The map of a prefix one pair longer, for a list without repeated items.
pub proof fn lemma_distinct_prefix_step(entries: Seq<(usize, u32)>, t: int)
    requires
        distinct_items(entries),
        0 <= t < entries.len(),
    ensures
        pairs_to_map(entries.take(t + 1)) == pairs_to_map(entries.take(t)).insert(
            entries[t].0,
            entries[t].1,
        ),
        !pairs_to_map(entries.take(t)).contains_key(entries[t].0),
{
    assert(entries.take(t + 1).drop_last() =~= entries.take(t));
    lemma_pairs_to_map_keys(entries.take(t), entries[t].0);
}

/// The map of `pairs`: where an item occurs more than once, its last
/// quantity counts.
pub fn map_of(pairs: &Vec<(usize, u32)>) -> (m: HashMap<usize, u32>)
    ensures
        m@ == pairs_to_map(pairs@),
{
    let mut m: HashMap<usize, u32> = HashMap::new();
    let mut p: usize = 0;
    while p < pairs.len()
        invariant
            p <= pairs.len(),
            m@ == pairs_to_map(pairs@.take(p as int)),
        decreases pairs.len() - p,
    {
        let (item, qty) = pairs[p];
        assert(pairs@.take(p + 1).drop_last() =~= pairs@.take(p as int));
        assert(pairs@.take(p + 1).last() == (item, qty));
        m.insert(item, qty);
        p = p + 1;
    }
    assert(pairs@.take(p as int) =~= pairs@);
    m
}

/// The pairs of the map `m`, each item once, in the order in which the map
/// hands them out.
pub fn entries_of(m: &HashMap<usize, u32>) -> (entries: Vec<(usize, u32)>)
    ensures
        distinct_items(entries@),
        pairs_to_map(entries@) == m@,
{
    let mut entries: Vec<(usize, u32)> = Vec::new();
    let ghost listed = vstd::std_specs::hash::spec_hash_map_iter(m).remaining();
    proof {
        vstd::std_specs::hash::axiom_spec_hash_map_iter(m);
    }
    for kv in it: m.iter()
        invariant
            it.seq() == listed,
            entries@ == it.seq().take(it.index() as int).map_values(
                |e: (&usize, &u32)| (*e.0, *e.1),
            ),
    {
        let (k, v) = kv;
        entries.push((*k, *v));
        assert(entries@ =~= it.seq().take(it.index() + 1).map_values(
            |e: (&usize, &u32)| (*e.0, *e.1),
        ));
    }
    assert(entries@ =~= listed.map_values(|e: (&usize, &u32)| (*e.0, *e.1)));
    proof {
        assert(listed.no_duplicates());
        assert forall|s: int, t: int| 0 <= s < t < entries@.len() implies entries@[s].0
            != entries@[t].0 by {
            if entries@[s].0 == entries@[t].0 {
                assert(m@[*listed[s].0] == *listed[s].1);
                assert(m@[*listed[t].0] == *listed[t].1);
                assert(listed[s] == listed[t]);
            }
        }
        assert forall|k: usize| #[trigger] pairs_to_map(entries@).contains_key(k) <==> m@.contains_key(k) by {
            lemma_pairs_to_map_keys(entries@, k);
            if m@.contains_key(k) {
                assert(listed.contains((&k, &m@[k])));
                let s = choose|s: int| 0 <= s < listed.len() && listed[s] == (&k, &m@[k]);
                assert(entries@[s].0 == k);
            }
            if pairs_to_map(entries@).contains_key(k) {
                let s = choose|s: int| 0 <= s < entries@.len() && #[trigger] entries@[s].0 == k;
                assert(m@.contains_key(*listed[s].0));
            }
        }
        assert forall|k: usize| #[trigger] pairs_to_map(entries@).contains_key(k) implies pairs_to_map(
            entries@,
        )[k] == m@[k] by {
            lemma_pairs_to_map_keys(entries@, k);
            let s = choose|s: int| 0 <= s < entries@.len() && #[trigger] entries@[s].0 == k;
            lemma_distinct_lookup(entries@, s);
            assert(m@[*listed[s].0] == *listed[s].1);
        }
        assert(pairs_to_map(entries@) =~= m@);
    }
    entries
}

/// The sum of all quantities of `pairs`, or `None` where it does not fit a `u32`.
pub fn checked_total(pairs: &Vec<(usize, u32)>) -> (total: Option<u32>)
    ensures
        match total {
            Some(t) => t == pair_total(pairs@),
            None => pair_total(pairs@) > u32::MAX,
        },
{
    let mut sum: u32 = 0;
    let mut p: usize = 0;
    while p < pairs.len()
        invariant
            p <= pairs.len(),
            sum == pair_total(pairs@.take(p as int)),
        decreases pairs.len() - p,
    {
        assert(pairs@.take(p + 1).drop_last() =~= pairs@.take(p as int));
        match sum.checked_add(pairs[p].1) {
            Some(next) => {
                sum = next;
            },
            None => {
                proof {
                    lemma_pair_total_prefix(pairs@, (p + 1) as nat);
                }
                return None;
            },
        }
        p = p + 1;
    }
    assert(pairs@.take(p as int) =~= pairs@);
    Some(sum)
}

/// A prefix never sums to more than the whole.
pub proof fn lemma_pair_total_prefix(pairs: Seq<(usize, u32)>, n: nat)
    requires
        n <= pairs.len(),
    ensures
        pair_total(pairs.take(n as int)) <= pair_total(pairs),
    decreases pairs.len() - n,
{
    if n < pairs.len() {
        assert(pairs.take(n + 1 as int).drop_last() =~= pairs.take(n as int));
        lemma_pair_total_prefix(pairs, (n + 1) as nat);
    } else {
        assert(pairs.take(n as int) =~= pairs);
    }
}

} // verus!
