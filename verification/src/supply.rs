//! The quantity of each item that a set of aisles offers.

use vstd::prelude::*;

use crate::entries::{
    distinct_items, items_below, lemma_distinct_lookup, lemma_distinct_prefix_step, pairs_to_map,
    qty_of,
};

verus! {

/// The quantity of item `j` offered by the aisles below `n` that `x` holds.
pub open spec fn supply(aisles: Seq<Map<usize, u32>>, x: Set<usize>, j: int, n: nat) -> int
    decreases n,
{
    if n == 0 {
        0
    } else {
        let b = (n - 1) as int;
        supply(aisles, x, j, (n - 1) as nat) + if x.contains(b as usize) {
            qty_of(aisles[b], j)
        } else {
            0
        }
    }
}

/// The supply of every item in `items` is what the aisles of `x` offer.
pub open spec fn supply_matches(
    aisles: Seq<Map<usize, u32>>,
    x: Set<usize>,
    items: Seq<u32>,
) -> bool {
    forall|j: int| 0 <= j < items.len() ==> #[trigger] items[j] == supply(aisles, x, j, aisles.len())
}

/// Every aisle of `x` is an index below `n`.
pub open spec fn aisles_below(x: Set<usize>, n: nat) -> bool {
    forall|b: usize| x.contains(b) ==> b < n
}

/// No aisle offers anything to the empty set.
pub proof fn lemma_supply_empty(aisles: Seq<Map<usize, u32>>, j: int, n: nat)
    ensures
        supply(aisles, Set::empty(), j, n) == 0,
    decreases n,
{
    if n > 0 {
        lemma_supply_empty(aisles, j, (n - 1) as nat);
    }
}

/// Adding an aisle adds what it offers.
pub proof fn lemma_supply_insert(aisles: Seq<Map<usize, u32>>, x: Set<usize>, b: usize, j: int, n: nat)
    requires
        b < n <= usize::MAX,
        !x.contains(b),
    ensures
        supply(aisles, x.insert(b), j, n) == supply(aisles, x, j, n) + qty_of(aisles[b as int], j),
    decreases n,
{
    let c = ((n - 1) as int) as usize;
    if b < n - 1 {
        lemma_supply_insert(aisles, x, b, j, (n - 1) as nat);
        assert(x.insert(b).contains(c) == x.contains(c));
    } else {
        lemma_supply_same_below(aisles, x, x.insert(b), j, (n - 1) as nat);
        assert(c == b);
    }
}

/// Removing an aisle removes what it offers.
pub proof fn lemma_supply_remove(aisles: Seq<Map<usize, u32>>, x: Set<usize>, b: usize, j: int, n: nat)
    requires
        b < n <= usize::MAX,
        x.contains(b),
    ensures
        supply(aisles, x.remove(b), j, n) == supply(aisles, x, j, n) - qty_of(aisles[b as int], j),
{
    lemma_supply_insert(aisles, x.remove(b), b, j, n);
    assert(x.remove(b).insert(b) =~= x);
}

/// Sets that agree below `n` have the same supply.
pub proof fn lemma_supply_same_below(
    aisles: Seq<Map<usize, u32>>,
    x: Set<usize>,
    y: Set<usize>,
    j: int,
    n: nat,
)
    requires
        forall|b: usize| b < n ==> (x.contains(b) <==> y.contains(b)),
    ensures
        supply(aisles, x, j, n) == supply(aisles, y, j, n),
    decreases n,
{
    if n > 0 {
        lemma_supply_same_below(aisles, x, y, j, (n - 1) as nat);
    }
}

/// A larger set of aisles offers at least as much.
pub proof fn lemma_supply_monotone(
    aisles: Seq<Map<usize, u32>>,
    x: Set<usize>,
    y: Set<usize>,
    j: int,
    n: nat,
)
    requires
        x.subset_of(y),
    ensures
        supply(aisles, x, j, n) <= supply(aisles, y, j, n),
    decreases n,
{
    if n > 0 {
        lemma_supply_monotone(aisles, x, y, j, (n - 1) as nat);
    }
}

/// The supply is never negative.
pub proof fn lemma_supply_nonnegative(aisles: Seq<Map<usize, u32>>, x: Set<usize>, j: int, n: nat)
    ensures
        supply(aisles, x, j, n) >= 0,
    decreases n,
{
    if n > 0 {
        lemma_supply_nonnegative(aisles, x, j, (n - 1) as nat);
    }
}


/// `items` with the quantities of `m` added.
pub open spec fn plus_items(items: Seq<u32>, m: Map<usize, u32>) -> Seq<int> {
    Seq::new(items.len(), |j: int| items[j] + qty_of(m, j))
}

/// Adds the quantities of `entries` to `items`.
pub fn add_entries(items: &mut Vec<u32>, entries: &Vec<(usize, u32)>)
    requires
        distinct_items(entries@),
        items_below(pairs_to_map(entries@), old(items).len() as int),
        forall|j: int|
            0 <= j < old(items).len() ==> old(items)@[j] + #[trigger] qty_of(pairs_to_map(entries@), j)
                <= u32::MAX,
    ensures
        final(items).len() == old(items).len(),
        forall|j: int|
            0 <= j < final(items).len() ==> #[trigger] final(items)@[j] == old(items)@[j] + qty_of(
                pairs_to_map(entries@),
                j,
            ),
{
    let ghost m = pairs_to_map(entries@);
    let ghost items0 = items@;
    let mut t: usize = 0;
    while t < entries.len()
        invariant
            t <= entries.len(),
            distinct_items(entries@),
            m == pairs_to_map(entries@),
            items_below(m, items0.len() as int),
            items.len() == items0.len(),
            forall|j: int| 0 <= j < items0.len() ==> items0[j] + #[trigger] qty_of(m, j) <= u32::MAX,
            forall|j: int| 0 <= j < items0.len() ==> #[trigger] items@[j]
                == items0[j] + qty_of(pairs_to_map(entries@.take(t as int)), j),
        decreases entries.len() - t,
    {
        let (item, qty) = entries[t];
        proof {
            lemma_distinct_lookup(entries@, t as int);
            lemma_distinct_prefix_step(entries@, t as int);
        }
        let ghost m_t = pairs_to_map(entries@.take(t as int));
        let ghost m_next = pairs_to_map(entries@.take(t + 1));
        let ghost prev = items@;
        assert(qty_of(m_t, item as int) == 0);
        assert(qty_of(m, item as int) == qty);
        items.set(item, items[item] + qty);
        assert forall|j: int| 0 <= j < items0.len() implies #[trigger] items@[j] == items0[j]
            + qty_of(m_next, j) by {
            if j != item as int {
                assert(qty_of(m_next, j) == qty_of(m_t, j));
                assert(items@[j] == prev[j]);
            }
        }
        t = t + 1;
    }
    assert(entries@.take(t as int) =~= entries@);
}

/// Subtracts the quantities of `entries` from `items`.
pub fn subtract_entries(items: &mut Vec<u32>, entries: &Vec<(usize, u32)>)
    requires
        distinct_items(entries@),
        items_below(pairs_to_map(entries@), old(items).len() as int),
        forall|j: int|
            0 <= j < old(items).len() ==> old(items)@[j] - #[trigger] qty_of(pairs_to_map(entries@), j)
                >= 0,
    ensures
        final(items).len() == old(items).len(),
        forall|j: int|
            0 <= j < final(items).len() ==> #[trigger] final(items)@[j] == old(items)@[j] - qty_of(
                pairs_to_map(entries@),
                j,
            ),
{
    let ghost m = pairs_to_map(entries@);
    let ghost items0 = items@;
    let mut t: usize = 0;
    while t < entries.len()
        invariant
            t <= entries.len(),
            distinct_items(entries@),
            m == pairs_to_map(entries@),
            items_below(m, items0.len() as int),
            items.len() == items0.len(),
            forall|j: int| 0 <= j < items0.len() ==> items0[j] - #[trigger] qty_of(m, j) >= 0,
            forall|j: int| 0 <= j < items0.len() ==> #[trigger] items@[j]
                == items0[j] - qty_of(pairs_to_map(entries@.take(t as int)), j),
        decreases entries.len() - t,
    {
        let (item, qty) = entries[t];
        proof {
            lemma_distinct_lookup(entries@, t as int);
            lemma_distinct_prefix_step(entries@, t as int);
        }
        let ghost m_t = pairs_to_map(entries@.take(t as int));
        let ghost m_next = pairs_to_map(entries@.take(t + 1));
        let ghost prev = items@;
        assert(qty_of(m_t, item as int) == 0);
        assert(qty_of(m, item as int) == qty);
        items.set(item, items[item] - qty);
        assert forall|j: int| 0 <= j < items0.len() implies #[trigger] items@[j] == items0[j]
            - qty_of(m_next, j) by {
            if j != item as int {
                assert(qty_of(m_next, j) == qty_of(m_t, j));
                assert(items@[j] == prev[j]);
            }
        }
        t = t + 1;
    }
    assert(entries@.take(t as int) =~= entries@);
}

} // verus!
