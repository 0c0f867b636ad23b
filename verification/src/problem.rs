//! An instance of the order batching problem: reading it from its text
//! format and choosing orders greedily for a given supply of items.

use vstd::prelude::*;

use std::collections::HashMap;

use crate::entries::{
    checked_total, distinct_items, entries_of, items_below, lemma_distinct_lookup,
    lemma_distinct_prefix_step, lemma_pairs_to_map_keys, map_of, pair_total, pairs_to_map, qty_of,
};
use crate::error::{Field, LineKind, ParseError};
use crate::parse::{
    next_line, parse_next, read_records, record_views, spec_field, spec_records, token_lines,
    token_views,
};
use crate::methods::sbpso::sampling::lemma_push_contains;
use crate::supply::{
    add_entries, aisles_below, lemma_supply_empty, lemma_supply_insert, lemma_supply_monotone, supply,
};
use crate::text::{chars_of, lines_of, split_lines, split_tokens, tokens_of};

verus! {

broadcast use vstd::std_specs::hash::group_hash_axioms;

/// What the text of an instance holds, as written: the pairs of each order
/// and aisle line in their order, repeated items included.
pub ghost struct Instance {
    pub o: u32,
    pub i: u32,
    pub a: u32,
    pub orders: Seq<Seq<(usize, u32)>>,
    pub aisles: Seq<Seq<(usize, u32)>>,
    pub lb: u32,
    pub ub: u32,
}

/// Reads an instance: the line `o i a`, then `o` order lines, then `a` aisle
/// lines, each `k item1 qty1 ... itemk qtyk`, then the line `lb ub`. Numbers
/// past those read on the first and last line are ignored, as are the lines
/// after the last one.
pub open spec fn spec_parse_problem(text: Seq<char>) -> Result<Instance, ParseError> {
    let lines = lines_of(text);
    if lines.len() == 0 {
        Err(ParseError::MissingLine(LineKind::Header))
    } else {
        let head = tokens_of(lines[0]);
        match spec_field(head, 0, Field::O) {
            Err(e) => Err(e),
            Ok(o) => match spec_field(head, 1, Field::I) {
                Err(e) => Err(e),
                Ok(i) => match spec_field(head, 2, Field::A) {
                    Err(e) => Err(e),
                    Ok(a) => match spec_records(lines, 1, o as nat, true) {
                        Err(e) => Err(e),
                        Ok(orders) => match spec_records(lines, 1 + o, a as nat, false) {
                            Err(e) => Err(e),
                            Ok(aisles) => {
                                let b = 1 + o + a;
                                if b >= lines.len() {
                                    Err(ParseError::MissingLine(LineKind::Bounds))
                                } else {
                                    let tail = tokens_of(lines[b]);
                                    match spec_field(tail, 0, Field::Lb) {
                                        Err(e) => Err(e),
                                        Ok(lb) => match spec_field(tail, 1, Field::Ub) {
                                            Err(e) => Err(e),
                                            Ok(ub) => Ok(Instance { o, i, a, orders, aisles, lb, ub }),
                                        },
                                    }
                                }
                            },
                        },
                    },
                },
            },
        }
    }
}

/// The model of a problem: each order and aisle as a map from item to
/// quantity, and the orders in the sequence in which they are tried.
pub ghost struct ProblemView {
    pub o: nat,
    pub i: nat,
    pub a: nat,
    pub orders: Seq<Map<usize, u32>>,
    pub sorted_orders: Seq<(usize, u32)>,
    pub aisles: Seq<Map<usize, u32>>,
    pub lb: u32,
    pub ub: u32,
}

/// `sorted` holds each pair `(k, totals[k])` once and lists them by
/// non-increasing total.
pub open spec fn sorted_by_total(sorted: Seq<(usize, u32)>, totals: Seq<u32>) -> bool {
    &&& sorted.len() == totals.len()
    &&& sorted.to_multiset() == Seq::new(totals.len(), |k: int| (k as usize, totals[k])).to_multiset()
    &&& forall|s: int, t: int| 0 <= s < t < sorted.len() ==> sorted[s].1 >= sorted[t].1
}

/// The problem `view` is what the text `inst` describes.
pub open spec fn describes(view: ProblemView, inst: Instance) -> bool {
    &&& view.o == inst.o
    &&& view.i == inst.i
    &&& view.a == inst.a
    &&& view.orders == inst.orders.map_values(|p: Seq<(usize, u32)>| pairs_to_map(p))
    &&& view.aisles == inst.aisles.map_values(|p: Seq<(usize, u32)>| pairs_to_map(p))
    &&& sorted_by_total(
        view.sorted_orders,
        inst.orders.map_values(|p: Seq<(usize, u32)>| pair_total(p) as u32),
    )
    &&& view.lb == inst.lb
    &&& view.ub == inst.ub
}

/// The quantities `avail` suffice for every item of `order`.
pub open spec fn fits(order: Map<usize, u32>, avail: Seq<int>) -> bool {
    forall|item: usize| #[trigger] order.contains_key(item) ==> order[item] <= avail[item as int]
}

/// `avail` after the items of `order` are taken from it.
pub open spec fn take_order(order: Map<usize, u32>, avail: Seq<int>) -> Seq<int> {
    Seq::new(avail.len(), |j: int| avail[j] - qty_of(order, j))
}

/// The number of items picked when the orders are tried in the sequence
/// `sorted`, starting from `count` picked items and the supply `avail`: an
/// order is taken when it keeps the count within `ub` and the supply covers
/// it, and then its items leave the supply.
pub open spec fn greedy(
    orders: Seq<Map<usize, u32>>,
    sorted: Seq<(usize, u32)>,
    ub: int,
    avail: Seq<int>,
    count: int,
) -> int
    decreases sorted.len(),
{
    if sorted.len() == 0 {
        count
    } else {
        let (k, qty) = sorted[0];
        if count + qty <= ub && fits(orders[k as int], avail) {
            greedy(orders, sorted.drop_first(), ub, take_order(orders[k as int], avail), count + qty)
        } else {
            greedy(orders, sorted.drop_first(), ub, avail, count)
        }
    }
}

/// A supply of items as integers.
pub open spec fn supply_of(items: Seq<u32>) -> Seq<int> {
    items.map_values(|x: u32| x as int)
}

/// Every item of every order is below the number of items.
pub open spec fn orders_in_range(p: ProblemView) -> bool {
    forall|k: int| 0 <= k < p.orders.len() ==> items_below(#[trigger] p.orders[k], p.i as int)
}

/// The aisles of `s` can be held by a position: they are aisles of `p`,
/// their items are below the number of items, and together they offer no
/// more than `u32::MAX` of any item.
pub open spec fn room_for(p: ProblemView, s: Set<usize>) -> bool {
    &&& aisles_below(s, p.a)
    &&& forall|b: usize| #[trigger] s.contains(b) ==> items_below(p.aisles[b as int], p.i as int)
    &&& forall|j: int| 0 <= j < p.i ==> #[trigger] supply(p.aisles, s, j, p.aisles.len()) <= u32::MAX
}

/// Represents an instance of the order batching problem.
pub struct Problem {
    o: usize,
    i: usize,
    a: usize,
    orders: Vec<HashMap<usize, u32>>,
    sorted_orders: Vec<(usize, u32)>,
    aisles: Vec<HashMap<usize, u32>>,
    lb: u32,
    ub: u32,
}

/// The maps of a list of item maps.
pub open spec fn entry_maps(lists: Seq<HashMap<usize, u32>>) -> Seq<Map<usize, u32>> {
    lists.map_values(|m: HashMap<usize, u32>| m@)
}

impl View for Problem {
    type V = ProblemView;

    closed spec fn view(&self) -> ProblemView {
        ProblemView {
            o: self.orders@.len(),
            i: self.i as nat,
            a: self.aisles@.len(),
            orders: entry_maps(self.orders@),
            sorted_orders: self.sorted_orders@,
            aisles: entry_maps(self.aisles@),
            lb: self.lb,
            ub: self.ub,
        }
    }
}

/// `slice::sort_unstable_by_key` with the key `Reverse(total)`. Its
/// documentation promises that the slice ends up sorted by the key, so by
/// non-increasing total, and holds the same elements; which of two equal
/// totals comes first it leaves open, and so does this contract.
#[verifier::external_body]
fn sort_by_total_desc(v: &mut Vec<(usize, u32)>)
    ensures
        final(v)@.len() == old(v)@.len(),
        final(v)@.to_multiset() == old(v)@.to_multiset(),
        forall|s: int, t: int| 0 <= s < t < final(v)@.len() ==> final(v)@[s].1 >= final(v)@[t].1,
{
    v.sort_unstable_by_key(|&(_, sum)| std::cmp::Reverse(sum));
}

/// Whether the aisle with the pairs `entries` can join the counts `totals`:
/// its items are below `totals.len()` and no count passes `u32::MAX`.
pub fn entries_fit(totals: &Vec<u32>, entries: &Vec<(usize, u32)>) -> (b: bool)
    requires
        distinct_items(entries@),
    ensures
        b == (items_below(pairs_to_map(entries@), totals.len() as int) && forall|q: int|
            0 <= q < totals.len() ==> totals@[q] + #[trigger] qty_of(pairs_to_map(entries@), q)
                <= u32::MAX),
{
    let ghost m = pairs_to_map(entries@);
    let mut u: usize = 0;
    while u < entries.len()
        invariant
            u <= entries.len(),
            distinct_items(entries@),
            m == pairs_to_map(entries@),
            forall|w: int| 0 <= w < u ==> #[trigger] entries@[w].0 < totals.len() && totals@[entries@[w].0 as int]
                + entries@[w].1 <= u32::MAX,
        decreases entries.len() - u,
    {
        let (item, qty) = entries[u];
        proof {
            lemma_distinct_lookup(entries@, u as int);
        }
        if item >= totals.len() {
            assert(m.contains_key(item));
            return false;
        }
        if totals[item] as u64 + qty as u64 > u32::MAX as u64 {
            assert(qty_of(m, item as int) == qty);
            return false;
        }
        u = u + 1;
    }
    assert forall|item: usize| #[trigger] m.contains_key(item) implies item < totals.len() by {
        lemma_pairs_to_map_keys(entries@, item);
        let w = choose|w: int| 0 <= w < entries@.len() && #[trigger] entries@[w].0 == item;
    }
    assert forall|q: int| 0 <= q < totals.len() implies totals@[q] + #[trigger] qty_of(m, q) <= u32::MAX by {
        if 0 <= q <= usize::MAX && m.contains_key(q as usize) {
            lemma_pairs_to_map_keys(entries@, q as usize);
            let w = choose|w: int| 0 <= w < entries@.len() && #[trigger] entries@[w].0 == q as usize;
            lemma_distinct_lookup(entries@, w);
        }
    }
    true
}

impl Problem {
    #[verifier::type_invariant]
    spec fn well_formed(self) -> bool {
        &&& self.orders.len() == self.o
        &&& self.aisles.len() == self.a
        &&& forall|s: int|
            0 <= s < self.sorted_orders.len() ==> #[trigger] self.sorted_orders@[s].0
                < self.orders.len()
    }

    /// Builds a problem from the pairs of its order and aisle lines.
    fn assemble(
        o: u32,
        i: u32,
        a: u32,
        orders_raw: &Vec<Vec<(usize, u32)>>,
        aisles_raw: &Vec<Vec<(usize, u32)>>,
        lb: u32,
        ub: u32,
    ) -> (p: Problem)
        requires
            orders_raw.len() == o,
            aisles_raw.len() == a,
            forall|k: int| 0 <= k < orders_raw.len() ==> pair_total(#[trigger] orders_raw@[k]@) <= u32::MAX,
        ensures
            describes(
                p@,
                Instance {
                    o,
                    i,
                    a,
                    orders: record_views(orders_raw@),
                    aisles: record_views(aisles_raw@),
                    lb,
                    ub,
                },
            ),
    {
        let ghost totals = record_views(orders_raw@).map_values(
            |p: Seq<(usize, u32)>| pair_total(p) as u32,
        );
        let mut orders: Vec<HashMap<usize, u32>> = Vec::new();
        let mut sorted: Vec<(usize, u32)> = Vec::new();
        let mut k: usize = 0;
        while k < orders_raw.len()
            invariant
                k <= orders_raw.len(),
                totals == record_views(orders_raw@).map_values(
                    |p: Seq<(usize, u32)>| pair_total(p) as u32,
                ),
                forall|q: int| 0 <= q < orders_raw.len() ==> pair_total(#[trigger] orders_raw@[q]@) <= u32::MAX,
                orders.len() == k,
                forall|q: int| 0 <= q < k ==> #[trigger] orders@[q]@ == pairs_to_map(orders_raw@[q]@),
                sorted@ == Seq::new(k as nat, |q: int| (q as usize, totals[q])),
            decreases orders_raw.len() - k,
        {
            let merged = map_of(&orders_raw[k]);
            let total: u32 = match checked_total(&orders_raw[k]) {
                Some(t) => t,
                None => vstd::pervasive::unreached(),
            };
            orders.push(merged);
            sorted.push((k, total));
            assert(sorted@ =~= Seq::new((k + 1) as nat, |q: int| (q as usize, totals[q])));
            k = k + 1;
        }
        let ghost unsorted = sorted@;
        sort_by_total_desc(&mut sorted);
        let mut aisles: Vec<HashMap<usize, u32>> = Vec::new();
        let mut k: usize = 0;
        while k < aisles_raw.len()
            invariant
                k <= aisles_raw.len(),
                aisles.len() == k,
                forall|q: int| 0 <= q < k ==> #[trigger] aisles@[q]@ == pairs_to_map(aisles_raw@[q]@),
            decreases aisles_raw.len() - k,
        {
            let merged = map_of(&aisles_raw[k]);
            aisles.push(merged);
            k = k + 1;
        }
        proof {
            broadcast use vstd::seq_lib::group_to_multiset_ensures;

            assert forall|s: int| 0 <= s < sorted.len() implies #[trigger] sorted@[s].0 < orders.len() by {
                let x = sorted@[s];
                assert(sorted@.to_multiset().count(x) > 0);
                assert(unsorted.to_multiset().count(x) > 0);
                assert(unsorted.contains(x));
                let j = choose|j: int| 0 <= j < unsorted.len() && unsorted[j] == x;
                assert(x.0 == j as usize);
            }
        }
        let p = Problem {
            o: o as usize,
            i: i as usize,
            a: a as usize,
            orders,
            sorted_orders: sorted,
            aisles,
            lb,
            ub,
        };
        assert(entry_maps(p.orders@) =~= record_views(orders_raw@).map_values(
            |q: Seq<(usize, u32)>| pairs_to_map(q),
        ));
        assert(entry_maps(p.aisles@) =~= record_views(aisles_raw@).map_values(
            |q: Seq<(usize, u32)>| pairs_to_map(q),
        ));
        p
    }

    /// Greedily selects the orders with the largest number of items that do
    /// not violate capacity and supply constraints, and returns the number of
    /// items in the selected orders.
    ///
    /// The orders are tried by non-increasing number of items; an order is
    /// taken when the count stays within `ub` and the supply `aisles_items`
    /// covers all of its items, which then leave the supply.
    pub fn add_orders(&self, aisles_items: &Vec<u32>) -> (number_items: u32)
        requires
            forall|k: int|
                0 <= k < self@.orders.len() ==> items_below(
                    #[trigger] self@.orders[k],
                    aisles_items.len() as int,
                ),
        ensures
            number_items == greedy(
                self@.orders,
                self@.sorted_orders,
                self@.ub as int,
                supply_of(aisles_items@),
                0,
            ),
    {
        proof {
            use_type_invariant(self);
        }
        let ghost orders = self@.orders;
        let ghost sorted = self@.sorted_orders;
        let n: usize = aisles_items.len();
        let mut available: Vec<u32> = Vec::new();
        let mut j: usize = 0;
        while j < n
            invariant
                j <= n == aisles_items.len(),
                available@ == aisles_items@.take(j as int),
            decreases n - j,
        {
            available.push(aisles_items[j]);
            assert(available@ =~= aisles_items@.take(j + 1));
            j = j + 1;
        }
        assert(available@ =~= aisles_items@);
        let mut number_items: u32 = 0;
        let mut s: usize = 0;
        assert(sorted.skip(0) =~= sorted);
        while s < self.sorted_orders.len()
            invariant
                s <= self.sorted_orders.len(),
                orders == self@.orders,
                sorted == self@.sorted_orders,
                available.len() == n,
                number_items <= self.ub,
                forall|k: int| 0 <= k < orders.len() ==> items_below(#[trigger] orders[k], n as int),
                greedy(orders, sorted, self.ub as int, supply_of(aisles_items@), 0) == greedy(
                    orders,
                    sorted.skip(s as int),
                    self.ub as int,
                    supply_of(available@),
                    number_items as int,
                ),
            decreases self.sorted_orders.len() - s,
        {
            proof {
                use_type_invariant(self);
            }
            let (order, qty) = self.sorted_orders[s];
            assert(sorted.skip(s as int)[0] == (order, qty));
            assert(sorted.skip(s as int).drop_first() =~= sorted.skip(s + 1));
            if number_items as u64 + qty as u64 <= self.ub as u64 {
                let listed = entries_of(&self.orders[order]);
                let entries = &listed;
                let ghost m = pairs_to_map(entries@);
                assert(orders[order as int] == m);
                let ghost before = supply_of(available@);
                let mut valid: bool = true;
                let mut t: usize = 0;
                while valid && t < entries.len()
                    invariant
                        t <= entries.len(),
                        distinct_items(entries@),
                        items_below(m, n as int),
                        m == pairs_to_map(entries@),
                        available.len() == n,
                        valid ==> forall|u: int| 0 <= u < t ==> entries@[u].1 <= available@[#[trigger] entries@[u].0 as int],
                        !valid ==> !fits(m, supply_of(available@)),
                    decreases entries.len() - t + (if valid { 1int } else { 0int }),
                {
                    let (item, item_qty) = entries[t];
                    proof {
                        lemma_distinct_lookup(entries@, t as int);
                    }
                    if item_qty > available[item] {
                        valid = false;
                    } else {
                        t = t + 1;
                    }
                }
                proof {
                    if valid {
                        assert forall|item: usize| #[trigger] m.contains_key(item) implies m[item]
                            <= supply_of(available@)[item as int] by {
                            lemma_pairs_to_map_keys(entries@, item);
                            let u = choose|u: int| 0 <= u < entries@.len() && #[trigger] entries@[u].0 == item;
                            lemma_distinct_lookup(entries@, u);
                        }
                    }
                }
                if valid {
                    number_items = number_items + qty;
                    let mut t: usize = 0;
                    while t < entries.len()
                        invariant
                            t <= entries.len(),
                            distinct_items(entries@),
                            items_below(m, n as int),
                            m == pairs_to_map(entries@),
                            available.len() == n,
                            before.len() == n,
                            fits(m, before),
                            supply_of(available@) == take_order(pairs_to_map(entries@.take(t as int)), before),
                        decreases entries.len() - t,
                    {
                        let (item, item_qty) = entries[t];
                        proof {
                            lemma_distinct_lookup(entries@, t as int);
                            lemma_distinct_prefix_step(entries@, t as int);
                        }
                        assert(supply_of(available@)[item as int] == before[item as int]);
                        let ghost prev = supply_of(available@);
                        let ghost old_avail = available@;
                        assert(prev == take_order(pairs_to_map(entries@.take(t as int)), before));
                        available.set(item, available[item] - item_qty);
                        let ghost m_t = pairs_to_map(entries@.take(t as int));
                        let ghost m_next = pairs_to_map(entries@.take(t + 1));
                        assert forall|j: int| 0 <= j < n implies #[trigger] supply_of(available@)[j]
                            == before[j] - qty_of(m_next, j) by {
                            if j == item as int {
                                assert(qty_of(m_next, j) == item_qty);
                                assert(qty_of(m_t, j) == 0);
                            } else {
                                assert(qty_of(m_next, j) == qty_of(m_t, j));
                                assert(available@[j] == old_avail[j]);
                                assert(prev[j] == before[j] - qty_of(m_t, j));
                            }
                        }
                        assert(supply_of(available@) =~= take_order(
                            pairs_to_map(entries@.take(t + 1)),
                            before,
                        ));
                        t = t + 1;
                    }
                    assert(entries@.take(t as int) =~= entries@);
                }
            }
            s = s + 1;
        }
        assert(sorted.skip(s as int).len() == 0);
        number_items
    }

    /// Number of orders.
    pub fn o(&self) -> (n: usize)
        ensures
            n == self@.o,
            self@.orders.len() == self@.o,
    {
        proof {
            use_type_invariant(self);
        }
        self.o
    }

    /// Number of items.
    pub fn i(&self) -> (n: usize)
        ensures
            n == self@.i,
    {
        self.i
    }

    /// Number of aisles.
    pub fn a(&self) -> (n: usize)
        ensures
            n == self@.a,
            self@.aisles.len() == self@.a,
    {
        proof {
            use_type_invariant(self);
        }
        self.a
    }

    /// Lower bound on the number of items picked.
    pub fn lb(&self) -> (n: u32)
        ensures
            n == self@.lb,
    {
        self.lb
    }

    /// Upper bound on the number of items picked.
    pub fn ub(&self) -> (n: u32)
        ensures
            n == self@.ub,
    {
        self.ub
    }

    /// The orders, each as a map from item to quantity.
    pub fn orders(&self) -> (orders: &Vec<HashMap<usize, u32>>)
        ensures
            orders.len() == self@.o,
            entry_maps(orders@) == self@.orders,
    {
        proof {
            use_type_invariant(self);
        }
        &self.orders
    }

    /// The pairs `(order, total items)` in the sequence in which orders are tried.
    pub fn sorted_orders(&self) -> (sorted: &Vec<(usize, u32)>)
        ensures
            sorted@ == self@.sorted_orders,
    {
        &self.sorted_orders
    }

    /// The aisles, each as a map from item to quantity.
    pub fn aisles(&self) -> (aisles: &Vec<HashMap<usize, u32>>)
        ensures
            aisles.len() == self@.a,
            entry_maps(aisles@) == self@.aisles,
    {
        proof {
            use_type_invariant(self);
        }
        &self.aisles
    }

    /// Whether `number_items` items picked from `number_aisles` aisles meet the
    /// lower bound with at least one aisle; the objective is zero otherwise.
    pub fn is_feasible(&self, number_items: u32, number_aisles: u32) -> (b: bool)
        ensures
            b == (number_items >= self@.lb && number_aisles != 0),
    {
        !(number_items < self.lb || number_aisles == 0)
    }

    /// Whether every item of every list of `lists` is below `n`.
    fn lists_below(lists: &Vec<HashMap<usize, u32>>, n: usize) -> (b: bool)
        ensures
            b == forall|k: int| 0 <= k < lists.len() ==> items_below(
                #[trigger] entry_maps(lists@)[k],
                n as int,
            ),
    {
        let mut k: usize = 0;
        while k < lists.len()
            invariant
                k <= lists.len(),
                forall|q: int| 0 <= q < k ==> items_below(#[trigger] entry_maps(lists@)[q], n as int),
            decreases lists.len() - k,
        {
            let entries = entries_of(&lists[k]);
            let mut t: usize = 0;
            while t < entries.len()
                invariant
                    t <= entries.len(),
                    k < lists.len(),
                    pairs_to_map(entries@) == lists@[k as int]@,
                    forall|u: int| 0 <= u < t ==> #[trigger] entries@[u].0 < n,
                decreases entries.len() - t,
            {
                if entries[t].0 >= n {
                    proof {
                        lemma_pairs_to_map_keys(entries@, entries@[t as int].0);
                    }
                    assert(entry_maps(lists@)[k as int] == pairs_to_map(entries@));
                    assert(pairs_to_map(entries@).contains_key(entries@[t as int].0));
                    assert(!items_below(entry_maps(lists@)[k as int], n as int));
                    return false;
                }
                t = t + 1;
            }
            assert forall|item: usize| #[trigger] pairs_to_map(entries@).contains_key(item) implies item < n by {
                lemma_pairs_to_map_keys(entries@, item);
            }
            assert(entry_maps(lists@)[k as int] == pairs_to_map(entries@));
            assert(items_below(entry_maps(lists@)[k as int], n as int));
            k = k + 1;
        }
        true
    }

    /// Whether every item of every order is below the number of items.
    pub fn orders_in_range(&self) -> (b: bool)
        ensures
            b == orders_in_range(self@),
    {
        let b = Self::lists_below(&self.orders, self.i);
        assert(self@.orders == entry_maps(self.orders@));
        b
    }

    /// Whether the aisles listed in `aisles` can be held by a position
    /// together: see `room_for`.
    pub fn has_room_for(&self, aisles: &Vec<usize>) -> (b: bool)
        ensures
            b == room_for(self@, aisles@.to_set()),
    {
        proof {
            use_type_invariant(self);
        }
        let ghost p = self@;
        let ghost n = p.aisles.len();
        let ghost all = aisles@.to_set();
        let mut totals: Vec<u32> = Vec::new();
        let mut j: usize = 0;
        while j < self.i
            invariant
                j <= self.i,
                totals.len() == j,
                forall|q: int| 0 <= q < j ==> #[trigger] totals@[q] == 0,
            decreases self.i - j,
        {
            totals.push(0);
            j = j + 1;
        }
        let mut seen: Vec<bool> = Vec::new();
        let mut b: usize = 0;
        while b < self.a
            invariant
                b <= self.a,
                seen.len() == b,
                forall|q: int| 0 <= q < b ==> !#[trigger] seen@[q],
            decreases self.a - b,
        {
            seen.push(false);
            b = b + 1;
        }
        let ghost mut s: Set<usize> = Set::empty();
        assert forall|q: int| 0 <= q < totals.len() implies #[trigger] totals@[q] == supply(
            p.aisles,
            s,
            q,
            n,
        ) by {
            lemma_supply_empty(p.aisles, q, n);
        }
        let mut t: usize = 0;
        while t < aisles.len()
            invariant
                t <= aisles.len(),
                p == self@,
                n == p.aisles.len(),
                n == self.a,
                self.aisles.len() == self.a,
                all == aisles@.to_set(),
                s == aisles@.take(t as int).to_set(),
                seen.len() == self.a,
                forall|q: usize| q < self.a ==> (seen@[q as int] <==> #[trigger] s.contains(q)),
                aisles_below(s, p.a),
                forall|c: usize| #[trigger] s.contains(c) ==> items_below(p.aisles[c as int], p.i as int),
                totals.len() == self.i,
                forall|q: int| 0 <= q < self.i ==> #[trigger] totals@[q] == supply(p.aisles, s, q, n),
            decreases aisles.len() - t,
        {
            let c = aisles[t];
            assert(all.contains(c)) by {
                assert(aisles@.contains(aisles@[t as int]));
            }
            if c >= self.a {
                return false;
            }
            let ghost s1 = s.insert(c);
            assert(aisles@.take(t + 1) =~= aisles@.take(t as int).push(c));
            assert forall|y: usize| #[trigger] aisles@.take(t + 1).to_set().contains(y) <==> s1.contains(y) by {
                lemma_push_contains(aisles@.take(t as int), c, y);
                assert(aisles@.take(t as int).to_set().contains(y) <==> aisles@.take(t as int).contains(y));
            }
            assert(aisles@.take(t + 1).to_set() =~= s1);
            if !seen[c] {
                let listed = entries_of(&self.aisles[c]);
                let entries = &listed;
                let ghost m = pairs_to_map(entries@);
                assert(p.aisles[c as int] == m);
                if !entries_fit(&totals, entries) {
                    proof {
                        assert(s1.subset_of(all));
                        if !items_below(m, p.i as int) {
                            let item = choose|item: usize| m.contains_key(item) && !(item < p.i);
                            assert(all.contains(c));
                            assert(!items_below(p.aisles[c as int], p.i as int));
                        } else {
                            let q = choose|q: int| 0 <= q < totals.len() && !(totals@[q] + #[trigger] qty_of(m, q) <= u32::MAX);
                            lemma_supply_insert(p.aisles, s, c, q, n);
                            lemma_supply_monotone(p.aisles, s1, all, q, n);
                            assert(supply(p.aisles, all, q, n) > u32::MAX);
                        }
                    }
                    return false;
                }
                let ghost before = totals@;
                add_entries(&mut totals, entries);
                proof {
                    assert forall|q: int| 0 <= q < self.i implies #[trigger] totals@[q] == supply(
                        p.aisles,
                        s1,
                        q,
                        n,
                    ) by {
                        lemma_supply_insert(p.aisles, s, c, q, n);
                    }
                    s = s1;
                }
                seen.set(c, true);
            } else {
                assert(s1 =~= s);
            }
            t = t + 1;
        }
        assert(aisles@.take(t as int) =~= aisles@);
        assert(s == all);
        assert forall|j: int| 0 <= j < p.i implies #[trigger] supply(p.aisles, all, j, p.aisles.len()) <= u32::MAX by {
            assert(totals@[j] == supply(p.aisles, s, j, n));
        }
        true
    }

    /// Whether the aisles `b` with `choices[b]` can be held by a position
    /// together: see `room_for`.
    pub fn room_for_choices(&self, choices: &Vec<bool>) -> (b: bool)
        ensures
            b == room_for(self@, Set::new(|c: usize| c < choices.len() && choices@[c as int])),
    {
        let mut chosen: Vec<usize> = Vec::new();
        let mut c: usize = 0;
        while c < choices.len()
            invariant
                c <= choices.len(),
                chosen@.to_set() == Set::new(|d: usize| d < c && choices@[d as int]),
            decreases choices.len() - c,
        {
            let ghost before = chosen@;
            if choices[c] {
                chosen.push(c);
            }
            assert forall|y: usize| chosen@.contains(y) <==> (before.contains(y) || (y == c
                && choices@[c as int])) by {
                if chosen@.len() > before.len() {
                    lemma_push_contains(before, c, y);
                }
            }
            assert forall|y: usize| #[trigger] chosen@.to_set().contains(y) <==> (y < c + 1
                && choices@[y as int]) by {
                assert(before.to_set().contains(y) <==> (y < c && choices@[y as int]));
            }
            assert(chosen@.to_set() =~= Set::new(|d: usize| d < c + 1 && choices@[d as int]));
            c = c + 1;
        }
        self.has_room_for(&chosen)
    }

    /// Create and populate a `Problem` from the text of a dataset, as
    /// `spec_parse_problem` describes; a malformed text gives the error that
    /// it names.
    pub fn new(contents: &str) -> (res: Result<Problem, ParseError>)
        ensures
            match spec_parse_problem(contents@) {
                Ok(inst) => res matches Ok(p) && describes(p@, inst),
                Err(e) => res == Err::<Problem, ParseError>(e),
            },
    {
        let chars = chars_of(contents);
        let lines = split_lines(chars.as_slice());
        let ghost all = token_lines(lines@);
        assert(all == lines_of(contents@));
        let mut cursor: usize = 0;
        let first = match next_line(&lines, &mut cursor, LineKind::Header) {
            Ok(l) => l,
            Err(e) => {
                return Err(e);
            },
        };
        let head = split_tokens(first.as_slice());
        assert(token_views(head@) == tokens_of(all[0]));
        let mut t: usize = 0;
        let o: u32 = match parse_next(&head, &mut t, Field::O) {
            Ok(v) => v,
            Err(e) => {
                return Err(e);
            },
        };
        let i: u32 = match parse_next(&head, &mut t, Field::I) {
            Ok(v) => v,
            Err(e) => {
                return Err(e);
            },
        };
        let a: u32 = match parse_next(&head, &mut t, Field::A) {
            Ok(v) => v,
            Err(e) => {
                return Err(e);
            },
        };
        let orders_raw = match read_records(&lines, &mut cursor, o as usize, true) {
            Ok(r) => r,
            Err(e) => {
                return Err(e);
            },
        };
        let aisles_raw = match read_records(&lines, &mut cursor, a as usize, false) {
            Ok(r) => r,
            Err(e) => {
                return Err(e);
            },
        };
        let last = match next_line(&lines, &mut cursor, LineKind::Bounds) {
            Ok(l) => l,
            Err(e) => {
                return Err(e);
            },
        };
        let tail = split_tokens(last.as_slice());
        assert(token_views(tail@) == tokens_of(all[1 + o + a]));
        let mut t: usize = 0;
        let lb: u32 = match parse_next(&tail, &mut t, Field::Lb) {
            Ok(v) => v,
            Err(e) => {
                return Err(e);
            },
        };
        let ub: u32 = match parse_next(&tail, &mut t, Field::Ub) {
            Ok(v) => v,
            Err(e) => {
                return Err(e);
            },
        };
        let ghost inst = Instance {
            o,
            i,
            a,
            orders: record_views(orders_raw@),
            aisles: record_views(aisles_raw@),
            lb,
            ub,
        };
        proof {
            lemma_records_parsed(all, 1, o as nat, true);
            lemma_records_parsed(all, 1 + o, a as nat, false);
        }
        assert(spec_parse_problem(contents@) == Ok::<Instance, ParseError>(inst));
        assert forall|k: int| 0 <= k < orders_raw.len() implies pair_total(
            #[trigger] orders_raw@[k]@,
        ) <= u32::MAX by {
            assert(record_views(orders_raw@)[k] == orders_raw@[k]@);
        }
        let problem = Self::assemble(o, i, a, &orders_raw, &aisles_raw, lb, ub);
        Ok(problem)
    }
}


/// What a successful read of `n` record lines gives: `n` pair lists, and for
/// orders, quantities that sum to a `u32`.
proof fn lemma_records_parsed(lines: Seq<Seq<char>>, first: int, n: nat, orders: bool)
    ensures
        spec_records(lines, first, n, orders) matches Ok(r) ==> {
            &&& r.len() == n
            &&& orders ==> forall|k: int| 0 <= k < n ==> pair_total(#[trigger] r[k]) <= u32::MAX
        },
    decreases n,
{
    if n > 0 {
        lemma_records_parsed(lines, first, (n - 1) as nat, orders);
    }
}

} // verus!
