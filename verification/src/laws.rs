//! Properties that hold across the operations of the library.

use vstd::prelude::*;

use crate::parse::{spec_map_line, spec_pairs, spec_records};
use crate::entries::items_below;
use crate::problem::{fits, greedy, spec_parse_problem, take_order};
use crate::text::{lines_of, tokens_of};
use crate::supply::supply_matches;

verus! {

/// The supply left after the greedy selection of `greedy`.
pub open spec fn greedy_supply(
    orders: Seq<Map<usize, u32>>,
    sorted: Seq<(usize, u32)>,
    ub: int,
    avail: Seq<int>,
    count: int,
) -> Seq<int>
    decreases sorted.len(),
{
    if sorted.len() == 0 {
        avail
    } else {
        let (k, qty) = sorted[0];
        if count + qty <= ub && fits(orders[k as int], avail) {
            greedy_supply(
                orders,
                sorted.drop_first(),
                ub,
                take_order(orders[k as int], avail),
                count + qty,
            )
        } else {
            greedy_supply(orders, sorted.drop_first(), ub, avail, count)
        }
    }
}

/// The greedy selection never takes the number of items past the upper
/// bound, and never lowers it below where it starts.
pub proof fn law_greedy_within_upper_bound(
    orders: Seq<Map<usize, u32>>,
    sorted: Seq<(usize, u32)>,
    ub: int,
    avail: Seq<int>,
    count: int,
)
    requires
        count <= ub,
    ensures
        count <= greedy(orders, sorted, ub, avail, count) <= ub,
    decreases sorted.len(),
{
    if sorted.len() > 0 {
        let (k, qty) = sorted[0];
        if count + qty <= ub && fits(orders[k as int], avail) {
            law_greedy_within_upper_bound(
                orders,
                sorted.drop_first(),
                ub,
                take_order(orders[k as int], avail),
                count + qty,
            );
        } else {
            law_greedy_within_upper_bound(orders, sorted.drop_first(), ub, avail, count);
        }
    }
}

/// The greedy selection respects the supply: an order is only taken when
/// the items left cover it, so no item is ever short.
pub proof fn law_greedy_respects_supply(
    orders: Seq<Map<usize, u32>>,
    sorted: Seq<(usize, u32)>,
    ub: int,
    avail: Seq<int>,
    count: int,
)
    requires
        forall|j: int| 0 <= j < avail.len() ==> #[trigger] avail[j] >= 0,
    ensures
        greedy_supply(orders, sorted, ub, avail, count).len() == avail.len(),
        forall|j: int|
            0 <= j < avail.len() ==> #[trigger] greedy_supply(orders, sorted, ub, avail, count)[j]
                >= 0,
    decreases sorted.len(),
{
    if sorted.len() > 0 {
        let (k, qty) = sorted[0];
        if count + qty <= ub && fits(orders[k as int], avail) {
            let order = orders[k as int];
            let next = take_order(order, avail);
            assert forall|j: int| 0 <= j < next.len() implies #[trigger] next[j] >= 0 by {
                if 0 <= j <= usize::MAX && order.contains_key(j as usize) {
                    assert(order[j as usize] <= avail[j]);
                }
            }
            law_greedy_respects_supply(orders, sorted.drop_first(), ub, next, count + qty);
        } else {
            law_greedy_respects_supply(orders, sorted.drop_first(), ub, avail, count);
        }
    }
}

/// Applying the velocity from `current` to `target` (its removals leaving,
/// its additions joining) turns `current` into `target`.
pub proof fn law_difference_reaches_target(target: Set<usize>, current: Set<usize>)
    ensures
        current.difference(current.difference(target)).union(target.difference(current))
            == target,
{
    assert(current.difference(current.difference(target)).union(target.difference(current))
        =~= target);
}

/// When the additions lie outside the position and the removals inside it,
/// applying additions first or removals first gives the same position.
pub proof fn law_moves_commute(x: Set<usize>, added: Set<usize>, removed: Set<usize>)
    requires
        added.disjoint(x),
        removed.subset_of(x),
    ensures
        x.union(added).difference(removed) == x.difference(removed).union(added),
{
    assert(x.union(added).difference(removed) =~= x.difference(removed).union(added));
}

/// The item quantities of a position are fixed by its aisles: two positions
/// with the same aisles offer the same quantities.
pub proof fn law_items_follow_aisles(
    aisles: Seq<Map<usize, u32>>,
    x: Set<usize>,
    items1: Seq<u32>,
    items2: Seq<u32>,
)
    requires
        items1.len() == items2.len(),
        supply_matches(aisles, x, items1),
        supply_matches(aisles, x, items2),
    ensures
        items1 == items2,
{
    assert(items1 =~= items2);
}

/// Adding an aisle that the position lacks and then removing it gives back
/// the position's aisles, and so, by `law_items_follow_aisles`, its items.
pub proof fn law_insert_remove_restores(x: Set<usize>, aisle: usize)
    requires
        !x.contains(aisle),
    ensures
        x.insert(aisle).remove(aisle) == x,
{
    assert(x.insert(aisle).remove(aisle) =~= x);
}

/// A line of pairs that reads successfully holds an even number of
/// tokens: every item has its quantity.
proof fn lemma_pairs_even(parts: Seq<Seq<char>>)
    requires
        spec_pairs(parts) is Ok,
    ensures
        parts.len() % 2 == 0,
    decreases parts.len(),
{
    if parts.len() > 0 {
        lemma_pairs_even(parts.skip(2));
    }
}

/// When the first `n` record lines read successfully, each of them is
/// there and reads successfully.
proof fn lemma_records_lines(lines: Seq<Seq<char>>, first: int, n: nat, orders: bool)
    requires
        spec_records(lines, first, n, orders) is Ok,
    ensures
        forall|idx: int| 0 <= idx < n ==> first + idx < lines.len() && #[trigger] spec_map_line(
            lines[first + idx],
        ) is Ok,
    decreases n,
{
    if n > 0 {
        lemma_records_lines(lines, first, (n - 1) as nat, orders);
    }
}

/// A text reads as an instance only when none of its order and aisle lines
/// is blank and every item on them has its quantity: an instance in an
/// invalid format is refused with an error.
pub proof fn law_read_lines_are_complete(text: Seq<char>)
    requires
        spec_parse_problem(text) is Ok,
    ensures
        ({
            let inst = spec_parse_problem(text)->Ok_0;
            let lines = lines_of(text);
            forall|r: int| 1 <= r <= inst.o + inst.a ==> {
                &&& r < lines.len()
                &&& #[trigger] tokens_of(lines[r]).len() > 0
                &&& (tokens_of(lines[r]).len() - 1) % 2 == 0
            }
        }),
{
    let inst = spec_parse_problem(text)->Ok_0;
    let lines = lines_of(text);
    lemma_records_lines(lines, 1, inst.o as nat, true);
    lemma_records_lines(lines, 1 + inst.o, inst.a as nat, false);
    assert forall|r: int| 1 <= r <= inst.o + inst.a implies {
        &&& r < lines.len()
        &&& #[trigger] tokens_of(lines[r]).len() > 0
        &&& (tokens_of(lines[r]).len() - 1) % 2 == 0
    } by {
        if r <= inst.o {
            assert(spec_map_line(lines[1 + (r - 1)]) is Ok);
        } else {
            assert(spec_map_line(lines[1 + inst.o + (r - 1 - inst.o)]) is Ok);
        }
        let toks = tokens_of(lines[r]);
        lemma_pairs_even(toks.skip(1));
    }
}

/// The number of items of the orders of `sorted` that `chosen` marks.
pub open spec fn chosen_items(sorted: Seq<(usize, u32)>, chosen: Seq<bool>) -> int
    decreases sorted.len(),
{
    if sorted.len() == 0 {
        0
    } else {
        (if chosen[0] {
            sorted[0].1 as int
        } else {
            0
        }) + chosen_items(sorted.drop_first(), chosen.drop_first())
    }
}

/// `avail` after the items of the orders of `sorted` that `chosen` marks
/// are taken from it.
pub open spec fn after_chosen(
    orders: Seq<Map<usize, u32>>,
    sorted: Seq<(usize, u32)>,
    chosen: Seq<bool>,
    avail: Seq<int>,
) -> Seq<int>
    decreases sorted.len(),
{
    if sorted.len() == 0 {
        avail
    } else {
        after_chosen(
            orders,
            sorted.drop_first(),
            chosen.drop_first(),
            if chosen[0] {
                take_order(orders[sorted[0].0 as int], avail)
            } else {
                avail
            },
        )
    }
}

/// The greedy selection only lowers the supply.
proof fn lemma_greedy_supply_below(
    orders: Seq<Map<usize, u32>>,
    sorted: Seq<(usize, u32)>,
    ub: int,
    avail: Seq<int>,
    count: int,
)
    ensures
        greedy_supply(orders, sorted, ub, avail, count).len() == avail.len(),
        forall|j: int|
            0 <= j < avail.len() ==> #[trigger] greedy_supply(orders, sorted, ub, avail, count)[j]
                <= avail[j],
    decreases sorted.len(),
{
    if sorted.len() > 0 {
        let (k, qty) = sorted[0];
        if count + qty <= ub && fits(orders[k as int], avail) {
            let next = take_order(orders[k as int], avail);
            lemma_greedy_supply_below(orders, sorted.drop_first(), ub, next, count + qty);
            assert forall|j: int| 0 <= j < avail.len() implies #[trigger] greedy_supply(
                orders,
                sorted,
                ub,
                avail,
                count,
            )[j] <= avail[j] by {
                assert(next[j] <= avail[j]);
            }
        } else {
            lemma_greedy_supply_below(orders, sorted.drop_first(), ub, avail, count);
        }
    }
}

/// The choice that the greedy selection makes, with its count and the
/// supply it leaves, and no order left out that would still fit.
proof fn lemma_greedy_choice(
    orders: Seq<Map<usize, u32>>,
    sorted: Seq<(usize, u32)>,
    ub: int,
    avail: Seq<int>,
    count: int,
) -> (chosen: Seq<bool>)
    requires
        count <= ub,
        forall|s: int| 0 <= s < sorted.len() ==> items_below(#[trigger] orders[sorted[s].0 as int], avail.len() as int),
    ensures
        chosen.len() == sorted.len(),
        greedy(orders, sorted, ub, avail, count) == count + chosen_items(sorted, chosen),
        after_chosen(orders, sorted, chosen, avail) == greedy_supply(orders, sorted, ub, avail, count),
        forall|s: int|
            0 <= s < sorted.len() && !chosen[s] ==> greedy(orders, sorted, ub, avail, count)
                + #[trigger] sorted[s].1 > ub || !fits(
                orders[sorted[s].0 as int],
                greedy_supply(orders, sorted, ub, avail, count),
            ),
    decreases sorted.len(),
{
    if sorted.len() == 0 {
        seq![]
    } else {
        let (k, qty) = sorted[0];
        let tail = sorted.drop_first();
        assert forall|s: int| 0 <= s < tail.len() implies items_below(
            #[trigger] orders[tail[s].0 as int],
            avail.len() as int,
        ) by {
            assert(tail[s] == sorted[s + 1]);
        }
        let n = greedy(orders, sorted, ub, avail, count);
        let a = greedy_supply(orders, sorted, ub, avail, count);
        if count + qty <= ub && fits(orders[k as int], avail) {
            let next = take_order(orders[k as int], avail);
            let rest = lemma_greedy_choice(orders, tail, ub, next, count + qty);
            let chosen = seq![true] + rest;
            assert(chosen.drop_first() =~= rest);
            assert forall|s: int| 0 <= s < sorted.len() && !chosen[s] implies n + #[trigger] sorted[s].1
                > ub || !fits(orders[sorted[s].0 as int], a) by {
                assert(s > 0);
                assert(chosen[s] == rest[s - 1]);
                assert(sorted[s] == tail[s - 1]);
            }
            chosen
        } else {
            let rest = lemma_greedy_choice(orders, tail, ub, avail, count);
            let chosen = seq![false] + rest;
            assert(chosen.drop_first() =~= rest);
            law_greedy_within_upper_bound(orders, tail, ub, avail, count);
            lemma_greedy_supply_below(orders, tail, ub, avail, count);
            assert forall|s: int| 0 <= s < sorted.len() && !chosen[s] implies n + #[trigger] sorted[s].1
                > ub || !fits(orders[sorted[s].0 as int], a) by {
                if s == 0 {
                    if count + qty <= ub {
                        let order = orders[k as int];
                        let item = choose|item: usize| #[trigger] order.contains_key(item) && !(order[item]
                            <= avail[item as int]);
                        assert(item < avail.len());
                        assert(a[item as int] <= avail[item as int]);
                    }
                } else {
                    assert(chosen[s] == rest[s - 1]);
                    assert(sorted[s] == tail[s - 1]);
                }
            }
            chosen
        }
    }
}

/// The greedy selection is maximal: its count is that of a choice of the
/// orders that the supply covers one after the other, and every order left
/// out would pass `ub` or lacks an item in what that choice leaves. An
/// order that the supply cannot cover does not stop the later ones.
pub proof fn law_greedy_is_maximal(
    orders: Seq<Map<usize, u32>>,
    sorted: Seq<(usize, u32)>,
    ub: int,
    avail: Seq<int>,
)
    requires
        0 <= ub,
        forall|j: int| 0 <= j < avail.len() ==> #[trigger] avail[j] >= 0,
        forall|s: int| 0 <= s < sorted.len() ==> items_below(#[trigger] orders[sorted[s].0 as int], avail.len() as int),
    ensures
        exists|chosen: Seq<bool>|
            {
                &&& chosen.len() == sorted.len()
                &&& #[trigger] greedy(orders, sorted, ub, avail, 0) == chosen_items(sorted, chosen)
                &&& forall|j: int| 0 <= j < avail.len() ==> #[trigger] after_chosen(orders, sorted, chosen, avail)[j] >= 0
                &&& forall|s: int|
                    0 <= s < sorted.len() && !chosen[s] ==> greedy(orders, sorted, ub, avail, 0)
                        + #[trigger] sorted[s].1 > ub || !fits(
                        orders[sorted[s].0 as int],
                        after_chosen(orders, sorted, chosen, avail),
                    )
            },
{
    let chosen = lemma_greedy_choice(orders, sorted, ub, avail, 0);
    law_greedy_respects_supply(orders, sorted, ub, avail, 0);
}

} // verus!
