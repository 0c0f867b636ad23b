//! Greedy addition of aisles by tournaments of randomly drawn candidates.

use rand::rngs::StdRng;
use std::collections::HashMap;
use vstd::prelude::*;

use crate::entries::{entries_of, items_below, qty_of};
use crate::methods::sbpso::position::{aisle_fits, Position};
use crate::supply::{add_entries, plus_items, subtract_entries};
use crate::problem::{entries_fit, fits, greedy, orders_in_range, supply_of, take_order, Problem, ProblemView};
use crate::methods::sbpso::sampling::{ascending, lemma_push_contains, lemma_sample_elements, sample_from};
use crate::supply::{lemma_supply_empty, lemma_supply_insert, lemma_supply_nonnegative, supply};
use crate::methods::sbpso::velocity::Velocity;

verus! {

/// The value by which a tournament ranks the number of items picked: the
/// number itself, or zero where it misses the lower bound.
///
/// Within one tournament every contestant is judged with the same number of
/// aisles, so the objective `number_items / number_aisles` (zero below the
/// lower bound) orders the contestants exactly as this value does.
pub open spec fn score(p: ProblemView, number_items: int) -> int {
    if number_items < p.lb {
        0
    } else {
        number_items
    }
}

/// The number of items picked from the supply `items` joined by aisle `aisle`.
pub open spec fn picked_with(p: ProblemView, items: Seq<u32>, aisle: int) -> int {
    greedy(p.orders, p.sorted_orders, p.ub as int, plus_items(items, p.aisles[aisle]), 0)
}

/// The scores of the contestants, each joining the supply `items` on its own.
pub open spec fn contestant_scores(p: ProblemView, items: Seq<u32>, contestants: Seq<usize>) -> Seq<
    int,
> {
    Seq::new(contestants.len(), |t: int| score(p, picked_with(p, items, contestants[t] as int)))
}

/// `k` is the first index of a highest score.
pub open spec fn first_best(scores: Seq<int>, k: int) -> bool {
    &&& 0 <= k < scores.len()
    &&& forall|t: int| 0 <= t < scores.len() ==> #[trigger] scores[t] <= scores[k]
    &&& forall|t: int| 0 <= t < k ==> #[trigger] scores[t] < scores[k]
}

/// The contestant whose aisle, joining the supply `current_items`, lets the
/// greedy selection pick the highest score; the first such one in the order
/// of `contestants`. `None` where there is no contestant.
pub fn tournament_winner(
    problem: &Problem,
    current_items: &mut Vec<u32>,
    contestants: &Vec<usize>,
) -> (winner: Option<usize>)
    requires
        contestants.len() > 0 ==> orders_in_range(problem@),
        old(current_items).len() == problem@.i,
        forall|t: int| 0 <= t < contestants.len() ==> #[trigger] contestants@[t] < problem@.a,
        forall|t: int|
            0 <= t < contestants.len() ==> #[trigger] aisle_fits(problem@, old(current_items)@, contestants@[t]),
    ensures
        final(current_items)@ == old(current_items)@,
        match winner {
            None => contestants.len() == 0,
            Some(w) => exists|k: int|
                first_best(contestant_scores(problem@, old(current_items)@, contestants@), k)
                    && #[trigger] contestants@[k] == w,
        },
{
    let all = problem.aisles();
    let lb = problem.lb();
    let ghost items0 = current_items@;
    let ghost scores = contestant_scores(problem@, items0, contestants@);
    let mut best: Option<(usize, usize, u32)> = None;
    let mut t: usize = 0;
    while t < contestants.len()
        invariant
            t <= contestants.len(),
            contestants.len() > 0 ==> orders_in_range(problem@),
            current_items@ == items0,
            items0.len() == problem@.i,
            lb == problem@.lb,
            scores == contestant_scores(problem@, items0, contestants@),
            entry_maps_match(all@, problem@),
            forall|q: int| 0 <= q < contestants.len() ==> #[trigger] contestants@[q] < problem@.a,
            forall|q: int| 0 <= q < contestants.len() ==> #[trigger] aisle_fits(problem@, items0, contestants@[q]),
            t == 0 ==> best is None,
            t > 0 ==> (best matches Some(b) && b.0 < t && b.1 == contestants@[b.0 as int] && b.2
                == scores[b.0 as int] && first_best(scores.take(t as int), b.0 as int)),
        decreases contestants.len() - t,
    {
        let aisle = contestants[t];
        assert(aisle_fits(problem@, items0, contestants@[t as int]));
        let listed = entries_of(&all[aisle]);
        let entries = &listed;
        assert(problem@.aisles[aisle as int] == crate::entries::pairs_to_map(entries@));
        add_entries(current_items, entries);
        assert(supply_of(current_items@) =~= plus_items(items0, problem@.aisles[aisle as int]));
        let number = problem.add_orders(current_items);
        let s: u32 = if number < lb {
            0
        } else {
            number
        };
        assert(s == scores[t as int]);
        subtract_entries(current_items, entries);
        assert(current_items@ =~= items0);
        let ghost prev = best;
        let take = match best {
            None => true,
            Some(b) => s > b.2,
        };
        if take {
            best = Some((t, aisle, s));
        }
        assert(scores.take(t + 1).len() == t + 1);
        proof {
            if t > 0 {
                let b = prev->Some_0;
                if take {
                    assert forall|q: int| 0 <= q < t + 1 implies #[trigger] scores.take(t + 1)[q]
                        <= scores.take(t + 1)[t as int] by {
                        if q < t {
                            assert(scores.take(t as int)[q] <= scores.take(t as int)[b.0 as int]);
                        }
                    }
                    assert forall|q: int| 0 <= q < t implies #[trigger] scores.take(t + 1)[q]
                        < scores.take(t + 1)[t as int] by {
                        assert(scores.take(t as int)[q] <= scores.take(t as int)[b.0 as int]);
                    }
                } else {
                    assert forall|q: int| 0 <= q < t + 1 implies #[trigger] scores.take(t + 1)[q]
                        <= scores.take(t + 1)[b.0 as int] by {
                        if q < t {
                            assert(scores.take(t as int)[q] <= scores.take(t as int)[b.0 as int]);
                        }
                    }
                    assert forall|q: int| 0 <= q < b.0 implies #[trigger] scores.take(t + 1)[q]
                        < scores.take(t + 1)[b.0 as int] by {
                        assert(scores.take(t as int)[q] < scores.take(t as int)[b.0 as int]);
                    }
                }
            }
        }
        t = t + 1;
    }
    assert(scores.take(t as int) =~= scores);
    match best {
        None => None,
        Some(b) => Some(b.1),
    }
}

/// A tournament is judged by the objective: the winner lets the greedy
/// selection pick the most items among the contestants that reach the lower
/// bound, an earlier contestant wins only below the bound or with fewer
/// items, and where no contestant reaches the bound (all objectives zero)
/// the first contestant wins.
pub proof fn law_winner_has_best_objective(p: ProblemView, items: Seq<u32>, contestants: Seq<usize>, k: int)
    requires
        first_best(contestant_scores(p, items, contestants), k),
    ensures
        0 <= k < contestants.len(),
        forall|t: int|
            0 <= t < contestants.len() && picked_with(p, items, #[trigger] contestants[t] as int) >= p.lb
                ==> picked_with(p, items, contestants[k] as int) >= p.lb && picked_with(
                p,
                items,
                contestants[k] as int,
            ) >= picked_with(p, items, contestants[t] as int),
        forall|t: int|
            0 <= t < k ==> picked_with(p, items, #[trigger] contestants[t] as int) < p.lb || picked_with(
                p,
                items,
                #[trigger] contestants[t] as int,
            ) < picked_with(p, items, contestants[k] as int),
        (forall|t: int| 0 <= t < contestants.len() ==> picked_with(p, items, #[trigger] contestants[t] as int) < p.lb)
            ==> k == 0,
{
    let scores = contestant_scores(p, items, contestants);
    assert forall|t: int|
        0 <= t < contestants.len() && picked_with(p, items, #[trigger] contestants[t] as int) >= p.lb
            implies picked_with(p, items, contestants[k] as int) >= p.lb && picked_with(
            p,
            items,
            contestants[k] as int,
        ) >= picked_with(p, items, contestants[t] as int) by {
        assert(scores[t] <= scores[k]);
        assert(scores[t] == score(p, picked_with(p, items, contestants[t] as int)));
        assert(scores[k] == score(p, picked_with(p, items, contestants[k] as int)));
        lemma_picked_nonnegative(p, items, contestants[t] as int);
        lemma_picked_nonnegative(p, items, contestants[k] as int);
    }
    if forall|t: int| 0 <= t < contestants.len() ==> picked_with(p, items, #[trigger] contestants[t] as int) < p.lb {
        if k > 0 {
            assert(scores[0] < scores[k]);
            assert(picked_with(p, items, contestants[k] as int) < p.lb);
            assert(picked_with(p, items, contestants[0] as int) < p.lb);
        }
    }
    assert forall|t: int| 0 <= t < k implies picked_with(p, items, #[trigger] contestants[t] as int) < p.lb
        || picked_with(p, items, contestants[t] as int) < picked_with(p, items, contestants[k] as int) by {
        assert(scores[t] < scores[k]);
    }
}

/// The greedy selection never picks a negative number of items.
proof fn lemma_picked_nonnegative(p: ProblemView, items: Seq<u32>, aisle: int)
    ensures
        picked_with(p, items, aisle) >= 0,
{
    lemma_greedy_from(p.orders, p.sorted_orders, p.ub as int, plus_items(items, p.aisles[aisle]), 0);
}

/// The greedy selection never ends below the count it starts from.
proof fn lemma_greedy_from(
    orders: Seq<Map<usize, u32>>,
    sorted: Seq<(usize, u32)>,
    ub: int,
    avail: Seq<int>,
    count: int,
)
    ensures
        greedy(orders, sorted, ub, avail, count) >= count,
    decreases sorted.len(),
{
    if sorted.len() > 0 {
        let (k, qty) = sorted[0];
        if count + qty <= ub && fits(orders[k as int], avail) {
            lemma_greedy_from(orders, sorted.drop_first(), ub, take_order(orders[k as int], avail), count + qty);
        } else {
            lemma_greedy_from(orders, sorted.drop_first(), ub, avail, count);
        }
    }
}

/// The aisle maps of `aisles` are the aisles of `p`.
pub open spec fn entry_maps_match(aisles: Seq<HashMap<usize, u32>>, p: ProblemView) -> bool {
    crate::problem::entry_maps(aisles) == p.aisles && aisles.len() == p.a
}


/// `v` without `value`, the rest in their order.
fn remove_value(v: &mut Vec<usize>, value: usize)
    requires
        ascending(old(v)@),
    ensures
        ascending(final(v)@),
        final(v)@.to_set() == old(v)@.to_set().remove(value),
        final(v)@.len() == old(v)@.len() - if old(v)@.contains(value) {
            1int
        } else {
            0int
        },
{
    let mut kept: Vec<usize> = Vec::new();
    let mut p: usize = 0;
    while p < v.len()
        invariant
            p <= v.len(),
            v@ == old(v)@,
            ascending(v@),
            ascending(kept@),
            forall|q: int| 0 <= q < kept.len() ==> exists|r: int| 0 <= r < p && #[trigger] kept@[q] == v@[r],
            kept@.to_set() == v@.take(p as int).to_set().remove(value),
            kept@.len() == p - if v@.take(p as int).contains(value) {
                1int
            } else {
                0int
            },
        decreases v.len() - p,
    {
        let e = v[p];
        let ghost before = kept@;
        assert(v@.take(p + 1) =~= v@.take(p as int).push(e));
        proof {
            lemma_push_contains(v@.take(p as int), e, value);
            if e == value && v@.take(p as int).contains(value) {
                let r = choose|r: int| 0 <= r < p && #[trigger] v@.take(p as int)[r] == value;
                assert(v@[r] < v@[p as int]);
            }
        }
        if e != value {
            kept.push(e);
            assert forall|q: int| 0 <= q < kept.len() implies exists|r: int| 0 <= r < p + 1 && #[trigger] kept@[q] == v@[r] by {
                if q < before.len() {
                    let r = choose|r: int| 0 <= r < p && #[trigger] before[q] == v@[r];
                    assert(kept@[q] == v@[r]);
                } else {
                    assert(kept@[q] == v@[p as int]);
                }
            }
            assert forall|a: int, b: int| 0 <= a < b < kept.len() implies kept@[a] < kept@[b] by {
                if b == kept.len() - 1 {
                    let r = choose|r: int| 0 <= r < p && #[trigger] before[a] == v@[r];
                    assert(v@[r] < v@[p as int]);
                } else {
                    assert(before[a] < before[b]);
                }
            }
        } else {
            assert forall|q: int| 0 <= q < kept.len() implies exists|r: int| 0 <= r < p + 1 && #[trigger] kept@[q] == v@[r] by {
                let r = choose|r: int| 0 <= r < p && #[trigger] kept@[q] == v@[r];
                assert(kept@[q] == v@[r]);
            }
        }
        assert forall|y: usize| #[trigger] kept@.to_set().contains(y) <==> v@.take(p + 1).to_set().remove(
            value,
        ).contains(y) by {
            assert(v@.take(p + 1) =~= v@.take(p as int).push(e));
            lemma_push_contains(v@.take(p as int), e, y);
            if kept@.len() > before.len() {
                assert(kept@ =~= before.push(e));
                lemma_push_contains(before, e, y);
            }
            assert(before.to_set().contains(y) <==> before.contains(y));
        }
        assert(kept@.to_set() =~= v@.take(p + 1).to_set().remove(value));
        p = p + 1;
    }
    assert(v@.take(p as int) =~= v@);
    *v = kept;
}

/// The item counts of `base` joined by what the aisles of `s` offer.
pub open spec fn round_items(p: ProblemView, base: Seq<u32>, s: Set<usize>) -> Seq<u32> {
    Seq::new(base.len(), |j: int| (base[j] + supply(p.aisles, s, j, p.aisles.len())) as u32)
}

/// The counts of `base` joined by the aisles of `s` stay within `u32::MAX`.
pub open spec fn set_fits(p: ProblemView, base: Seq<u32>, s: Set<usize>) -> bool {
    forall|j: int| 0 <= j < base.len() ==> base[j] + #[trigger] supply(p.aisles, s, j, p.aisles.len()) <= u32::MAX
}

/// Every candidate names items of the problem, and `base` joined by any `n`
/// of the candidates stays within `u32::MAX`: no tournament of `n` rounds
/// can make a count overflow.
pub open spec fn subsets_fit(p: ProblemView, base: Seq<u32>, candidates: Set<usize>, n: nat) -> bool {
    &&& forall|c: usize| #[trigger] candidates.contains(c) ==> items_below(p.aisles[c as int], p.i as int)
    &&& forall|s: Set<usize>|
        s.subset_of(candidates) && s.finite() && s.len() <= n ==> #[trigger] set_fits(p, base, s)
}

/// The number of contestants of the tournament that follows `r` additions:
/// `k`, or all remaining candidates where fewer are left.
pub open spec fn contest_size(k: nat, candidates: Seq<usize>, r: int) -> int {
    if k < candidates.len() - r {
        k as int
    } else {
        candidates.len() - r
    }
}

/// `contest` is a draw of the tournament that follows the additions
/// `picks`: `contest_size` distinct candidates not picked before.
pub open spec fn drawn_after(candidates: Seq<usize>, k: nat, picks: Seq<usize>, contest: Seq<usize>) -> bool {
    &&& contest.no_duplicates()
    &&& contest.len() == contest_size(k, candidates, picks.len() as int)
    &&& forall|t: int|
        0 <= t < contest.len() ==> candidates.contains(#[trigger] contest[t]) && !picks.to_set().contains(
            contest[t],
        )
}

/// `picks[r]` won its tournament: `contest` was drawn after the earlier
/// picks, `base` joined by those picks stays within `u32::MAX`, and
/// `picks[r]` is its first contestant with the highest score against
/// `base` joined by the earlier picks.
pub open spec fn won_round(
    p: ProblemView,
    base: Seq<u32>,
    candidates: Seq<usize>,
    k: nat,
    picks: Seq<usize>,
    contest: Seq<usize>,
    r: int,
) -> bool {
    let earlier = picks.take(r);
    &&& drawn_after(candidates, k, earlier, contest)
    &&& set_fits(p, base, earlier.to_set())
    &&& exists|w: int|
        first_best(contestant_scores(p, round_items(p, base, earlier.to_set()), contest), w)
            && #[trigger] contest[w] == picks[r]
}

/// Each pick won the tournament of its round.
pub open spec fn tournament_history(
    p: ProblemView,
    base: Seq<u32>,
    candidates: Seq<usize>,
    k: nat,
    picks: Seq<usize>,
    contests: Seq<Seq<usize>>,
) -> bool {
    &&& contests.len() == picks.len()
    &&& picks.no_duplicates()
    &&& forall|r: int| 0 <= r < picks.len() ==> #[trigger] won_round(p, base, candidates, k, picks, contests[r], r)
}

/// What the aisles of `aisles` offer of item `j`, one after the other.
pub open spec fn offered_by(p: ProblemView, aisles: Seq<usize>, j: int) -> int
    decreases aisles.len(),
{
    if aisles.len() == 0 {
        0
    } else {
        offered_by(p, aisles.drop_last(), j) + qty_of(p.aisles[aisles.last() as int], j)
    }
}

/// The counts of `base` once the aisles of `aisles` have joined it.
pub open spec fn joined_by(p: ProblemView, base: Seq<u32>, aisles: Seq<usize>) -> Seq<int> {
    Seq::new(base.len(), |j: int| base[j] + offered_by(p, aisles, j))
}

/// The score of aisle `c` when it joins `base` after the aisles `earlier`.
pub open spec fn score_after(p: ProblemView, base: Seq<u32>, earlier: Seq<usize>, c: usize) -> int {
    score(p, greedy(p.orders, p.sorted_orders, p.ub as int, joined_by(p, base, earlier.push(c)), 0))
}

/// `picks[r]` is the first contestant of `contest` with the best score
/// after the picks before it.
pub open spec fn best_after(p: ProblemView, base: Seq<u32>, picks: Seq<usize>, contest: Seq<usize>, r: int) -> bool {
    exists|w: int|
        first_best(Seq::new(contest.len(), |t: int| score_after(p, base, picks.take(r), contest[t])), w)
            && #[trigger] contest[w] == picks[r]
}

/// Distinct aisles offer together what they offer one after the other.
proof fn lemma_offered_by_set(p: ProblemView, aisles: Seq<usize>, j: int)
    requires
        aisles.no_duplicates(),
        p.aisles.len() <= usize::MAX,
        forall|q: int| 0 <= q < aisles.len() ==> #[trigger] aisles[q] < p.aisles.len(),
    ensures
        supply(p.aisles, aisles.to_set(), j, p.aisles.len()) == offered_by(p, aisles, j),
    decreases aisles.len(),
{
    if aisles.len() == 0 {
        assert(aisles.to_set() =~= Set::<usize>::empty());
        lemma_supply_empty(p.aisles, j, p.aisles.len());
    } else {
        let front = aisles.drop_last();
        let c = aisles.last();
        assert(aisles =~= front.push(c));
        assert forall|y: usize| #[trigger] aisles.to_set().contains(y) <==> front.to_set().insert(c).contains(y) by {
            lemma_push_contains(front, c, y);
        }
        assert(aisles.to_set() =~= front.to_set().insert(c));
        assert(!front.to_set().contains(c)) by {
            if front.contains(c) {
                let q = choose|q: int| 0 <= q < front.len() && front[q] == c;
                assert(aisles[q] == aisles[aisles.len() - 1]);
            }
        }
        assert forall|q: int| 0 <= q < front.len() implies #[trigger] front[q] < p.aisles.len() by {
            assert(front[q] == aisles[q]);
        }
        assert(front.no_duplicates()) by {
            assert forall|a: int, b: int| 0 <= a < b < front.len() implies front[a] != front[b] by {
                assert(front[a] == aisles[a] && front[b] == aisles[b]);
            }
        }
        lemma_offered_by_set(p, front, j);
        assert(c == aisles[aisles.len() - 1]);
        lemma_supply_insert(p.aisles, front.to_set(), c, j, p.aisles.len());
    }
}

/// The tournaments build on each other: in every round each contestant is
/// judged on the position's counts joined by the aisles picked in the
/// earlier rounds and by the contestant, and the pick of the round is the
/// first contestant with the best score there.
pub proof fn law_rounds_build_on_earlier_picks(
    p: ProblemView,
    base: Seq<u32>,
    candidates: Seq<usize>,
    k: nat,
    picks: Seq<usize>,
    contests: Seq<Seq<usize>>,
)
    requires
        tournament_history(p, base, candidates, k, picks, contests),
        p.aisles.len() <= usize::MAX,
        forall|t: int| 0 <= t < candidates.len() ==> #[trigger] candidates[t] < p.aisles.len(),
    ensures
        forall|r: int| 0 <= r < picks.len() ==> #[trigger] best_after(p, base, picks, contests[r], r),
{
    assert forall|q: int| 0 <= q < picks.len() implies #[trigger] picks[q] < p.aisles.len() by {
        assert(won_round(p, base, candidates, k, picks, contests[q], q));
        let w = choose|w: int|
            first_best(contestant_scores(p, round_items(p, base, picks.take(q).to_set()), contests[q]), w)
                && #[trigger] contests[q][w] == picks[q];
        assert(candidates.contains(contests[q][w]));
    }
    assert forall|r: int| 0 <= r < picks.len() implies #[trigger] best_after(p, base, picks, contests[r], r) by {
        let contest = contests[r];
        let earlier = picks.take(r);
        assert(won_round(p, base, candidates, k, picks, contest, r));
        let items = round_items(p, base, earlier.to_set());
        let w = choose|w: int|
            first_best(contestant_scores(p, items, contest), w) && #[trigger] contest[w] == picks[r];
        assert(earlier.no_duplicates()) by {
            assert forall|a: int, b: int| 0 <= a < b < earlier.len() implies earlier[a] != earlier[b] by {
                assert(earlier[a] == picks[a] && earlier[b] == picks[b]);
            }
        }
        assert forall|q: int| 0 <= q < earlier.len() implies #[trigger] earlier[q] < p.aisles.len() by {
            assert(earlier[q] == picks[q]);
        }
        assert forall|t: int| 0 <= t < contest.len() implies #[trigger] plus_items(items, p.aisles[contest[t] as int])
            == joined_by(p, base, earlier.push(contest[t])) by {
            let c = contest[t];
            assert(earlier.push(c).drop_last() =~= earlier);
            assert forall|j: int| 0 <= j < base.len() implies #[trigger] plus_items(items, p.aisles[c as int])[j]
                == joined_by(p, base, earlier.push(c))[j] by {
                lemma_offered_by_set(p, earlier, j);
                assert(base[j] + supply(p.aisles, earlier.to_set(), j, p.aisles.len()) <= u32::MAX);
                lemma_supply_nonnegative(p.aisles, earlier.to_set(), j, p.aisles.len());
            }
            assert(plus_items(items, p.aisles[c as int]) =~= joined_by(p, base, earlier.push(c)));
        }
        assert(Seq::new(contest.len(), |t: int| score_after(p, base, earlier, contest[t]))
            =~= contestant_scores(p, items, contest));
    }
}

/// The tournament drawn after `picks` holds a contestant that does not fit
/// `base` joined by the picks: one of its items is beyond the problem, or
/// a count would pass `u32::MAX`.
pub open spec fn overflow_round(
    p: ProblemView,
    base: Seq<u32>,
    candidates: Seq<usize>,
    k: nat,
    picks: Seq<usize>,
    contest: Seq<usize>,
) -> bool {
    &&& drawn_after(candidates, k, picks, contest)
    &&& exists|t: int|
        0 <= t < contest.len() && !aisle_fits(p, round_items(p, base, picks.to_set()), #[trigger] contest[t])
}

/// The number of additions of a selection that runs to its end.
pub open spec fn planned_picks(k: nat, candidates: Seq<usize>, n_to_add: nat) -> nat {
    if k == 0 {
        0
    } else if n_to_add < candidates.len() {
        n_to_add
    } else {
        candidates.len()
    }
}

/// Whether `candidates` can be handed to `k_tournament_selection`: in
/// increasing order, aisles of the problem.
pub fn valid_candidates(problem: &Problem, candidates: &Vec<usize>) -> (b: bool)
    ensures
        b == (ascending(candidates@) && forall|t: int| 0 <= t < candidates.len() ==> #[trigger] candidates@[t] < problem@.a),
{
    let n = problem.a();
    let mut q: usize = 0;
    while q < candidates.len()
        invariant
            q <= candidates.len(),
            n == problem@.a,
            forall|t: int| 0 <= t < q ==> #[trigger] candidates@[t] < n,
            forall|s: int, t: int| 0 <= s < t < q ==> candidates@[s] < candidates@[t],
        decreases candidates.len() - q,
    {
        let c = candidates[q];
        if c >= n {
            return false;
        }
        if q > 0 && candidates[q - 1] >= c {
            return false;
        }
        assert forall|s: int, t: int| 0 <= s < t < q + 1 implies candidates@[s] < candidates@[t] by {
            if t == q && s < q - 1 {
                assert(candidates@[s] < candidates@[q - 1]);
            }
        }
        q = q + 1;
    }
    true
}

/// Greedily selects up to `n_to_add` aisles from `candidates` by tournament
/// selection and adds their additions to `current`.
///
/// For each addition, `k` candidates (all of the remaining ones where fewer
/// are left) are drawn at random, and the winner of `tournament_winner`
/// joins: it leaves the candidates, and its items join the supply that the
/// following tournaments start from. With `k > 0` there is one addition per
/// round while candidates remain; with `k == 0` or `n_to_add == 0` nothing
/// happens.
///
/// A drawn contestant that does not fit the supply (an item beyond the
/// problem, or a count past `u32::MAX`) ends the selection: the result is
/// then `false`, and the draw that held it is stated. This cannot happen
/// when the position joined by any `n_to_add` candidates fits.
pub fn k_tournament_selection(
    rng: &mut StdRng,
    problem: &Problem,
    position: &Position,
    current: &mut Velocity,
    candidates: &Vec<usize>,
    n_to_add: usize,
    k: usize,
) -> (fitted: bool)
    requires
        position.consistent(problem@),
        n_to_add > 0 && k > 0 ==> {
            &&& ascending(candidates@)
            &&& forall|t: int| 0 <= t < candidates.len() ==> #[trigger] candidates@[t] < problem@.a
            &&& candidates.len() > 0 ==> orders_in_range(problem@)
        },
    ensures
        final(current).removed() == old(current).removed(),
        subsets_fit(problem@, position.items(), candidates@.to_set(), n_to_add as nat) ==> fitted,
        exists|picks: Seq<usize>, contests: Seq<Seq<usize>>|
            #[trigger] tournament_history(problem@, position.items(), candidates@, k as nat, picks, contests)
                && final(current).added() == old(current).added().union(picks.to_set())
                && (fitted ==> picks.len() == planned_picks(k as nat, candidates@, n_to_add as nat))
                && (!fitted ==> picks.len() < planned_picks(k as nat, candidates@, n_to_add as nat)
                    && exists|stuck: Seq<usize>|
                    #[trigger] overflow_round(problem@, position.items(), candidates@, k as nat, picks, stuck)),
{
    if n_to_add == 0 || k == 0 {
        let ghost none: Seq<usize> = seq![];
        assert(old(current).added().union(none.to_set()) =~= old(current).added());
        assert(tournament_history(problem@, position.items(), candidates@, k as nat, none, seq![]));
        return true;
    }
    let all = problem.aisles();
    let ghost p = problem@;
    let ghost base = position.items();
    let ghost n = p.aisles.len();
    let ghost cands = candidates@.to_set();
    let mut remaining: Vec<usize> = Vec::new();
    let mut q: usize = 0;
    while q < candidates.len()
        invariant
            q <= candidates.len(),
            remaining@ == candidates@.take(q as int),
        decreases candidates.len() - q,
    {
        remaining.push(candidates[q]);
        assert(remaining@ =~= candidates@.take(q + 1));
        q = q + 1;
    }
    assert(remaining@ =~= candidates@);
    let source = position.aisles_items();
    let mut current_items: Vec<u32> = Vec::new();
    let mut j: usize = 0;
    while j < source.len()
        invariant
            j <= source.len(),
            current_items@ == source@.take(j as int),
        decreases source.len() - j,
    {
        current_items.push(source[j]);
        assert(current_items@ =~= source@.take(j + 1));
        j = j + 1;
    }
    assert(current_items@ =~= source@);
    let ghost mut picks: Seq<usize> = seq![];
    let ghost mut contests: Seq<Seq<usize>> = seq![];
    assert forall|jj: int| 0 <= jj < current_items.len() implies #[trigger] current_items@[jj] == base[jj]
        + supply(p.aisles, picks.to_set(), jj, n) by {
        assert(picks.to_set() =~= Set::<usize>::empty());
        lemma_supply_empty(p.aisles, jj, n);
    }
    assert(remaining@.to_set() =~= cands.difference(picks.to_set()));
    let mut round: usize = 0;
    while round < n_to_add
        invariant
            0 < k,
            round <= n_to_add,
            p == problem@,
            base == position.items(),
            n == p.aisles.len(),
            entry_maps_match(all@, p),
            p.aisles.len() == p.a,
            p.a <= usize::MAX,
            cands == candidates@.to_set(),
            candidates.len() > 0 ==> orders_in_range(p),
            forall|c: usize| #[trigger] cands.contains(c) ==> c < p.a,
            ascending(remaining@),
            remaining@.to_set() == cands.difference(picks.to_set()),
            tournament_history(p, base, candidates@, k as nat, picks, contests),
            picks.to_set().subset_of(cands),
            remaining.len() + picks.len() == candidates.len(),
            picks.len() == if round < candidates.len() {
                round as nat
            } else {
                candidates.len() as nat
            },
            current.added() == old(current).added().union(picks.to_set()),
            current.removed() == old(current).removed(),
            current_items.len() == p.i,
            base.len() == p.i,
            forall|jj: int| 0 <= jj < current_items.len() ==> #[trigger] current_items@[jj] == base[jj]
                + supply(p.aisles, picks.to_set(), jj, n),
        decreases n_to_add - round,
    {
        let size: usize = if k < remaining.len() {
            k
        } else {
            remaining.len()
        };
        let contestants = sample_from(rng, &remaining, size);
        let ghost committed = picks.to_set();
        proof {
            lemma_sample_elements(contestants@, remaining@);
            lemma_round_items(p, base, committed, current_items@);
            assert forall|t: int| 0 <= t < contestants.len() implies #[trigger] contestants@[t] < p.a
                && candidates@.contains(contestants@[t]) && !committed.contains(contestants@[t]) by {
                assert(contestants@.contains(contestants@[t]));
                assert(remaining@.to_set().contains(contestants@[t]));
            }
            assert(drawn_after(candidates@, k as nat, picks, contestants@));
        }
        let mut t: usize = 0;
        let mut fits: bool = true;
        while fits && t < contestants.len()
            invariant
                t <= contestants.len(),
                entry_maps_match(all@, p),
                current_items.len() == p.i,
                forall|u: int| 0 <= u < contestants.len() ==> #[trigger] contestants@[u] < p.a,
                forall|u: int| 0 <= u < t ==> #[trigger] aisle_fits(p, current_items@, contestants@[u]),
                !fits ==> t < contestants.len() && !aisle_fits(p, current_items@, contestants@[t as int]),
            decreases contestants.len() - t + (if fits { 1int } else { 0int }),
        {
            let c = contestants[t];
            let listed = entries_of(&all[c]);
            assert(p.aisles[c as int] == crate::entries::pairs_to_map(listed@));
            if entries_fit(&current_items, &listed) {
                t = t + 1;
            } else {
                fits = false;
            }
        }
        if !fits {
            proof {
                let c = contestants@[t as int];
                assert(overflow_round(p, base, candidates@, k as nat, picks, contestants@));
                if subsets_fit(p, base, cands, n_to_add as nat) {
                    assert(cands.contains(c));
                    lemma_no_overflow(p, base, cands, n_to_add as nat, picks, c, current_items@);
                }
            }
            return false;
        }
        let ghost items_before = current_items@;
        let winner = tournament_winner(problem, &mut current_items, &contestants);
        match winner {
            Some(best) => {
                proof {
                    let kk = choose|kk: int|
                        first_best(contestant_scores(p, items_before, contestants@), kk)
                            && #[trigger] contestants@[kk] == best;
                    assert(contestants@.contains(contestants@[kk]));
                    assert(remaining@.to_set().contains(best));
                    assert(aisle_fits(p, items_before, contestants@[kk]));
                    let r = picks.len() as int;
                    let new_picks = picks.push(best);
                    assert(new_picks.take(r) =~= picks);
                    assert(set_fits(p, base, committed)) by {
                        assert forall|jj: int| 0 <= jj < base.len() implies base[jj] + #[trigger] supply(
                            p.aisles,
                            committed,
                            jj,
                            p.aisles.len(),
                        ) <= u32::MAX by {
                            assert(items_before[jj] == base[jj] + supply(p.aisles, committed, jj, n));
                        }
                    }
                    assert(won_round(p, base, candidates@, k as nat, new_picks, contestants@, r)) by {
                        assert(new_picks[r] == best);
                    }
                    assert forall|q: int| 0 <= q < r implies #[trigger] won_round(
                        p,
                        base,
                        candidates@,
                        k as nat,
                        new_picks,
                        contests.push(contestants@)[q],
                        q,
                    ) by {
                        assert(won_round(p, base, candidates@, k as nat, picks, contests[q], q));
                        assert(new_picks.take(q) =~= picks.take(q));
                        assert(contests.push(contestants@)[q] == contests[q]);
                        assert(new_picks[q] == picks[q]);
                    }
                    assert(!picks.contains(best)) by {
                        assert(!committed.contains(best));
                    }
                    assert(new_picks.no_duplicates()) by {
                        assert forall|a: int, b: int| 0 <= a < b < new_picks.len() implies new_picks[a]
                            != new_picks[b] by {
                            if b == r {
                                assert(picks.contains(picks[a]));
                            }
                        }
                    }
                }
                current.insert_addition(best);
                assert(remaining@.contains(best));
                remove_value(&mut remaining, best);
                let listed = entries_of(&all[best]);
                let entries = &listed;
                assert(p.aisles[best as int] == crate::entries::pairs_to_map(entries@));
                let ghost before = current_items@;
                add_entries(&mut current_items, entries);
                proof {
                    assert forall|jj: int| 0 <= jj < current_items@.len() implies #[trigger] current_items@[jj]
                        == base[jj] + supply(p.aisles, committed.insert(best), jj, n) by {
                        lemma_supply_insert(p.aisles, committed, best, jj, n);
                        assert(before[jj] == base[jj] + supply(p.aisles, committed, jj, n));
                    }
                    let new_picks = picks.push(best);
                    assert forall|y: usize| new_picks.contains(y) <==> (picks.contains(y) || y == best) by {
                        lemma_push_contains(picks, best, y);
                    }
                    assert(new_picks.to_set() =~= committed.insert(best));
                    picks = new_picks;
                    contests = contests.push(contestants@);
                    assert(remaining@.to_set() =~= cands.difference(picks.to_set()));
                    assert(current.added() =~= old(current).added().union(picks.to_set()));
                }
            },
            None => {},
        }
        round = round + 1;
    }
    true
}

/// Counts that are `base` joined by the aisles of `s` are `round_items`.
proof fn lemma_round_items(p: ProblemView, base: Seq<u32>, s: Set<usize>, items: Seq<u32>)
    requires
        items.len() == base.len(),
        forall|j: int| 0 <= j < items.len() ==> #[trigger] items[j] == base[j] + supply(p.aisles, s, j, p.aisles.len()),
    ensures
        items == round_items(p, base, s),
{
    assert(items =~= round_items(p, base, s));
}

/// Where any `n` candidates fit, a candidate drawn after fewer than `n`
/// picks fits the counts that those picks reached.
proof fn lemma_no_overflow(
    p: ProblemView,
    base: Seq<u32>,
    cands: Set<usize>,
    n: nat,
    picks: Seq<usize>,
    c: usize,
    items: Seq<u32>,
)
    requires
        subsets_fit(p, base, cands, n),
        picks.no_duplicates(),
        picks.len() < n,
        picks.to_set().subset_of(cands),
        cands.contains(c),
        !picks.to_set().contains(c),
        c < p.aisles.len() <= usize::MAX,
        items.len() == base.len(),
        forall|j: int| 0 <= j < items.len() ==> #[trigger] items[j] == base[j] + supply(
            p.aisles,
            picks.to_set(),
            j,
            p.aisles.len(),
        ),
    ensures
        aisle_fits(p, items, c),
{
    let s = picks.to_set().insert(c);
    picks.unique_seq_to_set();
    vstd::seq_lib::seq_to_set_is_finite(picks);
    assert(s.len() == picks.len() + 1);
    assert(s.subset_of(cands));
    assert(set_fits(p, base, s));
    assert forall|j: int| 0 <= j < items.len() implies items[j] + #[trigger] qty_of(p.aisles[c as int], j)
        <= u32::MAX by {
        lemma_supply_insert(p.aisles, picks.to_set(), c, j, p.aisles.len());
        assert(base[j] + supply(p.aisles, s, j, p.aisles.len()) <= u32::MAX);
    }
}

} // verus!
