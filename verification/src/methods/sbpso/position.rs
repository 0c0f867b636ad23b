//! Positions of particles: a set of aisles and the quantity of each item
//! that those aisles offer together.

use std::collections::HashSet;
use vstd::prelude::*;

use crate::entries::{entries_of, items_below, pairs_to_map, qty_of};
use crate::problem::{room_for, Problem, ProblemView};
use crate::methods::sbpso::sampling::{ascending, lemma_push_contains};
use crate::methods::sbpso::velocity::{Op, Velocity};
use crate::supply::{
    add_entries, aisles_below, lemma_supply_empty, lemma_supply_insert, lemma_supply_monotone,
    lemma_supply_nonnegative, lemma_supply_remove, subtract_entries, supply, supply_matches,
};

verus! {

broadcast use vstd::std_specs::hash::group_hash_axioms;

/// A set of aisles together with the quantity of each item they offer.
pub struct Position {
    x: HashSet<usize>,
    aisles_items: Vec<u32>,
}

/// Aisle `c` can join the supply `items`: its items are below the number of
/// items, and adding what it offers keeps every count within `u32::MAX`.
pub open spec fn aisle_fits(p: ProblemView, items: Seq<u32>, c: usize) -> bool {
    &&& items_below(p.aisles[c as int], p.i as int)
    &&& forall|j: int| 0 <= j < items.len() ==> items[j] + #[trigger] qty_of(p.aisles[c as int], j) <= u32::MAX
}

/// An aisle outside `s` whose joining keeps `s` within a set `big` that
/// has room fits the supply of `s`.
pub proof fn lemma_fits_within(p: ProblemView, s: Set<usize>, big: Set<usize>, items: Seq<u32>, c: usize)
    requires
        room_for(p, big),
        p.aisles.len() == p.a,
        p.a <= usize::MAX,
        items.len() == p.i,
        supply_matches(p.aisles, s, items),
        s.insert(c).subset_of(big),
        !s.contains(c),
    ensures
        aisle_fits(p, items, c),
{
    assert(big.contains(c));
    assert forall|j: int| 0 <= j < items.len() implies items[j] + #[trigger] qty_of(p.aisles[c as int], j)
        <= u32::MAX by {
        lemma_supply_insert(p.aisles, s, c, j, p.aisles.len());
        lemma_supply_monotone(p.aisles, s.insert(c), big, j, p.aisles.len());
        assert(items[j] == supply(p.aisles, s, j, p.aisles.len()));
        assert(supply(p.aisles, big, j, p.aisles.len()) <= u32::MAX);
    }
}

impl Position {
    /// The aisles of the position.
    pub closed spec fn chosen(&self) -> Set<usize> {
        self.x@
    }

    /// The quantity of each item that the position offers.
    pub closed spec fn items(&self) -> Seq<u32> {
        self.aisles_items@
    }

    /// The position belongs to the problem `p`: its aisles are aisles of `p`
    /// whose items are below the number of items, and its item quantities are
    /// what they offer together.
    pub open spec fn consistent(&self, p: ProblemView) -> bool {
        &&& self.items().len() == p.i
        &&& aisles_below(self.chosen(), p.a)
        &&& forall|b: usize| #[trigger] self.chosen().contains(b) ==> items_below(p.aisles[b as int], p.i as int)
        &&& supply_matches(p.aisles, self.chosen(), self.items())
    }

    /// The aisles of the position.
    pub fn x(&self) -> (x: &HashSet<usize>)
        ensures
            x@ == self.chosen(),
    {
        &self.x
    }

    /// The quantity of each item that the position offers.
    pub fn aisles_items(&self) -> (items: &Vec<u32>)
        ensures
            items@ == self.items(),
    {
        &self.aisles_items
    }

    /// The position without aisles.
    pub fn empty(problem: &Problem) -> (pos: Position)
        ensures
            pos.chosen() == Set::<usize>::empty(),
            pos.consistent(problem@),
    {
        let n = problem.i();
        let mut items: Vec<u32> = Vec::new();
        let mut j: usize = 0;
        while j < n
            invariant
                j <= n,
                items.len() == j,
                forall|q: int| 0 <= q < j ==> #[trigger] items@[q] == 0,
            decreases n - j,
        {
            items.push(0);
            j = j + 1;
        }
        let pos = Position { x: HashSet::new(), aisles_items: items };
        assert forall|q: int| 0 <= q < pos.items().len() implies #[trigger] pos.items()[q] == supply(
            problem@.aisles,
            pos.chosen(),
            q,
            problem@.aisles.len(),
        ) by {
            lemma_supply_empty(problem@.aisles, q, problem@.aisles.len());
        }
        pos
    }

    /// Creates the position holding the aisles `b` for which `choices[b]`
    /// holds; they are added one by one, by increasing index.
    pub fn from_choices(problem: &Problem, choices: &Vec<bool>) -> (pos: Position)
        requires
            choices.len() == problem@.a,
            room_for(problem@, Set::new(|b: usize| b < choices.len() && choices@[b as int])),
        ensures
            pos.chosen() == Set::new(|b: usize| b < choices.len() && choices@[b as int]),
            pos.consistent(problem@),
    {
        let all = problem.aisles();
        let ghost p = problem@;
        let ghost target = Set::new(|c: usize| c < choices.len() && choices@[c as int]);
        let mut pos = Position::empty(problem);
        let mut b: usize = 0;
        while b < choices.len()
            invariant
                b <= choices.len() == problem@.a,
                p == problem@,
                all.len() == p.a,
                p.aisles.len() == p.a,
                target == Set::new(|c: usize| c < choices.len() && choices@[c as int]),
                room_for(p, target),
                pos.consistent(p),
                pos.chosen() == Set::new(|c: usize| c < b && choices@[c as int]),
            decreases choices.len() - b,
        {
            if choices[b] {
                proof {
                    assert(pos.chosen().insert(b).subset_of(target));
                    lemma_fits_within(p, pos.chosen(), target, pos.items(), b);
                }
                pos.insert_aisle(b, problem);
            }
            assert(pos.chosen() =~= Set::new(|c: usize| c < b + 1 && choices@[c as int]));
            b = b + 1;
        }
        pos
    }

    /// Adds an aisle to the solution and updates the available items.
    pub fn insert_aisle(&mut self, aisle: usize, problem: &Problem)
        requires
            old(self).consistent(problem@),
            aisle < problem@.a,
            !old(self).chosen().contains(aisle) ==> aisle_fits(problem@, old(self).items(), aisle),
        ensures
            final(self).chosen() == old(self).chosen().insert(aisle),
            final(self).consistent(problem@),
    {
        let all = problem.aisles();
        let ghost aisles = problem@.aisles;
        let ghost n = aisles.len();
        let ghost x0 = self.chosen();
        let ghost items0 = self.items();
        if self.x.insert(aisle) {
            let listed = entries_of(&all[aisle]);
            let entries = &listed;
            let ghost m = pairs_to_map(entries@);
            assert(aisles[aisle as int] == m);
            let ghost x1 = x0.insert(aisle);
            add_entries(&mut self.aisles_items, entries);
            assert forall|j: int| 0 <= j < self.aisles_items@.len() implies #[trigger] self.aisles_items@[j]
                == supply(aisles, x1, j, n) by {
                lemma_supply_insert(aisles, x0, aisle, j, n);
                assert(items0[j] == supply(aisles, x0, j, n));
            }
        } else {
            assert(x0.insert(aisle) =~= x0);
        }
    }

    /// Removes an aisle from the solution and updates the available items.
    pub fn remove_aisle(&mut self, aisle: usize, problem: &Problem)
        requires
            old(self).consistent(problem@),
        ensures
            final(self).chosen() == old(self).chosen().remove(aisle),
            final(self).consistent(problem@),
    {
        let all = problem.aisles();
        let ghost aisles = problem@.aisles;
        let ghost n = aisles.len();
        let ghost x0 = self.chosen();
        let ghost items0 = self.items();
        if self.x.remove(&aisle) {
            assert(x0.contains(aisle));
            let listed = entries_of(&all[aisle]);
            let entries = &listed;
            let ghost m = pairs_to_map(entries@);
            assert(aisles[aisle as int] == m);
            let ghost x1 = x0.remove(aisle);
            assert forall|j: int| 0 <= j < items0.len() implies items0[j] - #[trigger] qty_of(m, j)
                >= 0 by {
                lemma_supply_remove(aisles, x0, aisle, j, n);
                lemma_supply_nonnegative(aisles, x1, j, n);
                assert(items0[j] == supply(aisles, x0, j, n));
            }
            subtract_entries(&mut self.aisles_items, entries);
            assert forall|j: int| 0 <= j < self.aisles_items@.len() implies #[trigger] self.aisles_items@[j]
                == supply(aisles, x1, j, n) by {
                lemma_supply_remove(aisles, x0, aisle, j, n);
                assert(items0[j] == supply(aisles, x0, j, n));
            }
        } else {
            assert(x0.remove(aisle) =~= x0);
        }
    }

    /// The aisles of the position below `n`, less those that `velocity`
    /// removes, in increasing order, followed by the aisles of `extra`.
    fn listed_with(&self, n: usize, velocity: &Velocity, extra: &Vec<usize>) -> (v: Vec<usize>)
        ensures
            v@.to_set() == Set::new(
                |b: usize| b < n && self.chosen().contains(b) && !velocity.removed().contains(b),
            ).union(extra@.to_set()),
    {
        let mut v: Vec<usize> = Vec::new();
        let mut b: usize = 0;
        while b < n
            invariant
                b <= n,
                v@.to_set() == Set::new(
                    |c: usize| c < b && self.chosen().contains(c) && !velocity.removed().contains(c),
                ),
            decreases n - b,
        {
            let ghost before = v@;
            if self.x.contains(&b) && !velocity.contains(Op::Remove, b) {
                v.push(b);
            }
            assert forall|y: usize| v@.contains(y) <==> (before.contains(y) || (y == b
                && self.chosen().contains(b) && !velocity.removed().contains(b))) by {
                if v@.len() > before.len() {
                    lemma_push_contains(before, b, y);
                }
            }
            assert forall|y: usize| #[trigger] v@.to_set().contains(y) <==> (y < b + 1
                && self.chosen().contains(y) && !velocity.removed().contains(y)) by {
                assert(before.to_set().contains(y) <==> (y < b && self.chosen().contains(y) && !velocity.removed().contains(y)));
            }
            assert(v@.to_set() =~= Set::new(
                |c: usize| c < b + 1 && self.chosen().contains(c) && !velocity.removed().contains(c),
            ));
            b = b + 1;
        }
        let ghost mid = v@;
        let mut t: usize = 0;
        while t < extra.len()
            invariant
                t <= extra.len(),
                v@.to_set() == mid.to_set().union(extra@.take(t as int).to_set()),
            decreases extra.len() - t,
        {
            let ghost before = v@;
            let e = extra[t];
            v.push(e);
            assert forall|y: usize| #[trigger] v@.to_set().contains(y) <==> mid.to_set().union(
                extra@.take(t + 1).to_set(),
            ).contains(y) by {
                lemma_push_contains(before, e, y);
                assert(extra@.take(t + 1) =~= extra@.take(t as int).push(e));
                lemma_push_contains(extra@.take(t as int), e, y);
                assert(before.to_set().contains(y) <==> before.contains(y));
            }
            assert(v@.to_set() =~= mid.to_set().union(extra@.take(t + 1).to_set()));
            t = t + 1;
        }
        assert(extra@.take(t as int) =~= extra@);
        v
    }

    /// Whether the position that `velocity` leads to has room for its
    /// aisles: see `room_for`. This is what `apply_velocity` needs.
    pub fn can_apply(&self, velocity: &Velocity, problem: &Problem) -> (b: bool)
        requires
            self.consistent(problem@),
        ensures
            b == room_for(problem@, self.chosen().difference(velocity.removed()).union(velocity.added())),
    {
        let adds = velocity.added_aisles();
        let v = self.listed_with(problem.a(), velocity, &adds);
        assert(v@.to_set() =~= self.chosen().difference(velocity.removed()).union(velocity.added()));
        problem.has_room_for(&v)
    }

    /// Applies the moves of `velocity`: its removals leave the position,
    /// then its additions join it. In the swarm the additions are aisles
    /// outside the position and the removals aisles inside it, so the order
    /// in which the moves are applied does not change the result; removing
    /// first keeps every count within that of the final position.
    pub fn apply_velocity(&mut self, velocity: &Velocity, problem: &Problem)
        requires
            old(self).consistent(problem@),
            room_for(problem@, old(self).chosen().difference(velocity.removed()).union(velocity.added())),
        ensures
            final(self).chosen() == old(self).chosen().difference(velocity.removed()).union(
                velocity.added(),
            ),
            final(self).consistent(problem@),
    {
        let all = problem.aisles();
        let ghost p = problem@;
        let adds = velocity.added_aisles();
        let removes = velocity.removed_aisles();
        let ghost x0 = self.chosen();
        let ghost target = x0.difference(velocity.removed()).union(velocity.added());
        let mut q: usize = 0;
        while q < removes.len()
            invariant
                q <= removes.len(),
                p == problem@,
                removes@.to_set() == velocity.removed(),
                self.consistent(p),
                self.chosen() == x0.difference(removes@.take(q as int).to_set()),
            decreases removes.len() - q,
        {
            let aisle = removes[q];
            self.remove_aisle(aisle, problem);
            assert forall|y: usize| removes@.take(q + 1).contains(y) <==> (removes@.take(
                q as int,
            ).contains(y) || y == aisle) by {
                assert(removes@.take(q + 1) =~= removes@.take(q as int).push(aisle));
                lemma_push_contains(removes@.take(q as int), aisle, y);
            }
            assert(self.chosen() =~= x0.difference(removes@.take(q + 1).to_set()));
            q = q + 1;
        }
        assert(removes@.take(q as int) =~= removes@);
        let ghost x1 = self.chosen();
        assert(x1 == x0.difference(velocity.removed()));
        let mut r: usize = 0;
        while r < adds.len()
            invariant
                r <= adds.len(),
                p == problem@,
                all.len() == p.a,
                p.aisles.len() == p.a,
                adds@.to_set() == velocity.added(),
                target == x1.union(velocity.added()),
                room_for(p, target),
                self.consistent(p),
                self.chosen() == x1.union(adds@.take(r as int).to_set()),
            decreases adds.len() - r,
        {
            let aisle = adds[r];
            assert(adds@.to_set().contains(aisle));
            assert(target.contains(aisle));
            proof {
                if !self.chosen().contains(aisle) {
                    assert(self.chosen().insert(aisle).subset_of(target));
                    lemma_fits_within(p, self.chosen(), target, self.items(), aisle);
                }
            }
            self.insert_aisle(aisle, problem);
            assert forall|y: usize| adds@.take(r + 1).contains(y) <==> (adds@.take(r as int).contains(y)
                || y == aisle) by {
                assert(adds@.take(r + 1) =~= adds@.take(r as int).push(aisle));
                lemma_push_contains(adds@.take(r as int), aisle, y);
            }
            assert forall|y: usize| #[trigger] self.chosen().contains(y) <==> x1.union(
                adds@.take(r + 1).to_set(),
            ).contains(y) by {
                assert(adds@.take(r as int).to_set().contains(y) <==> adds@.take(r as int).contains(y));
            }
            assert(self.chosen() =~= x1.union(adds@.take(r + 1).to_set()));
            r = r + 1;
        }
        assert(adds@.take(r as int) =~= adds@);
        assert(self.chosen() =~= target);
    }
}

/// The aisles of the problem that none of `x`, `pbest` and `gbest` holds,
/// in increasing order: the candidates for random additions.
pub fn external_aisles(
    problem: &Problem,
    x: &HashSet<usize>,
    pbest: &HashSet<usize>,
    gbest: &HashSet<usize>,
) -> (aisles: Vec<usize>)
    ensures
        ascending(aisles@),
        aisles@.to_set() == Set::new(
            |b: usize| b < problem@.a && !x@.contains(b) && !pbest@.contains(b) && !gbest@.contains(b),
        ),
{
    let n = problem.a();
    let mut aisles: Vec<usize> = Vec::new();
    let mut b: usize = 0;
    while b < n
        invariant
            b <= n,
            n == problem@.a,
            forall|t: int| 0 <= t < aisles@.len() ==> #[trigger] aisles@[t] < b,
            ascending(aisles@),
            aisles@.to_set() == Set::new(
                |c: usize| c < b && !x@.contains(c) && !pbest@.contains(c) && !gbest@.contains(c),
            ),
        decreases n - b,
    {
        let ghost before = aisles@;
        if !x.contains(&b) && !pbest.contains(&b) && !gbest.contains(&b) {
            aisles.push(b);
        }
        assert forall|y: usize| aisles@.contains(y) <==> (before.contains(y) || (y == b
            && !x@.contains(b) && !pbest@.contains(b) && !gbest@.contains(b))) by {
            if aisles@.len() > before.len() {
                lemma_push_contains(before, b, y);
            }
        }
        assert forall|y: usize| #[trigger] aisles@.to_set().contains(y) <==> (y < b + 1
            && !x@.contains(y) && !pbest@.contains(y) && !gbest@.contains(y)) by {
            assert(before.to_set().contains(y) <==> (y < b && !x@.contains(y) && !pbest@.contains(y)
                && !gbest@.contains(y)));
        }
        assert(aisles@.to_set() =~= Set::new(
            |c: usize| c < b + 1 && !x@.contains(c) && !pbest@.contains(c) && !gbest@.contains(c),
        ));
        b = b + 1;
    }
    aisles
}

/// The aisles of the position that `pbest` and `gbest` hold as well, in
/// increasing order: the candidates for random removals.
pub fn consensus_aisles(
    problem: &Problem,
    position: &Position,
    pbest: &HashSet<usize>,
    gbest: &HashSet<usize>,
) -> (aisles: Vec<usize>)
    requires
        position.consistent(problem@),
    ensures
        ascending(aisles@),
        aisles@.to_set() == position.chosen().intersect(pbest@).intersect(gbest@),
{
    let n = problem.a();
    let x = position.x();
    let mut aisles: Vec<usize> = Vec::new();
    let mut b: usize = 0;
    while b < n
        invariant
            b <= n,
            n == problem@.a,
            x@ == position.chosen(),
            forall|t: int| 0 <= t < aisles@.len() ==> #[trigger] aisles@[t] < b,
            ascending(aisles@),
            aisles@.to_set() == Set::new(
                |c: usize| c < b && x@.contains(c) && pbest@.contains(c) && gbest@.contains(c),
            ),
        decreases n - b,
    {
        let ghost before = aisles@;
        if x.contains(&b) && pbest.contains(&b) && gbest.contains(&b) {
            aisles.push(b);
        }
        assert forall|y: usize| aisles@.contains(y) <==> (before.contains(y) || (y == b
            && x@.contains(b) && pbest@.contains(b) && gbest@.contains(b))) by {
            if aisles@.len() > before.len() {
                lemma_push_contains(before, b, y);
            }
        }
        assert forall|y: usize| #[trigger] aisles@.to_set().contains(y) <==> (y < b + 1
            && x@.contains(y) && pbest@.contains(y) && gbest@.contains(y)) by {
            assert(before.to_set().contains(y) <==> (y < b && x@.contains(y) && pbest@.contains(y)
                && gbest@.contains(y)));
        }
        assert(aisles@.to_set() =~= Set::new(
            |c: usize| c < b + 1 && x@.contains(c) && pbest@.contains(c) && gbest@.contains(c),
        ));
        b = b + 1;
    }
    assert(aisles@.to_set() =~= position.chosen().intersect(pbest@).intersect(gbest@));
    aisles
}

} // verus!
