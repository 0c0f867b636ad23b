//! Velocities of set-based particle swarm optimization: sets of moves that
//! add an aisle to a position or remove one from it.

use rand::rngs::StdRng;
use std::collections::HashSet;
use vstd::prelude::*;

use crate::methods::sbpso::sampling::{ascending, lemma_push_contains, lemma_sample_elements, sample_from, set_elements};

verus! {

broadcast use vstd::std_specs::hash::group_hash_axioms;

/// Represents the operation performed at the particle's velocity.
#[derive(Clone, Copy, Debug, PartialEq, Eq, Structural)]
pub enum Op {
    Add,
    Remove,
}

/// The order of moves: additions first, then by aisle.
pub open spec fn move_before(m1: (Op, usize), m2: (Op, usize)) -> bool {
    (m1.0 == Op::Add && m2.0 == Op::Remove) || (m1.0 == m2.0 && m1.1 < m2.1)
}

/// The aisles that `moves` adds.
pub open spec fn added_by(moves: Seq<(Op, usize)>) -> Set<usize> {
    Set::new(|a: usize| moves.contains((Op::Add, a)))
}

/// The aisles that `moves` removes.
pub open spec fn removed_by(moves: Seq<(Op, usize)>) -> Set<usize> {
    Set::new(|a: usize| moves.contains((Op::Remove, a)))
}

/// A set of moves: the pairs `(Op::Add, aisle)` and `(Op::Remove, aisle)`.
pub struct Velocity {
    adds: HashSet<usize>,
    removes: HashSet<usize>,
}

impl Velocity {
    /// The aisles that the velocity adds.
    pub closed spec fn added(&self) -> Set<usize> {
        self.adds@
    }

    /// The aisles that the velocity removes.
    pub closed spec fn removed(&self) -> Set<usize> {
        self.removes@
    }

    /// Whether `m` is a move of the velocity.
    pub open spec fn has_move(&self, m: (Op, usize)) -> bool {
        match m.0 {
            Op::Add => self.added().contains(m.1),
            Op::Remove => self.removed().contains(m.1),
        }
    }

    /// The velocity without moves.
    pub fn new() -> (v: Velocity)
        ensures
            v.added() == Set::<usize>::empty(),
            v.removed() == Set::<usize>::empty(),
    {
        Velocity { adds: HashSet::new(), removes: HashSet::new() }
    }

    /// The number of moves (at most `usize::MAX`).
    pub fn len(&self) -> (n: usize)
        ensures
            n == if self.added().len() + self.removed().len() <= usize::MAX {
                self.added().len() + self.removed().len()
            } else {
                usize::MAX as nat
            },
    {
        self.adds.len().saturating_add(self.removes.len())
    }

    /// Whether `(op, aisle)` is a move of the velocity.
    pub fn contains(&self, op: Op, aisle: usize) -> (b: bool)
        ensures
            b == self.has_move((op, aisle)),
    {
        match op {
            Op::Add => self.adds.contains(&aisle),
            Op::Remove => self.removes.contains(&aisle),
        }
    }

    /// The aisles that the velocity adds, in increasing order.
    pub fn added_aisles(&self) -> (aisles: Vec<usize>)
        ensures
            ascending(aisles@),
            aisles@.to_set() == self.added(),
    {
        set_elements(&self.adds)
    }

    /// The aisles that the velocity removes, in increasing order.
    pub fn removed_aisles(&self) -> (aisles: Vec<usize>)
        ensures
            ascending(aisles@),
            aisles@.to_set() == self.removed(),
    {
        set_elements(&self.removes)
    }

    /// The moves of the velocity in order: additions by aisle, then removals by aisle.
    pub fn moves(&self) -> (moves: Vec<(Op, usize)>)
        ensures
            forall|p: int, q: int| 0 <= p < q < moves@.len() ==> move_before(moves@[p], moves@[q]),
            forall|m: (Op, usize)| moves@.contains(m) <==> self.has_move(m),
            moves@.len() == self.added().len() + self.removed().len(),
    {
        let adds = set_elements(&self.adds);
        let removes = set_elements(&self.removes);
        let mut moves: Vec<(Op, usize)> = Vec::new();
        let mut p: usize = 0;
        while p < adds.len()
            invariant
                p <= adds.len(),
                moves@ == adds@.take(p as int).map_values(|a: usize| (Op::Add, a)),
            decreases adds.len() - p,
        {
            moves.push((Op::Add, adds[p]));
            assert(moves@ =~= adds@.take(p + 1).map_values(|a: usize| (Op::Add, a)));
            p = p + 1;
        }
        let mut q: usize = 0;
        while q < removes.len()
            invariant
                q <= removes.len(),
                p == adds.len(),
                moves@ == adds@.map_values(|a: usize| (Op::Add, a)) + removes@.take(q as int).map_values(
                    |a: usize| (Op::Remove, a),
                ),
            decreases removes.len() - q,
        {
            moves.push((Op::Remove, removes[q]));
            assert(moves@ =~= adds@.map_values(|a: usize| (Op::Add, a)) + removes@.take(
                q + 1,
            ).map_values(|a: usize| (Op::Remove, a)));
            q = q + 1;
        }
        assert(adds@.take(p as int) =~= adds@);
        assert(removes@.take(q as int) =~= removes@);
        let ghost na = adds@.len();
        assert forall|m: (Op, usize)| moves@.contains(m) <==> self.has_move(m) by {
            if moves@.contains(m) {
                let k = choose|k: int| 0 <= k < moves@.len() && moves@[k] == m;
                if k < na {
                    assert(adds@.contains(adds@[k]));
                } else {
                    assert(removes@.contains(removes@[k - na]));
                }
            }
            if self.has_move(m) {
                match m.0 {
                    Op::Add => {
                        assert(adds@.to_set().contains(m.1));
                        let k = choose|k: int| 0 <= k < adds@.len() && adds@[k] == m.1;
                        assert(moves@[k] == m);
                    },
                    Op::Remove => {
                        assert(removes@.to_set().contains(m.1));
                        let k = choose|k: int| 0 <= k < removes@.len() && removes@[k] == m.1;
                        assert(moves@[na + k] == m);
                    },
                }
            }
        }
        moves
    }

    /// Adds the moves of `picked` to the velocity.
    pub fn include_moves(&mut self, picked: &Vec<(Op, usize)>)
        ensures
            final(self).added() == old(self).added().union(added_by(picked@)),
            final(self).removed() == old(self).removed().union(removed_by(picked@)),
    {
        let mut p: usize = 0;
        while p < picked.len()
            invariant
                p <= picked.len(),
                self.added() == old(self).added().union(added_by(picked@.take(p as int))),
                self.removed() == old(self).removed().union(removed_by(picked@.take(p as int))),
            decreases picked.len() - p,
        {
            let (op, aisle) = picked[p];
            match op {
                Op::Add => {
                    self.adds.insert(aisle);
                },
                Op::Remove => {
                    self.removes.insert(aisle);
                },
            }
            assert(picked@.take(p + 1) =~= picked@.take(p as int).push((op, aisle)));
            assert forall|m: (Op, usize)| picked@.take(p + 1).contains(m) <==> (picked@.take(
                p as int,
            ).contains(m) || m == (op, aisle)) by {
                lemma_push_contains(picked@.take(p as int), (op, aisle), m);
            }
            assert(self.added() =~= old(self).added().union(added_by(picked@.take(p + 1))));
            assert(self.removed() =~= old(self).removed().union(removed_by(picked@.take(p + 1))));
            p = p + 1;
        }
        assert(picked@.take(p as int) =~= picked@);
    }

    /// Adds `aisle` to the aisles that the velocity adds.
    pub fn insert_addition(&mut self, aisle: usize)
        ensures
            final(self).added() == old(self).added().insert(aisle),
            final(self).removed() == old(self).removed(),
    {
        self.adds.insert(aisle);
    }

    /// Adds `aisle` to the aisles that the velocity removes.
    pub fn insert_removal(&mut self, aisle: usize)
        ensures
            final(self).added() == old(self).added(),
            final(self).removed() == old(self).removed().insert(aisle),
    {
        self.removes.insert(aisle);
    }
}

/// Computes the velocity needed to transform `current` into `target`.
///
/// Elements only in `target` become additions (`Op::Add`);
/// elements only in `current` become removals (`Op::Remove`).
pub fn difference_in_positions(target: &HashSet<usize>, current: &HashSet<usize>) -> (v: Velocity)
    ensures
        v.added() == target@.difference(current@),
        v.removed() == current@.difference(target@),
{
    let mut v = Velocity::new();
    let targets = set_elements(target);
    let mut p: usize = 0;
    while p < targets.len()
        invariant
            p <= targets.len(),
            targets@.to_set() == target@,
            v.added() == targets@.take(p as int).to_set().difference(current@),
            v.removed() == Set::<usize>::empty(),
        decreases targets.len() - p,
    {
        let t = targets[p];
        let ghost before = v.added();
        if !current.contains(&t) {
            v.insert_addition(t);
            assert(!current@.contains(t));
            assert(v.added() == before.insert(t));
        } else {
            assert(current@.contains(t));
        }
        assert(targets@.take(p + 1) =~= targets@.take(p as int).push(t));
        assert forall|y: usize| targets@.take(p + 1).contains(y) <==> (targets@.take(
            p as int,
        ).contains(y) || y == t) by {
            lemma_push_contains(targets@.take(p as int), t, y);
        }
        assert forall|y: usize| v.added().contains(y) <==> targets@.take(p + 1).to_set().difference(
            current@,
        ).contains(y) by {
            assert(targets@.take(p + 1).contains(y) <==> (targets@.take(p as int).contains(y) || y
                == t));
        }
        assert(v.added() =~= targets@.take(p + 1).to_set().difference(current@));
        p = p + 1;
    }
    assert(targets@.take(p as int) =~= targets@);
    let currents = set_elements(current);
    let mut q: usize = 0;
    while q < currents.len()
        invariant
            q <= currents.len(),
            currents@.to_set() == current@,
            v.added() == target@.difference(current@),
            v.removed() == currents@.take(q as int).to_set().difference(target@),
        decreases currents.len() - q,
    {
        let c = currents[q];
        let ghost before = v.removed();
        if !target.contains(&c) {
            v.insert_removal(c);
            assert(v.removed() == before.insert(c));
        } else {
            assert(target@.contains(c));
        }
        assert(currents@.take(q + 1) =~= currents@.take(q as int).push(c));
        assert forall|y: usize| currents@.take(q + 1).contains(y) <==> (currents@.take(
            q as int,
        ).contains(y) || y == c) by {
            lemma_push_contains(currents@.take(q as int), c, y);
        }
        assert forall|y: usize| v.removed().contains(y) <==> currents@.take(q + 1).to_set().difference(
            target@,
        ).contains(y) by {
            assert(currents@.take(q + 1).contains(y) <==> (currents@.take(q as int).contains(y) || y
                == c));
        }
        assert(v.removed() =~= currents@.take(q + 1).to_set().difference(target@));
        q = q + 1;
    }
    assert(currents@.take(q as int) =~= currents@);
    v
}


/// `picked` is a sample of `count` moves of `velocity`, or of all of them
/// where it has fewer, none twice.
pub open spec fn sample_of_moves(picked: Seq<(Op, usize)>, velocity: &Velocity, count: usize) -> bool {
    let total = velocity.added().len() + velocity.removed().len();
    &&& picked.len() == if count < total {
        count as nat
    } else {
        total
    }
    &&& picked.no_duplicates()
    &&& forall|m: (Op, usize)| picked.contains(m) ==> velocity.has_move(m)
}

/// Multiplies a velocity by a scalar value: adds `count` random moves of
/// `velocity` (all of them where it has fewer) to `result_velocity`. The
/// moves are drawn from the sorted list of moves, as `moves` gives it.
///
/// `count` is `floor(scalar * |velocity|)` for the scalar of the method.
pub fn scalar_multiplication(
    rng: &mut StdRng,
    count: usize,
    velocity: &Velocity,
    result_velocity: &mut Velocity,
)
    ensures
        exists|picked: Seq<(Op, usize)>|
            #[trigger] sample_of_moves(picked, velocity, count)
                && final(result_velocity).added() == old(result_velocity).added().union(added_by(picked))
                && final(result_velocity).removed() == old(result_velocity).removed().union(removed_by(picked)),
{
    let moves = velocity.moves();
    let picked = sample_from(rng, &moves, count);
    proof {
        lemma_sample_elements(picked@, moves@);
        assert(moves@.no_duplicates()) by {
            assert forall|p: int, q: int| 0 <= p < moves@.len() && 0 <= q < moves@.len() && p
                != q implies moves@[p] != moves@[q] by {
                if p < q {
                    assert(move_before(moves@[p], moves@[q]));
                } else {
                    assert(move_before(moves@[q], moves@[p]));
                }
            }
        }
    }
    result_velocity.include_moves(&picked);
    assert(sample_of_moves(picked@, velocity, count));
}

/// Randomly selects `n_to_remove` aisles of `consensus` (all of them where
/// it has fewer) and adds their removals to `current`.
pub fn removal_of_elements(
    rng: &mut StdRng,
    consensus: &Vec<usize>,
    n_to_remove: usize,
    current: &mut Velocity,
)
    requires
        ascending(consensus@),
    ensures
        final(current).added() == old(current).added(),
        exists|picked: Seq<usize>|
            #[trigger] picked.len() == (if n_to_remove < consensus.len() {
                n_to_remove as int
            } else {
                consensus.len() as int
            }) && picked.no_duplicates() && picked.to_set().subset_of(consensus@.to_set())
                && final(current).removed() == old(current).removed().union(picked.to_set()),
{
    let picked = sample_from(rng, consensus, n_to_remove);
    proof {
        lemma_sample_elements(picked@, consensus@);
    }
    let mut p: usize = 0;
    while p < picked.len()
        invariant
            p <= picked.len(),
            current.added() == old(current).added(),
            current.removed() == old(current).removed().union(picked@.take(p as int).to_set()),
        decreases picked.len() - p,
    {
        let aisle = picked[p];
        current.insert_removal(aisle);
        assert forall|y: usize| picked@.take(p + 1).contains(y) <==> (picked@.take(
            p as int,
        ).contains(y) || y == aisle) by {
            assert(picked@.take(p + 1) =~= picked@.take(p as int).push(aisle));
            lemma_push_contains(picked@.take(p as int), aisle, y);
        }
        assert forall|y: usize| current.removed().contains(y) <==> old(current).removed().union(
            picked@.take(p + 1).to_set(),
        ).contains(y) by {
            assert(picked@.take(p + 1).contains(y) <==> (picked@.take(p as int).contains(y) || y
                == aisle));
        }
        assert(current.removed() =~= old(current).removed().union(picked@.take(p + 1).to_set()));
        p = p + 1;
    }
    assert(picked@.take(p as int) =~= picked@);
    assert(consensus@.no_duplicates());
    assert(picked@.to_set().subset_of(consensus@.to_set()));
}

} // verus!
