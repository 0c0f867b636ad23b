use pso_for_order_batching_rust::methods::sbpso::position::{consensus_aisles, external_aisles, Position};
use pso_for_order_batching_rust::methods::sbpso::sampling::set_elements;
use pso_for_order_batching_rust::methods::sbpso::tournament::{
    k_tournament_selection, tournament_winner, valid_candidates,
};
use pso_for_order_batching_rust::methods::sbpso::velocity::{
    difference_in_positions, removal_of_elements, scalar_multiplication, Op, Velocity,
};
use pso_for_order_batching_rust::Problem;
use rand::rngs::StdRng;
use rand::SeedableRng;
use std::collections::HashSet;

const INSTANCE: &str = "3 4 3\n2 0 3 1 1\n1 2 5\n2 3 1 0 1\n2 0 4 2 5\n2 1 1 3 2\n1 0 1\n1 10\n";

fn set(v: &[usize]) -> HashSet<usize> {
    v.iter().copied().collect()
}

fn problem() -> Problem {
    Problem::new(INSTANCE).ok().unwrap()
}

#[test]
fn set_elements_are_sorted() {
    let s: HashSet<usize> = (0..200).map(|x| (x * 7919) % 1009).collect();
    let elems = set_elements(&s);
    assert_eq!(elems.len(), s.len());
    assert!(elems.windows(2).all(|w| w[0] < w[1]));
    assert_eq!(elems.iter().copied().collect::<HashSet<usize>>(), s);
}

#[test]
fn difference_gives_additions_and_removals() {
    let v = difference_in_positions(&set(&[1, 2, 5]), &set(&[2, 3]));
    assert_eq!(v.added_aisles(), vec![1, 5]);
    assert_eq!(v.removed_aisles(), vec![3]);
    assert_eq!(v.len(), 3);
    assert!(v.contains(Op::Add, 5));
    assert!(!v.contains(Op::Remove, 5));
    assert_eq!(v.moves(), vec![(Op::Add, 1), (Op::Add, 5), (Op::Remove, 3)]);
}

#[test]
fn applying_the_difference_reaches_the_target() {
    let p = problem();
    let mut pos = Position::from_choices(&p, &vec![true, false, true]);
    let target = set(&[1, 2]);
    let v = difference_in_positions(&target, pos.x());
    assert!(pos.can_apply(&v, &p));
    pos.apply_velocity(&v, &p);
    assert_eq!(pos.x(), &target);
    let fresh = Position::from_choices(&p, &vec![false, true, true]);
    assert_eq!(pos.aisles_items(), fresh.aisles_items());
}

#[test]
fn positions_count_the_items_of_their_aisles() {
    let p = problem();
    let pos = Position::from_choices(&p, &vec![true, true, false]);
    assert_eq!(pos.x(), &set(&[0, 1]));
    assert_eq!(pos.aisles_items(), &vec![4, 1, 5, 2]);
    let empty = Position::empty(&p);
    assert!(empty.x().is_empty());
    assert_eq!(empty.aisles_items(), &vec![0, 0, 0, 0]);
}

#[test]
fn insert_then_remove_restores_the_position() {
    let p = problem();
    let mut pos = Position::from_choices(&p, &vec![true, false, false]);
    let before = pos.aisles_items().clone();
    pos.insert_aisle(2, &p);
    assert_eq!(pos.aisles_items(), &vec![5, 0, 5, 0]);
    pos.insert_aisle(2, &p);
    assert_eq!(pos.aisles_items(), &vec![5, 0, 5, 0]);
    pos.remove_aisle(2, &p);
    assert_eq!(pos.aisles_items(), &before);
    assert_eq!(pos.x(), &set(&[0]));
    pos.remove_aisle(1, &p);
    assert_eq!(pos.aisles_items(), &before);
}

#[test]
fn external_and_consensus_aisles() {
    let p = problem();
    let pos = Position::from_choices(&p, &vec![true, true, false]);
    assert_eq!(external_aisles(&p, pos.x(), &set(&[]), &set(&[])), vec![2]);
    assert_eq!(external_aisles(&p, pos.x(), &set(&[2]), &set(&[])), Vec::<usize>::new());
    assert_eq!(consensus_aisles(&p, &pos, &set(&[0, 1]), &set(&[1, 2])), vec![1]);
    assert!(valid_candidates(&p, &vec![2]));
    assert!(valid_candidates(&p, &vec![1, 2]));
    assert!(!valid_candidates(&p, &vec![3]));
    assert!(!valid_candidates(&p, &vec![2, 1]));
}

#[test]
fn tournament_picks_the_first_best_contestant() {
    let p = problem();
    let mut items = vec![0, 0, 0, 0];
    // Aisle 0 lets order 1 through (5 items); aisle 1 lets none; aisle 2 none.
    assert_eq!(tournament_winner(&p, &mut items, &vec![1, 0, 2]), Some(0));
    assert_eq!(items, vec![0, 0, 0, 0]);
    // All contestants score zero: the first wins.
    assert_eq!(tournament_winner(&p, &mut items, &vec![2, 1]), Some(2));
    assert_eq!(tournament_winner(&p, &mut items, &vec![]), None);
}

#[test]
fn tournament_uses_the_lower_bound() {
    let text = "3 4 3\n2 0 3 1 1\n1 2 5\n2 3 1 0 1\n2 0 4 2 5\n2 1 1 3 2\n1 0 1\n6 10\n";
    let p = Problem::new(text).ok().unwrap();
    let mut items = vec![0, 1, 0, 2];
    // With aisle 0 orders 1 and 0 give 9 items; with aisle 2 only 2 items, below lb = 6.
    assert_eq!(tournament_winner(&p, &mut items, &vec![2, 0]), Some(0));
    assert_eq!(items, vec![0, 1, 0, 2]);
}

#[test]
fn scalar_multiplication_draws_the_asked_number_of_moves() {
    let v = difference_in_positions(&set(&[1, 2, 5]), &set(&[2, 3]));
    for seed in 0..20 {
        let mut rng = StdRng::seed_from_u64(seed);
        let mut result = Velocity::new();
        scalar_multiplication(&mut rng, 1, &v, &mut result);
        assert_eq!(result.len(), 1);
        let moves = result.moves();
        assert!(v.contains(moves[0].0, moves[0].1));
        let mut all = Velocity::new();
        scalar_multiplication(&mut rng, 10, &v, &mut all);
        assert_eq!(all.moves(), v.moves());
    }
}

#[test]
fn removal_of_elements_adds_removals_from_the_consensus() {
    let mut rng = StdRng::seed_from_u64(3);
    let mut v = Velocity::new();
    v.insert_addition(9);
    removal_of_elements(&mut rng, &vec![1, 4, 6], 2, &mut v);
    let removed = v.removed_aisles();
    assert_eq!(removed.len(), 2);
    assert!(removed.iter().all(|a| [1, 4, 6].contains(a)));
    assert_eq!(v.added_aisles(), vec![9]);
}

#[test]
fn k_tournament_selection_adds_candidates_only() {
    let p = problem();
    assert!(p.orders_in_range());
    let pos = Position::from_choices(&p, &vec![false, true, false]);
    let candidates = external_aisles(&p, pos.x(), &set(&[]), &set(&[]));
    assert_eq!(candidates, vec![0, 2]);
    assert!(valid_candidates(&p, &candidates));
    for seed in 0..10 {
        let mut rng = StdRng::seed_from_u64(seed);
        let mut v = Velocity::new();
        v.insert_removal(1);
        assert!(k_tournament_selection(&mut rng, &p, &pos, &mut v, &candidates, 1, 7));
        // With all candidates in the tournament, aisle 0 wins (order 1 fits).
        assert_eq!(v.added_aisles(), vec![0]);
        assert_eq!(v.removed_aisles(), vec![1]);
        let mut w = Velocity::new();
        assert!(k_tournament_selection(&mut rng, &p, &pos, &mut w, &candidates, 5, 1));
        assert_eq!(w.added_aisles(), vec![0, 2]);
    }
}

#[test]
fn applying_additions_and_removals_commutes_in_the_swarm() {
    let p = problem();
    let start = Position::from_choices(&p, &vec![true, true, false]);
    // Additions outside the position, removals inside it.
    let mut v = Velocity::new();
    v.insert_addition(2);
    v.insert_removal(0);
    let mut moved = Position::from_choices(&p, &vec![true, true, false]);
    assert!(moved.can_apply(&v, &p));
    moved.apply_velocity(&v, &p);
    let mut by_hand = Position::from_choices(&p, &vec![true, true, false]);
    by_hand.remove_aisle(0, &p);
    by_hand.insert_aisle(2, &p);
    assert_eq!(moved.x(), by_hand.x());
    assert_eq!(moved.aisles_items(), by_hand.aisles_items());
    assert_eq!(moved.x(), &set(&[1, 2]));
    assert_ne!(moved.aisles_items(), start.aisles_items());
}

#[test]
fn positions_refuse_aisles_beyond_the_supply_limit() {
    // Two aisles offer more than u32::MAX of item 0 together.
    let p = Problem::new("0 1 2\n1 0 4294967295\n1 0 1\n0 1\n").ok().unwrap();
    let mut pos = Position::from_choices(&p, &vec![true, false]);
    assert_eq!(pos.aisles_items(), &vec![4294967295]);
    let mut v = Velocity::new();
    v.insert_addition(1);
    assert!(!pos.can_apply(&v, &p));
    // Removing aisle 0 first leaves room for aisle 1.
    v.insert_removal(0);
    assert!(pos.can_apply(&v, &p));
    pos.apply_velocity(&v, &p);
    assert_eq!(pos.x(), &set(&[1]));
    assert_eq!(pos.aisles_items(), &vec![1]);
    // An aisle beyond the problem has no room.
    let mut w = Velocity::new();
    w.insert_addition(5);
    assert!(!pos.can_apply(&w, &p));
    // Removing an aisle that the position lacks changes nothing.
    pos.remove_aisle(7, &p);
    assert_eq!(pos.x(), &set(&[1]));
}

#[test]
fn tournaments_need_room_only_for_what_they_add() {
    // Each of the first two aisles offers 2^31 of item 0; together they pass u32::MAX.
    let p = Problem::new("0 1 3\n1 0 2147483648\n1 0 2147483648\n1 0 1\n0 1\n").ok().unwrap();
    let pos = Position::from_choices(&p, &vec![false, false, false]);
    let candidates = vec![0, 1];
    for seed in 0..5 {
        let mut rng = StdRng::seed_from_u64(seed);
        let mut v = Velocity::new();
        assert!(k_tournament_selection(&mut rng, &p, &pos, &mut v, &candidates, 1, 2));
        assert_eq!(v.added_aisles().len(), 1);
        // A second round would add the other aisle on top of the first.
        let mut w = Velocity::new();
        assert!(!k_tournament_selection(&mut rng, &p, &pos, &mut w, &candidates, 2, 1));
        assert_eq!(w.added_aisles().len(), 1);
    }
    // Aisle 2 fits with either of the others.
    let mut rng = StdRng::seed_from_u64(7);
    let mut v = Velocity::new();
    assert!(k_tournament_selection(&mut rng, &p, &pos, &mut v, &vec![0, 2], 2, 1));
    assert_eq!(v.added_aisles(), vec![0, 2]);
}

#[test]
fn no_tournament_leaves_the_velocity_alone() {
    let p = problem();
    let pos = Position::from_choices(&p, &vec![true, false, false]);
    let mut rng = StdRng::seed_from_u64(1);
    let mut v = Velocity::new();
    v.insert_removal(0);
    // Candidates that no tournament would accept are ignored when none is held.
    assert!(k_tournament_selection(&mut rng, &p, &pos, &mut v, &vec![9, 0], 3, 0));
    assert!(k_tournament_selection(&mut rng, &p, &pos, &mut v, &vec![9, 0], 0, 3));
    assert!(k_tournament_selection(&mut rng, &p, &pos, &mut v, &vec![], 3, 3));
    assert!(v.added_aisles().is_empty());
    assert_eq!(v.removed_aisles(), vec![0]);
    // An aisle of the position may run: its items are counted once more.
    let mut u = Velocity::new();
    assert!(k_tournament_selection(&mut rng, &p, &pos, &mut u, &vec![0], 1, 1));
    assert_eq!(u.added_aisles(), vec![0]);
}
