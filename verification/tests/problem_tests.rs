use pso_for_order_batching_rust::error::{Field, LineKind, ParseError};
use pso_for_order_batching_rust::number::NumberError;
use pso_for_order_batching_rust::parse::{next_line, parse_map_line, parse_next, parse_pairs};
use pso_for_order_batching_rust::entries::{entries_of, map_of};
use pso_for_order_batching_rust::Problem;
use std::collections::HashMap;

const INSTANCE: &str = "3 4 2\n2 0 3 1 1\n1 2 5\n2 3 1 0 1\n2 0 4 2 5\n2 1 1 3 2\n1 10\n";

fn chars(s: &str) -> Vec<char> {
    s.chars().collect()
}

fn sorted_map(map: &HashMap<usize, u32>) -> Vec<(usize, u32)> {
    let mut v: Vec<(usize, u32)> = map.iter().map(|(&k, &q)| (k, q)).collect();
    v.sort();
    v
}

fn instance_with_bounds(lb: u32, ub: u32) -> Problem {
    let text = format!("3 4 2\n2 0 3 1 1\n1 2 5\n2 3 1 0 1\n2 0 4 2 5\n2 1 1 3 2\n{lb} {ub}\n");
    Problem::new(&text).ok().unwrap()
}

#[test]
fn reads_an_instance() {
    let p = Problem::new(INSTANCE).ok().unwrap();
    assert_eq!((p.o(), p.i(), p.a()), (3, 4, 2));
    assert_eq!((p.lb(), p.ub()), (1, 10));
    assert_eq!(sorted_map(&p.orders()[0]), vec![(0, 3), (1, 1)]);
    assert_eq!(sorted_map(&p.orders()[1]), vec![(2, 5)]);
    assert_eq!(sorted_map(&p.orders()[2]), vec![(0, 1), (3, 1)]);
    assert_eq!(sorted_map(&p.aisles()[0]), vec![(0, 4), (2, 5)]);
    assert_eq!(sorted_map(&p.aisles()[1]), vec![(1, 1), (3, 2)]);
    assert_eq!(p.sorted_orders(), &vec![(1, 5), (0, 4), (2, 2)]);
}

#[test]
fn sorted_orders_are_by_non_increasing_total() {
    let text = "5 3 1\n1 0 1\n2 0 2 1 2\n1 2 7\n1 1 4\n1 0 4\n1 0 1\n0 0\n";
    let p = Problem::new(text).ok().unwrap();
    let sorted = p.sorted_orders();
    assert_eq!(sorted.len(), 5);
    for w in sorted.windows(2) {
        assert!(w[0].1 >= w[1].1);
    }
    assert_eq!(sorted[0], (2, 7));
    let mut idx: Vec<usize> = sorted.iter().map(|&(k, _)| k).collect();
    idx.sort();
    assert_eq!(idx, vec![0, 1, 2, 3, 4]);
}

#[test]
fn windows_line_endings_and_extra_numbers_are_accepted() {
    let text = "1 2 1 99\r\n1 0 2\r\n2 0 2 1 3\r\n0 5 extra\r\nignored line\r\n";
    let p = Problem::new(text).ok().unwrap();
    assert_eq!((p.o(), p.i(), p.a(), p.lb(), p.ub()), (1, 2, 1, 0, 5));
}

#[test]
fn a_repeated_item_keeps_its_last_quantity_but_counts_in_the_total() {
    let text = "1 2 1\n3 0 2 1 1 0 5\n1 0 9\n0 100\n";
    let p = Problem::new(text).ok().unwrap();
    assert_eq!(sorted_map(&p.orders()[0]), vec![(0, 5), (1, 1)]);
    assert_eq!(p.sorted_orders(), &vec![(0, 8)]);
}

#[test]
fn reports_each_kind_of_error() {
    let cases: Vec<(&str, ParseError)> = vec![
        ("", ParseError::MissingLine(LineKind::Header)),
        ("\n", ParseError::MissingField(Field::O)),
        ("1 2\n", ParseError::MissingField(Field::A)),
        ("1 x 3\n", ParseError::InvalidField(Field::I, NumberError::InvalidDigit)),
        ("4294967296 1 1\n", ParseError::InvalidField(Field::O, NumberError::Overflow)),
        ("2 1 1\n1 0 1\n", ParseError::MissingLine(LineKind::Order(1))),
        ("1 1 1\n1 0 1\n", ParseError::MissingLine(LineKind::Aisle(0))),
        ("1 1 1\n1 0 1\n1 0 1\n", ParseError::MissingLine(LineKind::Bounds)),
        ("1 1 1\n1 0 1\n1 0 1\n3\n", ParseError::MissingField(Field::Ub)),
        ("1 1 1\n1 0 1\n1 0 1\n3 -1\n", ParseError::InvalidField(Field::Ub, NumberError::InvalidDigit)),
        ("1 1 0\nk 0 1\n", ParseError::InvalidCount(NumberError::InvalidDigit)),
        ("1 1 0\n1 z 1\n", ParseError::InvalidPair(NumberError::InvalidDigit)),
        ("1 1 0\n1 0 4294967296\n", ParseError::InvalidPair(NumberError::Overflow)),
        ("1 1 0\n2 0 1\n", ParseError::PairCountMismatch { expected: 2, found: 1 }),
        ("0 1 1\n0 0 1\n", ParseError::PairCountMismatch { expected: 0, found: 1 }),
    ];
    for (text, expected) in cases {
        assert_eq!(Problem::new(text).err(), Some(expected), "{text:?}");
    }
}

#[test]
fn blank_lines_missing_quantities_and_overflowing_totals_are_errors() {
    let cases: Vec<(&str, ParseError)> = vec![
        ("1 1 0\n\n0 5\n", ParseError::BlankLine),
        ("0 1 1\n  \t\n0 0\n", ParseError::BlankLine),
        ("1 1 0\n1 0\n0 5\n", ParseError::MissingQuantity),
        ("1 2 0\n2 0 4294967295 1 1\n0 0\n", ParseError::TotalOverflow { order: 0 }),
        // The first error wins: the malformed count comes before the blank line.
        ("2 1 0\nx\n\n0 0\n", ParseError::InvalidCount(NumberError::InvalidDigit)),
    ];
    for (text, expected) in cases {
        assert_eq!(Problem::new(text).err(), Some(expected), "{text:?}");
    }
    // Aisle quantities are not summed.
    assert!(Problem::new("0 2 1\n2 0 4294967295 1 1\n0 0\n").is_ok());
}

#[test]
fn line_and_number_readers() {
    let lines = vec![chars("a"), chars("b")];
    let mut cursor = 0;
    assert_eq!(next_line(&lines, &mut cursor, LineKind::Header).ok().unwrap(), &chars("a"));
    assert_eq!(next_line(&lines, &mut cursor, LineKind::Bounds).ok().unwrap(), &chars("b"));
    assert_eq!(cursor, 2);
    assert_eq!(next_line(&lines, &mut cursor, LineKind::Bounds).err(), Some(ParseError::MissingLine(LineKind::Bounds)));
    assert_eq!(cursor, 2);

    let tokens = vec![chars("7"), chars("x")];
    let mut t = 0;
    assert_eq!(parse_next(&tokens, &mut t, Field::Lb), Ok(7));
    assert_eq!(parse_next(&tokens, &mut t, Field::Ub), Err(ParseError::InvalidField(Field::Ub, NumberError::InvalidDigit)));
    let mut t = 2;
    assert_eq!(parse_next(&tokens, &mut t, Field::O), Err(ParseError::MissingField(Field::O)));
}

#[test]
fn map_lines_and_pairs() {
    let (k, pairs) = parse_map_line(&chars(" 2  4 10 1 3 ")).ok().unwrap();
    assert_eq!(k, 2);
    assert_eq!(pairs, vec![(4, 10), (1, 3)]);
    assert_eq!(parse_map_line(&chars("0")).ok().unwrap(), (0, vec![]));
    assert_eq!(parse_pairs(&[chars("1"), chars("2"), chars("3"), chars("4")]).ok().unwrap(), vec![(1, 2), (3, 4)]);
    assert_eq!(parse_pairs(&[chars("1"), chars("+")]).err(), Some(ParseError::InvalidPair(NumberError::InvalidDigit)));
    assert!(parse_pairs(&[]).ok().unwrap().is_empty());
    assert_eq!(parse_pairs(&[chars("1"), chars("2"), chars("3")]).err(), Some(ParseError::MissingQuantity));
    assert_eq!(parse_map_line(&chars(" \t ")).err(), Some(ParseError::BlankLine));
}

#[test]
fn add_orders_takes_the_largest_orders_that_fit() {
    let p = Problem::new(INSTANCE).ok().unwrap();
    // Both aisles: order 1 (5 items), then order 0 (4 items); order 2 would pass ub = 10.
    assert_eq!(p.add_orders(&vec![4, 1, 5, 2]), 9);
    // Aisle 0 alone: order 1 only; orders 0 and 2 need items that are missing.
    assert_eq!(p.add_orders(&vec![4, 0, 5, 0]), 5);
    // No supply: nothing.
    assert_eq!(p.add_orders(&vec![0, 0, 0, 0]), 0);
}

#[test]
fn add_orders_respects_the_upper_bound() {
    let p = instance_with_bounds(1, 8);
    // Order 0 would bring 9 items; order 2 still fits and brings 7.
    assert_eq!(p.add_orders(&vec![4, 1, 5, 2]), 7);
    let p = instance_with_bounds(1, 4);
    assert_eq!(p.add_orders(&vec![4, 1, 5, 2]), 4);
    for ub in 0..12 {
        let p = instance_with_bounds(0, ub);
        assert!(p.add_orders(&vec![100, 100, 100, 100]) <= ub);
    }
}

#[test]
fn add_orders_shares_the_supply_between_orders() {
    // Two orders want item 0; the supply covers only one of them.
    let p = Problem::new("2 1 1\n1 0 3\n1 0 2\n1 0 4\n0 10\n").ok().unwrap();
    assert_eq!(p.add_orders(&vec![4]), 3);
    assert_eq!(p.add_orders(&vec![5]), 5);
}

#[test]
fn feasibility_follows_the_lower_bound_and_the_aisle_count() {
    let p = instance_with_bounds(5, 10);
    assert!(p.is_feasible(5, 1));
    assert!(!p.is_feasible(4, 1));
    assert!(!p.is_feasible(9, 0));
}

#[test]
fn swarm_readiness() {
    let p = Problem::new(INSTANCE).ok().unwrap();
    assert!(p.orders_in_range());
    assert!(p.room_for_choices(&vec![true; p.a()]));
    // Item 7 of the order is beyond the 4 items.
    let p = Problem::new("1 4 1\n1 7 1\n1 0 1\n0 1\n").ok().unwrap();
    assert!(!p.orders_in_range());
    assert!(p.room_for_choices(&vec![true]));
    // Item 7 of aisle 0 is beyond the 4 items; without that aisle there is room.
    let p = Problem::new("1 4 2\n1 0 1\n1 7 1\n1 0 1\n0 1\n").ok().unwrap();
    assert!(p.orders_in_range());
    assert!(!p.has_room_for(&vec![0, 1]));
    assert!(!p.has_room_for(&vec![0]));
    assert!(p.has_room_for(&vec![1, 1]));
    assert!(!p.has_room_for(&vec![2]));
    // Two aisles offer more than u32::MAX of item 0 together, each alone fits.
    let p = Problem::new("0 1 2\n1 0 4294967295\n1 0 1\n0 1\n").ok().unwrap();
    assert!(!p.room_for_choices(&vec![true, true]));
    assert!(p.room_for_choices(&vec![true, false]));
    assert!(p.room_for_choices(&vec![false, true]));
    assert!(p.has_room_for(&vec![0, 0]));
}

#[test]
fn item_maps_and_their_pairs() {
    // A later pair for an item replaces an earlier one.
    let m = map_of(&vec![(3, 1), (5, 2), (3, 7)]);
    assert_eq!(sorted_map(&m), vec![(3, 7), (5, 2)]);
    let mut pairs = entries_of(&m);
    assert_eq!(pairs.len(), 2);
    pairs.sort();
    assert_eq!(pairs, vec![(3, 7), (5, 2)]);
    assert!(entries_of(&map_of(&vec![])).is_empty());
}
