use wunderpahkina::classify::MAX_DEPTH;
use wunderpahkina::pattern::{in_line_order, Pattern};
use wunderpahkina::row::Row;

fn filled(row: &Row, from: i32, to: i32) -> Vec<i32> {
    let mut v = Vec::new();
    for p in from..=to {
        if row.contains(p) {
            v.push(p);
        }
    }
    v
}

#[test]
fn from_string_marks_only_filled_cells() {
    let row = Row::from_string("..##.##");
    assert_eq!(filled(&row, -5, 12), vec![2, 3, 5, 6]);
    assert_eq!(row.len(), 4);
}

#[test]
fn from_string_ignores_other_characters() {
    let row = Row::from_string("x#é#-");
    assert_eq!(filled(&row, -2, 8), vec![1, 3]);
}

#[test]
fn from_string_of_empty_line_is_empty() {
    let row = Row::from_string("");
    assert!(row.is_empty());
    assert_eq!(row.len(), 0);
}

#[test]
fn insert_out_of_order_keeps_all_cells() {
    let mut row = Row::new();
    row.insert(5);
    row.insert(-3);
    row.insert(9);
    row.insert(0);
    row.insert(5);
    assert_eq!(row.len(), 4);
    assert_eq!(filled(&row, -10, 20), vec![-3, 0, 5, 9]);
}

#[test]
fn next_follows_birth_and_survival() {
    let row = Row::from_string(".#.##.");
    let next = row.next();
    let expected = Row::from_string("..##.#.");
    assert!(next.equals(&expected));
    assert_eq!(filled(&next, -5, 12), vec![2, 3, 5]);
}

#[test]
fn next_can_grow_one_cell_to_the_left() {
    // Position -1 has neighbours 0 and 1: it is born.
    let row = Row::from_string("##");
    let next = row.next();
    assert_eq!(filled(&next, -5, 5), vec![-1, 2]);
}

#[test]
fn next_of_empty_row_is_empty() {
    let row = Row::new();
    assert!(row.next().is_empty());
}

#[test]
fn lone_cell_vanishes_in_one_step() {
    let row = Row::from_string("..#");
    assert!(row.next().is_empty());
    let pair = Row::from_string("#.#");
    assert_eq!(filled(&pair.next(), -5, 8), vec![1]);
}

#[test]
fn neighbor_sum_counts_distance_two() {
    let row = Row::from_string("#...#");
    assert_eq!(row.calc_neighbor_sum(2), 2);
    assert_eq!(row.calc_neighbor_sum(0), 0);
}

#[test]
fn rules_distinguish_birth_and_survival() {
    // neighbour counts: position 2 of "##.##" has 4, of "#.###" has 3
    let four = Row::from_string("##.##");
    assert!(!four.test_rule_1(2));
    assert!(four.test_rule_2(2));
    let three = Row::from_string("#.###");
    assert!(three.test_rule_1(2));
    assert!(!three.test_rule_2(2));
    let two = Row::from_string("..###");
    assert!(two.test_rule_1(2));
    assert!(two.test_rule_2(2));
}

#[test]
fn eq_shift_is_one_sided() {
    let small = Row::from_string("#");
    let big = Row::from_string("###");
    assert!(small.eq_shift(&big, 2));
    assert!(!big.eq_shift(&small, 0));
}

#[test]
fn eq_shift_of_empty_row_holds() {
    let empty = Row::new();
    let other = Row::from_string("#");
    assert!(empty.eq_shift(&other, 1_000_000_000_000));
}

#[test]
fn eq_shift_with_huge_offset_fails() {
    let row = Row::from_string("#");
    assert!(!row.eq_shift(&row, i64::MAX));
}

#[test]
fn gliding_needs_movement_and_equal_count() {
    let a = Row::from_string("##.##..");
    let b = Row::from_string("..##.##");
    assert!(a.is_gliding(&b));
    assert!(!a.is_gliding(&a));
    let c = Row::from_string("..##.#");
    assert!(!a.is_gliding(&c));
    let empty = Row::new();
    assert!(!empty.is_gliding(&empty));
}

#[test]
fn equality_compares_filled_sets() {
    let a = Row::from_string("#.#");
    let b = Row::from_string("#.#....");
    let c = Row::from_string(".#.#");
    assert!(a.equals(&b));
    assert!(!a.equals(&c));
}

#[test]
fn empty_line_is_vanishing() {
    assert_eq!(Row::detect_pattern("", MAX_DEPTH), Pattern::Vanishing);
    assert_eq!(Row::detect_pattern("....", MAX_DEPTH), Pattern::Vanishing);
}

#[test]
fn single_cell_is_vanishing() {
    assert_eq!(Row::detect_pattern("#", MAX_DEPTH), Pattern::Vanishing);
}

#[test]
fn small_depth_gives_other() {
    // Gliding is found only once the shifted copy appears.
    assert_eq!(Row::detect_pattern("##.######", 0), Pattern::Other);
    assert_eq!(Row::detect_pattern("##.######", 3), Pattern::Other);
    assert_eq!(Row::detect_pattern("##.######", 4), Pattern::Gliding);
}

#[test]
fn blinking_needs_two_steps_back() {
    // "#..#" is back to itself after two steps.
    assert_eq!(Row::detect_pattern("#..#", 2), Pattern::Other);
    assert_eq!(Row::detect_pattern("#..#", 3), Pattern::Blinking);
}

#[test]
fn pattern_names() {
    assert_eq!(Pattern::Blinking.name(), "blinking");
    assert_eq!(Pattern::Gliding.name(), "gliding");
    assert_eq!(Pattern::Vanishing.name(), "vanishing");
    assert_eq!(Pattern::Other.name(), "other");
}

#[test]
fn results_are_put_back_in_line_order() {
    let results = vec![
        (2, Pattern::Gliding),
        (0, Pattern::Vanishing),
        (3, Pattern::Other),
        (1, Pattern::Blinking),
    ];
    assert_eq!(
        in_line_order(&results),
        vec![Pattern::Vanishing, Pattern::Blinking, Pattern::Gliding, Pattern::Other]
    );
    assert_eq!(in_line_order(&Vec::new()), Vec::<Pattern>::new());
}
