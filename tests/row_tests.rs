use wunderpahkina::row::Row;

#[test]
fn calc_neighbor_sum_01() {
    let row = Row::from_string("#####");
    assert_eq!(row.calc_neighbor_sum(2), 4);
}

#[test]
fn calc_neighbor_sum_02() {
    let row = Row::from_string(".####");
    assert_eq!(row.calc_neighbor_sum(2), 3);
}

#[test]
fn calc_neighbor_sum_03() {
    let row = Row::from_string("#.###");
    assert_eq!(row.calc_neighbor_sum(2), 3);
}

#[test]
fn calc_neighbor_sum_04() {
    let row = Row::from_string("##.##");
    assert_eq!(row.calc_neighbor_sum(2), 4);
}

#[test]
fn calc_neighbor_sum_05() {
    let row = Row::from_string("###.#");
    assert_eq!(row.calc_neighbor_sum(2), 3);
}

#[test]
fn calc_neighbor_sum_06() {
    let row = Row::from_string("####.");
    assert_eq!(row.calc_neighbor_sum(2), 3);
}

#[test]
fn calc_neighbor_sum_07() {
    let row = Row::from_string("..###");
    assert_eq!(row.calc_neighbor_sum(2), 2);
}

#[test]
fn calc_neighbor_sum_08() {
    let row = Row::from_string(".#.##");
    assert_eq!(row.calc_neighbor_sum(2), 3);
}

#[test]
fn calc_neighbor_sum_09() {
    let row = Row::from_string(".##.#");
    assert_eq!(row.calc_neighbor_sum(2), 2);
}

#[test]
fn calc_neighbor_sum_10() {
    let row = Row::from_string(".###.");
    assert_eq!(row.calc_neighbor_sum(2), 2);
}

#[test]
fn calc_neighbor_sum_11() {
    let row = Row::from_string("...##");
    assert_eq!(row.calc_neighbor_sum(2), 2);
}

#[test]
fn calc_neighbor_sum_12() {
    let row = Row::from_string("..#.#");
    assert_eq!(row.calc_neighbor_sum(2), 1);
}

#[test]
fn calc_neighbor_sum_13() {
    let row = Row::from_string("..##.");
    assert_eq!(row.calc_neighbor_sum(2), 1);
}

#[test]
fn calc_neighbor_sum_14() {
    let row = Row::from_string("....#");
    assert_eq!(row.calc_neighbor_sum(2), 1);
}

#[test]
fn calc_neighbor_sum_15() {
    let row = Row::from_string("...#.");
    assert_eq!(row.calc_neighbor_sum(2), 1);
}

#[test]
fn calc_neighbor_sum_16() {
    let row = Row::from_string(".....");
    assert_eq!(row.calc_neighbor_sum(2), 0);
}

#[test]
fn calc_neighbor_sum_17() {
    let row = Row::from_string("#####");
    assert_eq!(row.calc_neighbor_sum(1), 3);
}

#[test]
fn calc_neighbor_sum_18() {
    let row = Row::from_string("#####");
    assert_eq!(row.calc_neighbor_sum(0), 2);
}

#[test]
fn calc_neighbor_sum_19() {
    let row = Row::from_string("#####");
    assert_eq!(row.calc_neighbor_sum(-1), 2);
}

#[test]
fn calc_neighbor_sum_20() {
    let row = Row::from_string("#####");
    assert_eq!(row.calc_neighbor_sum(-2), 1);
}

#[test]
fn calc_neighbor_sum_21() {
    let row = Row::from_string("#####");
    assert_eq!(row.calc_neighbor_sum(-3), 0);
}

#[test]
fn calc_neighbor_sum_22() {
    let row = Row::from_string("#####");
    assert_eq!(row.calc_neighbor_sum(3), 3);
}

#[test]
fn calc_neighbor_sum_23() {
    let row = Row::from_string("#####");
    assert_eq!(row.calc_neighbor_sum(4), 2);
}

#[test]
fn calc_neighbor_sum_24() {
    let row = Row::from_string("#####");
    assert_eq!(row.calc_neighbor_sum(5), 2);
}

#[test]
fn calc_neighbor_sum_25() {
    let row = Row::from_string("#####");
    assert_eq!(row.calc_neighbor_sum(6), 1);
}

#[test]
fn calc_neighbor_sum_26() {
    let row = Row::from_string("#####");
    assert_eq!(row.calc_neighbor_sum(7), 0);
}

#[test]
fn eq_shift_test_01() {
    let row1 = Row::from_string("####.");
    let row2 = Row::from_string(".####");
    assert_eq!(row1.eq_shift(&row2, 1), true);
}

#[test]
fn eq_shift_test_02() {
    let row1 = Row::from_string("####.");
    let row2 = Row::from_string(".####");
    assert_eq!(row1.eq_shift(&row2, 0), false);
}

#[test]
fn eq_shift_test_03() {
    let row1 = Row::from_string("####.");
    let row2 = Row::from_string(".####");
    assert_eq!(row1.eq_shift(&row2, -1), false);
}

#[test]
fn eq_shift_test_04() {
    let row1 = Row::from_string("####");
    let row2 = Row::from_string("####");
    assert_eq!(row1.eq_shift(&row2, 0), true);
}

#[test]
fn eq_shift_test_05() {
    let row1 = Row::from_string("####");
    let row2 = Row::from_string("####");
    assert_eq!(row1.eq_shift(&row2, 1), false);
}

#[test]
fn eq_shift_test_06() {
    let row1 = Row::from_string("####");
    let row2 = Row::from_string("####");
    assert_eq!(row1.eq_shift(&row2, -1), false);
}

#[test]
fn eq_shift_test_07() {
    let row1 = Row::from_string("...####");
    let row2 = Row::from_string("####...");
    assert_eq!(row1.eq_shift(&row2, -3), true);
}

#[test]
fn eq_shift_test_08() {
    let row1 = Row::from_string("##.##..");
    let row2 = Row::from_string("..##.##");
    assert_eq!(row1.eq_shift(&row2, 2), true);
}
