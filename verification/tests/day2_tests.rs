use lib::day2::{check_pair, p2in, part1, part2};

const EXAMPLE: &str = "7 6 4 2 1\n1 2 7 8 9\n9 7 6 2 1\n1 3 2 4 5\n8 6 4 4 1\n1 3 6 7 9\n";

#[test]
fn example_part1_counts_two_safe_reports() {
    assert_eq!(part1(EXAMPLE), 2);
}

#[test]
fn example_part2_counts_four_tolerable_reports() {
    assert_eq!(part2(EXAMPLE), 4);
}

#[test]
fn part2_never_below_part1() {
    for text in [EXAMPLE, "1 2 3\n3 2 9\n", "5 5 5\n", "1 5\n9 1 2 3\n", ""] {
        assert!(part2(text) >= part1(text));
    }
}

#[test]
fn empty_input_has_no_reports() {
    assert_eq!(part1(""), 0);
    assert_eq!(part2(""), 0);
}

#[test]
fn single_level_report_is_safe() {
    assert_eq!(part1("5\n"), 1);
    assert_eq!(part2("5\n"), 1);
}

#[test]
fn unterminated_single_level_is_not_counted() {
    assert_eq!(part1("5"), 0);
    assert_eq!(part2("5"), 0);
}

#[test]
fn unterminated_last_line_skips_its_last_level() {
    assert_eq!(part1("1 2 3 4 100"), 1);
    assert_eq!(part1("1 2 3 4 100\n"), 0);
    assert_eq!(part1("7 6 4 2 1\n1 3 6 7 9"), 2);
}

#[test]
fn multi_digit_levels_are_read() {
    assert_eq!(part1("10 12 15\n"), 1);
    assert_eq!(part1("10 14 15\n"), 0);
}

#[test]
fn double_separator_makes_a_zero_level() {
    // "3  2" has the levels 3, 0 and 2.
    assert_eq!(part1("3  2\n"), 0);
    assert_eq!(part1("3 2\n"), 1);
}

#[test]
fn check_pair_accepts_steps_of_one_to_three_in_direction() {
    assert!(check_pair(7, 6, 1));
    assert!(check_pair(4, 7, -1));
    assert!(!check_pair(6, 7, 1));
    assert!(!check_pair(5, 1, 1));
    assert!(!check_pair(3, 3, 0));
    assert!(!check_pair(i32::MAX, i32::MIN, 1));
}

fn arr(levels: &[i32]) -> [i32; 16] {
    let mut a = [0i32; 16];
    a[..levels.len()].copy_from_slice(levels);
    a
}

#[test]
fn p2in_tolerates_one_bad_level() {
    assert!(p2in(&5, &arr(&[1, 3, 2, 4, 5])));
    assert!(p2in(&5, &arr(&[8, 6, 4, 4, 1])));
    assert!(!p2in(&5, &arr(&[1, 2, 7, 8, 9])));
    assert!(!p2in(&5, &arr(&[9, 7, 6, 2, 1])));
}

#[test]
fn p2in_accepts_a_bad_step_at_either_end() {
    assert!(p2in(&4, &arr(&[1, 9, 10, 11])));
    assert!(p2in(&4, &arr(&[1, 2, 3, 30])));
}

#[test]
fn p2in_adjacent_bad_steps_need_a_bridge() {
    // steps 1 and 2 are bad; skipping level 2 bridges 2 -> 3
    assert!(p2in(&5, &arr(&[1, 2, 9, 3, 4])));
    // steps 1 and 3 are bad and not adjacent
    assert!(!p2in(&6, &arr(&[1, 2, 9, 10, 20, 21])));
}

#[test]
fn p2in_three_bad_steps_fail() {
    assert!(!p2in(&5, &arr(&[1, 1, 1, 1, 1])));
}

#[test]
fn p2in_short_reports_pass() {
    assert!(p2in(&1, &arr(&[4])));
    assert!(p2in(&2, &arr(&[1, 30])));
}

#[test]
fn counts_add_over_a_line_break() {
    let s = "7 6 4 2 1\n1 2 7 8 9\n";
    let t = "1 3 2 4 5\n8 6 4 4 1";
    let st = format!("{}{}", s, t);
    assert_eq!(part1(&st), part1(s) + part1(t));
    assert_eq!(part2(&st), part2(s) + part2(t));
}

#[test]
fn tolerant_test_reads_both_ways() {
    for levels in [[1, 3, 2, 4, 5], [9, 7, 6, 2, 1], [1, 2, 9, 3, 4], [8, 6, 4, 4, 1]] {
        let mut rev = levels;
        rev.reverse();
        assert_eq!(p2in(&5, &arr(&levels)), p2in(&5, &arr(&rev)));
    }
}

#[test]
fn tolerant_test_is_removing_one_level() {
    // dropping level 2 (value 7) makes 1 2 8 9 ... not safe; no single
    // removal helps
    assert!(!p2in(&5, &arr(&[1, 2, 7, 8, 9])));
    // dropping level 1 (value 3) leaves 1 2 4 5
    assert!(p2in(&5, &arr(&[1, 3, 2, 4, 5])));
}

#[test]
fn last_line_may_end_in_a_sixteenth_separator() {
    let line = "1 2 3 4 5 6 7 8 9 10 11 12 13 14 15 16 ";
    assert_eq!(part2(line), 1);
    assert_eq!(part1(line), 1);
}
