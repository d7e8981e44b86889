use lib::day3::{handle_d, handle_m, part1, part2};

const EXAMPLE1: &str = "xmul(2,4)%&mul[3,7]!@^do_not_mul(5,5)+mul(32,64]then(mul(11,8)mul(8,5))";
const EXAMPLE2: &str = "xmul(2,4)&mul[3,7]!^don't()_mul(5,5)+mul(32,64](mul(11,8)undo()?mul(8,5))";

#[test]
fn example_part1_sums_all_instructions() {
    assert_eq!(part1(EXAMPLE1), 161);
}

#[test]
fn example_part2_sums_enabled_instructions() {
    assert_eq!(part2(EXAMPLE2), 48);
}

#[test]
fn part2_never_above_part1() {
    assert!(part2(EXAMPLE2) <= part1(EXAMPLE2));
    assert_eq!(part1(EXAMPLE2), 161);
}

#[test]
fn without_dont_both_parts_agree() {
    assert_eq!(part2(EXAMPLE1), part1(EXAMPLE1));
}

#[test]
fn handle_m_reads_one_to_three_digits() {
    assert_eq!(handle_m(b"mul(123,4)", 0), 492);
    assert_eq!(handle_m(b"mul(999,999)", 0), 998001);
    assert_eq!(handle_m(b"xxmul(2,3)", 2), 6);
    assert_eq!(handle_m(b"mul(007,2)", 0), 14);
}

#[test]
fn handle_m_rejects_malformed_instructions() {
    assert_eq!(handle_m(b"mul(1234,5)", 0), 0);
    assert_eq!(handle_m(b"mul(1,2", 0), 0);
    assert_eq!(handle_m(b"mul(,2)", 0), 0);
    assert_eq!(handle_m(b"mul ( 2,3)", 0), 0);
    assert_eq!(handle_m(b"mul(", 0), 0);
    assert_eq!(handle_m(b"xmul(2,3)", 0), 0);
}

#[test]
fn handle_d_reads_switches() {
    assert_eq!(handle_d(b"do()x", 0), Some(true));
    assert_eq!(handle_d(b"don't()x", 0), Some(false));
    assert_eq!(handle_d(b"xdo()x", 1), Some(true));
    assert_eq!(handle_d(b"dont()x", 0), None);
}

#[test]
fn handle_d_needs_a_byte_after_the_switch() {
    assert_eq!(handle_d(b"do()", 0), None);
    assert_eq!(handle_d(b"don't()", 0), None);
    assert_eq!(handle_d(b"ab", 5), None);
}

#[test]
fn switch_off_then_on() {
    assert_eq!(part2("mul(2,3)don't()mul(4,5)do()mul(1,1)xxxx"), 7);
    assert_eq!(part1("mul(2,3)don't()mul(4,5)do()mul(1,1)xxxx"), 27);
}

#[test]
fn instruction_in_last_four_bytes_is_not_scanned() {
    assert_eq!(part1("abcd"), 0);
    assert_eq!(part1("mul(1,1)"), 1);
}

fn padded(text: &str) -> String {
    let mut t = String::from(text);
    while t.len() < 40 {
        t.push('.');
    }
    t
}

#[test]
fn part1_unsafe_at_offset_zero_is_part1() {
    let t = padded(EXAMPLE1);
    assert_eq!(lib::day3::part1_unsafe(&t, 0), part1(&t));
    assert_eq!(lib::day3::part1_unsafe(&t, 0), 161);
    let t2 = padded(EXAMPLE2);
    assert_eq!(lib::day3::part2_unsafe(&t2, 0), part2(&t2));
}

#[test]
fn part1_unsafe_reads_hits_without_the_offset() {
    // the `m` at position 1 is found in the first block, which starts at
    // offset 1, and read at position 0, where there is no instruction
    let t = padded("xmul(2,3)");
    assert_eq!(part1(&t), 6);
    assert_eq!(lib::day3::part1_unsafe(&t, 1), 0);
    // the first `misalignment` positions are read directly
    let t = padded("mul(2,3)");
    assert_eq!(lib::day3::part1_unsafe(&t, 1), 6);
    assert_eq!(lib::day3::part1_unsafe(&t, 0), 6);
}

#[test]
fn part2_unsafe_reads_hits_without_the_offset() {
    let t = padded("xmul(2,3)");
    assert_eq!(part2(&t), 6);
    assert_eq!(lib::day3::part2_unsafe(&t, 1), 0);
    let t = padded("mul(2,3)");
    assert_eq!(lib::day3::part2_unsafe(&t, 1), 6);
}

#[test]
fn tail_is_read_at_every_offset() {
    // 36 scanned positions: one block of 32, then the tail from 32
    let mut t = String::from(&".".repeat(32));
    t.push_str("mul(4,5)");
    assert_eq!(part1(&t), 20);
    assert_eq!(lib::day3::part1_unsafe(&t, 3), 20);
    assert_eq!(lib::day3::part2_unsafe(&t, 3), 20);
}

#[test]
fn appending_never_lowers_part1() {
    let s = "mul(2,3)xxxxx";
    for t in ["", "mul(1,1)", ")", "9,9)", "abcdmul(4,4)...."] {
        let st = format!("{}{}", s, t);
        assert!(part1(&st) >= part1(s));
    }
}

#[test]
fn handle_m_reads_at_most_twenty_bytes() {
    let b = b"..mul(123,456)and more bytes after the window";
    let i = 2;
    let end = (i + 20).min(b.len());
    assert_eq!(handle_m(b, i), handle_m(&b[i..end], 0));
    assert_eq!(handle_m(b, i), 56088);
}
