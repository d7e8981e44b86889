use lib::day5::{part1, read10, read_rules, rule_tables};

#[test]
fn part1_collects_rules_from_page_zero() {
    assert_eq!(part1("47|53\n00|05\n97|13\n00|31\n00|40\n\n75,47\n"), (1u32 << 5) | (1u32 << 31));
}

#[test]
fn part1_without_page_zero_is_zero() {
    assert_eq!(part1("47|53\n97|13\n\n75,47,61\n"), 0);
}

#[test]
fn part1_stops_at_first_line_that_is_not_a_rule() {
    assert_eq!(part1("00|01\n\n00|02\n"), 1 << 1);
    assert_eq!(part1("00|01\n00|02\n00|03\n00|04\n00|05\n00|06\n00|07\n"), 0b1111_1110);
}

#[test]
fn read_rules_reads_leading_rules() {
    assert_eq!(read_rules(b"47|53\n97|13\n\n1,2"), vec![(47, 53), (97, 13)]);
    assert_eq!(read_rules(b"47|53"), Vec::<(u8, u8)>::new());
    assert_eq!(read_rules(b""), Vec::<(u8, u8)>::new());
}

#[test]
fn rule_tables_set_bits() {
    let (gt, lt) = rule_tables(&vec![(47, 53), (47, 13), (97, 13)]);
    assert_eq!(gt.len(), 128);
    assert_eq!(gt[47], (1u128 << 53) | (1u128 << 13));
    assert_eq!(gt[97], 1u128 << 13);
    assert_eq!(gt[0], 0);
    assert_eq!(lt[13], 1u128 << 13);
    assert_eq!(lt[53], 1u128 << 53);
    assert_eq!(lt[47], 0);
}

#[test]
fn read10_reads_comma_terminated_numbers() {
    let mut p = 0usize;
    let mut out = [0u8; 10];
    let n = read10(b"12,34,56\n99", &mut p, &mut out);
    assert_eq!(n, 2);
    assert_eq!(p, 6);
    assert_eq!(&out[..3], &[12, 34, 0]);
}

#[test]
fn read10_stops_at_ten() {
    let text = b"10,11,12,13,14,15,16,17,18,19,20,21,";
    let mut p = 0usize;
    let mut out = [0u8; 12];
    assert_eq!(read10(text, &mut p, &mut out), 10);
    assert_eq!(p, 30);
    assert_eq!(out[9], 19);
    assert_eq!(out[10], 0);
}

#[test]
fn read10_from_an_offset() {
    let mut p = 3usize;
    let mut out = [7u8; 2];
    assert_eq!(read10(b"xx|05,", &mut p, &mut out), 1);
    assert_eq!(p, 6);
    assert_eq!(out, [5, 7]);
}
