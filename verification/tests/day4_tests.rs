use lib::day4::{dp_letters, part1};

fn grid_with(cells: &[(usize, usize, u8)]) -> String {
    let mut g = vec![b'A'; 141 * 140];
    for r in 0..140 {
        g[r * 141 + 140] = b'\n';
    }
    for &(r, c, ch) in cells {
        g[r * 141 + c] = ch;
    }
    String::from_utf8(g).unwrap()
}

fn word(r: usize, c: usize, dr: isize, dc: isize, w: &[u8]) -> Vec<(usize, usize, u8)> {
    w.iter()
        .enumerate()
        .map(|(k, &ch)| {
            (
                (r as isize + dr * k as isize) as usize,
                (c as isize + dc * k as isize) as usize,
                ch,
            )
        })
        .collect()
}

#[test]
fn empty_grid_has_no_words() {
    assert_eq!(part1(&grid_with(&[])), 0);
}

#[test]
fn horizontal_words_both_ways() {
    assert_eq!(part1(&grid_with(&word(0, 0, 0, 1, b"XMAS"))), 1);
    assert_eq!(part1(&grid_with(&word(5, 130, 0, 1, b"SAMX"))), 1);
    assert_eq!(part1(&grid_with(&word(139, 136, 0, 1, b"XMAS"))), 1);
}

#[test]
fn vertical_and_diagonal_words() {
    assert_eq!(part1(&grid_with(&word(0, 5, 1, 0, b"XMAS"))), 1);
    assert_eq!(part1(&grid_with(&word(136, 139, 1, 0, b"SAMX"))), 1);
    assert_eq!(part1(&grid_with(&word(10, 10, 1, 1, b"XMAS"))), 1);
    assert_eq!(part1(&grid_with(&word(10, 10, 1, -1, b"XMAS"))), 1);
    assert_eq!(part1(&grid_with(&word(0, 139, 1, -1, b"SAMX"))), 1);
}

#[test]
fn one_x_in_the_middle_of_a_star() {
    let mut cells = Vec::new();
    for (dr, dc) in [(0, 1), (0, -1), (1, 0), (-1, 0), (1, 1), (1, -1), (-1, 1), (-1, -1)] {
        cells.extend(word(50, 50, dr, dc, b"XMAS"));
    }
    assert_eq!(part1(&grid_with(&cells)), 8);
}

#[test]
fn codes_alias_other_letters_in_early_columns_only() {
    // 'Y' shares the code of 'X'
    assert_eq!(part1(&grid_with(&word(3, 0, 0, 1, b"YMAS"))), 1);
    assert_eq!(part1(&grid_with(&word(3, 120, 0, 1, b"YMAS"))), 0);
    assert_eq!(part1(&grid_with(&word(0, 7, 1, 0, b"YMAS"))), 1);
}

#[test]
fn dp_letters_reads_three_windows() {
    let x: u32 = (0xD2 << 24) | (0x87 << 16) | (0x1B << 8);
    let letters: String = dp_letters(x).into_iter().collect();
    assert_eq!(letters, "XMASSAMXAMSX");
}

fn transpose(g: &str) -> String {
    let b = g.as_bytes();
    let mut t = b.to_vec();
    for r in 0..140 {
        for c in 0..140 {
            t[r * 141 + c] = b[c * 141 + r];
        }
    }
    String::from_utf8(t).unwrap()
}

#[test]
fn transposing_keeps_the_count() {
    let mut cells = Vec::new();
    cells.extend(word(0, 0, 0, 1, b"XMAS"));
    cells.extend(word(20, 130, 0, 1, b"SAMX"));
    cells.extend(word(40, 40, 1, 1, b"XMAS"));
    cells.extend(word(60, 100, 1, -1, b"XMAS"));
    cells.extend(word(80, 3, 1, 0, b"SAMX"));
    let g = grid_with(&cells);
    assert_eq!(part1(&g), 5);
    assert_eq!(part1(&transpose(&g)), 5);
}
