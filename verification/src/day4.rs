//! Day 4: a 140 by 140 word search (rows of 140 letters, each followed by a
//! newline) in which `XMAS` is counted horizontally, vertically and along
//! both diagonals, forwards and backwards.
//!
//! Letters are compared by their two-bit codes (bits 3 and 4 of the byte:
//! `A` 0, `M` 1, `S` 2, `X` 3), except horizontal words that start in the
//! last 21 columns where a word can start, which are compared byte for byte.

use vstd::prelude::*;
use vstd::string::StringSliceAdditionalSpecFns;

verus! {

pub const ROWS: usize = 140;

pub const COLS: usize = 140;

/// The length of a row together with its newline.
pub const COLS_NEWL: usize = 141;

/// The first column from which horizontal words are compared byte for byte.
pub const BYTEWISE_FROM: usize = 116;

pub const CHAR_X: u8 = 88;

pub const CHAR_M: u8 = 77;

pub const CHAR_A: u8 = 65;

pub const CHAR_S: u8 = 83;

/// The mask of the two code bits of a letter.
pub const CHAR_MASK: u8 = 0b11000;

/// The two-bit code of a byte.
pub open spec fn code(b: u8) -> u8 {
    (b & CHAR_MASK) >> 3u8
}

/// The byte at row `r`, column `c` of the grid.
pub open spec fn cell(s: Seq<u8>, r: int, c: int) -> u8 {
    s[r * COLS_NEWL + c]
}

/// Four codes spell `XMAS` or `SAMX`.
pub open spec fn codes_spell(a: u8, b: u8, c: u8, d: u8) -> bool {
    (a == 3 && b == 1 && c == 0 && d == 2) || (a == 2 && b == 0 && c == 1 && d == 3)
}

/// Four bytes spell `XMAS` or `SAMX`.
pub open spec fn bytes_spell(a: u8, b: u8, c: u8, d: u8) -> bool {
    (a == CHAR_X && b == CHAR_M && c == CHAR_A && d == CHAR_S) || (a == CHAR_S && b == CHAR_A && c
        == CHAR_M && d == CHAR_X)
}

/// A vertical word ends at row `r`, column `c`.
pub open spec fn vertical_at(s: Seq<u8>, r: int, c: int) -> bool {
    r >= 3 && codes_spell(
        code(cell(s, r - 3, c)),
        code(cell(s, r - 2, c)),
        code(cell(s, r - 1, c)),
        code(cell(s, r, c)),
    )
}

/// A word along the diagonal from the upper left ends at row `r`, column `c`.
pub open spec fn down_right_at(s: Seq<u8>, r: int, c: int) -> bool {
    r >= 3 && c >= 3 && codes_spell(
        code(cell(s, r - 3, c - 3)),
        code(cell(s, r - 2, c - 2)),
        code(cell(s, r - 1, c - 1)),
        code(cell(s, r, c)),
    )
}

/// A word along the diagonal from the upper right ends at row `r`, column `c`.
pub open spec fn down_left_at(s: Seq<u8>, r: int, c: int) -> bool {
    r >= 3 && c + 3 < COLS && codes_spell(
        code(cell(s, r - 3, c + 3)),
        code(cell(s, r - 2, c + 2)),
        code(cell(s, r - 1, c + 1)),
        code(cell(s, r, c)),
    )
}

/// A horizontal word starts at row `r`, column `c`.
pub open spec fn horizontal_at(s: Seq<u8>, r: int, c: int) -> bool {
    c + 3 < COLS && if c < BYTEWISE_FROM {
        codes_spell(
            code(cell(s, r, c)),
            code(cell(s, r, c + 1)),
            code(cell(s, r, c + 2)),
            code(cell(s, r, c + 3)),
        )
    } else {
        bytes_spell(cell(s, r, c), cell(s, r, c + 1), cell(s, r, c + 2), cell(s, r, c + 3))
    }
}

pub open spec fn count_of(b: bool) -> int {
    if b {
        1
    } else {
        0
    }
}

/// The words that row `r`, column `c` accounts for: those ending there
/// vertically or diagonally and the one starting there horizontally.
pub open spec fn words_at(s: Seq<u8>, r: int, c: int) -> int {
    count_of(vertical_at(s, r, c)) + count_of(down_right_at(s, r, c)) + count_of(
        down_left_at(s, r, c),
    ) + count_of(horizontal_at(s, r, c))
}

/// The words accounted for by the first `n` cells of row `r`.
pub open spec fn row_words(s: Seq<u8>, r: int, n: int) -> int
    decreases n,
{
    if n <= 0 {
        0
    } else {
        row_words(s, r, n - 1) + words_at(s, r, n - 1)
    }
}

/// The words accounted for by the first `m` rows.
pub open spec fn grid_words(s: Seq<u8>, m: int) -> int
    decreases m,
{
    if m <= 0 {
        0
    } else {
        grid_words(s, m - 1) + row_words(s, m - 1, COLS as int)
    }
}

/// The answer: all the words of the grid.
pub open spec fn word_count(s: Seq<u8>) -> int {
    grid_words(s, ROWS as int)
}

/// `s` is long enough to hold the grid and has a newline after its first row.
pub open spec fn grid_shaped(s: Seq<u8>) -> bool {
    s.len() >= (ROWS - 1) * COLS_NEWL + COLS && s[COLS as int] == 10
}

proof fn lemma_row_words_bound(s: Seq<u8>, r: int, n: int)
    ensures
        0 <= row_words(s, r, n) <= 4 * if n < 0 {
            0
        } else {
            n
        },
    decreases n,
{
    if n > 0 {
        lemma_row_words_bound(s, r, n - 1);
    }
}

proof fn lemma_grid_words_bound(s: Seq<u8>, m: int)
    ensures
        0 <= grid_words(s, m) <= 4 * COLS * if m < 0 {
            0
        } else {
            m
        },
    decreases m,
{
    if m > 0 {
        lemma_grid_words_bound(s, m - 1);
        lemma_row_words_bound(s, m - 1, COLS as int);
    }
}

fn code_of(b: u8) -> (r: u8)
    ensures
        r == code(b),
{
    (b & CHAR_MASK) >> 3u8
}

fn codes_spell_exec(a: u8, b: u8, c: u8, d: u8) -> (r: bool)
    ensures
        r == codes_spell(a, b, c, d),
{
    (a == 3 && b == 1 && c == 0 && d == 2) || (a == 2 && b == 0 && c == 1 && d == 3)
}

/// The words that row `r`, column `c` of the grid `b` accounts for.
fn words_at_exec(b: &[u8], r: usize, c: usize) -> (n: u32)
    requires
        r < ROWS,
        c < COLS,
        b.len() >= (ROWS - 1) * COLS_NEWL + COLS,
    ensures
        n == words_at(b@, r as int, c as int),
{
    let at = |rr: usize, cc: usize| -> (v: u8)
        requires
            rr < ROWS,
            cc < COLS,
            b.len() >= (ROWS - 1) * COLS_NEWL + COLS,
        ensures
            v == code(cell(b@, rr as int, cc as int)),
        { code_of(b[rr * COLS_NEWL + cc]) };
    let mut n: u32 = 0;
    if r >= 3 && codes_spell_exec(at(r - 3, c), at(r - 2, c), at(r - 1, c), at(r, c)) {
        n = n + 1;
    }
    if r >= 3 && c >= 3 && codes_spell_exec(
        at(r - 3, c - 3),
        at(r - 2, c - 2),
        at(r - 1, c - 1),
        at(r, c),
    ) {
        n = n + 1;
    }
    if r >= 3 && c + 3 < COLS && codes_spell_exec(
        at(r - 3, c + 3),
        at(r - 2, c + 2),
        at(r - 1, c + 1),
        at(r, c),
    ) {
        n = n + 1;
    }
    if c + 3 < COLS {
        let found = if c < BYTEWISE_FROM {
            codes_spell_exec(at(r, c), at(r, c + 1), at(r, c + 2), at(r, c + 3))
        } else {
            let k = r * COLS_NEWL + c;
            (b[k] == CHAR_X && b[k + 1] == CHAR_M && b[k + 2] == CHAR_A && b[k + 3] == CHAR_S) || (
            b[k] == CHAR_S && b[k + 1] == CHAR_A && b[k + 2] == CHAR_M && b[k + 3] == CHAR_X)
        };
        if found {
            n = n + 1;
        }
    }
    n
}

/// Part one: the number of times `XMAS` appears in the grid `input`.
pub fn part1(input: &str) -> (count: u32)
    requires
        grid_shaped(input.spec_bytes()),
    ensures
        count == word_count(input.spec_bytes()),
{
    let b = input.as_bytes();
    let mut total: u32 = 0;
    let mut r: usize = 0;
    while r < ROWS
        invariant
            b@ == input.spec_bytes(),
            grid_shaped(b@),
            r <= ROWS,
            total == grid_words(b@, r as int),
        decreases ROWS - r,
    {
        let mut c: usize = 0;
        proof {
            lemma_grid_words_bound(b@, r as int);
        }
        while c < COLS
            invariant
                b@ == input.spec_bytes(),
                grid_shaped(b@),
                r < ROWS,
                c <= COLS,
                total == grid_words(b@, r as int) + row_words(b@, r as int, c as int),
                grid_words(b@, r as int) <= 4 * COLS * r,
            decreases COLS - c,
        {
            proof {
                lemma_row_words_bound(b@, r as int, c + 1);
                assert(4 * COLS * r <= 4 * 140 * 140) by (nonlinear_arith)
                    requires
                        r < 140,
                ;
            }
            total = total + words_at_exec(b, r, c);
            c = c + 1;
        }
        r = r + 1;
    }
    total
}

/// One of the four letters of the puzzle.
pub open spec fn is_xmas_letter(b: u8) -> bool {
    b == CHAR_X || b == CHAR_M || b == CHAR_A || b == CHAR_S
}

proof fn lemma_letter_code(b: u8)
    requires
        is_xmas_letter(b),
    ensures
        code(b) == if b == CHAR_X {
            3u8
        } else if b == CHAR_M {
            1u8
        } else if b == CHAR_A {
            0u8
        } else {
            2u8
        },
{
    assert(b == 88u8 ==> (b & 24u8) >> 3u8 == 3u8) by (bit_vector);
    assert(b == 77u8 ==> (b & 24u8) >> 3u8 == 1u8) by (bit_vector);
    assert(b == 65u8 ==> (b & 24u8) >> 3u8 == 0u8) by (bit_vector);
    assert(b == 83u8 ==> (b & 24u8) >> 3u8 == 2u8) by (bit_vector);
}

/// On the letters `X`, `M`, `A` and `S` comparing codes is comparing
/// letters: four of them spell `XMAS` or `SAMX` by their codes exactly when
/// they do byte for byte.
pub proof fn law_codes_agree_on_letters(a: u8, b: u8, c: u8, d: u8)
    requires
        is_xmas_letter(a),
        is_xmas_letter(b),
        is_xmas_letter(c),
        is_xmas_letter(d),
    ensures
        codes_spell(code(a), code(b), code(c), code(d)) == bytes_spell(a, b, c, d),
{
    lemma_letter_code(a);
    lemma_letter_code(b);
    lemma_letter_code(c);
    lemma_letter_code(d);
}

/// In a grid of the letters `X`, `M`, `A` and `S`, every horizontal word is
/// found whichever way it is compared.
pub proof fn law_horizontal_is_bytewise(s: Seq<u8>, r: int, c: int)
    requires
        0 <= r < ROWS,
        0 <= c,
        c + 3 < COLS,
        grid_shaped(s),
        forall|k: int| 0 <= k < 4 ==> is_xmas_letter(#[trigger] cell(s, r, c + k)),
    ensures
        horizontal_at(s, r, c) == bytes_spell(
            cell(s, r, c),
            cell(s, r, c + 1),
            cell(s, r, c + 2),
            cell(s, r, c + 3),
        ),
{
    assert(is_xmas_letter(cell(s, r, c + 0)));
    assert(is_xmas_letter(cell(s, r, c + 1)));
    assert(is_xmas_letter(cell(s, r, c + 2)));
    assert(is_xmas_letter(cell(s, r, c + 3)));
    law_codes_agree_on_letters(
        cell(s, r, c),
        cell(s, r, c + 1),
        cell(s, r, c + 2),
        cell(s, r, c + 3),
    );
}

/// The sum of `f` over `[lo, hi)`.
pub open spec fn sum1(f: spec_fn(int) -> int, lo: int, hi: int) -> int
    decreases hi - lo,
{
    if hi <= lo {
        0
    } else {
        sum1(f, lo, hi - 1) + f(hi - 1)
    }
}

/// The sum of `f` over rows `[a, b)` and columns `[p, q)`.
pub open spec fn sum2(f: spec_fn(int, int) -> int, a: int, b: int, p: int, q: int) -> int
    decreases b - a,
{
    if b <= a {
        0
    } else {
        sum2(f, a, b - 1, p, q) + sum1(|c: int| f(b - 1, c), p, q)
    }
}

proof fn lemma_sum1_ext(f: spec_fn(int) -> int, g: spec_fn(int) -> int, lo: int, hi: int)
    requires
        forall|c: int| lo <= c < hi ==> #[trigger] f(c) == g(c),
    ensures
        sum1(f, lo, hi) == sum1(g, lo, hi),
    decreases hi - lo,
{
    if hi > lo {
        lemma_sum1_ext(f, g, lo, hi - 1);
    }
}

proof fn lemma_sum1_zero(f: spec_fn(int) -> int, lo: int, hi: int)
    requires
        forall|c: int| lo <= c < hi ==> #[trigger] f(c) == 0,
    ensures
        sum1(f, lo, hi) == 0,
    decreases hi - lo,
{
    if hi > lo {
        lemma_sum1_zero(f, lo, hi - 1);
    }
}

proof fn lemma_sum1_split(f: spec_fn(int) -> int, lo: int, m: int, hi: int)
    requires
        lo <= m <= hi,
    ensures
        sum1(f, lo, hi) == sum1(f, lo, m) + sum1(f, m, hi),
    decreases hi - m,
{
    if hi > m {
        lemma_sum1_split(f, lo, m, hi - 1);
    }
}

proof fn lemma_sum1_add(f: spec_fn(int) -> int, g: spec_fn(int) -> int, lo: int, hi: int)
    ensures
        sum1(|c: int| f(c) + g(c), lo, hi) == sum1(f, lo, hi) + sum1(g, lo, hi),
    decreases hi - lo,
{
    if hi > lo {
        lemma_sum1_add(f, g, lo, hi - 1);
    }
}

proof fn lemma_sum1_shift(f: spec_fn(int) -> int, lo: int, hi: int, k: int)
    ensures
        sum1(|c: int| f(c + k), lo, hi) == sum1(f, lo + k, hi + k),
    decreases hi - lo,
{
    if hi > lo {
        lemma_sum1_shift(f, lo, hi - 1, k);
    }
}

proof fn lemma_sum2_ext(f: spec_fn(int, int) -> int, g: spec_fn(int, int) -> int, a: int, b: int, p: int, q: int)
    requires
        forall|r: int, c: int| a <= r < b && p <= c < q ==> #[trigger] f(r, c) == g(r, c),
    ensures
        sum2(f, a, b, p, q) == sum2(g, a, b, p, q),
    decreases b - a,
{
    if b > a {
        lemma_sum2_ext(f, g, a, b - 1, p, q);
        lemma_sum1_ext(|c: int| f(b - 1, c), |c: int| g(b - 1, c), p, q);
    }
}

proof fn lemma_sum2_add(f: spec_fn(int, int) -> int, g: spec_fn(int, int) -> int, a: int, b: int, p: int, q: int)
    ensures
        sum2(|r: int, c: int| f(r, c) + g(r, c), a, b, p, q) == sum2(f, a, b, p, q) + sum2(g, a, b, p, q),
    decreases b - a,
{
    if b > a {
        lemma_sum2_add(f, g, a, b - 1, p, q);
        lemma_sum1_add(|c: int| f(b - 1, c), |c: int| g(b - 1, c), p, q);
        lemma_sum1_ext(
            |c: int| (|r: int, c: int| f(r, c) + g(r, c))(b - 1, c),
            |c: int| (|c: int| f(b - 1, c))(c) + (|c: int| g(b - 1, c))(c),
            p,
            q,
        );
    }
}

/// Summing over rows first or over columns first gives the same.
proof fn lemma_sum2_swap(f: spec_fn(int, int) -> int, a: int, b: int, p: int, q: int)
    ensures
        sum2(f, a, b, p, q) == sum2(|r: int, c: int| f(c, r), p, q, a, b),
    decreases b - a,
{
    let g = |r: int, c: int| f(c, r);
    if b > a {
        lemma_sum2_swap(f, a, b - 1, p, q);
        // adding row b - 1 of f adds column b - 1 of g
        lemma_sum2_add_column(g, p, q, a, b - 1);
        lemma_sum1_ext(|r: int| g(r, b - 1), |c: int| f(b - 1, c), p, q);
    } else {
        lemma_sum2_empty_columns(g, p, q, a, b);
    }
}

proof fn lemma_sum2_empty_columns(g: spec_fn(int, int) -> int, p: int, q: int, a: int, b: int)
    requires
        b <= a,
    ensures
        sum2(g, p, q, a, b) == 0,
    decreases q - p,
{
    if q > p {
        lemma_sum2_empty_columns(g, p, q - 1, a, b);
    }
}

/// Extending the columns by one adds that column's sum.
proof fn lemma_sum2_add_column(g: spec_fn(int, int) -> int, p: int, q: int, a: int, m: int)
    requires
        a <= m,
    ensures
        sum2(g, p, q, a, m + 1) == sum2(g, p, q, a, m) + sum1(|r: int| g(r, m), p, q),
    decreases q - p,
{
    if q > p {
        lemma_sum2_add_column(g, p, q - 1, a, m);
    }
}

proof fn lemma_sum2_shift_rows(f: spec_fn(int, int) -> int, a: int, b: int, p: int, q: int, k: int)
    ensures
        sum2(|r: int, c: int| f(r + k, c), a, b, p, q) == sum2(f, a + k, b + k, p, q),
    decreases b - a,
{
    if b > a {
        lemma_sum2_shift_rows(f, a, b - 1, p, q, k);
        lemma_sum1_ext(|c: int| (|r: int, c: int| f(r + k, c))(b - 1, c), |c: int| f(b + k - 1, c), p, q);
    }
}

proof fn lemma_sum2_shift_cols(f: spec_fn(int, int) -> int, a: int, b: int, p: int, q: int, k: int)
    ensures
        sum2(|r: int, c: int| f(r, c + k), a, b, p, q) == sum2(f, a, b, p + k, q + k),
    decreases b - a,
{
    if b > a {
        lemma_sum2_shift_cols(f, a, b - 1, p, q, k);
        lemma_sum1_shift(|c: int| f(b - 1, c), p, q, k);
        lemma_sum1_ext(
            |c: int| (|r: int, c: int| f(r, c + k))(b - 1, c),
            |c: int| (|c: int| f(b - 1, c))(c + k),
            p,
            q,
        );
    }
}

proof fn lemma_sum2_zero(f: spec_fn(int, int) -> int, a: int, b: int, p: int, q: int)
    requires
        forall|r: int, c: int| a <= r < b && p <= c < q ==> #[trigger] f(r, c) == 0,
    ensures
        sum2(f, a, b, p, q) == 0,
    decreases b - a,
{
    if b > a {
        lemma_sum2_zero(f, a, b - 1, p, q);
        lemma_sum1_zero(|c: int| f(b - 1, c), p, q);
    }
}

proof fn lemma_sum2_split_rows(f: spec_fn(int, int) -> int, a: int, m: int, b: int, p: int, q: int)
    requires
        a <= m <= b,
    ensures
        sum2(f, a, b, p, q) == sum2(f, a, m, p, q) + sum2(f, m, b, p, q),
    decreases b - m,
{
    if b > m {
        lemma_sum2_split_rows(f, a, m, b - 1, p, q);
    }
}

proof fn lemma_sum2_split_cols(f: spec_fn(int, int) -> int, a: int, b: int, p: int, m: int, q: int)
    requires
        p <= m <= q,
    ensures
        sum2(f, a, b, p, q) == sum2(f, a, b, p, m) + sum2(f, a, b, m, q),
    decreases b - a,
{
    if b > a {
        lemma_sum2_split_cols(f, a, b - 1, p, m, q);
        lemma_sum1_split(|c: int| f(b - 1, c), p, m, q);
    }
}

/// Summing over a box gives the same as over a smaller box inside it when
/// `f` is zero on the rest.
proof fn lemma_sum2_restrict(
    f: spec_fn(int, int) -> int,
    a: int,
    b: int,
    p: int,
    q: int,
    a2: int,
    b2: int,
    p2: int,
    q2: int,
)
    requires
        a <= a2 <= b2 <= b,
        p <= p2 <= q2 <= q,
        forall|r: int, c: int|
            a <= r < b && p <= c < q && !(a2 <= r < b2 && p2 <= c < q2) ==> #[trigger] f(r, c) == 0,
    ensures
        sum2(f, a, b, p, q) == sum2(f, a2, b2, p2, q2),
{
    lemma_sum2_split_rows(f, a, a2, b, p, q);
    lemma_sum2_split_rows(f, a2, b2, b, p, q);
    lemma_sum2_zero(f, a, a2, p, q);
    lemma_sum2_zero(f, b2, b, p, q);
    lemma_sum2_split_cols(f, a2, b2, p, p2, q);
    lemma_sum2_split_cols(f, a2, b2, p2, q2, q);
    lemma_sum2_zero(f, a2, b2, p, p2);
    lemma_sum2_zero(f, a2, b2, q2, q);
}

/// Row `r`, column `c` lies in the grid.
pub open spec fn in_grid(r: int, c: int) -> bool {
    0 <= r < ROWS && 0 <= c < COLS
}

pub open spec fn vertical_count(s: Seq<u8>, r: int, c: int) -> int {
    count_of(in_grid(r, c) && vertical_at(s, r, c))
}

pub open spec fn down_right_count(s: Seq<u8>, r: int, c: int) -> int {
    count_of(in_grid(r, c) && down_right_at(s, r, c))
}

pub open spec fn down_left_count(s: Seq<u8>, r: int, c: int) -> int {
    count_of(in_grid(r, c) && down_left_at(s, r, c))
}

pub open spec fn horizontal_count(s: Seq<u8>, r: int, c: int) -> int {
    count_of(in_grid(r, c) && horizontal_at(s, r, c))
}

proof fn lemma_row_words_sum(s: Seq<u8>, r: int, n: int)
    ensures
        row_words(s, r, n) == sum1(|c: int| words_at(s, r, c), 0, n),
    decreases n,
{
    if n > 0 {
        lemma_row_words_sum(s, r, n - 1);
    }
}

proof fn lemma_grid_words_sum(s: Seq<u8>, m: int)
    ensures
        grid_words(s, m) == sum2(|r: int, c: int| words_at(s, r, c), 0, m, 0, COLS as int),
    decreases m,
{
    if m > 0 {
        lemma_grid_words_sum(s, m - 1);
        lemma_row_words_sum(s, m - 1, COLS as int);
        lemma_sum1_ext(
            |c: int| words_at(s, m - 1, c),
            |c: int| (|r: int, c: int| words_at(s, r, c))(m - 1, c),
            0,
            COLS as int,
        );
    }
}

/// The word count split by direction.
proof fn lemma_word_count_parts(s: Seq<u8>)
    ensures
        word_count(s) == sum2(|r: int, c: int| vertical_count(s, r, c), 0, 140, 0, 140) + sum2(
            |r: int, c: int| down_right_count(s, r, c),
            0,
            140,
            0,
            140,
        ) + sum2(|r: int, c: int| down_left_count(s, r, c), 0, 140, 0, 140) + sum2(
            |r: int, c: int| horizontal_count(s, r, c),
            0,
            140,
            0,
            140,
        ),
{
    let v = |r: int, c: int| vertical_count(s, r, c);
    let dr = |r: int, c: int| down_right_count(s, r, c);
    let dl = |r: int, c: int| down_left_count(s, r, c);
    let h = |r: int, c: int| horizontal_count(s, r, c);
    let vd = |r: int, c: int| v(r, c) + dr(r, c);
    let vdd = |r: int, c: int| vd(r, c) + dl(r, c);
    let all = |r: int, c: int| vdd(r, c) + h(r, c);
    lemma_grid_words_sum(s, 140);
    lemma_sum2_ext(|r: int, c: int| words_at(s, r, c), all, 0, 140, 0, 140);
    lemma_sum2_add(vdd, h, 0, 140, 0, 140);
    lemma_sum2_add(vd, dl, 0, 140, 0, 140);
    lemma_sum2_add(v, dr, 0, 140, 0, 140);
}

/// Every letter of the grid is `X`, `M`, `A` or `S`.
pub open spec fn xmas_grid(s: Seq<u8>) -> bool {
    forall|r: int, c: int| in_grid(r, c) ==> is_xmas_letter(#[trigger] cell(s, r, c))
}

/// The grid `t` is the grid `s` with rows and columns swapped.
pub open spec fn transposed(s: Seq<u8>, t: Seq<u8>) -> bool {
    forall|r: int, c: int| in_grid(r, c) ==> #[trigger] cell(t, r, c) == cell(s, c, r)
}

proof fn lemma_horizontal_codes(s: Seq<u8>, r: int, c: int)
    requires
        xmas_grid(s),
        in_grid(r, c),
        c + 3 < COLS,
    ensures
        horizontal_at(s, r, c) == codes_spell(
            code(cell(s, r, c)),
            code(cell(s, r, c + 1)),
            code(cell(s, r, c + 2)),
            code(cell(s, r, c + 3)),
        ),
{
    assert(in_grid(r, c + 1) && in_grid(r, c + 2) && in_grid(r, c + 3));
    law_codes_agree_on_letters(cell(s, r, c), cell(s, r, c + 1), cell(s, r, c + 2), cell(s, r, c + 3));
}

proof fn lemma_transposed_cells(s: Seq<u8>, t: Seq<u8>, r: int, c: int)
    requires
        xmas_grid(s),
        transposed(s, t),
    ensures
        horizontal_count(t, r, c) == vertical_count(s, c + 3, r),
        vertical_count(t, r, c) == horizontal_count(s, c, r - 3),
        down_right_count(t, r, c) == down_right_count(s, c, r),
        down_left_count(t, r, c) == down_left_count(s, c + 3, r - 3),
{
    assert forall|r: int, c: int| in_grid(r, c) implies is_xmas_letter(#[trigger] cell(t, r, c)) by {
        assert(in_grid(c, r));
        assert(is_xmas_letter(cell(s, c, r)));
    }
    assert forall|k: int| 0 <= k < 4 && in_grid(r + k - 3, c) && in_grid(r, c) implies #[trigger] cell(t, r + k - 3, c) == cell(s, c, r + k - 3) by {}
    assert forall|k: int| 0 <= k < 4 && in_grid(r, c + k) implies #[trigger] cell(t, r, c + k) == cell(s, c + k, r) by {}
    assert forall|k: int| 0 <= k < 4 && in_grid(r - 3 + k, c - 3 + k) implies #[trigger] cell(t, r - 3 + k, c - 3 + k) == cell(s, c - 3 + k, r - 3 + k) by {}
    assert forall|k: int| 0 <= k < 4 && in_grid(r - 3 + k, c + 3 - k) implies #[trigger] cell(t, r - 3 + k, c + 3 - k) == cell(s, c + 3 - k, r - 3 + k) by {}
    if in_grid(r, c) && c + 3 < COLS {
        lemma_horizontal_codes(t, r, c);
        assert(cell(t, r, c + 0) == cell(s, c + 0, r));
        assert(cell(t, r, c + 1) == cell(s, c + 1, r));
        assert(cell(t, r, c + 2) == cell(s, c + 2, r));
        assert(cell(t, r, c + 3) == cell(s, c + 3, r));
    }
    if in_grid(r, c) && r >= 3 {
        lemma_horizontal_codes(s, c, r - 3);
        assert(cell(t, r - 3 + 0, c) == cell(s, c, r - 3 + 0));
        assert(cell(t, r - 3 + 1, c) == cell(s, c, r - 3 + 1));
        assert(cell(t, r - 3 + 2, c) == cell(s, c, r - 3 + 2));
        assert(cell(t, r - 3 + 3, c) == cell(s, c, r - 3 + 3));
    }
    if in_grid(r, c) && r >= 3 && c >= 3 {
        assert(cell(t, r - 3 + 0, c - 3 + 0) == cell(s, c - 3 + 0, r - 3 + 0));
        assert(cell(t, r - 3 + 1, c - 3 + 1) == cell(s, c - 3 + 1, r - 3 + 1));
        assert(cell(t, r - 3 + 2, c - 3 + 2) == cell(s, c - 3 + 2, r - 3 + 2));
        assert(cell(t, r - 3 + 3, c - 3 + 3) == cell(s, c - 3 + 3, r - 3 + 3));
    }
    if in_grid(r, c) && r >= 3 && c + 3 < COLS {
        assert(cell(t, r - 3 + 0, c + 3 - 0) == cell(s, c + 3 - 0, r - 3 + 0));
        assert(cell(t, r - 3 + 1, c + 3 - 1) == cell(s, c + 3 - 1, r - 3 + 1));
        assert(cell(t, r - 3 + 2, c + 3 - 2) == cell(s, c + 3 - 2, r - 3 + 2));
        assert(cell(t, r - 3 + 3, c + 3 - 3) == cell(s, c + 3 - 3, r - 3 + 3));
    }
}

/// Reindexes a sum whose summand at `(r, c)` is `g` at `(c + dr, r + dc)`
/// back to a sum of `g` over the grid, when `g` is zero off the box
/// `[a2, b2) x [p2, q2)` that both ways of counting cover.
proof fn lemma_swap_shift(
    g: spec_fn(int, int) -> int,
    dr: int,
    dc: int,
    a2: int,
    b2: int,
    p2: int,
    q2: int,
)
    requires
        0 <= a2 <= b2 <= 140,
        0 <= p2 <= q2 <= 140,
        dr <= a2,
        b2 <= 140 + dr,
        dc <= p2,
        q2 <= 140 + dc,
        forall|r: int, c: int| !(a2 <= r < b2 && p2 <= c < q2) ==> #[trigger] g(r, c) == 0,
    ensures
        sum2(|r: int, c: int| g(c + dr, r + dc), 0, 140, 0, 140) == sum2(g, 0, 140, 0, 140),
{
    let f = |r: int, c: int| g(c + dr, r + dc);
    lemma_sum2_swap(f, 0, 140, 0, 140);
    let h = |r: int, c: int| g(r, c + dc);
    lemma_sum2_ext(|r: int, c: int| f(c, r), |r: int, c: int| h(r + dr, c), 0, 140, 0, 140);
    lemma_sum2_shift_rows(h, 0, 140, 0, 140, dr);
    lemma_sum2_shift_cols(g, dr, 140 + dr, 0, 140, dc);
    lemma_sum2_restrict(g, dr, 140 + dr, dc, 140 + dc, a2, b2, p2, q2);
    lemma_sum2_restrict(g, 0, 140, 0, 140, a2, b2, p2, q2);
}

/// In a grid of the letters `X`, `M`, `A` and `S`, swapping rows and
/// columns keeps the number of words: horizontal words become vertical
/// ones and back, and each diagonal maps onto itself.
pub proof fn law_transpose_keeps_word_count(s: Seq<u8>, t: Seq<u8>)
    requires
        xmas_grid(s),
        transposed(s, t),
    ensures
        word_count(t) == word_count(s),
{
    lemma_word_count_parts(s);
    lemma_word_count_parts(t);
    assert forall|r: int, c: int| true implies #[trigger] horizontal_count(t, r, c) == vertical_count(s, c + 3, r) by {
        lemma_transposed_cells(s, t, r, c);
    }
    assert forall|r: int, c: int| true implies #[trigger] vertical_count(t, r, c) == horizontal_count(s, c, r - 3) by {
        lemma_transposed_cells(s, t, r, c);
    }
    assert forall|r: int, c: int| true implies #[trigger] down_right_count(t, r, c) == down_right_count(s, c, r) by {
        lemma_transposed_cells(s, t, r, c);
    }
    assert forall|r: int, c: int| true implies #[trigger] down_left_count(t, r, c) == down_left_count(s, c + 3, r - 3) by {
        lemma_transposed_cells(s, t, r, c);
    }
    let v = |r: int, c: int| vertical_count(s, r, c);
    let h = |r: int, c: int| horizontal_count(s, r, c);
    let dr = |r: int, c: int| down_right_count(s, r, c);
    let dl = |r: int, c: int| down_left_count(s, r, c);
    // horizontal words of `t` are the vertical words of `s`
    lemma_sum2_ext(|r: int, c: int| horizontal_count(t, r, c), |r: int, c: int| v(c + 3, r + 0), 0, 140, 0, 140);
    lemma_swap_shift(v, 3, 0, 3, 140, 0, 140);
    // vertical words of `t` are the horizontal words of `s`
    lemma_sum2_ext(|r: int, c: int| vertical_count(t, r, c), |r: int, c: int| h(c + 0, r + -3), 0, 140, 0, 140);
    lemma_swap_shift(h, 0, -3, 0, 140, 0, 137);
    // each diagonal maps onto itself
    lemma_sum2_ext(|r: int, c: int| down_right_count(t, r, c), |r: int, c: int| dr(c + 0, r + 0), 0, 140, 0, 140);
    lemma_swap_shift(dr, 0, 0, 0, 140, 0, 140);
    lemma_sum2_ext(|r: int, c: int| down_left_count(t, r, c), |r: int, c: int| dl(c + 3, r + -3), 0, 140, 0, 140);
    lemma_swap_shift(dl, 3, -3, 3, 140, 0, 137);
}

proof fn lemma_sum1_reflect(f: spec_fn(int) -> int, lo: int, hi: int, k: int)
    ensures
        sum1(|c: int| f(k - c), lo, hi) == sum1(f, k - hi + 1, k - lo + 1),
    decreases hi - lo,
{
    if hi > lo {
        lemma_sum1_reflect(f, lo, hi - 1, k);
        lemma_sum1_split(f, k - hi + 1, k - hi + 2, k - lo + 1);
        assert(sum1(f, k - hi + 1, k - hi + 1) == 0);
    }
}

proof fn lemma_sum2_reflect_cols(f: spec_fn(int, int) -> int, a: int, b: int, p: int, q: int, k: int)
    ensures
        sum2(|r: int, c: int| f(r, k - c), a, b, p, q) == sum2(f, a, b, k - q + 1, k - p + 1),
    decreases b - a,
{
    if b > a {
        lemma_sum2_reflect_cols(f, a, b - 1, p, q, k);
        lemma_sum1_reflect(|c: int| f(b - 1, c), p, q, k);
        lemma_sum1_ext(
            |c: int| (|r: int, c: int| f(r, k - c))(b - 1, c),
            |c: int| (|c: int| f(b - 1, c))(k - c),
            p,
            q,
        );
    }
}

/// The grid `m` is the grid `s` mirrored left to right.
pub open spec fn mirrored(s: Seq<u8>, m: Seq<u8>) -> bool {
    forall|r: int, c: int| in_grid(r, c) ==> #[trigger] cell(m, r, c) == cell(s, r, COLS - 1 - c)
}

proof fn lemma_mirrored_cells(s: Seq<u8>, m: Seq<u8>, r: int, c: int)
    requires
        xmas_grid(s),
        mirrored(s, m),
    ensures
        vertical_count(m, r, c) == vertical_count(s, r, 139 - c),
        down_right_count(m, r, c) == down_left_count(s, r, 139 - c),
        down_left_count(m, r, c) == down_right_count(s, r, 139 - c),
        horizontal_count(m, r, c) == horizontal_count(s, r, 136 - c),
{
    assert forall|r: int, c: int| in_grid(r, c) implies is_xmas_letter(#[trigger] cell(m, r, c)) by {
        assert(in_grid(r, 139 - c));
        assert(is_xmas_letter(cell(s, r, 139 - c)));
    }
    if in_grid(r, c) && r >= 3 {
        assert(cell(m, r - 3, c) == cell(s, r - 3, 139 - c));
        assert(cell(m, r - 2, c) == cell(s, r - 2, 139 - c));
        assert(cell(m, r - 1, c) == cell(s, r - 1, 139 - c));
        assert(cell(m, r, c) == cell(s, r, 139 - c));
        if c >= 3 {
            assert(cell(m, r - 3, c - 3) == cell(s, r - 3, 139 - (c - 3)));
            assert(cell(m, r - 2, c - 2) == cell(s, r - 2, 139 - (c - 2)));
            assert(cell(m, r - 1, c - 1) == cell(s, r - 1, 139 - (c - 1)));
        }
        if c + 3 < COLS {
            assert(cell(m, r - 3, c + 3) == cell(s, r - 3, 139 - (c + 3)));
            assert(cell(m, r - 2, c + 2) == cell(s, r - 2, 139 - (c + 2)));
            assert(cell(m, r - 1, c + 1) == cell(s, r - 1, 139 - (c + 1)));
        }
    }
    if in_grid(r, c) && c + 3 < COLS {
        lemma_horizontal_codes(m, r, c);
        lemma_horizontal_codes(s, r, 136 - c);
        assert(cell(m, r, c + 0) == cell(s, r, 139 - c));
        assert(cell(m, r, c + 1) == cell(s, r, 138 - c));
        assert(cell(m, r, c + 2) == cell(s, r, 137 - c));
        assert(cell(m, r, c + 3) == cell(s, r, 136 - c));
        assert(136 - c + 1 == 137 - c && 136 - c + 2 == 138 - c && 136 - c + 3 == 139 - c);
    }
}

/// In a grid of the letters `X`, `M`, `A` and `S`, mirroring left to right
/// keeps the number of words: each diagonal maps onto the other, and rows
/// and columns onto themselves.
pub proof fn law_mirror_keeps_word_count(s: Seq<u8>, m: Seq<u8>)
    requires
        xmas_grid(s),
        mirrored(s, m),
    ensures
        word_count(m) == word_count(s),
{
    lemma_word_count_parts(s);
    lemma_word_count_parts(m);
    assert forall|r: int, c: int| true implies #[trigger] vertical_count(m, r, c) == vertical_count(s, r, 139 - c) by {
        lemma_mirrored_cells(s, m, r, c);
    }
    assert forall|r: int, c: int| true implies #[trigger] down_right_count(m, r, c) == down_left_count(s, r, 139 - c) by {
        lemma_mirrored_cells(s, m, r, c);
    }
    assert forall|r: int, c: int| true implies #[trigger] down_left_count(m, r, c) == down_right_count(s, r, 139 - c) by {
        lemma_mirrored_cells(s, m, r, c);
    }
    assert forall|r: int, c: int| true implies #[trigger] horizontal_count(m, r, c) == horizontal_count(s, r, 136 - c) by {
        lemma_mirrored_cells(s, m, r, c);
    }
    let v = |r: int, c: int| vertical_count(s, r, c);
    let h = |r: int, c: int| horizontal_count(s, r, c);
    let dr = |r: int, c: int| down_right_count(s, r, c);
    let dl = |r: int, c: int| down_left_count(s, r, c);
    lemma_sum2_ext(|r: int, c: int| vertical_count(m, r, c), |r: int, c: int| v(r, 139 - c), 0, 140, 0, 140);
    lemma_sum2_reflect_cols(v, 0, 140, 0, 140, 139);
    lemma_sum2_ext(|r: int, c: int| down_right_count(m, r, c), |r: int, c: int| dl(r, 139 - c), 0, 140, 0, 140);
    lemma_sum2_reflect_cols(dl, 0, 140, 0, 140, 139);
    lemma_sum2_ext(|r: int, c: int| down_left_count(m, r, c), |r: int, c: int| dr(r, 139 - c), 0, 140, 0, 140);
    lemma_sum2_reflect_cols(dr, 0, 140, 0, 140, 139);
    lemma_sum2_ext(|r: int, c: int| horizontal_count(m, r, c), |r: int, c: int| h(r, 136 - c), 0, 140, 0, 140);
    lemma_sum2_reflect_cols(h, 0, 140, 0, 140, 136);
    lemma_sum2_restrict(h, 0, 140, -3, 137, 0, 140, 0, 137);
    lemma_sum2_restrict(h, 0, 140, 0, 140, 0, 140, 0, 137);
}

/// The letter that a two-bit code stands for.
pub open spec fn letter(code: u32) -> char {
    if code == 0 {
        'A'
    } else if code == 1 {
        'M'
    } else if code == 2 {
        'S'
    } else {
        'X'
    }
}

/// The twelve letters packed in a word of the column scan: the four of the
/// diagonal from the upper left (bits 31 to 24), then the four of the
/// column (bits 23 to 16), then the four of the diagonal from the upper
/// right (bits 15 to 8), each four oldest first.
pub fn dp_letters(x: u32) -> (r: Vec<char>)
    ensures
        r.len() == 12,
        forall|k: int| 0 <= k < 12 ==> #[trigger] r@[k] == letter((x >> (30 - 2 * k) as u32) & 3),
{
    let l: [char; 4] = ['A', 'M', 'S', 'X'];
    let mut r: Vec<char> = Vec::new();
    let mut k: u32 = 0;
    while k < 12
        invariant
            k <= 12,
            r.len() == k,
            l@ == seq!['A', 'M', 'S', 'X'],
            forall|q: int| 0 <= q < k ==> #[trigger] r@[q] == letter((x >> (30 - 2 * q) as u32) & 3),
        decreases 12 - k,
    {
        let shift: u32 = 30 - 2 * k;
        let code: u32 = (x >> shift) & 3;
        assert(code < 4) by (bit_vector)
            requires
                code == (x >> shift) & 3,
        ;
        r.push(l[code as usize]);
        k = k + 1;
    }
    r
}

} // verus!
