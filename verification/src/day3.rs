//! Day 3: a corrupted program in which the instructions `mul(X,Y)`, with
//! `X` and `Y` of one to three digits, are to be found and summed; in part
//! two, `do()` and `don't()` switch the instructions that follow on and off.

use vstd::prelude::*;
use vstd::string::StringSliceAdditionalSpecFns;
use crate::day2::{is_digit, NUM_0, NUM_9};

verus! {

pub const CHAR_M: u8 = 109;

pub const CHAR_U: u8 = 117;

pub const CHAR_L: u8 = 108;

pub const CHAR_D: u8 = 100;

pub const CHAR_O: u8 = 111;

pub const CHAR_N: u8 = 110;

pub const CHAR_T: u8 = 116;

pub const APOSTROPHE: u8 = 39;

pub const OPEN_PAREN: u8 = 40;

pub const CLOSE_PAREN: u8 = 41;

pub const COMMA: u8 = 44;

/// The number of digits in a row in `s` from position `j` on.
pub open spec fn digit_run(s: Seq<u8>, j: int) -> int
    decreases s.len() - j,
{
    if 0 <= j < s.len() && is_digit(s[j]) {
        1 + digit_run(s, j + 1)
    } else {
        0
    }
}

/// The decimal number that the digits `d` spell.
pub open spec fn decimal(d: Seq<u8>) -> int
    decreases d.len(),
{
    if d.len() == 0 {
        0
    } else {
        decimal(d.drop_last()) * 10 + (d.last() - NUM_0)
    }
}

/// `s` holds `mul(` at position `i`.
pub open spec fn mul_opens_at(s: Seq<u8>, i: int) -> bool {
    &&& 0 <= i
    &&& i + 4 <= s.len()
    &&& s[i] == CHAR_M
    &&& s[i + 1] == CHAR_U
    &&& s[i + 2] == CHAR_L
    &&& s[i + 3] == OPEN_PAREN
}

/// The product that the instruction `mul(X,Y)` at position `i` of `s`
/// yields, `X` and `Y` being one to three digits each; 0 where there is no
/// such instruction.
pub open spec fn mul_at(s: Seq<u8>, i: int) -> int {
    let j = i + 4;
    let k1 = digit_run(s, j);
    let c = j + k1;
    let k2 = digit_run(s, c + 1);
    let e = c + 1 + k2;
    if mul_opens_at(s, i) && 1 <= k1 <= 3 && c < s.len() && s[c] == COMMA && 1 <= k2 <= 3 && e
        < s.len() && s[e] == CLOSE_PAREN {
        decimal(s.subrange(j, c)) * decimal(s.subrange(c + 1, e))
    } else {
        0
    }
}

/// The sum of the instructions that start before position `n`.
pub open spec fn mul_total(s: Seq<u8>, n: int) -> int
    decreases n,
{
    if n <= 0 {
        0
    } else {
        mul_total(s, n - 1) + mul_at(s, n - 1)
    }
}

/// What position `i` of `s` says about the switch: `Some(true)` for a
/// `do()` there with at least one byte after it, `Some(false)` for a
/// `don't()` there with at least one byte after it, `None` otherwise.
pub open spec fn switch_at(s: Seq<u8>, i: int) -> Option<bool> {
    if s.len() <= i + 4 {
        None
    } else if s[i] == CHAR_D && s[i + 1] == CHAR_O && s[i + 2] == OPEN_PAREN && s[i + 3]
        == CLOSE_PAREN {
        Some(true)
    } else if s.len() <= i + 7 {
        None
    } else if s[i] == CHAR_D && s[i + 1] == CHAR_O && s[i + 2] == CHAR_N && s[i + 3] == APOSTROPHE
        && s[i + 4] == CHAR_T && s[i + 5] == OPEN_PAREN && s[i + 6] == CLOSE_PAREN {
        Some(false)
    } else {
        None
    }
}

/// What visiting position `i` does to the running sum and switch `st`: an
/// `m` there is read as the start of an instruction, added when the switch
/// is on; any other byte as the start of a switch.
pub open spec fn gate_step(s: Seq<u8>, st: (int, bool), i: int) -> (int, bool) {
    if s[i] == CHAR_M {
        if st.1 {
            (st.0 + mul_at(s, i), st.1)
        } else {
            st
        }
    } else {
        match switch_at(s, i) {
            Some(on) => (st.0, on),
            None => st,
        }
    }
}

/// The sum of the switched-on instructions among positions below `n`, and
/// whether the switch is on after them.
pub open spec fn gated_total(s: Seq<u8>, n: int) -> (int, bool)
    decreases n,
{
    if n <= 0 {
        (0, true)
    } else {
        gate_step(s, gated_total(s, n - 1), n - 1)
    }
}

/// The width in bytes of one block of the scan.
pub const BLOCK: usize = 32;

/// The bytes a position is visited for: `m`, and with `with_d` also `d`.
pub open spec fn is_target(b: u8, with_d: bool) -> bool {
    b == CHAR_M || (with_d && b == CHAR_D)
}

/// The positions visited for block `i` of the scan at offset `mis`: among
/// the first `k` bytes of the block, which starts at `mis + 32 * i`, each
/// target byte at `mis + 32 * i + t` has position `32 * i + t` visited.
pub open spec fn block_visits(s: Seq<u8>, mis: int, i: int, k: int, with_d: bool) -> Seq<int>
    decreases k,
{
    if k <= 0 {
        Seq::<int>::empty()
    } else {
        let v = block_visits(s, mis, i, k - 1, with_d);
        if is_target(s[mis + 32 * i + k - 1], with_d) {
            v.push(32 * i + k - 1)
        } else {
            v
        }
    }
}

/// The positions visited for the first `n` blocks.
pub open spec fn blocks_visits(s: Seq<u8>, mis: int, n: int, with_d: bool) -> Seq<int>
    decreases n,
{
    if n <= 0 {
        Seq::<int>::empty()
    } else {
        blocks_visits(s, mis, n - 1, with_d) + block_visits(s, mis, n - 1, 32, with_d)
    }
}

/// The positions from `lo` up to `hi`, in order.
pub open spec fn span(lo: int, hi: int) -> Seq<int> {
    Seq::new(if hi > lo {
        (hi - lo) as nat
    } else {
        0nat
    }, |k: int| lo + k)
}

/// The number of whole blocks after offset `mis` below position `len - 4`.
pub open spec fn block_count(len: int, mis: int) -> int {
    (len - 4 - mis) / 32
}

/// Where the last, partial stretch of the scan starts.
pub open spec fn tail_start(len: int) -> int {
    (len - 4) - (len - 4) % 32
}

/// The positions the scan of part one visits for a text at offset `mis`
/// from a 32-byte boundary: the `m` hits of the blocks, then every
/// position below `mis`, then every position of the tail.
pub open spec fn part1_visits(s: Seq<u8>, mis: int) -> Seq<int> {
    blocks_visits(s, mis, block_count(s.len() as int, mis), false) + span(0, mis) + span(
        tail_start(s.len() as int),
        s.len() - 4,
    )
}

/// The positions the scan of part two visits for a text at offset `mis`:
/// every position below `mis`, then the `m` and `d` hits of the blocks,
/// then every position of the tail.
pub open spec fn part2_visits(s: Seq<u8>, mis: int) -> Seq<int> {
    span(0, mis) + blocks_visits(s, mis, block_count(s.len() as int, mis), true) + span(
        tail_start(s.len() as int),
        s.len() - 4,
    )
}

/// The sum of the instructions at the positions `ps`.
pub open spec fn visit_sum(s: Seq<u8>, ps: Seq<int>) -> int
    decreases ps.len(),
{
    if ps.len() == 0 {
        0
    } else {
        visit_sum(s, ps.drop_last()) + mul_at(s, ps.last())
    }
}

/// The running sum and switch after visiting the positions `ps` from `st`.
pub open spec fn visit_run(s: Seq<u8>, st: (int, bool), ps: Seq<int>) -> (int, bool)
    decreases ps.len(),
{
    if ps.len() == 0 {
        st
    } else {
        gate_step(s, visit_run(s, st, ps.drop_last()), ps.last())
    }
}

proof fn lemma_digit_run_prefix(s: Seq<u8>, j: int, k: int)
    requires
        0 <= j,
        0 <= k,
        j + k <= s.len(),
        forall|q: int| j <= q < j + k ==> is_digit(#[trigger] s[q]),
    ensures
        digit_run(s, j) == k + digit_run(s, j + k),
    decreases k,
{
    if k > 0 {
        lemma_digit_run_prefix(s, j + 1, k - 1);
    }
}

proof fn lemma_decimal_bound(d: Seq<u8>)
    requires
        forall|q: int| 0 <= q < d.len() ==> is_digit(#[trigger] d[q]),
    ensures
        0 <= decimal(d),
        d.len() <= 1 ==> decimal(d) <= 9,
        d.len() <= 2 ==> decimal(d) <= 99,
        d.len() <= 3 ==> decimal(d) <= 999,
    decreases d.len(),
{
    if d.len() > 0 {
        lemma_decimal_bound(d.drop_last());
    }
}

/// Reads the digits of `b` from position `j` on, stopping after four: how
/// many there are (at most four), and, when there are at most three, the
/// number they spell.
fn scan_digits(b: &[u8], j: usize) -> (r: (usize, u32))
    requires
        j <= b.len(),
    ensures
        r.0 <= 4,
        r.0 == if digit_run(b@, j as int) < 4 {
            digit_run(b@, j as int)
        } else {
            4
        },
        r.0 <= 3 ==> r.1 == decimal(b@.subrange(j as int, j + r.0)),
        j + r.0 <= b.len(),
        forall|q: int| j <= q < j + r.0 ==> is_digit(#[trigger] b@[q]),
{
    let mut k: usize = 0;
    let mut v: u32 = 0;
    while k < 4 && j + k < b.len() && b[j + k] >= NUM_0 && b[j + k] <= NUM_9
        invariant
            j <= b.len(),
            k <= 4,
            j + k <= b.len(),
            forall|q: int| j <= q < j + k ==> is_digit(#[trigger] b@[q]),
            k <= 3 ==> v == decimal(b@.subrange(j as int, j + k)),
            v <= 9999,
        decreases 4 - k,
    {
        proof {
            let d = b@.subrange(j as int, j + k + 1);
            assert(d.drop_last() =~= b@.subrange(j as int, j + k));
            lemma_decimal_bound(b@.subrange(j as int, j + k));
        }
        if k < 3 {
            v = v * 10 + (b[j + k] - NUM_0) as u32;
        }
        k = k + 1;
    }
    proof {
        lemma_digit_run_prefix(b@, j as int, k as int);
        lemma_digit_run_digits(b@, j + k);
    }
    (k, v)
}

/// The product that the instruction `mul(X,Y)` at position `i` of `b`
/// yields, or 0 where there is none.
pub fn handle_m(b: &[u8], i: usize) -> (r: i32)
    requires
        i + 4 <= b.len(),
    ensures
        r == mul_at(b@, i as int),
        0 <= r <= 998001,
{
    if b[i] != CHAR_M || b[i + 1] != CHAR_U || b[i + 2] != CHAR_L || b[i + 3] != OPEN_PAREN {
        return 0;
    }
    let j = i + 4;
    let (k1, x) = scan_digits(b, j);
    if k1 < 1 || k1 > 3 {
        return 0;
    }
    let c = j + k1;
    if c >= b.len() || b[c] != COMMA {
        return 0;
    }
    let (k2, y) = scan_digits(b, c + 1);
    if k2 < 1 || k2 > 3 {
        return 0;
    }
    let e = c + 1 + k2;
    if e >= b.len() || b[e] != CLOSE_PAREN {
        return 0;
    }
    proof {
        lemma_decimal_bound(b@.subrange(j as int, c as int));
        lemma_decimal_bound(b@.subrange(c + 1, e as int));
        assert(x * y <= 999 * 999) by (nonlinear_arith)
            requires
                x <= 999,
                y <= 999,
        ;
    }
    (x * y) as i32
}

/// What position `i` of `b` says about the switch.
pub fn handle_d(b: &[u8], i: usize) -> (r: Option<bool>)
    ensures
        r == switch_at(b@, i as int),
{
    if i >= b.len() || b.len() - i <= 4 {
        return None;
    }
    if b[i] == CHAR_D && b[i + 1] == CHAR_O && b[i + 2] == OPEN_PAREN && b[i + 3] == CLOSE_PAREN {
        return Some(true);
    }
    if b.len() - i <= 7 {
        return None;
    }
    if b[i] == CHAR_D && b[i + 1] == CHAR_O && b[i + 2] == CHAR_N && b[i + 3] == APOSTROPHE && b[i
        + 4] == CHAR_T && b[i + 5] == OPEN_PAREN && b[i + 6] == CLOSE_PAREN {
        return Some(false);
    }
    None
}

/// Every instruction yields a product of at least 0.
pub proof fn lemma_mul_at_nonneg(s: Seq<u8>, i: int)
    ensures
        mul_at(s, i) >= 0,
{
    let j = i + 4;
    let k1 = digit_run(s, j);
    let c = j + k1;
    let k2 = digit_run(s, c + 1);
    let e = c + 1 + k2;
    if mul_opens_at(s, i) && 1 <= k1 <= 3 && c < s.len() && s[c] == COMMA && 1 <= k2 <= 3 && e
        < s.len() && s[e] == CLOSE_PAREN {
        lemma_digit_run_digits(s, j);
        lemma_digit_run_digits(s, c + 1);
        lemma_decimal_bound(s.subrange(j, c));
        lemma_decimal_bound(s.subrange(c + 1, e));
        let x = decimal(s.subrange(j, c));
        let y = decimal(s.subrange(c + 1, e));
        assert(x * y >= 0) by (nonlinear_arith)
            requires
                x >= 0,
                y >= 0,
        ;
    }
}

proof fn lemma_digit_run_digits(s: Seq<u8>, j: int)
    ensures
        digit_run(s, j) >= 0,
        digit_run(s, j) > 0 ==> 0 <= j && j + digit_run(s, j) <= s.len(),
        forall|q: int| j <= q < j + digit_run(s, j) ==> is_digit(#[trigger] s[q]),
    decreases s.len() - j,
{
    if 0 <= j < s.len() && is_digit(s[j]) {
        lemma_digit_run_digits(s, j + 1);
    }
}

proof fn lemma_block_bounds(end: int, mis: int, n: int, i: int, t: int)
    requires
        0 <= mis <= end,
        n == (end - mis) / 32,
        0 <= i < n,
        0 <= t < 32,
    ensures
        mis + 32 * i + t < end,
        32 * i + t + 4 <= end + 4,
        32 * n <= end - mis,
{
    assert(32 * ((end - mis) / 32) <= end - mis) by (nonlinear_arith)
        requires
            end - mis >= 0,
    ;
    assert(32 * i + t < 32 * n) by (nonlinear_arith)
        requires
            i < n,
            t < 32,
    ;
}

proof fn lemma_block_count(end: int, mis: int, n: int)
    requires
        0 <= mis <= end,
        n == (end - mis) / 32,
    ensures
        0 <= n,
        32 * n <= end - mis,
{
    assert(32 * ((end - mis) / 32) <= end - mis && (end - mis) / 32 >= 0) by (nonlinear_arith)
        requires
            end - mis >= 0,
    ;
}

proof fn lemma_tail_start(len: int)
    requires
        len >= 4,
    ensures
        0 <= tail_start(len) <= len - 4,
        tail_start(len) == 32 * block_count(len, 0),
{
    let l = len - 4;
    assert(l - l % 32 == 32 * (l / 32) && 0 <= l % 32 < 32 && l / 32 >= 0) by (nonlinear_arith)
        requires
            l >= 0,
    ;
}

/// Part one's scan of the text `input`, which starts `misalignment` bytes
/// before a 32-byte boundary: the blocks of 32 bytes from that boundary
/// on are searched for `m`, but each hit is read at its offset within the
/// blocks counted from the start of the text; then the first
/// `misalignment` positions and the positions of the tail are read.
pub fn part1_unsafe(input: &str, misalignment: usize) -> (r: i32)
    requires
        misalignment < 32,
        input.spec_bytes().len() >= 4 + misalignment,
        visit_sum(input.spec_bytes(), part1_visits(input.spec_bytes(), misalignment as int))
            <= i32::MAX,
    ensures
        r == visit_sum(input.spec_bytes(), part1_visits(input.spec_bytes(), misalignment as int)),
{
    let b = input.as_bytes();
    let ghost s = b@;
    let mis = misalignment;
    let end = b.len() - 4;
    let nblocks = (end - mis) / BLOCK;
    let mut cnter: u128 = 0;
    let ghost mut done: Seq<int> = Seq::empty();
    let mut i: usize = 0;
    while i < nblocks
        invariant
            s == b@,
            end == b.len() - 4,
            mis < 32,
            mis <= end,
            nblocks == (end - mis) / 32,
            i <= nblocks,
            done == blocks_visits(s, mis as int, i as int, false),
            cnter == visit_sum(s, done),
            cnter <= 998001 * done.len(),
            done.len() <= 32 * i,
        decreases nblocks - i,
    {
        let mut t: usize = 0;
        while t < BLOCK
            invariant
                s == b@,
                end == b.len() - 4,
                mis < 32,
                mis <= end,
                nblocks == (end - mis) / 32,
                i < nblocks,
                t <= 32,
                done == blocks_visits(s, mis as int, i as int, false) + block_visits(
                    s,
                    mis as int,
                    i as int,
                    t as int,
                    false,
                ),
                cnter == visit_sum(s, done),
                cnter <= 998001 * done.len(),
                done.len() <= 32 * i + t,
            decreases 32 - t,
        {
            proof {
                lemma_block_bounds(end as int, mis as int, nblocks as int, i as int, t as int);
            }
            let q = mis + BLOCK * i + t;
            if b[q] == CHAR_M {
                let pos = BLOCK * i + t;
                let v = handle_m(b, pos);
                proof {
                    let ghost old_done = done;
                    done = done.push(pos as int);
                    assert(done.drop_last() =~= old_done);
                    assert(done =~= blocks_visits(s, mis as int, i as int, false) + block_visits(
                        s,
                        mis as int,
                        i as int,
                        t + 1,
                        false,
                    ));
                }
                cnter = cnter + v as u128;
            }
            t = t + 1;
        }
        i = i + 1;
    }
    let mut j: usize = 0;
    while j < mis
        invariant
            s == b@,
            end == b.len() - 4,
            mis < 32,
            mis <= end,
            nblocks == (end - mis) / 32,
            j <= mis,
            done == blocks_visits(s, mis as int, nblocks as int, false) + span(0, j as int),
            cnter == visit_sum(s, done),
            cnter <= 998001 * done.len(),
            done.len() <= 32 * nblocks + j,
        decreases mis - j,
    {
        let v = handle_m(b, j);
        proof {
            let ghost old_done = done;
            done = done.push(j as int);
            assert(done.drop_last() =~= old_done);
            assert(done =~= blocks_visits(s, mis as int, nblocks as int, false) + span(0, j + 1));
        }
        cnter = cnter + v as u128;
        j = j + 1;
    }
    proof {
        lemma_tail_start(b.len() as int);
        lemma_block_count(end as int, mis as int, nblocks as int);
    }
    let mut k: usize = end - end % BLOCK;
    while k < end
        invariant
            s == b@,
            end == b.len() - 4,
            mis < 32,
            mis <= end,
            nblocks == (end - mis) / 32,
            32 * nblocks <= end,
            tail_start(s.len() as int) <= k <= end,
            done == blocks_visits(s, mis as int, nblocks as int, false) + span(0, mis as int)
                + span(tail_start(s.len() as int), k as int),
            cnter == visit_sum(s, done),
            cnter <= 998001 * done.len(),
            done.len() <= 32 * nblocks + mis + k,
        decreases end - k,
    {
        let v = handle_m(b, k);
        proof {
            let ghost old_done = done;
            done = done.push(k as int);
            assert(done.drop_last() =~= old_done);
            assert(done =~= blocks_visits(s, mis as int, nblocks as int, false) + span(0, mis as int)
                + span(tail_start(s.len() as int), k + 1));
        }
        cnter = cnter + v as u128;
        k = k + 1;
    }
    proof {
        assert(done =~= part1_visits(s, mis as int));
    }
    cnter as i32
}

/// Visits position `p`: the running sum `sum` and switch `on` after it.
fn gate_visit(b: &[u8], sum: u128, on: bool, p: usize) -> (r: (u128, bool))
    requires
        p + 4 <= b.len(),
        sum <= u128::MAX - 998001,
    ensures
        (r.0 as int, r.1) == gate_step(b@, (sum as int, on), p as int),
        r.0 <= sum + 998001,
{
    if b[p] == CHAR_M {
        if on {
            (sum + handle_m(b, p) as u128, on)
        } else {
            (sum, on)
        }
    } else {
        match handle_d(b, p) {
            Some(x) => (sum, x),
            None => (sum, on),
        }
    }
}

/// Part two's scan of the text `input`, which starts `misalignment` bytes
/// before a 32-byte boundary: the first `misalignment` positions are read,
/// then the blocks of 32 bytes from the boundary on are searched for `m`
/// and `d`, each hit read at its offset within the blocks counted from the
/// start of the text, then the positions of the tail.
pub fn part2_unsafe(input: &str, misalignment: usize) -> (r: i32)
    requires
        misalignment < 32,
        input.spec_bytes().len() >= 4 + misalignment,
        visit_run(
            input.spec_bytes(),
            (0, true),
            part2_visits(input.spec_bytes(), misalignment as int),
        ).0 <= i32::MAX,
    ensures
        r == visit_run(
            input.spec_bytes(),
            (0, true),
            part2_visits(input.spec_bytes(), misalignment as int),
        ).0,
{
    let b = input.as_bytes();
    let ghost s = b@;
    let mis = misalignment;
    let end = b.len() - 4;
    let nblocks = (end - mis) / BLOCK;
    let mut cnter: u128 = 0;
    let mut toggle: bool = true;
    let ghost mut done: Seq<int> = Seq::empty();
    let mut j: usize = 0;
    while j < mis
        invariant
            s == b@,
            end == b.len() - 4,
            mis < 32,
            mis <= end,
            j <= mis,
            done == span(0, j as int),
            (cnter as int, toggle) == visit_run(s, (0, true), done),
            cnter <= 998001 * done.len(),
            done.len() <= j,
        decreases mis - j,
    {
        let r = gate_visit(b, cnter, toggle, j);
        proof {
            let ghost old_done = done;
            done = done.push(j as int);
            assert(done.drop_last() =~= old_done);
            assert(done =~= span(0, j + 1));
        }
        cnter = r.0;
        toggle = r.1;
        j = j + 1;
    }
    let mut i: usize = 0;
    while i < nblocks
        invariant
            s == b@,
            end == b.len() - 4,
            mis < 32,
            mis <= end,
            nblocks == (end - mis) / 32,
            i <= nblocks,
            done == span(0, mis as int) + blocks_visits(s, mis as int, i as int, true),
            (cnter as int, toggle) == visit_run(s, (0, true), done),
            cnter <= 998001 * done.len(),
            done.len() <= mis + 32 * i,
        decreases nblocks - i,
    {
        let mut t: usize = 0;
        while t < BLOCK
            invariant
                s == b@,
                end == b.len() - 4,
                mis < 32,
                mis <= end,
                nblocks == (end - mis) / 32,
                i < nblocks,
                t <= 32,
                done == span(0, mis as int) + blocks_visits(s, mis as int, i as int, true)
                    + block_visits(s, mis as int, i as int, t as int, true),
                (cnter as int, toggle) == visit_run(s, (0, true), done),
                cnter <= 998001 * done.len(),
                done.len() <= mis + 32 * i + t,
            decreases 32 - t,
        {
            proof {
                lemma_block_bounds(end as int, mis as int, nblocks as int, i as int, t as int);
            }
            let q = mis + BLOCK * i + t;
            if b[q] == CHAR_M || b[q] == CHAR_D {
                let pos = BLOCK * i + t;
                let r = gate_visit(b, cnter, toggle, pos);
                proof {
                    let ghost old_done = done;
                    done = done.push(pos as int);
                    assert(done.drop_last() =~= old_done);
                    assert(done =~= span(0, mis as int) + blocks_visits(s, mis as int, i as int, true)
                        + block_visits(s, mis as int, i as int, t + 1, true));
                }
                cnter = r.0;
                toggle = r.1;
            }
            t = t + 1;
        }
        proof {
            assert(span(0, mis as int) + blocks_visits(s, mis as int, i + 1, true) =~= span(
                0,
                mis as int,
            ) + blocks_visits(s, mis as int, i as int, true) + block_visits(
                s,
                mis as int,
                i as int,
                32,
                true,
            ));
        }
        i = i + 1;
    }
    proof {
        lemma_tail_start(b.len() as int);
        lemma_block_count(end as int, mis as int, nblocks as int);
    }
    let mut k: usize = end - end % BLOCK;
    while k < end
        invariant
            s == b@,
            end == b.len() - 4,
            mis < 32,
            mis <= end,
            nblocks == (end - mis) / 32,
            32 * nblocks <= end,
            tail_start(s.len() as int) <= k <= end,
            done == span(0, mis as int) + blocks_visits(s, mis as int, nblocks as int, true) + span(
                tail_start(s.len() as int),
                k as int,
            ),
            (cnter as int, toggle) == visit_run(s, (0, true), done),
            cnter <= 998001 * done.len(),
            done.len() <= 32 * nblocks + mis + k,
        decreases end - k,
    {
        let r = gate_visit(b, cnter, toggle, k);
        proof {
            let ghost old_done = done;
            done = done.push(k as int);
            assert(done.drop_last() =~= old_done);
            assert(done =~= span(0, mis as int) + blocks_visits(s, mis as int, nblocks as int, true)
                + span(tail_start(s.len() as int), k + 1));
        }
        cnter = r.0;
        toggle = r.1;
        k = k + 1;
    }
    proof {
        assert(done =~= part2_visits(s, mis as int));
    }
    cnter as i32
}

proof fn lemma_visit_sum_concat(s: Seq<u8>, a: Seq<int>, b: Seq<int>)
    ensures
        visit_sum(s, a + b) == visit_sum(s, a) + visit_sum(s, b),
    decreases b.len(),
{
    if b.len() == 0 {
        assert(a + b =~= a);
    } else {
        assert((a + b).drop_last() =~= a + b.drop_last());
        lemma_visit_sum_concat(s, a, b.drop_last());
    }
}

proof fn lemma_visit_run_concat(s: Seq<u8>, st: (int, bool), a: Seq<int>, b: Seq<int>)
    ensures
        visit_run(s, st, a + b) == visit_run(s, visit_run(s, st, a), b),
    decreases b.len(),
{
    if b.len() == 0 {
        assert(a + b =~= a);
    } else {
        assert((a + b).drop_last() =~= a + b.drop_last());
        lemma_visit_run_concat(s, st, a, b.drop_last());
    }
}

proof fn lemma_span_sum(s: Seq<u8>, lo: int, hi: int)
    requires
        0 <= lo <= hi,
    ensures
        visit_sum(s, span(lo, hi)) == mul_total(s, hi) - mul_total(s, lo),
    decreases hi - lo,
{
    if hi > lo {
        assert(span(lo, hi).drop_last() =~= span(lo, hi - 1));
        lemma_span_sum(s, lo, hi - 1);
    } else {
        assert(span(lo, hi).len() == 0);
    }
}

proof fn lemma_span_run(s: Seq<u8>, lo: int, hi: int)
    requires
        0 <= lo <= hi,
    ensures
        visit_run(s, gated_total(s, lo), span(lo, hi)) == gated_total(s, hi),
    decreases hi - lo,
{
    if hi > lo {
        assert(span(lo, hi).drop_last() =~= span(lo, hi - 1));
        lemma_span_run(s, lo, hi - 1);
    } else {
        assert(span(lo, hi).len() == 0);
    }
}

proof fn lemma_aligned_block(s: Seq<u8>, i: int, k: int)
    requires
        0 <= i,
        0 <= k <= 32,
        32 * i + k <= s.len(),
    ensures
        visit_sum(s, block_visits(s, 0, i, k, false)) == mul_total(s, 32 * i + k) - mul_total(
            s,
            32 * i,
        ),
        visit_run(s, gated_total(s, 32 * i), block_visits(s, 0, i, k, true)) == gated_total(
            s,
            32 * i + k,
        ),
    decreases k,
{
    if k > 0 {
        lemma_aligned_block(s, i, k - 1);
        let q = 32 * i + k - 1;
        assert(0 + 32 * i + k - 1 == q);
        let v = block_visits(s, 0, i, k - 1, false);
        if is_target(s[q], false) {
            assert(v.push(q).drop_last() =~= v);
        }
        let w = block_visits(s, 0, i, k - 1, true);
        if is_target(s[q], true) {
            assert(w.push(q).drop_last() =~= w);
        }
    }
}

proof fn lemma_aligned_blocks(s: Seq<u8>, n: int)
    requires
        0 <= n,
        32 * n <= s.len(),
    ensures
        visit_sum(s, blocks_visits(s, 0, n, false)) == mul_total(s, 32 * n),
        visit_run(s, (0, true), blocks_visits(s, 0, n, true)) == gated_total(s, 32 * n),
    decreases n,
{
    if n > 0 {
        lemma_aligned_blocks(s, n - 1);
        lemma_aligned_block(s, n - 1, 32);
        lemma_visit_sum_concat(s, blocks_visits(s, 0, n - 1, false), block_visits(s, 0, n - 1, 32, false));
        lemma_visit_run_concat(
            s,
            (0, true),
            blocks_visits(s, 0, n - 1, true),
            block_visits(s, 0, n - 1, 32, true),
        );
    }
}

/// For a text that starts on a 32-byte boundary, part one's scan reads
/// every position below `len - 4`: its sum is the sum of all the
/// instructions there.
pub proof fn law_aligned_part1_scan(s: Seq<u8>)
    requires
        s.len() >= 4,
    ensures
        visit_sum(s, part1_visits(s, 0)) == mul_total(s, s.len() - 4),
{
    let len = s.len() as int;
    lemma_tail_start(len);
    let n = block_count(len, 0);
    lemma_aligned_blocks(s, n);
    let c = blocks_visits(s, 0, n, false);
    lemma_visit_sum_concat(s, c, span(0, 0));
    lemma_visit_sum_concat(s, c + span(0, 0), span(tail_start(len), len - 4));
    lemma_span_sum(s, 0, 0);
    lemma_span_sum(s, tail_start(len), len - 4);
}

/// For a text that starts on a 32-byte boundary, part two's scan reads
/// the positions below `len - 4` to the same effect as reading every one
/// of them in order.
pub proof fn law_aligned_part2_scan(s: Seq<u8>)
    requires
        s.len() >= 4,
    ensures
        visit_run(s, (0, true), part2_visits(s, 0)) == gated_total(s, s.len() - 4),
{
    let len = s.len() as int;
    lemma_tail_start(len);
    let n = block_count(len, 0);
    lemma_aligned_blocks(s, n);
    let c = blocks_visits(s, 0, n, true);
    assert(span(0, 0) + c =~= c);
    lemma_visit_run_concat(s, (0, true), c, span(tail_start(len), len - 4));
    lemma_span_run(s, tail_start(len), len - 4);
}

/// Part one for a text that starts on a 32-byte boundary: the sum of all
/// the instructions in `input`.
pub fn part1(input: &str) -> (r: i32)
    requires
        input.spec_bytes().len() >= 4,
        mul_total(input.spec_bytes(), input.spec_bytes().len() - 4) <= i32::MAX,
    ensures
        r == visit_sum(input.spec_bytes(), part1_visits(input.spec_bytes(), 0)),
        r == mul_total(input.spec_bytes(), input.spec_bytes().len() - 4),
{
    proof {
        law_aligned_part1_scan(input.spec_bytes());
    }
    part1_unsafe(input, 0)
}

/// Part two for a text that starts on a 32-byte boundary: the sum of the
/// instructions in `input` that are switched on, the switch starting on and
/// following each `do()` and `don't()`.
pub fn part2(input: &str) -> (r: i32)
    requires
        input.spec_bytes().len() >= 4,
        gated_total(input.spec_bytes(), input.spec_bytes().len() - 4).0 <= i32::MAX,
    ensures
        r == visit_run(input.spec_bytes(), (0, true), part2_visits(input.spec_bytes(), 0)).0,
        r == gated_total(input.spec_bytes(), input.spec_bytes().len() - 4).0,
{
    proof {
        law_aligned_part2_scan(input.spec_bytes());
    }
    part2_unsafe(input, 0)
}

/// Switching instructions off only ever drops some: the gated sum over any
/// positions is at most the sum of all the instructions there.
pub proof fn law_gated_total_at_most_total(s: Seq<u8>, n: int)
    ensures
        gated_total(s, n).0 <= mul_total(s, n),
    decreases n,
{
    if n > 0 {
        law_gated_total_at_most_total(s, n - 1);
        lemma_mul_at_nonneg(s, n - 1);
    }
}

/// Where no `don't()` stands among the positions, every instruction stays
/// switched on: the gated sum is the plain sum.
pub proof fn law_without_dont_all_count(s: Seq<u8>, n: int)
    requires
        forall|i: int| 0 <= i < n ==> #[trigger] switch_at(s, i) != Some(false),
    ensures
        gated_total(s, n) == (mul_total(s, n), true),
    decreases n,
{
    if n > 0 {
        assert(switch_at(s, n - 1) != Some(false));
        law_without_dont_all_count(s, n - 1);
    }
}

/// Part two's sum is never negative.
pub proof fn law_gated_total_nonneg(s: Seq<u8>, n: int)
    ensures
        gated_total(s, n).0 >= 0,
    decreases n,
{
    if n > 0 {
        law_gated_total_nonneg(s, n - 1);
        lemma_mul_at_nonneg(s, n - 1);
    }
}

proof fn lemma_digit_run_extend(s: Seq<u8>, t: Seq<u8>, j: int)
    requires
        0 <= j,
        j + digit_run(s, j) < s.len(),
    ensures
        digit_run(s + t, j) == digit_run(s, j),
    decreases s.len() - j,
{
    lemma_digit_run_digits(s, j + 1);
    if is_digit(s[j]) {
        lemma_digit_run_extend(s, t, j + 1);
    }
}

/// An instruction found in `s` is found the same in any text that starts
/// with `s`.
proof fn lemma_mul_at_extend(s: Seq<u8>, t: Seq<u8>, i: int)
    ensures
        mul_at(s, i) <= mul_at(s + t, i),
{
    lemma_mul_at_nonneg(s, i);
    lemma_mul_at_nonneg(s + t, i);
    if mul_at(s, i) != 0 {
        let j = i + 4;
        let k1 = digit_run(s, j);
        let c = j + k1;
        let k2 = digit_run(s, c + 1);
        let e = c + 1 + k2;
        lemma_digit_run_extend(s, t, j);
        lemma_digit_run_extend(s, t, c + 1);
        assert((s + t).subrange(j, c) =~= s.subrange(j, c));
        assert((s + t).subrange(c + 1, e) =~= s.subrange(c + 1, e));
    }
}

proof fn lemma_mul_total_extend(s: Seq<u8>, t: Seq<u8>, n: int)
    ensures
        mul_total(s, n) <= mul_total(s + t, n),
    decreases n,
{
    if n > 0 {
        lemma_mul_total_extend(s, t, n - 1);
        lemma_mul_at_extend(s, t, n - 1);
    }
}

proof fn lemma_mul_total_grows(s: Seq<u8>, m: int, n: int)
    requires
        m <= n,
    ensures
        mul_total(s, m) <= mul_total(s, n),
    decreases n - m,
{
    if m < n {
        lemma_mul_total_grows(s, m, n - 1);
        lemma_mul_at_nonneg(s, n - 1);
    }
}

/// Appending text never takes an instruction away: part one's sum for a
/// text is at most its sum for any longer text that starts with it.
pub proof fn law_append_keeps_instructions(s: Seq<u8>, t: Seq<u8>)
    requires
        s.len() >= 4,
    ensures
        mul_total(s, s.len() - 4) <= mul_total(s + t, (s + t).len() - 4),
{
    lemma_mul_total_extend(s, t, s.len() - 4);
    lemma_mul_total_grows(s + t, s.len() - 4, (s + t).len() - 4);
}

proof fn lemma_run_window_k(s: Seq<u8>, w: Seq<u8>, i: int, j: int, k: int)
    requires
        0 <= i <= j,
        0 <= k,
        j + k <= i + w.len(),
        i + w.len() <= s.len(),
        forall|q: int| 0 <= q < w.len() ==> #[trigger] w[q] == s[i + q],
    ensures
        digit_run(s, j) < k ==> digit_run(w, j - i) == digit_run(s, j),
        digit_run(s, j) >= k ==> digit_run(w, j - i) >= k,
    decreases k,
{
    lemma_digit_run_digits(s, j);
    lemma_digit_run_digits(w, j - i);
    if k > 0 {
        assert(w[j - i] == s[i + (j - i)]);
        if is_digit(s[j]) {
            lemma_run_window_k(s, w, i, j + 1, k - 1);
        }
    }
}

/// Within a window of `s` that starts at `i`, a run of digits reads the
/// same, unless it is at least four digits long either way.
proof fn lemma_run_window(s: Seq<u8>, w: Seq<u8>, i: int, j: int)
    requires
        0 <= i <= j <= i + w.len(),
        i + w.len() <= s.len(),
        i + w.len() == s.len() || j + 4 <= i + w.len(),
        forall|q: int| 0 <= q < w.len() ==> #[trigger] w[q] == s[i + q],
    ensures
        digit_run(w, j - i) == digit_run(s, j) || (digit_run(w, j - i) >= 4 && digit_run(s, j) >= 4),
{
    lemma_digit_run_digits(s, j);
    lemma_digit_run_digits(w, j - i);
    if j + 4 <= i + w.len() {
        lemma_run_window_k(s, w, i, j, 4);
    } else {
        lemma_run_window_k(s, w, i, j, i + w.len() - j);
    }
}

/// The instruction at position `i` depends only on the at most 20 bytes
/// from `i` on.
pub proof fn law_mul_reads_twenty_bytes(s: Seq<u8>, i: int)
    requires
        0 <= i,
        i + 4 <= s.len(),
    ensures
        mul_at(s, i) == mul_at(
            s.subrange(
                i,
                if s.len() < i + 20 {
                    s.len() as int
                } else {
                    i + 20
                },
            ),
            0,
        ),
{
    let hi = if s.len() < i + 20 {
        s.len() as int
    } else {
        i + 20
    };
    let w = s.subrange(i, hi);
    assert forall|q: int| 0 <= q < w.len() implies #[trigger] w[q] == s[i + q] by {}
    let j = i + 4;
    lemma_run_window(s, w, i, j);
    let k1 = digit_run(s, j);
    let c = j + k1;
    if 1 <= k1 <= 3 {
        if c + 1 <= hi {
            lemma_run_window(s, w, i, c + 1);
            let k2 = digit_run(s, c + 1);
            let e = c + 1 + k2;
            if 1 <= k2 <= 3 && e < hi {
                assert(w.subrange(j - i, c - i) =~= s.subrange(j, c));
                assert(w.subrange(c + 1 - i, e - i) =~= s.subrange(c + 1, e));
            }
        }
    }
}

/// `s` holds `don't()` at position `i` with at least one byte after it.
pub open spec fn dont_at(s: Seq<u8>, i: int) -> bool {
    0 <= i && i + 7 < s.len() && s[i] == 100u8 && s[i + 1] == 111u8 && s[i + 2] == 110u8 && s[i
        + 3] == 39u8 && s[i + 4] == 116u8 && s[i + 5] == 40u8 && s[i + 6] == 41u8
}

/// `s` holds `do()` at position `i` with at least one byte after it.
pub open spec fn do_at(s: Seq<u8>, i: int) -> bool {
    0 <= i && i + 4 < s.len() && s[i] == 100u8 && s[i + 1] == 111u8 && s[i + 2] == 40u8 && s[i
        + 3] == 41u8
}

/// A `don't()` switches the instructions after it off, whatever the switch
/// was, and a `do()` switches them on; the sum is left as it was.
pub proof fn law_switch_sets_state(s: Seq<u8>, st: (int, bool), i: int)
    ensures
        dont_at(s, i) ==> gate_step(s, st, i) == (st.0, false),
        do_at(s, i) ==> gate_step(s, st, i) == (st.0, true),
{
}

/// After a `don't()` at position `i` the switch is off, and after a
/// `do()` it is on, however the positions before were read.
pub proof fn law_switch_after_position(s: Seq<u8>, i: int)
    requires
        0 <= i,
    ensures
        dont_at(s, i) ==> !gated_total(s, i + 1).1,
        do_at(s, i) ==> gated_total(s, i + 1).1,
        dont_at(s, i) || do_at(s, i) ==> gated_total(s, i + 1).0 == gated_total(s, i).0,
{
    law_switch_sets_state(s, gated_total(s, i), i);
}

/// The value of the `k` decimal digits from position `j`, for `k` of 1 to 3.
pub open spec fn digits_value(s: Seq<u8>, j: int, k: int) -> int {
    if k == 1 {
        s[j] - 48
    } else if k == 2 {
        10 * (s[j] - 48) + (s[j + 1] - 48)
    } else {
        100 * (s[j] - 48) + 10 * (s[j + 1] - 48) + (s[j + 2] - 48)
    }
}

/// Position `i` of `s` holds `mul(`, `k1` digits, a comma, `k2` digits
/// and a closing parenthesis, with `k1` and `k2` of 1 to 3.
pub open spec fn mul_shaped(s: Seq<u8>, i: int, k1: int, k2: int) -> bool {
    &&& 0 <= i
    &&& 1 <= k1 <= 3
    &&& 1 <= k2 <= 3
    &&& i + 5 + k1 + k2 < s.len()
    &&& s[i] == 109u8 && s[i + 1] == 117u8 && s[i + 2] == 108u8 && s[i + 3] == 40u8
    &&& forall|q: int| i + 4 <= q < i + 4 + k1 ==> 48 <= #[trigger] s[q] <= 57
    &&& s[i + 4 + k1] == 44u8
    &&& forall|q: int| i + 5 + k1 <= q < i + 5 + k1 + k2 ==> 48 <= #[trigger] s[q] <= 57
    &&& s[i + 5 + k1 + k2] == 41u8
}

proof fn lemma_decimal_digits(s: Seq<u8>, j: int, k: int)
    requires
        0 <= j,
        1 <= k <= 3,
        j + k <= s.len(),
    ensures
        decimal(s.subrange(j, j + k)) == digits_value(s, j, k),
{
    let d1 = s.subrange(j, j + 1);
    assert(d1.drop_last() =~= Seq::<u8>::empty());
    assert(decimal(Seq::<u8>::empty()) == 0);
    assert(d1.last() == s[j]);
    assert(decimal(d1) == s[j] - 48);
    if k >= 2 {
        let d2 = s.subrange(j, j + 2);
        assert(d2.drop_last() =~= d1);
        assert(decimal(d2) == decimal(d1) * 10 + (s[j + 1] - 48));
        if k == 3 {
            let d3 = s.subrange(j, j + 3);
            assert(d3.drop_last() =~= d2);
            assert(decimal(d3) == decimal(d2) * 10 + (s[j + 2] - 48));
        }
    }
}

proof fn lemma_run_ends(s: Seq<u8>, j: int, k: int)
    requires
        0 <= j,
        0 <= k,
        j + k < s.len(),
        forall|q: int| j <= q < j + k ==> 48 <= #[trigger] s[q] <= 57,
        !(48 <= s[j + k] <= 57),
    ensures
        digit_run(s, j) == k,
{
    lemma_digit_run_prefix(s, j, k);
}

/// A well-formed `mul(X,Y)` at position `i` yields exactly `X * Y`.
pub proof fn law_well_formed_mul_yields_product(s: Seq<u8>, i: int, k1: int, k2: int)
    requires
        mul_shaped(s, i, k1, k2),
    ensures
        mul_at(s, i) == digits_value(s, i + 4, k1) * digits_value(s, i + 5 + k1, k2),
{
    lemma_run_ends(s, i + 4, k1);
    lemma_run_ends(s, i + 5 + k1, k2);
    lemma_decimal_digits(s, i + 4, k1);
    lemma_decimal_digits(s, i + 5 + k1, k2);
}

/// Only a well-formed `mul(X,Y)` yields anything: where position `i`
/// yields a nonzero amount, it holds `mul(`, one to three digits, a comma,
/// one to three digits and `)`, and the amount is the product of the two
/// numbers.
pub proof fn law_only_well_formed_mul_counts(s: Seq<u8>, i: int)
    requires
        mul_at(s, i) != 0,
    ensures
        exists|k1: int, k2: int|
            #[trigger] mul_shaped(s, i, k1, k2) && mul_at(s, i) == digits_value(s, i + 4, k1)
                * digits_value(s, i + 5 + k1, k2),
{
    let j = i + 4;
    let k1 = digit_run(s, j);
    let c = j + k1;
    let k2 = digit_run(s, c + 1);
    lemma_digit_run_digits(s, j);
    lemma_digit_run_digits(s, c + 1);
    assert(mul_shaped(s, i, k1, k2));
    law_well_formed_mul_yields_product(s, i, k1, k2);
}

} // verus!
