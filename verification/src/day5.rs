//! Day 5: page ordering rules `XX|YY`, one per line, read into tables of
//! which pages must come after (and before) which.

use vstd::prelude::*;
use vstd::string::StringSliceAdditionalSpecFns;
use crate::day2::{is_digit, NUM_0, NUM_9, NEWL};

verus! {

pub const BAR: u8 = 124;

pub const COMMA: u8 = 44;

/// The length of one rule `XX|YY` with its newline.
pub const RULE_LEN: usize = 6;

/// The rule at index `i` of `s` is shaped `__|__` and ends in a newline.
pub open spec fn rule_shaped(s: Seq<u8>, i: int) -> bool {
    &&& 0 <= i
    &&& RULE_LEN * i + RULE_LEN <= s.len()
    &&& s[RULE_LEN * i + 2] == BAR
    &&& s[RULE_LEN * i + 5] == NEWL
}

/// The number of shaped rules in a row from index `i` on.
pub open spec fn shaped_rules_from(s: Seq<u8>, i: int) -> int
    decreases s.len() - RULE_LEN * i,
{
    if rule_shaped(s, i) {
        1 + shaped_rules_from(s, i + 1)
    } else {
        0
    }
}

/// The number of rules that open `s`: those before the first line that is
/// not shaped like a rule.
pub open spec fn rule_count(s: Seq<u8>) -> int {
    shaped_rules_from(s, 0)
}

/// The two-digit number at position `j`.
pub open spec fn two_digits(s: Seq<u8>, j: int) -> int {
    10 * (s[j] - NUM_0) + (s[j + 1] - NUM_0)
}

/// The rule at index `i`: its page before the bar and its page after.
pub open spec fn rule_at(s: Seq<u8>, i: int) -> (int, int) {
    (two_digits(s, RULE_LEN * i), two_digits(s, RULE_LEN * i + 3))
}

/// The rules that open `s`.
pub open spec fn rules(s: Seq<u8>) -> Seq<(int, int)> {
    Seq::new(rule_count(s) as nat, |i: int| rule_at(s, i))
}

/// Every page number of the rules that open `s` is two digits.
pub open spec fn rules_numeric(s: Seq<u8>) -> bool {
    forall|i: int, k: int|
        0 <= i < rule_count(s) && (k == 0 || k == 1 || k == 3 || k == 4) ==> is_digit(
            #[trigger] s[RULE_LEN * i + k],
        )
}

/// Some rule among the first `k` of `rs` orders page `x` before page `y`.
pub open spec fn has_rule(rs: Seq<(int, int)>, k: int, x: int, y: int) -> bool
    decreases k,
{
    k > 0 && (has_rule(rs, k - 1, x, y) || rs[k - 1] == (x, y))
}

/// Some rule among the first `k` of `rs` puts a page before page `y`.
pub open spec fn has_rule_to(rs: Seq<(int, int)>, k: int, y: int) -> bool
    decreases k,
{
    k > 0 && (has_rule_to(rs, k - 1, y) || rs[k - 1].1 == y)
}

/// Bit `y` of `v` is set.
pub open spec fn bit(v: u128, y: u128) -> bool {
    (v >> y) & 1u128 == 1u128
}

proof fn lemma_shaped_rules_bound(s: Seq<u8>, i: int)
    requires
        0 <= i,
    ensures
        0 <= shaped_rules_from(s, i),
        RULE_LEN * (i + shaped_rules_from(s, i)) <= s.len() || shaped_rules_from(s, i) == 0,
        forall|k: int| i <= k < i + shaped_rules_from(s, i) ==> #[trigger] rule_shaped(s, k),
        !rule_shaped(s, i + shaped_rules_from(s, i)),
    decreases s.len() - RULE_LEN * i,
{
    if rule_shaped(s, i) {
        lemma_shaped_rules_bound(s, i + 1);
    }
}

/// Reads the rules that open `b`.
pub fn read_rules(b: &[u8]) -> (rs: Vec<(u8, u8)>)
    requires
        rules_numeric(b@),
    ensures
        rs.len() == rule_count(b@),
        forall|i: int| 0 <= i < rs.len() ==> (#[trigger] rs@[i].0 as int, rs@[i].1 as int) == rule_at(b@, i),
        forall|i: int| 0 <= i < rs.len() ==> #[trigger] rs@[i].0 < 100 && rs@[i].1 < 100,
{
    let mut rs: Vec<(u8, u8)> = Vec::new();
    let mut p: usize = 0;
    proof {
        lemma_shaped_rules_bound(b@, 0);
    }
    while p <= b.len() && b.len() - p >= RULE_LEN && b[p + 2] == BAR && b[p + 5] == NEWL
        invariant
            rules_numeric(b@),
            p == RULE_LEN * rs.len(),
            rs.len() <= rule_count(b@),
            forall|k: int| 0 <= k < rule_count(b@) ==> #[trigger] rule_shaped(b@, k),
            !rule_shaped(b@, rule_count(b@)),
            forall|i: int| 0 <= i < rs.len() ==> (#[trigger] rs@[i].0 as int, rs@[i].1 as int) == rule_at(b@, i),
            forall|i: int| 0 <= i < rs.len() ==> #[trigger] rs@[i].0 < 100 && rs@[i].1 < 100,
        decreases b.len() - p,
    {
        let ghost i = rs.len() as int;
        proof {
            assert(rule_shaped(b@, i));
            if i == rule_count(b@) {
                assert(false);
            }
            assert(is_digit(b@[RULE_LEN * i + 0]));
            assert(is_digit(b@[RULE_LEN * i + 1]));
            assert(is_digit(b@[RULE_LEN * i + 3]));
            assert(is_digit(b@[RULE_LEN * i + 4]));
        }
        let x: u8 = 10 * (b[p] - NUM_0) + (b[p + 1] - NUM_0);
        let y: u8 = 10 * (b[p + 3] - NUM_0) + (b[p + 4] - NUM_0);
        rs.push((x, y));
        p = p + RULE_LEN;
    }
    proof {
        if rs.len() < rule_count(b@) {
            assert(rule_shaped(b@, rs.len() as int));
        }
    }
    rs
}

proof fn lemma_set_bit(v: u128, b: u128, y: u128)
    requires
        b < 128,
        y < 128,
    ensures
        bit(v | (1u128 << b), y) == (bit(v, y) || y == b),
{
    assert(((v | (1u128 << b)) >> y) & 1u128 == 1u128 <==> (((v >> y) & 1u128 == 1u128) || y == b))
        by (bit_vector)
        requires
            b < 128,
            y < 128,
    ;
}

proof fn lemma_zero_bits(y: u128)
    requires
        y < 128,
    ensures
        !bit(0u128, y),
{
    assert((0u128 >> y) & 1u128 != 1u128) by (bit_vector);
}

/// The rule tables of `rs`: in `gt[x]` bit `y` is set when some rule puts
/// page `x` before page `y`; in `lt[y]` bit `y` is set when some rule puts
/// a page before page `y`.
pub fn rule_tables(rs: &Vec<(u8, u8)>) -> (tables: (Vec<u128>, Vec<u128>))
    requires
        forall|i: int| 0 <= i < rs.len() ==> #[trigger] rs@[i].0 < 128 && rs@[i].1 < 128,
    ensures
        tables.0.len() == 128,
        tables.1.len() == 128,
        forall|x: int, y: int|
            0 <= x < 128 && 0 <= y < 128 ==> (#[trigger] bit(tables.0@[x], y as u128) <==> has_rule(
                pairs(rs@),
                rs.len() as int,
                x,
                y,
            )),
        forall|x: int, y: int|
            0 <= x < 128 && 0 <= y < 128 ==> (#[trigger] bit(tables.1@[x], y as u128) <==> (x == y
                && has_rule_to(pairs(rs@), rs.len() as int, y))),
{
    let mut gt: Vec<u128> = Vec::new();
    let mut lt: Vec<u128> = Vec::new();
    let mut k: usize = 0;
    while k < 128
        invariant
            k <= 128,
            gt.len() == k,
            lt.len() == k,
            forall|q: int| 0 <= q < k ==> #[trigger] gt@[q] == 0u128,
            forall|q: int| 0 <= q < k ==> #[trigger] lt@[q] == 0u128,
        decreases 128 - k,
    {
        gt.push(0);
        lt.push(0);
        k = k + 1;
    }
    let ghost ps = pairs(rs@);
    proof {
        assert forall|x: int, y: int| 0 <= x < 128 && 0 <= y < 128 implies !#[trigger] bit(gt@[x], y as u128) by {
            lemma_zero_bits(y as u128);
        }
        assert forall|x: int, y: int| 0 <= x < 128 && 0 <= y < 128 implies !#[trigger] bit(lt@[x], y as u128) by {
            lemma_zero_bits(y as u128);
        }
    }
    let mut i: usize = 0;
    while i < rs.len()
        invariant
            i <= rs.len(),
            ps == pairs(rs@),
            forall|q: int| 0 <= q < rs.len() ==> #[trigger] rs@[q].0 < 128 && rs@[q].1 < 128,
            gt.len() == 128,
            lt.len() == 128,
            forall|x: int, y: int|
                0 <= x < 128 && 0 <= y < 128 ==> (#[trigger] bit(gt@[x], y as u128) <==> has_rule(
                    ps,
                    i as int,
                    x,
                    y,
                )),
            forall|x: int, y: int|
                0 <= x < 128 && 0 <= y < 128 ==> (#[trigger] bit(lt@[x], y as u128) <==> (x == y
                    && has_rule_to(ps, i as int, y))),
        decreases rs.len() - i,
    {
        let (a, b) = rs[i];
        let ghost old_gt = gt@;
        let ghost old_lt = lt@;
        let ga = gt[a as usize] | (1u128 << (b as u128));
        gt.set(a as usize, ga);
        let lb = lt[b as usize] | (1u128 << (b as u128));
        lt.set(b as usize, lb);
        proof {
            assert(ps[i as int] == (a as int, b as int));
            assert forall|x: int, y: int| 0 <= x < 128 && 0 <= y < 128 implies (#[trigger] bit(gt@[x], y as u128) <==> has_rule(ps, i + 1, x, y)) by {
                if x == a {
                    lemma_set_bit(old_gt[x], b as u128, y as u128);
                }
            }
            assert forall|x: int, y: int| 0 <= x < 128 && 0 <= y < 128 implies (#[trigger] bit(lt@[x], y as u128) <==> (x == y && has_rule_to(ps, i + 1, y))) by {
                if x == b {
                    lemma_set_bit(old_lt[x], b as u128, y as u128);
                }
            }
        }
        i = i + 1;
    }
    (gt, lt)
}

/// The rules `rs` with their pages as integers.
pub open spec fn pairs(rs: Seq<(u8, u8)>) -> Seq<(int, int)> {
    rs.map_values(|r: (u8, u8)| (r.0 as int, r.1 as int))
}

/// Part one as far as it goes: the low 32 bits of the table of page 0,
/// that is bit `y` set for each rule `00|y` with `y` below 32.
pub fn part1(input: &str) -> (r: u32)
    requires
        rules_numeric(input.spec_bytes()),
    ensures
        forall|y: u32| y < 32 ==> (#[trigger] ((r >> y) & 1u32) == 1u32 <==> has_rule(
            rules(input.spec_bytes()),
            rule_count(input.spec_bytes()),
            0,
            y as int,
        )),
{
    let b = input.as_bytes();
    let rs = read_rules(b);
    let (gt, _lt) = rule_tables(&rs);
    let g: u128 = gt[0];
    let r: u32 = (g & 0xffff_ffffu128) as u32;
    proof {
        assert(pairs(rs@) =~= rules(b@));
        assert forall|y: u32| y < 32 implies (#[trigger] ((r >> y) & 1u32) == 1u32 <==> bit(g, y as u128)) by {
            assert(y < 32 ==> (((((g & 0xffff_ffffu128) as u32) >> y) & 1u32) == 1u32 <==> ((g >> (y as u128)) & 1u128) == 1u128)) by (bit_vector);
        }
        assert forall|y: u32| y < 32 implies (bit(g, y as u128) <==> has_rule(rules(b@), rule_count(b@), 0, y as int)) by {
            assert(bit(gt@[0], y as u128) <==> has_rule(pairs(rs@), rs.len() as int, 0, y as int));
        }
    }
    r
}

/// Position `p + 3 * k + 2`, where the `k`-th number's comma belongs, holds one.
pub open spec fn comma_at(s: Seq<u8>, p: int, k: int) -> bool {
    0 <= p + 3 * k + 2 < s.len() && s[p + 3 * k + 2] == COMMA
}

/// The number of two-digit numbers in a row, each followed by a comma,
/// from position `p` on, counting from the `i`-th and stopping at ten.
pub open spec fn listed_from(s: Seq<u8>, p: int, i: int) -> int
    decreases 10 - i,
{
    if 0 <= p && 0 <= i < 10 && comma_at(s, p, i) {
        1 + listed_from(s, p, i + 1)
    } else {
        0
    }
}

proof fn lemma_listed_from(s: Seq<u8>, p: int, i: int)
    requires
        0 <= i <= 10,
        0 <= p,
    ensures
        0 <= listed_from(s, p, i) <= 10 - i,
        forall|k: int| i <= k < i + listed_from(s, p, i) ==> #[trigger] comma_at(s, p, k),
    decreases 10 - i,
{
    if 0 <= i < 10 && comma_at(s, p, i) {
        lemma_listed_from(s, p, i + 1);
    }
}

/// Reads up to ten comma-terminated two-digit numbers from position `*p`
/// of `b` into `out`, moves `*p` past them and returns how many there were.
pub fn read10(b: &[u8], p: &mut usize, out: &mut [u8]) -> (n: u32)
    requires
        *old(p) <= b.len(),
        old(out)@.len() >= listed_from(b@, *old(p) as int, 0),
        forall|i: int, k: int|
            0 <= i < listed_from(b@, *old(p) as int, 0) && 0 <= k < 2 ==> is_digit(
                #[trigger] b@[*old(p) + 3 * i + k],
            ),
    ensures
        n == listed_from(b@, *old(p) as int, 0),
        *final(p) == *old(p) + 3 * n,
        final(out)@.len() == old(out)@.len(),
        forall|i: int| 0 <= i < n ==> #[trigger] final(out)@[i] == two_digits(b@, *old(p) + 3 * i),
        forall|i: int| n <= i < old(out)@.len() ==> #[trigger] final(out)@[i] == old(out)@[i],
{
    let start = *p;
    proof {
        lemma_listed_from(b@, start as int, 0);
    }
    let mut n: usize = 0;
    while n < 10 && b.len() - start > 3 * n + 2 && b[start + 3 * n + 2] == COMMA
        invariant
            start == *old(p),
            start <= b.len(),
            n <= 10,
            n <= listed_from(b@, start as int, 0),
            listed_from(b@, start as int, 0) <= 10,
            forall|k: int| 0 <= k < listed_from(b@, start as int, 0) ==> #[trigger] comma_at(b@, start as int, k),
            forall|i: int, k: int|
                0 <= i < listed_from(b@, start as int, 0) && 0 <= k < 2 ==> is_digit(
                    #[trigger] b@[start + 3 * i + k],
                ),
            out@.len() == old(out)@.len(),
            old(out)@.len() >= listed_from(b@, start as int, 0),
            forall|i: int| 0 <= i < n ==> #[trigger] out@[i] == two_digits(b@, start + 3 * i),
            forall|i: int| n <= i < old(out)@.len() ==> #[trigger] out@[i] == old(out)@[i],
        decreases 10 - n,
    {
        proof {
            lemma_listed_prefix(b@, start as int, n as int);
            assert(is_digit(b@[start + 3 * n + 0]));
            assert(is_digit(b@[start + 3 * n + 1]));
        }
        let v: u8 = 10 * (b[start + 3 * n] - NUM_0) + (b[start + 3 * n + 1] - NUM_0);
        out[n] = v;
        n = n + 1;
    }
    proof {
        if n < listed_from(b@, start as int, 0) {
            assert(comma_at(b@, start as int, n as int));
        }
        if n > 0 {
            assert(comma_at(b@, start as int, n - 1));
        }
    }
    *p = start + 3 * n;
    n as u32
}

/// Every count of commas found so far that is below the full count has
/// its next number inside the list.
proof fn lemma_listed_prefix(s: Seq<u8>, p: int, n: int)
    requires
        0 <= p,
        0 <= n,
        n < 10,
        comma_at(s, p, n),
        forall|k: int| 0 <= k < n ==> #[trigger] comma_at(s, p, k),
    ensures
        n < listed_from(s, p, 0),
{
    lemma_listed_step(s, p, 0, n);
}

proof fn lemma_listed_step(s: Seq<u8>, p: int, i: int, n: int)
    requires
        0 <= p,
        0 <= i <= n,
        n < 10,
        comma_at(s, p, n),
        forall|k: int| i <= k < n ==> #[trigger] comma_at(s, p, k),
    ensures
        n - i < listed_from(s, p, i),
    decreases n - i,
{
    lemma_listed_from(s, p, i + 1);
    if i < n {
        assert(comma_at(s, p, i));
        lemma_listed_step(s, p, i + 1, n);
    }
}

/// The six bytes at index `k` are a rule line: a bar at offset 2 and a
/// newline at offset 5.
pub open spec fn rule_line_at(s: Seq<u8>, k: int) -> bool {
    0 <= 6 * k && 6 * k + 6 <= s.len() && s[6 * k + 2] == 124u8 && s[6 * k + 5] == 10u8
}

proof fn lemma_rules_counted_from(s: Seq<u8>, i: int, n: int)
    requires
        0 <= i <= n,
        forall|k: int| 0 <= k < n ==> #[trigger] rule_line_at(s, k),
        !rule_line_at(s, n),
    ensures
        shaped_rules_from(s, i) == n - i,
    decreases n - i,
{
    if i < n {
        assert(rule_line_at(s, i));
        lemma_rules_counted_from(s, i + 1, n);
    } else {
        assert(!rule_shaped(s, n));
    }
}

/// Every leading rule line is read: when the first `n` six-byte lines of
/// `s` are rules and the next is not, there are exactly `n` rules.
pub proof fn law_all_leading_rules_are_read(s: Seq<u8>, n: int)
    requires
        0 <= n,
        forall|k: int| 0 <= k < n ==> #[trigger] rule_line_at(s, k),
        !rule_line_at(s, n),
    ensures
        rule_count(s) == n,
{
    lemma_rules_counted_from(s, 0, n);
}

/// However many rules lead the text, each one of them is read: the rule
/// count is at least the number of leading rule lines.
pub proof fn law_rule_count_covers_rule_lines(s: Seq<u8>, n: int)
    requires
        0 <= n,
        forall|k: int| 0 <= k < n ==> #[trigger] rule_line_at(s, k),
    ensures
        rule_count(s) >= n,
    decreases s.len() - 6 * n,
{
    if rule_line_at(s, n) {
        assert forall|k: int| 0 <= k < n + 1 implies #[trigger] rule_line_at(s, k) by {}
        law_rule_count_covers_rule_lines(s, n + 1);
    } else {
        law_all_leading_rules_are_read(s, n);
    }
}

} // verus!
