//! Day 2: reports of levels, one report per line, levels separated by
//! non-digit bytes. A report is safe when its levels all move in one
//! direction by steps of one to three.

use vstd::prelude::*;
use vstd::string::StringSliceAdditionalSpecFns;

verus! {

/// The byte `'0'`.
pub const NUM_0: u8 = 48;

/// The byte `'9'`.
pub const NUM_9: u8 = 57;

/// The newline byte.
pub const NEWL: u8 = 10;

pub open spec fn is_digit(b: u8) -> bool {
    NUM_0 <= b <= NUM_9
}

/// The lines of `s`, split at every newline byte. The last element is what
/// follows the last newline (empty when `s` ends with one).
pub open spec fn lines(s: Seq<u8>) -> Seq<Seq<u8>>
    decreases s.len(),
{
    if s.len() == 0 {
        seq![Seq::<u8>::empty()]
    } else {
        let ls = lines(s.drop_last());
        if s.last() == NEWL {
            ls.push(Seq::<u8>::empty())
        } else {
            ls.update(ls.len() - 1, ls.last().push(s.last()))
        }
    }
}

/// The fields of a line: every non-digit byte ends a field and starts the
/// next, and a field's value is the decimal number its digits spell (0 for
/// a field without digits).
pub open spec fn fields(l: Seq<u8>) -> Seq<int>
    decreases l.len(),
{
    if l.len() == 0 {
        seq![0int]
    } else {
        let f = fields(l.drop_last());
        let b = l.last();
        if is_digit(b) {
            f.update(f.len() - 1, f.last() * 10 + (b - NUM_0))
        } else {
            f.push(0int)
        }
    }
}

/// The fields of the line that `s` ends in.
pub open spec fn current_fields(s: Seq<u8>) -> Seq<int> {
    fields(lines(s).last())
}

/// No number of `s`, read as far as any prefix of `s` goes, exceeds `i32::MAX`.
pub open spec fn numbers_fit(s: Seq<u8>) -> bool {
    forall|k: int| 0 <= k <= s.len() ==> #[trigger] current_fields(s.take(k)).last() <= i32::MAX
}

/// Field `k` of `f`, or 0 past its end.
pub open spec fn field_at(f: Seq<int>, k: int) -> int {
    if 0 <= k < f.len() {
        f[k]
    } else {
        0
    }
}

pub open spec fn sign(x: int) -> int {
    if x > 0 {
        1
    } else if x < 0 {
        -1
    } else {
        0
    }
}

pub open spec fn magnitude(x: int) -> int {
    if x < 0 {
        -x
    } else {
        x
    }
}

/// A difference `d` between neighbouring levels is acceptable in direction
/// `dir` when it has that sign and a magnitude of one to three.
pub open spec fn step_ok(d: int, dir: int) -> bool {
    sign(d) == dir && 0 < magnitude(d) < 4
}

/// The step from level `i` to level `i + 1` of `f` is acceptable in direction `dir`.
pub open spec fn step_ok_at(f: Seq<int>, i: int, dir: int) -> bool {
    step_ok(field_at(f, i) - field_at(f, i + 1), dir)
}

/// The first `n` levels of `f` are safe: every step between them goes in the
/// direction of the first step (levels 0 and 1) by one to three.
pub open spec fn report_safe(f: Seq<int>, n: int) -> bool {
    let dir = sign(field_at(f, 0) - field_at(f, 1));
    forall|i: int| 0 <= i < n - 1 ==> #[trigger] step_ok_at(f, i, dir)
}

/// The number of lines of `ls` whose report is safe.
pub open spec fn safe_lines(ls: Seq<Seq<u8>>) -> int
    decreases ls.len(),
{
    if ls.len() == 0 {
        0
    } else {
        let f = fields(ls.last());
        safe_lines(ls.drop_last()) + if report_safe(f, f.len() as int) {
            1int
        } else {
            0int
        }
    }
}

/// What a last line without a newline adds: its levels but the last one are
/// checked, and only when it has more than one level.
pub open spec fn unterminated_safe(l: Seq<u8>) -> int {
    let f = fields(l);
    if f.len() > 1 && report_safe(f, f.len() - 1) {
        1
    } else {
        0
    }
}

/// The answer of the first part: the number of safe reports of `s`.
pub open spec fn safe_report_count(s: Seq<u8>) -> int {
    safe_lines(lines(s).drop_last()) + unterminated_safe(lines(s).last())
}

/// The direction a report is taken to go in when one bad level may be
/// tolerated: the sign shared by two of its first three steps, or 0 when
/// no two of them agree.
pub open spec fn tolerant_dir(f: Seq<int>) -> int {
    let x = sign(field_at(f, 0) - field_at(f, 1));
    let y = sign(field_at(f, 1) - field_at(f, 2));
    let z = sign(field_at(f, 2) - field_at(f, 3));
    if x == y {
        x
    } else if y == z {
        y
    } else if z == x {
        z
    } else {
        0
    }
}

/// The indices `i < m` whose step from level `i` to level `i + 1` is not
/// acceptable in direction `dir`, in increasing order.
pub open spec fn bad_steps(f: Seq<int>, dir: int, m: int) -> Seq<int>
    decreases m,
{
    if m <= 0 {
        Seq::<int>::empty()
    } else {
        let b = bad_steps(f, dir, m - 1);
        if step_ok_at(f, m - 1, dir) {
            b
        } else {
            b.push(m - 1)
        }
    }
}

/// The first `n` levels of `f` pass when one bad level may be tolerated:
/// with no bad step; with one bad step at either end, or whose level can be
/// bridged from its left or right neighbour; or with two adjacent bad
/// steps that skipping their shared level bridges.
pub open spec fn report_tolerable(f: Seq<int>, n: int) -> bool {
    let dir = tolerant_dir(f);
    let bad = bad_steps(f, dir, n - 1);
    if bad.len() == 0 {
        true
    } else if bad.len() == 1 {
        let v = bad[0];
        v == 0 || v == n - 2 || step_ok(field_at(f, v) - field_at(f, v + 2), dir) || step_ok(
            field_at(f, v - 1) - field_at(f, v + 1),
            dir,
        )
    } else if bad.len() == 2 {
        bad[1] - bad[0] == 1 && step_ok(field_at(f, bad[0]) - field_at(f, bad[0] + 2), dir)
    } else {
        false
    }
}

/// The number of lines of `ls` whose report passes when one bad level may
/// be tolerated.
pub open spec fn tolerable_lines(ls: Seq<Seq<u8>>) -> int
    decreases ls.len(),
{
    if ls.len() == 0 {
        0
    } else {
        let f = fields(ls.last());
        tolerable_lines(ls.drop_last()) + if report_tolerable(f, f.len() as int) {
            1int
        } else {
            0int
        }
    }
}

/// What a last line without a newline adds in part two.
pub open spec fn unterminated_tolerable(l: Seq<u8>) -> int {
    let f = fields(l);
    if f.len() > 1 && report_tolerable(f, f.len() - 1) {
        1
    } else {
        0
    }
}

/// The answer of the second part: the number of reports of `s` that pass
/// when one bad level may be tolerated.
pub open spec fn tolerable_report_count(s: Seq<u8>) -> int {
    tolerable_lines(lines(s).drop_last()) + unterminated_tolerable(lines(s).last())
}

/// Before each byte of `s`, the line that byte stands in has at most 16
/// fields so far.
pub open spec fn reports_fit(s: Seq<u8>) -> bool {
    forall|k: int| 0 <= k < s.len() ==> #[trigger] current_fields(s.take(k)).len() <= 16
}

/// At most 16 levels, or a 17th level that is 0 after them.
pub open spec fn levels_fit(f: Seq<int>) -> bool {
    f.len() <= 16 || (f.len() == 17 && f[16] == 0)
}

/// The values of `v` as integers.
pub open spec fn ints(v: Seq<i32>) -> Seq<int> {
    v.map_values(|x: i32| x as int)
}

pub proof fn lemma_lines_nonempty(s: Seq<u8>)
    ensures
        lines(s).len() >= 1,
    decreases s.len(),
{
    if s.len() > 0 {
        lemma_lines_nonempty(s.drop_last());
    }
}

pub proof fn lemma_fields_nonempty(l: Seq<u8>)
    ensures
        fields(l).len() >= 1,
        forall|k: int| 0 <= k < fields(l).len() ==> #[trigger] fields(l)[k] >= 0,
    decreases l.len(),
{
    if l.len() > 0 {
        lemma_fields_nonempty(l.drop_last());
    }
}

/// How the lines of `s` grow by one byte `b`.
proof fn lemma_lines_push(s: Seq<u8>, b: u8)
    ensures
        lines(s).len() >= 1,
        b == NEWL ==> lines(s.push(b)).drop_last() == lines(s),
        b == NEWL ==> lines(s.push(b)).last() == Seq::<u8>::empty(),
        b != NEWL ==> lines(s.push(b)).drop_last() == lines(s).drop_last(),
        b != NEWL ==> lines(s.push(b)).last() == lines(s).last().push(b),
{
    lemma_lines_nonempty(s);
    assert(s.push(b).drop_last() =~= s);
    let ls = lines(s);
    if b != NEWL {
        assert(ls.update(ls.len() - 1, ls.last().push(b)).drop_last() =~= ls.drop_last());
    }
}

/// How the fields of a line grow by one byte `b`.
proof fn lemma_fields_push(l: Seq<u8>, b: u8)
    ensures
        fields(l).len() >= 1,
        fields(l.push(b)) == if is_digit(b) {
            fields(l).update(fields(l).len() - 1, fields(l).last() * 10 + (b - NUM_0))
        } else {
            fields(l).push(0int)
        },
{
    lemma_fields_nonempty(l);
    assert(l.push(b).drop_last() =~= l);
}

/// The acceptance test of one step between neighbouring levels `a` and `b`.
pub fn check_pair(a: i32, b: i32, dir: i32) -> (r: bool)
    ensures
        r == step_ok(a - b, dir as int),
{
    let diff: i64 = a as i64 - b as i64;
    let sig: i64 = if diff > 0 {
        1
    } else if diff < 0 {
        -1
    } else {
        0
    };
    let abs: i64 = if diff < 0 {
        -diff
    } else {
        diff
    };
    sig == dir as i64 && abs > 0 && abs < 4
}

/// Whether the first `n` levels of `f` form a safe report.
fn report_is_safe(f: &Vec<i32>, n: usize) -> (r: bool)
    requires
        1 <= n <= f.len(),
    ensures
        r == report_safe(ints(f@), n as int),
{
    let ghost g = ints(f@);
    let second: i32 = if f.len() > 1 {
        f[1]
    } else {
        0
    };
    let dir: i32 = if f[0] > second {
        1
    } else if f[0] < second {
        -1
    } else {
        0
    };
    assert(dir == sign(field_at(g, 0) - field_at(g, 1)));
    let mut i: usize = 0;
    while i < n - 1
        invariant
            1 <= n <= f.len(),
            i <= n - 1,
            g == ints(f@),
            dir == sign(field_at(g, 0) - field_at(g, 1)),
            forall|k: int| 0 <= k < i ==> #[trigger] step_ok_at(g, k, dir as int),
        decreases n - 1 - i,
    {
        if !check_pair(f[i], f[i + 1], dir) {
            assert(!step_ok_at(g, i as int, dir as int));
            return false;
        }
        i = i + 1;
    }
    true
}

/// The bad steps below `m` are below `m`, strictly increasing, and those
/// below any `m0 <= m` are a prefix of them.
proof fn lemma_bad_steps(f: Seq<int>, dir: int, m0: int, m: int)
    requires
        0 <= m0 <= m,
    ensures
        forall|k: int| 0 <= k < bad_steps(f, dir, m).len() ==> 0 <= #[trigger] bad_steps(f, dir, m)[k] < m,
        forall|k1: int, k2: int|
            0 <= k1 < k2 < bad_steps(f, dir, m).len() ==> bad_steps(f, dir, m)[k1] < bad_steps(
                f,
                dir,
                m,
            )[k2],
        bad_steps(f, dir, m0).len() <= bad_steps(f, dir, m).len(),
        bad_steps(f, dir, m0) == bad_steps(f, dir, m).take(bad_steps(f, dir, m0).len() as int),
    decreases m,
{
    if m > 0 {
        if m0 == m {
            lemma_bad_steps(f, dir, m - 1, m - 1);
            assert(bad_steps(f, dir, m).take(bad_steps(f, dir, m).len() as int) =~= bad_steps(f, dir, m));
        } else {
            lemma_bad_steps(f, dir, m0, m - 1);
            let b = bad_steps(f, dir, m - 1);
            assert(b.push(m - 1).take(b.len() as int) =~= b);
            assert(bad_steps(f, dir, m0) =~= bad_steps(f, dir, m).take(bad_steps(f, dir, m0).len() as int));
        }
    } else {
        assert(bad_steps(f, dir, m).take(0) =~= bad_steps(f, dir, m0));
    }
}

/// `p2in`'s sign of the difference of two levels.
fn sign_of_diff(a: i32, b: i32) -> (r: i32)
    ensures
        r == sign(a - b),
{
    if a > b {
        1
    } else if a < b {
        -1
    } else {
        0
    }
}

/// Part two's test of one report: the first `*len_b` levels of `*arr_b`
/// pass when one bad level may be tolerated.
pub fn p2in(len_b: &usize, arr_b: &[i32; 16]) -> (r: bool)
    requires
        1 <= *len_b <= 16,
    ensures
        r == report_tolerable(ints(arr_b@), *len_b as int),
{
    let arr = *arr_b;
    let len = *len_b;
    let ghost g = ints(arr@);
    let a = sign_of_diff(arr[0], arr[1]);
    let b = sign_of_diff(arr[1], arr[2]);
    let c = sign_of_diff(arr[2], arr[3]);
    let dir: i32 = if a == b {
        a
    } else if b == c {
        b
    } else if c == a {
        c
    } else {
        0
    };
    assert(dir == tolerant_dir(g));
    let mut violations: usize = 0;
    let mut v0: usize = 0;
    let mut v1: usize = 0;
    let mut i: usize = 0;
    while i < len - 1
        invariant
            1 <= len <= 16,
            len == *len_b,
            arr@ == arr_b@,
            g == ints(arr@),
            dir == tolerant_dir(g),
            i <= len - 1,
            violations == bad_steps(g, dir as int, i as int).len(),
            violations < 3,
            violations >= 1 ==> v0 == bad_steps(g, dir as int, i as int)[0],
            violations >= 2 ==> v1 == bad_steps(g, dir as int, i as int)[1],
        decreases len - 1 - i,
    {
        proof {
            lemma_bad_steps(g, dir as int, i as int, i + 1);
        }
        if !check_pair(arr[i], arr[i + 1], dir) {
            assert(!step_ok_at(g, i as int, dir as int));
            if violations == 0 {
                v0 = i;
            } else if violations == 1 {
                v1 = i;
            }
            violations = violations + 1;
            if violations >= 3 {
                proof {
                    lemma_bad_steps(g, dir as int, i + 1, len - 1);
                }
                return false;
            }
        }
        i = i + 1;
    }
    proof {
        lemma_bad_steps(g, dir as int, len - 1, len - 1);
    }
    if violations == 1 {
        if v0 == 0 || v0 == len - 2 {
            return true;
        }
        return check_pair(arr[v0], arr[v0 + 2], dir) || check_pair(arr[v0 - 1], arr[v0 + 1], dir);
    }
    if violations == 2 {
        if v1 != v0 + 1 {
            return false;
        }
        return check_pair(arr[v0], arr[v0 + 2], dir);
    }
    true
}

/// Adds the byte `c`, not a newline, to `cur`, the fields of the line `l`.
fn extend_fields(cur: &mut Vec<i32>, c: u8, Ghost(l): Ghost<Seq<u8>>)
    requires
        c != NEWL,
        ints(old(cur)@) == fields(l),
        fields(l.push(c)).last() <= i32::MAX,
    ensures
        ints(final(cur)@) == fields(l.push(c)),
        final(cur).len() >= 1,
{
    proof {
        lemma_fields_push(l, c);
        lemma_fields_nonempty(l);
    }
    let ghost old_f = fields(l);
    let ghost nf = fields(l.push(c));
    if c >= NUM_0 && c <= NUM_9 {
        let last = cur.len() - 1;
        proof {
            assert(old_f[old_f.len() - 1] >= 0);
        }
        let v: i64 = cur[last] as i64 * 10 + (c - NUM_0) as i64;
        let ghost before = cur@;
        cur.set(last, v as i32);
        proof {
            assert forall|k: int| 0 <= k < cur@.len() implies ints(cur@)[k] == nf[k] by {
                if k != last {
                    assert(ints(before)[k] == old_f[k]);
                } else {
                    assert(nf[k] == nf.last());
                }
            }
            assert(ints(cur@) =~= nf);
        }
    } else {
        cur.push(0);
        proof {
            assert(ints(cur@) =~= nf);
        }
    }
}

/// Reports whose levels agree everywhere (reading 0 past their ends) pass
/// the tolerant test alike.
proof fn lemma_tolerable_same_levels(f: Seq<int>, g: Seq<int>, n: int)
    requires
        forall|k: int| #[trigger] field_at(f, k) == field_at(g, k),
    ensures
        report_tolerable(f, n) == report_tolerable(g, n),
        tolerant_dir(f) == tolerant_dir(g),
{
    assert(field_at(f, 0) == field_at(g, 0) && field_at(f, 1) == field_at(g, 1));
    assert(field_at(f, 2) == field_at(g, 2) && field_at(f, 3) == field_at(g, 3));
    let dir = tolerant_dir(f);
    lemma_bad_steps_same_levels(f, g, dir, n - 1);
}

proof fn lemma_bad_steps_same_levels(f: Seq<int>, g: Seq<int>, dir: int, m: int)
    requires
        forall|k: int| #[trigger] field_at(f, k) == field_at(g, k),
    ensures
        bad_steps(f, dir, m) == bad_steps(g, dir, m),
    decreases m,
{
    if m > 0 {
        lemma_bad_steps_same_levels(f, g, dir, m - 1);
        assert(field_at(f, m - 1) == field_at(g, m - 1) && field_at(f, m) == field_at(g, m));
    }
}

/// The levels of `f` in a 16-slot array, the slots past its end zero.
fn pad16(f: &Vec<i32>) -> (arr: [i32; 16])
    requires
        levels_fit(ints(f@)),
    ensures
        forall|k: int| #[trigger] field_at(ints(arr@), k) == field_at(ints(f@), k),
{
    let mut arr: [i32; 16] = [0i32; 16];
    let mut k: usize = 0;
    while k < f.len() && k < 16
        invariant
            levels_fit(ints(f@)),
            k <= f.len(),
            k <= 16,
            forall|q: int| 0 <= q < k ==> #[trigger] arr@[q] == f@[q],
            forall|q: int| k <= q < 16 ==> #[trigger] arr@[q] == 0,
        decreases f.len() - k,
    {
        arr[k] = f[k];
        k = k + 1;
    }
    proof {
        assert forall|q: int| #[trigger] field_at(ints(arr@), q) == field_at(ints(f@), q) by {
            if 0 <= q < 16 {
                if q >= f.len() {
                    assert(arr@[q] == 0);
                }
            }
            if q == 16 && f.len() == 17 {
                assert(ints(f@)[16] == 0);
            }
        }
    }
    arr
}


proof fn lemma_no_bad_steps(f: Seq<int>, dir: int, m: int)
    requires
        forall|i: int| 0 <= i < m ==> #[trigger] step_ok_at(f, i, dir),
    ensures
        bad_steps(f, dir, m).len() == 0,
    decreases m,
{
    if m > 0 {
        assert(step_ok_at(f, m - 1, dir));
        lemma_no_bad_steps(f, dir, m - 1);
    }
}

/// Every report that is safe also passes when one bad level may be
/// tolerated.
pub proof fn law_safe_report_is_tolerable(f: Seq<int>, n: int)
    requires
        n >= 1,
        report_safe(f, n),
    ensures
        report_tolerable(f, n),
{
    let d = sign(field_at(f, 0) - field_at(f, 1));
    if n >= 3 {
        assert(step_ok_at(f, 0, d));
        assert(step_ok_at(f, 1, d));
        assert(tolerant_dir(f) == d);
        lemma_no_bad_steps(f, d, n - 1);
    } else if n == 2 {
        let dir = tolerant_dir(f);
        assert(bad_steps(f, dir, 0).len() == 0);
        let b = bad_steps(f, dir, 1);
        if b.len() == 1 {
            assert(b[0] == 0);
        }
    }
}

proof fn lemma_safe_lines_le_tolerable_lines(ls: Seq<Seq<u8>>)
    ensures
        safe_lines(ls) <= tolerable_lines(ls),
    decreases ls.len(),
{
    if ls.len() > 0 {
        lemma_safe_lines_le_tolerable_lines(ls.drop_last());
        let f = fields(ls.last());
        lemma_fields_nonempty(ls.last());
        if report_safe(f, f.len() as int) {
            law_safe_report_is_tolerable(f, f.len() as int);
        }
    }
}

/// Part two never counts fewer reports than part one: tolerating a bad
/// level only ever adds reports.
pub proof fn law_part2_counts_at_least_part1(s: Seq<u8>)
    ensures
        safe_report_count(s) <= tolerable_report_count(s),
{
    lemma_lines_nonempty(s);
    lemma_safe_lines_le_tolerable_lines(lines(s).drop_last());
    let f = fields(lines(s).last());
    if f.len() > 1 && report_safe(f, f.len() - 1) {
        law_safe_report_is_tolerable(f, f.len() - 1);
    }
}

/// `s` is empty or ends in a newline: every report it holds is complete.
pub open spec fn ends_at_line_break(s: Seq<u8>) -> bool {
    s.len() == 0 || s.last() == NEWL
}

proof fn lemma_lines_concat(s: Seq<u8>, t: Seq<u8>)
    requires
        ends_at_line_break(s),
    ensures
        lines(s + t) == lines(s).drop_last() + lines(t),
    decreases t.len(),
{
    lemma_lines_nonempty(s);
    if t.len() == 0 {
        assert(s + t =~= s);
        if s.len() > 0 {
            assert(s.drop_last().push(s.last()) =~= s);
            lemma_lines_push(s.drop_last(), s.last());
        }
        assert(lines(s) =~= lines(s).drop_last() + lines(t));
    } else {
        let t1 = t.drop_last();
        let b = t.last();
        lemma_lines_concat(s, t1);
        assert(t1.push(b) =~= t);
        assert((s + t1).push(b) =~= s + t);
        lemma_lines_push(s + t1, b);
        lemma_lines_push(t1, b);
        lemma_lines_nonempty(t1);
        let p = lines(s).drop_last();
        let l1 = lines(t1);
        if b == NEWL {
            assert((p + l1).push(Seq::<u8>::empty()) =~= p + l1.push(Seq::<u8>::empty()));
        } else {
            assert((p + l1).drop_last() =~= p + l1.drop_last());
            lemma_lines_nonempty(s + t);
            lemma_lines_nonempty(t);
            let x = lines(s + t);
            let y = p + lines(t);
            assert(y.drop_last() =~= p + lines(t).drop_last());
            assert(x.drop_last() =~= y.drop_last());
            assert(x.last() == y.last());
            assert(x =~= x.drop_last().push(x.last()));
            assert(y =~= y.drop_last().push(y.last()));
        }
    }
}

proof fn lemma_line_counts_concat(a: Seq<Seq<u8>>, b: Seq<Seq<u8>>)
    ensures
        safe_lines(a + b) == safe_lines(a) + safe_lines(b),
        tolerable_lines(a + b) == tolerable_lines(a) + tolerable_lines(b),
    decreases b.len(),
{
    if b.len() == 0 {
        assert(a + b =~= a);
    } else {
        assert((a + b).drop_last() =~= a + b.drop_last());
        lemma_line_counts_concat(a, b.drop_last());
    }
}

/// A text that ends in a newline resets every report: the safe reports of
/// its concatenation with another text are those of each text.
pub proof fn law_safe_count_adds_over_line_breaks(s: Seq<u8>, t: Seq<u8>)
    requires
        ends_at_line_break(s),
    ensures
        safe_report_count(s + t) == safe_report_count(s) + safe_report_count(t),
{
    lemma_count_split(s, t);
}

/// A text that ends in a newline resets every report: the tolerable
/// reports of its concatenation with another text are those of each text.
pub proof fn law_tolerable_count_adds_over_line_breaks(s: Seq<u8>, t: Seq<u8>)
    requires
        ends_at_line_break(s),
    ensures
        tolerable_report_count(s + t) == tolerable_report_count(s) + tolerable_report_count(t),
{
    lemma_count_split(s, t);
}

proof fn lemma_count_split(s: Seq<u8>, t: Seq<u8>)
    requires
        ends_at_line_break(s),
    ensures
        safe_report_count(s + t) == safe_report_count(s) + safe_report_count(t),
        tolerable_report_count(s + t) == tolerable_report_count(s) + tolerable_report_count(t),
{
    lemma_lines_concat(s, t);
    lemma_lines_nonempty(s);
    lemma_lines_nonempty(t);
    let p = lines(s).drop_last();
    let lt = lines(t);
    assert((p + lt).drop_last() =~= p + lt.drop_last());
    assert((p + lt).last() == lt.last());
    lemma_line_counts_concat(p, lt.drop_last());
    // the last line of `s` is empty
    if s.len() > 0 {
        assert(s.drop_last().push(s.last()) =~= s);
        lemma_lines_push(s.drop_last(), s.last());
    }
    assert(lines(s).last() == Seq::<u8>::empty());
    assert(fields(Seq::<u8>::empty()) == seq![0int]);
}

/// The first `n` levels of `f` are safe, or become safe when one of them
/// is removed.
pub open spec fn dampened_safe(f: Seq<int>, n: int) -> bool {
    report_safe(f, n) || exists|j: int|
        0 <= j < n && #[trigger] report_safe(f.take(n).remove(j), n - 1)
}

/// The difference between levels `k` and `k + 1` once level `j` is removed.
pub open spec fn removed_diff(f: Seq<int>, j: int, k: int) -> int {
    if k + 1 < j {
        field_at(f, k) - field_at(f, k + 1)
    } else if k + 1 == j {
        field_at(f, k) - field_at(f, k + 2)
    } else {
        field_at(f, k + 1) - field_at(f, k + 2)
    }
}

proof fn lemma_removed_step(f: Seq<int>, n: int, j: int, k: int, d: int)
    requires
        0 <= j < n <= f.len(),
        0 <= k < n - 2,
    ensures
        step_ok_at(f.take(n).remove(j), k, d) == step_ok(removed_diff(f, j, k), d),
{
    let h = f.take(n).remove(j);
    assert(h.len() == n - 1);
    assert(field_at(h, k) == if k < j { field_at(f, k) } else { field_at(f, k + 1) });
    assert(field_at(h, k + 1) == if k + 1 < j { field_at(f, k + 1) } else { field_at(f, k + 2) });
}

proof fn lemma_bad_steps_exact(f: Seq<int>, d: int, m: int)
    ensures
        forall|k: int| 0 <= k < bad_steps(f, d, m).len() ==> !#[trigger] step_ok_at(f, bad_steps(f, d, m)[k], d),
        forall|i: int| 0 <= i < m && !#[trigger] step_ok_at(f, i, d) ==> bad_steps(f, d, m).contains(i),
    decreases m,
{
    if m > 0 {
        lemma_bad_steps_exact(f, d, m - 1);
        let b = bad_steps(f, d, m - 1);
        if !step_ok_at(f, m - 1, d) {
            assert(b.push(m - 1)[b.len() as int] == m - 1);
            assert forall|i: int| 0 <= i < m && !#[trigger] step_ok_at(f, i, d) implies bad_steps(f, d, m).contains(i) by {
                if i < m - 1 {
                    let k = choose|k: int| 0 <= k < b.len() && b[k] == i;
                    assert(bad_steps(f, d, m)[k] == i);
                }
            }
        }
    }
}

proof fn lemma_all_ok_safe(h: Seq<int>, m: int, d: int)
    requires
        m >= 2,
        forall|k: int| 0 <= k < m - 1 ==> #[trigger] step_ok_at(h, k, d),
    ensures
        report_safe(h, m),
{
    assert(step_ok_at(h, 0, d));
}

/// Removing the level that `dir_removed` names leaves steps all acceptable
/// in `d`, given which steps of `f` are acceptable.
proof fn lemma_removal_all_ok(f: Seq<int>, n: int, j: int, d: int)
    requires
        4 <= n <= f.len(),
        0 <= j < n,
        forall|i: int| 0 <= i < n - 1 && i != j - 1 && i != j ==> #[trigger] step_ok_at(f, i, d),
        1 <= j <= n - 2 ==> step_ok(field_at(f, j - 1) - field_at(f, j + 1), d),
    ensures
        report_safe(f.take(n).remove(j), n - 1),
{
    let h = f.take(n).remove(j);
    assert forall|k: int| 0 <= k < n - 2 implies #[trigger] step_ok_at(h, k, d) by {
        lemma_removed_step(f, n, j, k, d);
        if k + 1 < j {
            assert(step_ok_at(f, k, d));
        } else if k + 1 == j {
        } else {
            assert(step_ok_at(f, k + 1, d));
        }
    }
    lemma_all_ok_safe(h, n - 1, d);
}

proof fn lemma_tolerable_to_dampened(f: Seq<int>, n: int)
    requires
        4 <= n <= f.len(),
        report_tolerable(f, n),
    ensures
        dampened_safe(f, n),
{
    let d = tolerant_dir(f);
    let bad = bad_steps(f, d, n - 1);
    lemma_bad_steps(f, d, n - 1, n - 1);
    lemma_bad_steps_exact(f, d, n - 1);
    if bad.len() == 0 {
        assert forall|i: int| 0 <= i < n - 1 implies #[trigger] step_ok_at(f, i, d) by {
            if !step_ok_at(f, i, d) {
                assert(bad.contains(i));
            }
        }
        lemma_all_ok_safe(f, n, d);
    } else if bad.len() == 1 {
        let v = bad[0];
        assert forall|i: int| 0 <= i < n - 1 && i != v implies #[trigger] step_ok_at(f, i, d) by {
            if !step_ok_at(f, i, d) {
                assert(bad.contains(i));
            }
        }
        let j = if v == 0 {
            0
        } else if v == n - 2 {
            n - 1
        } else if step_ok(field_at(f, v) - field_at(f, v + 2), d) {
            v + 1
        } else {
            v
        };
        lemma_removal_all_ok(f, n, j, d);
        assert(report_safe(f.take(n).remove(j), n - 1));
    } else {
        let v = bad[0];
        assert(bad.len() == 2);
        assert(bad[1] == v + 1);
        assert forall|i: int| 0 <= i < n - 1 && i != v && i != v + 1 implies #[trigger] step_ok_at(f, i, d) by {
            if !step_ok_at(f, i, d) {
                assert(bad.contains(i));
            }
        }
        lemma_removal_all_ok(f, n, v + 1, d);
        assert(report_safe(f.take(n).remove(v + 1), n - 1));
    }
}

proof fn lemma_dampened_to_tolerable(f: Seq<int>, n: int)
    requires
        4 <= n <= f.len(),
        dampened_safe(f, n),
    ensures
        report_tolerable(f, n),
{
    if report_safe(f, n) {
        law_safe_report_is_tolerable(f, n);
    } else {
        let j = choose|j: int| 0 <= j < n && #[trigger] report_safe(f.take(n).remove(j), n - 1);
        let h = f.take(n).remove(j);
        let dd = sign(field_at(h, 0) - field_at(h, 1));
        assert forall|k: int| 0 <= k < n - 2 implies #[trigger] step_ok(removed_diff(f, j, k), dd) by {
            assert(step_ok_at(h, k, dd));
            lemma_removed_step(f, n, j, k, dd);
        }
        // the steps of `f` away from level `j` are acceptable in `dd`
        assert forall|i: int| 0 <= i < n - 1 && i != j - 1 && i != j implies #[trigger] step_ok_at(f, i, dd) by {
            if i < j - 1 {
                assert(step_ok(removed_diff(f, j, i), dd));
            } else {
                assert(step_ok(removed_diff(f, j, i - 1), dd));
            }
        }
        if 1 <= j <= n - 2 {
            assert(step_ok(removed_diff(f, j, j - 1), dd));
        }
        // the direction the tolerant test settles on is `dd`
        assert(step_ok(removed_diff(f, j, 0), dd));
        assert(step_ok(removed_diff(f, j, 1), dd));
        if j == 0 {
            assert(step_ok_at(f, 1, dd));
            assert(step_ok_at(f, 2, dd));
        } else if j == 1 {
            assert(step_ok_at(f, 2, dd));
        } else if j == 2 {
            assert(step_ok_at(f, 0, dd));
        } else {
            assert(step_ok_at(f, 0, dd));
            assert(step_ok_at(f, 1, dd));
        }
        assert(tolerant_dir(f) == dd);
        let bad = bad_steps(f, dd, n - 1);
        lemma_bad_steps(f, dd, n - 1, n - 1);
        lemma_bad_steps_exact(f, dd, n - 1);
        assert forall|k: int| 0 <= k < bad.len() implies #[trigger] bad[k] == j - 1 || bad[k] == j by {
            assert(!step_ok_at(f, bad[k], dd));
        }
        if bad.len() >= 3 {
            assert(bad[0] < bad[1] && bad[1] < bad[2]);
            assert(false);
        }
        if bad.len() == 2 {
            assert(bad[0] < bad[1]);
            assert(bad[0] == j - 1 && bad[1] == j);
            assert(step_ok(removed_diff(f, j, j - 1), dd));
        }
        if bad.len() == 1 {
            let v = bad[0];
            if v == j - 1 && v != 0 && v != n - 2 {
                assert(step_ok(removed_diff(f, j, j - 1), dd));
            }
            if v == j && v != 0 && v != n - 2 {
                assert(step_ok(removed_diff(f, j, j - 1), dd));
            }
        }
    }
}

/// For four or more levels, the tolerant test of part two passes exactly
/// when the report is safe or becomes safe once one level is removed.
pub proof fn law_tolerable_is_dampened_safe(f: Seq<int>, n: int)
    requires
        4 <= n <= f.len(),
    ensures
        report_tolerable(f, n) == dampened_safe(f, n),
{
    if report_tolerable(f, n) {
        lemma_tolerable_to_dampened(f, n);
    }
    if dampened_safe(f, n) {
        lemma_dampened_to_tolerable(f, n);
    }
}

proof fn lemma_safe_prefix(f: Seq<int>, n: int)
    requires
        2 <= n <= f.len(),
    ensures
        report_safe(f, n) == report_safe(f.take(n), n),
{
    let g = f.take(n);
    assert(field_at(f, 0) == field_at(g, 0) && field_at(f, 1) == field_at(g, 1));
    let d = sign(field_at(f, 0) - field_at(f, 1));
    assert(d == sign(field_at(g, 0) - field_at(g, 1)));
    assert forall|i: int| 0 <= i < n - 1 implies (#[trigger] step_ok_at(f, i, d) <==> #[trigger] step_ok_at(g, i, d)) by {
        assert(field_at(f, i) == field_at(g, i) && field_at(f, i + 1) == field_at(g, i + 1));
    }
    if report_safe(f, n) {
        assert forall|i: int| 0 <= i < n - 1 implies #[trigger] step_ok_at(g, i, d) by {
            assert(step_ok_at(f, i, d));
        }
    }
    if report_safe(g, n) {
        assert forall|i: int| 0 <= i < n - 1 implies #[trigger] step_ok_at(f, i, d) by {
            assert(step_ok_at(g, i, d));
        }
    }
}

proof fn lemma_safe_reverse_one_way(q: Seq<int>)
    requires
        q.len() >= 2,
        report_safe(q, q.len() as int),
    ensures
        report_safe(q.reverse(), q.len() as int),
{
    let m = q.len() as int;
    let r = q.reverse();
    let d = sign(field_at(q, 0) - field_at(q, 1));
    assert(step_ok_at(q, m - 2, d));
    assert(field_at(q, m - 2) == q[m - 2] && field_at(q, m - 1) == q[m - 1]);
    assert(field_at(r, 0) == q[m - 1] && field_at(r, 1) == q[m - 2]);
    assert(sign(field_at(r, 0) - field_at(r, 1)) == -d);
    assert forall|k: int| 0 <= k < m - 1 implies #[trigger] step_ok_at(r, k, -d) by {
        assert(step_ok_at(q, m - 2 - k, d));
        assert(field_at(q, m - 2 - k) == q[m - 2 - k] && field_at(q, m - 1 - k) == q[m - 1 - k]);
        assert(field_at(r, k) == q[m - 1 - k] && field_at(r, k + 1) == q[m - 2 - k]);
    }
}

proof fn lemma_safe_reverse(q: Seq<int>)
    requires
        q.len() >= 2,
    ensures
        report_safe(q, q.len() as int) == report_safe(q.reverse(), q.len() as int),
{
    if report_safe(q, q.len() as int) {
        lemma_safe_reverse_one_way(q);
    }
    if report_safe(q.reverse(), q.len() as int) {
        lemma_safe_reverse_one_way(q.reverse());
        assert(q.reverse().reverse() =~= q);
    }
}

/// For four or more levels, part two's test does not depend on the
/// direction the report is read in.
pub proof fn law_tolerable_reversal(f: Seq<int>, n: int)
    requires
        4 <= n <= f.len(),
    ensures
        report_tolerable(f, n) == report_tolerable(f.take(n).reverse(), n),
{
    let g = f.take(n);
    let r = g.reverse();
    assert(r.take(n) =~= r);
    law_tolerable_is_dampened_safe(f, n);
    law_tolerable_is_dampened_safe(r, n);
    lemma_safe_prefix(f, n);
    lemma_safe_reverse(g);
    assert forall|j: int| 0 <= j < n implies #[trigger] r.take(n).remove(n - 1 - j) =~= g.remove(j).reverse() by {}
    if dampened_safe(f, n) && !report_safe(f, n) {
        let j = choose|j: int| 0 <= j < n && #[trigger] report_safe(f.take(n).remove(j), n - 1);
        assert(r.take(n).remove(n - 1 - j) =~= g.remove(j).reverse());
        lemma_safe_reverse(g.remove(j));
        assert(report_safe(r.take(n).remove(n - 1 - j), n - 1));
    }
    if dampened_safe(r, n) && !report_safe(r, n) {
        let j = choose|j: int| 0 <= j < n && #[trigger] report_safe(r.take(n).remove(j), n - 1);
        let j2 = n - 1 - j;
        assert(r.take(n).remove(n - 1 - j2) =~= g.remove(j2).reverse());
        lemma_safe_reverse(g.remove(j2));
        assert(g.remove(j2).reverse().reverse() =~= g.remove(j2));
        assert(report_safe(f.take(n).remove(j2), n - 1));
    }
}

/// The number of newline bytes in `s`.
pub open spec fn newline_count(s: Seq<u8>) -> int
    decreases s.len(),
{
    if s.len() == 0 {
        0
    } else {
        newline_count(s.drop_last()) + if s.last() == NEWL {
            1int
        } else {
            0int
        }
    }
}

proof fn lemma_newline_count_prefix(s: Seq<u8>, j: int, n: int)
    requires
        0 <= j <= n <= s.len(),
    ensures
        newline_count(s.take(j)) <= newline_count(s.take(n)),
    decreases n - j,
{
    if j < n {
        lemma_newline_count_prefix(s, j, n - 1);
        assert(s.take(n).drop_last() =~= s.take(n - 1));
    }
}

/// Whether the first `n` levels of `f` pass: the safe test, or with
/// `tolerant` the test that tolerates one bad level.
fn report_passes(f: &Vec<i32>, n: usize, tolerant: bool) -> (r: bool)
    requires
        1 <= n <= f.len(),
        tolerant ==> levels_fit(ints(f@)) && n <= 16,
    ensures
        r == if tolerant {
            report_tolerable(ints(f@), n as int)
        } else {
            report_safe(ints(f@), n as int)
        },
{
    if tolerant {
        let arr = pad16(f);
        let ok = p2in(&n, &arr);
        proof {
            lemma_tolerable_same_levels(ints(arr@), ints(f@), n as int);
        }
        ok
    } else {
        report_is_safe(f, n)
    }
}

/// The number of reports in `input` that pass: safe ones, or with
/// `tolerant` those that pass when one bad level is tolerated.
fn count_reports(input: &str, tolerant: bool) -> (valid: i32)
    requires
        newline_count(input.spec_bytes()) < i32::MAX,
        numbers_fit(input.spec_bytes()),
        tolerant ==> reports_fit(input.spec_bytes()),
    ensures
        valid == if tolerant {
            tolerable_report_count(input.spec_bytes())
        } else {
            safe_report_count(input.spec_bytes())
        },
{
    let bs = input.as_bytes();
    let ghost s = bs@;
    let mut cur: Vec<i32> = Vec::new();
    cur.push(0);
    let mut valid: i32 = 0;
    proof {
        assert(s.take(0) =~= Seq::<u8>::empty());
        assert(ints(cur@) =~= seq![0int]);
    }
    let mut j: usize = 0;
    while j < bs.len()
        invariant
            s == bs@,
            s == input.spec_bytes(),
            newline_count(s) < i32::MAX,
            numbers_fit(s),
            tolerant ==> reports_fit(s),
            j <= s.len(),
            cur.len() >= 1,
            ints(cur@) == current_fields(s.take(j as int)),
            tolerant ==> levels_fit(ints(cur@)),
            valid == if tolerant {
                tolerable_lines(lines(s.take(j as int)).drop_last())
            } else {
                safe_lines(lines(s.take(j as int)).drop_last())
            },
            0 <= valid <= newline_count(s.take(j as int)),
        decreases s.len() - j,
    {
        let c = bs[j];
        let ghost t = s.take(j as int);
        proof {
            assert(s.take(j + 1) =~= t.push(c));
            assert(t.push(c).drop_last() =~= t);
            lemma_lines_push(t, c);
            lemma_lines_nonempty(t.push(c));
            lemma_fields_nonempty(lines(t).last());
            lemma_newline_count_prefix(s, j + 1, s.len() as int);
            assert(s.take(s.len() as int) =~= s);
            if tolerant {
                assert(current_fields(t).len() <= 16);
            }
            lemma_fields_push(lines(t).last(), c);
        }
        if c != NEWL {
            proof {
                assert(current_fields(s.take(j + 1)).last() <= i32::MAX);
            }
            extend_fields(&mut cur, c, Ghost(lines(t).last()));
        } else {
            let n = cur.len();
            if report_passes(&cur, n, tolerant) {
                valid = valid + 1;
            }
            cur = Vec::new();
            cur.push(0);
            proof {
                assert(ints(cur@) =~= seq![0int]);
                assert(fields(Seq::<u8>::empty()) == seq![0int]);
            }
        }
        j = j + 1;
    }
    proof {
        assert(s.take(s.len() as int) =~= s);
    }
    if cur.len() > 1 {
        let n = cur.len() - 1;
        if report_passes(&cur, n, tolerant) {
            valid = valid + 1;
        }
    }
    valid
}

/// Part one: the number of safe reports in `input`.
pub fn part1(input: &str) -> (valid: i32)
    requires
        newline_count(input.spec_bytes()) < i32::MAX,
        numbers_fit(input.spec_bytes()),
    ensures
        valid == safe_report_count(input.spec_bytes()),
{
    count_reports(input, false)
}

/// Part two: the number of reports in `input` that pass when one bad level
/// may be tolerated.
pub fn part2(input: &str) -> (valid: i32)
    requires
        newline_count(input.spec_bytes()) < i32::MAX,
        numbers_fit(input.spec_bytes()),
        reports_fit(input.spec_bytes()),
    ensures
        valid == tolerable_report_count(input.spec_bytes()),
{
    count_reports(input, true)
}

/// Every byte of `d` is a digit.
pub open spec fn all_digits(d: Seq<u8>) -> bool {
    forall|q: int| 0 <= q < d.len() ==> 48 <= #[trigger] d[q] <= 57
}

/// No byte of `w` is a newline.
pub open spec fn no_newline(w: Seq<u8>) -> bool {
    forall|q: int| 0 <= q < w.len() ==> #[trigger] w[q] != 10
}

proof fn lemma_lines_append(x: Seq<u8>, w: Seq<u8>)
    requires
        no_newline(w),
    ensures
        lines(x + w).drop_last() == lines(x).drop_last(),
        lines(x + w).last() == lines(x).last() + w,
    decreases w.len(),
{
    lemma_lines_nonempty(x);
    if w.len() == 0 {
        assert(x + w =~= x);
        assert(lines(x).last() + w =~= lines(x).last());
    } else {
        let w1 = w.drop_last();
        assert(no_newline(w1));
        lemma_lines_append(x, w1);
        assert((x + w1).push(w.last()) =~= x + w);
        assert(w.last() != NEWL);
        lemma_lines_push(x + w1, w.last());
        assert((lines(x).last() + w1).push(w.last()) =~= lines(x).last() + w);
    }
}

proof fn lemma_fields_after_separator(l: Seq<u8>, b: u8, d: Seq<u8>)
    requires
        !is_digit(b),
        all_digits(d),
    ensures
        fields(l.push(b) + d).len() == fields(l).len() + 1,
        fields(l.push(b) + d).take(fields(l).len() as int) == fields(l),
    decreases d.len(),
{
    lemma_fields_nonempty(l);
    if d.len() == 0 {
        assert(l.push(b) + d =~= l.push(b));
        lemma_fields_push(l, b);
        assert(fields(l).push(0int).take(fields(l).len() as int) =~= fields(l));
    } else {
        let d1 = d.drop_last();
        assert(all_digits(d1));
        lemma_fields_after_separator(l, b, d1);
        assert((l.push(b) + d1).push(d.last()) =~= l.push(b) + d);
        assert(is_digit(d.last()));
        lemma_fields_push(l.push(b) + d1, d.last());
        let f1 = fields(l.push(b) + d1);
        let n = fields(l).len() as int;
        assert(f1.update(f1.len() - 1, f1.last() * 10 + (d.last() - NUM_0)).take(n) =~= f1.take(n));
    }
}

proof fn lemma_last_level_dropped(q: Seq<u8>, b: u8, d: Seq<u8>)
    requires
        !is_digit(b),
        b != NEWL,
        all_digits(d),
    ensures
        ({
            let g = fields(lines(q).last());
            let f = fields(lines(q.push(b) + d).last());
            &&& lines(q.push(b) + d).drop_last() == lines(q).drop_last()
            &&& f.len() == g.len() + 1
            &&& f.take(g.len() as int) == g
        }),
        lines(q.push(NEWL)).drop_last() == lines(q),
        lines(q.push(NEWL)).last() == Seq::<u8>::empty(),
{
    let w = seq![b] + d;
    assert(q.push(b) + d =~= q + w);
    assert forall|k: int| 0 <= k < w.len() implies #[trigger] w[k] != 10 by {
        if k > 0 {
            assert(w[k] == d[k - 1]);
        }
    }
    lemma_lines_append(q, w);
    assert(lines(q).last() + w =~= lines(q).last().push(b) + d);
    lemma_fields_after_separator(lines(q).last(), b, d);
    lemma_lines_push(q, NEWL);
}

/// A last line without a newline is judged without its last level: the
/// text counts the same safe reports as the text in which a newline
/// stands in place of that last level (the separator before it and its
/// digits).
pub proof fn law_unterminated_last_level_is_skipped(q: Seq<u8>, b: u8, d: Seq<u8>)
    requires
        !(48 <= b <= 57),
        b != 10,
        all_digits(d),
    ensures
        safe_report_count(q.push(b) + d) == safe_report_count(q.push(10u8)),
{
    lemma_last_level_dropped(q, b, d);
    lemma_lines_nonempty(q);
    let g = fields(lines(q).last());
    let f = fields(lines(q.push(b) + d).last());
    lemma_fields_nonempty(lines(q).last());
    let n = g.len() as int;
    if n >= 2 {
        lemma_safe_prefix(f, n);
    }
    assert(fields(Seq::<u8>::empty()) == seq![0int]);
}

/// The same for part two, for a last line of at least four levels before
/// its dropped one.
pub proof fn law_unterminated_last_level_is_skipped_tolerant(q: Seq<u8>, b: u8, d: Seq<u8>)
    requires
        !(48 <= b <= 57),
        b != 10,
        all_digits(d),
        fields(lines(q).last()).len() >= 4,
    ensures
        tolerable_report_count(q.push(b) + d) == tolerable_report_count(q.push(10u8)),
{
    lemma_last_level_dropped(q, b, d);
    lemma_lines_nonempty(q);
    let g = fields(lines(q).last());
    let f = fields(lines(q.push(b) + d).last());
    let n = g.len() as int;
    law_tolerable_is_dampened_safe(f, n);
    law_tolerable_is_dampened_safe(g, n);
    lemma_safe_prefix(f, n);
    lemma_safe_prefix(g, n);
    assert(g.take(n) =~= g);
    assert(fields(Seq::<u8>::empty()) == seq![0int]);
}

} // verus!
