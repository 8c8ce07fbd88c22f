//! Parsing of lap-time duration strings.
//!
//! A lap time is written in one of three textual forms: `mm:ss.sss`,
//! `mm.ss.sss`, or `ss.sss`. Durations are modelled as a whole number
//! of milliseconds (`u64`); fractional digits past the third are
//! truncated, and values too large for `u64` saturate. A numeric
//! component is a string of decimal digits with at most one decimal
//! point; an unparsable component counts as zero in the minute/second
//! forms, while a wholly unparsable plain-seconds string yields the
//! sentinel [`SLOWEST_MS`], which never wins a fastest-lap comparison
//! and sorts last.

use vstd::prelude::*;

verus! {

/// Sentinel duration of a lap-time string that cannot be parsed.
pub const SLOWEST_MS: u64 = 18446744073709551615;

/// `c` is a decimal digit.
pub open spec fn is_digit(c: char) -> bool {
    ('0' as u32) <= (c as u32) && (c as u32) <= ('9' as u32)
}

/// The numeric value of a digit character.
pub open spec fn digit_val(c: char) -> int {
    (c as u32) - ('0' as u32)
}

/// Every character of `s` is a decimal digit.
pub open spec fn all_digits(s: Seq<char>) -> bool {
    forall|i: int| 0 <= i < s.len() ==> is_digit(s[i])
}

/// `s` contains the character `c`.
pub open spec fn contains_char(s: Seq<char>, c: char) -> bool {
    exists|i: int| 0 <= i < s.len() && s[i] == c
}

/// Index of the first occurrence of `c` in `s`, or `s.len()` if absent.
pub open spec fn first_idx(s: Seq<char>, c: char) -> int
    decreases s.len(),
{
    if s.len() == 0 {
        0
    } else if s[0] == c {
        0
    } else {
        1 + first_idx(s.drop_first(), c)
    }
}

/// How many times `c` occurs in `s`.
pub open spec fn count_char(s: Seq<char>, c: char) -> int
    decreases s.len(),
{
    if s.len() == 0 {
        0
    } else {
        count_char(s.drop_last(), c) + if s.last() == c { 1int } else { 0int }
    }
}

/// The value of a digit string read as a decimal integer.
pub open spec fn dec_val(s: Seq<char>) -> int
    decreases s.len(),
{
    if s.len() == 0 {
        0
    } else {
        dec_val(s.drop_last()) * 10 + digit_val(s.last())
    }
}

/// Clamps a mathematical integer into `u64`.
pub open spec fn clamp64(n: int) -> u64 {
    if n >= SLOWEST_MS {
        SLOWEST_MS
    } else if n <= 0 {
        0
    } else {
        n as u64
    }
}

/// The digit of `s` at `i`, or zero past the end.
pub open spec fn digit_at(s: Seq<char>, i: int) -> int {
    if 0 <= i < s.len() {
        digit_val(s[i])
    } else {
        0
    }
}

/// Milliseconds denoted by the fractional-second digits `s`
/// (the digits after a decimal point); digits past the third are
/// truncated.
pub open spec fn frac_ms(s: Seq<char>) -> int {
    digit_at(s, 0) * 100 + digit_at(s, 1) * 10 + digit_at(s, 2)
}

/// The value of `s` read as a plain (unscaled) decimal integer,
/// or zero if `s` is not a nonempty digit string.
pub open spec fn int_or0(s: Seq<char>) -> int {
    if s.len() > 0 && all_digits(s) {
        dec_val(s)
    } else {
        0
    }
}

/// Milliseconds denoted by the fractional digits `s`, or zero if `s`
/// holds a non-digit. An empty `s` is a valid (zero) fraction.
pub open spec fn frac_or0(s: Seq<char>) -> int {
    if all_digits(s) {
        frac_ms(s)
    } else {
        0
    }
}

/// The value of a decimal-number component in thousandths of its
/// unit, or zero if the component is unparsable.
pub open spec fn comp_milli_spec(s: Seq<char>) -> u64 {
    if count_char(s, '.') == 0 {
        if s.len() > 0 && all_digits(s) {
            clamp64(dec_val(s) * 1000)
        } else {
            0
        }
    } else if count_char(s, '.') == 1 {
        let i = first_idx(s, '.');
        if all_digits(s.take(i)) && all_digits(s.skip(i + 1)) && s.len() > 1 {
            clamp64(dec_val(s.take(i)) * 1000 + frac_ms(s.skip(i + 1)))
        } else {
            0
        }
    } else {
        0
    }
}

/// The duration in milliseconds that the lap-time string `s` denotes.
///
/// With a `:`, the string splits once: the part before the first `:`
/// is minutes and the whole remainder after it is seconds, both
/// decimal numbers; unparsable parts (a remainder with another `:`
/// among them) count as zero. Otherwise, with exactly two `.`,
/// the three parts are minutes, seconds and fractional-second digits;
/// with exactly one `.`, the two parts are seconds and fractional
/// digits. Otherwise the whole string must be a plain number of
/// seconds, and an unparsable one yields [`SLOWEST_MS`].
pub open spec fn parse_duration_spec(s: Seq<char>) -> u64 {
    if contains_char(s, ':') {
        let i = first_idx(s, ':');
        clamp64(comp_milli_spec(s.take(i)) * 60 + comp_milli_spec(s.skip(i + 1)))
    } else if count_char(s, '.') == 2 {
        let i = first_idx(s, '.');
        let rest = s.skip(i + 1);
        let j = first_idx(rest, '.');
        clamp64(int_or0(s.take(i)) * 60000 + int_or0(rest.take(j)) * 1000 + frac_or0(rest.skip(j + 1)))
    } else if count_char(s, '.') == 1 {
        let i = first_idx(s, '.');
        clamp64(int_or0(s.take(i)) * 1000 + frac_or0(s.skip(i + 1)))
    } else if s.len() > 0 && all_digits(s) {
        clamp64(dec_val(s) * 1000)
    } else {
        SLOWEST_MS
    }
}

proof fn lemma_first_idx_found(s: Seq<char>, c: char, i: int)
    requires
        0 <= i < s.len(),
        s[i] == c,
        forall|j: int| 0 <= j < i ==> s[j] != c,
    ensures
        first_idx(s, c) == i,
    decreases s.len(),
{
    if i == 0 {
    } else {
        assert(s[0] != c);
        lemma_first_idx_found(s.drop_first(), c, i - 1);
    }
}

proof fn lemma_first_idx_absent(s: Seq<char>, c: char)
    requires
        forall|j: int| 0 <= j < s.len() ==> s[j] != c,
    ensures
        first_idx(s, c) == s.len(),
    decreases s.len(),
{
    if s.len() > 0 {
        lemma_first_idx_absent(s.drop_first(), c);
    }
}

/// The characters before the first occurrence of `c` differ from `c`,
/// and at the first occurrence (if any) stands `c` itself.
proof fn lemma_first_idx_props(s: Seq<char>, c: char)
    ensures
        0 <= first_idx(s, c) <= s.len(),
        first_idx(s, c) < s.len() ==> s[first_idx(s, c)] == c,
        forall|j: int| 0 <= j < first_idx(s, c) ==> s[j] != c,
        (first_idx(s, c) < s.len()) == contains_char(s, c),
    decreases s.len(),
{
    if s.len() == 0 {
    } else if s[0] == c {
    } else {
        lemma_first_idx_props(s.drop_first(), c);
        assert forall|j: int| 0 <= j < first_idx(s, c) implies s[j] != c by {
            if j > 0 {
                assert(s.drop_first()[j - 1] != c);
                assert(s[j] == s.drop_first()[j - 1]);
            }
        }
        if contains_char(s, c) {
            let w = choose|w: int| 0 <= w < s.len() && s[w] == c;
            assert(s.drop_first()[w - 1] == c);
            assert(contains_char(s.drop_first(), c));
        }
        if contains_char(s.drop_first(), c) {
            let w = choose|w: int| 0 <= w < s.drop_first().len() && s.drop_first()[w] == c;
            assert(s[w + 1] == c);
        }
    }
}

proof fn lemma_count_concat(a: Seq<char>, b: Seq<char>, c: char)
    ensures
        count_char(a + b, c) == count_char(a, c) + count_char(b, c),
    decreases b.len(),
{
    if b.len() == 0 {
        assert(a + b =~= a);
    } else {
        lemma_count_concat(a, b.drop_last(), c);
        assert((a + b).drop_last() =~= a + b.drop_last());
    }
}

proof fn lemma_count_zero(s: Seq<char>, c: char)
    requires
        forall|j: int| 0 <= j < s.len() ==> s[j] != c,
    ensures
        count_char(s, c) == 0,
    decreases s.len(),
{
    if s.len() > 0 {
        lemma_count_zero(s.drop_last(), c);
    }
}

proof fn lemma_count_nonneg(s: Seq<char>, c: char)
    ensures
        count_char(s, c) >= 0,
        count_char(s, c) > 0 ==> contains_char(s, c),
    decreases s.len(),
{
    if s.len() > 0 {
        lemma_count_nonneg(s.drop_last(), c);
        if count_char(s, c) > 0 {
            if s.last() == c {
                assert(s[s.len() - 1] == c);
            } else {
                let w = choose|w: int| 0 <= w < s.drop_last().len() && s.drop_last()[w] == c;
                assert(s[w] == c);
            }
        }
    }
}

/// Splitting `s` at the first occurrence of `c` accounts for all its
/// occurrences: one at the split, none before it, and the rest after.
proof fn lemma_count_split(s: Seq<char>, c: char)
    requires
        contains_char(s, c),
    ensures
        count_char(s.skip(first_idx(s, c) + 1), c) == count_char(s, c) - 1,
    decreases s.len(),
{
    let i = first_idx(s, c);
    lemma_first_idx_props(s, c);
    assert(s =~= s.take(i) + (seq![s[i]] + s.skip(i + 1)));
    lemma_count_concat(s.take(i), seq![s[i]] + s.skip(i + 1), c);
    lemma_count_concat(seq![s[i]], s.skip(i + 1), c);
    lemma_count_zero(s.take(i), c);
    assert(count_char(seq![s[i]], c) == 1) by {
        assert(seq![s[i]].drop_last() =~= Seq::<char>::empty());
        assert(count_char(Seq::<char>::empty(), c) == 0);
        assert(seq![s[i]].last() == c);
    }
}

proof fn lemma_dec_val_nonneg(s: Seq<char>)
    requires
        all_digits(s),
    ensures
        dec_val(s) >= 0,
    decreases s.len(),
{
    if s.len() > 0 {
        assert(all_digits(s.drop_last())) by {
            assert(forall|i: int| 0 <= i < s.len() - 1 ==> s.drop_last()[i] == s[i]);
        }
        lemma_dec_val_nonneg(s.drop_last());
        assert(is_digit(s[s.len() - 1]));
    }
}

/// Clamping a factor before a saturating multiply-add gives the same
/// result as clamping the exact value once.
proof fn lemma_clamp_mul_add(a: int, k: int, r: int)
    requires
        a >= 0,
        k >= 1,
        r >= 0,
    ensures
        clamp64(clamp64(a) * k + r) == clamp64(a * k + r),
{
    if a >= SLOWEST_MS {
        assert(clamp64(a) == SLOWEST_MS);
        assert(a * k >= a) by (nonlinear_arith)
            requires a >= 0 && k >= 1;
        assert(SLOWEST_MS * k >= SLOWEST_MS) by (nonlinear_arith)
            requires k >= 1;
    }
}

/// Index of the first occurrence of `c` in `s`, or the length of `s`
/// if `c` does not occur.
fn find_char(s: &str, c: char) -> (r: usize)
    ensures
        r as int == first_idx(s@, c),
{
    let n = s.unicode_len();
    let mut i: usize = 0;
    while i < n
        invariant
            0 <= i <= n,
            n == s@.len(),
            forall|j: int| 0 <= j < i ==> s@[j] != c,
        decreases n - i,
    {
        if s.get_char(i) == c {
            proof {
                lemma_first_idx_found(s@, c, i as int);
            }
            return i;
        }
        i += 1;
    }
    proof {
        lemma_first_idx_absent(s@, c);
    }
    n
}

/// How many times `c` occurs in `s`.
fn count_occurrences(s: &str, c: char) -> (r: usize)
    ensures
        r as int == count_char(s@, c),
{
    let n = s.unicode_len();
    let mut i: usize = 0;
    let mut cnt: usize = 0;
    while i < n
        invariant
            0 <= i <= n,
            n == s@.len(),
            cnt as int == count_char(s@.take(i as int), c),
            cnt <= i,
        decreases n - i,
    {
        proof {
            assert(s@.take(i + 1).drop_last() =~= s@.take(i as int));
            assert(s@.take(i + 1).last() == s@[i as int]);
        }
        if s.get_char(i) == c {
            cnt += 1;
        }
        i += 1;
    }
    proof {
        assert(s@.take(n as int) =~= s@);
    }
    cnt
}

/// Whether every character of `s` is a decimal digit.
fn check_digits(s: &str) -> (r: bool)
    ensures
        r == all_digits(s@),
{
    let n = s.unicode_len();
    let mut i: usize = 0;
    while i < n
        invariant
            0 <= i <= n,
            n == s@.len(),
            forall|j: int| 0 <= j < i ==> is_digit(s@[j]),
        decreases n - i,
    {
        let c = s.get_char(i);
        if (c as u32) < ('0' as u32) || (c as u32) > ('9' as u32) {
            return false;
        }
        i += 1;
    }
    true
}

/// The value of the digit string `s`, saturating at `u64::MAX`.
fn dec_sat(s: &str) -> (r: u64)
    requires
        all_digits(s@),
    ensures
        r == clamp64(dec_val(s@)),
{
    let n = s.unicode_len();
    let mut i: usize = 0;
    let mut v: u64 = 0;
    while i < n
        invariant
            0 <= i <= n,
            n == s@.len(),
            all_digits(s@),
            v == clamp64(dec_val(s@.take(i as int))),
        decreases n - i,
    {
        let c = s.get_char(i);
        assert(is_digit(c));
        let d: u64 = ((c as u32) - ('0' as u32)) as u64;
        proof {
            let pre = s@.take(i as int);
            let nxt = s@.take(i + 1);
            assert(nxt.drop_last() =~= pre);
            assert(nxt.last() == c);
            assert(all_digits(pre)) by {
                assert(forall|j: int| 0 <= j < pre.len() ==> pre[j] == s@[j]);
            }
            lemma_dec_val_nonneg(pre);
        }
        let ghost a = dec_val(s@.take(i as int));
        v = match v.checked_mul(10) {
            Some(x) => x.saturating_add(d),
            None => SLOWEST_MS,
        };
        proof {
            if a >= SLOWEST_MS {
                assert(a * 10 + d >= SLOWEST_MS) by (nonlinear_arith)
                    requires a >= SLOWEST_MS && d >= 0;
            }
        }
        assert(v == clamp64(a * 10 + d));
        i += 1;
    }
    proof {
        assert(s@.take(n as int) =~= s@);
    }
    v
}

/// Milliseconds denoted by the fractional-second digits `s`,
/// truncated past the third digit.
fn frac_part(s: &str) -> (r: u64)
    requires
        all_digits(s@),
    ensures
        r as int == frac_ms(s@),
        r <= 999,
{
    let n = s.unicode_len();
    let d0: u64 = if n > 0 { ((s.get_char(0) as u32) - ('0' as u32)) as u64 } else { 0 };
    let d1: u64 = if n > 1 { ((s.get_char(1) as u32) - ('0' as u32)) as u64 } else { 0 };
    let d2: u64 = if n > 2 { ((s.get_char(2) as u32) - ('0' as u32)) as u64 } else { 0 };
    assert(n > 0 ==> is_digit(s@[0]));
    assert(n > 1 ==> is_digit(s@[1]));
    assert(n > 2 ==> is_digit(s@[2]));
    d0 * 100 + d1 * 10 + d2
}

/// The value of `s` as a plain decimal integer, saturating; zero if
/// `s` is not a nonempty digit string.
fn plain_int(s: &str) -> (r: u64)
    ensures
        r == clamp64(int_or0(s@)),
{
    if s.unicode_len() == 0 {
        return 0;
    }
    if check_digits(s) {
        dec_sat(s)
    } else {
        0
    }
}

/// The value of a decimal-number component in thousandths of its
/// unit; zero if the component is unparsable.
fn comp_milli(s: &str) -> (r: u64)
    ensures
        r == comp_milli_spec(s@),
{
    let n = s.unicode_len();
    let dots = count_occurrences(s, '.');
    if dots == 0 {
        if n > 0 && check_digits(s) {
            let v = dec_sat(s);
            proof {
                lemma_dec_val_nonneg(s@);
                lemma_clamp_mul_add(dec_val(s@), 1000, 0);
            }
            match v.checked_mul(1000) {
                Some(x) => x,
                None => SLOWEST_MS,
            }
        } else {
            0
        }
    } else if dots == 1 {
        let i = find_char(s, '.');
        proof {
            lemma_first_idx_props(s@, '.');
            lemma_count_nonneg(s@, '.');
        }
        assert(i < n);
        let intp = s.substring_char(0, i);
        let fracp = s.substring_char(i + 1, n);
        assert(intp@ =~= s@.take(i as int));
        assert(fracp@ =~= s@.skip(i + 1));
        if n > 1 && check_digits(intp) && check_digits(fracp) {
            let a = dec_sat(intp);
            let f = frac_part(fracp);
            proof {
                lemma_dec_val_nonneg(intp@);
                lemma_clamp_mul_add(dec_val(intp@), 1000, frac_ms(fracp@));
            }
            match a.checked_mul(1000) {
                Some(x) => x.saturating_add(f),
                None => SLOWEST_MS,
            }
        } else {
            0
        }
    } else {
        0
    }
}

/// Parses a lap-time string into a duration in milliseconds.
///
/// Accepts `mm:ss.sss`, `mm.ss.sss` and `ss.sss` forms; unparsable
/// numeric components count as zero in the first two forms, and a
/// wholly unparsable plain-seconds string yields [`SLOWEST_MS`].
pub fn parse_duration(time: &str) -> (r: u64)
    ensures
        r == parse_duration_spec(time@),
{
    let n = time.unicode_len();
    let ci = find_char(time, ':');
    proof {
        lemma_first_idx_props(time@, ':');
    }
    if ci < n {
        let p0 = time.substring_char(0, ci);
        let rest = time.substring_char(ci + 1, n);
        assert(p0@ =~= time@.take(ci as int));
        assert(rest@ =~= time@.skip(ci + 1));
        let a = comp_milli(p0);
        let b = comp_milli(rest);
        match a.checked_mul(60) {
            Some(x) => x.saturating_add(b),
            None => SLOWEST_MS,
        }
    } else {
        assert(!contains_char(time@, ':'));
        let dots = count_occurrences(time, '.');
        proof {
            lemma_count_nonneg(time@, '.');
        }
        if dots == 2 {
            let i = find_char(time, '.');
            proof {
                lemma_first_idx_props(time@, '.');
                lemma_count_split(time@, '.');
            }
            assert(i < n);
            let rest = time.substring_char(i + 1, n);
            assert(rest@ =~= time@.skip(i + 1));
            let j = find_char(rest, '.');
            proof {
                lemma_first_idx_props(rest@, '.');
                lemma_count_nonneg(rest@, '.');
            }
            let restn = rest.unicode_len();
            assert(j < restn);
            let p0 = time.substring_char(0, i);
            let p1 = rest.substring_char(0, j);
            let p2 = rest.substring_char(j + 1, restn);
            assert(p0@ =~= time@.take(i as int));
            assert(p1@ =~= rest@.take(j as int));
            assert(p2@ =~= rest@.skip(j + 1));
            let a = plain_int(p0);
            let b = plain_int(p1);
            let f = if check_digits(p2) { frac_part(p2) } else { 0 };
            proof {
                if p0@.len() > 0 && all_digits(p0@) {
                    lemma_dec_val_nonneg(p0@);
                }
                if p1@.len() > 0 && all_digits(p1@) {
                    lemma_dec_val_nonneg(p1@);
                }
                lemma_clamp_mul_add(int_or0(p0@), 60000, 0);
                lemma_clamp_mul_add(int_or0(p1@), 1000, frac_or0(p2@));
            }
            let hi = match a.checked_mul(60000) {
                Some(x) => x,
                None => SLOWEST_MS,
            };
            assert(hi == clamp64(int_or0(p0@) * 60000));
            let mid = match b.checked_mul(1000) {
                Some(x) => x.saturating_add(f),
                None => SLOWEST_MS,
            };
            assert(mid == clamp64(int_or0(p1@) * 1000 + frac_or0(p2@)));
            let r = hi.saturating_add(mid);
            proof {
                lemma_clamp_sum(int_or0(p0@) * 60000, int_or0(p1@) * 1000 + frac_or0(p2@));
            }
            r
        } else if dots == 1 {
            let i = find_char(time, '.');
            proof {
                lemma_first_idx_props(time@, '.');
                lemma_count_nonneg(time@, '.');
            }
            assert(i < n);
            let p0 = time.substring_char(0, i);
            let p1 = time.substring_char(i + 1, n);
            assert(p0@ =~= time@.take(i as int));
            assert(p1@ =~= time@.skip(i + 1));
            let a = plain_int(p0);
            let f = if check_digits(p1) { frac_part(p1) } else { 0 };
            proof {
                if p0@.len() > 0 && all_digits(p0@) {
                    lemma_dec_val_nonneg(p0@);
                }
                lemma_clamp_mul_add(int_or0(p0@), 1000, frac_or0(p1@));
            }
            match a.checked_mul(1000) {
                Some(x) => x.saturating_add(f),
                None => SLOWEST_MS,
            }
        } else if dots == 0 {
            if n > 0 && check_digits(time) {
                let v = dec_sat(time);
                proof {
                    lemma_dec_val_nonneg(time@);
                    lemma_clamp_mul_add(dec_val(time@), 1000, 0);
                }
                match v.checked_mul(1000) {
                    Some(x) => x,
                    None => SLOWEST_MS,
                }
            } else {
                SLOWEST_MS
            }
        } else {
            proof {
                lemma_count_nonneg(time@, '.');
                let w = choose|w: int| 0 <= w < time@.len() && time@[w] == '.';
                assert(!is_digit(time@[w]));
            }
            SLOWEST_MS
        }
    }
}

/// Clamping two nonnegative summands separately and adding with
/// saturation gives the clamp of their exact sum.
proof fn lemma_clamp_sum(x: int, y: int)
    requires
        x >= 0,
        y >= 0,
    ensures
        clamp64(clamp64(x) as int + clamp64(y) as int) == clamp64(x + y),
{
}

} // verus!
