//! The grammar of a numeric field.
//!
//! A measurement travels through the engine as its numeric text; the engine
//! never computes on the magnitude, so the validated text is the canonical
//! representation, and consumers parse it at the render boundary. The grammar
//! is the one Rust's floating-point parser documents: an optional sign, then
//! `inf`, `infinity` or `nan` in any letter case, or digits with an optional
//! point and an optional exponent (`.5`, `5.`, `1e-3` all included).

use vstd::prelude::*;

verus! {

pub open spec fn is_ascii_digit(c: char) -> bool {
    '0' <= c && c <= '9'
}

pub open spec fn all_digits(s: Seq<char>) -> bool {
    forall|i: int| 0 <= i < s.len() ==> is_ascii_digit(#[trigger] s[i])
}

/// Case-blind equality of a character with a lower-case letter.
pub open spec fn eq_ignoring_case(c: char, lower: char) -> bool {
    c == lower || c as u32 + 32 == lower as u32
}

/// `inf`, `infinity` or `nan`, in any letter case.
pub open spec fn is_keyword_text(b: Seq<char>) -> bool {
    ||| (b.len() == 3 && eq_ignoring_case(b[0], 'i') && eq_ignoring_case(b[1], 'n')
        && eq_ignoring_case(b[2], 'f'))
    ||| (b.len() == 8 && eq_ignoring_case(b[0], 'i') && eq_ignoring_case(b[1], 'n')
        && eq_ignoring_case(b[2], 'f') && eq_ignoring_case(b[3], 'i') && eq_ignoring_case(
        b[4],
        'n',
    ) && eq_ignoring_case(b[5], 'i') && eq_ignoring_case(b[6], 't') && eq_ignoring_case(b[7], 'y'))
    ||| (b.len() == 3 && eq_ignoring_case(b[0], 'n') && eq_ignoring_case(b[1], 'a')
        && eq_ignoring_case(b[2], 'n'))
}

/// How many digits the text starts with.
pub open spec fn digit_run(s: Seq<char>) -> int
    decreases s.len(),
{
    if s.len() > 0 && is_ascii_digit(s[0]) {
        1 + digit_run(s.drop_first())
    } else {
        0
    }
}

pub proof fn lemma_digit_run(s: Seq<char>)
    ensures
        0 <= digit_run(s) <= s.len(),
        forall|i: int| 0 <= i < digit_run(s) ==> is_ascii_digit(#[trigger] s[i]),
        digit_run(s) < s.len() ==> !is_ascii_digit(s[digit_run(s)]),
    decreases s.len(),
{
    if s.len() > 0 && is_ascii_digit(s[0]) {
        lemma_digit_run(s.drop_first());
        assert forall|i: int| 0 <= i < digit_run(s) implies is_ascii_digit(#[trigger] s[i]) by {
            if i > 0 {
                assert(s.drop_first()[i - 1] == s[i]);
            }
        }
        if digit_run(s) < s.len() {
            assert(s.drop_first()[digit_run(s) - 1] == s[digit_run(s)]);
        }
    }
}

/// Where the exponent marker stands, or the end of the text.
pub open spec fn exp_start(s: Seq<char>) -> int
    decreases s.len(),
{
    if s.len() == 0 {
        0
    } else if s[0] == 'e' || s[0] == 'E' {
        0
    } else {
        1 + exp_start(s.drop_first())
    }
}

pub proof fn lemma_exp_start(s: Seq<char>)
    ensures
        0 <= exp_start(s) <= s.len(),
        forall|i: int| 0 <= i < exp_start(s) ==> !((#[trigger] s[i]) == 'e' || s[i] == 'E'),
        exp_start(s) < s.len() ==> (s[exp_start(s)] == 'e' || s[exp_start(s)] == 'E'),
    decreases s.len(),
{
    if s.len() > 0 && !(s[0] == 'e' || s[0] == 'E') {
        lemma_exp_start(s.drop_first());
        assert forall|i: int| 0 <= i < exp_start(s) implies !((#[trigger] s[i]) == 'e' || s[i]
            == 'E') by {
            if i > 0 {
                assert(s.drop_first()[i - 1] == s[i]);
            }
        }
        if exp_start(s) < s.len() {
            assert(s.drop_first()[exp_start(s) - 1] == s[exp_start(s)]);
        }
    }
}

/// The part before any exponent: digits with an optional point and optional
/// fraction digits, or a point with fraction digits.
pub open spec fn is_mantissa(m: Seq<char>) -> bool {
    let d = digit_run(m);
    if d > 0 {
        d == m.len() || (m[d] == '.' && all_digits(m.skip(d + 1)))
    } else {
        m.len() >= 2 && m[0] == '.' && all_digits(m.skip(1))
    }
}

/// The part after the exponent marker: an optional sign, then digits.
pub open spec fn is_exponent_tail(t: Seq<char>) -> bool {
    let u = if t.len() > 0 && (t[0] == '+' || t[0] == '-') {
        t.skip(1)
    } else {
        t
    };
    u.len() > 0 && all_digits(u)
}

/// A number: a mantissa, optionally followed by `e` or `E` and an exponent.
pub open spec fn is_plain_number(s: Seq<char>) -> bool {
    let e = exp_start(s);
    is_mantissa(s.take(e)) && (e == s.len() || is_exponent_tail(s.skip(e + 1)))
}

/// A numeric field is valid when it matches the grammar of Rust's
/// floating-point parser: an optional sign, then `inf`, `infinity` or `nan`
/// in any letter case, or a plain number.
pub open spec fn is_numeric_text(s: Seq<char>) -> bool {
    let body = if s.len() > 0 && (s[0] == '+' || s[0] == '-') {
        s.skip(1)
    } else {
        s
    };
    is_keyword_text(body) || is_plain_number(body)
}

fn digit(c: char) -> (r: bool)
    ensures
        r == is_ascii_digit(c),
{
    '0' <= c && c <= '9'
}

fn exp_marker(c: char) -> (r: bool)
    ensures
        r == (c == 'e' || c == 'E'),
{
    c == 'e' || c == 'E'
}

fn char_ic(c: char, lower: char) -> (r: bool)
    ensures
        r == eq_ignoring_case(c, lower),
{
    c == lower || (c as u32) + 32 == (lower as u32)
}

/// Scans forward from `from` over digits, stopping at `until` or at the
/// first character that is not a digit.
fn scan_digits_to(s: &str, from: usize, until: usize) -> (end: usize)
    requires
        from <= until <= s@.len(),
    ensures
        from <= end <= until,
        forall|i: int| from <= i < end ==> is_ascii_digit(#[trigger] s@[i]),
        end < until ==> !is_ascii_digit(s@[end as int]),
{
    let mut i = from;
    while i < until && digit(s.get_char(i))
        invariant
            from <= i <= until,
            until <= s@.len(),
            forall|k: int| from <= k < i ==> is_ascii_digit(#[trigger] s@[k]),
        decreases until - i,
    {
        i = i + 1;
    }
    i
}

/// Finds the first `e` or `E` at or after `from`, or the end of the text.
fn find_exp_marker(s: &str, from: usize) -> (k: usize)
    requires
        from <= s@.len(),
    ensures
        from <= k <= s@.len(),
        forall|i: int| from <= i < k ==> !((#[trigger] s@[i]) == 'e' || s@[i] == 'E'),
        k < s@.len() ==> (s@[k as int] == 'e' || s@[k as int] == 'E'),
{
    let n = s.unicode_len();
    let mut i = from;
    while i < n && !exp_marker(s.get_char(i))
        invariant
            from <= i <= n,
            n == s@.len(),
            forall|k: int| from <= k < i ==> !((#[trigger] s@[k]) == 'e' || s@[k] == 'E'),
        decreases n - i,
    {
        i = i + 1;
    }
    i
}

/// Decides whether the keyword form stands at `start`, to the end.
fn check_keyword(s: &str, start: usize) -> (r: bool)
    requires
        start <= s@.len(),
    ensures
        r == is_keyword_text(s@.skip(start as int)),
{
    let ghost b = s@.skip(start as int);
    proof {
        assert forall|i: int| 0 <= i < b.len() implies #[trigger] b[i] == s@[start + i] by {}
    }
    let n = s.unicode_len();
    let len = n - start;
    if len == 3 {
        let c0 = s.get_char(start);
        let c1 = s.get_char(start + 1);
        let c2 = s.get_char(start + 2);
        let inf = char_ic(c0, 'i') && char_ic(c1, 'n') && char_ic(c2, 'f');
        let nan = char_ic(c0, 'n') && char_ic(c1, 'a') && char_ic(c2, 'n');
        inf || nan
    } else if len == 8 {
        char_ic(s.get_char(start), 'i') && char_ic(s.get_char(start + 1), 'n') && char_ic(
            s.get_char(start + 2),
            'f',
        ) && char_ic(s.get_char(start + 3), 'i') && char_ic(s.get_char(start + 4), 'n') && char_ic(
            s.get_char(start + 5),
            'i',
        ) && char_ic(s.get_char(start + 6), 't') && char_ic(s.get_char(start + 7), 'y')
    } else {
        false
    }
}

/// Decides whether the text from `lo` up to `hi` is a mantissa.
fn check_mantissa(s: &str, lo: usize, hi: usize) -> (r: bool)
    requires
        lo <= hi <= s@.len(),
    ensures
        r == is_mantissa(s@.subrange(lo as int, hi as int)),
{
    let ghost m = s@.subrange(lo as int, hi as int);
    proof {
        assert forall|i: int| 0 <= i < m.len() implies #[trigger] m[i] == s@[lo + i] by {}
        lemma_digit_run(m);
    }
    let i = scan_digits_to(s, lo, hi);
    proof {
        let d = digit_run(m);
        if d < i - lo {
            assert(is_ascii_digit(s@[lo + d]));
        }
        if d > i - lo {
            assert(is_ascii_digit(m[i - lo]));
        }
        assert(d == i - lo);
    }
    if i > lo {
        if i == hi {
            return true;
        }
        if s.get_char(i) != '.' {
            return false;
        }
        let j = scan_digits_to(s, i + 1, hi);
        proof {
            let tail = m.skip(i - lo + 1);
            assert forall|t: int| 0 <= t < tail.len() implies #[trigger] tail[t] == s@[i + 1
                + t] by {
                assert(tail[t] == m[i - lo + 1 + t]);
            }
            if j == hi {
                assert(all_digits(tail));
            } else {
                assert(tail[j - i - 1] == s@[j as int]);
                assert(!all_digits(tail));
            }
        }
        j == hi
    } else {
        if hi - lo < 2 {
            return false;
        }
        if s.get_char(lo) != '.' {
            return false;
        }
        let j = scan_digits_to(s, lo + 1, hi);
        proof {
            let tail = m.skip(1);
            assert forall|t: int| 0 <= t < tail.len() implies #[trigger] tail[t] == s@[lo + 1
                + t] by {
                assert(tail[t] == m[1 + t]);
            }
            if j == hi {
                assert(all_digits(tail));
            } else {
                assert(tail[j - lo - 1] == s@[j as int]);
                assert(!all_digits(tail));
            }
        }
        j == hi
    }
}

/// Decides whether the plain-number form stands at `start`, to the end.
fn check_plain_number(s: &str, start: usize) -> (r: bool)
    requires
        start <= s@.len(),
    ensures
        r == is_plain_number(s@.skip(start as int)),
{
    let ghost b = s@.skip(start as int);
    let n = s.unicode_len();
    let k = find_exp_marker(s, start);
    proof {
        assert forall|i: int| 0 <= i < b.len() implies #[trigger] b[i] == s@[start + i] by {}
        lemma_exp_start(b);
        let e = exp_start(b);
        if e < k - start {
            assert(b[e] == 'e' || b[e] == 'E');
            assert(s@[start + e] == 'e' || s@[start + e] == 'E');
        }
        if e > k - start {
            assert(k < s@.len());
            assert(b[k - start] == 'e' || b[k - start] == 'E');
        }
        assert(e == k - start);
        assert(b.take(e) =~= s@.subrange(start as int, k as int));
    }
    let m_ok = check_mantissa(s, start, k);
    if !m_ok {
        return false;
    }
    if k == n {
        return true;
    }
    // The exponent tail: an optional sign, then one or more digits, to the end.
    let ghost t = b.skip(k - start + 1);
    proof {
        assert forall|i: int| 0 <= i < t.len() implies #[trigger] t[i] == s@[k + 1 + i] by {
            assert(t[i] == b[k - start + 1 + i]);
        }
    }
    let mut e1 = k + 1;
    if e1 < n {
        let c = s.get_char(e1);
        if c == '+' || c == '-' {
            e1 = e1 + 1;
        }
    }
    let ghost u = if t.len() > 0 && (t[0] == '+' || t[0] == '-') {
        t.skip(1)
    } else {
        t
    };
    proof {
        assert forall|i: int| 0 <= i < u.len() implies #[trigger] u[i] == s@[e1 + i] by {
            if t.len() > 0 && (t[0] == '+' || t[0] == '-') {
                assert(u[i] == t[1 + i]);
            } else {
                assert(u[i] == t[i]);
            }
        }
        assert(u.len() == s@.len() - e1);
    }
    let j = scan_digits_to(s, e1, n);
    proof {
        if j == n && j > e1 {
            assert(all_digits(u));
        }
        if j < n {
            assert(u[j - e1] == s@[j as int]);
            assert(!all_digits(u));
        }
        if e1 == n {
            assert(u.len() == 0);
        }
    }
    j == n && j > e1
}

/// Decides whether `s` matches the numeric grammar.
pub fn check_numeric(s: &str) -> (r: bool)
    ensures
        r == is_numeric_text(s@),
{
    let n = s.unicode_len();
    let start: usize = if n > 0 {
        let c = s.get_char(0);
        if c == '+' || c == '-' {
            1
        } else {
            0
        }
    } else {
        0
    };
    proof {
        assert(s@.skip(0) =~= s@);
    }
    if check_keyword(s, start) {
        return true;
    }
    check_plain_number(s, start)
}

} // verus!
