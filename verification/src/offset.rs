//! Reading a manual timing offset such as `+500`, `-250ms`, `1.5` or `-0.8s`.
//!
//! Integers of milliseconds are read here. A number of seconds is checked against the
//! grammar of `str::parse::<f64>` and handed out as its text: scaling it to milliseconds
//! is floating-point work, which the program does.

use crate::text::{
    all_ascii_digits, chars_eq_ignore_ascii_case, chars_of, copy_range, digits_value,
    decimal, ends_with, eq_ignore_ascii_case, first_index_of, has_suffix, is_ascii_digit, is_white,
    lemma_decimal_value, lemma_digits_value_prefix,
    lemma_first_index_of, parse_i64_chars, parse_i64_text, string_of, trim, trim_chars, trim_end, trim_start,
};
use vstd::prelude::*;

verus! {

/// Why an offset text was refused.
#[derive(Debug, Clone, Copy, PartialEq, Eq)]
pub enum OffsetError {
    /// A `...ms` text whose number is not an integer.
    InvalidMillisecondsOffset,
    /// A `...s` text, or a text with a `.`, that is not a number of seconds.
    InvalidSecondsOffset,
    /// A bare text that is not an integer.
    InvalidMillisecondOffset,
}

impl OffsetError {
    /// The message shown for the error.
    pub fn message(&self) -> (r: String)
        ensures
            r@ == match *self {
                OffsetError::InvalidMillisecondsOffset => "Invalid milliseconds offset"@,
                OffsetError::InvalidSecondsOffset => "Invalid seconds offset"@,
                OffsetError::InvalidMillisecondOffset => "Invalid millisecond offset"@,
            },
    {
        let s = match self {
            OffsetError::InvalidMillisecondsOffset => "Invalid milliseconds offset",
            OffsetError::InvalidSecondsOffset => "Invalid seconds offset",
            OffsetError::InvalidMillisecondOffset => "Invalid millisecond offset",
        };
        let c = chars_of(s);
        string_of(c.as_slice())
    }
}

/// A text that `str::parse::<f64>` accepts, taken apart.
pub enum FloatText {
    /// `inf` or `infinity`, in any case.
    Infinite,
    /// `nan`, in any case.
    NotANumber,
    /// A decimal number: all its digits (before and after the point), how many of them
    /// follow the point, and the exponent.
    Finite(Seq<char>, int, int),
}

/// An optional leading `+` or `-`: whether it is `-`, and the rest.
pub open spec fn split_sign(s: Seq<char>) -> (bool, Seq<char>) {
    if s.len() > 0 && (s[0] == '+' || s[0] == '-') {
        (s[0] == '-', s.drop_first())
    } else {
        (false, s)
    }
}

/// An exponent: optional sign and at least one ASCII digit.
pub open spec fn exponent_value(e: Seq<char>) -> Option<int> {
    let (neg, d) = split_sign(e);
    if d.len() > 0 && all_ascii_digits(d) {
        Some(if neg { -(digits_value(d) as int) } else { digits_value(d) as int })
    } else {
        None
    }
}

/// Index just past the run of ASCII digits that starts at `i`.
pub open spec fn ascii_run_end(s: Seq<char>, i: int) -> int
    decreases s.len() - i,
{
    if 0 <= i < s.len() && is_ascii_digit(s[i]) {
        ascii_run_end(s, i + 1)
    } else {
        i
    }
}

/// A mantissa: digits, optionally a `.` and more digits, with at least one digit in all;
/// the result is all the digits and how many follow the point.
pub open spec fn mantissa_digits(m: Seq<char>) -> Option<(Seq<char>, int)> {
    let a = ascii_run_end(m, 0);
    let int_part = m.take(a);
    if a == m.len() {
        if a > 0 { Some((int_part, 0)) } else { None }
    } else if m[a] == '.' && all_ascii_digits(m.skip(a + 1)) && a + m.skip(a + 1).len() > 0 {
        Some((int_part + m.skip(a + 1), m.skip(a + 1).len() as int))
    } else {
        None
    }
}

/// The unsigned part of a number text as `str::parse::<f64>` reads it: `inf`, `infinity`
/// or `nan` in any case, or a mantissa with an optional exponent (`e` or `E`, optional
/// sign, digits).
pub open spec fn unsigned_float_text(body: Seq<char>) -> Option<FloatText> {
    if eq_ignore_ascii_case(body, "inf"@) || eq_ignore_ascii_case(body, "infinity"@) {
        Some(FloatText::Infinite)
    } else if eq_ignore_ascii_case(body, "nan"@) {
        Some(FloatText::NotANumber)
    } else {
        let e_pos = match first_index_of(body, 'e') {
            Some(i) => match first_index_of(body, 'E') {
                Some(j) => if j < i { Some(j) } else { Some(i) },
                None => Some(i),
            },
            None => first_index_of(body, 'E'),
        };
        let (mant, exp) = match e_pos {
            Some(k) => (body.take(k), exponent_value(body.skip(k + 1))),
            None => (body, Some(0int)),
        };
        match (mantissa_digits(mant), exp) {
            (Some((d, f)), Some(x)) => Some(FloatText::Finite(d, f, x)),
            _ => None,
        }
    }
}

/// The text `s` as `str::parse::<f64>` reads it: an optional sign, then the unsigned part.
pub open spec fn float_text(s: Seq<char>) -> Option<(bool, FloatText)> {
    let (neg, body) = split_sign(s);
    match unsigned_float_text(body) {
        Some(k) => Some((neg, k)),
        None => None,
    }
}

/// How an accepted offset text is read: an integer of milliseconds, or a text of seconds
/// (in the form `str::parse::<f64>` accepts) that is still to be scaled to milliseconds.
pub enum OffsetForm {
    Millis(int),
    Seconds(Seq<char>),
}

/// What an offset text stands for, or why it is refused. The text is trimmed first; an
/// empty text is 0 milliseconds; `ms`/`MS` ends an integer of milliseconds; `s`/`S` ends a
/// number of seconds; a text with a `.` is a number of seconds; anything else is an integer
/// of milliseconds. A number of seconds is kept as its (trimmed) text.
pub open spec fn offset_result(input: Seq<char>) -> Result<OffsetForm, OffsetError> {
    let t = trim(input);
    if t.len() == 0 {
        Ok(OffsetForm::Millis(0))
    } else if has_suffix(t, "ms"@) || has_suffix(t, "MS"@) {
        match parse_i64_text(trim(t.take(t.len() - 2))) {
            Some(v) => Ok(OffsetForm::Millis(v)),
            None => Err(OffsetError::InvalidMillisecondsOffset),
        }
    } else if t.last() == 's' || t.last() == 'S' {
        let w = trim(t.drop_last());
        if float_text(w) is Some {
            Ok(OffsetForm::Seconds(w))
        } else {
            Err(OffsetError::InvalidSecondsOffset)
        }
    } else if first_index_of(t, '.') is Some {
        if float_text(t) is Some {
            Ok(OffsetForm::Seconds(t))
        } else {
            Err(OffsetError::InvalidSecondsOffset)
        }
    } else {
        match parse_i64_text(t) {
            Some(v) => Ok(OffsetForm::Millis(v)),
            None => Err(OffsetError::InvalidMillisecondOffset),
        }
    }
}


/// Index of the first `c` in `v`.
fn find_first(v: &[char], c: char) -> (r: Option<usize>)
    ensures
        match r {
            Some(i) => first_index_of(v@, c) == Some(i as int) && i < v@.len(),
            None => first_index_of(v@, c) is None,
        },
{
    let mut k: usize = 0;
    while k < v.len()
        invariant
            k <= v@.len(),
            forall|t: int| 0 <= t < k ==> v@[t] != c,
        decreases v@.len() - k,
    {
        if v[k] == c {
            proof {
                lemma_first_index_of(v@, c, k as int);
            }
            return Some(k);
        }
        k += 1;
    }
    proof {
        lemma_first_index_of(v@, c, k as int);
    }
    None
}

fn ascii_run_end_at(v: &[char], i: usize) -> (r: usize)
    requires
        i <= v@.len(),
    ensures
        r == ascii_run_end(v@, i as int),
        i <= r <= v@.len(),
        forall|t: int| i <= t < r ==> is_ascii_digit(#[trigger] v@[t]),
        r < v@.len() ==> !is_ascii_digit(v@[r as int]),
{
    let mut k = i;
    while k < v.len() && '0' <= v[k] && v[k] <= '9'
        invariant
            i <= k <= v@.len(),
            ascii_run_end(v@, i as int) == ascii_run_end(v@, k as int),
            forall|t: int| i <= t < k ==> is_ascii_digit(#[trigger] v@[t]),
        decreases v@.len() - k,
    {
        k += 1;
    }
    k
}

fn all_digits(v: &[char]) -> (r: bool)
    ensures
        r == all_ascii_digits(v@),
{
    let e = ascii_run_end_at(v, 0);
    e == v.len()
}

/// Computes `mantissa_digits`.
fn mantissa_exec(m: &[char]) -> (r: Option<(Vec<char>, usize)>)
    ensures
        match r {
            Some((d, f)) => mantissa_digits(m@) == Some((d@, f as int)) && all_ascii_digits(d@),
            None => mantissa_digits(m@) is None,
        },
{
    let ml = m.len();
    let a = ascii_run_end_at(m, 0);
    let int_part = copy_range(m, 0, a);
    assert(int_part@ == m@.take(a as int));
    if a == ml {
        if a > 0 {
            return Some((int_part, 0));
        }
        return None;
    }
    if m[a] != '.' {
        return None;
    }
    let frac = copy_range(m, a + 1, ml);
    assert(frac@ == m@.skip(a + 1));
    if !all_digits(frac.as_slice()) || a + frac.len() == 0 {
        return None;
    }
    let fl = frac.len();
    let mut d = int_part;
    crate::text::push_all(&mut d, frac.as_slice());
    assert(all_ascii_digits(d@)) by {
        assert forall|i: int| 0 <= i < d@.len() implies is_ascii_digit(#[trigger] d@[i]) by {
            if i < a {
                assert(d@[i] == m@[i]);
            } else {
                assert(d@[i] == frac@[i - a]);
            }
        }
    }
    Some((d, fl))
}

/// The exponent text: `None` when it is not an exponent; else its sign and its magnitude,
/// or `None` for a magnitude above 2^100.
fn exponent_exec(e: &[char]) -> (r: Option<(bool, Option<u128>)>)
    ensures
        match r {
            Some((neg, Some(x))) => exponent_value(e@) == Some(if neg { -(x as int) } else { x as int })
                && x <= 0x10_0000_0000_0000_0000_0000_0000,
            Some((neg, None)) => exponent_value(e@) matches Some(v) && (if neg { v < -0x10_0000_0000_0000_0000_0000_0000int } else { v > 0x10_0000_0000_0000_0000_0000_0000int }),
            None => exponent_value(e@) is None,
        },
{
    let n = e.len();
    let neg = n > 0 && e[0] == '-';
    let start: usize = if n > 0 && (e[0] == '+' || e[0] == '-') { 1 } else { 0 };
    let ghost d = split_sign(e@).1;
    assert(d == e@.subrange(start as int, n as int));
    if start == n {
        return None;
    }
    let mut acc: u128 = 0;
    let mut k = start;
    while k < n
        invariant
            start <= k <= n,
            n == e@.len(),
            d == split_sign(e@).1,
            neg == split_sign(e@).0,
            d == e@.subrange(start as int, n as int),
            all_ascii_digits(d.take(k - start)),
            acc == digits_value(d.take(k - start)),
            acc <= 0x10_0000_0000_0000_0000_0000_0000,
        decreases n - k,
    {
        let c = e[k];
        if !('0' <= c && c <= '9') {
            assert(d[k - start] == c);
            return None;
        }
        let dg = (c as u128) - 48;
        assert(d.take(k + 1 - start).drop_last() == d.take(k - start));
        assert(d.take(k + 1 - start).last() == c);
        let next = acc * 10 + dg;
        assert(all_ascii_digits(d.take(k + 1 - start))) by {
            assert forall|i: int| 0 <= i < d.take(k + 1 - start).len() implies is_ascii_digit(#[trigger] d.take(k + 1 - start)[i]) by {
                if i < k - start {
                    assert(d.take(k + 1 - start)[i] == d.take(k - start)[i]);
                }
            }
        }
        if next > 0x10_0000_0000_0000_0000_0000_0000 {
            // the exponent is huge: finish checking the syntax
            let mut j = k + 1;
            while j < n
                invariant
                    start <= k < j <= n,
                    n == e@.len(),
                    d == split_sign(e@).1,
                    neg == split_sign(e@).0,
                    d == e@.subrange(start as int, n as int),
                    all_ascii_digits(d.take(j - start)),
                decreases n - j,
            {
                if !('0' <= e[j] && e[j] <= '9') {
                    assert(d[j - start] == e[j as int]);
                    return None;
                }
                j += 1;
                assert(all_ascii_digits(d.take(j - start))) by {
                    assert forall|i: int| 0 <= i < d.take(j - start).len() implies is_ascii_digit(#[trigger] d.take(j - start)[i]) by {
                        if i < j - 1 - start {
                            assert(d.take(j - start)[i] == d.take(j - 1 - start)[i]);
                        }
                    }
                }
            }
            assert(d.take(n - start) == d);
            proof {
                lemma_digits_value_prefix(d, k + 1 - start);
            }
            return Some((neg, None));
        }
        acc = next;
        k += 1;
    }
    assert(d.take(n - start) == d);
    Some((neg, Some(acc)))
}

/// A number text taken apart, as the executable code holds it.
enum NumberParts {
    Infinite,
    NotANumber,
    /// digits, count after the point, exponent sign, exponent magnitude (`None` above 2^100)
    Finite(Vec<char>, usize, bool, Option<u128>),
}

/// Splits the unsigned part of a number text.
fn number_parts(body: &[char]) -> (r: Option<NumberParts>)
    ensures
        match r {
            None => unsigned_float_text(body@) is None,
            Some(NumberParts::Infinite) => unsigned_float_text(body@) matches Some(FloatText::Infinite),
            Some(NumberParts::NotANumber) => unsigned_float_text(body@) matches Some(FloatText::NotANumber),
            Some(NumberParts::Finite(d, f, eneg, emag)) => unsigned_float_text(body@) matches Some(
                FloatText::Finite(sd, sf, sx),
            ) && sd == d@ && sf == f && all_ascii_digits(d@) && match emag {
                Some(x) => sx == (if eneg { -(x as int) } else { x as int }) && x <= 0x10_0000_0000_0000_0000_0000_0000,
                None => if eneg { sx < -0x10_0000_0000_0000_0000_0000_0000int } else { sx > 0x10_0000_0000_0000_0000_0000_0000int },
            },
        },
{
    let inf = chars_of("inf");
    let infinity = chars_of("infinity");
    let nan = chars_of("nan");
    if chars_eq_ignore_ascii_case(body, inf.as_slice()) || chars_eq_ignore_ascii_case(body, infinity.as_slice()) {
        return Some(NumberParts::Infinite);
    }
    if chars_eq_ignore_ascii_case(body, nan.as_slice()) {
        return Some(NumberParts::NotANumber);
    }
    let bl = body.len();
    let e_pos = match find_first(body, 'e') {
        Some(i) => match find_first(body, 'E') {
            Some(j) => if j < i { Some(j) } else { Some(i) },
            None => Some(i),
        },
        None => find_first(body, 'E'),
    };
    let (mant, exp) = match e_pos {
        Some(k) => {
            let mv = copy_range(body, 0, k);
            let ev = copy_range(body, k + 1, bl);
            assert(mv@ == body@.take(k as int));
            assert(ev@ == body@.skip(k + 1));
            (mv, exponent_exec(ev.as_slice()))
        },
        None => {
            let mv = copy_range(body, 0, bl);
            assert(mv@ == body@);
            (mv, Some((false, Some(0u128))))
        },
    };
    let (d, f) = match mantissa_exec(mant.as_slice()) {
        Some(x) => x,
        None => {
            return None;
        },
    };
    match exp {
        Some((eneg, emag)) => Some(NumberParts::Finite(d, f, eneg, emag)),
        None => None,
    }
}

/// Whether `s` is a number in the form `str::parse::<f64>` accepts.
pub fn is_float_text(s: &[char]) -> (r: bool)
    ensures
        r == (float_text(s@) is Some),
{
    let n = s.len();
    let start: usize = if n > 0 && (s[0] == '+' || s[0] == '-') { 1 } else { 0 };
    let body = copy_range(s, start, n);
    assert(body@ == split_sign(s@).1);
    number_parts(body.as_slice()).is_some()
}

/// An offset as the library reads it: milliseconds, or the text of a number of seconds.
#[derive(Debug, Clone, PartialEq)]
pub enum OffsetAmount {
    Millis(i64),
    Seconds(String),
}

/// What an offset text stands for (see `offset_result`).
pub fn read_offset_text(input: &str) -> (r: Result<OffsetAmount, OffsetError>)
    ensures
        match r {
            Ok(OffsetAmount::Millis(v)) => offset_result(input@) == Ok::<OffsetForm, OffsetError>(
                OffsetForm::Millis(v as int),
            ),
            Ok(OffsetAmount::Seconds(w)) => offset_result(input@) == Ok::<OffsetForm, OffsetError>(
                OffsetForm::Seconds(w@),
            ),
            Err(e) => offset_result(input@) == Err::<OffsetForm, OffsetError>(e),
        },
{
    let raw = chars_of(input);
    let t = trim_chars(raw.as_slice());
    let tl = t.len();
    if tl == 0 {
        return Ok(OffsetAmount::Millis(0));
    }
    let ms = chars_of("ms");
    let ms_upper = chars_of("MS");
    if ends_with(t.as_slice(), ms.as_slice()) || ends_with(t.as_slice(), ms_upper.as_slice()) {
        proof {
            reveal_strlit("ms");
            reveal_strlit("MS");
        }
        let head = copy_range(t.as_slice(), 0, tl - 2);
        assert(head@ == t@.take(t@.len() - 2));
        let num = trim_chars(head.as_slice());
        return match parse_i64_chars(num.as_slice()) {
            Some(v) => Ok(OffsetAmount::Millis(v)),
            None => Err(OffsetError::InvalidMillisecondsOffset),
        };
    }
    let last = t[tl - 1];
    if last == 's' || last == 'S' {
        let head = copy_range(t.as_slice(), 0, tl - 1);
        assert(head@ == t@.drop_last());
        let num = trim_chars(head.as_slice());
        return if is_float_text(num.as_slice()) {
            Ok(OffsetAmount::Seconds(string_of(num.as_slice())))
        } else {
            Err(OffsetError::InvalidSecondsOffset)
        };
    }
    if find_first(t.as_slice(), '.').is_some() {
        return if is_float_text(t.as_slice()) {
            Ok(OffsetAmount::Seconds(string_of(t.as_slice())))
        } else {
            Err(OffsetError::InvalidSecondsOffset)
        };
    }
    match parse_i64_chars(t.as_slice()) {
        Some(v) => Ok(OffsetAmount::Millis(v)),
        None => Err(OffsetError::InvalidMillisecondOffset),
    }
}

// ---------------------------------------------------------------------------
// A leading minus
// ---------------------------------------------------------------------------

proof fn lemma_trim_unchanged(s: Seq<char>)
    requires
        s.len() > 0,
        !is_white(s[0]),
        !is_white(s.last()),
    ensures
        trim(s) == s,
{
    assert(trim_start(s) == s);
    assert(trim_end(s) == s);
}

proof fn lemma_trim_end_after_minus(w: Seq<char>)
    requires
        w.len() > 0,
        !is_white(w[0]),
    ensures
        trim_end(seq!['-'] + w) == seq!['-'] + trim_end(w),
        trim_end(w).len() > 0,
        trim_end(w)[0] == w[0],
    decreases w.len(),
{
    let mw = seq!['-'] + w;
    assert(mw.last() == w.last());
    if is_white(w.last()) {
        assert(w.len() >= 2);
        let d = w.drop_last();
        assert(d[0] == w[0]);
        assert(mw.drop_last() =~= seq!['-'] + d);
        lemma_trim_end_after_minus(d);
    } else {
        assert(trim_end(mw) == mw);
        assert(trim_end(w) == w);
    }
}

/// Trimming a text that starts without white space commutes with putting `-` in front.
proof fn lemma_trim_after_minus(w: Seq<char>)
    requires
        w.len() > 0,
        !is_white(w[0]),
    ensures
        trim(seq!['-'] + w) == seq!['-'] + trim(w),
        trim(w).len() > 0,
        trim(w)[0] == w[0],
{
    let mw = seq!['-'] + w;
    assert(!is_white('-'));
    assert(trim_start(mw) == mw);
    assert(trim_start(w) == w);
    lemma_trim_end_after_minus(w);
}

/// `-` in front of a text that starts with a digit negates what `str::parse::<i64>` reads.
proof fn lemma_parse_i64_minus(y: Seq<char>)
    requires
        y.len() > 0,
        y[0] != '+',
        y[0] != '-',
        parse_i64_text(y) is Some,
    ensures
        parse_i64_text(seq!['-'] + y) == Some(-(parse_i64_text(y)->0)),
{
    let my = seq!['-'] + y;
    assert(my[0] == '-');
    assert(my.drop_first() =~= y);
}

/// `-` in front of a number of seconds that starts without a sign is again a number of
/// seconds.
proof fn lemma_seconds_minus(w: Seq<char>)
    requires
        w.len() > 0,
        w[0] != '+',
        w[0] != '-',
        float_text(w) is Some,
    ensures
        float_text(seq!['-'] + w) is Some,
{
    let mw = seq!['-'] + w;
    assert(mw[0] == '-');
    assert(mw.drop_first() =~= w);
    assert(split_sign(mw) == (true, w));
    assert(split_sign(w) == (false, w));
}

proof fn lemma_first_index_of_some(s: Seq<char>, c: char)
    ensures
        first_index_of(s, c) is Some <==> exists|i: int| 0 <= i < s.len() && s[i] == c,
    decreases s.len(),
{
    if s.len() > 0 {
        let d = s.drop_last();
        lemma_first_index_of_some(d, c);
        if first_index_of(d, c) is Some {
            let i = choose|i: int| 0 <= i < d.len() && d[i] == c;
            assert(s[i] == c);
        }
        if exists|i: int| 0 <= i < s.len() && s[i] == c {
            let i = choose|i: int| 0 <= i < s.len() && s[i] == c;
            if i < d.len() {
                assert(d[i] == c);
            }
        }
    }
}

/// A leading `-` turns an offset the other way: for a text with no surrounding white
/// space that does not start with a sign, putting `-` in front negates an offset of
/// milliseconds, and puts `-` in front of the text of an offset of seconds.
pub proof fn law_minus_negates_offset(u: Seq<char>)
    requires
        u.len() > 0,
        !is_white(u[0]),
        !is_white(u.last()),
        u[0] != '+',
        u[0] != '-',
        offset_result(u) is Ok,
    ensures
        match offset_result(u) {
            Ok(OffsetForm::Millis(v)) => offset_result(seq!['-'] + u) == Ok::<OffsetForm, OffsetError>(
                OffsetForm::Millis(-v),
            ),
            Ok(OffsetForm::Seconds(w)) => offset_result(seq!['-'] + u) == Ok::<OffsetForm, OffsetError>(
                OffsetForm::Seconds(seq!['-'] + w),
            ),
            Err(_) => true,
        },
{
    let mu = seq!['-'] + u;
    lemma_trim_unchanged(u);
    assert(!is_white('-'));
    assert(mu.last() == u.last());
    lemma_trim_unchanged(mu);
    reveal_strlit("ms");
    reveal_strlit("MS");
    assert(has_suffix(mu, "ms"@) == has_suffix(u, "ms"@)) by {
        if u.len() >= 2 {
            assert(mu.subrange(mu.len() - 2, mu.len() as int) =~= u.subrange(u.len() - 2, u.len() as int));
        } else {
            assert(mu[mu.len() - 2] == '-');
        }
    }
    assert(has_suffix(mu, "MS"@) == has_suffix(u, "MS"@)) by {
        if u.len() >= 2 {
            assert(mu.subrange(mu.len() - 2, mu.len() as int) =~= u.subrange(u.len() - 2, u.len() as int));
        } else {
            assert(mu[mu.len() - 2] == '-');
        }
    }
    if has_suffix(u, "ms"@) || has_suffix(u, "MS"@) {
        let x = u.take(u.len() - 2);
        assert(mu.take(mu.len() - 2) =~= seq!['-'] + x);
        assert(x.len() > 0) by {
            if x.len() == 0 {
                assert(trim(x) =~= Seq::<char>::empty());
            }
        }
        assert(x[0] == u[0]);
        lemma_trim_after_minus(x);
        lemma_parse_i64_minus(trim(x));
    } else if u.last() == 's' || u.last() == 'S' {
        let w = u.drop_last();
        assert(mu.drop_last() =~= seq!['-'] + w);
        assert(w.len() > 0) by {
            if w.len() == 0 {
                assert(trim(w) =~= Seq::<char>::empty());
                assert(float_text(Seq::<char>::empty()) is None) by {
                    assert(split_sign(Seq::<char>::empty()) == (false, Seq::<char>::empty()));
                    assert(mantissa_digits(Seq::<char>::empty()) is None);
                    assert(first_index_of(Seq::<char>::empty(), 'e') is None);
                    assert(first_index_of(Seq::<char>::empty(), 'E') is None);
                    assert(!eq_ignore_ascii_case(Seq::<char>::empty(), "inf"@)) by {
                        reveal_strlit("inf");
                    }
                    assert(!eq_ignore_ascii_case(Seq::<char>::empty(), "infinity"@)) by {
                        reveal_strlit("infinity");
                    }
                    assert(!eq_ignore_ascii_case(Seq::<char>::empty(), "nan"@)) by {
                        reveal_strlit("nan");
                    }
                }
            }
        }
        assert(w[0] == u[0]);
        lemma_trim_after_minus(w);
        lemma_seconds_minus(trim(w));
    } else {
        lemma_first_index_of_some(u, '.');
        lemma_first_index_of_some(mu, '.');
        assert(first_index_of(mu, '.') is Some <==> first_index_of(u, '.') is Some) by {
            if first_index_of(u, '.') is Some {
                let i = choose|i: int| 0 <= i < u.len() && u[i] == '.';
                assert(mu[i + 1] == '.');
            }
            if first_index_of(mu, '.') is Some {
                let i = choose|i: int| 0 <= i < mu.len() && mu[i] == '.';
                assert(i > 0);
                assert(u[i - 1] == '.');
            }
        }
        if first_index_of(u, '.') is Some {
            lemma_seconds_minus(u);
        } else {
            lemma_parse_i64_minus(u);
        }
    }
}

// ---------------------------------------------------------------------------
// Integers read back
// ---------------------------------------------------------------------------

/// An integer written in decimal, with `-` in front when it is negative (as `to_string`
/// writes an `i64`).
pub open spec fn integer_text(n: int) -> Seq<char> {
    if n < 0 {
        seq!['-'] + decimal((-n) as nat)
    } else {
        decimal(n as nat)
    }
}

/// The decimal text of an `i64` reads back as that number with `str::parse::<i64>`; it
/// starts and ends without white space, ends with a digit and holds no `.`.
proof fn lemma_integer_text(n: i64)
    ensures
        parse_i64_text(integer_text(n as int)) == Some(n as int),
        integer_text(n as int).len() > 0,
        !is_white(integer_text(n as int)[0]),
        is_ascii_digit(integer_text(n as int).last()),
        forall|k: int| 0 <= k < integer_text(n as int).len() ==> #[trigger] integer_text(n as int)[k] != '.',
{
    let t = integer_text(n as int);
    if n < 0 {
        let m = (-(n as int)) as nat;
        lemma_decimal_value(m);
        let d = decimal(m);
        assert(t[0] == '-');
        assert(t.drop_first() =~= d);
        assert(t.last() == d.last());
        assert(is_ascii_digit(d[d.len() - 1]));
        assert forall|k: int| 0 <= k < t.len() implies #[trigger] t[k] != '.' by {
            if k > 0 {
                assert(t[k] == d[k - 1]);
                assert(is_ascii_digit(d[k - 1]));
            }
        }
    } else {
        lemma_decimal_value(n as nat);
        assert(is_ascii_digit(t[0]));
        assert(is_ascii_digit(t[t.len() - 1]));
        assert forall|k: int| 0 <= k < t.len() implies #[trigger] t[k] != '.' by {
            assert(is_ascii_digit(t[k]));
        }
    }
}

/// A text that starts and ends without white space is its own trim.
proof fn lemma_trim_of_plain(s: Seq<char>)
    requires
        s.len() > 0,
        !is_white(s[0]),
        !is_white(s.last()),
    ensures
        trim(s) == s,
{
    lemma_trim_unchanged(s);
}

/// One space on each side is trimmed away.
proof fn lemma_trim_spaced(s: Seq<char>)
    requires
        s.len() > 0,
        !is_white(s[0]),
        !is_white(s.last()),
    ensures
        trim(seq![' '] + s + seq![' ']) == s,
{
    let x = seq![' '] + s + seq![' '];
    assert(is_white(' '));
    assert(x.drop_first() =~= s + seq![' ']);
    assert(trim_start(x) == trim_start(s + seq![' ']));
    let y = s + seq![' '];
    assert(trim_start(y) == y) by {
        assert(y[0] == s[0]);
    }
    assert(y.last() == ' ');
    assert(y.drop_last() =~= s);
    assert(trim_end(y) == trim_end(s));
    assert(trim_end(s) == s);
}

/// An integer of milliseconds, written as `to_string` writes it, alone, with `ms`, or with
/// ` MS` and a space on each side, reads back as that integer; a blank text is 0.
pub proof fn law_integer_offsets_read_back(n: i64, s: Seq<char>)
    ensures
        offset_result(integer_text(n as int)) == Ok::<OffsetForm, OffsetError>(OffsetForm::Millis(n as int)),
        offset_result(integer_text(n as int) + "ms"@) == Ok::<OffsetForm, OffsetError>(OffsetForm::Millis(n as int)),
        offset_result(seq![' '] + integer_text(n as int) + " MS "@) == Ok::<OffsetForm, OffsetError>(
            OffsetForm::Millis(n as int),
        ),
        trim(s).len() == 0 ==> offset_result(s) == Ok::<OffsetForm, OffsetError>(OffsetForm::Millis(0)),
{
    let t = integer_text(n as int);
    lemma_integer_text(n);
    reveal_strlit("ms");
    reveal_strlit("MS");
    reveal_strlit(" MS ");
    assert(!is_white(t.last()));
    // the bare integer
    lemma_trim_of_plain(t);
    assert(!has_suffix(t, "ms"@)) by {
        if has_suffix(t, "ms"@) {
            assert(t.subrange(t.len() - 2, t.len() as int)[1] == t.last());
        }
    }
    assert(!has_suffix(t, "MS"@)) by {
        if has_suffix(t, "MS"@) {
            assert(t.subrange(t.len() - 2, t.len() as int)[1] == t.last());
        }
    }
    assert(t.last() != 's' && t.last() != 'S');
    lemma_first_index_of_some(t, '.');
    // with `ms`
    let a = t + "ms"@;
    assert(a[0] == t[0]);
    assert(a.last() == 's');
    lemma_trim_of_plain(a);
    assert(a.subrange(a.len() - 2, a.len() as int) =~= "ms"@);
    assert(has_suffix(a, "ms"@));
    assert(a.take(a.len() - 2) =~= t);
    // with ` MS ` and a leading space
    let inner = t + " MS"@;
    reveal_strlit(" MS");
    assert(inner[0] == t[0]);
    assert(inner.last() == 'S');
    assert(seq![' '] + t + " MS "@ =~= seq![' '] + inner + seq![' ']);
    lemma_trim_spaced(inner);
    assert(inner.subrange(inner.len() - 2, inner.len() as int) =~= "MS"@);
    assert(!has_suffix(inner, "ms"@)) by {
        assert(inner[inner.len() - 1] == 'S');
    }
    assert(has_suffix(inner, "MS"@));
    assert(inner.take(inner.len() - 2) =~= t + seq![' ']);
    let head = t + seq![' '];
    assert(head.drop_last() =~= t);
    assert(head.last() == ' ' && is_white(' '));
    assert(trim_start(head) == head) by {
        assert(head[0] == t[0]);
    }
    assert(trim_end(head) == trim_end(t));
    assert(trim_end(t) == t);
}

} // verus!
