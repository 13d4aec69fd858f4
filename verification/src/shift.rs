//! Shifting the timings of SRT and ASS subtitles by a number of milliseconds.

use crate::text::{
    all_ascii_digits, is_ascii_digit, lemma_decimal_value, lemma_leading_zeros_value, lemma_parse_padded_decimal, chars_of, copy_range, decimal, first_index_of, has_prefix, is_nd, is_nd_char, lemma_first_index_of,
    lemma_nd_run_end, lemma_white_run_end, literal_at, nd_run_end, nd_run_end_at, occurs_at, padded_decimal,
    parse_i64_chars, parse_i64_text, push_all, push_padded_decimal, string_of, white_run_end, white_run_end_at,
};
use vstd::prelude::*;

verus! {

// ---------------------------------------------------------------------------
// Fields of a timestamp (`str::split` on separator characters)
// ---------------------------------------------------------------------------

/// Separators of an SRT timestamp: `:`, `,` and `.`.
pub open spec fn srt_sep(c: char) -> bool {
    c == ':' || c == ',' || c == '.'
}

/// Separators of an ASS timestamp: `:` and `.`.
pub open spec fn ass_sep(c: char) -> bool {
    c == ':' || c == '.'
}

/// The separator characters of the given kind.
pub open spec fn is_sep(srt: bool, c: char) -> bool {
    if srt { srt_sep(c) } else { ass_sep(c) }
}

/// Positions of the separators in `s`.
pub open spec fn sep_positions(s: Seq<char>, srt: bool) -> Seq<int>
    decreases s.len(),
{
    if s.len() == 0 {
        Seq::empty()
    } else {
        let p = sep_positions(s.drop_last(), srt);
        if is_sep(srt, s.last()) { p.push(s.len() - 1) } else { p }
    }
}

/// The four fields that splitting `s` at its separators gives, when it gives exactly four.
pub open spec fn four_fields(s: Seq<char>, srt: bool) -> Option<(Seq<char>, Seq<char>, Seq<char>, Seq<char>)> {
    let ps = sep_positions(s, srt);
    if ps.len() == 3 {
        Some((s.subrange(0, ps[0]), s.subrange(ps[0] + 1, ps[1]), s.subrange(ps[1] + 1, ps[2]), s.subrange(ps[2] + 1, s.len() as int)))
    } else {
        None
    }
}

proof fn lemma_sep_positions(s: Seq<char>, srt: bool)
    ensures
        forall|i: int| 0 <= i < sep_positions(s, srt).len() ==> 0 <= #[trigger] sep_positions(s, srt)[i] < s.len(),
        forall|i: int, j: int| 0 <= i < j < sep_positions(s, srt).len() ==> #[trigger] sep_positions(s, srt)[i] < #[trigger] sep_positions(s, srt)[j],
    decreases s.len(),
{
    if s.len() > 0 {
        let d = s.drop_last();
        lemma_sep_positions(d, srt);
        let p = sep_positions(d, srt);
        if is_sep(srt, s.last()) {
            let q = p.push(s.len() - 1);
            assert(sep_positions(s, srt) == q);
            assert forall|i: int| 0 <= i < q.len() implies 0 <= #[trigger] q[i] < s.len() by {
                if i < p.len() {
                    assert(q[i] == p[i]);
                }
            }
            assert forall|i: int, j: int| 0 <= i < j < q.len() implies #[trigger] q[i] < #[trigger] q[j] by {
                assert(q[i] == p[i]);
                if j < p.len() {
                    assert(q[j] == p[j]);
                }
            }
        }
    }
}

/// Separator positions of `s`, stopping after four.
fn find_separators(s: &[char], srt: bool) -> (r: Vec<usize>)
    ensures
        r@.len() <= 4,
        r@.len() < 4 ==> r@.len() == sep_positions(s@, srt).len() && forall|i: int| 0 <= i < r@.len() ==> r@[i] as int == sep_positions(s@, srt)[i],
        r@.len() == 4 ==> sep_positions(s@, srt).len() >= 4,
{
    let mut r: Vec<usize> = Vec::new();
    let mut k: usize = 0;
    while k < s.len()
        invariant
            k <= s@.len(),
            r@.len() < 4,
            r@.len() == sep_positions(s@.take(k as int), srt).len(),
            forall|i: int| 0 <= i < r@.len() ==> r@[i] as int == sep_positions(s@.take(k as int), srt)[i],
        decreases s@.len() - k,
    {
        let c = s[k];
        let sep = if srt { c == ':' || c == ',' || c == '.' } else { c == ':' || c == '.' };
        assert(s@.take(k + 1).drop_last() == s@.take(k as int));
        assert(s@.take(k + 1).last() == c);
        if sep {
            r.push(k);
            if r.len() == 4 {
                proof {
                    lemma_sep_prefix(s@, srt, k + 1);
                }
                return r;
            }
        }
        k += 1;
    }
    assert(s@.take(k as int) == s@);
    r
}

proof fn lemma_sep_prefix(s: Seq<char>, srt: bool, k: int)
    requires
        0 <= k <= s.len(),
    ensures
        sep_positions(s, srt).len() >= sep_positions(s.take(k), srt).len(),
        forall|i: int| 0 <= i < sep_positions(s.take(k), srt).len() ==> sep_positions(s, srt)[i] == sep_positions(s.take(k), srt)[i],
    decreases s.len() - k,
{
    if k < s.len() {
        assert(s.drop_last().take(k) == s.take(k));
        lemma_sep_prefix(s.drop_last(), srt, k);
    } else {
        assert(s.take(k) == s);
    }
}

/// The four fields of a timestamp, if it splits into exactly four.
fn split_four(s: &[char], srt: bool) -> (r: Option<(Vec<char>, Vec<char>, Vec<char>, Vec<char>)>)
    ensures
        match r {
            Some((a, b, c, d)) => four_fields(s@, srt) == Some((a@, b@, c@, d@)),
            None => four_fields(s@, srt) is None,
        },
{
    let ps = find_separators(s, srt);
    if ps.len() != 3 {
        return None;
    }
    proof {
        lemma_sep_positions(s@, srt);
    }
    let n = s.len();
    let a = copy_range(s, 0, ps[0]);
    let b = copy_range(s, ps[0] + 1, ps[1]);
    let c = copy_range(s, ps[1] + 1, ps[2]);
    let d = copy_range(s, ps[2] + 1, n);
    Some((a, b, c, d))
}

// ---------------------------------------------------------------------------
// Shifting one timestamp
// ---------------------------------------------------------------------------

pub open spec fn fits_i64(x: int) -> bool {
    i64::MIN <= x <= i64::MAX
}

/// Milliseconds of `h:m:s` plus `last * unit`, where every step of the computation and
/// the shift stay within `i64` (as the arithmetic on `i64` requires).
pub open spec fn total_fits(h: int, m: int, s: int, last: int, unit: int, offset: int) -> bool {
    &&& fits_i64(h * 3_600_000)
    &&& fits_i64(m * 60_000)
    &&& fits_i64(s * 1000)
    &&& fits_i64(last * unit)
    &&& fits_i64(h * 3_600_000 + m * 60_000)
    &&& fits_i64(h * 3_600_000 + m * 60_000 + s * 1000)
    &&& fits_i64(h * 3_600_000 + m * 60_000 + s * 1000 + last * unit)
    &&& fits_i64(h * 3_600_000 + m * 60_000 + s * 1000 + last * unit + offset)
}

/// The parsed fields of a timestamp of the given kind.
pub open spec fn stamp_values(ts: Seq<char>, srt: bool) -> Option<(int, int, int, int)> {
    match four_fields(ts, srt) {
        Some((a, b, c, d)) => match (parse_i64_text(a), parse_i64_text(b), parse_i64_text(c), parse_i64_text(d)) {
            (Some(h), Some(m), Some(s), Some(x)) => Some((h, m, s, x)),
            _ => None,
        },
        None => None,
    }
}

/// Shifting the timestamp `ts` stays within `i64` (or leaves it unchanged).
pub open spec fn stamp_shift_defined(ts: Seq<char>, srt: bool, offset: int) -> bool {
    match stamp_values(ts, srt) {
        Some((h, m, s, x)) => total_fits(h, m, s, x, if srt { 1 } else { 10 }, offset),
        None => true,
    }
}

/// The shifted time in milliseconds, never below zero.
pub open spec fn shifted_total(h: int, m: int, s: int, last: int, unit: int, offset: int) -> int {
    let t = h * 3_600_000 + m * 60_000 + s * 1000 + last * unit + offset;
    if t < 0 { 0 } else { t }
}

/// `HH:MM:SS,mmm` for a time in milliseconds (each field zero-padded, hours may be longer).
pub open spec fn srt_format(t: nat) -> Seq<char> {
    let h = t / 3_600_000;
    let rem = t % 3_600_000;
    let m = rem / 60_000;
    let rem2 = rem % 60_000;
    padded_decimal(h, 2) + seq![':'] + padded_decimal(m, 2) + seq![':'] + padded_decimal(rem2 / 1000, 2) + seq![','] + padded_decimal(rem2 % 1000, 3)
}

/// `H:MM:SS.cc` for a time in milliseconds (centiseconds truncated).
pub open spec fn ass_format(t: nat) -> Seq<char> {
    let h = t / 3_600_000;
    let rem = t % 3_600_000;
    let m = rem / 60_000;
    let rem2 = rem % 60_000;
    decimal(h) + seq![':'] + padded_decimal(m, 2) + seq![':'] + padded_decimal(rem2 / 1000, 2) + seq!['.'] + padded_decimal((rem2 % 1000) / 10, 2)
}

/// An SRT timestamp shifted by `offset` milliseconds; a timestamp that does not split into
/// four integer fields is left unchanged.
#[verifier::opaque]
pub open spec fn shift_srt_stamp(ts: Seq<char>, offset: int) -> Seq<char> {
    match stamp_values(ts, true) {
        Some((h, m, s, ms)) => srt_format(shifted_total(h, m, s, ms, 1, offset) as nat),
        None => ts,
    }
}

/// An ASS timestamp shifted by `offset` milliseconds; a timestamp that does not split into
/// four integer fields is left unchanged.
#[verifier::opaque]
pub open spec fn shift_ass_stamp(ts: Seq<char>, offset: int) -> Seq<char> {
    match stamp_values(ts, false) {
        Some((h, m, s, cs)) => ass_format(shifted_total(h, m, s, cs, 10, offset) as nat),
        None => ts,
    }
}

/// The fields of a timestamp as integers, if all four parse.
fn stamp_values_exec(ts: &[char], srt: bool) -> (r: Option<(i64, i64, i64, i64)>)
    ensures
        match r {
            Some((h, m, s, x)) => stamp_values(ts@, srt) == Some((h as int, m as int, s as int, x as int)),
            None => stamp_values(ts@, srt) is None,
        },
{
    let (a, b, c, d) = match split_four(ts, srt) {
        Some(f) => f,
        None => {
            return None;
        },
    };
    match (parse_i64_chars(a.as_slice()), parse_i64_chars(b.as_slice()), parse_i64_chars(c.as_slice()), parse_i64_chars(d.as_slice())) {
        (Some(h), Some(m), Some(s), Some(x)) => Some((h, m, s, x)),
        _ => None,
    }
}

/// Computes `shifted_total` (the caller guarantees that it stays within `i64`).
fn shifted_total_exec(h: i64, m: i64, s: i64, last: i64, unit: i64, offset: i64) -> (r: u64)
    requires
        unit == 1 || unit == 10,
        total_fits(h as int, m as int, s as int, last as int, unit as int, offset as int),
    ensures
        r as int == shifted_total(h as int, m as int, s as int, last as int, unit as int, offset as int),
{
    let total = h * 3_600_000 + m * 60_000 + s * 1000 + last * unit;
    let shifted = total + offset;
    if shifted < 0 {
        0
    } else {
        shifted as u64
    }
}

/// Whether shifting `ts` stays within `i64`.
pub fn stamp_shift_is_defined(ts: &[char], srt: bool, offset_ms: i64) -> (r: bool)
    ensures
        r == stamp_shift_defined(ts@, srt, offset_ms as int),
{
    match stamp_values_exec(ts, srt) {
        Some((h, m, s, x)) => {
            let unit: i128 = if srt { 1 } else { 10 };
            let (hh, mm, ss, xx, off) = (h as i128, m as i128, s as i128, x as i128, offset_ms as i128);
            let lo: i128 = -9223372036854775808;
            let hi: i128 = 9223372036854775807;
            let a = hh * 3_600_000;
            let b = mm * 60_000;
            let c = ss * 1000;
            let d = xx * unit;
            let ab = a + b;
            let abc = ab + c;
            let abcd = abc + d;
            let all = abcd + off;
            lo <= a && a <= hi && lo <= b && b <= hi && lo <= c && c <= hi && lo <= d && d <= hi && lo <= ab && ab <= hi
                && lo <= abc && abc <= hi && lo <= abcd && abcd <= hi && lo <= all && all <= hi
        },
        None => true,
    }
}

/// Appends the shifted form of the timestamp `ts` to `out`.
fn push_shifted_stamp(out: &mut Vec<char>, ts: &[char], srt: bool, offset_ms: i64)
    requires
        stamp_shift_defined(ts@, srt, offset_ms as int),
    ensures
        final(out)@ == old(out)@ + if srt { shift_srt_stamp(ts@, offset_ms as int) } else { shift_ass_stamp(ts@, offset_ms as int) },
{
    reveal(shift_srt_stamp);
    reveal(shift_ass_stamp);
    match stamp_values_exec(ts, srt) {
        Some((h, m, s, x)) => {
            let unit: i64 = if srt { 1 } else { 10 };
            let t = shifted_total_exec(h, m, s, x, unit, offset_ms);
            let hours = t / 3_600_000;
            let rem = t % 3_600_000;
            let mins = rem / 60_000;
            let rem2 = rem % 60_000;
            let ghost start = out@;
            if srt {
                push_padded_decimal(out, hours, 2);
                out.push(':');
                push_padded_decimal(out, mins, 2);
                out.push(':');
                push_padded_decimal(out, rem2 / 1000, 2);
                out.push(',');
                push_padded_decimal(out, rem2 % 1000, 3);
                assert(out@ =~= start + srt_format(t as nat));
            } else {
                push_padded_decimal(out, hours, 0);
                out.push(':');
                push_padded_decimal(out, mins, 2);
                out.push(':');
                push_padded_decimal(out, rem2 / 1000, 2);
                out.push('.');
                push_padded_decimal(out, (rem2 % 1000) / 10, 2);
                assert(padded_decimal(hours as nat, 0) == decimal(hours as nat));
                assert(out@ =~= start + ass_format(t as nat));
            }
        },
        None => {
            push_all(out, ts);
        },
    }
}

/// An SRT timestamp `HH:MM:SS,mmm` shifted by `offset_ms` milliseconds (never below zero);
/// text that does not split into four integer fields is returned unchanged.
pub fn shift_srt_timestamp(ts: &str, offset_ms: i64) -> (r: String)
    requires
        stamp_shift_defined(ts@, true, offset_ms as int),
    ensures
        r@ == shift_srt_stamp(ts@, offset_ms as int),
{
    let t = chars_of(ts);
    let mut out: Vec<char> = Vec::new();
    push_shifted_stamp(&mut out, t.as_slice(), true, offset_ms);
    string_of(out.as_slice())
}

/// An ASS timestamp `H:MM:SS.cc` shifted by `offset_ms` milliseconds (never below zero);
/// text that does not split into four integer fields is returned unchanged.
pub fn shift_ass_timestamp(ts: &str, offset_ms: i64) -> (r: String)
    requires
        stamp_shift_defined(ts@, false, offset_ms as int),
    ensures
        r@ == shift_ass_stamp(ts@, offset_ms as int),
{
    let t = chars_of(ts);
    let mut out: Vec<char> = Vec::new();
    push_shifted_stamp(&mut out, t.as_slice(), false, offset_ms);
    string_of(out.as_slice())
}

// ---------------------------------------------------------------------------
// Reading a shifted timestamp back
// ---------------------------------------------------------------------------

/// Separator positions moved along by `k`.
pub open spec fn moved_positions(ps: Seq<int>, k: int) -> Seq<int> {
    ps.map_values(|p: int| p + k)
}

proof fn lemma_sep_positions_concat(a: Seq<char>, b: Seq<char>, srt: bool)
    ensures
        sep_positions(a + b, srt) == sep_positions(a, srt) + moved_positions(sep_positions(b, srt), a.len() as int),
    decreases b.len(),
{
    if b.len() == 0 {
        assert(a + b =~= a);
        assert(moved_positions(sep_positions(b, srt), a.len() as int) =~= Seq::<int>::empty());
        assert(sep_positions(a, srt) + Seq::<int>::empty() =~= sep_positions(a, srt));
    } else {
        let bd = b.drop_last();
        lemma_sep_positions_concat(a, bd, srt);
        assert((a + b).drop_last() =~= a + bd);
        assert((a + b).last() == b.last());
        let pa = sep_positions(a, srt);
        let mb = moved_positions(sep_positions(bd, srt), a.len() as int);
        if is_sep(srt, b.last()) {
            assert(moved_positions(sep_positions(b, srt), a.len() as int) =~= mb.push(b.len() - 1 + a.len()));
            assert((pa + mb).push(b.len() - 1 + a.len()) =~= pa + mb.push(b.len() - 1 + a.len()));
        } else {
            assert(moved_positions(sep_positions(b, srt), a.len() as int) =~= mb);
        }
    }
}

proof fn lemma_digits_have_no_seps(d: Seq<char>, srt: bool)
    requires
        all_ascii_digits(d),
    ensures
        sep_positions(d, srt) == Seq::<int>::empty(),
    decreases d.len(),
{
    if d.len() > 0 {
        let dd = d.drop_last();
        assert forall|i: int| 0 <= i < dd.len() implies is_ascii_digit(#[trigger] dd[i]) by {
            assert(dd[i] == d[i]);
        }
        lemma_digits_have_no_seps(dd, srt);
        assert(is_ascii_digit(d[d.len() - 1]));
    }
}

proof fn lemma_one_sep(c: char, srt: bool)
    requires
        is_sep(srt, c),
    ensures
        sep_positions(seq![c], srt) == seq![0int],
{
    let one = seq![c];
    assert(one.drop_last() =~= Seq::<char>::empty());
    assert(one.last() == c);
    assert(sep_positions(Seq::<char>::empty(), srt) == Seq::<int>::empty());
    assert(sep_positions(one, srt) == sep_positions(one.drop_last(), srt).push(0));
    assert(Seq::<int>::empty().push(0) =~= seq![0int]);
}

/// Four digit fields joined by three separators split back into those fields.
proof fn lemma_four_fields_of(
    a: Seq<char>,
    b: Seq<char>,
    c: Seq<char>,
    d: Seq<char>,
    s1: char,
    s2: char,
    s3: char,
    srt: bool,
)
    requires
        all_ascii_digits(a),
        all_ascii_digits(b),
        all_ascii_digits(c),
        all_ascii_digits(d),
        is_sep(srt, s1),
        is_sep(srt, s2),
        is_sep(srt, s3),
    ensures
        four_fields(a + seq![s1] + b + seq![s2] + c + seq![s3] + d, srt) == Some((a, b, c, d)),
{
    lemma_digits_have_no_seps(a, srt);
    lemma_digits_have_no_seps(b, srt);
    lemma_digits_have_no_seps(c, srt);
    lemma_digits_have_no_seps(d, srt);
    lemma_one_sep(s1, srt);
    lemma_one_sep(s2, srt);
    lemma_one_sep(s3, srt);
    let x1 = a + seq![s1];
    let x2 = x1 + b;
    let x3 = x2 + seq![s2];
    let x4 = x3 + c;
    let x5 = x4 + seq![s3];
    let x6 = x5 + d;
    let e = Seq::<int>::empty();
    lemma_sep_positions_concat(a, seq![s1], srt);
    assert(moved_positions(seq![0int], a.len() as int) =~= seq![a.len() as int]);
    assert(sep_positions(x1, srt) =~= seq![a.len() as int]);
    lemma_sep_positions_concat(x1, b, srt);
    assert(moved_positions(e, x1.len() as int) =~= e);
    assert(sep_positions(x2, srt) =~= seq![a.len() as int]);
    lemma_sep_positions_concat(x2, seq![s2], srt);
    assert(moved_positions(seq![0int], x2.len() as int) =~= seq![x2.len() as int]);
    assert(sep_positions(x3, srt) =~= seq![a.len() as int, x2.len() as int]);
    lemma_sep_positions_concat(x3, c, srt);
    assert(moved_positions(e, x3.len() as int) =~= e);
    assert(sep_positions(x4, srt) =~= seq![a.len() as int, x2.len() as int]);
    lemma_sep_positions_concat(x4, seq![s3], srt);
    assert(moved_positions(seq![0int], x4.len() as int) =~= seq![x4.len() as int]);
    assert(sep_positions(x5, srt) =~= seq![a.len() as int, x2.len() as int, x4.len() as int]);
    lemma_sep_positions_concat(x5, d, srt);
    assert(moved_positions(e, x5.len() as int) =~= e);
    assert(sep_positions(x6, srt) =~= seq![a.len() as int, x2.len() as int, x4.len() as int]);
    assert(x6.subrange(0, a.len() as int) =~= a);
    assert(x6.subrange(a.len() + 1int, x2.len() as int) =~= b);
    assert(x6.subrange(x2.len() + 1int, x4.len() as int) =~= c);
    assert(x6.subrange(x4.len() + 1int, x6.len() as int) =~= d);
}

/// The fields of `srt_format(t)` read back as hours, minutes, seconds and milliseconds
/// that add up to `t`.
proof fn lemma_srt_format_values(t: nat)
    requires
        t <= i64::MAX,
    ensures
        stamp_values(srt_format(t), true) matches Some((h, m, s, ms)) && h * 3_600_000 + m * 60_000 + s * 1000 + ms == t
            && h >= 0 && m >= 0 && s >= 0 && ms >= 0,
{
    let h = t / 3_600_000;
    let rem = t % 3_600_000;
    let m = rem / 60_000;
    let rem2 = rem % 60_000;
    let sec = rem2 / 1000;
    let ms = rem2 % 1000;
    assert(h <= t && m <= t && sec <= t && ms <= t);
    lemma_parse_padded_decimal(h, 2);
    lemma_parse_padded_decimal(m, 2);
    lemma_parse_padded_decimal(sec, 2);
    lemma_parse_padded_decimal(ms, 3);
    lemma_four_fields_of(
        padded_decimal(h, 2),
        padded_decimal(m, 2),
        padded_decimal(sec, 2),
        padded_decimal(ms, 3),
        ':',
        ':',
        ',',
        true,
    );
    assert(t == h * 3_600_000 + rem) by (nonlinear_arith)
        requires
            h == t / 3_600_000,
            rem == t % 3_600_000,
    ;
    assert(rem == m * 60_000 + rem2) by (nonlinear_arith)
        requires
            m == rem / 60_000,
            rem2 == rem % 60_000,
    ;
    assert(rem2 == sec * 1000 + ms) by (nonlinear_arith)
        requires
            sec == rem2 / 1000,
            ms == rem2 % 1000,
    ;
}

/// The fields of `ass_format(t)` read back as hours, minutes, seconds and centiseconds
/// that add up to `t` less its last digit.
proof fn lemma_ass_format_values(t: nat)
    requires
        t <= i64::MAX,
    ensures
        stamp_values(ass_format(t), false) matches Some((h, m, s, cs)) && h * 3_600_000 + m * 60_000 + s * 1000 + cs
            * 10 == t - t % 10 && h >= 0 && m >= 0 && s >= 0 && cs >= 0,
{
    let h = t / 3_600_000;
    let rem = t % 3_600_000;
    let m = rem / 60_000;
    let rem2 = rem % 60_000;
    let sec = rem2 / 1000;
    let cs = (rem2 % 1000) / 10;
    assert(h <= t && m <= t && sec <= t && cs <= t);
    lemma_decimal_value(h);
    lemma_parse_padded_decimal(h, 0);
    assert(padded_decimal(h, 0) == decimal(h));
    lemma_parse_padded_decimal(m, 2);
    lemma_parse_padded_decimal(sec, 2);
    lemma_parse_padded_decimal(cs, 2);
    lemma_four_fields_of(decimal(h), padded_decimal(m, 2), padded_decimal(sec, 2), padded_decimal(cs, 2), ':', ':', '.', false);
    assert(t == h * 3_600_000 + rem) by (nonlinear_arith)
        requires
            h == t / 3_600_000,
            rem == t % 3_600_000,
    ;
    assert(rem == m * 60_000 + rem2) by (nonlinear_arith)
        requires
            m == rem / 60_000,
            rem2 == rem % 60_000,
    ;
    assert(rem2 % 1000 == cs * 10 + (rem2 % 1000) % 10) by (nonlinear_arith)
        requires
            cs == (rem2 % 1000) / 10,
    ;
    assert(rem2 == sec * 1000 + rem2 % 1000) by (nonlinear_arith)
        requires
            sec == rem2 / 1000,
    ;
    assert(t % 10 == (rem2 % 1000) % 10) by (nonlinear_arith)
        requires
            t == h * 3_600_000 + m * 60_000 + sec * 1000 + rem2 % 1000,
            0 <= rem2 % 1000 < 1000,
    ;
}

/// The time in milliseconds that the fields of a timestamp stand for.
pub open spec fn stamp_total(ts: Seq<char>, srt: bool) -> Option<int> {
    match stamp_values(ts, srt) {
        Some((h, m, s, x)) => Some(h * 3_600_000 + m * 60_000 + s * 1000 + x * (if srt { 1int } else { 10int })),
        None => None,
    }
}

/// A shifted SRT timestamp reads back as the shifted time: the old time plus the offset,
/// or zero where that would be negative.
pub proof fn law_srt_shift_reads_back(ts: Seq<char>, offset: int)
    requires
        stamp_values(ts, true) is Some,
        stamp_shift_defined(ts, true, offset),
    ensures
        stamp_total(shift_srt_stamp(ts, offset), true) == Some(
            if stamp_total(ts, true)->0 + offset < 0 { 0 } else { stamp_total(ts, true)->0 + offset },
        ),
{
    reveal(shift_srt_stamp);
    let (h, m, s, ms) = stamp_values(ts, true)->0;
    lemma_srt_format_values(shifted_total(h, m, s, ms, 1, offset) as nat);
}

/// The time a timestamp shifted by `offset` stands for: the old time plus the offset, or
/// zero where that would be negative.
pub open spec fn clamped_shift(ts: Seq<char>, srt: bool, offset: int) -> int {
    let t = stamp_total(ts, srt)->0 + offset;
    if t < 0 { 0 } else { t }
}

/// An SRT timestamp that was shifted can be shifted again by any `i64` offset that keeps
/// its time within `i64`: the second call's precondition holds.
pub proof fn law_srt_shift_stays_defined(ts: Seq<char>, a: int, b: int)
    requires
        stamp_values(ts, true) is Some,
        stamp_shift_defined(ts, true, a),
        fits_i64(b),
        clamped_shift(ts, true, a) + b <= i64::MAX,
    ensures
        stamp_shift_defined(shift_srt_stamp(ts, a), true, b),
{
    reveal(shift_srt_stamp);
    let (h, m, s, ms) = stamp_values(ts, true)->0;
    let t = shifted_total(h, m, s, ms, 1, a);
    lemma_srt_format_values(t as nat);
}

/// An ASS timestamp that was shifted can be shifted again by any `i64` offset that keeps
/// its time within `i64`: the second call's precondition holds.
pub proof fn law_ass_shift_stays_defined(ts: Seq<char>, a: int, b: int)
    requires
        stamp_values(ts, false) is Some,
        stamp_shift_defined(ts, false, a),
        fits_i64(b),
        clamped_shift(ts, false, a) + b <= i64::MAX,
    ensures
        stamp_shift_defined(shift_ass_stamp(ts, a), false, b),
{
    reveal(shift_ass_stamp);
    let (h, m, s, cs) = stamp_values(ts, false)->0;
    let t = shifted_total(h, m, s, cs, 10, a);
    lemma_ass_format_values(t as nat);
    assert(0 <= t % 10 <= t) by (nonlinear_arith)
        requires
            t >= 0,
    ;
}

/// Shifting an SRT timestamp by `a` and then by `b` is shifting it by `a + b`, when the
/// first shift does not reach below zero (where it stops).
pub proof fn law_srt_shifts_add(ts: Seq<char>, a: int, b: int)
    requires
        stamp_values(ts, true) is Some,
        stamp_shift_defined(ts, true, a),
        stamp_total(ts, true)->0 + a >= 0,
    ensures
        shift_srt_stamp(shift_srt_stamp(ts, a), b) == shift_srt_stamp(ts, a + b),
{
    reveal(shift_srt_stamp);
    let (h, m, s, ms) = stamp_values(ts, true)->0;
    lemma_srt_format_values(shifted_total(h, m, s, ms, 1, a) as nat);
}

/// A shifted ASS timestamp reads back as the shifted time cut to whole centiseconds (zero
/// where the shift would make it negative).
pub proof fn law_ass_shift_reads_back(ts: Seq<char>, offset: int)
    requires
        stamp_values(ts, false) is Some,
        stamp_shift_defined(ts, false, offset),
    ensures
        stamp_total(shift_ass_stamp(ts, offset), false) == Some(
            {
                let t = if stamp_total(ts, false)->0 + offset < 0 { 0 } else { stamp_total(ts, false)->0 + offset };
                t - t % 10
            },
        ),
{
    reveal(shift_ass_stamp);
    let (h, m, s, cs) = stamp_values(ts, false)->0;
    lemma_ass_format_values(shifted_total(h, m, s, cs, 10, offset) as nat);
}

/// Shifting an ASS timestamp by `a` and then by `b` is shifting it by `a + b`, when `a` is
/// a whole number of centiseconds and the first shift does not reach below zero.
pub proof fn law_ass_shifts_add(ts: Seq<char>, a: int, b: int)
    requires
        stamp_values(ts, false) is Some,
        stamp_shift_defined(ts, false, a),
        stamp_total(ts, false)->0 + a >= 0,
        a % 10 == 0,
    ensures
        shift_ass_stamp(shift_ass_stamp(ts, a), b) == shift_ass_stamp(ts, a + b),
{
    reveal(shift_ass_stamp);
    let (h, m, s, cs) = stamp_values(ts, false)->0;
    let t = shifted_total(h, m, s, cs, 10, a);
    lemma_ass_format_values(t as nat);
    assert(t % 10 == 0) by (nonlinear_arith)
        requires
            t == h * 3_600_000 + m * 60_000 + s * 1000 + cs * 10 + a,
            a % 10 == 0,
    ;
}

/// Two calls of `shift_srt_timestamp`, by `a` and then by `b`, are allowed and give what
/// one call by `a + b` gives, when the first shift does not reach below zero and the
/// times stay within `i64`.
pub proof fn law_srt_two_shifts(ts: Seq<char>, a: int, b: int)
    requires
        stamp_values(ts, true) is Some,
        stamp_shift_defined(ts, true, a),
        stamp_total(ts, true)->0 + a >= 0,
        fits_i64(b),
        clamped_shift(ts, true, a) + b <= i64::MAX,
    ensures
        stamp_shift_defined(shift_srt_stamp(ts, a), true, b),
        shift_srt_stamp(shift_srt_stamp(ts, a), b) == shift_srt_stamp(ts, a + b),
{
    law_srt_shift_stays_defined(ts, a, b);
    law_srt_shifts_add(ts, a, b);
}

/// Two calls of `shift_ass_timestamp`, by `a` and then by `b`, are allowed and give what
/// one call by `a + b` gives, when `a` is a whole number of centiseconds, the first shift
/// does not reach below zero and the times stay within `i64`.
pub proof fn law_ass_two_shifts(ts: Seq<char>, a: int, b: int)
    requires
        stamp_values(ts, false) is Some,
        stamp_shift_defined(ts, false, a),
        stamp_total(ts, false)->0 + a >= 0,
        a % 10 == 0,
        fits_i64(b),
        clamped_shift(ts, false, a) + b <= i64::MAX,
    ensures
        stamp_shift_defined(shift_ass_stamp(ts, a), false, b),
        shift_ass_stamp(shift_ass_stamp(ts, a), b) == shift_ass_stamp(ts, a + b),
{
    law_ass_shift_stays_defined(ts, a, b);
    law_ass_shifts_add(ts, a, b);
}

// ---------------------------------------------------------------------------
// SRT timing lines: `(\d{2}:\d{2}:\d{2}[,\.]\d{3})\s*-->\s*(\d{2}:\d{2}:\d{2}[,\.]\d{3})`
// ---------------------------------------------------------------------------

/// An SRT timestamp `\d{2}:\d{2}:\d{2}[,.]\d{3}` starts at `i`.
pub open spec fn srt_stamp_at(t: Seq<char>, i: int) -> bool {
    &&& 0 <= i
    &&& i + 12 <= t.len()
    &&& is_nd(t[i]) && is_nd(t[i + 1]) && t[i + 2] == ':'
    &&& is_nd(t[i + 3]) && is_nd(t[i + 4]) && t[i + 5] == ':'
    &&& is_nd(t[i + 6]) && is_nd(t[i + 7]) && (t[i + 8] == ',' || t[i + 8] == '.')
    &&& is_nd(t[i + 9]) && is_nd(t[i + 10]) && is_nd(t[i + 11])
}

/// The SRT timing pattern matches at `i`; the result is where its second timestamp starts.
pub open spec fn srt_match_at(t: Seq<char>, i: int) -> Option<int> {
    if srt_stamp_at(t, i) {
        let w = white_run_end(t, i + 12);
        if occurs_at(t, seq!['-', '-', '>'], w) {
            let w2 = white_run_end(t, w + 3);
            if srt_stamp_at(t, w2) { Some(w2) } else { None }
        } else {
            None
        }
    } else {
        None
    }
}

pub proof fn lemma_srt_match_at(t: Seq<char>, i: int)
    ensures
        srt_match_at(t, i) matches Some(w2) ==> i + 15 <= w2 && w2 + 12 <= t.len(),
{
    if srt_stamp_at(t, i) {
        lemma_white_run_end(t, i + 12);
        let w = white_run_end(t, i + 12);
        if occurs_at(t, seq!['-', '-', '>'], w) {
            lemma_white_run_end(t, w + 3);
        }
    }
}

/// `replace_all` of the SRT timing pattern in `t` from `p` on: each match is replaced by the
/// two shifted timestamps joined by ` --> `.
pub open spec fn srt_replace_from(t: Seq<char>, p: int, offset: int) -> Seq<char>
    decreases t.len() - p,
{
    if p < 0 || p >= t.len() {
        Seq::empty()
    } else {
        match srt_match_at(t, p) {
            Some(w2) => {
                proof {
                    lemma_srt_match_at(t, p);
                }
                shift_srt_stamp(t.subrange(p, p + 12), offset) + seq![' ', '-', '-', '>', ' '] + shift_srt_stamp(
                    t.subrange(w2, w2 + 12),
                    offset,
                ) + srt_replace_from(t, w2 + 12, offset)
            },
            None => seq![t[p]] + srt_replace_from(t, p + 1, offset),
        }
    }
}

/// Every timestamp that `srt_replace_from` shifts stays within `i64`.
pub open spec fn srt_replace_defined_from(t: Seq<char>, p: int, offset: int) -> bool
    decreases t.len() - p,
{
    if p < 0 || p >= t.len() {
        true
    } else {
        match srt_match_at(t, p) {
            Some(w2) => {
                proof {
                    lemma_srt_match_at(t, p);
                }
                stamp_shift_defined(t.subrange(p, p + 12), true, offset) && stamp_shift_defined(
                    t.subrange(w2, w2 + 12),
                    true,
                    offset,
                ) && srt_replace_defined_from(t, w2 + 12, offset)
            },
            None => srt_replace_defined_from(t, p + 1, offset),
        }
    }
}

/// The SRT timing pattern matches somewhere at or after `p`.
pub open spec fn srt_found_from(t: Seq<char>, p: int) -> bool
    decreases t.len() - p,
{
    if p < 0 || p >= t.len() {
        false
    } else {
        srt_match_at(t, p) is Some || srt_found_from(t, p + 1)
    }
}

fn srt_stamp_at_exec(t: &[char], i: usize) -> (r: bool)
    ensures
        r == srt_stamp_at(t@, i as int),
{
    if t.len() < 12 || i > t.len() - 12 {
        return false;
    }
    is_nd_char(t[i]) && is_nd_char(t[i + 1]) && t[i + 2] == ':' && is_nd_char(t[i + 3]) && is_nd_char(t[i + 4])
        && t[i + 5] == ':' && is_nd_char(t[i + 6]) && is_nd_char(t[i + 7]) && (t[i + 8] == ',' || t[i + 8] == '.')
        && is_nd_char(t[i + 9]) && is_nd_char(t[i + 10]) && is_nd_char(t[i + 11])
}

fn srt_match_at_exec(t: &[char], i: usize) -> (r: Option<usize>)
    ensures
        match r {
            Some(w2) => srt_match_at(t@, i as int) == Some(w2 as int),
            None => srt_match_at(t@, i as int) is None,
        },
{
    let tl = t.len();
    if !srt_stamp_at_exec(t, i) {
        return None;
    }
    proof {
        lemma_white_run_end(t@, i + 12);
    }
    let w = white_run_end_at(t, i + 12);
    if w < tl && tl - w >= 3 && t[w] == '-' && t[w + 1] == '-' && t[w + 2] == '>' {
        assert(t@.subrange(w as int, w + 3) =~= seq!['-', '-', '>']);
        proof {
            lemma_white_run_end(t@, w + 3);
        }
        let w2 = white_run_end_at(t, w + 3);
        if srt_stamp_at_exec(t, w2) {
            return Some(w2);
        }
        return None;
    }
    proof {
        if occurs_at(t@, seq!['-', '-', '>'], w as int) {
            assert(t@.subrange(w as int, w + 3)[0] == t@[w as int]);
            assert(t@.subrange(w as int, w + 3)[1] == t@[w + 1]);
            assert(t@.subrange(w as int, w + 3)[2] == t@[w + 2]);
        }
    }
    None
}

/// The replacement of one SRT timing match: both timestamps shifted, joined by ` --> `.
pub open spec fn srt_replacement(t: Seq<char>, p: int, w2: int, offset: int) -> Seq<char> {
    shift_srt_stamp(t.subrange(p, p + 12), offset) + seq![' ', '-', '-', '>', ' '] + shift_srt_stamp(
        t.subrange(w2, w2 + 12),
        offset,
    )
}

fn push_srt_replacement(out: &mut Vec<char>, t: &[char], p: usize, w2: usize, offset_ms: i64)
    requires
        p + 12 <= t@.len(),
        w2 + 12 <= t@.len(),
        stamp_shift_defined(t@.subrange(p as int, p + 12), true, offset_ms as int),
        stamp_shift_defined(t@.subrange(w2 as int, w2 + 12), true, offset_ms as int),
    ensures
        final(out)@ == old(out)@ + srt_replacement(t@, p as int, w2 as int, offset_ms as int),
{
    let tl = t.len();
    let first = copy_range(t, p, p + 12);
    let second = copy_range(t, w2, w2 + 12);
    let ghost before = out@;
    let ghost a = shift_srt_stamp(first@, offset_ms as int);
    let ghost b = shift_srt_stamp(second@, offset_ms as int);
    push_shifted_stamp(out, first.as_slice(), true, offset_ms);
    assert(out@ == before + a);
    out.push(' ');
    out.push('-');
    out.push('-');
    out.push('>');
    out.push(' ');
    assert(out@ =~= before + a + seq![' ', '-', '-', '>', ' ']);
    let ghost mid = out@;
    push_shifted_stamp(out, second.as_slice(), true, offset_ms);
    assert(out@ == mid + b);
    assert(out@ =~= before + (a + seq![' ', '-', '-', '>', ' '] + b));
}

proof fn lemma_srt_replace_step(t: Seq<char>, p: int, offset: int)
    requires
        0 <= p < t.len(),
    ensures
        match srt_match_at(t, p) {
            Some(w2) => srt_replace_from(t, p, offset) == srt_replacement(t, p, w2, offset) + srt_replace_from(t, w2 + 12, offset)
                && (srt_replace_defined_from(t, p, offset) == (stamp_shift_defined(t.subrange(p, p + 12), true, offset)
                && stamp_shift_defined(t.subrange(w2, w2 + 12), true, offset) && srt_replace_defined_from(t, w2 + 12, offset)))
                && srt_found_from(t, p) && p + 15 <= w2 && w2 + 12 <= t.len(),
            None => srt_replace_from(t, p, offset) == seq![t[p]] + srt_replace_from(t, p + 1, offset)
                && srt_replace_defined_from(t, p, offset) == srt_replace_defined_from(t, p + 1, offset)
                && srt_found_from(t, p) == srt_found_from(t, p + 1),
        },
{
    lemma_srt_match_at(t, p);
}

/// `srt_replace_from(t, 0, offset)`, and whether the pattern matched at all.
fn srt_replace_line(t: &[char], offset_ms: i64) -> (r: (Vec<char>, bool))
    requires
        srt_replace_defined_from(t@, 0, offset_ms as int),
    ensures
        r.0@ == srt_replace_from(t@, 0, offset_ms as int),
        r.1 == srt_found_from(t@, 0),
{
    let n = t.len();
    let mut out: Vec<char> = Vec::new();
    let mut found = false;
    let mut p: usize = 0;
    while p < n
        invariant
            n == t@.len(),
            p <= n,
            srt_replace_from(t@, 0, offset_ms as int) == out@ + srt_replace_from(t@, p as int, offset_ms as int),
            srt_replace_defined_from(t@, p as int, offset_ms as int),
            srt_found_from(t@, 0) == (found || srt_found_from(t@, p as int)),
        decreases n - p,
    {
        proof {
            lemma_srt_replace_step(t@, p as int, offset_ms as int);
        }
        match srt_match_at_exec(t, p) {
            Some(w2) => {
                push_srt_replacement(&mut out, t, p, w2, offset_ms);
                found = true;
                p = w2 + 12;
            },
            None => {
                let ghost before = out@;
                out.push(t[p]);
                assert(out@ =~= before + seq![t@[p as int]]);
                p += 1;
            },
        }
    }
    assert(srt_replace_from(t@, p as int, offset_ms as int) =~= Seq::<char>::empty());
    (out, found)
}

/// Whether `srt_replace_defined_from(t, 0, offset)` holds.
fn srt_defined_line(t: &[char], offset_ms: i64) -> (r: bool)
    ensures
        r == srt_replace_defined_from(t@, 0, offset_ms as int),
{
    let n = t.len();
    let mut p: usize = 0;
    while p < n
        invariant
            n == t@.len(),
            p <= n,
            srt_replace_defined_from(t@, 0, offset_ms as int) == srt_replace_defined_from(t@, p as int, offset_ms as int),
        decreases n - p,
    {
        proof {
            lemma_srt_match_at(t@, p as int);
        }
        match srt_match_at_exec(t, p) {
            Some(w2) => {
                let first = copy_range(t, p, p + 12);
                let second = copy_range(t, w2, w2 + 12);
                if !stamp_shift_is_defined(first.as_slice(), true, offset_ms) || !stamp_shift_is_defined(second.as_slice(), true, offset_ms) {
                    return false;
                }
                p = w2 + 12;
            },
            None => {
                p += 1;
            },
        }
    }
    true
}

// ---------------------------------------------------------------------------
// ASS dialogue lines:
// `^(Dialogue:\s*[^,]+,)(\d+:\d{2}:\d{2}\.\d{2}),(\d+:\d{2}:\d{2}\.\d{2}),(.*)$`
// ---------------------------------------------------------------------------

/// An ASS timestamp `\d+:\d{2}:\d{2}\.\d{2}` starts at `i`; the result is its end.
pub open spec fn ass_stamp_end(t: Seq<char>, i: int) -> Option<int> {
    let h = nd_run_end(t, i);
    if 0 <= i && h > i && h + 9 <= t.len() && t[h] == ':' && is_nd(t[h + 1]) && is_nd(t[h + 2]) && t[h + 3] == ':'
        && is_nd(t[h + 4]) && is_nd(t[h + 5]) && t[h + 6] == '.' && is_nd(t[h + 7]) && is_nd(t[h + 8]) {
        Some(h + 9)
    } else {
        None
    }
}

/// The ASS dialogue pattern matches the line `t`: the result is the position of the comma
/// that ends the `Dialogue:` field and the ends of the two timestamps.
pub open spec fn ass_match(t: Seq<char>) -> Option<(int, int, int)> {
    let a = "Dialogue:"@.len();
    if has_prefix(t, "Dialogue:"@) {
        match first_index_of(t.skip(a as int), ',') {
            Some(k) => {
                let c = a + k;
                if k >= 1 {
                    match ass_stamp_end(t, c + 1) {
                        Some(e1) => if e1 < t.len() && t[e1] == ',' {
                            match ass_stamp_end(t, e1 + 1) {
                                Some(e2) => if e2 < t.len() && t[e2] == ',' { Some((c, e1, e2)) } else { None },
                                None => None,
                            }
                        } else {
                            None
                        },
                        None => None,
                    }
                } else {
                    None
                }
            },
            None => None,
        }
    } else {
        None
    }
}

fn ass_stamp_end_exec(t: &[char], i: usize) -> (r: Option<usize>)
    requires
        i <= t@.len(),
    ensures
        match r {
            Some(e) => ass_stamp_end(t@, i as int) == Some(e as int) && i < e <= t@.len(),
            None => ass_stamp_end(t@, i as int) is None,
        },
{
    proof {
        lemma_nd_run_end(t@, i as int);
    }
    let h = nd_run_end_at(t, i);
    if h > i && t.len() >= 9 && h <= t.len() - 9 && t[h] == ':' && is_nd_char(t[h + 1]) && is_nd_char(t[h + 2])
        && t[h + 3] == ':' && is_nd_char(t[h + 4]) && is_nd_char(t[h + 5]) && t[h + 6] == '.' && is_nd_char(t[h + 7])
        && is_nd_char(t[h + 8]) {
        Some(h + 9)
    } else {
        None
    }
}

fn ass_match_exec(t: &[char]) -> (r: Option<(usize, usize, usize)>)
    ensures
        match r {
            Some((c, e1, e2)) => ass_match(t@) == Some((c as int, e1 as int, e2 as int)) && c < e1 < e2 < t@.len(),
            None => ass_match(t@) is None,
        },
{
    let n = t.len();
    if !literal_at(t, 0, "Dialogue:") {
        return None;
    }
    let lit = chars_of("Dialogue:");
    let a = lit.len();
    let rest = copy_range(t, a, n);
    assert(rest@ == t@.skip(a as int));
    let mut k: usize = 0;
    while k < rest.len() && rest[k] != ','
        invariant
            k <= rest@.len(),
            forall|x: int| 0 <= x < k ==> rest@[x] != ',',
        decreases rest@.len() - k,
    {
        k += 1;
    }
    proof {
        lemma_first_index_of(rest@, ',', k as int);
    }
    if k == rest.len() || k < 1 {
        return None;
    }
    let c = a + k;
    let e1 = match ass_stamp_end_exec(t, c + 1) {
        Some(e) => e,
        None => {
            return None;
        },
    };
    if e1 >= n || t[e1] != ',' {
        return None;
    }
    let e2 = match ass_stamp_end_exec(t, e1 + 1) {
        Some(e) => e,
        None => {
            return None;
        },
    };
    if e2 >= n || t[e2] != ',' {
        return None;
    }
    Some((c, e1, e2))
}

// ---------------------------------------------------------------------------
// Whole lines and whole files
// ---------------------------------------------------------------------------

/// One line after shifting: SRT timings wherever they occur, else an ASS dialogue's two
/// timestamps, else the line unchanged.
pub open spec fn shift_line(t: Seq<char>, offset: int) -> Seq<char> {
    if srt_found_from(t, 0) {
        srt_replace_from(t, 0, offset)
    } else {
        match ass_match(t) {
            Some((c, e1, e2)) => t.take(c + 1) + shift_ass_stamp(t.subrange(c + 1, e1), offset) + seq![','] + shift_ass_stamp(
                t.subrange(e1 + 1, e2),
                offset,
            ) + seq![','] + t.skip(e2 + 1),
            None => t,
        }
    }
}

/// Shifting the line stays within `i64` everywhere.
pub open spec fn line_shift_defined(t: Seq<char>, offset: int) -> bool {
    if srt_found_from(t, 0) {
        srt_replace_defined_from(t, 0, offset)
    } else {
        match ass_match(t) {
            Some((c, e1, e2)) => stamp_shift_defined(t.subrange(c + 1, e1), false, offset) && stamp_shift_defined(
                t.subrange(e1 + 1, e2),
                false,
                offset,
            ),
            None => true,
        }
    }
}

fn shift_line_exec(t: &[char], offset_ms: i64) -> (r: Vec<char>)
    requires
        line_shift_defined(t@, offset_ms as int),
    ensures
        r@ == shift_line(t@, offset_ms as int),
{
    if srt_defined_line(t, offset_ms) {
        let (out, found) = srt_replace_line(t, offset_ms);
        if found {
            return out;
        }
    } else {
        // the line has SRT timings, so it is only defined through them
        proof {
            if !srt_found_from(t@, 0) {
                lemma_srt_defined_when_absent(t@, 0, offset_ms as int);
            }
        }
    }
    match ass_match_exec(t) {
        Some((c, e1, e2)) => {
            let n = t.len();
            let mut out = copy_range(t, 0, c + 1);
            let first = copy_range(t, c + 1, e1);
            let second = copy_range(t, e1 + 1, e2);
            let tail = copy_range(t, e2 + 1, n);
            let ghost start = out@;
            push_shifted_stamp(&mut out, first.as_slice(), false, offset_ms);
            out.push(',');
            push_shifted_stamp(&mut out, second.as_slice(), false, offset_ms);
            out.push(',');
            push_all(&mut out, tail.as_slice());
            assert(t@.skip(e2 + 1) == tail@);
            assert(out@ =~= t@.take(c + 1) + shift_ass_stamp(first@, offset_ms as int) + seq![','] + shift_ass_stamp(second@, offset_ms as int) + seq![','] + tail@);
            out
        },
        None => copy_range(t, 0, t.len()),
    }
}

proof fn lemma_srt_defined_when_absent(t: Seq<char>, p: int, offset: int)
    requires
        !srt_found_from(t, p),
    ensures
        srt_replace_defined_from(t, p, offset),
    decreases t.len() - p,
{
    if 0 <= p < t.len() {
        lemma_srt_defined_when_absent(t, p + 1, offset);
    }
}

fn line_defined_exec(t: &[char], offset_ms: i64) -> (r: bool)
    ensures
        r == line_shift_defined(t@, offset_ms as int),
{
    if !srt_defined_line(t, offset_ms) {
        proof {
            if !srt_found_from(t@, 0) {
                lemma_srt_defined_when_absent(t@, 0, offset_ms as int);
            }
        }
        return false;
    }
    if srt_found_exec(t) {
        return true;
    }
    match ass_match_exec(t) {
        Some((c, e1, e2)) => {
            let first = copy_range(t, c + 1, e1);
            let second = copy_range(t, e1 + 1, e2);
            stamp_shift_is_defined(first.as_slice(), false, offset_ms) && stamp_shift_is_defined(second.as_slice(), false, offset_ms)
        },
        None => true,
    }
}

fn srt_found_exec(t: &[char]) -> (r: bool)
    ensures
        r == srt_found_from(t@, 0),
{
    let n = t.len();
    let mut p: usize = 0;
    while p < n
        invariant
            n == t@.len(),
            p <= n,
            srt_found_from(t@, 0) == srt_found_from(t@, p as int),
        decreases n - p,
    {
        if srt_match_at_exec(t, p).is_some() {
            return true;
        }
        p += 1;
    }
    false
}

/// `l` without one trailing carriage return.
pub open spec fn strip_cr(l: Seq<char>) -> Seq<char> {
    if l.len() > 0 && l.last() == '\r' { l.drop_last() } else { l }
}

/// The lines of `s` as `str::lines` gives them: split at line feeds, a carriage return just
/// before a line feed dropped, no empty last line after a final line feed.
pub open spec fn lines_of(s: Seq<char>) -> Seq<Seq<char>>
    decreases s.len(),
{
    if s.len() == 0 {
        Seq::empty()
    } else {
        match first_index_of(s, '\n') {
            Some(k) => {
                proof {
                    lemma_first_index_bound(s, '\n');
                }
                seq![strip_cr(s.take(k))] + lines_of(s.skip(k + 1))
            },
            None => seq![s],
        }
    }
}

pub proof fn lemma_first_index_bound(s: Seq<char>, c: char)
    ensures
        first_index_of(s, c) matches Some(k) ==> 0 <= k < s.len() && s[k] == c,
    decreases s.len(),
{
    if s.len() > 0 {
        lemma_first_index_bound(s.drop_last(), c);
    }
}

/// The lines joined with line feeds.
pub open spec fn join_lines(ls: Seq<Seq<char>>) -> Seq<char>
    decreases ls.len(),
{
    if ls.len() == 0 {
        Seq::empty()
    } else if ls.len() == 1 {
        ls[0]
    } else {
        join_lines(ls.drop_last()) + seq!['\n'] + ls.last()
    }
}

/// A subtitle file with every timing shifted: each line shifted, joined with line feeds,
/// with a final line feed when the input has one.
pub open spec fn shift_text(content: Seq<char>, offset: int) -> Seq<char> {
    let ls = lines_of(content);
    join_lines(ls.map_values(|l: Seq<char>| shift_line(l, offset))) + if content.len() > 0 && content.last() == '\n' {
        seq!['\n']
    } else {
        Seq::empty()
    }
}

/// Shifting every line of the file stays within `i64`.
pub open spec fn text_shift_defined(content: Seq<char>, offset: int) -> bool {
    forall|i: int| 0 <= i < lines_of(content).len() ==> line_shift_defined(#[trigger] lines_of(content)[i], offset)
}

/// The next line of `t` from `p`: its text and where the following one starts.
fn next_line(t: &[char], p: usize) -> (r: (Vec<char>, usize))
    requires
        p < t@.len(),
    ensures
        p < r.1 <= t@.len(),
        lines_of(t@.skip(p as int)) == seq![r.0@] + lines_of(t@.skip(r.1 as int)),
{
    let n = t.len();
    let ghost s = t@.skip(p as int);
    let mut k = p;
    while k < n && t[k] != '\n'
        invariant
            p <= k <= n,
            n == t@.len(),
            s == t@.skip(p as int),
            forall|x: int| 0 <= x < k - p ==> s[x] != '\n',
        decreases n - k,
    {
        k += 1;
    }
    proof {
        lemma_first_index_of(s, '\n', k - p);
    }
    if k < n {
        let mut line = copy_range(t, p, k);
        assert(line@ == s.take(k - p));
        if line.len() > 0 && line[line.len() - 1] == '\r' {
            line.pop();
        }
        assert(s.skip(k - p + 1) == t@.skip(k + 1));
        (line, k + 1)
    } else {
        let line = copy_range(t, p, n);
        assert(line@ == s);
        assert(t@.skip(n as int) == Seq::<char>::empty());
        (line, n)
    }
}

/// Whether shifting every line of `content` by `offset_ms` stays within `i64`.
pub fn subtitle_shift_is_defined(content: &str, offset_ms: i64) -> (r: bool)
    ensures
        r == text_shift_defined(content@, offset_ms as int),
{
    let t = chars_of(content);
    let n = t.len();
    let mut p: usize = 0;
    let ghost mut done: Seq<Seq<char>> = Seq::empty();
    assert(t@.skip(0) == t@);
    assert(done + lines_of(t@.skip(0)) =~= lines_of(t@));
    while p < n
        invariant
            n == t@.len(),
            t@ == content@,
            p <= n,
            lines_of(t@) == done + lines_of(t@.skip(p as int)),
            forall|i: int| 0 <= i < done.len() ==> line_shift_defined(#[trigger] done[i], offset_ms as int),
        decreases n - p,
    {
        let (line, next) = next_line(t.as_slice(), p);
        if !line_defined_exec(line.as_slice(), offset_ms) {
            proof {
                let ls = lines_of(t@.skip(p as int));
                assert(ls[0] == line@);
                assert((done + ls)[done.len() as int] == ls[0]);
                assert(!line_shift_defined(lines_of(content@)[done.len() as int], offset_ms as int));
            }
            return false;
        }
        proof {
            assert(done + lines_of(t@.skip(p as int)) =~= done.push(line@) + lines_of(t@.skip(next as int)));
            done = done.push(line@);
        }
        p = next;
    }
    assert(lines_of(t@.skip(n as int)) =~= Seq::<Seq<char>>::empty()) by {
        assert(t@.skip(n as int) =~= Seq::<char>::empty());
    }
    assert(lines_of(t@) =~= done);
    true
}

/// The subtitle text with every SRT timing line and ASS dialogue line shifted by
/// `offset_ms` milliseconds (times never go below zero); other lines are unchanged.
pub fn shift_subtitle_text(content: &str, offset_ms: i64) -> (r: String)
    requires
        text_shift_defined(content@, offset_ms as int),
    ensures
        r@ == shift_text(content@, offset_ms as int),
        lines_of(r@).len() == lines_of(content@).len(),
        forall|k: int|
            0 <= k < lines_of(content@).len() && !srt_found_from(lines_of(content@)[k], 0) && ass_match(
                lines_of(content@)[k],
            ) is None && (lines_of(content@)[k].len() == 0 || lines_of(content@)[k].last() != '\r')
                ==> #[trigger] lines_of(r@)[k] == lines_of(content@)[k],
{
    proof {
        law_shift_text_keeps_lines(content@, offset_ms as int);
    }
    let t = chars_of(content);
    let n = t.len();
    let mut out: Vec<char> = Vec::new();
    let mut p: usize = 0;
    let ghost mut done: Seq<Seq<char>> = Seq::empty();
    assert(t@.skip(0) == t@);
    assert(done + lines_of(t@.skip(0)) =~= lines_of(t@));
    while p < n
        invariant
            n == t@.len(),
            p <= n,
            (p == 0) == (done.len() == 0),
            t@ == content@,
            lines_of(t@) == done + lines_of(t@.skip(p as int)),
            text_shift_defined(t@, offset_ms as int),
            out@ == join_lines(done.map_values(|l: Seq<char>| shift_line(l, offset_ms as int))),
        decreases n - p,
    {
        let (line, next) = next_line(t.as_slice(), p);
        proof {
            let ls = lines_of(t@.skip(p as int));
            assert(ls[0] == line@);
            assert((done + ls)[done.len() as int] == ls[0]);
            assert(lines_of(t@)[done.len() as int] == line@);
        }
        let shifted = shift_line_exec(line.as_slice(), offset_ms);
        let ghost before = done.map_values(|l: Seq<char>| shift_line(l, offset_ms as int));
        if p > 0 {
            out.push('\n');
        }
        push_all(&mut out, shifted.as_slice());
        proof {
            let nd = done.push(line@);
            let after = nd.map_values(|l: Seq<char>| shift_line(l, offset_ms as int));
            assert(after.drop_last() =~= before);
            assert(after.last() == shifted@);
            if done.len() == 0 {
                assert(after.len() == 1);
                assert(after[0] == shifted@);
                assert(out@ =~= join_lines(after));
            } else {
                assert(after.len() >= 2);
                assert(join_lines(after) == join_lines(after.drop_last()) + seq!['\n'] + after.last());
                assert(out@ =~= join_lines(after));
            }
            assert(done + lines_of(t@.skip(p as int)) =~= nd + lines_of(t@.skip(next as int)));
            done = nd;
        }
        p = next;
    }
    assert(lines_of(t@.skip(n as int)) =~= Seq::<Seq<char>>::empty()) by {
        assert(t@.skip(n as int) =~= Seq::<char>::empty());
    }
    assert(lines_of(t@) =~= done);
    if n > 0 && t[n - 1] == '\n' {
        out.push('\n');
    }
    string_of(out.as_slice())
}

// ---------------------------------------------------------------------------
// Lines of the shifted text
// ---------------------------------------------------------------------------

/// `s` holds no line feed.
pub open spec fn no_line_feed(s: Seq<char>) -> bool {
    forall|k: int| 0 <= k < s.len() ==> s[k] != '\n'
}

proof fn lemma_first_index_exact(s: Seq<char>, c: char)
    ensures
        match first_index_of(s, c) {
            Some(k) => 0 <= k < s.len() && s[k] == c && forall|t: int| 0 <= t < k ==> s[t] != c,
            None => forall|t: int| 0 <= t < s.len() ==> s[t] != c,
        },
    decreases s.len(),
{
    if s.len() > 0 {
        let d = s.drop_last();
        lemma_first_index_exact(d, c);
        assert forall|t: int| 0 <= t < d.len() implies d[t] == s[t] by {}
    }
}

/// Splitting at a first line feed: the line before it (without a final carriage return),
/// then the lines of the rest.
proof fn lemma_lines_of_cons(a: Seq<char>, r: Seq<char>)
    requires
        no_line_feed(a),
    ensures
        lines_of(a + seq!['\n'] + r) == seq![strip_cr(a)] + lines_of(r),
{
    let s = a + seq!['\n'] + r;
    lemma_first_index_of(s, '\n', a.len() as int);
    assert(s.take(a.len() as int) =~= a);
    assert(s.skip(a.len() + 1int) =~= r);
}

proof fn lemma_lines_of_single(a: Seq<char>)
    requires
        no_line_feed(a),
        a.len() > 0,
    ensures
        lines_of(a) == seq![a],
{
    lemma_first_index_of(a, '\n', a.len() as int);
}

/// Every line of a text is free of line feeds.
proof fn lemma_lines_have_no_line_feed(s: Seq<char>)
    ensures
        forall|k: int| 0 <= k < lines_of(s).len() ==> no_line_feed(#[trigger] lines_of(s)[k]),
    decreases s.len(),
{
    if s.len() > 0 {
        lemma_first_index_exact(s, '\n');
        match first_index_of(s, '\n') {
            Some(i) => {
                lemma_first_index_bound(s, '\n');
                lemma_lines_have_no_line_feed(s.skip(i + 1));
                let head = strip_cr(s.take(i));
                let rest = lines_of(s.skip(i + 1));
                assert(no_line_feed(head)) by {
                    assert forall|t: int| 0 <= t < head.len() implies head[t] != '\n' by {
                        assert(head[t] == s[t]);
                    }
                }
                assert forall|k: int| 0 <= k < lines_of(s).len() implies no_line_feed(#[trigger] lines_of(s)[k]) by {
                    if k > 0 {
                        assert(lines_of(s)[k] == rest[k - 1]);
                    }
                }
            },
            None => {},
        }
    }
}

/// A text that does not end with a line feed has a last line that is not empty.
proof fn lemma_last_line_not_empty(s: Seq<char>)
    requires
        s.len() > 0,
        s.last() != '\n',
    ensures
        lines_of(s).len() > 0,
        lines_of(s).last().len() > 0,
    decreases s.len(),
{
    lemma_first_index_exact(s, '\n');
    match first_index_of(s, '\n') {
        Some(i) => {
            let r = s.skip(i + 1);
            assert(i + 1 < s.len());
            assert(r.last() == s.last());
            lemma_last_line_not_empty(r);
            assert(lines_of(s).last() == lines_of(r).last());
        },
        None => {},
    }
}

/// `join_lines` read from the front.
proof fn lemma_join_lines_front(ms: Seq<Seq<char>>)
    requires
        ms.len() >= 2,
    ensures
        join_lines(ms) == ms[0] + seq!['\n'] + join_lines(ms.drop_first()),
    decreases ms.len(),
{
    let d = ms.drop_last();
    assert(join_lines(ms) == join_lines(d) + seq!['\n'] + ms.last());
    if ms.len() == 2 {
        assert(d =~= seq![ms[0]]);
        assert(join_lines(d) == d[0]);
        assert(ms.drop_first() =~= seq![ms[1]]);
        assert(join_lines(ms.drop_first()) == ms.drop_first()[0]);
        assert(ms.last() == ms[1]);
    } else {
        lemma_join_lines_front(d);
        let t = ms.drop_first();
        assert(d.drop_first() =~= t.drop_last());
        assert(t.last() == ms.last());
        assert(join_lines(t) == join_lines(t.drop_last()) + seq!['\n'] + t.last());
        assert(d[0] == ms[0]);
        assert(join_lines(ms) =~= ms[0] + seq!['\n'] + join_lines(t));
    }
}

/// Joining lines without line feeds and ending with a line feed reads back as those lines
/// (each without a final carriage return).
proof fn lemma_lines_of_joined_ended(ms: Seq<Seq<char>>)
    requires
        ms.len() >= 1,
        forall|k: int| 0 <= k < ms.len() ==> no_line_feed(#[trigger] ms[k]),
    ensures
        lines_of(join_lines(ms) + seq!['\n']) == ms.map_values(|l: Seq<char>| strip_cr(l)),
    decreases ms.len(),
{
    if ms.len() == 1 {
        assert(no_line_feed(ms[0]));
        lemma_lines_of_cons(ms[0], Seq::empty());
        assert(ms[0] + seq!['\n'] + Seq::<char>::empty() =~= join_lines(ms) + seq!['\n']);
        assert(lines_of(Seq::<char>::empty()) == Seq::<Seq<char>>::empty());
        assert(ms.map_values(|l: Seq<char>| strip_cr(l)) =~= seq![strip_cr(ms[0])]);
        assert(seq![strip_cr(ms[0])] + Seq::<Seq<char>>::empty() =~= seq![strip_cr(ms[0])]);
    } else {
        let t = ms.drop_first();
        assert forall|k: int| 0 <= k < t.len() implies no_line_feed(#[trigger] t[k]) by {
            assert(t[k] == ms[k + 1]);
        }
        lemma_lines_of_joined_ended(t);
        lemma_join_lines_front(ms);
        assert(no_line_feed(ms[0]));
        lemma_lines_of_cons(ms[0], join_lines(t) + seq!['\n']);
        assert(join_lines(ms) + seq!['\n'] =~= ms[0] + seq!['\n'] + (join_lines(t) + seq!['\n']));
        assert(ms.map_values(|l: Seq<char>| strip_cr(l)) =~= seq![strip_cr(ms[0])] + t.map_values(
            |l: Seq<char>| strip_cr(l),
        ));
    }
}

/// Joining lines without line feeds, the last of them not empty, reads back as those lines
/// (each but the last without a final carriage return).
proof fn lemma_lines_of_joined_open(ms: Seq<Seq<char>>)
    requires
        ms.len() >= 1,
        forall|k: int| 0 <= k < ms.len() ==> no_line_feed(#[trigger] ms[k]),
        ms.last().len() > 0,
    ensures
        lines_of(join_lines(ms)) == ms.drop_last().map_values(|l: Seq<char>| strip_cr(l)).push(ms.last()),
    decreases ms.len(),
{
    if ms.len() == 1 {
        assert(no_line_feed(ms[0]));
        lemma_lines_of_single(ms[0]);
        assert(ms.drop_last().map_values(|l: Seq<char>| strip_cr(l)).push(ms.last()) =~= seq![ms[0]]);
    } else {
        let t = ms.drop_first();
        assert forall|k: int| 0 <= k < t.len() implies no_line_feed(#[trigger] t[k]) by {
            assert(t[k] == ms[k + 1]);
        }
        assert(t.last() == ms.last());
        lemma_lines_of_joined_open(t);
        lemma_join_lines_front(ms);
        assert(no_line_feed(ms[0]));
        lemma_lines_of_cons(ms[0], join_lines(t));
        assert(ms.drop_last().map_values(|l: Seq<char>| strip_cr(l)).push(ms.last()) =~= seq![strip_cr(ms[0])] + t.drop_last().map_values(
            |l: Seq<char>| strip_cr(l),
        ).push(t.last()));
    }
}

proof fn lemma_concat_no_line_feed(a: Seq<char>, b: Seq<char>)
    requires
        no_line_feed(a),
        no_line_feed(b),
    ensures
        no_line_feed(a + b),
{
    assert forall|k: int| 0 <= k < (a + b).len() implies (a + b)[k] != '\n' by {
        if k < a.len() {
            assert((a + b)[k] == a[k]);
        } else {
            assert((a + b)[k] == b[k - a.len()]);
        }
    }
}

proof fn lemma_part_no_line_feed(t: Seq<char>, i: int, j: int)
    requires
        no_line_feed(t),
        0 <= i <= j <= t.len(),
    ensures
        no_line_feed(t.subrange(i, j)),
{
    assert forall|k: int| 0 <= k < t.subrange(i, j).len() implies t.subrange(i, j)[k] != '\n' by {
        assert(t.subrange(i, j)[k] == t[i + k]);
    }
}

proof fn lemma_padded_no_line_feed(n: nat, w: nat)
    ensures
        no_line_feed(padded_decimal(n, w)),
        no_line_feed(decimal(n)),
{
    lemma_decimal_value(n);
    let d = decimal(n);
    if d.len() < w {
        lemma_leading_zeros_value((w - d.len()) as nat, d);
    }
    let p = padded_decimal(n, w);
    assert forall|k: int| 0 <= k < p.len() implies p[k] != '\n' by {
        assert(is_ascii_digit(p[k]));
    }
    assert forall|k: int| 0 <= k < d.len() implies d[k] != '\n' by {
        assert(is_ascii_digit(d[k]));
    }
}

proof fn lemma_one_no_line_feed(c: char)
    requires
        c != '\n',
    ensures
        no_line_feed(seq![c]),
{
}

proof fn lemma_stamps_no_line_feed(ts: Seq<char>, offset: int)
    requires
        no_line_feed(ts),
    ensures
        no_line_feed(shift_srt_stamp(ts, offset)),
        no_line_feed(shift_ass_stamp(ts, offset)),
{
    reveal(shift_srt_stamp);
    reveal(shift_ass_stamp);
    if let Some((h, m, s, ms)) = stamp_values(ts, true) {
        let t = shifted_total(h, m, s, ms, 1, offset) as nat;
        let hh = t / 3_600_000;
        let rem = t % 3_600_000;
        let mm = rem / 60_000;
        let rem2 = rem % 60_000;
        lemma_padded_no_line_feed(hh, 2);
        lemma_padded_no_line_feed(mm, 2);
        lemma_padded_no_line_feed(rem2 / 1000, 2);
        lemma_padded_no_line_feed(rem2 % 1000, 3);
        lemma_one_no_line_feed(':');
        lemma_one_no_line_feed(',');
        let a1 = padded_decimal(hh, 2) + seq![':'];
        lemma_concat_no_line_feed(padded_decimal(hh, 2), seq![':']);
        lemma_concat_no_line_feed(a1, padded_decimal(mm, 2));
        let a2 = a1 + padded_decimal(mm, 2);
        lemma_concat_no_line_feed(a2, seq![':']);
        let a3 = a2 + seq![':'];
        lemma_concat_no_line_feed(a3, padded_decimal(rem2 / 1000, 2));
        let a4 = a3 + padded_decimal(rem2 / 1000, 2);
        lemma_concat_no_line_feed(a4, seq![',']);
        let a5 = a4 + seq![','];
        lemma_concat_no_line_feed(a5, padded_decimal(rem2 % 1000, 3));
        assert(srt_format(t) == a5 + padded_decimal(rem2 % 1000, 3));
    }
    if let Some((h, m, s, cs)) = stamp_values(ts, false) {
        let t = shifted_total(h, m, s, cs, 10, offset) as nat;
        let hh = t / 3_600_000;
        let rem = t % 3_600_000;
        let mm = rem / 60_000;
        let rem2 = rem % 60_000;
        lemma_padded_no_line_feed(hh, 0);
        lemma_padded_no_line_feed(mm, 2);
        lemma_padded_no_line_feed(rem2 / 1000, 2);
        lemma_padded_no_line_feed((rem2 % 1000) / 10, 2);
        lemma_one_no_line_feed(':');
        lemma_one_no_line_feed('.');
        let a1 = decimal(hh) + seq![':'];
        lemma_concat_no_line_feed(decimal(hh), seq![':']);
        lemma_concat_no_line_feed(a1, padded_decimal(mm, 2));
        let a2 = a1 + padded_decimal(mm, 2);
        lemma_concat_no_line_feed(a2, seq![':']);
        let a3 = a2 + seq![':'];
        lemma_concat_no_line_feed(a3, padded_decimal(rem2 / 1000, 2));
        let a4 = a3 + padded_decimal(rem2 / 1000, 2);
        lemma_concat_no_line_feed(a4, seq!['.']);
        let a5 = a4 + seq!['.'];
        lemma_concat_no_line_feed(a5, padded_decimal((rem2 % 1000) / 10, 2));
        assert(ass_format(t) == a5 + padded_decimal((rem2 % 1000) / 10, 2));
    }
}

proof fn lemma_srt_replace_no_line_feed(t: Seq<char>, p: int, offset: int)
    requires
        no_line_feed(t),
        0 <= p,
    ensures
        no_line_feed(srt_replace_from(t, p, offset)),
        p < t.len() ==> srt_replace_from(t, p, offset).len() > 0,
    decreases t.len() - p,
{
    if p < t.len() {
        match srt_match_at(t, p) {
            Some(w2) => {
                lemma_srt_match_at(t, p);
                lemma_srt_replace_no_line_feed(t, w2 + 12, offset);
                lemma_part_no_line_feed(t, p, p + 12);
                lemma_part_no_line_feed(t, w2, w2 + 12);
                lemma_stamps_no_line_feed(t.subrange(p, p + 12), offset);
                lemma_stamps_no_line_feed(t.subrange(w2, w2 + 12), offset);
                let arrow = seq![' ', '-', '-', '>', ' '];
                let a = shift_srt_stamp(t.subrange(p, p + 12), offset);
                let b = shift_srt_stamp(t.subrange(w2, w2 + 12), offset);
                lemma_concat_no_line_feed(a, arrow);
                lemma_concat_no_line_feed(a + arrow, b);
                lemma_concat_no_line_feed(a + arrow + b, srt_replace_from(t, w2 + 12, offset));
            },
            None => {
                lemma_srt_replace_no_line_feed(t, p + 1, offset);
                lemma_one_no_line_feed(t[p]);
                lemma_concat_no_line_feed(seq![t[p]], srt_replace_from(t, p + 1, offset));
            },
        }
    }
}

proof fn lemma_ass_match_bounds(t: Seq<char>)
    ensures
        ass_match(t) matches Some((c, e1, e2)) ==> 0 <= c && c + 1 < e1 && e1 < e2 && e2 < t.len(),
{
    let a = "Dialogue:"@.len();
    lemma_first_index_bound(t.skip(a as int), ',');
}

/// Shifting a line keeps it free of line feeds, and keeps a line that is not empty from
/// becoming empty.
proof fn lemma_shift_line_shape(l: Seq<char>, offset: int)
    requires
        no_line_feed(l),
    ensures
        no_line_feed(shift_line(l, offset)),
        l.len() > 0 ==> shift_line(l, offset).len() > 0,
{
    if srt_found_from(l, 0) {
        lemma_srt_replace_no_line_feed(l, 0, offset);
    } else {
        match ass_match(l) {
            Some((c, e1, e2)) => {
                lemma_ass_match_bounds(l);
                lemma_part_no_line_feed(l, 0, c + 1);
                lemma_part_no_line_feed(l, c + 1, e1);
                lemma_part_no_line_feed(l, e1 + 1, e2);
                lemma_part_no_line_feed(l, e2 + 1, l.len() as int);
                assert(l.take(c + 1) == l.subrange(0, c + 1));
                assert(l.skip(e2 + 1) == l.subrange(e2 + 1, l.len() as int));
                lemma_stamps_no_line_feed(l.subrange(c + 1, e1), offset);
                lemma_stamps_no_line_feed(l.subrange(e1 + 1, e2), offset);
                lemma_one_no_line_feed(',');
                let a = l.take(c + 1);
                let x = shift_ass_stamp(l.subrange(c + 1, e1), offset);
                let y = shift_ass_stamp(l.subrange(e1 + 1, e2), offset);
                lemma_concat_no_line_feed(a, x);
                lemma_concat_no_line_feed(a + x, seq![',']);
                lemma_concat_no_line_feed(a + x + seq![','], y);
                lemma_concat_no_line_feed(a + x + seq![','] + y, seq![',']);
                lemma_concat_no_line_feed(a + x + seq![','] + y + seq![','], l.skip(e2 + 1));
            },
            None => {},
        }
    }
}

/// Shifting a subtitle text keeps its lines: the result has as many lines as the text
/// (empty lines between cues included), each line is the shifted line at the same place,
/// and a line with no SRT timing and no ASS dialogue timing comes out unchanged. (A line
/// that would end with a carriage return reads back without it.)
pub proof fn law_shift_text_keeps_lines(content: Seq<char>, offset: int)
    ensures
        lines_of(shift_text(content, offset)).len() == lines_of(content).len(),
        forall|k: int|
            0 <= k < lines_of(content).len() && (shift_line(lines_of(content)[k], offset).len() == 0 || shift_line(
                lines_of(content)[k],
                offset,
            ).last() != '\r') ==> #[trigger] lines_of(shift_text(content, offset))[k] == shift_line(
                lines_of(content)[k],
                offset,
            ),
        forall|k: int|
            0 <= k < lines_of(content).len() && !srt_found_from(lines_of(content)[k], 0) && ass_match(
                lines_of(content)[k],
            ) is None && (lines_of(content)[k].len() == 0 || lines_of(content)[k].last() != '\r')
                ==> #[trigger] lines_of(shift_text(content, offset))[k] == lines_of(content)[k],
{
    let ls = lines_of(content);
    let ms = ls.map_values(|l: Seq<char>| shift_line(l, offset));
    let out = shift_text(content, offset);
    lemma_lines_have_no_line_feed(content);
    assert forall|k: int| 0 <= k < ms.len() implies no_line_feed(#[trigger] ms[k]) by {
        assert(no_line_feed(ls[k]));
        lemma_shift_line_shape(ls[k], offset);
    }
    if content.len() == 0 {
        assert(ls.len() == 0);
        assert(out =~= Seq::<char>::empty());
        assert(lines_of(out).len() == 0);
    } else {
        assert(ls.len() >= 1);
        if content.last() == '\n' {
            assert(out == join_lines(ms) + seq!['\n']);
            lemma_lines_of_joined_ended(ms);
            let r = lines_of(out);
            assert forall|k: int|
                0 <= k < ls.len() && (ms[k].len() == 0 || ms[k].last() != '\r') implies r[k] == ms[k] by {
                assert(r[k] == strip_cr(ms[k]));
            }
        } else {
            lemma_last_line_not_empty(content);
            assert(no_line_feed(ls.last()));
            lemma_shift_line_shape(ls.last(), offset);
            assert(ms.last() == shift_line(ls.last(), offset));
            assert(out =~= join_lines(ms));
            lemma_lines_of_joined_open(ms);
            let r = lines_of(out);
            assert forall|k: int|
                0 <= k < ls.len() && (ms[k].len() == 0 || ms[k].last() != '\r') implies r[k] == ms[k] by {
                if k < ls.len() - 1 {
                    assert(r[k] == strip_cr(ms[k]));
                } else {
                    assert(r[k] == ms.last());
                }
            }
        }
    }
}

} // verus!
