//! What the library concludes from alass: the summary line it shows, whether a shift is
//! suspiciously large, and the order in which the aligners are tried.

use crate::text::{
    chars_of, contains, contains_chars, copy_range, digits_value, digits_value_upto, all_ascii_digits,
    line_end, line_end_at, lemma_line_end, lemma_nd_run_end, literal_at, nd_run_end, nd_run_end_at,
    occurs_at, push_all, push_str, string_of, trim, trim_chars,
};
use vstd::prelude::*;

verus! {

/// Outcome of an automatic synchronisation.
#[derive(Debug, Clone, PartialEq)]
pub enum SyncResult {
    /// alass aligned the subtitle; the text summarises the shift.
    Success(String),
    /// alass produced a shift that is too large to trust; the text summarises it.
    WarningLargeShift(String),
    /// No aligner ran; the subtitle was copied unchanged.
    DirectCopy,
}

/// Automatic subtitle synchroniser (alass, then alass-cli, then a plain copy).
pub struct SubtitleSyncer;

impl SubtitleSyncer {
    /// The synchroniser (it holds no state).
    pub fn new() -> Self {
        SubtitleSyncer
    }
}

// ---------------------------------------------------------------------------
// The alass summary line: `shifted block of N subtitles ... by OFFSET`
// ---------------------------------------------------------------------------

/// At `i` starts `shifted block of `, a run of `\d` digits and ` subtitles`; the result is
/// the end of the digit run.
pub open spec fn header_at(t: Seq<char>, i: int) -> Option<int> {
    if occurs_at(t, "shifted block of "@, i) {
        let a = i + "shifted block of "@.len();
        let e = nd_run_end(t, a);
        if e > a && occurs_at(t, " subtitles"@, e) {
            Some(e)
        } else {
            None
        }
    } else {
        None
    }
}

/// Where the text after the header starts.
pub open spec fn after_header(e: int) -> int {
    e + " subtitles"@.len()
}

/// `by ` at `q`, on the line that starts at `p`, with at least one character after it.
pub open spec fn summary_by_ok(t: Seq<char>, p: int, q: int) -> bool {
    p <= q && occurs_at(t, "by "@, q) && q + "by "@.len() < line_end(t, p)
}

/// The last `q` in `[p, q0]` for which `summary_by_ok` holds (`.*` is greedy).
pub open spec fn last_summary_by(t: Seq<char>, p: int, q0: int) -> Option<int>
    decreases q0 - p + 1,
{
    if q0 < p {
        None
    } else if summary_by_ok(t, p, q0) {
        Some(q0)
    } else {
        last_summary_by(t, p, q0 - 1)
    }
}

/// `shifted block of (\d+) subtitles.*by ([^\n]+)` matches at `i`; the result is the
/// position of `by `.
pub open spec fn summary_match_at(t: Seq<char>, i: int) -> Option<int> {
    match header_at(t, i) {
        Some(e) => last_summary_by(t, after_header(e), line_end(t, after_header(e))),
        None => None,
    }
}

/// The leftmost position at or after `i` where the summary pattern matches.
pub open spec fn first_summary_from(t: Seq<char>, i: int) -> Option<int>
    decreases t.len() + 1 - i,
{
    if i < 0 || i > t.len() {
        None
    } else if summary_match_at(t, i) is Some {
        Some(i)
    } else {
        first_summary_from(t, i + 1)
    }
}

/// The summary alass's output is shown as: `Shifted N subtitle lines by OFFSET` (OFFSET
/// trimmed) from the first `shifted block of ...` line that has a `by ` part, or a
/// generic success message.
pub open spec fn alass_summary(t: Seq<char>) -> Seq<char> {
    match first_summary_from(t, 0) {
        Some(i) => {
            let e = header_at(t, i)->0;
            let q = summary_match_at(t, i)->0;
            let count = t.subrange(i + "shifted block of "@.len(), e);
            let offset = t.subrange(q + "by "@.len(), line_end(t, after_header(e)));
            "Shifted "@ + count + " subtitle lines by "@ + trim(offset)
        },
        None => "Audio voice timing aligned successfully"@,
    }
}

/// Computes `header_at`.
fn header_at_exec(t: &[char], i: usize) -> (r: Option<usize>)
    requires
        i <= t@.len(),
    ensures
        match r {
            Some(e) => header_at(t@, i as int) == Some(e as int) && e <= t@.len(),
            None => header_at(t@, i as int) is None,
        },
{
    if !literal_at(t, i, "shifted block of ") {
        return None;
    }
    let tl = t.len();
    let lit = chars_of("shifted block of ");
    let a = i + lit.len();
    proof {
        lemma_nd_run_end(t@, a as int);
    }
    let e = nd_run_end_at(t, a);
    if e > a && literal_at(t, e, " subtitles") {
        Some(e)
    } else {
        None
    }
}

fn last_summary_by_exec(t: &[char], p: usize, le: usize) -> (r: Option<usize>)
    requires
        p <= le <= t@.len(),
        le == line_end(t@, p as int),
    ensures
        match r {
            Some(q) => last_summary_by(t@, p as int, le as int) == Some(q as int),
            None => last_summary_by(t@, p as int, le as int) is None,
        },
{
    let by = chars_of("by ");
    let mut q = le;
    loop
        invariant
            p <= q <= le,
            le == line_end(t@, p as int),
            by@ == "by "@,
            last_summary_by(t@, p as int, le as int) == last_summary_by(t@, p as int, q as int),
        decreases q,
    {
        if matches_by(t, by.as_slice(), q, le) {
            return Some(q);
        }
        if q == p {
            assert(last_summary_by(t@, p as int, p - 1) is None);
            return None;
        }
        q -= 1;
    }
}

fn matches_by(t: &[char], by: &[char], q: usize, le: usize) -> (r: bool)
    ensures
        r == (occurs_at(t@, by@, q as int) && q + by@.len() < le),
{
    crate::text::matches_at(t, by, q) && by.len() < le && q < le - by.len()
}

/// The leftmost summary match: start, end of the count digits, and position of `by `.
fn find_summary(t: &[char]) -> (r: Option<(usize, usize, usize)>)
    ensures
        match r {
            Some((i, e, q)) => first_summary_from(t@, 0) == Some(i as int) && header_at(t@, i as int)
                == Some(e as int) && summary_match_at(t@, i as int) == Some(q as int) && i <= e
                && after_header(e as int) <= t@.len(),
            None => first_summary_from(t@, 0) is None,
        },
{
    let n = t.len();
    let sub = chars_of(" subtitles");
    let mut i: usize = 0;
    while i < n
        invariant
            n == t@.len(),
            i <= n,
            sub@ == " subtitles"@,
            first_summary_from(t@, 0) == first_summary_from(t@, i as int),
        decreases n - i,
    {
        if let Some(e) = header_at_exec(t, i) {
            assert(occurs_at(t@, " subtitles"@, e as int));
            let p = e + sub.len();
            proof {
                lemma_line_end(t@, p as int);
            }
            let le = line_end_at(t, p);
            if let Some(q) = last_summary_by_exec(t, p, le) {
                proof {
                    reveal_strlit("shifted block of ");
                }
                assert(i <= e);
                return Some((i, e, q));
            }
        }
        i += 1;
    }
    proof {
        reveal_strlit("shifted block of ");
        assert(header_at(t@, n as int) is None);
        assert(first_summary_from(t@, n + 1) is None);
    }
    None
}

proof fn lemma_last_summary_by(t: Seq<char>, p: int, q0: int)
    ensures
        last_summary_by(t, p, q0) matches Some(q) ==> summary_by_ok(t, p, q) && q <= q0,
    decreases q0 - p + 1,
{
    if q0 >= p && !summary_by_ok(t, p, q0) {
        lemma_last_summary_by(t, p, q0 - 1);
    }
}

/// The summary of alass's output shown to the user.
pub fn parse_alass_shift(output: &str) -> (r: String)
    ensures
        r@ == alass_summary(output@),
{
    let t = chars_of(output);
    match find_summary(t.as_slice()) {
        Some((i, e, q)) => {
            let head = chars_of("shifted block of ");
            let sub = chars_of(" subtitles");
            let by = chars_of("by ");
            let p = e + sub.len();
            proof {
                lemma_line_end(t@, p as int);
            }
            let le = line_end_at(t.as_slice(), p);
            proof {
                lemma_last_summary_by(t@, p as int, le as int);
            }
            assert(q + by@.len() < le);
            let count = copy_range(t.as_slice(), i + head.len(), e);
            let offset = copy_range(t.as_slice(), q + by.len(), le);
            let trimmed = trim_chars(offset.as_slice());
            let mut out: Vec<char> = Vec::new();
            push_str(&mut out, "Shifted ");
            push_all(&mut out, count.as_slice());
            push_str(&mut out, " subtitle lines by ");
            push_all(&mut out, trimmed.as_slice());
            string_of(out.as_slice())
        },
        None => {
            let msg = chars_of("Audio voice timing aligned successfully");
            string_of(msg.as_slice())
        },
    }
}

// ---------------------------------------------------------------------------
// The shift amount: `shifted block of \d+ subtitles.*by (-?)(?:(\d+):)?(\d+):(\d+(?:\.\d+)?)`
// ---------------------------------------------------------------------------

/// End of the seconds field that starts at `a`: a `\d` run, then optionally `.` and
/// another non-empty `\d` run.
pub open spec fn seconds_end(t: Seq<char>, a: int) -> int {
    let e = nd_run_end(t, a);
    if 0 <= e < t.len() && t[e] == '.' && nd_run_end(t, e + 1) > e + 1 {
        nd_run_end(t, e + 1)
    } else {
        e
    }
}

/// `(\d+):(\d+(?:\.\d+)?)` at `b`: minutes and seconds spans.
pub open spec fn min_sec_at(t: Seq<char>, b: int) -> Option<((int, int), (int, int))> {
    let m_end = nd_run_end(t, b);
    if m_end > b && 0 <= m_end < t.len() && t[m_end] == ':' && nd_run_end(t, m_end + 1) > m_end + 1 {
        Some(((b, m_end), (m_end + 1, seconds_end(t, m_end + 1))))
    } else {
        None
    }
}

/// The fields of a shift amount written at `r`: the sign, the optional hours span, the
/// minutes span and the seconds span. The hours group is tried first (it is greedy).
pub open spec fn offset_fields_at(t: Seq<char>, r: int) -> Option<(bool, Option<(int, int)>, (int, int), (int, int))> {
    let neg = 0 <= r < t.len() && t[r] == '-';
    let b = if neg { r + 1 } else { r };
    let h_end = nd_run_end(t, b);
    if h_end > b && 0 <= h_end < t.len() && t[h_end] == ':' && min_sec_at(t, h_end + 1) is Some {
        let ms = min_sec_at(t, h_end + 1)->0;
        Some((neg, Some((b, h_end)), ms.0, ms.1))
    } else {
        match min_sec_at(t, b) {
            Some(ms) => Some((neg, None, ms.0, ms.1)),
            None => None,
        }
    }
}

/// `by ` at `q` on the line that starts at `p`, followed by a shift amount.
pub open spec fn amount_by_ok(t: Seq<char>, p: int, q: int) -> bool {
    p <= q && occurs_at(t, "by "@, q) && q + "by "@.len() <= line_end(t, p) && offset_fields_at(
        t,
        q + "by "@.len(),
    ) is Some
}

/// The last `q` in `[p, q0]` for which `amount_by_ok` holds.
pub open spec fn last_amount_by(t: Seq<char>, p: int, q0: int) -> Option<int>
    decreases q0 - p + 1,
{
    if q0 < p {
        None
    } else if amount_by_ok(t, p, q0) {
        Some(q0)
    } else {
        last_amount_by(t, p, q0 - 1)
    }
}

/// The amount pattern matches at `i`; the result is the position of `by `.
pub open spec fn amount_match_at(t: Seq<char>, i: int) -> Option<int> {
    match header_at(t, i) {
        Some(e) => last_amount_by(t, after_header(e), line_end(t, after_header(e))),
        None => None,
    }
}

/// The leftmost position at or after `i` where the amount pattern matches.
pub open spec fn first_amount_from(t: Seq<char>, i: int) -> Option<int>
    decreases t.len() + 1 - i,
{
    if i < 0 || i > t.len() {
        None
    } else if amount_match_at(t, i) is Some {
        Some(i)
    } else {
        first_amount_from(t, i + 1)
    }
}

/// The fields of the shift amount in alass's output, if there is one.
pub open spec fn alass_amount(t: Seq<char>) -> Option<(bool, Option<(int, int)>, (int, int), (int, int))> {
    match first_amount_from(t, 0) {
        Some(i) => offset_fields_at(t, amount_match_at(t, i)->0 + "by "@.len()),
        None => None,
    }
}

/// Value of a field as `str::parse::<f64>` reads a text of digits: its decimal value when
/// all its digits are ASCII, and 0 (the fallback for a failed parse) otherwise.
pub open spec fn field_value(f: Seq<char>) -> nat {
    if all_ascii_digits(f) {
        digits_value(f)
    } else {
        0
    }
}

/// The digits of 2^-50 after the decimal point: 2^-50 is
/// 0.00000000000000088817841970012523233890533447265625 exactly.
pub open spec fn two_pow_minus_50_digits() -> Seq<char> {
    "00000000000000088817841970012523233890533447265625"@
}

/// The fraction `0.f` is above the fraction `0.c`, from digit `k` on: the digits compare
/// one by one, a missing digit counting as `0`.
pub open spec fn fraction_above(f: Seq<char>, c: Seq<char>, k: int) -> bool
    decreases f.len() + c.len() - k,
{
    if k < 0 || (k >= f.len() && k >= c.len()) {
        false
    } else {
        let a = if k < f.len() { f[k] } else { '0' };
        let b = if k < c.len() { c[k] } else { '0' };
        if a > b {
            true
        } else if a < b {
            false
        } else {
            fraction_above(f, c, k + 1)
        }
    }
}

/// The part of a seconds field after its `.` (empty when there is none); `d` is the end
/// of the whole seconds.
pub open spec fn fraction_part(f: Seq<char>, d: int) -> Seq<char> {
    if d < f.len() {
        f.skip(d + 1)
    } else {
        Seq::empty()
    }
}

/// The seconds field `int` or `int.frac`: whole seconds, and whether the fraction is
/// above 2^-50; a field with a non-ASCII digit reads as 0 (as `str::parse::<f64>` fails
/// on it).
pub open spec fn seconds_value(f: Seq<char>) -> (nat, bool) {
    let d = nd_run_end(f, 0);
    let int_part = f.take(d);
    let frac = fraction_part(f, d);
    if all_ascii_digits(int_part) && all_ascii_digits(frac) {
        (digits_value(int_part), fraction_above(frac, two_pow_minus_50_digits(), 0))
    } else {
        (0, false)
    }
}

/// The amount `h:m:s` read into an `f64` (`h * 3600.0 + m * 60.0 + s`) is more than
/// `10.0` away from zero. With hours or minutes the amount is at least 60; without them it
/// is the `f64` nearest to the seconds. That is above `10.0` when the whole seconds are
/// above 10, or are 10 with a fraction above 2^-50: the doubles next to 10 are 2^-49
/// apart, so up to 10 + 2^-50 (a tie, which goes to the even 10) the seconds read as
/// exactly `10.0`.
pub open spec fn amount_is_large(t: Seq<char>, f: (bool, Option<(int, int)>, (int, int), (int, int))) -> bool {
    let h = match f.1 {
        Some(span) => field_value(t.subrange(span.0, span.1)),
        None => 0,
    };
    let m = field_value(t.subrange(f.2.0, f.2.1));
    let s = seconds_value(t.subrange(f.3.0, f.3.1));
    let whole = 3600 * h + 60 * m + s.0;
    whole > 10 || (whole == 10 && s.1)
}

/// alass's output calls for a warning: it mentions negative timings, or its shift amount
/// is more than ten seconds.
pub open spec fn alass_needs_warning(t: Seq<char>) -> bool {
    contains(t, "negative timings"@) || match alass_amount(t) {
        Some(f) => amount_is_large(t, f),
        None => false,
    }
}

fn min_sec_at_exec(t: &[char], b: usize) -> (r: Option<((usize, usize), (usize, usize))>)
    requires
        b <= t@.len(),
    ensures
        match r {
            Some(((m0, m1), (s0, s1))) => min_sec_at(t@, b as int) == Some(
                ((m0 as int, m1 as int), (s0 as int, s1 as int)),
            ) && m0 <= m1 && m1 < s0 <= s1 <= t@.len(),
            None => min_sec_at(t@, b as int) is None,
        },
{
    proof {
        lemma_nd_run_end(t@, b as int);
    }
    let m_end = nd_run_end_at(t, b);
    if m_end > b && m_end < t.len() && t[m_end] == ':' {
        proof {
            lemma_nd_run_end(t@, m_end + 1);
        }
        let s0 = m_end + 1;
        let s_int = nd_run_end_at(t, s0);
        if s_int > s0 {
            let mut s1 = s_int;
            if s_int < t.len() && t[s_int] == '.' {
                proof {
                    lemma_nd_run_end(t@, s_int + 1);
                }
                let f_end = nd_run_end_at(t, s_int + 1);
                if f_end > s_int + 1 {
                    s1 = f_end;
                }
            }
            return Some(((b, m_end), (s0, s1)));
        }
    }
    None
}

/// Computes `offset_fields_at`.
fn offset_fields_exec(t: &[char], r: usize) -> (res: Option<(bool, Option<(usize, usize)>, (usize, usize), (usize, usize))>)
    requires
        r <= t@.len(),
    ensures
        match res {
            Some((neg, h, m, s)) => {
                &&& offset_fields_at(t@, r as int) matches Some(f)
                &&& f.0 == neg
                &&& match h {
                    Some(hs) => f.1 == Some((hs.0 as int, hs.1 as int)) && hs.0 <= hs.1 <= t@.len(),
                    None => f.1 is None,
                }
                &&& f.2 == (m.0 as int, m.1 as int)
                &&& f.3 == (s.0 as int, s.1 as int)
                &&& m.0 <= m.1 <= t@.len()
                &&& s.0 <= s.1 <= t@.len()
            },
            None => offset_fields_at(t@, r as int) is None,
        },
{
    let neg = r < t.len() && t[r] == '-';
    let b = if neg { r + 1 } else { r };
    proof {
        lemma_nd_run_end(t@, b as int);
    }
    let h_end = nd_run_end_at(t, b);
    if h_end > b && h_end < t.len() && t[h_end] == ':' {
        if let Some((m, s)) = min_sec_at_exec(t, h_end + 1) {
            return Some((neg, Some((b, h_end)), m, s));
        }
    }
    match min_sec_at_exec(t, b) {
        Some((m, s)) => Some((neg, None, m, s)),
        None => None,
    }
}

proof fn lemma_last_amount_by(t: Seq<char>, p: int, q0: int)
    ensures
        last_amount_by(t, p, q0) matches Some(q) ==> amount_by_ok(t, p, q) && q <= q0,
    decreases q0 - p + 1,
{
    if q0 >= p && !amount_by_ok(t, p, q0) {
        lemma_last_amount_by(t, p, q0 - 1);
    }
}

fn last_amount_by_exec(t: &[char], p: usize, le: usize) -> (r: Option<usize>)
    requires
        p <= le <= t@.len(),
        le == line_end(t@, p as int),
    ensures
        match r {
            Some(q) => last_amount_by(t@, p as int, le as int) == Some(q as int) && q + "by "@.len() <= t@.len(),
            None => last_amount_by(t@, p as int, le as int) is None,
        },
{
    let by = chars_of("by ");
    let mut q = le;
    loop
        invariant
            p <= q <= le,
            le == line_end(t@, p as int),
            le <= t@.len(),
            by@ == "by "@,
            last_amount_by(t@, p as int, le as int) == last_amount_by(t@, p as int, q as int),
        decreases q,
    {
        if crate::text::matches_at(t, by.as_slice(), q) && by.len() <= le && q <= le - by.len() {
            let r = q + by.len();
            if offset_fields_exec(t, r).is_some() {
                return Some(q);
            }
        }
        if q == p {
            assert(last_amount_by(t@, p as int, p - 1) is None);
            return None;
        }
        q -= 1;
    }
}

/// The fields of the leftmost amount match.
fn find_amount(t: &[char]) -> (r: Option<(bool, Option<(usize, usize)>, (usize, usize), (usize, usize))>)
    ensures
        match r {
            Some((neg, h, m, s)) => {
                &&& alass_amount(t@) matches Some(f)
                &&& f.0 == neg
                &&& match h {
                    Some(hs) => f.1 == Some((hs.0 as int, hs.1 as int)) && hs.0 <= hs.1 <= t@.len(),
                    None => f.1 is None,
                }
                &&& f.2 == (m.0 as int, m.1 as int)
                &&& f.3 == (s.0 as int, s.1 as int)
                &&& m.0 <= m.1 <= t@.len()
                &&& s.0 <= s.1 <= t@.len()
            },
            None => alass_amount(t@) is None,
        },
{
    let n = t.len();
    let sub = chars_of(" subtitles");
    let by = chars_of("by ");
    let mut i: usize = 0;
    while i < n
        invariant
            n == t@.len(),
            i <= n,
            sub@ == " subtitles"@,
            by@ == "by "@,
            first_amount_from(t@, 0) == first_amount_from(t@, i as int),
        decreases n - i,
    {
        if let Some(e) = header_at_exec(t, i) {
            assert(occurs_at(t@, " subtitles"@, e as int));
            let p = e + sub.len();
            proof {
                lemma_line_end(t@, p as int);
            }
            let le = line_end_at(t, p);
            if let Some(q) = last_amount_by_exec(t, p, le) {
                return offset_fields_exec(t, q + by.len());
            }
        }
        i += 1;
    }
    proof {
        reveal_strlit("shifted block of ");
        assert(header_at(t@, n as int) is None);
        assert(first_amount_from(t@, n + 1) is None);
    }
    None
}

/// The shift amount in alass's output: its sign and its hours (if written), minutes and
/// seconds fields as text.
pub struct AlassOffset {
    pub negative: bool,
    pub hours: Option<String>,
    pub minutes: String,
    pub seconds: String,
}

/// The shift amount of the first alass summary line that has one.
pub fn parse_alass_offset(output: &str) -> (r: Option<AlassOffset>)
    ensures
        match r {
            Some(o) => alass_amount(output@) matches Some(f) && o.negative == f.0 && match (o.hours, f.1) {
                (Some(h), Some(hs)) => h@ == output@.subrange(hs.0, hs.1),
                (None, None) => true,
                _ => false,
            } && o.minutes@ == output@.subrange(f.2.0, f.2.1) && o.seconds@ == output@.subrange(f.3.0, f.3.1),
            None => alass_amount(output@) is None,
        },
{
    let t = chars_of(output);
    match find_amount(t.as_slice()) {
        Some((neg, h, m, s)) => {
            let hours = match h {
                Some((h0, h1)) => {
                    let v = copy_range(t.as_slice(), h0, h1);
                    Some(string_of(v.as_slice()))
                },
                None => None,
            };
            let mv = copy_range(t.as_slice(), m.0, m.1);
            let sv = copy_range(t.as_slice(), s.0, s.1);
            Some(AlassOffset { negative: neg, hours, minutes: string_of(mv.as_slice()), seconds: string_of(sv.as_slice()) })
        },
        None => None,
    }
}

/// A field's value as `str::parse::<f64>` reads it, capped at 11 (enough to decide the
/// ten-second threshold).
fn field_value_capped(v: &[char]) -> (r: u64)
    ensures
        r == if field_value(v@) > 11 { 11 } else { field_value(v@) },
{
    let vl = v.len();
    match digits_value_upto(v, 0, vl, 11) {
        Some(x) => {
            assert(v@.subrange(0, vl as int) == v@);
            x
        },
        None => {
            assert(v@.subrange(0, vl as int) == v@);
            if all_digits_exec(v) {
                11
            } else {
                0
            }
        },
    }
}

fn all_digits_exec(v: &[char]) -> (r: bool)
    ensures
        r == all_ascii_digits(v@),
{
    let mut k: usize = 0;
    while k < v.len()
        invariant
            k <= v@.len(),
            forall|t: int| 0 <= t < k ==> crate::text::is_ascii_digit(#[trigger] v@[t]),
        decreases v@.len() - k,
    {
        if !('0' <= v[k] && v[k] <= '9') {
            return false;
        }
        k += 1;
    }
    true
}

/// Whether the fraction digits `f` are above 2^-50 (see `fraction_above`).
fn fraction_above_tiny(f: &[char]) -> (r: bool)
    ensures
        r == fraction_above(f@, two_pow_minus_50_digits(), 0),
{
    let cv = chars_of("00000000000000088817841970012523233890533447265625");
    let c = cv.as_slice();
    let n = if f.len() > c.len() { f.len() } else { c.len() };
    let mut k: usize = 0;
    while k < n
        invariant
            c@ == two_pow_minus_50_digits(),
            n == (if f@.len() > c@.len() { f@.len() } else { c@.len() }),
            k <= n,
            fraction_above(f@, c@, 0) == fraction_above(f@, c@, k as int),
        decreases n - k,
    {
        let a = if k < f.len() { f[k] } else { '0' };
        let b = if k < c.len() { c[k] } else { '0' };
        if a > b {
            return true;
        }
        if a < b {
            return false;
        }
        k += 1;
    }
    false
}

/// Whether the amount `h:m:s` is more than ten seconds away from zero.
fn amount_is_large_exec(t: &[char], f: (bool, Option<(usize, usize)>, (usize, usize), (usize, usize))) -> (r: bool)
    requires
        f.2.0 <= f.2.1 <= t@.len(),
        f.3.0 <= f.3.1 <= t@.len(),
        f.1 matches Some(hs) ==> hs.0 <= hs.1 <= t@.len(),
    ensures
        r == amount_is_large(
            t@,
            (
                f.0,
                match f.1 {
                    Some(hs) => Some((hs.0 as int, hs.1 as int)),
                    None => None,
                },
                (f.2.0 as int, f.2.1 as int),
                (f.3.0 as int, f.3.1 as int),
            ),
        ),
{
    let h: u64 = match f.1 {
        Some((h0, h1)) => {
            let hv = copy_range(t, h0, h1);
            field_value_capped(hv.as_slice())
        },
        None => 0,
    };
    let mv = copy_range(t, f.2.0, f.2.1);
    let m = field_value_capped(mv.as_slice());
    let sv = copy_range(t, f.3.0, f.3.1);
    let svl = sv.len();
    proof {
        lemma_nd_run_end(sv@, 0);
    }
    let d = nd_run_end_at(sv.as_slice(), 0);
    let int_part = copy_range(sv.as_slice(), 0, d);
    let frac = if d < svl {
        copy_range(sv.as_slice(), d + 1, svl)
    } else {
        Vec::new()
    };
    assert(int_part@ == sv@.take(d as int));
    if d < svl {
        assert(frac@ == sv@.skip(d + 1));
    } else {
        assert(frac@ == Seq::<char>::empty());
    }
    let (s_whole, s_frac) = if all_digits_exec(int_part.as_slice()) && all_digits_exec(frac.as_slice()) {
        (field_value_capped(int_part.as_slice()), fraction_above_tiny(frac.as_slice()))
    } else {
        (0, false)
    };
    let ghost hx: nat = match f.1 {
        Some(hs) => field_value(t@.subrange(hs.0 as int, hs.1 as int)),
        None => 0,
    };
    let ghost mx = field_value(t@.subrange(f.2.0 as int, f.2.1 as int));
    let ghost sx = seconds_value(t@.subrange(f.3.0 as int, f.3.1 as int));
    assert(h == if hx > 11 { 11 } else { hx });
    assert(m == if mx > 11 { 11 } else { mx });
    assert(s_whole == if sx.0 > 11 { 11 } else { sx.0 });
    assert(s_frac == sx.1);
    let whole: u64 = 3600 * h + 60 * m + s_whole;
    assert((whole > 10 || (whole == 10 && s_frac)) == (3600 * hx + 60 * mx + sx.0 > 10 || (3600 * hx + 60 * mx
        + sx.0 == 10 && sx.1)));
    whole > 10 || (whole == 10 && s_frac)
}

/// Output that mentions negative timings always calls for a warning, whatever the shift
/// amount.
pub proof fn law_negative_timings_always_warn(t: Seq<char>)
    requires
        contains(t, "negative timings"@),
    ensures
        alass_needs_warning(t),
{
}

/// A shift amount of more than ten whole seconds calls for a warning, whether or not
/// negative timings are mentioned.
pub proof fn law_long_shift_warns(t: Seq<char>)
    requires
        alass_amount(t) matches Some(f) && seconds_value(t.subrange(f.3.0, f.3.1)).0 > 10,
    ensures
        alass_needs_warning(t),
{
}

/// How alass's output is judged: a warning (with the summary) when it reports negative
/// timings or a shift of more than ten seconds, a success (with the summary) otherwise.
pub fn evaluate_alass_output(output: &str) -> (r: SyncResult)
    ensures
        match r {
            SyncResult::WarningLargeShift(s) => alass_needs_warning(output@) && s@ == alass_summary(output@),
            SyncResult::Success(s) => !alass_needs_warning(output@) && s@ == alass_summary(output@),
            SyncResult::DirectCopy => false,
        },
        contains(output@, "negative timings"@) ==> r is WarningLargeShift,
{
    let shift_info = parse_alass_shift(output);
    let t = chars_of(output);
    let neg_words = chars_of("negative timings");
    let has_neg_warning = contains_chars(t.as_slice(), neg_words.as_slice());
    let is_large = match find_amount(t.as_slice()) {
        Some(f) => amount_is_large_exec(t.as_slice(), f),
        None => false,
    };
    if has_neg_warning || is_large {
        SyncResult::WarningLargeShift(shift_info)
    } else {
        SyncResult::Success(shift_info)
    }
}

/// The aligner that is tried.
pub enum Aligner {
    /// `~/.local/bin/alass` (or `alass` on the search path when there is no home directory).
    Alass,
    /// `alass-cli` on the search path.
    AlassCli,
}

/// What the synchroniser does next.
pub enum SyncStep {
    /// Run this aligner.
    Run(Aligner),
    /// Stop with this result.
    Finish(SyncResult),
    /// No aligner succeeded: copy the subtitle unchanged (after checking for ffmpeg).
    CopyUnchanged,
}

/// The first step of a synchronisation.
pub fn first_sync_step() -> (r: SyncStep)
    ensures
        r matches SyncStep::Run(Aligner::Alass),
{
    SyncStep::Run(Aligner::Alass)
}

/// The step after an aligner has run: `output` is its standard output, a line feed and its
/// standard error when it ran and exited successfully, and `None` otherwise.
pub fn next_sync_step(ran: Aligner, output: Option<String>) -> (r: SyncStep)
    ensures
        match output {
            Some(o) => match r {
                SyncStep::Finish(res) => match res {
                    SyncResult::WarningLargeShift(s) => alass_needs_warning(o@) && s@ == alass_summary(o@),
                    SyncResult::Success(s) => !alass_needs_warning(o@) && s@ == alass_summary(o@),
                    SyncResult::DirectCopy => false,
                },
                _ => false,
            },
            None => match ran {
                Aligner::Alass => r matches SyncStep::Run(Aligner::AlassCli),
                Aligner::AlassCli => r matches SyncStep::CopyUnchanged,
            },
        },
        output matches Some(o) && contains(o@, "negative timings"@) ==> r matches SyncStep::Finish(
            SyncResult::WarningLargeShift(_),
        ),
{
    match output {
        Some(o) => SyncStep::Finish(evaluate_alass_output(o.as_str())),
        None => match ran {
            Aligner::Alass => SyncStep::Run(Aligner::AlassCli),
            Aligner::AlassCli => SyncStep::CopyUnchanged,
        },
    }
}

/// What alass printed, as the synchroniser reads it: standard output, a line feed, standard
/// error.
pub fn combined_alass_output(stdout: &str, stderr: &str) -> (r: String)
    ensures
        r@ == stdout@ + seq!['\n'] + stderr@,
{
    let mut out: Vec<char> = Vec::new();
    push_str(&mut out, stdout);
    out.push('\n');
    push_str(&mut out, stderr);
    string_of(out.as_slice())
}

} // verus!
