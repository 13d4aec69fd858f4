//! Character-level text utilities shared by the whole library: conversions between
//! `str`/`String` and character vectors, the Unicode character classes that the
//! filename and subtitle grammars use, trimming, searching and decimal numbers.

use vstd::prelude::*;
use vstd::std_specs::iter::IteratorSpec;

verus! {

// ---------------------------------------------------------------------------
// Conversions
// ---------------------------------------------------------------------------

/// The characters of `s`, in order.
pub fn chars_of(s: &str) -> (v: Vec<char>)
    ensures
        v@ == s@,
{
    let mut v: Vec<char> = Vec::new();
    let mut it = s.chars();
    proof {
        broadcast use vstd::string::axiom_spec_iter;
    }
    for c in iter: it
        invariant
            v@ == iter.seq().take(iter.index() as int),
            iter.seq() == s@,
    {
        v.push(c);
    }
    v
}

/// `String::push` from `std`: appends `c` to `s`.
#[verifier::external_body]
fn string_push(s: &mut String, c: char)
    ensures
        final(s)@ == old(s)@.push(c),
{
    s.push(c);
}

/// The string made of the given characters.
pub fn string_of(v: &[char]) -> (s: String)
    ensures
        s@ == v@,
{
    let mut s = String::new();
    let mut k: usize = 0;
    while k < v.len()
        invariant
            k <= v@.len(),
            s@ == v@.take(k as int),
        decreases v@.len() - k,
    {
        string_push(&mut s, v[k]);
        k += 1;
        assert(v@.take(k as int) == v@.take(k - 1).push(v@[k - 1]));
    }
    assert(v@.take(v@.len() as int) == v@);
    s
}

/// A copy of `v[start..end)`.
pub fn copy_range(v: &[char], start: usize, end: usize) -> (r: Vec<char>)
    requires
        start <= end <= v@.len(),
    ensures
        r@ == v@.subrange(start as int, end as int),
{
    let mut r: Vec<char> = Vec::new();
    let mut k = start;
    while k < end
        invariant
            start <= k <= end,
            end <= v@.len(),
            r@ == v@.subrange(start as int, k as int),
        decreases end - k,
    {
        r.push(v[k]);
        k += 1;
    }
    r
}

/// Appends all of `src` to `dst`.
pub fn push_all(dst: &mut Vec<char>, src: &[char])
    ensures
        final(dst)@ == old(dst)@ + src@,
{
    let mut k: usize = 0;
    while k < src.len()
        invariant
            k <= src@.len(),
            dst@ == old(dst)@ + src@.take(k as int),
        decreases src@.len() - k,
    {
        dst.push(src[k]);
        k += 1;
        assert(src@.take(k as int) == src@.take(k - 1).push(src@[k - 1]));
    }
    assert(src@.take(src@.len() as int) == src@);
}

/// Appends the characters of `s` to `dst`.
pub fn push_str(dst: &mut Vec<char>, s: &str)
    ensures
        final(dst)@ == old(dst)@ + s@,
{
    let cs = chars_of(s);
    push_all(dst, cs.as_slice());
}

/// Whether two character sequences are equal.
pub fn chars_equal(a: &[char], b: &[char]) -> (r: bool)
    ensures
        r == (a@ == b@),
{
    if a.len() != b.len() {
        return false;
    }
    let mut k: usize = 0;
    while k < a.len()
        invariant
            a@.len() == b@.len(),
            k <= a@.len(),
            forall|t: int| 0 <= t < k ==> a@[t] == b@[t],
        decreases a@.len() - k,
    {
        if a[k] != b[k] {
            return false;
        }
        k += 1;
    }
    assert(a@ =~= b@);
    true
}

/// Whether two strings hold the same characters.
pub fn str_equal(a: &str, b: &str) -> (r: bool)
    ensures
        r == (a@ == b@),
{
    let x = chars_of(a);
    let y = chars_of(b);
    chars_equal(x.as_slice(), y.as_slice())
}

// ---------------------------------------------------------------------------
// Character classes
// ---------------------------------------------------------------------------

pub open spec fn is_ascii_char(c: char) -> bool {
    (c as u32) < 128
}

pub open spec fn is_ascii_digit(c: char) -> bool {
    '0' <= c && c <= '9'
}

pub open spec fn is_ascii_alpha(c: char) -> bool {
    ('a' <= c && c <= 'z') || ('A' <= c && c <= 'Z')
}

/// ASCII lower-casing of one character; every other character is unchanged.
pub open spec fn ascii_lower(c: char) -> char {
    if 'A' <= c && c <= 'Z' {
        ((c as u32) + 32) as char
    } else {
        c
    }
}

pub fn to_ascii_lower(c: char) -> (r: char)
    ensures
        r == ascii_lower(c),
{
    if 'A' <= c && c <= 'Z' {
        let b = (c as u8) + 32;
        b as char
    } else {
        c
    }
}

/// White space in the sense of Unicode `White_Space`: the class that `char::is_whitespace`
/// reports, that `str::trim` removes and that `\s` matches in `regex`. It is these 25
/// characters: U+0009 to U+000D, U+0020, U+0085, U+00A0, U+1680, U+2000 to U+200A, U+2028,
/// U+2029, U+202F, U+205F and U+3000.
pub open spec fn is_white(c: char) -> bool {
    ||| ('\u{9}' <= c && c <= '\u{d}')
    ||| c == ' '
    ||| c == '\u{85}'
    ||| c == '\u{a0}'
    ||| c == '\u{1680}'
    ||| ('\u{2000}' <= c && c <= '\u{200a}')
    ||| c == '\u{2028}'
    ||| c == '\u{2029}'
    ||| c == '\u{202f}'
    ||| c == '\u{205f}'
    ||| c == '\u{3000}'
}

pub fn is_white_char(c: char) -> (r: bool)
    ensures
        r == is_white(c),
{
    ('\u{9}' <= c && c <= '\u{d}') || c == ' ' || c == '\u{85}' || c == '\u{a0}' || c == '\u{1680}' || (
    '\u{2000}' <= c && c <= '\u{200a}') || c == '\u{2028}' || c == '\u{2029}' || c == '\u{202f}' || c == '\u{205f}'
        || c == '\u{3000}'
}

/// Name for whether the one-character text `c` matches, in full, the `regex` pattern `class`.
pub uninterp spec fn regex_class_member(class: Seq<char>, c: char) -> bool;

/// `regex::Regex::is_match` of the anchored pattern `\A(?:class)\z` on the text that holds
/// only `c`. The contract only names the answer; a pattern that does not compile gives `false`.
#[verifier::external_body]
fn regex_class_matches(class: &str, c: char) -> (r: bool)
    ensures
        r == regex_class_member(class@, c),
{
    let mut buf = [0u8; 4];
    let text: &str = c.encode_utf8(&mut buf);
    match regex::Regex::new(&format!("\\A(?:{})\\z", class)) {
        Ok(re) => re.is_match(text),
        Err(_) => false,
    }
}

/// A decimal digit in the sense of `\d` in `regex` (Unicode `Nd`); among ASCII
/// characters exactly `0`-`9`.
pub open spec fn is_nd(c: char) -> bool {
    if is_ascii_char(c) {
        is_ascii_digit(c)
    } else {
        regex_class_member("\\d"@, c)
    }
}

pub fn is_nd_char(c: char) -> (r: bool)
    ensures
        r == is_nd(c),
{
    if (c as u32) < 128 {
        '0' <= c && c <= '9'
    } else {
        regex_class_matches("\\d", c)
    }
}

/// A word character in the sense of `\w` in `regex` (Unicode); among ASCII characters
/// exactly letters, digits and `_`.
pub open spec fn is_word(c: char) -> bool {
    if is_ascii_char(c) {
        is_ascii_alpha(c) || is_ascii_digit(c) || c == '_'
    } else {
        regex_class_member("\\w"@, c)
    }
}

pub fn is_word_char(c: char) -> (r: bool)
    ensures
        r == is_word(c),
{
    if (c as u32) < 128 {
        ('a' <= c && c <= 'z') || ('A' <= c && c <= 'Z') || ('0' <= c && c <= '9') || c == '_'
    } else {
        regex_class_matches("\\w", c)
    }
}

// ---------------------------------------------------------------------------
// Trimming
// ---------------------------------------------------------------------------

/// `s` without its leading white space.
pub open spec fn trim_start(s: Seq<char>) -> Seq<char>
    decreases s.len(),
{
    if s.len() > 0 && is_white(s[0]) {
        trim_start(s.drop_first())
    } else {
        s
    }
}

/// `s` without its trailing white space.
pub open spec fn trim_end(s: Seq<char>) -> Seq<char>
    decreases s.len(),
{
    if s.len() > 0 && is_white(s.last()) {
        trim_end(s.drop_last())
    } else {
        s
    }
}

/// `s` without leading and trailing white space, as `str::trim` gives it.
pub open spec fn trim(s: Seq<char>) -> Seq<char> {
    trim_end(trim_start(s))
}

proof fn lemma_trim_start_skip(s: Seq<char>, k: int)
    requires
        0 <= k <= s.len(),
        forall|t: int| 0 <= t < k ==> is_white(#[trigger] s[t]),
    ensures
        trim_start(s) == trim_start(s.skip(k)),
    decreases k,
{
    if k > 0 {
        assert(s.skip(1) == s.drop_first());
        lemma_trim_start_skip(s.drop_first(), k - 1);
        assert(s.drop_first().skip(k - 1) == s.skip(k));
    } else {
        assert(s.skip(0) == s);
    }
}

proof fn lemma_trim_end_take(s: Seq<char>, k: int)
    requires
        0 <= k <= s.len(),
        forall|t: int| k <= t < s.len() ==> is_white(#[trigger] s[t]),
    ensures
        trim_end(s) == trim_end(s.take(k)),
    decreases s.len() - k,
{
    if k < s.len() {
        assert(s.drop_last() == s.take(s.len() - 1));
        lemma_trim_end_take(s.drop_last(), k);
        assert(s.drop_last().take(k) == s.take(k));
    } else {
        assert(s.take(s.len() as int) == s);
    }
}

/// Bounds of the trimmed part of `v`: `v[start..end)` is `trim(v)`.
pub fn trim_bounds(v: &[char]) -> (r: (usize, usize))
    ensures
        r.0 <= r.1 <= v@.len(),
        v@.subrange(r.0 as int, r.1 as int) == trim(v@),
{
    let mut a: usize = 0;
    while a < v.len() && is_white_char(v[a])
        invariant
            a <= v@.len(),
            forall|t: int| 0 <= t < a ==> is_white(#[trigger] v@[t]),
        decreases v@.len() - a,
    {
        a += 1;
    }
    proof {
        lemma_trim_start_skip(v@, a as int);
    }
    let ghost rest = v@.skip(a as int);
    assert(trim_start(rest) == rest);
    let mut b: usize = v.len();
    while b > a && is_white_char(v[b - 1])
        invariant
            a <= b <= v@.len(),
            forall|t: int| b <= t < v@.len() ==> is_white(#[trigger] v@[t]),
        decreases b,
    {
        b -= 1;
    }
    proof {
        assert forall|t: int| b - a <= t < rest.len() implies is_white(#[trigger] rest[t]) by {
            assert(rest[t] == v@[t + a]);
        }
        lemma_trim_end_take(rest, b - a);
        assert(rest.take(b - a) == v@.subrange(a as int, b as int));
        let tk = rest.take(b - a);
        if tk.len() > 0 {
            assert(tk.last() == v@[b - 1]);
        }
    }
    (a, b)
}

/// `trim(v)` as a vector.
pub fn trim_chars(v: &[char]) -> (r: Vec<char>)
    ensures
        r@ == trim(v@),
{
    let (a, b) = trim_bounds(v);
    copy_range(v, a, b)
}

/// Whether `trim(v)` is empty, that is, whether `v` is all white space.
pub fn is_blank(v: &[char]) -> (r: bool)
    ensures
        r == (trim(v@).len() == 0),
{
    let (a, b) = trim_bounds(v);
    a == b
}

// ---------------------------------------------------------------------------
// Searching
// ---------------------------------------------------------------------------

/// `needle` occurs in `hay` at index `i`.
pub open spec fn occurs_at(hay: Seq<char>, needle: Seq<char>, i: int) -> bool {
    0 <= i && i + needle.len() <= hay.len() && hay.subrange(i, i + needle.len()) == needle
}

/// `needle` occurs somewhere in `hay` (`str::contains` with a string pattern).
pub open spec fn contains(hay: Seq<char>, needle: Seq<char>) -> bool {
    exists|i: int| occurs_at(hay, needle, i)
}

/// Whether `needle` occurs in `hay` at index `i`.
pub fn matches_at(hay: &[char], needle: &[char], i: usize) -> (r: bool)
    ensures
        r == occurs_at(hay@, needle@, i as int),
{
    if i > hay.len() || needle.len() > hay.len() - i {
        return false;
    }
    let hl = hay.len();
    let mut k: usize = 0;
    while k < needle.len()
        invariant
            hl == hay@.len(),
            i <= hay@.len(),
            i + needle@.len() <= hay@.len(),
            k <= needle@.len(),
            forall|t: int| 0 <= t < k ==> hay@[i + t] == needle@[t],
        decreases needle@.len() - k,
    {
        assert(i + k < hay@.len());
        if hay[i + k] != needle[k] {
            assert(hay@.subrange(i as int, i + needle@.len())[k as int] != needle@[k as int]);
            return false;
        }
        k += 1;
    }
    assert(hay@.subrange(i as int, i + needle@.len()) =~= needle@);
    true
}

/// Whether `needle` occurs in `hay`.
pub fn contains_chars(hay: &[char], needle: &[char]) -> (r: bool)
    ensures
        r == contains(hay@, needle@),
{
    let n = hay.len();
    let mut i: usize = 0;
    while i < n
        invariant
            n == hay@.len(),
            i <= n,
            forall|t: int| 0 <= t < i ==> !occurs_at(hay@, needle@, t),
        decreases n - i,
    {
        if matches_at(hay, needle, i) {
            return true;
        }
        i += 1;
    }
    if matches_at(hay, needle, n) {
        return true;
    }
    assert forall|t: int| !occurs_at(hay@, needle@, t) by {
        if 0 <= t < n {
        }
    }
    false
}

/// `s` begins with `p`.
pub open spec fn has_prefix(s: Seq<char>, p: Seq<char>) -> bool {
    occurs_at(s, p, 0)
}

/// `s` ends with `p`.
pub open spec fn has_suffix(s: Seq<char>, p: Seq<char>) -> bool {
    p.len() <= s.len() && occurs_at(s, p, s.len() - p.len())
}

pub fn ends_with(s: &[char], p: &[char]) -> (r: bool)
    ensures
        r == has_suffix(s@, p@),
{
    if p.len() > s.len() {
        false
    } else {
        matches_at(s, p, s.len() - p.len())
    }
}

// ---------------------------------------------------------------------------
// Case-insensitive comparison
// ---------------------------------------------------------------------------

/// `str::eq_ignore_ascii_case`: equal after ASCII lower-casing of both sides.
pub open spec fn eq_ignore_ascii_case(a: Seq<char>, b: Seq<char>) -> bool {
    a.len() == b.len() && forall|i: int| 0 <= i < a.len() ==> ascii_lower(#[trigger] a[i]) == ascii_lower(b[i])
}

pub fn chars_eq_ignore_ascii_case(a: &[char], b: &[char]) -> (r: bool)
    ensures
        r == eq_ignore_ascii_case(a@, b@),
{
    if a.len() != b.len() {
        return false;
    }
    let mut k: usize = 0;
    while k < a.len()
        invariant
            a@.len() == b@.len(),
            k <= a@.len(),
            forall|t: int| 0 <= t < k ==> ascii_lower(#[trigger] a@[t]) == ascii_lower(b@[t]),
        decreases a@.len() - k,
    {
        if to_ascii_lower(a[k]) != to_ascii_lower(b[k]) {
            return false;
        }
        k += 1;
    }
    true
}

// ---------------------------------------------------------------------------
// Decimal numbers
// ---------------------------------------------------------------------------

/// All characters of `s` are ASCII digits.
pub open spec fn all_ascii_digits(s: Seq<char>) -> bool {
    forall|i: int| 0 <= i < s.len() ==> is_ascii_digit(#[trigger] s[i])
}

pub open spec fn digit_value(c: char) -> nat {
    ((c as u32) - ('0' as u32)) as nat
}

/// Value of a text of ASCII digits read in base ten.
pub open spec fn digits_value(s: Seq<char>) -> nat
    decreases s.len(),
{
    if s.len() == 0 {
        0
    } else {
        digits_value(s.drop_last()) * 10 + digit_value(s.last())
    }
}

pub proof fn lemma_digits_value_prefix(s: Seq<char>, k: int)
    requires
        0 <= k <= s.len(),
        all_ascii_digits(s),
    ensures
        digits_value(s.take(k)) <= digits_value(s),
    decreases s.len() - k,
{
    if k < s.len() {
        assert(s.drop_last().take(k) == s.take(k));
        assert(all_ascii_digits(s.drop_last())) by {
            assert forall|i: int| 0 <= i < s.drop_last().len() implies is_ascii_digit(#[trigger] s.drop_last()[i]) by {
                assert(s.drop_last()[i] == s[i]);
            }
        }
        lemma_digits_value_prefix(s.drop_last(), k);
    } else {
        assert(s.take(k) == s);
    }
}

/// What `str::parse::<i64>` gives for `s`: an optional `+` or `-`, then at least one
/// ASCII digit, and a value that fits in `i64`.
pub open spec fn parse_i64_text(s: Seq<char>) -> Option<int> {
    if s.len() > 0 && (s[0] == '+' || s[0] == '-') {
        let d = s.drop_first();
        if d.len() > 0 && all_ascii_digits(d) {
            let v: int = if s[0] == '-' { -(digits_value(d) as int) } else { digits_value(d) as int };
            if i64::MIN <= v && v <= i64::MAX { Some(v) } else { None }
        } else {
            None
        }
    } else if s.len() > 0 && all_ascii_digits(s) {
        let v: int = digits_value(s) as int;
        if v <= i64::MAX { Some(v) } else { None }
    } else {
        None
    }
}

/// What `str::parse::<u64>` gives for `s`: an optional `+`, then at least one ASCII digit,
/// and a value that fits in `u64`.
pub open spec fn parse_u64_text(s: Seq<char>) -> Option<int> {
    let d = if s.len() > 0 && s[0] == '+' { s.drop_first() } else { s };
    if d.len() > 0 && all_ascii_digits(d) && digits_value(d) <= u64::MAX {
        Some(digits_value(d) as int)
    } else {
        None
    }
}

/// Value of `v[start..end)` as ASCII digits, or `None` when a character is not an ASCII
/// digit or the value exceeds `limit`.
pub fn digits_value_upto(v: &[char], start: usize, end: usize, limit: u64) -> (r: Option<u64>)
    requires
        start <= end <= v@.len(),
    ensures
        match r {
            Some(x) => all_ascii_digits(v@.subrange(start as int, end as int)) && x == digits_value(
                v@.subrange(start as int, end as int),
            ) && x <= limit,
            None => !all_ascii_digits(v@.subrange(start as int, end as int)) || digits_value(
                v@.subrange(start as int, end as int),
            ) > limit,
        },
{
    let ghost s = v@.subrange(start as int, end as int);
    let mut acc: u64 = 0;
    let mut k = start;
    while k < end
        invariant
            start <= k <= end <= v@.len(),
            s == v@.subrange(start as int, end as int),
            all_ascii_digits(s.take(k - start)),
            acc == digits_value(s.take(k - start)),
            acc <= limit,
        decreases end - k,
    {
        let c = v[k];
        if !('0' <= c && c <= '9') {
            assert(s[k - start] == c);
            return None;
        }
        let d = (c as u64) - 48;
        assert(s.take(k + 1 - start).drop_last() == s.take(k - start));
        assert(s.take(k + 1 - start).last() == c);
        let next: u128 = (acc as u128) * 10 + (d as u128);
        assert(digits_value(s.take(k + 1 - start)) == acc * 10 + d);
        if next > limit as u128 {
            proof {
                if all_ascii_digits(s) {
                    lemma_digits_value_prefix(s, k + 1 - start);
                }
            }
            return None;
        }
        acc = acc * 10 + d;
        k += 1;
        assert(all_ascii_digits(s.take(k - start))) by {
            assert forall|i: int| 0 <= i < s.take(k - start).len() implies is_ascii_digit(#[trigger] s.take(k - start)[i]) by {
                if i < k - 1 - start {
                    assert(s.take(k - start)[i] == s.take(k - 1 - start)[i]);
                }
            }
        }
    }
    assert(s.take(end - start) == s);
    Some(acc)
}

} // verus!

verus! {

// ---------------------------------------------------------------------------
// Runs of characters
// ---------------------------------------------------------------------------

/// Index just past the run of `\d` characters that starts at `i`.
pub open spec fn nd_run_end(t: Seq<char>, i: int) -> int
    decreases t.len() - i,
{
    if 0 <= i < t.len() && is_nd(t[i]) {
        nd_run_end(t, i + 1)
    } else {
        i
    }
}

pub proof fn lemma_nd_run_end(t: Seq<char>, i: int)
    requires
        0 <= i <= t.len(),
    ensures
        i <= nd_run_end(t, i) <= t.len(),
        forall|k: int| i <= k < nd_run_end(t, i) ==> is_nd(#[trigger] t[k]),
        nd_run_end(t, i) < t.len() ==> !is_nd(t[nd_run_end(t, i)]),
    decreases t.len() - i,
{
    if i < t.len() && is_nd(t[i]) {
        lemma_nd_run_end(t, i + 1);
    }
}

/// Index just past the run of `\d` characters that starts at `i`.
pub fn nd_run_end_at(t: &[char], i: usize) -> (r: usize)
    requires
        i <= t@.len(),
    ensures
        r == nd_run_end(t@, i as int),
{
    let mut k = i;
    while k < t.len() && is_nd_char(t[k])
        invariant
            i <= k <= t@.len(),
            nd_run_end(t@, i as int) == nd_run_end(t@, k as int),
        decreases t@.len() - k,
    {
        k += 1;
    }
    k
}

/// Index just past the run of white space that starts at `i`.
pub open spec fn white_run_end(t: Seq<char>, i: int) -> int
    decreases t.len() - i,
{
    if 0 <= i < t.len() && is_white(t[i]) {
        white_run_end(t, i + 1)
    } else {
        i
    }
}

pub proof fn lemma_white_run_end(t: Seq<char>, i: int)
    requires
        0 <= i <= t.len(),
    ensures
        i <= white_run_end(t, i) <= t.len(),
        forall|k: int| i <= k < white_run_end(t, i) ==> is_white(#[trigger] t[k]),
    decreases t.len() - i,
{
    if i < t.len() && is_white(t[i]) {
        lemma_white_run_end(t, i + 1);
    }
}

/// Index just past the run of white space that starts at `i`.
pub fn white_run_end_at(t: &[char], i: usize) -> (r: usize)
    requires
        i <= t@.len(),
    ensures
        r == white_run_end(t@, i as int),
{
    let mut k = i;
    while k < t.len() && is_white_char(t[k])
        invariant
            i <= k <= t@.len(),
            white_run_end(t@, i as int) == white_run_end(t@, k as int),
        decreases t@.len() - k,
    {
        k += 1;
    }
    k
}

/// Index of the first line feed at or after `p`, or the length of `t`.
pub open spec fn line_end(t: Seq<char>, p: int) -> int
    decreases t.len() - p,
{
    if 0 <= p < t.len() && t[p] != '\n' {
        line_end(t, p + 1)
    } else {
        p
    }
}

pub proof fn lemma_line_end(t: Seq<char>, p: int)
    requires
        0 <= p <= t.len(),
    ensures
        p <= line_end(t, p) <= t.len(),
        forall|k: int| p <= k < line_end(t, p) ==> #[trigger] t[k] != '\n',
        line_end(t, p) < t.len() ==> t[line_end(t, p)] == '\n',
    decreases t.len() - p,
{
    if p < t.len() && t[p] != '\n' {
        lemma_line_end(t, p + 1);
    }
}

/// Index of the first line feed at or after `p`, or the length of `t`.
pub fn line_end_at(t: &[char], p: usize) -> (r: usize)
    requires
        p <= t@.len(),
    ensures
        r == line_end(t@, p as int),
{
    let mut k = p;
    while k < t.len() && t[k] != '\n'
        invariant
            p <= k <= t@.len(),
            line_end(t@, p as int) == line_end(t@, k as int),
        decreases t@.len() - k,
    {
        k += 1;
    }
    k
}

/// Index of the first `c` at or after `p`, or the length of `t`.
pub open spec fn until_char(t: Seq<char>, p: int, c: char) -> int
    decreases t.len() - p,
{
    if 0 <= p < t.len() && t[p] != c {
        until_char(t, p + 1, c)
    } else {
        p
    }
}

pub proof fn lemma_until_char(t: Seq<char>, p: int, c: char)
    requires
        0 <= p <= t.len(),
    ensures
        p <= until_char(t, p, c) <= t.len(),
        forall|k: int| p <= k < until_char(t, p, c) ==> #[trigger] t[k] != c,
        until_char(t, p, c) < t.len() ==> t[until_char(t, p, c)] == c,
    decreases t.len() - p,
{
    if p < t.len() && t[p] != c {
        lemma_until_char(t, p + 1, c);
    }
}

/// Index of the first `c` at or after `p`, or the length of `t`.
pub fn until_char_at(t: &[char], p: usize, c: char) -> (r: usize)
    requires
        p <= t@.len(),
    ensures
        r == until_char(t@, p as int, c),
{
    let mut k = p;
    while k < t.len() && t[k] != c
        invariant
            p <= k <= t@.len(),
            until_char(t@, p as int, c) == until_char(t@, k as int, c),
        decreases t@.len() - k,
    {
        k += 1;
    }
    k
}

/// Whether the literal `lit` occurs in `t` at `i`.
pub fn literal_at(t: &[char], i: usize, lit: &str) -> (r: bool)
    ensures
        r == occurs_at(t@, lit@, i as int),
{
    let l = chars_of(lit);
    matches_at(t, l.as_slice(), i)
}

/// The decimal digits of `n` (no sign, no leading zeros; `0` for zero).
pub open spec fn decimal(n: nat) -> Seq<char>
    decreases n,
{
    if n < 10 {
        seq![(n + 48) as char]
    } else {
        decimal(n / 10).push(((n % 10) + 48) as char)
    }
}

/// `decimal(n)` padded on the left with zeros to at least `width` characters, as the
/// `{:0width}` format gives it.
pub open spec fn padded_decimal(n: nat, width: nat) -> Seq<char> {
    let d = decimal(n);
    if d.len() < width {
        Seq::new((width - d.len()) as nat, |i: int| '0') + d
    } else {
        d
    }
}

/// The digits of a number read back as that number.
pub proof fn lemma_decimal_value(n: nat)
    ensures
        decimal(n).len() >= 1,
        all_ascii_digits(decimal(n)),
        digits_value(decimal(n)) == n,
    decreases n,
{
    if n < 10 {
        let c = (n + 48) as char;
        assert(decimal(n) == seq![c]);
        assert(c as u32 == n + 48);
        assert('0' as u32 == 48);
        assert(seq![c].drop_last() =~= Seq::<char>::empty());
        assert(digit_value(c) == n);
        assert(digits_value(seq![c]) == digits_value(seq![c].drop_last()) * 10 + digit_value(c));
    } else {
        lemma_decimal_value(n / 10);
        let c = ((n % 10) + 48) as char;
        assert(c as u32 == (n % 10) + 48);
        assert('0' as u32 == 48);
        assert(digit_value(c) == n % 10);
        let d = decimal(n / 10);
        assert(decimal(n) == d.push(c));
        assert(d.push(c).drop_last() =~= d);
        assert forall|i: int| 0 <= i < d.push(c).len() implies is_ascii_digit(#[trigger] d.push(c)[i]) by {
            if i < d.len() {
                assert(d.push(c)[i] == d[i]);
            }
        }
        assert(digits_value(decimal(n)) == (n / 10) * 10 + n % 10);
        assert((n / 10) * 10 + n % 10 == n) by (nonlinear_arith);
    }
}

/// Leading zeros do not change the value of a text of digits.
pub proof fn lemma_leading_zeros_value(k: nat, d: Seq<char>)
    requires
        all_ascii_digits(d),
    ensures
        all_ascii_digits(Seq::new(k, |i: int| '0') + d),
        digits_value(Seq::new(k, |i: int| '0') + d) == digits_value(d),
    decreases d.len() + k,
{
    let z = Seq::new(k, |i: int| '0');
    assert forall|i: int| 0 <= i < (z + d).len() implies is_ascii_digit(#[trigger] (z + d)[i]) by {
        if i >= z.len() {
            assert((z + d)[i] == d[i - z.len()]);
        }
    }
    if d.len() == 0 {
        assert(z + d =~= z);
        if k > 0 {
            let z1 = Seq::new((k - 1) as nat, |i: int| '0');
            assert(z.drop_last() =~= z1 + d);
            lemma_leading_zeros_value((k - 1) as nat, d);
            assert(('0' as u32) - ('0' as u32) == 0);
        }
    } else {
        let dd = d.drop_last();
        assert forall|i: int| 0 <= i < dd.len() implies is_ascii_digit(#[trigger] dd[i]) by {
            assert(dd[i] == d[i]);
        }
        assert((z + d).drop_last() =~= z + dd);
        assert((z + d).last() == d.last());
        lemma_leading_zeros_value(k, dd);
    }
}

/// A zero-padded number reads back as that number with `str::parse::<i64>`.
pub proof fn lemma_parse_padded_decimal(n: nat, width: nat)
    requires
        n <= i64::MAX,
    ensures
        parse_i64_text(padded_decimal(n, width)) == Some(n as int),
        all_ascii_digits(padded_decimal(n, width)),
        padded_decimal(n, width).len() >= 1,
{
    lemma_decimal_value(n);
    let d = decimal(n);
    let p = padded_decimal(n, width);
    if d.len() < width {
        lemma_leading_zeros_value((width - d.len()) as nat, d);
    }
    assert(is_ascii_digit(p[0]));
}

/// Appends `padded_decimal(n, width)` to `out`.
pub fn push_padded_decimal(out: &mut Vec<char>, n: u64, width: usize)
    ensures
        final(out)@ == old(out)@ + padded_decimal(n as nat, width as nat),
{
    let mut digits: Vec<char> = Vec::new();
    let mut m = n;
    let ghost mut rest: Seq<char> = Seq::empty();
    // digits holds the lowest digits of n, least significant first
    loop
        invariant_except_break
            decimal(n as nat) == decimal(m as nat) + rest,
        invariant
            digits@.len() == rest.len(),
            forall|i: int| 0 <= i < rest.len() ==> digits@[i] == rest[rest.len() - 1 - i],
        ensures
            decimal(n as nat) == rest,
        decreases m,
    {
        if m < 10 {
            let c = ((m as u8) + 48) as char;
            digits.push(c);
            proof {
                let old_rest = rest;
                assert(decimal(m as nat) == seq![c]);
                rest = seq![c] + rest;
                assert(decimal(n as nat) == rest);
                assert forall|i: int| 0 <= i < rest.len() implies digits@[i] == rest[rest.len() - 1 - i] by {
                    if i < rest.len() - 1 {
                        assert(rest[rest.len() - 1 - i] == old_rest[old_rest.len() - 1 - i]);
                    }
                }
            }
            break;
        }
        let c = (((m % 10) as u8) + 48) as char;
        digits.push(c);
        proof {
            let old_rest = rest;
            assert(decimal(m as nat) == decimal((m / 10) as nat).push(c));
            rest = seq![c] + rest;
            assert(decimal(n as nat) == decimal((m / 10) as nat) + rest);
            assert forall|i: int| 0 <= i < rest.len() implies digits@[i] == rest[rest.len() - 1 - i] by {
                if i < rest.len() - 1 {
                    assert(rest[rest.len() - 1 - i] == old_rest[old_rest.len() - 1 - i]);
                }
            }
        }
        m = m / 10;
    }
    assert(decimal(n as nat) == rest);
    let dl = digits.len();
    if dl < width {
        let mut z: usize = 0;
        let ghost start = out@;
        while z < width - dl
            invariant
                z <= width - dl,
                out@ == start + Seq::new(z as nat, |i: int| '0'),
            decreases width - dl - z,
        {
            out.push('0');
            z += 1;
            assert(out@ =~= start + Seq::new(z as nat, |i: int| '0'));
        }
    }
    let ghost mid = out@;
    let mut k = dl;
    while k > 0
        invariant
            k <= dl,
            dl == digits@.len(),
            digits@.len() == rest.len(),
            forall|i: int| 0 <= i < rest.len() ==> digits@[i] == rest[rest.len() - 1 - i],
            out@ == mid + rest.take(dl - k),
        decreases k,
    {
        k -= 1;
        out.push(digits[k]);
        assert(rest.take(dl - k) == rest.take(dl - k - 1).push(rest[dl - k - 1]));
    }
    assert(rest.take(dl as int) == rest);
}

} // verus!

verus! {

/// `str::parse::<i64>` on the text `v`.
pub fn parse_i64_chars(v: &[char]) -> (r: Option<i64>)
    ensures
        match r {
            Some(x) => parse_i64_text(v@) == Some(x as int),
            None => parse_i64_text(v@) is None,
        },
{
    let n = v.len();
    if n == 0 {
        return None;
    }
    if v[0] == '+' || v[0] == '-' {
        let neg = v[0] == '-';
        if n == 1 {
            return None;
        }
        assert(v@.subrange(1, n as int) == v@.drop_first());
        match digits_value_upto(v, 1, n, 9223372036854775808) {
            Some(mag) => {
                if neg {
                    if mag == 9223372036854775808 {
                        Some(i64::MIN)
                    } else {
                        Some(-(mag as i64))
                    }
                } else if mag <= 9223372036854775807 {
                    Some(mag as i64)
                } else {
                    None
                }
            },
            None => None,
        }
    } else {
        assert(v@.subrange(0, n as int) == v@);
        match digits_value_upto(v, 0, n, 9223372036854775807) {
            Some(x) => Some(x as i64),
            None => None,
        }
    }
}

/// `str::parse::<u64>` on the text `v`.
pub fn parse_u64_chars(v: &[char]) -> (r: Option<u64>)
    ensures
        match r {
            Some(x) => parse_u64_text(v@) == Some(x as int),
            None => parse_u64_text(v@) is None,
        },
{
    let n = v.len();
    let start: usize = if n > 0 && v[0] == '+' { 1 } else { 0 };
    if start == 1 {
        assert(v@.subrange(1, n as int) == v@.drop_first());
    } else {
        assert(v@.subrange(0, n as int) == v@);
    }
    if start == n {
        return None;
    }
    digits_value_upto(v, start, n, u64::MAX)
}

/// Index of the first occurrence of `c` in `s`, if any.
pub open spec fn first_index_of(s: Seq<char>, c: char) -> Option<int>
    decreases s.len(),
{
    if s.len() == 0 {
        None
    } else {
        match first_index_of(s.drop_last(), c) {
            Some(i) => Some(i),
            None => if s.last() == c { Some(s.len() - 1) } else { None },
        }
    }
}

pub proof fn lemma_first_index_of(s: Seq<char>, c: char, k: int)
    requires
        0 <= k <= s.len(),
        forall|t: int| 0 <= t < k ==> s[t] != c,
    ensures
        k < s.len() && s[k] == c ==> first_index_of(s, c) == Some(k),
        k == s.len() ==> first_index_of(s, c) is None,
    decreases s.len(),
{
    if s.len() > 0 {
        if k < s.len() {
            if k < s.len() - 1 {
                lemma_first_index_of(s.drop_last(), c, k);
            } else {
                lemma_first_index_of(s.drop_last(), c, k);
            }
        } else {
            lemma_first_index_of(s.drop_last(), c, k - 1);
        }
    }
}

} // verus!
