//! Reading an anime title and episode number out of a release file name such as
//! `[Group] Title - 01 [1080p][x265].mkv`.

use crate::paths::{name_extension, name_stem, path_extension_and_stem, path_file_name, std_file_name};
use crate::text::{
    chars_eq_ignore_ascii_case, chars_of, copy_range, eq_ignore_ascii_case, is_nd, is_nd_char, is_white,
    is_white_char, is_word, is_word_char, lemma_nd_run_end, nd_run_end, nd_run_end_at, string_of, trim, trim_chars,
    trim_end, trim_start,
};
use vstd::prelude::*;

verus! {

/// What a video file name says about its content.
#[derive(Debug, Clone)]
pub struct AnimeMetadata {
    pub raw_filename: String,
    pub title: String,
    pub episode: Option<String>,
    pub extension: String,
}

/// A separator in release names: white space, `-` or `_`.
pub open spec fn is_name_sep(c: char) -> bool {
    is_white(c) || c == '-' || c == '_'
}

fn is_name_sep_char(c: char) -> (r: bool)
    ensures
        r == is_name_sep(c),
{
    is_white_char(c) || c == '-' || c == '_'
}

/// Index just past the run of separators that starts at `i`.
pub open spec fn sep_run_end(t: Seq<char>, i: int) -> int
    decreases t.len() - i,
{
    if 0 <= i < t.len() && is_name_sep(t[i]) {
        sep_run_end(t, i + 1)
    } else {
        i
    }
}

proof fn lemma_sep_run_end(t: Seq<char>, i: int)
    requires
        0 <= i <= t.len(),
    ensures
        i <= sep_run_end(t, i) <= t.len(),
    decreases t.len() - i,
{
    if i < t.len() && is_name_sep(t[i]) {
        lemma_sep_run_end(t, i + 1);
    }
}

fn sep_run_end_at(t: &[char], i: usize) -> (r: usize)
    requires
        i <= t@.len(),
    ensures
        r == sep_run_end(t@, i as int),
        i <= r <= t@.len(),
{
    let mut k = i;
    while k < t.len() && is_name_sep_char(t[k])
        invariant
            i <= k <= t@.len(),
            sep_run_end(t@, i as int) == sep_run_end(t@, k as int),
        decreases t@.len() - k,
    {
        k += 1;
    }
    proof {
        lemma_sep_run_end(t@, k as int);
    }
    k
}

/// `S` under case-insensitive matching: `S`, `s` and the long s `ſ`.
pub open spec fn is_s_fold(c: char) -> bool {
    c == 'S' || c == 's' || c == '\u{17F}'
}

/// `E` under case-insensitive matching.
pub open spec fn is_e_fold(c: char) -> bool {
    c == 'E' || c == 'e'
}

/// The episode pattern `(?i)\[(\d{1,3})(?:v\d)?\]|[\s\-_]+(\d{1,3})[\s\-_]|E(\d{1,3})|S\d+E(\d{1,3})`
/// at `i`; the result is the span of the captured digits.
pub open spec fn episode_match_at(t: Seq<char>, i: int) -> Option<(int, int)> {
    if !(0 <= i < t.len()) {
        None
    } else if t[i] == '[' {
        let d0 = i + 1;
        let d1 = nd_run_end(t, d0);
        if 1 <= d1 - d0 <= 3 && d1 < t.len() && (t[d1] == ']' || ((t[d1] == 'v' || t[d1] == 'V') && d1 + 2 < t.len()
            && is_nd(t[d1 + 1]) && t[d1 + 2] == ']')) {
            Some((d0, d1))
        } else {
            None
        }
    } else if is_name_sep(t[i]) {
        let r = sep_run_end(t, i);
        let d1 = nd_run_end(t, r);
        if 1 <= d1 - r <= 3 && d1 < t.len() && is_name_sep(t[d1]) {
            Some((r, d1))
        } else {
            None
        }
    } else if is_e_fold(t[i]) {
        let d1 = nd_run_end(t, i + 1);
        if d1 > i + 1 {
            Some((i + 1, if d1 > i + 4 { i + 4 } else { d1 }))
        } else {
            None
        }
    } else if is_s_fold(t[i]) {
        let d1 = nd_run_end(t, i + 1);
        if d1 > i + 1 && d1 < t.len() && is_e_fold(t[d1]) {
            let d2 = nd_run_end(t, d1 + 1);
            if d2 > d1 + 1 {
                Some((d1 + 1, if d2 > d1 + 4 { d1 + 4 } else { d2 }))
            } else {
                None
            }
        } else {
            None
        }
    } else {
        None
    }
}

/// The leftmost match of the episode pattern at or after `i`.
pub open spec fn episode_from(t: Seq<char>, i: int) -> Option<(int, int)>
    decreases t.len() - i,
{
    if i < 0 || i >= t.len() {
        None
    } else if episode_match_at(t, i) is Some {
        episode_match_at(t, i)
    } else {
        episode_from(t, i + 1)
    }
}

/// The episode number written in a file stem, if any.
pub open spec fn episode_of(stem: Seq<char>) -> Option<Seq<char>> {
    match episode_from(stem, 0) {
        Some((a, b)) => Some(stem.subrange(a, b)),
        None => None,
    }
}

proof fn lemma_nd_run_to(t: Seq<char>, a: int, e: int)
    requires
        0 <= a <= e < t.len(),
        forall|k: int| a <= k < e ==> is_nd(#[trigger] t[k]),
        !is_nd(t[e]),
    ensures
        nd_run_end(t, a) == e,
    decreases e - a,
{
    if a < e {
        lemma_nd_run_to(t, a + 1, e);
    }
}

proof fn lemma_episode_from_first(t: Seq<char>, j: int, i: int)
    requires
        0 <= j <= i < t.len(),
        forall|k: int| j <= k < i ==> episode_match_at(t, k) is None,
        episode_match_at(t, i) is Some,
    ensures
        episode_from(t, j) == episode_match_at(t, i),
    decreases i - j,
{
    if j < i {
        lemma_episode_from_first(t, j + 1, i);
    }
}

/// An episode number in brackets, with or without a version (`[05]`, `[05v2]`, `[5V3]`),
/// is read as the episode when no episode marker comes before it: the episode is its one to
/// three digits, without the version.
pub proof fn law_bracketed_episode(t: Seq<char>, i: int, n: int)
    requires
        0 <= i,
        1 <= n <= 3,
        i + n + 1 < t.len(),
        t[i] == '[',
        forall|k: int| i + 1 <= k < i + 1 + n ==> is_nd(#[trigger] t[k]),
        t[i + 1 + n] == ']' || ((t[i + 1 + n] == 'v' || t[i + 1 + n] == 'V') && i + n + 3 < t.len() && is_nd(
            t[i + 2 + n],
        ) && t[i + 3 + n] == ']'),
        forall|k: int| 0 <= k < i ==> episode_match_at(t, k) is None,
    ensures
        episode_of(t) == Some(t.subrange(i + 1, i + 1 + n)),
{
    lemma_nd_run_to(t, i + 1, i + 1 + n);
    assert(episode_match_at(t, i) == Some((i + 1, i + 1 + n)));
    lemma_episode_from_first(t, 0, i);
}

/// The episode that `parse_anime_filename` reports for a file whose stem holds a bracketed
/// episode number, with or without a version, before any other episode marker: its digits.
pub proof fn law_bracketed_episode_of_file(path: Seq<char>, i: int, n: int)
    requires
        std_file_name(path) is Some,
        ({
            let t = name_stem(std_file_name(path)->0);
            &&& 0 <= i
            &&& 1 <= n <= 3
            &&& i + n + 1 < t.len()
            &&& t[i] == '['
            &&& forall|k: int| i + 1 <= k < i + 1 + n ==> is_nd(#[trigger] t[k])
            &&& t[i + 1 + n] == ']' || ((t[i + 1 + n] == 'v' || t[i + 1 + n] == 'V') && i + n + 3 < t.len() && is_nd(
                t[i + 2 + n],
            ) && t[i + 3 + n] == ']')
            &&& forall|k: int| 0 <= k < i ==> episode_match_at(t, k) is None
        }),
    ensures
        metadata_of(path).2 == Some(name_stem(std_file_name(path)->0).subrange(i + 1, i + 1 + n)),
{
    law_bracketed_episode(name_stem(std_file_name(path)->0), i, n);
}

fn episode_match_at_exec(t: &[char], i: usize) -> (r: Option<(usize, usize)>)
    requires
        i < t@.len(),
    ensures
        match r {
            Some((a, b)) => episode_match_at(t@, i as int) == Some((a as int, b as int)) && a <= b <= t@.len(),
            None => episode_match_at(t@, i as int) is None,
        },
{
    let n = t.len();
    let c = t[i];
    if c == '[' {
        let d0 = i + 1;
        proof {
            lemma_nd_run_end(t@, d0 as int);
        }
        let d1 = nd_run_end_at(t, d0);
        if d1 - d0 >= 1 && d1 - d0 <= 3 && d1 < n && (t[d1] == ']' || ((t[d1] == 'v' || t[d1] == 'V') && n - d1 > 2
            && is_nd_char(t[d1 + 1]) && t[d1 + 2] == ']')) {
            return Some((d0, d1));
        }
        return None;
    }
    if is_name_sep_char(c) {
        let r = sep_run_end_at(t, i);
        proof {
            lemma_nd_run_end(t@, r as int);
        }
        let d1 = nd_run_end_at(t, r);
        if d1 - r >= 1 && d1 - r <= 3 && d1 < n && is_name_sep_char(t[d1]) {
            return Some((r, d1));
        }
        return None;
    }
    if c == 'E' || c == 'e' {
        proof {
            lemma_nd_run_end(t@, i + 1);
        }
        let d1 = nd_run_end_at(t, i + 1);
        if d1 > i + 1 {
            return Some((i + 1, if d1 - i > 4 { i + 4 } else { d1 }));
        }
        return None;
    }
    if c == 'S' || c == 's' || c == '\u{17F}' {
        proof {
            lemma_nd_run_end(t@, i + 1);
        }
        let d1 = nd_run_end_at(t, i + 1);
        if d1 > i + 1 && d1 < n && (t[d1] == 'E' || t[d1] == 'e') {
            proof {
                lemma_nd_run_end(t@, d1 + 1);
            }
            let d2 = nd_run_end_at(t, d1 + 1);
            if d2 > d1 + 1 {
                return Some((d1 + 1, if d2 - d1 > 4 { d1 + 4 } else { d2 }));
            }
        }
        return None;
    }
    None
}

/// The episode number in `stem`.
fn find_episode(t: &[char]) -> (r: Option<Vec<char>>)
    ensures
        match r {
            Some(e) => episode_of(t@) == Some(e@),
            None => episode_of(t@) is None,
        },
{
    let n = t.len();
    let mut i: usize = 0;
    while i < n
        invariant
            n == t@.len(),
            i <= n,
            episode_from(t@, 0) == episode_from(t@, i as int),
        decreases n - i,
    {
        if let Some((a, b)) = episode_match_at_exec(t, i) {
            return Some(copy_range(t, a, b));
        }
        i += 1;
    }
    None
}

// ---------------------------------------------------------------------------
// Title cleaning: three `replace_all(.., "")` passes
// ---------------------------------------------------------------------------

/// The three patterns removed from a title, in order.
pub enum Noise {
    /// `\[[^\]]*\]|\([^\)]*\)`: bracketed and parenthesised groups.
    Groups,
    /// `(?i)(1080p|720p|480p|x264|x265|hevc|flac|aac|ma10p|dvd|bd|web-dl)` as whole words:
    /// technical tags with no letter or digit right before or after them, so that letters
    /// of the title itself are kept while `Show_1080p_x265` still loses its tags.
    Tags,
    /// `(?i)(?:\bE\d{1,3}\b|[\s\-_]+\d{1,3}\b)`: episode numbers.
    EpisodeNumbers,
}

/// Index of the first `c` at or after `i`.
pub open spec fn find_from(t: Seq<char>, i: int, c: char) -> Option<int>
    decreases t.len() - i,
{
    if i < 0 || i >= t.len() {
        None
    } else if t[i] == c {
        Some(i)
    } else {
        find_from(t, i + 1, c)
    }
}

/// `lit` occurs at `i` in `t`, ignoring ASCII case.
pub open spec fn occurs_ci(t: Seq<char>, lit: Seq<char>, i: int) -> bool {
    0 <= i && i + lit.len() <= t.len() && eq_ignore_ascii_case(t.subrange(i, i + lit.len()), lit)
}

/// The technical tags, in the order the alternation tries them.
pub open spec fn tags() -> Seq<Seq<char>> {
    seq![
        "1080p"@, "720p"@, "480p"@, "x264"@, "x265"@, "hevc"@, "flac"@, "aac"@, "ma10p"@, "dvd"@, "bd"@, "web-dl"@
    ]
}

/// A letter or digit (a `\w` character other than `_`) stands at `i`: a tag next to one is
/// part of a longer word, while `_`, `-`, spaces and other separators set a tag apart.
pub open spec fn tag_char_at(t: Seq<char>, i: int) -> bool {
    0 <= i < t.len() && is_word(t[i]) && t[i] != '_'
}

/// The first tag (in alternation order), from the `k`-th on, that occurs at `i` and is not
/// followed by a letter or digit; the result is where it ends.
pub open spec fn tag_from(t: Seq<char>, i: int, k: int) -> Option<int>
    decreases 12 - k,
{
    if k < 0 || k >= 12 {
        None
    } else if occurs_ci(t, tags()[k], i) && !tag_char_at(t, i + tags()[k].len()) {
        Some(i + tags()[k].len())
    } else {
        tag_from(t, i, k + 1)
    }
}

/// A word boundary before index `i` (between `t[i-1]` and `t[i]`), with `\w` in the
/// Unicode sense and the ends of the text counting as non-word.
pub open spec fn boundary(t: Seq<char>, i: int) -> bool {
    let before = 0 < i <= t.len() && is_word(t[i - 1]);
    let after = 0 <= i < t.len() && is_word(t[i]);
    before != after
}

/// Where a match of the pattern starting at `i` ends, if one does.
pub open spec fn noise_match_at(kind: Noise, t: Seq<char>, i: int) -> Option<int> {
    if !(0 <= i < t.len()) {
        None
    } else {
        match kind {
            Noise::Groups => if t[i] == '[' {
                match find_from(t, i + 1, ']') {
                    Some(j) => Some(j + 1),
                    None => None,
                }
            } else if t[i] == '(' {
                match find_from(t, i + 1, ')') {
                    Some(j) => Some(j + 1),
                    None => None,
                }
            } else {
                None
            },
            Noise::Tags => if !tag_char_at(t, i - 1) {
                tag_from(t, i, 0)
            } else {
                None
            },
            Noise::EpisodeNumbers => if is_e_fold(t[i]) {
                let d1 = nd_run_end(t, i + 1);
                if boundary(t, i) && 1 <= d1 - (i + 1) <= 3 && boundary(t, d1) {
                    Some(d1)
                } else {
                    None
                }
            } else if is_name_sep(t[i]) {
                let r = sep_run_end(t, i);
                let d1 = nd_run_end(t, r);
                if 1 <= d1 - r <= 3 && boundary(t, d1) {
                    Some(d1)
                } else {
                    None
                }
            } else {
                None
            },
        }
    }
}

/// `t[p..]` with every match of the pattern removed (leftmost, non-overlapping).
pub open spec fn remove_from(kind: Noise, t: Seq<char>, p: int) -> Seq<char>
    decreases t.len() - p,
{
    if p < 0 || p >= t.len() {
        Seq::empty()
    } else {
        match noise_match_at(kind, t, p) {
            Some(e) => if p < e && e <= t.len() { remove_from(kind, t, e) } else { seq![t[p]] + remove_from(kind, t, p + 1) },
            None => seq![t[p]] + remove_from(kind, t, p + 1),
        }
    }
}

/// The title text of a file stem: groups, then technical tags, then episode numbers
/// removed; white space trimmed; then `-`, `_` and spaces trimmed; the stem itself when
/// nothing is left.
pub open spec fn title_of(stem: Seq<char>) -> Seq<char> {
    let a = remove_from(Noise::Groups, stem, 0);
    let b = remove_from(Noise::Tags, a, 0);
    let c = remove_from(Noise::EpisodeNumbers, b, 0);
    let d = trim_set(trim(c));
    if d.len() == 0 { stem } else { d }
}

pub open spec fn in_trim_set(c: char) -> bool {
    c == '-' || c == '_' || c == ' '
}

/// `s` without leading and trailing `-`, `_` and spaces (`trim_matches`).
pub open spec fn trim_set(s: Seq<char>) -> Seq<char>
    decreases s.len(),
{
    if s.len() > 0 && in_trim_set(s[0]) {
        trim_set(s.drop_first())
    } else if s.len() > 0 && in_trim_set(s.last()) {
        trim_set(s.drop_last())
    } else {
        s
    }
}

fn find_from_exec(t: &[char], i: usize, c: char) -> (r: Option<usize>)
    ensures
        match r {
            Some(j) => find_from(t@, i as int, c) == Some(j as int) && i <= j < t@.len(),
            None => find_from(t@, i as int, c) is None,
        },
{
    let mut k = i;
    while k < t.len()
        invariant
            i <= k,
            find_from(t@, i as int, c) == find_from(t@, k as int, c),
        decreases t@.len() - k,
    {
        if t[k] == c {
            return Some(k);
        }
        k += 1;
    }
    None
}

fn tag_literal(k: usize) -> (r: &'static str)
    requires
        k < 12,
    ensures
        r@ == tags()[k as int],
{
    match k {
        0 => "1080p",
        1 => "720p",
        2 => "480p",
        3 => "x264",
        4 => "x265",
        5 => "hevc",
        6 => "flac",
        7 => "aac",
        8 => "ma10p",
        9 => "dvd",
        10 => "bd",
        _ => "web-dl",
    }
}

fn occurs_ci_exec(t: &[char], lit: &[char], i: usize) -> (r: bool)
    ensures
        r == occurs_ci(t@, lit@, i as int),
{
    let n = t.len();
    if i > n || lit.len() > n - i {
        return false;
    }
    let part = copy_range(t, i, i + lit.len());
    chars_eq_ignore_ascii_case(part.as_slice(), lit)
}

fn tag_at_exec(t: &[char], i: usize) -> (r: Option<usize>)
    ensures
        match r {
            Some(e) => tag_from(t@, i as int, 0) == Some(e as int) && i < e <= t@.len(),
            None => tag_from(t@, i as int, 0) is None,
        },
{
    let tl = t.len();
    let mut k: usize = 0;
    while k < 12
        invariant
            k <= 12,
            tl == t@.len(),
            tag_from(t@, i as int, 0) == tag_from(t@, i as int, k as int),
        decreases 12 - k,
    {
        let lit = chars_of(tag_literal(k));
        if occurs_ci_exec(t, lit.as_slice(), i) && !tag_char_at_exec(t, i + lit.len()) {
            proof {
                reveal_strlit("1080p");
                reveal_strlit("720p");
                reveal_strlit("480p");
                reveal_strlit("x264");
                reveal_strlit("x265");
                reveal_strlit("hevc");
                reveal_strlit("flac");
                reveal_strlit("aac");
                reveal_strlit("ma10p");
                reveal_strlit("dvd");
                reveal_strlit("bd");
                reveal_strlit("web-dl");
                assert(lit@.len() > 0);
            }
            return Some(i + lit.len());
        }
        k += 1;
    }
    None
}

fn tag_char_at_exec(t: &[char], i: usize) -> (r: bool)
    ensures
        r == tag_char_at(t@, i as int),
{
    i < t.len() && t[i] != '_' && is_word_char(t[i])
}

fn boundary_exec(t: &[char], i: usize) -> (r: bool)
    ensures
        r == boundary(t@, i as int),
{
    let n = t.len();
    let before = 0 < i && i <= n && is_word_char(t[i - 1]);
    let after = i < n && is_word_char(t[i]);
    before != after
}

fn noise_match_at_exec(kind: &Noise, t: &[char], i: usize) -> (r: Option<usize>)
    requires
        i < t@.len(),
    ensures
        match r {
            Some(e) => noise_match_at(*kind, t@, i as int) == Some(e as int) && i < e <= t@.len(),
            None => noise_match_at(*kind, t@, i as int) is None,
        },
{
    let n = t.len();
    let c = t[i];
    match kind {
        Noise::Groups => {
            if c == '[' {
                match find_from_exec(t, i + 1, ']') {
                    Some(j) => Some(j + 1),
                    None => None,
                }
            } else if c == '(' {
                match find_from_exec(t, i + 1, ')') {
                    Some(j) => Some(j + 1),
                    None => None,
                }
            } else {
                None
            }
        },
        Noise::Tags => if i == 0 || !tag_char_at_exec(t, i - 1) {
            tag_at_exec(t, i)
        } else {
            None
        },
        Noise::EpisodeNumbers => {
            if c == 'E' || c == 'e' {
                proof {
                    lemma_nd_run_end(t@, i + 1);
                }
                let d1 = nd_run_end_at(t, i + 1);
                if boundary_exec(t, i) && d1 - (i + 1) >= 1 && d1 - (i + 1) <= 3 && boundary_exec(t, d1) {
                    Some(d1)
                } else {
                    None
                }
            } else if is_name_sep_char(c) {
                let r = sep_run_end_at(t, i);
                proof {
                    lemma_nd_run_end(t@, r as int);
                }
                let d1 = nd_run_end_at(t, r);
                if d1 - r >= 1 && d1 - r <= 3 && boundary_exec(t, d1) {
                    Some(d1)
                } else {
                    None
                }
            } else {
                None
            }
        },
    }
}

/// `t` with every match of the pattern removed.
fn remove_noise(kind: &Noise, t: &[char]) -> (r: Vec<char>)
    ensures
        r@ == remove_from(*kind, t@, 0),
{
    let n = t.len();
    let mut out: Vec<char> = Vec::new();
    let mut p: usize = 0;
    while p < n
        invariant
            n == t@.len(),
            p <= n,
            remove_from(*kind, t@, 0) == out@ + remove_from(*kind, t@, p as int),
        decreases n - p,
    {
        match noise_match_at_exec(kind, t, p) {
            Some(e) => {
                p = e;
            },
            None => {
                let ghost before = out@;
                out.push(t[p]);
                assert(out@ =~= before + seq![t@[p as int]]);
                p += 1;
            },
        }
    }
    assert(remove_from(*kind, t@, p as int) =~= Seq::<char>::empty());
    out
}

proof fn lemma_trim_set_front(s: Seq<char>, a: int)
    requires
        0 <= a <= s.len(),
        forall|k: int| 0 <= k < a ==> in_trim_set(#[trigger] s[k]),
    ensures
        trim_set(s) == trim_set(s.skip(a)),
    decreases a,
{
    if a > 0 {
        assert(s.skip(1) == s.drop_first());
        lemma_trim_set_front(s.drop_first(), a - 1);
        assert(s.drop_first().skip(a - 1) == s.skip(a));
    } else {
        assert(s.skip(0) == s);
    }
}

proof fn lemma_trim_set_back(s: Seq<char>, b: int)
    requires
        0 <= b <= s.len(),
        s.len() == 0 || !in_trim_set(s[0]),
        b > 0 || s.len() == 0,
        forall|k: int| b <= k < s.len() ==> in_trim_set(#[trigger] s[k]),
    ensures
        trim_set(s) == trim_set(s.take(b)),
    decreases s.len() - b,
{
    if b < s.len() {
        assert(s.drop_last().take(b) == s.take(b));
        if s.drop_last().len() > 0 {
            assert(s.drop_last()[0] == s[0]);
        }
        lemma_trim_set_back(s.drop_last(), b);
    } else {
        assert(s.take(b) == s);
    }
}

/// `trim_set(v)` as a vector.
fn trim_set_exec(v: &[char]) -> (r: Vec<char>)
    ensures
        r@ == trim_set(v@),
{
    let n = v.len();
    let mut a: usize = 0;
    while a < n && (v[a] == '-' || v[a] == '_' || v[a] == ' ')
        invariant
            n == v@.len(),
            a <= n,
            forall|k: int| 0 <= k < a ==> in_trim_set(#[trigger] v@[k]),
        decreases n - a,
    {
        a += 1;
    }
    proof {
        lemma_trim_set_front(v@, a as int);
    }
    let rest = copy_range(v, a, n);
    assert(rest@ == v@.skip(a as int));
    let m = rest.len();
    if m == 0 {
        return rest;
    }
    let mut b: usize = m;
    while b > 1 && (rest[b - 1] == '-' || rest[b - 1] == '_' || rest[b - 1] == ' ')
        invariant
            m == rest@.len(),
            1 <= b <= m,
            forall|k: int| b <= k < m ==> in_trim_set(#[trigger] rest@[k]),
        decreases b,
    {
        b -= 1;
    }
    proof {
        lemma_trim_set_back(rest@, b as int);
        let tk = rest@.take(b as int);
        assert(tk[0] == rest@[0]);
        assert(tk.last() == rest@[b - 1]);
    }
    copy_range(rest.as_slice(), 0, b)
}

/// The title read out of a file stem.
fn title_exec(stem: &[char]) -> (r: Vec<char>)
    ensures
        r@ == title_of(stem@),
{
    let a = remove_noise(&Noise::Groups, stem);
    let b = remove_noise(&Noise::Tags, a.as_slice());
    let c = remove_noise(&Noise::EpisodeNumbers, b.as_slice());
    let d = trim_chars(c.as_slice());
    let e = trim_set_exec(d.as_slice());
    if e.len() == 0 {
        copy_range(stem, 0, stem.len())
    } else {
        e
    }
}

// ---------------------------------------------------------------------------
// What the title keeps
// ---------------------------------------------------------------------------

/// `b` closes the group that `a` opens: `[` and `]`, or `(` and `)`.
pub open spec fn closes(a: char, b: char) -> bool {
    (a == '[' && b == ']') || (a == '(' && b == ')')
}

/// No opening bracket in `s` at or after `p` has its closing bracket after it.
pub open spec fn no_group_from(s: Seq<char>, p: int) -> bool {
    forall|i: int, j: int| p <= i < j < s.len() ==> !closes(#[trigger] s[i], #[trigger] s[j])
}

proof fn lemma_find_from(t: Seq<char>, i: int, c: char)
    requires
        0 <= i,
    ensures
        match find_from(t, i, c) {
            Some(j) => i <= j < t.len() && t[j] == c,
            None => forall|a: int| i <= a < t.len() ==> t[a] != c,
        },
    decreases t.len() - i,
{
    if 0 <= i < t.len() && t[i] != c {
        lemma_find_from(t, i + 1, c);
    }
}

/// `c` occurs in `t` at or after `p`.
pub open spec fn occurs_from(t: Seq<char>, p: int, c: char) -> bool {
    exists|a: int| p <= a < t.len() && t[a] == c
}

/// Every character that a removal pass keeps comes from `t` at or after `p`.
proof fn lemma_remove_from_chars(kind: Noise, t: Seq<char>, p: int)
    requires
        0 <= p,
    ensures
        forall|k: int| 0 <= k < remove_from(kind, t, p).len() ==> occurs_from(t, p, #[trigger] remove_from(kind, t, p)[k]),
    decreases t.len() - p,
{
    if 0 <= p < t.len() {
        let out = remove_from(kind, t, p);
        let kept = match noise_match_at(kind, t, p) {
            Some(e) => !(p < e && e <= t.len()),
            None => true,
        };
        if kept {
            lemma_remove_from_chars(kind, t, p + 1);
            let rest = remove_from(kind, t, p + 1);
            assert(out == seq![t[p]] + rest);
            assert forall|k: int| 0 <= k < out.len() implies occurs_from(t, p, #[trigger] out[k]) by {
                if k == 0 {
                    assert(t[p] == out[0]);
                } else {
                    assert(out[k] == rest[k - 1]);
                    assert(occurs_from(t, p + 1, rest[k - 1]));
                    let a = choose|a: int| p + 1 <= a < t.len() && t[a] == rest[k - 1];
                    assert(p <= a < t.len() && t[a] == out[k]);
                }
            }
        } else {
            let e = noise_match_at(kind, t, p)->0;
            lemma_remove_from_chars(kind, t, e);
            assert(out == remove_from(kind, t, e));
            assert forall|k: int| 0 <= k < out.len() implies occurs_from(t, p, #[trigger] out[k]) by {
                assert(occurs_from(t, e, out[k]));
                let a = choose|a: int| e <= a < t.len() && t[a] == out[k];
                assert(p <= a < t.len() && t[a] == out[k]);
            }
        }
    }
}

/// A removal pass keeps the property of having no bracket group.
proof fn lemma_remove_from_no_group(kind: Noise, t: Seq<char>, p: int)
    requires
        0 <= p,
        no_group_from(t, p),
    ensures
        no_group_from(remove_from(kind, t, p), 0),
    decreases t.len() - p,
{
    if 0 <= p < t.len() {
        let out = remove_from(kind, t, p);
        let kept = match noise_match_at(kind, t, p) {
            Some(e) => !(p < e && e <= t.len()),
            None => true,
        };
        if kept {
            lemma_remove_from_no_group(kind, t, p + 1);
            lemma_remove_from_chars(kind, t, p + 1);
            let rest = remove_from(kind, t, p + 1);
            assert(out == seq![t[p]] + rest);
            assert forall|i: int, j: int| 0 <= i < j < out.len() implies !closes(#[trigger] out[i], #[trigger] out[j]) by {
                assert(out[j] == rest[j - 1]);
                if i == 0 {
                    assert(occurs_from(t, p + 1, rest[j - 1]));
                    let a = choose|a: int| p + 1 <= a < t.len() && t[a] == rest[j - 1];
                    assert(!closes(t[p], t[a]));
                } else {
                    assert(out[i] == rest[i - 1]);
                }
            }
        } else {
            let e = noise_match_at(kind, t, p)->0;
            lemma_remove_from_no_group(kind, t, e);
        }
    }
}

/// The pass that removes `[...]` and `(...)` groups leaves no group behind.
proof fn lemma_groups_removed(t: Seq<char>, p: int)
    requires
        0 <= p,
    ensures
        no_group_from(remove_from(Noise::Groups, t, p), 0),
    decreases t.len() - p,
{
    if 0 <= p < t.len() {
        let out = remove_from(Noise::Groups, t, p);
        lemma_find_from(t, p + 1, ']');
        lemma_find_from(t, p + 1, ')');
        match noise_match_at(Noise::Groups, t, p) {
            Some(e) => {
                lemma_groups_removed(t, e);
            },
            None => {
                lemma_groups_removed(t, p + 1);
                lemma_remove_from_chars(Noise::Groups, t, p + 1);
                let rest = remove_from(Noise::Groups, t, p + 1);
                assert(out == seq![t[p]] + rest);
                assert forall|i: int, j: int| 0 <= i < j < out.len() implies !closes(#[trigger] out[i], #[trigger] out[j]) by {
                    assert(out[j] == rest[j - 1]);
                    if i == 0 {
                        assert(occurs_from(t, p + 1, rest[j - 1]));
                        let a = choose|a: int| p + 1 <= a < t.len() && t[a] == rest[j - 1];
                        assert(t[a] == out[j]);
                    } else {
                        assert(out[i] == rest[i - 1]);
                    }
                }
            },
        }
    }
}

proof fn lemma_no_group_drop_first(s: Seq<char>)
    requires
        s.len() > 0,
        no_group_from(s, 0),
    ensures
        no_group_from(s.drop_first(), 0),
{
    let d = s.drop_first();
    assert forall|i: int, j: int| 0 <= i < j < d.len() implies !closes(#[trigger] d[i], #[trigger] d[j]) by {
        assert(d[i] == s[i + 1] && d[j] == s[j + 1]);
    }
}

proof fn lemma_no_group_drop_last(s: Seq<char>)
    requires
        s.len() > 0,
        no_group_from(s, 0),
    ensures
        no_group_from(s.drop_last(), 0),
{
    let d = s.drop_last();
    assert forall|i: int, j: int| 0 <= i < j < d.len() implies !closes(#[trigger] d[i], #[trigger] d[j]) by {
        assert(d[i] == s[i] && d[j] == s[j]);
    }
}

proof fn lemma_trim_keeps_no_group(s: Seq<char>)
    requires
        no_group_from(s, 0),
    ensures
        no_group_from(trim_start(s), 0),
        no_group_from(trim_end(s), 0),
        no_group_from(trim_set(s), 0),
    decreases s.len(),
{
    if s.len() > 0 {
        lemma_no_group_drop_first(s);
        lemma_no_group_drop_last(s);
        lemma_trim_keeps_no_group(s.drop_first());
        lemma_trim_keeps_no_group(s.drop_last());
    }
}

/// The title keeps no bracketed group (`[...]` or `(...)`), such as a release group or a
/// technical tag, unless nothing else was left and it fell back to the whole stem.
pub proof fn law_title_has_no_bracket_group(stem: Seq<char>)
    ensures
        title_of(stem) == stem || no_group_from(title_of(stem), 0),
{
    let a = remove_from(Noise::Groups, stem, 0);
    let b = remove_from(Noise::Tags, a, 0);
    let c = remove_from(Noise::EpisodeNumbers, b, 0);
    lemma_groups_removed(stem, 0);
    lemma_remove_from_no_group(Noise::Tags, a, 0);
    lemma_remove_from_no_group(Noise::EpisodeNumbers, b, 0);
    lemma_trim_keeps_no_group(c);
    lemma_trim_keeps_no_group(trim_start(c));
    lemma_trim_keeps_no_group(trim(c));
}

/// The file name, title, episode and extension read from a path: the title and episode
/// come from the file stem, the extension defaults to `mkv`.
pub open spec fn metadata_of(path: Seq<char>) -> (Seq<char>, Seq<char>, Option<Seq<char>>, Seq<char>) {
    let fname = match std_file_name(path) {
        Some(f) => f,
        None => Seq::empty(),
    };
    let stem = match std_file_name(path) {
        Some(f) => name_stem(f),
        None => Seq::empty(),
    };
    let ext = match std_file_name(path) {
        Some(f) => match name_extension(f) {
            Some(e) => e,
            None => "mkv"@,
        },
        None => "mkv"@,
    };
    (fname, title_of(stem), episode_of(stem), ext)
}

/// What the file name of `file_path` says: title, episode number and extension.
pub fn parse_anime_filename(file_path: &str) -> (r: AnimeMetadata)
    ensures
        ({
            let m = metadata_of(file_path@);
            &&& r.raw_filename@ == m.0
            &&& r.title@ == m.1
            &&& match r.episode {
                Some(e) => m.2 == Some(e@),
                None => m.2 is None,
            }
            &&& r.extension@ == m.3
        }),
{
    let filename: Vec<char> = match path_file_name(file_path) {
        Some(f) => chars_of(f.as_str()),
        None => Vec::new(),
    };
    let (ext, stem) = path_extension_and_stem(file_path);
    let stem: Vec<char> = match stem {
        Some(s) => s,
        None => copy_range(filename.as_slice(), 0, filename.len()),
    };
    let extension: Vec<char> = match ext {
        Some(e) => e,
        None => chars_of("mkv"),
    };
    let episode = match find_episode(stem.as_slice()) {
        Some(e) => Some(string_of(e.as_slice())),
        None => None,
    };
    let title = title_exec(stem.as_slice());
    AnimeMetadata {
        raw_filename: string_of(filename.as_slice()),
        title: string_of(title.as_slice()),
        episode,
        extension: string_of(extension.as_slice()),
    }
}

} // verus!
