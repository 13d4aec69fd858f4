//! Video discovery: which files count as videos, how they are shown, how the two
//! scanned trees are merged without duplicates and put in natural order.

use std::cmp::Ordering;
use crate::natural::{law_natural_order_antisymmetric, natural_cmp, natural_order, natural_order_bytes, to_ordering, Order};
use crate::paths::{path_extension_and_stem, path_extension_of, path_file_name, path_parent, path_strip_prefix, std_file_name, std_parent, std_strip_prefix};
use crate::text::{chars_eq_ignore_ascii_case, chars_of, eq_ignore_ascii_case, push_all, str_equal, string_of};
use vstd::prelude::*;
use vstd::string::StringSliceAdditionalSpecFns;
use vstd::utf8::encode_utf8;

verus! {

/// How deep below each base directory the scan descends.
pub const SCAN_MAX_DEPTH: usize = 8;

/// `ext` is one of the video extensions mkv, mp4, avi, webm, m4v, mov, ts, flv, wmv,
/// compared without regard to ASCII case.
pub open spec fn is_video_ext(ext: Seq<char>) -> bool {
    ||| eq_ignore_ascii_case("mkv"@, ext)
    ||| eq_ignore_ascii_case("mp4"@, ext)
    ||| eq_ignore_ascii_case("avi"@, ext)
    ||| eq_ignore_ascii_case("webm"@, ext)
    ||| eq_ignore_ascii_case("m4v"@, ext)
    ||| eq_ignore_ascii_case("mov"@, ext)
    ||| eq_ignore_ascii_case("ts"@, ext)
    ||| eq_ignore_ascii_case("flv"@, ext)
    ||| eq_ignore_ascii_case("wmv"@, ext)
}

fn ext_is(ext: &[char], lit: &str) -> (r: bool)
    ensures
        r == eq_ignore_ascii_case(lit@, ext@),
{
    let l = chars_of(lit);
    chars_eq_ignore_ascii_case(l.as_slice(), ext)
}

/// Whether `ext` names a video format.
pub fn is_video_extension(ext: &str) -> (r: bool)
    ensures
        r == is_video_ext(ext@),
{
    let e = chars_of(ext);
    let s = e.as_slice();
    ext_is(s, "mkv") || ext_is(s, "mp4") || ext_is(s, "avi") || ext_is(s, "webm") || ext_is(s, "m4v")
        || ext_is(s, "mov") || ext_is(s, "ts") || ext_is(s, "flv") || ext_is(s, "wmv")
}

/// Whether the path, which is a regular file exactly when `is_regular_file` holds, is a
/// video: a regular file whose extension is a video extension.
pub fn is_video_file(path: &str, is_regular_file: bool) -> (r: bool)
    ensures
        r == (is_regular_file && match path_extension_of(path@) {
            Some(e) => is_video_ext(e),
            None => false,
        }),
{
    if !is_regular_file {
        return false;
    }
    let (ext, _) = path_extension_and_stem(path);
    match ext {
        Some(e) => {
            let s = string_of(e.as_slice());
            is_video_extension(s.as_str())
        },
        None => false,
    }
}

/// Whether the directory walk keeps an entry: the root itself always, deeper entries
/// unless their name (when it is valid text) starts with a dot.
pub fn keep_walk_entry(depth: usize, name: Option<&str>) -> (r: bool)
    ensures
        r == (depth == 0 || match name {
            Some(n) => !(n@.len() > 0 && n@[0] == '.'),
            None => true,
        }),
{
    if depth == 0 {
        return true;
    }
    match name {
        Some(n) => {
            let cs = chars_of(n);
            !(cs.len() > 0 && cs[0] == '.')
        },
        None => true,
    }
}

/// A relative path that exists and is not empty.
pub open spec fn usable_rel(r: Option<Seq<char>>) -> bool {
    r matches Some(x) && x.len() > 0
}

/// The file name of `p`, or nothing.
pub open spec fn file_name_or_empty(p: Seq<char>) -> Seq<char> {
    match std_file_name(p) {
        Some(f) => f,
        None => Seq::empty(),
    }
}

/// How a video path is shown: relative to the working directory when that is not the
/// home directory and holds the file, else relative to the videos directory when that
/// holds it, else as `parent-name/file-name` (or the bare file name).
pub open spec fn video_display(path: Seq<char>, videos: Seq<char>, cwd: Seq<char>, cwd_is_home: bool) -> Seq<char> {
    if !cwd_is_home && usable_rel(std_strip_prefix(path, cwd)) {
        std_strip_prefix(path, cwd)->0
    } else if usable_rel(std_strip_prefix(path, videos)) {
        std_strip_prefix(path, videos)->0
    } else {
        let file = file_name_or_empty(path);
        let parent = match std_parent(path) {
            Some(p) => file_name_or_empty(p),
            None => Seq::empty(),
        };
        if parent.len() == 0 {
            file
        } else {
            parent + seq!['/'] + file
        }
    }
}

fn file_name_text(p: &str) -> (r: Vec<char>)
    ensures
        r@ == file_name_or_empty(p@),
{
    match path_file_name(p) {
        Some(f) => chars_of(f.as_str()),
        None => Vec::new(),
    }
}

/// The text shown for a video in the selection list.
pub fn format_video_display(path: &str, videos_dir: &str, cwd: &str, cwd_is_home: bool) -> (r: String)
    ensures
        r@ == video_display(path@, videos_dir@, cwd@, cwd_is_home),
        (cwd_is_home || !usable_rel(std_strip_prefix(path@, cwd@))) && usable_rel(std_strip_prefix(path@, videos_dir@))
            ==> r@ == std_strip_prefix(path@, videos_dir@)->0,
        !cwd_is_home && usable_rel(std_strip_prefix(path@, cwd@)) ==> r@ == std_strip_prefix(path@, cwd@)->0,
{
    if !cwd_is_home {
        if let Some(rel) = path_strip_prefix(path, cwd) {
            if !rel.as_str().is_empty() {
                return rel;
            }
        }
    }
    if let Some(rel) = path_strip_prefix(path, videos_dir) {
        if !rel.as_str().is_empty() {
            return rel;
        }
    }
    let file = file_name_text(path);
    let parent = match path_parent(path) {
        Some(p) => file_name_text(p.as_str()),
        None => Vec::new(),
    };
    if parent.len() == 0 {
        string_of(file.as_slice())
    } else {
        let mut out = parent;
        out.push('/');
        push_all(&mut out, file.as_slice());
        string_of(out.as_slice())
    }
}

/// A video under the videos directory that is not shown relative to the working directory
/// is shown by its path relative to the videos directory, whether or not the working
/// directory is the home directory; one under a working directory other than home is shown
/// relative to the working directory.
pub proof fn law_video_display_relative(path: Seq<char>, videos: Seq<char>, cwd: Seq<char>, cwd_is_home: bool)
    ensures
        (cwd_is_home || !usable_rel(std_strip_prefix(path, cwd))) && usable_rel(std_strip_prefix(path, videos))
            ==> video_display(path, videos, cwd, cwd_is_home) == std_strip_prefix(path, videos)->0,
        !cwd_is_home && usable_rel(std_strip_prefix(path, cwd)) ==> video_display(path, videos, cwd, cwd_is_home)
            == std_strip_prefix(path, cwd)->0,
        usable_rel(std_strip_prefix(path, videos)) ==> video_display(path, videos, cwd, true) == video_display(
            path,
            videos,
            cwd,
            false,
        ) || usable_rel(std_strip_prefix(path, cwd)),
{
}

/// A video found by the scan: the path as text, and the bytes of its canonical form
/// (or of the path itself when it has none), by which duplicates are recognised.
pub struct VideoCandidate {
    pub path: String,
    pub key: Vec<u8>,
}

/// Some earlier candidate in `s` has the key `key`.
pub open spec fn key_seen(s: Seq<VideoCandidate>, key: Seq<u8>) -> bool {
    exists|j: int| 0 <= j < s.len() && (#[trigger] s[j]).key@ == key
}

/// The candidates of `s` whose key did not occur before them, in order.
pub open spec fn first_of_each_key(s: Seq<VideoCandidate>) -> Seq<VideoCandidate>
    decreases s.len(),
{
    if s.len() == 0 {
        s
    } else {
        let p = first_of_each_key(s.drop_last());
        if key_seen(s.drop_last(), s.last().key@) {
            p
        } else {
            p.push(s.last())
        }
    }
}

/// Bytes by which a candidate is ordered: its path as UTF-8.
pub open spec fn path_bytes(c: VideoCandidate) -> Seq<u8> {
    encode_utf8(c.path@)
}

/// `a` comes after `b` in natural order of their paths.
pub open spec fn path_after(a: VideoCandidate, b: VideoCandidate) -> bool {
    natural_order(path_bytes(a), path_bytes(b)) == Order::Greater
}

/// `x` placed into `s` just after the last element that does not come after it.
pub open spec fn insert_by_path(s: Seq<VideoCandidate>, x: VideoCandidate) -> Seq<VideoCandidate>
    decreases s.len(),
{
    if s.len() == 0 {
        seq![x]
    } else if path_after(s.last(), x) {
        insert_by_path(s.drop_last(), x).push(s.last())
    } else {
        s.push(x)
    }
}

/// Stable insertion sort of `s` by natural order of the paths.
pub open spec fn sort_by_path(s: Seq<VideoCandidate>) -> Seq<VideoCandidate>
    decreases s.len(),
{
    if s.len() == 0 {
        s
    } else {
        insert_by_path(sort_by_path(s.drop_last()), s.last())
    }
}

/// What discovery returns for the candidates found under the videos directory and then
/// under the working directory.
pub open spec fn discovered(from_videos: Seq<VideoCandidate>, from_cwd: Seq<VideoCandidate>) -> Seq<VideoCandidate> {
    sort_by_path(first_of_each_key(from_videos + from_cwd))
}

proof fn lemma_insert_at(s: Seq<VideoCandidate>, x: VideoCandidate, p: int)
    requires
        0 <= p <= s.len(),
        forall|t: int| p <= t < s.len() ==> path_after(#[trigger] s[t], x),
        p == 0 || !path_after(s[p - 1], x),
    ensures
        insert_by_path(s, x) == s.insert(p, x),
    decreases s.len(),
{
    if s.len() == 0 {
        assert(s.insert(p, x) =~= seq![x]);
    } else if p == s.len() {
        assert(s.insert(p, x) =~= s.push(x));
    } else {
        assert(path_after(s[s.len() - 1], x));
        let d = s.drop_last();
        assert forall|t: int| p <= t < d.len() implies path_after(#[trigger] d[t], x) by {
            assert(d[t] == s[t]);
        }
        if p > 0 {
            assert(d[p - 1] == s[p - 1]);
        }
        lemma_insert_at(d, x, p);
        assert(d.insert(p, x).push(s.last()) =~= s.insert(p, x));
    }
}

fn bytes_equal(a: &[u8], b: &[u8]) -> (r: bool)
    ensures
        r == (a@ == b@),
{
    if a.len() != b.len() {
        return false;
    }
    let mut k: usize = 0;
    while k < a.len()
        invariant
            a@.len() == b@.len(),
            k <= a@.len(),
            forall|t: int| 0 <= t < k ==> a@[t] == b@[t],
        decreases a@.len() - k,
    {
        if a[k] != b[k] {
            return false;
        }
        k += 1;
    }
    assert(a@ =~= b@);
    true
}

proof fn lemma_key_seen_push(q: Seq<VideoCandidate>, y: VideoCandidate, key: Seq<u8>)
    ensures
        key_seen(q.push(y), key) == (key_seen(q, key) || y.key@ == key),
{
    let r = q.push(y);
    if key_seen(r, key) {
        let j = choose|j: int| 0 <= j < r.len() && (#[trigger] r[j]).key@ == key;
        if j < q.len() {
            assert(r[j] == q[j]);
        }
    }
    if key_seen(q, key) {
        let j = choose|j: int| 0 <= j < q.len() && (#[trigger] q[j]).key@ == key;
        assert(r[j] == q[j]);
    }
    if y.key@ == key {
        assert(r[q.len() as int] == y);
    }
}

proof fn lemma_key_seen_first(s: Seq<VideoCandidate>, key: Seq<u8>)
    ensures
        key_seen(first_of_each_key(s), key) == key_seen(s, key),
    decreases s.len(),
{
    if s.len() > 0 {
        let d = s.drop_last();
        let l = s.last();
        assert(d.push(l) == s);
        lemma_key_seen_first(d, key);
        lemma_key_seen_push(d, l, key);
        lemma_key_seen_push(first_of_each_key(d), l, key);
    }
}

/// Removes the first element of `v`.
fn take_first(v: &mut Vec<VideoCandidate>) -> (r: VideoCandidate)
    requires
        old(v)@.len() > 0,
    ensures
        r == old(v)@[0],
        final(v)@ == old(v)@.drop_first(),
{
    let r = v.remove(0);
    assert(old(v)@.remove(0) =~= old(v)@.drop_first());
    r
}

/// The candidates whose key has not occurred before them, in order.
pub fn keep_first_per_key(items: Vec<VideoCandidate>) -> (r: Vec<VideoCandidate>)
    ensures
        r@ == first_of_each_key(items@),
{
    let ghost orig = items@;
    let n = items.len();
    let mut rest = items;
    let mut out: Vec<VideoCandidate> = Vec::new();
    let mut k: usize = 0;
    while rest.len() > 0
        invariant
            n == orig.len(),
            k <= orig.len(),
            rest@ == orig.skip(k as int),
            out@ == first_of_each_key(orig.take(k as int)),
        decreases rest@.len(),
    {
        let x = take_first(&mut rest);
        let ghost pre = orig.take(k as int);
        assert(x == orig[k as int]);
        let mut seen = false;
        let mut j: usize = 0;
        while j < out.len()
            invariant
                j <= out@.len(),
                !seen ==> forall|t: int| 0 <= t < j ==> (#[trigger] out@[t]).key@ != x.key@,
                seen ==> key_seen(out@, x.key@),
            decreases out@.len() - j,
        {
            if bytes_equal(out[j].key.as_slice(), x.key.as_slice()) {
                seen = true;
            }
            j += 1;
        }
        proof {
            lemma_key_seen_first(pre, x.key@);
            assert(orig.take(k + 1).drop_last() == pre);
            assert(orig.take(k + 1).last() == x);
            if !seen {
                assert(!key_seen(out@, x.key@));
            }
        }
        if !seen {
            out.push(x);
        }
        k += 1;
        assert(rest@ == orig.skip(k as int));
    }
    assert(orig.take(k as int) == orig);
    out
}

/// `x` inserted into `sorted` after the last element that does not come after it.
fn insert_candidate(sorted: &mut Vec<VideoCandidate>, x: VideoCandidate)
    ensures
        final(sorted)@ == insert_by_path(old(sorted)@, x),
{
    let mut p = sorted.len();
    while p > 0 && natural_order_bytes(sorted[p - 1].path.as_str().as_bytes(), x.path.as_str().as_bytes())
        == Order::Greater
        invariant
            p <= sorted@.len(),
            forall|t: int| p <= t < sorted@.len() ==> path_after(#[trigger] sorted@[t], x),
        decreases p,
    {
        p -= 1;
    }
    proof {
        lemma_insert_at(sorted@, x, p as int);
    }
    sorted.insert(p, x);
}

/// Stable sort of the candidates by natural order of their paths.
pub fn sort_candidates(items: Vec<VideoCandidate>) -> (r: Vec<VideoCandidate>)
    ensures
        r@ == sort_by_path(items@),
{
    let ghost orig = items@;
    let n = items.len();
    let mut rest = items;
    let mut out: Vec<VideoCandidate> = Vec::new();
    let mut k: usize = 0;
    while rest.len() > 0
        invariant
            n == orig.len(),
            k <= orig.len(),
            rest@ == orig.skip(k as int),
            out@ == sort_by_path(orig.take(k as int)),
        decreases rest@.len(),
    {
        let x = take_first(&mut rest);
        assert(x == orig[k as int]);
        assert(orig.take(k + 1).drop_last() == orig.take(k as int));
        insert_candidate(&mut out, x);
        k += 1;
        assert(rest@ == orig.skip(k as int));
    }
    assert(orig.take(k as int) == orig);
    out
}

/// The videos to offer: those found under the videos directory followed by those found
/// under the working directory, keeping the first candidate of each canonical key, in
/// natural order of their paths (stable for equal paths).
pub fn discover_video_files(from_videos: Vec<VideoCandidate>, from_cwd: Vec<VideoCandidate>) -> (r: Vec<VideoCandidate>)
    ensures
        r@ == discovered(from_videos@, from_cwd@),
{
    let mut all = from_videos;
    let mut more = from_cwd;
    let ghost a = all@;
    let ghost b = more@;
    all.append(&mut more);
    assert(all@ == a + b);
    let unique = keep_first_per_key(all);
    sort_candidates(unique)
}

pub open spec fn opt_bytes(o: Option<Vec<u8>>) -> Option<Seq<u8>> {
    match o {
        Some(v) => Some(v@),
        None => None,
    }
}

/// Two canonical locations are known and equal.
pub open spec fn same_known_location(a: Option<Seq<u8>>, b: Option<Seq<u8>>) -> bool {
    a is Some && a == b
}

/// Whether both canonical locations are known and equal.
pub fn same_location(a: &Option<Vec<u8>>, b: &Option<Vec<u8>>) -> (r: bool)
    ensures
        r == same_known_location(opt_bytes(*a), opt_bytes(*b)),
{
    match (a, b) {
        (Some(x), Some(y)) => bytes_equal(x.as_slice(), y.as_slice()),
        _ => false,
    }
}

/// Whether the working directory is scanned as well: it must exist and be neither the
/// home directory nor the videos directory (compared by canonical location).
pub fn cwd_scan_needed(
    home: &Option<Vec<u8>>,
    videos: &Option<Vec<u8>>,
    cwd: &Option<Vec<u8>>,
    cwd_exists: bool,
) -> (r: bool)
    ensures
        r == (!same_known_location(opt_bytes(*home), opt_bytes(*cwd)) && !same_known_location(
            opt_bytes(*videos),
            opt_bytes(*cwd),
        ) && cwd_exists),
{
    let is_home = same_location(home, cwd);
    let is_videos = same_location(videos, cwd);
    !is_home && !is_videos && cwd_exists
}

/// Index of the first option equal to `choice`, or 0 when none is (the fallback of the
/// selection prompts).
pub fn choice_index(options: &Vec<String>, choice: &str) -> (r: usize)
    ensures
        (exists|i: int| 0 <= i < options@.len() && options@[i]@ == choice@) ==> {
            &&& r < options@.len()
            &&& options@[r as int]@ == choice@
            &&& forall|t: int| 0 <= t < r ==> options@[t]@ != choice@
        },
        !(exists|i: int| 0 <= i < options@.len() && options@[i]@ == choice@) ==> r == 0,
{
    let mut i: usize = 0;
    while i < options.len()
        invariant
            i <= options@.len(),
            forall|t: int| 0 <= t < i ==> options@[t]@ != choice@,
        decreases options@.len() - i,
    {
        if str_equal(options[i].as_str(), choice) {
            return i;
        }
        i += 1;
    }
    0
}

/// No two candidates share a key.
pub open spec fn keys_distinct(s: Seq<VideoCandidate>) -> bool {
    forall|i: int, j: int| 0 <= i < j < s.len() ==> (#[trigger] s[i]).key@ != (#[trigger] s[j]).key@
}

/// Each candidate's path does not come after the next one's in natural order.
pub open spec fn paths_in_order(s: Seq<VideoCandidate>) -> bool {
    forall|i: int, j: int| #![trigger s[i], s[j]] 0 <= i && j == i + 1 && j < s.len() ==> !path_after(s[i], s[j])
}

proof fn lemma_push_distinct(q: Seq<VideoCandidate>, y: VideoCandidate)
    requires
        keys_distinct(q),
        !key_seen(q, y.key@),
    ensures
        keys_distinct(q.push(y)),
{
    let r = q.push(y);
    assert forall|i: int, j: int| 0 <= i < j < r.len() implies (#[trigger] r[i]).key@ != (#[trigger] r[j]).key@ by {
        assert(r[i] == q[i]);
        if j < q.len() {
            assert(r[j] == q[j]);
        } else {
            assert(r[j] == y);
            if q[i].key@ == y.key@ {
                assert(key_seen(q, y.key@));
            }
        }
    }
}

proof fn lemma_push_in_order(q: Seq<VideoCandidate>, y: VideoCandidate)
    requires
        paths_in_order(q),
        q.len() == 0 || !path_after(q.last(), y),
    ensures
        paths_in_order(q.push(y)),
{
    let r = q.push(y);
    assert forall|i: int, j: int| #![trigger r[i], r[j]] 0 <= i && j == i + 1 && j < r.len() implies !path_after(r[i], r[j]) by {
        assert(r[i] == q[i]);
        if j < q.len() {
            assert(r[j] == q[j]);
        } else {
            assert(r[j] == y);
        }
    }
}

proof fn lemma_insert_props(s: Seq<VideoCandidate>, x: VideoCandidate)
    ensures
        insert_by_path(s, x).len() == s.len() + 1,
        insert_by_path(s, x).to_multiset() == s.to_multiset().insert(x),
        forall|k: Seq<u8>| key_seen(insert_by_path(s, x), k) == (key_seen(s, k) || x.key@ == k),
        keys_distinct(s) && !key_seen(s, x.key@) ==> keys_distinct(insert_by_path(s, x)),
        paths_in_order(s) ==> paths_in_order(insert_by_path(s, x)),
        insert_by_path(s, x).last() == x || (s.len() > 0 && insert_by_path(s, x).last() == s.last()),
    decreases s.len(),
{
    broadcast use vstd::seq_lib::group_to_multiset_ensures;
    if s.len() == 0 {
        assert(s.push(x) =~= seq![x]);
        assert forall|k: Seq<u8>| key_seen(insert_by_path(s, x), k) == (key_seen(s, k) || x.key@ == k) by {
            lemma_key_seen_push(s, x, k);
        }
        lemma_push_distinct_empty(x);
    } else if path_after(s.last(), x) {
        let d = s.drop_last();
        let l = s.last();
        assert(d.push(l) == s);
        lemma_insert_props(d, x);
        let m = insert_by_path(d, x);
        assert(insert_by_path(s, x) == m.push(l));
        assert forall|k: Seq<u8>| key_seen(insert_by_path(s, x), k) == (key_seen(s, k) || x.key@ == k) by {
            assert(key_seen(m, k) == (key_seen(d, k) || x.key@ == k));
            lemma_key_seen_push(m, l, k);
            lemma_key_seen_push(d, l, k);
        }
        if keys_distinct(s) && !key_seen(s, x.key@) {
            assert(keys_distinct(d)) by {
                assert forall|i: int, j: int| 0 <= i < j < d.len() implies (#[trigger] d[i]).key@ != (#[trigger] d[j]).key@ by {
                    assert(d[i] == s[i] && d[j] == s[j]);
                }
            }
            assert(!key_seen(d, x.key@)) by {
                lemma_key_seen_push(d, l, x.key@);
            }
            assert(!key_seen(m, l.key@)) by {
                if key_seen(d, l.key@) {
                    let j = choose|j: int| 0 <= j < d.len() && (#[trigger] d[j]).key@ == l.key@;
                    assert(s[j] == d[j]);
                    assert(s[s.len() - 1] == l);
                }
                if x.key@ == l.key@ {
                    lemma_key_seen_push(d, l, x.key@);
                }
            }
            lemma_push_distinct(m, l);
        }
        if paths_in_order(s) {
            assert(paths_in_order(d)) by {
                assert forall|i: int, j: int| #![trigger d[i], d[j]] 0 <= i && j == i + 1 && j < d.len() implies !path_after(d[i], d[j]) by {
                    assert(d[i] == s[i] && d[j] == s[j]);
                }
            }
            if m.last() == x {
                law_natural_order_antisymmetric(path_bytes(l), path_bytes(x));
            } else {
                assert(s[d.len() - 1] == d.last());
                assert(s[d.len() as int] == l);
            }
            lemma_push_in_order(m, l);
        }
    } else {
        assert forall|k: Seq<u8>| key_seen(insert_by_path(s, x), k) == (key_seen(s, k) || x.key@ == k) by {
            lemma_key_seen_push(s, x, k);
        }
        if keys_distinct(s) && !key_seen(s, x.key@) {
            lemma_push_distinct(s, x);
        }
        if paths_in_order(s) {
            lemma_push_in_order(s, x);
        }
    }
}

proof fn lemma_push_distinct_empty(x: VideoCandidate)
    ensures
        keys_distinct(seq![x]),
        paths_in_order(seq![x]),
{
}

proof fn lemma_sort_props(s: Seq<VideoCandidate>)
    ensures
        sort_by_path(s).to_multiset() == s.to_multiset(),
        forall|k: Seq<u8>| key_seen(sort_by_path(s), k) == key_seen(s, k),
        keys_distinct(s) ==> keys_distinct(sort_by_path(s)),
        paths_in_order(sort_by_path(s)),
    decreases s.len(),
{
    broadcast use vstd::seq_lib::group_to_multiset_ensures;
    if s.len() > 0 {
        let d = s.drop_last();
        let l = s.last();
        assert(d.push(l) == s);
        lemma_sort_props(d);
        lemma_insert_props(sort_by_path(d), l);
        assert(sort_by_path(s) == insert_by_path(sort_by_path(d), l));
        assert forall|k: Seq<u8>| key_seen(sort_by_path(s), k) == key_seen(s, k) by {
            assert(key_seen(sort_by_path(d), k) == key_seen(d, k));
            assert(key_seen(insert_by_path(sort_by_path(d), l), k) == (key_seen(sort_by_path(d), k) || l.key@ == k));
            lemma_key_seen_push(d, l, k);
        }
        if keys_distinct(s) {
            assert(keys_distinct(d)) by {
                assert forall|i: int, j: int| 0 <= i < j < d.len() implies (#[trigger] d[i]).key@ != (#[trigger] d[j]).key@ by {
                    assert(d[i] == s[i] && d[j] == s[j]);
                }
            }
            assert(!key_seen(d, l.key@)) by {
                if key_seen(d, l.key@) {
                    let j = choose|j: int| 0 <= j < d.len() && (#[trigger] d[j]).key@ == l.key@;
                    assert(s[j] == d[j]);
                    assert(s[s.len() - 1] == l);
                }
            }
        }
    } else {
        assert(s.to_multiset() =~= vstd::multiset::Multiset::empty());
    }
}

proof fn lemma_first_distinct(s: Seq<VideoCandidate>)
    ensures
        keys_distinct(first_of_each_key(s)),
    decreases s.len(),
{
    if s.len() > 0 {
        let d = s.drop_last();
        lemma_first_distinct(d);
        lemma_key_seen_first(d, s.last().key@);
        if !key_seen(d, s.last().key@) {
            lemma_push_distinct(first_of_each_key(d), s.last());
        }
    }
}

/// Discovery never offers two files with the same canonical key.
pub proof fn law_discovered_keys_distinct(from_videos: Seq<VideoCandidate>, from_cwd: Seq<VideoCandidate>)
    ensures
        keys_distinct(discovered(from_videos, from_cwd)),
{
    let u = first_of_each_key(from_videos + from_cwd);
    lemma_first_distinct(from_videos + from_cwd);
    lemma_sort_props(u);
}

/// Every canonical key found in either tree is offered, and nothing else.
pub proof fn law_discovered_covers_keys(from_videos: Seq<VideoCandidate>, from_cwd: Seq<VideoCandidate>, key: Seq<u8>)
    ensures
        key_seen(discovered(from_videos, from_cwd), key) == key_seen(from_videos + from_cwd, key),
{
    let u = first_of_each_key(from_videos + from_cwd);
    lemma_key_seen_first(from_videos + from_cwd, key);
    lemma_sort_props(u);
}

/// The offered files are in natural order: no path comes after the next one.
pub proof fn law_discovered_in_natural_order(from_videos: Seq<VideoCandidate>, from_cwd: Seq<VideoCandidate>)
    ensures
        paths_in_order(discovered(from_videos, from_cwd)),
{
    lemma_sort_props(first_of_each_key(from_videos + from_cwd));
}

/// Sorting by path neither loses nor adds candidates.
pub proof fn law_sort_by_path_permutes(s: Seq<VideoCandidate>)
    ensures
        sort_by_path(s).to_multiset() == s.to_multiset(),
{
    lemma_sort_props(s);
}

/// Natural order of two paths given as text.
pub fn natural_path_cmp(left: &str, right: &str) -> (result: Ordering)
    ensures
        result == to_ordering(natural_order(left.spec_bytes(), right.spec_bytes())),
{
    natural_cmp(left, right)
}

} // verus!
