//! File-system paths as plain text. The component logic (`file_name`, `parent`,
//! `strip_prefix`) is `std::path`'s own; what this library computes from a file name
//! (extension and stem) is stated and proved here.

use crate::text::{chars_of, copy_range};
use vstd::prelude::*;

verus! {

/// Name for `std::path::Path::file_name` of the path `p`, as text.
pub uninterp spec fn std_file_name(p: Seq<char>) -> Option<Seq<char>>;

/// Name for `std::path::Path::parent` of the path `p`, as text.
pub uninterp spec fn std_parent(p: Seq<char>) -> Option<Seq<char>>;

/// Name for `std::path::Path::strip_prefix(p, base)`: the rest of `p` after the
/// components of `base`, or `None` when `base` is not a prefix of `p`.
pub uninterp spec fn std_strip_prefix(p: Seq<char>, base: Seq<char>) -> Option<Seq<char>>;

/// `std::path::Path::file_name` on the path `p`, converted to text. The path is UTF-8, so
/// the lossy conversion keeps every character. The contract only names the result.
#[verifier::external_body]
pub(crate) fn path_file_name(p: &str) -> (r: Option<String>)
    ensures
        match r {
            Some(s) => std_file_name(p@) == Some(s@),
            None => std_file_name(p@) is None,
        },
{
    std::path::Path::new(p).file_name().map(|f| f.to_string_lossy().to_string())
}

/// `std::path::Path::parent` on the path `p`, converted to text. The contract only names
/// the result.
#[verifier::external_body]
pub(crate) fn path_parent(p: &str) -> (r: Option<String>)
    ensures
        match r {
            Some(s) => std_parent(p@) == Some(s@),
            None => std_parent(p@) is None,
        },
{
    std::path::Path::new(p).parent().map(|f| f.to_string_lossy().to_string())
}

/// `std::path::Path::strip_prefix` of `p` by `base`, converted to text (`None` for the
/// error). The contract only names the result.
#[verifier::external_body]
pub(crate) fn path_strip_prefix(p: &str, base: &str) -> (r: Option<String>)
    ensures
        match r {
            Some(s) => std_strip_prefix(p@, base@) == Some(s@),
            None => std_strip_prefix(p@, base@) is None,
        },
{
    match std::path::Path::new(p).strip_prefix(base) {
        Ok(rest) => Some(rest.to_string_lossy().to_string()),
        Err(_) => None,
    }
}

/// Index of the last `.` in `name`, if any.
pub open spec fn last_dot(name: Seq<char>) -> Option<int>
    decreases name.len(),
{
    if name.len() == 0 {
        None
    } else if name.last() == '.' {
        Some(name.len() - 1)
    } else {
        last_dot(name.drop_last())
    }
}

/// Extension of a file name, as `std::path::Path::extension` documents it: the part after
/// the last `.`, unless there is no `.` or the only `.` that counts is the first character.
pub open spec fn name_extension(name: Seq<char>) -> Option<Seq<char>> {
    match last_dot(name) {
        Some(d) => if d == 0 { None } else { Some(name.skip(d + 1)) },
        None => None,
    }
}

/// Stem of a file name, as `std::path::Path::file_stem` documents it: the part before the
/// last `.`, or the whole name when there is no extension.
pub open spec fn name_stem(name: Seq<char>) -> Seq<char> {
    match last_dot(name) {
        Some(d) => if d == 0 { name } else { name.take(d) },
        None => name,
    }
}

/// Extension of the path `p` (`Path::extension`).
pub open spec fn path_extension_of(p: Seq<char>) -> Option<Seq<char>> {
    match std_file_name(p) {
        Some(n) => name_extension(n),
        None => None,
    }
}

/// Stem of the path `p` (`Path::file_stem`).
pub open spec fn path_stem_of(p: Seq<char>) -> Option<Seq<char>> {
    match std_file_name(p) {
        Some(n) => Some(name_stem(n)),
        None => None,
    }
}

proof fn lemma_last_dot_none(name: Seq<char>, k: int)
    requires
        0 <= k <= name.len(),
        forall|t: int| k <= t < name.len() ==> name[t] != '.',
    ensures
        last_dot(name) == last_dot(name.take(k)),
    decreases name.len() - k,
{
    if k < name.len() {
        assert(name.drop_last().take(k) == name.take(k));
        lemma_last_dot_none(name.drop_last(), k);
    } else {
        assert(name.take(k) == name);
    }
}

/// Position of the last `.` in `name`.
pub fn find_last_dot(name: &[char]) -> (r: Option<usize>)
    ensures
        match r {
            Some(d) => last_dot(name@) == Some(d as int) && d < name@.len(),
            None => last_dot(name@) is None,
        },
{
    let mut k = name.len();
    while k > 0 && name[k - 1] != '.'
        invariant
            k <= name@.len(),
            forall|t: int| k <= t < name@.len() ==> name@[t] != '.',
        decreases k,
    {
        k -= 1;
    }
    proof {
        lemma_last_dot_none(name@, k as int);
    }
    if k == 0 {
        None
    } else {
        assert(name@.take(k as int).last() == '.');
        Some(k - 1)
    }
}

/// Extension and stem of the path `p`, as `Path::extension` and `Path::file_stem` give them.
pub fn path_extension_and_stem(p: &str) -> (r: (Option<Vec<char>>, Option<Vec<char>>))
    ensures
        match r.0 {
            Some(e) => path_extension_of(p@) == Some(e@),
            None => path_extension_of(p@) is None,
        },
        match r.1 {
            Some(s) => path_stem_of(p@) == Some(s@),
            None => path_stem_of(p@) is None,
        },
{
    match path_file_name(p) {
        None => (None, None),
        Some(n) => {
            let name = chars_of(n.as_str());
            let nl = name.len();
            match find_last_dot(name.as_slice()) {
                None => (None, Some(name)),
                Some(d) => {
                    if d == 0 {
                        (None, Some(name))
                    } else {
                        let ext = copy_range(name.as_slice(), d + 1, nl);
                        let stem = copy_range(name.as_slice(), 0, d);
                        assert(name@.skip(d + 1) == name@.subrange(d + 1, name@.len() as int));
                        (Some(ext), Some(stem))
                    }
                },
            }
        },
    }
}

} // verus!
