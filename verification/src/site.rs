//! The pages of the Jimaku site as the library reads them: the links to an entry's files
//! on an entry page, and the entries listed on the index page.

use crate::text::{
    chars_of, copy_range, has_prefix, lemma_nd_run_end, lemma_until_char, lemma_white_run_end, literal_at, nd_run_end,
    nd_run_end_at, occurs_at, string_of, until_char, until_char_at, white_run_end, white_run_end_at,
};
use vstd::prelude::*;

verus! {

/// Where the lazy `(.*?)</a>` that starts at `p` stops: the first `</a>` at or after `p`
/// with no line feed before it.
pub open spec fn close_link_from(t: Seq<char>, p: int) -> Option<int>
    decreases t.len() - p,
{
    if 0 <= p < t.len() {
        if occurs_at(t, "</a>"@, p) {
            Some(p)
        } else if t[p] == '\n' {
            None
        } else {
            close_link_from(t, p + 1)
        }
    } else {
        None
    }
}

pub proof fn lemma_close_link_from(t: Seq<char>, p: int)
    requires
        0 <= p,
    ensures
        close_link_from(t, p) matches Some(e) ==> p <= e && occurs_at(t, "</a>"@, e),
    decreases t.len() - p,
{
    if 0 <= p < t.len() && !occurs_at(t, "</a>"@, p) && t[p] != '\n' {
        lemma_close_link_from(t, p + 1);
    }
}

/// The rest of a link after the quote that closes its `href` value at `q`:
/// `"[^>]*>(.*?)</a>`. The result bounds the link text.
pub open spec fn link_tail(t: Seq<char>, q: int) -> Option<(int, int)> {
    if 0 <= q < t.len() && t[q] == '"' {
        let g = until_char(t, q + 1, '>');
        if g < t.len() {
            match close_link_from(t, g + 1) {
                Some(e) => Some((g + 1, e)),
                None => None,
            }
        } else {
            None
        }
    } else {
        None
    }
}

pub proof fn lemma_link_tail(t: Seq<char>, q: int)
    ensures
        link_tail(t, q) matches Some((a, b)) ==> q < a <= b && occurs_at(t, "</a>"@, b),
{
    if 0 <= q < t.len() && t[q] == '"' {
        lemma_until_char(t, q + 1, '>');
        let g = until_char(t, q + 1, '>');
        if g < t.len() {
            lemma_close_link_from(t, g + 1);
        }
    }
}

/// Computes `close_link_from`.
fn close_link_at(t: &[char], p: usize) -> (r: Option<usize>)
    requires
        p <= t@.len(),
    ensures
        match r {
            Some(e) => close_link_from(t@, p as int) == Some(e as int),
            None => close_link_from(t@, p as int) is None,
        },
{
    let mut k = p;
    while k < t.len()
        invariant
            p <= k <= t@.len(),
            close_link_from(t@, p as int) == close_link_from(t@, k as int),
        decreases t@.len() - k,
    {
        if literal_at(t, k, "</a>") {
            return Some(k);
        }
        if t[k] == '\n' {
            return None;
        }
        k += 1;
    }
    None
}

/// Computes `link_tail`.
fn link_tail_at(t: &[char], q: usize) -> (r: Option<(usize, usize)>)
    requires
        q <= t@.len(),
    ensures
        match r {
            Some((a, b)) => link_tail(t@, q as int) == Some((a as int, b as int)),
            None => link_tail(t@, q as int) is None,
        },
{
    if q >= t.len() || t[q] != '"' {
        return None;
    }
    let g = until_char_at(t, q + 1, '>');
    proof {
        lemma_until_char(t@, q + 1, '>');
    }
    if g >= t.len() {
        return None;
    }
    match close_link_at(t, g + 1) {
        Some(e) => Some((g + 1, e)),
        None => None,
    }
}

// ---------------------------------------------------------------------------
// Entry pages
// ---------------------------------------------------------------------------

/// A link to one of an entry's files at `i`,
/// `href="(/entry/\d+/download/[^"]+)"[^>]*>(.*?)</a>`: the bounds of the address and of
/// the link text.
pub open spec fn file_link_at(t: Seq<char>, i: int) -> Option<(int, int, int, int)> {
    if occurs_at(t, "href=\"/entry/"@, i) {
        let d0 = i + "href=\"/entry/"@.len();
        let d1 = nd_run_end(t, d0);
        if d0 < d1 && occurs_at(t, "/download/"@, d1) {
            let u0 = d1 + "/download/"@.len();
            let q = until_char(t, u0, '"');
            if u0 < q {
                match link_tail(t, q) {
                    Some((a, b)) => Some((i + "href=\""@.len(), q, a, b)),
                    None => None,
                }
            } else {
                None
            }
        } else {
            None
        }
    } else {
        None
    }
}

pub proof fn lemma_file_link_at(t: Seq<char>, i: int)
    requires
        0 <= i,
    ensures
        file_link_at(t, i) matches Some((u0, u1, a, b)) ==> {
            &&& 0 <= u0 <= u1 < a <= b
            &&& i < b
            &&& b + "</a>"@.len() <= t.len()
        },
{
    if occurs_at(t, "href=\"/entry/"@, i) {
        let d0 = i + "href=\"/entry/"@.len();
        let d1 = nd_run_end(t, d0);
        if d0 < d1 && occurs_at(t, "/download/"@, d1) {
            let u0 = d1 + "/download/"@.len();
            let q = until_char(t, u0, '"');
            lemma_link_tail(t, q);
            reveal_strlit("href=\"/entry/");
            reveal_strlit("href=\"");
        }
    }
}

/// The links to files, in page order, from `i` on: each as its address and its raw link
/// text. After a link the search goes on where it ended.
pub open spec fn file_links_from(t: Seq<char>, i: int) -> Seq<(Seq<char>, Seq<char>)>
    decreases t.len() - i,
{
    if 0 <= i < t.len() {
        match file_link_at(t, i) {
            Some((u0, u1, a, b)) => {
                proof {
                    lemma_file_link_at(t, i);
                }
                seq![(t.subrange(u0, u1), t.subrange(a, b))] + file_links_from(t, b + "</a>"@.len())
            },
            None => file_links_from(t, i + 1),
        }
    } else {
        Seq::empty()
    }
}

/// Every file address found on a page is a download address of an entry:
/// `/entry/<digits>/download/...`, beginning with `/entry/`.
pub proof fn lemma_file_links_are_entry_downloads(t: Seq<char>, i: int)
    requires
        0 <= i,
    ensures
        forall|k: int|
            0 <= k < file_links_from(t, i).len() ==> has_prefix((#[trigger] file_links_from(t, i)[k]).0, "/entry/"@),
    decreases t.len() - i,
{
    if 0 <= i < t.len() {
        match file_link_at(t, i) {
            Some((u0, u1, a, b)) => {
                lemma_file_link_at(t, i);
                let next = b + "</a>"@.len();
                lemma_file_links_are_entry_downloads(t, next);
                let url = t.subrange(u0, u1);
                let rest = file_links_from(t, next);
                reveal_strlit("href=\"/entry/");
                reveal_strlit("href=\"");
                reveal_strlit("/entry/");
                reveal_strlit("/download/");
                let d0 = i + "href=\"/entry/"@.len();
                let d1 = nd_run_end(t, d0);
                lemma_nd_run_end(t, d0);
                assert(t.subrange(i, i + 13) == "href=\"/entry/"@);
                assert(u0 == i + 6);
                assert(u1 > d1 + 10);
                assert forall|j: int| 0 <= j < 7 implies url[j] == "/entry/"@[j] by {
                    assert(url[j] == t[u0 + j]);
                    assert(t[u0 + j] == t.subrange(i, i + 13)[6 + j]);
                }
                assert(url.subrange(0, 7) =~= "/entry/"@);
                let all = seq![(url, t.subrange(a, b))] + rest;
                assert(file_links_from(t, i) == all);
                assert forall|k: int| 0 <= k < all.len() implies has_prefix((#[trigger] all[k]).0, "/entry/"@) by {
                    if k > 0 {
                        assert(all[k] == rest[k - 1]);
                    } else {
                        assert(all[0].0 == url);
                        assert(url.len() >= 7);
                        assert(has_prefix(url, "/entry/"@));
                    }
                }
            },
            None => {
                lemma_file_links_are_entry_downloads(t, i + 1);
                assert(file_links_from(t, i) == file_links_from(t, i + 1));
            },
        }
    } else {
        assert(file_links_from(t, i) == Seq::<(Seq<char>, Seq<char>)>::empty());
    }
}

/// Computes `file_link_at`.
fn file_link_at_exec(t: &[char], i: usize) -> (r: Option<(usize, usize, usize, usize)>)
    requires
        i <= t@.len(),
    ensures
        match r {
            Some((u0, u1, a, b)) => file_link_at(t@, i as int) == Some((u0 as int, u1 as int, a as int, b as int)),
            None => file_link_at(t@, i as int) is None,
        },
{
    let tl = t.len();
    if !literal_at(t, i, "href=\"/entry/") {
        return None;
    }
    proof {
        reveal_strlit("href=\"/entry/");
        reveal_strlit("/download/");
        reveal_strlit("href=\"");
        assert("href=\"/entry/"@.len() == 13);
        assert("/download/"@.len() == 10);
        assert("href=\""@.len() == 6);
    }
    let d0 = i + 13;
    proof {
        lemma_nd_run_end(t@, d0 as int);
    }
    let d1 = nd_run_end_at(t, d0);
    if !(d0 < d1 && literal_at(t, d1, "/download/")) {
        return None;
    }
    let u0 = d1 + 10;
    let q = until_char_at(t, u0, '"');
    proof {
        lemma_until_char(t@, u0 as int, '"');
    }
    if u0 >= q {
        return None;
    }
    match link_tail_at(t, q) {
        Some((a, b)) => Some((i + 6, q, a, b)),
        None => None,
    }
}

/// The links to an entry's files on its page, in page order, each as its address and its
/// raw link text (see `file_links_from`).
pub fn file_links(page: &str) -> (r: Vec<(String, String)>)
    ensures
        text_pairs(r@) == file_links_from(page@, 0),
{
    let t = chars_of(page);
    let tl = t.len();
    let mut out: Vec<(String, String)> = Vec::new();
    let mut i: usize = 0;
    proof {
        reveal_strlit("</a>");
        assert("</a>"@.len() == 4);
    }
    while i < tl
        invariant
            tl == t@.len(),
            t@ == page@,
            i <= tl,
            "</a>"@.len() == 4,
            text_pairs(out@) + file_links_from(t@, i as int) == file_links_from(t@, 0),
        decreases tl - i,
    {
        proof {
            lemma_file_link_at(t@, i as int);
        }
        match file_link_at_exec(t.as_slice(), i) {
            Some((u0, u1, a, b)) => {
                let url = string_of(copy_range(t.as_slice(), u0, u1).as_slice());
                let text = string_of(copy_range(t.as_slice(), a, b).as_slice());
                let ghost before = out@;
                let ghost x = (t@.subrange(u0 as int, u1 as int), t@.subrange(a as int, b as int));
                let ghost rest = file_links_from(t@, b + 4);
                out.push((url, text));
                proof {
                    assert(file_links_from(t@, i as int) == seq![x] + rest);
                    assert(text_pairs(out@) == text_pairs(before).push(x)) by {
                        assert(text_pairs(out@) =~= text_pairs(before).push(x));
                    }
                    assert(text_pairs(before).push(x) + rest =~= text_pairs(before) + (seq![x] + rest));
                }
                i = b + 4;
            },
            None => {
                i += 1;
            },
        }
    }
    proof {
        assert(file_links_from(t@, i as int) == Seq::<(Seq<char>, Seq<char>)>::empty());
        assert(text_pairs(out@) + Seq::<(Seq<char>, Seq<char>)>::empty() =~= text_pairs(out@));
    }
    out
}

/// The texts of a list of string pairs.
pub open spec fn text_pairs(v: Seq<(String, String)>) -> Seq<(Seq<char>, Seq<char>)> {
    v.map_values(|p: (String, String)| (p.0@, p.1@))
}

// ---------------------------------------------------------------------------
// Character references
// ---------------------------------------------------------------------------

/// Name for what `html_escape::decode_html_entities` makes of `text`.
pub uninterp spec fn html_entities_decoded(text: Seq<char>) -> Seq<char>;

/// `html_escape::decode_html_entities`: `text` with its HTML character references decoded.
/// The result is named; the crate's source hands the text back unchanged when it holds no
/// `&`.
#[verifier::external_body]
pub(crate) fn decode_html_entities(text: &str) -> (r: String)
    ensures
        r@ == html_entities_decoded(text@),
        (forall|k: int| 0 <= k < text@.len() ==> text@[k] != '&') ==> r@ == text@,
{
    html_escape::decode_html_entities(text).to_string()
}

// ---------------------------------------------------------------------------
// The index page
// ---------------------------------------------------------------------------

/// An entry of the index page at `i`,
/// `<div class="entry" data-extra="([^"]+)">\s*<a href="/entry/(\d+)"[^>]*>(.*?)</a>`:
/// the bounds of the data, of the id and of the link text.
pub open spec fn index_link_at(t: Seq<char>, i: int) -> Option<(int, int, int, int, int, int)> {
    if occurs_at(t, "<div class=\"entry\" data-extra=\""@, i) {
        let x0 = i + "<div class=\"entry\" data-extra=\""@.len();
        let x1 = until_char(t, x0, '"');
        if x0 < x1 && occurs_at(t, "\">"@, x1) {
            let w = white_run_end(t, x1 + "\">"@.len());
            if occurs_at(t, "<a href=\"/entry/"@, w) {
                let d0 = w + "<a href=\"/entry/"@.len();
                let d1 = nd_run_end(t, d0);
                if d0 < d1 {
                    match link_tail(t, d1) {
                        Some((a, b)) => Some((x0, x1, d0, d1, a, b)),
                        None => None,
                    }
                } else {
                    None
                }
            } else {
                None
            }
        } else {
            None
        }
    } else {
        None
    }
}

pub proof fn lemma_index_link_at(t: Seq<char>, i: int)
    requires
        0 <= i,
    ensures
        index_link_at(t, i) matches Some((x0, x1, d0, d1, a, b)) ==> {
            &&& 0 <= x0 <= x1 <= d0 <= d1 < a <= b
            &&& i < b
            &&& b + "</a>"@.len() <= t.len()
        },
{
    if occurs_at(t, "<div class=\"entry\" data-extra=\""@, i) {
        let x0 = i + "<div class=\"entry\" data-extra=\""@.len();
        let x1 = until_char(t, x0, '"');
        if x0 < x1 && occurs_at(t, "\">"@, x1) {
            let w0 = x1 + "\">"@.len();
            lemma_white_run_end(t, w0);
            let w = white_run_end(t, w0);
            if occurs_at(t, "<a href=\"/entry/"@, w) {
                let d0 = w + "<a href=\"/entry/"@.len();
                let d1 = nd_run_end(t, d0);
                lemma_link_tail(t, d1);
            }
        }
    }
}

/// The entries of the index page, in page order, from `i` on: each as its raw data, its id
/// digits and its raw link text. After an entry the search goes on where it ended.
pub open spec fn index_links_from(t: Seq<char>, i: int) -> Seq<(Seq<char>, Seq<char>, Seq<char>)>
    decreases t.len() - i,
{
    if 0 <= i < t.len() {
        match index_link_at(t, i) {
            Some((x0, x1, d0, d1, a, b)) => {
                proof {
                    lemma_index_link_at(t, i);
                }
                seq![(t.subrange(x0, x1), t.subrange(d0, d1), t.subrange(a, b))] + index_links_from(
                    t,
                    b + "</a>"@.len(),
                )
            },
            None => index_links_from(t, i + 1),
        }
    } else {
        Seq::empty()
    }
}

/// Computes `index_link_at`.
fn index_link_at_exec(t: &[char], i: usize) -> (r: Option<(usize, usize, usize, usize, usize, usize)>)
    requires
        i <= t@.len(),
    ensures
        match r {
            Some((x0, x1, d0, d1, a, b)) => index_link_at(t@, i as int) == Some(
                (x0 as int, x1 as int, d0 as int, d1 as int, a as int, b as int),
            ),
            None => index_link_at(t@, i as int) is None,
        },
{
    let tl = t.len();
    if !literal_at(t, i, "<div class=\"entry\" data-extra=\"") {
        return None;
    }
    proof {
        reveal_strlit("<div class=\"entry\" data-extra=\"");
        reveal_strlit("\">");
        reveal_strlit("<a href=\"/entry/");
        assert("<div class=\"entry\" data-extra=\""@.len() == 31);
        assert("\">"@.len() == 2);
        assert("<a href=\"/entry/"@.len() == 16);
    }
    let x0 = i + 31;
    let x1 = until_char_at(t, x0, '"');
    proof {
        lemma_until_char(t@, x0 as int, '"');
    }
    if !(x0 < x1 && literal_at(t, x1, "\">")) {
        return None;
    }
    let w = white_run_end_at(t, x1 + 2);
    proof {
        lemma_white_run_end(t@, x1 + 2);
    }
    if !literal_at(t, w, "<a href=\"/entry/") {
        return None;
    }
    let d0 = w + 16;
    let d1 = nd_run_end_at(t, d0);
    proof {
        lemma_nd_run_end(t@, d0 as int);
    }
    if d0 >= d1 {
        return None;
    }
    match link_tail_at(t, d1) {
        Some((a, b)) => Some((x0, x1, d0, d1, a, b)),
        None => None,
    }
}

/// The entries of the index page, in page order, each as its raw data, its id digits and
/// its raw link text (see `index_links_from`).
pub fn index_links(page: &str) -> (r: Vec<(String, String, String)>)
    ensures
        text_triples(r@) == index_links_from(page@, 0),
{
    let t = chars_of(page);
    let tl = t.len();
    let mut out: Vec<(String, String, String)> = Vec::new();
    let mut i: usize = 0;
    proof {
        reveal_strlit("</a>");
        assert("</a>"@.len() == 4);
    }
    while i < tl
        invariant
            tl == t@.len(),
            t@ == page@,
            i <= tl,
            "</a>"@.len() == 4,
            text_triples(out@) + index_links_from(t@, i as int) == index_links_from(t@, 0),
        decreases tl - i,
    {
        proof {
            lemma_index_link_at(t@, i as int);
        }
        match index_link_at_exec(t.as_slice(), i) {
            Some((x0, x1, d0, d1, a, b)) => {
                let extra = string_of(copy_range(t.as_slice(), x0, x1).as_slice());
                let id = string_of(copy_range(t.as_slice(), d0, d1).as_slice());
                let text = string_of(copy_range(t.as_slice(), a, b).as_slice());
                let ghost before = out@;
                let ghost x = (
                    t@.subrange(x0 as int, x1 as int),
                    t@.subrange(d0 as int, d1 as int),
                    t@.subrange(a as int, b as int),
                );
                let ghost rest = index_links_from(t@, b + 4);
                out.push((extra, id, text));
                proof {
                    assert(index_links_from(t@, i as int) == seq![x] + rest);
                    assert(text_triples(out@) == text_triples(before).push(x)) by {
                        assert(text_triples(out@) =~= text_triples(before).push(x));
                    }
                    assert(text_triples(before).push(x) + rest =~= text_triples(before) + (seq![x] + rest));
                }
                i = b + 4;
            },
            None => {
                i += 1;
            },
        }
    }
    proof {
        assert(index_links_from(t@, i as int) == Seq::<(Seq<char>, Seq<char>, Seq<char>)>::empty());
        assert(text_triples(out@) + Seq::<(Seq<char>, Seq<char>, Seq<char>)>::empty() =~= text_triples(out@));
    }
    out
}

/// The texts of a list of string triples.
pub open spec fn text_triples(v: Seq<(String, String, String)>) -> Seq<(Seq<char>, Seq<char>, Seq<char>)> {
    v.map_values(|p: (String, String, String)| (p.0@, p.1@, p.2@))
}

} // verus!
