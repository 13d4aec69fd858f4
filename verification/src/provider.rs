//! The Jimaku subtitle index as the library sees it: entries, fuzzy search over their
//! names, and choosing the files that belong to an episode.

use fuzzy_matcher::FuzzyMatcher;
use crate::site::{
    lemma_file_links_are_entry_downloads, decode_html_entities, file_links, file_links_from, html_entities_decoded, index_links, index_links_from,
    text_pairs, text_triples,
};
use crate::text::{
    chars_of, contains, contains_chars, decimal, ends_with, has_prefix, has_suffix, is_ascii_char, is_blank, parse_u64_chars,
    parse_u64_text, push_all, push_padded_decimal, push_str, str_equal, string_of, trim,
};
use vstd::prelude::*;

verus! {

/// One anime of the Jimaku index.
#[derive(Debug, Clone)]
pub struct CachedJimakuEntry {
    pub id: u64,
    pub name: String,
    pub english_name: Option<String>,
    pub japanese_name: Option<String>,
}

pub open spec fn opt_text(o: Option<String>) -> Option<Seq<char>> {
    match o {
        Some(s) => Some(s@),
        None => None,
    }
}

impl View for CachedJimakuEntry {
    type V = (u64, Seq<char>, Option<Seq<char>>, Option<Seq<char>>);

    open spec fn view(&self) -> Self::V {
        (self.id, self.name@, opt_text(self.english_name), opt_text(self.japanese_name))
    }
}

fn copy_opt_string(o: &Option<String>) -> (r: Option<String>)
    ensures
        opt_text(r) == opt_text(*o),
{
    match o {
        Some(s) => Some(s.clone()),
        None => None,
    }
}

impl CachedJimakuEntry {
    /// A copy of the entry.
    pub fn duplicate(&self) -> (r: Self)
        ensures
            r@ == self@,
    {
        CachedJimakuEntry {
            id: self.id,
            name: self.name.clone(),
            english_name: copy_opt_string(&self.english_name),
            japanese_name: copy_opt_string(&self.japanese_name),
        }
    }
}

/// A subtitle file offered for download.
#[derive(Debug, Clone)]
pub struct SubtitleSearchResult {
    pub provider: String,
    pub title: String,
    pub episode: Option<String>,
    pub language: String,
    pub download_url: String,
    pub file_format: String,
}

impl View for SubtitleSearchResult {
    /// Provider, title, episode, language, download address and file format.
    type V = (Seq<char>, Seq<char>, Option<Seq<char>>, Seq<char>, Seq<char>, Seq<char>);

    open spec fn view(&self) -> Self::V {
        (self.provider@, self.title@, opt_text(self.episode), self.language@, self.download_url@, self.file_format@)
    }
}

/// The Jimaku subtitle provider's own logic (its network and cache access live with the
/// program).
pub struct SubtitleProvider;

/// How an entry is offered in the search list: `name (japanese name)`, or just the name.
pub open spec fn label_of(e: (u64, Seq<char>, Option<Seq<char>>, Option<Seq<char>>)) -> Seq<char> {
    match e.3 {
        Some(jp) => e.1 + " ("@ + jp + ")"@,
        None => e.1,
    }
}

/// The text under which an entry is offered in the search list.
pub fn suggestion_label(e: &CachedJimakuEntry) -> (r: String)
    ensures
        r@ == label_of(e@),
{
    match &e.japanese_name {
        Some(jp) => {
            let mut v = chars_of(e.name.as_str());
            push_str(&mut v, " (");
            push_str(&mut v, jp.as_str());
            push_str(&mut v, ")");
            string_of(v.as_slice())
        },
        None => e.name.clone(),
    }
}

/// Name for the score of `choice` against `pattern` under fuzzy-matcher's
/// `SkimMatcherV2::default()`, `None` when it does not match.
pub uninterp spec fn skim_score(choice: Seq<char>, pattern: Seq<char>) -> Option<i64>;

/// `fuzzy_matcher::skim::SkimMatcherV2::default().fuzzy_match(choice, pattern)`. The score
/// is named; the crate's source gives `Some(0)` for an empty pattern.
#[verifier::external_body]
fn skim_fuzzy_match(choice: &str, pattern: &str) -> (r: Option<i64>)
    ensures
        r == skim_score(choice@, pattern@),
        pattern@.len() == 0 ==> r == Some(0i64),
{
    fuzzy_matcher::skim::SkimMatcherV2::default().fuzzy_match(choice, pattern)
}

/// The better of a previous best score and a new one.
pub open spec fn merge_score(prev: Option<i64>, next: Option<i64>) -> Option<i64> {
    match next {
        Some(s) => match prev {
            Some(p) => Some(if p >= s { p } else { s }),
            None => Some(s),
        },
        None => prev,
    }
}

/// The best score of an entry's name, English name and Japanese name.
pub open spec fn entry_score(e: (u64, Seq<char>, Option<Seq<char>>, Option<Seq<char>>), q: Seq<char>) -> Option<i64> {
    let a = skim_score(e.1, q);
    let b = match e.2 {
        Some(en) => merge_score(a, skim_score(en, q)),
        None => a,
    };
    match e.3 {
        Some(jp) => merge_score(b, skim_score(jp, q)),
        None => b,
    }
}

/// The scored entries: those with a score, with it, in order.
pub open spec fn scored_entries(es: Seq<(u64, Seq<char>, Option<Seq<char>>, Option<Seq<char>>)>, q: Seq<char>) -> Seq<(i64, (u64, Seq<char>, Option<Seq<char>>, Option<Seq<char>>))>
    decreases es.len(),
{
    if es.len() == 0 {
        Seq::empty()
    } else {
        let p = scored_entries(es.drop_last(), q);
        match entry_score(es.last(), q) {
            Some(s) => p.push((s, es.last())),
            None => p,
        }
    }
}

/// `x` placed into `s` after the last element whose score is at least its own.
pub open spec fn insert_by_score<T>(s: Seq<(i64, T)>, x: (i64, T)) -> Seq<(i64, T)>
    decreases s.len(),
{
    if s.len() == 0 {
        seq![x]
    } else if s.last().0 < x.0 {
        insert_by_score(s.drop_last(), x).push(s.last())
    } else {
        s.push(x)
    }
}

/// Stable sort by descending score.
pub open spec fn sort_by_score<T>(s: Seq<(i64, T)>) -> Seq<(i64, T)>
    decreases s.len(),
{
    if s.len() == 0 {
        s
    } else {
        insert_by_score(sort_by_score(s.drop_last()), s.last())
    }
}

/// What the fuzzy search offers for `q`: the first 20 entries when `q` is blank; else the
/// entries that match, best score first (ties in index order), at most 25.
pub open spec fn fuzzy_filter(es: Seq<(u64, Seq<char>, Option<Seq<char>>, Option<Seq<char>>)>, q: Seq<char>) -> Seq<(u64, Seq<char>, Option<Seq<char>>, Option<Seq<char>>)> {
    if trim(q).len() == 0 {
        es.take(if es.len() < 20 { es.len() as int } else { 20 })
    } else {
        let sorted = sort_by_score(scored_entries(es, q));
        let top = sorted.take(if sorted.len() < 25 { sorted.len() as int } else { 25 });
        top.map_values(|p: (i64, (u64, Seq<char>, Option<Seq<char>>, Option<Seq<char>>))| p.1)
    }
}

pub open spec fn entry_views(v: Seq<CachedJimakuEntry>) -> Seq<(u64, Seq<char>, Option<Seq<char>>, Option<Seq<char>>)> {
    v.map_values(|e: CachedJimakuEntry| e@)
}

pub open spec fn scored_views(v: Seq<(i64, CachedJimakuEntry)>) -> Seq<(i64, (u64, Seq<char>, Option<Seq<char>>, Option<Seq<char>>))> {
    v.map_values(|p: (i64, CachedJimakuEntry)| (p.0, p.1@))
}

fn entry_score_exec(e: &CachedJimakuEntry, q: &str) -> (r: Option<i64>)
    ensures
        r == entry_score(e@, q@),
{
    let mut best = skim_fuzzy_match(e.name.as_str(), q);
    if let Some(en) = &e.english_name {
        if let Some(s) = skim_fuzzy_match(en.as_str(), q) {
            best = Some(match best {
                Some(p) => if p >= s { p } else { s },
                None => s,
            });
        }
    }
    if let Some(jp) = &e.japanese_name {
        if let Some(s) = skim_fuzzy_match(jp.as_str(), q) {
            best = Some(match best {
                Some(p) => if p >= s { p } else { s },
                None => s,
            });
        }
    }
    best
}

proof fn lemma_insert_by_score_at<T>(s: Seq<(i64, T)>, x: (i64, T), p: int)
    requires
        0 <= p <= s.len(),
        forall|t: int| p <= t < s.len() ==> (#[trigger] s[t]).0 < x.0,
        p == 0 || s[p - 1].0 >= x.0,
    ensures
        insert_by_score(s, x) == s.insert(p, x),
    decreases s.len(),
{
    if s.len() == 0 {
        assert(s.insert(p, x) =~= seq![x]);
    } else if p == s.len() {
        assert(s.insert(p, x) =~= s.push(x));
    } else {
        assert(s[s.len() - 1].0 < x.0);
        let d = s.drop_last();
        assert forall|t: int| p <= t < d.len() implies (#[trigger] d[t]).0 < x.0 by {
            assert(d[t] == s[t]);
        }
        if p > 0 {
            assert(d[p - 1] == s[p - 1]);
        }
        lemma_insert_by_score_at(d, x, p);
        assert(d.insert(p, x).push(s.last()) =~= s.insert(p, x));
    }
}

proof fn lemma_scored_views_insert(v: Seq<(i64, CachedJimakuEntry)>, p: int, x: (i64, CachedJimakuEntry))
    requires
        0 <= p <= v.len(),
    ensures
        scored_views(v.insert(p, x)) == scored_views(v).insert(p, (x.0, x.1@)),
{
    assert(scored_views(v.insert(p, x)) =~= scored_views(v).insert(p, (x.0, x.1@)));
}

proof fn lemma_entry_views_push(v: Seq<CachedJimakuEntry>, x: CachedJimakuEntry)
    ensures
        entry_views(v.push(x)) == entry_views(v).push(x@),
{
    assert(entry_views(v.push(x)) =~= entry_views(v).push(x@));
}

proof fn lemma_take_push<T>(s: Seq<T>, k: int)
    requires
        0 <= k < s.len(),
    ensures
        s.take(k + 1) == s.take(k).push(s[k]),
{
    assert(s.take(k + 1) =~= s.take(k).push(s[k]));
}

impl SubtitleProvider {
    /// Fuzzy search over the entries' names (see `fuzzy_filter`).
    pub fn fuzzy_filter_entries(entries: &[CachedJimakuEntry], query: &str) -> (r: Vec<CachedJimakuEntry>)
        ensures
            entry_views(r@) == fuzzy_filter(entry_views(entries@), query@),
    {
        let qc = chars_of(query);
        let ghost es = entry_views(entries@);
        if is_blank(qc.as_slice()) {
            let n = entries.len();
            let lim: usize = if n < 20 { n } else { 20 };
            let mut out: Vec<CachedJimakuEntry> = Vec::new();
            let mut k: usize = 0;
            while k < lim
                invariant
                    k <= lim,
                    lim <= entries@.len(),
                    es == entry_views(entries@),
                    entry_views(out@) == es.take(k as int),
                decreases lim - k,
            {
                let d = entries[k].duplicate();
                let ghost old_out = out@;
                out.push(d);
                proof {
                    lemma_entry_views_push(old_out, d);
                    lemma_take_push(es, k as int);
                    assert(es[k as int] == entries@[k as int]@);
                }
                k += 1;
            }
            return out;
        }
        // score every entry, keeping the scored ones sorted (stable, best first)
        let mut sorted: Vec<(i64, CachedJimakuEntry)> = Vec::new();
        let mut k: usize = 0;
        while k < entries.len()
            invariant
                k <= entries@.len(),
                es == entry_views(entries@),
                scored_views(sorted@) == sort_by_score(scored_entries(es.take(k as int), query@)),
            decreases entries@.len() - k,
        {
            let e = &entries[k];
            let ghost pre = es.take(k as int);
            assert(es.take(k + 1).drop_last() == pre);
            assert(es.take(k + 1).last() == e@);
            if let Some(score) = entry_score_exec(e, query) {
                let mut p = sorted.len();
                while p > 0 && sorted[p - 1].0 < score
                    invariant
                        p <= sorted@.len(),
                        forall|t: int| p <= t < sorted@.len() ==> (#[trigger] sorted@[t]).0 < score,
                    decreases p,
                {
                    p -= 1;
                }
                let d = e.duplicate();
                let ghost before = sorted@;
                proof {
                    let sv = scored_views(sorted@);
                    assert forall|t: int| p <= t < sv.len() implies (#[trigger] sv[t]).0 < score by {
                        assert(sv[t].0 == sorted@[t].0);
                    }
                    if p > 0 {
                        assert(sv[p - 1].0 == sorted@[p - 1].0);
                    }
                    lemma_insert_by_score_at(sv, (score, e@), p as int);
                }
                sorted.insert(p, (score, d));
                proof {
                    lemma_scored_views_insert(before, p as int, (score, d));
                    assert(scored_entries(es.take(k + 1), query@) == scored_entries(pre, query@).push((score, e@)));
                    assert(scored_entries(pre, query@).push((score, e@)).drop_last() =~= scored_entries(pre, query@));
                    assert(sort_by_score(scored_entries(pre, query@).push((score, e@))) == insert_by_score(
                        sort_by_score(scored_entries(pre, query@)),
                        (score, e@),
                    ));
                }
            } else {
                assert(scored_entries(es.take(k + 1), query@) == scored_entries(pre, query@));
            }
            k += 1;
        }
        assert(es.take(entries@.len() as int) == es);
        let n = sorted.len();
        let lim: usize = if n < 25 { n } else { 25 };
        let mut out: Vec<CachedJimakuEntry> = Vec::new();
        let mut j: usize = 0;
        let ghost sv = scored_views(sorted@);
        while j < lim
            invariant
                j <= lim,
                lim <= sorted@.len(),
                sv == scored_views(sorted@),
                entry_views(out@) == sv.take(j as int).map_values(|p: (i64, (u64, Seq<char>, Option<Seq<char>>, Option<Seq<char>>))| p.1),
            decreases lim - j,
        {
            let d = sorted[j].1.duplicate();
            let ghost old_out = out@;
            out.push(d);
            proof {
                lemma_entry_views_push(old_out, d);
                lemma_take_push(sv, j as int);
                assert(sv[j as int].1 == d@);
                assert(sv.take(j + 1).map_values(|p: (i64, (u64, Seq<char>, Option<Seq<char>>, Option<Seq<char>>))| p.1) =~= sv.take(j as int).map_values(|p: (i64, (u64, Seq<char>, Option<Seq<char>>, Option<Seq<char>>))| p.1).push(d@));
            }
            j += 1;
        }
        out
    }
}

/// The episode as it may appear in a file title: a one-byte episode gets a leading zero.
pub open spec fn padded_episode(ep: Seq<char>) -> Seq<char> {
    if ep.len() == 1 && is_ascii_char(ep[0]) {
        seq!['0'] + ep
    } else {
        ep
    }
}

/// The title mentions the episode: as given, padded, or padded after `E` or `e`.
pub open spec fn title_mentions_episode(title: Seq<char>, ep: Seq<char>) -> bool {
    let p = padded_episode(ep);
    contains(title, ep) || contains(title, p) || contains(title, seq!['E'] + p) || contains(title, seq!['e'] + p)
}

/// The files whose title mentions the episode, in order.
pub open spec fn episode_files(s: Seq<SubtitleSearchResult>, ep: Seq<char>) -> Seq<SubtitleSearchResult>
    decreases s.len(),
{
    if s.len() == 0 {
        s
    } else {
        let p = episode_files(s.drop_last(), ep);
        if title_mentions_episode(s.last().title@, ep) { p.push(s.last()) } else { p }
    }
}

/// The files offered for an episode: with a target episode and more than one file, those
/// whose title mentions it, unless there are none; otherwise all files.
pub open spec fn filtered_subtitles(files: Seq<SubtitleSearchResult>, target: Option<Seq<char>>) -> Seq<SubtitleSearchResult> {
    match target {
        Some(ep) => if files.len() > 1 && episode_files(files, ep).len() > 0 {
            episode_files(files, ep)
        } else {
            files
        },
        None => files,
    }
}

fn mentions_episode(title: &str, ep: &[char]) -> (r: bool)
    ensures
        r == title_mentions_episode(title@, ep@),
{
    let t = chars_of(title);
    let mut padded: Vec<char> = Vec::new();
    if ep.len() == 1 && (ep[0] as u32) < 128 {
        padded.push('0');
    }
    push_all(&mut padded, ep);
    assert(padded@ == padded_episode(ep@));
    let mut upper: Vec<char> = Vec::new();
    upper.push('E');
    push_all(&mut upper, padded.as_slice());
    let mut lower: Vec<char> = Vec::new();
    lower.push('e');
    push_all(&mut lower, padded.as_slice());
    assert(upper@ =~= seq!['E'] + padded@);
    assert(lower@ =~= seq!['e'] + padded@);
    contains_chars(t.as_slice(), ep) || contains_chars(t.as_slice(), padded.as_slice()) || contains_chars(
        t.as_slice(),
        upper.as_slice(),
    ) || contains_chars(t.as_slice(), lower.as_slice())
}

impl SubtitleProvider {
    /// The files offered for the target episode (see `filtered_subtitles`).
    pub fn filter_subtitles(files_to_use: Vec<SubtitleSearchResult>, target_ep: Option<&str>) -> (r: Vec<SubtitleSearchResult>)
        ensures
            r@ == filtered_subtitles(
                files_to_use@,
                match target_ep {
                    Some(e) => Some(e@),
                    None => None,
                },
            ),
    {
        let ep = match target_ep {
            Some(e) => e,
            None => {
                return files_to_use;
            },
        };
        let n = files_to_use.len();
        if n <= 1 {
            return files_to_use;
        }
        let epc = chars_of(ep);
        let ghost orig = files_to_use@;
        // which files mention the episode
        let mut keep: Vec<bool> = Vec::new();
        let mut any = false;
        let mut k: usize = 0;
        while k < n
            invariant
                n == orig.len(),
                orig == files_to_use@,
                epc@ == ep@,
                k <= n,
                keep@.len() == k,
                forall|t: int| 0 <= t < k ==> keep@[t] == title_mentions_episode(orig[t].title@, ep@),
                any == (episode_files(orig.take(k as int), ep@).len() > 0),
            decreases n - k,
        {
            let m = mentions_episode(files_to_use[k].title.as_str(), epc.as_slice());
            assert(orig.take(k + 1).drop_last() == orig.take(k as int));
            assert(orig.take(k + 1).last() == orig[k as int]);
            keep.push(m);
            if m {
                any = true;
            }
            k += 1;
        }
        assert(orig.take(n as int) == orig);
        if !any {
            return files_to_use;
        }
        let mut rest = files_to_use;
        let mut out: Vec<SubtitleSearchResult> = Vec::new();
        let mut j: usize = 0;
        while j < n
            invariant
                n == orig.len(),
                keep@.len() == n,
                forall|t: int| 0 <= t < n ==> keep@[t] == title_mentions_episode(orig[t].title@, ep@),
                j <= n,
                rest@ == orig.skip(j as int),
                out@ == episode_files(orig.take(j as int), ep@),
            decreases n - j,
        {
            let x = rest.remove(0);
            assert(x == orig[j as int]);
            assert(orig.take(j + 1).drop_last() == orig.take(j as int));
            assert(orig.take(j + 1).last() == x);
            if keep[j] {
                out.push(x);
            }
            j += 1;
            assert(rest@ =~= orig.skip(j as int));
        }
        assert(orig.take(n as int) == orig);
        out
    }
}

// ---------------------------------------------------------------------------
// Laws of the search and of the episode filter
// ---------------------------------------------------------------------------

/// Where `insert_by_score` puts `x`: after the last element whose score is at least its own.
pub open spec fn score_slot<T>(s: Seq<(i64, T)>, x: (i64, T)) -> int
    decreases s.len(),
{
    if s.len() == 0 {
        0
    } else if s.last().0 < x.0 {
        score_slot(s.drop_last(), x)
    } else {
        s.len() as int
    }
}

proof fn lemma_score_slot<T>(s: Seq<(i64, T)>, x: (i64, T))
    ensures
        0 <= score_slot(s, x) <= s.len(),
        insert_by_score(s, x) == s.insert(score_slot(s, x), x),
        forall|t: int| score_slot(s, x) <= t < s.len() ==> (#[trigger] s[t]).0 < x.0,
        score_slot(s, x) > 0 ==> s[score_slot(s, x) - 1].0 >= x.0,
    decreases s.len(),
{
    if s.len() == 0 {
        assert(s.insert(0, x) =~= seq![x]);
    } else if s.last().0 < x.0 {
        let d = s.drop_last();
        lemma_score_slot(d, x);
        let p = score_slot(d, x);
        assert(d.insert(p, x).push(s.last()) =~= s.insert(p, x));
        assert forall|t: int| p <= t < s.len() implies (#[trigger] s[t]).0 < x.0 by {
            if t < d.len() {
                assert(s[t] == d[t]);
            }
        }
        if p > 0 {
            assert(s[p - 1] == d[p - 1]);
        }
    } else {
        assert(s.insert(s.len() as int, x) =~= s.push(x));
    }
}

/// Scores never rise along `s`.
pub open spec fn best_first<T>(s: Seq<(i64, T)>) -> bool {
    forall|i: int, j: int| 0 <= i < j < s.len() ==> (#[trigger] s[i]).0 >= (#[trigger] s[j]).0
}

/// Each score in `s` is the score of the entry beside it.
pub open spec fn scores_belong(
    s: Seq<(i64, (u64, Seq<char>, Option<Seq<char>>, Option<Seq<char>>))>,
    q: Seq<char>,
) -> bool {
    forall|k: int| 0 <= k < s.len() ==> entry_score((#[trigger] s[k]).1, q) == Some(s[k].0)
}

proof fn lemma_scored_entries_belong(es: Seq<(u64, Seq<char>, Option<Seq<char>>, Option<Seq<char>>)>, q: Seq<char>)
    ensures
        scores_belong(scored_entries(es, q), q),
    decreases es.len(),
{
    if es.len() > 0 {
        lemma_scored_entries_belong(es.drop_last(), q);
    }
}

proof fn lemma_sort_by_score(s: Seq<(i64, (u64, Seq<char>, Option<Seq<char>>, Option<Seq<char>>))>, q: Seq<char>)
    requires
        scores_belong(s, q),
    ensures
        sort_by_score(s).len() == s.len(),
        best_first(sort_by_score(s)),
        scores_belong(sort_by_score(s), q),
    decreases s.len(),
{
    if s.len() > 0 {
        let d = s.drop_last();
        assert(scores_belong(d, q)) by {
            assert forall|k: int| 0 <= k < d.len() implies entry_score((#[trigger] d[k]).1, q) == Some(d[k].0) by {
                assert(d[k] == s[k]);
            }
        }
        lemma_sort_by_score(d, q);
        let sd = sort_by_score(d);
        let x = s.last();
        lemma_score_slot(sd, x);
        let p = score_slot(sd, x);
        let r = sd.insert(p, x);
        assert(entry_score(x.1, q) == Some(x.0)) by {
            assert(s[s.len() - 1] == x);
        }
        assert forall|i: int, j: int| 0 <= i < j < r.len() implies (#[trigger] r[i]).0 >= (#[trigger] r[j]).0 by {
            if j < p {
                assert(r[i] == sd[i] && r[j] == sd[j]);
            } else if j == p {
                assert(r[i] == sd[i]);
                assert(sd[p - 1].0 >= x.0);
                if i < p - 1 {
                    assert(sd[i].0 >= sd[p - 1].0);
                }
            } else if i < p {
                assert(r[i] == sd[i] && r[j] == sd[j - 1]);
            } else if i == p {
                assert(r[j] == sd[j - 1]);
            } else {
                assert(r[i] == sd[i - 1] && r[j] == sd[j - 1]);
            }
        }
        assert forall|k: int| 0 <= k < r.len() implies entry_score((#[trigger] r[k]).1, q) == Some(r[k].0) by {
            if k < p {
                assert(r[k] == sd[k]);
            } else if k > p {
                assert(r[k] == sd[k - 1]);
            }
        }
    }
}

/// Each entry in `s` is one of `es`.
pub open spec fn drawn_from(
    s: Seq<(i64, (u64, Seq<char>, Option<Seq<char>>, Option<Seq<char>>))>,
    es: Seq<(u64, Seq<char>, Option<Seq<char>>, Option<Seq<char>>)>,
) -> bool {
    forall|k: int| 0 <= k < s.len() ==> es.contains((#[trigger] s[k]).1)
}

proof fn lemma_scored_entries_drawn(es: Seq<(u64, Seq<char>, Option<Seq<char>>, Option<Seq<char>>)>, q: Seq<char>)
    ensures
        drawn_from(scored_entries(es, q), es),
    decreases es.len(),
{
    if es.len() > 0 {
        let d = es.drop_last();
        lemma_scored_entries_drawn(d, q);
        let p = scored_entries(d, q);
        let s = scored_entries(es, q);
        assert forall|k: int| 0 <= k < s.len() implies es.contains((#[trigger] s[k]).1) by {
            if k < p.len() {
                assert(s[k] == p[k]);
                assert(d.contains(p[k].1));
                let m = choose|m: int| 0 <= m < d.len() && d[m] == p[k].1;
                assert(es[m] == d[m]);
            } else {
                assert(es[es.len() - 1] == es.last());
            }
        }
    }
}

proof fn lemma_sort_by_score_drawn(
    s: Seq<(i64, (u64, Seq<char>, Option<Seq<char>>, Option<Seq<char>>))>,
    es: Seq<(u64, Seq<char>, Option<Seq<char>>, Option<Seq<char>>)>,
)
    requires
        drawn_from(s, es),
    ensures
        drawn_from(sort_by_score(s), es),
    decreases s.len(),
{
    if s.len() > 0 {
        let d = s.drop_last();
        assert(drawn_from(d, es)) by {
            assert forall|k: int| 0 <= k < d.len() implies es.contains((#[trigger] d[k]).1) by {
                assert(d[k] == s[k]);
            }
        }
        lemma_sort_by_score_drawn(d, es);
        let sd = sort_by_score(d);
        let x = s.last();
        lemma_score_slot(sd, x);
        let p = score_slot(sd, x);
        let r = sd.insert(p, x);
        assert(es.contains(x.1)) by {
            assert(s[s.len() - 1] == x);
        }
        assert forall|k: int| 0 <= k < r.len() implies es.contains((#[trigger] r[k]).1) by {
            if k < p {
                assert(r[k] == sd[k]);
            } else if k > p {
                assert(r[k] == sd[k - 1]);
            }
        }
    }
}

/// Every entry the search offers is one of the entries searched.
pub proof fn law_fuzzy_filter_offers_known_entries(
    es: Seq<(u64, Seq<char>, Option<Seq<char>>, Option<Seq<char>>)>,
    q: Seq<char>,
    i: int,
)
    requires
        0 <= i < fuzzy_filter(es, q).len(),
    ensures
        es.contains(fuzzy_filter(es, q)[i]),
{
    if trim(q).len() == 0 {
        let n = if es.len() < 20 { es.len() as int } else { 20 };
        assert(fuzzy_filter(es, q)[i] == es[i]);
    } else {
        lemma_scored_entries_drawn(es, q);
        lemma_sort_by_score_drawn(scored_entries(es, q), es);
        lemma_scored_entries_belong(es, q);
        lemma_sort_by_score(scored_entries(es, q), q);
        let sorted = sort_by_score(scored_entries(es, q));
        assert(fuzzy_filter(es, q)[i] == sorted[i].1);
    }
}

/// An entry's score is the best score of its name, English name and Japanese name: at
/// least the score of each that matches, equal to one of them, and none when none matches.
pub proof fn law_entry_score_is_best(e: (u64, Seq<char>, Option<Seq<char>>, Option<Seq<char>>), q: Seq<char>)
    ensures
        skim_score(e.1, q) matches Some(a) ==> entry_score(e, q) matches Some(b) && b >= a,
        match e.2 {
            Some(en) => skim_score(en, q) matches Some(a) ==> entry_score(e, q) matches Some(b) && b >= a,
            None => true,
        },
        match e.3 {
            Some(jp) => skim_score(jp, q) matches Some(a) ==> entry_score(e, q) matches Some(b) && b >= a,
            None => true,
        },
        entry_score(e, q) matches Some(b) ==> skim_score(e.1, q) == Some(b) || (e.2 matches Some(en) && skim_score(en, q)
            == Some(b)) || (e.3 matches Some(jp) && skim_score(jp, q) == Some(b)),
        skim_score(e.1, q) is None && (e.2 matches Some(en) ==> skim_score(en, q) is None) && (e.3 matches Some(jp)
            ==> skim_score(jp, q) is None) ==> entry_score(e, q) is None,
{
    let a = skim_score(e.1, q);
    let b = match e.2 {
        Some(en) => merge_score(a, skim_score(en, q)),
        None => a,
    };
    if let Some(en) = e.2 {
        if let Some(x) = skim_score(en, q) {
            assert(b matches Some(y) && y >= x);
        }
    }
    if let Some(jp) = e.3 {
        if let Some(x) = skim_score(jp, q) {
            assert(entry_score(e, q) == merge_score(b, Some(x)));
        }
    }
}

proof fn lemma_scored_entries_has(es: Seq<(u64, Seq<char>, Option<Seq<char>>, Option<Seq<char>>)>, q: Seq<char>, k: int)
    requires
        0 <= k < es.len(),
        entry_score(es[k], q) is Some,
    ensures
        scored_entries(es, q).contains((entry_score(es[k], q)->0, es[k])),
    decreases es.len(),
{
    let d = es.drop_last();
    let p = scored_entries(d, q);
    let x = (entry_score(es[k], q)->0, es[k]);
    if k < d.len() {
        assert(d[k] == es[k]);
        lemma_scored_entries_has(d, q, k);
        let j = choose|j: int| 0 <= j < p.len() && p[j] == x;
        if entry_score(es.last(), q) is Some {
            let s = scored_entries(es, q);
            assert(s[j] == p[j]);
        }
    } else {
        let s = scored_entries(es, q);
        assert(es.last() == es[k]);
        assert(s[s.len() - 1] == x);
    }
}

proof fn lemma_sort_by_score_has<T>(s: Seq<(i64, T)>, x: (i64, T))
    requires
        s.contains(x),
    ensures
        sort_by_score(s).contains(x),
    decreases s.len(),
{
    let d = s.drop_last();
    let l = s.last();
    lemma_score_slot(sort_by_score(d), l);
    let sd = sort_by_score(d);
    let p = score_slot(sd, l);
    let r = sd.insert(p, l);
    if x == l {
        assert(r[p] == l);
    } else {
        let i = choose|i: int| 0 <= i < s.len() && s[i] == x;
        assert(i < d.len());
        assert(d[i] == x);
        lemma_sort_by_score_has(d, x);
        let j = choose|j: int| 0 <= j < sd.len() && sd[j] == x;
        if j < p {
            assert(r[j] == x);
        } else {
            assert(r[j + 1] == x);
        }
    }
}

/// For a query that is not blank, an entry whose name, English name or Japanese name
/// matches is offered, unless 25 entries are offered already, each scoring at least as
/// high as it does.
pub proof fn law_fuzzy_filter_offers_matches(
    es: Seq<(u64, Seq<char>, Option<Seq<char>>, Option<Seq<char>>)>,
    q: Seq<char>,
    k: int,
)
    requires
        trim(q).len() > 0,
        0 <= k < es.len(),
        entry_score(es[k], q) is Some,
    ensures
        fuzzy_filter(es, q).contains(es[k]) || (fuzzy_filter(es, q).len() == 25 && forall|j: int|
            0 <= j < 25 ==> (entry_score(#[trigger] fuzzy_filter(es, q)[j], q) matches Some(b) && b >= entry_score(
                es[k],
                q,
            )->0)),
{
    let sc = scored_entries(es, q);
    let x = (entry_score(es[k], q)->0, es[k]);
    lemma_scored_entries_has(es, q, k);
    lemma_scored_entries_belong(es, q);
    lemma_sort_by_score(sc, q);
    lemma_sort_by_score_has(sc, x);
    let sorted = sort_by_score(sc);
    let p = choose|p: int| 0 <= p < sorted.len() && sorted[p] == x;
    let f = fuzzy_filter(es, q);
    if p < 25 {
        assert(f[p] == es[k]);
    } else {
        assert forall|j: int| 0 <= j < 25 implies (entry_score(#[trigger] f[j], q) matches Some(b) && b >= x.0) by {
            assert(f[j] == sorted[j].1);
            assert(sorted[j].0 >= sorted[p].0);
        }
    }
}

/// The search offers at most 25 entries, and for a blank query the first 20 entries as
/// they come.
pub proof fn law_fuzzy_filter_bounded(es: Seq<(u64, Seq<char>, Option<Seq<char>>, Option<Seq<char>>)>, q: Seq<char>)
    ensures
        fuzzy_filter(es, q).len() <= 25,
        trim(q).len() == 0 ==> fuzzy_filter(es, q) == es.take(if es.len() < 20 { es.len() as int } else { 20 }),
{
    if trim(q).len() != 0 {
        lemma_scored_entries_belong(es, q);
        lemma_sort_by_score(scored_entries(es, q), q);
    }
}

/// For a query that is not blank, every entry offered matches it, and the entries come
/// best score first.
pub proof fn law_fuzzy_filter_best_first(
    es: Seq<(u64, Seq<char>, Option<Seq<char>>, Option<Seq<char>>)>,
    q: Seq<char>,
    i: int,
    j: int,
)
    requires
        trim(q).len() > 0,
        0 <= i < j < fuzzy_filter(es, q).len(),
    ensures
        entry_score(fuzzy_filter(es, q)[i], q) matches Some(a) && entry_score(fuzzy_filter(es, q)[j], q) matches Some(
            b,
        ) && a >= b,
{
    lemma_scored_entries_belong(es, q);
    lemma_sort_by_score(scored_entries(es, q), q);
    let sorted = sort_by_score(scored_entries(es, q));
    assert(sorted[i].0 >= sorted[j].0);
}

/// Every file in `episode_files` mentions the episode.
proof fn lemma_episode_files_mention(s: Seq<SubtitleSearchResult>, ep: Seq<char>)
    ensures
        forall|k: int|
            0 <= k < episode_files(s, ep).len() ==> title_mentions_episode(
                (#[trigger] episode_files(s, ep)[k]).title@,
                ep,
            ),
    decreases s.len(),
{
    if s.len() > 0 {
        lemma_episode_files_mention(s.drop_last(), ep);
    }
}

/// The episode filter never empties a listing that has files.
pub proof fn law_filter_subtitles_keeps_some(files: Seq<SubtitleSearchResult>, target: Option<Seq<char>>)
    ensures
        files.len() > 0 ==> filtered_subtitles(files, target).len() > 0,
{
}

/// With a target episode, the filter either keeps the whole listing or keeps only files
/// whose title mentions the episode.
pub proof fn law_filter_subtitles_mentions_episode(files: Seq<SubtitleSearchResult>, ep: Seq<char>)
    ensures
        filtered_subtitles(files, Some(ep)) == files || forall|k: int|
            0 <= k < filtered_subtitles(files, Some(ep)).len() ==> title_mentions_episode(
                (#[trigger] filtered_subtitles(files, Some(ep))[k]).title@,
                ep,
            ),
{
    lemma_episode_files_mention(files, ep);
}

/// The name of the file that caches the listing of an entry's files.
pub open spec fn entry_cache_name(id: u64) -> Seq<char> {
    "entry_"@ + decimal(id as nat) + "_files.json"@
}

/// The name of the file that caches the listing of an entry's files (see
/// `entry_cache_name`).
pub fn entry_cache_file_name(id: u64) -> (r: String)
    ensures
        r@ == entry_cache_name(id),
{
    let mut v = chars_of("entry_");
    push_padded_decimal(&mut v, id, 0);
    push_str(&mut v, "_files.json");
    string_of(v.as_slice())
}

/// Whether a cached listing is used: its age could be read and is under the time to live,
/// and it held at least one item.
pub fn should_use_cache(age_secs: Option<u64>, cached_items: usize) -> (r: bool)
    ensures
        r == (age_secs matches Some(a) && a < 30 * 86400 && cached_items > 0),
{
    match age_secs {
        Some(a) => cache_is_fresh(a) && cached_items > 0,
        None => false,
    }
}

/// The name under which a download is first saved: `temp_sub.` and the file format.
pub fn temp_download_name(file_format: &str) -> (r: String)
    ensures
        r@ == "temp_sub."@ + file_format@,
{
    let mut v = chars_of("temp_sub.");
    push_str(&mut v, file_format);
    string_of(v.as_slice())
}

/// Whether a download is an archive to unpack (its format is `zip`).
pub fn is_archive_format(file_format: &str) -> (r: bool)
    ensures
        r == (file_format@ == "zip"@),
{
    str_equal(file_format, "zip")
}

/// Whether a member of a downloaded archive, by its extension, is the subtitle to keep:
/// `ass` or `srt` (a member without a readable extension is not).
pub fn is_wanted_archive_member(ext: Option<&str>) -> (r: bool)
    ensures
        r == (ext matches Some(e) && (e@ == "ass"@ || e@ == "srt"@)),
{
    match ext {
        Some(e) => str_equal(e, "ass") || str_equal(e, "srt"),
        None => false,
    }
}

/// A member of a downloaded archive is the subtitle to keep: it has a safe (enclosed)
/// name, and its extension is `ass` or `srt`.
pub open spec fn archive_member_wanted(enclosed: bool, ext: Option<Seq<char>>) -> bool {
    enclosed && (ext matches Some(e) && (e == "ass"@ || e == "srt"@))
}

/// The member of a downloaded archive to extract, from the members in archive order, each
/// given as whether it has a safe (enclosed) name and its extension: the first one that is
/// wanted, or none.
pub fn pick_archive_member(members: &Vec<(bool, Option<String>)>) -> (r: Option<usize>)
    ensures
        match r {
            Some(i) => {
                &&& i < members@.len()
                &&& archive_member_wanted(members@[i as int].0, opt_text(members@[i as int].1))
                &&& forall|j: int|
                    0 <= j < i ==> !archive_member_wanted(#[trigger] members@[j].0, opt_text(members@[j].1))
            },
            None => forall|j: int|
                0 <= j < members@.len() ==> !archive_member_wanted(#[trigger] members@[j].0, opt_text(members@[j].1)),
        },
{
    let mut i: usize = 0;
    while i < members.len()
        invariant
            i <= members@.len(),
            forall|j: int| 0 <= j < i ==> !archive_member_wanted(#[trigger] members@[j].0, opt_text(members@[j].1)),
        decreases members@.len() - i,
    {
        let wanted = members[i].0 && match &members[i].1 {
            Some(e) => is_wanted_archive_member(Some(e.as_str())),
            None => false,
        };
        if wanted {
            return Some(i);
        }
        i += 1;
    }
    None
}

/// How long a cached listing stays fresh: thirty days, in seconds.
pub const CACHE_TTL_SECS: u64 = 2592000;

/// Whether a cache file of the given age (in seconds) is still used.
pub fn cache_is_fresh(age_secs: u64) -> (r: bool)
    ensures
        r == (age_secs < 30 * 86400),
{
    age_secs < CACHE_TTL_SECS
}

// ---------------------------------------------------------------------------
// Files of an entry
// ---------------------------------------------------------------------------

/// The format of a subtitle file by the end of its name.
pub open spec fn format_of(name: Seq<char>) -> Seq<char> {
    if has_suffix(name, ".ass"@) {
        "ass"@
    } else if has_suffix(name, ".srt"@) {
        "srt"@
    } else if has_suffix(name, ".zip"@) {
        "zip"@
    } else {
        "sub"@
    }
}

/// The search result for the file `file_name` of the entry named `entry_name`, offered at
/// the site address `rel_url`.
pub open spec fn jimaku_file(entry_name: Seq<char>, rel_url: Seq<char>, file_name: Seq<char>) -> (
    Seq<char>,
    Seq<char>,
    Option<Seq<char>>,
    Seq<char>,
    Seq<char>,
    Seq<char>,
) {
    (
        "Jimaku.cc"@,
        entry_name + " - "@ + file_name,
        None,
        "JP"@,
        "https://jimaku.cc"@ + rel_url,
        format_of(file_name),
    )
}

/// The search result for a file of `entry` (see `jimaku_file`).
pub fn jimaku_file_result(entry: &CachedJimakuEntry, rel_url: &str, file_name: &str) -> (r: SubtitleSearchResult)
    ensures
        r@ == jimaku_file(entry.name@, rel_url@, file_name@),
{
    let name = chars_of(file_name);
    let ext = if ends_with(name.as_slice(), chars_of(".ass").as_slice()) {
        "ass"
    } else if ends_with(name.as_slice(), chars_of(".srt").as_slice()) {
        "srt"
    } else if ends_with(name.as_slice(), chars_of(".zip").as_slice()) {
        "zip"
    } else {
        "sub"
    };
    let mut title = chars_of(entry.name.as_str());
    push_str(&mut title, " - ");
    push_str(&mut title, file_name);
    let mut url = chars_of("https://jimaku.cc");
    push_str(&mut url, rel_url);
    SubtitleSearchResult {
        provider: string_of(chars_of("Jimaku.cc").as_slice()),
        title: string_of(title.as_slice()),
        episode: None,
        language: string_of(chars_of("JP").as_slice()),
        download_url: string_of(url.as_slice()),
        file_format: string_of(chars_of(ext).as_slice()),
    }
}

/// The files offered on an entry page: each file link, in page order, as the result for
/// its address and its decoded link text.
pub open spec fn entry_page_files(page: Seq<char>, entry_name: Seq<char>) -> Seq<
    (Seq<char>, Seq<char>, Option<Seq<char>>, Seq<char>, Seq<char>, Seq<char>),
> {
    file_links_from(page, 0).map_values(
        |l: (Seq<char>, Seq<char>)| jimaku_file(entry_name, l.0, html_entities_decoded(l.1)),
    )
}

/// Every file an entry page offers comes from Jimaku.cc in Japanese, is downloaded from an
/// entry address on jimaku.cc, has one of the formats `ass`, `srt`, `zip` or `sub`, and is
/// titled with the entry's name first.
pub proof fn law_entry_page_files_are_jimaku_downloads(page: Seq<char>, entry_name: Seq<char>, k: int)
    requires
        0 <= k < entry_page_files(page, entry_name).len(),
    ensures
        entry_page_files(page, entry_name)[k].0 == "Jimaku.cc"@,
        entry_page_files(page, entry_name)[k].3 == "JP"@,
        has_prefix(entry_page_files(page, entry_name)[k].4, "https://jimaku.cc/entry/"@),
        ({
            let f = entry_page_files(page, entry_name)[k].5;
            f == "ass"@ || f == "srt"@ || f == "zip"@ || f == "sub"@
        }),
        has_prefix(entry_page_files(page, entry_name)[k].1, entry_name + " - "@),
{
    lemma_file_links_are_entry_downloads(page, 0);
    let l = file_links_from(page, 0)[k];
    assert(has_prefix(l.0, "/entry/"@));
    let f = entry_page_files(page, entry_name)[k];
    assert(f == jimaku_file(entry_name, l.0, html_entities_decoded(l.1)));
    reveal_strlit("https://jimaku.cc");
    reveal_strlit("/entry/");
    reveal_strlit("https://jimaku.cc/entry/");
    let url = "https://jimaku.cc"@ + l.0;
    assert(url.subrange(0, 24) =~= "https://jimaku.cc/entry/"@) by {
        assert forall|j: int| 0 <= j < 24 implies url[j] == "https://jimaku.cc/entry/"@[j] by {
            if j >= 17 {
                assert(url[j] == l.0[j - 17]);
                assert(l.0[j - 17] == l.0.subrange(0, 7)[j - 17]);
            }
        }
    }
    let title = entry_name + " - "@ + html_entities_decoded(l.1);
    assert(title.subrange(0, (entry_name + " - "@).len() as int) =~= entry_name + " - "@);
}

pub open spec fn result_views(v: Seq<SubtitleSearchResult>) -> Seq<
    (Seq<char>, Seq<char>, Option<Seq<char>>, Seq<char>, Seq<char>, Seq<char>),
> {
    v.map_values(|r: SubtitleSearchResult| r@)
}

impl SubtitleProvider {
    /// The files offered on the page of `entry` (see `entry_page_files`).
    pub fn scrape_entry_files(page: &str, entry: &CachedJimakuEntry) -> (r: Vec<SubtitleSearchResult>)
        ensures
            result_views(r@) == entry_page_files(page@, entry.name@),
    {
        let links = file_links(page);
        let ghost lv = text_pairs(links@);
        let mut out: Vec<SubtitleSearchResult> = Vec::new();
        let mut k: usize = 0;
        while k < links.len()
            invariant
                k <= links@.len(),
                lv == text_pairs(links@),
                lv == file_links_from(page@, 0),
                result_views(out@) == lv.take(k as int).map_values(
                    |l: (Seq<char>, Seq<char>)| jimaku_file(entry.name@, l.0, html_entities_decoded(l.1)),
                ),
            decreases links@.len() - k,
        {
            let name = decode_html_entities(links[k].1.as_str());
            let res = jimaku_file_result(entry, links[k].0.as_str(), name.as_str());
            let ghost before = out@;
            out.push(res);
            proof {
                assert(lv[k as int] == (links@[k as int].0@, links@[k as int].1@));
                assert(result_views(out@) =~= result_views(before).push(res@));
                assert(lv.take(k + 1) =~= lv.take(k as int).push(lv[k as int]));
                assert(lv.take(k + 1).map_values(
                    |l: (Seq<char>, Seq<char>)| jimaku_file(entry.name@, l.0, html_entities_decoded(l.1)),
                ) =~= lv.take(k as int).map_values(
                    |l: (Seq<char>, Seq<char>)| jimaku_file(entry.name@, l.0, html_entities_decoded(l.1)),
                ).push(res@));
            }
            k += 1;
        }
        assert(lv.take(links@.len() as int) == lv);
        out
    }
}

// ---------------------------------------------------------------------------
// The index
// ---------------------------------------------------------------------------

/// An entry as the index page lists it: its id, its `data-extra` text and its link text,
/// both with character references decoded.
#[derive(Debug, Clone)]
pub struct IndexLink {
    pub id: u64,
    pub extra: String,
    pub title: String,
}

impl View for IndexLink {
    type V = (u64, Seq<char>, Seq<char>);

    open spec fn view(&self) -> Self::V {
        (self.id, self.extra@, self.title@)
    }
}

/// The names that an entry's `data-extra` text holds.
#[derive(Debug, Clone)]
pub struct DataExtra {
    pub name: Option<String>,
    pub english_name: Option<String>,
    pub japanese_name: Option<String>,
}

impl View for DataExtra {
    type V = (Option<Seq<char>>, Option<Seq<char>>, Option<Seq<char>>);

    open spec fn view(&self) -> Self::V {
        (opt_text(self.name), opt_text(self.english_name), opt_text(self.japanese_name))
    }
}

/// The id an id text gives: `str::parse::<u64>` of it, 0 where that fails.
pub open spec fn index_id(digits: Seq<char>) -> u64 {
    match parse_u64_text(digits) {
        Some(v) => v as u64,
        None => 0,
    }
}

/// The entries of the index page whose id is not 0, in page order, with their texts
/// decoded.
pub open spec fn index_page_entries(raw: Seq<(Seq<char>, Seq<char>, Seq<char>)>) -> Seq<(u64, Seq<char>, Seq<char>)>
    decreases raw.len(),
{
    if raw.len() == 0 {
        Seq::empty()
    } else {
        let p = index_page_entries(raw.drop_last());
        let x = raw.last();
        if index_id(x.1) == 0 {
            p
        } else {
            p.push((index_id(x.1), html_entities_decoded(x.0), html_entities_decoded(x.2)))
        }
    }
}

/// Every entry read from the index page has an id other than 0.
pub proof fn law_index_entries_have_ids(raw: Seq<(Seq<char>, Seq<char>, Seq<char>)>)
    ensures
        forall|k: int| 0 <= k < index_page_entries(raw).len() ==> (#[trigger] index_page_entries(raw)[k]).0 != 0,
    decreases raw.len(),
{
    if raw.len() > 0 {
        law_index_entries_have_ids(raw.drop_last());
        let p = index_page_entries(raw.drop_last());
        let x = raw.last();
        if index_id(x.1) != 0 {
            let q = p.push((index_id(x.1), html_entities_decoded(x.0), html_entities_decoded(x.2)));
            assert forall|k: int| 0 <= k < q.len() implies (#[trigger] q[k]).0 != 0 by {
                if k < p.len() {
                    assert(q[k] == p[k]);
                }
            }
        }
    }
}

pub open spec fn link_views(v: Seq<IndexLink>) -> Seq<(u64, Seq<char>, Seq<char>)> {
    v.map_values(|l: IndexLink| l@)
}

/// The entry for an index link: the name from the extra data where it has one, else the
/// link text; the other names from the extra data.
pub open spec fn index_entry_of(
    link: (u64, Seq<char>, Seq<char>),
    extra: Option<(Option<Seq<char>>, Option<Seq<char>>, Option<Seq<char>>)>,
) -> (u64, Seq<char>, Option<Seq<char>>, Option<Seq<char>>) {
    match extra {
        Some(e) => (
            link.0,
            match e.0 {
                Some(n) => n,
                None => link.2,
            },
            e.1,
            e.2,
        ),
        None => (link.0, link.2, None, None),
    }
}

impl SubtitleProvider {
    /// The entries listed on the index page (see `index_page_entries`).
    pub fn parse_jimaku_index(page: &str) -> (r: Vec<IndexLink>)
        ensures
            link_views(r@) == index_page_entries(index_links_from(page@, 0)),
    {
        let raw = index_links(page);
        let ghost rv = text_triples(raw@);
        let mut out: Vec<IndexLink> = Vec::new();
        let mut k: usize = 0;
        while k < raw.len()
            invariant
                k <= raw@.len(),
                rv == text_triples(raw@),
                link_views(out@) == index_page_entries(rv.take(k as int)),
            decreases raw@.len() - k,
        {
            let digits = chars_of(raw[k].1.as_str());
            let id: u64 = match parse_u64_chars(digits.as_slice()) {
                Some(v) => v,
                None => 0,
            };
            proof {
                assert(rv[k as int] == (raw@[k as int].0@, raw@[k as int].1@, raw@[k as int].2@));
                assert(rv.take(k + 1).drop_last() =~= rv.take(k as int));
                assert(rv.take(k + 1).last() == rv[k as int]);
            }
            if id != 0 {
                let extra = decode_html_entities(raw[k].0.as_str());
                let title = decode_html_entities(raw[k].2.as_str());
                let link = IndexLink { id, extra, title };
                let ghost before = out@;
                out.push(link);
                proof {
                    assert(link_views(out@) =~= link_views(before).push(link@));
                }
            }
            k += 1;
        }
        assert(rv.take(raw@.len() as int) == rv);
        out
    }

    /// The entry for an index link and the names parsed from its extra data, if they could
    /// be (see `index_entry_of`).
    pub fn index_entry(link: &IndexLink, extra: &Option<DataExtra>) -> (r: CachedJimakuEntry)
        ensures
            r@ == index_entry_of(
                link@,
                match extra {
                    Some(e) => Some(e@),
                    None => None,
                },
            ),
    {
        match extra {
            Some(e) => CachedJimakuEntry {
                id: link.id,
                name: match &e.name {
                    Some(n) => n.clone(),
                    None => link.title.clone(),
                },
                english_name: copy_opt_string(&e.english_name),
                japanese_name: copy_opt_string(&e.japanese_name),
            },
            None => CachedJimakuEntry {
                id: link.id,
                name: link.title.clone(),
                english_name: None,
                japanese_name: None,
            },
        }
    }
}

} // verus!
