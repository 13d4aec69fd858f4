//! Command-line arguments, and resolving what the user picked in the anime search.

use crate::provider::{
    law_fuzzy_filter_offers_known_entries, entry_views, fuzzy_filter, label_of, suggestion_label, CachedJimakuEntry, SubtitleProvider, SubtitleSearchResult,
};
use crate::text::{chars_eq_ignore_ascii_case, chars_equal, chars_of, eq_ignore_ascii_case, push_str, str_equal, string_of, trim, trim_chars};
use vstd::prelude::*;

verus! {

/// What the program was asked to do.
#[derive(Debug, Clone, Copy, PartialEq, Eq)]
pub enum CliAction {
    Run,
    Help,
    Version,
}

/// An argument the program does not know.
#[derive(Debug, Clone)]
pub enum CliError {
    UnknownArgument(String),
}

impl CliError {
    /// The message shown for the error.
    pub fn message(&self) -> (r: String)
        ensures
            match self {
                CliError::UnknownArgument(a) => r@ == "Unknown argument: "@ + a@ + "\n\nRun `subsink --help` for usage."@,
            },
    {
        match self {
            CliError::UnknownArgument(a) => {
                let mut v = chars_of("Unknown argument: ");
                push_str(&mut v, a.as_str());
                push_str(&mut v, "\n\nRun `subsink --help` for usage.");
                string_of(v.as_slice())
            },
        }
    }
}

/// The action for the given arguments (without the program name): none runs the program,
/// a single `-h`/`--help` asks for help, a single `-v`/`-V`/`--version` for the version;
/// anything else is refused, naming the first argument.
pub open spec fn cli_action(args: Seq<Seq<char>>) -> Result<CliAction, Seq<char>> {
    if args.len() == 0 {
        Ok(CliAction::Run)
    } else if args.len() == 1 && (args[0] == "-h"@ || args[0] == "--help"@) {
        Ok(CliAction::Help)
    } else if args.len() == 1 && (args[0] == "-v"@ || args[0] == "-V"@ || args[0] == "--version"@) {
        Ok(CliAction::Version)
    } else {
        Err(args[0])
    }
}

/// The action for the given arguments.
pub fn parse_cli_args(args: &[String]) -> (r: Result<CliAction, CliError>)
    ensures
        match r {
            Ok(a) => cli_action(args@.map_values(|s: String| s@)) == Ok::<CliAction, Seq<char>>(a),
            Err(CliError::UnknownArgument(a)) => cli_action(args@.map_values(|s: String| s@)) == Err::<CliAction, Seq<char>>(a@),
        },
{
    let ghost views = args@.map_values(|s: String| s@);
    if args.len() == 0 {
        return Ok(CliAction::Run);
    }
    let first = args[0].as_str();
    assert(views[0] == first@);
    if args.len() == 1 {
        if str_equal(first, "-h") || str_equal(first, "--help") {
            return Ok(CliAction::Help);
        }
        if str_equal(first, "-v") || str_equal(first, "-V") || str_equal(first, "--version") {
            return Ok(CliAction::Version);
        }
    }
    Err(CliError::UnknownArgument(args[0].clone()))
}

/// The first index at or after `i` whose entry's label is `t`.
pub open spec fn first_label_from(es: Seq<(u64, Seq<char>, Option<Seq<char>>, Option<Seq<char>>)>, t: Seq<char>, i: int) -> Option<int>
    decreases es.len() - i,
{
    if i < 0 || i >= es.len() {
        None
    } else if label_of(es[i]) == t {
        Some(i)
    } else {
        first_label_from(es, t, i + 1)
    }
}

/// The text names the entry: equal to its name or English name ignoring ASCII case, or
/// equal to its Japanese name.
pub open spec fn names_entry(e: (u64, Seq<char>, Option<Seq<char>>, Option<Seq<char>>), t: Seq<char>) -> bool {
    eq_ignore_ascii_case(t, e.1) || (e.2 matches Some(en) && eq_ignore_ascii_case(t, en)) || e.3 == Some(t)
}

/// The first index at or after `i` whose entry `t` names.
pub open spec fn first_named_from(es: Seq<(u64, Seq<char>, Option<Seq<char>>, Option<Seq<char>>)>, t: Seq<char>, i: int) -> Option<int>
    decreases es.len() - i,
{
    if i < 0 || i >= es.len() {
        None
    } else if names_entry(es[i], t) {
        Some(i)
    } else {
        first_named_from(es, t, i + 1)
    }
}

/// The first index at or after `i` whose entry has the id `id`.
pub open spec fn first_id_from(es: Seq<(u64, Seq<char>, Option<Seq<char>>, Option<Seq<char>>)>, id: u64, i: int) -> Option<int>
    decreases es.len() - i,
{
    if i < 0 || i >= es.len() {
        None
    } else if es[i].0 == id {
        Some(i)
    } else {
        first_id_from(es, id, i + 1)
    }
}

/// Which entry a search text selects: none for a blank text; else the first entry whose
/// label is the trimmed text; else the first entry it names; else the first entry with the
/// id of the best fuzzy match.
pub open spec fn resolved_index(es: Seq<(u64, Seq<char>, Option<Seq<char>>, Option<Seq<char>>)>, selected: Seq<char>) -> Option<int> {
    let t = trim(selected);
    if t.len() == 0 {
        None
    } else {
        match first_label_from(es, t, 0) {
            Some(i) => Some(i),
            None => match first_named_from(es, t, 0) {
                Some(i) => Some(i),
                None => {
                    let f = fuzzy_filter(es, t);
                    if f.len() > 0 {
                        first_id_from(es, f[0].0, 0)
                    } else {
                        None
                    }
                },
            },
        }
    }
}

fn names_entry_exec(e: &CachedJimakuEntry, t: &[char]) -> (r: bool)
    ensures
        r == names_entry(e@, t@),
{
    let name = chars_of(e.name.as_str());
    if chars_eq_ignore_ascii_case(t, name.as_slice()) {
        return true;
    }
    if let Some(en) = &e.english_name {
        let env = chars_of(en.as_str());
        if chars_eq_ignore_ascii_case(t, env.as_slice()) {
            return true;
        }
    }
    match &e.japanese_name {
        Some(jp) => {
            let jv = chars_of(jp.as_str());
            chars_equal(jv.as_slice(), t)
        },
        None => false,
    }
}

/// Index of the entry that `selected` resolves to.
fn resolve_index(entries: &[CachedJimakuEntry], selected: &str) -> (r: Option<usize>)
    ensures
        match r {
            Some(i) => resolved_index(entry_views(entries@), selected@) == Some(i as int) && i < entries@.len(),
            None => resolved_index(entry_views(entries@), selected@) is None,
        },
{
    let ghost es = entry_views(entries@);
    let sc = chars_of(selected);
    let t = trim_chars(sc.as_slice());
    if t.len() == 0 {
        return None;
    }
    let n = entries.len();
    let mut i: usize = 0;
    while i < n
        invariant
            n == entries@.len(),
            es == entry_views(entries@),
            t@ == trim(selected@),
            t@.len() > 0,
            i <= n,
            first_label_from(es, t@, 0) == first_label_from(es, t@, i as int),
        decreases n - i,
    {
        let label = suggestion_label(&entries[i]);
        let lc = chars_of(label.as_str());
        assert(es[i as int] == entries@[i as int]@);
        if chars_equal(lc.as_slice(), t.as_slice()) {
            return Some(i);
        }
        i += 1;
    }
    let mut j: usize = 0;
    while j < n
        invariant
            n == entries@.len(),
            es == entry_views(entries@),
            t@ == trim(selected@),
            t@.len() > 0,
            j <= n,
            first_label_from(es, t@, 0) is None,
            first_named_from(es, t@, 0) == first_named_from(es, t@, j as int),
        decreases n - j,
    {
        assert(es[j as int] == entries@[j as int]@);
        if names_entry_exec(&entries[j], t.as_slice()) {
            return Some(j);
        }
        j += 1;
    }
    let ts = string_of(t.as_slice());
    let fuzzy_top = SubtitleProvider::fuzzy_filter_entries(entries, ts.as_str());
    if fuzzy_top.len() == 0 {
        return None;
    }
    let top_id = fuzzy_top[0].id;
    assert(entry_views(fuzzy_top@)[0] == fuzzy_top@[0]@);
    assert(ts@ == t@);
    let mut k: usize = 0;
    while k < n
        invariant
            n == entries@.len(),
            es == entry_views(entries@),
            t@ == trim(selected@),
            t@.len() > 0,
            first_label_from(es, t@, 0) is None,
            first_named_from(es, t@, 0) is None,
            fuzzy_filter(es, t@).len() > 0,
            top_id == fuzzy_filter(es, t@)[0].0,
            k <= n,
            first_id_from(es, top_id, 0) == first_id_from(es, top_id, k as int),
        decreases n - k,
    {
        assert(es[k as int] == entries@[k as int]@);
        if entries[k].id == top_id {
            return Some(k);
        }
        k += 1;
    }
    None
}

/// The entry that the text picked in the search resolves to (see `resolved_index`).
pub fn resolve_entry<'a>(entries: &'a [CachedJimakuEntry], selected: &str) -> (r: Option<&'a CachedJimakuEntry>)
    ensures
        match resolved_index(entry_views(entries@), selected@) {
            Some(i) => r matches Some(e) && *e == entries@[i],
            None => r is None,
        },
{
    match resolve_index(entries, selected) {
        Some(i) => Some(&entries[i]),
        None => None,
    }
}

proof fn lemma_first_label_from(
    es: Seq<(u64, Seq<char>, Option<Seq<char>>, Option<Seq<char>>)>,
    t: Seq<char>,
    k: int,
    i: int,
)
    requires
        0 <= k <= i < es.len(),
        label_of(es[i]) == t,
    ensures
        first_label_from(es, t, k) matches Some(j) && k <= j <= i && label_of(es[j]) == t,
    decreases i - k,
{
    if label_of(es[k]) != t {
        lemma_first_label_from(es, t, k + 1, i);
    }
}

/// Picking the label under which the search offers an entry resolves to an entry with
/// that label (the first such), provided the label has no surrounding white space.
pub proof fn law_suggestion_resolves(es: Seq<(u64, Seq<char>, Option<Seq<char>>, Option<Seq<char>>)>, i: int)
    requires
        0 <= i < es.len(),
        label_of(es[i]).len() > 0,
        trim(label_of(es[i])) == label_of(es[i]),
    ensures
        resolved_index(es, label_of(es[i])) matches Some(j) && j <= i && label_of(es[j]) == label_of(es[i]),
{
    lemma_first_label_from(es, label_of(es[i]), 0, i);
}

/// Every suggestion the search offers for a query, when picked, resolves to an entry with
/// that label (provided the label has no surrounding white space).
pub proof fn law_offered_suggestion_resolves(
    es: Seq<(u64, Seq<char>, Option<Seq<char>>, Option<Seq<char>>)>,
    q: Seq<char>,
    i: int,
)
    requires
        0 <= i < fuzzy_filter(es, q).len(),
        label_of(fuzzy_filter(es, q)[i]).len() > 0,
        trim(label_of(fuzzy_filter(es, q)[i])) == label_of(fuzzy_filter(es, q)[i]),
    ensures
        resolved_index(es, label_of(fuzzy_filter(es, q)[i])) matches Some(j) && label_of(es[j]) == label_of(
            fuzzy_filter(es, q)[i],
        ),
{
    law_fuzzy_filter_offers_known_entries(es, q, i);
    let e = fuzzy_filter(es, q)[i];
    let m = choose|m: int| 0 <= m < es.len() && es[m] == e;
    law_suggestion_resolves(es, m);
}

/// How a subtitle file is offered in the download prompt: `[language] title`.
pub fn result_label(r: &SubtitleSearchResult) -> (s: String)
    ensures
        s@ == "["@ + r.language@ + "] "@ + r.title@,
{
    let mut v = chars_of("[");
    push_str(&mut v, r.language.as_str());
    push_str(&mut v, "] ");
    push_str(&mut v, r.title.as_str());
    string_of(v.as_slice())
}

/// The name the synced subtitle is saved under beside the video: its stem, `.ja.` and
/// the downloaded file's extension (`srt` when it has none).
pub fn target_subtitle_name(video_stem: &str, sub_ext: Option<&str>) -> (s: String)
    ensures
        s@ == video_stem@ + ".ja."@ + match sub_ext {
            Some(e) => e@,
            None => "srt"@,
        },
{
    let mut v = chars_of(video_stem);
    push_str(&mut v, ".ja.");
    match sub_ext {
        Some(e) => push_str(&mut v, e),
        None => push_str(&mut v, "srt"),
    }
    string_of(v.as_slice())
}

} // verus!
