use subsink::provider::{
    cache_is_fresh, entry_cache_file_name, pick_archive_member, is_archive_format, is_wanted_archive_member, jimaku_file_result,
    should_use_cache, suggestion_label, temp_download_name, CachedJimakuEntry, DataExtra, SubtitleProvider,
    SubtitleSearchResult,
};

fn result(title: &str, url: &str) -> SubtitleSearchResult {
    SubtitleSearchResult {
        provider: "Jimaku.cc".to_string(),
        title: title.to_string(),
        episode: None,
        language: "JP".to_string(),
        download_url: url.to_string(),
        file_format: "srt".to_string(),
    }
}

fn entry(id: u64, name: &str, jp: Option<&str>) -> CachedJimakuEntry {
    CachedJimakuEntry { id, name: name.to_string(), english_name: None, japanese_name: jp.map(|s| s.to_string()) }
}

#[test]
fn test_filter_subtitles_matches_target_episode() {
    let files = vec![
        result("Oresuki - S01E01.srt", "https://jimaku.cc/dl/1"),
        result("Oresuki - S01E02.srt", "https://jimaku.cc/dl/2"),
    ];
    let filtered = SubtitleProvider::filter_subtitles(files.clone(), Some("02"));
    assert_eq!(filtered.len(), 1);
    assert_eq!(filtered[0].title, "Oresuki - S01E02.srt");
}

#[test]
fn test_filter_subtitles_falls_back_when_no_episode_matches() {
    let files = vec![
        result("Oresuki - OVA Part 1.srt", "https://jimaku.cc/dl/1"),
        result("Oresuki - OVA Part 2.srt", "https://jimaku.cc/dl/2"),
    ];
    let filtered = SubtitleProvider::filter_subtitles(files.clone(), Some("13"));
    assert_eq!(filtered.len(), 2);
}

#[test]
fn test_filter_subtitles_single_file_standalone_ova() {
    let files = vec![result(
        "Ore wo Suki nano wa Omae dake ka yo: Oretachi no Game Set - [Erai-raws] Oresuki - Oretachi no Game Set (Whisper AI).srt",
        "https://jimaku.cc/dl/10420",
    )];
    let filtered = SubtitleProvider::filter_subtitles(files.clone(), Some("13"));
    assert_eq!(filtered.len(), 1);
    assert_eq!(filtered[0].title, files[0].title);
}

#[test]
fn filter_pads_single_digit_episodes() {
    let files = vec![
        result("Show E03.ass", "u1"),
        result("Show E13.ass", "u2"),
        result("Show e03 v2.ass", "u3"),
    ];
    let filtered = SubtitleProvider::filter_subtitles(files.clone(), Some("3"));
    let titles: Vec<String> = filtered.iter().map(|r| r.title.clone()).collect();
    assert_eq!(titles, vec!["Show E03.ass", "Show E13.ass", "Show e03 v2.ass"]);
    let none = SubtitleProvider::filter_subtitles(files.clone(), None);
    assert_eq!(none.len(), 3);
    let only = SubtitleProvider::filter_subtitles(files.clone(), Some("13"));
    assert_eq!(only.len(), 1);
    assert_eq!(only[0].download_url, "u2");
}

#[test]
fn fuzzy_search_with_blank_query_lists_first_twenty() {
    let entries: Vec<CachedJimakuEntry> = (0..30).map(|i| entry(i, &format!("Show {i}"), None)).collect();
    let found = SubtitleProvider::fuzzy_filter_entries(&entries, "   ");
    assert_eq!(found.len(), 20);
    assert_eq!(found[0].id, 0);
    assert_eq!(found[19].id, 19);
}

#[test]
fn fuzzy_search_offers_at_most_twenty_five() {
    let entries: Vec<CachedJimakuEntry> = (0..30).map(|i| entry(i, &format!("Show {i}"), None)).collect();
    let found = SubtitleProvider::fuzzy_filter_entries(&entries, "Show");
    assert_eq!(found.len(), 25);
}

#[test]
fn fuzzy_search_drops_entries_that_do_not_match() {
    let entries = vec![
        entry(882, "Ore wo Suki nano wa Omae dake ka yo", Some("俺を好きなのはお前だけかよ")),
        entry(10420, "Ore wo Suki nano wa Omae dake ka yo: Oretachi no Game Set", None),
    ];
    let found = SubtitleProvider::fuzzy_filter_entries(&entries, "Game Set");
    assert_eq!(found.len(), 1);
    assert_eq!(found[0].id, 10420);
    assert!(SubtitleProvider::fuzzy_filter_entries(&entries, "zzqqxx").is_empty());
}

#[test]
fn fuzzy_search_puts_best_match_first() {
    let entries = vec![entry(1, "xaxxbxxxc", None), entry(2, "abc", None)];
    let found = SubtitleProvider::fuzzy_filter_entries(&entries, "abc");
    assert_eq!(found.len(), 2);
    assert_eq!(found[0].id, 2);
    assert_eq!(found[1].id, 1);
}

#[test]
fn fuzzy_search_keeps_index_order_for_equal_scores() {
    let entries = vec![entry(1, "Naruto", None), entry(2, "Naruto", None), entry(3, "Bleach", None)];
    let found = SubtitleProvider::fuzzy_filter_entries(&entries, "naruto");
    let ids: Vec<u64> = found.iter().map(|e| e.id).collect();
    assert_eq!(ids, vec![1, 2]);
}

#[test]
fn search_label_shows_japanese_name() {
    assert_eq!(suggestion_label(&entry(1, "Oresuki", Some("俺好き"))), "Oresuki (俺好き)");
    assert_eq!(suggestion_label(&entry(1, "Oresuki", None)), "Oresuki");
}

#[test]
fn file_results_from_an_entry_page() {
    let page = "<ul>\n<li><a href=\"/entry/882/download/Oresuki%2001.srt\" class=\"file\">Oresuki &amp; Co - 01.srt</a></li>\n\
<li><a href=\"/entry/882/download/pack.zip\">pack.zip</a></li>\n\
<li><a href=\"/entry/882/download/broken.ass\">broken\nname</a></li>\n\
<li><a href=\"/entry/x/download/no.ass\">no.ass</a></li>\n\
<li><a href=\"/entry/882/download/Oresuki%2002.ass\">Oresuki 02.ass</a> <a href=\"/entry/882/download/notes.txt\">notes.txt</a></li></ul>";
    let e = entry(882, "Oresuki", None);
    let files = SubtitleProvider::scrape_entry_files(page, &e);
    let titles: Vec<String> = files.iter().map(|r| r.title.clone()).collect();
    assert_eq!(
        titles,
        vec!["Oresuki - Oresuki & Co - 01.srt", "Oresuki - pack.zip", "Oresuki - Oresuki 02.ass", "Oresuki - notes.txt"]
    );
    assert_eq!(files[0].download_url, "https://jimaku.cc/entry/882/download/Oresuki%2001.srt");
    assert_eq!(files[0].file_format, "srt");
    assert_eq!(files[1].file_format, "zip");
    assert_eq!(files[2].file_format, "ass");
    assert_eq!(files[3].file_format, "sub");
    assert_eq!(files[0].provider, "Jimaku.cc");
    assert_eq!(files[0].language, "JP");
    assert_eq!(files[0].episode, None);
}

#[test]
fn file_result_fields() {
    let e = entry(5, "Show", None);
    let r = jimaku_file_result(&e, "/entry/5/download/a.ass", "a.ass");
    assert_eq!(r.title, "Show - a.ass");
    assert_eq!(r.download_url, "https://jimaku.cc/entry/5/download/a.ass");
    assert_eq!(r.file_format, "ass");
}

#[test]
fn entries_from_the_index_page() {
    let page = "<div class=\"entry\" data-extra=\"{&quot;name&quot;:&quot;Oresuki&quot;,&quot;japanese_name&quot;:&quot;俺好き&quot;}\">\n   <a href=\"/entry/882\" class=\"t\">Ore wo Suki &amp; Co</a></div>\
<div class=\"entry\" data-extra=\"x\"><a href=\"/entry/0\">Zero</a></div>\
<div class=\"entry\" data-extra=\"y\"><a href=\"/entry/99999999999999999999\">Too big</a></div>\
<div class=\"entry\" data-extra=\"z\">\t<a href=\"/entry/7\">Seven</a></div>";
    let links = SubtitleProvider::parse_jimaku_index(page);
    assert_eq!(links.len(), 2);
    assert_eq!(links[0].id, 882);
    assert_eq!(links[0].extra, "{\"name\":\"Oresuki\",\"japanese_name\":\"俺好き\"}");
    assert_eq!(links[0].title, "Ore wo Suki & Co");
    assert_eq!(links[1].id, 7);
    assert_eq!(links[1].title, "Seven");

    let extra = Some(DataExtra { name: Some("Oresuki".to_string()), english_name: None, japanese_name: Some("俺好き".to_string()) });
    let e = SubtitleProvider::index_entry(&links[0], &extra);
    assert_eq!(e.id, 882);
    assert_eq!(e.name, "Oresuki");
    assert_eq!(e.japanese_name.as_deref(), Some("俺好き"));
    let plain = SubtitleProvider::index_entry(&links[1], &None);
    assert_eq!(plain.name, "Seven");
    assert_eq!(plain.english_name, None);
    let unnamed = Some(DataExtra { name: None, english_name: Some("Seven EN".to_string()), japanese_name: None });
    let e2 = SubtitleProvider::index_entry(&links[1], &unnamed);
    assert_eq!(e2.name, "Seven");
    assert_eq!(e2.english_name.as_deref(), Some("Seven EN"));
}

#[test]
fn cache_and_download_names() {
    assert_eq!(entry_cache_file_name(882), "entry_882_files.json");
    assert_eq!(entry_cache_file_name(0), "entry_0_files.json");
    assert_eq!(temp_download_name("zip"), "temp_sub.zip");
    assert!(is_archive_format("zip"));
    assert!(!is_archive_format("srt"));
    assert!(is_wanted_archive_member(Some("ass")));
    assert!(is_wanted_archive_member(Some("srt")));
    assert!(!is_wanted_archive_member(Some("txt")));
    assert!(!is_wanted_archive_member(None));
}

#[test]
fn cache_freshness() {
    assert!(cache_is_fresh(0));
    assert!(cache_is_fresh(30 * 86400 - 1));
    assert!(!cache_is_fresh(30 * 86400));
    assert!(should_use_cache(Some(10), 3));
    assert!(!should_use_cache(Some(10), 0));
    assert!(!should_use_cache(None, 3));
    assert!(!should_use_cache(Some(30 * 86400), 3));
}

#[test]
fn archive_member_picked_is_first_safe_subtitle() {
    let members = vec![
        (true, Some("txt".to_string())),
        (false, Some("srt".to_string())),
        (true, None),
        (true, Some("ass".to_string())),
        (true, Some("srt".to_string())),
    ];
    assert_eq!(pick_archive_member(&members), Some(3));
    assert_eq!(pick_archive_member(&members[..3].to_vec()), None);
    assert_eq!(pick_archive_member(&Vec::new()), None);
}
