use std::cmp::Ordering;
use subsink::natural::natural_cmp;
use subsink::scanner::{
    choice_index, cwd_scan_needed, discover_video_files, format_video_display, is_video_extension, is_video_file,
    keep_walk_entry, natural_path_cmp, same_location, VideoCandidate,
};

fn candidate(path: &str) -> VideoCandidate {
    VideoCandidate { path: path.to_string(), key: path.as_bytes().to_vec() }
}

fn paths(v: &[VideoCandidate]) -> Vec<String> {
    v.iter().map(|c| c.path.clone()).collect()
}

#[test]
fn test_is_video_extension() {
    assert!(is_video_extension("mkv"));
    assert!(is_video_extension("MKV"));
    assert!(is_video_extension("mp4"));
    assert!(is_video_extension("mov"));
    assert!(is_video_extension("ts"));
    assert!(!is_video_extension("koto"));
    assert!(!is_video_extension("srt"));
    assert!(!is_video_extension("txt"));
}

#[test]
fn test_sorts_episode_numbers_naturally() {
    let mut episodes = vec!["episode 10.mkv", "episode 02.mkv", "episode 3.mkv"];
    episodes.sort_by(|left, right| natural_cmp(left, right));
    assert_eq!(episodes, vec!["episode 02.mkv", "episode 3.mkv", "episode 10.mkv"]);
}

#[test]
fn test_format_video_display_relative() {
    let base = "/home/user/Videos";
    let cwd = "/home/user";
    let video = "/home/user/Videos/Anime/Non Non Biyori/Season 01/E01.mkv";
    let display = format_video_display(video, base, cwd, true);
    assert_eq!(display, "Anime/Non Non Biyori/Season 01/E01.mkv");

    let cwd_sub = "/home/user/Videos/Anime/Non Non Biyori/Season 01";
    let display_in_cwd = format_video_display(video, base, cwd_sub, false);
    assert_eq!(display_in_cwd, "E01.mkv");
}

#[test]
fn video_display_outside_both_directories() {
    let shown = format_video_display("/mnt/media/Show/E05.mkv", "/home/user/Videos", "/home/user", true);
    assert_eq!(shown, "Show/E05.mkv");
    assert_eq!(format_video_display("E05.mkv", "/home/user/Videos", "/home/user", true), "E05.mkv");
}

#[test]
fn more_video_extensions() {
    for ext in ["avi", "webm", "m4v", "flv", "wmv", "Mp4", "WEBM"] {
        assert!(is_video_extension(ext), "{ext}");
    }
    assert!(!is_video_extension(""));
    assert!(!is_video_extension("mkvv"));
}

#[test]
fn video_files_by_extension() {
    assert!(is_video_file("/v/Show - 01.MKV", true));
    assert!(!is_video_file("/v/Show - 01.mkv", false));
    assert!(!is_video_file("/v/Show - 01.srt", true));
    assert!(!is_video_file("/v/mkv", true));
    assert!(!is_video_file("/v/.mkv", true));
}

#[test]
fn hidden_directories_are_skipped_below_the_root() {
    assert!(keep_walk_entry(0, Some(".config")));
    assert!(!keep_walk_entry(1, Some(".cache")));
    assert!(keep_walk_entry(2, Some("Season 01")));
    assert!(keep_walk_entry(3, None));
}

#[test]
fn natural_order_compares_digit_runs_by_value() {
    assert_eq!(natural_cmp("ep2", "ep10"), Ordering::Less);
    assert_eq!(natural_cmp("ep10", "ep2"), Ordering::Greater);
    assert_eq!(natural_cmp("Ep 7", "ep 07"), Ordering::Less);
    assert_eq!(natural_cmp("Ep 7", "ep 7"), Ordering::Equal);
    assert_eq!(natural_path_cmp("/a/Show 9.mkv", "/a/Show 11.mkv"), Ordering::Less);
    assert_eq!(natural_cmp("abc", "abd"), Ordering::Less);
    assert_eq!(natural_cmp("", "a"), Ordering::Less);
}

#[test]
fn natural_order_is_antisymmetric_and_reflexive() {
    let samples = ["episode 02.mkv", "episode 2.mkv", "Episode 10.mkv", "x", "", "a01b", "A1B"];
    for a in samples {
        assert_eq!(natural_cmp(a, a), Ordering::Equal);
        for b in samples {
            assert_eq!(natural_cmp(a, b), natural_cmp(b, a).reverse());
        }
    }
}

#[test]
fn natural_order_ignores_ascii_case() {
    assert_eq!(natural_cmp("SHOW 03", "show 10"), natural_cmp("show 03", "show 10"));
    assert_eq!(natural_cmp("Alpha", "beta"), Ordering::Less);
}

#[test]
fn discovery_keeps_first_of_each_key_in_natural_order() {
    let from_videos = vec![candidate("/v/Show/ep10.mkv"), candidate("/v/Show/ep2.mkv")];
    let mut dup = candidate("/cwd/link-to-ep2.mkv");
    dup.key = b"/v/Show/ep2.mkv".to_vec();
    let from_cwd = vec![dup, candidate("/cwd/movie.mp4")];
    let found = discover_video_files(from_videos, from_cwd);
    assert_eq!(paths(&found), vec!["/cwd/movie.mp4", "/v/Show/ep2.mkv", "/v/Show/ep10.mkv"]);
}

#[test]
fn discovery_without_working_directory_finds() {
    let found = discover_video_files(vec![candidate("/v/b.mkv"), candidate("/v/a.mkv")], Vec::new());
    assert_eq!(paths(&found), vec!["/v/a.mkv", "/v/b.mkv"]);
    assert!(discover_video_files(Vec::new(), Vec::new()).is_empty());
}

#[test]
fn working_directory_scan_decision() {
    let home = Some(b"/home/user".to_vec());
    let videos = Some(b"/home/user/Videos".to_vec());
    assert!(!cwd_scan_needed(&home, &videos, &home, true));
    assert!(!cwd_scan_needed(&home, &videos, &videos, true));
    assert!(cwd_scan_needed(&home, &videos, &Some(b"/mnt/x".to_vec()), true));
    assert!(!cwd_scan_needed(&home, &videos, &Some(b"/mnt/x".to_vec()), false));
    assert!(!same_location(&None, &None));
}

#[test]
fn selection_falls_back_to_first_option() {
    let options = vec!["a".to_string(), "b".to_string(), "b".to_string()];
    assert_eq!(choice_index(&options, "b"), 1);
    assert_eq!(choice_index(&options, "zzz"), 0);
}

#[test]
fn digit_runs_compare_by_value() {
    assert_eq!(natural_cmp("ep 007 a", "ep 10 a"), Ordering::Less);
    assert_eq!(natural_cmp("ep 010", "ep 9"), Ordering::Greater);
    assert_eq!(natural_cmp("ep 000", "ep 0"), Ordering::Greater);
    assert_eq!(natural_cmp("ep 07 b", "ep 7 a"), Ordering::Greater);
    assert_eq!(natural_cmp("99999999999999999999999", "100000000000000000000000"), Ordering::Less);
}
