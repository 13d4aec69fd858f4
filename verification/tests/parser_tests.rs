use subsink::parser::parse_anime_filename;

#[test]
fn test_vcb_studio_parsing() {
    let p = "[VCB-Studio] Ore wo Suki nano wa Omae dake ka yo [01][Ma10p_1080p][x265_flac_aac].mkv";
    let meta = parse_anime_filename(p);
    assert_eq!(meta.title, "Ore wo Suki nano wa Omae dake ka yo");
    assert_eq!(meta.episode, Some("01".to_string()));
}

#[test]
fn dash_separated_episode() {
    let meta = parse_anime_filename("/videos/Show - 05 [1080p].mkv");
    assert_eq!(meta.raw_filename, "Show - 05 [1080p].mkv");
    assert_eq!(meta.title, "Show");
    assert_eq!(meta.episode, Some("05".to_string()));
    assert_eq!(meta.extension, "mkv");
}

#[test]
fn season_and_episode_marker() {
    let meta = parse_anime_filename("Show S02E07.mp4");
    assert_eq!(meta.episode, Some("07".to_string()));
    assert_eq!(meta.extension, "mp4");
}

#[test]
fn missing_extension_defaults_to_mkv() {
    let meta = parse_anime_filename("/x/Title 12");
    assert_eq!(meta.extension, "mkv");
    assert_eq!(meta.episode, None);
    assert_eq!(meta.title, "Title");
}

#[test]
fn title_falls_back_to_stem() {
    let meta = parse_anime_filename("[Group][1080p].mkv");
    assert_eq!(meta.title, "[Group][1080p]");
    assert_eq!(meta.episode, None);
}

#[test]
fn title_keeps_no_bracket_groups() {
    let meta = parse_anime_filename("[SubsPlease] Sousou no Frieren (Web) - 12 (1080p) [ABCD1234].mkv");
    assert_eq!(meta.title, "Sousou no Frieren");
    assert_eq!(meta.episode, Some("12".to_string()));
    let nested = parse_anime_filename("Show [a [b] c] End.mkv");
    assert!(!nested.title.contains('[') || !nested.title.contains(']'));
}

#[test]
fn unicode_digits_and_word_characters() {
    let arabic = parse_anime_filename("Show [٣].mkv");
    assert_eq!(arabic.episode, Some("٣".to_string()));
    assert_eq!(arabic.title, "Show");
    let accented = parse_anime_filename("CaféE05 - x.mkv");
    assert_eq!(accented.episode, Some("05".to_string()));
    assert_eq!(accented.title, "CaféE05 - x");
}

#[test]
fn tags_are_stripped_only_as_whole_words() {
    let meta = parse_anime_filename("[Group] Abduction - 01 [1080p].mkv");
    assert_eq!(meta.title, "Abduction");
    assert_eq!(meta.episode, Some("01".to_string()));
    assert_eq!(parse_anime_filename("Isaac 1080p.mkv").title, "Isaac");
    assert_eq!(parse_anime_filename("Show BD x265 FLAC.mkv").title, "Show");
    assert_eq!(parse_anime_filename("HevcDvd Web-DLx.mkv").title, "HevcDvd Web-DLx");
}

#[test]
fn tags_joined_by_separators_are_stripped() {
    assert_eq!(parse_anime_filename("Show_1080p_x265.mkv").title, "Show");
    assert_eq!(parse_anime_filename("Show.BD.FLAC.mkv").title, "Show..");
    assert_eq!(parse_anime_filename("Show-720p-HEVC.mkv").title, "Show");
}
