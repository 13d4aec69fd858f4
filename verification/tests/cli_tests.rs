use subsink::cli::{parse_cli_args, resolve_entry, result_label, target_subtitle_name, CliAction, CliError};
use subsink::provider::{CachedJimakuEntry, SubtitleSearchResult};

fn args(list: &[&str]) -> Vec<String> {
    list.iter().map(|s| s.to_string()).collect()
}

fn oresuki_entries() -> Vec<CachedJimakuEntry> {
    vec![
        CachedJimakuEntry {
            id: 882,
            name: "Ore wo Suki nano wa Omae dake ka yo".to_string(),
            english_name: Some("ORESUKI: Are you the only one who loves me?".to_string()),
            japanese_name: Some("俺を好きなのはお前だけかよ".to_string()),
        },
        CachedJimakuEntry {
            id: 10420,
            name: "Ore wo Suki nano wa Omae dake ka yo: Oretachi no Game Set".to_string(),
            english_name: Some(
                "ORESUKI: Are you the only one who loves me?: Our Playball / Our End Run / Our Game".to_string(),
            ),
            japanese_name: Some("俺を好きなのはお前だけかよ～俺たちのゲームセット～".to_string()),
        },
    ]
}

#[test]
fn recognizes_help_and_version_flags() {
    assert!(matches!(parse_cli_args(&["--help".to_string()]).unwrap(), CliAction::Help));
    assert!(matches!(parse_cli_args(&["-v".to_string()]).unwrap(), CliAction::Version));
    assert!(parse_cli_args(&["--unknown".to_string()]).is_err());
}

#[test]
fn resolves_exact_autocomplete_entry_with_shared_prefix() {
    let entries = oresuki_entries();
    let selected = "Ore wo Suki nano wa Omae dake ka yo: Oretachi no Game Set (俺を好きなのはお前だけかよ～俺たちのゲームセット～)";
    let resolved = resolve_entry(&entries, selected);
    assert!(resolved.is_some());
    assert_eq!(resolved.unwrap().id, 10420);
    assert_eq!(resolved.unwrap().name, "Ore wo Suki nano wa Omae dake ka yo: Oretachi no Game Set");
}

#[test]
fn resolves_fuzzy_query_fallback() {
    let entries = oresuki_entries();
    let resolved = resolve_entry(&entries, "Oretachi no Game Set");
    assert!(resolved.is_some());
    assert_eq!(resolved.unwrap().id, 10420);
}

#[test]
fn no_arguments_run_the_program() {
    assert_eq!(parse_cli_args(&[]).unwrap(), CliAction::Run);
    assert_eq!(parse_cli_args(&args(&["-h"])).unwrap(), CliAction::Help);
    assert_eq!(parse_cli_args(&args(&["-V"])).unwrap(), CliAction::Version);
    assert_eq!(parse_cli_args(&args(&["--version"])).unwrap(), CliAction::Version);
}

#[test]
fn unknown_argument_names_the_first_argument() {
    match parse_cli_args(&args(&["--help", "extra"])) {
        Err(CliError::UnknownArgument(a)) => assert_eq!(a, "--help"),
        Ok(_) => panic!("two arguments are refused"),
    }
    let err = parse_cli_args(&args(&["--unknown"])).unwrap_err();
    assert_eq!(err.message(), "Unknown argument: --unknown\n\nRun `subsink --help` for usage.");
}

#[test]
fn resolves_by_english_name_ignoring_case() {
    let entries = oresuki_entries();
    let resolved = resolve_entry(&entries, "  oresuki: are you the only one who loves me?  ");
    assert_eq!(resolved.unwrap().id, 882);
}

#[test]
fn resolves_by_japanese_name_exactly() {
    let entries = oresuki_entries();
    let resolved = resolve_entry(&entries, "俺を好きなのはお前だけかよ～俺たちのゲームセット～");
    assert_eq!(resolved.unwrap().id, 10420);
}

#[test]
fn blank_selection_resolves_to_nothing() {
    let entries = oresuki_entries();
    assert!(resolve_entry(&entries, "   ").is_none());
    assert!(resolve_entry(&entries, "").is_none());
}

#[test]
fn unmatched_selection_resolves_to_nothing() {
    let entries = oresuki_entries();
    assert!(resolve_entry(&entries, "zzqqxx").is_none());
}

#[test]
fn download_prompt_label() {
    let r = SubtitleSearchResult {
        provider: "Jimaku.cc".to_string(),
        title: "Oresuki - S01E02.srt".to_string(),
        episode: None,
        language: "JP".to_string(),
        download_url: "https://jimaku.cc/dl/2".to_string(),
        file_format: "srt".to_string(),
    };
    assert_eq!(result_label(&r), "[JP] Oresuki - S01E02.srt");
}

#[test]
fn saved_subtitle_name() {
    assert_eq!(target_subtitle_name("Oresuki 01", Some("ass")), "Oresuki 01.ja.ass");
    assert_eq!(target_subtitle_name("Oresuki 01", None), "Oresuki 01.ja.srt");
}

#[test]
fn every_offered_suggestion_resolves_to_its_entry() {
    let entries = oresuki_entries();
    for query in ["", "Ore", "Game", "oresuki"] {
        let offered = subsink::provider::SubtitleProvider::fuzzy_filter_entries(&entries, query);
        for e in &offered {
            let label = subsink::provider::suggestion_label(e);
            let resolved = resolve_entry(&entries, &label).expect("an offered label resolves");
            assert_eq!(resolved.id, e.id);
        }
    }
}
