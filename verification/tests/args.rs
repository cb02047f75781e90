//! The command line, finding programs, and the smaller commands.
use lumen_play::args::{
    command, flag, index_path, missing_root, passthrough, positional, reindex_root, run_options,
    serve_endpoint, serve_root, value, verify_limits, verify_root, Command, USAGE,
};
use lumen_play::ffmpegbin;
use lumen_play::library_watch::{
    start_failed, watch_failed, watching, LibraryWatch, Phase, Wait, WatchAction, WatchEvent,
    POST_RESCAN_QUIET_PERIOD, WATCHER_DEBOUNCE,
};
use lumen_play::machine::{choose_program, home_dir, Machine};
use lumen_play::mpvbin;
use lumen_play::reindex::{default_index_path, needs_review, summarize as index_line, ReindexReport};
use lumen_play::scan::{classify, ParsedName};
use lumen_play::verify::{format_since, reverify_after_secs, summarize, VerifyReport};

fn argv(a: &[&str]) -> Vec<String> {
    a.iter().map(|s| (*s).to_string()).collect()
}

#[test]
fn paths_are_separated_from_flags_and_their_values() {
    let a = argv(&["/media/films", "--seconds", "20", "--shuffle", "/media/tv"]);
    assert_eq!(positional(&a), vec!["/media/films", "/media/tv"]);
    assert_eq!(value(&a, "--seconds").as_deref(), Some("20"));
    assert!(flag(&a, "--shuffle"));
    assert!(!flag(&a, "--paused"));
}

#[test]
fn a_flag_value_is_never_mistaken_for_a_path() {
    let a = argv(&["--limit", "20", "/media"]);
    assert_eq!(positional(&a), vec!["/media"]);
}

#[test]
fn everything_after_a_bare_dash_dash_goes_to_mpv() {
    let a = argv(&["/media", "--", "--vo=x11", "--gpu-api=vulkan"]);
    assert_eq!(passthrough(&a), vec!["--vo=x11", "--gpu-api=vulkan"]);
    assert_eq!(positional(&a), vec!["/media"]);
    let b = argv(&["/media", "--", "--shuffle"]);
    assert!(!flag(&b, "--shuffle"));
    assert_eq!(value(&b, "--vo"), None);
}

#[test]
fn a_path_after_the_separator_is_left_to_mpv() {
    let a = argv(&["/media", "--", "--sub-file", "/subs/a.srt"]);
    assert_eq!(positional(&a), vec!["/media"]);
    assert_eq!(passthrough(&a).len(), 2);
}

#[test]
fn a_missing_value_is_none_rather_than_a_panic() {
    let a = argv(&["--limit"]);
    assert_eq!(value(&a, "--limit"), None);
    assert!(positional(&a).is_empty());
    assert_eq!(value(&argv(&[]), "--limit"), None);
}

#[test]
fn no_paths_is_an_actionable_error() {
    let err = run_options(Command::Scan, &argv(&["--shuffle"])).unwrap_err();
    assert!(err.contains("at least one file or folder"), "{err}");
}

#[test]
fn options_are_taken_from_the_arguments() {
    let a = argv(&[
        "/m", "--limit", "5", "--depth", "x", "--windowed", "--hwdec", "no", "--json", "/o.json",
        "--", "-v",
    ]);
    let o = run_options(Command::Test, &a).unwrap();
    assert_eq!(o.roots, vec!["/m"]);
    assert_eq!((o.scan.limit, o.scan.max_depth), (Some(5), None), "what is no number is ignored");
    assert_eq!(o.play.seconds_each, Some(20), "a test looks briefly");
    assert_eq!(o.play.hwdec, "no");
    assert!(!o.play.fullscreen && !o.play.shuffle && !o.identify);
    assert_eq!(o.play.extra_args, vec!["-v"]);
    assert_eq!(o.json.as_deref(), Some("/o.json"));
    let play = run_options(Command::Play, &argv(&["/m"])).unwrap();
    assert_eq!(play.play.seconds_each, None);
    assert_eq!(play.play.hwdec, "auto-safe");
    let some = run_options(Command::Test, &argv(&["/m", "--seconds", "7"])).unwrap();
    assert_eq!(some.play.seconds_each, Some(7));
}

#[test]
fn commands_are_told_apart() {
    assert_eq!(command(&argv(&["scan", "x"])), Command::Scan);
    assert_eq!(command(&argv(&["-h"])), Command::Help);
    assert_eq!(command(&argv(&["--version"])), Command::Version);
    assert_eq!(command(&argv(&["nonsense"])), Command::Unknown);
    assert_eq!(command(&argv(&[])), Command::Unknown);
    assert!(USAGE.starts_with("lumen — media library player"));
    assert!(USAGE.ends_with("2 usage or setup error."));
}

#[test]
fn the_server_is_told_what_to_serve_and_where_to_listen() {
    let a = argv(&["--port", "80", "/lib", "--bind", "127.0.0.1"]);
    assert_eq!(serve_root(&a), Ok("/lib".to_string()));
    assert_eq!(serve_endpoint(&a), Ok((80, "127.0.0.1".to_string())));
    let err = serve_root(&argv(&["--port", "80"])).unwrap_err();
    assert!(err.starts_with("usage: lumen serve"), "{err}");
    assert_eq!(serve_endpoint(&argv(&["/lib"])), Ok((7890, "0.0.0.0".to_string())));
    assert_eq!(
        serve_endpoint(&argv(&["/lib", "--port", "70000"])),
        Err("--port must be a number, got \"70000\"".to_string())
    );
    assert_eq!(missing_root("/x"), "/x does not exist");
}

#[test]
fn the_index_commands_take_their_arguments() {
    let a = argv(&["/lib", "--index", "/db", "--budget", "9"]);
    assert_eq!(reindex_root(&a), Ok("/lib".to_string()));
    assert_eq!(verify_root(&a), Ok("/lib".to_string()));
    assert_eq!(index_path(&a, "/lib"), "/db");
    assert_eq!(index_path(&argv(&["/lib"]), "/lib"), "/lib/.lumen-index");
    assert_eq!(verify_limits(&a), Ok((30, 9)));
    assert_eq!(verify_limits(&argv(&["/lib"])), Ok((30, 8 * 1024 * 1024 * 1024)));
    assert_eq!(
        verify_limits(&argv(&["--reverify-days", "never"])),
        Err("--reverify-days must be a number, got \"never\"".to_string())
    );
    assert_eq!(
        verify_limits(&argv(&["--budget", "-1"])),
        Err("--budget must be a number of bytes, got \"-1\"".to_string())
    );
    assert!(reindex_root(&argv(&[])).unwrap_err().starts_with("usage: lumen reindex"));
    assert!(verify_root(&argv(&["--x"])).unwrap_err().starts_with("usage: lumen verify"));
}

fn windows() -> Machine {
    Machine::Windows { bases: vec![r"C:\Local".to_string()] }
}

#[test]
fn a_bundled_mpv_is_preferred_over_whatever_is_installed() {
    let list = mpvbin::candidates(None, Some("/opt/lumen"), Some("/home/u"), &Machine::Unix);
    let beside = list.iter().position(|p| p == "/opt/lumen/mpv").expect("beside-exe");
    let system = list
        .iter()
        .position(|p| p.starts_with("/usr") || p.starts_with("C:"))
        .unwrap_or(usize::MAX);
    assert!(beside < system, "bundled must come first: {list:?}");
}

#[test]
fn mpvbin_the_bundle_layouts_a_release_zip_might_use_are_all_searched() {
    let list = mpvbin::candidates(None, Some("/opt/lumen"), None, &Machine::Unix);
    for expected in ["/opt/lumen/mpv", "/opt/lumen/mpv/mpv", "/opt/lumen/mpv/bin/mpv"] {
        assert!(list.iter().any(|p| p == expected), "{expected:?} missing from {list:?}");
    }
}

#[test]
fn mpvbin_an_explicit_override_beats_everything() {
    let list =
        mpvbin::candidates(Some("/custom/mpv"), Some("/opt/lumen"), None, &Machine::Unix);
    assert_eq!(list.first(), Some(&"/custom/mpv".to_string()));
}

#[test]
fn mpvbin_the_search_never_returns_an_empty_list() {
    assert!(!mpvbin::candidates(None, None, None, &Machine::Unix).is_empty());
    assert!(!mpvbin::candidates(None, None, None, &windows()).is_empty());
}

#[test]
fn mpvbin_the_executable_name_matches_the_platform() {
    assert_eq!(mpvbin::MPV_EXE, "mpv");
    assert_eq!(mpvbin::MPV_EXE_WINDOWS, "mpv.exe");
    assert_eq!(mpvbin::exe_name(&windows()), "mpv.exe");
    assert_eq!(mpvbin::exe_name(&Machine::Unix), "mpv");
}

#[test]
fn mpv_is_searched_for_where_windows_keeps_programs() {
    let list = mpvbin::candidates(None, None, Some(r"C:\Users\u"), &windows());
    assert_eq!(
        list,
        vec![
            r"C:\Local\Programs\mpv\mpv.exe",
            r"C:\Local\mpv\mpv.exe",
            r"C:\Local\mpv.net\mpv.exe",
            r"C:\Users\u\scoop\apps\mpv\current\mpv.exe",
            r"C:\Users\u\scoop\shims\mpv.exe",
            r"C:\ProgramData\chocolatey\bin\mpv.exe",
        ]
    );
}

#[test]
fn duplicate_entries_are_collapsed_but_order_is_kept() {
    let parsed = mpvbin::parse_list(
        "Available:\n  d3d11va (h264)\n  d3d11va (hevc)\n  vulkan (av1)\n  nvdec (h264)\n",
    );
    assert_eq!(parsed, vec!["d3d11va", "vulkan", "nvdec"]);
    assert_eq!(mpvbin::parse_list("Header\n\n  --flag\n x y\n"), vec!["x"]);
    assert!(mpvbin::parse_list("").is_empty());
    assert_eq!(mpvbin::version_line("  mpv 0.38.0 \nmore\n"), Some("mpv 0.38.0".to_string()));
    assert_eq!(mpvbin::version_line("\nmore"), None);
}

#[test]
fn mpvbin_the_install_hint_names_the_override_so_nothing_has_to_be_moved() {
    for w in [false, true] {
        assert!(mpvbin::install_hint(w).contains("LUMEN_MPV"), "{}", mpvbin::install_hint(w));
    }
}

#[test]
fn a_bundled_ffmpeg_is_preferred_over_whatever_is_installed() {
    let list = ffmpegbin::candidates(None, Some("/opt/lumen"), Some("/home/u"), &Machine::Unix);
    let beside = list.iter().position(|p| p == "/opt/lumen/ffmpeg").expect("beside-exe");
    let system = list
        .iter()
        .position(|p| p.starts_with("/usr") || p.starts_with("C:"))
        .unwrap_or(usize::MAX);
    assert!(beside < system, "bundled must come first: {list:?}");
}

#[test]
fn ffmpegbin_the_bundle_layouts_a_release_zip_might_use_are_all_searched() {
    let list = ffmpegbin::candidates(None, Some("/opt/lumen"), None, &Machine::Unix);
    for expected in ["/opt/lumen/ffmpeg", "/opt/lumen/ffmpeg/ffmpeg", "/opt/lumen/ffmpeg/bin/ffmpeg"]
    {
        assert!(list.iter().any(|p| p == expected), "{expected:?} missing from {list:?}");
    }
}

#[test]
fn ffmpegbin_an_explicit_override_beats_everything() {
    let list =
        ffmpegbin::candidates(Some("/custom/ffmpeg"), Some("/opt/lumen"), None, &Machine::Unix);
    assert_eq!(list.first(), Some(&"/custom/ffmpeg".to_string()));
}

#[test]
fn ffmpegbin_the_search_never_returns_an_empty_list() {
    assert!(!ffmpegbin::candidates(None, None, None, &Machine::Unix).is_empty());
}

#[test]
fn ffmpegbin_the_executable_name_matches_the_platform() {
    assert_eq!(ffmpegbin::FFMPEG_EXE, "ffmpeg");
    assert_eq!(ffmpegbin::FFMPEG_EXE_WINDOWS, "ffmpeg.exe");
    assert_eq!(ffmpegbin::exe_name(&windows()), "ffmpeg.exe");
}

#[test]
fn ffmpegbin_the_install_hint_names_the_override_so_nothing_has_to_be_moved() {
    for w in [false, true] {
        let hint = ffmpegbin::install_hint(w);
        assert!(hint.contains("LUMEN_FFMPEG"), "{hint}");
    }
}

#[test]
fn the_install_hint_is_honest_that_direct_playback_still_works() {
    for w in [false, true] {
        assert!(ffmpegbin::install_hint(w).contains("/stream/"), "{}", ffmpegbin::install_hint(w));
    }
}

#[test]
fn the_first_program_that_is_there_is_taken() {
    let list = argv(&["/a", "/b"]);
    assert_eq!(choose_program(&list, &vec![false, true], true, "mpv"), Some("/b".to_string()));
    assert_eq!(choose_program(&list, &vec![false, false], true, "mpv"), Some("mpv".to_string()));
    assert_eq!(choose_program(&list, &vec![false, false], false, "mpv"), None);
    assert_eq!(home_dir(Some("/home/u"), Some("C:\\u")), Some("/home/u".to_string()));
    assert_eq!(home_dir(None, Some("C:\\u")), Some("C:\\u".to_string()));
    assert_eq!(home_dir(Some(""), Some("C:\\u")), None, "an empty one is none");
}

#[test]
fn summarize_names_the_mismatched_path_and_the_read_failure_reason() {
    let report = VerifyReport {
        confirmed: 1,
        baseline_established: 0,
        mismatched: vec![("/lib/broken.mkv".into(), 0)],
        read_failed: vec![("/lib/gone.mkv".into(), "not found".into())],
        bytes_read: 12345,
        skipped_by_budget: 0,
    };
    let s = summarize(&report, 10 * 86_400);
    assert!(s.contains("/lib/broken.mkv"), "{s}");
    assert!(s.contains("/lib/gone.mkv"), "{s}");
    assert!(s.contains("not found"), "{s}");
    assert!(s.contains("1 MISMATCH:"), "{s}");
    assert!(s.contains("(10 days ago)"), "{s}");
    assert!(report.found_a_problem());
    assert_eq!(report.exit_status(), 1);
}

#[test]
fn ages_are_told_in_days() {
    assert_eq!(format_since(100, 200), "less than a day ago");
    assert_eq!(format_since(0, 86_400), "1 day ago");
    assert_eq!(format_since(0, 3 * 86_400), "3 days ago");
    assert_eq!(format_since(50, 10), "unix time 50");
    assert_eq!(reverify_after_secs(2), 172_800);
    assert_eq!(reverify_after_secs(u64::MAX), u64::MAX);
}

#[test]
fn a_pass_over_the_index_is_summed_up() {
    let r =
        ReindexReport { new: 1, modified: 2, moved: 3, tombstoned: 4, unchanged: 5, failed: 0 };
    assert_eq!(
        index_line(7, 15, &r),
        "index v7: 15 files (1 new, 2 modified, 3 moved, 4 tombstoned, 5 unchanged)"
    );
    assert!(index_line(7, 15, &ReindexReport { failed: 2, ..r }).ends_with(", 2 need review)"));
    assert_eq!(default_index_path("/lib"), "/lib/.lumen-index");
    let parsed =
        ParsedName { title: String::new(), year: None, episode: None, part: None, is_sample: false };
    let f = classify("/lib/x.mkv", 0, parsed, &vec![]);
    let why = needs_review(&f).unwrap();
    assert!(why.contains("; "), "{why}");
}

#[test]
fn a_burst_of_changes_leads_to_one_rescan() {
    let mut w = LibraryWatch::new("library watcher");
    let d = i128::from(WATCHER_DEBOUNCE);
    assert_eq!(w.wait(0), Wait::Forever);
    assert!(matches!(w.on_event(WatchEvent::Access, 1), WatchAction::Nothing));
    assert_eq!(w.phase, Phase::Idle, "reading is no change");
    assert!(matches!(w.on_event(WatchEvent::Change, 10), WatchAction::Nothing));
    assert_eq!(w.wait(10), Wait::AtMost(WATCHER_DEBOUNCE as u128));
    assert!(matches!(w.on_event(WatchEvent::Change, 500), WatchAction::Nothing));
    assert!(matches!(w.on_event(WatchEvent::Access, 600), WatchAction::Nothing));
    assert_eq!(w.phase, Phase::Settling { deadline: 500 + d }, "reading puts nothing off");
    match w.on_event(WatchEvent::Error("lost".into()), 700) {
        WatchAction::Log(line) => assert_eq!(line, "library watcher: event error: lost"),
        other => panic!("{other:?}"),
    }
    assert_eq!(w.wait(500 + d), Wait::Over);
    assert!(matches!(w.on_event(WatchEvent::Timeout, 500 + d), WatchAction::Rescan));
    w.rescanned(1000 + d);
    assert!(matches!(w.on_event(WatchEvent::Change, 1001 + d), WatchAction::Nothing));
    assert_eq!(
        w.phase,
        Phase::Quiet { until: 1000 + d + i128::from(POST_RESCAN_QUIET_PERIOD) },
        "a rescan never leads to itself"
    );
    assert!(matches!(w.on_event(WatchEvent::Timeout, 3 * d), WatchAction::Nothing));
    assert_eq!(w.phase, Phase::Idle);
    assert!(matches!(w.on_event(WatchEvent::Disconnected, 4 * d), WatchAction::Stop(_)));
    assert_eq!(w.phase, Phase::Closed);
}

#[test]
fn the_watcher_says_what_it_does() {
    assert_eq!(watching("w", "/lib"), "w: watching /lib for library changes");
    assert!(start_failed("w", "no").contains("could not start the w (no)"));
    assert!(watch_failed("w", "/lib", "no").contains("could not watch /lib for changes (no)"));
}

#[test]
fn a_bare_drive_takes_no_separator() {
    let windows = Machine::Windows { bases: vec![] };
    assert_eq!(windows.enter("C:", "mpv.exe"), "C:mpv.exe");
    assert_eq!(windows.enter(r"C:\", "mpv.exe"), r"C:\mpv.exe");
    assert_eq!(windows.enter(r"C:\x", "mpv.exe"), r"C:\x\mpv.exe");
    assert_eq!(Machine::Unix.enter("C:", "mpv"), "C:/mpv");
}
