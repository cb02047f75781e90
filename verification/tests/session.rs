//! A session: the player's arguments, and what its events come to.
use lumen_play::json::{parse, Value};
use lumen_play::measure::Measure;
use lumen_play::scan::{MediaKind, ParsedName, Scan, ScannedFile};
use lumen_play::session::{
    count_tracks, kind_of_event, mpv_args, playlist_text, FileResult, Outcome, PlayOptions,
    Properties, Session, SessionEvent, SessionReport, TrackCounts,
};

fn whole(n: u64) -> Measure {
    Measure::Finite { negative: false, mantissa: n, exponent: 0 }
}

#[test]
fn the_arguments_keep_a_broken_file_from_ending_the_run() {
    let args = mpv_args("/tmp/pl.txt", "/tmp/s.sock", &PlayOptions::new());
    let joined = args.join(" ");
    assert!(joined.contains("--keep-open=no"), "must advance past a file it cannot open");
    assert!(joined.contains("--idle=yes"), "must not exit before results are collected");
    assert!(joined.contains("--force-window=yes"), "a failing file must be visibly attempted");
}

#[test]
fn the_arguments_pick_up_sidecar_subtitles_and_audio() {
    let args = mpv_args("/tmp/pl.txt", "/tmp/s.sock", &PlayOptions::new());
    let joined = args.join(" ");
    assert!(joined.contains("--sub-auto=fuzzy"));
    assert!(joined.contains("--audio-file-auto=fuzzy"));
}

#[test]
fn the_video_output_is_gpu_next_unless_overridden() {
    let default = mpv_args("/p", "/s", &PlayOptions::new());
    assert!(default.iter().any(|a| a == "--vo=gpu-next"));
    let overridden =
        mpv_args("/p", "/s", &PlayOptions { vo: Some("gpu".into()), ..PlayOptions::new() });
    assert!(overridden.iter().any(|a| a == "--vo=gpu"));
    assert!(!overridden.iter().any(|a| a == "--vo=gpu-next"));
}

#[test]
fn extra_arguments_come_last_so_they_win() {
    let opts = PlayOptions { extra_args: vec!["--vo=x11".into()], ..PlayOptions::new() };
    let args = mpv_args("/p", "/s", &opts);
    let vo_positions: Vec<usize> = args
        .iter()
        .enumerate()
        .filter(|(_, a)| a.starts_with("--vo="))
        .map(|(i, _)| i)
        .collect();
    assert_eq!(args[*vo_positions.last().unwrap()], "--vo=x11");
}

#[test]
fn track_lists_are_counted_by_type() {
    let list = parse(
        r#"[{"type":"video"},{"type":"audio"},{"type":"audio"},
            {"type":"sub"},{"type":"sub"},{"type":"sub"}]"#,
    )
    .unwrap();
    assert_eq!(count_tracks(&list), TrackCounts { video: 1, audio: 2, subtitle: 3 });
    assert_eq!(count_tracks(&parse("[]").unwrap()), TrackCounts::default());
}

fn dummy_file() -> ScannedFile {
    ScannedFile {
        path: "/a.mkv".into(),
        size: 1,
        extension: Some("mkv".into()),
        kind: MediaKind::Video,
        container: None,
        confidence: None,
        evidence: None,
        extension_mismatch: false,
        unidentified: false,
        parsed: ParsedName {
            title: "a".into(),
            year: None,
            episode: None,
            part: None,
            is_sample: false,
        },
    }
}

fn blank() -> FileResult {
    FileResult::new(&dummy_file())
}

#[test]
fn software_decoding_is_only_flagged_for_files_that_actually_played() {
    let base = FileResult {
        path: "/a.mkv".into(),
        label: "a".into(),
        outcome: Outcome::Played,
        hwdec: Some("no".into()),
        ..FileResult::new(&dummy_file())
    };
    assert!(base.software_decoded());
    let hw = FileResult { hwdec: Some("vaapi".into()), ..base.clone() };
    assert!(!hw.software_decoded());
    let failed = FileResult { outcome: Outcome::Failed("x".into()), ..base.clone() };
    assert!(!failed.software_decoded());
}

#[test]
fn a_playlist_is_written_one_path_per_line_in_order() {
    let a = ScannedFile { path: "/m/b.mkv".into(), ..dummy_file() };
    let b = ScannedFile { path: "/m/a.mkv".into(), ..dummy_file() };
    let text = playlist_text(&vec![&a, &b]);
    assert_eq!(
        text.lines().collect::<Vec<_>>(),
        vec!["/m/b.mkv", "/m/a.mkv"],
        "order is preserved"
    );
}

#[test]
fn a_path_containing_a_newline_is_skipped_rather_than_corrupting_the_playlist() {
    let bad = ScannedFile { path: "/m/we\nird.mkv".into(), ..dummy_file() };
    let good = ScannedFile { path: "/m/fine.mkv".into(), ..dummy_file() };
    let text = playlist_text(&vec![&bad, &good]);
    assert_eq!(text.lines().collect::<Vec<_>>(), vec!["/m/fine.mkv"]);
}

#[test]
fn an_empty_scan_is_an_error_naming_the_cause() {
    let err = Session::start(&Scan::default(), &vec![], None).err().unwrap();
    assert!(err.contains("no media files"), "{err}");
}

#[test]
fn session_hdr_is_decided_by_the_transfer_function_not_the_primaries() {
    let base = FileResult { outcome: Outcome::Played, ..blank() };
    assert!(FileResult { gamma: Some("pq".into()), ..base.clone() }.is_hdr());
    assert!(FileResult { gamma: Some("hlg".into()), ..base.clone() }.is_hdr());
    assert!(
        !FileResult {
            gamma: Some("bt.1886".into()),
            primaries: Some("bt.2020".into()),
            ..base.clone()
        }
        .is_hdr(),
        "wide-gamut SDR is not HDR"
    );
    assert!(!FileResult { gamma: None, ..base }.is_hdr(), "unknown is not HDR");
}

#[test]
fn an_unseekable_file_is_only_flagged_when_it_is_long_enough_to_matter() {
    let long = FileResult {
        outcome: Outcome::Played,
        seekable: Some(false),
        duration: Some(whole(7200)),
        ..blank()
    };
    assert!(long.unseekable());
    assert!(!FileResult { duration: Some(whole(20)), ..long.clone() }.unseekable());
    assert!(!FileResult { seekable: Some(true), ..long.clone() }.unseekable());
    assert!(!FileResult { outcome: Outcome::Failed("x".into()), ..long }.unseekable());
}

#[test]
fn outcomes_distinguish_failure_from_never_getting_there() {
    assert!(Outcome::Failed("x".into()).is_failure());
    assert!(!Outcome::NotReached.is_failure());
    assert!(!Outcome::Played.is_failure());
}

fn two_files() -> Scan {
    let mut s = Scan::default();
    s.files.push(ScannedFile { path: "/m/a.mkv".into(), ..dummy_file() });
    s.files.push(ScannedFile { path: "/m/b.mkv".into(), ..dummy_file() });
    s
}

fn properties() -> Properties {
    Properties {
        file_format: Some("matroska,webm".into()),
        video_codec: Some("hevc".into()),
        audio_codec: None,
        width: Some(whole(3840)),
        height: Some(whole(2160)),
        container_fps: None,
        estimated_fps: Some(whole(24)),
        duration: Some(whole(7200)),
        hwdec: Some("no".into()),
        pixel_format: None,
        primaries: None,
        gamma: None,
        colormatrix: None,
        seekable: Some(true),
        audio_channels: None,
        track_counts: None,
        tracks: vec![],
    }
}

#[test]
fn a_session_follows_the_players_events() {
    let mut s = Session::start(&two_files(), &vec![0, 1], Some(20)).unwrap();
    s.on_start_file(Some("/m/a.mkv"));
    assert!(!s.budget_spent(19_999_999_999));
    assert!(s.budget_spent(20_000_000_000));
    assert_eq!(s.on_file_loaded(properties(), 5, 7), Some(0));
    let end = parse(r#"{"event":"end-file","reason":"stop"}"#).unwrap();
    assert_eq!(s.on_end_file(&end, whole(20), 9, 8), None, "a stop is no failure");
    s.on_start_file(Some("/m/b.mkv"));
    let bad = parse(r#"{"event":"end-file","reason":"error","file_error":"no such codec"}"#).unwrap();
    assert_eq!(s.on_end_file(&bad, whole(0), 9, 8), Some(1));
    s.on_exit();
    let rep = s.finish(Some("mpv 0.38".into()), None, whole(21));
    assert_eq!(rep.results[0].outcome, Outcome::Played);
    assert_eq!(rep.results[0].delayed_frames, Some(4), "late frames of this file alone");
    assert_eq!(rep.results[0].dropped_frames, Some(1));
    assert_eq!(rep.results[0].fps, Some(whole(24)), "an estimate where nothing is declared");
    assert_eq!(rep.results[0].resolution(), Some("3840x2160".to_string()));
    assert_eq!(rep.results[1].outcome, Outcome::Failed("no such codec".into()));
    assert!(!rep.ended_early);
    assert_eq!((rep.played(), rep.failed(), rep.not_reached()), (1, vec![1], 0));
    assert_eq!(rep.software_decoded(), vec![0]);
    assert!(rep.unseekable().is_empty());
    assert_eq!(rep.exit_status(), 1);
    assert_eq!(SessionReport::default().exit_status(), 0);
}

#[test]
fn a_player_that_exits_early_is_told_apart() {
    let mut s = Session::start(&two_files(), &vec![0, 1], None).unwrap();
    s.on_start_file(Some("/m/a.mkv"));
    s.on_exit();
    let rep = s.finish(None, None, whole(1));
    assert!(rep.ended_early);
    assert_eq!(rep.not_reached(), 2, "a file that did not end has no outcome");
}

#[test]
fn events_are_told_apart_by_name() {
    let kind = |t: &str| kind_of_event(&parse(t).unwrap());
    assert_eq!(kind(r#"{"event":"start-file"}"#), SessionEvent::StartFile);
    assert_eq!(kind(r#"{"event":"file-loaded"}"#), SessionEvent::FileLoaded);
    assert_eq!(kind(r#"{"event":"end-file"}"#), SessionEvent::EndFile);
    assert_ne!(kind(r#"{"event":"seek"}"#), SessionEvent::EndFile);
    assert_ne!(kind_of_event(&Value::Null), SessionEvent::StartFile);
}
