//! What is shown of a scan and of a session, and the record that is kept of both.
use lumen_play::doctor::{doctor, Findings, Player};
use lumen_play::json::{parse, Value};
use lumen_play::measure::Measure;
use lumen_play::media::Container;
use lumen_play::record::f64_or_null;
use lumen_play::report::{
    ellipsize, human_duration, human_size, render_items, render_json, render_progress, render_scan,
    render_session,
};
use lumen_play::scan::{
    scan, Candidate, Confidence, EpisodeSpec, Node, ParsedName, Root, Scan, ScanOptions,
};
use lumen_play::session::{FileResult, Outcome, SessionReport, TrackCounts};
use lumen_play::tally::summary_text;

fn whole(n: u64) -> Measure {
    Measure::Finite { negative: false, mantissa: n, exponent: 0 }
}

fn mkv(name: &str, parsed: ParsedName) -> Node {
    Node::File {
        path: format!("/lib/{name}"),
        name: name.to_string(),
        size: 2_000_004,
        parsed,
        candidates: vec![Candidate {
            container: Container::Matroska,
            confidence: Confidence::Certain,
            evidence: "EBML header".to_string(),
        }],
    }
}

fn titled(title: &str) -> ParsedName {
    ParsedName { title: title.to_string(), year: None, episode: None, part: None, is_sample: false }
}

fn episode(n: u16) -> ParsedName {
    ParsedName {
        episode: Some(EpisodeSpec::SeasonEpisode { season: 1, episodes: vec![n] }),
        ..titled("Show")
    }
}

fn sample_with(opts: &ScanOptions) -> Scan {
    let entries = vec![
        mkv(
            "Arrival (2016) 2160p BluRay x265.mkv",
            ParsedName { year: Some(2016), ..titled("Arrival") },
        ),
        mkv("Show.S01E01.1080p.mkv", episode(1)),
        mkv("Show.S01E02.1080p.mkv", episode(2)),
    ];
    scan(&vec![Root::Dir { path: "/lib".to_string(), entries, error: None }], opts)
}

fn sample_scan() -> Scan {
    sample_with(&ScanOptions::default())
}

fn blank() -> FileResult {
    FileResult {
        path: String::new(),
        label: String::new(),
        outcome: Outcome::NotReached,
        seconds_played: whole(0),
        file_format: None,
        video_codec: None,
        audio_codec: None,
        width: None,
        height: None,
        fps: None,
        duration: None,
        hwdec: None,
        pixel_format: None,
        primaries: None,
        gamma: None,
        colormatrix: None,
        seekable: None,
        audio_channels: None,
        track_counts: TrackCounts::default(),
        tracks: vec![],
        delayed_frames: None,
        dropped_frames: None,
    }
}

#[test]
fn a_scan_report_names_what_was_found() {
    let text = render_scan(&sample_scan());
    assert!(text.contains("3 video"), "{text}");
    assert!(text.contains("Matroska"), "containers come from content: {text}");
    assert_eq!(
        text,
        "library\n  3 video, 0 audio, 0 sidecar subtitle files\n  \
         2 logical items, 5.7 MiB total\n  containers: Matroska 3\n"
    );
}

#[test]
fn a_truncated_scan_says_so_rather_than_implying_the_library_ends() {
    let s = sample_with(&ScanOptions { limit: Some(1), ..ScanOptions::default() });
    assert!(render_scan(&s).contains("not the whole library"), "{}", render_scan(&s));
}

#[test]
fn items_group_a_season_into_one_line() {
    let text = render_items(&sample_scan());
    assert!(text.contains("season 1, 2 episodes"), "{text}");
    assert!(text.contains("Arrival"), "{text}");
    assert_eq!(text, "items (2)\n  Arrival (2016)\n  Show — season 1, 2 episodes\n");
}

#[test]
fn the_session_report_separates_failure_from_never_reached() {
    let rep = SessionReport {
        results: vec![
            FileResult {
                path: "/a.mkv".into(),
                label: "A".into(),
                outcome: Outcome::Played,
                ..blank()
            },
            FileResult {
                path: "/b.mkv".into(),
                label: "B".into(),
                outcome: Outcome::Failed("Unrecognized file format".into()),
                ..blank()
            },
            FileResult {
                path: "/c.mkv".into(),
                label: "C".into(),
                outcome: Outcome::NotReached,
                ..blank()
            },
        ],
        elapsed_s: whole(65),
        ..Default::default()
    };
    let text = render_session(&rep);
    assert!(text.contains("1/3 played, 1 failed, 1 not reached"), "{text}");
    assert!(text.contains("Unrecognized file format"), "the reason is the useful part: {text}");
    assert!(text.contains("1:05 elapsed"), "{text}");
}

#[test]
fn software_decoded_files_get_their_own_section() {
    let rep = SessionReport {
        results: vec![FileResult {
            path: "/a.mkv".into(),
            label: "A".into(),
            outcome: Outcome::Played,
            hwdec: Some("no".into()),
            video_codec: Some("av1".into()),
            ..blank()
        }],
        ..Default::default()
    };
    let text = render_session(&rep);
    assert!(text.contains("software decoded (1)"), "{text}");
    assert!(!text.contains("failed (1)"), "software decoding is not a failure: {text}");
    assert!(text.contains("video codecs played: av1 1"), "{text}");
}

#[test]
fn the_json_report_parses_back() {
    let s = sample_scan();
    let rep = SessionReport {
        results: vec![FileResult {
            path: "/m/Film \"Cut\" (2019).mkv".into(),
            label: "Film".into(),
            outcome: Outcome::Failed("no such codec: \"x\"".into()),
            video_codec: Some("hevc".into()),
            width: Some(3840),
            height: Some(2160),
            ..blank()
        }],
        mpv_version: Some("mpv 0.38.0".into()),
        elapsed_s: Measure::Finite { negative: false, mantissa: 25, exponent: -1 },
        ..Default::default()
    };
    let text = render_json(&s, Some(&rep));
    let v = parse(&text).expect("the report must be valid JSON");
    assert_eq!(v.get("schema").and_then(Value::as_f64).map(|m| m.whole()), Some(1));
    let results =
        v.get("session").and_then(|s| s.get("results")).and_then(Value::as_array).unwrap();
    assert_eq!(results[0].get("outcome").and_then(Value::as_str), Some("failed"));
    assert_eq!(
        results[0].get("path").and_then(Value::as_str),
        Some(r#"/m/Film "Cut" (2019).mkv"#)
    );
    assert_eq!(
        v.get("session").and_then(|s| s.get("elapsed_s")),
        Some(&Value::Num("12.500".into()))
    );
    assert_eq!(results[0].get("width"), Some(&Value::Num("3840".into())));
    assert_eq!(results[0].get("tracks").and_then(|t| t.get("audio")), Some(&Value::Num("0".into())));
}

#[test]
fn a_scan_only_report_has_a_null_session_rather_than_fabricated_results() {
    let text = render_json(&sample_scan(), None);
    let v = parse(&text).unwrap();
    assert_eq!(v.get("session"), Some(&Value::Null));
    assert_eq!(v.get("files").and_then(Value::as_array).map(|a| a.len()), Some(3));
    assert!(text.starts_with("{\n  \"tool\": \"lumen-play\",\n  \"schema\": 1,\n  \"files\": [\n    {"));
    assert!(text.ends_with("\n  ],\n  \"unreadable\": [],\n  \"skipped_samples\": 0,\n  \"truncated\": false,\n  \"session\": null\n}\n"), "{text}");
}

#[test]
fn non_finite_numbers_do_not_break_the_json() {
    assert_eq!(f64_or_null(Some(Measure::NotANumber)), "null");
    assert_eq!(f64_or_null(Some(Measure::Infinite { negative: false })), "null");
    assert_eq!(f64_or_null(None), "null");
}

#[test]
fn sizes_and_durations_read_the_way_a_person_writes_them() {
    assert_eq!(human_size(512), "512 B");
    assert_eq!(human_size(1024 * 1024 * 3 / 2), "1.5 MiB");
    assert_eq!(human_duration(whole(0)), "—");
    assert_eq!(human_duration(whole(65)), "1:05");
    assert_eq!(human_duration(whole(3725)), "1:02:05");
    assert_eq!(human_size(u64::MAX), "16777216.0 TiB");
    assert_eq!(human_size(1023), "1023 B");
    assert_eq!(human_size(1024), "1.0 KiB");
    assert_eq!(human_duration(Measure::NotANumber), "—");
}

#[test]
fn sizes_round_as_floating_point_does() {
    let mut n: u64 = 7;
    for _ in 0..2_000 {
        n = n.wrapping_mul(6364136223846793005).wrapping_add(1442695040888963407);
        let bytes = n >> (n % 50);
        let units = ["B", "KiB", "MiB", "GiB", "TiB"];
        let mut v = bytes as f64;
        let mut i = 0;
        while v >= 1024.0 && i < 4 {
            v /= 1024.0;
            i += 1;
        }
        let want =
            if i == 0 { format!("{bytes} B") } else { format!("{v:.1} {}", units[i]) };
        assert_eq!(human_size(bytes), want);
    }
}

#[test]
fn long_titles_are_cut_without_breaking_a_character() {
    let s = ellipsize("映画のタイトルがとても長い場合", 5);
    assert_eq!(s.chars().count(), 5);
    assert!(s.ends_with('…'));
    assert_eq!(ellipsize("short", 20), "short");
}

#[test]
fn progress_shows_what_a_file_turned_out_to_be() {
    let r = FileResult {
        label: "Arrival (2016)".into(),
        outcome: Outcome::Played,
        video_codec: Some("hevc".into()),
        width: Some(3840),
        height: Some(2160),
        gamma: Some("pq".into()),
        hwdec: Some("vaapi".into()),
        ..blank()
    };
    assert_eq!(render_progress(&r, 1, 2), "[1/2] Arrival (2016)  3840x2160 hevc PQ hw:vaapi");
    let failed = FileResult { outcome: Outcome::Failed("broken".into()), ..r };
    assert_eq!(render_progress(&failed, 2, 2), "[2/2] FAILED  Arrival (2016)\n          broken");
}

#[test]
fn late_frames_and_stuck_files_are_listed() {
    let late = FileResult {
        label: "L".into(),
        outcome: Outcome::Played,
        delayed_frames: Some(11),
        seconds_played: whole(65),
        seekable: Some(false),
        duration: Some(whole(61)),
        ..blank()
    };
    let rep = SessionReport { results: vec![late; 21], ended_early: true, ..Default::default() };
    let text = render_session(&rep);
    assert!(text.contains("late frames (21 files)\n  L  11 late over 1:05\n"), "{text}");
    assert!(text.contains("not seekable (21)"), "{text}");
    assert!(text.contains("  ... and 1 more\n"), "{text}");
    assert!(text.contains("NOTE: mpv exited"), "{text}");
}

#[test]
fn counts_come_greatest_first_and_equal_ones_by_name() {
    let names: Vec<String> = ["b", "a", "c", "c"].iter().map(|s| (*s).to_string()).collect();
    assert_eq!(summary_text(&names), "c 2, a 1, b 1");
}

fn findings(player: Option<Player>) -> Findings {
    Findings {
        version: "0.1.0".into(),
        os: "linux".into(),
        arch: "x86_64".into(),
        windows: false,
        exe: Some("/opt/lumen/lumen".into()),
        player,
        calibration: "no calibration data yet".into(),
    }
}

#[test]
fn a_machine_without_a_player_is_told_how_to_get_one() {
    let (text, status) = doctor(&findings(None));
    assert_eq!(status, 2);
    assert!(text.contains("NOT FOUND\n\n  mpv was not found."), "{text}");
    assert!(text.contains("LUMEN_MPV"), "{text}");
}

#[test]
fn a_machine_with_a_player_is_described() {
    let player = Player {
        path: "/usr/bin/mpv".into(),
        version: None,
        outputs: vec!["gpu".into(), "x11".into()],
        decoders: vec!["no".into(), "auto".into(), "vaapi".into()],
    };
    let (text, status) = doctor(&findings(Some(player.clone())));
    assert_eq!(status, 0);
    assert!(text.starts_with("lumen 0.1.0  (linux x86_64)\n  running from /opt/lumen/lumen\n"));
    assert!(text.contains("(no version line)\n  at /usr/bin/mpv\n"), "{text}");
    assert!(text.contains("gpu-next MISSING (have: gpu, x11)"), "{text}");
    assert!(text.contains("hardware decoding\n  vaapi\n"), "{text}");
    let other = Player { outputs: vec!["gpu-next".into()], decoders: vec!["no".into()], ..player };
    let (text, _) = doctor(&findings(Some(other)));
    assert!(text.contains("gpu-next present"), "{text}");
    assert!(text.contains("none reported"), "{text}");
}
