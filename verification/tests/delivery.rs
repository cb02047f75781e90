//! Presentations made for streaming: their names, their cache, and how they come to be.
use lumen_play::numeral::read_float;
use lumen_play::remote::dash;
use lumen_play::remote::delivery::{
    advance, asked, cache_key, describe_failure, handle, is_building, is_orphaned, maybe_evict,
    readiness, Action, Asked, CacheEntry, Event, Format, GenError, Handled, Phase, ReaderCounts,
    Readiness, BUILDING_GRACE, CACHE_MAX_AGE, CACHE_MAX_BYTES,
};
use lumen_play::remote::hls;
use lumen_play::remote::pairing::TokenStore;

const SECOND: i128 = 1_000_000_000;
const NOW: i128 = 1_700_000_000 * SECOND;

#[test]
fn manifest_init_and_chunk_names_are_recognised() {
    assert!(matches!(dash::parse_artifact("manifest.mpd"), Some(dash::Artifact::Manifest)));
    assert!(matches!(dash::parse_artifact("init-0.m4s"), Some(dash::Artifact::Init)));
    assert!(matches!(dash::parse_artifact("init-1.m4s"), Some(dash::Artifact::Init)));
    assert!(matches!(dash::parse_artifact("init-42.m4s"), Some(dash::Artifact::Init)));
    assert!(matches!(dash::parse_artifact("chunk-0-00001.m4s"), Some(dash::Artifact::Chunk)));
    assert!(matches!(dash::parse_artifact("chunk-1-00002.m4s"), Some(dash::Artifact::Chunk)));
    assert!(matches!(dash::parse_artifact("chunk-12-99999.m4s"), Some(dash::Artifact::Chunk)));
    assert_eq!(dash::content_type(dash::Artifact::Manifest), "application/dash+xml");
    assert_eq!(dash::content_type(dash::Artifact::Chunk), "video/mp4");
}

#[test]
fn dash_anything_else_is_rejected_before_any_path_is_built() {
    for bad in [
        "",
        "manifest.mp4",
        "manifest.mpd.bak",
        "init-.m4s",
        "init-a.m4s",
        "init-0.mp4",
        "chunk--00001.m4s",
        "chunk-0-1.m4s",
        "chunk-0-000001.m4s",
        "chunk-0-0000a.m4s",
        "chunk-a-00001.m4s",
        "chunk-0-00001.ts",
        "../escape.m4s",
        "init-0.mp3",
    ] {
        assert!(dash::parse_artifact(bad).is_none(), "{bad:?} should not be a recognised artifact");
    }
}

#[test]
fn dash_the_cache_key_changes_when_the_source_is_replaced_under_the_same_path() {
    let path = "/library/Movie.mkv";
    let t0 = 1_000_000 * SECOND;
    let a = cache_key(path, 100, t0);
    let same = cache_key(path, 100, t0);
    let different_size = cache_key(path, 200, t0);
    let different_mtime = cache_key(path, 100, t0 + SECOND);
    assert_eq!(a, same, "identical (path, size, mtime) must produce the same key every time");
    assert_ne!(a, different_size, "a size change must invalidate the cache key");
    assert_ne!(a, different_mtime, "an mtime change must invalidate the cache key");
}

#[test]
fn dash_the_cache_key_is_a_plain_lowercase_hex_string() {
    let key = cache_key("/library/Movie.mkv", 100, 0);
    assert_eq!(key.len(), 64, "sha256 hex digest is 64 characters");
    assert!(key.chars().all(|c| c.is_ascii_hexdigit() && !c.is_ascii_uppercase()));
}

#[test]
fn dash_reader_guard_increments_on_creation_and_decrements_on_drop() {
    let mut counts = ReaderCounts::new();
    counts.acquire("k");
    counts.acquire("k");
    assert_eq!(counts.readers_of("k"), 2);
    counts.release("k");
    assert!(counts.is_reading("k"), "one reader is left");
    counts.release("k");
    assert!(!counts.is_reading("k"), "the entry is removed once the count hits zero");
}

#[test]
fn dash_default_cache_root_lives_under_the_same_lumen_config_directory_as_everything_else() {
    let root = dash::default_cache_root("/home/u/.config");
    assert!(root.ends_with("lumen/dash-cache") || root.ends_with("lumen\\dash-cache"));
}

#[test]
fn default_cache_root_is_distinct_from_hls_own_cache_root() {
    assert_ne!(dash::default_cache_root("/c"), hls::default_cache_root("/c"));
}

#[test]
fn playlist_init_and_segment_names_are_recognised() {
    assert!(matches!(hls::parse_artifact("playlist.m3u8"), Some(hls::Artifact::Playlist)));
    assert!(matches!(hls::parse_artifact("init.mp4"), Some(hls::Artifact::Init)));
    assert!(matches!(hls::parse_artifact("seg_00001.m4s"), Some(hls::Artifact::Segment)));
    assert!(matches!(hls::parse_artifact("seg_99999.m4s"), Some(hls::Artifact::Segment)));
    assert_eq!(hls::content_type(hls::Artifact::Playlist), "application/vnd.apple.mpegurl");
}

#[test]
fn hls_anything_else_is_rejected_before_any_path_is_built() {
    for bad in [
        "",
        "playlist.m3u9",
        "seg_1.m4s",
        "seg_000001.m4s",
        "seg_0000a.m4s",
        "seg_00001.ts",
        "../escape.m4s",
        "init.mp3",
    ] {
        assert!(hls::parse_artifact(bad).is_none(), "{bad:?} should not be a recognised artifact");
    }
}

#[test]
fn hls_the_cache_key_changes_when_the_source_is_replaced_under_the_same_path() {
    let path = "/library/Movie.mkv";
    let t0 = 1_000_000 * SECOND;
    let a = cache_key(path, 100, t0);
    assert_eq!(a, cache_key(path, 100, t0));
    assert_ne!(a, cache_key(path, 200, t0), "a size change must invalidate the cache key");
    assert_ne!(a, cache_key(path, 100, t0 + SECOND), "an mtime change must invalidate the key");
}

#[test]
fn hls_the_cache_key_is_a_plain_lowercase_hex_string() {
    let key = cache_key("/library/Movie.mkv", 100, 0);
    assert_eq!(key.len(), 64, "sha256 hex digest is 64 characters");
    assert!(key.chars().all(|c| c.is_ascii_hexdigit() && !c.is_ascii_uppercase()));
}

#[test]
fn extinf_pairs_are_read_in_order_with_their_real_durations() {
    let text = "#EXTM3U\n#EXT-X-VERSION:7\n#EXTINF:6.006,\nseg_00001.m4s\n\
                 #EXTINF:6.006,\nseg_00002.m4s\n#EXTINF:3.500,\nseg_00003.m4s\n#EXT-X-ENDLIST\n";
    let pairs = hls::parse_extinf_pairs(text);
    let read: Vec<_> = pairs.iter().map(|(d, u)| (read_float(d), u.as_str())).collect();
    assert_eq!(
        read,
        vec![
            (read_float("6.006"), "seg_00001.m4s"),
            (read_float("6.006"), "seg_00002.m4s"),
            (read_float("3.500"), "seg_00003.m4s"),
        ]
    );
}

#[test]
fn extinf_pairs_survive_an_absolute_path_in_the_uri_by_keeping_only_the_file_name() {
    let text = "#EXTM3U\n#EXTINF:6.000,\n/tmp/.building-abc-123/seg_00001.m4s\n#EXT-X-ENDLIST\n";
    let pairs = hls::parse_extinf_pairs(text);
    assert_eq!(pairs.len(), 1);
    assert_eq!(read_float(&pairs[0].0), read_float("6.000"));
    assert_eq!(pairs[0].1, "/tmp/.building-abc-123/seg_00001.m4s");
}

#[test]
fn malformed_or_partial_extinf_lines_are_skipped_not_a_panic() {
    for bad in ["", "#EXTINF:not-a-number,\nseg.m4s\n", "#EXTINF:6.0,\n", "#EXTINF:6.0,"] {
        let _ = hls::parse_extinf_pairs(bad);
    }
    assert!(hls::parse_extinf_pairs("#EXTINF:not-a-number,\nseg.m4s\n").is_empty());
}

#[test]
fn hls_reader_guard_increments_on_creation_and_decrements_on_drop() {
    let mut counts = ReaderCounts::new();
    counts.acquire("k");
    counts.acquire("k");
    assert_eq!(counts.readers_of("k"), 2);
    counts.release("k");
    assert_eq!(counts.readers_of("k"), 1);
    counts.release("k");
    assert!(!counts.is_reading("k"), "the entry is removed once the count hits zero");
    assert_eq!(counts.readers_of("k"), 0);
}

#[test]
fn readers_of_different_entries_do_not_mix() {
    let mut counts = ReaderCounts::new();
    counts.acquire("a");
    counts.acquire("b");
    counts.release("a");
    assert!(!counts.is_reading("a") && counts.is_reading("b"));
}

#[test]
fn hls_default_cache_root_lives_under_the_same_lumen_config_directory_as_everything_else() {
    let root = hls::default_cache_root("/home/u/.config");
    assert!(root.ends_with("lumen/hls-cache") || root.ends_with("lumen\\hls-cache"));
}

fn entry(key: &str, size: u64, last_used: i128) -> CacheEntry {
    CacheEntry { key: key.to_string(), size, last_used }
}

#[test]
fn hls_maybe_evict_skips_a_directory_with_an_active_reader_even_when_it_is_over_every_cap() {
    let ancient = NOW - i128::from(CACHE_MAX_AGE) - 3600 * SECOND;
    let entries = vec![entry("oldkey", 1024, ancient), entry("unread", 1024, ancient)];
    let mut readers = ReaderCounts::new();
    readers.acquire("oldkey");
    assert_eq!(maybe_evict(&entries, &readers, NOW), vec!["unread"]);
}

#[test]
fn dash_maybe_evict_skips_a_directory_with_an_active_reader_even_when_it_is_over_every_cap() {
    let ancient = NOW - i128::from(CACHE_MAX_AGE) - 3600 * SECOND;
    let entries = vec![entry("oldkey", 1024, ancient)];
    let mut readers = ReaderCounts::new();
    assert_eq!(maybe_evict(&entries, &readers, NOW), vec!["oldkey"], "it is past the age cap");
    readers.acquire("oldkey");
    assert!(maybe_evict(&entries, &readers, NOW).is_empty());
}

#[test]
fn an_active_reader_is_passed_over_for_want_of_room_too() {
    let entries = vec![
        entry("a", CACHE_MAX_BYTES, NOW - 30 * SECOND),
        entry("b", 10, NOW - 20 * SECOND),
        entry("c", 10, NOW - 10 * SECOND),
    ];
    let mut readers = ReaderCounts::new();
    assert_eq!(maybe_evict(&entries, &readers, NOW), vec!["a"], "the least recently used goes");
    readers.acquire("a");
    assert_eq!(maybe_evict(&entries, &readers, NOW), vec!["b", "c"]);
}

#[test]
fn hls_sweep_orphaned_building_dirs_removes_only_what_is_past_the_grace_period() {
    let old = NOW - i128::from(BUILDING_GRACE) - 60 * SECOND;
    assert!(!is_orphaned(".building-fresh-1", NOW, NOW, BUILDING_GRACE));
    assert!(is_orphaned(".building-stale-1", old, NOW, BUILDING_GRACE));
    assert!(!is_orphaned("somekeyhash", old, NOW, BUILDING_GRACE), "a finished entry stays");
}

#[test]
fn hls_sweep_stale_at_startup_removes_every_building_directory_unconditionally() {
    assert!(is_building(".building-anything-1"));
    assert!(!is_building("somekeyhash"));
}

#[test]
fn dash_sweep_orphaned_building_dirs_removes_only_what_is_past_the_grace_period() {
    let old = NOW - i128::from(BUILDING_GRACE) - 60 * SECOND;
    assert!(!is_orphaned(".building-fresh-1", NOW, NOW, BUILDING_GRACE));
    assert!(is_orphaned(".building-stale-1", old, NOW, BUILDING_GRACE));
    assert!(!is_orphaned("somekeyhash", old, NOW, BUILDING_GRACE), "a finished entry stays");
}

#[test]
fn dash_sweep_stale_at_startup_removes_every_building_directory_unconditionally() {
    assert!(is_building(".building-anything-1"));
    assert!(!is_building("somekeyhash"));
}

#[test]
fn a_generation_runs_its_course() {
    let mut phase = Phase::Checking;
    let mut actions = Vec::new();
    for event in [
        Event::Present(false),
        Event::Locked,
        Event::Present(false),
        Event::Prepared { ffmpeg: true },
        Event::Generated,
        Event::Verified,
        Event::Renamed,
    ] {
        let (next, action) = advance(Format::Hls, phase, event);
        phase = next;
        actions.push(action);
    }
    assert_eq!(phase, Phase::Ready);
    assert_eq!(
        actions,
        vec![
            Action::Lock,
            Action::Look,
            Action::Prepare,
            Action::Generate,
            Action::Verify,
            Action::Rename,
            Action::Touch,
        ]
    );
    let (phase, action) = advance(Format::Dash, Phase::Building, Event::Generated);
    assert_eq!((phase, action), (Phase::Publishing, Action::Rename));
    let lost = advance(Format::Hls, Phase::Building, Event::WorkerLost);
    assert_eq!(lost, (Phase::Failed(GenError::WorkerLost), Action::Discard));
}

#[test]
fn each_failure_is_described() {
    let all = [
        (GenError::FfmpegNotFound, 503, "ffmpeg is not installed on this server"),
        (GenError::Spawn("x".into()), 500, "failed to start ffmpeg"),
        (GenError::NonZeroExit(" bad \n".into()), 500, "segmenting failed"),
        (GenError::IndexMissing, 500, "segmenting failed"),
        (GenError::NothingProduced, 500, "no output segments were produced for this source"),
        (
            GenError::Incomplete("r0".into()),
            500,
            "segmenting produced an inconsistent result",
        ),
        (GenError::TimedOut, 500, "timed out waiting for ffmpeg"),
        (GenError::WorkerLost, 500, "segmenting failed unexpectedly"),
        (
            GenError::VerifyMismatch("count"),
            500,
            "segmenting produced an inconsistent result",
        ),
        (GenError::Io("disk".into()), 500, "internal error"),
    ];
    for (e, status, told) in all {
        let (code, log, text) = describe_failure(Format::Hls, &e);
        assert_eq!((code, text), (status, told), "{e:?}");
        assert!(!log.is_empty());
    }
    let (_, log, _) = describe_failure(Format::Dash, &GenError::NonZeroExit(" bad \n".into()));
    assert_eq!(log, "ffmpeg exited non-zero: bad");
}

#[test]
fn a_part_is_asked_for_with_a_token() {
    let mut tokens = TokenStore::new();
    tokens.add("tok".into());
    match asked("GET", "tok/lib/a.mkv/playlist.m3u8", &tokens) {
        Asked::Part { source, name } => {
            assert_eq!(name, "playlist.m3u8");
            assert!(source.ends_with("lib/a.mkv"), "{source}");
        }
        other => panic!("{other:?}"),
    }
    assert!(matches!(
        asked("GET", "bad/lib/a.mkv/playlist.m3u8", &tokens),
        Asked::Refuse { code: 401, .. }
    ));
    assert!(matches!(asked("GET", "tok", &tokens), Asked::Refuse { .. }));
}

#[test]
fn only_the_name_of_a_part_is_handled() {
    let mut tokens = TokenStore::new();
    tokens.add("tok".into());
    match handle(Format::Hls, "GET", "tok/lib/a.mkv/playlist.m3u8", &tokens) {
        Handled::Part { name, index, .. } => assert_eq!((name.as_str(), index), ("playlist.m3u8", true)),
        other => panic!("{other:?}"),
    }
    match handle(Format::Dash, "GET", "tok/lib/a.mkv/init-0.m4s", &tokens) {
        Handled::Part { index, content_type, .. } => {
            assert_eq!((index, content_type), (false, "video/mp4"));
        }
        other => panic!("{other:?}"),
    }
    assert!(matches!(
        handle(Format::Dash, "GET", "tok/lib/a.mkv/playlist.m3u8", &tokens),
        Handled::Refuse { code: 404, .. }
    ));
    assert!(matches!(
        handle(Format::Hls, "GET", "bad/lib/a.mkv/playlist.m3u8", &tokens),
        Handled::Refuse { code: 401, .. }
    ));
}

#[test]
fn only_the_index_makes_a_presentation() {
    assert_eq!(readiness(true, false), Readiness::MakeReady);
    assert_eq!(readiness(true, true), Readiness::MakeReady);
    assert_eq!(readiness(false, true), Readiness::Send);
    assert_eq!(readiness(false, false), Readiness::NotFound);
}

#[test]
fn a_playlist_is_rebuilt_only_from_what_is_there() {
    let text = "#EXTM3U\n#EXTINF:6.0,\n/tmp/b/seg_00001.m4s\n#EXTINF:2.5,\nseg_00002.m4s\n";
    let files: Vec<(String, u64)> = [("init.mp4", 8), ("seg_00001.m4s", 10), ("seg_00002.m4s", 5)]
        .iter()
        .map(|(n, s)| ((*n).to_string(), *s))
        .collect();
    let segments = hls::rebuild_playlist(text, 2, &files).unwrap();
    assert_eq!(segments.len(), 2);
    assert!(segments.iter().any(|s| s.0 == "seg_00001.m4s" || s.1 == "seg_00001.m4s"));
    assert!(hls::rebuild_playlist(text, 3, &files).is_err(), "a segment is missing");
    let short = files[..2].to_vec();
    assert!(hls::rebuild_playlist(text, 2, &short).is_err());
}
