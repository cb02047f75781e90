//! What a file's streams are taken for, and whether files decoded as predicted.
use lumen_play::calibration::{
    default_log_path, observe, read_all, summarize, CalibrationEntry, DecodeClaim, Recording,
};
use lumen_play::fidelity::{
    assess, audio_codec, bit_depth_from_pixel_format, chroma_from_pixel_format, color_info,
    container_from_mpv, media_source, mpv_selection, rational_fps, selection, Selection, subtitle_codec, video_codec,
    AudioCodec, ChromaSubsampling, ColorMatrix, HdrFormat, Planned, SubtitleCodec, Tier, VideoCodec,
};
use lumen_play::json::parse;
use lumen_play::measure::Measure;
use lumen_play::media::Container;
use lumen_play::scan::{classify, Candidate, Confidence, ParsedName, ScannedFile};
use lumen_play::session::{
    parse_tracks, FileResult, Outcome, Rational, TrackCounts, TrackInfo,
};

/// The exact value of a floating-point number.
fn measure(x: f64) -> Measure {
    if x.is_nan() {
        return Measure::NotANumber;
    }
    if x.is_infinite() {
        return Measure::Infinite { negative: x < 0.0 };
    }
    let bits = x.to_bits();
    let negative = bits >> 63 == 1;
    let biased = ((bits >> 52) & 0x7ff) as i32;
    let fraction = bits & 0xf_ffff_ffff_ffff;
    if biased == 0 {
        return Measure::Finite { negative, mantissa: fraction, exponent: if fraction == 0 { 0 } else { -1074 } };
    }
    Measure::Finite {
        negative,
        mantissa: fraction | 0x10_0000_0000_0000,
        exponent: biased - 1075,
    }
}

fn scanned(size: u64) -> ScannedFile {
    let parsed = ParsedName {
        title: "Some Film".into(),
        year: Some(2019),
        episode: None,
        part: None,
        is_sample: false,
    };
    let sniffed = vec![Candidate {
        container: Container::Matroska,
        confidence: Confidence::Certain,
        evidence: "EBML".into(),
    }];
    classify("/lib/Some.Film.2019.2160p.BluRay.REMUX.mkv", size, parsed, &sniffed)
}

fn result(tracks: Vec<TrackInfo>) -> FileResult {
    FileResult {
        path: "x.mkv".into(),
        label: "x".into(),
        outcome: Outcome::Played,
        seconds_played: measure(1.0),
        file_format: Some("matroska,webm".into()),
        video_codec: None,
        audio_codec: None,
        width: Some(3840),
        height: Some(2160),
        fps: Some(measure(24000.0 / 1001.0)),
        duration: Some(measure(7200.0)),
        hwdec: Some("no".into()),
        pixel_format: Some("yuv420p10le".into()),
        primaries: Some("bt.2020".into()),
        gamma: Some("pq".into()),
        colormatrix: Some("bt.2020-ncl".into()),
        seekable: Some(true),
        audio_channels: Some("8".into()),
        track_counts: TrackCounts::default(),
        tracks,
        delayed_frames: None,
        dropped_frames: None,
    }
}

fn track(kind: &str, id: u32, codec: &str) -> TrackInfo {
    TrackInfo {
        kind: kind.into(),
        id,
        codec: Some(codec.into()),
        selected: true,
        default: true,
        ..Default::default()
    }
}

fn planned(tier: Tier, is_direct: bool, is_blocked: bool) -> Planned {
    Planned { tier, is_direct, is_blocked, reasons: vec!["why".into()] }
}

#[test]
fn a_hdr_remux_direct_plays_natively_and_never_in_a_browser() {
    let f = scanned(4_000_004);
    let mut audio = track("audio", 2, "truehd");
    audio.channels = Some(8);
    audio.sample_rate = Some(48_000);
    let r = result(vec![track("video", 1, "hevc"), audio]);
    let fid =
        assess(&r, &f, planned(Tier::T0BitExact, true, false), planned(Tier::T5, false, false))
            .expect("a played file with tracks must be assessable");
    assert_eq!(fid.native.tier, Tier::T0BitExact, "{:?}", fid.native.reasons);
    assert!(fid.native.direct);
    assert!(!fid.browser.direct);
    assert!(!fid.browser.reasons.is_empty());
    assert!(fid.native_only());
    assert_eq!((fid.native.profile.as_str(), fid.browser.profile.as_str()), ("native", "browser"));
    let blocked = assess(&r, &f, planned(Tier::T0BitExact, true, true), planned(Tier::T5, true, false));
    assert!(!blocked.unwrap().native.direct, "what is blocked is not played directly");
}

#[test]
fn a_file_that_never_played_is_not_given_a_tier() {
    let f = scanned(1_004);
    let p = || planned(Tier::T0BitExact, true, false);
    let mut r = result(vec![track("video", 1, "h264")]);
    r.outcome = Outcome::Failed("unrecognized file format".into());
    assert!(assess(&r, &f, p(), p()).is_none(), "a tier for it would be fiction");
    let r = result(Vec::new());
    assert!(assess(&r, &f, p(), p()).is_none(), "no tracks means nothing to describe");
}

#[test]
fn dts_without_a_profile_is_the_core_not_master_audio() {
    assert_eq!(audio_codec(Some("dts"), None), AudioCodec::Dts);
    assert_eq!(audio_codec(Some("dts"), Some("DTS-HD MA")), AudioCodec::DtsHdMa);
    assert_eq!(audio_codec(Some("dts"), Some("DTS-HD MA + DTS:X")), AudioCodec::DtsX);
    assert_eq!(audio_codec(Some("dts"), Some("DTS-HD HRA")), AudioCodec::DtsHdHra);
    assert_eq!(audio_codec(Some("pcm_s24le"), None), AudioCodec::Pcm);
    assert_eq!(audio_codec(Some("truehd"), None), AudioCodec::TrueHd);
    assert_eq!(
        audio_codec(Some("nellymoser"), None),
        AudioCodec::Other("nellymoser".into()),
        "an unknown codec is representable, not an error"
    );
}

#[test]
fn video_and_subtitle_names_map_to_the_model() {
    assert_eq!(video_codec(Some("hevc")), VideoCodec::Hevc);
    assert_eq!(video_codec(Some("wmv3")), VideoCodec::Vc1, "WMV3 is VC-1 SP/MP");
    assert_eq!(video_codec(Some("msmpeg4v3")), VideoCodec::Mpeg4Part2);
    assert_eq!(video_codec(None), VideoCodec::Other(String::new()));
    assert_eq!(subtitle_codec(Some("hdmv_pgs_subtitle")), SubtitleCodec::Pgs);
    assert_eq!(subtitle_codec(Some("ass")), SubtitleCodec::Ass);
    assert_eq!(subtitle_codec(Some("eia_608")), SubtitleCodec::Cea608);
}

#[test]
fn legacy_and_previously_uncatalogued_codecs_now_map_to_a_real_variant() {
    assert_eq!(video_codec(Some("cinepak")), VideoCodec::Cinepak);
    assert_eq!(video_codec(Some("indeo5")), VideoCodec::Indeo);
    assert_eq!(video_codec(Some("h263p")), VideoCodec::H263);
    assert_eq!(video_codec(Some("svq3")), VideoCodec::Svq3);
    assert_eq!(video_codec(Some("qtrle")), VideoCodec::QtRle);
    assert_eq!(video_codec(Some("utvideo")), VideoCodec::UtVideo);
    assert_eq!(audio_codec(Some("adpcm_ms"), None), AudioCodec::Adpcm);
    assert_eq!(audio_codec(Some("adpcm_ima_wav"), None), AudioCodec::Adpcm);
    assert_eq!(audio_codec(Some("wmalossless"), None), AudioCodec::WmaLossless);
    assert_eq!(audio_codec(Some("wmapro"), None), AudioCodec::Wma, "lossy WMA stays lossy");
    assert_eq!(subtitle_codec(Some("mov_text")), SubtitleCodec::MovText);
}

#[test]
fn bit_depth_comes_out_of_the_pixel_format() {
    assert_eq!(bit_depth_from_pixel_format(Some("yuv420p")), 8);
    assert_eq!(bit_depth_from_pixel_format(Some("yuv420p10le")), 10);
    assert_eq!(bit_depth_from_pixel_format(Some("yuv444p12le")), 12);
    assert_eq!(bit_depth_from_pixel_format(Some("gbrp")), 8);
    assert_eq!(bit_depth_from_pixel_format(None), 8);
    assert_eq!(bit_depth_from_pixel_format(Some("gray16be")), 16);
    assert_eq!(bit_depth_from_pixel_format(Some("rgb555le")), 8, "no such depth");
}

#[test]
fn ntsc_frame_rates_survive_the_round_trip_exactly() {
    let r = rational_fps(measure(24000.0 / 1001.0)).unwrap();
    assert_eq!((r.num, r.den), (24000, 1001));
    assert_eq!(rational_fps(measure(25.0)).map(|r| (r.num, r.den)), Some((25_025, 1001)));
    assert_eq!(rational_fps(measure(0.0)), None);
    assert_eq!(rational_fps(measure(f64::NAN)), None);
    assert_eq!(rational_fps(measure(1000.5)), None);
    assert_eq!(rational_fps(measure(f64::INFINITY)), None);
    for n in 1..2_000u32 {
        let r = rational_fps(measure(f64::from(n) / 1001.0)).unwrap();
        assert_eq!((r.num, r.den), (n, 1001));
    }
}

#[test]
fn the_sniffed_container_wins_over_mpvs_demuxer_family() {
    assert_eq!(container_from_mpv(Some("matroska,webm")), Some(Container::Matroska));
    assert_eq!(container_from_mpv(Some("webm")), Some(Container::WebM));
    assert_eq!(container_from_mpv(Some("mov,mp4,m4a,3gp,3g2,mj2")), Some(Container::Mp4));
    assert_eq!(container_from_mpv(Some("mpegts")), Some(Container::MpegTs));
    assert_eq!(container_from_mpv(Some("avi")), Some(Container::Avi));
    assert_eq!(container_from_mpv(None), None);
}

#[test]
fn fidelity_hdr_is_decided_by_the_transfer_function_not_the_primaries() {
    let mut r = result(Vec::new());
    r.primaries = Some("bt.2020".into());
    r.gamma = Some("bt.1886".into());
    assert_eq!(color_info(&r).hdr, HdrFormat::Sdr, "wide-gamut SDR is not HDR");
    r.gamma = Some("pq".into());
    assert_eq!(color_info(&r).hdr, HdrFormat::Hdr10);
    r.gamma = Some("hlg".into());
    assert_eq!(color_info(&r).hdr, HdrFormat::Hlg);
}

#[test]
fn chroma_is_read_from_the_pixel_format_and_defaults_honestly() {
    assert_eq!(chroma_from_pixel_format(Some("yuv420p")), ChromaSubsampling::Yuv420);
    assert_eq!(chroma_from_pixel_format(Some("yuv420p10le")), ChromaSubsampling::Yuv420);
    assert_eq!(chroma_from_pixel_format(Some("yuv422p")), ChromaSubsampling::Yuv422);
    assert_eq!(chroma_from_pixel_format(Some("yuv444p10le")), ChromaSubsampling::Yuv444);
    assert_eq!(chroma_from_pixel_format(Some("gbrp")), ChromaSubsampling::Yuv444);
    assert_eq!(
        chroma_from_pixel_format(None),
        ChromaSubsampling::default(),
        "unreported chroma is not a claim of anything wider than the honest floor"
    );
    assert_eq!(chroma_from_pixel_format(Some("nv12")), ChromaSubsampling::Yuv420);
}

#[test]
fn colormatrix_is_read_the_same_way_as_primaries_and_gamma() {
    let mut r = result(Vec::new());
    r.colormatrix = Some("bt.2020-ncl".into());
    assert_eq!(color_info(&r).matrix, ColorMatrix::Bt2020Ncl);
    r.colormatrix = Some("bt.709".into());
    assert_eq!(color_info(&r).matrix, ColorMatrix::Bt709);
    r.colormatrix = None;
    assert_eq!(color_info(&r).matrix, ColorMatrix::Unspecified, "unknown is not a guess");
}

#[test]
fn the_selection_follows_what_mpv_actually_chose() {
    let mut first = track("audio", 2, "aac");
    first.selected = false;
    let mut second = track("audio", 3, "truehd");
    second.selected = true;
    let s = mpv_selection(&vec![track("video", 1, "h264"), first, second]).unwrap();
    assert_eq!(s.audio, Some(3), "the track that played, not the first one listed");
    assert_eq!(s.video, Some(1));
    assert_eq!(s.subtitle, None);
    let mut none = track("video", 1, "h264");
    none.selected = false;
    assert!(mpv_selection(&vec![none]).is_none());
}

#[test]
fn a_subtitle_alone_is_a_selection() {
    let mut sub = track("sub", 3, "subrip");
    sub.selected = true;
    let only = Selection { video: None, audio: None, subtitle: Some(3) };
    assert_eq!(mpv_selection(&vec![sub]), Some(only));
}

#[test]
fn the_automatic_choice_stands_in_where_nothing_is_marked() {
    let automatic = Selection { video: Some(7), audio: None, subtitle: None };
    assert_eq!(selection(&vec![], automatic), automatic);
    let mut marked = track("audio", 3, "aac");
    marked.selected = true;
    assert_eq!(selection(&vec![marked], automatic).audio, Some(3));
}

#[test]
fn tracks_parse_out_of_a_real_track_list() {
    let text = r#"[
        {"id":1,"type":"video","codec":"hevc","codec-profile":"Main 10","selected":true,
         "default":true,"demux-w":3840,"demux-h":2160,"demux-fps":23.976023976023978},
        {"id":2,"type":"audio","codec":"dts","codec-profile":"DTS-HD MA","lang":"eng",
         "selected":true,"demux-channel-count":8,"demux-samplerate":48000},
        {"id":3,"type":"sub","codec":"hdmv_pgs_subtitle","lang":"eng","forced":true,
         "external":false,"selected":false}
    ]"#;
    let tracks = parse_tracks(&parse(text).unwrap());
    assert_eq!(tracks.len(), 3);
    assert_eq!(tracks[0].codec_profile.as_deref(), Some("Main 10"));
    assert_eq!(tracks[1].channels, Some(8));
    assert_eq!(tracks[1].lang.as_deref(), Some("eng"));
    assert!(tracks[2].forced && !tracks[2].selected);
    assert_eq!(
        audio_codec(tracks[1].codec.as_deref(), tracks[1].codec_profile.as_deref()),
        AudioCodec::DtsHdMa
    );
    assert_eq!(tracks[0].fps, Some(measure(23.976023976023978)));
    assert_eq!((tracks[0].width, tracks[0].id, tracks[2].kind.as_str()), (Some(3840), 1, "sub"));
}

#[test]
fn a_files_streams_are_described_as_the_player_found_them() {
    let mut audio = track("audio", 2, "dts");
    audio.title = Some("Director's Commentary".into());
    let mut r = result(vec![track("video", 1, "hevc"), audio, track("sub", 3, "ass")]);
    r.duration = Some(measure(8.0));
    let s = media_source(&r, &scanned(9_000_000)).unwrap();
    assert_eq!(s.container, Container::Matroska);
    assert_eq!(s.duration_ns, Some(8_000_000_000));
    assert_eq!(s.bitrate_bps, Some(9_000_000));
    let v = &s.video[0];
    assert_eq!((v.width, v.height, v.bit_depth), (3840, 2160, 10));
    assert_eq!(v.frame_rate, Some(Rational { num: 24000, den: 1001 }));
    assert_eq!(v.color.hdr, HdrFormat::Hdr10);
    let a = &s.audio[0];
    assert_eq!((a.channels, a.sample_rate), (2, 48_000), "the usual where nothing is said");
    assert!(a.flags.commentary && !a.has_objects);
    assert_eq!(s.subtitles[0].codec, SubtitleCodec::Ass);
    r.duration = Some(measure(0.4));
    let brief = media_source(&r, &scanned(9_000_000)).unwrap();
    assert_eq!(brief.bitrate_bps, None);
    assert_eq!(brief.duration_ns, Some(400_000_000));
    r.duration = Some(measure(-1.0));
    assert_eq!(media_source(&r, &scanned(1)).unwrap().duration_ns, None);
}

fn claims() -> Vec<DecodeClaim> {
    vec![
        DecodeClaim { codec: VideoCodec::Hevc, hardware: true },
        DecodeClaim { codec: VideoCodec::Av1, hardware: true },
        DecodeClaim { codec: VideoCodec::Vc1, hardware: false },
    ]
}

fn seen(r: &FileResult) -> Option<CalibrationEntry> {
    observe(r, 1_000, &claims())
}

fn played_result(codec: Option<&str>, hwdec: Option<&str>) -> FileResult {
    FileResult {
        path: "/lib/movie.mkv".into(),
        label: "movie".into(),
        outcome: Outcome::Played,
        seconds_played: measure(5.0),
        video_codec: codec.map(String::from),
        width: None,
        height: None,
        fps: None,
        duration: None,
        hwdec: hwdec.map(String::from),
        pixel_format: None,
        primaries: None,
        gamma: None,
        colormatrix: None,
        seekable: None,
        audio_channels: None,
        tracks: codec
            .map(|c| {
                vec![TrackInfo {
                    kind: "video".into(),
                    selected: true,
                    codec: Some(c.to_string()),
                    ..Default::default()
                }]
            })
            .unwrap_or_default(),
        dropped_frames: Some(3),
        ..result(vec![])
    }
}

#[test]
fn a_file_that_never_played_produces_no_entry() {
    let mut r = played_result(Some("hevc"), Some("videotoolbox"));
    r.outcome = Outcome::Failed("unrecognized file format".into());
    assert!(seen(&r).is_none());
}

#[test]
fn an_audio_only_file_produces_no_entry() {
    let r = played_result(None, None);
    assert!(seen(&r).is_none(), "nothing to calibrate without a video decode path");
}

#[test]
fn a_codec_the_native_profile_claims_hardware_for_predicts_hardware() {
    let entry = seen(&played_result(Some("hevc"), Some("videotoolbox"))).unwrap();
    assert_eq!(entry.predicted_hardware_decode, Some(true));
    assert_eq!(entry.hardware_decode_as_predicted(), Some(true));
}

#[test]
fn a_codec_the_native_profile_explicitly_claims_no_hardware_for_predicts_software() {
    let entry = seen(&played_result(Some("vc1"), Some("no"))).unwrap();
    assert_eq!(entry.predicted_hardware_decode, Some(false));
    assert_eq!(
        entry.hardware_decode_as_predicted(),
        Some(true),
        "software was exactly what was predicted"
    );
}

#[test]
fn a_hardware_decode_predicted_but_not_observed_is_a_real_miss() {
    let entry = seen(&played_result(Some("hevc"), Some("no"))).unwrap();
    assert_eq!(entry.hardware_decode_as_predicted(), Some(false));
}

#[test]
fn software_observed_when_hwdec_was_never_even_queried_is_not_a_confirmed_match() {
    let entry = seen(&played_result(Some("hevc"), None)).unwrap();
    assert_eq!(entry.hardware_decode_as_predicted(), None);
}

#[test]
fn an_unrecognised_codec_makes_no_claim_either_way() {
    let r = played_result(Some("some_future_codec_this_build_does_not_know"), Some("no"));
    let entry = seen(&r).unwrap();
    assert_eq!(entry.predicted_hardware_decode, None);
    assert_eq!(entry.hardware_decode_as_predicted(), None);
}

fn played_result_with_drops(fps: f64, seconds_played: f64, dropped_frames: u64) -> FileResult {
    let mut r = played_result(Some("hevc"), Some("videotoolbox"));
    r.fps = Some(measure(fps));
    r.seconds_played = measure(seconds_played);
    r.dropped_frames = Some(dropped_frames);
    r
}

#[test]
fn a_drop_rate_under_the_threshold_is_not_flagged() {
    let entry = seen(&played_result_with_drops(24.0, 60.0, 10)).unwrap();
    assert_eq!(entry.drop_rate_flagged(), Some(false));
}

#[test]
fn a_drop_rate_over_the_threshold_is_flagged() {
    let entry = seen(&played_result_with_drops(24.0, 60.0, 100)).unwrap();
    assert_eq!(entry.drop_rate_flagged(), Some(true));
}

#[test]
fn no_known_frame_rate_is_not_a_confirmed_judgement() {
    let mut r = played_result(Some("hevc"), Some("videotoolbox"));
    r.fps = None;
    r.dropped_frames = Some(500);
    assert_eq!(seen(&r).unwrap().drop_rate_flagged(), None);
}

#[test]
fn a_session_too_brief_to_mean_anything_is_not_judged() {
    let entry = seen(&played_result_with_drops(24.0, 0.5, 5)).unwrap();
    assert_eq!(entry.drop_rate_flagged(), None);
}

#[test]
fn no_dropped_frame_count_at_all_is_not_judged() {
    let mut r = played_result(Some("hevc"), Some("videotoolbox"));
    r.fps = Some(measure(24.0));
    r.dropped_frames = None;
    assert_eq!(seen(&r).unwrap().drop_rate_flagged(), None);
}

#[test]
fn drop_rates_are_judged_as_floating_point_judges_them() {
    let mut state = 88172645463325252u64;
    let mut next = || {
        state ^= state << 13;
        state ^= state >> 7;
        state ^= state << 17;
        state
    };
    for _ in 0..2_000 {
        let fps = (next() % 120_000) as f64 / 1000.0;
        let seconds = (next() % 10_000_000) as f64 / 1000.0;
        let dropped = next() % 5_000;
        let entry = seen(&played_result_with_drops(fps, seconds, dropped)).unwrap();
        let want = if fps > 0.0 && !(seconds < 2.0) {
            Some(dropped as f64 / (fps * seconds) > 0.02)
        } else {
            None
        };
        assert_eq!(entry.drop_rate_flagged(), want, "{fps} {seconds} {dropped}");
    }
    let exact = seen(&played_result_with_drops(25.0, 2.0, 1)).unwrap();
    assert_eq!(exact.drop_rate_flagged(), Some(1.0 / 50.0 > 0.02), "right at the threshold");
    let nan = seen(&played_result_with_drops(25.0, f64::NAN, 1)).unwrap();
    assert_eq!(nan.drop_rate_flagged(), Some(false));
}

#[test]
fn append_then_read_all_round_trips_every_field() {
    let a = seen(&played_result(Some("hevc"), Some("no"))).unwrap();
    let b = seen(&played_result(Some("vc1"), Some("no"))).unwrap();
    let log = format!("{}\n{}\n", a.to_json_line("5", None), b.to_json_line("5", None));
    let loaded = read_all(&log);
    assert_eq!(loaded.len(), 2, "append must never overwrite a prior entry");
    assert_eq!(loaded[0].video_codec.as_deref(), Some("hevc"));
    assert_eq!(loaded[0].predicted_hardware_decode, Some(true));
    assert_eq!(loaded[0].dropped_frames, Some(3));
    assert_eq!(loaded[0].seconds_played, measure(5.0));
    assert_eq!(loaded[1].video_codec.as_deref(), Some("vc1"));
    assert_eq!(loaded[1].predicted_hardware_decode, Some(false));
    assert_eq!(
        a.to_json_line("5", None),
        r#"{"path":"/lib/movie.mkv","unix_secs":1000,"video_codec":"hevc","predicted_hardware_decode":true,"observed_hwdec":"no","dropped_frames":3,"seconds_played":5,"expected_fps":null}"#
    );
}

#[test]
fn expected_fps_round_trips_and_a_missing_one_reads_back_as_null() {
    let with_fps = seen(&played_result_with_drops(24.0, 60.0, 10)).unwrap();
    let without_fps = seen(&played_result(Some("hevc"), Some("no"))).unwrap();
    let log = format!(
        "{}\n{}\n",
        with_fps.to_json_line("60", Some("24")),
        without_fps.to_json_line("5", None)
    );
    let loaded = read_all(&log);
    assert_eq!(loaded[0].expected_fps, Some(measure(24.0)));
    assert_eq!(loaded[0].seconds_played, measure(60.0));
    assert_eq!(loaded[1].expected_fps, None);
}

#[test]
fn a_v1_line_with_no_drop_rate_columns_still_loads_with_nothing_to_judge() {
    let line = r#"{"path":"/a.mkv","unix_secs":1000,"video_codec":"hevc","predicted_hardware_decode":true,"observed_hwdec":"no","dropped_frames":500}"#;
    let entry = CalibrationEntry::from_json_line(line).unwrap();
    assert_eq!(entry.seconds_played, measure(0.0));
    assert_eq!(entry.expected_fps, None);
    assert_eq!(entry.drop_rate_flagged(), None);
}

#[test]
fn summarize_reports_a_drop_rate_section_only_when_there_is_something_to_judge() {
    let no_data = summarize(&vec![]);
    assert!(!no_data.contains("dropped-frame threshold"), "{no_data}");
    let nothing_checkable =
        summarize(&vec![seen(&played_result(Some("hevc"), Some("no"))).unwrap()]);
    assert!(!nothing_checkable.contains("dropped-frame threshold"), "{nothing_checkable}");
    let mut flagged = seen(&played_result_with_drops(24.0, 60.0, 100)).unwrap();
    flagged.path = "/lib/stuttery.mkv".into();
    let with_a_flag = summarize(&vec![flagged]);
    assert!(with_a_flag.contains("dropped-frame threshold"), "{with_a_flag}");
    assert!(with_a_flag.contains("stuttery.mkv"), "{with_a_flag}");
    assert!(
        with_a_flag.ends_with("\n  /lib/stuttery.mkv -- 100 dropped over 60s (6.9%)"),
        "{with_a_flag}"
    );
    let calm = seen(&played_result_with_drops(24.0, 60.0, 1)).unwrap();
    assert!(
        summarize(&vec![calm])
            .ends_with("\n1/1 real playback session stayed under the 2% dropped-frame threshold")
    );
}

#[test]
fn reading_a_missing_log_is_an_empty_list_not_an_error() {
    assert!(read_all("").is_empty());
}

#[test]
fn one_corrupt_line_is_dropped_without_losing_the_rest_of_the_log() {
    let loaded = read_all(
        "not json at all\n{\"path\":\"/a.mkv\",\"unix_secs\":1000,\"video_codec\":\"hevc\",\"predicted_hardware_decode\":true,\"observed_hwdec\":\"no\",\"dropped_frames\":null}\n",
    );
    assert_eq!(loaded.len(), 1);
    assert_eq!(loaded[0].video_codec.as_deref(), Some("hevc"));
}

#[test]
fn summarize_reports_no_data_yet_for_an_empty_log() {
    let s = summarize(&vec![]);
    assert!(s.contains("no calibration data"), "{s}");
}

#[test]
fn summarize_counts_matches_and_names_every_miss() {
    let matched = seen(&played_result(Some("hevc"), Some("videotoolbox"))).unwrap();
    let mut missed = seen(&played_result(Some("av1"), Some("no"))).unwrap();
    missed.path = "/lib/broken-hw-decode.mkv".into();
    let s = summarize(&vec![matched, missed]);
    assert!(s.contains("1/2"), "{s}");
    assert!(s.contains("broken-hw-decode.mkv"), "{s}");
    assert!(s.contains("predicted hardware, mpv actually used software"), "{s}");
}

#[test]
fn summarize_ignores_entries_with_nothing_to_compare() {
    let uncheckable = seen(&played_result(Some("unknown_codec"), Some("no"))).unwrap();
    let s = summarize(&vec![uncheckable]);
    assert!(s.contains("no calibration data"), "{s}");
    assert!(s.contains("1 session"), "{s}");
}

#[test]
fn a_recording_remarks_on_misses_alone() {
    let mut rec = Recording::new();
    let good = seen(&played_result(Some("hevc"), Some("vaapi"))).unwrap();
    rec.saw(&good);
    rec.wrote();
    assert_eq!(rec.remark(), None);
    let bad = seen(&played_result(Some("hevc"), Some("no"))).unwrap();
    rec.saw(&bad);
    rec.wrote();
    let text = rec.remark().unwrap();
    assert!(text.starts_with("calibration: 1/2 played files did not decode"), "{text}");
    assert_eq!(default_log_path("/c"), "/c/lumen/calibration.jsonl");
}
