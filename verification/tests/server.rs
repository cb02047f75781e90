//! What the server decides: who may do what, and what a connection is owed.
use lumen_play::http::HttpRequest;
use lumen_play::measure::Measure;
use lumen_play::remote::connection::{Arrival, Connection, Turn};
use lumen_play::remote::pairing::{AttemptLimiter, PendingCode, TokenStore};
use lumen_play::remote::protocol::{PlaybackState, ReplyBody, ServerMessage};
use lumen_play::remote::server::{
    contain_within_library, execute, handle_line, handle_request, health_report, idle_mpv_args,
    next_line, path_to_play, read_state, run_command, seconds_until, stream_target,
    ActiveClientGuard, CommandBody, HttpStep, PlayerOutcome, ServerState, SharedState, Step,
};
use lumen_play::remote::tls::{configured, generate, issued, validity, ServerCert, CERT_VALIDITY_DAYS};
use lumen_play::remote::vr::PAGE;
use lumen_play::scan::{classify, Candidate, Confidence, ParsedName, Scan};
use lumen_play::media::Container;

const SECOND: i128 = 1_000_000_000;
const NOW: i128 = 1_700_000_000 * SECOND;

fn library() -> Scan {
    let parsed = ParsedName {
        title: "Film".into(),
        year: Some(2019),
        episode: None,
        part: None,
        is_sample: false,
    };
    let sniffed = vec![Candidate {
        container: Container::Matroska,
        confidence: Confidence::Certain,
        evidence: "EBML".into(),
    }];
    let mut s = Scan::default();
    s.files.push(classify("/lib/Film (2019).mkv", 2_000_000, parsed, &sniffed));
    s
}

fn state() -> ServerState {
    ServerState {
        tokens: TokenStore::new(),
        pending_code: Some(PendingCode { code: "123456".into(), expires_at: NOW + 60 * SECOND }),
        pair_attempts: AttemptLimiter::default_policy(),
        library_root: "/lib".into(),
    }
}

fn tell(s: &mut ServerState, authed: &mut bool, line: &str) -> Step {
    handle_line(s, authed, line, NOW, [0xCD; 16], None, &library())
}

fn message(step: Step) -> String {
    match step {
        Step::Reply(ServerMessage::Error { message, .. }) => message,
        other => panic!("not a refusal: {other:?}"),
    }
}

#[test]
fn a_file_inside_the_library_root_is_allowed() {
    assert_eq!(
        contain_within_library("/lib", Some("/lib/Movie.mkv")),
        Ok("/lib/Movie.mkv".to_string())
    );
}

#[test]
fn a_file_outside_the_library_root_is_refused() {
    let err = contain_within_library("/lib", Some("/other/not-in-the-library.mkv")).unwrap_err();
    assert!(err.contains("outside"), "unexpected message: {err}");
    assert!(contain_within_library("/lib", Some("/library-2/x.mkv")).is_err());
}

#[test]
fn a_path_traversal_attempt_out_of_the_library_root_is_refused() {
    // What `/lib/sub/../../victim/secret.mkv` resolves to.
    let err = contain_within_library("/lib", Some("/victim/secret.mkv")).unwrap_err();
    assert!(err.contains("outside"), "unexpected message: {err}");
}

#[test]
fn a_path_that_does_not_exist_is_refused_rather_than_leaking_whether_it_would_be_in_scope() {
    assert!(contain_within_library("/lib", None).is_err());
}

#[test]
fn a_stranger_is_told_to_pair_first() {
    let mut s = state();
    let mut authed = false;
    for line in [
        r#"{"type":"library","id":"1"}"#,
        r#"{"type":"play","id":"1","path":"/lib/Film (2019).mkv"}"#,
        r#"{"type":"pause","id":"1"}"#,
    ] {
        assert_eq!(message(tell(&mut s, &mut authed, line)), "pair or authenticate first");
    }
    assert_eq!(message(tell(&mut s, &mut authed, "garbage")), "malformed message");
    assert!(!authed);
}

#[test]
fn a_code_pairs_once_and_its_token_authenticates() {
    let mut s = state();
    let mut authed = false;
    let wrong = tell(&mut s, &mut authed, r#"{"type":"pair","id":"1","code":"000000"}"#);
    assert_eq!(message(wrong), "wrong pairing code");
    let step = tell(&mut s, &mut authed, r#"{"type":"pair","id":"2","code":"123456"}"#);
    let token = "cd".repeat(16);
    assert_eq!(step, Step::Reply(ServerMessage::Paired { id: "2".into(), token: token.clone() }));
    assert!(authed);
    let mut other = false;
    let again = tell(&mut s, &mut other, r#"{"type":"pair","id":"3","code":"123456"}"#);
    assert_eq!(message(again), "no pairing code is active");
    let auth = format!(r#"{{"type":"auth","id":"4","token":"{token}"}}"#);
    let step = tell(&mut s, &mut other, &auth);
    assert_eq!(
        step,
        Step::Reply(ServerMessage::Reply { id: "4".into(), result: ReplyBody::Done })
    );
    assert!(other);
    let mut third = false;
    let bad = tell(&mut s, &mut third, r#"{"type":"auth","id":"5","token":"nope"}"#);
    assert_eq!(message(bad), "unknown token; pair again");
}

#[test]
fn guesses_run_out() {
    let mut s = state();
    let mut authed = false;
    for _ in 0..5 {
        let step = tell(&mut s, &mut authed, r#"{"type":"pair","id":"1","code":"999999"}"#);
        assert_eq!(message(step), "wrong pairing code");
    }
    let step = tell(&mut s, &mut authed, r#"{"type":"pair","id":"1","code":"123456"}"#);
    assert_eq!(message(step), "too many wrong pairing attempts; wait a minute and try again");
}

#[test]
fn an_expired_code_says_so() {
    let mut s = state();
    s.pending_code = Some(PendingCode { code: "123456".into(), expires_at: NOW - 1 });
    let mut authed = false;
    let step = tell(&mut s, &mut authed, r#"{"type":"pair","id":"1","code":"123456"}"#);
    assert!(message(step).starts_with("pairing code expired"));
}

#[test]
fn a_paired_client_lists_and_plays_the_library_and_nothing_else() {
    let mut s = state();
    let mut authed = true;
    match tell(&mut s, &mut authed, r#"{"type":"library","id":"1"}"#) {
        Step::Reply(ServerMessage::Reply { result: ReplyBody::Library(entries), .. }) => {
            assert_eq!(entries.len(), 1);
            assert_eq!(entries[0].path, "/lib/Film (2019).mkv");
            assert_eq!(entries[0].title, "Film (2019)");
        }
        other => panic!("{other:?}"),
    }
    let line = r#"{"type":"play","id":"2","path":"/lib/../lib/Film (2019).mkv"}"#;
    assert_eq!(path_to_play(line), Some("/lib/../lib/Film (2019).mkv".to_string()));
    let resolved = Some("/lib/Film (2019).mkv");
    let step = handle_line(&mut s, &mut authed, line, NOW, [0; 16], resolved, &library());
    assert_eq!(
        step,
        Step::Run { id: "2".into(), body: CommandBody::Play("/lib/Film (2019).mkv".into()) }
    );
    let outside =
        handle_line(&mut s, &mut authed, line, NOW, [0; 16], Some("/etc/passwd"), &library());
    assert_eq!(message(outside), "that file is outside the served library");
    let next = tell(&mut s, &mut authed, r#"{"type":"next","id":"3"}"#);
    assert_eq!(message(next), "no queue yet; play a specific file instead");
}

#[test]
fn commands_become_the_players_words() {
    assert_eq!(execute(&CommandBody::Toggle, ""), vec!["cycle", "pause"]);
    assert_eq!(execute(&CommandBody::Seek(1500), "1.5"), vec!["seek", "1.5", "absolute"]);
    assert_eq!(execute(&CommandBody::SetVolume(30), ""), vec!["set_property", "volume", "30"]);
    assert_eq!(
        run_command("9".into(), PlayerOutcome::TimedOut),
        ServerMessage::Error { id: "9".into(), message: "timed out waiting for the player".into() }
    );
    assert_eq!(
        run_command("9".into(), PlayerOutcome::Done),
        ServerMessage::Reply { id: "9".into(), result: ReplyBody::Done }
    );
    let args = idle_mpv_args("/tmp/s", &vec!["--vo=x11".to_string()]);
    assert!(args.contains(&"--idle=yes".to_string()));
    assert_eq!(args.last().unwrap(), "--vo=x11");
}

#[test]
fn health_is_reported_only_when_it_is_asked_for_and_the_player_answers() {
    let body = CommandBody::Health {
        tls_cert_expires_in_secs: Some(-5),
        library_last_indexed_unix_secs: None,
        free_disk_bytes: Some(7),
        paired_client_count: 2,
    };
    let h = health_report(&body, true, 12).unwrap().unwrap();
    assert_eq!((h.mpv_roundtrip_ms, h.free_disk_bytes, h.paired_client_count), (12, Some(7), 2));
    assert!(health_report(&body, false, 12).unwrap().is_err());
    assert!(health_report(&CommandBody::Pause, true, 12).is_none());
    assert_eq!(seconds_until(NOW + 90 * SECOND, NOW), 90);
    assert_eq!(seconds_until(NOW - 90 * SECOND, NOW), -90);
}

fn whole(n: u64) -> Option<Measure> {
    Some(Measure::Finite { negative: false, mantissa: n, exponent: 0 })
}

#[test]
fn the_players_properties_say_what_is_playing() {
    assert_eq!(read_state(None, None, None, None, None, None), PlaybackState::default());
    let half = Some(Measure::Finite { negative: false, mantissa: 3, exponent: -1 });
    let s = read_state(Some("/a.mkv".into()), None, whole(7200), half, Some(true), whole(130));
    let np = s.now_playing.unwrap();
    assert_eq!(np.title, "/a.mkv");
    assert_eq!((np.duration_ms, np.position_ms, np.paused, np.volume), (7_200_000, 1500, true, 100));
    let s = read_state(Some("/a".into()), Some("A".into()), None, None, None, None);
    let np = s.now_playing.unwrap();
    assert_eq!((np.title.as_str(), np.duration_ms, np.volume, np.paused), ("A", 0, 100, false));
    let low = Some(Measure::Finite { negative: true, mantissa: 5, exponent: 0 });
    let s = read_state(Some("/a".into()), None, None, low, None, low);
    let np = s.now_playing.unwrap();
    assert_eq!((np.position_ms, np.volume), (-5000, 0));
}

#[test]
fn lines_come_out_of_what_was_received() {
    let mut pending = b"{\"a\":1}\r\n\npart".to_vec();
    assert_eq!(next_line(&mut pending), Some("{\"a\":1}".to_string()));
    assert_eq!(next_line(&mut pending), Some(String::new()));
    assert_eq!(next_line(&mut pending), None);
    assert_eq!(pending, b"part");
    let mut bad = b"\xff\n".to_vec();
    assert_eq!(next_line(&mut bad), Some("\u{fffd}".to_string()));
}

#[test]
fn a_connection_is_driven_from_its_first_bytes_to_its_end() {
    let mut http = Connection::new();
    assert_eq!(http.opening(&Arrival::Bytes(b"GET /vr HTTP/1.1\r\n".to_vec())), Turn::Http);
    assert_eq!(http.into_pending(), b"GET /vr HTTP/1.1\r\n");
    let mut c = Connection::new();
    assert_eq!(c.opening(&Arrival::Quiet), Turn::Control);
    assert!(c.arrived(&Arrival::Bytes(b"\n\r\none\ntw".to_vec())));
    assert_eq!(c.line(), Some("one".to_string()), "empty lines say nothing");
    assert_eq!(c.line(), None);
    assert!(c.arrived(&Arrival::Bytes(b"o\n".to_vec())));
    assert_eq!(c.line(), Some("two".to_string()));
    let mut clients = 0u32;
    let mut shared = SharedState::new();
    assert_eq!(c.owed(&shared), None, "a stranger is owed nothing");
    c.acted(true, &mut clients);
    c.acted(true, &mut clients);
    assert_eq!(clients, 1, "counted once");
    assert_eq!(c.owed(&shared), Some(0), "a client is owed the state as soon as it is known");
    c.pushed(0);
    assert_eq!(c.owed(&shared), None);
    shared.publish(PlaybackState { now_playing: None, library_version: 1 });
    shared.publish(PlaybackState { now_playing: None, library_version: 1 });
    assert_eq!(c.owed(&shared), Some(1), "the same state again is no change");
    assert!(!c.arrived(&Arrival::Closed));
    c.over(&mut clients);
    assert_eq!(clients, 0);
    assert_eq!(Connection::new().opening(&Arrival::Failed), Turn::End);
}

#[test]
fn a_client_is_counted_once_and_uncounted_once() {
    let mut n = 4u32;
    let mut g = ActiveClientGuard::new();
    g.mark_active(&mut n);
    g.mark_active(&mut n);
    assert_eq!(n, 5);
    g.release(&mut n);
    assert_eq!(n, 4);
    ActiveClientGuard::new().release(&mut n);
    assert_eq!(n, 4);
}

#[test]
fn streams_open_for_a_paired_token_alone() {
    let mut tokens = TokenStore::new();
    tokens.add("good".into());
    let ask = |raw: &str| {
        let req = HttpRequest::parse(raw.as_bytes()).unwrap();
        handle_request(&req, &tokens)
    };
    assert_eq!(
        ask("GET /stream//lib/a.mkv?token=good HTTP/1.1\r\n\r\n"),
        HttpStep::Stream("/lib/a.mkv".into())
    );
    assert_eq!(
        ask("GET /stream//lib/a.mkv HTTP/1.1\r\nAuthorization: Bearer good\r\n\r\n"),
        HttpStep::Stream("/lib/a.mkv".into())
    );
    assert_eq!(
        ask("GET /stream//lib/a.mkv?token=bad HTTP/1.1\r\n\r\n"),
        HttpStep::Refuse { code: 401, reason: "Unauthorized" }
    );
    assert_eq!(
        ask("POST /stream//lib/a.mkv?token=good HTTP/1.1\r\n\r\n"),
        HttpStep::Refuse { code: 405, reason: "Method Not Allowed" }
    );
    assert_eq!(
        ask("GET /nowhere HTTP/1.1\r\n\r\n"),
        HttpStep::Refuse { code: 404, reason: "Not Found" }
    );
    assert_eq!(ask("GET /vr HTTP/1.1\r\n\r\n"), HttpStep::Page);
    assert_eq!(ask("GET /hls/x/y HTTP/1.1\r\n\r\n"), HttpStep::Hls("x/y".into()));
    assert_eq!(
        stream_target("/lib", Some("/lib/Film (2019).mkv"), &library()),
        Some(("/lib/Film (2019).mkv".to_string(), "video/x-matroska"))
    );
    assert_eq!(stream_target("/lib", Some("/etc/passwd"), &library()), None);
}

#[test]
fn the_page_requests_an_immersive_vr_session_and_streams_via_the_existing_auth() {
    assert!(PAGE.contains(r#"navigator.xr.requestSession("immersive-vr")"#));
    assert!(PAGE.contains(r#""/stream/" + rawPath + "?token=" + rawToken"#));
}

#[test]
fn the_page_falls_back_honestly_when_webxr_or_a_headset_is_missing() {
    assert!(PAGE.contains("WebXR is not available"));
    assert!(PAGE.contains("no immersive-vr headset detected"));
}

#[test]
fn a_fresh_certificate_is_generated_and_persisted() {
    let (cert, secs) = generate(NOW).expect("generation must succeed");
    assert!(!cert.cert_der().is_empty());
    assert!(!cert.key_der().is_empty());
    let back = ServerCert::load(
        cert.cert_der().clone(),
        cert.key_der().clone(),
        Some(secs.to_string().as_str()),
    )
    .unwrap();
    assert_eq!(back.fingerprint(), cert.fingerprint());
    assert_eq!(back.expires_at(), cert.expires_at());
    assert!(ServerCert::load(vec![], vec![1], None).is_none());
}

#[test]
fn a_restart_reuses_the_same_certificate_rather_than_generating_a_new_one() {
    let (first, _) = generate(NOW).unwrap();
    let (other, _) = generate(NOW).unwrap();
    assert_ne!(first.fingerprint(), other.fingerprint(), "every key is new");
    let kept = ServerCert::load(first.cert_der().clone(), first.key_der().clone(), None).unwrap();
    assert_eq!(first.fingerprint(), kept.fingerprint());
}

#[test]
fn a_restart_reuses_the_persisted_expiry_rather_than_recomputing_it() {
    let (first, record) = ServerCert::load_or_generate(None, None, NOW).unwrap();
    let record = record.expect("a new certificate comes with a record of its expiry");
    let stored = (first.cert_der().clone(), first.key_der().clone());
    let later = NOW + 1_000 * SECOND;
    let (second, nothing) =
        ServerCert::load_or_generate(Some(stored.clone()), Some(record.as_str()), later).unwrap();
    assert_eq!(nothing, None, "what was found is not stored again");
    assert_eq!(first.expires_at(), second.expires_at());
    assert_eq!(first.fingerprint(), second.fingerprint());
    let days = i128::from(CERT_VALIDITY_DAYS) * 86_400;
    assert_eq!(first.expires_at(), Some(NOW + days * SECOND));
    let (third, _) = ServerCert::load_or_generate(Some(stored), None, later).unwrap();
    assert_eq!(third.expires_at(), None, "the record is lost");
    assert_eq!(third.fingerprint(), first.fingerprint());
}

#[test]
fn an_empty_certificate_is_replaced() {
    let (made, record) =
        ServerCert::load_or_generate(Some((vec![], vec![1])), Some("42"), NOW).unwrap();
    assert!(!made.cert_der().is_empty() && !made.key_der().is_empty());
    assert!(record.is_some());
    let (_, record) = ServerCert::load_or_generate(Some((vec![1], vec![])), None, NOW).unwrap();
    assert!(record.is_some());
}

#[test]
fn the_fingerprint_is_a_64_character_colon_separated_hex_digest() {
    let (cert, _) = generate(NOW).unwrap();
    let fp = cert.fingerprint();
    let bytes: Vec<&str> = fp.split(':').collect();
    assert_eq!(bytes.len(), 32, "SHA-256 is 32 bytes: {fp}");
    assert!(bytes.iter().all(|b| b.len() == 2 && b.chars().all(|c| c.is_ascii_hexdigit())));
    let known = ServerCert::load(b"abc".to_vec(), vec![1], None).unwrap();
    assert!(known.fingerprint().starts_with("ba:78:16:bf:8f:01:cf:ea"));
}

#[test]
fn a_server_config_can_be_built_from_a_generated_certificate() {
    let (cert, _) = generate(NOW).unwrap();
    cert.server_config().expect("a freshly generated cert must produce a valid server config");
    let broken = ServerCert::load(b"no".to_vec(), b"no".to_vec(), None).unwrap();
    let err = broken.server_config().unwrap_err();
    assert!(err.starts_with("cannot build a TLS server config: "), "{err}");
}

#[test]
fn a_certificate_is_presented_only_with_its_own_key() {
    let (first, _) = generate(NOW).unwrap();
    let (other, _) = generate(NOW).unwrap();
    let mixed = ServerCert::load(first.cert_der().clone(), other.key_der().clone(), None).unwrap();
    let err = mixed.server_config().unwrap_err();
    assert!(err.starts_with("cannot build a TLS server config: "), "{err}");
}

#[test]
fn an_attempt_that_failed_is_explained() {
    let err = configured(Err(rustls::Error::General("no such key".into()))).unwrap_err();
    assert!(err.starts_with("cannot build a TLS server config: "), "{err}");
    assert!(err.ends_with("no such key"), "{err}");
}

#[test]
fn a_fresh_certificate_expires_roughly_825_days_out_not_never() {
    let (cert, secs) = generate(NOW).unwrap();
    let expected = 1_700_000_000 + CERT_VALIDITY_DAYS * 24 * 60 * 60;
    assert_eq!(secs, expected);
    assert_eq!(cert.expires_at(), Some(i128::from(expected) * SECOND));
    assert_eq!(validity(NOW), Ok((1_700_000_000 - 86_400, expected)));
}

#[test]
fn a_certificate_predating_expiry_tracking_reports_unknown_rather_than_a_fabricated_date() {
    let cert = ServerCert::load(vec![1], vec![2], None).unwrap();
    assert_eq!(cert.expires_at(), None);
    let odd = ServerCert::load(vec![1], vec![2], Some("soon")).unwrap();
    assert_eq!(odd.expires_at(), None);
    let kept = ServerCert::load(vec![1], vec![2], Some(" 42\n")).unwrap();
    assert_eq!(kept.expires_at(), Some(42 * SECOND));
    assert_eq!(ServerCert::default_dir("/c"), "/c/lumen");
}

#[test]
fn a_clock_that_no_certificate_can_hold_gives_none() {
    let err = generate(5).err().unwrap();
    assert!(err.starts_with("system clock is before the unix epoch: "), "{err}");
    let far = 400_000_000_000 * SECOND;
    let err = generate(far).err().unwrap();
    assert!(err.contains(" is not a representable certificate date: "), "{err}");
    // The last second of the year 9999 is the last that a certificate can end in.
    let validity = i128::from(CERT_VALIDITY_DAYS) * 86_400;
    let (_, secs) = generate((253_402_300_799 - validity) * SECOND).unwrap();
    assert_eq!(secs, 253_402_300_799);
    let err = generate((253_402_300_800 - validity) * SECOND).err().unwrap();
    assert!(err.starts_with("253402300800 is not a representable certificate date: "), "{err}");
}

/// The dates that a certificate's bytes hold, as they are written out.
fn dates_in(der: &[u8]) -> Vec<String> {
    let mut out = Vec::new();
    for i in 0..der.len().saturating_sub(15) {
        if der[i] == 0x17 && der[i + 1] == 13 && der[i + 14] == b'Z' {
            out.push(String::from_utf8_lossy(&der[i + 2..i + 15]).into_owned());
        }
    }
    out
}

#[test]
fn a_certificate_holds_its_dates_and_its_name() {
    let (cert, _) = generate(NOW).unwrap();
    // 2023-11-14T22:13:20Z, a day back and 825 days on.
    assert_eq!(dates_in(cert.cert_der()), vec!["231113221320Z", "260216221320Z"]);
    let name = b"lumen-serve";
    assert!(cert.cert_der().windows(name.len()).any(|w| w == name));
    cert.server_config().expect("it comes with its own key");
}

#[test]
fn an_issue_that_failed_is_explained() {
    let err = issued(Err(rcgen::Error::RingUnspecified), 1).err().unwrap();
    assert!(err.starts_with("cannot generate a TLS key: "), "{err}");
    let err = issued(Ok(Err(rcgen::Error::RingUnspecified)), 1).err().unwrap();
    assert!(err.starts_with("cannot generate a TLS certificate: "), "{err}");
    let (cert, secs) = issued(Ok(Ok((vec![1], vec![2]))), 3).unwrap();
    assert_eq!((cert.cert_der(), cert.key_der(), secs), (&vec![1], &vec![2], 3));
    assert_eq!(cert.expires_at(), Some(3 * SECOND));
}
