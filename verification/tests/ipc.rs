//! The player's protocol: commands, answers and events.
use lumen_play::ipc::{
    as_event, command_line, default_ipc_path, end_reason_is_failure, event_name, get_string,
    incoming, Mpv, Received,
};
use lumen_play::json::{parse, quote, Value};
use lumen_play::measure::Measure;

fn words(w: &[&str]) -> Vec<String> {
    w.iter().map(|s| (*s).to_string()).collect()
}

#[test]
fn an_end_file_error_is_the_only_failing_reason() {
    assert!(end_reason_is_failure("error"));
    for ok in ["eof", "stop", "quit", "redirect", "unknown"] {
        assert!(!end_reason_is_failure(ok), "{ok} must not read as a failure");
    }
}

#[test]
fn event_names_are_read_off_real_event_lines() {
    let e = parse(r#"{"event":"end-file","reason":"error","file_error":"Unrecognized file format"}"#)
        .unwrap();
    assert_eq!(event_name(&e), Some("end-file"));
    assert_eq!(e.get("reason").and_then(Value::as_str), Some("error"));
    assert_eq!(
        e.get("file_error").and_then(Value::as_str),
        Some("Unrecognized file format"),
        "the error text is the whole reason to read this event"
    );
    assert_eq!(event_name(&parse(r#"{"data":1,"request_id":2}"#).unwrap()), None);
}

#[test]
fn ipc_paths_are_per_process_so_two_runs_do_not_collide() {
    let a = default_ipc_path("play", false, None, "/tmp", 4711);
    assert_eq!(a, "/tmp/lumen-play-4711.sock");
    assert_eq!(
        default_ipc_path("play", false, Some("/run/user/7"), "/tmp", 1),
        "/run/user/7/lumen-play-1.sock"
    );
    assert_eq!(default_ipc_path("serve", true, None, "/tmp", 1), r"\\.\pipe\lumen-serve");
}

#[test]
fn events_seen_while_awaiting_a_reply_are_queued_rather_than_dropped() {
    let mut mpv = Mpv::new();
    let (id, line) = mpv.command(&words(&["get_property", "video-codec"]));
    assert_eq!(id, 1);
    assert!(line.contains("\"request_id\":1"), "{line}");
    let early = parse(r#"{"event":"end-file","reason":"error"}"#).unwrap();
    assert!(matches!(mpv.receive(id, early), Received::Waiting));
    let answer = parse(r#"{"data":"hevc","request_id":1,"error":"success"}"#).unwrap();
    match mpv.receive(id, answer) {
        Received::Answer(Some(data)) => assert_eq!(data.as_str(), Some("hevc")),
        _ => panic!("the answer must be recognised"),
    }
    let ev = mpv.next_event().expect("the event must have survived");
    assert_eq!(event_name(&ev), Some("end-file"));
    assert!(mpv.next_event().is_none());
}

#[test]
fn an_error_reply_is_none_rather_than_an_error() {
    let mut mpv = Mpv::new();
    let (id, _) = mpv.command(&words(&["get_property", "nonsense"]));
    let v = parse(r#"{"error":"property unavailable","request_id":1}"#).unwrap();
    assert!(matches!(mpv.receive(id, v), Received::Answer(None)));
}

#[test]
fn a_closed_socket_is_reported_rather_than_looping() {
    let mut mpv = Mpv::new();
    assert!(!mpv.is_closed());
    mpv.disconnected();
    assert!(mpv.next_event().is_none());
    assert!(mpv.is_closed(), "an exit must be told from nothing happening");
}

#[test]
fn command_arguments_are_json_quoted_so_paths_survive() {
    assert_eq!(quote(r#"C:\Media\a "b".mkv"#), r#""C:\\Media\\a \"b\".mkv""#);
}

#[test]
fn a_reply_within_the_short_deadline_still_answers() {
    let mut mpv = Mpv::new();
    let (id, _) = mpv.command(&words(&["get_property", "path"]));
    let v = parse(r#"{"data":"idle","request_id":1,"error":"success"}"#).unwrap();
    match mpv.receive(id, v) {
        Received::Answer(data) => assert_eq!(data.as_ref().and_then(Value::as_str), Some("idle")),
        Received::Waiting => panic!("the answer must be recognised"),
    }
}

#[test]
fn get_string_and_get_f64_timeout_variants_parse_the_same_as_their_defaults() {
    let v = parse(r#"{"data":"in.mkv","request_id":1,"error":"success"}"#).unwrap();
    assert_eq!(get_string(v.get("data").unwrap(), ""), Some("in.mkv".to_string()));
    let v = parse(r#"{"data":42.5,"request_id":1,"error":"success"}"#).unwrap();
    assert_eq!(
        v.get("data").and_then(Value::as_f64),
        Some(Measure::Finite { negative: false, mantissa: 0x15_4000_0000_0000, exponent: -47 })
    );
    assert_eq!(get_string(v.get("data").unwrap(), "42.5"), Some("42.5".to_string()));
    assert_eq!(get_string(&Value::Str(String::new()), ""), None);
    assert_eq!(get_string(&Value::Bool(true), ""), Some("true".to_string()));
    assert_eq!(get_string(&Value::Null, ""), None);
}

#[test]
fn a_command_reads_back_as_its_words() {
    let line = command_line(&words(&["loadfile", "/m/a \"b\".mkv", "replace"]), 7);
    let v = parse(&line).unwrap();
    let parts = v.get("command").and_then(Value::as_array).unwrap();
    let back: Vec<&str> = parts.iter().filter_map(|p| p.as_str()).collect();
    assert_eq!(back, vec!["loadfile", "/m/a \"b\".mkv", "replace"]);
    assert_eq!(v.get("request_id"), Some(&Value::Num("7".into())));
}

#[test]
fn only_lines_of_json_come_in_and_only_events_are_events() {
    assert!(incoming("not json").is_none());
    assert!(incoming("   ").is_none());
    let e = incoming(r#"{"event":"idle"}"#).unwrap();
    assert!(as_event(e).is_some());
    let a = incoming(r#"{"data":1,"request_id":1}"#).unwrap();
    assert!(as_event(a).is_none());
}

#[test]
fn an_answer_to_another_command_is_not_this_ones() {
    let mut mpv = Mpv::new();
    let (first, _) = mpv.command(&words(&["a"]));
    let (second, _) = mpv.command(&words(&["b"]));
    assert_ne!(first, second);
    let v = parse(r#"{"data":1,"request_id":1,"error":"success"}"#).unwrap();
    assert!(matches!(mpv.receive(second, v), Received::Waiting));
}

#[test]
fn a_number_is_known_again_as_far_as_messages_hold_it() {
    let echo = |id: u64| parse(&format!(r#"{{"request_id":{id},"error":"success"}}"#)).unwrap();
    let mut mpv = Mpv::new();
    for id in [1, 9_007_199_254_740_991, 9_007_199_254_740_993, u64::MAX] {
        assert!(matches!(mpv.receive(id, echo(id)), Received::Answer(None)), "{id}");
    }
    assert!(matches!(mpv.receive(2, echo(3)), Received::Waiting));
    let half = parse(r#"{"request_id":1.5}"#).unwrap();
    assert!(matches!(mpv.receive(1, half), Received::Waiting));
    let double = parse(r#"{"request_id":36893488147419103232}"#).unwrap();
    assert!(matches!(mpv.receive(u64::MAX, double), Received::Waiting), "twice as much is not it");
}
