//! The wire protocol between the server and its clients.
use lumen_play::json::parse;
use lumen_play::remote::protocol::{
    parse_server_message, ClientMessage, LibraryEntry, NowPlaying, ParsedServerMessage,
    PlaybackState, ReplyBody, ServerMessage,
};

#[test]
fn every_client_message_round_trips_through_its_id() {
    let line = r#"{"type":"seek","id":"42","position_ms":90000}"#;
    let msg = ClientMessage::parse(line).unwrap();
    assert_eq!(msg.id(), "42");
    assert_eq!(msg, ClientMessage::Seek { id: "42".into(), position_ms: 90_000 });
}

#[test]
fn only_pair_and_auth_are_allowed_before_authentication() {
    assert!(ClientMessage::Pair { id: "1".into(), code: "000000".into() }.is_pre_auth());
    assert!(ClientMessage::Auth { id: "1".into(), token: "x".into() }.is_pre_auth());
    assert!(!ClientMessage::Play { id: "1".into(), path: "x".into() }.is_pre_auth());
    assert!(!ClientMessage::Pause { id: "1".into() }.is_pre_auth());
}

#[test]
fn volume_is_clamped_rather_than_rejected() {
    let over = r#"{"type":"volume","id":"1","level":500}"#;
    assert_eq!(
        ClientMessage::parse(over).unwrap(),
        ClientMessage::SetVolume { id: "1".into(), level: 100 }
    );
    let under = r#"{"type":"volume","id":"1","level":-40}"#;
    assert_eq!(
        ClientMessage::parse(under).unwrap(),
        ClientMessage::SetVolume { id: "1".into(), level: 0 }
    );
}

#[test]
fn malformed_input_is_none_not_a_panic() {
    assert_eq!(ClientMessage::parse(""), None);
    assert_eq!(ClientMessage::parse("not json"), None);
    assert_eq!(ClientMessage::parse("{}"), None, "missing type and id");
    assert_eq!(
        ClientMessage::parse(r#"{"type":"seek","id":"1"}"#),
        None,
        "seek without a position must not be guessed at"
    );
    assert_eq!(
        ClientMessage::parse(r#"{"type":"made-up-verb","id":"1"}"#),
        None,
        "an unknown message type is refused, not misread as the nearest match"
    );
}

#[test]
fn a_state_push_with_nothing_playing_round_trips() {
    let msg = ServerMessage::State(PlaybackState { now_playing: None, library_version: 3 });
    let line = msg.to_line();
    assert!(line.ends_with('\n'));
    assert!(line.contains("\"now_playing\":null"));
    assert!(line.contains("\"library_version\":3"));
}

#[test]
fn a_state_push_with_something_playing_round_trips_exactly() {
    let msg = ServerMessage::State(PlaybackState {
        now_playing: Some(NowPlaying {
            path: "/media/Film (2019).mkv".into(),
            title: "Film (2019)".into(),
            duration_ms: 7_200_000,
            position_ms: 42_000,
            paused: false,
            volume: 80,
        }),
        library_version: 12,
    });
    let parsed = parse_server_message(&msg.to_line()).unwrap();
    assert_eq!(
        parsed,
        ParsedServerMessage::State(PlaybackState {
            now_playing: Some(NowPlaying {
                path: "/media/Film (2019).mkv".into(),
                title: "Film (2019)".into(),
                duration_ms: 7_200_000,
                position_ms: 42_000,
                paused: false,
                volume: 80,
            }),
            library_version: 12,
        })
    );
}

#[test]
fn a_path_with_quotes_and_backslashes_survives_the_wire() {
    let msg = ServerMessage::State(PlaybackState {
        now_playing: Some(NowPlaying {
            path: r#"C:\Media\Director's "Cut".mkv"#.into(),
            title: r#"Director's "Cut""#.into(),
            duration_ms: 1,
            position_ms: 0,
            paused: true,
            volume: 50,
        }),
        library_version: 0,
    });
    let parsed = parse_server_message(&msg.to_line()).unwrap();
    let ParsedServerMessage::State(state) = parsed else { panic!("expected State") };
    assert_eq!(state.now_playing.unwrap().title, r#"Director's "Cut""#);
}

#[test]
fn a_paired_reply_carries_the_token_back() {
    let msg = ServerMessage::Paired { id: "5".into(), token: "abc123".into() };
    let parsed = parse_server_message(&msg.to_line()).unwrap();
    assert_eq!(parsed, ParsedServerMessage::Paired { id: "5".into(), token: "abc123".into() });
}

#[test]
fn an_error_reply_names_the_id_it_answers_and_the_reason() {
    let msg = ServerMessage::Error { id: "9".into(), message: "wrong pairing code".into() };
    let parsed = parse_server_message(&msg.to_line()).unwrap();
    assert_eq!(
        parsed,
        ParsedServerMessage::Error { id: "9".into(), message: "wrong pairing code".into() }
    );
}

#[test]
fn a_library_reply_carries_every_entry() {
    let msg = ServerMessage::Reply {
        id: "3".into(),
        result: ReplyBody::Library(vec![
            LibraryEntry { path: "/a.mkv".into(), title: "A".into(), duration_ms: 1000 },
            LibraryEntry { path: "/b.mkv".into(), title: "B".into(), duration_ms: 2000 },
        ]),
    };
    let line = msg.to_line();
    assert!(line.contains("\"path\":\"/a.mkv\""));
    assert!(line.contains("\"path\":\"/b.mkv\""));
    assert!(parse(line.trim_end()).is_ok());
}

#[test]
fn state_never_carries_an_id() {
    let line = ServerMessage::State(PlaybackState::default()).to_line();
    let v = parse(line.trim_end()).unwrap();
    assert_eq!(v.get("id"), None);
}

#[test]
fn each_kind_of_message_is_read() {
    let of = |t: &str| ClientMessage::parse(t).unwrap();
    let id = || "7".to_string();
    assert_eq!(
        of(r#"{"type":"pair","id":"7","code":"123456"}"#),
        ClientMessage::Pair { id: id(), code: "123456".into() }
    );
    assert_eq!(
        of(r#"{"type":"auth","id":"7","token":"t"}"#),
        ClientMessage::Auth { id: id(), token: "t".into() }
    );
    assert_eq!(of(r#"{"type":"library","id":"7"}"#), ClientMessage::Library { id: id() });
    assert_eq!(
        of(r#"{"type":"play","id":"7","path":"/a"}"#),
        ClientMessage::Play { id: id(), path: "/a".into() }
    );
    assert_eq!(of(r#"{"type":"pause","id":"7"}"#), ClientMessage::Pause { id: id() });
}
