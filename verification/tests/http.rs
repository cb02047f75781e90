//! Requests and responses over HTTP.
use lumen_play::http::{
    content_length, content_type_for, error_text, find_header_end, head_step,
    looks_like_http_request, ok_head_text, parse_range, percent_decode, query_param, serve_file,
    take_request, unsatisfiable_text, HeadStep, HttpRequest, Incoming,
};
use lumen_play::media::Container;

#[test]
fn a_get_request_line_is_recognised_and_a_json_line_is_not() {
    assert!(looks_like_http_request(b"GET /stream/x HTTP/1.1\r\n"));
    assert!(looks_like_http_request(b"HEAD /stream/x HTTP/1.1\r\n"));
    assert!(!looks_like_http_request(b"{\"type\":\"pair\",\"id\":\"1\"}\n"));
    assert!(!looks_like_http_request(b""));
}

#[test]
fn a_request_line_and_headers_parse_including_the_query_string() {
    let raw = b"GET /stream/Movie%20(2019).mkv?token=abc123 HTTP/1.1\r\n\
                Host: example\r\nRange: bytes=0-99\r\n\r\n";
    let req = HttpRequest::parse(raw).unwrap();
    assert_eq!(req.method, "GET");
    assert_eq!(req.path, "/stream/Movie (2019).mkv");
    assert_eq!(req.query, "token=abc123");
    assert_eq!(req.header("range"), Some("bytes=0-99"));
    assert_eq!(req.header("host"), Some("example"));
}

#[test]
fn http_malformed_request_lines_are_none_not_a_panic() {
    assert!(HttpRequest::parse(b"").is_none());
    assert!(HttpRequest::parse(b"GET\r\n\r\n").is_none(), "no target or version");
    assert!(HttpRequest::parse(b"GET /x\r\n\r\n").is_none(), "no version");
    assert!(HttpRequest::parse(b"GET /\xff HTTP/1.1\r\n\r\n").is_none(), "not UTF-8");
}

#[test]
fn http_percent_decoding_handles_spaces_and_leaves_a_bad_escape_literal() {
    assert_eq!(percent_decode("a%20b"), "a b");
    assert_eq!(percent_decode("no-escapes"), "no-escapes");
    assert_eq!(percent_decode("bad%"), "bad%", "a truncated escape passes through, not a panic");
    assert_eq!(percent_decode("bad%zz"), "bad%zz", "non-hex digits pass through literally");
    assert_eq!(percent_decode("%+f"), "%+f", "a sign is no hex digit");
    assert_eq!(percent_decode("%f+"), "%f+");
    assert_eq!(percent_decode("caf%C3%A9"), "café");
    assert_eq!(percent_decode("%FF"), "\u{fffd}", "what is not UTF-8 is replaced");
}

#[test]
fn query_param_finds_the_right_key_among_several() {
    assert_eq!(query_param("a=1&token=abc&b=2", "token").as_deref(), Some("abc"));
    assert_eq!(query_param("a=1", "token"), None);
    assert_eq!(query_param("", "token"), None);
}

#[test]
fn a_plain_range_is_parsed() {
    assert_eq!(parse_range("bytes=0-499", 1000), Some((0, 499)));
    assert_eq!(parse_range("bytes=500-", 1000), Some((500, 999)), "open-ended means to EOF");
}

#[test]
fn a_suffix_range_means_the_last_n_bytes() {
    assert_eq!(parse_range("bytes=-100", 1000), Some((900, 999)));
    assert_eq!(parse_range("bytes=-5000", 1000), Some((0, 999)));
}

#[test]
fn a_range_past_the_end_of_a_shrunk_end_is_clamped_not_rejected() {
    assert_eq!(parse_range("bytes=0-999999", 1000), Some((0, 999)));
}

#[test]
fn http_invalid_ranges_are_refused_rather_than_guessed_at() {
    assert_eq!(parse_range("bytes=500-100", 1000), None, "start after end");
    assert_eq!(parse_range("bytes=1000-1500", 1000), None, "start at/past EOF");
    assert_eq!(parse_range("bytes=0-10,20-30", 1000), None, "multi-range is refused, not truncated");
    assert_eq!(parse_range("items=0-10", 1000), None, "wrong unit");
    assert_eq!(parse_range("bytes=abc-def", 1000), None);
    assert_eq!(parse_range("bytes=+5-10", 100), None, "a sign is no part of a range");
    assert_eq!(parse_range("bytes=5-+10", 100), None);
    assert_eq!(parse_range("bytes=-+10", 100), None);
    assert_eq!(parse_range("bytes=5-10", 100), Some((5, 10)));
    assert_eq!(parse_range("bytes=0-100", 0), None, "nothing to range over in an empty file");
}

#[test]
fn http_content_type_prefers_the_scanned_container_over_the_extension() {
    assert_eq!(content_type_for(Some(Container::Matroska), Some("mkv")), "video/x-matroska");
    assert_eq!(content_type_for(Some(Container::WebM), Some("mkv")), "video/webm");
    assert_eq!(content_type_for(None, Some("mp3")), "audio/mpeg");
    assert_eq!(content_type_for(None, Some("flac")), "audio/flac");
    assert_eq!(content_type_for(None, None), "application/octet-stream");
}

#[test]
fn http_find_header_end_locates_the_blank_line_and_only_that() {
    let full = b"GET / HTTP/1.1\r\nHost: x\r\n\r\n";
    let end = find_header_end(full).expect("a complete header block must be found");
    assert_eq!(&full[end - 4..end], b"\r\n\r\n");
    assert_eq!(end, full.len(), "the blank line is the last thing in this buffer");
    assert_eq!(
        find_header_end(b"GET / HTTP/1.1\r\nHost: x\r\n"),
        None,
        "no terminating blank line yet"
    );
    assert_eq!(find_header_end(b""), None);
}

#[test]
fn a_file_is_sent_whole_in_part_or_not_at_all() {
    let whole = serve_file(1000, "video/mp4", "", None, "GET");
    assert!(whole.head.starts_with("HTTP/1.1 200 OK\r\n"), "{}", whole.head);
    assert!(whole.head.contains("Content-Length: 1000\r\n"), "{}", whole.head);
    assert_eq!(whole.body, Some((0, 1000)));
    let part = serve_file(1000, "video/mp4", "", Some("bytes=10-19"), "GET");
    assert!(part.head.contains("Content-Range: bytes 10-19/1000\r\n"), "{}", part.head);
    assert_eq!(part.body, Some((10, 10)));
    let head = serve_file(1000, "video/mp4", "", None, "HEAD");
    assert_eq!(head.body, None);
    let bad = serve_file(1000, "video/mp4", "", Some("bytes=2000-"), "GET");
    assert!(bad.head.starts_with("HTTP/1.1 416"), "{}", bad.head);
    assert_eq!(bad.body, None);
    assert_eq!(bad.head, unsatisfiable_text(1000));
    assert!(error_text(404, "Not Found").starts_with("HTTP/1.1 404 Not Found\r\n"));
    assert!(ok_head_text("text/html", 5).contains("Content-Length: 5\r\n"));
}

#[test]
fn a_request_comes_in_bit_by_bit() {
    assert_eq!(head_step(b"GET / HT", false), HeadStep::ReadMore);
    assert_eq!(head_step(b"GET / HT", true), HeadStep::GiveUp);
    assert_eq!(head_step(b"GET / HTTP/1.1\r\n\r\n", true), HeadStep::Complete(18));
    assert_eq!(head_step(&vec![b'a'; 20_000], false), HeadStep::TooLarge);
    let req = HttpRequest::parse(b"POST / HTTP/1.1\r\nContent-Length: 12\r\n\r\n").unwrap();
    assert_eq!(content_length(&req), 12);
    let odd = HttpRequest::parse(b"POST / HTTP/1.1\r\nContent-Length: many\r\n\r\n").unwrap();
    assert_eq!(content_length(&odd), 0);
}

#[test]
fn a_request_is_taken_as_soon_as_its_head_is_complete() {
    match take_request(b"GET /a HTTP/1.1\r\n\r\nrest", false) {
        Incoming::Request { request, end } => {
            assert_eq!((request.method.as_str(), request.path.as_str(), end), ("GET", "/a", 19));
        }
        other => panic!("{other:?}"),
    }
    assert!(matches!(take_request(b"GET\r\n\r\n", false), Incoming::Refuse { code: 400, .. }));
    assert!(matches!(
        take_request(&vec![b'a'; 20_000], true),
        Incoming::Refuse { code: 431, reason: "Request Header Fields Too Large" }
    ));
    assert!(matches!(take_request(b"GET", true), Incoming::GiveUp));
    assert!(matches!(take_request(b"GET", false), Incoming::ReadMore));
}
