//! Reading and quoting JSON, and the numbers in it.
use lumen_play::json::{parse, quote, Value};
use lumen_play::json_layout::{lay_array, lay_object};
use lumen_play::json_writer::{array_of, comma_list, object_of};
use lumen_play::measure::Measure;
use lumen_play::number::{read_number, Reading};
use lumen_play::numeral::{read_float, read_measure};

/// The exact value of a floating-point number.
fn measure(x: f64) -> Measure {
    if x.is_nan() {
        return Measure::NotANumber;
    }
    if x.is_infinite() {
        return Measure::Infinite { negative: x < 0.0 };
    }
    let bits = x.to_bits();
    let negative = bits >> 63 == 1;
    let biased = ((bits >> 52) & 0x7ff) as i32;
    let fraction = bits & 0xf_ffff_ffff_ffff;
    if biased == 0 && fraction == 0 {
        return Measure::Finite { negative, mantissa: 0, exponent: 0 };
    }
    if biased == 0 {
        return Measure::Finite { negative, mantissa: fraction, exponent: -1074 };
    }
    Measure::Finite {
        negative,
        mantissa: fraction | 0x10_0000_0000_0000,
        exponent: biased - 1075,
    }
}

#[test]
fn a_property_reply_is_read() {
    let v = parse(r#"{"data":23.976,"request_id":1,"error":"success"}"#).unwrap();
    assert_eq!(v.get("data").and_then(Value::as_f64), Some(measure(23.976)));
    assert_eq!(v.get("error").and_then(Value::as_str), Some("success"));
}

#[test]
fn a_path_containing_json_punctuation_survives() {
    let line = r#"{"event":"start-file","path":"/m/Movie (2019) [1080p, x265] {tag}.mkv"}"#;
    let v = parse(line).unwrap();
    assert_eq!(
        v.get("path").and_then(Value::as_str),
        Some("/m/Movie (2019) [1080p, x265] {tag}.mkv")
    );
}

#[test]
fn escapes_in_paths_are_decoded() {
    let v = parse(r#"{"path":"C:\\Media\\Film \"Director's Cut\".mkv"}"#).unwrap();
    assert_eq!(
        v.get("path").and_then(Value::as_str),
        Some(r#"C:\Media\Film "Director's Cut".mkv"#)
    );
}

#[test]
fn non_ascii_paths_survive_both_raw_and_escaped() {
    let raw = parse(r#"{"path":"/媒体/映画 Amélie.mkv"}"#).unwrap();
    assert_eq!(raw.get("path").and_then(Value::as_str), Some("/媒体/映画 Amélie.mkv"));
    let escaped = parse(r#"{"t":"Am\u00e9lie"}"#).unwrap();
    assert_eq!(escaped.get("t").and_then(Value::as_str), Some("Amélie"));
}

#[test]
fn characters_above_the_bmp_need_both_surrogate_halves() {
    let v = parse(r#"{"t":"clip \ud83c\udfac done"}"#).unwrap();
    assert_eq!(v.get("t").and_then(Value::as_str), Some("clip 🎬 done"));
    assert!(parse(r#"{"t":"\ud83c"}"#).is_err(), "an unpaired surrogate must not parse");
}

#[test]
fn nested_structures_are_readable() {
    let v = parse(r#"{"data":{"video-params":{"w":3840,"h":2160}}}"#).unwrap();
    let w = v.get("data").and_then(|d| d.get("video-params")).and_then(|p| p.get("w"));
    assert_eq!(w.and_then(Value::as_f64), Some(measure(3840.0)));
    assert_eq!(v.get("data").and_then(|d| d.get("missing")), None);
}

#[test]
fn track_lists_parse_as_arrays_of_objects() {
    let line = r#"{"data":[{"id":1,"type":"video","codec":"hevc"},
                           {"id":2,"type":"audio","codec":"truehd","lang":"eng"}]}"#;
    let v = parse(line).unwrap();
    let tracks = v.get("data").and_then(Value::as_array).unwrap();
    assert_eq!(tracks.len(), 2);
    assert_eq!(tracks[1].get("codec").and_then(Value::as_str), Some("truehd"));
}

#[test]
fn empty_containers_parse() {
    assert_eq!(parse("[]").unwrap(), Value::Array(vec![]));
    assert_eq!(parse("{}").unwrap(), Value::Object(vec![]));
    assert_eq!(parse(r#"{"data":[]}"#).unwrap().get("data").unwrap().as_array(), Some(&vec![]));
}

#[test]
fn malformed_input_is_an_error_rather_than_a_panic() {
    for bad in [
        "",
        "{",
        "}",
        "[",
        r#"{"a"}"#,
        r#"{"a":}"#,
        r#"{"a":1,}"#,
        r#""unterminated"#,
        "{\"a\":1}trailing",
        r#"{"a":"\q"}"#,
        r#"{"a":"\u00"}"#,
        "nul",
        "tru",
    ] {
        assert!(parse(bad).is_err(), "{bad:?} parsed when it should not have");
    }
}

#[test]
fn deep_nesting_is_rejected_rather_than_overflowing_the_stack() {
    let deep = format!("{}1{}", "[".repeat(500), "]".repeat(500));
    assert!(parse(&deep).is_err());
    assert_eq!(parse(&deep).unwrap_err().to_text(), "json: nesting too deep");
    let fine = format!("{}1{}", "[".repeat(63), "]".repeat(63));
    assert!(parse(&fine).is_ok());
}

fn xorshift(state: &mut u64) -> u64 {
    *state ^= *state << 13;
    *state ^= *state >> 7;
    *state ^= *state << 17;
    *state
}

#[test]
fn no_random_byte_sequence_ever_panics_the_parser_only_errors() {
    let mut state = 0x2545F4914F6CDD1Du64;
    const ALPHABET: &[u8] = b"{}[]\":,.-+0123456789tfnul\\ru\xC3\xA9\xF0\x9F\x8E\xAC \t\n";
    for _ in 0..200_000 {
        let len = (xorshift(&mut state) % 24) as usize;
        let mut buf = Vec::with_capacity(len);
        for _ in 0..len {
            let idx = (xorshift(&mut state) as usize) % ALPHABET.len();
            buf.push(ALPHABET[idx]);
        }
        if let Ok(s) = String::from_utf8(buf) {
            let _ = parse(&s);
        }
    }
}

#[test]
fn numbers_cover_the_forms_mpv_emits() {
    assert_eq!(parse("-0.004").unwrap().as_f64(), Some(measure(-0.004)));
    assert_eq!(parse("1e3").unwrap().as_f64(), Some(measure(1000.0)));
    assert_eq!(parse("0").unwrap().as_f64(), Some(measure(0.0)));
}

#[test]
fn quoting_round_trips_through_the_parser() {
    for s in [
        r#"C:\Media\Film "Cut".mkv"#,
        "tab\there",
        "Amélie 🎬",
        "/m/Movie (2019) [1080p, x265].mkv",
    ] {
        let line = format!("{{\"p\":{}}}", quote(s));
        let back = parse(&line).unwrap();
        assert_eq!(back.get("p").and_then(Value::as_str), Some(s), "round trip failed for {s:?}");
    }
}

#[test]
fn control_characters_are_escaped_when_quoted() {
    assert_eq!(quote("a\nb\r\t\u{1}"), r#""a\nb\r\t\u0001""#);
}

#[test]
fn a_name_given_twice_keeps_its_last_value() {
    let v = parse(r#"{"a":1,"b":2,"a":3}"#).unwrap();
    assert_eq!(v.get("a"), Some(&Value::Num("3".into())));
}

#[test]
fn errors_say_what_was_wrong() {
    let text = |s: &str| parse(s).unwrap_err().0;
    assert_eq!(text("nul"), "bad literal at byte 0");
    assert_eq!(text("1x"), "trailing input at byte 1");
    assert_eq!(text(r#"{"a" 1}"#), "expected `:` at byte 5, found Some('1')");
    assert_eq!(text("-"), "bad number \"-\"");
    assert_eq!(text("\"ab"), "unterminated string");
    assert_eq!(text("[1 2]"), "bad array at byte 3");
    assert_eq!(text(r#"{"a":1 2}"#), "bad object at byte 7");
}

#[test]
fn numerals_read_as_the_nearest_floating_point_number() {
    for t in [
        "0", "1", "-1", "0.1", "0.5", "23.976", "1e22", "1e23", "123456789012345678", "9007199254740993",
        "4.9e-324", "2.4e-324", "2.5e-324", "2.2250738585072011e-308", "1.7976931348623157e308",
        "1.7976931348623159e308", "1e400", "1e-400", "0.000001", "5e-1", "00012.50",
        "3.141592653589793238462643383279",
        "0.30000000000000004", "8.5e-8", "72057594037927945", "1e-1000000000000000000000",
        "1e1000000000000000000000",
    ] {
        let expected: f64 = t.parse().unwrap();
        match (read_measure(t).unwrap(), measure(expected)) {
            (
                Measure::Finite { negative: a, mantissa: 0, .. },
                Measure::Finite { negative: b, mantissa: 0, .. },
            ) => assert_eq!(a, b, "{t}"),
            (got, want) => assert_eq!(got, want, "{t}"),
        }
    }
    assert_eq!(read_measure("x"), None);
    assert_eq!(read_measure(""), None);
    assert_eq!(read_float("inf"), Some(Measure::Infinite { negative: false }));
    assert_eq!(read_float("-Infinity"), Some(Measure::Infinite { negative: true }));
    assert_eq!(read_float("NaN"), Some(Measure::NotANumber));
}

#[test]
fn random_numerals_read_as_the_standard_library_reads_them() {
    let mut state = 0x9E3779B97F4A7C15u64;
    for _ in 0..3_000 {
        let digits = xorshift(&mut state) % 10_000_000_000_000_000_000;
        let power = (xorshift(&mut state) % 660) as i64 - 340;
        let t = format!("{digits}e{power}");
        let expected: f64 = t.parse().unwrap();
        match (read_measure(&t).unwrap(), measure(expected)) {
            (
                Measure::Finite { mantissa: 0, .. },
                Measure::Finite { mantissa: 0, .. },
            ) => {}
            (got, want) => assert_eq!(got, want, "{t}"),
        }
    }
}

#[test]
fn arithmetic_rounds_as_floating_point_does() {
    let mut state = 0xD1B54A32D192ED03u64;
    let same = |got: Measure, want: f64, what: &str| match (got, measure(want)) {
        (Measure::Finite { mantissa: 0, .. }, Measure::Finite { mantissa: 0, .. }) => {}
        (g, w) => assert_eq!(g, w, "{what}"),
    };
    for _ in 0..3_000 {
        let a = f64::from_bits(xorshift(&mut state));
        let b = f64::from_bits(xorshift(&mut state));
        let (x, y) = (measure(a), measure(b));
        same(x.product(y), a * b, &format!("{a:e} * {b:e}"));
        same(x.quotient(y), a / b, &format!("{a:e} / {b:e}"));
        assert_eq!(x.is_above(y), a > b, "{a:e} > {b:e}");
        assert_eq!(x.to_i64(), a as i64, "{a:e}");
        assert_eq!(x.whole(), a as u64, "{a:e}");
    }
    let edge = [0.0, -0.0, 1.0, -2.5, f64::INFINITY, f64::NEG_INFINITY, f64::NAN, f64::MAX, 5e-324];
    for a in edge {
        for b in edge {
            let (x, y) = (measure(a), measure(b));
            same(x.product(y), a * b, &format!("{a:e} * {b:e}"));
            same(x.quotient(y), a / b, &format!("{a:e} / {b:e}"));
            assert_eq!(x.is_above(y), a > b, "{a:e} > {b:e}");
        }
    }
    for n in [1u64, 24, 9007199254740991, 1 << 53] {
        assert_eq!(Measure::of_whole(n).whole(), n);
    }
    for n in [0u64, 1, 9007199254740993, u64::MAX, 1 << 63] {
        same(Measure::of_whole(n), n as f64, &n.to_string());
    }
}

#[test]
fn measures_are_written_as_floating_point_numbers_are() {
    let mut state = 0x2545F4914F6CDD1Du64;
    for _ in 0..2_000 {
        let x = (xorshift(&mut state) % 10_000_000) as f64 / 4096.0;
        let m = measure(x);
        assert_eq!(m.fixed3(), format!("{x:.3}"));
        assert_eq!(m.rounded_text(true), format!("{x:.1}"));
        assert_eq!(m.rounded_text(false), format!("{x:.0}"));
    }
    assert_eq!(measure(0.0625).rounded_text(true), "0.1");
    assert_eq!(measure(0.25).rounded_text(true), "0.2", "ties go to even");
    assert_eq!(measure(-1.5).rounded_text(false), "-2");
    assert_eq!(measure(1e22).fixed3(), "10000000000000000000000.000");
    assert_eq!(Measure::NotANumber.rounded_text(true), "NaN");
}

#[test]
fn numbers_are_cut_off_at_their_bounds() {
    let of = |t: &str| read_number(t).unwrap();
    assert_eq!(of("3.9").to_i64(), 3);
    assert_eq!(of("-3.9").to_i64(), -3);
    assert_eq!(of("1e30").to_i64(), i64::MAX);
    assert_eq!(of("-1e30").to_i64(), i64::MIN);
    assert_eq!(of("-5").to_u64(), 0);
    assert_eq!(of("1e30").to_u64(), u64::MAX);
    assert_eq!(of("nan"), Reading::NotANumber);
    assert_eq!(read_number("abc"), None);
}

#[test]
fn what_is_put_together_reads_back() {
    let inner = array_of(&vec!["1".to_string(), quote("two"), "null".to_string()]);
    assert_eq!(inner, r#"[1,"two",null]"#);
    assert_eq!(comma_list(&vec![]), "");
    let flat = object_of(&vec![("a", inner.clone()), ("b", "true".to_string())]);
    assert_eq!(flat, r#"{"a":[1,"two",null],"b":true}"#);
    let laid = lay_object(
        &vec![("list", lay_array(&vec![flat.clone(), flat.clone()], "    ", "  "))],
        "  ",
        "",
    );
    assert!(laid.starts_with("{\n  \"list\": [\n    {\"a\""), "{laid}");
    let v = parse(&laid).unwrap();
    let list = v.get("list").and_then(Value::as_array).unwrap();
    assert_eq!(list.len(), 2);
    assert_eq!(list[1], parse(&flat).unwrap());
    assert_eq!(parse(&lay_array(&vec![], "  ", "")).unwrap(), Value::Array(vec![]));
}
