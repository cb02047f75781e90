//! Pairing: codes, tokens, attempts, and the devices that were paired.
use lumen_play::args::{unpair_asked, Unpair};
use lumen_play::remote::devices::{list_devices, unpair};
use lumen_play::remote::pairing::{
    dirs_next_config_dir, generate_code, generate_token, judge, AttemptLimiter, PairResult,
    PendingCode, Platform, TokenStore, CODE_LIFETIME,
};
use lumen_play::remote::random::{first_16, random_bytes_16, random_code, random_u32};

const SECOND: i128 = 1_000_000_000;
const NOW: i128 = 1_000_000 * SECOND;

#[test]
fn a_code_is_always_six_digits() {
    for seed in [0u32, 1, 999_999, 1_000_000, u32::MAX] {
        let code = generate_code(seed);
        assert_eq!(code.len(), 6, "{seed} produced {code:?}");
        assert!(code.chars().all(|c| c.is_ascii_digit()));
    }
    assert_eq!(generate_code(1_000_042), "000042");
}

#[test]
fn a_token_is_32_lowercase_hex_characters() {
    let token = generate_token([0xAB; 16]);
    assert_eq!(token.len(), 32);
    assert!(token.chars().all(|c| c.is_ascii_hexdigit() && !c.is_ascii_uppercase()));
    assert!(token.starts_with("abababab"));
}

#[test]
fn the_right_code_in_time_is_accepted() {
    let pending =
        PendingCode { code: "123456".into(), expires_at: NOW + i128::from(CODE_LIFETIME) };
    assert_eq!(judge(&pending, "123456", NOW), PairResult::Accepted);
}

#[test]
fn the_wrong_code_is_rejected_even_before_it_would_expire() {
    let pending =
        PendingCode { code: "123456".into(), expires_at: NOW + i128::from(CODE_LIFETIME) };
    assert_eq!(judge(&pending, "654321", NOW), PairResult::WrongCode);
}

#[test]
fn the_right_code_after_it_expired_is_still_rejected() {
    let pending = PendingCode { code: "123456".into(), expires_at: NOW - SECOND };
    assert_eq!(judge(&pending, "123456", NOW), PairResult::Expired);
}

#[test]
fn a_token_store_round_trips_through_disk() {
    let mut store = TokenStore::from_text("");
    assert!(!store.is_valid("abc123"), "nothing paired yet");
    store.add("abc123".into());
    let text = TokenStore::line_for("abc123");
    let reloaded = TokenStore::from_text(&text);
    assert!(reloaded.is_valid("abc123"), "a restart must not un-pair an existing device");
    assert!(!reloaded.is_valid("someone-elses-token"));
    let more = format!("{text}\n  {}", TokenStore::line_for("def456"));
    let both = TokenStore::from_text(&more);
    assert!(both.is_valid("abc123") && both.is_valid("def456"));
    assert_eq!(both.len(), 2, "an empty line is no token");
}

#[test]
fn a_missing_token_file_is_an_empty_store_not_an_error() {
    let store = TokenStore::new();
    assert!(!store.is_valid("anything"));
    assert!(store.is_empty());
}

#[test]
fn the_attempt_limiter_allows_up_to_the_configured_maximum() {
    let mut limiter = AttemptLimiter::new(3, 60 * SECOND as u64);
    assert!(limiter.record(NOW));
    assert!(limiter.record(NOW));
    assert!(limiter.record(NOW));
    assert!(!limiter.record(NOW), "a fourth attempt within the window must be refused");
}

#[test]
fn the_attempt_limiter_forgets_attempts_once_they_age_out_of_the_window() {
    let mut limiter = AttemptLimiter::new(1, 60 * SECOND as u64);
    assert!(limiter.record(NOW));
    assert!(!limiter.record(NOW), "the window has not elapsed yet");
    let later = NOW + 61 * SECOND;
    assert!(limiter.record(later), "the earlier attempt should have aged out by now");
}

#[test]
fn the_usual_policy_is_five_attempts_a_minute() {
    let mut limiter = AttemptLimiter::default_policy();
    for i in 0..5 {
        assert!(limiter.record(NOW + i), "{i}");
    }
    assert!(!limiter.record(NOW + 59 * SECOND));
    assert!(limiter.record(NOW + 61 * SECOND));
}

#[test]
fn paired_devices_are_listed_by_how_their_tokens_begin() {
    let mut store = TokenStore::new();
    assert_eq!(list_devices(&store), "no devices are currently paired\n");
    store.add("ffff0000ffff0000".into());
    store.add("0123456789abcdef".into());
    assert_eq!(
        list_devices(&store),
        "2 paired devices:\n  01234567…\n  ffff0000…\n\nrevoke one with: lumen unpair <prefix-shown-above>\n"
    );
}

#[test]
fn devices_are_revoked_by_prefix_or_all_at_once() {
    let argv = |a: &[&str]| a.iter().map(|s| (*s).to_string()).collect::<Vec<_>>();
    let mut store = TokenStore::new();
    for t in ["aaaa1111", "aaaa2222", "bbbb3333"] {
        store.add(t.to_string());
    }
    assert!(matches!(unpair_asked(&argv(&[])), Unpair::List));
    assert!(matches!(unpair_asked(&argv(&["aaaa", "--all"])), Unpair::All));
    let asked = unpair_asked(&argv(&["--quiet", "aaaa"]));
    let done = unpair(&mut store, &asked).unwrap();
    assert_eq!(done.text, "revoked 2 devices\n");
    assert!(done.changed);
    assert_eq!(store.tokens(), &vec!["bbbb3333".to_string()]);
    let err = unpair(&mut store, &Unpair::Matching("zz".into())).unwrap_err();
    assert_eq!(err, "no paired device matches \"zz\"");
    let shown = unpair(&mut store, &Unpair::List).unwrap();
    assert!(!shown.changed);
    let all = unpair(&mut store, &Unpair::All).unwrap();
    assert_eq!(all.text, "revoked 1 paired device\n");
    assert!(store.is_empty());
}

#[test]
fn the_configuration_directory_follows_the_platform() {
    let dir = |p, a, x, h| dirs_next_config_dir(p, a, x, h, "/tmp");
    assert_eq!(dir(Platform::Other, None, Some("/x"), Some("/home/u")), "/x");
    assert_eq!(dir(Platform::Other, None, None, Some("/home/u")), "/home/u/.config");
    assert_eq!(dir(Platform::Other, None, None, None), "/tmp");
    assert_eq!(
        dir(Platform::MacOs, None, None, Some("/Users/u")),
        "/Users/u/Library/Application Support"
    );
    assert_eq!(dir(Platform::Windows, Some("C:\\A"), None, None), "C:\\A");
    assert_eq!(TokenStore::default_path("/c"), "/c/lumen/paired-clients.txt");
}

#[test]
fn chance_gives_something_new_each_time() {
    assert_ne!(random_bytes_16().unwrap(), random_bytes_16().unwrap());
    let _ = random_u32().unwrap();
    let code = random_code().unwrap();
    assert_eq!(code.len(), 6);
    assert_eq!(first_16(&(0..20).collect()), [0, 1, 2, 3, 4, 5, 6, 7, 8, 9, 10, 11, 12, 13, 14, 15]);
}
