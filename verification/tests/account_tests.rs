use neon_invaders::account::{bearer_token, default_display_name, if_empty_then, normalize_email};
use neon_invaders::auth::magic_link_url;
use neon_invaders::error::ApiStatus;
use neon_invaders::text::{eq_ignore_ascii_case, to_ascii_lowercase, trim};

#[test]
fn normalize_email_trims_and_lowercases() {
    assert_eq!(normalize_email("  Ace@Example.COM \n").unwrap(), "ace@example.com");
}

#[test]
fn normalize_email_is_idempotent_on_an_example() {
    let once = normalize_email(" Pilot@Neon.io ").unwrap();
    let twice = normalize_email(&once).unwrap();
    assert_eq!(once, twice);
}

#[test]
fn normalize_email_rejects_bad_shapes() {
    for bad in ["", "a@b", "abcde", "@abcd", "abcd@", "  @ab.c  ", "abc@"] {
        let e = normalize_email(bad).unwrap_err();
        assert_eq!(e.status, ApiStatus::BadRequest);
        assert_eq!(e.message, "invalid email address");
    }
}

#[test]
fn normalize_email_accepts_five_bytes() {
    assert_eq!(normalize_email("a@b.c").unwrap(), "a@b.c");
}

#[test]
fn default_display_name_keeps_allowed_local_characters() {
    assert_eq!(default_display_name("ace.pilot+x@example.com"), "acepilotx");
    assert_eq!(default_display_name("star_fox-9@a.io"), "star_fox-9");
}

#[test]
fn default_display_name_takes_sixteen_characters() {
    assert_eq!(
        default_display_name("abcdefghijklmnopqrstuvwxyz@a.io"),
        "abcdefghijklmnop"
    );
}

#[test]
fn default_display_name_falls_back_to_pilot() {
    assert_eq!(default_display_name("...@example.com"), "pilot");
    assert_eq!(default_display_name("@example.com"), "pilot");
}

#[test]
fn default_display_name_without_at_uses_whole_text() {
    assert_eq!(default_display_name("neon"), "neon");
}

#[test]
fn if_empty_then_picks_fallback_only_for_empty() {
    assert_eq!(if_empty_then(String::new(), "pilot"), "pilot");
    assert_eq!(if_empty_then("ace".to_string(), "pilot"), "ace");
}

#[test]
fn bearer_token_extracts_and_trims() {
    assert_eq!(bearer_token(Some(Some("Bearer  abc  "))).unwrap(), "abc");
}

#[test]
fn bearer_token_refusals() {
    let e = bearer_token(None).unwrap_err();
    assert_eq!(e.status, ApiStatus::Unauthorized);
    assert_eq!(e.message, "missing authorization header");
    let e = bearer_token(Some(None)).unwrap_err();
    assert_eq!(e.status, ApiStatus::Unauthorized);
    assert_eq!(e.message, "invalid authorization header");
    let e = bearer_token(Some(Some("bearer abc"))).unwrap_err();
    assert_eq!(e.status, ApiStatus::Unauthorized);
    assert_eq!(e.message, "expected bearer token");
    let e = bearer_token(Some(Some("Basic abc"))).unwrap_err();
    assert_eq!(e.message, "expected bearer token");
}

#[test]
fn magic_link_url_strips_trailing_slashes() {
    assert_eq!(
        magic_link_url("http://127.0.0.1:8787//", "tok"),
        "http://127.0.0.1:8787/verify?token=tok"
    );
    assert_eq!(magic_link_url("https://a.io", "x"), "https://a.io/verify?token=x");
}

#[test]
fn text_helpers_match_std() {
    assert_eq!(trim("\t  hi there \u{3000}"), "hi there");
    assert_eq!(to_ascii_lowercase("ÄbC"), "Äbc");
    assert!(eq_ignore_ascii_case("Ace", "aCE"));
    assert!(!eq_ignore_ascii_case("Ace", "Aces"));
}
