use neon_invaders::auth::{
    clock_in_range, read_clock, LATEST_CLOCK_SECS, LATEST_LINK_CLOCK_SECS,
    issue_tokens_at, refresh_session_at, request_link_at, verify_link_at,
    issue_tokens_with, redeem_magic_link, refresh_session, register_magic_link, register_player,
    request_link, verify_link,
};
use neon_invaders::board::leaderboard;
use neon_invaders::clock::now_secs;
use neon_invaders::error::{ApiError, ApiStatus};
use neon_invaders::scores::{record_score, submit_score};
use neon_invaders::store::{
    prune_expired, high_score_of, PersistedStore, Player, RefreshSession, ScoreEntry, Session, Store,
};
use neon_invaders::tokens::{generate_token, hash_token};

fn player(id: u64, name: &str) -> Player {
    Player {
        id,
        email: format!("{name}@example.com"),
        display_name: name.to_string(),
        created_at: 0,
    }
}

fn score(player_id: u64, score: u32, wave: u32) -> ScoreEntry {
    ScoreEntry { player_id, score, wave, submitted_at: 0, app_version: None }
}

fn check_error(e: ApiError, status: ApiStatus, message: &str) {
    assert_eq!(e.status, status);
    assert_eq!(e.message, message);
}

#[test]
fn hash_token_is_hex_sha256() {
    assert_eq!(
        hash_token("abc"),
        "ba7816bf8f01cfea414140de5dae2223b00361a396177a9cb410ff61f20015ad"
    );
    assert_eq!(
        hash_token(""),
        "e3b0c44298fc1c149afbf4c8996fb92427ae41e4649b934ca495991b7852b855"
    );
}

#[test]
fn generated_tokens_are_url_safe_base64_of_32_bytes() {
    let a = generate_token().unwrap();
    let b = generate_token().unwrap();
    assert_eq!(a.len(), 43);
    assert!(a.chars().all(|c| c.is_ascii_alphanumeric() || c == '-' || c == '_'));
    assert_ne!(a, b);
}

#[test]
fn api_error_constructors() {
    check_error(ApiError::bad_request("x"), ApiStatus::BadRequest, "x");
    check_error(ApiError::unauthorized("y"), ApiStatus::Unauthorized, "y");
    check_error(ApiError::internal("z"), ApiStatus::Internal, "z");
}

#[test]
fn registration_is_idempotent() {
    let mut store = Store::empty();
    let a = register_player(&mut store, "ace@example.com", 10);
    let b = register_player(&mut store, "ace@example.com", 20);
    assert_eq!(a, 1);
    assert_eq!(b, 1);
    assert_eq!(store.players.len(), 1);
    assert_eq!(store.next_player_id, 2);
    assert_eq!(store.players[0].display_name, "ace");
    assert_eq!(store.players[0].created_at, 10);
    let c = register_player(&mut store, "bee@example.com", 30);
    assert_eq!(c, 2);
}

#[test]
fn request_link_rejects_bad_address() {
    let mut store = Store::empty();
    let e = request_link(&mut store, "nope").err().unwrap();
    check_error(e, ApiStatus::BadRequest, "invalid email address");
    assert!(store.players.is_empty());
}

#[test]
fn magic_link_login_flow() {
    let mut store = Store::empty();
    let grant = request_link(&mut store, "  Ace@Example.com ").unwrap();
    assert_eq!(grant.email, "ace@example.com");
    assert_eq!(grant.player_id, 1);
    assert_eq!(store.magic_links.len(), 1);
    assert_eq!(store.magic_links[0].token_hash, hash_token(&grant.token));
    assert_eq!(store.magic_links[0].expires_at, grant.issued_at + 900);

    let auth = verify_link(&mut store, &format!(" {} ", grant.token)).unwrap();
    assert_eq!(auth.player_id, 1);
    assert_eq!(auth.email, "ace@example.com");
    assert_eq!(auth.display_name, "ace");
    assert_eq!(auth.high_score, 0);
    assert_eq!(auth.access_expires_in, 900);
    assert!(store.magic_links.is_empty());
    assert_eq!(store.access_sessions.len(), 1);
    assert_eq!(store.refresh_sessions.len(), 1);

    // A magic link works once.
    let e = verify_link(&mut store, &grant.token).err().unwrap();
    check_error(e, ApiStatus::Unauthorized, "invalid or expired magic link");
}

#[test]
fn second_link_request_replaces_the_first() {
    let mut store = Store::empty();
    let first = request_link(&mut store, "ace@example.com").unwrap();
    let second = request_link(&mut store, "ace@example.com").unwrap();
    assert_eq!(store.players.len(), 1);
    assert_eq!(store.magic_links.len(), 1);
    let e = verify_link(&mut store, &first.token).err().unwrap();
    check_error(e, ApiStatus::Unauthorized, "invalid or expired magic link");
    assert!(verify_link(&mut store, &second.token).is_ok());
}

#[test]
fn refresh_rotates_tokens() {
    let mut store = Store::empty();
    let grant = request_link(&mut store, "ace@example.com").unwrap();
    let auth = verify_link(&mut store, &grant.token).unwrap();
    let renewed = refresh_session(&mut store, &auth.refresh_token).unwrap();
    assert_eq!(renewed.player_id, auth.player_id);
    assert_ne!(renewed.refresh_token, auth.refresh_token);
    assert_eq!(store.refresh_sessions.len(), 1);
    assert_eq!(store.access_sessions.len(), 1);
    let e = refresh_session(&mut store, &auth.refresh_token).err().unwrap();
    check_error(e, ApiStatus::Unauthorized, "invalid or expired refresh token");
    // The old access token was revoked with the rotation.
    let header = format!("Bearer {}", auth.access_token);
    let e = submit_score(&mut store, Some(Some(&header)), 10, 1, None).err().unwrap();
    check_error(e, ApiStatus::Unauthorized, "invalid or expired access token");
}

#[test]
fn login_of_a_removed_player_is_refused() {
    let mut store = Store::empty();
    let pid = register_player(&mut store, "ghost@example.com", 5);
    register_magic_link(&mut store, pid, "tok", 5);
    store.players.clear();
    let e = redeem_magic_link(&mut store, "tok", 6).err().unwrap();
    check_error(e, ApiStatus::Internal, "player not found");
    assert!(store.magic_links.is_empty());
}

#[test]
fn expired_magic_link_is_refused() {
    let mut store = Store::empty();
    let pid = register_player(&mut store, "late@example.com", 5);
    register_magic_link(&mut store, pid, "tok", 5);
    let e = redeem_magic_link(&mut store, "tok", 5 + 901).err().unwrap();
    check_error(e, ApiStatus::Unauthorized, "invalid or expired magic link");
    let e = redeem_magic_link(&mut Store::empty(), "tok", 0).err().unwrap();
    check_error(e, ApiStatus::Unauthorized, "invalid or expired magic link");
}

#[test]
fn magic_link_still_valid_at_its_expiry_second() {
    let mut store = Store::empty();
    let pid = register_player(&mut store, "edge@example.com", 5);
    register_magic_link(&mut store, pid, "tok", 5);
    let p = redeem_magic_link(&mut store, "tok", 905).unwrap();
    assert_eq!(p.id, pid);
}

#[test]
fn issue_tokens_revokes_earlier_ones() {
    let mut store = Store::empty();
    let pid = register_player(&mut store, "ace@example.com", 0);
    let p = store.players[0].duplicate();
    store.scores.push(score(pid, 70, 2));
    let first = issue_tokens_with(&mut store, &p, 100, "a1".to_string(), "r1".to_string());
    assert_eq!(first.high_score, 70);
    let _second = issue_tokens_with(&mut store, &p, 200, "a2".to_string(), "r2".to_string());
    assert_eq!(store.access_sessions.len(), 1);
    assert_eq!(store.access_sessions[0].token_hash, hash_token("a2"));
    assert_eq!(store.access_sessions[0].expires_at, 1100);
    assert_eq!(store.refresh_sessions.len(), 1);
    assert_eq!(store.refresh_sessions[0].token_hash, hash_token("r2"));
    assert_eq!(store.refresh_sessions[0].issued_at, 200);
    assert_eq!(store.refresh_sessions[0].expires_at, 200 + 2_592_000);
}

#[test]
fn prune_keeps_only_live_sessions() {
    let mut store = Store::empty();
    store.magic_links.push(Session { player_id: 1, token_hash: "a".into(), expires_at: 9 });
    store.magic_links.push(Session { player_id: 1, token_hash: "b".into(), expires_at: 10 });
    store.access_sessions.push(Session { player_id: 2, token_hash: "c".into(), expires_at: 11 });
    store.refresh_sessions.push(RefreshSession {
        player_id: 3,
        token_hash: "d".into(),
        issued_at: 0,
        expires_at: 5,
    });
    prune_expired(&mut store, 10);
    assert_eq!(store.magic_links.len(), 1);
    assert_eq!(store.magic_links[0].token_hash, "b");
    assert_eq!(store.access_sessions.len(), 1);
    assert!(store.refresh_sessions.is_empty());
}

#[test]
fn submit_score_errors() {
    let mut store = Store::empty();
    let e = submit_score(&mut store, Some(Some("Bearer x")), 0, 1, None).err().unwrap();
    check_error(e, ApiStatus::BadRequest, "score must be greater than zero");
    let e = submit_score(&mut store, None, 5, 1, None).err().unwrap();
    check_error(e, ApiStatus::Unauthorized, "missing authorization header");
    let e = submit_score(&mut store, Some(Some("Token x")), 5, 1, None).err().unwrap();
    check_error(e, ApiStatus::Unauthorized, "expected bearer token");
    let e = submit_score(&mut store, Some(Some("Bearer x")), 5, 1, None).err().unwrap();
    check_error(e, ApiStatus::Unauthorized, "invalid or expired access token");
    assert!(store.scores.is_empty());
}

#[test]
fn submitted_score_gives_best_and_rank() {
    let mut store = Store::empty();
    let ace = register_player(&mut store, "ace@example.com", 0);
    let bee = register_player(&mut store, "bee@example.com", 0);
    store.scores.push(score(bee, 500, 3));
    let p = store.players[0].duplicate();
    let now = now_secs();
    issue_tokens_with(&mut store, &p, now, "acc".to_string(), "ref".to_string());
    let header = "Bearer acc";
    let r = submit_score(&mut store, Some(Some(header)), 300, 2, Some("1.0".to_string())).unwrap();
    assert!(r.accepted);
    assert_eq!(r.personal_best, 300);
    assert_eq!(r.rank, 2);
    assert_eq!(store.scores.len(), 2);
    assert_eq!(store.scores[1].player_id, ace);
    assert_eq!(store.scores[1].app_version.as_deref(), Some("1.0"));
    let r = submit_score(&mut store, Some(Some(header)), 100, 1, None).unwrap();
    assert_eq!(r.personal_best, 300);
    assert_eq!(r.rank, 2);
    let r = submit_score(&mut store, Some(Some(header)), 500, 4, None).unwrap();
    assert_eq!(r.personal_best, 500);
    assert_eq!(r.rank, 1);
    assert_eq!(high_score_of(&store.scores, ace), 500);
}

#[test]
fn record_score_with_an_expired_token_is_refused() {
    let mut store = Store::empty();
    register_player(&mut store, "ace@example.com", 0);
    let p = store.players[0].duplicate();
    issue_tokens_with(&mut store, &p, 0, "acc".to_string(), "ref".to_string());
    let e = record_score(&mut store, "acc", 10, 1, None, 901).err().unwrap();
    check_error(e, ApiStatus::Unauthorized, "invalid or expired access token");
    assert!(store.access_sessions.is_empty());
    let ok = record_score(&mut Store::empty(), "acc", 10, 1, None, 0);
    assert!(ok.is_err());
}

#[test]
fn leaderboard_ranks_best_scores() {
    let mut store = Store::empty();
    store.players.push(player(1, "ace"));
    store.players.push(player(2, "bee"));
    store.players.push(player(3, "cat"));
    store.players.push(player(4, "dog"));
    store.scores.push(score(1, 100, 2));
    store.scores.push(score(2, 300, 1));
    store.scores.push(score(1, 300, 4));
    store.scores.push(score(3, 300, 4));
    store.scores.push(score(9, 999, 9));
    store.scores.push(score(2, 50, 7));
    let board = leaderboard(&store, None);
    let rows: Vec<(usize, u64, &str, u32, u32)> = board
        .iter()
        .map(|e| (e.rank, e.player_id, e.display_name.as_str(), e.score, e.wave))
        .collect();
    assert_eq!(
        rows,
        vec![(1, 1, "ace", 300, 4), (2, 3, "cat", 300, 4), (3, 2, "bee", 300, 1)]
    );
}

#[test]
fn leaderboard_limit_is_clamped() {
    let mut store = Store::empty();
    for id in 1..=30u64 {
        store.players.push(player(id, &format!("p{id:02}")));
        store.scores.push(score(id, id as u32 * 10, 1));
    }
    assert_eq!(leaderboard(&store, None).len(), 20);
    assert_eq!(leaderboard(&store, Some(0)).len(), 1);
    assert_eq!(leaderboard(&store, Some(5)).len(), 5);
    assert_eq!(leaderboard(&store, Some(1000)).len(), 30);
    let top = leaderboard(&store, Some(1));
    assert_eq!(top[0].player_id, 30);
    assert_eq!(top[0].rank, 1);
}

#[test]
fn persisted_round_trip_keeps_saved_parts() {
    let mut store = Store::empty();
    register_player(&mut store, "ace@example.com", 3);
    store.scores.push(score(1, 10, 1));
    store.magic_links.push(Session { player_id: 1, token_hash: "x".into(), expires_at: 1 });
    let saved: PersistedStore = store.persisted();
    assert_eq!(saved.next_player_id, 2);
    let back = Store::from_persisted(saved);
    assert_eq!(back.players.len(), 1);
    assert_eq!(back.scores.len(), 1);
    assert!(back.magic_links.is_empty());
    let zero = Store::from_persisted(PersistedStore {
        next_player_id: 0,
        players: Vec::new(),
        scores: Vec::new(),
        refresh_sessions: Vec::new(),
    });
    assert_eq!(zero.next_player_id, 1);
}

#[test]
fn clock_readings_in_range() {
    assert_eq!(clock_in_range(0).ok(), Some(0));
    assert_eq!(clock_in_range(LATEST_CLOCK_SECS).ok(), Some(LATEST_CLOCK_SECS));
    let e = clock_in_range(LATEST_CLOCK_SECS + 1).err().unwrap();
    check_error(e, ApiStatus::Internal, "clock out of range");
    let e = clock_in_range(u64::MAX).err().unwrap();
    check_error(e, ApiStatus::Internal, "clock out of range");
    assert!(read_clock().unwrap() > 1_600_000_000);
}

#[test]
fn link_requests_are_served_until_the_link_expiry_overflows() {
    let mut store = Store::empty();
    let late = LATEST_CLOCK_SECS + 1;
    let grant = request_link_at(&mut store, "ace@example.com", late).unwrap();
    assert_eq!(grant.issued_at, late);
    assert_eq!(store.magic_links[0].expires_at, late + 900);
    let grant = request_link_at(&mut store, "ace@example.com", LATEST_LINK_CLOCK_SECS).unwrap();
    assert_eq!(store.magic_links[0].expires_at, u64::MAX);
    assert_eq!(grant.player_id, 1);
    let e = request_link_at(&mut store, "bee@example.com", LATEST_LINK_CLOCK_SECS + 1)
        .err()
        .unwrap();
    check_error(e, ApiStatus::Internal, "clock out of range");
    // The address was registered before the clock refused the link.
    assert_eq!(store.players.len(), 2);
}

#[test]
fn invalid_address_is_refused_even_with_a_full_id_counter() {
    let mut store = Store::empty();
    store.next_player_id = u64::MAX;
    let e = request_link_at(&mut store, "bad", 5).err().unwrap();
    check_error(e, ApiStatus::BadRequest, "invalid email address");
    assert_eq!(store.next_player_id, u64::MAX);
}

#[test]
fn token_pair_needs_room_for_the_refresh_expiry() {
    let mut store = Store::empty();
    register_player(&mut store, "ace@example.com", 0);
    let p = store.players[0].duplicate();
    let e = issue_tokens_at(&mut store, &p, LATEST_CLOCK_SECS + 1).err().unwrap();
    check_error(e, ApiStatus::Internal, "clock out of range");
    assert!(store.access_sessions.is_empty());
    let auth = issue_tokens_at(&mut store, &p, LATEST_CLOCK_SECS).unwrap();
    assert_eq!(auth.access_token.len(), 43);
    assert_eq!(store.refresh_sessions[0].expires_at, u64::MAX);
}

#[test]
fn login_at_a_given_reading() {
    let mut store = Store::empty();
    let grant = request_link_at(&mut store, "ace@example.com", 100).unwrap();
    let e = verify_link_at(&mut store, "nope", 500).err().unwrap();
    check_error(e, ApiStatus::Unauthorized, "invalid or expired magic link");
    let auth = verify_link_at(&mut store, &grant.token, 1000).unwrap();
    assert_eq!(store.access_sessions[0].expires_at, 1900);
    let e = refresh_session_at(&mut store, "nope", 1500).err().unwrap();
    check_error(e, ApiStatus::Unauthorized, "invalid or expired refresh token");
    let renewed = refresh_session_at(&mut store, &auth.refresh_token, 2000).unwrap();
    assert_eq!(renewed.player_id, auth.player_id);
    assert_eq!(store.refresh_sessions[0].issued_at, 2000);
}

#[test]
fn token_hashes_are_64_hex_digits() {
    let h = hash_token("any token at all");
    assert_eq!(h.len(), 64);
    assert!(h.chars().all(|c| c.is_ascii_digit() || ('a'..='f').contains(&c)));
}
