//! The login flows of the score server: e-mail magic links, access and
//! refresh tokens.

use crate::account::{default_display_name, display_name_for, email_acceptable, normalize_email, normalized_email};
use crate::clock::now_secs;
use crate::error::{error_is, ApiError, ApiStatus};
use crate::store::{
    player_views, pruned, refresh_views, refreshes_not_of, retain_refreshes_not_of,
    retain_sessions_not_of, session_views, sessions_not_of, prune_expired, high_score_of,
    best_score, Player, PlayerView, RefreshSession, RefreshView, Session, SessionView, Store,
    StoreModel, ACCESS_TOKEN_TTL_SECS, MAGIC_LINK_TTL_SECS, REFRESH_TOKEN_TTL_SECS,
};
use crate::text::{trim, trimmed};
use crate::tokens::{generate_token, hash_token, is_session_token, token_hash};
use vstd::prelude::*;

verus! {

/// The latest clock reading at which every session expiry still fits in a
/// `u64`.
pub const LATEST_CLOCK_SECS: u64 = 18446744073706959615;

/// `r` is what a clock reading of `now` gives: the reading itself when a
/// session expiry from it fits in a `u64`, else the "clock out of range"
/// error.
pub open spec fn clock_outcome(now: u64, r: Result<u64, ApiError>) -> bool {
    if now <= LATEST_CLOCK_SECS {
        r == Ok::<u64, ApiError>(now)
    } else {
        r matches Err(e) && error_is(e, ApiStatus::Internal, "clock out of range"@)
    }
}

/// Accepts a clock reading at which every session expiry still fits in a
/// `u64`; refuses a later one.
pub fn clock_in_range(now: u64) -> (r: Result<u64, ApiError>)
    ensures
        clock_outcome(now, r),
{
    if now > LATEST_CLOCK_SECS {
        return Err(ApiError::internal("clock out of range"));
    }
    Ok(now)
}

/// Reads the clock; refuses readings so late that a session expiry would not
/// fit in a `u64`. Which reading the clock gives is up to the system.
pub fn read_clock() -> (r: Result<u64, ApiError>)
    ensures
        exists|now: u64| #[trigger] clock_outcome(now, r),
        match r {
            Ok(now) => now <= LATEST_CLOCK_SECS,
            Err(e) => error_is(e, ApiStatus::Internal, "clock out of range"@),
        },
{
    let now = now_secs();
    let r = clock_in_range(now);
    assert(clock_outcome(now, r));
    r
}

/// `i` is the first player in `ps` with address `email`.
pub open spec fn is_first_with_email(ps: Seq<PlayerView>, email: Seq<char>, i: int) -> bool {
    &&& 0 <= i < ps.len()
    &&& ps[i].email == email
    &&& forall|j: int| 0 <= j < i ==> (#[trigger] ps[j]).email != email
}

/// Some player in `ps` has address `email`.
pub open spec fn has_email(ps: Seq<PlayerView>, email: Seq<char>) -> bool {
    exists|i: int| 0 <= i < ps.len() && (#[trigger] ps[i]).email == email
}

/// The first player with address `email`.
pub open spec fn player_with_email(ps: Seq<PlayerView>, email: Seq<char>) -> PlayerView {
    ps[choose|i: int| is_first_with_email(ps, email, i)]
}

/// `i` is the first player in `ps` with id `id`.
pub open spec fn is_first_with_id(ps: Seq<PlayerView>, id: u64, i: int) -> bool {
    &&& 0 <= i < ps.len()
    &&& ps[i].id == id
    &&& forall|j: int| 0 <= j < i ==> (#[trigger] ps[j]).id != id
}

/// Some player in `ps` has id `id`.
pub open spec fn has_player(ps: Seq<PlayerView>, id: u64) -> bool {
    exists|i: int| 0 <= i < ps.len() && (#[trigger] ps[i]).id == id
}

/// The first player with id `id`.
pub open spec fn player_with_id(ps: Seq<PlayerView>, id: u64) -> PlayerView {
    ps[choose|i: int| is_first_with_id(ps, id, i)]
}

/// Whether session `s` is redeemed by a token with hash `hash` at `now`.
pub open spec fn session_matches(s: SessionView, hash: Seq<char>, now: u64) -> bool {
    s.token_hash == hash && s.expires_at >= now
}

/// `i` is the first session in `ls` that a token with hash `hash` redeems.
pub open spec fn is_first_match(ls: Seq<SessionView>, hash: Seq<char>, now: u64, i: int) -> bool {
    &&& 0 <= i < ls.len()
    &&& session_matches(ls[i], hash, now)
    &&& forall|j: int| 0 <= j < i ==> !session_matches(#[trigger] ls[j], hash, now)
}

/// Some session in `ls` is redeemed by a token with hash `hash` at `now`.
pub open spec fn has_match(ls: Seq<SessionView>, hash: Seq<char>, now: u64) -> bool {
    exists|i: int| 0 <= i < ls.len() && session_matches(#[trigger] ls[i], hash, now)
}

/// The index of the first session that a token with hash `hash` redeems.
pub open spec fn match_index(ls: Seq<SessionView>, hash: Seq<char>, now: u64) -> int {
    choose|i: int| is_first_match(ls, hash, now, i)
}

/// Whether refresh session `s` is redeemed by a token with hash `hash`.
pub open spec fn refresh_matches(s: RefreshView, hash: Seq<char>, now: u64) -> bool {
    s.token_hash == hash && s.expires_at >= now
}

/// `i` is the first refresh session that a token with hash `hash` redeems.
pub open spec fn is_first_refresh(ls: Seq<RefreshView>, hash: Seq<char>, now: u64, i: int) -> bool {
    &&& 0 <= i < ls.len()
    &&& refresh_matches(ls[i], hash, now)
    &&& forall|j: int| 0 <= j < i ==> !refresh_matches(#[trigger] ls[j], hash, now)
}

/// Some refresh session is redeemed by a token with hash `hash` at `now`.
pub open spec fn has_refresh(ls: Seq<RefreshView>, hash: Seq<char>, now: u64) -> bool {
    exists|i: int| 0 <= i < ls.len() && refresh_matches(#[trigger] ls[i], hash, now)
}

/// The index of the first refresh session a token with hash `hash` redeems.
pub open spec fn refresh_index(ls: Seq<RefreshView>, hash: Seq<char>, now: u64) -> int {
    choose|i: int| is_first_refresh(ls, hash, now, i)
}

/// The id under which `email` is (or will be) registered.
pub open spec fn player_for(m: StoreModel, email: Seq<char>) -> u64 {
    if has_email(m.players, email) {
        player_with_email(m.players, email).id
    } else {
        m.next_player_id
    }
}

/// The store once `email` is registered: unchanged when a player already
/// has that address, else with a new player under the next free id.
pub open spec fn with_player(m: StoreModel, email: Seq<char>, now: u64) -> StoreModel {
    if has_email(m.players, email) {
        m
    } else {
        StoreModel {
            next_player_id: (m.next_player_id + 1) as u64,
            players: m.players.push(
                PlayerView {
                    id: m.next_player_id,
                    email,
                    display_name: display_name_for(email),
                    created_at: now,
                },
            ),
            ..m
        }
    }
}

/// The store with a magic link for `token` issued to `pid` at `now`; it
/// replaces the player's earlier links.
pub open spec fn with_magic_link(m: StoreModel, pid: u64, token: Seq<char>, now: u64) -> StoreModel {
    StoreModel {
        magic_links: sessions_not_of(m.magic_links, pid).push(
            SessionView { player_id: pid, token_hash: token_hash(token), expires_at: (now + MAGIC_LINK_TTL_SECS) as u64 },
        ),
        ..m
    }
}

/// The store with fresh access and refresh tokens for `pid` issued at
/// `now`; they replace the player's earlier ones.
pub open spec fn with_tokens(
    m: StoreModel,
    pid: u64,
    now: u64,
    access_token: Seq<char>,
    refresh_token: Seq<char>,
) -> StoreModel {
    StoreModel {
        access_sessions: sessions_not_of(m.access_sessions, pid).push(
            SessionView {
                player_id: pid,
                token_hash: token_hash(access_token),
                expires_at: (now + ACCESS_TOKEN_TTL_SECS) as u64,
            },
        ),
        refresh_sessions: refreshes_not_of(m.refresh_sessions, pid).push(
            RefreshView {
                player_id: pid,
                token_hash: token_hash(refresh_token),
                issued_at: now,
                expires_at: (now + REFRESH_TOKEN_TTL_SECS) as u64,
            },
        ),
        ..m
    }
}

/// The first player with address `email`, if any.
pub fn find_player_by_email(players: &Vec<Player>, email: &str) -> (r: Option<usize>)
    ensures
        match r {
            Some(i) => is_first_with_email(player_views(players@), email@, i as int),
            None => !has_email(player_views(players@), email@),
        },
{
    let mut i: usize = 0;
    while i < players.len()
        invariant
            i <= players@.len(),
            forall|j: int| 0 <= j < i ==> (#[trigger] players@[j]).email@ != email@,
        decreases players@.len() - i,
    {
        if crate::text::same_text(players[i].email.as_str(), email) {
            return Some(i);
        }
        i = i + 1;
    }
    proof {
        let ps = player_views(players@);
        assert forall|j: int| 0 <= j < ps.len() implies (#[trigger] ps[j]).email != email@ by {
            assert(players@[j].email@ != email@);
        }
    }
    None
}

/// The first player with id `id`, if any.
pub fn find_player_by_id(players: &Vec<Player>, id: u64) -> (r: Option<usize>)
    ensures
        match r {
            Some(i) => is_first_with_id(player_views(players@), id, i as int),
            None => !has_player(player_views(players@), id),
        },
{
    let mut i: usize = 0;
    while i < players.len()
        invariant
            i <= players@.len(),
            forall|j: int| 0 <= j < i ==> (#[trigger] players@[j]).id != id,
        decreases players@.len() - i,
    {
        if players[i].id == id {
            return Some(i);
        }
        i = i + 1;
    }
    proof {
        let ps = player_views(players@);
        assert forall|j: int| 0 <= j < ps.len() implies (#[trigger] ps[j]).id != id by {
            assert(players@[j].id != id);
        }
    }
    None
}

/// Registers `email` unless a player already has it; returns the player's
/// id.
pub fn register_player(store: &mut Store, email: &str, now: u64) -> (pid: u64)
    requires
        !has_email(old(store)@.players, email@) ==> old(store).next_player_id < u64::MAX,
    ensures
        pid == player_for(old(store)@, email@),
        final(store)@ == with_player(old(store)@, email@, now),
{
    match find_player_by_email(&store.players, email) {
        Some(i) => {
            proof {
                assert(has_email(old(store)@.players, email@)) by {
                    assert(old(store)@.players[i as int].email == email@);
                }
                let c = choose|k: int| is_first_with_email(old(store)@.players, email@, k);
                assert(c == i as int);
            }
            store.players[i].id
        },
        None => {
            let pid = store.next_player_id;
            store.next_player_id = pid + 1;
            let player = Player {
                id: pid,
                email: email.to_owned(),
                display_name: default_display_name(email),
                created_at: now,
            };
            store.players.push(player);
            proof {
                assert(player_views(store.players@) =~= player_views(old(store).players@).push(
                    player@,
                ));
            }
            pid
        },
    }
}

/// Issues a magic link for `token` to `pid`, replacing the player's
/// earlier links.
pub fn register_magic_link(store: &mut Store, pid: u64, token: &str, now: u64)
    requires
        now <= LATEST_LINK_CLOCK_SECS,
    ensures
        final(store)@ == with_magic_link(old(store)@, pid, token@, now),
{
    let token_hash = hash_token(token);
    retain_sessions_not_of(&mut store.magic_links, pid);
    let ghost kept = store.magic_links@;
    let session = Session { player_id: pid, token_hash, expires_at: now + MAGIC_LINK_TTL_SECS };
    store.magic_links.push(session);
    proof {
        assert(session_views(store.magic_links@) =~= session_views(kept).push(session@));
    }
}

/// What a successful login request produces: the normalised address, its
/// player and the token that the magic link carries.
pub struct LinkGrant {
    pub email: String,
    pub player_id: u64,
    pub token: String,
    pub issued_at: u64,
}

/// The latest clock reading at which a magic link's expiry still fits in a
/// `u64`.
pub const LATEST_LINK_CLOCK_SECS: u64 = 18446744073709550715;

/// `new` and `r` are what a login request for `raw` at clock reading `now`
/// makes of `old`. A refused address changes nothing. Otherwise expired
/// sessions are dropped and the address registered if new; then a fresh
/// token is drawn (its failure is the "failed to generate token" error),
/// the reading must leave room for the link's expiry (else "clock out of
/// range"), and the link is issued.
pub open spec fn link_request_outcome(
    old: StoreModel,
    new: StoreModel,
    raw: Seq<char>,
    now: u64,
    r: Result<LinkGrant, ApiError>,
) -> bool {
    let email = normalized_email(raw);
    if !email_acceptable(email) {
        &&& new == old
        &&& r matches Err(e)
        &&& error_is(e, ApiStatus::BadRequest, "invalid email address"@)
    } else {
        let p = pruned(old, now);
        let registered = with_player(p, email, now);
        let pid = player_for(p, email);
        match r {
            Ok(grant) => {
                &&& now <= LATEST_LINK_CLOCK_SECS
                &&& grant.email@ == email
                &&& grant.player_id == pid
                &&& grant.issued_at == now
                &&& is_session_token(grant.token@)
                &&& new == with_magic_link(registered, pid, grant.token@, now)
            },
            Err(e) => {
                &&& new == registered
                &&& if now <= LATEST_LINK_CLOCK_SECS {
                    error_is(e, ApiStatus::Internal, "failed to generate token"@)
                } else {
                    error_is(e, ApiStatus::Internal, "failed to generate token"@) || error_is(
                        e,
                        ApiStatus::Internal,
                        "clock out of range"@,
                    )
                }
            },
        }
    }
}

/// Handles a login request for `raw_email` at clock reading `now` (see
/// [`link_request_outcome`]).
pub fn request_link_at(store: &mut Store, raw_email: &str, now: u64) -> (r: Result<LinkGrant, ApiError>)
    requires
        email_acceptable(normalized_email(raw_email@)) && !has_email(
            old(store)@.players,
            normalized_email(raw_email@),
        ) ==> old(store).next_player_id < u64::MAX,
    ensures
        link_request_outcome(old(store)@, final(store)@, raw_email@, now, r),
{
    let email = match normalize_email(raw_email) {
        Ok(e) => e,
        Err(e) => {
            return Err(e);
        },
    };
    prune_expired(store, now);
    let player_id = register_player(store, email.as_str(), now);
    let token = match generate_token() {
        Ok(t) => t,
        Err(e) => {
            return Err(e);
        },
    };
    if now > LATEST_LINK_CLOCK_SECS {
        return Err(ApiError::internal("clock out of range"));
    }
    register_magic_link(store, player_id, token.as_str(), now);
    Ok(LinkGrant { email, player_id, token, issued_at: now })
}

/// Handles a login request for `raw_email`: normalises the address, drops
/// expired sessions, registers the address if new and issues a magic link
/// with a fresh token, all at the clock's current reading.
pub fn request_link(store: &mut Store, raw_email: &str) -> (r: Result<LinkGrant, ApiError>)
    requires
        email_acceptable(normalized_email(raw_email@)) && !has_email(
            old(store)@.players,
            normalized_email(raw_email@),
        ) ==> old(store).next_player_id < u64::MAX,
    ensures
        exists|now: u64| #[trigger] link_request_outcome(old(store)@, final(store)@, raw_email@, now, r),
{
    let now = now_secs();
    request_link_at(store, raw_email, now)
}

/// The store after a magic-link token is presented at `now`: expired
/// sessions dropped and the first link the token redeems removed.
pub open spec fn after_link_redeemed(m: StoreModel, token: Seq<char>, now: u64) -> StoreModel {
    let p = pruned(m, now);
    let h = token_hash(trimmed(token));
    if has_match(p.magic_links, h, now) {
        StoreModel { magic_links: p.magic_links.remove(match_index(p.magic_links, h, now)), ..p }
    } else {
        p
    }
}

/// The player that a magic-link token logs in at `now`, if any.
pub open spec fn link_redeemer(m: StoreModel, token: Seq<char>, now: u64) -> Option<PlayerView> {
    let p = pruned(m, now);
    let h = token_hash(trimmed(token));
    if has_match(p.magic_links, h, now) {
        let pid = p.magic_links[match_index(p.magic_links, h, now)].player_id;
        if has_player(p.players, pid) {
            Some(player_with_id(p.players, pid))
        } else {
            None
        }
    } else {
        None
    }
}

/// The store after a refresh token is presented at `now`: expired sessions
/// dropped and the first refresh session the token redeems removed.
pub open spec fn after_refresh_redeemed(m: StoreModel, token: Seq<char>, now: u64) -> StoreModel {
    let p = pruned(m, now);
    let h = token_hash(trimmed(token));
    if has_refresh(p.refresh_sessions, h, now) {
        StoreModel {
            refresh_sessions: p.refresh_sessions.remove(refresh_index(p.refresh_sessions, h, now)),
            ..p
        }
    } else {
        p
    }
}

/// The player that a refresh token logs in at `now`, if any.
pub open spec fn refresh_redeemer(m: StoreModel, token: Seq<char>, now: u64) -> Option<PlayerView> {
    let p = pruned(m, now);
    let h = token_hash(trimmed(token));
    if has_refresh(p.refresh_sessions, h, now) {
        let pid = p.refresh_sessions[refresh_index(p.refresh_sessions, h, now)].player_id;
        if has_player(p.players, pid) {
            Some(player_with_id(p.players, pid))
        } else {
            None
        }
    } else {
        None
    }
}

/// The first magic link that a token with hash `hash` redeems at `now`.
pub(crate) fn find_link(links: &Vec<Session>, hash: &str, now: u64) -> (r: Option<usize>)
    ensures
        match r {
            Some(i) => is_first_match(session_views(links@), hash@, now, i as int),
            None => !has_match(session_views(links@), hash@, now),
        },
{
    let mut i: usize = 0;
    while i < links.len()
        invariant
            i <= links@.len(),
            forall|j: int| 0 <= j < i ==> !session_matches(#[trigger] session_views(links@)[j], hash@, now),
        decreases links@.len() - i,
    {
        if crate::text::same_text(links[i].token_hash.as_str(), hash) && links[i].expires_at >= now {
            return Some(i);
        }
        i = i + 1;
    }
    None
}

/// The first refresh session that a token with hash `hash` redeems at `now`.
fn find_refresh(sessions: &Vec<RefreshSession>, hash: &str, now: u64) -> (r: Option<usize>)
    ensures
        match r {
            Some(i) => is_first_refresh(refresh_views(sessions@), hash@, now, i as int),
            None => !has_refresh(refresh_views(sessions@), hash@, now),
        },
{
    let mut i: usize = 0;
    while i < sessions.len()
        invariant
            i <= sessions@.len(),
            forall|j: int| 0 <= j < i ==> !refresh_matches(#[trigger] refresh_views(sessions@)[j], hash@, now),
        decreases sessions@.len() - i,
    {
        if crate::text::same_text(sessions[i].token_hash.as_str(), hash) && sessions[i].expires_at >= now {
            return Some(i);
        }
        i = i + 1;
    }
    None
}

/// A copy of the first player with id `pid`, or the internal error
/// "player not found".
fn player_by_id(players: &Vec<Player>, pid: u64) -> (r: Result<Player, ApiError>)
    ensures
        match r {
            Ok(p) => has_player(player_views(players@), pid) && p@ == player_with_id(player_views(players@), pid),
            Err(e) => !has_player(player_views(players@), pid) && error_is(e, ApiStatus::Internal, "player not found"@),
        },
{
    match find_player_by_id(players, pid) {
        Some(k) => {
            proof {
                let ps = player_views(players@);
                assert(has_player(ps, pid)) by {
                    assert(ps[k as int].id == pid);
                }
                let c = choose|x: int| is_first_with_id(ps, pid, x);
                assert(c == k as int);
            }
            Ok(players[k].duplicate())
        },
        None => Err(ApiError::internal("player not found")),
    }
}

/// Presents a magic-link token at `now`: drops expired sessions, consumes
/// the first link the token redeems and returns its player.
pub fn redeem_magic_link(store: &mut Store, token: &str, now: u64) -> (r: Result<Player, ApiError>)
    ensures
        final(store)@ == after_link_redeemed(old(store)@, token@, now),
        match r {
            Ok(p) => link_redeemer(old(store)@, token@, now) == Some(p@),
            Err(e) => link_redeemer(old(store)@, token@, now) is None && {
                let p = pruned(old(store)@, now);
                if has_match(p.magic_links, token_hash(trimmed(token@)), now) {
                    error_is(e, ApiStatus::Internal, "player not found"@)
                } else {
                    error_is(e, ApiStatus::Unauthorized, "invalid or expired magic link"@)
                }
            },
        },
{
    let token_hash = hash_token(trim(token));
    prune_expired(store, now);
    let index = match find_link(&store.magic_links, token_hash.as_str(), now) {
        Some(i) => i,
        None => {
            return Err(ApiError::unauthorized("invalid or expired magic link"));
        },
    };
    proof {
        let ls = session_views(store.magic_links@);
        assert(has_match(ls, token_hash@, now)) by {
            assert(session_matches(ls[index as int], token_hash@, now));
        }
        let c = choose|x: int| is_first_match(ls, token_hash@, now, x);
        assert(c == index as int);
    }
    let ghost before = store.magic_links@;
    let session = store.magic_links.remove(index);
    proof {
        assert(session_views(store.magic_links@) =~= session_views(before).remove(index as int));
    }
    player_by_id(&store.players, session.player_id)
}

/// Presents a refresh token at `now`: drops expired sessions, consumes the
/// first refresh session the token redeems and returns its player.
pub fn redeem_refresh_token(store: &mut Store, token: &str, now: u64) -> (r: Result<Player, ApiError>)
    ensures
        final(store)@ == after_refresh_redeemed(old(store)@, token@, now),
        match r {
            Ok(p) => refresh_redeemer(old(store)@, token@, now) == Some(p@),
            Err(e) => refresh_redeemer(old(store)@, token@, now) is None && {
                let p = pruned(old(store)@, now);
                if has_refresh(p.refresh_sessions, token_hash(trimmed(token@)), now) {
                    error_is(e, ApiStatus::Internal, "player not found"@)
                } else {
                    error_is(e, ApiStatus::Unauthorized, "invalid or expired refresh token"@)
                }
            },
        },
{
    let token_hash = hash_token(trim(token));
    prune_expired(store, now);
    let index = match find_refresh(&store.refresh_sessions, token_hash.as_str(), now) {
        Some(i) => i,
        None => {
            return Err(ApiError::unauthorized("invalid or expired refresh token"));
        },
    };
    proof {
        let ls = refresh_views(store.refresh_sessions@);
        assert(has_refresh(ls, token_hash@, now)) by {
            assert(refresh_matches(ls[index as int], token_hash@, now));
        }
        let c = choose|x: int| is_first_refresh(ls, token_hash@, now, x);
        assert(c == index as int);
    }
    let ghost before = store.refresh_sessions@;
    let session = store.refresh_sessions.remove(index);
    proof {
        assert(refresh_views(store.refresh_sessions@) =~= refresh_views(before).remove(index as int));
    }
    player_by_id(&store.players, session.player_id)
}

/// What a successful login answers: the player and a fresh token pair.
pub struct AuthResponse {
    pub player_id: u64,
    pub email: String,
    pub display_name: String,
    pub high_score: u32,
    pub access_token: String,
    pub refresh_token: String,
    pub access_expires_in: u64,
}

/// `auth` describes `player` logged in with the given tokens, with the
/// player's high score in `m`.
pub open spec fn auth_describes(
    auth: AuthResponse,
    m: StoreModel,
    player: PlayerView,
    access_token: Seq<char>,
    refresh_token: Seq<char>,
) -> bool {
    &&& auth.player_id == player.id
    &&& auth.email@ == player.email
    &&& auth.display_name@ == player.display_name
    &&& auth.high_score == best_score(m.scores, player.id)
    &&& auth.access_token@ == access_token
    &&& auth.refresh_token@ == refresh_token
    &&& auth.access_expires_in == ACCESS_TOKEN_TTL_SECS
}

/// Issues the given access and refresh tokens to `player` at `now`,
/// revoking the player's earlier ones.
pub fn issue_tokens_with(
    store: &mut Store,
    player: &Player,
    now: u64,
    access_token: String,
    refresh_token: String,
) -> (auth: AuthResponse)
    requires
        now <= LATEST_CLOCK_SECS,
    ensures
        final(store)@ == with_tokens(old(store)@, player.id, now, access_token@, refresh_token@),
        auth_describes(auth, old(store)@, player@, access_token@, refresh_token@),
{
    retain_sessions_not_of(&mut store.access_sessions, player.id);
    retain_refreshes_not_of(&mut store.refresh_sessions, player.id);
    let ghost kept_access = store.access_sessions@;
    let ghost kept_refresh = store.refresh_sessions@;
    let access = Session {
        player_id: player.id,
        token_hash: hash_token(access_token.as_str()),
        expires_at: now + ACCESS_TOKEN_TTL_SECS,
    };
    store.access_sessions.push(access);
    let refresh = RefreshSession {
        player_id: player.id,
        token_hash: hash_token(refresh_token.as_str()),
        issued_at: now,
        expires_at: now + REFRESH_TOKEN_TTL_SECS,
    };
    store.refresh_sessions.push(refresh);
    proof {
        assert(session_views(store.access_sessions@) =~= session_views(kept_access).push(access@));
        assert(refresh_views(store.refresh_sessions@) =~= refresh_views(kept_refresh).push(refresh@));
    }
    let high_score = high_score_of(&store.scores, player.id);
    AuthResponse {
        player_id: player.id,
        email: player.email.clone(),
        display_name: player.display_name.clone(),
        high_score,
        access_token,
        refresh_token,
        access_expires_in: ACCESS_TOKEN_TTL_SECS,
    }
}

/// `new` and `r` are what issuing a fresh token pair to `player` at clock
/// reading `now` makes of `old`: two tokens are drawn (their failure is the
/// "failed to generate token" error), the reading must leave room for the
/// sessions' expiry (else "clock out of range"), and the pair replaces the
/// player's earlier sessions. A refusal changes nothing.
pub open spec fn tokens_outcome(
    old: StoreModel,
    new: StoreModel,
    player: PlayerView,
    now: u64,
    r: Result<AuthResponse, ApiError>,
) -> bool {
    match r {
        Ok(auth) => {
            &&& now <= LATEST_CLOCK_SECS
            &&& is_session_token(auth.access_token@)
            &&& is_session_token(auth.refresh_token@)
            &&& auth_describes(auth, old, player, auth.access_token@, auth.refresh_token@)
            &&& new == with_tokens(old, player.id, now, auth.access_token@, auth.refresh_token@)
        },
        Err(e) => {
            &&& new == old
            &&& if now <= LATEST_CLOCK_SECS {
                error_is(e, ApiStatus::Internal, "failed to generate token"@)
            } else {
                error_is(e, ApiStatus::Internal, "failed to generate token"@) || error_is(
                    e,
                    ApiStatus::Internal,
                    "clock out of range"@,
                )
            }
        },
    }
}

/// Issues a fresh token pair to `player` at clock reading `now` (see
/// [`tokens_outcome`]).
pub fn issue_tokens_at(store: &mut Store, player: &Player, now: u64) -> (r: Result<AuthResponse, ApiError>)
    ensures
        tokens_outcome(old(store)@, final(store)@, player@, now, r),
{
    let access_token = match generate_token() {
        Ok(t) => t,
        Err(e) => {
            return Err(e);
        },
    };
    let refresh_token = match generate_token() {
        Ok(t) => t,
        Err(e) => {
            return Err(e);
        },
    };
    let now = match clock_in_range(now) {
        Ok(t) => t,
        Err(e) => {
            return Err(e);
        },
    };
    Ok(issue_tokens_with(store, player, now, access_token, refresh_token))
}

/// Issues a fresh token pair to `player` at the clock's current reading,
/// revoking the player's earlier ones.
pub fn issue_tokens(store: &mut Store, player: &Player) -> (r: Result<AuthResponse, ApiError>)
    ensures
        exists|now: u64| #[trigger] tokens_outcome(old(store)@, final(store)@, player@, now, r),
{
    let now = now_secs();
    issue_tokens_at(store, player, now)
}

/// `new` and `r` are what presenting magic-link token `token` at clock
/// reading `now` makes of `old`: the link it redeems is consumed and its
/// player gets a fresh token pair; a token that redeems nothing is
/// refused, and so is one whose player is gone.
pub open spec fn link_outcome(
    old: StoreModel,
    new: StoreModel,
    token: Seq<char>,
    now: u64,
    r: Result<AuthResponse, ApiError>,
) -> bool {
    let redeemed = after_link_redeemed(old, token, now);
    match link_redeemer(old, token, now) {
        Some(p) => tokens_outcome(redeemed, new, p, now, r),
        None => {
            &&& new == redeemed
            &&& r matches Err(e)
            &&& if has_match(pruned(old, now).magic_links, token_hash(trimmed(token)), now) {
                error_is(e, ApiStatus::Internal, "player not found"@)
            } else {
                error_is(e, ApiStatus::Unauthorized, "invalid or expired magic link"@)
            }
        },
    }
}

/// `new` and `r` are what presenting refresh token `token` at clock
/// reading `now` makes of `old`: the refresh session it redeems is consumed
/// and its player gets a fresh token pair; a token that redeems nothing is
/// refused, and so is one whose player is gone.
pub open spec fn refresh_outcome(
    old: StoreModel,
    new: StoreModel,
    token: Seq<char>,
    now: u64,
    r: Result<AuthResponse, ApiError>,
) -> bool {
    let redeemed = after_refresh_redeemed(old, token, now);
    match refresh_redeemer(old, token, now) {
        Some(p) => tokens_outcome(redeemed, new, p, now, r),
        None => {
            &&& new == redeemed
            &&& r matches Err(e)
            &&& if has_refresh(pruned(old, now).refresh_sessions, token_hash(trimmed(token)), now) {
                error_is(e, ApiStatus::Internal, "player not found"@)
            } else {
                error_is(e, ApiStatus::Unauthorized, "invalid or expired refresh token"@)
            }
        },
    }
}

/// Handles a magic-link login at clock reading `now` (see [`link_outcome`]).
pub fn verify_link_at(store: &mut Store, token: &str, now: u64) -> (r: Result<AuthResponse, ApiError>)
    ensures
        link_outcome(old(store)@, final(store)@, token@, now, r),
{
    let player = match redeem_magic_link(store, token, now) {
        Ok(p) => p,
        Err(e) => {
            return Err(e);
        },
    };
    issue_tokens_at(store, &player, now)
}

/// Handles a magic-link login at the clock's current reading: consumes the
/// link and issues a token pair.
pub fn verify_link(store: &mut Store, token: &str) -> (r: Result<AuthResponse, ApiError>)
    ensures
        exists|now: u64| #[trigger] link_outcome(old(store)@, final(store)@, token@, now, r),
{
    let now = now_secs();
    verify_link_at(store, token, now)
}

/// Handles a token refresh at clock reading `now` (see [`refresh_outcome`]).
pub fn refresh_session_at(store: &mut Store, token: &str, now: u64) -> (r: Result<AuthResponse, ApiError>)
    ensures
        refresh_outcome(old(store)@, final(store)@, token@, now, r),
{
    let player = match redeem_refresh_token(store, token, now) {
        Ok(p) => p,
        Err(e) => {
            return Err(e);
        },
    };
    issue_tokens_at(store, &player, now)
}

/// Handles a token refresh at the clock's current reading: consumes the
/// refresh token and issues a new token pair.
pub fn refresh_session(store: &mut Store, token: &str) -> (r: Result<AuthResponse, ApiError>)
    ensures
        exists|now: u64| #[trigger] refresh_outcome(old(store)@, final(store)@, token@, now, r),
{
    let now = now_secs();
    refresh_session_at(store, token, now)
}


/// `s` without its trailing '/' characters.
pub open spec fn without_trailing_slashes(s: Seq<char>) -> Seq<char>
    decreases s.len(),
{
    if s.len() > 0 && s.last() == '/' {
        without_trailing_slashes(s.drop_last())
    } else {
        s
    }
}

/// The path and query that a magic link appends to the server's base URL.
pub open spec fn verify_path() -> Seq<char> {
    "/verify?token="@
}

proof fn lemma_without_trailing_slashes_at(s: Seq<char>, k: int)
    requires
        0 <= k <= s.len(),
        forall|j: int| k <= j < s.len() ==> s[j] == '/',
        k == 0 || s[k - 1] != '/',
    ensures
        without_trailing_slashes(s) == s.subrange(0, k),
    decreases s.len() - k,
{
    if k == s.len() {
        assert(s.subrange(0, k) =~= s);
    } else {
        lemma_without_trailing_slashes_at(s.drop_last(), k);
        assert(s.drop_last().subrange(0, k) =~= s.subrange(0, k));
    }
}

/// The login link mailed for `token`: the base URL without trailing
/// slashes, then "/verify?token=" and the token.
pub fn magic_link_url(base_url: &str, token: &str) -> (url: String)
    ensures
        url@ == without_trailing_slashes(base_url@) + verify_path() + token@,
{
    let n: usize = base_url.unicode_len();
    let mut k: usize = n;
    while k > 0 && base_url.get_char(k - 1) == '/'
        invariant
            n == base_url@.len(),
            k <= n,
            forall|j: int| k <= j < n ==> base_url@[j] == '/',
        decreases k,
    {
        k = k - 1;
    }
    proof {
        lemma_without_trailing_slashes_at(base_url@, k as int);
    }
    let mut url = base_url.substring_char(0, k).to_owned();
    url.append("/verify?token=");
    url.append(token);
    url
}

} // verus!
