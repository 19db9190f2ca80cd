//! Score submission: recording a score for the logged-in player and the
//! player's standing among everyone's best scores.

use crate::account::{bearer_of, bearer_refusal, bearer_token};
use crate::auth::{find_link, has_match, is_first_match, match_index, session_matches};
use crate::clock::now_secs;
use crate::error::{error_is, ApiError, ApiStatus};
use crate::store::{
    best_score, high_score_of, player_views, prune_expired, pruned, score_views, session_views,
    opt_text, Player, ScoreEntry, ScoreView, PlayerView, Store, StoreModel,
};
use crate::tokens::{hash_token, token_hash};
use vstd::prelude::*;

verus! {

/// The best (score, wave) of `pid`: the highest score, and among equal
/// scores the furthest wave; (0, 0) when the player has no score.
pub open spec fn best_pair(scores: Seq<ScoreView>, pid: u64) -> (u32, u32)
    decreases scores.len(),
{
    if scores.len() == 0 {
        (0, 0)
    } else {
        let rest = best_pair(scores.drop_last(), pid);
        let e = scores.last();
        if e.player_id == pid && (e.score > rest.0 || (e.score == rest.0 && e.wave > rest.1)) {
            (e.score, e.wave)
        } else {
            rest
        }
    }
}

/// Whether `pid` has submitted any score.
pub open spec fn has_scores(scores: Seq<ScoreView>, pid: u64) -> bool
    decreases scores.len(),
{
    if scores.len() == 0 {
        false
    } else {
        scores.last().player_id == pid || has_scores(scores.drop_last(), pid)
    }
}

/// Player `a_id` with best `a` stands above player `b_id` with best `b`:
/// higher score, then further wave, then lower id.
pub open spec fn outranks(a_id: u64, a: (u32, u32), b_id: u64, b: (u32, u32)) -> bool {
    ||| a.0 > b.0
    ||| a.0 == b.0 && a.1 > b.1
    ||| a.0 == b.0 && a.1 == b.1 && a_id < b_id
}

/// The standings: for each player (in the store's order) that has scores,
/// its id and best (score, wave).
pub open spec fn standings(players: Seq<PlayerView>, scores: Seq<ScoreView>) -> Seq<(u64, (u32, u32))>
    decreases players.len(),
{
    if players.len() == 0 {
        Seq::empty()
    } else {
        let rest = standings(players.drop_last(), scores);
        let id = players.last().id;
        if has_scores(scores, id) {
            rest.push((id, best_pair(scores, id)))
        } else {
            rest
        }
    }
}

/// How many standings stand above `id` with best `key`.
pub open spec fn count_above(st: Seq<(u64, (u32, u32))>, id: u64, key: (u32, u32)) -> nat
    decreases st.len(),
{
    if st.len() == 0 {
        0
    } else {
        count_above(st.drop_last(), id, key) + if outranks(st.last().0, st.last().1, id, key) {
            1nat
        } else {
            0nat
        }
    }
}

/// Whether `id` has a place in the standings.
pub open spec fn is_listed(st: Seq<(u64, (u32, u32))>, id: u64) -> bool
    decreases st.len(),
{
    if st.len() == 0 {
        false
    } else {
        st.last().0 == id || is_listed(st.drop_last(), id)
    }
}

/// The 1-based rank of `pid` in the standings; the number of standings
/// when the player has no place.
pub open spec fn rank_of(players: Seq<PlayerView>, scores: Seq<ScoreView>, pid: u64) -> nat {
    let st = standings(players, scores);
    if is_listed(st, pid) {
        1 + count_above(st, pid, best_pair(scores, pid))
    } else {
        st.len()
    }
}

/// The store with a score of `pid` recorded at `now`.
pub open spec fn with_score(
    m: StoreModel,
    pid: u64,
    score: u32,
    wave: u32,
    now: u64,
    app_version: Option<Seq<char>>,
) -> StoreModel {
    StoreModel {
        scores: m.scores.push(ScoreView { player_id: pid, score, wave, submitted_at: now, app_version }),
        ..m
    }
}

/// `new` and `r` are what recording a score with access token `token` at
/// `now` makes of `old`: the score is appended for the token's player, or
/// the token is refused.
pub open spec fn recorded(
    old: StoreModel,
    new: StoreModel,
    token: Seq<char>,
    score: u32,
    wave: u32,
    app_version: Option<Seq<char>>,
    now: u64,
    r: Result<SubmitScoreResponse, ApiError>,
) -> bool {
    let p = pruned(old, now);
    let h = token_hash(token);
    if has_match(p.access_sessions, h, now) {
        let pid = p.access_sessions[match_index(p.access_sessions, h, now)].player_id;
        let m = with_score(p, pid, score, wave, now, app_version);
        &&& new == m
        &&& r matches Ok(resp)
        &&& resp.accepted
        &&& resp.personal_best == best_score(m.scores, pid)
        &&& resp.rank == rank_of(m.players, m.scores, pid)
    } else {
        &&& new == p
        &&& r matches Err(e)
        &&& error_is(e, ApiStatus::Unauthorized, "invalid or expired access token"@)
    }
}

/// What an accepted score answers.
pub struct SubmitScoreResponse {
    pub accepted: bool,
    pub personal_best: u32,
    pub rank: usize,
}

pub(crate) fn best_pair_of(scores: &Vec<ScoreEntry>, pid: u64) -> (r: (u32, u32))
    ensures
        r == best_pair(score_views(scores@), pid),
{
    let mut best: (u32, u32) = (0, 0);
    let mut i: usize = 0;
    while i < scores.len()
        invariant
            i <= scores@.len(),
            best == best_pair(score_views(scores@.subrange(0, i as int)), pid),
        decreases scores@.len() - i,
    {
        proof {
            assert(score_views(scores@.subrange(0, i + 1)).drop_last() =~= score_views(
                scores@.subrange(0, i as int),
            ));
        }
        let e = &scores[i];
        if e.player_id == pid && (e.score > best.0 || (e.score == best.0 && e.wave > best.1)) {
            best = (e.score, e.wave);
        }
        i = i + 1;
    }
    proof {
        assert(scores@.subrange(0, scores@.len() as int) =~= scores@);
    }
    best
}

fn scores_include(scores: &Vec<ScoreEntry>, pid: u64) -> (r: bool)
    ensures
        r == has_scores(score_views(scores@), pid),
{
    let mut found = false;
    let mut i: usize = 0;
    while i < scores.len()
        invariant
            i <= scores@.len(),
            found == has_scores(score_views(scores@.subrange(0, i as int)), pid),
        decreases scores@.len() - i,
    {
        proof {
            assert(score_views(scores@.subrange(0, i + 1)).drop_last() =~= score_views(
                scores@.subrange(0, i as int),
            ));
        }
        if scores[i].player_id == pid {
            found = true;
        }
        i = i + 1;
    }
    proof {
        assert(scores@.subrange(0, scores@.len() as int) =~= scores@);
    }
    found
}

fn outranks_exec(a_id: u64, a: (u32, u32), b_id: u64, b: (u32, u32)) -> (r: bool)
    ensures
        r == outranks(a_id, a, b_id, b),
{
    a.0 > b.0 || (a.0 == b.0 && a.1 > b.1) || (a.0 == b.0 && a.1 == b.1 && a_id < b_id)
}

/// The rank of `pid` among the players' best scores.
pub fn rank_in_store(players: &Vec<Player>, scores: &Vec<ScoreEntry>, pid: u64) -> (r: usize)
    ensures
        r == rank_of(player_views(players@), score_views(scores@), pid),
{
    let ghost sv = score_views(scores@);
    let mine = best_pair_of(scores, pid);
    let mut count: usize = 0;
    let mut above: usize = 0;
    let mut found = false;
    let mut i: usize = 0;
    while i < players.len()
        invariant
            i <= players@.len(),
            sv == score_views(scores@),
            mine == best_pair(sv, pid),
            count == standings(player_views(players@.subrange(0, i as int)), sv).len(),
            count <= i,
            above == count_above(standings(player_views(players@.subrange(0, i as int)), sv), pid, mine),
            found == is_listed(standings(player_views(players@.subrange(0, i as int)), sv), pid),
            found ==> above < count,
            above <= count,
        decreases players@.len() - i,
    {
        proof {
            assert(player_views(players@.subrange(0, i + 1)).drop_last() =~= player_views(
                players@.subrange(0, i as int),
            ));
        }
        let id = players[i].id;
        let ghost st = standings(player_views(players@.subrange(0, i as int)), sv);
        if scores_include(scores, id) {
            let key = best_pair_of(scores, id);
            proof {
                assert(st.push((id, key)).drop_last() =~= st);
            }
            if outranks_exec(id, key, pid, mine) {
                above = above + 1;
            }
            if id == pid {
                found = true;
            }
            count = count + 1;
        }
        i = i + 1;
    }
    proof {
        assert(players@.subrange(0, players@.len() as int) =~= players@);
    }
    if found {
        above + 1
    } else {
        count
    }
}

/// Records a score for the holder of access token `token` at `now`:
/// drops expired sessions, finds the token's session and appends the
/// score; answers the player's best score and rank.
pub fn record_score(
    store: &mut Store,
    token: &str,
    score: u32,
    wave: u32,
    app_version: Option<String>,
    now: u64,
) -> (r: Result<SubmitScoreResponse, ApiError>)
    ensures
        recorded(old(store)@, final(store)@, token@, score, wave, opt_text(app_version), now, r),
{
    let token_hash = hash_token(token);
    prune_expired(store, now);
    let index = match find_link(&store.access_sessions, token_hash.as_str(), now) {
        Some(i) => i,
        None => {
            return Err(ApiError::unauthorized("invalid or expired access token"));
        },
    };
    proof {
        let ls = session_views(store.access_sessions@);
        assert(has_match(ls, token_hash@, now)) by {
            assert(session_matches(ls[index as int], token_hash@, now));
        }
        let c = choose|x: int| is_first_match(ls, token_hash@, now, x);
        assert(c == index as int);
    }
    let pid = store.access_sessions[index].player_id;
    let ghost before = store.scores@;
    let entry = ScoreEntry { player_id: pid, score, wave, submitted_at: now, app_version };
    store.scores.push(entry);
    proof {
        assert(score_views(store.scores@) =~= score_views(before).push(entry@));
    }
    let personal_best = high_score_of(&store.scores, pid);
    let rank = rank_in_store(&store.players, &store.scores, pid);
    Ok(SubmitScoreResponse { accepted: true, personal_best, rank })
}

/// Handles a score submission: rejects a zero score, reads the bearer
/// token from the `authorization` header (see [`bearer_token`]) and records
/// the score at the current time.
pub fn submit_score(
    store: &mut Store,
    authorization: Option<Option<&str>>,
    score: u32,
    wave: u32,
    app_version: Option<String>,
) -> (r: Result<SubmitScoreResponse, ApiError>)
    ensures
        score == 0 ==> final(store)@ == old(store)@ && (r matches Err(e) && error_is(
            e,
            ApiStatus::BadRequest,
            "score must be greater than zero"@,
        )),
        score > 0 ==> match bearer_of(authorization) {
            None => final(store)@ == old(store)@ && (r matches Err(e) && error_is(
                e,
                ApiStatus::Unauthorized,
                bearer_refusal(authorization),
            )),
            Some(token) => exists|now: u64| #[trigger]
                recorded(
                    old(store)@,
                    final(store)@,
                    token,
                    score,
                    wave,
                    opt_text(app_version),
                    now,
                    r,
                ),
        },
{
    if score == 0 {
        return Err(ApiError::bad_request("score must be greater than zero"));
    }
    let token = bearer_token(authorization)?;
    let now = now_secs();
    let r = record_score(store, token, score, wave, app_version, now);
    proof {
        assert(recorded(old(store)@, store@, token@, score, wave, opt_text(app_version), now, r));
    }
    r
}

} // verus!
