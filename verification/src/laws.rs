//! Properties that hold across the library's operations, each proved from
//! the same specifications that the operations' contracts use.

use crate::account::{email_acceptable, normalized_email};
use crate::auth::{
    has_email, has_match, has_player, has_refresh, is_first_match, is_first_with_email,
    link_redeemer, after_link_redeemed, match_index, player_for, player_with_email,
    player_with_id, refresh_index, refresh_matches, session_matches, with_magic_link, with_player,
    with_tokens, after_refresh_redeemed, refresh_redeemer, is_first_refresh,
};
use crate::store::{
    best_score, live_refreshes, live_sessions, pruned, PlayerView, ScoreView, refreshes_not_of, sessions_not_of, RefreshView,
    SessionView, StoreModel, ACCESS_TOKEN_TTL_SECS, MAGIC_LINK_TTL_SECS,
};
use crate::profiles::{
    char_index, decimal, digit_char, digits_value, is_digit, lemma_char_index_at, loaded_profiles,
    ordered_profiles, parse_line, parse_lines, parse_u32, profile_line, profiles_text, saved_name,
    split_lines, unsigned_digits, all_digits, ProfileView, lemma_profile_order_total, book_wf,
    is_entry_char,
};
use crate::scores::{best_pair, count_above, has_scores, is_listed, rank_of, standings, with_score};
use crate::board::{board_rows, lemma_board_order_total, ranked_rows, rows_for, scorer_ids, BoardRow, RowView};
use crate::sorting::listing_order;
use vstd::relations::sorted_by;
use vstd::seq_lib::to_multiset_contains;
use crate::audio::{lemma_mixed_len, longest, mix, mix_in, mixed};
use crate::rules::{hit_cell, hit_cells};
use crate::profiles::{after_confirm, has_named, is_first_named, BookView};
use crate::formation::{count_true, dive_slots, front_row, front_slots, in_formation, slot, FormationView};
use crate::rules::{ALIEN_COLS, ALIEN_ROWS};
use crate::shots::{cancelled, crosses, first_crossing, unmarked};
use crate::text::{ascii_lower, trimmed};
use crate::tokens::{is_session_token, token_hash};
use vstd::prelude::*;

verus! {

/// Every session that survives pruning was in the list, and has not
/// expired.
pub proof fn lemma_live_sessions_from(s: Seq<SessionView>, now: u64)
    ensures
        forall|i: int| 0 <= i < live_sessions(s, now).len() ==> s.contains(#[trigger] live_sessions(s, now)[i]),
        forall|i: int| 0 <= i < live_sessions(s, now).len() ==> (#[trigger] live_sessions(s, now)[i]).expires_at >= now,
        forall|i: int| 0 <= i < s.len() && s[i].expires_at >= now ==> live_sessions(s, now).contains(#[trigger] s[i]),
    decreases s.len(),
{
    if s.len() > 0 {
        let t = s.drop_last();
        lemma_live_sessions_from(t, now);
        let l = live_sessions(s, now);
        assert forall|i: int| 0 <= i < l.len() implies s.contains(#[trigger] l[i]) by {
            if i < live_sessions(t, now).len() {
                let x = live_sessions(t, now)[i];
                let k = choose|k: int| 0 <= k < t.len() && t[k] == x;
                assert(s[k] == x);
            } else {
                assert(s[s.len() - 1] == l[i]);
            }
        }
        assert forall|i: int| 0 <= i < s.len() && s[i].expires_at >= now implies l.contains(#[trigger] s[i]) by {
            if i < s.len() - 1 {
                assert(t[i] == s[i]);
                let k = choose|k: int| 0 <= k < live_sessions(t, now).len() && live_sessions(t, now)[k] == s[i];
                assert(l[k] == s[i]);
            } else {
                assert(l[l.len() - 1] == s[i]);
            }
        }
    }
}

/// Every session kept when a player's sessions are revoked was in the list
/// and belongs to someone else.
pub proof fn lemma_sessions_not_of_from(s: Seq<SessionView>, owner: u64)
    ensures
        forall|i: int| 0 <= i < sessions_not_of(s, owner).len() ==> s.contains(#[trigger] sessions_not_of(s, owner)[i]),
        forall|i: int| 0 <= i < sessions_not_of(s, owner).len() ==> (#[trigger] sessions_not_of(s, owner)[i]).player_id != owner,
    decreases s.len(),
{
    if s.len() > 0 {
        let t = s.drop_last();
        lemma_sessions_not_of_from(t, owner);
        let l = sessions_not_of(s, owner);
        assert forall|i: int| 0 <= i < l.len() implies s.contains(#[trigger] l[i]) by {
            if i < sessions_not_of(t, owner).len() {
                let x = sessions_not_of(t, owner)[i];
                let k = choose|k: int| 0 <= k < t.len() && t[k] == x;
                assert(s[k] == x);
            } else {
                assert(s[s.len() - 1] == l[i]);
            }
        }
    }
}

/// Every refresh session that survives pruning was in the list, and has
/// not expired.
pub proof fn lemma_live_refreshes_from(s: Seq<RefreshView>, now: u64)
    ensures
        forall|i: int| 0 <= i < live_refreshes(s, now).len() ==> s.contains(#[trigger] live_refreshes(s, now)[i]),
        forall|i: int| 0 <= i < live_refreshes(s, now).len() ==> (#[trigger] live_refreshes(s, now)[i]).expires_at >= now,
        forall|i: int| 0 <= i < s.len() && s[i].expires_at >= now ==> live_refreshes(s, now).contains(#[trigger] s[i]),
    decreases s.len(),
{
    if s.len() > 0 {
        let t = s.drop_last();
        lemma_live_refreshes_from(t, now);
        let l = live_refreshes(s, now);
        assert forall|i: int| 0 <= i < l.len() implies s.contains(#[trigger] l[i]) by {
            if i < live_refreshes(t, now).len() {
                let x = live_refreshes(t, now)[i];
                let k = choose|k: int| 0 <= k < t.len() && t[k] == x;
                assert(s[k] == x);
            } else {
                assert(s[s.len() - 1] == l[i]);
            }
        }
        assert forall|i: int| 0 <= i < s.len() && s[i].expires_at >= now implies l.contains(#[trigger] s[i]) by {
            if i < s.len() - 1 {
                assert(t[i] == s[i]);
                let k = choose|k: int| 0 <= k < live_refreshes(t, now).len() && live_refreshes(t, now)[k] == s[i];
                assert(l[k] == s[i]);
            } else {
                assert(l[l.len() - 1] == s[i]);
            }
        }
    }
}

/// Every refresh session kept when a player's sessions are revoked was in
/// the list and belongs to someone else.
pub proof fn lemma_refreshes_not_of_from(s: Seq<RefreshView>, owner: u64)
    ensures
        forall|i: int| 0 <= i < refreshes_not_of(s, owner).len() ==> s.contains(#[trigger] refreshes_not_of(s, owner)[i]),
        forall|i: int| 0 <= i < refreshes_not_of(s, owner).len() ==> (#[trigger] refreshes_not_of(s, owner)[i]).player_id != owner,
    decreases s.len(),
{
    if s.len() > 0 {
        let t = s.drop_last();
        lemma_refreshes_not_of_from(t, owner);
        let l = refreshes_not_of(s, owner);
        assert forall|i: int| 0 <= i < l.len() implies s.contains(#[trigger] l[i]) by {
            if i < refreshes_not_of(t, owner).len() {
                let x = refreshes_not_of(t, owner)[i];
                let k = choose|k: int| 0 <= k < t.len() && t[k] == x;
                assert(s[k] == x);
            } else {
                assert(s[s.len() - 1] == l[i]);
            }
        }
    }
}

/// Pruning keeps exactly the sessions that have not expired: every
/// session left is live, and pruning again at the same time changes
/// nothing.
pub proof fn law_prune_keeps_live_sessions(m: StoreModel, now: u64)
    ensures
        forall|i: int| 0 <= i < pruned(m, now).magic_links.len() ==> (#[trigger] pruned(m, now).magic_links[i]).expires_at >= now,
        forall|i: int| 0 <= i < pruned(m, now).access_sessions.len() ==> (#[trigger] pruned(m, now).access_sessions[i]).expires_at >= now,
        forall|i: int| 0 <= i < pruned(m, now).refresh_sessions.len() ==> (#[trigger] pruned(m, now).refresh_sessions[i]).expires_at >= now,
        pruned(pruned(m, now), now) == pruned(m, now),
{
    lemma_live_sessions_from(m.magic_links, now);
    lemma_live_sessions_from(m.access_sessions, now);
    lemma_live_refreshes_from(m.refresh_sessions, now);
    lemma_live_sessions_idempotent(m.magic_links, now);
    lemma_live_sessions_idempotent(m.access_sessions, now);
    lemma_live_refreshes_idempotent(m.refresh_sessions, now);
}

proof fn lemma_live_sessions_idempotent(s: Seq<SessionView>, now: u64)
    ensures
        live_sessions(live_sessions(s, now), now) == live_sessions(s, now),
    decreases s.len(),
{
    if s.len() > 0 {
        lemma_live_sessions_idempotent(s.drop_last(), now);
        let r = live_sessions(s.drop_last(), now);
        if s.last().expires_at >= now {
            assert(r.push(s.last()).drop_last() =~= r);
        }
    }
}

proof fn lemma_live_refreshes_idempotent(s: Seq<RefreshView>, now: u64)
    ensures
        live_refreshes(live_refreshes(s, now), now) == live_refreshes(s, now),
    decreases s.len(),
{
    if s.len() > 0 {
        lemma_live_refreshes_idempotent(s.drop_last(), now);
        let r = live_refreshes(s.drop_last(), now);
        if s.last().expires_at >= now {
            assert(r.push(s.last()).drop_last() =~= r);
        }
    }
}

/// Registering an address twice registers it once: the second request
/// finds the player the first one created (or found), and changes nothing.
pub proof fn law_registration_idempotent(m: StoreModel, email: Seq<char>, t1: u64, t2: u64)
    ensures
        with_player(with_player(m, email, t1), email, t2) == with_player(m, email, t1),
        player_for(with_player(m, email, t1), email) == player_for(m, email),
{
    if !has_email(m.players, email) {
        let m1 = with_player(m, email, t1);
        let last = m.players.len() as int;
        assert(m1.players[last].email == email);
        assert(has_email(m1.players, email));
        assert(is_first_with_email(m1.players, email, last)) by {
            assert forall|j: int| 0 <= j < last implies (#[trigger] m1.players[j]).email != email by {
                assert(m1.players[j] == m.players[j]);
            }
        }
        let c = choose|i: int| is_first_with_email(m1.players, email, i);
        assert(c == last);
    }
}


proof fn lemma_session_token_trimmed(token: Seq<char>)
    requires
        is_session_token(token),
    ensures
        trimmed(token) == token,
{
    assert forall|i: int| 0 <= i < token.len() implies !crate::text::is_white_space(#[trigger] token[i]) by {
        assert(crate::tokens::is_url_safe_char(token[i]));
    }
    crate::text::lemma_trimmed_without_white_space(token);
}

/// A magic link works: the token that a link was issued for logs the
/// link's player in at any time until the link expires (when no other
/// link carries the same token hash and the player is registered).
pub proof fn law_magic_link_logs_in(m: StoreModel, pid: u64, token: Seq<char>, now: u64, t: u64)
    requires
        is_session_token(token),
        now + MAGIC_LINK_TTL_SECS <= u64::MAX,
        t <= now + MAGIC_LINK_TTL_SECS,
        has_player(m.players, pid),
        forall|i: int| 0 <= i < m.magic_links.len() ==> (#[trigger] m.magic_links[i]).token_hash != token_hash(token),
    ensures
        link_redeemer(with_magic_link(m, pid, token, now), token, t) == Some(player_with_id(m.players, pid)),
{
    lemma_session_token_trimmed(token);
    let h = token_hash(token);
    let m1 = with_magic_link(m, pid, token, now);
    let kept = sessions_not_of(m.magic_links, pid);
    let new = SessionView { player_id: pid, token_hash: h, expires_at: (now + MAGIC_LINK_TTL_SECS) as u64 };
    assert(m1.magic_links == kept.push(new));
    assert(kept.push(new).drop_last() =~= kept);
    let links = pruned(m1, t).magic_links;
    assert(links == live_sessions(kept, t).push(new));
    lemma_sessions_not_of_from(m.magic_links, pid);
    lemma_live_sessions_from(kept, t);
    let last = links.len() - 1;
    assert forall|j: int| 0 <= j < last implies !session_matches(#[trigger] links[j], h, t) by {
        assert(links[j] == live_sessions(kept, t)[j]);
        assert(kept.contains(links[j]));
        let k = choose|k: int| 0 <= k < kept.len() && kept[k] == links[j];
        assert(m.magic_links.contains(kept[k]));
    }
    assert(session_matches(links[last], h, t));
    assert(is_first_match(links, h, t, last));
    assert(has_match(links, h, t));
    let c = match_index(links, h, t);
    assert(c == last);
}

/// Magic links expire: after its 15 minutes a link logs no one in (when
/// no other link carried the same token hash).
pub proof fn law_magic_link_expires(m: StoreModel, pid: u64, token: Seq<char>, now: u64, t: u64)
    requires
        is_session_token(token),
        now + MAGIC_LINK_TTL_SECS < t,
        forall|i: int| 0 <= i < m.magic_links.len() ==> (#[trigger] m.magic_links[i]).token_hash != token_hash(token),
    ensures
        link_redeemer(with_magic_link(m, pid, token, now), token, t) is None,
{
    lemma_session_token_trimmed(token);
    let h = token_hash(token);
    let m1 = with_magic_link(m, pid, token, now);
    let kept = sessions_not_of(m.magic_links, pid);
    let new = SessionView { player_id: pid, token_hash: h, expires_at: (now + MAGIC_LINK_TTL_SECS) as u64 };
    let all = kept.push(new);
    assert(m1.magic_links == all);
    let links = pruned(m1, t).magic_links;
    lemma_sessions_not_of_from(m.magic_links, pid);
    lemma_live_sessions_from(all, t);
    assert forall|j: int| 0 <= j < links.len() implies !session_matches(#[trigger] links[j], h, t) by {
        assert(all.contains(links[j]));
        let k = choose|k: int| 0 <= k < all.len() && all[k] == links[j];
        if k < kept.len() {
            assert(kept[k] == all[k]);
            assert(kept.contains(kept[k]));
        }
    }
}

/// A magic link logs in once: after a link has been redeemed, presenting
/// the same token again (at any time, also after new tokens were issued)
/// redeems nothing, when no other live link carried the same token hash.
pub proof fn law_magic_link_single_use(
    m: StoreModel,
    token: Seq<char>,
    t1: u64,
    pid: u64,
    t3: u64,
    access_token: Seq<char>,
    refresh_token: Seq<char>,
    t2: u64,
)
    requires
        has_match(pruned(m, t1).magic_links, token_hash(trimmed(token)), t1),
        forall|i: int, j: int|
            0 <= i < pruned(m, t1).magic_links.len() && 0 <= j < pruned(m, t1).magic_links.len()
                && session_matches(#[trigger] pruned(m, t1).magic_links[i], token_hash(trimmed(token)), t1)
                && session_matches(#[trigger] pruned(m, t1).magic_links[j], token_hash(trimmed(token)), t1) ==> i == j,
    ensures
        ({
            let after = with_tokens(after_link_redeemed(m, token, t1), pid, t3, access_token, refresh_token);
            &&& !has_match(pruned(after, t2).magic_links, token_hash(trimmed(token)), t2)
            &&& link_redeemer(after, token, t2) is None
        }),
{
    let h = token_hash(trimmed(token));
    let p = pruned(m, t1).magic_links;
    lemma_live_sessions_from(m.magic_links, t1);
    let i = match_index(p, h, t1);
    let w = choose|k: int| 0 <= k < p.len() && session_matches(#[trigger] p[k], h, t1);
    assert(is_first_match(p, h, t1, i)) by {
        crate::laws::lemma_first_match_exists(p, h, t1, w);
    }
    let rest = p.remove(i);
    let after = with_tokens(after_link_redeemed(m, token, t1), pid, t3, access_token, refresh_token);
    assert(after.magic_links == rest);
    assert forall|k: int| 0 <= k < rest.len() implies (#[trigger] rest[k]).token_hash != h by {
        if k < i {
            assert(rest[k] == p[k]);
            assert(p[k].expires_at >= t1);
        } else {
            assert(rest[k] == p[k + 1]);
            assert(p[k + 1].expires_at >= t1);
        }
    }
    lemma_live_sessions_from(rest, t2);
    let q = pruned(after, t2).magic_links;
    assert forall|k: int| 0 <= k < q.len() implies !session_matches(#[trigger] q[k], h, t2) by {
        assert(rest.contains(q[k]));
    }
}

/// Among sessions that a token redeems, there is a first one.
pub proof fn lemma_first_match_exists(ls: Seq<SessionView>, h: Seq<char>, now: u64, w: int)
    requires
        0 <= w < ls.len(),
        session_matches(ls[w], h, now),
    ensures
        exists|i: int| is_first_match(ls, h, now, i),
    decreases w,
{
    if exists|j: int| 0 <= j < w && session_matches(#[trigger] ls[j], h, now) {
        let j = choose|j: int| 0 <= j < w && session_matches(#[trigger] ls[j], h, now);
        lemma_first_match_exists(ls, h, now, j);
    } else {
        assert(is_first_match(ls, h, now, w));
    }
}


/// Among refresh sessions that a token redeems, there is a first one.
pub proof fn lemma_first_refresh_exists(ls: Seq<RefreshView>, h: Seq<char>, now: u64, w: int)
    requires
        0 <= w < ls.len(),
        refresh_matches(ls[w], h, now),
    ensures
        exists|i: int| is_first_refresh(ls, h, now, i),
    decreases w,
{
    if exists|j: int| 0 <= j < w && refresh_matches(#[trigger] ls[j], h, now) {
        let j = choose|j: int| 0 <= j < w && refresh_matches(#[trigger] ls[j], h, now);
        lemma_first_refresh_exists(ls, h, now, j);
    } else {
        assert(is_first_refresh(ls, h, now, w));
    }
}

/// Refresh tokens rotate: once a refresh token has been redeemed and a new
/// pair issued, the old token redeems nothing any more (when no other live
/// refresh session carried its hash and the new refresh token differs).
pub proof fn law_refresh_token_rotates(
    m: StoreModel,
    token: Seq<char>,
    t1: u64,
    pid: u64,
    t3: u64,
    access_token: Seq<char>,
    refresh_token: Seq<char>,
    t2: u64,
)
    requires
        has_refresh(pruned(m, t1).refresh_sessions, token_hash(trimmed(token)), t1),
        forall|i: int, j: int|
            0 <= i < pruned(m, t1).refresh_sessions.len() && 0 <= j < pruned(m, t1).refresh_sessions.len()
                && refresh_matches(#[trigger] pruned(m, t1).refresh_sessions[i], token_hash(trimmed(token)), t1)
                && refresh_matches(#[trigger] pruned(m, t1).refresh_sessions[j], token_hash(trimmed(token)), t1) ==> i == j,
        token_hash(refresh_token) != token_hash(trimmed(token)),
    ensures
        ({
            let after = with_tokens(after_refresh_redeemed(m, token, t1), pid, t3, access_token, refresh_token);
            &&& !has_refresh(pruned(after, t2).refresh_sessions, token_hash(trimmed(token)), t2)
            &&& refresh_redeemer(after, token, t2) is None
        }),
{
    let h = token_hash(trimmed(token));
    let p = pruned(m, t1).refresh_sessions;
    lemma_live_refreshes_from(m.refresh_sessions, t1);
    let i = refresh_index(p, h, t1);
    let w = choose|k: int| 0 <= k < p.len() && refresh_matches(#[trigger] p[k], h, t1);
    assert(is_first_refresh(p, h, t1, i)) by {
        lemma_first_refresh_exists(p, h, t1, w);
    }
    let rest = p.remove(i);
    assert forall|k: int| 0 <= k < rest.len() implies (#[trigger] rest[k]).token_hash != h by {
        if k < i {
            assert(rest[k] == p[k]);
            assert(p[k].expires_at >= t1);
        } else {
            assert(rest[k] == p[k + 1]);
            assert(p[k + 1].expires_at >= t1);
        }
    }
    let kept = refreshes_not_of(rest, pid);
    lemma_refreshes_not_of_from(rest, pid);
    let after = with_tokens(after_refresh_redeemed(m, token, t1), pid, t3, access_token, refresh_token);
    let all = after.refresh_sessions;
    assert forall|k: int| 0 <= k < all.len() implies (#[trigger] all[k]).token_hash != h by {
        if k < kept.len() {
            assert(all[k] == kept[k]);
            assert(rest.contains(kept[k]));
        }
    }
    lemma_live_refreshes_from(all, t2);
    let q = pruned(after, t2).refresh_sessions;
    assert forall|k: int| 0 <= k < q.len() implies !refresh_matches(#[trigger] q[k], h, t2) by {
        assert(all.contains(q[k]));
    }
}

/// An issued access token is accepted: until it expires, a request with
/// it is credited to the player it was issued to (when no other session
/// carried the same token hash).
pub proof fn law_access_token_accepted(
    m: StoreModel,
    pid: u64,
    now: u64,
    access_token: Seq<char>,
    refresh_token: Seq<char>,
    t: u64,
)
    requires
        now + ACCESS_TOKEN_TTL_SECS <= u64::MAX,
        t <= now + ACCESS_TOKEN_TTL_SECS,
        forall|i: int| 0 <= i < m.access_sessions.len() ==> (#[trigger] m.access_sessions[i]).token_hash != token_hash(access_token),
    ensures
        ({
            let ls = pruned(with_tokens(m, pid, now, access_token, refresh_token), t).access_sessions;
            &&& has_match(ls, token_hash(access_token), t)
            &&& ls[match_index(ls, token_hash(access_token), t)].player_id == pid
        }),
{
    let h = token_hash(access_token);
    let m1 = with_tokens(m, pid, now, access_token, refresh_token);
    let kept = sessions_not_of(m.access_sessions, pid);
    let new = SessionView { player_id: pid, token_hash: h, expires_at: (now + ACCESS_TOKEN_TTL_SECS) as u64 };
    assert(m1.access_sessions == kept.push(new));
    assert(kept.push(new).drop_last() =~= kept);
    let ls = pruned(m1, t).access_sessions;
    assert(ls == live_sessions(kept, t).push(new));
    lemma_sessions_not_of_from(m.access_sessions, pid);
    lemma_live_sessions_from(kept, t);
    let last = ls.len() - 1;
    assert forall|j: int| 0 <= j < last implies !session_matches(#[trigger] ls[j], h, t) by {
        assert(ls[j] == live_sessions(kept, t)[j]);
        assert(kept.contains(ls[j]));
        let k = choose|k: int| 0 <= k < kept.len() && kept[k] == ls[j];
        assert(m.access_sessions.contains(kept[k]));
    }
    assert(is_first_match(ls, h, t, last));
    let c = match_index(ls, h, t);
    assert(c == last);
}


/// Access tokens are short-lived: once its 15 minutes are over, an issued
/// access token is refused (when no other session carried the same token
/// hash).
pub proof fn law_access_token_expires(
    m: StoreModel,
    pid: u64,
    now: u64,
    access_token: Seq<char>,
    refresh_token: Seq<char>,
    t: u64,
)
    requires
        now + ACCESS_TOKEN_TTL_SECS < t,
        forall|i: int| 0 <= i < m.access_sessions.len() ==> (#[trigger] m.access_sessions[i]).token_hash != token_hash(access_token),
    ensures
        !has_match(
            pruned(with_tokens(m, pid, now, access_token, refresh_token), t).access_sessions,
            token_hash(access_token),
            t,
        ),
{
    let h = token_hash(access_token);
    let m1 = with_tokens(m, pid, now, access_token, refresh_token);
    let kept = sessions_not_of(m.access_sessions, pid);
    let new = SessionView { player_id: pid, token_hash: h, expires_at: (now + ACCESS_TOKEN_TTL_SECS) as u64 };
    let all = kept.push(new);
    assert(m1.access_sessions == all);
    let ls = pruned(m1, t).access_sessions;
    lemma_sessions_not_of_from(m.access_sessions, pid);
    lemma_live_sessions_from(all, t);
    assert forall|j: int| 0 <= j < ls.len() implies !session_matches(#[trigger] ls[j], h, t) by {
        assert(all.contains(ls[j]));
        let k = choose|k: int| 0 <= k < all.len() && all[k] == ls[j];
        if k < kept.len() {
            assert(kept[k] == all[k]);
            assert(kept.contains(kept[k]));
            let q = choose|q: int| 0 <= q < m.access_sessions.len() && m.access_sessions[q] == kept[k];
        }
    }
}

proof fn lemma_ascii_lower_idempotent(s: Seq<char>)
    ensures
        crate::text::ascii_lower(crate::text::ascii_lower(s)) == crate::text::ascii_lower(s),
{
    assert(crate::text::ascii_lower(crate::text::ascii_lower(s)) =~= crate::text::ascii_lower(s));
}

proof fn lemma_trim_start_lower(s: Seq<char>)
    ensures
        crate::text::trim_start(crate::text::ascii_lower(s)) == crate::text::ascii_lower(crate::text::trim_start(s)),
    decreases s.len(),
{
    if s.len() > 0 {
        let l = crate::text::ascii_lower(s);
        assert(l.drop_first() =~= crate::text::ascii_lower(s.drop_first()));
        lemma_trim_start_lower(s.drop_first());
    }
}

proof fn lemma_trim_end_lower(s: Seq<char>)
    ensures
        crate::text::trim_end(crate::text::ascii_lower(s)) == crate::text::ascii_lower(crate::text::trim_end(s)),
    decreases s.len(),
{
    if s.len() > 0 {
        let l = crate::text::ascii_lower(s);
        assert(l.drop_last() =~= crate::text::ascii_lower(s.drop_last()));
        lemma_trim_end_lower(s.drop_last());
    }
}

proof fn lemma_trim_start_head(s: Seq<char>)
    ensures
        crate::text::trim_start(s).len() > 0 ==> !crate::text::is_white_space(crate::text::trim_start(s)[0]),
    decreases s.len(),
{
    if s.len() > 0 {
        lemma_trim_start_head(s.drop_first());
    }
}

proof fn lemma_trim_end_prefix(s: Seq<char>)
    ensures
        crate::text::trim_end(s).len() <= s.len(),
        crate::text::trim_end(s) == s.subrange(0, crate::text::trim_end(s).len() as int),
    decreases s.len(),
{
    if s.len() > 0 {
        lemma_trim_end_prefix(s.drop_last());
        if crate::text::is_white_space(s.last()) {
            let k = crate::text::trim_end(s).len() as int;
            assert(s.drop_last().subrange(0, k) =~= s.subrange(0, k));
        } else {
            assert(s.subrange(0, s.len() as int) =~= s);
        }
    } else {
        assert(s.subrange(0, 0) =~= s);
    }
}

proof fn lemma_trim_end_idempotent(s: Seq<char>)
    ensures
        crate::text::trim_end(crate::text::trim_end(s)) == crate::text::trim_end(s),
    decreases s.len(),
{
    if s.len() > 0 {
        lemma_trim_end_idempotent(s.drop_last());
    }
}

/// Trimming twice trims once, and trimming commutes with ASCII lower-casing.
pub proof fn lemma_trimmed_idempotent_lower(s: Seq<char>)
    ensures
        trimmed(trimmed(s)) == trimmed(s),
        trimmed(crate::text::ascii_lower(s)) == crate::text::ascii_lower(trimmed(s)),
{
    let u = crate::text::trim_start(s);
    let v = crate::text::trim_end(u);
    lemma_trim_start_head(s);
    lemma_trim_end_prefix(u);
    if v.len() > 0 {
        assert(v[0] == u[0]);
    }
    assert(crate::text::trim_start(v) == v);
    lemma_trim_end_idempotent(u);
    lemma_trim_start_lower(s);
    lemma_trim_end_lower(u);
}

/// Normalising an address is idempotent: a normalised address normalises
/// to itself (and is accepted exactly when it was).
pub proof fn law_normalize_email_idempotent(input: Seq<char>)
    ensures
        normalized_email(normalized_email(input)) == normalized_email(input),
        email_acceptable(normalized_email(normalized_email(input))) == email_acceptable(normalized_email(input)),
{
    let t = trimmed(input);
    lemma_trimmed_idempotent_lower(t);
    lemma_trimmed_idempotent_lower(input);
    lemma_ascii_lower_idempotent(t);
}

proof fn lemma_name_chars_allowed(s: Seq<char>)
    ensures
        crate::account::name_chars(s).len() <= s.len(),
        forall|i: int| 0 <= i < crate::account::name_chars(s).len() ==> crate::account::is_name_char(#[trigger] crate::account::name_chars(s)[i]),
    decreases s.len(),
{
    if s.len() > 0 {
        lemma_name_chars_allowed(s.drop_last());
    }
}

/// A default display name has 1 to 16 characters, each an ASCII letter,
/// digit, '_' or '-'.
pub proof fn law_display_name_shape(email: Seq<char>)
    ensures
        1 <= crate::account::display_name_for(email).len() <= 16,
        forall|i: int| 0 <= i < crate::account::display_name_for(email).len() ==> crate::account::is_name_char(#[trigger] crate::account::display_name_for(email)[i]),
{
    let kept = crate::account::name_chars(crate::account::local_part(email));
    lemma_name_chars_allowed(crate::account::local_part(email));
    let d = crate::account::display_name_for(email);
    if crate::account::at_most(kept, 16).len() == 0 {
        assert(d == seq!['p', 'i', 'l', 'o', 't']);
    } else {
        assert forall|i: int| 0 <= i < d.len() implies crate::account::is_name_char(#[trigger] d[i]) by {
            assert(d[i] == kept[i]);
        }
    }
}



/// A profile that the profile file holds faithfully: a non-empty name
/// without surrounding whitespace, tabs or line breaks.
pub open spec fn savable(p: ProfileView) -> bool {
    &&& p.name.len() > 0
    &&& trimmed(p.name) == p.name
    &&& !p.name.contains('\t')
    &&& !p.name.contains('\n')
}

proof fn lemma_split_lines_line(line: Seq<char>, rest: Seq<char>)
    requires
        !line.contains('\n'),
    ensures
        split_lines(line + seq!['\n'] + rest) == seq![line] + split_lines(rest),
{
    let s = line + seq!['\n'] + rest;
    assert(s[line.len() as int] == '\n');
    assert(s.contains('\n'));
    assert forall|j: int| 0 <= j < line.len() implies s[j] != '\n' by {
        assert(s[j] == line[j]);
        if line[j] == '\n' {
            assert(line.contains('\n'));
        }
    }
    lemma_char_index_at(s, '\n', line.len() as int);
    assert(s.take(line.len() as int) =~= line);
    assert(s.skip(line.len() as int + 1) =~= rest);
}

proof fn lemma_decimal_digits(n: nat)
    ensures
        decimal(n).len() > 0,
        all_digits(decimal(n)),
        digits_value(decimal(n)) == n,
    decreases n,
{
    let d = decimal(n);
    let c = digit_char(n % 10);
    assert((c as u32) == n % 10 + 48);
    if n >= 10 {
        lemma_decimal_digits(n / 10);
        assert(d.drop_last() == decimal(n / 10));
        assert(d.last() == c);
        assert forall|i: int| 0 <= i < d.len() implies is_digit(#[trigger] d[i]) by {
            if i < d.len() - 1 {
                assert(d[i] == decimal(n / 10)[i]);
            }
        }
        assert(digits_value(d) == digits_value(decimal(n / 10)) * 10 + n % 10);
    } else {
        assert(d.drop_last() =~= Seq::<char>::empty());
        assert(digits_value(d.drop_last()) == 0);
        assert(d.last() == c);
    }
}

proof fn lemma_profile_line_shape(p: ProfileView)
    ensures
        !profile_line(p).contains('\n'),
{
    lemma_decimal_digits(p.high_score as nat);
    let l = profile_line(p);
    let name = saved_name(p.name);
    assert forall|i: int| 0 <= i < l.len() implies l[i] != '\n' by {
        if i < name.len() {
            assert(l[i] == name[i]);
        } else if i > name.len() {
            assert(l[i] == decimal(p.high_score as nat)[i - name.len() - 1]);
            assert(is_digit(decimal(p.high_score as nat)[i - name.len() - 1]));
        }
    }
}

/// The lines of the profile file of `ps`, in order.
pub open spec fn profile_lines(ps: Seq<ProfileView>) -> Seq<Seq<char>>
    decreases ps.len(),
{
    if ps.len() == 0 {
        Seq::empty()
    } else {
        seq![profile_line(ps[0])] + profile_lines(ps.drop_first())
    }
}

proof fn lemma_split_profiles_text(ps: Seq<ProfileView>)
    ensures
        split_lines(profiles_text(ps)) == profile_lines(ps) + seq![Seq::<char>::empty()],
    decreases ps.len(),
{
    if ps.len() == 0 {
        let e = Seq::<char>::empty();
        assert(!e.contains('\n'));
        assert(profile_lines(ps) + seq![e] =~= seq![e]);
    } else {
        lemma_split_profiles_text(ps.drop_first());
        lemma_profile_line_shape(ps[0]);
        lemma_split_lines_line(profile_line(ps[0]), profiles_text(ps.drop_first()));
        assert(seq![profile_line(ps[0])] + (profile_lines(ps.drop_first()) + seq![Seq::<char>::empty()])
            =~= profile_lines(ps) + seq![Seq::<char>::empty()]);
    }
}

proof fn lemma_parse_profile_line(p: ProfileView)
    requires
        savable(p),
    ensures
        parse_line(profile_line(p)) == Some(p),
{
    let n = p.high_score as nat;
    let name = p.name;
    let dec = decimal(n);
    lemma_decimal_digits(n);
    assert(saved_name(name) =~= name) by {
        assert forall|i: int| 0 <= i < name.len() implies saved_name(name)[i] == name[i] by {
            if name[i] == '\n' {
                assert(name.contains('\n'));
            }
            if name[i] == '\t' {
                assert(name.contains('\t'));
            }
        }
    }
    let l = profile_line(p);
    assert(l == name + seq!['\t'] + dec);
    assert(l[name.len() as int] == '\t');
    assert forall|j: int| 0 <= j < name.len() implies l[j] != '\t' by {
        assert(l[j] == name[j]);
        if name[j] == '\t' {
            assert(name.contains('\t'));
        }
    }
    lemma_char_index_at(l, '\t', name.len() as int);
    assert(l.take(name.len() as int) =~= name);
    assert(l.skip(name.len() as int + 1) =~= dec);
    assert forall|i: int| 0 <= i < dec.len() implies !crate::text::is_white_space(#[trigger] dec[i]) by {
        assert(is_digit(dec[i]));
    }
    crate::text::lemma_trimmed_without_white_space(dec);
    assert(dec[0] != '+') by {
        assert(is_digit(dec[0]));
    }
    assert(unsigned_digits(dec) == dec);
    assert(parse_u32(dec) == Some(p.high_score));
}

proof fn lemma_parse_profile_lines(ps: Seq<ProfileView>)
    requires
        forall|i: int| 0 <= i < ps.len() ==> savable(#[trigger] ps[i]),
    ensures
        parse_lines(profile_lines(ps) + seq![Seq::<char>::empty()]) == ps,
    decreases ps.len(),
{
    let e = Seq::<char>::empty();
    if ps.len() == 0 {
        assert(profile_lines(ps) + seq![e] =~= seq![e]);
        assert(!e.contains('\t'));
        assert(parse_line(e) is None);
        assert(seq![e].drop_first() =~= Seq::<Seq<char>>::empty());
        assert(parse_lines(Seq::<Seq<char>>::empty()) =~= Seq::<ProfileView>::empty());
        assert(parse_lines(seq![e]) == parse_lines(seq![e].drop_first()));
        assert(ps =~= Seq::<ProfileView>::empty());
    } else {
        let rest = ps.drop_first();
        assert forall|i: int| 0 <= i < rest.len() implies savable(#[trigger] rest[i]) by {
            assert(rest[i] == ps[i + 1]);
        }
        lemma_parse_profile_lines(rest);
        lemma_parse_profile_line(ps[0]);
        let all = profile_lines(ps) + seq![e];
        assert(all[0] == profile_line(ps[0]));
        assert(all.drop_first() =~= profile_lines(rest) + seq![e]);
        assert(parse_lines(all) == seq![ps[0]] + parse_lines(all.drop_first()));
        assert(seq![ps[0]] + rest =~= ps);
    }
}

/// Saving and loading the profiles gives them back, in listing order
/// (highest score first, then by name), for profiles whose names the file
/// can hold (see [`savable`]).
pub proof fn law_profiles_round_trip(ps: Seq<ProfileView>)
    requires
        forall|i: int| 0 <= i < ps.len() ==> savable(#[trigger] ps[i]),
    ensures
        loaded_profiles(profiles_text(ps)) == ordered_profiles(ps),
{
    lemma_split_profiles_text(ps);
    lemma_parse_profile_lines(ps);
}

/// Loaded profiles are in listing order: highest score first, then by
/// name.
pub proof fn law_loaded_profiles_ordered(text: Seq<char>)
    ensures
        vstd::relations::sorted_by(
            loaded_profiles(text),
            crate::sorting::listing_order::<crate::profiles::PlayerProfile>(),
        ),
{
    lemma_profile_order_total();
    parse_lines(split_lines(text)).lemma_sort_by_ensures(
        crate::sorting::listing_order::<crate::profiles::PlayerProfile>(),
    );
}

/// A profile created by confirming a typed name can be saved: its name is
/// non-empty, trimmed and holds no tab or line break.
pub proof fn law_typed_names_savable(v: crate::profiles::BookView)
    requires
        book_wf(v),
        trimmed(v.name_input).len() > 0,
    ensures
        savable(ProfileView { name: trimmed(v.name_input), high_score: 0 }),
{
    let s = v.name_input;
    lemma_trimmed_idempotent_lower(s);
    let t = trimmed(s);
    let u = crate::text::trim_start(s);
    lemma_trim_start_suffix(s);
    lemma_trim_end_prefix(u);
    assert forall|i: int| 0 <= i < t.len() implies t[i] != '\t' && t[i] != '\n' by {
        assert(t[i] == u[i]);
        assert(u[i] == s[i + (s.len() - u.len())]);
        assert(is_entry_char(s[i + (s.len() - u.len())]));
    }
}

proof fn lemma_trim_start_suffix(s: Seq<char>)
    ensures
        crate::text::trim_start(s).len() <= s.len(),
        crate::text::trim_start(s) == s.subrange(s.len() - crate::text::trim_start(s).len(), s.len() as int),
    decreases s.len(),
{
    if s.len() > 0 {
        lemma_trim_start_suffix(s.drop_first());
        if crate::text::is_white_space(s[0]) {
            let k = crate::text::trim_start(s).len() as int;
            assert(s.drop_first().subrange(s.len() - 1 - k, s.len() - 1) =~= s.subrange(s.len() - k, s.len() as int));
        } else {
            assert(s.subrange(0, s.len() as int) =~= s);
        }
    } else {
        assert(s.subrange(0, 0) =~= s);
    }
}

/// Recording a score makes the player's best score the larger of the old
/// best and the new score; in particular it is never below the new score.
pub proof fn law_personal_best_after_submission(
    m: StoreModel,
    pid: u64,
    score: u32,
    wave: u32,
    now: u64,
    app_version: Option<Seq<char>>,
)
    ensures
        best_score(with_score(m, pid, score, wave, now, app_version).scores, pid) == if score
            > best_score(m.scores, pid) {
            score
        } else {
            best_score(m.scores, pid)
        },
        best_score(with_score(m, pid, score, wave, now, app_version).scores, pid) >= score,
{
    let s = with_score(m, pid, score, wave, now, app_version).scores;
    assert(s.drop_last() =~= m.scores);
}

/// Every standing of `id` carries its best (score, wave).
proof fn lemma_standing_keys(players: Seq<PlayerView>, scores: Seq<ScoreView>, id: u64)
    ensures
        forall|i: int|
            0 <= i < standings(players, scores).len() && (#[trigger] standings(players, scores)[i]).0
                == id ==> standings(players, scores)[i].1 == best_pair(scores, id),
    decreases players.len(),
{
    if players.len() > 0 {
        let rest = players.drop_last();
        lemma_standing_keys(rest, scores, id);
        let st = standings(players, scores);
        let st0 = standings(rest, scores);
        assert forall|i: int| 0 <= i < st.len() && (#[trigger] st[i]).0 == id implies st[i].1
            == best_pair(scores, id) by {
            if i < st0.len() {
                assert(st[i] == st0[i]);
            }
        }
    }
}

/// At most all standings but `id`'s own stand above `id`.
proof fn lemma_count_above_bound(st: Seq<(u64, (u32, u32))>, id: u64, key: (u32, u32))
    requires
        forall|i: int| 0 <= i < st.len() && (#[trigger] st[i]).0 == id ==> st[i].1 == key,
    ensures
        count_above(st, id, key) + (if is_listed(st, id) { 1int } else { 0int }) <= st.len(),
    decreases st.len(),
{
    if st.len() > 0 {
        let rest = st.drop_last();
        assert forall|i: int| 0 <= i < rest.len() && (#[trigger] rest[i]).0 == id implies rest[i].1
            == key by {
            assert(rest[i] == st[i]);
        }
        lemma_count_above_bound(rest, id, key);
        if st.last().0 == id {
            assert(st[st.len() - 1].1 == key);
        }
    }
}

/// A player is in the standings exactly when registered and having a
/// score.
proof fn lemma_listed_iff(players: Seq<PlayerView>, scores: Seq<ScoreView>, id: u64)
    ensures
        is_listed(standings(players, scores), id) <==> (has_player(players, id) && has_scores(
            scores,
            id,
        )),
    decreases players.len(),
{
    if players.len() > 0 {
        let rest = players.drop_last();
        lemma_listed_iff(rest, scores, id);
        let st = standings(players, scores);
        let st0 = standings(rest, scores);
        if has_scores(scores, players.last().id) {
            assert(st.drop_last() == st0);
        }
        if has_player(rest, id) {
            let k = choose|k: int| 0 <= k < rest.len() && (#[trigger] rest[k]).id == id;
            assert(players[k] == rest[k]);
        }
        if has_player(players, id) && players.last().id != id {
            let k = choose|k: int| 0 <= k < players.len() && (#[trigger] players[k]).id == id;
            assert(rest[k] == players[k]);
        }
        if players.last().id == id {
            assert(players[players.len() - 1].id == id);
        }
    }
}

/// After a registered player records a score, the rank answered is at
/// least 1 and at most the number of players on the standings.
pub proof fn law_rank_after_submission(
    m: StoreModel,
    pid: u64,
    score: u32,
    wave: u32,
    now: u64,
    app_version: Option<Seq<char>>,
)
    requires
        has_player(m.players, pid),
    ensures
        1 <= rank_of(with_score(m, pid, score, wave, now, app_version).players, with_score(m, pid, score, wave, now, app_version).scores, pid),
        rank_of(with_score(m, pid, score, wave, now, app_version).players, with_score(m, pid, score, wave, now, app_version).scores, pid)
            <= standings(with_score(m, pid, score, wave, now, app_version).players, with_score(m, pid, score, wave, now, app_version).scores).len(),
{
    let m2 = with_score(m, pid, score, wave, now, app_version);
    assert(has_scores(m2.scores, pid));
    lemma_listed_iff(m2.players, m2.scores, pid);
    lemma_standing_keys(m2.players, m2.scores, pid);
    lemma_count_above_bound(standings(m2.players, m2.scores), pid, best_pair(m2.scores, pid));
}

/// The board row of player `id`: display name and best (score, wave).
pub open spec fn row_of(players: Seq<PlayerView>, scores: Seq<ScoreView>, id: u64) -> RowView {
    RowView {
        player_id: id,
        display_name: player_with_id(players, id).display_name,
        score: best_pair(scores, id).0,
        wave: best_pair(scores, id).1,
    }
}

/// Some score in `scores` is by player `id`.
pub open spec fn has_scored(scores: Seq<ScoreView>, id: u64) -> bool {
    exists|i: int| 0 <= i < scores.len() && (#[trigger] scores[i]).player_id == id
}

proof fn lemma_scorer_ids(scores: Seq<ScoreView>)
    ensures
        scorer_ids(scores).no_duplicates(),
        forall|id: u64| scorer_ids(scores).contains(id) <==> has_scored(scores, id),
    decreases scores.len(),
{
    if scores.len() > 0 {
        let rest = scores.drop_last();
        lemma_scorer_ids(rest);
        let ids = scorer_ids(scores);
        let ids0 = scorer_ids(rest);
        assert forall|id: u64| ids.contains(id) <==> has_scored(scores, id) by {
            if has_scored(rest, id) {
                let k = choose|k: int| 0 <= k < rest.len() && (#[trigger] rest[k]).player_id == id;
                assert(scores[k] == rest[k]);
            }
            if has_scored(scores, id) && scores.last().player_id != id {
                let k = choose|k: int| 0 <= k < scores.len() && (#[trigger] scores[k]).player_id == id;
                assert(rest[k] == scores[k]);
                assert(has_scored(rest, id));
            }
            if scores.last().player_id == id {
                assert(scores[scores.len() - 1].player_id == id);
                if !ids0.contains(id) {
                    assert(ids[ids.len() - 1] == id);
                }
            }
            if ids.contains(id) && !ids0.contains(id) {
                let k = choose|k: int| 0 <= k < ids.len() && ids[k] == id;
                if k < ids0.len() {
                    assert(ids0[k] == ids[k]);
                }
            }
            if ids0.contains(id) {
                let k = choose|k: int| 0 <= k < ids0.len() && ids0[k] == id;
                assert(ids[k] == ids0[k]);
            }
        }
    }
}

proof fn lemma_rows_for(ids: Seq<u64>, players: Seq<PlayerView>, scores: Seq<ScoreView>)
    ensures
        forall|k: int|
            0 <= k < rows_for(ids, players, scores).len() ==> {
                let r = #[trigger] rows_for(ids, players, scores)[k];
                &&& has_player(players, r.player_id)
                &&& ids.contains(r.player_id)
                &&& r == row_of(players, scores, r.player_id)
            },
        forall|id: u64|
            ids.contains(id) && has_player(players, id) ==> exists|k: int|
                0 <= k < rows_for(ids, players, scores).len() && (#[trigger] rows_for(
                    ids,
                    players,
                    scores,
                )[k]).player_id == id,
        ids.no_duplicates() ==> forall|i: int, j: int|
            0 <= i < j < rows_for(ids, players, scores).len() ==> (#[trigger] rows_for(
                ids,
                players,
                scores,
            )[i]).player_id != (#[trigger] rows_for(ids, players, scores)[j]).player_id,
    decreases ids.len(),
{
    if ids.len() > 0 {
        let ids0 = ids.drop_last();
        lemma_rows_for(ids0, players, scores);
        let rows = rows_for(ids, players, scores);
        let rows0 = rows_for(ids0, players, scores);
        let id = ids.last();
        assert forall|k: int| 0 <= k < rows.len() implies {
            let r = #[trigger] rows[k];
            &&& has_player(players, r.player_id)
            &&& ids.contains(r.player_id)
            &&& r == row_of(players, scores, r.player_id)
        } by {
            if k < rows0.len() {
                assert(rows[k] == rows0[k]);
                let q = choose|q: int| 0 <= q < ids0.len() && ids0[q] == rows0[k].player_id;
                assert(ids[q] == ids0[q]);
            } else {
                assert(ids[ids.len() - 1] == id);
            }
        }
        assert forall|x: u64| ids.contains(x) && has_player(players, x) implies exists|k: int|
            0 <= k < rows.len() && (#[trigger] rows[k]).player_id == x by {
            if x == id {
                assert(rows[rows.len() - 1].player_id == x);
            } else {
                let q = choose|q: int| 0 <= q < ids.len() && ids[q] == x;
                assert(q < ids0.len());
                assert(ids0[q] == x);
                let k = choose|k: int| 0 <= k < rows0.len() && (#[trigger] rows0[k]).player_id == x;
                assert(rows[k] == rows0[k]);
            }
        }
        if ids.no_duplicates() {
            assert(ids0.no_duplicates()) by {
                assert forall|i: int, j: int| 0 <= i < ids0.len() && 0 <= j < ids0.len() && i != j implies ids0[i] != ids0[j] by {
                    assert(ids0[i] == ids[i] && ids0[j] == ids[j]);
                }
            }
            assert(!ids0.contains(id)) by {
                if ids0.contains(id) {
                    let q = choose|q: int| 0 <= q < ids0.len() && ids0[q] == id;
                    assert(ids[q] == ids[ids.len() - 1]);
                }
            }
            assert forall|i: int, j: int| 0 <= i < j < rows.len() implies (#[trigger] rows[i]).player_id
                != (#[trigger] rows[j]).player_id by {
                assert(rows[i] == rows0[i]);
                if j < rows0.len() {
                    assert(rows[j] == rows0[j]);
                } else {
                    let q = choose|q: int| 0 <= q < ids0.len() && ids0[q] == rows0[i].player_id;
                }
            }
        }
    }
}

/// The leaderboard ranks the players that have submitted scores: it is in
/// listing order (best score, then furthest wave, then name and id), every
/// line is a registered player that has scored, with that player's name
/// and best (score, wave), every such player has a line, and no player
/// has two.
pub proof fn law_board_ranks_each_scorer_once(m: StoreModel)
    ensures
        sorted_by(ranked_rows(m), listing_order::<BoardRow>()),
        forall|k: int|
            0 <= k < ranked_rows(m).len() ==> {
                let r = #[trigger] ranked_rows(m)[k];
                &&& has_player(m.players, r.player_id)
                &&& has_scored(m.scores, r.player_id)
                &&& r == row_of(m.players, m.scores, r.player_id)
            },
        forall|id: u64|
            has_player(m.players, id) && has_scored(m.scores, id) ==> exists|k: int|
                0 <= k < ranked_rows(m).len() && (#[trigger] ranked_rows(m)[k]).player_id == id,
        forall|i: int, j: int|
            0 <= i < j < ranked_rows(m).len() ==> (#[trigger] ranked_rows(m)[i]).player_id != (
            #[trigger] ranked_rows(m)[j]).player_id,
{
    broadcast use to_multiset_contains;

    let ids = scorer_ids(m.scores);
    let b = board_rows(m);
    let r = ranked_rows(m);
    lemma_scorer_ids(m.scores);
    lemma_rows_for(ids, m.players, m.scores);
    lemma_board_order_total();
    b.lemma_sort_by_ensures(listing_order::<BoardRow>());
    assert forall|k: int| 0 <= k < r.len() implies {
        let x = #[trigger] r[k];
        &&& has_player(m.players, x.player_id)
        &&& has_scored(m.scores, x.player_id)
        &&& x == row_of(m.players, m.scores, x.player_id)
    } by {
        assert(r.to_multiset().count(r[k]) > 0);
        assert(b.contains(r[k]));
        let q = choose|q: int| 0 <= q < b.len() && b[q] == r[k];
        assert(ids.contains(b[q].player_id));
    }
    assert forall|id: u64| has_player(m.players, id) && has_scored(m.scores, id) implies exists|k: int|
        0 <= k < r.len() && (#[trigger] r[k]).player_id == id by {
        let q = choose|q: int| 0 <= q < b.len() && (#[trigger] b[q]).player_id == id;
        assert(b.to_multiset().count(b[q]) > 0);
        assert(r.contains(b[q]));
    }
    assert(b.no_duplicates()) by {
        assert forall|i: int, j: int| 0 <= i < b.len() && 0 <= j < b.len() && i != j implies b[i] != b[j] by {
            if i < j {
                assert(b[i].player_id != b[j].player_id);
            } else {
                assert(b[j].player_id != b[i].player_id);
            }
        }
    }
    b.lemma_multiset_has_no_duplicates();
    assert forall|x: RowView| r.to_multiset().contains(x) implies r.to_multiset().count(x) == 1 by {
        assert(b.to_multiset().contains(x));
    }
    r.lemma_multiset_has_no_duplicates_conv();
    assert forall|i: int, j: int| 0 <= i < j < r.len() implies (#[trigger] r[i]).player_id != (
    #[trigger] r[j]).player_id by {
        if r[i].player_id == r[j].player_id {
            assert(r[i] == row_of(m.players, m.scores, r[i].player_id));
            assert(r[j] == row_of(m.players, m.scores, r[j].player_id));
        }
    }
}

/// A hit never repairs a bunker: no cell gains hit points, the cells keep
/// their number, and a hit that touches no live cell changes nothing.
pub proof fn law_bunker_hits_only_wear(cells: Seq<u8>, overlap: Seq<bool>, strong: bool, n: nat)
    requires
        n <= cells.len(),
        n <= overlap.len(),
    ensures
        hit_cells(cells, overlap, strong, n).0.len() == cells.len(),
        forall|k: int| 0 <= k < cells.len() ==> #[trigger] hit_cells(cells, overlap, strong, n).0[k] <= cells[k],
        !hit_cells(cells, overlap, strong, n).1 ==> hit_cells(cells, overlap, strong, n).0 == cells,
    decreases n,
{
    if n > 0 {
        law_bunker_hits_only_wear(cells, overlap, strong, (n - 1) as nat);
        let c = hit_cells(cells, overlap, strong, (n - 1) as nat).0;
        let j = n - 1;
        let d = hit_cell(c, overlap, strong, j);
        assert forall|k: int| 0 <= k < cells.len() implies d[k] <= c[k] by {}
    }
}

/// Mixing a single track gives the track back.
pub proof fn law_mix_of_one_track(track: Seq<i16>)
    ensures
        mix(seq![track]) == track,
{
    let ts = seq![track];
    let none = Seq::<Seq<i16>>::empty();
    assert(ts.drop_last() =~= none);
    assert(longest(none) == 0);
    assert(ts.last() == track);
    assert(longest(ts) == track.len());
    let silence = mixed(none, track.len());
    assert(silence == Seq::new(track.len(), |i: int| 0i16));
    assert(mixed(ts, track.len()) == mix_in(silence, track));
    assert(mix(ts) =~= track);
}

/// Adding a silent track to a mix changes nothing when the silence is no
/// longer than the mix.
pub proof fn law_silence_mixes_away(tracks: Seq<Seq<i16>>, quiet: nat)
    requires
        quiet <= longest(tracks),
    ensures
        mix(tracks.push(Seq::new(quiet, |i: int| 0i16))) == mix(tracks),
{
    let all = tracks.push(Seq::new(quiet, |i: int| 0i16));
    assert(all.drop_last() =~= tracks);
    assert(longest(all) == longest(tracks));
    lemma_mixed_len(tracks, longest(tracks));
    assert(mix(all) =~= mix(tracks));
}

/// Among profiles named `name` (ignoring case) there is a first one.
proof fn lemma_first_named_exists(ps: Seq<ProfileView>, name: Seq<char>, w: int)
    requires
        0 <= w < ps.len(),
        ascii_lower(ps[w].name) == ascii_lower(name),
    ensures
        exists|i: int| is_first_named(ps, name, i),
    decreases w,
{
    if exists|j: int| 0 <= j < w && ascii_lower((#[trigger] ps[j]).name) == ascii_lower(name) {
        let j = choose|j: int| 0 <= j < w && ascii_lower((#[trigger] ps[j]).name) == ascii_lower(name);
        lemma_first_named_exists(ps, name, j);
    } else {
        assert(is_first_named(ps, name, w));
    }
}

/// Confirming a typed name that is not blank selects a profile of that
/// name (ignoring ASCII case) and shows its high score; an existing
/// profile is reused, so the profiles are unchanged, and otherwise exactly
/// one profile, with a high score of 0, is added.
pub proof fn law_confirm_selects_typed_name(v: BookView)
    requires
        book_wf(v),
        trimmed(v.name_input).len() > 0,
    ensures
        after_confirm(v).current < after_confirm(v).profiles.len(),
        ascii_lower(after_confirm(v).profiles[after_confirm(v).current as int].name) == ascii_lower(
            trimmed(v.name_input),
        ),
        after_confirm(v).high_score == after_confirm(v).profiles[after_confirm(v).current as int].high_score,
        !after_confirm(v).entering_name,
        has_named(v.profiles, trimmed(v.name_input)) ==> after_confirm(v).profiles == v.profiles,
        !has_named(v.profiles, trimmed(v.name_input)) ==> after_confirm(v).profiles.to_multiset()
            == v.profiles.push(ProfileView { name: trimmed(v.name_input), high_score: 0 }).to_multiset(),
{
    broadcast use to_multiset_contains;

    let name = trimmed(v.name_input);
    if has_named(v.profiles, name) {
        let w = choose|w: int| 0 <= w < v.profiles.len() && ascii_lower((#[trigger] v.profiles[w]).name) == ascii_lower(name);
        lemma_first_named_exists(v.profiles, name, w);
    } else {
        let added = ProfileView { name, high_score: 0 };
        let all = v.profiles.push(added);
        lemma_profile_order_total();
        all.lemma_sort_by_ensures(listing_order::<crate::profiles::PlayerProfile>());
        let ps = ordered_profiles(all);
        assert(all[v.profiles.len() as int] == added);
        assert(all.to_multiset().count(added) > 0);
        assert(ps.contains(added));
        let k = choose|k: int| 0 <= k < ps.len() && ps[k] == added;
        lemma_first_named_exists(ps, name, k);
    }
}

proof fn lemma_first_crossing_found(
    from_player: Seq<bool>,
    overlap: Seq<Seq<bool>>,
    removed: Seq<bool>,
    i: int,
    from: int,
    to: int,
)
    ensures
        first_crossing(from_player, overlap, removed, i, from, to) matches Some(j) ==> from <= j < to
            && crosses(from_player, overlap, removed, i, j),
    decreases to - from,
{
    if from < to {
        lemma_first_crossing_found(from_player, overlap, removed, i, from + 1, to);
    }
}

/// Shots cancel only in pairs of a player's shot and an alien's shot that
/// overlap, the earlier one first, neither removed before; both end up
/// removed, and a shot that was already removed stays removed.
pub proof fn law_shots_cancel_in_crossing_pairs(
    from_player: Seq<bool>,
    overlap: Seq<Seq<bool>>,
    removed: Seq<bool>,
    k: nat,
)
    requires
        removed.len() == from_player.len(),
        from_player.len() <= usize::MAX,
        k <= from_player.len(),
    ensures
        cancelled(from_player, overlap, removed, k).0.len() == removed.len(),
        forall|i: int| 0 <= i < removed.len() && removed[i] ==> #[trigger] cancelled(from_player, overlap, removed, k).0[i],
        forall|p: int|
            0 <= p < cancelled(from_player, overlap, removed, k).1.len() ==> {
                let (a, b) = #[trigger] cancelled(from_player, overlap, removed, k).1[p];
                &&& a < b < from_player.len()
                &&& from_player[a as int] != from_player[b as int]
                &&& overlap[a as int][b as int]
                &&& !removed[a as int] && !removed[b as int]
                &&& cancelled(from_player, overlap, removed, k).0[a as int]
                &&& cancelled(from_player, overlap, removed, k).0[b as int]
            },
    decreases k,
{
    if k > 0 {
        law_shots_cancel_in_crossing_pairs(from_player, overlap, removed, (k - 1) as nat);
        let (rm, pairs) = cancelled(from_player, overlap, removed, (k - 1) as nat);
        let i = k - 1;
        lemma_first_crossing_found(from_player, overlap, rm, i, i + 1, from_player.len() as int);
        let (rm2, pairs2) = cancelled(from_player, overlap, removed, k);
        if !rm[i] {
            match first_crossing(from_player, overlap, rm, i, i + 1, from_player.len() as int) {
                Some(j) => {
                    assert forall|p: int| 0 <= p < pairs2.len() implies {
                        let (a, b) = #[trigger] pairs2[p];
                        &&& a < b < from_player.len()
                        &&& from_player[a as int] != from_player[b as int]
                        &&& overlap[a as int][b as int]
                        &&& !removed[a as int] && !removed[b as int]
                        &&& rm2[a as int]
                        &&& rm2[b as int]
                    } by {
                        if p < pairs.len() {
                            assert(pairs2[p] == pairs[p]);
                        } else {
                            assert(pairs2[p] == (i as usize, j as usize));
                            if removed[i] {
                                assert(rm[i]);
                            }
                            if removed[j] {
                                assert(rm[j]);
                            }
                        }
                    }
                },
                None => {},
            }
        }
    }
}

/// Whether the flags hold no true entry.
proof fn lemma_count_true_zero(s: Seq<bool>)
    ensures
        count_true(s) == 0 <==> forall|i: int| 0 <= i < s.len() ==> !#[trigger] s[i],
    decreases s.len(),
{
    if s.len() > 0 {
        lemma_count_true_zero(s.drop_last());
        if count_true(s) == 0 {
            assert forall|i: int| 0 <= i < s.len() implies !#[trigger] s[i] by {
                if i < s.len() - 1 {
                    assert(s[i] == s.drop_last()[i]);
                }
            }
        }
        if forall|i: int| 0 <= i < s.len() ==> !#[trigger] s[i] {
            assert forall|i: int| 0 <= i < s.drop_last().len() implies !#[trigger] s.drop_last()[i] by {
                assert(s.drop_last()[i] == s[i]);
            }
            assert(!s[s.len() - 1]);
        }
    }
}

proof fn lemma_count_true_clear(s: Seq<bool>, k: int)
    requires
        0 <= k < s.len(),
    ensures
        count_true(s.update(k, false)) + (if s[k] { 1int } else { 0int }) == count_true(s),
    decreases s.len(),
{
    let t = s.update(k, false);
    if k < s.len() - 1 {
        lemma_count_true_clear(s.drop_last(), k);
        assert(t.drop_last() =~= s.drop_last().update(k, false));
    } else {
        assert(t.drop_last() =~= s.drop_last());
    }
}

/// The wave is cleared exactly when no alien is left alive, and shooting
/// down a live alien lowers the count of live aliens by one.
pub proof fn law_formation_counts(v: FormationView, row: int, col: int)
    requires
        0 <= row < ALIEN_ROWS,
        0 <= col < ALIEN_COLS,
        v.alive.len() == ALIEN_ROWS * ALIEN_COLS,
    ensures
        count_true(v.alive) == 0 <==> forall|i: int| 0 <= i < v.alive.len() ==> !#[trigger] v.alive[i],
        v.alive[slot(row, col)] ==> count_true(v.alive.update(slot(row, col), false)) + 1 == count_true(v.alive),
        !v.alive[slot(row, col)] ==> v.alive.update(slot(row, col), false) == v.alive,
{
    lemma_count_true_zero(v.alive);
    lemma_count_true_clear(v.alive, slot(row, col));
    if !v.alive[slot(row, col)] {
        assert(v.alive.update(slot(row, col), false) =~= v.alive);
    }
}

/// A player's best score is the highest score that player submitted (0
/// when none): no score of the player is above it, and it is one of them
/// unless it is 0. Scores of other players leave it unchanged.
pub proof fn law_best_score_is_own_maximum(scores: Seq<ScoreView>, pid: u64, e: ScoreView)
    ensures
        forall|i: int|
            0 <= i < scores.len() && (#[trigger] scores[i]).player_id == pid ==> scores[i].score
                <= best_score(scores, pid),
        best_score(scores, pid) == 0 || exists|i: int|
            0 <= i < scores.len() && (#[trigger] scores[i]).player_id == pid && scores[i].score
                == best_score(scores, pid),
        e.player_id != pid ==> best_score(scores.push(e), pid) == best_score(scores, pid),
    decreases scores.len(),
{
    if scores.len() > 0 {
        let rest = scores.drop_last();
        law_best_score_is_own_maximum(rest, pid, e);
        assert forall|i: int|
            0 <= i < scores.len() && (#[trigger] scores[i]).player_id == pid implies scores[i].score
                <= best_score(scores, pid) by {
            if i < rest.len() {
                assert(scores[i] == rest[i]);
            }
        }
        if best_score(scores, pid) != 0 {
            if scores.last().player_id == pid && scores.last().score > best_score(rest, pid) {
                assert(scores[scores.len() - 1].player_id == pid);
            } else {
                let k = choose|k: int|
                    0 <= k < rest.len() && (#[trigger] rest[k]).player_id == pid && rest[k].score
                        == best_score(rest, pid);
                assert(scores[k] == rest[k]);
            }
        }
    }
    assert(scores.push(e).drop_last() =~= scores);
}

/// After a hit, every live cell the hit overlapped has lost at least the
/// hit's damage (2 for a strong hit, else 1), down to 0: the hit wears all
/// of them, not just the first.
pub proof fn law_bunker_hit_wears_every_overlapped_cell(
    cells: Seq<u8>,
    overlap: Seq<bool>,
    strong: bool,
    n: nat,
)
    requires
        n <= cells.len(),
        n <= overlap.len(),
    ensures
        forall|k: int|
            0 <= k < n && cells[k] != 0 && overlap[k] ==> (#[trigger] hit_cells(cells, overlap, strong, n).0[k]) as int
                <= if cells[k] > (if strong { 2int } else { 1int }) {
                cells[k] - (if strong { 2int } else { 1int })
            } else {
                0int
            },
    decreases n,
{
    if n > 0 {
        law_bunker_hit_wears_every_overlapped_cell(cells, overlap, strong, (n - 1) as nat);
        law_bunker_hits_only_wear(cells, overlap, strong, (n - 1) as nat);
        let c = hit_cells(cells, overlap, strong, (n - 1) as nat).0;
        let j = n - 1;
        let d = hit_cell(c, overlap, strong, j);
        assert(hit_cells(cells, overlap, strong, n).0 == d);
        assert forall|k: int| 0 <= k < cells.len() implies d[k] <= c[k] by {}
    }
}

/// When no shot in `from..to` can cancel shot `i`, none of them crosses it.
proof fn lemma_first_crossing_none(
    from_player: Seq<bool>,
    overlap: Seq<Seq<bool>>,
    removed: Seq<bool>,
    i: int,
    from: int,
    to: int,
)
    ensures
        first_crossing(from_player, overlap, removed, i, from, to) is None ==> forall|j: int|
            from <= j < to ==> !crosses(from_player, overlap, removed, i, j),
    decreases to - from,
{
    if from < to {
        lemma_first_crossing_none(from_player, overlap, removed, i, from + 1, to);
    }
}

proof fn lemma_cancelled_complete(
    from_player: Seq<bool>,
    overlap: Seq<Seq<bool>>,
    removed: Seq<bool>,
    k: nat,
)
    requires
        removed.len() == from_player.len(),
        k <= from_player.len(),
    ensures
        cancelled(from_player, overlap, removed, k).0.len() == removed.len(),
        forall|x: int| 0 <= x < removed.len() && removed[x] ==> #[trigger] cancelled(from_player, overlap, removed, k).0[x],
        forall|i: int, j: int|
            0 <= i < k && i < j < from_player.len() && from_player[i] != from_player[j] && overlap[i][j]
                ==> #[trigger] cancelled(from_player, overlap, removed, k).0[i] || #[trigger] cancelled(from_player, overlap, removed, k).0[j],
    decreases k,
{
    if k > 0 {
        lemma_cancelled_complete(from_player, overlap, removed, (k - 1) as nat);
        let rm = cancelled(from_player, overlap, removed, (k - 1) as nat).0;
        let res = cancelled(from_player, overlap, removed, k).0;
        let i0 = k - 1;
        let n = from_player.len() as int;
        lemma_first_crossing_found(from_player, overlap, rm, i0, i0 + 1, n);
        lemma_first_crossing_none(from_player, overlap, rm, i0, i0 + 1, n);
        assert forall|x: int| 0 <= x < removed.len() && rm[x] implies res[x] by {}
        assert forall|x: int| 0 <= x < removed.len() && removed[x] implies #[trigger] res[x] by {
            assert(rm[x]);
        }
        assert forall|i: int, j: int|
            0 <= i < k && i < j < from_player.len() && from_player[i] != from_player[j] && overlap[i][j]
                implies #[trigger] res[i] || #[trigger] res[j] by {
            if i < i0 {
                if rm[i] {
                    assert(res[i]);
                } else {
                    assert(rm[j]);
                    assert(res[j]);
                }
            } else if !rm[i0] {
                if first_crossing(from_player, overlap, rm, i0, i0 + 1, n) is None {
                    assert(!crosses(from_player, overlap, rm, i0, j));
                    assert(rm[j]);
                    assert(res[j]);
                }
            }
        }
    }
}

/// After the pass no crossing pair is left: whenever a player's shot and
/// an alien's shot overlap, at least one of them is removed, whichever
/// side is listed first.
pub proof fn law_no_crossing_shots_survive(
    from_player: Seq<bool>,
    overlap: Seq<Seq<bool>>,
    removed: Seq<bool>,
)
    requires
        removed.len() == from_player.len(),
    ensures
        forall|i: int, j: int|
            0 <= i < j < from_player.len() && from_player[i] != from_player[j] && overlap[i][j]
                ==> #[trigger] cancelled(from_player, overlap, removed, from_player.len() as nat).0[i]
                || #[trigger] cancelled(from_player, overlap, removed, from_player.len() as nat).0[j],
{
    lemma_cancelled_complete(from_player, overlap, removed, from_player.len() as nat);
}

proof fn lemma_front_row_lowest(v: FormationView, col: int, rows: nat)
    ensures
        (exists|r: int| 0 <= r < rows && #[trigger] in_formation(v, slot(r, col))) <==> front_row(v, col, rows) is Some,
        front_row(v, col, rows) matches Some(r) ==> {
            &&& r < rows
            &&& in_formation(v, slot(r as int, col))
            &&& forall|q: int| r < q < rows ==> !#[trigger] in_formation(v, slot(q, col))
        },
    decreases rows,
{
    if rows > 0 {
        lemma_front_row_lowest(v, col, (rows - 1) as nat);
        if exists|r: int| 0 <= r < rows && #[trigger] in_formation(v, slot(r, col)) {
            if !in_formation(v, slot(rows - 1, col)) {
                let r = choose|r: int| 0 <= r < rows && #[trigger] in_formation(v, slot(r, col));
                assert(r < rows - 1);
            }
        }
        if let Some(r) = front_row(v, col, rows) {
            if r < rows - 1 {
                assert(!in_formation(v, slot(rows - 1, col)));
            }
        }
    }
}

proof fn lemma_front_slots(v: FormationView, cols: nat)
    requires
        cols <= ALIEN_COLS,
    ensures
        forall|col: int, r: int|
            0 <= col < cols && front_row(v, col, ALIEN_ROWS as nat) == Some(r as nat) && 0 <= r
                ==> #[trigger] front_slots(v, cols).contains(#[trigger] slot(r, col) as usize),
        forall|x: int| #![trigger front_slots(v, cols)[x]]
            0 <= x < front_slots(v, cols).len() ==> {
                let y = front_slots(v, cols)[x] as int;
                &&& y < slot(ALIEN_ROWS as int, 0)
                &&& y % (ALIEN_COLS as int) < cols
                &&& front_row(v, y % (ALIEN_COLS as int), ALIEN_ROWS as nat) == Some((y / (ALIEN_COLS as int)) as nat)
            },
    decreases cols,
{
    if cols > 0 {
        lemma_front_slots(v, (cols - 1) as nat);
        let rest = front_slots(v, (cols - 1) as nat);
        let all = front_slots(v, cols);
        let c = cols - 1;
        lemma_front_row_lowest(v, c, ALIEN_ROWS as nat);
        match front_row(v, c, ALIEN_ROWS as nat) {
            Some(rc) => {
                assert(0 <= slot(rc as int, c) < 50);
                assert(all == rest.push(slot(rc as int, c) as usize));
            },
            None => {
                assert(all == rest);
            },
        }
        assert forall|col: int, r: int|
            0 <= col < cols && front_row(v, col, ALIEN_ROWS as nat) == Some(r as nat) && 0 <= r
                implies #[trigger] all.contains(#[trigger] slot(r, col) as usize) by {
            if col < c {
                let y = slot(r, col) as usize;
                assert(rest.contains(y));
                let q = choose|q: int| 0 <= q < rest.len() && rest[q] == y;
                assert(all[q] == rest[q]);
            } else {
                assert(all[all.len() - 1] == slot(r, c) as usize);
            }
        }
        assert forall|x: int| #![trigger all[x]] 0 <= x < all.len() implies {
            let y = all[x] as int;
            &&& y < slot(ALIEN_ROWS as int, 0)
            &&& y % (ALIEN_COLS as int) < cols
            &&& front_row(v, y % (ALIEN_COLS as int), ALIEN_ROWS as nat) == Some((y / (ALIEN_COLS as int)) as nat)
        } by {
            if x < rest.len() {
                assert(all[x] == rest[x]);
            } else {
                let rc = front_row(v, c, ALIEN_ROWS as nat)->0 as int;
                assert(0 <= rc < 5);
                assert(all[x] as int == rc * 10 + c);
                assert((rc * 10 + c) % 10 == c && (rc * 10 + c) / 10 == rc) by (nonlinear_arith)
                    requires
                        0 <= c < 10,
                        0 <= rc,
                ;
            }
        }
    }
}

/// The aliens that may fire are exactly the lowest alien in formation of
/// each column: every column with an alien in formation in any row, the
/// top row included, contributes its lowest such alien, and every shooter
/// is in formation with nothing in formation below it in its column.
pub proof fn law_front_shooters_are_column_fronts(v: FormationView)
    ensures
        forall|col: int, row: int|
            0 <= col < ALIEN_COLS && 0 <= row < ALIEN_ROWS && #[trigger] in_formation(v, slot(row, col)) ==> exists|r: int|
                row <= r < ALIEN_ROWS && in_formation(v, slot(r, col)) && #[trigger] front_slots(v, ALIEN_COLS as nat).contains(
                    slot(r, col) as usize,
                ) && forall|q: int| r < q < ALIEN_ROWS ==> !#[trigger] in_formation(v, slot(q, col)),
        forall|x: int| #![trigger front_slots(v, ALIEN_COLS as nat)[x]]
            0 <= x < front_slots(v, ALIEN_COLS as nat).len() ==> shooter_is_column_front(v, front_slots(v, ALIEN_COLS as nat)[x] as int),
{
    let fs = front_slots(v, ALIEN_COLS as nat);
    assert forall|col: int, row: int|
        0 <= col < ALIEN_COLS && 0 <= row < ALIEN_ROWS && #[trigger] in_formation(v, slot(row, col)) implies exists|r: int|
            row <= r < ALIEN_ROWS && in_formation(v, slot(r, col)) && #[trigger] fs.contains(slot(r, col) as usize)
                && forall|q: int| r < q < ALIEN_ROWS ==> !#[trigger] in_formation(v, slot(q, col)) by {
        lemma_column_front_shoots(v, col, row);
    }
    assert forall|x: int| #![trigger fs[x]] 0 <= x < fs.len() implies shooter_is_column_front(v, fs[x] as int) by {
        lemma_front_shooter_is_front(v, x);
    }
}

proof fn lemma_column_front_shoots(v: FormationView, col: int, row: int)
    requires
        0 <= col < ALIEN_COLS,
        0 <= row < ALIEN_ROWS,
        in_formation(v, slot(row, col)),
    ensures
        exists|r: int|
            row <= r < ALIEN_ROWS && in_formation(v, slot(r, col)) && #[trigger] front_slots(v, ALIEN_COLS as nat).contains(
                slot(r, col) as usize,
            ) && forall|q: int| r < q < ALIEN_ROWS ==> !#[trigger] in_formation(v, slot(q, col)),
{
    lemma_front_slots(v, ALIEN_COLS as nat);
    lemma_front_row_lowest(v, col, ALIEN_ROWS as nat);
    assert(front_row(v, col, ALIEN_ROWS as nat) is Some);
    let r = front_row(v, col, ALIEN_ROWS as nat)->0 as int;
    if r < row {
        assert(!in_formation(v, slot(row, col)));
    }
    assert(front_slots(v, ALIEN_COLS as nat).contains(slot(r, col) as usize));
}

/// Slot `y` holds an alien in formation with none in formation below it
/// in its column (the slot's row is `y / 10`, its column `y % 10`).
pub open spec fn shooter_is_column_front(v: FormationView, y: int) -> bool {
    let row = y / (ALIEN_COLS as int);
    let col = y % (ALIEN_COLS as int);
    &&& 0 <= y < slot(ALIEN_ROWS as int, 0)
    &&& y == slot(row, col)
    &&& in_formation(v, y)
    &&& forall|q: int| row < q < ALIEN_ROWS ==> !#[trigger] in_formation(v, slot(q, col))
}

proof fn lemma_front_shooter_is_front(v: FormationView, x: int)
    requires
        0 <= x < front_slots(v, ALIEN_COLS as nat).len(),
    ensures
        shooter_is_column_front(v, front_slots(v, ALIEN_COLS as nat)[x] as int),
{
    let fs = front_slots(v, ALIEN_COLS as nat);
    lemma_front_slots(v, ALIEN_COLS as nat);
    let y = fs[x] as int;
    let col = y % 10;
    let r = y / 10;
    assert(0 <= y < 50);
    assert(y == slot(r, col));
    lemma_front_row_lowest(v, col, ALIEN_ROWS as nat);
    assert(r < ALIEN_ROWS);
    assert(in_formation(v, slot(r, col)));
}

proof fn lemma_longest_push(tracks: Seq<Seq<i16>>, t: Seq<i16>)
    ensures
        longest(tracks.push(t)) == if t.len() > longest(tracks) { t.len() } else { longest(tracks) },
        forall|k: int| 0 <= k < tracks.len() ==> (#[trigger] tracks[k]).len() <= longest(tracks),
    decreases tracks.len(),
{
    assert(tracks.push(t).drop_last() =~= tracks);
    if tracks.len() > 0 {
        lemma_longest_push(tracks.drop_last(), tracks.last());
        assert(tracks.drop_last().push(tracks.last()) =~= tracks);
        assert forall|k: int| 0 <= k < tracks.len() implies (#[trigger] tracks[k]).len() <= longest(tracks) by {
            if k < tracks.len() - 1 {
                assert(tracks[k] == tracks.drop_last()[k]);
            }
        }
    }
}

/// A mix over more samples than every track has is the shorter mix
/// followed by silence.
proof fn lemma_mixed_pad(tracks: Seq<Seq<i16>>, short: nat, long: nat)
    requires
        short <= long,
        forall|k: int| 0 <= k < tracks.len() ==> (#[trigger] tracks[k]).len() <= short,
    ensures
        mixed(tracks, long).len() == long,
        forall|i: int| 0 <= i < long ==> #[trigger] mixed(tracks, long)[i] == if i < short {
            mixed(tracks, short)[i]
        } else {
            0i16
        },
    decreases tracks.len(),
{
    lemma_mixed_len(tracks, long);
    lemma_mixed_len(tracks, short);
    if tracks.len() > 0 {
        let rest = tracks.drop_last();
        assert forall|k: int| 0 <= k < rest.len() implies (#[trigger] rest[k]).len() <= short by {
            assert(rest[k] == tracks[k]);
        }
        assert(tracks[tracks.len() - 1].len() <= short);
        lemma_mixed_pad(rest, short, long);
    }
}

/// Mixing one more track into a mix: the result is as long as the longer of
/// the two; each sample is the earlier sample (0 past its end) plus the
/// track's sample (0 past its end), saturated to the `i16` range: a sum
/// below -32768 gives -32768 and one above 32767 gives 32767.
pub proof fn law_mixing_adds_saturating(tracks: Seq<Seq<i16>>, t: Seq<i16>)
    ensures
        mix(tracks.push(t)).len() == if t.len() > mix(tracks).len() { t.len() } else { mix(tracks).len() },
        forall|i: int|
            0 <= i < mix(tracks.push(t)).len() ==> {
                let before: int = if i < mix(tracks).len() { mix(tracks)[i] as int } else { 0 };
                let sum: int = before + if i < t.len() { t[i] as int } else { 0 };
                &&& sum < -32768 ==> #[trigger] mix(tracks.push(t))[i] == -32768
                &&& sum > 32767 ==> mix(tracks.push(t))[i] == 32767
                &&& -32768 <= sum <= 32767 ==> mix(tracks.push(t))[i] == sum
            },
{
    let all = tracks.push(t);
    lemma_longest_push(tracks, t);
    let l1 = longest(tracks);
    let l2 = longest(all);
    assert(all.drop_last() =~= tracks);
    assert(all.last() == t);
    lemma_mixed_len(tracks, l1);
    lemma_mixed_len(tracks, l2);
    lemma_mixed_pad(tracks, l1, l2);
    let base = mixed(tracks, l2);
    assert(mix(all) == mix_in(base, t));
    assert forall|i: int|
        0 <= i < mix(all).len() implies {
            let before: int = if i < mix(tracks).len() { mix(tracks)[i] as int } else { 0 };
            let sum: int = before + if i < t.len() { t[i] as int } else { 0 };
            &&& sum < -32768 ==> #[trigger] mix(all)[i] == -32768
            &&& sum > 32767 ==> mix(all)[i] == 32767
            &&& -32768 <= sum <= 32767 ==> mix(all)[i] == sum
        } by {
        assert(base[i] == if i < l1 { mixed(tracks, l1)[i] } else { 0i16 });
    }
}

/// A hit is reported exactly when it overlaps a cell that was live before
/// the hit.
pub proof fn law_bunker_hit_reported_iff_live_cell_overlapped(
    cells: Seq<u8>,
    overlap: Seq<bool>,
    strong: bool,
    n: nat,
)
    requires
        n <= cells.len(),
        n <= overlap.len(),
    ensures
        hit_cells(cells, overlap, strong, n).1 <==> exists|k: int| 0 <= k < n && #[trigger] cells[k] != 0 && overlap[k],
    decreases n,
{
    if n > 0 {
        law_bunker_hit_reported_iff_live_cell_overlapped(cells, overlap, strong, (n - 1) as nat);
        law_bunker_hits_only_wear(cells, overlap, strong, (n - 1) as nat);
        let (c, hit) = hit_cells(cells, overlap, strong, (n - 1) as nat);
        let j = n - 1;
        if hit_cells(cells, overlap, strong, n).1 && !hit {
            assert(c[j] != 0 && overlap[j]);
            assert(c == cells);
            assert(cells[j] != 0);
        }
        if exists|k: int| 0 <= k < n && #[trigger] cells[k] != 0 && overlap[k] {
            let k = choose|k: int| 0 <= k < n && #[trigger] cells[k] != 0 && overlap[k];
            if k == j && !hit {
                assert(c == cells);
            }
        }
    }
}

/// A player's best (score, wave) on the board is the greatest of that
/// player's own entries, ordered by score and then wave ((0, 0) when there
/// is none): no entry of the player is above it, it is one of them unless
/// it is (0, 0), and other players' entries leave it unchanged.
pub proof fn law_best_pair_is_own_maximum(scores: Seq<ScoreView>, pid: u64, e: ScoreView)
    ensures
        forall|i: int|
            0 <= i < scores.len() && (#[trigger] scores[i]).player_id == pid ==> {
                let b = best_pair(scores, pid);
                scores[i].score < b.0 || (scores[i].score == b.0 && scores[i].wave <= b.1)
            },
        best_pair(scores, pid) == (0u32, 0u32) || exists|i: int|
            0 <= i < scores.len() && (#[trigger] scores[i]).player_id == pid && (scores[i].score, scores[i].wave)
                == best_pair(scores, pid),
        e.player_id != pid ==> best_pair(scores.push(e), pid) == best_pair(scores, pid),
    decreases scores.len(),
{
    if scores.len() > 0 {
        let rest = scores.drop_last();
        law_best_pair_is_own_maximum(rest, pid, e);
        assert forall|i: int|
            0 <= i < scores.len() && (#[trigger] scores[i]).player_id == pid implies {
                let b = best_pair(scores, pid);
                scores[i].score < b.0 || (scores[i].score == b.0 && scores[i].wave <= b.1)
            } by {
            if i < rest.len() {
                assert(scores[i] == rest[i]);
            }
        }
        if best_pair(scores, pid) != (0u32, 0u32) {
            let last = scores.last();
            let b0 = best_pair(rest, pid);
            if last.player_id == pid && (last.score > b0.0 || (last.score == b0.0 && last.wave > b0.1)) {
                assert(scores[scores.len() - 1] == last);
            } else {
                let k = choose|k: int|
                    0 <= k < rest.len() && (#[trigger] rest[k]).player_id == pid && (rest[k].score, rest[k].wave)
                        == best_pair(rest, pid);
                assert(scores[k] == rest[k]);
            }
        }
    }
    assert(scores.push(e).drop_last() =~= scores);
}

/// The aliens that may start a dive are exactly those in formation below
/// the top row, each once, in slot order.
pub proof fn law_dive_candidates_are_formation_below_top(v: FormationView, n: nat)
    requires
        n <= usize::MAX,
    ensures
        forall|x: int| #![trigger dive_slots(v, n)[x]]
            0 <= x < dive_slots(v, n).len() ==> {
                let y = dive_slots(v, n)[x] as int;
                ALIEN_COLS <= y < n && in_formation(v, y)
            },
        forall|x: int, z: int|
            0 <= x < z < dive_slots(v, n).len() ==> #[trigger] dive_slots(v, n)[x] < #[trigger] dive_slots(v, n)[z],
        forall|y: int|
            ALIEN_COLS <= y < n && #[trigger] in_formation(v, y) ==> dive_slots(v, n).contains(y as usize),
    decreases n,
{
    if n > 0 {
        law_dive_candidates_are_formation_below_top(v, (n - 1) as nat);
        let rest = dive_slots(v, (n - 1) as nat);
        let all = dive_slots(v, n);
        let i = n - 1;
        if in_formation(v, i) && i >= ALIEN_COLS {
            assert(all == rest.push(i as usize));
        } else {
            assert(all == rest);
        }
        assert forall|x: int| #![trigger all[x]] 0 <= x < all.len() implies {
            let y = all[x] as int;
            ALIEN_COLS <= y < n && in_formation(v, y)
        } by {
            if x < rest.len() {
                assert(all[x] == rest[x]);
            }
        }
        assert forall|x: int, z: int| 0 <= x < z < all.len() implies #[trigger] all[x] < #[trigger] all[z] by {
            assert(all[x] == rest[x]);
            if z < rest.len() {
                assert(all[z] == rest[z]);
            } else {
                assert(rest[x] < n - 1);
            }
        }
        assert forall|y: int| ALIEN_COLS <= y < n && #[trigger] in_formation(v, y) implies all.contains(y as usize) by {
            if y < n - 1 {
                let q = choose|q: int| 0 <= q < rest.len() && rest[q] == y as usize;
                assert(all[q] == rest[q]);
            } else {
                assert(all[all.len() - 1] == y as usize);
            }
        }
    }
}

/// Keeping the unmarked items keeps exactly them, in order: the result
/// has one item per unmarked position, and it is the item there.
pub proof fn law_unmarked_keeps_exactly_unmarked<T>(items: Seq<T>, removed: Seq<bool>)
    requires
        removed.len() == items.len(),
    ensures
        unmarked(items, removed).len() + count_true(removed) == items.len(),
        forall|x: int| #![trigger unmarked(items, removed)[x]]
            0 <= x < unmarked(items, removed).len() ==> exists|i: int|
                0 <= i < items.len() && !removed[i] && #[trigger] items[i] == unmarked(items, removed)[x],
        forall|i: int| 0 <= i < items.len() && !removed[i] ==> unmarked(items, removed).contains(#[trigger] items[i]),
    decreases items.len(),
{
    if items.len() > 0 {
        let k = items.len() - 1;
        let it0 = items.drop_last();
        let rm0 = removed.drop_last();
        law_unmarked_keeps_exactly_unmarked(it0, rm0);
        lemma_unmarked_prefix(items, removed, rm0);
        let u = unmarked(items, removed);
        let u0 = unmarked(it0, removed);
        assert(u0 == unmarked(it0, rm0));
        assert(count_true(removed) == count_true(rm0) + if removed[k] { 1nat } else { 0nat });
        assert forall|x: int| #![trigger u[x]] 0 <= x < u.len() implies exists|i: int|
            0 <= i < items.len() && !removed[i] && #[trigger] items[i] == u[x] by {
            if x < u0.len() {
                assert(u[x] == u0[x]);
                let i = choose|i: int| 0 <= i < it0.len() && !rm0[i] && #[trigger] it0[i] == u0[x];
                assert(items[i] == it0[i]);
            } else {
                assert(items[k] == u[x]);
            }
        }
        assert forall|i: int| 0 <= i < items.len() && !removed[i] implies u.contains(#[trigger] items[i]) by {
            if i < k {
                assert(it0[i] == items[i]);
                assert(u0.contains(it0[i]));
                let q = choose|q: int| 0 <= q < u0.len() && u0[q] == it0[i];
                assert(u[q] == u0[q]);
            } else {
                assert(u[u.len() - 1] == items[i]);
            }
        }
    }
}

/// Marks beyond the items' end do not matter.
proof fn lemma_unmarked_prefix<T>(items: Seq<T>, removed: Seq<bool>, shorter: Seq<bool>)
    requires
        items.len() > 0,
        shorter == removed.drop_last(),
        removed.len() == items.len(),
    ensures
        unmarked(items.drop_last(), removed) == unmarked(items.drop_last(), shorter),
{
    lemma_unmarked_marks_agree(items.drop_last(), removed, shorter);
}

proof fn lemma_unmarked_marks_agree<T>(items: Seq<T>, a: Seq<bool>, b: Seq<bool>)
    requires
        items.len() <= a.len(),
        items.len() <= b.len(),
        forall|i: int| 0 <= i < items.len() ==> a[i] == b[i],
    ensures
        unmarked(items, a) == unmarked(items, b),
    decreases items.len(),
{
    if items.len() > 0 {
        lemma_unmarked_marks_agree(items.drop_last(), a, b);
    }
}

} // verus!
