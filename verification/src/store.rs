//! The score server's records and the in-memory store that holds them, with
//! the rules that expire and revoke sessions.

use vstd::prelude::*;

verus! {

/// Magic links are valid for 15 minutes.
pub const MAGIC_LINK_TTL_SECS: u64 = 900;

/// Access tokens are valid for 15 minutes.
pub const ACCESS_TOKEN_TTL_SECS: u64 = 900;

/// Refresh tokens are valid for 30 days.
pub const REFRESH_TOKEN_TTL_SECS: u64 = 2592000;

/// A registered player.
pub struct Player {
    pub id: u64,
    pub email: String,
    pub display_name: String,
    pub created_at: u64,
}

/// The value of a [`Player`].
pub struct PlayerView {
    pub id: u64,
    pub email: Seq<char>,
    pub display_name: Seq<char>,
    pub created_at: u64,
}

impl View for Player {
    type V = PlayerView;

    open spec fn view(&self) -> PlayerView {
        PlayerView {
            id: self.id,
            email: self.email@,
            display_name: self.display_name@,
            created_at: self.created_at,
        }
    }
}

impl Player {
    /// A copy of this record.
    pub fn duplicate(&self) -> (r: Self)
        ensures
            r@ == self@,
    {
        Player {
            id: self.id,
            email: self.email.clone(),
            display_name: self.display_name.clone(),
            created_at: self.created_at,
        }
    }
}

/// One submitted score.
pub struct ScoreEntry {
    pub player_id: u64,
    pub score: u32,
    pub wave: u32,
    pub submitted_at: u64,
    pub app_version: Option<String>,
}

/// The value of a [`ScoreEntry`].
pub struct ScoreView {
    pub player_id: u64,
    pub score: u32,
    pub wave: u32,
    pub submitted_at: u64,
    pub app_version: Option<Seq<char>>,
}

/// The value of an optional string.
pub open spec fn opt_text(s: Option<String>) -> Option<Seq<char>> {
    match s {
        Some(t) => Some(t@),
        None => None,
    }
}

impl View for ScoreEntry {
    type V = ScoreView;

    open spec fn view(&self) -> ScoreView {
        ScoreView {
            player_id: self.player_id,
            score: self.score,
            wave: self.wave,
            submitted_at: self.submitted_at,
            app_version: opt_text(self.app_version),
        }
    }
}

impl ScoreEntry {
    /// A copy of this record.
    pub fn duplicate(&self) -> (r: Self)
        ensures
            r@ == self@,
    {
        let app_version = match &self.app_version {
            Some(v) => Some(v.clone()),
            None => None,
        };
        ScoreEntry {
            player_id: self.player_id,
            score: self.score,
            wave: self.wave,
            submitted_at: self.submitted_at,
            app_version,
        }
    }
}

/// A short-lived session: a pending magic link or an access token.
pub struct Session {
    pub player_id: u64,
    pub token_hash: String,
    pub expires_at: u64,
}

/// A pending email login link.
pub type MagicLinkSession = Session;

/// An access-token session.
pub type AccessSession = Session;

/// The value of a [`Session`].
pub struct SessionView {
    pub player_id: u64,
    pub token_hash: Seq<char>,
    pub expires_at: u64,
}

impl View for Session {
    type V = SessionView;

    open spec fn view(&self) -> SessionView {
        SessionView {
            player_id: self.player_id,
            token_hash: self.token_hash@,
            expires_at: self.expires_at,
        }
    }
}

impl Session {
    /// A copy of this record.
    pub fn duplicate(&self) -> (r: Self)
        ensures
            r@ == self@,
    {
        Session {
            player_id: self.player_id,
            token_hash: self.token_hash.clone(),
            expires_at: self.expires_at,
        }
    }
}

/// A refresh-token session.
pub struct RefreshSession {
    pub player_id: u64,
    pub token_hash: String,
    pub issued_at: u64,
    pub expires_at: u64,
}

/// The value of a [`RefreshSession`].
pub struct RefreshView {
    pub player_id: u64,
    pub token_hash: Seq<char>,
    pub issued_at: u64,
    pub expires_at: u64,
}

impl View for RefreshSession {
    type V = RefreshView;

    open spec fn view(&self) -> RefreshView {
        RefreshView {
            player_id: self.player_id,
            token_hash: self.token_hash@,
            issued_at: self.issued_at,
            expires_at: self.expires_at,
        }
    }
}

impl RefreshSession {
    /// A copy of this record.
    pub fn duplicate(&self) -> (r: Self)
        ensures
            r@ == self@,
    {
        RefreshSession {
            player_id: self.player_id,
            token_hash: self.token_hash.clone(),
            issued_at: self.issued_at,
            expires_at: self.expires_at,
        }
    }
}

/// The part of the store that is written to disk.
pub struct PersistedStore {
    pub next_player_id: u64,
    pub players: Vec<Player>,
    pub scores: Vec<ScoreEntry>,
    pub refresh_sessions: Vec<RefreshSession>,
}

/// Everything the server knows: players, scores and live sessions.
pub struct Store {
    pub next_player_id: u64,
    pub players: Vec<Player>,
    pub scores: Vec<ScoreEntry>,
    pub refresh_sessions: Vec<RefreshSession>,
    pub magic_links: Vec<MagicLinkSession>,
    pub access_sessions: Vec<AccessSession>,
}

/// The value of a [`Store`].
pub struct StoreModel {
    pub next_player_id: u64,
    pub players: Seq<PlayerView>,
    pub scores: Seq<ScoreView>,
    pub refresh_sessions: Seq<RefreshView>,
    pub magic_links: Seq<SessionView>,
    pub access_sessions: Seq<SessionView>,
}

/// The values of a sequence of players.
pub open spec fn player_views(s: Seq<Player>) -> Seq<PlayerView> {
    s.map_values(|p: Player| p@)
}

/// The values of a sequence of scores.
pub open spec fn score_views(s: Seq<ScoreEntry>) -> Seq<ScoreView> {
    s.map_values(|e: ScoreEntry| e@)
}

/// The values of a sequence of sessions.
pub open spec fn session_views(s: Seq<Session>) -> Seq<SessionView> {
    s.map_values(|e: Session| e@)
}

/// The values of a sequence of refresh sessions.
pub open spec fn refresh_views(s: Seq<RefreshSession>) -> Seq<RefreshView> {
    s.map_values(|e: RefreshSession| e@)
}

impl View for Store {
    type V = StoreModel;

    open spec fn view(&self) -> StoreModel {
        StoreModel {
            next_player_id: self.next_player_id,
            players: player_views(self.players@),
            scores: score_views(self.scores@),
            refresh_sessions: refresh_views(self.refresh_sessions@),
            magic_links: session_views(self.magic_links@),
            access_sessions: session_views(self.access_sessions@),
        }
    }
}

/// The sessions of `s` that have not expired at `now`, in order.
pub open spec fn live_sessions(s: Seq<SessionView>, now: u64) -> Seq<SessionView>
    decreases s.len(),
{
    if s.len() == 0 {
        s
    } else if s.last().expires_at >= now {
        live_sessions(s.drop_last(), now).push(s.last())
    } else {
        live_sessions(s.drop_last(), now)
    }
}

/// The sessions of `s` that belong to players other than `owner`, in order.
pub open spec fn sessions_not_of(s: Seq<SessionView>, owner: u64) -> Seq<SessionView>
    decreases s.len(),
{
    if s.len() == 0 {
        s
    } else if s.last().player_id != owner {
        sessions_not_of(s.drop_last(), owner).push(s.last())
    } else {
        sessions_not_of(s.drop_last(), owner)
    }
}

/// The refresh sessions of `s` that have not expired at `now`, in order.
pub open spec fn live_refreshes(s: Seq<RefreshView>, now: u64) -> Seq<RefreshView>
    decreases s.len(),
{
    if s.len() == 0 {
        s
    } else if s.last().expires_at >= now {
        live_refreshes(s.drop_last(), now).push(s.last())
    } else {
        live_refreshes(s.drop_last(), now)
    }
}

/// The refresh sessions of `s` that belong to players other than `owner`.
pub open spec fn refreshes_not_of(s: Seq<RefreshView>, owner: u64) -> Seq<RefreshView>
    decreases s.len(),
{
    if s.len() == 0 {
        s
    } else if s.last().player_id != owner {
        refreshes_not_of(s.drop_last(), owner).push(s.last())
    } else {
        refreshes_not_of(s.drop_last(), owner)
    }
}

/// The store after every session that expired before `now` is dropped.
pub open spec fn pruned(m: StoreModel, now: u64) -> StoreModel {
    StoreModel {
        magic_links: live_sessions(m.magic_links, now),
        access_sessions: live_sessions(m.access_sessions, now),
        refresh_sessions: live_refreshes(m.refresh_sessions, now),
        ..m
    }
}

/// Keeps the sessions that have not expired at `now` (`expires_at >= now`).
pub fn retain_live_sessions(v: &mut Vec<Session>, now: u64)
    ensures
        session_views(final(v)@) == live_sessions(session_views(old(v)@), now),
{
    let mut kept: Vec<Session> = Vec::new();
    let mut i: usize = 0;
    while i < v.len()
        invariant
            i <= v@.len(),
            v@ == old(v)@,
            session_views(kept@) == live_sessions(session_views(v@.subrange(0, i as int)), now),
        decreases v@.len() - i,
    {
        let ghost before = session_views(v@.subrange(0, i as int));
        proof {
            assert(session_views(v@.subrange(0, i + 1)).drop_last() =~= before);
        }
        if v[i].expires_at >= now {
            let s = v[i].duplicate();
            kept.push(s);
            proof {
                assert(session_views(kept@) =~= live_sessions(before, now).push(v@[i as int]@));
            }
        }
        i = i + 1;
    }
    proof {
        assert(v@.subrange(0, v@.len() as int) =~= v@);
    }
    *v = kept;
}

/// Drops the sessions of `owner`.
pub fn retain_sessions_not_of(v: &mut Vec<Session>, owner: u64)
    ensures
        session_views(final(v)@) == sessions_not_of(session_views(old(v)@), owner),
{
    let mut kept: Vec<Session> = Vec::new();
    let mut i: usize = 0;
    while i < v.len()
        invariant
            i <= v@.len(),
            v@ == old(v)@,
            session_views(kept@) == sessions_not_of(session_views(v@.subrange(0, i as int)), owner),
        decreases v@.len() - i,
    {
        let ghost before = session_views(v@.subrange(0, i as int));
        proof {
            assert(session_views(v@.subrange(0, i + 1)).drop_last() =~= before);
        }
        if v[i].player_id != owner {
            let s = v[i].duplicate();
            kept.push(s);
            proof {
                assert(session_views(kept@) =~= sessions_not_of(before, owner).push(v@[i as int]@));
            }
        }
        i = i + 1;
    }
    proof {
        assert(v@.subrange(0, v@.len() as int) =~= v@);
    }
    *v = kept;
}

/// Keeps the refresh sessions that have not expired at `now`.
pub fn retain_live_refreshes(v: &mut Vec<RefreshSession>, now: u64)
    ensures
        refresh_views(final(v)@) == live_refreshes(refresh_views(old(v)@), now),
{
    let mut kept: Vec<RefreshSession> = Vec::new();
    let mut i: usize = 0;
    while i < v.len()
        invariant
            i <= v@.len(),
            v@ == old(v)@,
            refresh_views(kept@) == live_refreshes(refresh_views(v@.subrange(0, i as int)), now),
        decreases v@.len() - i,
    {
        let ghost before = refresh_views(v@.subrange(0, i as int));
        proof {
            assert(refresh_views(v@.subrange(0, i + 1)).drop_last() =~= before);
        }
        if v[i].expires_at >= now {
            let s = v[i].duplicate();
            kept.push(s);
            proof {
                assert(refresh_views(kept@) =~= live_refreshes(before, now).push(v@[i as int]@));
            }
        }
        i = i + 1;
    }
    proof {
        assert(v@.subrange(0, v@.len() as int) =~= v@);
    }
    *v = kept;
}

/// Drops the refresh sessions of `owner`.
pub fn retain_refreshes_not_of(v: &mut Vec<RefreshSession>, owner: u64)
    ensures
        refresh_views(final(v)@) == refreshes_not_of(refresh_views(old(v)@), owner),
{
    let mut kept: Vec<RefreshSession> = Vec::new();
    let mut i: usize = 0;
    while i < v.len()
        invariant
            i <= v@.len(),
            v@ == old(v)@,
            refresh_views(kept@) == refreshes_not_of(refresh_views(v@.subrange(0, i as int)), owner),
        decreases v@.len() - i,
    {
        let ghost before = refresh_views(v@.subrange(0, i as int));
        proof {
            assert(refresh_views(v@.subrange(0, i + 1)).drop_last() =~= before);
        }
        if v[i].player_id != owner {
            let s = v[i].duplicate();
            kept.push(s);
            proof {
                assert(refresh_views(kept@) =~= refreshes_not_of(before, owner).push(v@[i as int]@));
            }
        }
        i = i + 1;
    }
    proof {
        assert(v@.subrange(0, v@.len() as int) =~= v@);
    }
    *v = kept;
}

/// Drops every magic link, access session and refresh session that expired
/// before `now`.
pub fn prune_expired(store: &mut Store, now: u64)
    ensures
        final(store)@ == pruned(old(store)@, now),
{
    retain_live_sessions(&mut store.magic_links, now);
    retain_live_sessions(&mut store.access_sessions, now);
    retain_live_refreshes(&mut store.refresh_sessions, now);
}


/// The highest score `pid` has submitted, 0 when none.
pub open spec fn best_score(scores: Seq<ScoreView>, pid: u64) -> u32
    decreases scores.len(),
{
    if scores.len() == 0 {
        0
    } else {
        let rest = best_score(scores.drop_last(), pid);
        if scores.last().player_id == pid && scores.last().score > rest {
            scores.last().score
        } else {
            rest
        }
    }
}

/// The highest score `pid` has submitted, 0 when none.
pub fn high_score_of(scores: &Vec<ScoreEntry>, pid: u64) -> (r: u32)
    ensures
        r == best_score(score_views(scores@), pid),
{
    let mut best: u32 = 0;
    let mut i: usize = 0;
    while i < scores.len()
        invariant
            i <= scores@.len(),
            best == best_score(score_views(scores@.subrange(0, i as int)), pid),
        decreases scores@.len() - i,
    {
        proof {
            assert(score_views(scores@.subrange(0, i + 1)).drop_last() =~= score_views(
                scores@.subrange(0, i as int),
            ));
        }
        if scores[i].player_id == pid && scores[i].score > best {
            best = scores[i].score;
        }
        i = i + 1;
    }
    proof {
        assert(scores@.subrange(0, scores@.len() as int) =~= scores@);
    }
    best
}


impl Store {
    /// An empty store: no players, scores or sessions; ids start at 1.
    pub fn empty() -> (s: Self)
        ensures
            s@.next_player_id == 1,
            s@.players.len() == 0,
            s@.scores.len() == 0,
            s@.refresh_sessions.len() == 0,
            s@.magic_links.len() == 0,
            s@.access_sessions.len() == 0,
    {
        Store {
            next_player_id: 1,
            players: Vec::new(),
            scores: Vec::new(),
            refresh_sessions: Vec::new(),
            magic_links: Vec::new(),
            access_sessions: Vec::new(),
        }
    }

    /// The store described by saved data: its players, scores and refresh
    /// sessions, no magic links or access sessions, and a next id of at
    /// least 1.
    pub fn from_persisted(saved: PersistedStore) -> (s: Self)
        ensures
            s@.next_player_id == if saved.next_player_id > 1 {
                saved.next_player_id
            } else {
                1
            },
            s@.players == player_views(saved.players@),
            s@.scores == score_views(saved.scores@),
            s@.refresh_sessions == refresh_views(saved.refresh_sessions@),
            s@.magic_links.len() == 0,
            s@.access_sessions.len() == 0,
    {
        Store {
            next_player_id: if saved.next_player_id > 1 {
                saved.next_player_id
            } else {
                1
            },
            players: saved.players,
            scores: saved.scores,
            refresh_sessions: saved.refresh_sessions,
            magic_links: Vec::new(),
            access_sessions: Vec::new(),
        }
    }

    /// The part of the store that is saved: next id, players, scores and
    /// refresh sessions.
    pub fn persisted(&self) -> (saved: PersistedStore)
        ensures
            saved.next_player_id == self.next_player_id,
            player_views(saved.players@) == self@.players,
            score_views(saved.scores@) == self@.scores,
            refresh_views(saved.refresh_sessions@) == self@.refresh_sessions,
    {
        let mut players: Vec<Player> = Vec::new();
        let mut i: usize = 0;
        while i < self.players.len()
            invariant
                i <= self.players@.len(),
                player_views(players@) == player_views(self.players@.subrange(0, i as int)),
            decreases self.players@.len() - i,
        {
            let p = self.players[i].duplicate();
            let ghost before = players@;
            players.push(p);
            proof {
                assert(player_views(players@) =~= player_views(before).push(p@));
                assert(player_views(self.players@.subrange(0, i + 1)) =~= player_views(
                    self.players@.subrange(0, i as int),
                ).push(self.players@[i as int]@));
            }
            i = i + 1;
        }
        let mut scores: Vec<ScoreEntry> = Vec::new();
        let mut i: usize = 0;
        while i < self.scores.len()
            invariant
                i <= self.scores@.len(),
                score_views(scores@) == score_views(self.scores@.subrange(0, i as int)),
            decreases self.scores@.len() - i,
        {
            let e = self.scores[i].duplicate();
            let ghost before = scores@;
            scores.push(e);
            proof {
                assert(score_views(scores@) =~= score_views(before).push(e@));
                assert(score_views(self.scores@.subrange(0, i + 1)) =~= score_views(
                    self.scores@.subrange(0, i as int),
                ).push(self.scores@[i as int]@));
            }
            i = i + 1;
        }
        let mut refresh_sessions: Vec<RefreshSession> = Vec::new();
        let mut i: usize = 0;
        while i < self.refresh_sessions.len()
            invariant
                i <= self.refresh_sessions@.len(),
                refresh_views(refresh_sessions@) == refresh_views(
                    self.refresh_sessions@.subrange(0, i as int),
                ),
            decreases self.refresh_sessions@.len() - i,
        {
            let e = self.refresh_sessions[i].duplicate();
            let ghost before = refresh_sessions@;
            refresh_sessions.push(e);
            proof {
                assert(refresh_views(refresh_sessions@) =~= refresh_views(before).push(e@));
                assert(refresh_views(self.refresh_sessions@.subrange(0, i + 1)) =~= refresh_views(
                    self.refresh_sessions@.subrange(0, i as int),
                ).push(self.refresh_sessions@[i as int]@));
            }
            i = i + 1;
        }
        proof {
            assert(self.players@.subrange(0, self.players@.len() as int) =~= self.players@);
            assert(self.scores@.subrange(0, self.scores@.len() as int) =~= self.scores@);
            assert(self.refresh_sessions@.subrange(0, self.refresh_sessions@.len() as int)
                =~= self.refresh_sessions@);
        }
        PersistedStore {
            next_player_id: self.next_player_id,
            players,
            scores,
            refresh_sessions,
        }
    }
}

} // verus!
