//! The public leaderboard: each player's best score, ranked.

use crate::auth::{find_player_by_id, has_player, is_first_with_id, player_with_id};
use crate::order::{lemma_text_lt_irreflexive, lemma_text_lt_total, lemma_text_lt_transitive, text_less, text_lt};
use crate::scores::{best_pair, best_pair_of};
use crate::store::{player_views, score_views, PlayerView, ScoreView, Store, StoreModel};
use crate::text::same_text;
use vstd::prelude::*;
use crate::sorting::{listing_order, record_views, sort_records, Ranked};
use vstd::relations::total_ordering;

verus! {

/// A player's line on the board before ranking.
pub struct BoardRow {
    pub player_id: u64,
    pub display_name: String,
    pub score: u32,
    pub wave: u32,
}

/// The value of a [`BoardRow`].
pub struct RowView {
    pub player_id: u64,
    pub display_name: Seq<char>,
    pub score: u32,
    pub wave: u32,
}

impl View for BoardRow {
    type V = RowView;

    open spec fn view(&self) -> RowView {
        RowView {
            player_id: self.player_id,
            display_name: self.display_name@,
            score: self.score,
            wave: self.wave,
        }
    }
}

impl BoardRow {
    /// A copy of this row.
    pub fn duplicate(&self) -> (r: Self)
        ensures
            r@ == self@,
    {
        BoardRow {
            player_id: self.player_id,
            display_name: self.display_name.clone(),
            score: self.score,
            wave: self.wave,
        }
    }
}

/// The values of a sequence of rows.
pub open spec fn row_views(s: Seq<BoardRow>) -> Seq<RowView> {
    record_views(s)
}

/// The ids of the players that have submitted scores, in the order of
/// their first score.
pub open spec fn scorer_ids(scores: Seq<ScoreView>) -> Seq<u64>
    decreases scores.len(),
{
    if scores.len() == 0 {
        Seq::empty()
    } else {
        let rest = scorer_ids(scores.drop_last());
        if rest.contains(scores.last().player_id) {
            rest
        } else {
            rest.push(scores.last().player_id)
        }
    }
}

/// One row per id in `ids` that belongs to a registered player: its
/// display name and best (score, wave).
pub open spec fn rows_for(ids: Seq<u64>, players: Seq<PlayerView>, scores: Seq<ScoreView>) -> Seq<RowView>
    decreases ids.len(),
{
    if ids.len() == 0 {
        Seq::empty()
    } else {
        let rest = rows_for(ids.drop_last(), players, scores);
        let id = ids.last();
        if has_player(players, id) {
            rest.push(
                RowView {
                    player_id: id,
                    display_name: player_with_id(players, id).display_name,
                    score: best_pair(scores, id).0,
                    wave: best_pair(scores, id).1,
                },
            )
        } else {
            rest
        }
    }
}

/// The unranked board of a store.
pub open spec fn board_rows(m: StoreModel) -> Seq<RowView> {
    rows_for(scorer_ids(m.scores), m.players, m.scores)
}

/// Row `a` is listed no lower than row `b`: higher score, then further
/// wave, then alphabetical name, then lower id.
pub open spec fn row_leq(a: RowView, b: RowView) -> bool {
    ||| a.score > b.score
    ||| a.score == b.score && a.wave > b.wave
    ||| a.score == b.score && a.wave == b.wave && text_lt(a.display_name, b.display_name)
    ||| a.score == b.score && a.wave == b.wave && a.display_name == b.display_name && a.player_id
        <= b.player_id
}

/// The whole board, best first.
pub open spec fn ranked_rows(m: StoreModel) -> Seq<RowView> {
    board_rows(m).sort_by(listing_order::<BoardRow>())
}

/// How many rows a board request shows: 20 by default, between 1 and 100.
pub open spec fn board_limit(limit: Option<usize>) -> nat {
    let n = match limit {
        Some(n) => n,
        None => 20,
    };
    if n < 1 {
        1
    } else if n > 100 {
        100
    } else {
        n as nat
    }
}

/// The board's order is a total order.
pub proof fn lemma_board_order_total()
    ensures
        total_ordering(listing_order::<BoardRow>()),
{
    let r = listing_order::<BoardRow>();
    assert forall|x: RowView| #[trigger] r(x, x) by {
        lemma_text_lt_irreflexive(x.display_name);
    }
    assert forall|x: RowView, y: RowView| #[trigger] r(x, y) && #[trigger] r(y, x) implies x == y by {
        lemma_text_lt_total(x.display_name, y.display_name);
    }
    assert forall|x: RowView, y: RowView, z: RowView| #[trigger] r(x, y) && #[trigger] r(y, z) implies r(x, z) by {
        if x.score == y.score && y.score == z.score && x.wave == y.wave && y.wave == z.wave {
            if text_lt(x.display_name, y.display_name) && text_lt(y.display_name, z.display_name) {
                lemma_text_lt_transitive(x.display_name, y.display_name, z.display_name);
            }
        }
    }
    assert forall|x: RowView, y: RowView| #[trigger] r(x, y) || #[trigger] r(y, x) by {
        lemma_text_lt_total(x.display_name, y.display_name);
    }
}

impl Ranked for BoardRow {
    open spec fn listed_before(a: RowView, b: RowView) -> bool {
        row_leq(a, b)
    }

    fn precedes(&self, other: &Self) -> (r: bool) {
        row_precedes(self, other)
    }

    fn copy_record(&self) -> (r: Self) {
        self.duplicate()
    }
}

fn row_precedes(a: &BoardRow, b: &BoardRow) -> (r: bool)
    ensures
        r == row_leq(a@, b@),
{
    if a.score != b.score {
        return a.score > b.score;
    }
    if a.wave != b.wave {
        return a.wave > b.wave;
    }
    if text_less(a.display_name.as_str(), b.display_name.as_str()) {
        return true;
    }
    if same_text(a.display_name.as_str(), b.display_name.as_str()) {
        return a.player_id <= b.player_id;
    }
    false
}

fn contains_id(ids: &Vec<u64>, id: u64) -> (r: bool)
    ensures
        r == ids@.contains(id),
{
    let mut i: usize = 0;
    while i < ids.len()
        invariant
            i <= ids@.len(),
            forall|j: int| 0 <= j < i ==> ids@[j] != id,
        decreases ids@.len() - i,
    {
        if ids[i] == id {
            return true;
        }
        i = i + 1;
    }
    false
}

/// The ids of the players that have scores, in the order of their first
/// score.
pub fn scorers(scores: &Vec<crate::store::ScoreEntry>) -> (ids: Vec<u64>)
    ensures
        ids@ == scorer_ids(score_views(scores@)),
{
    let mut ids: Vec<u64> = Vec::new();
    let mut i: usize = 0;
    while i < scores.len()
        invariant
            i <= scores@.len(),
            ids@ == scorer_ids(score_views(scores@.subrange(0, i as int))),
        decreases scores@.len() - i,
    {
        proof {
            assert(score_views(scores@.subrange(0, i + 1)).drop_last() =~= score_views(
                scores@.subrange(0, i as int),
            ));
        }
        let id = scores[i].player_id;
        if !contains_id(&ids, id) {
            ids.push(id);
        }
        i = i + 1;
    }
    proof {
        assert(scores@.subrange(0, scores@.len() as int) =~= scores@);
    }
    ids
}

/// The unranked board: one row per registered player with scores.
pub fn board(store: &Store) -> (rows: Vec<BoardRow>)
    ensures
        row_views(rows@) == board_rows(store@),
{
    let ids = scorers(&store.scores);
    let ghost pv = player_views(store.players@);
    let ghost sv = score_views(store.scores@);
    let mut rows: Vec<BoardRow> = Vec::new();
    let mut j: usize = 0;
    while j < ids.len()
        invariant
            j <= ids@.len(),
            pv == player_views(store.players@),
            sv == score_views(store.scores@),
            row_views(rows@) == rows_for(ids@.subrange(0, j as int), pv, sv),
        decreases ids@.len() - j,
    {
        let id = ids[j];
        proof {
            assert(ids@.subrange(0, j + 1).drop_last() =~= ids@.subrange(0, j as int));
        }
        match find_player_by_id(&store.players, id) {
            Some(k) => {
                proof {
                    assert(has_player(pv, id)) by {
                        assert(pv[k as int].id == id);
                    }
                    let c = choose|x: int| is_first_with_id(pv, id, x);
                    assert(c == k as int);
                }
                let best = best_pair_of(&store.scores, id);
                let row = BoardRow {
                    player_id: id,
                    display_name: store.players[k].display_name.clone(),
                    score: best.0,
                    wave: best.1,
                };
                let ghost before = rows@;
                rows.push(row);
                proof {
                    assert(row_views(rows@) =~= row_views(before).push(row@));
                }
            },
            None => {},
        }
        j = j + 1;
    }
    proof {
        assert(ids@.subrange(0, ids@.len() as int) =~= ids@);
    }
    rows
}

/// One line of the public leaderboard.
pub struct LeaderboardEntry {
    pub rank: usize,
    pub player_id: u64,
    pub display_name: String,
    pub score: u32,
    pub wave: u32,
}

/// `e` is line `k` (0-based) of a board whose ranked rows are `rows`.
pub open spec fn entry_shows(e: LeaderboardEntry, rows: Seq<RowView>, k: int) -> bool {
    &&& e.rank == k + 1
    &&& e.player_id == rows[k].player_id
    &&& e.display_name@ == rows[k].display_name
    &&& e.score == rows[k].score
    &&& e.wave == rows[k].wave
}

/// The leaderboard: every registered player's best score (ties on the
/// score broken by the wave reached), best first, ties then listed by name
/// and id; at most `limit` lines (20 when not given, clamped to 1..=100).
pub fn leaderboard(store: &Store, limit: Option<usize>) -> (entries: Vec<LeaderboardEntry>)
    ensures
        entries@.len() == if ranked_rows(store@).len() < board_limit(limit) {
            ranked_rows(store@).len()
        } else {
            board_limit(limit)
        },
        forall|k: int| 0 <= k < entries@.len() ==> entry_shows(#[trigger] entries@[k], ranked_rows(store@), k),
{
    let wanted: usize = match limit {
        Some(n) => n,
        None => 20,
    };
    let wanted: usize = if wanted < 1 {
        1
    } else if wanted > 100 {
        100
    } else {
        wanted
    };
    let rows = board(store);
    proof {
        lemma_board_order_total();
    }
    let sorted = sort_records(&rows);
    let ghost ranked = row_views(sorted@);
    let n: usize = if sorted.len() < wanted {
        sorted.len()
    } else {
        wanted
    };
    let mut entries: Vec<LeaderboardEntry> = Vec::new();
    let mut k: usize = 0;
    while k < n
        invariant
            k <= n,
            n <= sorted@.len(),
            ranked == row_views(sorted@),
            entries@.len() == k,
            forall|q: int| 0 <= q < k ==> entry_shows(#[trigger] entries@[q], ranked, q),
        decreases n - k,
    {
        let row = &sorted[k];
        entries.push(
            LeaderboardEntry {
                rank: k + 1,
                player_id: row.player_id,
                display_name: row.display_name.clone(),
                score: row.score,
                wave: row.wave,
            },
        );
        k = k + 1;
    }
    entries
}

} // verus!
