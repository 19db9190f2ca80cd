//! The integer rules of a run: scoring, lives, bomb rewards, waves, and the
//! wear of the bunkers.

use vstd::prelude::*;

verus! {

/// Alien rows in the formation.
pub const ALIEN_ROWS: usize = 5;

/// Alien columns in the formation.
pub const ALIEN_COLS: usize = 10;

/// Kills within one reward window that earn one bomb.
pub const BOMB_REWARD_KILLS: u32 = 4;

/// Lives at the start of a run.
pub const STARTING_LIVES: u32 = 3;

/// Columns of bunker cells.
pub const BUNKER_GRID_W: usize = 10;

/// Rows of bunker cells.
pub const BUNKER_GRID_H: usize = 6;

/// Hit points of an intact bunker cell.
pub const BUNKER_CELL_HP: u8 = 3;

/// Points for shooting an alien of formation row `row` (0 is the top).
pub open spec fn row_points(row: int) -> u32 {
    if row == 0 {
        40
    } else if row == 1 || row == 2 {
        30
    } else {
        20
    }
}

/// Points for shooting an alien of formation row `row`: 40 for the top
/// row, 30 for the next two, 20 below.
pub fn alien_score(row: usize) -> (points: u32)
    ensures
        points == row_points(row as int),
{
    match row {
        0 => 40,
        1 | 2 => 30,
        _ => 20,
    }
}

/// The counters of a run.
pub struct RunStats {
    pub score: u32,
    pub lives: u32,
    pub wave: u32,
    pub bombs: u32,
    pub kill_window_kills: u32,
}

impl RunStats {
    /// A fresh run: no score, three lives, wave 1, no bombs.
    pub fn new_run() -> (s: Self)
        ensures
            s.score == 0,
            s.lives == STARTING_LIVES,
            s.wave == 1,
            s.bombs == 0,
            s.kill_window_kills == 0,
    {
        RunStats { score: 0, lives: STARTING_LIVES, wave: 1, bombs: 0, kill_window_kills: 0 }
    }

    /// An alien of row `row` was destroyed: its points are scored and it
    /// counts towards the bomb reward.
    pub fn register_kill(&mut self, row: usize)
        requires
            old(self).score + row_points(row as int) <= u32::MAX,
            old(self).kill_window_kills < u32::MAX,
        ensures
            final(self).score == old(self).score + row_points(row as int),
            final(self).kill_window_kills == old(self).kill_window_kills + 1,
            final(self).lives == old(self).lives,
            final(self).wave == old(self).wave,
            final(self).bombs == old(self).bombs,
    {
        self.score = self.score + alien_score(row);
        self.kill_window_kills = self.kill_window_kills + 1;
    }

    /// The bomb-reward window closes: one bomb per four kills in it is
    /// awarded and the count starts again. Answers the bombs awarded.
    pub fn close_kill_window(&mut self) -> (awarded: u32)
        requires
            old(self).bombs + old(self).kill_window_kills / BOMB_REWARD_KILLS <= u32::MAX,
        ensures
            awarded == old(self).kill_window_kills / BOMB_REWARD_KILLS,
            final(self).bombs == old(self).bombs + awarded,
            final(self).kill_window_kills == 0,
            final(self).score == old(self).score,
            final(self).lives == old(self).lives,
            final(self).wave == old(self).wave,
    {
        let awarded = self.kill_window_kills / BOMB_REWARD_KILLS;
        if awarded > 0 {
            self.bombs = self.bombs + awarded;
        }
        self.kill_window_kills = 0;
        awarded
    }

    /// The player is hit: a life is lost (never below zero). Answers
    /// whether the run is over.
    pub fn take_hit(&mut self) -> (game_over: bool)
        ensures
            final(self).lives == if old(self).lives > 0 {
                (old(self).lives - 1) as u32
            } else {
                0
            },
            game_over == (final(self).lives == 0),
            final(self).score == old(self).score,
            final(self).wave == old(self).wave,
            final(self).bombs == old(self).bombs,
            final(self).kill_window_kills == old(self).kill_window_kills,
    {
        if self.lives > 0 {
            self.lives = self.lives - 1;
        }
        self.lives == 0
    }

    /// A bomb is launched.
    pub fn use_bomb(&mut self)
        requires
            old(self).bombs > 0,
        ensures
            final(self).bombs == old(self).bombs - 1,
            final(self).score == old(self).score,
            final(self).lives == old(self).lives,
            final(self).wave == old(self).wave,
            final(self).kill_window_kills == old(self).kill_window_kills,
    {
        self.bombs = self.bombs - 1;
    }

    /// The wave was cleared: the next one starts with a new reward window.
    pub fn advance_wave(&mut self)
        requires
            old(self).wave < u32::MAX,
        ensures
            final(self).wave == old(self).wave + 1,
            final(self).kill_window_kills == 0,
            final(self).score == old(self).score,
            final(self).lives == old(self).lives,
            final(self).bombs == old(self).bombs,
    {
        self.wave = self.wave + 1;
        self.kill_window_kills = 0;
    }
}

/// The hit points of cell (`row`, `col`) of a fresh bunker: full, except
/// the two rounded top corners and the arch cut into the bottom middle.
pub open spec fn fresh_cell(row: int, col: int) -> u8 {
    let arch_cut = row >= 4 && 4 <= col <= 5;
    let rounded = (row == 0 && (col <= 1 || col >= BUNKER_GRID_W - 2)) || (row == 1 && (col == 0
        || col == BUNKER_GRID_W - 1));
    if arch_cut || rounded {
        0
    } else {
        BUNKER_CELL_HP
    }
}

/// The cells of one bunker, row by row.
pub struct BunkerCells {
    cells: Vec<u8>,
}

/// The hit points of the cells, row by row.
impl View for BunkerCells {
    type V = Seq<u8>;

    closed spec fn view(&self) -> Seq<u8> {
        self.cells@
    }
}

/// Cell (`row`, `col`)'s position in the row-by-row list.
pub open spec fn cell_index(row: int, col: int) -> int {
    row * BUNKER_GRID_W + col
}

/// Hit points after one hit of `damage` (never below zero).
pub open spec fn worn(hp: u8, damage: u8) -> u8 {
    if hp > damage {
        (hp - damage) as u8
    } else {
        0
    }
}

/// The cells after cell `k` is processed by a hit that overlaps the cells
/// marked in `overlap`: a live overlapped cell loses 2 hit points from a
/// strong hit, else 1 and so does the cell below it.
pub open spec fn hit_cell(cells: Seq<u8>, overlap: Seq<bool>, strong: bool, k: int) -> Seq<u8> {
    if cells[k] != 0 && overlap[k] {
        let c = cells.update(k, worn(cells[k], if strong { 2 } else { 1 }));
        if !strong && k + BUNKER_GRID_W < cells.len() {
            c.update(k + BUNKER_GRID_W, worn(c[k + BUNKER_GRID_W as int], 1))
        } else {
            c
        }
    } else {
        cells
    }
}

/// The cells after the first `k` cells are processed, and whether any of
/// them was hit.
pub open spec fn hit_cells(cells: Seq<u8>, overlap: Seq<bool>, strong: bool, k: nat) -> (Seq<u8>, bool)
    decreases k,
{
    if k == 0 {
        (cells, false)
    } else {
        let (c, hit) = hit_cells(cells, overlap, strong, (k - 1) as nat);
        let j = k - 1;
        (hit_cell(c, overlap, strong, j), hit || (c[j] != 0 && overlap[j]))
    }
}

impl BunkerCells {
    /// Hit points of every cell: 60 cells, 6 rows of 10.
    pub open spec fn wf(&self) -> bool {
        self@.len() == BUNKER_GRID_W * BUNKER_GRID_H
    }

    /// A fresh bunker.
    pub fn fresh() -> (b: Self)
        ensures
            b.wf(),
            forall|row: int, col: int|
                0 <= row < BUNKER_GRID_H && 0 <= col < BUNKER_GRID_W ==> b@[cell_index(row, col)]
                    == fresh_cell(row, col),
    {
        let mut cells: Vec<u8> = Vec::new();
        let mut row: usize = 0;
        while row < BUNKER_GRID_H
            invariant
                row <= BUNKER_GRID_H,
                cells@.len() == row * BUNKER_GRID_W,
                forall|r: int, c: int|
                    0 <= r < row && 0 <= c < BUNKER_GRID_W ==> cells@[cell_index(r, c)]
                        == fresh_cell(r, c),
            decreases BUNKER_GRID_H - row,
        {
            let mut col: usize = 0;
            while col < BUNKER_GRID_W
                invariant
                    row < BUNKER_GRID_H,
                    col <= BUNKER_GRID_W,
                    cells@.len() == row * BUNKER_GRID_W + col,
                    forall|r: int, c: int|
                        0 <= r < row && 0 <= c < BUNKER_GRID_W ==> cells@[cell_index(r, c)]
                            == fresh_cell(r, c),
                    forall|c: int| 0 <= c < col ==> cells@[cell_index(row as int, c)] == fresh_cell(row as int, c),
                decreases BUNKER_GRID_W - col,
            {
                let arch_cut = row >= 4 && 4 <= col && col <= 5;
                let rounded = (row == 0 && (col <= 1 || col >= BUNKER_GRID_W - 2)) || (row == 1 && (
                col == 0 || col == BUNKER_GRID_W - 1));
                let hp: u8 = if arch_cut || rounded {
                    0
                } else {
                    BUNKER_CELL_HP
                };
                cells.push(hp);
                col = col + 1;
            }
            row = row + 1;
        }
        BunkerCells { cells }
    }

    /// The hit points of cell (`row`, `col`).
    pub fn cell(&self, row: usize, col: usize) -> (hp: u8)
        requires
            self.wf(),
            row < BUNKER_GRID_H,
            col < BUNKER_GRID_W,
        ensures
            hp == self@[cell_index(row as int, col as int)],
    {
        self.cells[row * BUNKER_GRID_W + col]
    }

    /// A hit overlapping the cells marked in `overlap` (row by row), taken
    /// cell by cell in row order: each live overlapped cell loses 2 hit
    /// points from a strong hit, else 1 and so does the cell below it.
    /// Answers whether any live cell was overlapped.
    pub fn damage(&mut self, overlap: &Vec<bool>, strong: bool) -> (hit: bool)
        requires
            old(self).wf(),
            overlap@.len() == BUNKER_GRID_W * BUNKER_GRID_H,
        ensures
            final(self).wf(),
            (final(self)@, hit) == hit_cells(old(self)@, overlap@, strong, (BUNKER_GRID_W * BUNKER_GRID_H) as nat),
    {
        let total: usize = BUNKER_GRID_W * BUNKER_GRID_H;
        let mut hit = false;
        let mut k: usize = 0;
        while k < total
            invariant
                total == BUNKER_GRID_W * BUNKER_GRID_H,
                overlap@.len() == total,
                k <= total,
                self.cells@.len() == total,
                (self.cells@, hit) == hit_cells(old(self)@, overlap@, strong, k as nat),
            decreases total - k,
        {
            let hp = self.cells[k];
            if hp != 0 && overlap[k] {
                let damage: u8 = if strong {
                    2
                } else {
                    1
                };
                let left: u8 = if hp > damage {
                    hp - damage
                } else {
                    0
                };
                self.cells.set(k, left);
                if !strong && k + BUNKER_GRID_W < total {
                    let below = self.cells[k + BUNKER_GRID_W];
                    let left_below: u8 = if below > 1 {
                        below - 1
                    } else {
                        0
                    };
                    self.cells.set(k + BUNKER_GRID_W, left_below);
                }
                hit = true;
            }
            k = k + 1;
        }
        hit
    }
}

} // verus!
