//! Which aliens of the formation are alive and which are diving at the
//! player, and the choices made from that: the aliens that may open fire
//! or start a dive, and whether a row or the whole wave is cleared.

use crate::rules::{ALIEN_COLS, ALIEN_ROWS};
use vstd::prelude::*;

verus! {

/// Position of the alien at (`row`, `col`) in the row-by-row formation.
pub open spec fn slot(row: int, col: int) -> int {
    row * ALIEN_COLS + col
}

/// How many entries of `s` are true.
pub open spec fn count_true(s: Seq<bool>) -> nat
    decreases s.len(),
{
    if s.len() == 0 {
        0
    } else {
        count_true(s.drop_last()) + if s.last() {
            1nat
        } else {
            0nat
        }
    }
}

/// The formation's flags, row by row.
pub struct FormationView {
    pub alive: Seq<bool>,
    pub diving: Seq<bool>,
}

/// The alien at `i` can fire or start a dive: alive and in formation.
pub open spec fn in_formation(v: FormationView, i: int) -> bool {
    v.alive[i] && !v.diving[i]
}

/// The lowest alien of column `col` among the first `rows` rows that is
/// in formation, if any.
pub open spec fn front_row(v: FormationView, col: int, rows: nat) -> Option<nat>
    decreases rows,
{
    if rows == 0 {
        None
    } else if in_formation(v, slot(rows - 1, col)) {
        Some((rows - 1) as nat)
    } else {
        front_row(v, col, (rows - 1) as nat)
    }
}

/// For each of the first `cols` columns, in order, the slot of its lowest
/// alien in formation (columns without one are skipped).
pub open spec fn front_slots(v: FormationView, cols: nat) -> Seq<usize>
    decreases cols,
{
    if cols == 0 {
        Seq::empty()
    } else {
        let rest = front_slots(v, (cols - 1) as nat);
        match front_row(v, cols - 1, ALIEN_ROWS as nat) {
            Some(r) => rest.push(slot(r as int, cols - 1) as usize),
            None => rest,
        }
    }
}

/// The slots below `n` whose aliens may start a dive: in formation and
/// not in the top row, in order.
pub open spec fn dive_slots(v: FormationView, n: nat) -> Seq<usize>
    decreases n,
{
    if n == 0 {
        Seq::empty()
    } else {
        let rest = dive_slots(v, (n - 1) as nat);
        let i = n - 1;
        if in_formation(v, i) && i >= ALIEN_COLS {
            rest.push(i as usize)
        } else {
            rest
        }
    }
}

/// The alive and diving flags of the aliens, row by row.
pub struct Formation {
    alive: Vec<bool>,
    diving: Vec<bool>,
}

impl View for Formation {
    type V = FormationView;

    closed spec fn view(&self) -> FormationView {
        FormationView { alive: self.alive@, diving: self.diving@ }
    }
}

impl Formation {
    /// One flag of each kind per alien: 5 rows of 10.
    pub open spec fn wf(&self) -> bool {
        &&& self@.alive.len() == ALIEN_ROWS * ALIEN_COLS
        &&& self@.diving.len() == ALIEN_ROWS * ALIEN_COLS
    }

    /// A new wave: every alien alive and in formation.
    pub fn new() -> (f: Self)
        ensures
            f.wf(),
            forall|i: int| 0 <= i < ALIEN_ROWS * ALIEN_COLS ==> #[trigger] f@.alive[i] && !f@.diving[i],
    {
        let total: usize = ALIEN_ROWS * ALIEN_COLS;
        let alive: Vec<bool> = vec![true; total];
        let diving: Vec<bool> = vec![false; total];
        Formation { alive, diving }
    }

    /// Whether the alien at `i` is alive.
    pub fn is_alive(&self, i: usize) -> (b: bool)
        requires
            self.wf(),
            i < ALIEN_ROWS * ALIEN_COLS,
        ensures
            b == self@.alive[i as int],
    {
        self.alive[i]
    }

    /// Whether the alien at `i` is diving.
    pub fn is_diving(&self, i: usize) -> (b: bool)
        requires
            self.wf(),
            i < ALIEN_ROWS * ALIEN_COLS,
        ensures
            b == self@.diving[i as int],
    {
        self.diving[i]
    }

    /// How many aliens are alive.
    pub fn alive_count(&self) -> (n: usize)
        requires
            self.wf(),
        ensures
            n == count_true(self@.alive),
    {
        let mut n: usize = 0;
        let mut i: usize = 0;
        while i < self.alive.len()
            invariant
                i <= self.alive@.len(),
                self.alive@.len() == ALIEN_ROWS * ALIEN_COLS,
                n == count_true(self.alive@.take(i as int)),
                n <= i,
            decreases self.alive@.len() - i,
        {
            proof {
                assert(self.alive@.take(i + 1).drop_last() =~= self.alive@.take(i as int));
            }
            if self.alive[i] {
                n = n + 1;
            }
            i = i + 1;
        }
        proof {
            assert(self.alive@.take(self.alive@.len() as int) =~= self.alive@);
        }
        n
    }

    /// Whether every alien is destroyed (the wave is cleared).
    pub fn all_destroyed(&self) -> (b: bool)
        requires
            self.wf(),
        ensures
            b == forall|i: int| 0 <= i < self@.alive.len() ==> !#[trigger] self@.alive[i],
    {
        let mut i: usize = 0;
        while i < self.alive.len()
            invariant
                i <= self.alive@.len(),
                forall|j: int| 0 <= j < i ==> !#[trigger] self.alive@[j],
            decreases self.alive@.len() - i,
        {
            if self.alive[i] {
                assert(self@.alive[i as int]);
                return false;
            }
            i = i + 1;
        }
        true
    }

    /// Whether an alive alien is diving.
    pub fn any_diving(&self) -> (b: bool)
        requires
            self.wf(),
        ensures
            b == exists|i: int| 0 <= i < self@.alive.len() && #[trigger] self@.alive[i] && self@.diving[i],
    {
        let mut i: usize = 0;
        while i < self.alive.len()
            invariant
                self.wf(),
                i <= self.alive@.len(),
                forall|j: int| 0 <= j < i ==> !(#[trigger] self.alive@[j] && self.diving@[j]),
            decreases self.alive@.len() - i,
        {
            if self.alive[i] && self.diving[i] {
                return true;
            }
            i = i + 1;
        }
        false
    }

    /// The alien at (`row`, `col`) is shot down. Answers whether its row
    /// now has no alien left alive.
    pub fn destroy(&mut self, row: usize, col: usize) -> (row_cleared: bool)
        requires
            old(self).wf(),
            row < ALIEN_ROWS,
            col < ALIEN_COLS,
        ensures
            final(self).wf(),
            final(self)@.alive == old(self)@.alive.update(slot(row as int, col as int), false),
            final(self)@.diving == old(self)@.diving,
            row_cleared == forall|c: int|
                0 <= c < ALIEN_COLS ==> !#[trigger] final(self)@.alive[slot(row as int, c)],
    {
        self.alive.set(row * ALIEN_COLS + col, false);
        let ghost after = self@;
        let mut c: usize = 0;
        while c < ALIEN_COLS
            invariant
                self.wf(),
                self@ == after,
                after.alive == old(self)@.alive.update(slot(row as int, col as int), false),
                after.diving == old(self)@.diving,
                row < ALIEN_ROWS,
                c <= ALIEN_COLS,
                forall|k: int| 0 <= k < c ==> !#[trigger] self.alive@[slot(row as int, k)],
            decreases ALIEN_COLS - c,
        {
            if self.alive[row * ALIEN_COLS + c] {
                assert(self@.alive[slot(row as int, c as int)]);
                return false;
            }
            c = c + 1;
        }
        true
    }

    /// The diving alien at `i` crashed: it is destroyed and no longer
    /// diving.
    pub fn crash(&mut self, i: usize)
        requires
            old(self).wf(),
            i < ALIEN_ROWS * ALIEN_COLS,
        ensures
            final(self).wf(),
            final(self)@.alive == old(self)@.alive.update(i as int, false),
            final(self)@.diving == old(self)@.diving.update(i as int, false),
    {
        self.alive.set(i, false);
        self.diving.set(i, false);
    }

    /// The alien at `i` starts diving.
    pub fn start_dive(&mut self, i: usize)
        requires
            old(self).wf(),
            i < ALIEN_ROWS * ALIEN_COLS,
        ensures
            final(self).wf(),
            final(self)@.alive == old(self)@.alive,
            final(self)@.diving == old(self)@.diving.update(i as int, true),
    {
        self.diving.set(i, true);
    }

    /// The alien at `i` flew off the field and is back in formation.
    pub fn end_dive(&mut self, i: usize)
        requires
            old(self).wf(),
            i < ALIEN_ROWS * ALIEN_COLS,
        ensures
            final(self).wf(),
            final(self)@.alive == old(self)@.alive,
            final(self)@.diving == old(self)@.diving.update(i as int, false),
    {
        self.diving.set(i, false);
    }

    /// The aliens that may start a dive: alive, in formation and below the
    /// top row, in order.
    pub fn dive_candidates(&self) -> (slots: Vec<usize>)
        requires
            self.wf(),
        ensures
            slots@ == dive_slots(self@, (ALIEN_ROWS * ALIEN_COLS) as nat),
    {
        let total: usize = ALIEN_ROWS * ALIEN_COLS;
        let mut slots: Vec<usize> = Vec::new();
        let mut i: usize = 0;
        while i < total
            invariant
                self.wf(),
                total == ALIEN_ROWS * ALIEN_COLS,
                i <= total,
                slots@ == dive_slots(self@, i as nat),
            decreases total - i,
        {
            if self.alive[i] && !self.diving[i] && i >= ALIEN_COLS {
                slots.push(i);
            }
            i = i + 1;
        }
        slots
    }

    proof fn lemma_front_row_bound(v: FormationView, col: int, rows: nat)
        ensures
            front_row(v, col, rows) matches Some(r) ==> r < rows,
        decreases rows,
    {
        if rows > 0 {
            Self::lemma_front_row_bound(v, col, (rows - 1) as nat);
        }
    }

    /// The lowest alien in formation of column `col`, if any.
    fn front_of(&self, col: usize) -> (r: Option<usize>)
        requires
            self.wf(),
            col < ALIEN_COLS,
        ensures
            r == match front_row(self@, col as int, ALIEN_ROWS as nat) {
                Some(row) => Some(row as usize),
                None => None::<usize>,
            },
    {
        let mut rows: usize = ALIEN_ROWS;
        while rows > 0
            invariant
                self.wf(),
                col < ALIEN_COLS,
                rows <= ALIEN_ROWS,
                front_row(self@, col as int, ALIEN_ROWS as nat) == front_row(self@, col as int, rows as nat),
            decreases rows,
        {
            let k: usize = (rows - 1) * ALIEN_COLS + col;
            if self.alive[k] && !self.diving[k] {
                return Some(rows - 1);
            }
            rows = rows - 1;
        }
        None
    }

    /// The aliens that may open fire: the lowest one in formation of each
    /// column, in column order.
    pub fn front_shooters(&self) -> (slots: Vec<usize>)
        requires
            self.wf(),
        ensures
            slots@ == front_slots(self@, ALIEN_COLS as nat),
    {
        let mut slots: Vec<usize> = Vec::new();
        let mut col: usize = 0;
        while col < ALIEN_COLS
            invariant
                self.wf(),
                col <= ALIEN_COLS,
                slots@ == front_slots(self@, col as nat),
            decreases ALIEN_COLS - col,
        {
            proof {
                Self::lemma_front_row_bound(self@, col as int, ALIEN_ROWS as nat);
            }
            match self.front_of(col) {
                Some(row) => {
                    slots.push(row * ALIEN_COLS + col);
                },
                None => {},
            }
            col = col + 1;
        }
        slots
    }
}

} // verus!
