use neon_invaders::formation::Formation;
use neon_invaders::rules::{ALIEN_COLS, ALIEN_ROWS};
use neon_invaders::shots::{cancel_crossing_shots, keep_unmarked};

#[test]
fn new_formation_is_full() {
    let f = Formation::new();
    assert_eq!(f.alive_count(), ALIEN_ROWS * ALIEN_COLS);
    assert!(!f.all_destroyed());
    assert!(!f.any_diving());
    assert_eq!(f.front_shooters(), (40..50).collect::<Vec<usize>>());
    assert_eq!(f.dive_candidates(), (10..50).collect::<Vec<usize>>());
}

#[test]
fn destroying_a_row_reports_it_cleared() {
    let mut f = Formation::new();
    for col in 0..ALIEN_COLS - 1 {
        assert!(!f.destroy(0, col));
    }
    assert!(f.destroy(0, ALIEN_COLS - 1));
    assert_eq!(f.alive_count(), 40);
    // Shooting the same alien twice changes nothing more.
    assert!(f.destroy(0, 3));
    assert_eq!(f.alive_count(), 40);
}

#[test]
fn wave_cleared_when_all_destroyed() {
    let mut f = Formation::new();
    for row in 0..ALIEN_ROWS {
        for col in 0..ALIEN_COLS {
            f.destroy(row, col);
        }
    }
    assert!(f.all_destroyed());
    assert_eq!(f.alive_count(), 0);
    assert!(f.front_shooters().is_empty());
    assert!(f.dive_candidates().is_empty());
}

#[test]
fn front_shooters_skip_divers_and_dead() {
    let mut f = Formation::new();
    f.destroy(4, 0);
    f.start_dive(3 * ALIEN_COLS);
    f.destroy(4, 1);
    f.destroy(3, 1);
    f.destroy(2, 1);
    f.destroy(1, 1);
    f.destroy(0, 1);
    let shooters = f.front_shooters();
    assert_eq!(shooters[0], 2 * ALIEN_COLS);
    assert_eq!(shooters[1], 4 * ALIEN_COLS + 2);
    assert_eq!(shooters.len(), 9);
    assert!(f.any_diving());
    assert!(!f.dive_candidates().contains(&(3 * ALIEN_COLS)));
    f.end_dive(3 * ALIEN_COLS);
    assert!(!f.any_diving());
    assert_eq!(f.front_shooters()[0], 3 * ALIEN_COLS);
}

#[test]
fn crashed_diver_is_gone() {
    let mut f = Formation::new();
    f.start_dive(25);
    assert!(f.is_diving(25));
    f.crash(25);
    assert!(!f.is_alive(25));
    assert!(!f.is_diving(25));
    assert_eq!(f.alive_count(), 49);
}

#[test]
fn crossing_shots_cancel_in_pairs() {
    // Shots 0 and 2 are the player's; 1 and 3 the aliens'.
    let from_player = vec![true, false, true, false];
    let mut overlap = vec![vec![false; 4]; 4];
    for (a, b) in [(0, 1), (0, 3), (2, 3), (1, 2)] {
        overlap[a][b] = true;
        overlap[b][a] = true;
    }
    let mut removed = vec![false; 4];
    let pairs = cancel_crossing_shots(&from_player, &overlap, &mut removed);
    assert_eq!(pairs, vec![(0, 1), (2, 3)]);
    assert_eq!(removed, vec![true; 4]);
}

#[test]
fn removed_and_same_side_shots_do_not_cancel() {
    let from_player = vec![true, true, false];
    let overlap = vec![vec![true; 3]; 3];
    let mut removed = vec![false, false, true];
    let pairs = cancel_crossing_shots(&from_player, &overlap, &mut removed);
    assert!(pairs.is_empty());
    assert_eq!(removed, vec![false, false, true]);
}

#[test]
fn unmarked_items_are_kept_in_order() {
    let kept = keep_unmarked(vec!['a', 'b', 'c', 'd'], &vec![false, true, true, false]);
    assert_eq!(kept, vec!['a', 'd']);
    assert!(keep_unmarked(Vec::<u8>::new(), &Vec::new()).is_empty());
}
