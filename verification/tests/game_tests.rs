use neon_invaders::profiles::{
    format_profiles, parse_profile_line, parse_profiles, sort_profiles, PlayerProfile, ProfileBook,
};
use neon_invaders::rules::{alien_score, BunkerCells, RunStats, BUNKER_GRID_H, BUNKER_GRID_W};

fn profile(name: &str, high_score: u32) -> PlayerProfile {
    PlayerProfile { name: name.to_string(), high_score }
}

fn summary(ps: &[PlayerProfile]) -> Vec<(String, u32)> {
    ps.iter().map(|p| (p.name.clone(), p.high_score)).collect()
}

#[test]
fn alien_points_by_row() {
    assert_eq!(alien_score(0), 40);
    assert_eq!(alien_score(1), 30);
    assert_eq!(alien_score(2), 30);
    assert_eq!(alien_score(3), 20);
    assert_eq!(alien_score(4), 20);
}

#[test]
fn run_counters() {
    let mut run = RunStats::new_run();
    assert_eq!((run.score, run.lives, run.wave, run.bombs), (0, 3, 1, 0));
    for row in [0, 1, 3, 4, 2] {
        run.register_kill(row);
    }
    assert_eq!(run.score, 40 + 30 + 20 + 20 + 30);
    assert_eq!(run.kill_window_kills, 5);
    assert_eq!(run.close_kill_window(), 1);
    assert_eq!(run.bombs, 1);
    assert_eq!(run.kill_window_kills, 0);
    assert_eq!(run.close_kill_window(), 0);
    run.use_bomb();
    assert_eq!(run.bombs, 0);
    run.kill_window_kills = 3;
    run.advance_wave();
    assert_eq!(run.wave, 2);
    assert_eq!(run.kill_window_kills, 0);
    assert!(!run.take_hit());
    assert!(!run.take_hit());
    assert!(run.take_hit());
    assert_eq!(run.lives, 0);
    assert!(run.take_hit());
    assert_eq!(run.lives, 0);
}

#[test]
fn eight_kills_earn_two_bombs() {
    let mut run = RunStats::new_run();
    for _ in 0..8 {
        run.register_kill(4);
    }
    assert_eq!(run.close_kill_window(), 2);
    assert_eq!(run.bombs, 2);
    assert_eq!(run.score, 160);
}

#[test]
fn fresh_bunker_shape() {
    let b = BunkerCells::fresh();
    let mut rows = Vec::new();
    for row in 0..BUNKER_GRID_H {
        let line: Vec<u8> = (0..BUNKER_GRID_W).map(|col| b.cell(row, col)).collect();
        rows.push(line);
    }
    assert_eq!(rows[0], vec![0, 0, 3, 3, 3, 3, 3, 3, 0, 0]);
    assert_eq!(rows[1], vec![0, 3, 3, 3, 3, 3, 3, 3, 3, 0]);
    assert_eq!(rows[2], vec![3; 10]);
    assert_eq!(rows[3], vec![3; 10]);
    assert_eq!(rows[4], vec![3, 3, 3, 3, 0, 0, 3, 3, 3, 3]);
    assert_eq!(rows[5], vec![3, 3, 3, 3, 0, 0, 3, 3, 3, 3]);
}

#[test]
fn weak_hit_wears_cell_and_the_one_below() {
    let mut b = BunkerCells::fresh();
    let mut overlap = vec![false; BUNKER_GRID_W * BUNKER_GRID_H];
    overlap[2 * BUNKER_GRID_W + 3] = true;
    assert!(b.damage(&overlap, false));
    assert_eq!(b.cell(2, 3), 2);
    assert_eq!(b.cell(3, 3), 2);
    assert_eq!(b.cell(2, 4), 3);
}

#[test]
fn strong_hit_takes_two_points_from_the_cell_only() {
    let mut b = BunkerCells::fresh();
    let mut overlap = vec![false; BUNKER_GRID_W * BUNKER_GRID_H];
    overlap[2 * BUNKER_GRID_W + 3] = true;
    assert!(b.damage(&overlap, true));
    assert_eq!(b.cell(2, 3), 1);
    assert_eq!(b.cell(3, 3), 3);
    assert!(b.damage(&overlap, true));
    assert_eq!(b.cell(2, 3), 0);
    // A destroyed cell is no longer hit.
    assert!(!b.damage(&overlap, true));
}

#[test]
fn hit_on_empty_cells_changes_nothing() {
    let mut b = BunkerCells::fresh();
    let mut overlap = vec![false; BUNKER_GRID_W * BUNKER_GRID_H];
    overlap[0] = true;
    overlap[4 * BUNKER_GRID_W + 4] = true;
    assert!(!b.damage(&overlap, false));
    let fresh = BunkerCells::fresh();
    for row in 0..BUNKER_GRID_H {
        for col in 0..BUNKER_GRID_W {
            assert_eq!(b.cell(row, col), fresh.cell(row, col));
        }
    }
}

#[test]
fn weak_hit_on_bottom_row_has_nothing_below() {
    let mut b = BunkerCells::fresh();
    let mut overlap = vec![false; BUNKER_GRID_W * BUNKER_GRID_H];
    overlap[5 * BUNKER_GRID_W] = true;
    assert!(b.damage(&overlap, false));
    assert_eq!(b.cell(5, 0), 2);
}

#[test]
fn profiles_are_listed_by_score_then_name() {
    let sorted = sort_profiles(&vec![profile("bob", 10), profile("amy", 10), profile("cid", 50)]);
    assert_eq!(
        summary(&sorted),
        vec![("cid".to_string(), 50), ("amy".to_string(), 10), ("bob".to_string(), 10)]
    );
}

#[test]
fn profile_file_format() {
    let text = format_profiles(&vec![profile("ace", 120), profile("tab\tname\n", 7)]);
    assert_eq!(text, "ace\t120\ntab name \t7\n");
}

#[test]
fn profile_lines_parse() {
    let p = parse_profile_line("  ace  \t +42 ").unwrap();
    assert_eq!((p.name.as_str(), p.high_score), ("ace", 42));
    assert!(parse_profile_line("no tab here").is_none());
    assert!(parse_profile_line("   \t5").is_none());
    assert!(parse_profile_line("ace\t-5").is_none());
    assert!(parse_profile_line("ace\t4294967296").is_none());
    assert_eq!(parse_profile_line("ace\t4294967295").unwrap().high_score, u32::MAX);
    assert_eq!(parse_profile_line("ace\t5\tmore").map(|p| p.high_score), None);
}

#[test]
fn profile_file_round_trip() {
    let ps = vec![profile("zed", 3), profile("amy", 90), profile("Bo Li", 3)];
    let loaded = parse_profiles(&format_profiles(&ps));
    assert_eq!(summary(&loaded), summary(&sort_profiles(&ps)));
}

#[test]
fn loading_skips_bad_lines_and_sorts() {
    let loaded = parse_profiles("bad\nace\t10\r\n\n\t3\nbee\t20\nx\ty\n");
    assert_eq!(summary(&loaded), vec![("bee".to_string(), 20), ("ace".to_string(), 10)]);
    assert!(parse_profiles("").is_empty());
}

#[test]
fn new_book_without_profiles_asks_for_a_name() {
    let book = ProfileBook::new(Vec::new());
    assert!(book.is_entering_name());
    assert_eq!(book.high_score(), 0);
    let book = ProfileBook::new(vec![profile("ace", 9)]);
    assert!(!book.is_entering_name());
    assert_eq!(book.high_score(), 9);
}

#[test]
fn typing_a_name() {
    let mut book = ProfileBook::new(Vec::new());
    for c in "A*ce é".chars() {
        book.type_char(c);
    }
    assert_eq!(book.name_input(), "Ace ");
    book.erase_char();
    assert_eq!(book.name_input(), "Ace");
    for c in "xxxxxxxxxxxxxxxxxxxx".chars() {
        book.type_char(c);
    }
    assert_eq!(book.name_input().len(), 16);
}

#[test]
fn confirming_a_new_name_creates_and_selects_it() {
    let mut book = ProfileBook::new(vec![profile("amy", 50), profile("zed", 0)]);
    book.begin_new_name();
    for c in "  bob ".chars() {
        book.type_char(c);
    }
    assert!(book.confirm_name());
    assert!(!book.is_entering_name());
    assert_eq!(book.name_input(), "");
    assert_eq!(
        summary(book.profiles()),
        vec![("amy".to_string(), 50), ("bob".to_string(), 0), ("zed".to_string(), 0)]
    );
    assert_eq!(book.current_index(), 1);
    assert_eq!(book.high_score(), 0);
}

#[test]
fn confirming_an_existing_name_ignores_case() {
    let mut book = ProfileBook::new(vec![profile("amy", 50), profile("Zed", 7)]);
    book.begin_new_name();
    for c in "zED".chars() {
        book.type_char(c);
    }
    assert!(book.confirm_name());
    assert_eq!(book.profiles().len(), 2);
    assert_eq!(book.current_index(), 1);
    assert_eq!(book.high_score(), 7);
}

#[test]
fn confirming_a_blank_name_does_nothing() {
    let mut book = ProfileBook::new(Vec::new());
    book.type_char(' ');
    assert!(!book.confirm_name());
    assert!(book.is_entering_name());
    assert_eq!(book.name_input(), " ");
}

#[test]
fn selection_wraps_around() {
    let mut book = ProfileBook::new(vec![profile("a", 3), profile("b", 2), profile("c", 1)]);
    book.select_previous();
    assert_eq!(book.current_index(), 2);
    assert_eq!(book.high_score(), 1);
    book.select_next();
    assert_eq!(book.current_index(), 0);
    book.select_next();
    assert_eq!(book.current_index(), 1);
    assert!(book.start_game());
    assert_eq!(book.high_score(), 2);
    let mut empty = ProfileBook::new(Vec::new());
    empty.select_next();
    assert_eq!(empty.current_index(), 0);
    assert!(!empty.start_game());
}

#[test]
fn new_high_scores_are_kept() {
    let mut book = ProfileBook::new(vec![profile("a", 30)]);
    assert!(!book.record_score(30));
    assert!(book.record_score(31));
    assert_eq!(book.high_score(), 31);
    assert_eq!(book.profiles()[0].high_score, 31);
    assert!(!book.record_score(5));
    assert_eq!(book.profiles()[0].high_score, 31);
}

#[test]
fn a_confirmed_name_survives_saving_and_loading() {
    let mut book = ProfileBook::new(vec![profile("amy", 5)]);
    book.begin_new_name();
    for c in "  Star\tFox_9 ".chars() {
        book.type_char(c);
    }
    assert!(book.confirm_name());
    let loaded = parse_profiles(&format_profiles(book.profiles()));
    assert_eq!(summary(&loaded), summary(book.profiles()));
    assert_eq!(loaded[1].name, "StarFox_9");
}
