use minesweeper::CellView;
use minesweeper::GameConfig;
use minesweeper::GameError;
use minesweeper::Minesweeper;

fn view(g: &Minesweeper, x: usize, y: usize) -> CellView {
    g.cell_view(x, y).unwrap()
}

#[test]
fn create_rejects_bad_configs() {
    assert_eq!(
        Minesweeper::create(5, 6, 1).err(),
        Some(GameError::InvalidConfiguration)
    );
    assert_eq!(
        Minesweeper::create(6, 5, 1).err(),
        Some(GameError::InvalidConfiguration)
    );
    assert_eq!(
        Minesweeper::create(6, 6, 0).err(),
        Some(GameError::InvalidConfiguration)
    );
    assert_eq!(
        Minesweeper::create(6, 6, 28).err(),
        Some(GameError::InvalidConfiguration)
    );
    assert!(Minesweeper::create(6, 6, 27).is_ok());
    assert!(Minesweeper::create(6, 6, 1).is_ok());
}

#[test]
fn out_of_bounds_is_reported() {
    let mut g = Minesweeper::create(6, 6, 3).unwrap();
    assert_eq!(g.reveal_cell(6, 0), Err(GameError::OutOfBounds));
    assert_eq!(g.toggle_flag(0, 6), Err(GameError::OutOfBounds));
    assert_eq!(g.chord_reveal(9, 9), Err(GameError::OutOfBounds));
    assert_eq!(g.chord_flag(9, 9), Err(GameError::OutOfBounds));
    assert_eq!(g.cell_view(6, 6).err(), Some(GameError::OutOfBounds));
    assert_eq!(g.dimensions(), (6, 6));
}

#[test]
fn random_placement_places_exactly_mine_count_mines() {
    // reveal every cell; the game ends either by loss (all mines shown
    // revealed) or by the all-clear win (all mines shown flagged); either
    // way exactly `mine_count` cells show as mines afterwards
    let mut g = Minesweeper::create(6, 6, 5).unwrap();
    for y in 0..6 {
        for x in 0..6 {
            g.reveal_cell(x, y).unwrap();
        }
    }
    assert!(g.is_over() || g.is_won());
    assert!(!(g.is_over() && g.is_won()));
    let mut mines = 0;
    for y in 0..6 {
        for x in 0..6 {
            match view(&g, x, y) {
                CellView::RevealedMine => mines += 1,
                CellView::Flagged => mines += 1,
                _ => {}
            }
        }
    }
    assert_eq!(mines, 5);
}

#[test]
fn first_move_and_its_neighbors_are_safe() {
    // a dense board makes an unlucky accident likely if placement were
    // allowed to touch the 3x3 zone around the first click
    for _ in 0..10 {
        let mut g = Minesweeper::create(6, 6, 20).unwrap();
        g.reveal_cell(3, 3).unwrap();
        assert!(!g.is_over());
        for y in 2..5 {
            for x in 2..5 {
                g.reveal_cell(x, y).unwrap();
                assert!(!g.is_over());
            }
        }
    }
}

#[test]
fn adjacency_counts_are_exact() {
    let mut g = Minesweeper::create(6, 6, 3).unwrap();
    g.set_mines(&vec![(0, 0), (2, 0), (5, 5)]).unwrap();
    g.reveal_cell(1, 1).unwrap();
    assert_eq!(view(&g, 1, 1), CellView::RevealedSafe { adjacent_mines: 2 });
    g.reveal_cell(4, 4).unwrap();
    assert_eq!(view(&g, 4, 4), CellView::RevealedSafe { adjacent_mines: 1 });
    g.reveal_cell(3, 3).unwrap();
    assert_eq!(view(&g, 3, 3), CellView::RevealedSafe { adjacent_mines: 0 });
}

#[test]
fn zero_reveal_floods_the_connected_safe_region() {
    // one mine in the far corner: revealing the opposite corner uncovers
    // the whole mine-free board, its numbered border included, and wins
    let mut g = Minesweeper::create(6, 6, 1).unwrap();
    g.set_mines(&vec![(5, 5)]).unwrap();
    g.reveal_cell(0, 0).unwrap();
    assert!(g.is_won());
    assert!(!g.is_over());
    for y in 0..6 {
        for x in 0..6 {
            if x == 5 && y == 5 {
                // the mine is flagged by the winning normalization
                assert_eq!(view(&g, x, y), CellView::Flagged);
            } else if (x == 4 || x == 5) && (y == 4 || y == 5) {
                assert_eq!(view(&g, x, y), CellView::RevealedSafe { adjacent_mines: 1 });
            } else {
                assert_eq!(view(&g, x, y), CellView::RevealedSafe { adjacent_mines: 0 });
            }
        }
    }
}

#[test]
fn flagging_all_mines_wins_without_revealing() {
    let mut g = Minesweeper::create(6, 6, 1).unwrap();
    g.set_mines(&vec![(5, 5)]).unwrap();
    g.toggle_flag(5, 5).unwrap();
    assert!(g.is_won());
    assert!(!g.is_over());
    assert_eq!(view(&g, 5, 5), CellView::Flagged);
    // the rest of the board may stay hidden
    assert_eq!(view(&g, 0, 0), CellView::Hidden);
}

#[test]
fn toggle_flag_twice_returns_to_hidden() {
    let mut g = Minesweeper::create(6, 6, 1).unwrap();
    g.set_mines(&vec![(5, 5)]).unwrap();
    g.toggle_flag(2, 2).unwrap();
    assert_eq!(view(&g, 2, 2), CellView::Flagged);
    g.toggle_flag(2, 2).unwrap();
    assert_eq!(view(&g, 2, 2), CellView::Hidden);
}

#[test]
fn toggle_flag_on_revealed_cell_is_a_no_op() {
    let mut g = Minesweeper::create(6, 6, 2).unwrap();
    g.set_mines(&vec![(5, 5), (3, 5)]).unwrap();
    g.reveal_cell(4, 4).unwrap();
    assert_eq!(view(&g, 4, 4), CellView::RevealedSafe { adjacent_mines: 2 });
    g.toggle_flag(4, 4).unwrap();
    assert_eq!(view(&g, 4, 4), CellView::RevealedSafe { adjacent_mines: 2 });
}

#[test]
fn revealing_a_mine_loses_and_uncovers_all_but_wrong_flags() {
    let mut g = Minesweeper::create(6, 6, 2).unwrap();
    g.set_mines(&vec![(3, 3), (5, 5)]).unwrap();
    g.toggle_flag(0, 1).unwrap(); // a wrong flag
    g.toggle_flag(5, 5).unwrap(); // a correct flag
    g.reveal_cell(3, 3).unwrap();
    assert!(g.is_over());
    assert!(!g.is_won());
    assert_eq!(view(&g, 3, 3), CellView::RevealedMine);
    // the wrong flag stays, so the player can see it was wrong
    assert_eq!(view(&g, 0, 1), CellView::Flagged);
    // the correctly flagged mine is force-revealed
    assert_eq!(view(&g, 5, 5), CellView::RevealedMine);
    // everything else is uncovered
    assert_eq!(view(&g, 0, 0), CellView::RevealedSafe { adjacent_mines: 0 });
}

#[test]
fn terminal_state_freezes_the_board() {
    let mut g = Minesweeper::create(6, 6, 2).unwrap();
    g.set_mines(&vec![(3, 3), (5, 5)]).unwrap();
    g.reveal_cell(3, 3).unwrap();
    assert!(g.is_over());
    let before: Vec<CellView> = (0..36).map(|i| view(&g, i % 6, i / 6)).collect();
    g.reveal_cell(0, 0).unwrap();
    g.toggle_flag(1, 1).unwrap();
    g.chord_reveal(2, 2).unwrap();
    g.chord_flag(2, 2).unwrap();
    let after: Vec<CellView> = (0..36).map(|i| view(&g, i % 6, i / 6)).collect();
    assert_eq!(before, after);
    assert!(g.is_over());
    assert!(!g.is_won());
}

#[test]
fn chord_reveal_opens_unflagged_neighbors_and_keeps_flags() {
    let mut g = Minesweeper::create(6, 6, 3).unwrap();
    g.set_mines(&vec![(0, 0), (2, 0), (5, 5)]).unwrap();
    g.reveal_cell(1, 0).unwrap();
    assert_eq!(view(&g, 1, 0), CellView::RevealedSafe { adjacent_mines: 2 });
    g.toggle_flag(0, 0).unwrap();
    g.toggle_flag(2, 0).unwrap();
    g.chord_reveal(1, 0).unwrap();
    assert!(!g.is_over());
    assert!(!g.is_won());
    assert_eq!(view(&g, 0, 0), CellView::Flagged);
    assert_eq!(view(&g, 2, 0), CellView::Flagged);
    assert_eq!(view(&g, 0, 1), CellView::RevealedSafe { adjacent_mines: 1 });
    assert_eq!(view(&g, 1, 1), CellView::RevealedSafe { adjacent_mines: 2 });
    assert_eq!(view(&g, 2, 1), CellView::RevealedSafe { adjacent_mines: 1 });
}

#[test]
fn chord_reveal_on_wrong_flags_loses() {
    let mut g = Minesweeper::create(6, 6, 3).unwrap();
    g.set_mines(&vec![(0, 0), (2, 0), (5, 5)]).unwrap();
    g.reveal_cell(1, 0).unwrap();
    // two flags, but one of them on a safe cell: the chord hits (2, 0)
    g.toggle_flag(0, 0).unwrap();
    g.toggle_flag(1, 1).unwrap();
    g.chord_reveal(1, 0).unwrap();
    assert!(g.is_over());
    assert!(!g.is_won());
}

#[test]
fn chord_flag_flags_remaining_hidden_neighbors() {
    let mut g = Minesweeper::create(6, 6, 3).unwrap();
    g.set_mines(&vec![(0, 0), (2, 0), (5, 5)]).unwrap();
    g.reveal_cell(1, 0).unwrap();
    g.reveal_cell(0, 1).unwrap();
    g.reveal_cell(1, 1).unwrap();
    g.reveal_cell(2, 1).unwrap();
    // (1, 0) shows 2 and has exactly 2 unrevealed neighbors left
    g.chord_flag(1, 0).unwrap();
    assert_eq!(view(&g, 0, 0), CellView::Flagged);
    assert_eq!(view(&g, 2, 0), CellView::Flagged);
    assert!(!g.is_over());
    assert!(!g.is_won());
}

#[test]
fn chord_operations_without_matching_counts_are_no_ops() {
    let mut g = Minesweeper::create(6, 6, 3).unwrap();
    g.set_mines(&vec![(0, 0), (2, 0), (5, 5)]).unwrap();
    g.reveal_cell(1, 0).unwrap();
    // no flags at all: chord-reveal must do nothing
    g.chord_reveal(1, 0).unwrap();
    assert_eq!(view(&g, 1, 1), CellView::Hidden);
    // five unrevealed neighbors but adjacency 2: chord-flag must do nothing
    g.chord_flag(1, 0).unwrap();
    assert_eq!(view(&g, 0, 0), CellView::Hidden);
}

#[test]
fn reset_redraws_a_fresh_hidden_board() {
    let mut g = Minesweeper::create(6, 6, 2).unwrap();
    g.set_mines(&vec![(3, 3), (5, 5)]).unwrap();
    g.reveal_cell(3, 3).unwrap();
    assert!(g.is_over());
    g.reset();
    assert!(!g.is_over());
    assert!(!g.is_won());
    for y in 0..6 {
        for x in 0..6 {
            assert_eq!(view(&g, x, y), CellView::Hidden);
        }
    }
    assert_eq!(g.dimensions(), (6, 6));
}

#[test]
fn set_mines_rejects_bad_layouts() {
    let mut g = Minesweeper::create(6, 6, 2).unwrap();
    // wrong number of mines
    assert!(g.set_mines(&vec![(3, 3)]).is_err());
    // out of bounds
    assert!(g.set_mines(&vec![(3, 3), (6, 0)]).is_err());
    // duplicate cells
    assert!(g.set_mines(&vec![(3, 3), (3, 3)]).is_err());
    // a valid layout still works afterwards
    assert!(g.set_mines(&vec![(3, 3), (5, 5)]).is_ok());
    // and a second placement is refused
    assert!(g.set_mines(&vec![(2, 2), (4, 4)]).is_err());
}

#[test]
fn default_config_is_valid_and_buildable() {
    let config = GameConfig::default();
    assert_eq!(config.width, 10);
    assert_eq!(config.height, 10);
    assert_eq!(config.mine_count, 15);
    let g = Minesweeper::new(config);
    assert_eq!(g.dimensions(), (10, 10));
    assert!(!g.is_over());
    assert!(!g.is_won());
}

#[test]
fn count_adjacent_mines_matches_views() {
    let mut g = Minesweeper::create(6, 6, 3).unwrap();
    g.set_mines(&vec![(0, 0), (1, 0), (0, 1)]).unwrap();
    assert_eq!(g.count_adjacent_mines(1, 1), 3);
    assert_eq!(g.count_adjacent_mines(2, 2), 0);
    assert_eq!(g.count_adjacent_mines(2, 0), 1);
    g.reveal_cell(1, 1).unwrap();
    assert_eq!(view(&g, 1, 1), CellView::RevealedSafe { adjacent_mines: 3 });
}
