use minesweeper::board::Board;
use minesweeper::cell::{CellState, GameState};
use minesweeper::pos::Pos;

#[test]
fn test_board_new() {
    let board_max: u8 = 5;
    let test_board = Board::new(board_max, board_max);
    assert_eq!(test_board.cells.len() as u8, board_max * board_max);
}

#[test]
fn test_mined_cells() {
    let board_max: u8 = 5;
    let mut board = Board::new(board_max, board_max);
    board.mine_board(&Pos::new(1, 1));
    assert!(board.total_mines() > 0);
}

#[test]
fn positions_cover_grid_once() {
    let board = Board::new(4, 3);
    assert_eq!(board.total_columns(), 4);
    assert_eq!(board.total_rows(), 3);
    assert_eq!(board.board_size(), 12);
    assert_eq!(board.state(), GameState::New);
    let positions = board.positions();
    assert_eq!(positions.len(), 12);
    for (i, (p, _)) in positions.iter().enumerate() {
        for (j, (q, _)) in positions.iter().enumerate() {
            if i != j {
                assert!(p != q);
            }
        }
        assert!(1 <= p.x && p.x <= 4 && 1 <= p.y && p.y <= 3);
    }
}

#[test]
fn adjacency_counts_are_exact() {
    let mines = vec![Pos::new(2, 2), Pos::new(4, 4)];
    let board = Board::with_mines(5, 5, &mines);
    let positions = board.positions();
    for (p, cell) in positions.iter() {
        let mut count = 0u8;
        for (q, other) in positions.iter() {
            let dx = (p.x as i16 - q.x as i16).abs();
            let dy = (p.y as i16 - q.y as i16).abs();
            let mined = matches!(
                other.state,
                CellState::Closed { mined: true, .. } | CellState::ExposedMine
            );
            if (p != q) && dx <= 1 && dy <= 1 && mined {
                count += 1;
            }
        }
        assert_eq!(cell.adjacent_mines, count);
    }
}

#[test]
fn first_open_is_never_mined() {
    let mut board = Board::new(10, 10);
    let first = Pos::new(5, 5);
    board.open_cell(first);
    let cell = board.get_pos(&first).unwrap();
    assert!(matches!(cell.state, CellState::Open));
    assert!(!matches!(
        cell.state,
        CellState::Closed { mined: true, .. } | CellState::ExposedMine
    ));
}

#[test]
fn placement_reaches_the_mine_target() {
    // one tenth of a 10 x 10 grid, well within the sample space
    let mut board = Board::new(10, 10);
    board.open_cell(Pos::new(1, 1));
    assert_eq!(board.mined(), 10);
    assert_eq!(board.total_mines(), 10);
}

#[test]
fn reopening_an_open_cell_changes_nothing() {
    let mines = vec![Pos::new(1, 1)];
    let mut board = Board::with_mines(5, 5, &mines);
    let first = board.open_cell(Pos::new(3, 3));
    assert!(!first.is_empty());
    let opened_before = board.opened();
    let cells_before = board.positions();
    let again = board.open_cell(Pos::new(3, 3));
    assert!(again.is_empty());
    assert_eq!(board.opened(), opened_before);
    let cells_after = board.positions();
    for (before, after) in cells_before.iter().zip(cells_after.iter()) {
        assert_eq!(before, after);
    }
}

#[test]
fn flood_fill_covers_the_zero_region_and_its_border() {
    // one forced mine in a corner; a distant opening floods everything else
    let mines = vec![Pos::new(1, 1)];
    let mut board = Board::with_mines(5, 5, &mines);
    let opened = board.open_cell(Pos::new(5, 5));
    assert_eq!(opened.len(), 24);
    for (i, (p, cell)) in opened.iter().enumerate() {
        assert!(matches!(cell.state, CellState::Open));
        assert!(!matches!(cell.state, CellState::Closed { .. }));
        for (j, (q, _)) in opened.iter().enumerate() {
            if i != j {
                assert!(p != q);
            }
        }
    }
    let mine_cell = board.get_pos(&Pos::new(1, 1)).unwrap();
    assert!(matches!(mine_cell.state, CellState::Closed { mined: true, .. }));
    assert_eq!(board.state(), GameState::Win);
}

#[test]
fn flood_fill_skips_flagged_cells() {
    let mines = vec![Pos::new(1, 1)];
    let mut board = Board::with_mines(5, 5, &mines);
    board.flag_cell(Pos::new(3, 3));
    let opened = board.open_cell(Pos::new(5, 5));
    for (p, _) in opened.iter() {
        assert!(*p != Pos::new(3, 3));
    }
    let flagged_cell = board.get_pos(&Pos::new(3, 3)).unwrap();
    assert!(matches!(flagged_cell.state, CellState::Closed { flagged: true, .. }));
}

#[test]
fn zero_mines_win_by_full_clear() {
    // a 3 x 3 board is below the density threshold, so no mines are placed
    let mut board = Board::new(3, 3);
    board.open_cell(Pos::new(2, 2));
    assert_eq!(board.opened(), 9);
    assert_eq!(board.mined(), 0);
    assert_eq!(board.state(), GameState::Win);
}

#[test]
fn flagging_all_mines_wins() {
    let mines = vec![Pos::new(1, 1), Pos::new(2, 3)];
    let mut board = Board::with_mines(4, 4, &mines);
    board.flag_cell(Pos::new(1, 1));
    assert_eq!(board.state(), GameState::Active);
    board.flag_cell(Pos::new(2, 3));
    assert_eq!(board.state(), GameState::Win);
    assert_eq!(board.opened(), 0);
}

#[test]
fn opening_a_mine_loses_and_exposes_every_mine() {
    let mines = vec![Pos::new(2, 2), Pos::new(4, 1)];
    let mut board = Board::with_mines(4, 4, &mines);
    let opened = board.open_cell(Pos::new(2, 2));
    assert!(opened.is_empty());
    assert_eq!(board.state(), GameState::Loss);
    for (p, cell) in board.positions() {
        if p == Pos::new(2, 2) || p == Pos::new(4, 1) {
            assert!(matches!(cell.state, CellState::ExposedMine));
        } else {
            assert!(!matches!(cell.state, CellState::ExposedMine));
        }
    }
}

#[test]
fn moves_after_the_game_ends_change_nothing() {
    let mines = vec![Pos::new(2, 2)];
    let mut board = Board::with_mines(4, 4, &mines);
    board.open_cell(Pos::new(2, 2));
    assert_eq!(board.state(), GameState::Loss);
    let opened = board.open_cell(Pos::new(1, 1));
    assert!(opened.is_empty());
    assert_eq!(board.state(), GameState::Loss);
    assert_eq!(board.opened(), 0);
}

#[test]
fn flag_and_reflag_restores_the_cell() {
    let mut board = Board::new(5, 5);
    let pos = Pos::new(2, 2);
    let flagged_once = board.flag_cell(pos).unwrap();
    assert!(matches!(flagged_once.1.state, CellState::Closed { flagged: true, .. }));
    assert_eq!(board.flagged(), 1);
    let flagged_twice = board.flag_cell(pos).unwrap();
    assert!(matches!(flagged_twice.1.state, CellState::Closed { flagged: false, .. }));
    assert_eq!(board.flagged(), 0);
}

#[test]
fn flagging_open_cells_has_no_effect() {
    let mines = vec![Pos::new(1, 1)];
    let mut board = Board::with_mines(3, 3, &mines);
    board.open_cell(Pos::new(3, 3));
    let r = board.flag_cell(Pos::new(3, 3)).unwrap();
    assert!(matches!(r.1.state, CellState::Open));
    assert_eq!(board.flagged(), 0);
}

#[test]
fn positions_off_the_grid_do_nothing() {
    let mut board = Board::new(3, 3);
    assert!(board.get_pos(&Pos::new(4, 1)).is_none());
    assert!(board.flag_cell(Pos::new(9, 9)).is_none());
    let opened = board.open_cell(Pos::new(7, 7));
    assert!(opened.is_empty());
}

#[test]
fn duplicate_mine_positions_count_once() {
    let mines = vec![Pos::new(2, 2), Pos::new(2, 2)];
    let board = Board::with_mines(4, 4, &mines);
    assert_eq!(board.mined(), 1);
}

#[test]
fn render_shows_one_character_per_cell() {
    let board = Board::new(2, 2);
    assert_eq!(board.render(), "..\n..\n");
    let mines = vec![Pos::new(1, 1)];
    let mut board = Board::with_mines(2, 2, &mines);
    board.open_cell(Pos::new(2, 2));
    assert_eq!(board.render(), "..\n.1\n");
    board.flag_cell(Pos::new(1, 1));
    assert_eq!(board.render(), "F.\n.1\n");
}
