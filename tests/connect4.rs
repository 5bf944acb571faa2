use mcts::connect4::{Game, MoveError, Player, HEIGHT, WIDTH};
use mcts::game::GameState;

fn same_board(a: &Game, b: &Game) -> bool {
    for col in 0..WIDTH {
        for row in 0..HEIGHT {
            if a.get_cell(col, row) != b.get_cell(col, row) {
                return false;
            }
        }
    }
    a.get_current_player() == b.get_current_player() && a.get_winner() == b.get_winner()
}

#[test]
fn players_in_turn_order() {
    assert_eq!(Player::all(), vec![Player::Red, Player::Yellow]);
    assert_eq!(Player::Red.next(), Player::Yellow);
    assert_eq!(Player::Yellow.next(), Player::Red);
    assert_eq!(Player::Red.prev(), Player::Yellow);
    assert_eq!(Player::Yellow.prev(), Player::Red);
    assert_eq!(Player::Red.to_char(), 'R');
    assert_eq!(Player::Yellow.to_char(), 'Y');
}

#[test]
fn new_game_is_empty() {
    let g = Game::new();
    assert_eq!(g.get_current_player(), Player::Red);
    assert_eq!(g.get_prev_player(), Player::Yellow);
    assert_eq!(g.get_winner(), None);
    assert_eq!(g.get_moves(), vec![0, 1, 2, 3, 4, 5, 6]);
    for col in 0..WIDTH {
        for row in 0..HEIGHT {
            assert_eq!(g.get_cell(col, row), None);
        }
    }
}

#[test]
fn first_move_keeps_all_columns_open() {
    let mut g = Game::new();
    assert_eq!(g.make_move(3), Ok(()));
    assert_eq!(g.get_moves(), vec![0, 1, 2, 3, 4, 5, 6]);
    assert_eq!(g.get_winner(), None);
    assert_eq!(g.get_cell(3, 0), Some(Player::Red));
    assert_eq!(g.get_current_player(), Player::Yellow);
    assert_eq!(g.get_prev_player(), Player::Red);
}

#[test]
fn vertical_four_wins() {
    let mut g = Game::new();
    for mv in [3u8, 0, 3, 0, 3, 0] {
        assert_eq!(g.make_move(mv), Ok(()));
        assert_eq!(g.get_winner(), None);
    }
    assert_eq!(g.make_move(3), Ok(()));
    assert_eq!(g.get_winner(), Some(Player::Red));
    assert_eq!(g.get_moves(), Vec::<u8>::new());
}

#[test]
fn horizontal_four_wins() {
    let mut g = Game::new();
    for mv in [0u8, 0, 1, 1, 2, 2] {
        assert_eq!(g.make_move(mv), Ok(()));
    }
    assert_eq!(g.get_winner(), None);
    assert_eq!(g.make_move(3), Ok(()));
    assert_eq!(g.get_winner(), Some(Player::Red));
}

#[test]
fn diagonal_four_wins_from_its_middle() {
    let mut g = Game::new();
    // Yellow builds the diagonal (0,0) (1,1) (2,2) (3,3); the piece at (2,2) comes last.
    for mv in [1u8, 0, 2, 1, 3, 2, 3, 3, 6, 3, 6] {
        assert_eq!(g.make_move(mv), Ok(()));
        assert_eq!(g.get_winner(), None);
    }
    assert_eq!(g.get_cell(2, 1), Some(Player::Yellow));
    assert_eq!(g.make_move(2), Ok(()));
    assert_eq!(g.get_cell(2, 2), Some(Player::Yellow));
    assert_eq!(g.get_winner(), Some(Player::Yellow));
}

#[test]
fn three_in_a_row_does_not_win() {
    let mut g = Game::new();
    for mv in [0u8, 0, 1, 1, 2] {
        assert_eq!(g.make_move(mv), Ok(()));
    }
    assert_eq!(g.get_winner(), None);
    assert_eq!(g.get_moves().len(), 7);
}

#[test]
fn full_column_is_rejected_without_change() {
    let mut g = Game::new();
    for _ in 0..HEIGHT {
        assert_eq!(g.make_move(5), Ok(()));
    }
    assert_eq!(g.get_moves(), vec![0, 1, 2, 3, 4, 6]);
    let before = g;
    assert_eq!(g.make_move(5), Err(MoveError::ColumnFull(5)));
    assert!(same_board(&before, &g));
}

#[test]
fn out_of_range_is_rejected_without_change() {
    let mut g = Game::new();
    let before = g;
    assert_eq!(g.make_move(7), Err(MoveError::OutOfRange(7)));
    assert_eq!(g.make_move(255), Err(MoveError::OutOfRange(255)));
    assert!(same_board(&before, &g));
}

#[test]
fn from_move_leaves_the_source_state() {
    let g = Game::new();
    let next = g.from_move(4).unwrap();
    assert_eq!(g.get_cell(4, 0), None);
    assert_eq!(next.get_cell(4, 0), Some(Player::Red));
    let mut applied = Game::new();
    applied.make_move(4).unwrap();
    assert!(same_board(&next, &applied));
    assert_eq!(g.from_move(9).err(), Some(MoveError::OutOfRange(9)));
}
