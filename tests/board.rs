use connect_four::board::Board;

const DRAWN_GAME: [u8; 42] = [
    4, 3, 6, 0, 1, 4, 5, 5, 1, 1, 5, 0, 1, 6, 0, 1, 5, 5, 1, 0, 4, 6, 3, 2, 6, 6, 0, 4, 6, 5, 2,
    0, 4, 2, 4, 2, 2, 2, 3, 3, 3, 3,
];

// A game in which only the last move makes four in a row, for the second
// player.
const LAST_MOVE_WINS: [u8; 42] = [
    5, 6, 6, 2, 1, 4, 4, 3, 2, 0, 2, 2, 6, 1, 0, 0, 2, 4, 3, 4, 0, 5, 1, 5, 2, 3, 3, 4, 5, 0, 1,
    6, 5, 3, 6, 5, 6, 1, 3, 1, 4, 0,
];

fn play(moves: &[u8]) -> Board {
    let mut b = Board::new();
    for &m in moves {
        b.make_move(m);
    }
    b
}

fn state(b: &Board) -> String {
    format!("{:?}", b)
}

#[test]
fn new_board_is_empty() {
    let b = Board::new();
    assert_eq!(b.list_moves(), vec![0, 1, 2, 3, 4, 5, 6]);
    assert_eq!(b.move_count(), 0);
    assert!(!b.is_win(0));
    assert!(!b.is_win(1));
    for c in 0..7 {
        assert_eq!(b.column_height(c), 0);
    }
}

#[test]
fn three_in_one_column() {
    let b = play(&[3, 3, 3]);
    assert!(!b.is_win(0));
    assert!(!b.is_win(1));
    assert_eq!(b.list_moves().len(), 7);
    assert_eq!(b.column_height(3), 3);
    assert_eq!(b.move_count(), 3);
}

#[test]
fn bottom_row_win_for_first_player() {
    let b = play(&[0, 6, 1, 6, 2, 6, 3]);
    assert!(b.is_win(0));
    assert!(!b.is_win(1));
}

#[test]
fn vertical_win() {
    let b = play(&[2, 3, 2, 3, 2, 3, 2]);
    assert!(b.is_win(0));
    assert!(!b.is_win(1));
}

#[test]
fn diagonal_wins() {
    // rising to the right for the first player
    let b = play(&[0, 1, 1, 2, 2, 3, 2, 3, 3, 6, 3]);
    assert!(b.is_win(0));
    assert!(!b.is_win(1));
    // rising to the left for the first player
    let b = play(&[6, 5, 5, 4, 4, 3, 4, 3, 3, 0, 3]);
    assert!(b.is_win(0));
    assert!(!b.is_win(1));
}

#[test]
fn full_board_without_winner() {
    let b = play(&DRAWN_GAME);
    assert!(b.list_moves().is_empty());
    assert!(!b.is_win(0));
    assert!(!b.is_win(1));
    assert_eq!(b.move_count(), 42);
}

#[test]
fn legal_moves_skip_full_columns() {
    let b = play(&[2, 2, 2, 2, 2, 2, 5, 5, 5, 5, 5, 5]);
    assert_eq!(b.list_moves(), vec![0, 1, 3, 4, 6]);
    assert_eq!(b.column_height(2), 6);
    assert_eq!(b.column_height(5), 6);
    assert_eq!(b.column_height(0), 0);
}

#[test]
fn undo_restores_every_field() {
    let prefixes: [&[u8]; 3] = [&[], &[3, 3, 4], &DRAWN_GAME[..30]];
    for moves in prefixes {
        let mut b = play(moves);
        let before = state(&b);
        for col in b.list_moves() {
            b.make_move(col);
            assert_ne!(state(&b), before);
            b.undo_move();
            assert_eq!(state(&b), before);
        }
    }
}

#[test]
fn undo_takes_back_last_move_only() {
    let mut b = play(&[1, 2, 3]);
    b.undo_move();
    assert_eq!(state(&b), state(&play(&[1, 2])));
    assert_eq!(b.column_height(3), 0);
}

#[test]
fn is_win_leaves_board_alone() {
    let b = play(&[0, 6, 1, 6, 2, 6, 3]);
    let before = state(&b);
    let first = b.is_win(0);
    let second = b.is_win(0);
    assert_eq!(first, second);
    assert_eq!(b.is_win(1), b.is_win(1));
    assert_eq!(state(&b), before);
}

#[test]
fn playout_leaves_board_alone() {
    fastrand::seed(11);
    let prefixes: [&[u8]; 4] = [&[], &[3], &[0, 6, 1, 6, 2], &DRAWN_GAME[..40]];
    for moves in prefixes {
        let mut b = play(moves);
        let before = state(&b);
        for _ in 0..20 {
            b.simulate_random_game();
            assert_eq!(state(&b), before);
        }
    }
}

#[test]
fn playout_on_full_board_is_not_a_win() {
    let mut b = play(&DRAWN_GAME);
    let before = state(&b);
    assert!(!b.simulate_random_game());
    assert_eq!(state(&b), before);
}

#[test]
fn playout_with_one_move_left() {
    // The only move left for the player on move completes the drawn game,
    // so the playout cannot be a win.
    let mut b = play(&DRAWN_GAME[..41]);
    assert_eq!(b.list_moves(), vec![3]);
    assert!(!b.simulate_random_game());
}

#[test]
fn playout_with_only_a_winning_move_left() {
    let mut b = play(&LAST_MOVE_WINS[..41]);
    assert_eq!(b.list_moves(), vec![0]);
    assert!(!b.is_win(0));
    assert!(!b.is_win(1));
    let before = state(&b);
    for _ in 0..5 {
        assert!(b.simulate_random_game());
        assert_eq!(state(&b), before);
    }
}

#[test]
fn playout_from_empty_board_leaves_it_empty() {
    fastrand::seed(17);
    let mut b = Board::new();
    for _ in 0..20 {
        b.simulate_random_game();
        assert_eq!(state(&b), state(&Board::new()));
    }
}

#[test]
fn step_completes_column_for_player_on_move() {
    let mut b = play(&[0, 1, 0, 1, 0, 1]);
    assert!(b.playout_step(0));
    assert_eq!(b.move_count(), 7);
    assert_eq!(b.column_height(0), 4);
    assert!(b.is_win(0));
}

#[test]
fn steps_alternating_columns_win_on_seventh() {
    let mut b = Board::new();
    let draws = [0usize, 1, 0, 1, 0, 1];
    for &d in &draws {
        assert!(!b.playout_step(d));
    }
    assert!(b.playout_step(0));
    assert_eq!(state(&b), state(&play(&[0, 1, 0, 1, 0, 1, 0])));
}

#[test]
fn step_draws_index_into_legal_moves() {
    let mut b = play(&[2, 2, 2, 2, 2, 2]);
    // the legal moves are 0, 1, 3, 4, 5, 6: place 2 is column 3
    assert!(!b.playout_step(2));
    assert_eq!(b.column_height(3), 1);
    assert_eq!(b.column_height(2), 6);
}
