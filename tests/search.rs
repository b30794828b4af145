use mancala::{MancalaBoard, Player, MAX_DEPTH, NO_MOVE};

#[test]
fn grade_is_side_difference() {
    let mut board = MancalaBoard::new();
    assert_eq!(board.grade_board(&Player::One), 0);
    // Pit 3 sows 4, 5, 6 and 7: one stone crosses to Player Two's side.
    board.move_well(3, &Player::One);
    assert_eq!(board.grade_board(&Player::One), -2);
    assert_eq!(board.grade_board(&Player::Two), 2);
}

#[test]
fn best_move_at_depth_limit_takes_highest_grade() {
    // Pits 0, 1 and 2 keep every stone on the mover's side; the lowest of them wins the tie.
    let board = MancalaBoard::new();
    assert_eq!(board.get_best_move(Player::One, MAX_DEPTH), (0, 0));
    assert_eq!(board.get_best_move(Player::Two, MAX_DEPTH), (7, 0));
    // With pit 0 empty, Player One's first candidate is pit 1.
    let mut board = MancalaBoard::new();
    board.wells[0].stones = 0;
    assert_eq!(board.get_best_move(Player::One, MAX_DEPTH), (1, 20 - 24));
}

#[test]
fn best_move_ties_keep_lowest_pit() {
    let mut board = MancalaBoard::new();
    for i in 0..6 {
        board.wells[i].stones = 1;
    }
    // Every single stone stays on Player One's side: all six moves grade 6 - 24.
    assert_eq!(board.get_best_move(Player::One, MAX_DEPTH), (0, -18));
    // With pit 5 empty, pit 4 lands there alone and captures the 4 stones of pit 7.
    board.wells[5].stones = 0;
    assert_eq!(board.get_best_move(Player::One, MAX_DEPTH), (4, 9 - 20));
}

#[test]
fn best_move_without_stones_reports_no_move() {
    let mut board = MancalaBoard::new();
    for i in 0..6 {
        board.wells[i].stones = 0;
    }
    assert_eq!(board.get_best_move(Player::One, 3), (0, NO_MOVE));
    let mut board = MancalaBoard::new();
    for i in 7..13 {
        board.wells[i].stones = 0;
    }
    assert_eq!(board.get_best_move(Player::Two, 0), (7, NO_MOVE));
}

#[test]
fn best_move_one_ply_ahead() {
    // Player One holds two stones in pit 4, the rest of the row is empty.
    let mut board = MancalaBoard::new();
    for i in 0..6 {
        board.wells[i].stones = 0;
    }
    board.wells[4].stones = 2;
    // Pit 4 sows 5 and 6 and lands in the store with pit 5 still full: another turn.
    // Its grade is 2 - 24; the follow-up from pit 5 at the depth limit grades the same.
    let (pit, score) = board.get_best_move(Player::One, MAX_DEPTH - 1);
    assert_eq!(pit, 4);
    assert_eq!(score, -22 + -22);
}

#[test]
fn search_leaves_board_untouched_and_picks_own_non_empty_pit() {
    let mut board = MancalaBoard::new();
    board.wells[0].stones = 0;
    board.wells[3].stones = 9;
    let before = board;
    let (pit, _) = board.get_best_move(Player::One, MAX_DEPTH - 3);
    assert!(pit < 6);
    assert!(board.wells[pit].stones > 0);
    let (pit2, _) = board.get_best_move(Player::Two, MAX_DEPTH - 3);
    assert!((7..13).contains(&pit2));
    for i in 0..14 {
        assert_eq!(board.wells[i].stones, before.wells[i].stones);
    }
    assert_eq!(
        board.get_best_move(Player::One, MAX_DEPTH - 3),
        board.get_best_move(Player::One, MAX_DEPTH - 3)
    );
}
