use uttt::game::{GameResult, Move, PlayerId, Square, SubSquare};
use uttt::pool::Alloc;

/// Assert the move is legal, play it, and re-analyze, as the search does.
fn mv(g: &mut Square, x: usize, y: usize, p: PlayerId) -> GameResult {
    assert!(g.is_valid2(x, y), "move ({x}, {y}) is not legal here");
    g.put(x, y, p);
    g.analyze()
}

#[test]
fn new_board_is_empty_and_open() {
    let mut g = Square::new();
    assert_eq!(g.prev(), None);
    for i in 0..9 {
        assert!(g.get1(i).state().is_ongoing());
        for j in 0..9 {
            assert_eq!(g.get1(i).get1(j), None);
            assert!(g.is_valid2(i, j));
        }
        assert!(g.is_valid1(i));
    }
    assert!(g.analyze().is_ongoing());
}

#[test]
fn first_move_constrains_to_one_subsquare() {
    let mut g = Square::new();
    g.put(4, 4, 0);
    g.analyze();
    for i in 0..9 {
        assert_eq!(g.is_valid1(i), i == 4);
    }
    // within subsquare 4, only the played cell is gone
    for j in 0..9 {
        assert_eq!(g.is_valid2(4, j), j != 4);
    }
}

#[test]
fn constraint_lifts_when_target_subsquare_finishes() {
    let mut g = Square::new();
    // player 0 marches through subsquares 0 and 1, winning subsquare 0
    assert!(mv(&mut g, 0, 0, 0).is_ongoing());
    assert!(mv(&mut g, 0, 1, 0).is_ongoing());
    assert!(mv(&mut g, 1, 0, 0).is_ongoing());
    // completes row 0-1-2 of subsquare 0
    assert!(mv(&mut g, 0, 2, 0).is_ongoing());
    assert!(g.get1(0).state().is_won());
    assert_eq!(g.prev(), Some(2));
    // the forced target (2) is still ongoing, so the constraint holds
    for i in 0..9 {
        assert_eq!(g.is_valid1(i), i == 2);
    }
    // play into subsquare 2; the move points back at finished subsquare 0,
    // so analyze lifts the constraint
    assert!(mv(&mut g, 2, 0, 0).is_ongoing());
    assert_eq!(g.prev(), None);
    for i in 0..9 {
        assert_eq!(g.is_valid1(i), i != 0);
    }
}

#[test]
fn sub_square_win_detection() {
    for (a, b, c) in [
        (0, 1, 2),
        (3, 4, 5),
        (6, 7, 8),
        (0, 3, 6),
        (1, 4, 7),
        (2, 5, 8),
        (0, 4, 8),
        (2, 4, 6),
    ] {
        let mut s = SubSquare::new();
        s.put(a, 1);
        assert!(s.state().is_ongoing());
        s.put(b, 1);
        assert!(s.state().is_ongoing());
        s.put(c, 1);
        assert_eq!(s.state(), GameResult::Won(1));
    }
}

#[test]
fn full_sub_square_without_line_is_draw() {
    // X O X / O X X / O X O has no three-in-a-row for either player
    let pattern: [(usize, PlayerId); 9] = [
        (0, 0),
        (1, 1),
        (2, 0),
        (3, 1),
        (4, 0),
        (5, 0),
        (6, 1),
        (7, 0),
        (8, 1),
    ];
    let mut s = SubSquare::new();
    for (cell, p) in pattern {
        assert!(s.state().is_ongoing());
        s.put(cell, p);
    }
    assert!(s.state().is_draw());
    assert!(!s.state().is_ongoing());
    assert!(!s.state().is_won());
}

#[test]
fn sub_square_getters_agree() {
    let mut s = SubSquare::new();
    s.put(5, 1);
    assert_eq!(s.get1(5), Some(1));
    assert_eq!(s.get2(1, 2), Some(1));
    assert_eq!(s.get2(0, 0), None);
}

#[test]
fn square_getters_agree() {
    let mut g = Square::new();
    g.put(7, 3, 1);
    assert_eq!(g.get1(7).get1(3), Some(1));
    assert_eq!(g.get2(2, 1).get2(1, 0), Some(1));
}

#[test]
fn game_result_predicates() {
    assert!(GameResult::Ongoing.is_ongoing());
    assert!(!GameResult::Ongoing.is_draw());
    assert!(!GameResult::Ongoing.is_won());
    assert!(GameResult::Draw.is_draw());
    assert!(!GameResult::Draw.is_ongoing());
    assert!(GameResult::Won(0).is_won());
    assert!(!GameResult::Won(1).is_draw());
    assert_eq!(GameResult::Won(0), GameResult::Won(0));
    assert_ne!(GameResult::Won(0), GameResult::Won(1));
}

#[test]
fn put_then_reset_restores_the_legal_move_set() {
    let mut g = Square::new();
    // reach a mid-game position first
    mv(&mut g, 4, 4, 0);
    mv(&mut g, 4, 1, 1);
    mv(&mut g, 1, 4, 0);
    let mut pool: Alloc<f64> = Alloc::new();
    let before: Vec<Move> = g.valid_moves(&mut pool);
    let prev = g.prev();
    // trial move, as the search plays it...
    g.put(4, 0, 1);
    let during: Vec<Move> = g.valid_moves(&mut pool);
    assert_ne!(before, during);
    // ...and undoes it
    g.reset(prev, 4, 0);
    let after: Vec<Move> = g.valid_moves(&mut pool);
    assert_eq!(before, after);
    assert_eq!(g.prev(), prev);
}

#[test]
fn meta_line_of_won_subsquares_wins_the_game() {
    let mut g = Square::new();
    // player 0 claims subsquares 0, 1 and 2 in nine legal moves
    assert!(mv(&mut g, 0, 0, 0).is_ongoing());
    assert!(mv(&mut g, 0, 1, 0).is_ongoing());
    assert!(mv(&mut g, 1, 0, 0).is_ongoing());
    assert!(mv(&mut g, 0, 2, 0).is_ongoing()); // subsquare 0 won
    assert!(mv(&mut g, 2, 0, 0).is_ongoing());
    assert!(mv(&mut g, 1, 1, 0).is_ongoing());
    assert!(mv(&mut g, 1, 2, 0).is_ongoing()); // subsquare 1 won
    assert!(mv(&mut g, 2, 1, 0).is_ongoing());
    let r = mv(&mut g, 2, 2, 0); // subsquare 2 won: meta-line 0-1-2
    assert_eq!(r, GameResult::Won(0));
}

#[test]
fn feedback_counts_won_subsquares() {
    let mut g = Square::new();
    assert_eq!(g.feedback(0), 0);
    assert_eq!(g.feedback(1), 0);
    // player 0 wins subsquare 0
    mv(&mut g, 0, 0, 0);
    mv(&mut g, 0, 1, 0);
    mv(&mut g, 1, 0, 0);
    mv(&mut g, 0, 2, 0);
    assert_eq!(g.feedback(0), 1);
    assert_eq!(g.feedback(1), -1);
}

#[test]
fn valid_moves_enumerates_in_order() {
    let mut g = Square::new();
    let mut pool: Alloc<f64> = Alloc::new();
    let all: Vec<Move> = g.valid_moves(&mut pool);
    assert_eq!(all.len(), 81);
    let mut expected = Vec::new();
    for i in 0..9 {
        for j in 0..9 {
            expected.push((i, j));
        }
    }
    assert_eq!(all, expected);

    g.put(4, 4, 0);
    g.analyze();
    let constrained: Vec<Move> = g.valid_moves(&mut pool);
    let expected: Vec<Move> = (0..9).filter(|&j| j != 4).map(|j| (4, j)).collect();
    assert_eq!(constrained, expected);
}

#[test]
fn analyze_tracks_replay_step_by_step() {
    // replaying a scripted game, the incrementally maintained state gives
    // exactly the expected from-scratch results at every ply
    let script: [(usize, usize, PlayerId, GameResult); 9] = [
        (0, 0, 0, GameResult::Ongoing),
        (0, 1, 0, GameResult::Ongoing),
        (1, 0, 0, GameResult::Ongoing),
        (0, 2, 0, GameResult::Ongoing),
        (2, 0, 0, GameResult::Ongoing),
        (1, 1, 0, GameResult::Ongoing),
        (1, 2, 0, GameResult::Ongoing),
        (2, 1, 0, GameResult::Ongoing),
        (2, 2, 0, GameResult::Won(0)),
    ];
    let mut g = Square::new();
    for (x, y, p, expected) in script {
        assert_eq!(mv(&mut g, x, y, p), expected);
    }
}
