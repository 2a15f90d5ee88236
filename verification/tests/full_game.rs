use uttt::game::{Move, Square};
use uttt::pool::Alloc;

/// A whole game of always playing the first legal move finishes, decided
/// or drawn, within the eighty-one cells the board has.
#[test]
fn deterministic_play_terminates_within_81_plies() {
    let mut g = Square::new();
    let mut pool: Alloc<f64> = Alloc::new();
    let mut player = 0;
    let mut plies = 0;
    while g.analyze().is_ongoing() {
        let moves: Vec<Move> = g.valid_moves(&mut pool);
        assert!(!moves.is_empty(), "an ongoing game must offer a move");
        let (x, y) = moves[0];
        pool.dealloc_mvec(moves);
        g.put(x, y, player);
        player ^= 1;
        plies += 1;
        assert!(plies <= 81, "a game cannot outlast the board's cells");
    }
    let result = g.analyze();
    assert!(result.is_won() || result.is_draw());
}
