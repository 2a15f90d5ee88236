//! The Ultimate Tic-Tac-Toe board model: nine 3x3 subsquares, the
//! forced-subsquare move constraint, legality rules, and win/draw detection.

use vstd::prelude::*;
use crate::pool::{Alloc, pool_take};

verus! {

/// A player: `0` or `1` in practice, though the board itself only compares
/// identifiers for equality.
pub type PlayerId = usize;

/// One board cell: the player who marked it, or `None` while empty.
pub type Cell = Option<PlayerId>;

/// A move: (subsquare index, cell index), both in `[0, 9)`.
pub type Move = (usize, usize);

/// The outcome of a subsquare or of the whole game.
#[derive(Clone, Copy, Debug, PartialEq, Eq, Structural)]
pub enum GameResult {
    Ongoing,
    Draw,
    Won(PlayerId),
}

impl GameResult {
    pub fn is_ongoing(&self) -> (r: bool)
        ensures
            r == (self is Ongoing),
    {
        matches!(self, GameResult::Ongoing)
    }

    pub fn is_draw(&self) -> (r: bool)
        ensures
            r == (self is Draw),
    {
        matches!(self, GameResult::Draw)
    }

    pub fn is_won(&self) -> (r: bool)
        ensures
            r == (self is Won),
    {
        matches!(self, GameResult::Won(_))
    }
}

/// The cell indices of the `k`-th winning line of a 3x3 grid: the three
/// rows, the three columns, and the two diagonals.
pub open spec fn line(k: int) -> (int, int, int) {
    if k == 0 {
        (0, 1, 2)
    } else if k == 1 {
        (3, 4, 5)
    } else if k == 2 {
        (6, 7, 8)
    } else if k == 3 {
        (0, 3, 6)
    } else if k == 4 {
        (1, 4, 7)
    } else if k == 5 {
        (2, 5, 8)
    } else if k == 6 {
        (0, 4, 8)
    } else {
        (2, 4, 6)
    }
}

/// The `k`-th winning line, as runtime indices.
fn line_cells(k: usize) -> (r: (usize, usize, usize))
    requires
        k < 8,
    ensures
        r.0 < 9 && r.1 < 9 && r.2 < 9,
        line(k as int) == (r.0 as int, r.1 as int, r.2 as int),
{
    match k {
        0 => (0, 1, 2),
        1 => (3, 4, 5),
        2 => (6, 7, 8),
        3 => (0, 3, 6),
        4 => (1, 4, 7),
        5 => (2, 5, 8),
        6 => (0, 4, 8),
        _ => (2, 4, 6),
    }
}

/// The player holding all three cells of line `k`, if any.
pub open spec fn line_winner(cells: Seq<Cell>, k: int) -> Cell {
    let a = cells[line(k).0];
    let b = cells[line(k).1];
    let c = cells[line(k).2];
    if a is Some && a == b && b == c {
        a
    } else {
        None
    }
}

/// The winner of the first won line at index `k` or later, scanning the
/// eight lines in order.
pub open spec fn scan_winner(cells: Seq<Cell>, k: int) -> Cell
    decreases 8 - k,
{
    if k >= 8 {
        None
    } else if line_winner(cells, k) is Some {
        line_winner(cells, k)
    } else {
        scan_winner(cells, k + 1)
    }
}

/// Every one of the nine cells is marked.
pub open spec fn cells_full(cells: Seq<Cell>) -> bool {
    forall|i: int| 0 <= i < 9 ==> cells[i] is Some
}

/// The state a 3x3 grid derives from its raw cell contents alone: the
/// winner of the first won line if there is one, otherwise a draw when the
/// grid is full, otherwise still ongoing.
pub open spec fn sub_result(cells: Seq<Cell>) -> GameResult {
    match scan_winner(cells, 0) {
        Some(p) => GameResult::Won(p),
        None => if cells_full(cells) {
            GameResult::Draw
        } else {
            GameResult::Ongoing
        },
    }
}

proof fn lemma_scan_winner_none(cells: Seq<Cell>, k: int)
    requires
        forall|j: int| k <= j < 8 ==> line_winner(cells, j) is None,
    ensures
        scan_winner(cells, k) is None,
    decreases 8 - k,
{
    if k < 8 {
        lemma_scan_winner_none(cells, k + 1);
    }
}

proof fn lemma_scan_winner_from(cells: Seq<Cell>, m: int, k: int)
    requires
        0 <= m <= k < 8,
        forall|j: int| m <= j < k ==> line_winner(cells, j) is None,
        line_winner(cells, k) is Some,
    ensures
        scan_winner(cells, m) == line_winner(cells, k),
    decreases k - m,
{
    if m < k {
        lemma_scan_winner_from(cells, m + 1, k);
    }
}

/// One of the nine inner 3x3 boards, with its derived state cached. The
/// cache is re-computed synchronously on every mutation, so it never goes
/// stale: `wf` ties it to the raw cells at all times.
#[derive(Clone, Debug)]
pub struct SubSquare {
    board: Vec<Cell>,
    state: GameResult,
}

impl View for SubSquare {
    type V = Seq<Cell>;

    closed spec fn view(&self) -> Seq<Cell> {
        self.board@
    }
}

impl SubSquare {
    /// The cached state of this subsquare.
    pub closed spec fn status(&self) -> GameResult {
        self.state
    }

    /// Nine cells, and a cache that agrees with what the cells derive.
    pub open spec fn wf(&self) -> bool {
        self@.len() == 9 && self.status() == sub_result(self@)
    }

    pub fn new() -> (r: Self)
        ensures
            r.wf(),
            r@.len() == 9,
            forall|i: int| 0 <= i < 9 ==> r@[i] is None,
            r.status() is Ongoing,
    {
        let mut board: Vec<Cell> = Vec::new();
        let mut i: usize = 0;
        while i < 9
            invariant
                i <= 9,
                board@.len() == i,
                forall|j: int| 0 <= j < i ==> board@[j] is None,
            decreases 9 - i,
        {
            board.push(None);
            i = i + 1;
        }
        let r = SubSquare { board, state: GameResult::Ongoing };
        proof {
            lemma_scan_winner_none(r@, 0);
        }
        r
    }

    pub fn get2(&self, i: usize, j: usize) -> (r: Cell)
        requires
            self.wf(),
            i < 3,
            j < 3,
        ensures
            r == self@[3 * i + j],
    {
        self.get1(3 * i + j)
    }

    pub fn get1(&self, i: usize) -> (r: Cell)
        requires
            self.wf(),
            i < 9,
        ensures
            r == self@[i as int],
    {
        self.board[i]
    }

    /// Mark cell `i` for player `v` and re-derive the cached state.
    pub fn put(&mut self, i: usize, v: PlayerId)
        requires
            old(self).wf(),
            i < 9,
            old(self).status() is Ongoing,
        ensures
            final(self).wf(),
            final(self)@ == old(self)@.update(i as int, Some(v)),
    {
        self.board.set(i, Some(v));
        self.analyze();
    }

    /// Undo a mark: clear cell `i` and restore the state to `Ongoing`. The
    /// caller owes that the subsquare really was ongoing before the mark,
    /// i.e. that the cleared cells derive `Ongoing` again.
    pub fn reset(&mut self, i: usize)
        requires
            old(self)@.len() == 9,
            i < 9,
            sub_result(old(self)@.update(i as int, None)) is Ongoing,
        ensures
            final(self).wf(),
            final(self)@ == old(self)@.update(i as int, None),
            final(self).status() is Ongoing,
    {
        self.board.set(i, None);
        self.state = GameResult::Ongoing;
    }

    pub fn state(&self) -> (r: GameResult)
        ensures
            r == self.status(),
    {
        self.state
    }

    /// Re-derive the cached state from the raw cells: scan the eight lines
    /// in order for a winner, otherwise check for a full grid.
    fn analyze(&mut self)
        requires
            old(self)@.len() == 9,
        ensures
            final(self)@ == old(self)@,
            final(self).status() == sub_result(old(self)@),
    {
        let mut k: usize = 0;
        while k < 8
            invariant
                k <= 8,
                self == old(self),
                forall|j: int| 0 <= j < k ==> line_winner(self@, j) is None,
            decreases 8 - k,
        {
            let (a, b, c) = line_cells(k);
            let won = match (self.board[a], self.board[b], self.board[c]) {
                (Some(x), Some(y), Some(z)) => if x == y && y == z {
                    Some(x)
                } else {
                    None
                },
                _ => None,
            };
            if let Some(p) = won {
                proof {
                    assert(line_winner(self@, k as int) == Some(p));
                    lemma_scan_winner_from(self@, 0, k as int);
                }
                self.state = GameResult::Won(p);
                return;
            }
            proof {
                assert(line_winner(self@, k as int) is None);
            }
            k = k + 1;
        }
        proof {
            lemma_scan_winner_none(self@, 0);
        }
        let mut full: bool = true;
        let mut i: usize = 0;
        while i < 9
            invariant
                i <= 9,
                self == old(self),
                full ==> forall|j: int| 0 <= j < i ==> self@[j] is Some,
                !full ==> !cells_full(self@),
            decreases 9 - i,
        {
            if self.board[i].is_none() {
                full = false;
            }
            i = i + 1;
        }
        self.state = if full {
            GameResult::Draw
        } else {
            GameResult::Ongoing
        };
    }
}

/// The abstract state of the meta-board: the raw cells of each of the nine
/// subsquares, plus the active move constraint (`forced`): the subsquare
/// the next move must target, if any.
#[verifier::ext_equal]
pub struct BoardModel {
    pub subs: Seq<Seq<Cell>>,
    pub forced: Option<int>,
}

impl BoardModel {
    pub open spec fn wf(&self) -> bool {
        &&& self.subs.len() == 9
        &&& forall|i: int| 0 <= i < 9 ==> (#[trigger] self.subs[i]).len() == 9
        &&& match self.forced {
            Some(k) => 0 <= k < 9,
            None => true,
        }
    }
}

/// An `Option<usize>` seen at the model level.
pub open spec fn opt_as_int(p: Option<usize>) -> Option<int> {
    match p {
        Some(k) => Some(k as int),
        None => None,
    }
}

/// The state each subsquare derives from its raw cells.
pub open spec fn sub_statuses(m: BoardModel) -> Seq<GameResult> {
    Seq::new(9, |i: int| sub_result(m.subs[i]))
}

/// The player winning meta-line `k`: all three subsquare states on the
/// line must be `Won` by the same player.
pub open spec fn meta_line_winner(states: Seq<GameResult>, k: int) -> Option<PlayerId> {
    match states[line(k).0] {
        GameResult::Won(p) => if states[line(k).1] == states[line(k).0]
            && states[line(k).2] == states[line(k).0] {
            Some(p)
        } else {
            None
        },
        _ => None,
    }
}

/// The winner of the first won meta-line at index `k` or later.
pub open spec fn meta_scan(states: Seq<GameResult>, k: int) -> Option<PlayerId>
    decreases 8 - k,
{
    if k >= 8 {
        None
    } else if meta_line_winner(states, k) is Some {
        meta_line_winner(states, k)
    } else {
        meta_scan(states, k + 1)
    }
}

pub open spec fn any_ongoing(states: Seq<GameResult>) -> bool {
    exists|i: int| 0 <= i < 9 && states[i] is Ongoing
}

/// The global result over the nine subsquare states: the first won
/// meta-line decides; with none, the game is ongoing while any subsquare
/// is, and drawn otherwise.
pub open spec fn result_of_states(states: Seq<GameResult>) -> GameResult {
    match meta_scan(states, 0) {
        Some(p) => GameResult::Won(p),
        None => if any_ongoing(states) {
            GameResult::Ongoing
        } else {
            GameResult::Draw
        },
    }
}

/// The game result of a position, re-derived from scratch from the raw
/// cell contents alone.
pub open spec fn game_result(m: BoardModel) -> GameResult {
    result_of_states(sub_statuses(m))
}

/// Subsquare `x` may be played in: it is still ongoing, and it is the
/// forced target if a constraint is active.
pub open spec fn spec_valid1(m: BoardModel, x: int) -> bool {
    &&& sub_result(m.subs[x]) is Ongoing
    &&& match m.forced {
        None => true,
        Some(y) => x == y,
    }
}

/// The move (subsquare `x`, cell `y`) is legal: the subsquare may be
/// played in and the cell is empty.
pub open spec fn spec_valid2(m: BoardModel, x: int, y: int) -> bool {
    spec_valid1(m, x) && m.subs[x][y] is None
}

/// What `put` does to a position: mark cell `j` of subsquare `i` and force
/// the next move into subsquare `j`.
pub open spec fn model_put(m: BoardModel, i: int, j: int, v: PlayerId) -> BoardModel {
    BoardModel { subs: m.subs.update(i, m.subs[i].update(j, Some(v))), forced: Some(j) }
}

/// What `reset` does to a position: clear cell `j` of subsquare `i` and
/// restore the remembered pre-move constraint.
pub open spec fn model_reset(m: BoardModel, forced: Option<int>, i: int, j: int) -> BoardModel {
    BoardModel { subs: m.subs.update(i, m.subs[i].update(j, None)), forced }
}

/// What `analyze` does to a position: the cells stay put, and the
/// constraint lifts the moment its target subsquare is decided.
pub open spec fn model_analyze(m: BoardModel) -> BoardModel {
    BoardModel {
        subs: m.subs,
        forced: match m.forced {
            Some(x) => if sub_result(m.subs[x]) is Ongoing {
                Some(x)
            } else {
                None
            },
            None => None,
        },
    }
}

/// The starting position: eighty-one empty cells and free choice.
pub open spec fn empty_board() -> BoardModel {
    BoardModel {
        subs: Seq::new(9, |i: int| Seq::new(9, |j: int| None::<PlayerId>)),
        forced: None,
    }
}

proof fn lemma_meta_scan_none(states: Seq<GameResult>, k: int)
    requires
        forall|j: int| k <= j < 8 ==> meta_line_winner(states, j) is None,
    ensures
        meta_scan(states, k) is None,
    decreases 8 - k,
{
    if k < 8 {
        lemma_meta_scan_none(states, k + 1);
    }
}

proof fn lemma_meta_scan_from(states: Seq<GameResult>, m: int, k: int)
    requires
        0 <= m <= k < 8,
        forall|j: int| m <= j < k ==> meta_line_winner(states, j) is None,
        meta_line_winner(states, k) is Some,
    ensures
        meta_scan(states, m) == meta_line_winner(states, k),
    decreases k - m,
{
    if m < k {
        lemma_meta_scan_from(states, m + 1, k);
    }
}

/// The full meta-board: nine subsquares plus the forced-subsquare
/// constraint. `prev` is the cell index of the previous move, which is the
/// subsquare index the next move must target.
#[derive(Clone, Debug)]
pub struct Square {
    board: Vec<SubSquare>,
    prev: Option<usize>,
}

impl View for Square {
    type V = BoardModel;

    closed spec fn view(&self) -> BoardModel {
        BoardModel {
            subs: Seq::new(self.board@.len(), |i: int| self.board@[i]@),
            forced: opt_as_int(self.prev),
        }
    }
}

impl Square {
    /// Every cached subsquare state agrees with its raw cells.
    pub closed spec fn states_fresh(&self) -> bool {
        forall|i: int| 0 <= i < self.board@.len() ==> (#[trigger] self.board@[i]).wf()
    }

    pub open spec fn wf(&self) -> bool {
        self@.wf() && self.states_fresh()
    }

    pub fn new() -> (r: Self)
        ensures
            r.wf(),
            r@ == empty_board(),
    {
        let mut board: Vec<SubSquare> = Vec::new();
        let mut i: usize = 0;
        while i < 9
            invariant
                i <= 9,
                board@.len() == i,
                forall|k: int| 0 <= k < i ==> (#[trigger] board@[k]).wf(),
                forall|k: int, j: int| 0 <= k < i && 0 <= j < 9 ==> board@[k]@[j] is None,
                forall|k: int| 0 <= k < i ==> (#[trigger] board@[k])@.len() == 9,
            decreases 9 - i,
        {
            board.push(SubSquare::new());
            i = i + 1;
        }
        let r = Square { board, prev: None };
        proof {
            assert(r@ =~~= empty_board());
        }
        r
    }

    /// The active constraint: the subsquare the next move must target.
    pub fn prev(&self) -> (r: Option<usize>)
        ensures
            self@.forced == opt_as_int(r),
    {
        self.prev
    }

    pub fn get2(&self, i: usize, j: usize) -> (r: &SubSquare)
        requires
            self.wf(),
            i < 3,
            j < 3,
        ensures
            r@ == self@.subs[3 * i + j],
            r.wf(),
    {
        self.get1(3 * i + j)
    }

    pub fn get1(&self, i: usize) -> (r: &SubSquare)
        requires
            self.wf(),
            i < 9,
        ensures
            r@ == self@.subs[i as int],
            r.wf(),
    {
        &self.board[i]
    }

    /// Play the move (subsquare `i`, cell `si`) for player `v`: mark the
    /// cell and force the next move into subsquare `si`. The target
    /// subsquare must be ongoing and match the active constraint; that
    /// the cell is empty is the caller's to check (`is_valid2`) — an
    /// occupied cell is overwritten, not rejected.
    pub fn put(&mut self, i: usize, si: usize, v: PlayerId)
        requires
            old(self).wf(),
            i < 9,
            si < 9,
            sub_result(old(self)@.subs[i as int]) is Ongoing,
            match old(self)@.forced {
                Some(k) => k == i as int,
                None => true,
            },
        ensures
            final(self).wf(),
            final(self)@ == model_put(old(self)@, i as int, si as int, v),
    {
        let sub = &mut self.board[i];
        sub.put(si, v);
        self.prev = Some(si);
        proof {
            assert(self@ =~~= model_put(old(self)@, i as int, si as int, v));
        }
    }

    /// May any move target subsquare `x` right now?
    pub fn is_valid1(&self, x: usize) -> (r: bool)
        requires
            self.wf(),
            x < 9,
        ensures
            r == spec_valid1(self@, x as int),
    {
        self.get1(x).state().is_ongoing() && match self.prev {
            None => true,
            Some(y) => x == y,
        }
    }

    /// Is the move (subsquare `x`, cell `y`) legal right now?
    pub fn is_valid2(&self, x: usize, y: usize) -> (r: bool)
        requires
            self.wf(),
            x < 9,
            y < 9,
        ensures
            r == spec_valid2(self@, x as int, y as int),
    {
        self.get1(x).state().is_ongoing() && self.get1(x).get1(y).is_none() && match self.prev {
            None => true,
            Some(z) => x == z,
        }
    }

    /// Undo the move (subsquare `x`, cell `y`), restoring the constraint
    /// `prev` that was active before the move. The caller owes exactly the
    /// pre-move values: in particular the subsquare must derive `Ongoing`
    /// again once the cell is cleared.
    pub fn reset(&mut self, prev: Option<usize>, x: usize, y: usize)
        requires
            old(self).wf(),
            x < 9,
            y < 9,
            match prev {
                Some(k) => k < 9,
                None => true,
            },
            sub_result(old(self)@.subs[x as int].update(y as int, None)) is Ongoing,
        ensures
            final(self).wf(),
            final(self)@ == model_reset(old(self)@, opt_as_int(prev), x as int, y as int),
    {
        self.prev = prev;
        let sub = &mut self.board[x];
        sub.reset(y);
        proof {
            assert(self@ =~~= model_reset(old(self)@, opt_as_int(prev), x as int, y as int));
        }
    }

    /// Recompute the global result from the board, lifting the constraint
    /// if its target subsquare has been decided. The returned result is
    /// exactly what a from-scratch derivation over the raw cell contents
    /// gives: the cached states never drift.
    pub fn analyze(&mut self) -> (r: GameResult)
        requires
            old(self).wf(),
        ensures
            final(self).wf(),
            final(self)@ == model_analyze(old(self)@),
            r == game_result(old(self)@),
            match final(self)@.forced {
                Some(k) => sub_result(final(self)@.subs[k]) is Ongoing,
                None => true,
            },
    {
        if let Some(x) = self.prev {
            let sub = &mut self.board[x];
            sub.analyze();
            let ongoing = sub.state().is_ongoing();
            if !ongoing {
                self.prev = None;
            }
        }
        proof {
            assert(self@ =~~= model_analyze(old(self)@));
        }
        let ghost states = sub_statuses(old(self)@);
        proof {
            assert(forall|i: int| 0 <= i < 9 ==> (#[trigger] self.board@[i]).status() == states[i]);
        }
        let mut k: usize = 0;
        while k < 8
            invariant
                k <= 8,
                forall|j: int| 0 <= j < k ==> meta_line_winner(states, j) is None,
            decreases 8 - k,
        {
            let (a, b, c) = line_cells(k);
            let sa = self.board[a].state();
            let sb = self.board[b].state();
            let sc = self.board[c].state();
            if sa.is_won() && sa == sb && sb == sc {
                proof {
                    assert(meta_line_winner(states, k as int) is Some);
                    lemma_meta_scan_from(states, 0, k as int);
                }
                return sa;
            }
            proof {
                assert(meta_line_winner(states, k as int) is None);
            }
            k = k + 1;
        }
        proof {
            lemma_meta_scan_none(states, 0);
        }
        let mut found: bool = false;
        let mut i: usize = 0;
        while i < 9
            invariant
                i <= 9,
                found ==> any_ongoing(states),
                !found ==> forall|j: int| 0 <= j < i ==> !(states[j] is Ongoing),
            decreases 9 - i,
        {
            if self.board[i].state().is_ongoing() {
                found = true;
            }
            i = i + 1;
        }
        if found {
            GameResult::Ongoing
        } else {
            GameResult::Draw
        }
    }

    /// Enumerate every currently legal move, in lexicographic order, into
    /// a move list drawn from the pool.
    pub fn valid_moves<T>(&self, pool: &mut Alloc<T>) -> (r: Vec<Move>)
        requires
            self.wf(),
            old(pool).wf(),
        ensures
            final(pool).wf(),
            final(pool).bufs_retained() == old(pool).bufs_retained(),
            final(pool).mvecs_retained() == pool_take(old(pool).mvecs_retained()),
            forall|k: int| 0 <= k < r@.len() ==> (#[trigger] r@[k]).0 < 9 && r@[k].1 < 9
                && spec_valid2(self@, r@[k].0 as int, r@[k].1 as int),
            forall|x: usize, y: usize| x < 9 && y < 9
                && #[trigger] spec_valid2(self@, x as int, y as int) ==> r@.contains((x, y)),
            forall|k1: int, k2: int| 0 <= k1 < k2 < r@.len()
                ==> (#[trigger] r@[k1]).0 * 9 + r@[k1].1 < (#[trigger] r@[k2]).0 * 9 + r@[k2].1,
    {
        let mut moves = pool.alloc_mvec();
        let mut i: usize = 0;
        while i < 9
            invariant
                i <= 9,
                pool.wf(),
                pool.bufs_retained() == old(pool).bufs_retained(),
                pool.mvecs_retained() == pool_take(old(pool).mvecs_retained()),
                forall|k: int| 0 <= k < moves@.len() ==> (#[trigger] moves@[k]).0 < 9
                    && moves@[k].1 < 9 && spec_valid2(self@, moves@[k].0 as int, moves@[k].1 as int),
                forall|k: int| 0 <= k < moves@.len()
                    ==> (#[trigger] moves@[k]).0 * 9 + moves@[k].1 < i * 9,
                forall|x: usize, y: usize| x < i && y < 9
                    && #[trigger] spec_valid2(self@, x as int, y as int) ==> moves@.contains((x, y)),
                forall|k1: int, k2: int| 0 <= k1 < k2 < moves@.len()
                    ==> (#[trigger] moves@[k1]).0 * 9 + moves@[k1].1
                        < (#[trigger] moves@[k2]).0 * 9 + moves@[k2].1,
            decreases 9 - i,
        {
            if self.is_valid1(i) {
                let mut j: usize = 0;
                while j < 9
                    invariant
                        j <= 9,
                        i < 9,
                        pool.wf(),
                        pool.bufs_retained() == old(pool).bufs_retained(),
                        pool.mvecs_retained() == pool_take(old(pool).mvecs_retained()),
                        forall|k: int| 0 <= k < moves@.len() ==> (#[trigger] moves@[k]).0 < 9
                            && moves@[k].1 < 9
                            && spec_valid2(self@, moves@[k].0 as int, moves@[k].1 as int),
                        forall|k: int| 0 <= k < moves@.len()
                            ==> (#[trigger] moves@[k]).0 * 9 + moves@[k].1 < i * 9 + j,
                        forall|x: usize, y: usize| x < i && y < 9
                            && #[trigger] spec_valid2(self@, x as int, y as int)
                            ==> moves@.contains((x, y)),
                        forall|y: usize| y < j
                            && #[trigger] spec_valid2(self@, i as int, y as int)
                            ==> moves@.contains((i, y)),
                        forall|k1: int, k2: int| 0 <= k1 < k2 < moves@.len()
                            ==> (#[trigger] moves@[k1]).0 * 9 + moves@[k1].1
                                < (#[trigger] moves@[k2]).0 * 9 + moves@[k2].1,
                    decreases 9 - j,
                {
                    if self.is_valid2(i, j) {
                        let ghost before = moves@;
                        moves.push((i, j));
                        proof {
                            assert(moves@[before.len() as int] == (i, j));
                            assert(moves@.contains((i, j)));
                            assert(forall|x: usize, y: usize| before.contains((x, y))
                                ==> moves@.contains((x, y))) by {
                                assert(forall|k: int| 0 <= k < before.len()
                                    ==> moves@[k] == before[k]);
                            }
                        }
                    }
                    j = j + 1;
                }
            }
            i = i + 1;
        }
        moves
    }

    /// The training shaping signal in twentieths of a point: +1 for every
    /// subsquare this player has won, -1 for every subsquare the opponent
    /// has won. (Callers scale the balance by 0.05.)
    pub fn feedback(&self, p: PlayerId) -> (r: i64)
        requires
            self.wf(),
        ensures
            r == win_balance(sub_statuses(self@), p, 9),
    {
        let ghost states = sub_statuses(self@);
        let mut res: i64 = 0;
        let mut i: usize = 0;
        while i < 9
            invariant
                i <= 9,
                -(i as int) <= res <= i as int,
                res == win_balance(states, p, i as int),
            decreases 9 - i,
        {
            if let GameResult::Won(q) = self.board[i].state() {
                if q == p {
                    res = res + 1;
                } else {
                    res = res - 1;
                }
            }
            i = i + 1;
        }
        res
    }
}

/// Undoing a move restores the position exactly: a `put` of player `v` at
/// (subsquare `i`, cell `j`) on an empty cell, followed by a `reset` with
/// the remembered pre-move constraint, gives back the very board it
/// started from — and with it, bit for bit, the same legal-move set.
pub proof fn lemma_put_then_reset(m: BoardModel, i: int, j: int, v: PlayerId)
    requires
        m.wf(),
        0 <= i < 9,
        0 <= j < 9,
        m.subs[i][j] is None,
    ensures
        model_reset(model_put(m, i, j, v), m.forced, i, j) == m,
        forall|x: int, y: int|
            spec_valid2(model_reset(model_put(m, i, j, v), m.forced, i, j), x, y)
                == spec_valid2(m, x, y),
{
    assert(model_reset(model_put(m, i, j, v), m.forced, i, j) =~~= m);
}

/// A full 3x3 grid with no winning line is a draw — never ongoing, never
/// won.
pub proof fn lemma_full_no_line_is_draw(cells: Seq<Cell>)
    requires
        cells.len() == 9,
        cells_full(cells),
        forall|k: int| 0 <= k < 8 ==> line_winner(cells, k) is None,
    ensures
        sub_result(cells) == GameResult::Draw,
{
    lemma_scan_winner_none(cells, 0);
}

/// An ongoing position never stalls: as long as the derived game result
/// is `Ongoing` and the constraint (as `analyze` leaves it) points only at
/// an ongoing subsquare, some legal move exists.
pub proof fn lemma_ongoing_position_has_move(m: BoardModel)
    requires
        m.wf(),
        game_result(m) is Ongoing,
        match m.forced {
            Some(k) => sub_result(m.subs[k]) is Ongoing,
            None => true,
        },
    ensures
        exists|x: int, y: int| 0 <= x < 9 && 0 <= y < 9 && #[trigger] spec_valid2(m, x, y),
{
    let states = sub_statuses(m);
    match m.forced {
        Some(x) => {
            assert(!cells_full(m.subs[x]));
            let y = choose|y: int| 0 <= y < 9 && !(#[trigger] m.subs[x][y] is Some);
            assert(spec_valid2(m, x, y));
        },
        None => {
            assert(any_ongoing(states));
            let x = choose|x: int| 0 <= x < 9 && #[trigger] states[x] is Ongoing;
            assert(sub_result(m.subs[x]) is Ongoing);
            assert(!cells_full(m.subs[x]));
            let y = choose|y: int| 0 <= y < 9 && !(#[trigger] m.subs[x][y] is Some);
            assert(spec_valid2(m, x, y));
        },
    }
}

/// How many of the first `k` cells of a grid are still empty.
pub open spec fn sub_empties(cells: Seq<Cell>, k: int) -> int
    decreases k,
{
    if k <= 0 {
        0
    } else {
        sub_empties(cells, k - 1) + if cells[k - 1] is None {
            1int
        } else {
            0int
        }
    }
}

/// How many empty cells the first `k` subsquares of a position hold.
pub open spec fn board_empties(m: BoardModel, k: int) -> int
    decreases k,
{
    if k <= 0 {
        0
    } else {
        board_empties(m, k - 1) + sub_empties(m.subs[k - 1], 9)
    }
}

proof fn lemma_sub_empties_update(cells: Seq<Cell>, j: int, c: Cell, k: int)
    requires
        0 <= j < cells.len(),
        0 <= k <= cells.len(),
        cells[j] is None,
        c is Some,
    ensures
        sub_empties(cells.update(j, c), k) == sub_empties(cells, k) - if j < k {
            1int
        } else {
            0int
        },
    decreases k,
{
    if k > 0 {
        lemma_sub_empties_update(cells, j, c, k - 1);
    }
}

proof fn lemma_sub_empties_bounds(cells: Seq<Cell>, k: int)
    requires
        0 <= k,
    ensures
        0 <= sub_empties(cells, k) <= k,
    decreases k,
{
    if k > 0 {
        lemma_sub_empties_bounds(cells, k - 1);
    }
}

proof fn lemma_board_empties_update(m: BoardModel, i: int, j: int, v: PlayerId, k: int)
    requires
        m.wf(),
        0 <= i < 9,
        0 <= j < 9,
        m.subs[i][j] is None,
        0 <= k <= 9,
    ensures
        board_empties(model_put(m, i, j, v), k) == board_empties(m, k) - if i < k {
            1int
        } else {
            0int
        },
    decreases k,
{
    if k > 0 {
        lemma_board_empties_update(m, i, j, v, k - 1);
        if k - 1 == i {
            lemma_sub_empties_update(m.subs[i], j, Some(v), 9);
        } else {
            assert(model_put(m, i, j, v).subs[k - 1] == m.subs[k - 1]);
        }
    }
}

proof fn lemma_board_empties_bounds(m: BoardModel, k: int)
    requires
        m.wf(),
        0 <= k <= 9,
    ensures
        0 <= board_empties(m, k) <= 9 * k,
    decreases k,
{
    if k > 0 {
        lemma_board_empties_bounds(m, k - 1);
        lemma_sub_empties_bounds(m.subs[k - 1], 9);
    }
}

proof fn lemma_sub_empties_all_none(cells: Seq<Cell>, k: int)
    requires
        0 <= k,
        forall|i: int| 0 <= i < k ==> cells[i] is None,
    ensures
        sub_empties(cells, k) == k,
    decreases k,
{
    if k > 0 {
        lemma_sub_empties_all_none(cells, k - 1);
    }
}

proof fn lemma_empty_board_empties_upto(k: int)
    requires
        0 <= k <= 9,
    ensures
        board_empties(empty_board(), k) == 9 * k,
    decreases k,
{
    if k > 0 {
        lemma_empty_board_empties_upto(k - 1);
        lemma_sub_empties_all_none(empty_board().subs[k - 1], 9);
    }
}

/// A fresh board has all eighty-one cells empty.
pub proof fn lemma_empty_board_empties()
    ensures
        board_empties(empty_board(), 9) == 81,
{
    lemma_empty_board_empties_upto(9);
}

/// Every legal move fills exactly one of the at most eighty-one empty
/// cells, so a run of legal moves — a whole game — is over in at most
/// eighty-one plies.
pub proof fn lemma_move_fills_a_cell(m: BoardModel, i: int, j: int, v: PlayerId)
    requires
        m.wf(),
        0 <= i < 9,
        0 <= j < 9,
        m.subs[i][j] is None,
    ensures
        board_empties(model_put(m, i, j, v), 9) == board_empties(m, 9) - 1,
        0 <= board_empties(m, 9) <= 81,
{
    lemma_board_empties_update(m, i, j, v, 9);
    lemma_board_empties_bounds(m, 9);
}

/// The per-player balance of won subsquares among the first `k` states:
/// +1 where `p` won, -1 where the opponent won.
pub open spec fn win_balance(states: Seq<GameResult>, p: PlayerId, k: int) -> int
    decreases k,
{
    if k <= 0 {
        0
    } else {
        win_balance(states, p, k - 1) + match states[k - 1] {
            GameResult::Won(q) => if q == p {
                1int
            } else {
                -1int
            },
            _ => 0int,
        }
    }
}

} // verus!
