use vstd::prelude::*;
use crate::board::{Board, MoveResult};
use crate::error::{BadukError, InvalidMoveError};
use crate::model::{
    caps_exact, cell, count_occupied, empty_grid, grid_after_move, in_bounds,
    lemma_count_occupied_update, lemma_idx_of_injective, lemma_idx_of_range,
    lemma_pos_listed_take_step, move_error, place, pos_listed, idx_of,
};
use crate::piece::{Piece, PieceColor, PlacedPiece, opposite_color};

verus! {

/// The history index a game is viewed at: the live position, or an
/// earlier one reached by replaying a prefix of the history.
#[derive(Clone, Copy, PartialEq, Eq, Structural, Debug)]
pub enum GamePosition {
    Current,
    Past(usize),
}

/// A game as the contracts see it: the two grids of its board, its move
/// history, its view cursor, and its handicap.
pub ghost struct GameModel {
    pub grid: Seq<Option<Piece>>,
    pub ko: Seq<Option<Piece>>,
    pub moves: Seq<PlacedPiece>,
    pub position: GamePosition,
    pub handicap: u8,
}

/// The grids reached by replaying the first k history moves from an empty
/// board, each assumed legal: (current grid, ko snapshot).
pub open spec fn replay_state(ms: Seq<PlacedPiece>, k: int) -> (
    Seq<Option<Piece>>,
    Seq<Option<Piece>>,
)
    decreases k,
{
    if k <= 0 {
        (empty_grid(), empty_grid())
    } else {
        let prev = replay_state(ms, k - 1);
        (grid_after_move(prev.0, ms[k - 1]), prev.0)
    }
}

/// The first failure met when replaying the first k history moves from an
/// empty board, if any.
pub open spec fn replay_error(ms: Seq<PlacedPiece>, k: int) -> Option<BadukError>
    decreases k,
{
    if k <= 0 {
        None
    } else {
        match replay_error(ms, k - 1) {
            Some(e) => Some(e),
            None => match move_error(
                replay_state(ms, k - 1).0,
                replay_state(ms, k - 1).1,
                ms[k - 1],
            ) {
                Some(ie) => Some(BadukError::InvalidMove { source: ie }),
                None => None,
            },
        }
    }
}

/// Replaying k moves depends only on the first k history entries.
pub proof fn lemma_replay_prefix(ms1: Seq<PlacedPiece>, ms2: Seq<PlacedPiece>, k: int)
    requires
        forall|j: int| 0 <= j < k ==> ms1[j] == ms2[j],
    ensures
        replay_state(ms1, k) == replay_state(ms2, k),
        replay_error(ms1, k) == replay_error(ms2, k),
    decreases k,
{
    if k > 0 {
        lemma_replay_prefix(ms1, ms2, k - 1);
    }
}

/// Once a replay has failed, replaying further reports the same failure.
pub proof fn lemma_replay_error_persists(ms: Seq<PlacedPiece>, k1: int, k2: int)
    requires
        0 <= k1 <= k2,
        replay_error(ms, k1) is Some,
    ensures
        replay_error(ms, k2) == replay_error(ms, k1),
    decreases k2 - k1,
{
    if k2 > k1 {
        lemma_replay_error_persists(ms, k1, k2 - 1);
    }
}

/// Whose turn it is: Black moves first; afterwards, the opposite of the
/// most recent history entry.
pub open spec fn game_turn(ms: Seq<PlacedPiece>) -> PieceColor {
    if ms.len() == 0 {
        PieceColor::Black
    } else {
        opposite_color(ms.last().piece.color)
    }
}

/// The grid a move is applied against: the live grid when viewing the
/// current position, the replayed grid when viewing the past.
pub open spec fn game_base_grids(s: GameModel) -> (Seq<Option<Piece>>, Seq<Option<Piece>>) {
    match s.position {
        GamePosition::Current => (s.grid, s.ko),
        GamePosition::Past(n) => replay_state(s.moves, n as int),
    }
}

/// What one game move does: check the turn; when viewing the past,
/// truncate the history to the viewed prefix and snap back to the live
/// position; then commit the move against the viewed board. Returns the
/// new state and the failure, if any; on failure the state is unchanged.
pub open spec fn game_move_result(s: GameModel, m: PlacedPiece) -> (GameModel, Option<BadukError>) {
    let turn = game_turn(s.moves);
    if m.piece.color != turn {
        (s, Some(BadukError::InvalidMove { source: InvalidMoveError::NotYourTurn { turn } }))
    } else {
        match s.position {
            GamePosition::Current => match move_error(s.grid, s.ko, m) {
                Some(e) => (s, Some(BadukError::InvalidMove { source: e })),
                None => (
                    GameModel {
                        grid: grid_after_move(s.grid, m),
                        ko: s.grid,
                        moves: s.moves.push(m),
                        position: GamePosition::Current,
                        handicap: s.handicap,
                    },
                    None,
                ),
            },
            GamePosition::Past(n) => match replay_error(s.moves, n as int) {
                Some(e) => (s, Some(e)),
                None => {
                    let st = replay_state(s.moves, n as int);
                    match move_error(st.0, st.1, m) {
                        Some(e) => (s, Some(BadukError::InvalidMove { source: e })),
                        None => (
                            GameModel {
                                grid: grid_after_move(st.0, m),
                                ko: st.0,
                                moves: s.moves.take(n as int).push(m),
                                position: GamePosition::Current,
                                handicap: s.handicap,
                            },
                            None,
                        ),
                    }
                },
            },
        }
    }
}

/// Applying the moves ms[i..] in order, stopping at the first failure.
pub open spec fn game_run_from(s: GameModel, ms: Seq<PlacedPiece>, i: int) -> (
    GameModel,
    Option<BadukError>,
)
    decreases ms.len() - i,
{
    if i < 0 || i >= ms.len() {
        (s, None)
    } else {
        let step = game_move_result(s, ms[i]);
        match step.1 {
            Some(e) => (step.0, Some(e)),
            None => game_run_from(step.0, ms, i + 1),
        }
    }
}

/// The fixed star-point layout granted for a handicap of 1 to 9.
pub open spec fn handicap_seq(h: int) -> Seq<(u8, u8)> {
    if h == 1 {
        seq![(3u8, 3u8)]
    } else if h == 2 {
        seq![(3u8, 3u8), (15u8, 15u8)]
    } else if h == 3 {
        seq![(3u8, 3u8), (15u8, 15u8), (3u8, 15u8)]
    } else if h == 4 {
        seq![(3u8, 3u8), (15u8, 15u8), (3u8, 15u8), (15u8, 3u8)]
    } else if h == 5 {
        seq![(3u8, 3u8), (15u8, 15u8), (3u8, 15u8), (15u8, 3u8), (9u8, 9u8)]
    } else if h == 6 {
        seq![(3u8, 3u8), (15u8, 15u8), (3u8, 15u8), (15u8, 3u8), (3u8, 9u8), (15u8, 9u8)]
    } else if h == 7 {
        seq![
            (3u8, 3u8),
            (15u8, 15u8),
            (3u8, 15u8),
            (15u8, 3u8),
            (9u8, 9u8),
            (3u8, 9u8),
            (15u8, 9u8),
        ]
    } else if h == 8 {
        seq![
            (3u8, 3u8),
            (15u8, 15u8),
            (3u8, 15u8),
            (15u8, 3u8),
            (3u8, 9u8),
            (15u8, 9u8),
            (9u8, 3u8),
            (9u8, 15u8),
        ]
    } else if h == 9 {
        seq![
            (3u8, 3u8),
            (15u8, 15u8),
            (3u8, 15u8),
            (15u8, 3u8),
            (3u8, 9u8),
            (15u8, 9u8),
            (9u8, 3u8),
            (9u8, 15u8),
            (9u8, 9u8),
        ]
    } else {
        Seq::empty()
    }
}

/// The star-point layouts are in bounds and free of repeats.
pub proof fn lemma_handicap_seq_ok(h: int)
    requires
        0 <= h <= 9,
    ensures
        handicap_seq(h).len() == h,
        forall|k: int|
            0 <= k < h ==> in_bounds(
                (#[trigger] handicap_seq(h)[k]).0 as int,
                handicap_seq(h)[k].1 as int,
            ),
        forall|k1: int, k2: int| 0 <= k1 < k2 < h ==> handicap_seq(h)[k1] != handicap_seq(h)[k2],
{
}

/// The fixed star-point stones granted for a handicap of 1 to 9; empty
/// for 0.
pub fn handicap_stones(handicap: u8) -> (r: Vec<(u8, u8)>)
    requires
        handicap <= 9,
    ensures
        r@ == handicap_seq(handicap as int),
{
    let mut v: Vec<(u8, u8)> = Vec::new();
    if handicap >= 1 {
        v.push((3, 3));
    }
    if handicap >= 2 {
        v.push((15, 15));
    }
    if handicap >= 3 {
        v.push((3, 15));
    }
    if handicap >= 4 {
        v.push((15, 3));
    }
    if handicap == 5 || handicap == 7 {
        v.push((9, 9));
    }
    if handicap >= 6 {
        v.push((3, 9));
        v.push((15, 9));
    }
    if handicap >= 8 {
        v.push((9, 3));
        v.push((9, 15));
    }
    if handicap == 9 {
        v.push((9, 9));
    }
    proof {
        assert(v@ =~= handicap_seq(handicap as int));
    }
    v
}

/// A board together with an append-only move history, turn enforcement,
/// handicap setup, and a view cursor for inspecting past positions.
pub struct Game {
    /// The board at the viewed position.
    pub board: Board,
    /// The append-only move history.
    pub moves: Vec<PlacedPiece>,
    /// How many Black handicap stones were placed before play.
    pub handicap: u8,
    /// The view cursor.
    pub position: GamePosition,
}

impl Game {
    /// The move history.
    pub open spec fn history(self) -> Seq<PlacedPiece> {
        self.moves@
    }

    /// The view cursor.
    pub open spec fn spec_position(self) -> GamePosition {
        self.position
    }

    /// The history index the cursor stands at.
    pub open spec fn cursor_index(self) -> int {
        match self.spec_position() {
            GamePosition::Current => self.history().len() as int,
            GamePosition::Past(n) => n as int,
        }
    }

    /// This game as the contracts see it.
    pub open spec fn model(self) -> GameModel {
        GameModel {
            grid: self.board.grid(),
            ko: self.board.ko_grid(),
            moves: self.history(),
            position: self.spec_position(),
            handicap: self.handicap,
        }
    }

    /// Well-formedness: the board holds full grids, the cursor points
    /// into the history, history moves are in bounds, and - in a game
    /// without handicap - the history replays without failure and the
    /// board is exactly the replay of the viewed prefix.
    pub open spec fn wf(self) -> bool {
        &&& self.board.wf()
        &&& (match self.spec_position() {
            GamePosition::Current => true,
            GamePosition::Past(n) => n <= self.history().len(),
        })
        &&& (forall|j: int|
            0 <= j < self.history().len() ==> in_bounds(
                (#[trigger] self.history()[j]).pos.0 as int,
                self.history()[j].pos.1 as int,
            ))
        &&& (self.handicap == 0 ==> {
            &&& replay_error(self.history(), self.history().len() as int) is None
            &&& self.board.grid() == replay_state(self.history(), self.cursor_index()).0
            &&& self.board.ko_grid() == replay_state(self.history(), self.cursor_index()).1
        })
    }

    /// A fresh game. For a handicap of 1 to 9, the corresponding
    /// star-point stones are placed for Black directly, bypassing
    /// legality; handicap placement precedes play and is not part of the
    /// history.
    pub fn new(handicap: u8) -> (r: Game)
        requires
            handicap <= 9,
        ensures
            r.wf(),
            r.handicap == handicap,
            r.history() == Seq::<PlacedPiece>::empty(),
            r.spec_position() == GamePosition::Current,
            r.board.ko_grid() == empty_grid(),
            forall|x: int, y: int|
                in_bounds(x, y) ==> #[trigger] cell(r.board.grid(), x, y) == (if pos_listed(
                    handicap_seq(handicap as int),
                    x,
                    y,
                ) {
                    Some(Piece { color: PieceColor::Black })
                } else {
                    None::<Piece>
                }),
            count_occupied(r.board.grid()) == handicap as int,
    {
        let mut board = Board::new();
        proof {
            lemma_handicap_seq_ok(handicap as int);
            crate::model::lemma_count_occupied_none(board.grid());
            assert forall|x: int, y: int| in_bounds(x, y) implies #[trigger] cell(
                board.grid(),
                x,
                y,
            ) is None by {
                lemma_idx_of_range(x, y);
            }
        }
        let stones = handicap_stones(handicap);
        let ghost hs = handicap_seq(handicap as int);
        let mut i: usize = 0;
        while i < stones.len()
            invariant
                board.wf(),
                board.ko_grid() == empty_grid(),
                stones@ == hs,
                hs == handicap_seq(handicap as int),
                handicap <= 9,
                i <= stones@.len(),
                hs.len() == handicap as int,
                forall|k: int|
                    0 <= k < hs.len() ==> in_bounds(
                        (#[trigger] hs[k]).0 as int,
                        hs[k].1 as int,
                    ),
                forall|k1: int, k2: int| 0 <= k1 < k2 < hs.len() ==> hs[k1] != hs[k2],
                forall|x: int, y: int|
                    in_bounds(x, y) ==> #[trigger] cell(board.grid(), x, y) == (if pos_listed(
                        hs.take(i as int),
                        x,
                        y,
                    ) {
                        Some(Piece { color: PieceColor::Black })
                    } else {
                        None::<Piece>
                    }),
                count_occupied(board.grid()) == i as int,
            decreases stones@.len() - i,
        {
            let p = stones[i];
            let ghost gpre = board.grid();
            let ghost px = p.0 as int;
            let ghost py = p.1 as int;
            proof {
                assert(hs[i as int] == p);
                assert(in_bounds(px, py));
                lemma_idx_of_range(px, py);
                assert(cell(gpre, px, py) == (if pos_listed(hs.take(i as int), px, py) {
                    Some(Piece { color: PieceColor::Black })
                } else {
                    None::<Piece>
                }));
                if pos_listed(hs.take(i as int), px, py) {
                    let k = choose|k: int|
                        0 <= k < hs.take(i as int).len() && #[trigger] hs.take(i as int)[k] == ((
                            px as u8,
                            py as u8,
                        ));
                    assert(hs[k] == hs[i as int]);
                    assert(false);
                }
                assert(cell(gpre, px, py) is None);
                lemma_count_occupied_update(
                    gpre,
                    idx_of(px, py),
                    Some(Piece { color: PieceColor::Black }),
                );
            }
            board.set(PlacedPiece { piece: Piece { color: PieceColor::Black }, pos: p });
            proof {
                assert forall|x: int, y: int| in_bounds(x, y) implies #[trigger] cell(
                    board.grid(),
                    x,
                    y,
                ) == (if pos_listed(hs.take(i as int + 1), x, y) {
                    Some(Piece { color: PieceColor::Black })
                } else {
                    None::<Piece>
                }) by {
                    lemma_idx_of_range(x, y);
                    lemma_pos_listed_take_step(hs, i as int, x, y);
                    assert(cell(gpre, x, y) == (if pos_listed(hs.take(i as int), x, y) {
                        Some(Piece { color: PieceColor::Black })
                    } else {
                        None::<Piece>
                    }));
                    if idx_of(x, y) == idx_of(px, py) {
                        lemma_idx_of_injective(x, y, px, py);
                        assert(hs[i as int] == ((x as u8, y as u8)));
                    } else {
                        assert(cell(board.grid(), x, y) == cell(gpre, x, y));
                        if hs[i as int] == ((x as u8, y as u8)) {
                            assert(px == x && py == y);
                        }
                    }
                }
            }
            i = i + 1;
        }
        proof {
            assert(hs.take(hs.len() as int) =~= hs);
            if handicap == 0 {
                assert forall|i2: int| 0 <= i2 < 361 implies board.grid()[i2] == empty_grid()[i2]
                    by {
                    let x = i2 / 19;
                    let y = i2 % 19;
                    assert(in_bounds(x, y));
                    lemma_idx_of_range(x, y);
                    assert(idx_of(x, y) == i2);
                    if pos_listed(hs, x, y) {
                        let k = choose|k: int|
                            0 <= k < hs.len() && #[trigger] hs[k] == ((x as u8, y as u8));
                        assert(false);
                    }
                    assert(cell(board.grid(), x, y) is None);
                }
                assert(board.grid() =~= empty_grid());
            }
        }
        Game {
            board,
            moves: Vec::new(),
            handicap,
            position: GamePosition::Current,
        }
    }

    /// The color that must play next: Black on an empty history, else the
    /// opposite of the most recent history entry.
    pub fn current_turn_color(&self) -> (r: PieceColor)
        ensures
            r == game_turn(self.history()),
    {
        if self.moves.len() == 0 {
            PieceColor::Black
        } else {
            let last = self.moves[self.moves.len() - 1];
            last.piece.color.opposite()
        }
    }

    /// The history index currently viewed.
    pub fn current_turn(&self) -> (r: usize)
        ensures
            r as int == self.cursor_index(),
    {
        match self.position {
            GamePosition::Current => self.moves.len(),
            GamePosition::Past(n) => n,
        }
    }

    /// How many moves the history holds.
    pub fn len(&self) -> (r: usize)
        ensures
            r == self.history().len(),
    {
        self.moves.len()
    }

    /// The view cursor.
    pub fn position(&self) -> (r: GamePosition)
        ensures
            r == self.spec_position(),
    {
        self.position
    }

    /// The board after the first i history moves, replayed from an empty
    /// board. Fails with `MoveIndexOutOfBounds` when i exceeds the
    /// history length, and propagates the first replay failure otherwise.
    /// Handicap stones are not part of the history and do not appear.
    pub fn get_board_at_move(&self, i: usize) -> (r: Result<Board, BadukError>)
        requires
            self.wf(),
        ensures
            (match r {
                Ok(b) => {
                    &&& i <= self.history().len()
                    &&& replay_error(self.history(), i as int) is None
                    &&& b.wf()
                    &&& b.grid() == replay_state(self.history(), i as int).0
                    &&& b.ko_grid() == replay_state(self.history(), i as int).1
                },
                Err(e) => {
                    ||| (i > self.history().len() && e == (BadukError::MoveIndexOutOfBounds {
                        history_size: self.history().len() as usize,
                    }))
                    ||| (i <= self.history().len() && replay_error(self.history(), i as int)
                        == Some(e))
                },
            }),
    {
        if i > self.moves.len() {
            return Err(BadukError::MoveIndexOutOfBounds { history_size: self.moves.len() });
        }
        let mut board = Board::new();
        let mut j: usize = 0;
        while j < i
            invariant
                self.wf(),
                j <= i,
                i <= self.history().len(),
                board.wf(),
                replay_error(self.history(), j as int) is None,
                board.grid() == replay_state(self.history(), j as int).0,
                board.ko_grid() == replay_state(self.history(), j as int).1,
            decreases i - j,
        {
            let m = self.moves[j];
            proof {
                assert(self.history()[j as int] == m);
            }
            match board.do_move(m) {
                Err(e) => {
                    proof {
                        assert(replay_error(self.history(), j as int + 1) == Some(e));
                        lemma_replay_error_persists(self.history(), j as int + 1, i as int);
                    }
                    return Err(e);
                },
                Ok(_) => {},
            }
            j = j + 1;
        }
        Ok(board)
    }

    /// Recomputes the board for the given cursor by full replay and, on
    /// success, moves the cursor there. On failure nothing changes.
    pub fn set_position(&mut self, position: GamePosition) -> (r: Result<(), BadukError>)
        requires
            old(self).wf(),
        ensures
            final(self).wf(),
            final(self).history() == old(self).history(),
            final(self).handicap == old(self).handicap,
            ({
                let n: int = match position {
                    GamePosition::Current => old(self).history().len() as int,
                    GamePosition::Past(k) => k as int,
                };
                match r {
                    Ok(_) => {
                        &&& n <= old(self).history().len()
                        &&& replay_error(old(self).history(), n) is None
                        &&& final(self).spec_position() == position
                        &&& final(self).board.grid() == replay_state(old(self).history(), n).0
                        &&& final(self).board.ko_grid() == replay_state(old(self).history(), n).1
                    },
                    Err(e) => {
                        &&& final(self).spec_position() == old(self).spec_position()
                        &&& final(self).board.grid() == old(self).board.grid()
                        &&& final(self).board.ko_grid() == old(self).board.ko_grid()
                        &&& ((n > old(self).history().len() && e == (
                        BadukError::MoveIndexOutOfBounds {
                            history_size: old(self).history().len() as usize,
                        })) || (n <= old(self).history().len() && replay_error(
                            old(self).history(),
                            n,
                        ) == Some(e)))
                    },
                }
            }),
    {
        let n: usize = match position {
            GamePosition::Current => self.moves.len(),
            GamePosition::Past(k) => k,
        };
        match self.get_board_at_move(n) {
            Ok(b) => {
                self.board = b;
                self.position = position;
                Ok(())
            },
            Err(e) => Err(e),
        }
    }
}

impl Game {
    /// Plays one move: it must be the turn color's move; when viewing the
    /// past, the history is truncated to the viewed prefix, the move is
    /// applied against the board reconstructed there, and the cursor
    /// snaps back to the live position. A failed move changes nothing.
    pub fn do_move(&mut self, m: PlacedPiece) -> (r: Result<MoveResult, BadukError>)
        requires
            old(self).wf(),
            in_bounds(m.pos.0 as int, m.pos.1 as int),
        ensures
            final(self).wf(),
            final(self).model() == game_move_result(old(self).model(), m).0,
            (match r {
                Ok(res) => {
                    &&& game_move_result(old(self).model(), m).1 is None
                    &&& res.0 == m
                    &&& caps_exact(
                        res.1@,
                        place(game_base_grids(old(self).model()).0, m),
                        grid_after_move(game_base_grids(old(self).model()).0, m),
                    )
                },
                Err(e) => game_move_result(old(self).model(), m).1 == Some(e),
            }),
    {
        let ghost s0 = self.model();
        let turn = self.current_turn_color();
        if turn != m.piece.color {
            return Err(BadukError::InvalidMove {
                source: InvalidMoveError::NotYourTurn { turn },
            });
        }
        match self.position {
            GamePosition::Current => {
                let ghost oldms = self.moves@;
                match self.board.do_move(m) {
                    Err(e) => Err(e),
                    Ok(res) => {
                        self.moves.push(m);
                        proof {
                            let newms = self.moves@;
                            let len = oldms.len() as int;
                            assert(newms == oldms.push(m));
                            assert forall|j: int|
                                0 <= j < newms.len() implies in_bounds(
                                (#[trigger] newms[j]).pos.0 as int,
                                newms[j].pos.1 as int,
                            ) by {
                                if j < len {
                                    assert(newms[j] == oldms[j]);
                                    assert(in_bounds(
                                        oldms[j].pos.0 as int,
                                        oldms[j].pos.1 as int,
                                    ));
                                }
                            }
                            if self.handicap == 0 {
                                assert forall|j: int| 0 <= j < len implies newms[j] == oldms[j]
                                    by {}
                                lemma_replay_prefix(newms, oldms, len);
                                assert(newms[len] == m);
                                assert(replay_error(newms, len + 1) is None);
                                assert(replay_state(newms, len + 1).0 == self.board.grid());
                                assert(replay_state(newms, len + 1).1 == self.board.ko_grid());
                            }
                            assert(self.model() == game_move_result(s0, m).0);
                        }
                        Ok(res)
                    },
                }
            },
            GamePosition::Past(n) => {
                let mut b = match self.get_board_at_move(n) {
                    Ok(b) => b,
                    Err(e) => {
                        proof {
                            assert(n <= self.moves@.len());
                            assert(replay_error(self.moves@, n as int) == Some(e));
                        }
                        return Err(e);
                    },
                };
                let ghost bgrid = b.grid();
                let ghost bko = b.ko_grid();
                match b.do_move(m) {
                    Err(e) => Err(e),
                    Ok(res) => {
                        let ghost oldms = self.moves@;
                        self.board = b;
                        self.moves.truncate(n);
                        self.moves.push(m);
                        self.position = GamePosition::Current;
                        proof {
                            let newms = self.moves@;
                            assert(oldms.subrange(0, n as int) =~= oldms.take(n as int));
                            assert(newms == oldms.take(n as int).push(m));
                            assert forall|j: int|
                                0 <= j < newms.len() implies in_bounds(
                                (#[trigger] newms[j]).pos.0 as int,
                                newms[j].pos.1 as int,
                            ) by {
                                if j < n as int {
                                    assert(newms[j] == oldms[j]);
                                    assert(in_bounds(
                                        oldms[j].pos.0 as int,
                                        oldms[j].pos.1 as int,
                                    ));
                                }
                            }
                            if self.handicap == 0 {
                                assert forall|j: int| 0 <= j < n as int implies newms[j]
                                    == oldms[j] by {}
                                lemma_replay_prefix(newms, oldms, n as int);
                                assert(newms[n as int] == m);
                                assert(replay_state(newms, n as int) == (bgrid, bko));
                                assert(replay_error(newms, n as int + 1) is None);
                                assert(replay_state(newms, n as int + 1).0 == self.board.grid());
                                assert(replay_state(newms, n as int + 1).1
                                    == self.board.ko_grid());
                            }
                            assert(self.model() == game_move_result(s0, m).0);
                        }
                        Ok(res)
                    },
                }
            },
        }
    }

    /// Applies the moves in order, stopping at and returning the first
    /// failure; moves before the failure stay applied.
    pub fn do_moves(&mut self, moves: Vec<PlacedPiece>) -> (r: Result<(), BadukError>)
        requires
            old(self).wf(),
            forall|k: int|
                0 <= k < moves@.len() ==> in_bounds(
                    (#[trigger] moves@[k]).pos.0 as int,
                    moves@[k].pos.1 as int,
                ),
        ensures
            final(self).wf(),
            final(self).model() == game_run_from(old(self).model(), moves@, 0).0,
            (match game_run_from(old(self).model(), moves@, 0).1 {
                None => r is Ok,
                Some(e) => r == Err::<(), BadukError>(e),
            }),
    {
        let mut i: usize = 0;
        while i < moves.len()
            invariant
                self.wf(),
                i <= moves@.len(),
                forall|k: int|
                    0 <= k < moves@.len() ==> in_bounds(
                        (#[trigger] moves@[k]).pos.0 as int,
                        moves@[k].pos.1 as int,
                    ),
                game_run_from(old(self).model(), moves@, 0) == game_run_from(
                    self.model(),
                    moves@,
                    i as int,
                ),
            decreases moves@.len() - i,
        {
            match self.do_move(moves[i]) {
                Err(e) => {
                    return Err(e);
                },
                Ok(_) => {},
            }
            i = i + 1;
        }
        Ok(())
    }

    /// Like `do_moves`, but building each move from a (color, x, y)
    /// triple.
    pub fn do_moves_builder(&mut self, moves: Vec<(PieceColor, u8, u8)>) -> (r: Result<
        (),
        BadukError,
    >)
        requires
            old(self).wf(),
            forall|k: int|
                0 <= k < moves@.len() ==> in_bounds(
                    (#[trigger] moves@[k]).1 as int,
                    moves@[k].2 as int,
                ),
        ensures
            final(self).wf(),
            final(self).model() == game_run_from(
                old(self).model(),
                crate::model::builder_moves(moves@),
                0,
            ).0,
            (match game_run_from(old(self).model(), crate::model::builder_moves(moves@), 0).1 {
                None => r is Ok,
                Some(e) => r == Err::<(), BadukError>(e),
            }),
    {
        let ghost ms = crate::model::builder_moves(moves@);
        let mut i: usize = 0;
        while i < moves.len()
            invariant
                self.wf(),
                i <= moves@.len(),
                ms == crate::model::builder_moves(moves@),
                forall|k: int|
                    0 <= k < moves@.len() ==> in_bounds(
                        (#[trigger] moves@[k]).1 as int,
                        moves@[k].2 as int,
                    ),
                game_run_from(old(self).model(), ms, 0) == game_run_from(
                    self.model(),
                    ms,
                    i as int,
                ),
            decreases moves@.len() - i,
        {
            let (color, x, y) = moves[i];
            let m = PlacedPiece { piece: Piece { color }, pos: (x, y) };
            proof {
                assert(ms[i as int] == m);
            }
            match self.do_move(m) {
                Err(e) => {
                    return Err(e);
                },
                Ok(_) => {},
            }
            i = i + 1;
        }
        Ok(())
    }

    /// Shifts the view cursor by amt, clamped to [1, history length];
    /// landing exactly on the tip resets the cursor to the live position.
    /// The board is recomputed for the new cursor by full replay; if that
    /// replay fails, nothing changes.
    pub fn offset_turn(&mut self, amt: i32)
        requires
            old(self).wf(),
            old(self).history().len() <= 0x7fff_ffff,
            (old(self).spec_position() is Past || amt < 0) ==> old(self).history().len() >= 1,
        ensures
            final(self).wf(),
            final(self).history() == old(self).history(),
            final(self).handicap == old(self).handicap,
            ({
                let len = old(self).history().len() as int;
                let base = old(self).cursor_index();
                let sum = base + amt;
                let t: int = if sum < 1 {
                    1
                } else if sum > len {
                    len
                } else {
                    sum
                };
                if old(self).spec_position() is Current && amt >= 0 {
                    &&& final(self).spec_position() == old(self).spec_position()
                    &&& final(self).board.grid() == old(self).board.grid()
                    &&& final(self).board.ko_grid() == old(self).board.ko_grid()
                } else if replay_error(old(self).history(), t) is None {
                    &&& final(self).spec_position() == (if t == len {
                        GamePosition::Current
                    } else {
                        GamePosition::Past(t as usize)
                    })
                    &&& final(self).board.grid() == replay_state(old(self).history(), t).0
                    &&& final(self).board.ko_grid() == replay_state(old(self).history(), t).1
                } else {
                    &&& final(self).spec_position() == old(self).spec_position()
                    &&& final(self).board.grid() == old(self).board.grid()
                    &&& final(self).board.ko_grid() == old(self).board.ko_grid()
                }
            }),
    {
        let is_current = match self.position {
            GamePosition::Current => true,
            GamePosition::Past(_) => false,
        };
        if is_current && amt >= 0 {
            return;
        }
        let base: usize = match self.position {
            GamePosition::Current => self.moves.len(),
            GamePosition::Past(n) => n,
        };
        let len = self.moves.len();
        let sum: i64 = base as i64 + amt as i64;
        let t: usize = if sum < 1 {
            1
        } else if sum > len as i64 {
            len
        } else {
            sum as usize
        };
        let tgt = if t == len {
            GamePosition::Current
        } else {
            GamePosition::Past(t)
        };
        match self.set_position(tgt) {
            Ok(_) => {},
            Err(_) => {},
        }
    }

    /// The round trip between a game and its history: in a game without
    /// handicap, viewed at the live position, the current board is
    /// exactly the replay of the whole history, and that replay raises no
    /// failure - so `get_board_at_move(len())` returns this very board.
    pub proof fn lemma_current_board_is_replay(self)
        requires
            self.wf(),
            self.handicap == 0,
            self.spec_position() is Current,
        ensures
            self.board.grid() == replay_state(self.history(), self.history().len() as int).0,
            self.board.ko_grid() == replay_state(self.history(), self.history().len() as int).1,
            replay_error(self.history(), self.history().len() as int) is None,
    {
    }
}

} // verus!
