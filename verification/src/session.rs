//! One game in progress: a board, whose turn it is, and the square last pointed at.

use crate::board::{
    after_move, any_move, auto_reverse, check_putable, create_initial_data, get_another_color,
    initial_board, legal_move, other_color, result_of, BorW, Field, GameResult, Masu, Position,
};
use vstd::prelude::*;

verus! {

/// What became of a move that was handed in.
#[derive(Debug, Clone, Copy, PartialEq, Eq, Structural)]
pub enum MoveOutcome {
    /// The disc was put and the turn went on.
    Applied,
    /// The move was against the rules, or not the mover's turn; nothing changed.
    Rejected,
}

/// A game: its board, the square last pointed at, and the colour to move.
#[derive(Debug, Clone, Copy, PartialEq, Eq)]
pub struct ReversiData {
    pub field: Field,
    pub cursor: Position,
    pub turn: BorW,
}

/// A game as plain values.
pub struct SessionView {
    pub board: Seq<Masu>,
    pub cursor: (int, int),
    pub turn: BorW,
}

impl View for ReversiData {
    type V = SessionView;

    open spec fn view(&self) -> SessionView {
        SessionView { board: self.field@, cursor: self.cursor@, turn: self.turn }
    }
}

/// A game that has just begun: the starting board, the cursor in the corner,
/// Black to move.
pub open spec fn initial_session() -> SessionView {
    SessionView { board: initial_board(), cursor: (0, 0), turn: BorW::Black }
}

/// Whose turn it is once `mover` has moved and the board is `b`: the other
/// colour's, unless it has no legal move, in which case `mover` moves again.
pub open spec fn turn_after(b: Seq<Masu>, mover: BorW) -> BorW {
    if any_move(b, other_color(mover)) {
        other_color(mover)
    } else {
        mover
    }
}

/// Whether the game `s` takes a disc of `color` at `(x, y)`: it is that
/// colour's turn and the rules allow the move.
pub open spec fn accepts(s: SessionView, x: int, y: int, color: BorW) -> bool {
    color == s.turn && legal_move(s.board, x, y, color)
}

/// The game `s` after the mover has put a disc at `(x, y)`.
pub open spec fn after_submit(s: SessionView, x: int, y: int) -> SessionView {
    SessionView {
        board: after_move(s.board, x, y, s.turn),
        cursor: s.cursor,
        turn: turn_after(after_move(s.board, x, y, s.turn), s.turn),
    }
}

impl ReversiData {
    /// A game that has just begun.
    pub fn new() -> (r: Self)
        ensures
            r@ == initial_session(),
    {
        let (field, cursor, turn) = create_initial_data();
        ReversiData { field, cursor, turn }
    }

    /// Starts the game over.
    pub fn reset(&mut self)
        ensures
            final(self)@ == initial_session(),
    {
        let (field, cursor, turn) = create_initial_data();
        self.field = field;
        self.cursor = cursor;
        self.turn = turn;
    }

    /// Puts a disc of `color` at `p` if it is that colour's turn and the move
    /// is legal, and passes the turn on; a colour that cannot move is passed
    /// over. Any other move is rejected and leaves the game as it was.
    pub fn submit_move(&mut self, p: Position, color: BorW) -> (r: MoveOutcome)
        ensures
            r == MoveOutcome::Applied <==> accepts(old(self)@, p@.0, p@.1, color),
            r == MoveOutcome::Rejected <==> !accepts(old(self)@, p@.0, p@.1, color),
            accepts(old(self)@, p@.0, p@.1, color) ==> final(self)@ == after_submit(
                old(self)@,
                p@.0,
                p@.1,
            ),
            !accepts(old(self)@, p@.0, p@.1, color) ==> final(self)@ == old(self)@,
    {
        if color != self.turn {
            return MoveOutcome::Rejected;
        }
        if !check_putable(&self.field, p, color) {
            return MoveOutcome::Rejected;
        }
        auto_reverse(&mut self.field, p, color);
        self.turn = get_another_color(color);
        if !self.field.puttable(self.turn) {
            self.turn = get_another_color(self.turn);
        }
        MoveOutcome::Applied
    }
}

/// Hands in the move that the game's cursor points at, for the colour whose
/// turn it is.
pub fn try_put(data: &mut ReversiData) -> (r: MoveOutcome)
    ensures
        r == MoveOutcome::Applied <==> legal_move(
            old(data)@.board,
            old(data)@.cursor.0,
            old(data)@.cursor.1,
            old(data)@.turn,
        ),
        r == MoveOutcome::Applied ==> final(data)@ == after_submit(
            old(data)@,
            old(data)@.cursor.0,
            old(data)@.cursor.1,
        ),
        r == MoveOutcome::Rejected ==> final(data)@ == old(data)@,
        r == MoveOutcome::Applied || r == MoveOutcome::Rejected,
{
    let p = data.cursor;
    let color = data.turn;
    data.submit_move(p, color)
}

/// After a move the colour whose turn it is can move, unless the game is
/// over: a colour without a move is passed over, and where the turn comes
/// back to a colour that cannot move either, neither colour can.
pub proof fn lemma_turn_after_can_move(b: Seq<Masu>, mover: BorW)
    ensures
        any_move(b, turn_after(b, mover)) <==> result_of(b) == GameResult::Playing,
{
}

} // verus!
