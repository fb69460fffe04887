//! A game at a terminal or on a canvas: what a key does to it, where a
//! click lands, and what each square shows.

use crate::board::{
    after_move, auto_reverse, cell, cell_index, check_putable, create_initial_data,
    get_another_color, initial_board, legal_move, on_board, other_color, BorW, Field,
    FieldOutError, GameResult, Masu, Position,
};
use crate::session::turn_after;
use crossterm::event::{Event, KeyCode, KeyEvent};
use vstd::prelude::*;

verus! {

/// `crossterm::event::Event`: what a terminal reports, a key among other things.
#[verifier::external_type_specification]
#[verifier::external_body]
pub struct ExEvent(Event);

/// A key, as far as the game tells keys apart.
#[derive(Debug, Clone, Copy, PartialEq, Eq, Structural)]
pub enum Key {
    Esc,
    Char(char),
    Left,
    Up,
    Right,
    Down,
    Enter,
    Backspace,
    /// Any other key, and any event that is no key.
    Other,
}

/// The game at the terminal as plain values.
pub struct ConsoleView {
    pub board: Seq<Masu>,
    pub cursor: (int, int),
    pub end: bool,
    pub turn: BorW,
}

/// The square one step from `c`, or `c` itself where the step leaves the board.
pub open spec fn stepped(c: (int, int), dx: int, dy: int) -> (int, int) {
    if on_board(c.0 + dx, c.1 + dy) {
        (c.0 + dx, c.1 + dy)
    } else {
        c
    }
}

/// The game after the key `key`.
///
/// Escape ends the session, `p` passes the turn, `r` starts the game over,
/// the arrows move the cursor and stop at the edge, Enter makes the move at
/// the cursor if the rules allow it (a colour that then cannot move is passed
/// over), Backspace empties the square at the cursor. Any other key does
/// nothing.
pub open spec fn after_key(key: Key, s: ConsoleView) -> ConsoleView {
    match key {
        Key::Esc => ConsoleView { end: true, ..s },
        Key::Char(c) => if c == 'p' {
            ConsoleView { turn: other_color(s.turn), ..s }
        } else if c == 'r' {
            ConsoleView { board: initial_board(), cursor: (0, 0), turn: BorW::Black, ..s }
        } else {
            s
        },
        Key::Left => ConsoleView { cursor: stepped(s.cursor, 0, -1), ..s },
        Key::Up => ConsoleView { cursor: stepped(s.cursor, -1, 0), ..s },
        Key::Right => ConsoleView { cursor: stepped(s.cursor, 0, 1), ..s },
        Key::Down => ConsoleView { cursor: stepped(s.cursor, 1, 0), ..s },
        Key::Enter => if legal_move(s.board, s.cursor.0, s.cursor.1, s.turn) {
            let board = after_move(s.board, s.cursor.0, s.cursor.1, s.turn);
            ConsoleView { board, turn: turn_after(board, s.turn), ..s }
        } else {
            s
        },
        Key::Backspace => ConsoleView {
            board: s.board.update(cell_index(s.cursor.0, s.cursor.1), Masu::Empty),
            ..s
        },
        Key::Other => s,
    }
}

/// The key that a terminal event stands for.
///
/// Tells the variants of `crossterm::event::Event` apart and, in a key event,
/// those of `crossterm::event::KeyCode`; a character key hands on its
/// character. Modifiers and the kind of a key event are not looked at. This
/// is taken on trust, and nothing is claimed of which key comes back.
#[verifier::external_body]
fn key_of(event: &Event) -> (key: Key) {
    match event {
        Event::Key(KeyEvent { code, .. }) => match code {
            KeyCode::Esc => Key::Esc,
            KeyCode::Char(c) => Key::Char(*c),
            KeyCode::Left => Key::Left,
            KeyCode::Up => Key::Up,
            KeyCode::Right => Key::Right,
            KeyCode::Down => Key::Down,
            KeyCode::Enter => Key::Enter,
            KeyCode::Backspace => Key::Backspace,
            _ => Key::Other,
        },
        _ => Key::Other,
    }
}

/// Does to the game what the key `key` asks.
pub fn apply_key(
    key: Key,
    field: &mut Field,
    cursor: &mut Position,
    end: &mut bool,
    turn: &mut BorW,
)
    ensures
        (ConsoleView {
            board: final(field)@,
            cursor: final(cursor)@,
            end: *final(end),
            turn: *final(turn),
        }) == after_key(
            key,
            (ConsoleView {
                board: old(field)@,
                cursor: old(cursor)@,
                end: *old(end),
                turn: *old(turn),
            }),
        ),
{
    match key {
        Key::Esc => {
            *end = true;
        },
        Key::Char(c) => {
            if c == 'p' {
                *turn = get_another_color(*turn);
            } else if c == 'r' {
                let (f, c, t) = create_initial_data();
                *field = f;
                *cursor = c;
                *turn = t;
            }
        },
        Key::Left => {
            *cursor = step_or_stay(*cursor, 0, -1);
        },
        Key::Up => {
            *cursor = step_or_stay(*cursor, -1, 0);
        },
        Key::Right => {
            *cursor = step_or_stay(*cursor, 0, 1);
        },
        Key::Down => {
            *cursor = step_or_stay(*cursor, 1, 0);
        },
        Key::Enter => {
            if check_putable(field, *cursor, *turn) {
                auto_reverse(field, *cursor, *turn);
                *turn = get_another_color(*turn);
                if !field.puttable(*turn) {
                    *turn = get_another_color(*turn);
                }
            }
        },
        Key::Backspace => {
            field.set(*cursor, Masu::Empty);
        },
        Key::Other => {},
    }
}

/// The square one step from `p`, or `p` itself at the edge.
fn step_or_stay(p: Position, dx: i32, dy: i32) -> (r: Position)
    requires
        -1 <= dx <= 1,
        -1 <= dy <= 1,
    ensures
        r@ == stepped(p@, dx as int, dy as int),
{
    match p.shifted(dx, dy) {
        Ok(q) => q,
        Err(_) => p,
    }
}

/// Does to the game what a terminal event asks: what `apply_key` does for
/// the key that the event stands for.
pub fn input(
    event: Event,
    field: &mut Field,
    cursor: &mut Position,
    end: &mut bool,
    turn: &mut BorW,
)
    ensures
        exists|key: Key|
            (ConsoleView {
                board: final(field)@,
                cursor: final(cursor)@,
                end: *final(end),
                turn: *final(turn),
            }) == #[trigger] after_key(
                key,
                (ConsoleView {
                    board: old(field)@,
                    cursor: old(cursor)@,
                    end: *old(end),
                    turn: *old(turn),
                }),
            ),
{
    let key = key_of(&event);
    apply_key(key, field, cursor, end, turn);
}

/// The square that a click at `(page_x, page_y)` lands on, where each square
/// is 60 units wide and high and the board starts at the origin: an error
/// where the click is off the board.
pub fn mouseinput(page_x: i32, page_y: i32) -> (r: Result<Position, FieldOutError>)
    ensures
        0 <= page_x < 480 && 0 <= page_y < 480 ==> r is Ok && r->Ok_0@ == (
            page_x as int / 60,
            page_y as int / 60,
        ),
        !(0 <= page_x < 480 && 0 <= page_y < 480) ==> r is Err,
{
    if page_x < 0 || page_y < 0 {
        return Err(FieldOutError);
    }
    Position::new(page_x / 60, page_y / 60)
}

/// The background of a square.
#[derive(Debug, Clone, Copy, PartialEq, Eq, Structural)]
pub enum Shade {
    /// The square under the cursor.
    Cursor,
    /// A square whose row and column add up to an even number.
    Dark,
    /// A square whose row and column add up to an odd number.
    Light,
}

/// What is drawn on a square.
#[derive(Debug, Clone, Copy, PartialEq, Eq, Structural)]
pub enum Glyph {
    /// An empty square that the colour to move may put a disc on.
    Hint,
    /// Any other empty square.
    Blank,
    Black,
    White,
}

/// How one square is shown.
#[derive(Debug, Clone, Copy, PartialEq, Eq, Structural)]
pub struct CellPicture {
    pub shade: Shade,
    pub glyph: Glyph,
}

/// How the square `(x, y)` of the board `b` is shown with the cursor at
/// `cursor` and `turn` to move.
pub open spec fn picture_of(b: Seq<Masu>, cursor: (int, int), turn: BorW, x: int, y: int) -> CellPicture {
    CellPicture {
        shade: if cursor == (x, y) {
            Shade::Cursor
        } else if (x + y) % 2 == 0 {
            Shade::Dark
        } else {
            Shade::Light
        },
        glyph: match cell(b, x, y) {
            Masu::Empty => if legal_move(b, x, y, turn) {
                Glyph::Hint
            } else {
                Glyph::Blank
            },
            Masu::Putted(BorW::Black) => Glyph::Black,
            Masu::Putted(BorW::White) => Glyph::White,
        },
    }
}

/// How the square at `p` is shown.
pub fn cell_picture(field: &Field, cursor: Position, turn: BorW, p: Position) -> (r: CellPicture)
    ensures
        r == picture_of(field@, cursor@, turn, p@.0, p@.1),
{
    let shade = if cursor.x() == p.x() && cursor.y() == p.y() {
        Shade::Cursor
    } else if (p.x() + p.y()) % 2 == 0 {
        Shade::Dark
    } else {
        Shade::Light
    };
    let glyph = match field.get(p) {
        Masu::Empty => {
            if check_putable(field, p, turn) {
                Glyph::Hint
            } else {
                Glyph::Blank
            }
        },
        Masu::Putted(BorW::Black) => Glyph::Black,
        Masu::Putted(BorW::White) => Glyph::White,
    };
    CellPicture { shade, glyph }
}

/// How the whole board is shown: the 64 squares row by row.
pub fn view(field: &Field, cursor: Position, turn: BorW) -> (r: Vec<CellPicture>)
    ensures
        r@.len() == 64,
        forall|x: int, y: int|
            on_board(x, y) ==> r@[#[trigger] cell_index(x, y)] == picture_of(
                field@,
                cursor@,
                turn,
                x,
                y,
            ),
{
    let mut out: Vec<CellPicture> = Vec::new();
    let mut i: i32 = 0;
    while i < 8
        invariant
            0 <= i <= 8,
            out@.len() == 8 * i,
            forall|x: int, y: int|
                on_board(x, y) && x < i ==> out@[#[trigger] cell_index(x, y)] == picture_of(
                    field@,
                    cursor@,
                    turn,
                    x,
                    y,
                ),
        decreases 8 - i,
    {
        let mut j: i32 = 0;
        while j < 8
            invariant
                0 <= i < 8,
                0 <= j <= 8,
                out@.len() == 8 * i + j,
                forall|x: int, y: int|
                    on_board(x, y) && (x < i || (x == i && y < j)) ==> out@[#[trigger] cell_index(
                        x,
                        y,
                    )] == picture_of(field@, cursor@, turn, x, y),
            decreases 8 - j,
        {
            let p = Position::new(i, j).unwrap();
            out.push(cell_picture(field, cursor, turn, p));
            j = j + 1;
        }
        i = i + 1;
    }
    out
}

/// The line that says whose turn it is.
pub fn turn_line(turn: BorW) -> (r: &'static str)
    ensures
        r@ == (match turn {
            BorW::Black => "Black Turn\n"@,
            BorW::White => "White Turn\n"@,
        }),
{
    match turn {
        BorW::Black => "Black Turn\n",
        BorW::White => "White Turn\n",
    }
}

/// The line that says how the game stands; blank while it goes on.
pub fn result_line(result: GameResult) -> (r: &'static str)
    ensures
        r@ == (match result {
            GameResult::Playing => "                    "@,
            GameResult::Draw => "Game Result is Draw "@,
            GameResult::Win(BorW::Black) => "Winner is Black      "@,
            GameResult::Win(BorW::White) => "Winner is White      "@,
        }),
{
    match result {
        GameResult::Playing => "                    ",
        GameResult::Draw => "Game Result is Draw ",
        GameResult::Win(BorW::Black) => "Winner is Black      ",
        GameResult::Win(BorW::White) => "Winner is White      ",
    }
}

} // verus!
