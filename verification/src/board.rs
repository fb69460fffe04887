//! The 8x8 board, its cells and positions, and the rules of a move.

use vstd::prelude::*;

verus! {

/// Marks a coordinate that lies outside the board.
#[derive(Debug, Clone, Copy, PartialEq, Eq, Structural)]
pub struct FieldOutError;

impl FieldOutError {
    /// The error in words.
    pub fn message(&self) -> (r: &'static str)
        ensures
            r@ == "invalid range position"@,
    {
        "invalid range position"
    }
}

/// One of the two disc colours.
#[derive(Debug, Clone, Copy, PartialEq, Eq, Structural)]
pub enum BorW {
    Black,
    White,
}

/// What one square of the board holds.
#[derive(Debug, Clone, Copy, PartialEq, Eq, Structural)]
pub enum Masu {
    Empty,
    Putted(BorW),
}

/// The state of a game as far as the board alone decides it.
#[derive(Debug, Clone, Copy, PartialEq, Eq, Structural)]
pub enum GameResult {
    Win(BorW),
    Draw,
    Playing,
}

/// Whether `(x, y)` names a square of the board.
pub open spec fn on_board(x: int, y: int) -> bool {
    0 <= x < 8 && 0 <= y < 8
}

/// The colour that is not `color`.
pub open spec fn other_color(color: BorW) -> BorW {
    match color {
        BorW::Black => BorW::White,
        BorW::White => BorW::Black,
    }
}

pub fn get_another_color(color: BorW) -> (r: BorW)
    ensures
        r == other_color(color),
        r != color,
        other_color(r) == color,
{
    match color {
        BorW::Black => BorW::White,
        BorW::White => BorW::Black,
    }
}

/// A square of the board: a row `x` and a column `y`, both below 8.
#[derive(Debug, Clone, Copy, PartialEq, Eq, Structural)]
pub struct Position {
    x: usize,
    y: usize,
}

impl View for Position {
    type V = (int, int);

    closed spec fn view(&self) -> (int, int) {
        (self.x as int, self.y as int)
    }
}

impl Position {
    #[verifier::type_invariant]
    spec fn in_range(self) -> bool {
        self.x < 8 && self.y < 8
    }

    /// The position `(x, y)`, or an error where either coordinate is not in `0..=7`.
    pub fn new(x: i32, y: i32) -> (r: Result<Self, FieldOutError>)
        ensures
            on_board(x as int, y as int) ==> r is Ok && r->Ok_0@ == (x as int, y as int),
            !on_board(x as int, y as int) ==> r is Err,
    {
        if x < 0 || y < 0 || 7 < x || 7 < y {
            return Err(FieldOutError);
        }
        Ok(Self { x: x as usize, y: y as usize })
    }

    /// The position `(self.x + dx, self.y + dy)`, or an error where it leaves the board.
    pub fn shifted(self, dx: i32, dy: i32) -> (r: Result<Self, FieldOutError>)
        ensures
            on_board(self@.0 + dx, self@.1 + dy) ==> r is Ok && r->Ok_0@ == (
                self@.0 + dx,
                self@.1 + dy,
            ),
            !on_board(self@.0 + dx, self@.1 + dy) ==> r is Err,
            on_board(self@.0, self@.1),
    {
        proof {
            use_type_invariant(&self);
        }
        if dx < -7 || 7 < dx || dy < -7 || 7 < dy {
            return Err(FieldOutError);
        }
        Self::new(self.x as i32 + dx, self.y as i32 + dy)
    }

    /// One row up: `x - 1`.
    pub fn up(self) -> (r: Result<Self, FieldOutError>)
        ensures
            self@.0 >= 1 ==> r is Ok && r->Ok_0@ == (self@.0 - 1, self@.1),
            self@.0 < 1 ==> r is Err,
    {
        self.shifted(-1, 0)
    }

    /// One row down: `x + 1`.
    pub fn down(self) -> (r: Result<Self, FieldOutError>)
        ensures
            self@.0 < 7 ==> r is Ok && r->Ok_0@ == (self@.0 + 1, self@.1),
            self@.0 >= 7 ==> r is Err,
    {
        self.shifted(1, 0)
    }

    /// One column left: `y - 1`.
    pub fn left(self) -> (r: Result<Self, FieldOutError>)
        ensures
            self@.1 >= 1 ==> r is Ok && r->Ok_0@ == (self@.0, self@.1 - 1),
            self@.1 < 1 ==> r is Err,
    {
        self.shifted(0, -1)
    }

    /// One column right: `y + 1`.
    pub fn right(self) -> (r: Result<Self, FieldOutError>)
        ensures
            self@.1 < 7 ==> r is Ok && r->Ok_0@ == (self@.0, self@.1 + 1),
            self@.1 >= 7 ==> r is Err,
    {
        self.shifted(0, 1)
    }

    pub fn x(self) -> (r: usize)
        ensures
            r == self@.0,
            r < 8,
    {
        proof {
            use_type_invariant(&self);
        }
        self.x
    }

    pub fn y(self) -> (r: usize)
        ensures
            r == self@.1,
            r < 8,
    {
        proof {
            use_type_invariant(&self);
        }
        self.y
    }
}

/// The place of square `(x, y)` in a board written row by row.
pub open spec fn cell_index(x: int, y: int) -> int {
    8 * x + y
}

/// What square `(x, y)` of the board `b` holds.
pub open spec fn cell(b: Seq<Masu>, x: int, y: int) -> Masu {
    b[cell_index(x, y)]
}

/// The board at the start of a game: two discs of each colour round the centre.
pub open spec fn initial_board() -> Seq<Masu> {
    Seq::new(
        64,
        |i: int|
            if i == cell_index(3, 3) || i == cell_index(4, 4) {
                Masu::Putted(BorW::Black)
            } else if i == cell_index(3, 4) || i == cell_index(4, 3) {
                Masu::Putted(BorW::White)
            } else {
                Masu::Empty
            },
    )
}

/// How many squares of `b` hold a disc of `color`.
pub open spec fn count_of(b: Seq<Masu>, color: BorW) -> nat
    decreases b.len(),
{
    if b.len() == 0 {
        0
    } else {
        count_of(b.drop_last(), color) + if b.last() == Masu::Putted(color) {
            1nat
        } else {
            0nat
        }
    }
}

/// The 64 squares of a board.
#[derive(Debug, Clone, Copy, PartialEq, Eq)]
pub struct Field {
    field: [Masu; 64],
}

impl View for Field {
    type V = Seq<Masu>;

    closed spec fn view(&self) -> Seq<Masu> {
        self.field@
    }
}

impl Field {
    /// Every board has 64 squares.
    pub proof fn lemma_len(self)
        ensures
            self@.len() == 64,
    {
    }

    /// The board at the start of a game.
    pub fn new() -> (f: Self)
        ensures
            f@ == initial_board(),
    {
        let mut f = Self { field: [Masu::Empty;64] };
        f.field[27] = Masu::Putted(BorW::Black);
        f.field[36] = Masu::Putted(BorW::Black);
        f.field[28] = Masu::Putted(BorW::White);
        f.field[35] = Masu::Putted(BorW::White);
        f
    }

    /// What the square at `p` holds.
    pub fn get(&self, p: Position) -> (m: Masu)
        ensures
            m == cell(self@, p@.0, p@.1),
            on_board(p@.0, p@.1),
    {
        let x = p.x();
        let y = p.y();
        self.field[x * 8 + y]
    }

    /// Writes `masu` into the square at `p`, whatever the rules say of it.
    pub fn set(&mut self, p: Position, masu: Masu)
        ensures
            final(self)@ == old(self)@.update(cell_index(p@.0, p@.1), masu),
            on_board(p@.0, p@.1),
    {
        let x = p.x();
        let y = p.y();
        self.field[x * 8 + y] = masu;
    }

    /// The number of discs of `color` on the board.
    pub fn count(&self, color: BorW) -> (n: usize)
        ensures
            n == count_of(self@, color),
            n <= 64,
    {
        let mut n: usize = 0;
        let mut i: usize = 0;
        while i < 64
            invariant
                i <= 64,
                n <= i,
                n == count_of(self@.take(i as int), color),
            decreases 64 - i,
        {
            assert(self@.take(i + 1).drop_last() =~= self@.take(i as int));
            if self.field[i] == Masu::Putted(color) {
                n = n + 1;
            }
            i = i + 1;
        }
        assert(self@.take(64) =~= self@);
        n
    }
}

/// How far a walk from `(x, y)` by `(dx, dy)` can still go before it leaves the board.
pub open spec fn walk_room(x: int, y: int, dx: int, dy: int) -> int {
    if dx > 0 {
        8 - x
    } else if dx < 0 {
        x + 1
    } else if dy > 0 {
        8 - y
    } else {
        y + 1
    }
}

/// The walk from `(x, y)`, that square left out, by steps of `(dx, dy)`, for a
/// player of `color`. It passes over the other colour's discs. Where it then
/// meets a disc of `color`, the result is the squares passed, nearest first.
/// Where it meets an empty square or leaves the board, the result is `None`.
pub open spec fn walk(b: Seq<Masu>, x: int, y: int, dx: int, dy: int, color: BorW) -> Option<
    Seq<(int, int)>,
>
    decreases walk_room(x, y, dx, dy),
{
    let nx = x + dx;
    let ny = y + dy;
    if (dx == 0 && dy == 0) || !on_board(nx, ny) {
        None
    } else if cell(b, nx, ny) == Masu::Empty {
        None
    } else if cell(b, nx, ny) == Masu::Putted(color) {
        Some(Seq::empty())
    } else {
        match walk(b, nx, ny, dx, dy, color) {
            Some(rest) => Some(seq![(nx, ny)] + rest),
            None => None,
        }
    }
}

/// The discs that a disc of `color` at `(x, y)` turns in the direction `(dx, dy)`.
pub open spec fn flips_toward(b: Seq<Masu>, x: int, y: int, dx: int, dy: int, color: BorW) -> Seq<
    (int, int),
> {
    match walk(b, x, y, dx, dy, color) {
        Some(passed) => passed,
        None => Seq::empty(),
    }
}

/// The eight directions of the compass, in the order in which a move looks along them.
pub open spec fn direction(k: int) -> (int, int) {
    if k == 0 {
        (-1, -1)
    } else if k == 1 {
        (-1, 0)
    } else if k == 2 {
        (-1, 1)
    } else if k == 3 {
        (1, -1)
    } else if k == 4 {
        (1, 0)
    } else if k == 5 {
        (1, 1)
    } else if k == 6 {
        (0, 1)
    } else {
        (0, -1)
    }
}

/// The discs turned along the first `k` directions, one direction after the other.
pub open spec fn reversible_upto(b: Seq<Masu>, x: int, y: int, color: BorW, k: int) -> Seq<
    (int, int),
>
    decreases k,
{
    if k <= 0 {
        Seq::empty()
    } else {
        reversible_upto(b, x, y, color, k - 1) + flips_toward(
            b,
            x,
            y,
            direction(k - 1).0,
            direction(k - 1).1,
            color,
        )
    }
}

/// Every disc that a disc of `color` put at `(x, y)` turns.
pub open spec fn reversible(b: Seq<Masu>, x: int, y: int, color: BorW) -> Seq<(int, int)> {
    reversible_upto(b, x, y, color, 8)
}

/// Whether the rules let `color` put a disc at `(x, y)`: the square is empty
/// and the disc would turn at least one other.
pub open spec fn legal_move(b: Seq<Masu>, x: int, y: int, color: BorW) -> bool {
    cell(b, x, y) == Masu::Empty && reversible(b, x, y, color).len() > 0
}

/// Whether `color` has a legal move anywhere on the board.
pub open spec fn any_move(b: Seq<Masu>, color: BorW) -> bool {
    exists|x: int, y: int| on_board(x, y) && #[trigger] legal_move(b, x, y, color)
}

/// The coordinates of a sequence of positions.
pub open spec fn coords(ps: Seq<Position>) -> Seq<(int, int)> {
    ps.map_values(|p: Position| p@)
}

/// A walk's result with `prefix` put in front of it.
pub open spec fn prepend(prefix: Seq<(int, int)>, w: Option<Seq<(int, int)>>) -> Option<
    Seq<(int, int)>,
> {
    match w {
        Some(rest) => Some(prefix + rest),
        None => None,
    }
}

fn direction_at(k: usize) -> (d: (i32, i32))
    requires
        k < 8,
    ensures
        (d.0 as int, d.1 as int) == direction(k as int),
        -1 <= d.0 <= 1,
        -1 <= d.1 <= 1,
        d.0 != 0 || d.1 != 0,
{
    if k == 0 {
        (-1, -1)
    } else if k == 1 {
        (-1, 0)
    } else if k == 2 {
        (-1, 1)
    } else if k == 3 {
        (1, -1)
    } else if k == 4 {
        (1, 0)
    } else if k == 5 {
        (1, 1)
    } else if k == 6 {
        (0, 1)
    } else {
        (0, -1)
    }
}

/// The discs that a disc of `color` at `point` turns in one direction.
fn flips_in_direction(field: &Field, point: Position, dx: i32, dy: i32, color: BorW) -> (r: Vec<
    Position,
>)
    requires
        -1 <= dx <= 1,
        -1 <= dy <= 1,
        dx != 0 || dy != 0,
    ensures
        coords(r@) == flips_toward(field@, point@.0, point@.1, dx as int, dy as int, color),
{
    let ghost b = field@;
    let ghost goal = walk(b, point@.0, point@.1, dx as int, dy as int, color);
    let mut passed: Vec<Position> = Vec::new();
    let mut position = point;
    let mut walking = true;
    let mut closed = false;
    proof {
        use_type_invariant(&point);
    }
    assert(prepend(coords(passed@), goal) == goal);
    while walking
        invariant
            b == field@,
            -1 <= dx <= 1,
            -1 <= dy <= 1,
            dx != 0 || dy != 0,
            on_board(position@.0, position@.1),
            goal == walk(b, point@.0, point@.1, dx as int, dy as int, color),
            walking ==> !closed,
            walking ==> goal == prepend(
                coords(passed@),
                walk(b, position@.0, position@.1, dx as int, dy as int, color),
            ),
            !walking ==> goal == (if closed {
                Some(coords(passed@))
            } else {
                None
            }),
        decreases walk_room(position@.0, position@.1, dx as int, dy as int) + (if walking {
            1int
        } else {
            0int
        }),
    {
        match position.shifted(dx, dy) {
            Err(_) => {
                walking = false;
            },
            Ok(p) => {
                let m = field.get(p);
                if m == Masu::Empty {
                        walking = false;
                } else if m == Masu::Putted(color) {
                    closed = true;
                    walking = false;
                } else {
                    let ghost before = coords(passed@);
                    passed.push(p);
                    proof {
                        assert(coords(passed@) =~= before.push(p@));
                        let next = walk(b, p@.0, p@.1, dx as int, dy as int, color);
                        if next is Some {
                            assert(before + (seq![p@] + next->Some_0) =~= before.push(p@)
                                + next->Some_0);
                        }
                    }
                    position = p;
                }
            },
        }
    }
    if closed {
        passed
    } else {
        Vec::new()
    }
}

/// Every disc that a disc of `color` put at `point` turns: along each of the
/// eight directions the unbroken run of the other colour's discs, where a
/// disc of `color` ends it.
pub fn get_reversable(field: &Field, point: Position, color: BorW) -> (r: Vec<Position>)
    ensures
        coords(r@) == reversible(field@, point@.0, point@.1, color),
{
    let mut result: Vec<Position> = Vec::new();
    let mut k: usize = 0;
    while k < 8
        invariant
            k <= 8,
            coords(result@) == reversible_upto(field@, point@.0, point@.1, color, k as int),
        decreases 8 - k,
    {
        let d = direction_at(k);
        let mut passed = flips_in_direction(field, point, d.0, d.1, color);
        let ghost before = coords(result@);
        let ghost added = coords(passed@);
        result.append(&mut passed);
        assert(coords(result@) =~= before + added);
        k = k + 1;
    }
    result
}

/// Whether the rules let `turn` put a disc at `point`.
pub fn check_putable(field: &Field, point: Position, turn: BorW) -> (r: bool)
    ensures
        r == legal_move(field@, point@.0, point@.1, turn),
{
    if field.get(point) != Masu::Empty {
        return false;
    }
    if get_reversable(field, point, turn).len() == 0 {
        return false;
    }
    return true;
}

/// The board after `color` has put a disc at `(x, y)`: that square and every
/// square of `reversible` hold `color`, the others are as they were.
pub open spec fn after_move(b: Seq<Masu>, x: int, y: int, color: BorW) -> Seq<Masu> {
    Seq::new(
        b.len(),
        |i: int|
            if i == cell_index(x, y) || reversible(b, x, y, color).contains((i / 8, i % 8)) {
                Masu::Putted(color)
            } else {
                b[i]
            },
    )
}

proof fn lemma_take_contains<A>(s: Seq<A>, k: int, a: A)
    requires
        0 <= k < s.len(),
    ensures
        s.take(k + 1).contains(a) <==> (s.take(k).contains(a) || a == s[k]),
{
    let shorter = s.take(k);
    let longer = s.take(k + 1);
    if shorter.contains(a) {
        let j = choose|j: int| 0 <= j < shorter.len() && shorter[j] == a;
        assert(longer[j] == a);
    }
    if a == s[k] {
        assert(longer[k] == a);
    }
    if longer.contains(a) {
        let j = choose|j: int| 0 <= j < longer.len() && longer[j] == a;
        if j < k {
            assert(shorter[j] == a);
        }
    }
}

/// Puts a disc of `turn` at `point` and turns every disc that it encloses.
/// Whether the move is legal is for the caller to ask first.
pub fn auto_reverse(field: &mut Field, point: Position, turn: BorW)
    ensures
        final(field)@ == after_move(old(field)@, point@.0, point@.1, turn),
{
    let chain = get_reversable(field, point, turn);
    let ghost b = field@;
    let ghost origin = cell_index(point@.0, point@.1);
    let ghost cs = coords(chain@);
    field.set(point, Masu::Putted(turn));
    let mut k: usize = 0;
    while k < chain.len()
        invariant
            k <= chain.len(),
            b.len() == 64,
            field@.len() == 64,
            cs == coords(chain@),
            forall|i: int|
                0 <= i < 64 ==> #[trigger] field@[i] == (if i == origin || cs.take(
                    k as int,
                ).contains((i / 8, i % 8)) {
                    Masu::Putted(turn)
                } else {
                    b[i]
                }),
        decreases chain.len() - k,
    {
        let p = chain[k];
        let ghost prev = field@;
        field.set(p, Masu::Putted(turn));
        proof {
            assert(cs[k as int] == p@);
            assert forall|i: int| 0 <= i < 64 implies #[trigger] field@[i] == (if i == origin
                || cs.take(k + 1).contains((i / 8, i % 8)) {
                Masu::Putted(turn)
            } else {
                b[i]
            }) by {
                lemma_take_contains(cs, k as int, (i / 8, i % 8));
                assert(prev[i] == (if i == origin || cs.take(k as int).contains((i / 8, i % 8)) {
                    Masu::Putted(turn)
                } else {
                    b[i]
                }));
            }
        }
        k = k + 1;
    }
    assert(cs.take(chain.len() as int) =~= cs);
    assert(field@ =~= after_move(b, point@.0, point@.1, turn));
}

/// A fresh game: the starting board, the cursor in the corner, Black to move.
pub fn create_initial_data() -> (r: (Field, Position, BorW))
    ensures
        r.0@ == initial_board(),
        r.1@ == (0int, 0int),
        r.2 == BorW::Black,
{
    let field = Field::new();
    let cursor = Position::new(0, 0).unwrap();
    let turn = BorW::Black;
    return (field, cursor, turn);
}

/// What the board alone says of the game: it goes on while either colour
/// can move; after that the colour with more discs has won.
pub open spec fn result_of(b: Seq<Masu>) -> GameResult {
    if any_move(b, BorW::White) || any_move(b, BorW::Black) {
        GameResult::Playing
    } else if count_of(b, BorW::Black) == count_of(b, BorW::White) {
        GameResult::Draw
    } else if count_of(b, BorW::Black) > count_of(b, BorW::White) {
        GameResult::Win(BorW::Black)
    } else {
        GameResult::Win(BorW::White)
    }
}

impl Field {
    /// Whether `color` has a legal move anywhere on the board.
    pub fn puttable(&self, color: BorW) -> (r: bool)
        ensures
            r == any_move(self@, color),
    {
        let mut i: i32 = 0;
        while i < 8
            invariant
                0 <= i <= 8,
                forall|x: int, y: int|
                    on_board(x, y) && x < i ==> !#[trigger] legal_move(self@, x, y, color),
            decreases 8 - i,
        {
            let mut j: i32 = 0;
            while j < 8
                invariant
                    0 <= i < 8,
                    0 <= j <= 8,
                    forall|x: int, y: int|
                        on_board(x, y) && (x < i || (x == i && y < j)) ==> !#[trigger] legal_move(
                            self@,
                            x,
                            y,
                            color,
                        ),
                decreases 8 - j,
            {
                let p = Position::new(i, j).unwrap();
                if check_putable(self, p, color) {
                    assert(on_board(i as int, j as int) && legal_move(
                        self@,
                        i as int,
                        j as int,
                        color,
                    ));
                    return true;
                }
                j = j + 1;
            }
            i = i + 1;
        }
        return false;
    }

    /// The state of the game. `Playing` while either colour has a legal move;
    /// once neither has one, `Draw` where both have as many discs, else `Win`
    /// of the colour that has more.
    pub fn get_gameresult(&self) -> (r: GameResult)
        ensures
            r == result_of(self@),
            r == GameResult::Playing <==> (any_move(self@, BorW::White) || any_move(
                self@,
                BorW::Black,
            )),
            r == GameResult::Draw <==> (!any_move(self@, BorW::White) && !any_move(
                self@,
                BorW::Black,
            ) && count_of(self@, BorW::Black) == count_of(self@, BorW::White)),
            forall|c: BorW|
                r == GameResult::Win(c) <==> (!any_move(self@, BorW::White) && !any_move(
                    self@,
                    BorW::Black,
                ) && count_of(self@, c) > count_of(self@, #[trigger] other_color(c))),
    {
        if self.puttable(BorW::White) || self.puttable(BorW::Black) {
            return GameResult::Playing;
        }
        let bcount = self.count(BorW::Black);
        let wcount = self.count(BorW::White);
        if bcount == wcount {
            GameResult::Draw
        } else if bcount > wcount {
            GameResult::Win(BorW::Black)
        } else {
            GameResult::Win(BorW::White)
        }
    }
}

/// 1 where the square `m` holds a disc of `color`, else 0.
pub open spec fn one_if(m: Masu, color: BorW) -> int {
    if m == Masu::Putted(color) {
        1
    } else {
        0
    }
}

/// How many squares of `b` are empty.
pub open spec fn empty_count(b: Seq<Masu>) -> nat
    decreases b.len(),
{
    if b.len() == 0 {
        0
    } else {
        empty_count(b.drop_last()) + if b.last() == Masu::Empty {
            1nat
        } else {
            0nat
        }
    }
}

/// Every square is empty, black or white: the three counts add up to the
/// number of squares.
pub proof fn lemma_counts_fill_the_board(b: Seq<Masu>)
    ensures
        count_of(b, BorW::Black) + count_of(b, BorW::White) + empty_count(b) == b.len(),
    decreases b.len(),
{
    if b.len() > 0 {
        lemma_counts_fill_the_board(b.drop_last());
    }
}

/// Writing one square changes a colour's count by what left and what came.
pub proof fn lemma_count_update(b: Seq<Masu>, i: int, m: Masu, color: BorW)
    requires
        0 <= i < b.len(),
    ensures
        count_of(b.update(i, m), color) == count_of(b, color) - one_if(b[i], color) + one_if(
            m,
            color,
        ),
    decreases b.len(),
{
    if i == b.len() - 1 {
        assert(b.update(i, m).drop_last() =~= b.drop_last());
    } else {
        assert(b.update(i, m).drop_last() =~= b.drop_last().update(i, m));
        lemma_count_update(b.drop_last(), i, m, color);
    }
}

/// A board of empty squares holds no disc.
pub proof fn lemma_count_empty(n: nat, color: BorW)
    ensures
        count_of(Seq::new(n, |i: int| Masu::Empty), color) == 0,
    decreases n,
{
    if n > 0 {
        assert(Seq::new(n, |i: int| Masu::Empty).drop_last() =~= Seq::new(
            (n - 1) as nat,
            |i: int| Masu::Empty,
        ));
        lemma_count_empty((n - 1) as nat, color);
    }
}

/// The starting board holds four discs, two of each colour, on the four
/// squares round the centre.
pub proof fn lemma_initial_board()
    ensures
        initial_board().len() == 64,
        cell(initial_board(), 3, 3) == Masu::Putted(BorW::Black),
        cell(initial_board(), 4, 4) == Masu::Putted(BorW::Black),
        cell(initial_board(), 3, 4) == Masu::Putted(BorW::White),
        cell(initial_board(), 4, 3) == Masu::Putted(BorW::White),
        forall|x: int, y: int|
            on_board(x, y) && !((x == 3 || x == 4) && (y == 3 || y == 4)) ==> #[trigger] cell(
                initial_board(),
                x,
                y,
            ) == Masu::Empty,
        count_of(initial_board(), BorW::Black) == 2,
        count_of(initial_board(), BorW::White) == 2,
{
    let e = Seq::new(64, |i: int| Masu::Empty);
    let b1 = e.update(27, Masu::Putted(BorW::Black));
    let b2 = b1.update(36, Masu::Putted(BorW::Black));
    let b3 = b2.update(28, Masu::Putted(BorW::White));
    let b4 = b3.update(35, Masu::Putted(BorW::White));
    assert(b4 =~= initial_board());
    lemma_count_empty(64, BorW::Black);
    lemma_count_empty(64, BorW::White);
    lemma_count_update(e, 27, Masu::Putted(BorW::Black), BorW::Black);
    lemma_count_update(b1, 36, Masu::Putted(BorW::Black), BorW::Black);
    lemma_count_update(b2, 28, Masu::Putted(BorW::White), BorW::Black);
    lemma_count_update(b3, 35, Masu::Putted(BorW::White), BorW::Black);
    lemma_count_update(e, 27, Masu::Putted(BorW::Black), BorW::White);
    lemma_count_update(b1, 36, Masu::Putted(BorW::Black), BorW::White);
    lemma_count_update(b2, 28, Masu::Putted(BorW::White), BorW::White);
    lemma_count_update(b3, 35, Masu::Putted(BorW::White), BorW::White);
}

/// Where a board differs from another only in squares that now hold
/// `color`, it has no fewer discs of `color` and no more of the other colour.
pub proof fn lemma_count_painted(before: Seq<Masu>, after: Seq<Masu>, color: BorW)
    requires
        before.len() == after.len(),
        forall|i: int|
            0 <= i < before.len() ==> #[trigger] after[i] == before[i] || after[i]
                == Masu::Putted(color),
    ensures
        count_of(after, color) >= count_of(before, color),
        count_of(after, other_color(color)) <= count_of(before, other_color(color)),
    decreases before.len(),
{
    if before.len() > 0 {
        let n = before.len() - 1;
        assert(after[n] == before[n] || after[n] == Masu::Putted(color));
        assert forall|i: int| 0 <= i < before.drop_last().len() implies #[trigger] after.drop_last()[i]
            == before.drop_last()[i] || after.drop_last()[i] == Masu::Putted(color) by {
            assert(after[i] == before[i] || after[i] == Masu::Putted(color));
        }
        lemma_count_painted(before.drop_last(), after.drop_last(), color);
    }
}

/// As `lemma_count_painted`, where the square `j` is one of those that changed:
/// `color` has gained a disc, and the other colour has lost one if it held `j`.
pub proof fn lemma_count_painted_at(before: Seq<Masu>, after: Seq<Masu>, color: BorW, j: int)
    requires
        before.len() == after.len(),
        forall|i: int|
            0 <= i < before.len() ==> #[trigger] after[i] == before[i] || after[i]
                == Masu::Putted(color),
        0 <= j < before.len(),
        before[j] != Masu::Putted(color),
        after[j] == Masu::Putted(color),
    ensures
        count_of(after, color) > count_of(before, color),
        before[j] == Masu::Putted(other_color(color)) ==> count_of(after, other_color(color))
            < count_of(before, other_color(color)),
    decreases before.len(),
{
    let n = before.len() - 1;
    assert(after[n] == before[n] || after[n] == Masu::Putted(color));
    assert forall|i: int| 0 <= i < before.drop_last().len() implies #[trigger] after.drop_last()[i]
        == before.drop_last()[i] || after.drop_last()[i] == Masu::Putted(color) by {
        assert(after[i] == before[i] || after[i] == Masu::Putted(color));
    }
    if j == n {
        lemma_count_painted(before.drop_last(), after.drop_last(), color);
    } else {
        lemma_count_painted_at(before.drop_last(), after.drop_last(), color, j);
    }
}

/// Every square that a walk passes lies on the board and holds a disc of the
/// other colour.
pub proof fn lemma_walk_cells(b: Seq<Masu>, x: int, y: int, dx: int, dy: int, color: BorW)
    ensures
        forall|i: int|
            0 <= i < flips_toward(b, x, y, dx, dy, color).len() ==> {
                let c = #[trigger] flips_toward(b, x, y, dx, dy, color)[i];
                on_board(c.0, c.1) && cell(b, c.0, c.1) == Masu::Putted(other_color(color))
            },
    decreases walk_room(x, y, dx, dy),
{
    let nx = x + dx;
    let ny = y + dy;
    if (dx == 0 && dy == 0) || !on_board(nx, ny) {
    } else if cell(b, nx, ny) == Masu::Empty {
    } else if cell(b, nx, ny) == Masu::Putted(color) {
    } else {
        lemma_walk_cells(b, nx, ny, dx, dy, color);
        match walk(b, nx, ny, dx, dy, color) {
            Some(rest) => {
                assert(flips_toward(b, nx, ny, dx, dy, color) == rest);
                let all = flips_toward(b, x, y, dx, dy, color);
                assert(all == seq![(nx, ny)] + rest);
                assert forall|i: int| 0 <= i < all.len() implies {
                    let c = #[trigger] all[i];
                    on_board(c.0, c.1) && cell(b, c.0, c.1) == Masu::Putted(other_color(color))
                } by {
                    if i > 0 {
                        assert(all[i] == rest[i - 1]);
                    }
                }
            },
            None => {},
        }
    }
}

/// The squares that a walk passes lie one step apart along its direction,
/// and the square after the last of them lies on the board and holds a disc
/// of the walker's colour.
pub proof fn lemma_walk_is_a_closed_run(
    b: Seq<Masu>,
    x: int,
    y: int,
    dx: int,
    dy: int,
    color: BorW,
)
    requires
        walk(b, x, y, dx, dy, color) is Some,
    ensures
        ({
            let s = walk(b, x, y, dx, dy, color)->Some_0;
            let n = s.len() as int;
            &&& forall|k: int| 0 <= k < n ==> #[trigger] s[k] == (x + (k + 1) * dx, y + (k + 1) * dy)
            &&& on_board(x + (n + 1) * dx, y + (n + 1) * dy)
            &&& cell(b, x + (n + 1) * dx, y + (n + 1) * dy) == Masu::Putted(color)
        }),
    decreases walk_room(x, y, dx, dy),
{
    let nx = x + dx;
    let ny = y + dy;
    let s = walk(b, x, y, dx, dy, color)->Some_0;
    assert((0 + 1) * dx == dx && (0 + 1) * dy == dy) by (nonlinear_arith);
    if cell(b, nx, ny) != Masu::Putted(color) {
        lemma_walk_is_a_closed_run(b, nx, ny, dx, dy, color);
        let rest = walk(b, nx, ny, dx, dy, color)->Some_0;
        let m = rest.len() as int;
        assert(s == seq![(nx, ny)] + rest);
        assert(s.len() == m + 1);
        assert(nx + (m + 1) * dx == x + (m + 1 + 1) * dx && ny + (m + 1) * dy == y + (m + 1 + 1)
            * dy) by (nonlinear_arith)
            requires
                nx == x + dx,
                ny == y + dy,
        ;
        assert forall|k: int| 0 <= k < s.len() implies #[trigger] s[k] == (
            x + (k + 1) * dx,
            y + (k + 1) * dy,
        ) by {
            if k > 0 {
                assert(s[k] == rest[k - 1]);
                assert(rest[k - 1] == (nx + (k - 1 + 1) * dx, ny + (k - 1 + 1) * dy));
                assert(nx + (k - 1 + 1) * dx == x + (k + 1) * dx && ny + (k - 1 + 1) * dy == y + (k
                    + 1) * dy) by (nonlinear_arith)
                    requires
                        nx == x + dx,
                        ny == y + dy,
                ;
            } else {
                assert(s[0] == (nx, ny));
            }
        }
    }
}

/// Every disc that a move turns lies on the board and is of the other colour.
pub proof fn lemma_reversible_cells(b: Seq<Masu>, x: int, y: int, color: BorW, k: int)
    ensures
        forall|i: int|
            0 <= i < reversible_upto(b, x, y, color, k).len() ==> {
                let c = #[trigger] reversible_upto(b, x, y, color, k)[i];
                on_board(c.0, c.1) && cell(b, c.0, c.1) == Masu::Putted(other_color(color))
            },
    decreases k,
{
    if k > 0 {
        lemma_reversible_cells(b, x, y, color, k - 1);
        let d = direction(k - 1);
        lemma_walk_cells(b, x, y, d.0, d.1, color);
        let head = reversible_upto(b, x, y, color, k - 1);
        let tail = flips_toward(b, x, y, d.0, d.1, color);
        let all = reversible_upto(b, x, y, color, k);
        assert(all == head + tail);
        assert forall|i: int| 0 <= i < all.len() implies {
            let c = #[trigger] all[i];
            on_board(c.0, c.1) && cell(b, c.0, c.1) == Masu::Putted(other_color(color))
        } by {
            if i < head.len() {
                assert(all[i] == head[i]);
            } else {
                assert(all[i] == tail[i - head.len()]);
            }
        }
    }
}

/// A legal move gains the mover at least one disc and costs the other colour
/// at least one: the mover's count never falls and the other's never rises.
pub proof fn lemma_legal_move_counts(b: Seq<Masu>, x: int, y: int, color: BorW)
    requires
        b.len() == 64,
        on_board(x, y),
        legal_move(b, x, y, color),
    ensures
        count_of(after_move(b, x, y, color), color) > count_of(b, color),
        count_of(after_move(b, x, y, color), other_color(color)) < count_of(
            b,
            other_color(color),
        ),
{
    let a = after_move(b, x, y, color);
    let chain = reversible(b, x, y, color);
    lemma_reversible_cells(b, x, y, color, 8);
    let c = chain[0];
    let j = cell_index(c.0, c.1);
    assert(on_board(c.0, c.1) && cell(b, c.0, c.1) == Masu::Putted(other_color(color)));
    assert((j / 8, j % 8) == c);
    assert(chain.contains((j / 8, j % 8)));
    assert(a[j] == Masu::Putted(color));
    lemma_count_painted_at(b, a, color, j);
    lemma_count_painted_at(b, a, color, cell_index(x, y));
}

} // verus!
