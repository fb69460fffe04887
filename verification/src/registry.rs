//! The server's table of live connections and live games.

use crate::message::{ConnectionID, GameID, GameSummary};
use crate::board::{legal_move, Position};
use crate::session::{
    after_submit, initial_session, try_put, MoveOutcome, ReversiData, SessionView,
};
use vstd::prelude::*;

verus! {

/// Why the table refused a request.
#[derive(Debug, Clone, Copy, PartialEq, Eq, Structural)]
pub enum ServerError {
    /// No game is kept under that number.
    NoSuchGame,
    /// No connection is kept under that number.
    NoSuchConnection,
    /// Every game number is in use.
    CapacityExhausted,
}

/// One connection: its number and the game it is in, if any.
struct ConnectionData {
    id: ConnectionID,
    game_id: Option<GameID>,
}

/// One game and its number.
struct GameEntry {
    id: GameID,
    data: ReversiData,
}

/// The live connections and the live games of a server.
pub struct ServerData {
    connections: Vec<ConnectionData>,
    games: Vec<GameEntry>,
}

/// The table as plain values: each connection with the number of the game
/// it is in, and each game with its number, both in ascending order of number.
pub struct ServerView {
    pub connections: Seq<(u64, Option<u32>)>,
    pub games: Seq<(u32, SessionView)>,
}

/// The connections of `conns` that are in the game `g`, in their order.
pub open spec fn members_in(conns: Seq<(u64, Option<u32>)>, g: u32) -> Seq<u64>
    decreases conns.len(),
{
    if conns.len() == 0 {
        Seq::empty()
    } else if conns.last().1 == Some(g) {
        members_in(conns.drop_last(), g).push(conns.last().0)
    } else {
        members_in(conns.drop_last(), g)
    }
}

/// Whether the connections' numbers ascend strictly.
pub open spec fn connections_ascend(conns: Seq<(u64, Option<u32>)>) -> bool {
    forall|i: int, j: int| 0 <= i < j < conns.len() ==> conns[i].0 < conns[j].0
}

/// Whether the games' numbers ascend strictly from at least 1 and stay
/// below `u32::MAX`.
pub open spec fn games_ascend(games: Seq<(u32, SessionView)>) -> bool {
    &&& forall|i: int, j: int| 0 <= i < j < games.len() ==> games[i].0 < games[j].0
    &&& forall|i: int| 0 <= i < games.len() ==> 1 <= #[trigger] games[i].0 < u32::MAX
}

impl ServerView {
    /// Numbers ascend strictly in both tables, so none occurs twice, and a
    /// game's number is at least 1 and below `u32::MAX`.
    pub open spec fn well_formed(self) -> bool {
        connections_ascend(self.connections) && games_ascend(self.games)
    }

    /// Whether a connection is kept under `c`.
    pub open spec fn has_connection(self, c: u64) -> bool {
        exists|i: int| 0 <= i < self.connections.len() && #[trigger] self.connections[i].0 == c
    }

    /// Where in the table the connection `c` stands.
    pub open spec fn connection_index(self, c: u64) -> int {
        choose|i: int| 0 <= i < self.connections.len() && #[trigger] self.connections[i].0 == c
    }

    /// The game that the connection `c` is in; `None` in the lobby, and for
    /// a number that names no connection.
    pub open spec fn game_of(self, c: u64) -> Option<u32> {
        if self.has_connection(c) {
            self.connections[self.connection_index(c)].1
        } else {
            None
        }
    }

    /// Whether a game is kept under `g`.
    pub open spec fn has_game(self, g: u32) -> bool {
        exists|i: int| 0 <= i < self.games.len() && #[trigger] self.games[i].0 == g
    }

    /// Where in the table the game `g` stands.
    pub open spec fn game_index(self, g: u32) -> int {
        choose|i: int| 0 <= i < self.games.len() && #[trigger] self.games[i].0 == g
    }

    /// The game kept under `g`.
    pub open spec fn session_of(self, g: u32) -> SessionView
        recommends
            self.has_game(g),
    {
        self.games[self.game_index(g)].1
    }

    /// The numbers of all connections, in ascending order.
    pub open spec fn connection_numbers(self) -> Seq<u64> {
        Seq::new(self.connections.len(), |i: int| self.connections[i].0)
    }

    /// The connections that are in the game `g`, in ascending order.
    pub open spec fn members_of(self, g: u32) -> Seq<u64> {
        members_in(self.connections, g)
    }

    /// The line of the game `g` in the list that the connection `c` is sent.
    pub open spec fn summary(self, g: u32, c: u64) -> GameSummary {
        GameSummary {
            id: GameID(g),
            members: self.members_of(g).len() as u32,
            your: self.game_of(c) == Some(g),
        }
    }

    /// The list of games as the connection `c` is sent it: one line for each
    /// game, in ascending order of number.
    pub open spec fn lobby(self, c: u64) -> Seq<GameSummary> {
        Seq::new(self.games.len(), |i: int| self.summary(self.games[i].0, c))
    }
}

/// The numbers of a sequence of connections.
pub open spec fn connection_numbers(cs: Seq<ConnectionID>) -> Seq<u64> {
    cs.map_values(|c: ConnectionID| c.0)
}

/// Whether the game `s` takes a disc at `(x, y)` from the colour whose turn it is.
pub open spec fn put_applies(s: SessionView, x: int, y: int) -> bool {
    legal_move(s.board, x, y, s.turn)
}

/// The game `s` after its cursor was pointed at `(x, y)` and the move there
/// handed in: made where the rules allow it, and else only the cursor has moved.
pub open spec fn after_put(s: SessionView, x: int, y: int) -> SessionView {
    let pointed = SessionView { board: s.board, cursor: (x, y), turn: s.turn };
    if put_applies(s, x, y) {
        after_submit(pointed, x, y)
    } else {
        pointed
    }
}

/// A connection as plain values.
spec fn connection_entry(c: ConnectionData) -> (u64, Option<u32>) {
    (
        c.id.0,
        match c.game_id {
            Some(g) => Some(g.0),
            None => None,
        },
    )
}

/// A game as plain values.
spec fn game_entry(e: GameEntry) -> (u32, SessionView) {
    (e.id.0, e.data@)
}

impl View for ServerData {
    type V = ServerView;

    closed spec fn view(&self) -> ServerView {
        ServerView {
            connections: self.connections@.map_values(|c: ConnectionData| connection_entry(c)),
            games: self.games@.map_values(|e: GameEntry| game_entry(e)),
        }
    }
}

impl ServerData {
    /// A table with no connection and no game.
    pub fn new() -> (r: Self)
        ensures
            r@.well_formed(),
            r@.connections.len() == 0,
            r@.games.len() == 0,
    {
        ServerData { connections: Vec::new(), games: Vec::new() }
    }

    /// How many connections are live.
    pub fn connection_count(&self) -> (n: usize)
        ensures
            n == self@.connections.len(),
    {
        self.connections.len()
    }

    /// How many games are live.
    pub fn game_count(&self) -> (n: usize)
        ensures
            n == self@.games.len(),
    {
        self.games.len()
    }

    /// Takes in a new connection, which starts in the lobby, under the least
    /// number that is not in use.
    pub fn connect(&mut self) -> (id: ConnectionID)
        requires
            old(self)@.well_formed(),
        ensures
            final(self)@.well_formed(),
            !old(self)@.has_connection(id.0),
            forall|c: u64| c < id.0 ==> old(self)@.has_connection(c),
            final(self)@.games == old(self)@.games,
            final(self)@.connections == old(self)@.connections.insert(
                id.0 as int,
                (id.0, None),
            ),
            final(self)@.has_connection(id.0),
            final(self)@.game_of(id.0) is None,
    {
        let ghost before = self@;
        let mut i: usize = 0;
        while i < self.connections.len() && self.connections[i].id.0 == i as u64
            invariant
                self@ == before,
                i <= self.connections.len(),
                forall|k: int| 0 <= k < i ==> #[trigger] before.connections[k].0 == k,
            decreases self.connections.len() - i,
        {
            i = i + 1;
        }
        let id = ConnectionID(i as u64);
        proof {
            assert forall|k: int| i <= k < before.connections.len() implies #[trigger] before.connections[k].0
                > i by {
                if i > 0 {
                    assert(before.connections[i - 1].0 == i - 1);
                    assert(before.connections[i - 1].0 < before.connections[i as int].0);
                }
                assert(before.connections[i as int].0 != i);
                if k > i {
                    assert(before.connections[i as int].0 < before.connections[k].0);
                }
            }
            assert forall|c: u64| c < id.0 implies before.has_connection(c) by {
                assert(before.connections[c as int].0 == c);
            }
        }
        self.connections.insert(i, ConnectionData { id, game_id: None });
        proof {
            let after = self@;
            assert(after.connections =~= before.connections.insert(i as int, (id.0, None)));
            assert(after.connections[i as int].0 == id.0);
            assert(after.has_connection(id.0));
            let j = after.connection_index(id.0);
            assert(after.connections[j].0 == id.0);
            assert(j == i) by {
                if j < i {
                    assert(after.connections[j] == before.connections[j]);
                } else if j > i {
                    assert(after.connections[j] == before.connections[j - 1]);
                }
            }
            assert forall|a: int, b: int| 0 <= a < b < after.connections.len() implies after.connections[a].0
                < after.connections[b].0 by {
                let ka = if a < i {
                    a
                } else {
                    a - 1
                };
                let kb = if b < i {
                    b
                } else {
                    b - 1
                };
                if a != i {
                    assert(after.connections[a] == before.connections[ka]);
                }
                if b != i {
                    assert(after.connections[b] == before.connections[kb]);
                }
                if a != i && b != i {
                    assert(before.connections[ka].0 < before.connections[kb].0);
                }
            }
        }
        id
    }

    /// Drops the connection `c`. Games stay, also those that nobody is in
    /// any more.
    pub fn disconnect(&mut self, c: ConnectionID)
        requires
            old(self)@.well_formed(),
        ensures
            final(self)@.well_formed(),
            final(self)@.games == old(self)@.games,
            old(self)@.has_connection(c.0) ==> final(self)@.connections
                == old(self)@.connections.remove(old(self)@.connection_index(c.0)),
            !old(self)@.has_connection(c.0) ==> final(self)@ == old(self)@,
            !final(self)@.has_connection(c.0),
    {
        let ghost before = self@;
        match self.find_connection(c) {
            None => {},
            Some(i) => {
                self.connections.remove(i);
                proof {
                    let after = self@;
                    assert(after.connections =~= before.connections.remove(i as int));
                    assert forall|a: int, b: int|
                        0 <= a < b < after.connections.len() implies after.connections[a].0
                        < after.connections[b].0 by {
                        let ka = if a < i {
                            a
                        } else {
                            a + 1
                        };
                        let kb = if b < i {
                            b
                        } else {
                            b + 1
                        };
                        assert(after.connections[a] == before.connections[ka]);
                        assert(after.connections[b] == before.connections[kb]);
                        assert(before.connections[ka].0 < before.connections[kb].0);
                    }
                    assert forall|a: int| 0 <= a < after.connections.len() implies #[trigger] after.connections[a].0
                        != c.0 by {
                        let ka = if a < i {
                            a
                        } else {
                            a + 1
                        };
                        assert(after.connections[a] == before.connections[ka]);
                        assert(before.connections[i as int].0 == c.0);
                        if ka < i {
                            assert(before.connections[ka].0 < before.connections[i as int].0);
                        } else {
                            assert(before.connections[i as int].0 < before.connections[ka].0);
                        }
                    }
                }
            },
        }
    }

    /// Puts the connection `c` into the game `g`.
    pub fn join_game(&mut self, c: ConnectionID, g: GameID) -> (r: Result<(), ServerError>)
        requires
            old(self)@.well_formed(),
        ensures
            final(self)@.well_formed(),
            final(self)@.games == old(self)@.games,
            !old(self)@.has_game(g.0) ==> r == Err::<(), ServerError>(ServerError::NoSuchGame),
            old(self)@.has_game(g.0) && !old(self)@.has_connection(c.0) ==> r == Err::<
                (),
                ServerError,
            >(ServerError::NoSuchConnection),
            old(self)@.has_game(g.0) && old(self)@.has_connection(c.0) ==> r is Ok,
            r is Ok ==> final(self)@.connections == old(self)@.connections.update(
                old(self)@.connection_index(c.0),
                (c.0, Some(g.0)),
            ) && final(self)@.game_of(c.0) == Some(g.0),
            r is Err ==> final(self)@ == old(self)@,
    {
        let ghost before = self@;
        if self.find_game(g).is_none() {
            return Err(ServerError::NoSuchGame);
        }
        match self.find_connection(c) {
            None => Err(ServerError::NoSuchConnection),
            Some(i) => {
                self.connections[i].game_id = Some(g);
                proof {
                    let after = self@;
                    assert(before.connections[i as int].0 == c.0);
                    assert(after.connections =~= before.connections.update(
                        i as int,
                        (c.0, Some(g.0)),
                    ));
                    assert(after.connections[i as int].0 == c.0);
                    assert forall|a: int, b: int|
                        0 <= a < b < after.connections.len() implies after.connections[a].0
                        < after.connections[b].0 by {
                        assert(after.connections[a].0 == before.connections[a].0);
                        assert(after.connections[b].0 == before.connections[b].0);
                    }
                    let j = after.connection_index(c.0);
                    assert(after.connections[j].0 == c.0);
                    assert(!(i < j) && !(j < i));
                }
                Ok(())
            },
        }
    }

    /// The game that the connection `c` is in, if it is in one.
    pub fn current_game(&self, c: ConnectionID) -> (r: Option<GameID>)
        requires
            self@.well_formed(),
        ensures
            r is Some <==> self@.game_of(c.0) is Some,
            r is Some ==> self@.game_of(c.0) == Some(r->Some_0.0),
    {
        match self.find_connection(c) {
            None => None,
            Some(i) => {
                assert(self@.connections[i as int] == connection_entry(self.connections[i as int]));
                self.connections[i].game_id
            },
        }
    }

    /// The game kept under `g`, if there is one.
    pub fn session(&self, g: GameID) -> (r: Option<ReversiData>)
        requires
            self@.well_formed(),
        ensures
            r is Some <==> self@.has_game(g.0),
            r is Some ==> r->Some_0@ == self@.session_of(g.0),
    {
        match self.find_game(g) {
            None => None,
            Some(i) => {
                assert(self@.games[i as int] == game_entry(self.games[i as int]));
                Some(self.games[i].data)
            },
        }
    }

    /// Starts the game `g` over. Returns whether there is such a game.
    pub fn reset_game(&mut self, g: GameID) -> (r: bool)
        requires
            old(self)@.well_formed(),
        ensures
            final(self)@.well_formed(),
            final(self)@.connections == old(self)@.connections,
            r == old(self)@.has_game(g.0),
            r ==> final(self)@.games == old(self)@.games.update(
                old(self)@.game_index(g.0),
                (g.0, initial_session()),
            ),
            r ==> final(self)@.has_game(g.0) && final(self)@.session_of(g.0) == initial_session(),
            !r ==> final(self)@ == old(self)@,
    {
        let ghost before = self@;
        match self.find_game(g) {
            None => false,
            Some(i) => {
                self.games[i].data = ReversiData::new();
                proof {
                    let after = self@;
                    assert(before.games[i as int].0 == g.0);
                    assert(after.games =~= before.games.update(
                        i as int,
                        (g.0, initial_session()),
                    ));
                    lemma_update_keeps_order(before, after, i as int);
                    after.lemma_game_at(i as int);
                }
                true
            },
        }
    }

    /// Points the cursor of the game `g` at `p` and hands in the move
    /// there for the colour whose turn it is. Returns what became of the
    /// move, or `None` where there is no such game.
    pub fn put_in_game(&mut self, g: GameID, p: Position) -> (r: Option<MoveOutcome>)
        requires
            old(self)@.well_formed(),
        ensures
            final(self)@.well_formed(),
            final(self)@.connections == old(self)@.connections,
            r is Some <==> old(self)@.has_game(g.0),
            r is Some ==> final(self)@.games == old(self)@.games.update(
                old(self)@.game_index(g.0),
                (g.0, after_put(old(self)@.session_of(g.0), p@.0, p@.1)),
            ),
            r is Some ==> final(self)@.has_game(g.0) && final(self)@.session_of(g.0) == after_put(
                old(self)@.session_of(g.0),
                p@.0,
                p@.1,
            ),
            r is Some ==> (r->Some_0 == MoveOutcome::Applied <==> put_applies(
                old(self)@.session_of(g.0),
                p@.0,
                p@.1,
            )),
            r is Some ==> (r->Some_0 == MoveOutcome::Rejected <==> !put_applies(
                old(self)@.session_of(g.0),
                p@.0,
                p@.1,
            )),
            r is None ==> final(self)@ == old(self)@,
    {
        let ghost before = self@;
        match self.find_game(g) {
            None => None,
            Some(i) => {
                assert(before.games[i as int] == game_entry(self.games[i as int]));
                let mut data = self.games[i].data;
                data.cursor = p;
                let outcome = try_put(&mut data);
                self.games[i].data = data;
                proof {
                    let after = self@;
                    assert(after.games =~= before.games.update(
                        i as int,
                        (g.0, after_put(before.session_of(g.0), p@.0, p@.1)),
                    ));
                    lemma_update_keeps_order(before, after, i as int);
                    after.lemma_game_at(i as int);
                }
                Some(outcome)
            },
        }
    }

    /// The connections that are in the game `g`, in ascending order.
    pub fn session_members(&self, g: GameID) -> (r: Vec<ConnectionID>)
        ensures
            connection_numbers(r@) == self@.members_of(g.0),
    {
        let mut out: Vec<ConnectionID> = Vec::new();
        let mut i: usize = 0;
        assert(self@.connections.take(0) =~= Seq::<(u64, Option<u32>)>::empty());
        assert(connection_numbers(out@) =~= Seq::<u64>::empty());
        while i < self.connections.len()
            invariant
                i <= self.connections.len(),
                connection_numbers(out@) == members_in(self@.connections.take(i as int), g.0),
            decreases self.connections.len() - i,
        {
            let ghost upto = self@.connections.take(i + 1);
            assert(upto.drop_last() =~= self@.connections.take(i as int));
            assert(upto.last() == connection_entry(self.connections[i as int]));
            let ghost found = connection_numbers(out@);
            match self.connections[i].game_id {
                Some(h) => {
                    if h.0 == g.0 {
                        out.push(self.connections[i].id);
                        assert(connection_numbers(out@) =~= found.push(upto.last().0));
                    }
                },
                None => {},
            }
            i = i + 1;
        }
        assert(self@.connections.take(self.connections.len() as int) =~= self@.connections);
        out
    }

    /// How many connections are in the game `g`.
    pub fn member_count(&self, g: GameID) -> (n: usize)
        ensures
            n == self@.members_of(g.0).len(),
    {
        let mut n: usize = 0;
        let mut i: usize = 0;
        assert(self@.connections.take(0) =~= Seq::<(u64, Option<u32>)>::empty());
        while i < self.connections.len()
            invariant
                i <= self.connections.len(),
                n <= i,
                n == members_in(self@.connections.take(i as int), g.0).len(),
            decreases self.connections.len() - i,
        {
            let ghost upto = self@.connections.take(i + 1);
            assert(upto.drop_last() =~= self@.connections.take(i as int));
            assert(upto.last() == connection_entry(self.connections[i as int]));
            match self.connections[i].game_id {
                Some(h) => {
                    if h.0 == g.0 {
                        n = n + 1;
                    }
                },
                None => {},
            }
            i = i + 1;
        }
        assert(self@.connections.take(self.connections.len() as int) =~= self@.connections);
        n
    }

    /// Whether the table is well formed. Every table that `new` made and
    /// the functions of this library changed is.
    pub fn is_well_formed(&self) -> (r: bool)
        ensures
            r == self@.well_formed(),
    {
        let mut i: usize = 1;
        while i < self.connections.len()
            invariant
                1 <= i,
                forall|a: int, b: int|
                    0 <= a < b < i && b < self@.connections.len() ==> self@.connections[a].0
                        < self@.connections[b].0,
            decreases self.connections.len() - i,
        {
            if self.connections[i - 1].id.0 >= self.connections[i].id.0 {
                assert(!(self@.connections[i - 1].0 < self@.connections[i as int].0));
                return false;
            }
            assert forall|a: int, b: int|
                0 <= a < b < i + 1 && b < self@.connections.len() implies self@.connections[a].0
                < self@.connections[b].0 by {
                if b == i && a < i - 1 {
                    assert(self@.connections[a].0 < self@.connections[i - 1].0);
                }
            }
            i = i + 1;
        }
        let mut j: usize = 0;
        while j < self.games.len()
            invariant
                j <= self.games.len(),
                forall|a: int, b: int|
                    0 <= a < b < j ==> self@.games[a].0 < self@.games[b].0,
                forall|a: int| 0 <= a < j ==> 1 <= #[trigger] self@.games[a].0 < u32::MAX,
            decreases self.games.len() - j,
        {
            let id = self.games[j].id.0;
            assert(self@.games[j as int].0 == id);
            if id < 1 || id >= u32::MAX {
                return false;
            }
            if j > 0 && self.games[j - 1].id.0 >= id {
                assert(!(self@.games[j - 1].0 < self@.games[j as int].0));
                return false;
            }
            assert forall|a: int, b: int| 0 <= a < b < j + 1 implies self@.games[a].0
                < self@.games[b].0 by {
                if b == j && a < j - 1 {
                    assert(self@.games[a].0 < self@.games[j - 1].0);
                }
            }
            j = j + 1;
        }
        true
    }

    /// Whether a connection is kept under `c`.
    pub fn is_connected(&self, c: ConnectionID) -> (r: bool)
        requires
            self@.well_formed(),
        ensures
            r == self@.has_connection(c.0),
    {
        self.find_connection(c).is_some()
    }

    /// The numbers of all connections, in ascending order.
    pub fn connection_ids(&self) -> (r: Vec<ConnectionID>)
        ensures
            connection_numbers(r@) == self@.connection_numbers(),
    {
        let mut out: Vec<ConnectionID> = Vec::new();
        let mut i: usize = 0;
        while i < self.connections.len()
            invariant
                i <= self.connections.len(),
                out@.len() == i,
                forall|k: int| 0 <= k < i ==> #[trigger] out@[k].0 == self@.connections[k].0,
            decreases self.connections.len() - i,
        {
            out.push(self.connections[i].id);
            i = i + 1;
        }
        assert(connection_numbers(out@) =~= self@.connection_numbers());
        out
    }

    /// Where the connection `c` stands in the table, if it is there.
    fn find_connection(&self, c: ConnectionID) -> (r: Option<usize>)
        requires
            self@.well_formed(),
        ensures
            r is Some <==> self@.has_connection(c.0),
            r is Some ==> r->Some_0 == self@.connection_index(c.0) && r->Some_0
                < self.connections.len(),
    {
        let mut i: usize = 0;
        while i < self.connections.len()
            invariant
                self@.well_formed(),
                i <= self.connections.len(),
                forall|k: int| 0 <= k < i ==> #[trigger] self@.connections[k].0 != c.0,
            decreases self.connections.len() - i,
        {
            if self.connections[i].id.0 == c.0 {
                proof {
                    let j = self@.connection_index(c.0);
                    assert(self@.connections[i as int].0 == c.0);
                    assert(self@.connections[j].0 == c.0);
                    assert(!(i < j) && !(j < i));
                }
                return Some(i);
            }
            i = i + 1;
        }
        None
    }

    /// Where the game `g` stands in the table, if it is there.
    fn find_game(&self, g: GameID) -> (r: Option<usize>)
        requires
            self@.well_formed(),
        ensures
            r is Some <==> self@.has_game(g.0),
            r is Some ==> r->Some_0 == self@.game_index(g.0) && r->Some_0 < self.games.len(),
    {
        let mut i: usize = 0;
        while i < self.games.len()
            invariant
                self@.well_formed(),
                i <= self.games.len(),
                forall|k: int| 0 <= k < i ==> #[trigger] self@.games[k].0 != g.0,
            decreases self.games.len() - i,
        {
            if self.games[i].id.0 == g.0 {
                proof {
                    let j = self@.game_index(g.0);
                    assert(self@.games[i as int].0 == g.0);
                    assert(self@.games[j].0 == g.0);
                    assert(!(i < j) && !(j < i));
                }
                return Some(i);
            }
            i = i + 1;
        }
        None
    }
}

/// Opens a new game under the least number from 1 on that is not in use.
/// The numbers end below `u32::MAX`; where all of them are in use nothing
/// changes and the error says so.
pub fn add_new_game(server_data: &mut ServerData) -> (r: Result<GameID, ServerError>)
    requires
        old(server_data)@.well_formed(),
    ensures
        final(server_data)@.well_formed(),
        final(server_data)@.connections == old(server_data)@.connections,
        r is Err <==> (forall|h: u32| 1 <= h < u32::MAX ==> old(server_data)@.has_game(h)),
        r is Err ==> r == Err::<GameID, ServerError>(ServerError::CapacityExhausted),
        r is Err ==> final(server_data)@ == old(server_data)@,
        r is Ok ==> {
            let g = r->Ok_0.0;
            &&& 1 <= g < u32::MAX
            &&& !old(server_data)@.has_game(g)
            &&& forall|h: u32| 1 <= h < g ==> old(server_data)@.has_game(h)
            &&& final(server_data)@.games == old(server_data)@.games.insert(
                g - 1,
                (g, initial_session()),
            )
            &&& final(server_data)@.has_game(g)
            &&& final(server_data)@.session_of(g) == initial_session()
        },
{
    let ghost before = server_data@;
    let mut i: usize = 0;
    while i < server_data.games.len() && server_data.games[i].id.0 as usize == i + 1
        invariant
            server_data@ == before,
            before.well_formed(),
            i <= server_data.games.len(),
            forall|k: int| 0 <= k < i ==> #[trigger] before.games[k].0 == k + 1,
        decreases server_data.games.len() - i,
    {
        i = i + 1;
    }
    proof {
        assert forall|h: u32| 1 <= h <= i implies before.has_game(h) by {
            assert(before.games[h - 1].0 == h);
        }
        if i > 0 {
            assert(before.games[i - 1].0 == i);
        }
    }
    if i >= 0xffff_fffe {
        return Err(ServerError::CapacityExhausted);
    }
    let id = GameID((i + 1) as u32);
    proof {
        assert forall|k: int| i <= k < before.games.len() implies #[trigger] before.games[k].0 > i
            + 1 by {
            if i > 0 {
                assert(before.games[i - 1].0 < before.games[i as int].0);
            }
            assert(1 <= before.games[i as int].0);
            assert(before.games[i as int].0 != i + 1);
            if k > i {
                assert(before.games[i as int].0 < before.games[k].0);
            }
        }
        assert(!before.has_game(id.0));
    }
    server_data.games.insert(i, GameEntry { id, data: ReversiData::new() });
    proof {
        let after = server_data@;
        assert(after.games =~= before.games.insert(i as int, (id.0, initial_session())));
        assert(after.connections == before.connections);
        assert(after.games[i as int].0 == id.0);
        let j = after.game_index(id.0);
        assert(after.games[j].0 == id.0);
        assert(j == i) by {
            if j < i {
                assert(after.games[j] == before.games[j]);
            } else if j > i {
                assert(after.games[j] == before.games[j - 1]);
            }
        }
        assert forall|a: int, b: int| 0 <= a < b < after.games.len() implies after.games[a].0
            < after.games[b].0 by {
            let ka = if a < i {
                a
            } else {
                a - 1
            };
            let kb = if b < i {
                b
            } else {
                b - 1
            };
            if a != i {
                assert(after.games[a] == before.games[ka]);
            }
            if b != i {
                assert(after.games[b] == before.games[kb]);
            }
            if a != i && b != i {
                assert(before.games[ka].0 < before.games[kb].0);
            }
        }
        assert forall|a: int| 0 <= a < after.games.len() implies 1 <= #[trigger] after.games[a].0
            < u32::MAX by {
            let ka = if a < i {
                a
            } else {
                a - 1
            };
            if a != i {
                assert(after.games[a] == before.games[ka]);
                assert(1 <= before.games[ka].0 < u32::MAX);
            }
        }
    }
    Ok(id)
}

/// The list of games as the connection `addr` is sent it: for each game, in
/// ascending order of number, how many connections are in it and whether
/// `addr` is one of them.
pub fn get_game_summary_list(server_data: &ServerData, addr: ConnectionID) -> (r: Vec<
    GameSummary,
>)
    requires
        server_data@.well_formed(),
    ensures
        r@ == server_data@.lobby(addr.0),
{
    let own = server_data.current_game(addr);
    let mut gs: Vec<GameSummary> = Vec::new();
    let mut i: usize = 0;
    while i < server_data.games.len()
        invariant
            server_data@.well_formed(),
            i <= server_data.games.len(),
            own is Some <==> server_data@.game_of(addr.0) is Some,
            own is Some ==> server_data@.game_of(addr.0) == Some(own->Some_0.0),
            gs@.len() == i,
            forall|k: int|
                0 <= k < i ==> #[trigger] gs@[k] == server_data@.summary(
                    server_data@.games[k].0,
                    addr.0,
                ),
        decreases server_data.games.len() - i,
    {
        let id = server_data.games[i].id;
        assert(server_data@.games[i as int] == game_entry(server_data.games[i as int]));
        let count = server_data.member_count(id);
        let your = match own {
            Some(g) => g.0 == id.0,
            None => false,
        };
        gs.push(GameSummary { id, members: #[verifier::truncate] (count as u32), your });
        i = i + 1;
    }
    assert(gs@ =~= server_data@.lobby(addr.0));
    gs
}

impl ServerView {
    /// A connection's number says where it stands: no number occurs twice.
    pub proof fn lemma_connection_at(self, i: int)
        requires
            self.well_formed(),
            0 <= i < self.connections.len(),
        ensures
            self.has_connection(self.connections[i].0),
            self.connection_index(self.connections[i].0) == i,
            self.game_of(self.connections[i].0) == self.connections[i].1,
    {
        let c = self.connections[i].0;
        let j = self.connection_index(c);
        assert(self.connections[j].0 == c);
        assert(!(i < j) && !(j < i));
    }

    /// A game's number says where it stands: no number occurs twice.
    pub proof fn lemma_game_at(self, i: int)
        requires
            self.well_formed(),
            0 <= i < self.games.len(),
        ensures
            self.has_game(self.games[i].0),
            self.game_index(self.games[i].0) == i,
            self.session_of(self.games[i].0) == self.games[i].1,
    {
        let g = self.games[i].0;
        let j = self.game_index(g);
        assert(self.games[j].0 == g);
        assert(!(i < j) && !(j < i));
    }

    /// The members of a game are the connections whose game it is, all of
    /// them and no other.
    pub proof fn lemma_members_exact(self, g: u32, c: u64)
        requires
            self.well_formed(),
        ensures
            self.members_of(g).contains(c) <==> self.has_connection(c) && self.game_of(c)
                == Some(g),
    {
        if self.members_of(g).contains(c) {
            let i = choose|i: int| 0 <= i < self.members_of(g).len() && self.members_of(g)[i] == c;
            lemma_members_in(self.connections, g, i);
            let k = choose|k: int|
                0 <= k < self.connections.len() && #[trigger] self.connections[k] == (
                    c,
                    Some(g),
                );
            self.lemma_connection_at(k);
        }
        if self.has_connection(c) && self.game_of(c) == Some(g) {
            let k = self.connection_index(c);
            assert(self.connections[k].0 == c);
            lemma_members_complete(self.connections, g, k);
        }
    }
}

/// Every connection that `members_in` lists stands in the table and is in
/// the game.
pub proof fn lemma_members_in(conns: Seq<(u64, Option<u32>)>, g: u32, i: int)
    requires
        0 <= i < members_in(conns, g).len(),
    ensures
        exists|k: int|
            0 <= k < conns.len() && #[trigger] conns[k] == (members_in(conns, g)[i], Some(g)),
    decreases conns.len(),
{
    if conns.len() > 0 {
        let rest = members_in(conns.drop_last(), g);
        if i < rest.len() {
            lemma_members_in(conns.drop_last(), g, i);
            let k = choose|k: int|
                0 <= k < conns.drop_last().len() && #[trigger] conns.drop_last()[k] == (
                    rest[i],
                    Some(g),
                );
            assert(conns[k] == (members_in(conns, g)[i], Some(g)));
        } else {
            assert(conns[conns.len() - 1] == (members_in(conns, g)[i], Some(g)));
        }
    }
}

/// Every connection of the table that is in the game `g` is listed by
/// `members_in`.
pub proof fn lemma_members_complete(conns: Seq<(u64, Option<u32>)>, g: u32, k: int)
    requires
        0 <= k < conns.len(),
        conns[k].1 == Some(g),
    ensures
        members_in(conns, g).contains(conns[k].0),
    decreases conns.len(),
{
    let rest = members_in(conns.drop_last(), g);
    let all = members_in(conns, g);
    if k == conns.len() - 1 {
        assert(all[all.len() - 1] == conns[k].0);
    } else {
        lemma_members_complete(conns.drop_last(), g, k);
        let i = choose|i: int| 0 <= i < rest.len() && rest[i] == conns.drop_last()[k].0;
        assert(all[i] == conns[k].0);
    }
}

/// A table stays well formed where one game is replaced under its number.
proof fn lemma_update_keeps_order(before: ServerView, after: ServerView, i: int)
    requires
        before.well_formed(),
        after.connections == before.connections,
        0 <= i < before.games.len(),
        after.games.len() == before.games.len(),
        forall|k: int| 0 <= k < before.games.len() ==> #[trigger] after.games[k].0 == before.games[k].0,
    ensures
        after.well_formed(),
{
    assert forall|a: int, b: int| 0 <= a < b < after.games.len() implies after.games[a].0
        < after.games[b].0 by {
        assert(after.games[a].0 == before.games[a].0);
        assert(after.games[b].0 == before.games[b].0);
    }
    assert forall|a: int| 0 <= a < after.games.len() implies 1 <= #[trigger] after.games[a].0
        < u32::MAX by {
        assert(after.games[a].0 == before.games[a].0);
    }
}

} // verus!
