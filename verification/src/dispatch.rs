//! What the server does with each request of a client: how the table
//! changes, and which messages go to which connections.

use crate::board::Position;
use crate::message::{
    pushes_view, ClientMessage, ConnectionID, GameID, MessageView, Push, PushView, ServerMessage,
};
use crate::registry::{
    add_new_game, after_put, connection_numbers, get_game_summary_list, ServerData, ServerError,
    ServerView,
};
use crate::session::{initial_session, SessionView};
use vstd::prelude::*;

verus! {

/// The list of games, sent to the connection `c`.
pub open spec fn lobby_push(s: ServerView, c: u64) -> PushView {
    PushView { to: c, message: MessageView::GameList(s.lobby(c)) }
}

/// The state of the game `g`, sent to the connection `c`.
pub open spec fn view_push(s: ServerView, g: u32, c: u64) -> PushView {
    PushView { to: c, message: MessageView::View(s.session_of(g)) }
}

/// The list of games sent to every connection, each with its own list, in
/// ascending order of the connections' numbers.
pub open spec fn lobby_pushes(s: ServerView) -> Seq<PushView> {
    Seq::new(s.connections.len(), |i: int| lobby_push(s, s.connections[i].0))
}

/// The state of the game `g` sent to every connection that is in it, and to
/// no other, in ascending order of the connections' numbers.
pub open spec fn view_pushes(s: ServerView, g: u32) -> Seq<PushView> {
    Seq::new(s.members_of(g).len(), |i: int| view_push(s, g, s.members_of(g)[i]))
}

/// The least game number from 1 on that is not in use.
pub open spec fn least_free_game(s: ServerView) -> u32 {
    choose|g: u32| is_least_free_game(s, g)
}

/// Whether `g` is the least game number from 1 on that is not in use.
pub open spec fn is_least_free_game(s: ServerView, g: u32) -> bool {
    &&& 1 <= g < u32::MAX
    &&& !s.has_game(g)
    &&& forall|h: u32| 1 <= h < g ==> s.has_game(h)
}

/// Whether every game number is in use.
pub open spec fn games_exhausted(s: ServerView) -> bool {
    forall|h: u32| 1 <= h < u32::MAX ==> s.has_game(h)
}

/// The table `s` with the connection `c` put into the game `g`.
pub open spec fn with_reference(s: ServerView, c: u64, g: u32) -> ServerView {
    ServerView {
        connections: s.connections.update(s.connection_index(c), (c, Some(g))),
        games: s.games,
    }
}

/// The table `s` with `session` in the place of the game `g`.
pub open spec fn with_session(s: ServerView, g: u32, session: SessionView) -> ServerView {
    ServerView { connections: s.connections, games: s.games.update(s.game_index(g), (g, session)) }
}

/// A request for the list of games: the list goes to the connection that
/// asked, and nothing changes.
pub open spec fn serves_session_list(s: ServerView, c: u64, pushes: Seq<PushView>) -> bool {
    pushes == if s.has_connection(c) {
        seq![lobby_push(s, c)]
    } else {
        Seq::empty()
    }
}

/// A request to enter the game `g`. Where the game and the connection
/// exist, the connection is put into the game, is sent the game's state, and
/// every connection is sent the list of games anew. Else nothing happens.
pub open spec fn serves_select(
    before: ServerView,
    after: ServerView,
    c: u64,
    g: u32,
    pushes: Seq<PushView>,
) -> bool {
    if before.has_game(g) && before.has_connection(c) {
        &&& after == with_reference(before, c, g)
        &&& pushes == seq![view_push(after, g, c)] + lobby_pushes(after)
    } else {
        &&& after == before
        &&& pushes == Seq::<PushView>::empty()
    }
}

/// A request to open a game. For a connection that does not exist nothing
/// happens. Where every number is in use the request fails and nothing
/// changes. Else a fresh game is opened under the least free number, the
/// connection is put into it and sent its state, and every connection is sent
/// the list of games anew.
pub open spec fn serves_create(
    before: ServerView,
    after: ServerView,
    c: u64,
    outcome: Result<Seq<PushView>, ServerError>,
) -> bool {
    if !before.has_connection(c) {
        &&& after == before
        &&& outcome == Ok::<Seq<PushView>, ServerError>(Seq::empty())
    } else if games_exhausted(before) {
        &&& after == before
        &&& outcome == Err::<Seq<PushView>, ServerError>(ServerError::CapacityExhausted)
    } else {
        let g = least_free_game(before);
        let opened = ServerView {
            connections: before.connections,
            games: before.games.insert(g - 1, (g, initial_session())),
        };
        &&& after == with_reference(opened, c, g)
        &&& outcome == Ok::<Seq<PushView>, ServerError>(
            seq![view_push(after, g, c)] + lobby_pushes(after),
        )
    }
}

/// The game that a request of the connection `c` is about: the one that `c`
/// is in, if `c` is in one and the game exists.
pub open spec fn game_in_play(s: ServerView, c: u64) -> Option<u32> {
    match s.game_of(c) {
        Some(g) => if s.has_game(g) {
            Some(g)
        } else {
            None
        },
        None => None,
    }
}

/// A request to put a disc at `(x, y)`. In the game that the connection is
/// in, the cursor goes there and the move is made if the rules allow it; no
/// other game and no connection changes. Whether or not the move was made,
/// the game's state then goes to every connection that is in that game, and
/// to no other. A connection that is in no game gets nothing done.
pub open spec fn serves_put(
    before: ServerView,
    after: ServerView,
    c: u64,
    x: int,
    y: int,
    pushes: Seq<PushView>,
) -> bool {
    match game_in_play(before, c) {
        Some(g) => {
            &&& after == with_session(before, g, after_put(before.session_of(g), x, y))
            &&& pushes == view_pushes(after, g)
        },
        None => {
            &&& after == before
            &&& pushes == Seq::<PushView>::empty()
        },
    }
}

/// A request to start over. The game that the connection is in begins
/// anew; no other game and no connection changes; the game's state goes to
/// every connection that is in that game, and to no other.
pub open spec fn serves_reset(
    before: ServerView,
    after: ServerView,
    c: u64,
    pushes: Seq<PushView>,
) -> bool {
    match game_in_play(before, c) {
        Some(g) => {
            &&& after == with_session(before, g, initial_session())
            &&& pushes == view_pushes(after, g)
        },
        None => {
            &&& after == before
            &&& pushes == Seq::<PushView>::empty()
        },
    }
}

/// The list of games for every connection.
fn push_lobby_to_all(server_data: &ServerData, out: &mut Vec<Push>)
    requires
        server_data@.well_formed(),
    ensures
        pushes_view(final(out)@) == pushes_view(old(out)@) + lobby_pushes(server_data@),
{
    let ids = server_data.connection_ids();
    let ghost start = pushes_view(out@);
    let ghost all = lobby_pushes(server_data@);
    let mut i: usize = 0;
    assert(ids@.len() == connection_numbers(ids@).len());
    assert(start + all.take(0) =~= start);
    while i < ids.len()
        invariant
            server_data@.well_formed(),
            i <= ids.len(),
            ids@.len() == server_data@.connections.len(),
            connection_numbers(ids@) == server_data@.connection_numbers(),
            all == lobby_pushes(server_data@),
            pushes_view(out@) == start + all.take(i as int),
        decreases ids.len() - i,
    {
        let c = ids[i];
        assert(connection_numbers(ids@)[i as int] == c.0);
        let list = get_game_summary_list(server_data, c);
        let ghost sent = pushes_view(out@);
        let push = Push { to: c, message: ServerMessage::GameList(list) };
        assert(push@ == all[i as int]);
        out.push(push);
        assert(pushes_view(out@) =~= sent.push(all[i as int]));
        assert(start + all.take(i + 1) =~= (start + all.take(i as int)).push(all[i as int]));
        i = i + 1;
    }
    assert(all.take(ids.len() as int) =~= all);
}

/// The state of the game `g` for every connection that is in it.
fn push_view_to_members(server_data: &ServerData, g: GameID, out: &mut Vec<Push>)
    requires
        server_data@.well_formed(),
        server_data@.has_game(g.0),
    ensures
        pushes_view(final(out)@) == pushes_view(old(out)@) + view_pushes(server_data@, g.0),
{
    let members = server_data.session_members(g);
    let ghost start = pushes_view(out@);
    let ghost all = view_pushes(server_data@, g.0);
    assert(members@.len() == connection_numbers(members@).len());
    assert(start + all.take(0) =~= start);
    match server_data.session(g) {
        None => {},
        Some(data) => {
            let mut i: usize = 0;
            while i < members.len()
                invariant
                    i <= members.len(),
                    members@.len() == all.len(),
                    connection_numbers(members@) == server_data@.members_of(g.0),
                    all == view_pushes(server_data@, g.0),
                    data@ == server_data@.session_of(g.0),
                    pushes_view(out@) == start + all.take(i as int),
                decreases members.len() - i,
            {
                let c = members[i];
                assert(connection_numbers(members@)[i as int] == c.0);
                let ghost sent = pushes_view(out@);
                let push = Push { to: c, message: ServerMessage::View(data) };
                assert(push@ == all[i as int]);
                out.push(push);
                assert(pushes_view(out@) =~= sent.push(all[i as int]));
                assert(start + all.take(i + 1) =~= (start + all.take(i as int)).push(
                    all[i as int],
                ));
                i = i + 1;
            }
            assert(all.take(members.len() as int) =~= all);
        },
    }
}

/// Answers a request for the list of games.
pub fn handle_sessionlist(addr: ConnectionID, server_data: &ServerData) -> (r: Vec<Push>)
    requires
        server_data@.well_formed(),
    ensures
        serves_session_list(server_data@, addr.0, pushes_view(r@)),
{
    let mut out: Vec<Push> = Vec::new();
    assert(pushes_view(out@) =~= Seq::<PushView>::empty());
    if server_data.is_connected(addr) {
        let list = get_game_summary_list(server_data, addr);
        out.push(Push { to: addr, message: ServerMessage::GameList(list) });
        assert(pushes_view(out@) =~= seq![lobby_push(server_data@, addr.0)]);
    }
    out
}

/// Answers a request to enter the game `game_id`.
pub fn handle_selectgame(addr: ConnectionID, server_data: &mut ServerData, game_id: GameID) -> (r:
    Vec<Push>)
    requires
        old(server_data)@.well_formed(),
    ensures
        final(server_data)@.well_formed(),
        serves_select(
            old(server_data)@,
            final(server_data)@,
            addr.0,
            game_id.0,
            pushes_view(r@),
        ),
{
    let ghost before = server_data@;
    let mut out: Vec<Push> = Vec::new();
    assert(pushes_view(out@) =~= Seq::<PushView>::empty());
    if server_data.join_game(addr, game_id).is_err() {
        return out;
    }
    proof {
        lemma_same_games(before, server_data@, game_id.0);
    }
    match server_data.session(game_id) {
        None => {},
        Some(data) => {
            out.push(Push { to: addr, message: ServerMessage::View(data) });
            assert(pushes_view(out@) =~= seq![view_push(server_data@, game_id.0, addr.0)]);
        },
    }
    push_lobby_to_all(server_data, &mut out);
    out
}

/// Answers a request to open a game.
pub fn handle_creategame(addr: ConnectionID, server_data: &mut ServerData) -> (r: Result<
    Vec<Push>,
    ServerError,
>)
    requires
        old(server_data)@.well_formed(),
    ensures
        final(server_data)@.well_formed(),
        serves_create(old(server_data)@, final(server_data)@, addr.0, outcome_view(r)),
{
    let ghost before = server_data@;
    let mut out: Vec<Push> = Vec::new();
    assert(pushes_view(out@) =~= Seq::<PushView>::empty());
    if !server_data.is_connected(addr) {
        return Ok(out);
    }
    let new_game_id = match add_new_game(server_data) {
        Err(e) => {
            return Err(e);
        },
        Ok(g) => g,
    };
    let ghost opened = server_data@;
    proof {
        assert(is_least_free_game(before, new_game_id.0));
        let g = least_free_game(before);
        assert(is_least_free_game(before, g));
        assert(!(g < new_game_id.0) && !(new_game_id.0 < g));
        assert(opened.connections == before.connections);
        assert(opened.has_connection(addr.0)) by {
            let i = before.connection_index(addr.0);
            assert(opened.connections[i].0 == addr.0);
        }
        assert(opened.connection_index(addr.0) == before.connection_index(addr.0));
    }
    let joined = server_data.join_game(addr, new_game_id);
    assert(joined is Ok);
    proof {
        lemma_same_games(opened, server_data@, new_game_id.0);
    }
    match server_data.session(new_game_id) {
        None => {},
        Some(data) => {
            out.push(Push { to: addr, message: ServerMessage::View(data) });
            assert(pushes_view(out@) =~= seq![view_push(server_data@, new_game_id.0, addr.0)]);
        },
    }
    push_lobby_to_all(server_data, &mut out);
    Ok(out)
}

/// Answers a request to put a disc at `position`.
///
/// The move is tried in the game that the connection is in, and in no other:
/// every other game stays as it was. The game's state then goes to the
/// connections that are in that game, to each of them and to no other.
pub fn handle_put(addr: ConnectionID, server_data: &mut ServerData, position: Position) -> (r:
    Vec<Push>)
    requires
        old(server_data)@.well_formed(),
    ensures
        final(server_data)@.well_formed(),
        serves_put(
            old(server_data)@,
            final(server_data)@,
            addr.0,
            position@.0,
            position@.1,
            pushes_view(r@),
        ),
        final(server_data)@.connections == old(server_data)@.connections,
        forall|h: u32|
            old(server_data)@.has_game(h) && game_in_play(old(server_data)@, addr.0) != Some(h)
                ==> final(server_data)@.has_game(h) && #[trigger] final(server_data)@.session_of(h)
                == old(server_data)@.session_of(h),
        forall|c: u64|
            receives(r@, c) <==> game_in_play(old(server_data)@, addr.0) is Some
                && final(server_data)@.has_connection(c)
                && #[trigger] final(server_data)@.game_of(c) == game_in_play(
                old(server_data)@,
                addr.0,
            ),
{
    let ghost before = server_data@;
    let mut out: Vec<Push> = Vec::new();
    assert(pushes_view(out@) =~= Seq::<PushView>::empty());
    let gameid = match server_data.current_game(addr) {
        Some(x) => x,
        None => {
            return out;
        },
    };
    if server_data.put_in_game(gameid, position).is_none() {
        return out;
    }
    push_view_to_members(server_data, gameid, &mut out);
    proof {
        let after = server_data@;
        assert(pushes_view(out@) =~= view_pushes(after, gameid.0));
        assert forall|h: u32| before.has_game(h) && h != gameid.0 implies after.has_game(h)
            && #[trigger] after.session_of(h) == before.session_of(h) by {
            lemma_put_touches_one_game(
                before,
                after,
                addr.0,
                position@.0,
                position@.1,
                pushes_view(out@),
                h,
            );
        }
        assert forall|c: u64|
            receives(out@, c) <==> after.has_connection(c) && #[trigger] after.game_of(c) == Some(
                gameid.0,
            ) by {
            lemma_receivers(out@, after, gameid.0, c);
        }
    }
    out
}

/// Answers a request to start the game over.
///
/// The game that the connection is in begins anew, and no other game
/// changes. The game's state then goes to the connections that are in that
/// game, to each of them and to no other.
pub fn handle_reset(addr: ConnectionID, server_data: &mut ServerData) -> (r: Vec<Push>)
    requires
        old(server_data)@.well_formed(),
    ensures
        final(server_data)@.well_formed(),
        serves_reset(old(server_data)@, final(server_data)@, addr.0, pushes_view(r@)),
        final(server_data)@.connections == old(server_data)@.connections,
        forall|h: u32|
            old(server_data)@.has_game(h) && game_in_play(old(server_data)@, addr.0) != Some(h)
                ==> final(server_data)@.has_game(h) && #[trigger] final(server_data)@.session_of(h)
                == old(server_data)@.session_of(h),
        forall|c: u64|
            receives(r@, c) <==> game_in_play(old(server_data)@, addr.0) is Some
                && final(server_data)@.has_connection(c)
                && #[trigger] final(server_data)@.game_of(c) == game_in_play(
                old(server_data)@,
                addr.0,
            ),
{
    let ghost before = server_data@;
    let mut out: Vec<Push> = Vec::new();
    assert(pushes_view(out@) =~= Seq::<PushView>::empty());
    let gameid = match server_data.current_game(addr) {
        Some(x) => x,
        None => {
            return out;
        },
    };
    if !server_data.reset_game(gameid) {
        return out;
    }
    push_view_to_members(server_data, gameid, &mut out);
    proof {
        let after = server_data@;
        assert(pushes_view(out@) =~= view_pushes(after, gameid.0));
        assert forall|h: u32| before.has_game(h) && h != gameid.0 implies after.has_game(h)
            && #[trigger] after.session_of(h) == before.session_of(h) by {
            lemma_reset_touches_one_game(before, after, addr.0, pushes_view(out@), h);
        }
        assert forall|c: u64|
            receives(out@, c) <==> after.has_connection(c) && #[trigger] after.game_of(c) == Some(
                gameid.0,
            ) by {
            lemma_receivers(out@, after, gameid.0, c);
        }
    }
    out
}

/// Whether one of the pushes goes to the connection `c`.
pub open spec fn receives(pushes: Seq<Push>, c: u64) -> bool {
    exists|i: int| 0 <= i < pushes.len() && #[trigger] pushes[i].to.0 == c
}

/// Where the pushes are the state of the game `g` for its members, the
/// connections that receive one are those that are in `g`.
proof fn lemma_receivers(pushes: Seq<Push>, s: ServerView, g: u32, c: u64)
    requires
        s.well_formed(),
        pushes_view(pushes) == view_pushes(s, g),
    ensures
        receives(pushes, c) <==> s.has_connection(c) && s.game_of(c) == Some(g),
{
    lemma_view_pushes_reach_the_members(s, g, c);
    let views = view_pushes(s, g);
    assert(pushes.len() == views.len());
    if receives(pushes, c) {
        let i = choose|i: int| 0 <= i < pushes.len() && #[trigger] pushes[i].to.0 == c;
        assert(views[i] == pushes[i]@);
        assert(views[i].to == c);
    }
    if exists|i: int| 0 <= i < views.len() && #[trigger] views[i].to == c {
        let i = choose|i: int| 0 <= i < views.len() && #[trigger] views[i].to == c;
        assert(views[i] == pushes[i]@);
        assert(pushes[i].to.0 == c);
    }
}

/// What a request that may fail gave, as plain values.
pub open spec fn outcome_view(r: Result<Vec<Push>, ServerError>) -> Result<
    Seq<PushView>,
    ServerError,
> {
    match r {
        Ok(pushes) => Ok(pushes_view(pushes@)),
        Err(e) => Err(e),
    }
}

/// What serving the request `message` of the connection `c` comes to.
pub open spec fn serves(
    before: ServerView,
    after: ServerView,
    c: u64,
    message: ClientMessage,
    outcome: Result<Seq<PushView>, ServerError>,
) -> bool {
    match message {
        ClientMessage::SessionList => outcome is Ok && after == before && serves_session_list(
            before,
            c,
            outcome->Ok_0,
        ),
        ClientMessage::CreateGame => serves_create(before, after, c, outcome),
        ClientMessage::SelectGame(g) => outcome is Ok && serves_select(
            before,
            after,
            c,
            g.0,
            outcome->Ok_0,
        ),
        ClientMessage::Put(p) => outcome is Ok && serves_put(
            before,
            after,
            c,
            p@.0,
            p@.1,
            outcome->Ok_0,
        ),
        ClientMessage::Reset => outcome is Ok && serves_reset(before, after, c, outcome->Ok_0),
    }
}

/// Serves one request of the connection `addr`: changes the table as the
/// request asks and returns the messages to send, in the order in which they
/// are to be sent. The only request that can fail is the one to open a game.
pub fn handle_message(addr: ConnectionID, server_data: &mut ServerData, message: ClientMessage) -> (r:
    Result<Vec<Push>, ServerError>)
    requires
        old(server_data)@.well_formed(),
    ensures
        final(server_data)@.well_formed(),
        serves(old(server_data)@, final(server_data)@, addr.0, message, outcome_view(r)),
{
    match message {
        ClientMessage::SessionList => Ok(handle_sessionlist(addr, server_data)),
        ClientMessage::CreateGame => handle_creategame(addr, server_data),
        ClientMessage::SelectGame(x) => Ok(handle_selectgame(addr, server_data, x)),
        ClientMessage::Put(x) => Ok(handle_put(addr, server_data, x)),
        ClientMessage::Reset => Ok(handle_reset(addr, server_data)),
    }
}

/// Where only connections changed, a game is found where it was.
proof fn lemma_same_games(before: ServerView, after: ServerView, g: u32)
    requires
        after.games == before.games,
    ensures
        after.has_game(g) == before.has_game(g),
        after.game_index(g) == before.game_index(g),
        after.session_of(g) == before.session_of(g),
{
}

/// The state of a game goes to every connection that is in the game, and to
/// no connection that is in another game or in none; what goes out is the
/// game's state.
pub proof fn lemma_view_pushes_reach_the_members(s: ServerView, g: u32, c: u64)
    requires
        s.well_formed(),
    ensures
        (exists|i: int| 0 <= i < view_pushes(s, g).len() && #[trigger] view_pushes(s, g)[i].to == c)
            <==> s.has_connection(c) && s.game_of(c) == Some(g),
        forall|i: int|
            0 <= i < view_pushes(s, g).len() ==> (#[trigger] view_pushes(s, g)[i]).message
                == MessageView::View(s.session_of(g)),
{
    let pushes = view_pushes(s, g);
    let members = s.members_of(g);
    s.lemma_members_exact(g, c);
    if exists|i: int| 0 <= i < pushes.len() && #[trigger] pushes[i].to == c {
        let i = choose|i: int| 0 <= i < pushes.len() && #[trigger] pushes[i].to == c;
        assert(members[i] == c);
    }
    if members.contains(c) {
        let i = choose|i: int| 0 <= i < members.len() && members[i] == c;
        assert(pushes[i].to == c);
    }
}

/// Replacing one game leaves every other game as it was, and puts the new
/// state in the place of the old.
pub proof fn lemma_with_session_touches_one_game(
    s: ServerView,
    g: u32,
    session: SessionView,
    h: u32,
)
    requires
        s.well_formed(),
        s.has_game(g),
        s.has_game(h),
    ensures
        with_session(s, g, session).well_formed(),
        with_session(s, g, session).has_game(h),
        with_session(s, g, session).connections == s.connections,
        with_session(s, g, session).session_of(h) == if h == g {
            session
        } else {
            s.session_of(h)
        },
{
    let after = with_session(s, g, session);
    let i = s.game_index(g);
    let k = s.game_index(h);
    assert(s.games[i].0 == g);
    assert(s.games[k].0 == h);
    assert forall|a: int, b: int| 0 <= a < b < after.games.len() implies after.games[a].0
        < after.games[b].0 by {
        assert(after.games[a].0 == s.games[a].0);
        assert(after.games[b].0 == s.games[b].0);
    }
    assert forall|a: int| 0 <= a < after.games.len() implies 1 <= #[trigger] after.games[a].0
        < u32::MAX by {
        assert(after.games[a].0 == s.games[a].0);
    }
    assert(after.games[k].0 == h);
    after.lemma_game_at(k);
}

/// A move in one game changes no other game: whatever a connection asks to
/// put, every game but the one that it is in stays as it was, and so does
/// every connection.
pub proof fn lemma_put_touches_one_game(
    before: ServerView,
    after: ServerView,
    c: u64,
    x: int,
    y: int,
    pushes: Seq<PushView>,
    h: u32,
)
    requires
        before.well_formed(),
        serves_put(before, after, c, x, y, pushes),
        before.has_game(h),
        game_in_play(before, c) != Some(h),
    ensures
        after.has_game(h),
        after.session_of(h) == before.session_of(h),
        after.connections == before.connections,
{
    match game_in_play(before, c) {
        Some(g) => {
            lemma_with_session_touches_one_game(
                before,
                g,
                after_put(before.session_of(g), x, y),
                h,
            );
        },
        None => {},
    }
}

/// Starting one game over changes no other game and no connection.
pub proof fn lemma_reset_touches_one_game(
    before: ServerView,
    after: ServerView,
    c: u64,
    pushes: Seq<PushView>,
    h: u32,
)
    requires
        before.well_formed(),
        serves_reset(before, after, c, pushes),
        before.has_game(h),
        game_in_play(before, c) != Some(h),
    ensures
        after.has_game(h),
        after.session_of(h) == before.session_of(h),
        after.connections == before.connections,
{
    match game_in_play(before, c) {
        Some(g) => {
            lemma_with_session_touches_one_game(before, g, initial_session(), h);
        },
        None => {},
    }
}

/// Once in a game, always in a game: no request takes a connection back to
/// the lobby.
pub proof fn lemma_no_way_back_to_the_lobby(
    before: ServerView,
    after: ServerView,
    c: u64,
    message: ClientMessage,
    outcome: Result<Seq<PushView>, ServerError>,
    d: u64,
)
    requires
        before.well_formed(),
        serves(before, after, c, message, outcome),
        before.game_of(d) is Some,
    ensures
        after.game_of(d) is Some,
{
    if after.connections != before.connections {
        let g = match message {
            ClientMessage::SelectGame(g) => g.0,
            _ => least_free_game(before),
        };
        let i = before.connection_index(c);
        let k = before.connection_index(d);
        assert(before.connections[i].0 == c);
        assert(before.connections[k].0 == d);
        assert(after.connections == before.connections.update(i, (c, Some(g))));
        assert(after.connections[k].0 == d);
        assert(after.connections[k].1 is Some);
        let j = after.connection_index(d);
        assert(after.connections[j].0 == d);
        assert(after.connections[j].0 == before.connections[j].0);
        assert(!(j < k) && !(k < j));
    }
}

} // verus!
