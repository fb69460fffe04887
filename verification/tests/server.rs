use reversi::board::{BorW, Field, Masu, Position};
use reversi::dispatch::{
    handle_creategame, handle_message, handle_put, handle_reset, handle_selectgame,
    handle_sessionlist,
};
use reversi::message::{ClientMessage, ConnectionID, GameID, GameSummary, Push, ServerMessage};
use reversi::registry::{add_new_game, get_game_summary_list, ServerData, ServerError};
use reversi::session::ReversiData;

fn at(x: i32, y: i32) -> Position {
    Position::new(x, y).unwrap()
}

fn line(id: u32, members: u32, your: bool) -> GameSummary {
    GameSummary { id: GameID(id), members, your }
}

fn receivers(pushes: &[Push]) -> Vec<u64> {
    pushes.iter().map(|p| p.to.0).collect()
}

#[test]
fn connections_get_the_least_free_number() {
    let mut server = ServerData::new();
    assert_eq!(server.connect(), ConnectionID(0));
    assert_eq!(server.connect(), ConnectionID(1));
    assert_eq!(server.connect(), ConnectionID(2));
    server.disconnect(ConnectionID(1));
    assert_eq!(server.connection_count(), 2);
    assert!(!server.is_connected(ConnectionID(1)));
    assert_eq!(server.connection_ids(), vec![ConnectionID(0), ConnectionID(2)]);
    assert_eq!(server.connect(), ConnectionID(1));
    assert_eq!(server.connect(), ConnectionID(3));
    assert_eq!(server.current_game(ConnectionID(3)), None);
}

#[test]
fn disconnect_of_a_stranger_changes_nothing() {
    let mut server = ServerData::new();
    let a = server.connect();
    server.disconnect(ConnectionID(9));
    assert_eq!(server.connection_ids(), vec![a]);
}

#[test]
fn games_are_numbered_from_one() {
    let mut server = ServerData::new();
    assert_eq!(add_new_game(&mut server), Ok(GameID(1)));
    assert_eq!(add_new_game(&mut server), Ok(GameID(2)));
    assert_eq!(add_new_game(&mut server), Ok(GameID(3)));
    assert_eq!(server.game_count(), 3);
    assert_eq!(server.session(GameID(2)), Some(ReversiData::new()));
    assert_eq!(server.session(GameID(0)), None);
    assert_eq!(server.session(GameID(4)), None);
}

#[test]
fn games_outlive_their_viewers() {
    let mut server = ServerData::new();
    let a = server.connect();
    assert!(handle_creategame(a, &mut server).is_ok());
    server.disconnect(a);
    assert_eq!(server.game_count(), 1);
    assert_eq!(server.member_count(GameID(1)), 0);
    let b = server.connect();
    assert_eq!(get_game_summary_list(&server, b), vec![line(1, 0, false)]);
}

#[test]
fn join_game_reports_what_is_missing() {
    let mut server = ServerData::new();
    let a = server.connect();
    assert_eq!(server.join_game(a, GameID(1)), Err(ServerError::NoSuchGame));
    assert_eq!(server.current_game(a), None);
    assert_eq!(add_new_game(&mut server), Ok(GameID(1)));
    assert_eq!(server.join_game(ConnectionID(7), GameID(1)), Err(ServerError::NoSuchConnection));
    assert_eq!(server.join_game(ConnectionID(7), GameID(5)), Err(ServerError::NoSuchGame));
    assert_eq!(server.join_game(a, GameID(1)), Ok(()));
    assert_eq!(server.current_game(a), Some(GameID(1)));
}

#[test]
fn lobby_counts_members_and_marks_the_own_game() {
    let mut server = ServerData::new();
    let a = server.connect();
    let b = server.connect();
    assert!(handle_creategame(a, &mut server).is_ok());
    assert_eq!(get_game_summary_list(&server, a), vec![line(1, 1, true)]);
    assert_eq!(get_game_summary_list(&server, b), vec![line(1, 1, false)]);
    handle_selectgame(b, &mut server, GameID(1));
    assert_eq!(get_game_summary_list(&server, a), vec![line(1, 2, true)]);
    assert_eq!(get_game_summary_list(&server, b), vec![line(1, 2, true)]);
}

#[test]
fn lobby_is_sorted_by_game_number() {
    let mut server = ServerData::new();
    let a = server.connect();
    let b = server.connect();
    let c = server.connect();
    for conn in [a, b, c] {
        assert!(handle_creategame(conn, &mut server).is_ok());
    }
    handle_selectgame(a, &mut server, GameID(3));
    assert_eq!(
        get_game_summary_list(&server, a),
        vec![line(1, 0, false), line(2, 1, false), line(3, 2, true)]
    );
    assert_eq!(
        get_game_summary_list(&server, ConnectionID(40)),
        vec![line(1, 0, false), line(2, 1, false), line(3, 2, false)]
    );
    assert_eq!(server.session_members(GameID(3)), vec![a, c]);
    assert_eq!(server.session_members(GameID(1)), vec![]);
    assert_eq!(server.session_members(GameID(9)), vec![]);
}

#[test]
fn session_list_goes_to_the_one_who_asked() {
    let mut server = ServerData::new();
    let a = server.connect();
    let b = server.connect();
    assert!(handle_creategame(a, &mut server).is_ok());
    assert_eq!(
        handle_sessionlist(b, &server),
        vec![Push { to: b, message: ServerMessage::GameList(vec![line(1, 1, false)]) }]
    );
    assert_eq!(handle_sessionlist(ConnectionID(5), &server), vec![]);
}

#[test]
fn create_game_sends_the_view_and_then_every_lobby() {
    let mut server = ServerData::new();
    let a = server.connect();
    let b = server.connect();
    let pushes = handle_creategame(b, &mut server).unwrap();
    assert_eq!(
        pushes,
        vec![
            Push { to: b, message: ServerMessage::View(ReversiData::new()) },
            Push { to: a, message: ServerMessage::GameList(vec![line(1, 1, false)]) },
            Push { to: b, message: ServerMessage::GameList(vec![line(1, 1, true)]) },
        ]
    );
    assert_eq!(server.current_game(b), Some(GameID(1)));
    assert_eq!(server.current_game(a), None);
}

#[test]
fn create_game_for_a_stranger_does_nothing() {
    let mut server = ServerData::new();
    assert_eq!(handle_creategame(ConnectionID(3), &mut server), Ok(vec![]));
    assert_eq!(server.game_count(), 0);
}

#[test]
fn select_game_sends_the_view_and_then_every_lobby() {
    let mut server = ServerData::new();
    let a = server.connect();
    let b = server.connect();
    assert!(handle_creategame(a, &mut server).is_ok());
    handle_put(a, &mut server, at(4, 2));
    let game = server.session(GameID(1)).unwrap();
    assert_eq!(game.turn, BorW::White);
    assert_eq!(
        handle_selectgame(b, &mut server, GameID(1)),
        vec![
            Push { to: b, message: ServerMessage::View(game) },
            Push { to: a, message: ServerMessage::GameList(vec![line(1, 2, true)]) },
            Push { to: b, message: ServerMessage::GameList(vec![line(1, 2, true)]) },
        ]
    );
}

#[test]
fn select_of_a_missing_game_does_nothing() {
    let mut server = ServerData::new();
    let a = server.connect();
    assert!(handle_creategame(a, &mut server).is_ok());
    assert_eq!(handle_selectgame(a, &mut server, GameID(2)), vec![]);
    assert_eq!(server.current_game(a), Some(GameID(1)));
    assert_eq!(handle_selectgame(ConnectionID(8), &mut server, GameID(1)), vec![]);
    assert_eq!(server.member_count(GameID(1)), 1);
}

#[test]
fn select_overwrites_the_reference() {
    let mut server = ServerData::new();
    let a = server.connect();
    assert!(handle_creategame(a, &mut server).is_ok());
    assert!(handle_creategame(a, &mut server).is_ok());
    assert_eq!(server.current_game(a), Some(GameID(2)));
    handle_selectgame(a, &mut server, GameID(1));
    assert_eq!(server.current_game(a), Some(GameID(1)));
    assert_eq!(get_game_summary_list(&server, a), vec![line(1, 1, true), line(2, 0, false)]);
}

#[test]
fn put_from_the_lobby_does_nothing() {
    let mut server = ServerData::new();
    let a = server.connect();
    let b = server.connect();
    assert!(handle_creategame(a, &mut server).is_ok());
    assert_eq!(handle_put(b, &mut server, at(4, 2)), vec![]);
    assert_eq!(handle_reset(b, &mut server), vec![]);
    assert_eq!(handle_put(ConnectionID(77), &mut server, at(4, 2)), vec![]);
    assert_eq!(server.session(GameID(1)), Some(ReversiData::new()));
}

#[test]
fn put_goes_to_the_members_of_that_game_only() {
    let mut server = ServerData::new();
    let a = server.connect();
    let b = server.connect();
    let c = server.connect();
    let d = server.connect();
    let lobby = server.connect();
    assert!(handle_creategame(a, &mut server).is_ok());
    assert!(handle_creategame(b, &mut server).is_ok());
    handle_selectgame(c, &mut server, GameID(1));
    handle_selectgame(d, &mut server, GameID(2));
    let pushes = handle_put(c, &mut server, at(4, 2));
    assert_eq!(receivers(&pushes), vec![a.0, c.0]);
    assert!(!receivers(&pushes).contains(&lobby.0));
    let game = server.session(GameID(1)).unwrap();
    assert_eq!(game.cursor, at(4, 2));
    assert_eq!(game.turn, BorW::White);
    for p in &pushes {
        assert_eq!(p.message, ServerMessage::View(game));
    }
}

#[test]
fn rejected_put_still_sends_the_view() {
    let mut server = ServerData::new();
    let a = server.connect();
    let b = server.connect();
    assert!(handle_creategame(a, &mut server).is_ok());
    handle_selectgame(b, &mut server, GameID(1));
    let pushes = handle_put(b, &mut server, at(0, 0));
    let game = server.session(GameID(1)).unwrap();
    assert_eq!(game.field, Field::new());
    assert_eq!(game.turn, BorW::Black);
    assert_eq!(game.cursor, at(0, 0));
    assert_eq!(
        pushes,
        vec![
            Push { to: a, message: ServerMessage::View(game) },
            Push { to: b, message: ServerMessage::View(game) },
        ]
    );
    let pushes = handle_put(b, &mut server, at(7, 7));
    let game = server.session(GameID(1)).unwrap();
    assert_eq!(game.field, Field::new());
    assert_eq!(game.cursor, at(7, 7));
    assert_eq!(receivers(&pushes), vec![a.0, b.0]);
}

#[test]
fn games_do_not_touch_each_other() {
    let mut server = ServerData::new();
    let a = server.connect();
    let b = server.connect();
    assert!(handle_creategame(a, &mut server).is_ok());
    assert!(handle_creategame(b, &mut server).is_ok());
    handle_put(a, &mut server, at(4, 2));
    assert_eq!(server.session(GameID(2)), Some(ReversiData::new()));
    let first = server.session(GameID(1)).unwrap();
    handle_put(b, &mut server, at(2, 4));
    assert_eq!(server.session(GameID(1)), Some(first));
    handle_put(a, &mut server, at(5, 2));
    let second = server.session(GameID(2)).unwrap();
    assert_eq!(second.field.get(at(2, 4)), Masu::Putted(BorW::Black));
    assert_eq!(second.field.get(at(4, 2)), Masu::Empty);
    assert_eq!(second.field.count(BorW::Black), 4);
    let first = server.session(GameID(1)).unwrap();
    assert_eq!(first.field.get(at(5, 2)), Masu::Putted(BorW::White));
    assert_eq!(first.field.get(at(2, 4)), Masu::Empty);
    assert_eq!(first.turn, BorW::Black);
    assert_eq!(second.turn, BorW::White);
}

#[test]
fn reset_starts_the_game_over_for_its_members() {
    let mut server = ServerData::new();
    let a = server.connect();
    let b = server.connect();
    assert!(handle_creategame(a, &mut server).is_ok());
    assert!(handle_creategame(b, &mut server).is_ok());
    handle_put(a, &mut server, at(4, 2));
    handle_put(b, &mut server, at(4, 2));
    let other = server.session(GameID(2)).unwrap();
    assert_eq!(
        handle_reset(a, &mut server),
        vec![Push { to: a, message: ServerMessage::View(ReversiData::new()) }]
    );
    assert_eq!(server.session(GameID(1)), Some(ReversiData::new()));
    assert_eq!(server.session(GameID(2)), Some(other));
}

#[test]
fn handle_message_serves_every_request() {
    let mut server = ServerData::new();
    let a = server.connect();
    let b = server.connect();
    assert_eq!(
        handle_message(a, &mut server, ClientMessage::SessionList),
        Ok(vec![Push { to: a, message: ServerMessage::GameList(vec![]) }])
    );
    let created = handle_message(a, &mut server, ClientMessage::CreateGame).unwrap();
    assert_eq!(receivers(&created), vec![a.0, a.0, b.0]);
    let joined = handle_message(b, &mut server, ClientMessage::SelectGame(GameID(1))).unwrap();
    assert_eq!(receivers(&joined), vec![b.0, a.0, b.0]);
    let put = handle_message(b, &mut server, ClientMessage::Put(at(4, 2))).unwrap();
    assert_eq!(receivers(&put), vec![a.0, b.0]);
    assert_eq!(server.session(GameID(1)).unwrap().turn, BorW::White);
    let reset = handle_message(a, &mut server, ClientMessage::Reset).unwrap();
    assert_eq!(
        reset,
        vec![
            Push { to: a, message: ServerMessage::View(ReversiData::new()) },
            Push { to: b, message: ServerMessage::View(ReversiData::new()) },
        ]
    );
}

#[test]
fn table_stays_well_formed() {
    let mut server = ServerData::new();
    assert!(server.is_well_formed());
    let a = server.connect();
    let b = server.connect();
    let c = server.connect();
    server.disconnect(b);
    assert!(handle_creategame(a, &mut server).is_ok());
    assert!(handle_creategame(c, &mut server).is_ok());
    handle_selectgame(a, &mut server, GameID(2));
    handle_put(a, &mut server, at(4, 2));
    handle_reset(c, &mut server);
    server.connect();
    assert!(server.is_well_formed());
    assert_eq!(server.connection_count(), 3);
    assert_eq!(server.game_count(), 2);
}

#[test]
fn no_request_leads_back_to_the_lobby() {
    let mut server = ServerData::new();
    let a = server.connect();
    let b = server.connect();
    assert!(handle_creategame(a, &mut server).is_ok());
    handle_selectgame(b, &mut server, GameID(1));
    let requests = [
        ClientMessage::SessionList,
        ClientMessage::Put(at(4, 2)),
        ClientMessage::Reset,
        ClientMessage::SelectGame(GameID(9)),
        ClientMessage::CreateGame,
        ClientMessage::SelectGame(GameID(1)),
    ];
    for request in requests {
        assert!(handle_message(a, &mut server, request).is_ok());
        assert!(server.current_game(a).is_some());
        assert!(server.current_game(b).is_some());
    }
    assert_eq!(server.current_game(a), Some(GameID(1)));
    assert_eq!(server.current_game(b), Some(GameID(1)));
}

#[test]
fn put_in_game_and_reset_game_report_a_missing_game() {
    let mut server = ServerData::new();
    assert_eq!(server.put_in_game(GameID(1), at(4, 2)), None);
    assert!(!server.reset_game(GameID(1)));
    assert_eq!(add_new_game(&mut server), Ok(GameID(1)));
    assert_eq!(
        server.put_in_game(GameID(1), at(0, 0)),
        Some(reversi::session::MoveOutcome::Rejected)
    );
    assert_eq!(
        server.put_in_game(GameID(1), at(4, 2)),
        Some(reversi::session::MoveOutcome::Applied)
    );
    assert_eq!(server.session(GameID(1)).unwrap().turn, BorW::White);
    assert!(server.reset_game(GameID(1)));
    assert_eq!(server.session(GameID(1)), Some(ReversiData::new()));
}
