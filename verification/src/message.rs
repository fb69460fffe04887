//! What clients and the server say to each other.

use crate::board::Position;
use crate::session::{ReversiData, SessionView};
use vstd::prelude::*;

verus! {

/// The number under which the server keeps a game.
#[derive(Debug, Clone, Copy, Hash, PartialEq, Eq, PartialOrd, Ord, Structural)]
pub struct GameID(pub u32);

/// The number under which the server keeps a connection.
#[derive(Debug, Clone, Copy, Hash, PartialEq, Eq, PartialOrd, Ord, Structural)]
pub struct ConnectionID(pub u64);

/// A request of a client.
#[derive(Debug, Clone, Copy, PartialEq, Eq, Structural)]
pub enum ClientMessage {
    /// Asks for the list of games.
    SessionList,
    /// Opens a new game and enters it.
    CreateGame,
    /// Enters the game of that number.
    SelectGame(GameID),
    /// Puts a disc at that square of the client's game.
    Put(Position),
    /// Starts the client's game over.
    Reset,
}

/// One line of the list of games, as one connection sees it.
#[derive(Debug, Clone, Copy, PartialEq, Eq, Structural)]
pub struct GameSummary {
    pub id: GameID,
    /// How many connections are in the game.
    pub members: u32,
    /// Whether the connection that the list is for is in the game.
    pub your: bool,
}

/// What the server sends to a client.
#[derive(Debug, Clone, PartialEq, Eq)]
pub enum ServerMessage {
    GameList(Vec<GameSummary>),
    View(ReversiData),
}

/// A server message as plain values.
pub enum MessageView {
    GameList(Seq<GameSummary>),
    View(SessionView),
}

impl View for ServerMessage {
    type V = MessageView;

    open spec fn view(&self) -> MessageView {
        match self {
            ServerMessage::GameList(list) => MessageView::GameList(list@),
            ServerMessage::View(data) => MessageView::View(data@),
        }
    }
}

/// A message on its way to one connection.
#[derive(Debug, Clone, PartialEq, Eq)]
pub struct Push {
    pub to: ConnectionID,
    pub message: ServerMessage,
}

/// A push as plain values.
pub struct PushView {
    pub to: u64,
    pub message: MessageView,
}

impl View for Push {
    type V = PushView;

    open spec fn view(&self) -> PushView {
        PushView { to: self.to.0, message: self.message@ }
    }
}

/// A list of pushes as plain values, in the order in which they are sent.
pub open spec fn pushes_view(ps: Seq<Push>) -> Seq<PushView> {
    ps.map_values(|p: Push| p@)
}

} // verus!
