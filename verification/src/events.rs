//! The events that the lobby and the games receive, as plain values. The
//! channels that come with some of them are held by the server loop.
use crate::connection::Connection;
use crate::ecs::game_state::GameState;
use crate::proto::proto_all::{Chat, CreateRoom, GameInput, JoinRoom};
use vstd::prelude::*;

verus! {

/// What the lobby is told.
#[derive(Debug)]
pub enum LobbyEvents {
    /// A client completed its handshake; its id is to be given back to it.
    Handshake(Connection),
    /// A client in the lobby went away.
    Disconnect(u32),
    /// A client asks to open a room.
    CreateRoom(u32, CreateRoom),
    /// A client asks to enter a room.
    JoinRoom(u32, JoinRoom),
    /// A client comes back from a game.
    TakeBack(Connection),
    /// A game reports, for its room and the client that left, how many
    /// players remain.
    PlayerCount(u32, u32, usize),
    /// A client sends a chat line.
    Chat(u32, Chat),
}

/// What a game is told.
#[derive(Debug)]
pub enum GameEvents {
    /// A client enters the game.
    Join(Connection),
    /// A client leaves the game; `true` when it goes back to the lobby.
    Quit(u32, bool),
    /// A client sends a chat line.
    Chat(u32, Chat),
    /// A client sends its controls.
    Input(u32, GameInput),
    /// The snapshots of a frame, one per player.
    StateOut(Vec<GameState>),
}

} // verus!
