//! The first byte of each message received from a client.
use vstd::prelude::*;

verus! {

pub const HANDSHAKE: u8 = 0;

pub const CREATE_ROOM: u8 = 1;

pub const JOIN_ROOM: u8 = 2;

pub const LOBBY_CHAT: u8 = 3;

pub const QUIT_TO_LOBBY: u8 = 4;

pub const GAME_CHAT: u8 = 5;

/// The controls of a player in a game.
pub const GAME_INPUT: u8 = 6;

} // verus!
