//! The first byte of each message sent to a client.
use vstd::prelude::*;

verus! {

pub const USERS: u8 = 0;

pub const ROOMS: u8 = 1;

pub const LOBBY_CHAT: u8 = 2;

pub const ERROR: u8 = 3;

pub const GAME_CHAT: u8 = 4;

/// A game snapshot.
pub const STATE: u8 = 5;

/// A chat line of the lobby without rooms.
pub const CHAT: u8 = 2;

} // verus!
