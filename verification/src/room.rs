//! The players of a room in play and the messages sent to them.
use crate::connection::Connection;
use crate::headers::SendHeader;
use crate::proto::fields::{frame, framed, string_field};
use crate::proto::proto_all::{Chat, State};
use crate::text::{tag_name, tagged_name};
use std::collections::HashMap;
use vstd::prelude::*;

verus! {

broadcast use vstd::std_specs::hash::group_hash_axioms;

/// The players of a room in play, by id.
pub struct Room {
    players: HashMap<u32, String>,
}

impl View for Room {
    /// The name of each player, by id.
    type V = Map<u32, Seq<char>>;

    closed spec fn view(&self) -> Map<u32, Seq<char>> {
        self.players@.map_values(|s: String| s@)
    }
}

impl Room {
    pub fn new() -> (g: Self)
        ensures
            g@ == Map::<u32, Seq<char>>::empty(),
    {
        let g = Room { players: HashMap::new() };
        assert(g@ =~= Map::<u32, Seq<char>>::empty());
        g
    }

    /// A client enters the room under its id.
    pub fn join(&mut self, conn: Connection)
        ensures
            final(self)@ == old(self)@.insert(conn.id, conn.name@),
    {
        let ghost v0 = self@;
        self.players.insert(conn.id, conn.name);
        assert(self@ =~= v0.insert(conn.id, conn.name@));
    }

    /// Whether player `id` is in the room.
    pub fn contains_player(&self, id: u32) -> (r: bool)
        ensures
            r == self@.contains_key(id),
    {
        self.players.contains_key(&id)
    }

    /// Player `user_id` leaves: gives its connection and the number of players
    /// left, which is the count reported to the lobby; the room closes when
    /// it is zero.
    pub fn quit(&mut self, user_id: u32) -> (res: (Connection, usize))
        requires
            old(self)@.contains_key(user_id),
        ensures
            res.0.id == user_id,
            res.0.name@ == old(self)@[user_id],
            final(self)@ == old(self)@.remove(user_id),
            res.1 == final(self)@.len(),
            res.1 == old(self)@.len() - 1,
    {
        let ghost v0 = self@;
        let name = self.players.remove(&user_id).unwrap();
        assert(self@ =~= v0.remove(user_id));
        assert(self@.dom() =~= self.players@.dom());
        assert(v0.dom() =~= old(self).players@.dom());
        let len = self.players.len();
        (Connection { id: user_id, name }, len)
    }

    /// A game snapshot, framed for sending.
    pub fn serialize_state(state: State) -> (out: Vec<u8>)
        ensures
            out@ == framed(SendHeader::STATE, state.wire_bytes()),
    {
        let mut body: Vec<u8> = Vec::new();
        state.write_message(&mut body);
        frame(SendHeader::STATE, &body)
    }

    /// A chat line of player `id`, shown under `(id) name`, framed for sending.
    pub fn serialize_chat(&self, id: u32, chat: Chat) -> (out: Vec<u8>)
        requires
            self@.contains_key(id),
        ensures
            out@ == framed(
                SendHeader::GAME_CHAT,
                string_field(10, tagged_name(id, self@[id])) + string_field(18, chat.message@),
            ),
    {
        let name = self.players.get(&id).unwrap();
        let chat = Chat { name: tag_name(id, name), message: chat.message };
        let mut body: Vec<u8> = Vec::new();
        chat.write_message(&mut body);
        frame(SendHeader::GAME_CHAT, &body)
    }
}

} // verus!
