//! The lobby's handling of its events: from the lobby and one event to the
//! next lobby and what is to be sent. The server loop performs the actions;
//! where an answer has to reach a waiting client first, it reports whether
//! it did, and `delivered` takes the second step.
use crate::connection::Connection;
use crate::events::LobbyEvents;
use crate::headers::SendHeader;
use crate::lobby::{
    admissible, rooms_frame_ok, users_frames_ok, Lobby, LobbyView,
};
use crate::proto::fields::{framed, string_field};
use crate::proto::proto_all::{CreateRoom, RoomView};
use crate::text::{refusal_message, refusal_title, tagged_name, Refusal};
use vstd::prelude::*;

verus! {

/// What the server loop is to do for the lobby.
#[derive(Debug)]
pub enum LobbyAction {
    /// Send this frame to the client whose handshake was refused; it never
    /// entered the lobby.
    Refuse(Vec<u8>),
    /// Send this frame to the client with this id.
    SendTo(u32, Vec<u8>),
    /// Send this frame to every client of the lobby.
    Broadcast(Vec<u8>),
    /// Send each client its users message.
    UsersInfo(Vec<(u32, Vec<u8>)>),
    /// Send each client its users message, then the rooms message.
    LobbyInfo(Vec<(u32, Vec<u8>)>, Vec<u8>),
    /// Drop the socket of the client with this id: it left the lobby.
    Forget(u32),
    /// Start the game of this room with this client as its first player.
    StartGame(u32, Connection),
    /// Hand this client to the game of this room.
    EnterGame(u32, Connection),
    /// The room closed: drop the way to its game.
    CloseRoom(u32),
    /// Tell the game that handed a client back that it is in the lobby again.
    Welcome,
}

/// An answer that must reach a waiting client before the lobby goes on.
#[derive(Debug)]
pub enum Reply {
    /// The id given to a client at its handshake.
    Id(u32),
    /// The room opened for the client (first field): the room's game is to
    /// be handed to it.
    NewRoom(u32, u32, CreateRoom),
    /// The room the client (first field) joined: the room's game is to be
    /// handed to it.
    JoinedRoom(u32, u32),
}

/// The error frame sent for a refusal.
pub open spec fn refusal_frame(r: Refusal) -> Seq<u8> {
    framed(
        SendHeader::ERROR,
        string_field(10, refusal_title(r)) + string_field(18, refusal_message(r)),
    )
}

/// `a` sends each client of `v` its users message, then the rooms message.
pub open spec fn is_lobby_info(a: LobbyAction, v: LobbyView) -> bool {
    a matches LobbyAction::LobbyInfo(frames, rooms) && users_frames_ok(v.connections, frames@)
        && rooms_frame_ok(v.rooms, rooms@)
}

/// `a` sends each client of `v` its users message.
pub open spec fn is_users_info(a: LobbyAction, v: LobbyView) -> bool {
    a matches LobbyAction::UsersInfo(frames) && users_frames_ok(v.connections, frames@)
}

/// `a` sends client `id` the error frame of refusal `r`.
pub open spec fn is_refusal_to(a: LobbyAction, id: u32, r: Refusal) -> bool {
    a matches LobbyAction::SendTo(to, f) && to == id && f@ == refusal_frame(r)
}

/// The lobby `v` with client `id`, called `name`, in it.
pub open spec fn with_client(v: LobbyView, id: u32, name: Seq<char>) -> LobbyView {
    LobbyView { connections: v.connections.insert(id, name), ..v }
}

/// The lobby `v` without client `id`, whose id is not handed back.
pub open spec fn without_client(v: LobbyView, id: u32) -> LobbyView {
    LobbyView { connections: v.connections.remove(id), ..v }
}

/// The lobby `v` with room `id` opened as `c` asks, with one player.
pub open spec fn with_room(v: LobbyView, id: u32, c: CreateRoom) -> LobbyView {
    LobbyView {
        rooms: v.rooms.insert(
            id,
            RoomView { id, name: c.name@, password: c.password@.len() > 0, players: 1 },
        ),
        passwords: if c.password@.len() > 0 {
            v.passwords.insert(id, c.password@)
        } else {
            v.passwords
        },
        ..v
    }
}

/// The lobby `v` once room `id` reports `len` players: closed at zero, else
/// holding that count.
pub open spec fn with_player_count(v: LobbyView, id: u32, len: usize) -> LobbyView {
    if len == 0 {
        LobbyView { rooms: v.rooms.remove(id), passwords: v.passwords.remove(id), ..v }
    } else {
        LobbyView {
            rooms: v.rooms.insert(id, RoomView { players: len as u32, ..v.rooms[id] }),
            ..v
        }
    }
}

/// What an answer to deliver may rely on in the lobby `v`: the id given is
/// in use, and a room to open has an id that was handed out and no open room
/// holds.
pub open spec fn reply_ok(v: LobbyView, r: Reply) -> bool {
    match r {
        Reply::Id(id) => v.connections.contains_key(id),
        Reply::NewRoom(_, room, _) => admissible(v.room_pool, v.room_indices, room)
            && !v.rooms.contains_key(room),
        Reply::JoinedRoom(_, _) => true,
    }
}

/// What an event needs of the lobby: a chat line or a departure comes from
/// a client of the lobby, and a room that reports its count is open.
pub open spec fn event_ok(v: LobbyView, ev: LobbyEvents) -> bool {
    match ev {
        LobbyEvents::Disconnect(id) => v.connections.contains_key(id),
        LobbyEvents::PlayerCount(room, _, _) => v.rooms.contains_key(room),
        LobbyEvents::Chat(id, _) => v.connections.contains_key(id),
        _ => true,
    }
}

impl Lobby {
    /// Handles one event: the lobby changes as the event asks, and gives
    /// what is to be sent, and the answer a waiting client is owed, if any.
    /// The lobby's invariant is kept, a client coming back from a game
    /// keeping the id it was given.
    pub fn handle(&mut self, ev: LobbyEvents) -> (res: (Vec<LobbyAction>, Option<Reply>))
        requires
            event_ok(old(self)@, ev),
        ensures
            ({
                let v = old(self)@;
                let w = final(self)@;
                let acts = res.0@;
                match ev {
                    LobbyEvents::Handshake(conn) => match v.after_add_connection(conn.name@).1 {
                        Ok(id) => w == with_client(v.after_add_connection(conn.name@).0, id, conn.name@)
                            && acts.len() == 0 && res.1 == Some(Reply::Id(id)),
                        Err(r) => w == v.after_add_connection(conn.name@).0 && acts.len() == 1
                            && (acts[0] matches LobbyAction::Refuse(f) && f@ == refusal_frame(r))
                            && res.1 is None,
                    },
                    LobbyEvents::Disconnect(id) => w == v.after_disconnect(id) && acts.len() == 2
                        && acts[0] == LobbyAction::Forget(id) && is_users_info(acts[1], w)
                        && res.1 is None,
                    LobbyEvents::CreateRoom(user, c) => w == v.after_add_room(c.name@).0 && match v.after_add_room(c.name@).1 {
                        Ok(room) => acts.len() == 0 && (res.1 matches Some(
                            Reply::NewRoom(u, id, c2),
                        ) && u == user && id == room && c2.name@ == c.name@ && c2.password@
                            == c.password@),
                        Err(r) => acts.len() == 1 && is_refusal_to(acts[0], user, r)
                            && res.1 is None,
                    },
                    LobbyEvents::JoinRoom(user, j) => w == v.after_join(j.id, j.password@).0 && match v.after_join(j.id, j.password@).1 {
                        Ok(room) => acts.len() == 0 && res.1 == Some(Reply::JoinedRoom(user, room)),
                        Err(r) => acts.len() == 1 && is_refusal_to(acts[0], user, r)
                            && res.1 is None,
                    },
                    LobbyEvents::TakeBack(conn) => w == with_client(v, conn.id, conn.name@)
                        && acts.len() == 2 && acts[0] == LobbyAction::Welcome
                        && is_lobby_info(acts[1], w) && res.1 is None,
                    LobbyEvents::PlayerCount(room, _, len) => w == with_player_count(v, room, len)
                        && (if len == 0 {
                        acts.len() == 1 && acts[0] == LobbyAction::CloseRoom(room)
                    } else {
                        acts.len() == 0
                    }) && res.1 is None,
                    LobbyEvents::Chat(id, chat) => w == v && acts.len() == 1 && (acts[0] matches LobbyAction::Broadcast(f)
                        && f@ == framed(
                        SendHeader::LOBBY_CHAT,
                        string_field(10, tagged_name(id, v.connections[id])) + string_field(
                            18,
                            chat.message@,
                        ),
                    )) && res.1 is None,
                }
            }),
            old(self)@.wf() && (ev matches LobbyEvents::TakeBack(conn) ==> admissible(
                old(self)@.connection_pool,
                old(self)@.connection_indices,
                conn.id,
            )) ==> final(self)@.wf(),
            old(self)@.wf() ==> (res.1 matches Some(r) ==> reply_ok(final(self)@, r)),
            ev matches LobbyEvents::PlayerCount(room, _, len) ==> final(self)@.connections == old(
                self,
            )@.connections && if len == 0 {
                !final(self)@.rooms.contains_key(room) && !final(self)@.passwords.contains_key(room)
            } else {
                &&& final(self)@.rooms.dom() == old(self)@.rooms.dom()
                &&& final(self)@.rooms[room].players == len as u32
                &&& len <= u32::MAX ==> final(self)@.rooms[room].players == len
                &&& final(self)@.rooms[room].id == old(self)@.rooms[room].id
                &&& final(self)@.rooms[room].name == old(self)@.rooms[room].name
                &&& final(self)@.rooms[room].password == old(self)@.rooms[room].password
                &&& final(self)@.passwords == old(self)@.passwords
            },
    {
        let ghost v = self@;
        match ev {
            LobbyEvents::Handshake(conn) => {
                match self.add_connection(conn.name.clone()) {
                    Ok(id) => {
                        self.insert_connection(Connection { id, name: conn.name });
                        (Vec::new(), Some(Reply::Id(id)))
                    },
                    Err(err) => {
                        let f = Self::serialize_error(err);
                        (vec![LobbyAction::Refuse(f)], None)
                    },
                }
            },
            LobbyEvents::Disconnect(id) => {
                self.disconnect(id);
                let frames = self.users_frames();
                (vec![LobbyAction::Forget(id), LobbyAction::UsersInfo(frames)], None)
            },
            LobbyEvents::CreateRoom(user, c) => {
                match self.add_room(c.name.clone()) {
                    Ok(room) => (Vec::new(), Some(Reply::NewRoom(user, room, c))),
                    Err(err) => {
                        let f = Self::serialize_error(err);
                        (vec![LobbyAction::SendTo(user, f)], None)
                    },
                }
            },
            LobbyEvents::JoinRoom(user, j) => {
                match self.join_to_room(j) {
                    Ok(room) => (Vec::new(), Some(Reply::JoinedRoom(user, room))),
                    Err(err) => {
                        let f = Self::serialize_error(err);
                        (vec![LobbyAction::SendTo(user, f)], None)
                    },
                }
            },
            LobbyEvents::TakeBack(conn) => {
                self.insert_connection(conn);
                let frames = self.users_frames();
                let rooms = self.serialize_rooms();
                (vec![LobbyAction::Welcome, LobbyAction::LobbyInfo(frames, rooms)], None)
            },
            LobbyEvents::PlayerCount(room, _, len) => {
                self.player_count(room, len);
                if len == 0 {
                    (vec![LobbyAction::CloseRoom(room)], None)
                } else {
                    (Vec::new(), None)
                }
            },
            LobbyEvents::Chat(id, chat) => {
                let f = self.serialize_chat(id, chat);
                (vec![LobbyAction::Broadcast(f)], None)
            },
        }
    }

    /// The second step of an event whose answer had to reach a waiting
    /// client: `ok` tells whether it did. An id that did not reach its client
    /// is taken out of use without being handed back; a room whose game did
    /// not reach its client stays unopened, its id used up; a join that did
    /// not reach its client keeps the place it took.
    pub fn delivered(&mut self, reply: Reply, ok: bool) -> (acts: Vec<LobbyAction>)
        requires
            match reply {
                Reply::Id(id) => !ok ==> old(self)@.connections.contains_key(id),
                Reply::NewRoom(user, _, _) => ok ==> old(self)@.connections.contains_key(user),
                Reply::JoinedRoom(user, _) => ok ==> old(self)@.connections.contains_key(user),
            },
        ensures
            ({
                let v = old(self)@;
                let w = final(self)@;
                match reply {
                    Reply::Id(id) => if ok {
                        w == v && acts@.len() == 1 && is_lobby_info(acts@[0], w)
                    } else {
                        w == without_client(v, id) && acts@ == seq![LobbyAction::Forget(id)]
                    },
                    Reply::NewRoom(user, room, c) => if ok {
                        w == without_client(with_room(v, room, c), user) && acts@.len() == 2 && (
                        acts@[0] matches LobbyAction::StartGame(r, conn) && r == room && conn.id
                            == user && conn.name@ == v.connections[user]) && is_lobby_info(
                            acts@[1],
                            w,
                        )
                    } else {
                        w == v && acts@.len() == 0
                    },
                    Reply::JoinedRoom(user, room) => if ok {
                        w == without_client(v, user) && acts@.len() == 1 && (
                        acts@[0] matches LobbyAction::EnterGame(r, conn) && r == room && conn.id
                            == user && conn.name@ == v.connections[user])
                    } else {
                        w == v && acts@.len() == 0
                    },
                }
            }),
            old(self)@.wf() && reply_ok(old(self)@, reply) ==> final(self)@.wf(),
    {
        match reply {
            Reply::Id(id) => {
                if ok {
                    let frames = self.users_frames();
                    let rooms = self.serialize_rooms();
                    vec![LobbyAction::LobbyInfo(frames, rooms)]
                } else {
                    self.remove_connection(id);
                    vec![LobbyAction::Forget(id)]
                }
            },
            Reply::NewRoom(user, room, c) => {
                if ok {
                    self.open_room(room, c);
                    let admin = self.remove_connection(user);
                    let frames = self.users_frames();
                    let rooms = self.serialize_rooms();
                    vec![LobbyAction::StartGame(room, admin), LobbyAction::LobbyInfo(frames, rooms)]
                } else {
                    Vec::new()
                }
            },
            Reply::JoinedRoom(user, room) => {
                if ok {
                    let conn = self.remove_connection(user);
                    vec![LobbyAction::EnterGame(room, conn)]
                } else {
                    Vec::new()
                }
            },
        }
    }
}

} // verus!
