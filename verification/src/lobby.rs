//! The lobby: the clients that are not in a game, the rooms that are open,
//! and the numbering of both.

pub mod lobby;
pub mod step;

use crate::connection::Connection;
use crate::headers::SendHeader;
use crate::proto::fields::{frame, framed, string_field, u32_field};
use crate::proto::proto_all::{
    rooms_bytes, users_bytes, Chat, CreateRoom, Error, JoinRoom, Room, RoomView, Rooms, User, Users,
};
use crate::text::{
    lemma_name_rule,
    is_forbidden_char, is_refusal, name_is_incorrect, refusal_error, tag_name,
    tagged_name, Refusal,
};
use std::collections::HashMap;
use vstd::prelude::*;
use vstd::utf8::encode_utf8;

verus! {

broadcast use vstd::std_specs::hash::group_hash_axioms;

/// The most players a room takes.
pub const ROOM_CAPACITY: u32 = 6;

/// The state of the lobby.
pub struct Lobby {
    connections: HashMap<u32, String>,
    max_client: u32,
    connection_indices: u32,
    connection_index_pool: Vec<u32>,
    rooms: HashMap<u32, Room>,
    passwords: HashMap<u32, String>,
    room_indices: u32,
    room_index_pool: Vec<u32>,
}

/// The content of the lobby: the name of each client in it by id; the ids
/// handed back for reuse and the count of ids handed out; the rooms and the
/// passwords of those that have one; the same two for room ids; and the
/// limit of both counts.
pub struct LobbyView {
    pub connections: Map<u32, Seq<char>>,
    pub max_client: u32,
    pub connection_indices: u32,
    pub connection_pool: Seq<u32>,
    pub rooms: Map<u32, RoomView>,
    pub passwords: Map<u32, Seq<char>>,
    pub room_indices: u32,
    pub room_pool: Seq<u32>,
}

impl View for Lobby {
    type V = LobbyView;

    closed spec fn view(&self) -> LobbyView {
        LobbyView {
            connections: self.connections@.map_values(|s: String| s@),
            max_client: self.max_client,
            connection_indices: self.connection_indices,
            connection_pool: self.connection_index_pool@,
            rooms: self.rooms@.map_values(|r: Room| r@),
            passwords: self.passwords@.map_values(|s: String| s@),
            room_indices: self.room_indices,
            room_pool: self.room_index_pool@,
        }
    }
}

/// The next id: the last one handed back if there is one, else the next
/// number if the limit is not reached, else 0 (none). Gives the new pool, the
/// new count and the id.
pub open spec fn allocate(pool: Seq<u32>, indices: u32, max: u32) -> (Seq<u32>, u32, u32) {
    if pool.len() > 0 {
        (pool.drop_last(), indices, pool.last())
    } else if indices < max {
        (pool, (indices + 1) as u32, (indices + 1) as u32)
    } else {
        (pool, indices, 0)
    }
}

/// The ids handed back are distinct, were handed out before and are not in
/// use; the ids in use were handed out before.
pub open spec fn ids_ok(pool: Seq<u32>, indices: u32, used: Set<u32>) -> bool {
    &&& pool.no_duplicates()
    &&& forall|i: int| 0 <= i < pool.len() ==> 1 <= #[trigger] pool[i] <= indices && !used.contains(pool[i])
    &&& forall|k: u32| #[trigger] used.contains(k) ==> 1 <= k <= indices
}

/// `id` may be given to a client or a room: it was handed out and is not
/// waiting for reuse.
pub open spec fn admissible(pool: Seq<u32>, indices: u32, id: u32) -> bool {
    1 <= id <= indices && !pool.contains(id)
}

/// The result of an operation is the one its specification gives: the same
/// id, or the error message of the same refusal.
pub open spec fn same_outcome(res: Result<u32, Error>, spec: Result<u32, Refusal>) -> bool {
    match (res, spec) {
        (Ok(a), Ok(b)) => a == b,
        (Err(e), Err(r)) => is_refusal(e, r),
        _ => false,
    }
}

/// `users` lists the clients of `conns`, each once, in some order.
pub open spec fn lists_users(conns: Map<u32, Seq<char>>, users: Seq<User>) -> bool {
    &&& users.len() == conns.dom().len()
    &&& forall|i: int|
        0 <= i < users.len() ==> conns.contains_key(#[trigger] users[i].id) && conns[users[i].id]
            == users[i].name@
    &&& forall|i: int, j: int| 0 <= i < j < users.len() ==> users[i].id != users[j].id
}

/// `frames` holds, for each client of `conns` once, the users message sent
/// to it: every client listed once, and the receiver named as `me`, framed.
pub open spec fn users_frames_ok(conns: Map<u32, Seq<char>>, frames: Seq<(u32, Vec<u8>)>) -> bool {
    &&& frames.len() == conns.dom().len()
    &&& forall|i: int| 0 <= i < frames.len() ==> conns.contains_key(#[trigger] frames[i].0)
    &&& forall|i: int, j: int| 0 <= i < j < frames.len() ==> frames[i].0 != frames[j].0
    &&& forall|i: int|
        0 <= i < frames.len() ==> exists|users: Seq<User>|
            lists_users(conns, users) && #[trigger] frames[i].1@ == framed(
                SendHeader::USERS,
                users_bytes(users) + u32_field(16, frames[i].0),
            )
}

/// `out` is the rooms message: the rooms of `m`, each once, framed.
pub open spec fn rooms_frame_ok(m: Map<u32, RoomView>, out: Seq<u8>) -> bool {
    exists|rooms: Seq<Room>| lists_rooms(m, rooms) && out == framed(SendHeader::ROOMS, rooms_bytes(rooms))
}

/// `rooms` lists the rooms of `m`, each once, in some order: the rooms
/// stored under distinct keys that cover the map.
pub open spec fn lists_rooms(m: Map<u32, RoomView>, rooms: Seq<Room>) -> bool {
    exists|keys: Seq<u32>|
        {
            &&& keys.len() == rooms.len()
            &&& rooms.len() == m.dom().len()
            &&& keys.no_duplicates()
            &&& forall|i: int|
                0 <= i < keys.len() ==> m.contains_key(#[trigger] keys[i]) && m[keys[i]]
                    == rooms[i]@
        }
}

impl LobbyView {
    /// The invariant of the lobby: counts within the limit, ids handed back
    /// distinct and free, ids in use handed out before, each room stored
    /// under its own id, a password only for a room that exists, and a room
    /// shown as protected exactly when a password is stored for it.
    pub open spec fn wf(self) -> bool {
        &&& self.connection_indices <= self.max_client
        &&& self.room_indices <= self.max_client
        &&& ids_ok(self.connection_pool, self.connection_indices, self.connections.dom())
        &&& ids_ok(self.room_pool, self.room_indices, self.rooms.dom())
        &&& forall|k: u32| #[trigger] self.rooms.contains_key(k) ==> self.rooms[k].id == k
        &&& forall|k: u32| #[trigger] self.passwords.contains_key(k) ==> self.rooms.contains_key(k)
        &&& forall|k: u32|
            #[trigger] self.rooms.contains_key(k) ==> self.rooms[k].password
                == self.passwords.contains_key(k)
    }

    /// `add_connection`: takes the next client id, then refuses a full
    /// server or an unsuitable name (at most 20 bytes).
    pub open spec fn after_add_connection(self, name: Seq<char>) -> (LobbyView, Result<u32, Refusal>) {
        let (pool, indices, id) = allocate(
            self.connection_pool,
            self.connection_indices,
            self.max_client,
        );
        let next = LobbyView { connection_pool: pool, connection_indices: indices, ..self };
        if id == 0 {
            (next, Err(Refusal::ServerFull))
        } else if name_is_incorrect(name, 20) {
            (next, Err(Refusal::UnsuitableUsername))
        } else {
            (next, Ok(id))
        }
    }

    /// `add_room`: takes the next room id, then refuses when no id is left
    /// or the name is unsuitable (at most 100 bytes).
    pub open spec fn after_add_room(self, name: Seq<char>) -> (LobbyView, Result<u32, Refusal>) {
        let (pool, indices, id) = allocate(self.room_pool, self.room_indices, self.max_client);
        let next = LobbyView { room_pool: pool, room_indices: indices, ..self };
        if id == 0 {
            (next, Err(Refusal::RoomLimit))
        } else if name_is_incorrect(name, 100) {
            (next, Err(Refusal::UnsuitableRoomName))
        } else {
            (next, Ok(id))
        }
    }

    /// `join_to_room`: the room must exist, the password must match when the
    /// room has one, and the room must have a free place, which is taken.
    pub open spec fn after_join(self, id: u32, password: Seq<char>) -> (LobbyView, Result<u32, Refusal>) {
        if !self.rooms.contains_key(id) {
            (self, Err(Refusal::RoomNotFound))
        } else if self.passwords.contains_key(id) && self.passwords[id] != password {
            (self, Err(Refusal::WrongPassword))
        } else if self.rooms[id].players < ROOM_CAPACITY {
            let r = self.rooms[id];
            (
                LobbyView {
                    rooms: self.rooms.insert(
                        id,
                        RoomView {
                            id: r.id,
                            name: r.name,
                            password: r.password,
                            players: (r.players + 1) as u32,
                        },
                    ),
                    ..self
                },
                Ok(id),
            )
        } else {
            (self, Err(Refusal::RoomFull))
        }
    }

    /// A client leaves: its id is handed back for reuse.
    pub open spec fn after_disconnect(self, id: u32) -> LobbyView {
        LobbyView {
            connections: self.connections.remove(id),
            connection_pool: self.connection_pool.push(id),
            ..self
        }
    }
}

impl Lobby {
    pub fn new() -> (l: Self)
        ensures
            l@.connections == Map::<u32, Seq<char>>::empty(),
            l@.max_client == 100,
            l@.connection_indices == 0,
            l@.connection_pool == Seq::<u32>::empty(),
            l@.rooms == Map::<u32, RoomView>::empty(),
            l@.passwords == Map::<u32, Seq<char>>::empty(),
            l@.room_indices == 0,
            l@.room_pool == Seq::<u32>::empty(),
            l@.wf(),
    {
        let l = Lobby {
            connections: HashMap::new(),
            max_client: 100,
            connection_indices: 0,
            connection_index_pool: Vec::new(),
            rooms: HashMap::new(),
            passwords: HashMap::new(),
            room_indices: 0,
            room_index_pool: Vec::new(),
        };
        assert(l@.connections =~= Map::<u32, Seq<char>>::empty());
        assert(l@.rooms =~= Map::<u32, RoomView>::empty());
        assert(l@.passwords =~= Map::<u32, Seq<char>>::empty());
        l
    }

    /// Whether `name` is refused as a name of at most `len` bytes: shorter
    /// than three bytes, longer than `len` bytes, or holding one of
    /// `< > + & % =`.
    pub fn incorrect_name(name: String, len: usize) -> (r: bool)
        ensures
            r == name_is_incorrect(name@, len as nat),
    {
        let bytes = name.as_str().as_bytes().len();
        if bytes < 3 || bytes > len {
            return true;
        }
        let n = name.as_str().unicode_len();
        let mut i: usize = 0;
        while i < n
            invariant
                i <= n,
                n == name@.len(),
                forall|j: int| 0 <= j < i ==> !is_forbidden_char(#[trigger] name@[j]),
            decreases n - i,
        {
            let ch = name.as_str().get_char(i);
            if ch == '<' || ch == '>' || ch == '+' || ch == '&' || ch == '%' || ch == '=' {
                assert(is_forbidden_char(name@[i as int]));
                return true;
            }
            i = i + 1;
        }
        false
    }

    /// Gives a room id to a room called `name`, or the error to send back.
    /// The id is taken from the pool or the count before the name is checked.
    pub fn add_room(&mut self, name: String) -> (res: Result<u32, Error>)
        ensures
            final(self)@ == old(self)@.after_add_room(name@).0,
            same_outcome(res, old(self)@.after_add_room(name@).1),
            old(self)@.wf() ==> final(self)@.wf(),
            old(self)@.wf() && res is Ok ==> admissible(
                final(self)@.room_pool,
                final(self)@.room_indices,
                res->Ok_0,
            ) && !final(self)@.rooms.contains_key(res->Ok_0),
            old(self)@.wf() && (old(self)@.room_pool.len() > 0 || old(self)@.room_indices
                < old(self)@.max_client) && 3 <= encode_utf8(name@).len() <= 100 && (forall|i: int|
                0 <= i < name@.len() ==> name@[i] != '<' && name@[i] != '>' && name@[i] != '+'
                    && name@[i] != '&' && name@[i] != '%' && name@[i] != '=') ==> res is Ok,
            encode_utf8(name@).len() < 3 || encode_utf8(name@).len() > 100 || (exists|i: int|
                0 <= i < name@.len() && (name@[i] == '<' || name@[i] == '>' || name@[i] == '+'
                    || name@[i] == '&' || name@[i] == '%' || name@[i] == '=')) ==> res is Err,
    {
        proof {
            lemma_name_rule(name@, 100);
        }
        let ghost v0 = self@;
        let id = if self.room_index_pool.len() > 0 {
            self.room_index_pool.pop().unwrap()
        } else if self.room_indices < self.max_client {
            self.room_indices = self.room_indices + 1;
            self.room_indices
        } else {
            0
        };
        proof {
            if v0.wf() {
                lemma_allocate(v0.room_pool, v0.room_indices, v0.max_client, v0.rooms.dom());
            }
        }
        assert(self@ =~= v0.after_add_room(name@).0);
        if id == 0 {
            return Err(refusal_error(Refusal::RoomLimit));
        } else if Self::incorrect_name(name, 100) {
            return Err(refusal_error(Refusal::UnsuitableRoomName));
        }
        Ok(id)
    }

    /// Lets a client into the room it asks for, taking one place, or gives
    /// the error to send back. Gives the room id.
    pub fn join_to_room(&mut self, join_room: JoinRoom) -> (res: Result<u32, Error>)
        ensures
            final(self)@ == old(self)@.after_join(join_room.id, join_room.password@).0,
            same_outcome(res, old(self)@.after_join(join_room.id, join_room.password@).1),
            old(self)@.wf() ==> final(self)@.wf(),
            !old(self)@.rooms.contains_key(join_room.id) ==> final(self)@ == old(self)@ && (
            res matches Err(e) && is_refusal(e, Refusal::RoomNotFound)),
            old(self)@.rooms.contains_key(join_room.id) && old(self)@.passwords.contains_key(
                join_room.id,
            ) && old(self)@.passwords[join_room.id] != join_room.password@ ==> final(self)@ == old(
                self,
            )@ && (res matches Err(e) && is_refusal(e, Refusal::WrongPassword)),
            old(self)@.rooms.contains_key(join_room.id) && (!old(self)@.passwords.contains_key(
                join_room.id,
            ) || old(self)@.passwords[join_room.id] == join_room.password@) ==> if old(
                self,
            )@.rooms[join_room.id].players < 6 {
                res == Ok::<u32, Error>(join_room.id) && final(self)@.rooms.dom() == old(
                    self,
                )@.rooms.dom() && final(self)@.rooms[join_room.id].players == old(
                    self,
                )@.rooms[join_room.id].players + 1 && final(self)@.rooms[join_room.id].id == old(
                    self,
                )@.rooms[join_room.id].id && final(self)@.rooms[join_room.id].name == old(
                    self,
                )@.rooms[join_room.id].name && final(self)@.rooms[join_room.id].password == old(
                    self,
                )@.rooms[join_room.id].password
            } else {
                final(self)@ == old(self)@ && (res matches Err(e) && is_refusal(
                    e,
                    Refusal::RoomFull,
                ))
            },
    {
        let ghost v0 = self@;
        let id = join_room.id;
        match self.rooms.get(&id) {
            None => Err(refusal_error(Refusal::RoomNotFound)),
            Some(room) => {
                let players = room.players;
                let allowed = match self.passwords.get(&id) {
                    Some(pass) => pass.eq(&join_room.password),
                    None => true,
                };
                if !allowed {
                    Err(refusal_error(Refusal::WrongPassword))
                } else if players < ROOM_CAPACITY {
                    let joined = Room {
                        id: room.id,
                        name: room.name.clone(),
                        password: room.password,
                        players: players + 1,
                    };
                    self.rooms.insert(id, joined);
                    assert(self@.rooms =~= v0.after_join(id, join_room.password@).0.rooms);
                    assert(self@ =~= v0.after_join(id, join_room.password@).0);
                    Ok(id)
                } else {
                    Err(refusal_error(Refusal::RoomFull))
                }
            },
        }
    }

    /// Gives a client id to a client called `name`, or the error to send back.
    /// The id is taken from the pool or the count before the name is checked.
    pub fn add_connection(&mut self, name: String) -> (res: Result<u32, Error>)
        ensures
            final(self)@ == old(self)@.after_add_connection(name@).0,
            same_outcome(res, old(self)@.after_add_connection(name@).1),
            old(self)@.wf() ==> final(self)@.wf(),
            old(self)@.wf() && res is Ok ==> admissible(
                final(self)@.connection_pool,
                final(self)@.connection_indices,
                res->Ok_0,
            ) && !final(self)@.connections.contains_key(res->Ok_0),
            old(self)@.wf() && (old(self)@.connection_pool.len() > 0
                || old(self)@.connection_indices < old(self)@.max_client) && 3 <= encode_utf8(
                name@,
            ).len() <= 20 && (forall|i: int|
                0 <= i < name@.len() ==> name@[i] != '<' && name@[i] != '>' && name@[i] != '+'
                    && name@[i] != '&' && name@[i] != '%' && name@[i] != '=') ==> res is Ok,
            encode_utf8(name@).len() < 3 || encode_utf8(name@).len() > 20 || (exists|i: int|
                0 <= i < name@.len() && (name@[i] == '<' || name@[i] == '>' || name@[i] == '+'
                    || name@[i] == '&' || name@[i] == '%' || name@[i] == '=')) ==> res is Err,
    {
        proof {
            lemma_name_rule(name@, 20);
        }
        let ghost v0 = self@;
        let id = if self.connection_index_pool.len() > 0 {
            self.connection_index_pool.pop().unwrap()
        } else if self.connection_indices < self.max_client {
            self.connection_indices = self.connection_indices + 1;
            self.connection_indices
        } else {
            0
        };
        proof {
            if v0.wf() {
                lemma_allocate(
                    v0.connection_pool,
                    v0.connection_indices,
                    v0.max_client,
                    v0.connections.dom(),
                );
            }
        }
        assert(self@ =~= v0.after_add_connection(name@).0);
        if id == 0 {
            return Err(refusal_error(Refusal::ServerFull));
        } else if Self::incorrect_name(name, 20) {
            return Err(refusal_error(Refusal::UnsuitableUsername));
        }
        Ok(id)
    }

    /// Whether client `id` is in the lobby.
    pub fn contains_connection(&self, id: u32) -> (r: bool)
        ensures
            r == self@.connections.contains_key(id),
    {
        self.connections.contains_key(&id)
    }

    /// Whether room `id` is open.
    pub fn contains_room(&self, id: u32) -> (r: bool)
        ensures
            r == self@.rooms.contains_key(id),
    {
        self.rooms.contains_key(&id)
    }

    /// Puts a client in the lobby under its id: one that was just given an
    /// id, or one coming back from a game.
    pub fn insert_connection(&mut self, conn: Connection)
        ensures
            final(self)@ == (LobbyView {
                connections: old(self)@.connections.insert(conn.id, conn.name@),
                ..old(self)@
            }),
            old(self)@.wf() && admissible(
                old(self)@.connection_pool,
                old(self)@.connection_indices,
                conn.id,
            ) ==> final(self)@.wf(),
    {
        let ghost v0 = self@;
        self.connections.insert(conn.id, conn.name);
        assert(self@.connections =~= v0.connections.insert(conn.id, conn.name@));
    }

    /// Takes client `id` out of the lobby, to a game or because its id could
    /// not be delivered; the id is not handed back.
    pub fn remove_connection(&mut self, id: u32) -> (conn: Connection)
        requires
            old(self)@.connections.contains_key(id),
        ensures
            conn.id == id,
            conn.name@ == old(self)@.connections[id],
            final(self)@ == (LobbyView {
                connections: old(self)@.connections.remove(id),
                ..old(self)@
            }),
            old(self)@.wf() ==> final(self)@.wf(),
    {
        let ghost v0 = self@;
        let name = self.connections.remove(&id).unwrap();
        assert(self@.connections =~= v0.connections.remove(id));
        Connection { id, name }
    }

    /// Client `id` left the lobby: it is removed and its id handed back.
    pub fn disconnect(&mut self, id: u32)
        requires
            old(self)@.connections.contains_key(id),
        ensures
            final(self)@ == old(self)@.after_disconnect(id),
            old(self)@.wf() ==> final(self)@.wf(),
    {
        let ghost v0 = self@;
        self.connections.remove(&id).unwrap();
        self.connection_index_pool.push(id);
        assert(self@.connections =~= v0.connections.remove(id));
        assert(self@ =~= v0.after_disconnect(id));
        proof {
            if v0.wf() {
                assert(v0.connections.dom().contains(id));
                assert forall|i: int, j: int|
                    0 <= i < j < self@.connection_pool.len() implies self@.connection_pool[i]
                    != self@.connection_pool[j] by {
                    if j == self@.connection_pool.len() - 1 {
                        assert(self@.connection_pool[i] == v0.connection_pool[i]);
                    } else {
                        assert(v0.connection_pool[i] != v0.connection_pool[j]);
                    }
                }
            }
        }
    }

    /// Opens room `room_id` as `create_room` asks: with a password when the
    /// one given is not empty, and with one player.
    pub fn open_room(&mut self, room_id: u32, create_room: CreateRoom)
        ensures
            final(self)@ == (LobbyView {
                rooms: old(self)@.rooms.insert(
                    room_id,
                    RoomView {
                        id: room_id,
                        name: create_room.name@,
                        password: create_room.password@.len() > 0,
                        players: 1,
                    },
                ),
                passwords: if create_room.password@.len() > 0 {
                    old(self)@.passwords.insert(room_id, create_room.password@)
                } else {
                    old(self)@.passwords
                },
                ..old(self)@
            }),
            old(self)@.wf() && admissible(old(self)@.room_pool, old(self)@.room_indices, room_id)
                && !old(self)@.rooms.contains_key(room_id) ==> final(self)@.wf(),
    {
        let ghost v0 = self@;
        let password = !create_room.password.as_str().is_empty();
        let room = Room { id: room_id, name: create_room.name, password, players: 1 };
        if password {
            self.passwords.insert(room_id, create_room.password);
        }
        self.rooms.insert(room_id, room);
        assert(self@.rooms =~= v0.rooms.insert(
            room_id,
            RoomView {
                id: room_id,
                name: create_room.name@,
                password: create_room.password@.len() > 0,
                players: 1,
            },
        ));
        assert(self@.passwords =~= (if create_room.password@.len() > 0 {
            v0.passwords.insert(room_id, create_room.password@)
        } else {
            v0.passwords
        }));
    }

    /// A room reports its number of players: with none it is closed and its
    /// password dropped, else its count is updated.
    pub fn player_count(&mut self, room_id: u32, len: usize)
        requires
            old(self)@.rooms.contains_key(room_id),
        ensures
            len == 0 ==> final(self)@ == (LobbyView {
                rooms: old(self)@.rooms.remove(room_id),
                passwords: old(self)@.passwords.remove(room_id),
                ..old(self)@
            }),
            len != 0 ==> final(self)@ == (LobbyView {
                rooms: old(self)@.rooms.insert(
                    room_id,
                    RoomView { players: len as u32, ..old(self)@.rooms[room_id] },
                ),
                ..old(self)@
            }),
            old(self)@.wf() ==> final(self)@.wf(),
            len == 0 ==> !final(self)@.rooms.contains_key(room_id),
            len != 0 ==> final(self)@.rooms.contains_key(room_id) && final(self)@.rooms[room_id].players
                == len as u32 && (len <= u32::MAX ==> final(self)@.rooms[room_id].players == len),
    {
        let ghost v0 = self@;
        if len == 0 {
            self.rooms.remove(&room_id).unwrap();
            let _ = self.passwords.remove(&room_id);
            assert(self@.rooms =~= v0.rooms.remove(room_id));
            assert(self@.passwords =~= v0.passwords.remove(room_id));
        } else {
            let room = self.rooms.remove(&room_id).unwrap();
            let updated = Room {
                id: room.id,
                name: room.name,
                password: room.password,
                players: len as u32,
            };
            self.rooms.insert(room_id, updated);
            assert(self@.rooms =~= v0.rooms.insert(
                room_id,
                RoomView { players: len as u32, ..v0.rooms[room_id] },
            ));
        }
    }

    /// The clients of the lobby, each once, in the order of the map.
    pub fn users_list(&self) -> (users: Vec<User>)
        ensures
            lists_users(self@.connections, users@),
    {
        let mut users: Vec<User> = Vec::new();
        for (k, v) in it: self.connections.iter()
            invariant
                users@.len() == it.index(),
                it.seq().len() == self.connections@.dom().len(),
                forall|i: int|
                    0 <= i < users@.len() ==> users@[i].id == *it.seq()[i].0 && users@[i].name@
                        == (*it.seq()[i].1)@,
                forall|i: int|
                    0 <= i < it.seq().len() ==> #[trigger] self.connections@.contains_key(
                        *it.seq()[i].0,
                    ) && self.connections@[*it.seq()[i].0] == *it.seq()[i].1,
                it.seq().no_duplicates(),
                forall|i: int, j: int| 0 <= i < j < users@.len() ==> users@[i].id != users@[j].id,
                forall|i: int|
                    0 <= i < users@.len() ==> self@.connections.contains_key(#[trigger] users@[i].id)
                        && self@.connections[users@[i].id] == users@[i].name@,
        {
            proof {
                let n = users@.len() as int;
                assert forall|i: int| 0 <= i < n implies users@[i].id != *k by {
                    if users@[i].id == *k {
                        assert(self.connections@.contains_key(*it.seq()[i].0));
                        assert(self.connections@.contains_key(*it.seq()[n].0));
                        assert(it.seq()[i] == it.seq()[n]);
                    }
                }
            }
            let ghost n = users@.len() as int;
            users.push(User { id: *k, name: v.clone() });
            proof {
                assert(self.connections@.contains_key(*it.seq()[n].0));
                assert(self@.connections.contains_key(users@[n].id));
            }
        }
        proof {
            assert(self@.connections.dom() =~= self.connections@.dom());
        }
        users
    }

    /// The rooms of the lobby, each once, in the order of the map.
    pub fn rooms_list(&self) -> (rooms: Vec<Room>)
        ensures
            lists_rooms(self@.rooms, rooms@),
    {
        let mut rooms: Vec<Room> = Vec::new();
        let ghost mut keys: Seq<u32> = Seq::empty();
        for (k, v) in it: self.rooms.iter()
            invariant
                rooms@.len() == it.index(),
                keys.len() == it.index(),
                it.seq().len() == self.rooms@.dom().len(),
                forall|i: int| 0 <= i < rooms@.len() ==> rooms@[i]@ == (*it.seq()[i].1)@,
                forall|i: int| 0 <= i < keys.len() ==> keys[i] == *it.seq()[i].0,
                forall|i: int|
                    0 <= i < it.seq().len() ==> #[trigger] self.rooms@.contains_key(*it.seq()[i].0)
                        && self.rooms@[*it.seq()[i].0] == *it.seq()[i].1,
                it.seq().no_duplicates(),
                keys.no_duplicates(),
                forall|i: int|
                    0 <= i < keys.len() ==> self@.rooms.contains_key(#[trigger] keys[i])
                        && self@.rooms[keys[i]] == rooms@[i]@,
        {
            proof {
                let n = rooms@.len() as int;
                assert forall|i: int| 0 <= i < n implies keys[i] != *k by {
                    if keys[i] == *k {
                        assert(self.rooms@.contains_key(*it.seq()[i].0));
                        assert(self.rooms@.contains_key(*it.seq()[n].0));
                        assert(it.seq()[i] == it.seq()[n]);
                    }
                }
            }
            let ghost n = rooms@.len() as int;
            rooms.push(Room { id: v.id, name: v.name.clone(), password: v.password, players: v.players });
            proof {
                keys = keys.push(*k);
                assert(self.rooms@.contains_key(*it.seq()[n].0));
            }
        }
        proof {
            assert(self@.rooms.dom() =~= self.rooms@.dom());
        }
        rooms
    }

    /// An error, framed for sending.
    pub fn serialize_error(err: Error) -> (out: Vec<u8>)
        ensures
            out@ == framed(SendHeader::ERROR, err.wire_bytes()),
    {
        let mut body: Vec<u8> = Vec::new();
        err.write_message(&mut body);
        frame(SendHeader::ERROR, &body)
    }

    /// A chat line of client `id`, shown under `(id) name`, framed for sending.
    pub fn serialize_chat(&self, id: u32, chat: Chat) -> (out: Vec<u8>)
        requires
            self@.connections.contains_key(id),
        ensures
            out@ == framed(
                SendHeader::LOBBY_CHAT,
                string_field(10, tagged_name(id, self@.connections[id])) + string_field(
                    18,
                    chat.message@,
                ),
            ),
    {
        let name = self.connections.get(&id).unwrap();
        let chat = Chat { name: tag_name(id, name), message: chat.message };
        let mut body: Vec<u8> = Vec::new();
        chat.write_message(&mut body);
        frame(SendHeader::LOBBY_CHAT, &body)
    }

    /// The list of users, framed for sending.
    pub fn serialize_users(users: Users) -> (out: Vec<u8>)
        ensures
            out@ == framed(SendHeader::USERS, users.wire_bytes()),
    {
        let mut body: Vec<u8> = Vec::new();
        users.write_message(&mut body);
        frame(SendHeader::USERS, &body)
    }

    /// The users message for each client of the lobby, framed for sending:
    /// one per client, each naming its receiver as `me`, and each listing
    /// every client of the lobby once.
    pub fn users_frames(&self) -> (frames: Vec<(u32, Vec<u8>)>)
        ensures
            users_frames_ok(self@.connections, frames@),
    {
        let receivers = self.users_list();
        let mut frames: Vec<(u32, Vec<u8>)> = Vec::new();
        let mut i: usize = 0;
        while i < receivers.len()
            invariant
                i <= receivers@.len(),
                lists_users(self@.connections, receivers@),
                frames@.len() == i,
                forall|k: int| 0 <= k < i ==> (#[trigger] frames@[k]).0 == receivers@[k].id,
                forall|k: int|
                    0 <= k < i ==> exists|users: Seq<User>|
                        lists_users(self@.connections, users) && #[trigger] frames@[k].1@
                            == framed(SendHeader::USERS, users_bytes(users) + u32_field(16, frames@[k].0)),
            decreases receivers@.len() - i,
        {
            let id = receivers[i].id;
            let users = self.users_list();
            let ghost listed = users@;
            let u = Users { users, me: id };
            let frame = Self::serialize_users(u);
            assert(frame@ == framed(SendHeader::USERS, users_bytes(listed) + u32_field(16, id)));
            frames.push((id, frame));
            proof {
                assert(frames@[i as int].1@ == framed(
                    SendHeader::USERS,
                    users_bytes(listed) + u32_field(16, frames@[i as int].0),
                ));
            }
            i = i + 1;
        }
        assert(users_frames_ok(self@.connections, frames@)) by {
            assert forall|k: int| 0 <= k < frames@.len() implies self@.connections.contains_key(
                #[trigger] frames@[k].0,
            ) by {
                assert(frames@[k].0 == receivers@[k].id);
            }
        }
        frames
    }

    /// The list of the lobby's rooms, in the order of the map, framed for sending.
    pub fn serialize_rooms(&self) -> (out: Vec<u8>)
        ensures
            rooms_frame_ok(self@.rooms, out@),
    {
        let rooms = Rooms { rooms: self.rooms_list() };
        let mut body: Vec<u8> = Vec::new();
        rooms.write_message(&mut body);
        let out = frame(SendHeader::ROOMS, &body);
        assert(lists_rooms(self@.rooms, rooms.rooms@));
        out
    }
}

/// Taking the next id keeps the pool and count consistent with the ids in
/// use, and an id that is given is free and admissible.
pub proof fn lemma_allocate(pool: Seq<u32>, indices: u32, max: u32, used: Set<u32>)
    requires
        indices <= max,
        ids_ok(pool, indices, used),
    ensures
        ({
            let (p, n, id) = allocate(pool, indices, max);
            &&& n <= max
            &&& ids_ok(p, n, used)
            &&& id != 0 ==> admissible(p, n, id) && !used.contains(id)
        }),
{
    let (p, n, id) = allocate(pool, indices, max);
    if pool.len() > 0 {
        assert(pool[pool.len() - 1] == id);
        assert forall|i: int| 0 <= i < p.len() implies p[i] != id by {
            assert(pool[i] != pool[pool.len() - 1]);
        }
    }
}

/// The id handed back by a client that leaves is the next one given: after
/// `disconnect(id)`, `add_connection` with a suitable name answers `Ok(id)`.
pub proof fn lemma_released_id_is_reused(v: LobbyView, id: u32, name: Seq<char>)
    requires
        v.wf(),
        v.connections.contains_key(id),
        !name_is_incorrect(name, 20),
    ensures
        v.after_disconnect(id).after_add_connection(name).1 == Ok::<u32, Refusal>(id),
{
}

/// Two clients never share an id: a handshake that `add_connection` accepts
/// gives an id that no client in the lobby holds, and putting the client in
/// the lobby under it keeps the invariant.
pub proof fn lemma_handshake_keeps_ids_unique(v: LobbyView, name: Seq<char>)
    requires
        v.wf(),
        v.after_add_connection(name).1 is Ok,
    ensures
        ({
            let (next, res) = v.after_add_connection(name);
            let id = res->Ok_0;
            &&& !v.connections.contains_key(id)
            &&& 1 <= id <= v.max_client
            &&& (LobbyView { connections: next.connections.insert(id, name), ..next }).wf()
        }),
{
    lemma_allocate(v.connection_pool, v.connection_indices, v.max_client, v.connections.dom());
}

/// A room opened on a room id that `add_room` gave keeps the invariant, and
/// no open room held that id.
pub proof fn lemma_opened_room_is_new(v: LobbyView, name: Seq<char>, password: Seq<char>)
    requires
        v.wf(),
        v.after_add_room(name).1 is Ok,
    ensures
        ({
            let (next, res) = v.after_add_room(name);
            let id = res->Ok_0;
            &&& !v.rooms.contains_key(id)
            &&& (LobbyView {
                rooms: next.rooms.insert(
                    id,
                    RoomView { id, name, password: password.len() > 0, players: 1 },
                ),
                passwords: if password.len() > 0 {
                    next.passwords.insert(id, password)
                } else {
                    next.passwords
                },
                ..next
            }).wf()
        }),
{
    lemma_allocate(v.room_pool, v.room_indices, v.max_client, v.rooms.dom());
}

/// A room that holds a password refuses a join with any other password,
/// the empty one included, and the lobby stays as it was.
pub proof fn lemma_wrong_password_refused(v: LobbyView, id: u32, password: Seq<char>)
    requires
        v.rooms.contains_key(id),
        v.passwords.contains_key(id),
        v.passwords[id] != password,
    ensures
        v.after_join(id, password) == (v, Err::<u32, Refusal>(Refusal::WrongPassword)),
{
}

/// Room names of 3 to 100 bytes that hold none of `< > + & % =` are
/// accepted whenever a room id is free; user names are held to 20 bytes.
pub proof fn lemma_name_bounds(v: LobbyView, name: Seq<char>)
    requires
        v.wf(),
        3 <= encode_utf8(name).len(),
        forall|i: int|
            0 <= i < name.len() ==> name[i] != '<' && name[i] != '>' && name[i] != '+' && name[i]
                != '&' && name[i] != '%' && name[i] != '=',
    ensures
        encode_utf8(name).len() <= 100 && (v.room_pool.len() > 0 || v.room_indices < v.max_client)
            ==> v.after_add_room(name).1 is Ok,
        encode_utf8(name).len() > 100 ==> v.after_add_room(name).1 is Err,
        encode_utf8(name).len() <= 20 && (v.connection_pool.len() > 0 || v.connection_indices
            < v.max_client) ==> v.after_add_connection(name).1 is Ok,
        encode_utf8(name).len() > 20 ==> v.after_add_connection(name).1 is Err,
{
    lemma_name_rule(name, 100);
    lemma_name_rule(name, 20);
    if v.room_pool.len() > 0 {
        assert(1 <= v.room_pool[v.room_pool.len() - 1]);
    }
    if v.connection_pool.len() > 0 {
        assert(1 <= v.connection_pool[v.connection_pool.len() - 1]);
    }
}

/// Joining never fills a room beyond its capacity: when no room holds more
/// than six players, none does after a join.
pub proof fn lemma_join_respects_capacity(v: LobbyView, id: u32, password: Seq<char>)
    requires
        forall|k: u32| #[trigger] v.rooms.contains_key(k) ==> v.rooms[k].players <= ROOM_CAPACITY,
    ensures
        forall|k: u32|
            #[trigger] v.after_join(id, password).0.rooms.contains_key(k) ==> v.after_join(
                id,
                password,
            ).0.rooms[k].players <= ROOM_CAPACITY,
{
}

/// A refused join leaves the lobby as it was; an accepted one takes one
/// place in that room and changes nothing else.
pub proof fn lemma_join_outcome(v: LobbyView, id: u32, password: Seq<char>)
    ensures
        v.after_join(id, password).1 is Err ==> v.after_join(id, password).0 == v,
        v.after_join(id, password).1 is Ok ==> {
            let w = v.after_join(id, password).0;
            &&& w.rooms.dom() == v.rooms.dom()
            &&& w.rooms[id].players == v.rooms[id].players + 1
            &&& w.connections == v.connections
            &&& w.passwords == v.passwords
        },
{
    if v.after_join(id, password).1 is Ok {
        assert(v.after_join(id, password).0.rooms.dom() =~= v.rooms.dom());
    }
}

} // verus!
