//! A lobby without rooms: clients, their names, and the numbering of
//! client ids.
use crate::connection::Connection;
use crate::headers::SendHeader;
use crate::lobby::{admissible, allocate, ids_ok, lemma_allocate, lists_users, same_outcome};
use crate::proto::fields::{frame, framed, string_field};
use crate::proto::proto_all::{users_bytes, Chat, Error, User, Users};
use crate::text::{name_is_incorrect, refusal_error, tag_name, tagged_name, Refusal};
use std::collections::HashMap;
use vstd::prelude::*;

verus! {

broadcast use vstd::std_specs::hash::group_hash_axioms;

/// The state of the lobby.
pub struct Lobby {
    connections: HashMap<u32, String>,
    max_client: u32,
    indices: u32,
    index_pool: Vec<u32>,
}

/// The content of the lobby: the name of each client by id, the limit of
/// ids, the count of ids handed out and the ids handed back for reuse.
pub struct LobbyView {
    pub connections: Map<u32, Seq<char>>,
    pub max_client: u32,
    pub indices: u32,
    pub index_pool: Seq<u32>,
}

impl View for Lobby {
    type V = LobbyView;

    closed spec fn view(&self) -> LobbyView {
        LobbyView {
            connections: self.connections@.map_values(|s: String| s@),
            max_client: self.max_client,
            indices: self.indices,
            index_pool: self.index_pool@,
        }
    }
}

impl LobbyView {
    /// The count is within the limit, the ids handed back are distinct, were
    /// handed out and are free, and the ids in use were handed out.
    pub open spec fn wf(self) -> bool {
        &&& self.indices <= self.max_client
        &&& ids_ok(self.index_pool, self.indices, self.connections.dom())
    }

    /// `add_connection`: takes the next id, then refuses a full server or an
    /// unsuitable name (at most 20 bytes).
    pub open spec fn after_add_connection(self, name: Seq<char>) -> (LobbyView, Result<u32, Refusal>) {
        let (pool, indices, id) = allocate(self.index_pool, self.indices, self.max_client);
        let next = LobbyView { index_pool: pool, indices, ..self };
        if id == 0 {
            (next, Err(Refusal::ServerFull))
        } else if name_is_incorrect(name, 20) {
            (next, Err(Refusal::UnsuitableUsername))
        } else {
            (next, Ok(id))
        }
    }

    /// A client leaves: its id is handed back for reuse.
    pub open spec fn after_disconnect(self, id: u32) -> LobbyView {
        LobbyView {
            connections: self.connections.remove(id),
            index_pool: self.index_pool.push(id),
            ..self
        }
    }
}

impl Lobby {
    pub fn new() -> (l: Self)
        ensures
            l@.connections == Map::<u32, Seq<char>>::empty(),
            l@.max_client == 100,
            l@.indices == 0,
            l@.index_pool == Seq::<u32>::empty(),
            l@.wf(),
    {
        let l = Lobby {
            connections: HashMap::new(),
            max_client: 100,
            indices: 0,
            index_pool: Vec::new(),
        };
        assert(l@.connections =~= Map::<u32, Seq<char>>::empty());
        l
    }

    /// Whether `name` is refused as a user name: shorter than three bytes,
    /// longer than twenty, or holding one of `< > + & % =`.
    pub fn incorrect_username(name: String) -> (r: bool)
        ensures
            r == name_is_incorrect(name@, 20),
    {
        crate::lobby::Lobby::incorrect_name(name, 20)
    }

    /// Gives a client id to a client called `name`, or the error to send back.
    /// The id is taken from the pool or the count before the name is checked.
    pub fn add_connection(&mut self, name: String) -> (res: Result<u32, Error>)
        ensures
            final(self)@ == old(self)@.after_add_connection(name@).0,
            same_outcome(res, old(self)@.after_add_connection(name@).1),
            old(self)@.wf() ==> final(self)@.wf(),
            old(self)@.wf() && res is Ok ==> admissible(
                final(self)@.index_pool,
                final(self)@.indices,
                res->Ok_0,
            ) && !final(self)@.connections.contains_key(res->Ok_0),
    {
        let ghost v0 = self@;
        let id = if self.index_pool.len() > 0 {
            self.index_pool.pop().unwrap()
        } else if self.indices < self.max_client {
            self.indices = self.indices + 1;
            self.indices
        } else {
            0
        };
        proof {
            if v0.wf() {
                lemma_allocate(v0.index_pool, v0.indices, v0.max_client, v0.connections.dom());
            }
        }
        assert(self@ =~= v0.after_add_connection(name@).0);
        if id == 0 {
            return Err(refusal_error(Refusal::ServerFull));
        } else if Self::incorrect_username(name) {
            return Err(refusal_error(Refusal::UnsuitableUsername));
        }
        Ok(id)
    }

    /// Whether client `id` is in the lobby.
    pub fn contains_connection(&self, id: u32) -> (r: bool)
        ensures
            r == self@.connections.contains_key(id),
    {
        self.connections.contains_key(&id)
    }

    /// Puts a client that was given an id in the lobby under that id.
    pub fn insert_connection(&mut self, conn: Connection)
        ensures
            final(self)@ == (LobbyView {
                connections: old(self)@.connections.insert(conn.id, conn.name@),
                ..old(self)@
            }),
            old(self)@.wf() && admissible(old(self)@.index_pool, old(self)@.indices, conn.id)
                ==> final(self)@.wf(),
    {
        let ghost v0 = self@;
        self.connections.insert(conn.id, conn.name);
        assert(self@.connections =~= v0.connections.insert(conn.id, conn.name@));
    }

    /// Takes client `id` out of the lobby because its id could not be
    /// delivered; the id is not handed back.
    pub fn remove_connection(&mut self, id: u32) -> (conn: Connection)
        requires
            old(self)@.connections.contains_key(id),
        ensures
            conn.id == id,
            conn.name@ == old(self)@.connections[id],
            final(self)@ == (LobbyView {
                connections: old(self)@.connections.remove(id),
                ..old(self)@
            }),
            old(self)@.wf() ==> final(self)@.wf(),
    {
        let ghost v0 = self@;
        let name = self.connections.remove(&id).unwrap();
        assert(self@.connections =~= v0.connections.remove(id));
        Connection { id, name }
    }

    /// Client `id` left: it is removed and its id handed back.
    pub fn disconnect(&mut self, id: u32)
        requires
            old(self)@.connections.contains_key(id),
        ensures
            final(self)@ == old(self)@.after_disconnect(id),
            old(self)@.wf() ==> final(self)@.wf(),
    {
        let ghost v0 = self@;
        self.connections.remove(&id).unwrap();
        self.index_pool.push(id);
        assert(self@.connections =~= v0.connections.remove(id));
        assert(self@ =~= v0.after_disconnect(id));
        proof {
            if v0.wf() {
                assert(v0.connections.dom().contains(id));
                assert forall|i: int, j: int|
                    0 <= i < j < self@.index_pool.len() implies self@.index_pool[i]
                    != self@.index_pool[j] by {
                    if j == self@.index_pool.len() - 1 {
                        assert(self@.index_pool[i] == v0.index_pool[i]);
                    } else {
                        assert(v0.index_pool[i] != v0.index_pool[j]);
                    }
                }
            }
        }
    }

    /// An error, framed for sending.
    pub fn serialize_error(err: Error) -> (out: Vec<u8>)
        ensures
            out@ == framed(SendHeader::ERROR, err.wire_bytes()),
    {
        let mut body: Vec<u8> = Vec::new();
        err.write_message(&mut body);
        frame(SendHeader::ERROR, &body)
    }

    /// A chat line of client `id`, shown under `(id) name`, framed for sending.
    pub fn serialize_chat(&self, id: u32, chat: Chat) -> (out: Vec<u8>)
        requires
            self@.connections.contains_key(id),
        ensures
            out@ == framed(
                SendHeader::CHAT,
                string_field(10, tagged_name(id, self@.connections[id])) + string_field(
                    18,
                    chat.message@,
                ),
            ),
    {
        let name = self.connections.get(&id).unwrap();
        let chat = Chat { name: tag_name(id, name), message: chat.message };
        let mut body: Vec<u8> = Vec::new();
        chat.write_message(&mut body);
        frame(SendHeader::CHAT, &body)
    }

    /// The clients of the lobby, each once in the order of the map, with
    /// `my_id` as the receiver, framed for sending.
    pub fn serialize_users(&self, my_id: u32) -> (out: Vec<u8>)
        ensures
            exists|users: Seq<User>|
                lists_users(self@.connections, users) && out@ == framed(
                    SendHeader::USERS,
                    users_bytes(users) + crate::proto::fields::u32_field(16, my_id),
                ),
    {
        let mut u = Users { users: Vec::new(), me: my_id };
        for (k, v) in it: self.connections.iter()
            invariant
                u.me == my_id,
                u.users@.len() == it.index(),
                it.seq().len() == self.connections@.dom().len(),
                forall|i: int|
                    0 <= i < u.users@.len() ==> u.users@[i].id == *it.seq()[i].0
                        && u.users@[i].name@ == (*it.seq()[i].1)@,
                forall|i: int|
                    0 <= i < it.seq().len() ==> #[trigger] self.connections@.contains_key(
                        *it.seq()[i].0,
                    ) && self.connections@[*it.seq()[i].0] == *it.seq()[i].1,
                it.seq().no_duplicates(),
                forall|i: int, j: int|
                    0 <= i < j < u.users@.len() ==> u.users@[i].id != u.users@[j].id,
                forall|i: int|
                    0 <= i < u.users@.len() ==> self@.connections.contains_key(
                        #[trigger] u.users@[i].id,
                    ) && self@.connections[u.users@[i].id] == u.users@[i].name@,
        {
            proof {
                let n = u.users@.len() as int;
                assert forall|i: int| 0 <= i < n implies u.users@[i].id != *k by {
                    if u.users@[i].id == *k {
                        assert(self.connections@.contains_key(*it.seq()[i].0));
                        assert(self.connections@.contains_key(*it.seq()[n].0));
                        assert(it.seq()[i] == it.seq()[n]);
                    }
                }
            }
            let ghost n = u.users@.len() as int;
            u.users.push(User { id: *k, name: v.clone() });
            proof {
                assert(self.connections@.contains_key(*it.seq()[n].0));
            }
        }
        proof {
            assert(self@.connections.dom() =~= self.connections@.dom());
        }
        let mut body: Vec<u8> = Vec::new();
        u.write_message(&mut body);
        assert(lists_users(self@.connections, u.users@));
        frame(SendHeader::USERS, &body)
    }
}

/// The id handed back by a client that leaves is the next one given.
pub proof fn lemma_released_id_is_reused(v: LobbyView, id: u32, name: Seq<char>)
    requires
        v.wf(),
        v.connections.contains_key(id),
        !name_is_incorrect(name, 20),
    ensures
        v.after_disconnect(id).after_add_connection(name).1 == Ok::<u32, Refusal>(id),
{
}

/// Two clients never share an id: an accepted handshake gives an id no
/// client holds, and putting the client under it keeps the invariant.
pub proof fn lemma_handshake_keeps_ids_unique(v: LobbyView, name: Seq<char>)
    requires
        v.wf(),
        v.after_add_connection(name).1 is Ok,
    ensures
        ({
            let (next, res) = v.after_add_connection(name);
            let id = res->Ok_0;
            &&& !v.connections.contains_key(id)
            &&& 1 <= id <= v.max_client
            &&& (LobbyView { connections: next.connections.insert(id, name), ..next }).wf()
        }),
{
    lemma_allocate(v.index_pool, v.indices, v.max_client, v.connections.dom());
}

} // verus!
