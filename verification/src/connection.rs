//! A client connection: its record, and the reading of what it sends.
use crate::events::{GameEvents, LobbyEvents};
use crate::headers::ReceiveHeader;
use crate::proto::proto_all::{Chat, CreateRoom, GameInput, Handshake, JoinRoom};
use crate::proto::wire::ProtoError;
use vstd::prelude::*;

verus! {

/// The longest chat message body that is accepted, exclusive.
pub const CHAT_LIMIT: usize = 105;

/// The longest handshake message that is accepted, inclusive.
pub const HANDSHAKE_LIMIT: usize = 200;

/// A client known to the server: its id and the name it chose. The socket
/// that reaches it is held by the server loop next to this record.
#[derive(Clone, Debug)]
pub struct Connection {
    pub id: u32,
    pub name: String,
}

/// What a message received in a game means.
#[derive(Debug)]
pub enum GameMessage {
    /// An event for the game.
    Event(GameEvents),
    /// The client asks to go back to the lobby.
    QuitToLobby,
    /// Anything else, which is dropped.
    Ignored,
}

/// `res` is what `parse_receive_game` gives for client `id`, header `header`
/// and body `msg`: a chat line of a body under 105 bytes, controls, or an
/// undefined header; a body that does not decode gives the decoding error.
pub open spec fn game_parse(id: u32, header: u8, msg: Seq<u8>, res: Result<GameEvents, ProtoError>) -> bool {
    if header == ReceiveHeader::GAME_CHAT && msg.len() < CHAT_LIMIT {
        match res {
            Ok(GameEvents::Chat(i, c)) => i == id && Chat::decoded(msg, Ok(c)),
            Ok(_) => false,
            Err(e) => Chat::decoded(msg, Err(e)),
        }
    } else if header == ReceiveHeader::GAME_INPUT {
        match res {
            Ok(GameEvents::Input(i, g)) => i == id && GameInput::decoded(msg, Ok(g)),
            Ok(_) => false,
            Err(e) => GameInput::decoded(msg, Err(e)),
        }
    } else {
        res == Err::<GameEvents, ProtoError>(ProtoError::UndefinedHeader)
    }
}

/// `res` is what `parse_receive_lobby` gives for client `id` and a message
/// whose first byte is the header: a room creation, a room join, a chat line
/// of a body under 105 bytes, or an undefined header; a body that does not
/// decode gives the decoding error.
pub open spec fn lobby_parse(id: u32, msg: Seq<u8>, res: Result<LobbyEvents, ProtoError>) -> bool {
    let header = msg[0];
    let body = msg.drop_first();
    if header == ReceiveHeader::CREATE_ROOM {
        match res {
            Ok(LobbyEvents::CreateRoom(i, c)) => i == id && CreateRoom::decoded(body, Ok(c)),
            Ok(_) => false,
            Err(e) => CreateRoom::decoded(body, Err(e)),
        }
    } else if header == ReceiveHeader::JOIN_ROOM {
        match res {
            Ok(LobbyEvents::JoinRoom(i, j)) => i == id && JoinRoom::decoded(body, Ok(j)),
            Ok(_) => false,
            Err(e) => JoinRoom::decoded(body, Err(e)),
        }
    } else if header == ReceiveHeader::LOBBY_CHAT && body.len() < CHAT_LIMIT {
        match res {
            Ok(LobbyEvents::Chat(i, c)) => i == id && Chat::decoded(body, Ok(c)),
            Ok(_) => false,
            Err(e) => Chat::decoded(body, Err(e)),
        }
    } else {
        res == Err::<LobbyEvents, ProtoError>(ProtoError::UndefinedHeader)
    }
}

/// A lobby chat line whose body has 105 bytes or more is refused as an
/// undefined header, whatever it holds.
pub proof fn lemma_long_lobby_chat_refused(id: u32, msg: Seq<u8>, res: Result<LobbyEvents, ProtoError>)
    requires
        msg.len() > CHAT_LIMIT,
        msg[0] == ReceiveHeader::LOBBY_CHAT,
        lobby_parse(id, msg, res),
    ensures
        res == Err::<LobbyEvents, ProtoError>(ProtoError::UndefinedHeader),
{
}

/// A game chat line whose body has 105 bytes or more is refused as an
/// undefined header, whatever it holds.
pub proof fn lemma_long_game_chat_refused(
    id: u32,
    header: u8,
    msg: Seq<u8>,
    res: Result<GameEvents, ProtoError>,
)
    requires
        msg.len() >= CHAT_LIMIT,
        header == ReceiveHeader::GAME_CHAT,
        game_parse(id, header, msg, res),
    ensures
        res == Err::<GameEvents, ProtoError>(ProtoError::UndefinedHeader),
{
}

impl Connection {
    /// A connection that has no id yet.
    pub fn new(name: String) -> (c: Self)
        ensures
            c.id == 0,
            c.name@ == name@,
    {
        Connection { id: 0, name }
    }

    /// Reads a message that client `id` sent in a game, its header removed.
    /// A chat line or controls that a client wrote, under their header, are
    /// read as written.
    pub fn parse_receive_game(id: u32, header: u8, msg: Vec<u8>) -> (res: Result<GameEvents, ProtoError>)
        ensures
            game_parse(id, header, msg@, res),
            forall|c: Chat|
                #[trigger] c.wire_bytes() == msg@ && c.readable() && header
                    == ReceiveHeader::GAME_CHAT && msg@.len() < CHAT_LIMIT ==> (res matches Ok(
                    GameEvents::Chat(i, d),
                ) && i == id && d.same_as(c)),
            forall|g: GameInput|
                #[trigger] g.wire_bytes() == msg@ && g.readable() && header
                    == ReceiveHeader::GAME_INPUT ==> (res matches Ok(GameEvents::Input(i, d)) && i
                    == id && d.same_as(g)),
            header == ReceiveHeader::GAME_CHAT && msg@.len() >= CHAT_LIMIT ==> res == Err::<
                GameEvents,
                ProtoError,
            >(ProtoError::UndefinedHeader),
            header != ReceiveHeader::GAME_CHAT && header != ReceiveHeader::GAME_INPUT ==> res
                == Err::<GameEvents, ProtoError>(ProtoError::UndefinedHeader),
            res matches Ok(GameEvents::Chat(_, _)) ==> header == ReceiveHeader::GAME_CHAT
                && msg@.len() < CHAT_LIMIT,
    {
        if header == ReceiveHeader::GAME_CHAT && msg.len() < CHAT_LIMIT {
            match Chat::from_reader(msg.as_slice()) {
                Ok(c) => Ok(GameEvents::Chat(id, c)),
                Err(e) => Err(e),
            }
        } else if header == ReceiveHeader::GAME_INPUT {
            match GameInput::from_reader(msg.as_slice()) {
                Ok(g) => Ok(GameEvents::Input(id, g)),
                Err(e) => Err(e),
            }
        } else {
            Err(ProtoError::UndefinedHeader)
        }
    }

    /// Reads a message that client `id` sent in the lobby; its first byte is
    /// the header.
    /// A request or chat line that a client wrote, under its header, is read
    /// as written.
    pub fn parse_receive_lobby(id: u32, msg: Vec<u8>) -> (res: Result<LobbyEvents, ProtoError>)
        requires
            msg@.len() > 0,
        ensures
            lobby_parse(id, msg@, res),
            forall|c: CreateRoom|
                #[trigger] c.wire_bytes() == msg@.drop_first() && c.readable() && msg@[0]
                    == ReceiveHeader::CREATE_ROOM ==> (res matches Ok(LobbyEvents::CreateRoom(i, d))
                    && i == id && d.same_as(c)),
            forall|j: JoinRoom|
                #[trigger] j.wire_bytes() == msg@.drop_first() && j.readable() && msg@[0]
                    == ReceiveHeader::JOIN_ROOM ==> (res matches Ok(LobbyEvents::JoinRoom(i, d))
                    && i == id && d.same_as(j)),
            forall|c: Chat|
                #[trigger] c.wire_bytes() == msg@.drop_first() && c.readable() && msg@[0]
                    == ReceiveHeader::LOBBY_CHAT && msg@.len() <= CHAT_LIMIT ==> (res matches Ok(
                    LobbyEvents::Chat(i, d),
                ) && i == id && d.same_as(c)),
            msg@[0] == ReceiveHeader::LOBBY_CHAT && msg@.len() > CHAT_LIMIT ==> res == Err::<
                LobbyEvents,
                ProtoError,
            >(ProtoError::UndefinedHeader),
            msg@[0] != ReceiveHeader::CREATE_ROOM && msg@[0] != ReceiveHeader::JOIN_ROOM && msg@[0]
                != ReceiveHeader::LOBBY_CHAT ==> res == Err::<LobbyEvents, ProtoError>(
                ProtoError::UndefinedHeader,
            ),
            res matches Ok(LobbyEvents::Chat(_, _)) ==> msg@[0] == ReceiveHeader::LOBBY_CHAT
                && msg@.len() <= CHAT_LIMIT,
    {
        let mut msg = msg;
        let ghost whole = msg@;
        let header = msg.remove(0);
        assert(msg@ =~= whole.drop_first());
        if header == ReceiveHeader::CREATE_ROOM {
            match CreateRoom::from_reader(msg.as_slice()) {
                Ok(c) => Ok(LobbyEvents::CreateRoom(id, c)),
                Err(e) => Err(e),
            }
        } else if header == ReceiveHeader::JOIN_ROOM {
            match JoinRoom::from_reader(msg.as_slice()) {
                Ok(j) => Ok(LobbyEvents::JoinRoom(id, j)),
                Err(e) => Err(e),
            }
        } else if header == ReceiveHeader::LOBBY_CHAT && msg.len() < CHAT_LIMIT {
            match Chat::from_reader(msg.as_slice()) {
                Ok(c) => Ok(LobbyEvents::Chat(id, c)),
                Err(e) => Err(e),
            }
        } else {
            Err(ProtoError::UndefinedHeader)
        }
    }

    /// The first message of a client: accepted when it is at most 200 bytes,
    /// its header is the handshake header and the rest decodes as a
    /// handshake; the connection then carries the name asked for. A handshake
    /// that a client wrote is accepted with its name.
    pub fn accept_handshake(msg: Vec<u8>) -> (res: Option<Connection>)
        requires
            msg@.len() > 0,
        ensures
            match res {
                Some(c) => msg@.len() <= HANDSHAKE_LIMIT && msg@[0] == ReceiveHeader::HANDSHAKE
                    && c.id == 0 && exists|h: Handshake|
                    Handshake::decoded(msg@.drop_first(), Ok(h)) && h.name@ == c.name@,
                None => msg@.len() > HANDSHAKE_LIMIT || msg@[0] != ReceiveHeader::HANDSHAKE
                    || exists|e: ProtoError| Handshake::decoded(msg@.drop_first(), Err(e)),
            },
            forall|h: Handshake|
                #[trigger] h.wire_bytes() == msg@.drop_first() && h.readable() && msg@[0]
                    == ReceiveHeader::HANDSHAKE && msg@.len() <= HANDSHAKE_LIMIT ==> (res matches Some(
                    c,
                ) && c.name@ == h.name@),
    {
        if msg.len() > HANDSHAKE_LIMIT {
            return None;
        }
        let mut msg = msg;
        let ghost whole = msg@;
        let header = msg.remove(0);
        assert(msg@ =~= whole.drop_first());
        if header != ReceiveHeader::HANDSHAKE {
            return None;
        }
        match Handshake::from_reader(msg.as_slice()) {
            Ok(hs) => Some(Self::new(hs.name)),
            Err(e) => None,
        }
    }

    /// What a message received from client `id` in a game means: an event
    /// when it reads as one, else a request to go back to the lobby when its
    /// header says so, else nothing. A chat line or controls that a client
    /// wrote are an event holding what was written.
    pub fn classify_game_message(id: u32, msg: Vec<u8>) -> (m: GameMessage)
        requires
            msg@.len() > 0,
        ensures
            match m {
                GameMessage::Event(e) => game_parse(id, msg@[0], msg@.drop_first(), Ok(e)),
                GameMessage::QuitToLobby => msg@[0] == ReceiveHeader::QUIT_TO_LOBBY && exists|
                    err: ProtoError,
                | game_parse(id, msg@[0], msg@.drop_first(), Err(err)),
                GameMessage::Ignored => msg@[0] != ReceiveHeader::QUIT_TO_LOBBY && exists|
                    err: ProtoError,
                | game_parse(id, msg@[0], msg@.drop_first(), Err(err)),
            },
            forall|c: Chat|
                #[trigger] c.wire_bytes() == msg@.drop_first() && c.readable() && msg@[0]
                    == ReceiveHeader::GAME_CHAT && msg@.len() <= CHAT_LIMIT ==> (m matches GameMessage::Event(
                    GameEvents::Chat(i, d),
                ) && i == id && d.same_as(c)),
            forall|g: GameInput|
                #[trigger] g.wire_bytes() == msg@.drop_first() && g.readable() && msg@[0]
                    == ReceiveHeader::GAME_INPUT ==> (m matches GameMessage::Event(
                    GameEvents::Input(i, d),
                ) && i == id && d.same_as(g)),
            msg@[0] == ReceiveHeader::GAME_CHAT && msg@.len() > CHAT_LIMIT ==> m is Ignored,
    {
        let mut msg = msg;
        let ghost whole = msg@;
        let header = msg.remove(0);
        assert(msg@ =~= whole.drop_first());
        match Self::parse_receive_game(id, header, msg) {
            Ok(e) => GameMessage::Event(e),
            Err(err) => if header == ReceiveHeader::QUIT_TO_LOBBY {
                GameMessage::QuitToLobby
            } else {
                GameMessage::Ignored
            },
        }
    }
}

} // verus!
