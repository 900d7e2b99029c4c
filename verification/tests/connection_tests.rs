use rustsocket_server::connection::{Connection, GameMessage};
use rustsocket_server::events::{GameEvents, LobbyEvents};
use rustsocket_server::headers::ReceiveHeader;
use rustsocket_server::proto::wire::ProtoError;

fn with_header(h: u8, body: &[u8]) -> Vec<u8> {
    let mut v = vec![h];
    v.extend_from_slice(body);
    v
}

#[test]
fn new_connection_has_no_id() {
    let c = Connection::new("zed".to_string());
    assert_eq!(c.id, 0);
    assert_eq!(c.name, "zed");
}

#[test]
fn game_chat_is_parsed() {
    match Connection::parse_receive_game(7, ReceiveHeader::GAME_CHAT, vec![18, 2, b'h', b'i']) {
        Ok(GameEvents::Chat(id, chat)) => {
            assert_eq!(id, 7);
            assert_eq!(chat.message, "hi");
        }
        other => panic!("unexpected {:?}", other),
    }
}

#[test]
fn long_game_chat_is_refused() {
    let mut body = vec![18, 102];
    body.extend(std::iter::repeat(b'a').take(102));
    assert_eq!(body.len(), 104);
    assert!(Connection::parse_receive_game(1, ReceiveHeader::GAME_CHAT, body.clone()).is_ok());
    body.push(b'a');
    match Connection::parse_receive_game(1, ReceiveHeader::GAME_CHAT, body) {
        Err(ProtoError::UndefinedHeader) => {}
        other => panic!("unexpected {:?}", other),
    }
}

#[test]
fn game_input_is_parsed() {
    match Connection::parse_receive_game(3, ReceiveHeader::GAME_INPUT, vec![8, 1, 48, 9]) {
        Ok(GameEvents::Input(id, input)) => {
            assert_eq!(id, 3);
            assert!(input.up);
            assert_eq!(input.sequence, 9);
        }
        other => panic!("unexpected {:?}", other),
    }
}

#[test]
fn undefined_game_header() {
    match Connection::parse_receive_game(3, ReceiveHeader::HANDSHAKE, vec![]) {
        Err(ProtoError::UndefinedHeader) => {}
        other => panic!("unexpected {:?}", other),
    }
}

#[test]
fn lobby_messages_are_parsed() {
    match Connection::parse_receive_lobby(2, with_header(ReceiveHeader::CREATE_ROOM, &[10, 3, b'a', b'b', b'c'])) {
        Ok(LobbyEvents::CreateRoom(id, c)) => {
            assert_eq!(id, 2);
            assert_eq!(c.name, "abc");
            assert_eq!(c.password, "");
        }
        other => panic!("unexpected {:?}", other),
    }
    match Connection::parse_receive_lobby(2, with_header(ReceiveHeader::JOIN_ROOM, &[8, 4, 18, 1, b'p'])) {
        Ok(LobbyEvents::JoinRoom(id, j)) => {
            assert_eq!(id, 2);
            assert_eq!(j.id, 4);
            assert_eq!(j.password, "p");
        }
        other => panic!("unexpected {:?}", other),
    }
    match Connection::parse_receive_lobby(2, with_header(ReceiveHeader::LOBBY_CHAT, &[18, 1, b'x'])) {
        Ok(LobbyEvents::Chat(2, c)) => assert_eq!(c.message, "x"),
        other => panic!("unexpected {:?}", other),
    }
    match Connection::parse_receive_lobby(2, vec![ReceiveHeader::GAME_CHAT]) {
        Err(ProtoError::UndefinedHeader) => {}
        other => panic!("unexpected {:?}", other),
    }
    match Connection::parse_receive_lobby(2, with_header(ReceiveHeader::JOIN_ROOM, &[8])) {
        Err(ProtoError::UnexpectedEndOfBuffer) => {}
        other => panic!("unexpected {:?}", other),
    }
}

#[test]
fn handshake_rules() {
    let c = Connection::accept_handshake(with_header(ReceiveHeader::HANDSHAKE, &[10, 3, b'a', b'm', b'y'])).unwrap();
    assert_eq!(c.id, 0);
    assert_eq!(c.name, "amy");
    assert!(Connection::accept_handshake(with_header(ReceiveHeader::CREATE_ROOM, &[10, 1, b'a'])).is_none());
    assert!(Connection::accept_handshake(with_header(ReceiveHeader::HANDSHAKE, &[10, 9])).is_none());
    let mut long = vec![ReceiveHeader::HANDSHAKE];
    long.extend(std::iter::repeat(0u8).take(200));
    assert!(Connection::accept_handshake(long).is_none());
    // 200 bytes in all: a name of 197 bytes is accepted.
    let mut edge = vec![ReceiveHeader::HANDSHAKE, 10, 197, 1];
    edge.extend(std::iter::repeat(b'n').take(197));
    assert_eq!(edge.len(), 201);
    assert!(Connection::accept_handshake(edge.clone()).is_none());
    edge.pop();
    edge[2] = 196;
    assert_eq!(Connection::accept_handshake(edge).unwrap().name.len(), 196);
}

#[test]
fn game_messages_are_classified() {
    match Connection::classify_game_message(5, with_header(ReceiveHeader::GAME_CHAT, &[18, 1, b'y'])) {
        GameMessage::Event(GameEvents::Chat(5, c)) => assert_eq!(c.message, "y"),
        other => panic!("unexpected {:?}", other),
    }
    assert!(matches!(Connection::classify_game_message(5, vec![ReceiveHeader::QUIT_TO_LOBBY]), GameMessage::QuitToLobby));
    assert!(matches!(Connection::classify_game_message(5, vec![ReceiveHeader::LOBBY_CHAT]), GameMessage::Ignored));
}
