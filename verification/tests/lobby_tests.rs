use rustsocket_server::events::LobbyEvents;
use rustsocket_server::lobby::step::{LobbyAction, Reply};
use rustsocket_server::connection::Connection;
use rustsocket_server::lobby::Lobby;
use rustsocket_server::proto::proto_all::{Chat, CreateRoom, Error, JoinRoom, User, Users};

fn s(x: &str) -> String {
    x.to_string()
}

fn connect(lobby: &mut Lobby, name: &str) -> u32 {
    let id = lobby.add_connection(s(name)).unwrap();
    lobby.insert_connection(Connection { id, name: s(name) });
    id
}

#[test]
fn ids_are_handed_out_in_order() {
    let mut lobby = Lobby::new();
    assert_eq!(connect(&mut lobby, "alice"), 1);
    assert_eq!(connect(&mut lobby, "bob"), 2);
    assert_eq!(connect(&mut lobby, "carol"), 3);
}

#[test]
fn released_id_is_reused_first() {
    let mut lobby = Lobby::new();
    connect(&mut lobby, "alice");
    connect(&mut lobby, "bob");
    connect(&mut lobby, "carol");
    lobby.disconnect(1);
    lobby.disconnect(3);
    assert!(!lobby.contains_connection(3));
    assert_eq!(lobby.add_connection(s("dave")).unwrap(), 3);
    assert_eq!(lobby.add_connection(s("erin")).unwrap(), 1);
    assert_eq!(lobby.add_connection(s("fred")).unwrap(), 4);
}

#[test]
fn server_full_after_hundred_clients() {
    let mut lobby = Lobby::new();
    for i in 1..=100u32 {
        assert_eq!(lobby.add_connection(s("player")).unwrap(), i);
    }
    let err = lobby.add_connection(s("player")).unwrap_err();
    assert_eq!(err.title, "Server is full");
    assert_eq!(err.message, "Server is currently full, try again later.");
}

#[test]
fn unsuitable_username_consumes_the_id() {
    let mut lobby = Lobby::new();
    let err = lobby.add_connection(s("ab")).unwrap_err();
    assert_eq!(err.title, "Username is not suitable.");
    assert_eq!(err.message, "Your username is not suitable, please try another one.");
    assert_eq!(lobby.add_connection(s("abc")).unwrap(), 2);
}

#[test]
fn name_rules() {
    assert!(Lobby::incorrect_name(s("ab"), 20));
    assert!(!Lobby::incorrect_name(s("abc"), 20));
    assert!(!Lobby::incorrect_name(s("a".repeat(20).as_str()), 20));
    assert!(Lobby::incorrect_name(s("a".repeat(21).as_str()), 20));
    for bad in ["a<b", "a>b", "a+b", "a&b", "a%b", "a=b"] {
        assert!(Lobby::incorrect_name(s(bad), 20));
    }
    // Lengths are counted in bytes: two two-byte characters pass, one does not.
    assert!(Lobby::incorrect_name(s("é"), 20));
    assert!(!Lobby::incorrect_name(s("éé"), 20));
    assert!(Lobby::incorrect_name(s("ééééééééééé"), 20));
}

#[test]
fn rooms_get_ids_and_names_are_checked() {
    let mut lobby = Lobby::new();
    assert_eq!(lobby.add_room(s("fun room")).unwrap(), 1);
    let err = lobby.add_room(s("x")).unwrap_err();
    assert_eq!(err.title, "Room name is not suitable");
    assert_eq!(err.message, "Room name is not suitable, please try another one.");
    assert_eq!(lobby.add_room(s("other")).unwrap(), 3);
}

#[test]
fn room_limit() {
    let mut lobby = Lobby::new();
    for i in 1..=100u32 {
        assert_eq!(lobby.add_room(s("room")).unwrap(), i);
    }
    let err = lobby.add_room(s("room")).unwrap_err();
    assert_eq!(err.title, "Max room count exceed!");
    assert_eq!(err.message, "Cannot create any more room, try again later.");
}

fn open(lobby: &mut Lobby, name: &str, password: &str) -> u32 {
    let id = lobby.add_room(s(name)).unwrap();
    lobby.open_room(id, CreateRoom { name: s(name), password: s(password) });
    id
}

#[test]
fn join_room_cases() {
    let mut lobby = Lobby::new();
    let err = lobby.join_to_room(JoinRoom { id: 1, password: s("") }).unwrap_err();
    assert_eq!(err.title, "Room cannot be find.");
    assert_eq!(err.message, "Room is no longer valid.");

    let open_id = open(&mut lobby, "open", "");
    let locked_id = open(&mut lobby, "locked", "secret");

    let err = lobby.join_to_room(JoinRoom { id: locked_id, password: s("nope") }).unwrap_err();
    assert_eq!(err.title, "Incorrect room password.");
    assert_eq!(err.message, "Incorrect password, try again.");
    assert_eq!(lobby.join_to_room(JoinRoom { id: locked_id, password: s("secret") }).unwrap(), locked_id);

    // A room without a password ignores the one given.
    for _ in 0..5 {
        assert_eq!(lobby.join_to_room(JoinRoom { id: open_id, password: s("x") }).unwrap(), open_id);
    }
    let err = lobby.join_to_room(JoinRoom { id: open_id, password: s("") }).unwrap_err();
    assert_eq!(err.title, "Room is full.");
    assert_eq!(err.message, "Maximum player count reached.");
}

#[test]
fn listed_rooms_show_players_and_password() {
    let mut lobby = Lobby::new();
    let a = open(&mut lobby, "alpha", "pw");
    let b = open(&mut lobby, "beta", "");
    lobby.join_to_room(JoinRoom { id: a, password: s("pw") }).unwrap();
    let mut rooms = lobby.rooms_list();
    rooms.sort_by_key(|r| r.id);
    assert_eq!(rooms.len(), 2);
    assert_eq!((rooms[0].id, rooms[0].name.as_str(), rooms[0].password, rooms[0].players), (a, "alpha", true, 2));
    assert_eq!((rooms[1].id, rooms[1].name.as_str(), rooms[1].password, rooms[1].players), (b, "beta", false, 1));
}

#[test]
fn player_count_updates_and_closes() {
    let mut lobby = Lobby::new();
    let a = open(&mut lobby, "alpha", "pw");
    lobby.player_count(a, 4);
    assert_eq!(lobby.rooms_list()[0].players, 4);
    lobby.player_count(a, 0);
    assert!(!lobby.contains_room(a));
    // The password went with the room: a room opened later under another id
    // is not affected, and joining the closed id finds nothing.
    assert!(lobby.join_to_room(JoinRoom { id: a, password: s("pw") }).is_err());
}

#[test]
fn users_list_holds_each_client_once() {
    let mut lobby = Lobby::new();
    connect(&mut lobby, "alice");
    connect(&mut lobby, "bob");
    let mut users = lobby.users_list();
    users.sort_by_key(|u| u.id);
    assert_eq!(users, vec![User { id: 1, name: s("alice") }, User { id: 2, name: s("bob") }]);
}

#[test]
fn remove_connection_keeps_the_id_out_of_the_pool() {
    let mut lobby = Lobby::new();
    connect(&mut lobby, "alice");
    let c = lobby.remove_connection(1);
    assert_eq!(c.id, 1);
    assert_eq!(c.name, "alice");
    assert!(!lobby.contains_connection(1));
    assert_eq!(lobby.add_connection(s("bob")).unwrap(), 2);
    lobby.insert_connection(c);
    assert!(lobby.contains_connection(1));
}

#[test]
fn lobby_messages_are_framed() {
    let mut lobby = Lobby::new();
    connect(&mut lobby, "bob");
    let chat = lobby.serialize_chat(1, Chat { name: s("ignored"), message: s("hi") });
    let mut expected = vec![2u8, 10, 7];
    expected.extend_from_slice(b"(1) bob");
    expected.extend_from_slice(&[18, 2, b'h', b'i']);
    assert_eq!(chat, expected);

    let err = Lobby::serialize_error(Error { title: s("t"), message: s("m") });
    assert_eq!(err, vec![3, 10, 1, b't', 18, 1, b'm']);

    let users = Lobby::serialize_users(Users { users: vec![User { id: 1, name: s("bob") }], me: 1 });
    assert_eq!(users, vec![0, 10, 7, 8, 1, 18, 3, b'b', b'o', b'b', 16, 1]);

    let empty = Lobby::new();
    assert_eq!(empty.serialize_rooms(), vec![1]);
}

#[test]
fn serialized_rooms_list_the_rooms() {
    let mut lobby = Lobby::new();
    open(&mut lobby, "abc", "");
    let out = lobby.serialize_rooms();
    assert_eq!(out, vec![1, 10, 9, 8, 1, 18, 3, b'a', b'b', b'c', 32, 1]);
}

#[test]
fn each_client_gets_a_users_list_naming_it() {
    let mut lobby = Lobby::new();
    connect(&mut lobby, "alice");
    connect(&mut lobby, "bob");
    let mut frames = lobby.users_frames();
    frames.sort_by_key(|f| f.0);
    assert_eq!(frames.len(), 2);
    for (id, data) in frames.iter() {
        assert_eq!(data[0], 0);
        let users = Users::from_reader(&data[1..]).unwrap();
        assert_eq!(users.me, *id);
        let mut ids: Vec<u32> = users.users.iter().map(|u| u.id).collect();
        ids.sort();
        assert_eq!(ids, vec![1, 2]);
    }
    assert_eq!(frames[0].0, 1);
    assert_eq!(frames[1].0, 2);
    assert!(Lobby::new().users_frames().is_empty());
}

#[test]
fn room_password_flag_follows_the_stored_password() {
    let mut lobby = Lobby::new();
    open(&mut lobby, "locked", "pw");
    open(&mut lobby, "open", "");
    let mut rooms = lobby.rooms_list();
    rooms.sort_by_key(|r| r.id);
    assert!(rooms[0].password);
    assert!(!rooms[1].password);
}

#[test]
fn lobby_steps_through_its_events() {
    let mut lobby = Lobby::new();
    // A handshake owes the client its id, then the lobby is shown to all.
    let (acts, reply) = lobby.handle(LobbyEvents::Handshake(Connection { id: 0, name: s("alice") }));
    assert!(acts.is_empty());
    assert!(matches!(reply, Some(Reply::Id(1))));
    let next = lobby.delivered(Reply::Id(1), true);
    assert_eq!(next.len(), 1);
    match &next[0] {
        LobbyAction::LobbyInfo(frames, rooms) => {
            assert_eq!(frames.len(), 1);
            assert_eq!(frames[0].0, 1);
            assert_eq!(rooms, &vec![1u8]);
        }
        other => panic!("{:?}", other),
    }

    // A refused name is answered to its client, and its id is used up.
    let (acts, reply) = lobby.handle(LobbyEvents::Handshake(Connection { id: 0, name: s("ab") }));
    assert!(reply.is_none());
    match &acts[..] {
        [LobbyAction::Refuse(f)] => assert_eq!(f[0], 3),
        other => panic!("{:?}", other),
    }

    // An id that cannot be delivered is dropped, not handed back.
    let (_, reply) = lobby.handle(LobbyEvents::Handshake(Connection { id: 0, name: s("bob") }));
    assert!(matches!(reply, Some(Reply::Id(3))));
    let next = lobby.delivered(Reply::Id(3), false);
    assert!(matches!(next[..], [LobbyAction::Forget(3)]));
    assert!(!lobby.contains_connection(3));
    assert_eq!(connect(&mut lobby, "carol"), 4);

    // A room is opened once its game reaches the client, which leaves the lobby.
    let create = CreateRoom { name: s("room"), password: s("pw") };
    let (acts, reply) = lobby.handle(LobbyEvents::CreateRoom(1, create));
    assert!(acts.is_empty());
    let reply = reply.unwrap();
    assert!(matches!(reply, Reply::NewRoom(1, 1, _)));
    let next = lobby.delivered(reply, true);
    match &next[..] {
        [LobbyAction::StartGame(1, admin), LobbyAction::LobbyInfo(frames, _)] => {
            assert_eq!(admin.id, 1);
            assert_eq!(admin.name, "alice");
            assert_eq!(frames.len(), 1);
        }
        other => panic!("{:?}", other),
    }
    assert!(!lobby.contains_connection(1));
    assert!(lobby.rooms_list()[0].password);

    // A wrong password is refused to the client that asked.
    let (acts, reply) = lobby.handle(LobbyEvents::JoinRoom(4, JoinRoom { id: 1, password: s("no") }));
    assert!(reply.is_none());
    match &acts[..] {
        [LobbyAction::SendTo(4, f)] => assert_eq!(f[0], 3),
        other => panic!("{:?}", other),
    }
    // The right one takes a place; the client leaves for the game.
    let (_, reply) = lobby.handle(LobbyEvents::JoinRoom(4, JoinRoom { id: 1, password: s("pw") }));
    let reply = reply.unwrap();
    assert!(matches!(reply, Reply::JoinedRoom(4, 1)));
    let next = lobby.delivered(reply, true);
    assert!(matches!(&next[..], [LobbyAction::EnterGame(1, c)] if c.id == 4));
    assert_eq!(lobby.rooms_list()[0].players, 2);

    // The game hands a player back; the last one leaving closes the room.
    let (acts, _) = lobby.handle(LobbyEvents::TakeBack(Connection { id: 4, name: s("carol") }));
    assert!(matches!(&acts[..], [LobbyAction::Welcome, LobbyAction::LobbyInfo(..)]));
    let (acts, _) = lobby.handle(LobbyEvents::PlayerCount(1, 4, 0));
    assert!(matches!(acts[..], [LobbyAction::CloseRoom(1)]));
    assert!(lobby.rooms_list().is_empty());

    // Chat goes to everyone; a departure hands the id back.
    let (acts, _) = lobby.handle(LobbyEvents::Chat(4, Chat { name: s(""), message: s("hi") }));
    assert!(matches!(&acts[..], [LobbyAction::Broadcast(f)] if f[0] == 2));
    let (acts, _) = lobby.handle(LobbyEvents::Disconnect(4));
    assert!(matches!(&acts[..], [LobbyAction::Forget(4), LobbyAction::UsersInfo(frames)] if frames.is_empty()));
    assert_eq!(connect(&mut lobby, "dave"), 4);
}
