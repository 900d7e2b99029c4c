use rustsocket_server::connection::Connection;
use rustsocket_server::ecs::game_state::{find_state, retain_other_players, GameState};
use rustsocket_server::game::Game;
use rustsocket_server::proto::proto_all::{Chat, Entity, State};
use rustsocket_server::room::Room;
use rustsocket_server::text::{tag_name, u32_to_string};

fn conn(id: u32, name: &str) -> Connection {
    Connection { id, name: name.to_string() }
}

#[test]
fn game_state_lifecycle() {
    let mut gs = GameState::new(4);
    assert_eq!(gs.id, 4);
    assert_eq!(gs.state.last_seq, 0);
    assert!(gs.state.entities.is_empty());
    let e = Entity { id: 4, x_bits: 1, y_bits: 2, angle_bits: 3 };
    gs.add_entity(e);
    gs.add_entity(e);
    assert_eq!(gs.state.entities, vec![e, e]);
    gs.clear();
    assert!(gs.state.entities.is_empty());
    assert_eq!(gs.id, 4);
}

#[test]
fn states_of_a_leaving_player_are_dropped() {
    let mut states = vec![GameState::new(1), GameState::new(2), GameState::new(1), GameState::new(3)];
    retain_other_players(&mut states, 1);
    let ids: Vec<u32> = states.iter().map(|g| g.id).collect();
    assert_eq!(ids, vec![2, 3]);
    assert_eq!(find_state(&states, 3), Some(1));
    assert_eq!(find_state(&states, 1), None);
}

#[test]
fn game_roster_counts_players() {
    let mut game = Game::new();
    game.join(conn(1, "a"));
    game.join(conn(2, "b"));
    assert!(game.contains_player(2));
    let (c, left) = game.quit(2);
    assert_eq!((c.id, c.name.as_str(), left), (2, "b", 1));
    let (_, left) = game.quit(1);
    assert_eq!(left, 0);
    assert!(!game.contains_player(1));
}

#[test]
fn game_chat_is_framed_with_the_game_header() {
    let mut game = Game::new();
    game.join(conn(12, "ann"));
    let out = game.serialize_chat(12, Chat { name: String::new(), message: "yo".to_string() });
    let mut expected = vec![4u8, 10, 8];
    expected.extend_from_slice(b"(12) ann");
    expected.extend_from_slice(&[18, 2, b'y', b'o']);
    assert_eq!(out, expected);
}

#[test]
fn room_roster_and_state_frames() {
    let mut room = Room::new();
    room.join(conn(1, "a"));
    let (_, left) = room.quit(1);
    assert_eq!(left, 0);
    let out = Room::serialize_state(State { last_seq: 2, entities: vec![] });
    assert_eq!(out, vec![5, 8, 2]);
}

#[test]
fn tagged_names() {
    assert_eq!(tag_name(0, &"x".to_string()), "(0) x");
    assert_eq!(tag_name(4294967295, &"big".to_string()), "(4294967295) big");
}

#[test]
fn numbers_are_printed_in_decimal() {
    assert_eq!(u32_to_string(0), "0");
    assert_eq!(u32_to_string(7), "7");
    assert_eq!(u32_to_string(10), "10");
    assert_eq!(u32_to_string(4096), "4096");
    assert_eq!(u32_to_string(u32::MAX), u32::MAX.to_string());
}

#[test]
fn entities_are_kept_in_the_order_added() {
    let es = vec![
        Entity { id: 2, x_bits: 1, y_bits: 2, angle_bits: 3 },
        Entity { id: 1, x_bits: 0, y_bits: 0, angle_bits: 0 },
        Entity { id: 2, x_bits: 1, y_bits: 2, angle_bits: 3 },
    ];
    let mut s = GameState::new(5);
    for e in es.iter() {
        s.add_entity(*e);
    }
    assert_eq!(s.state.entities, es);
    assert_eq!(s.id, 5);
    assert_eq!(s.state.last_seq, 0);
}
