use rustsocket_server::proto::fields::frame;
use rustsocket_server::proto::proto_all::{
    Chat, CreateRoom, Entity, Error, GameInput, Handshake, JoinRoom, Room, Rooms, State, User,
    Users,
};
use rustsocket_server::proto::wire::ProtoError;

fn chat(name: &str, message: &str) -> Chat {
    Chat { name: name.to_string(), message: message.to_string() }
}

#[test]
fn chat_encoding_is_exact() {
    let mut out = Vec::new();
    chat("a", "hi").write_message(&mut out);
    assert_eq!(out, vec![10, 1, 97, 18, 2, 104, 105]);
}

#[test]
fn empty_fields_are_left_out() {
    let mut out = Vec::new();
    chat("", "").write_message(&mut out);
    assert!(out.is_empty());
    let mut out = Vec::new();
    User { id: 0, name: "x".to_string() }.write_message(&mut out);
    assert_eq!(out, vec![18, 1, 120]);
}

#[test]
fn write_message_appends() {
    let mut out = vec![7u8];
    chat("", "z").write_message(&mut out);
    assert_eq!(out, vec![7, 18, 1, 122]);
}

#[test]
fn utf8_length_counts_bytes() {
    let mut out = Vec::new();
    chat("é", "").write_message(&mut out);
    assert_eq!(out, vec![10, 2, 0xc3, 0xa9]);
}

#[test]
fn varint_of_large_id() {
    let mut out = Vec::new();
    User { id: 300, name: String::new() }.write_message(&mut out);
    assert_eq!(out, vec![8, 0xac, 0x02]);
}

#[test]
fn room_encoding_with_password_flag() {
    let mut out = Vec::new();
    Room { id: 1, name: "r".to_string(), password: true, players: 2 }.write_message(&mut out);
    assert_eq!(out, vec![8, 1, 18, 1, 114, 24, 1, 32, 2]);
}

#[test]
fn chat_round_trip() {
    let c = chat("bob", "hello there");
    let mut out = Vec::new();
    c.write_message(&mut out);
    assert_eq!(Chat::from_reader(&out).unwrap(), c);
}

#[test]
fn all_flat_messages_round_trip() {
    let e = Error { title: "t".to_string(), message: "m".to_string() };
    let mut out = Vec::new();
    e.write_message(&mut out);
    assert_eq!(Error::from_reader(&out).unwrap(), e);

    let u = User { id: 77, name: "ann".to_string() };
    let mut out = Vec::new();
    u.write_message(&mut out);
    assert_eq!(User::from_reader(&out).unwrap(), u);

    let r = Room { id: 5, name: "den".to_string(), password: false, players: 3 };
    let mut out = Vec::new();
    r.write_message(&mut out);
    assert_eq!(Room::from_reader(&out).unwrap(), r);

    let h = Handshake { name: "carl".to_string() };
    let mut out = Vec::new();
    h.write_message(&mut out);
    assert_eq!(Handshake::from_reader(&out).unwrap(), h);

    let c = CreateRoom { name: "room".to_string(), password: "pw".to_string() };
    let mut out = Vec::new();
    c.write_message(&mut out);
    assert_eq!(CreateRoom::from_reader(&out).unwrap(), c);

    let j = JoinRoom { id: 9, password: "pw".to_string() };
    let mut out = Vec::new();
    j.write_message(&mut out);
    assert_eq!(JoinRoom::from_reader(&out).unwrap(), j);

    let g = GameInput {
        up: true,
        down: false,
        left: true,
        right: false,
        angle_bits: 1.5f32.to_bits(),
        sequence: 42,
    };
    let mut out = Vec::new();
    g.write_message(&mut out);
    assert_eq!(GameInput::from_reader(&out).unwrap(), g);
}

#[test]
fn nested_messages_round_trip() {
    let users = Users {
        users: vec![User { id: 1, name: "a".to_string() }, User { id: 2, name: "b".to_string() }],
        me: 2,
    };
    let mut out = Vec::new();
    users.write_message(&mut out);
    assert_eq!(out, vec![10, 5, 8, 1, 18, 1, 97, 10, 5, 8, 2, 18, 1, 98, 16, 2]);
    assert_eq!(Users::from_reader(&out).unwrap(), users);

    let rooms = Rooms {
        rooms: vec![Room { id: 3, name: "x".to_string(), password: true, players: 1 }],
    };
    let mut out = Vec::new();
    rooms.write_message(&mut out);
    assert_eq!(Rooms::from_reader(&out).unwrap(), rooms);
}

#[test]
fn last_occurrence_wins() {
    let bytes = vec![10, 1, 97, 10, 1, 98];
    assert_eq!(Chat::from_reader(&bytes).unwrap().name, "b");
}

#[test]
fn unknown_fields_are_skipped() {
    // field 3 (varint), field 4 (length 2), field 5 (fixed32), then the message.
    let bytes = vec![24, 5, 34, 2, 1, 2, 45, 0, 0, 0, 0, 18, 1, 109];
    let c = Chat::from_reader(&bytes).unwrap();
    assert_eq!(c.name, "");
    assert_eq!(c.message, "m");
}

#[test]
fn decode_errors() {
    assert_eq!(Chat::from_reader(&[10, 5, 97]), Err(ProtoError::UnexpectedEndOfBuffer));
    assert_eq!(Chat::from_reader(&[10, 1, 0xff]), Err(ProtoError::Utf8));
    assert_eq!(Chat::from_reader(&[27]), Err(ProtoError::Deprecated));
    assert_eq!(Chat::from_reader(&[31]), Err(ProtoError::UnknownWireType(7)));
    assert_eq!(
        Chat::from_reader(&[0x80, 0x80, 0x80, 0x80, 0x80, 0x80, 0x80, 0x80, 0x80, 0x80, 0x01]),
        Err(ProtoError::Varint)
    );
    assert_eq!(Chat::from_reader(&[0x80]), Err(ProtoError::UnexpectedEndOfBuffer));
}

#[test]
fn nested_error_comes_first() {
    // A user whose name is not UTF-8, then a truncated field.
    let bytes = vec![10, 3, 18, 1, 0xff, 16];
    assert_eq!(Users::from_reader(&bytes), Err(ProtoError::Utf8));
}

#[test]
fn empty_buffer_decodes_to_defaults() {
    assert_eq!(Chat::from_reader(&[]).unwrap(), chat("", ""));
    assert_eq!(Users::from_reader(&[]).unwrap(), Users { users: vec![], me: 0 });
}

#[test]
fn frame_replaces_first_length_byte() {
    assert_eq!(frame(4, &vec![10, 1, 97]), vec![4, 10, 1, 97]);
    assert_eq!(frame(3, &vec![]), vec![3]);
    let body = vec![0u8; 200];
    let framed = frame(2, &body);
    assert_eq!(framed.len(), 202);
    assert_eq!(framed[0], 2);
    assert_eq!(framed[1], 1);
    assert_eq!(&framed[2..], &body[..]);
}

#[test]
fn state_encoding_with_floats() {
    let s = State {
        last_seq: 7,
        entities: vec![Entity {
            id: 1,
            x_bits: 100.0f32.to_bits(),
            y_bits: 0.0f32.to_bits(),
            angle_bits: (-0.0f32).to_bits(),
        }],
    };
    let mut out = Vec::new();
    s.write_message(&mut out);
    let x = 100.0f32.to_bits().to_le_bytes();
    assert_eq!(out, vec![8, 7, 18, 7, 8, 1, 21, x[0], x[1], x[2], x[3]]);
}

#[test]
fn game_input_bools_and_float() {
    let bytes = vec![8, 1, 16, 0, 45, 0, 0, 0x80, 0x3f, 48, 3];
    let g = GameInput::from_reader(&bytes).unwrap();
    assert!(g.up);
    assert!(!g.down);
    assert_eq!(f32::from_bits(g.angle_bits), 1.0);
    assert_eq!(g.sequence, 3);
}

#[test]
fn rooms_round_trip_keeps_order() {
    let rooms = Rooms {
        rooms: vec![
            Room { id: 2, name: "second".to_string(), password: false, players: 6 },
            Room { id: 1, name: "".to_string(), password: true, players: 0 },
        ],
    };
    let mut out = Vec::new();
    rooms.write_message(&mut out);
    assert_eq!(out[0], 10);
    assert_eq!(Rooms::from_reader(&out).unwrap(), rooms);
    // A nested room cut short is reported, not dropped.
    assert_eq!(Rooms::from_reader(&[10, 2, 18, 5]), Err(ProtoError::UnexpectedEndOfBuffer));
}

#[test]
fn oversized_length_prefix_is_refused() {
    // A string field whose length prefix is u32::MAX, with one byte after it.
    let bytes = vec![10, 0xff, 0xff, 0xff, 0xff, 0x0f, 97];
    assert_eq!(Chat::from_reader(&bytes), Err(ProtoError::UnexpectedEndOfBuffer));
    assert_eq!(Rooms::from_reader(&bytes), Err(ProtoError::UnexpectedEndOfBuffer));
    // A length that fits exactly is read.
    assert_eq!(Chat::from_reader(&[10, 1, 97]).unwrap().name, "a");
}

#[test]
fn get_size_is_the_written_length() {
    let c = chat("name", "hello");
    let mut out = Vec::new();
    c.write_message(&mut out);
    assert_eq!(c.get_size(), out.len());
    assert_eq!(c.get_size(), 13);
    assert_eq!(chat("", "").get_size(), 0);
    let users = Users { users: vec![User { id: 300, name: "bob".to_string() }], me: 300 };
    let mut out = Vec::new();
    users.write_message(&mut out);
    assert_eq!(users.get_size(), out.len());
    let room = Room { id: 1, name: "r".to_string(), password: true, players: 2 };
    assert_eq!(room.get_size(), 9);
}
