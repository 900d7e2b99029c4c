//! The messages of the client protocol: their fields, their encoding as
//! protobuf, and their decoding from a buffer.
use crate::proto::fields::{
    field_bytes, fields_bytes, fits, fits_kind, lemma_fields_bytes_append, lemma_fits_append,
    schema_kind,
    lemma_opt_fields, lemma_single_field, opt_bool,
    opt_float, opt_str, opt_u32, written_as, bool_field, fields_view, float_field, get_fixed32, get_str, get_varint, last_fixed32,
    last_str, last_varint, message_field, scan, scan_fields, string_field, u32_field,
    write_bool_field, write_float_field, write_message_field, write_string_field,
    write_u32_field, FieldValue, FieldView, Schema,
};
use crate::proto::wire::ProtoError;
use vstd::prelude::*;
use vstd::utf8::encode_utf8;

verus! {

/// A failure reported to a client.
#[derive(Clone, Debug, Default, PartialEq)]
pub struct Error {
    pub title: String,
    pub message: String,
}

impl Error {
    /// The encoded fields, in field order, default values left out.
    pub open spec fn wire_bytes(&self) -> Seq<u8> {
        string_field(10, self.title@)
            + string_field(18, self.message@)
    }

    /// The message that the fields read from a buffer assign: each field takes
    /// the value of its last occurrence, and keeps its default without one.
    pub open spec fn from_fields(fs: Seq<(u32, FieldView)>, m: Error) -> bool {
        m.title@ == last_str(fs, 10)
        && m.message@ == last_str(fs, 18)
    }

    /// What decoding `bytes` as a `Error` gives: the message the fields assign,
    /// or the error that stopped the reading.
    pub open spec fn decoded(bytes: Seq<u8>, res: Result<Error, ProtoError>) -> bool {
        match res {
            Ok(m) => scan(bytes, Schema::Error).1 is None && Error::from_fields(
                scan(bytes, Schema::Error).0,
                m,
            ),
            Err(e) => scan(bytes, Schema::Error).1 == Some(e),
        }
    }

    /// The fields the writer puts out, in order, default values left out.
    pub open spec fn fields(&self) -> Seq<(u32, FieldView)> {
        opt_str(10, self.title@) + opt_str(18, self.message@)
    }

    /// The message can be read back as written: every string length fits a
    /// varint32.
    pub open spec fn readable(&self) -> bool {
        encode_utf8(self.title@).len() <= u32::MAX
            && encode_utf8(self.message@).len() <= u32::MAX
    }

    /// The two messages hold the same values.
    pub open spec fn same_as(&self, other: Error) -> bool {
        self.title@ == other.title@ && self.message@ == other.message@
    }

    proof fn lemma_written_fields(&self)
        ensures
            self.wire_bytes() == fields_bytes(self.fields()),
            self.readable() ==> fits(self.fields(), Schema::Error),
            self.readable() ==> {
                last_str(self.fields(), 10) == self.title@
                && last_str(self.fields(), 18) == self.message@
            },
    {
        lemma_opt_fields(10, self.title@, 0, false, 0);
        lemma_opt_fields(18, self.message@, 0, false, 0);
        lemma_fields_bytes_append(opt_str(10, self.title@), opt_str(18, self.message@));
        lemma_fits_append(opt_str(10, self.title@), opt_str(18, self.message@), Schema::Error);
        assert(self.wire_bytes() =~= fields_bytes(self.fields()));
        reveal_with_fuel(last_str, 3);
    }

    /// Appends the encoded fields to `out`.
    pub fn write_message(&self, out: &mut Vec<u8>)
        ensures
            final(out)@ == old(out)@ + self.wire_bytes(),
    {
        write_string_field(out, 10, &self.title);
        write_string_field(out, 18, &self.message);
        assert(out@ =~= old(out)@ + (string_field(10, self.title@) + string_field(18, self.message@)));
    }

    /// The number of bytes `write_message` puts out.
    pub fn get_size(&self) -> (n: usize)
        ensures
            n == self.wire_bytes().len(),
    {
        let mut out: Vec<u8> = Vec::new();
        self.write_message(&mut out);
        assert(out@ =~= self.wire_bytes());
        out.len()
    }

    /// Decodes a buffer that holds the fields of one `Error`. A message that
    /// `write_message` wrote, and that can be read back, decodes to itself.
    pub fn from_reader(bytes: &[u8]) -> (res: Result<Error, ProtoError>)
        ensures
            Error::decoded(bytes@, res),
            forall|m: Error|
                #[trigger] m.wire_bytes() == bytes@ && m.readable() ==> (res matches Ok(d)
                    && d.same_as(m)),
    {
        let (fields, err) = scan_fields(bytes, Schema::Error);
        let res = match err {
            Some(e) => Err(e),
            None => Ok(Error { title: get_str(&fields, 10), message: get_str(&fields, 18) }),
        };
        proof {
            assert forall|m: Error| #[trigger] m.wire_bytes() == bytes@ && m.readable() implies (
            res matches Ok(d) && d.same_as(m)) by {
                m.lemma_written_fields();
                assert(written_as(bytes@, Schema::Error, m.fields()));
            }
        }
        res
    }
}

/// A user of the lobby.
#[derive(Clone, Debug, Default, PartialEq)]
pub struct User {
    pub id: u32,
    pub name: String,
}

impl User {
    /// The encoded fields, in field order, default values left out.
    pub open spec fn wire_bytes(&self) -> Seq<u8> {
        u32_field(8, self.id)
            + string_field(18, self.name@)
    }

    /// The message that the fields read from a buffer assign: each field takes
    /// the value of its last occurrence, and keeps its default without one.
    pub open spec fn from_fields(fs: Seq<(u32, FieldView)>, m: User) -> bool {
        m.id == last_varint(fs, 8)
        && m.name@ == last_str(fs, 18)
    }

    /// What decoding `bytes` as a `User` gives: the message the fields assign,
    /// or the error that stopped the reading.
    pub open spec fn decoded(bytes: Seq<u8>, res: Result<User, ProtoError>) -> bool {
        match res {
            Ok(m) => scan(bytes, Schema::User).1 is None && User::from_fields(
                scan(bytes, Schema::User).0,
                m,
            ),
            Err(e) => scan(bytes, Schema::User).1 == Some(e),
        }
    }

    /// The fields the writer puts out, in order, default values left out.
    pub open spec fn fields(&self) -> Seq<(u32, FieldView)> {
        opt_u32(8, self.id) + opt_str(18, self.name@)
    }

    /// The message can be read back as written: every string length fits a
    /// varint32.
    pub open spec fn readable(&self) -> bool {
        encode_utf8(self.name@).len() <= u32::MAX
    }

    /// The two messages hold the same values.
    pub open spec fn same_as(&self, other: User) -> bool {
        self.id == other.id && self.name@ == other.name@
    }

    proof fn lemma_written_fields(&self)
        ensures
            self.wire_bytes() == fields_bytes(self.fields()),
            self.readable() ==> fits(self.fields(), Schema::User),
            self.readable() ==> {
                last_varint(self.fields(), 8) == self.id
                && last_str(self.fields(), 18) == self.name@
            },
    {
        lemma_opt_fields(8, Seq::empty(), self.id, false, 0);
        lemma_opt_fields(18, self.name@, 0, false, 0);
        lemma_fields_bytes_append(opt_u32(8, self.id), opt_str(18, self.name@));
        lemma_fits_append(opt_u32(8, self.id), opt_str(18, self.name@), Schema::User);
        assert(self.wire_bytes() =~= fields_bytes(self.fields()));
        reveal_with_fuel(last_str, 3);
        reveal_with_fuel(last_varint, 3);
    }

    /// Appends the encoded fields to `out`.
    pub fn write_message(&self, out: &mut Vec<u8>)
        ensures
            final(out)@ == old(out)@ + self.wire_bytes(),
    {
        write_u32_field(out, 8, self.id);
        write_string_field(out, 18, &self.name);
        assert(out@ =~= old(out)@ + (u32_field(8, self.id) + string_field(18, self.name@)));
    }

    /// The number of bytes `write_message` puts out.
    pub fn get_size(&self) -> (n: usize)
        ensures
            n == self.wire_bytes().len(),
    {
        let mut out: Vec<u8> = Vec::new();
        self.write_message(&mut out);
        assert(out@ =~= self.wire_bytes());
        out.len()
    }

    /// Decodes a buffer that holds the fields of one `User`. A message that
    /// `write_message` wrote, and that can be read back, decodes to itself.
    pub fn from_reader(bytes: &[u8]) -> (res: Result<User, ProtoError>)
        ensures
            User::decoded(bytes@, res),
            forall|m: User|
                #[trigger] m.wire_bytes() == bytes@ && m.readable() ==> (res matches Ok(d)
                    && d.same_as(m)),
    {
        let (fields, err) = scan_fields(bytes, Schema::User);
        let res = match err {
            Some(e) => Err(e),
            None => Ok(User { id: get_varint(&fields, 8), name: get_str(&fields, 18) }),
        };
        proof {
            assert forall|m: User| #[trigger] m.wire_bytes() == bytes@ && m.readable() implies (
            res matches Ok(d) && d.same_as(m)) by {
                m.lemma_written_fields();
                assert(written_as(bytes@, Schema::User, m.fields()));
            }
        }
        res
    }
}

/// A room as listed in the lobby.
#[derive(Clone, Debug, Default, PartialEq)]
pub struct Room {
    pub id: u32,
    pub name: String,
    pub password: bool,
    pub players: u32,
}

impl Room {
    /// The encoded fields, in field order, default values left out.
    pub open spec fn wire_bytes(&self) -> Seq<u8> {
        u32_field(8, self.id)
            + string_field(18, self.name@)
            + bool_field(24, self.password)
            + u32_field(32, self.players)
    }

    /// The message that the fields read from a buffer assign: each field takes
    /// the value of its last occurrence, and keeps its default without one.
    pub open spec fn from_fields(fs: Seq<(u32, FieldView)>, m: Room) -> bool {
        m.id == last_varint(fs, 8)
        && m.name@ == last_str(fs, 18)
        && m.password == (last_varint(fs, 24) != 0)
        && m.players == last_varint(fs, 32)
    }

    /// What decoding `bytes` as a `Room` gives: the message the fields assign,
    /// or the error that stopped the reading.
    pub open spec fn decoded(bytes: Seq<u8>, res: Result<Room, ProtoError>) -> bool {
        match res {
            Ok(m) => scan(bytes, Schema::Room).1 is None && Room::from_fields(
                scan(bytes, Schema::Room).0,
                m,
            ),
            Err(e) => scan(bytes, Schema::Room).1 == Some(e),
        }
    }

    /// The fields the writer puts out, in order, default values left out.
    pub open spec fn fields(&self) -> Seq<(u32, FieldView)> {
        opt_u32(8, self.id) + opt_str(18, self.name@) + opt_bool(24, self.password) + opt_u32(32, self.players)
    }

    /// The message can be read back as written: every string length fits a
    /// varint32.
    pub open spec fn readable(&self) -> bool {
        encode_utf8(self.name@).len() <= u32::MAX
    }

    /// The two messages hold the same values.
    pub open spec fn same_as(&self, other: Room) -> bool {
        self.id == other.id && self.name@ == other.name@ && self.password == other.password && self.players == other.players
    }

    proof fn lemma_written_fields(&self)
        ensures
            self.wire_bytes() == fields_bytes(self.fields()),
            self.readable() ==> fits(self.fields(), Schema::Room),
            self.readable() ==> {
                last_varint(self.fields(), 8) == self.id
                && last_str(self.fields(), 18) == self.name@
                && (last_varint(self.fields(), 24) != 0) == self.password
                && last_varint(self.fields(), 32) == self.players
            },
    {
        lemma_opt_fields(8, Seq::empty(), self.id, false, 0);
        lemma_opt_fields(18, self.name@, 0, false, 0);
        lemma_opt_fields(24, Seq::empty(), 0, self.password, 0);
        lemma_opt_fields(32, Seq::empty(), self.players, false, 0);
        lemma_fields_bytes_append(opt_u32(8, self.id), opt_str(18, self.name@));
        lemma_fits_append(opt_u32(8, self.id), opt_str(18, self.name@), Schema::Room);
        lemma_fields_bytes_append(opt_u32(8, self.id) + opt_str(18, self.name@), opt_bool(24, self.password));
        lemma_fits_append(opt_u32(8, self.id) + opt_str(18, self.name@), opt_bool(24, self.password), Schema::Room);
        lemma_fields_bytes_append(opt_u32(8, self.id) + opt_str(18, self.name@) + opt_bool(24, self.password), opt_u32(32, self.players));
        lemma_fits_append(opt_u32(8, self.id) + opt_str(18, self.name@) + opt_bool(24, self.password), opt_u32(32, self.players), Schema::Room);
        assert(self.wire_bytes() =~= fields_bytes(self.fields()));
        reveal_with_fuel(last_str, 5);
        reveal_with_fuel(last_varint, 5);
    }

    /// Appends the encoded fields to `out`.
    pub fn write_message(&self, out: &mut Vec<u8>)
        ensures
            final(out)@ == old(out)@ + self.wire_bytes(),
    {
        write_u32_field(out, 8, self.id);
        write_string_field(out, 18, &self.name);
        assert(out@ =~= old(out)@ + (u32_field(8, self.id) + string_field(18, self.name@)));
        write_bool_field(out, 24, self.password);
        assert(out@ =~= old(out)@ + (u32_field(8, self.id) + string_field(18, self.name@) + bool_field(24, self.password)));
        write_u32_field(out, 32, self.players);
        assert(out@ =~= old(out)@ + (u32_field(8, self.id) + string_field(18, self.name@) + bool_field(24, self.password) + u32_field(32, self.players)));
    }

    /// The number of bytes `write_message` puts out.
    pub fn get_size(&self) -> (n: usize)
        ensures
            n == self.wire_bytes().len(),
    {
        let mut out: Vec<u8> = Vec::new();
        self.write_message(&mut out);
        assert(out@ =~= self.wire_bytes());
        out.len()
    }

    /// Decodes a buffer that holds the fields of one `Room`. A message that
    /// `write_message` wrote, and that can be read back, decodes to itself.
    pub fn from_reader(bytes: &[u8]) -> (res: Result<Room, ProtoError>)
        ensures
            Room::decoded(bytes@, res),
            forall|m: Room|
                #[trigger] m.wire_bytes() == bytes@ && m.readable() ==> (res matches Ok(d)
                    && d.same_as(m)),
    {
        let (fields, err) = scan_fields(bytes, Schema::Room);
        let res = match err {
            Some(e) => Err(e),
            None => Ok(Room { id: get_varint(&fields, 8), name: get_str(&fields, 18), password: get_varint(&fields, 24) != 0, players: get_varint(&fields, 32) }),
        };
        proof {
            assert forall|m: Room| #[trigger] m.wire_bytes() == bytes@ && m.readable() implies (
            res matches Ok(d) && d.same_as(m)) by {
                m.lemma_written_fields();
                assert(written_as(bytes@, Schema::Room, m.fields()));
            }
        }
        res
    }
}

/// The first message of a client: the name it asks for.
#[derive(Clone, Debug, Default, PartialEq)]
pub struct Handshake {
    pub name: String,
}

impl Handshake {
    /// The encoded fields, in field order, default values left out.
    pub open spec fn wire_bytes(&self) -> Seq<u8> {
        string_field(10, self.name@)
    }

    /// The message that the fields read from a buffer assign: each field takes
    /// the value of its last occurrence, and keeps its default without one.
    pub open spec fn from_fields(fs: Seq<(u32, FieldView)>, m: Handshake) -> bool {
        m.name@ == last_str(fs, 10)
    }

    /// What decoding `bytes` as a `Handshake` gives: the message the fields assign,
    /// or the error that stopped the reading.
    pub open spec fn decoded(bytes: Seq<u8>, res: Result<Handshake, ProtoError>) -> bool {
        match res {
            Ok(m) => scan(bytes, Schema::Handshake).1 is None && Handshake::from_fields(
                scan(bytes, Schema::Handshake).0,
                m,
            ),
            Err(e) => scan(bytes, Schema::Handshake).1 == Some(e),
        }
    }

    /// The fields the writer puts out, in order, default values left out.
    pub open spec fn fields(&self) -> Seq<(u32, FieldView)> {
        opt_str(10, self.name@)
    }

    /// The message can be read back as written: every string length fits a
    /// varint32.
    pub open spec fn readable(&self) -> bool {
        encode_utf8(self.name@).len() <= u32::MAX
    }

    /// The two messages hold the same values.
    pub open spec fn same_as(&self, other: Handshake) -> bool {
        self.name@ == other.name@
    }

    proof fn lemma_written_fields(&self)
        ensures
            self.wire_bytes() == fields_bytes(self.fields()),
            self.readable() ==> fits(self.fields(), Schema::Handshake),
            self.readable() ==> {
                last_str(self.fields(), 10) == self.name@
            },
    {
        lemma_opt_fields(10, self.name@, 0, false, 0);
        assert(self.wire_bytes() =~= fields_bytes(self.fields()));
        reveal_with_fuel(last_str, 2);
    }

    /// Appends the encoded fields to `out`.
    pub fn write_message(&self, out: &mut Vec<u8>)
        ensures
            final(out)@ == old(out)@ + self.wire_bytes(),
    {
        write_string_field(out, 10, &self.name);
    }

    /// The number of bytes `write_message` puts out.
    pub fn get_size(&self) -> (n: usize)
        ensures
            n == self.wire_bytes().len(),
    {
        let mut out: Vec<u8> = Vec::new();
        self.write_message(&mut out);
        assert(out@ =~= self.wire_bytes());
        out.len()
    }

    /// Decodes a buffer that holds the fields of one `Handshake`. A message that
    /// `write_message` wrote, and that can be read back, decodes to itself.
    pub fn from_reader(bytes: &[u8]) -> (res: Result<Handshake, ProtoError>)
        ensures
            Handshake::decoded(bytes@, res),
            forall|m: Handshake|
                #[trigger] m.wire_bytes() == bytes@ && m.readable() ==> (res matches Ok(d)
                    && d.same_as(m)),
    {
        let (fields, err) = scan_fields(bytes, Schema::Handshake);
        let res = match err {
            Some(e) => Err(e),
            None => Ok(Handshake { name: get_str(&fields, 10) }),
        };
        proof {
            assert forall|m: Handshake| #[trigger] m.wire_bytes() == bytes@ && m.readable() implies (
            res matches Ok(d) && d.same_as(m)) by {
                m.lemma_written_fields();
                assert(written_as(bytes@, Schema::Handshake, m.fields()));
            }
        }
        res
    }
}

/// The content of a room as the lobby lists it.
pub struct RoomView {
    pub id: u32,
    pub name: Seq<char>,
    pub password: bool,
    pub players: u32,
}

impl View for Room {
    type V = RoomView;

    open spec fn view(&self) -> RoomView {
        RoomView { id: self.id, name: self.name@, password: self.password, players: self.players }
    }
}

/// A request to open a room.
#[derive(Clone, Debug, Default, PartialEq)]
pub struct CreateRoom {
    pub name: String,
    pub password: String,
}

impl CreateRoom {
    /// The encoded fields, in field order, default values left out.
    pub open spec fn wire_bytes(&self) -> Seq<u8> {
        string_field(10, self.name@)
            + string_field(18, self.password@)
    }

    /// The message that the fields read from a buffer assign: each field takes
    /// the value of its last occurrence, and keeps its default without one.
    pub open spec fn from_fields(fs: Seq<(u32, FieldView)>, m: CreateRoom) -> bool {
        m.name@ == last_str(fs, 10)
        && m.password@ == last_str(fs, 18)
    }

    /// What decoding `bytes` as a `CreateRoom` gives: the message the fields assign,
    /// or the error that stopped the reading.
    pub open spec fn decoded(bytes: Seq<u8>, res: Result<CreateRoom, ProtoError>) -> bool {
        match res {
            Ok(m) => scan(bytes, Schema::CreateRoom).1 is None && CreateRoom::from_fields(
                scan(bytes, Schema::CreateRoom).0,
                m,
            ),
            Err(e) => scan(bytes, Schema::CreateRoom).1 == Some(e),
        }
    }

    /// The fields the writer puts out, in order, default values left out.
    pub open spec fn fields(&self) -> Seq<(u32, FieldView)> {
        opt_str(10, self.name@) + opt_str(18, self.password@)
    }

    /// The message can be read back as written: every string length fits a
    /// varint32.
    pub open spec fn readable(&self) -> bool {
        encode_utf8(self.name@).len() <= u32::MAX
            && encode_utf8(self.password@).len() <= u32::MAX
    }

    /// The two messages hold the same values.
    pub open spec fn same_as(&self, other: CreateRoom) -> bool {
        self.name@ == other.name@ && self.password@ == other.password@
    }

    proof fn lemma_written_fields(&self)
        ensures
            self.wire_bytes() == fields_bytes(self.fields()),
            self.readable() ==> fits(self.fields(), Schema::CreateRoom),
            self.readable() ==> {
                last_str(self.fields(), 10) == self.name@
                && last_str(self.fields(), 18) == self.password@
            },
    {
        lemma_opt_fields(10, self.name@, 0, false, 0);
        lemma_opt_fields(18, self.password@, 0, false, 0);
        lemma_fields_bytes_append(opt_str(10, self.name@), opt_str(18, self.password@));
        lemma_fits_append(opt_str(10, self.name@), opt_str(18, self.password@), Schema::CreateRoom);
        assert(self.wire_bytes() =~= fields_bytes(self.fields()));
        reveal_with_fuel(last_str, 3);
    }

    /// Appends the encoded fields to `out`.
    pub fn write_message(&self, out: &mut Vec<u8>)
        ensures
            final(out)@ == old(out)@ + self.wire_bytes(),
    {
        write_string_field(out, 10, &self.name);
        write_string_field(out, 18, &self.password);
        assert(out@ =~= old(out)@ + (string_field(10, self.name@) + string_field(18, self.password@)));
    }

    /// The number of bytes `write_message` puts out.
    pub fn get_size(&self) -> (n: usize)
        ensures
            n == self.wire_bytes().len(),
    {
        let mut out: Vec<u8> = Vec::new();
        self.write_message(&mut out);
        assert(out@ =~= self.wire_bytes());
        out.len()
    }

    /// Decodes a buffer that holds the fields of one `CreateRoom`. A message that
    /// `write_message` wrote, and that can be read back, decodes to itself.
    pub fn from_reader(bytes: &[u8]) -> (res: Result<CreateRoom, ProtoError>)
        ensures
            CreateRoom::decoded(bytes@, res),
            forall|m: CreateRoom|
                #[trigger] m.wire_bytes() == bytes@ && m.readable() ==> (res matches Ok(d)
                    && d.same_as(m)),
    {
        let (fields, err) = scan_fields(bytes, Schema::CreateRoom);
        let res = match err {
            Some(e) => Err(e),
            None => Ok(CreateRoom { name: get_str(&fields, 10), password: get_str(&fields, 18) }),
        };
        proof {
            assert forall|m: CreateRoom| #[trigger] m.wire_bytes() == bytes@ && m.readable() implies (
            res matches Ok(d) && d.same_as(m)) by {
                m.lemma_written_fields();
                assert(written_as(bytes@, Schema::CreateRoom, m.fields()));
            }
        }
        res
    }
}

/// A request to enter a room.
#[derive(Clone, Debug, Default, PartialEq)]
pub struct JoinRoom {
    pub id: u32,
    pub password: String,
}

impl JoinRoom {
    /// The encoded fields, in field order, default values left out.
    pub open spec fn wire_bytes(&self) -> Seq<u8> {
        u32_field(8, self.id)
            + string_field(18, self.password@)
    }

    /// The message that the fields read from a buffer assign: each field takes
    /// the value of its last occurrence, and keeps its default without one.
    pub open spec fn from_fields(fs: Seq<(u32, FieldView)>, m: JoinRoom) -> bool {
        m.id == last_varint(fs, 8)
        && m.password@ == last_str(fs, 18)
    }

    /// What decoding `bytes` as a `JoinRoom` gives: the message the fields assign,
    /// or the error that stopped the reading.
    pub open spec fn decoded(bytes: Seq<u8>, res: Result<JoinRoom, ProtoError>) -> bool {
        match res {
            Ok(m) => scan(bytes, Schema::JoinRoom).1 is None && JoinRoom::from_fields(
                scan(bytes, Schema::JoinRoom).0,
                m,
            ),
            Err(e) => scan(bytes, Schema::JoinRoom).1 == Some(e),
        }
    }

    /// The fields the writer puts out, in order, default values left out.
    pub open spec fn fields(&self) -> Seq<(u32, FieldView)> {
        opt_u32(8, self.id) + opt_str(18, self.password@)
    }

    /// The message can be read back as written: every string length fits a
    /// varint32.
    pub open spec fn readable(&self) -> bool {
        encode_utf8(self.password@).len() <= u32::MAX
    }

    /// The two messages hold the same values.
    pub open spec fn same_as(&self, other: JoinRoom) -> bool {
        self.id == other.id && self.password@ == other.password@
    }

    proof fn lemma_written_fields(&self)
        ensures
            self.wire_bytes() == fields_bytes(self.fields()),
            self.readable() ==> fits(self.fields(), Schema::JoinRoom),
            self.readable() ==> {
                last_varint(self.fields(), 8) == self.id
                && last_str(self.fields(), 18) == self.password@
            },
    {
        lemma_opt_fields(8, Seq::empty(), self.id, false, 0);
        lemma_opt_fields(18, self.password@, 0, false, 0);
        lemma_fields_bytes_append(opt_u32(8, self.id), opt_str(18, self.password@));
        lemma_fits_append(opt_u32(8, self.id), opt_str(18, self.password@), Schema::JoinRoom);
        assert(self.wire_bytes() =~= fields_bytes(self.fields()));
        reveal_with_fuel(last_str, 3);
        reveal_with_fuel(last_varint, 3);
    }

    /// Appends the encoded fields to `out`.
    pub fn write_message(&self, out: &mut Vec<u8>)
        ensures
            final(out)@ == old(out)@ + self.wire_bytes(),
    {
        write_u32_field(out, 8, self.id);
        write_string_field(out, 18, &self.password);
        assert(out@ =~= old(out)@ + (u32_field(8, self.id) + string_field(18, self.password@)));
    }

    /// The number of bytes `write_message` puts out.
    pub fn get_size(&self) -> (n: usize)
        ensures
            n == self.wire_bytes().len(),
    {
        let mut out: Vec<u8> = Vec::new();
        self.write_message(&mut out);
        assert(out@ =~= self.wire_bytes());
        out.len()
    }

    /// Decodes a buffer that holds the fields of one `JoinRoom`. A message that
    /// `write_message` wrote, and that can be read back, decodes to itself.
    pub fn from_reader(bytes: &[u8]) -> (res: Result<JoinRoom, ProtoError>)
        ensures
            JoinRoom::decoded(bytes@, res),
            forall|m: JoinRoom|
                #[trigger] m.wire_bytes() == bytes@ && m.readable() ==> (res matches Ok(d)
                    && d.same_as(m)),
    {
        let (fields, err) = scan_fields(bytes, Schema::JoinRoom);
        let res = match err {
            Some(e) => Err(e),
            None => Ok(JoinRoom { id: get_varint(&fields, 8), password: get_str(&fields, 18) }),
        };
        proof {
            assert forall|m: JoinRoom| #[trigger] m.wire_bytes() == bytes@ && m.readable() implies (
            res matches Ok(d) && d.same_as(m)) by {
                m.lemma_written_fields();
                assert(written_as(bytes@, Schema::JoinRoom, m.fields()));
            }
        }
        res
    }
}

/// A chat line.
#[derive(Clone, Debug, Default, PartialEq)]
pub struct Chat {
    pub name: String,
    pub message: String,
}

impl Chat {
    /// The encoded fields, in field order, default values left out.
    pub open spec fn wire_bytes(&self) -> Seq<u8> {
        string_field(10, self.name@)
            + string_field(18, self.message@)
    }

    /// The message that the fields read from a buffer assign: each field takes
    /// the value of its last occurrence, and keeps its default without one.
    pub open spec fn from_fields(fs: Seq<(u32, FieldView)>, m: Chat) -> bool {
        m.name@ == last_str(fs, 10)
        && m.message@ == last_str(fs, 18)
    }

    /// What decoding `bytes` as a `Chat` gives: the message the fields assign,
    /// or the error that stopped the reading.
    pub open spec fn decoded(bytes: Seq<u8>, res: Result<Chat, ProtoError>) -> bool {
        match res {
            Ok(m) => scan(bytes, Schema::Chat).1 is None && Chat::from_fields(
                scan(bytes, Schema::Chat).0,
                m,
            ),
            Err(e) => scan(bytes, Schema::Chat).1 == Some(e),
        }
    }

    /// The fields the writer puts out, in order, default values left out.
    pub open spec fn fields(&self) -> Seq<(u32, FieldView)> {
        opt_str(10, self.name@) + opt_str(18, self.message@)
    }

    /// The message can be read back as written: every string length fits a
    /// varint32.
    pub open spec fn readable(&self) -> bool {
        encode_utf8(self.name@).len() <= u32::MAX
            && encode_utf8(self.message@).len() <= u32::MAX
    }

    /// The two messages hold the same values.
    pub open spec fn same_as(&self, other: Chat) -> bool {
        self.name@ == other.name@ && self.message@ == other.message@
    }

    proof fn lemma_written_fields(&self)
        ensures
            self.wire_bytes() == fields_bytes(self.fields()),
            self.readable() ==> fits(self.fields(), Schema::Chat),
            self.readable() ==> {
                last_str(self.fields(), 10) == self.name@
                && last_str(self.fields(), 18) == self.message@
            },
    {
        lemma_opt_fields(10, self.name@, 0, false, 0);
        lemma_opt_fields(18, self.message@, 0, false, 0);
        lemma_fields_bytes_append(opt_str(10, self.name@), opt_str(18, self.message@));
        lemma_fits_append(opt_str(10, self.name@), opt_str(18, self.message@), Schema::Chat);
        assert(self.wire_bytes() =~= fields_bytes(self.fields()));
        reveal_with_fuel(last_str, 3);
    }

    /// Appends the encoded fields to `out`.
    pub fn write_message(&self, out: &mut Vec<u8>)
        ensures
            final(out)@ == old(out)@ + self.wire_bytes(),
    {
        write_string_field(out, 10, &self.name);
        write_string_field(out, 18, &self.message);
        assert(out@ =~= old(out)@ + (string_field(10, self.name@) + string_field(18, self.message@)));
    }

    /// The number of bytes `write_message` puts out.
    pub fn get_size(&self) -> (n: usize)
        ensures
            n == self.wire_bytes().len(),
    {
        let mut out: Vec<u8> = Vec::new();
        self.write_message(&mut out);
        assert(out@ =~= self.wire_bytes());
        out.len()
    }

    /// Decodes a buffer that holds the fields of one `Chat`. A message that
    /// `write_message` wrote, and that can be read back, decodes to itself.
    pub fn from_reader(bytes: &[u8]) -> (res: Result<Chat, ProtoError>)
        ensures
            Chat::decoded(bytes@, res),
            forall|m: Chat|
                #[trigger] m.wire_bytes() == bytes@ && m.readable() ==> (res matches Ok(d)
                    && d.same_as(m)),
    {
        let (fields, err) = scan_fields(bytes, Schema::Chat);
        let res = match err {
            Some(e) => Err(e),
            None => Ok(Chat { name: get_str(&fields, 10), message: get_str(&fields, 18) }),
        };
        proof {
            assert forall|m: Chat| #[trigger] m.wire_bytes() == bytes@ && m.readable() implies (
            res matches Ok(d) && d.same_as(m)) by {
                m.lemma_written_fields();
                assert(written_as(bytes@, Schema::Chat, m.fields()));
            }
        }
        res
    }
}

/// The controls of a player for one frame; `angle_bits` carries the IEEE-754 bits of the angle.
#[derive(Clone, Debug, Default, PartialEq)]
pub struct GameInput {
    pub up: bool,
    pub down: bool,
    pub left: bool,
    pub right: bool,
    pub angle_bits: u32,
    pub sequence: u32,
}

impl GameInput {
    /// The encoded fields, in field order, default values left out.
    pub open spec fn wire_bytes(&self) -> Seq<u8> {
        bool_field(8, self.up)
            + bool_field(16, self.down)
            + bool_field(24, self.left)
            + bool_field(32, self.right)
            + float_field(45, self.angle_bits)
            + u32_field(48, self.sequence)
    }

    /// The message that the fields read from a buffer assign: each field takes
    /// the value of its last occurrence, and keeps its default without one.
    pub open spec fn from_fields(fs: Seq<(u32, FieldView)>, m: GameInput) -> bool {
        m.up == (last_varint(fs, 8) != 0)
        && m.down == (last_varint(fs, 16) != 0)
        && m.left == (last_varint(fs, 24) != 0)
        && m.right == (last_varint(fs, 32) != 0)
        && m.angle_bits == last_fixed32(fs, 45)
        && m.sequence == last_varint(fs, 48)
    }

    /// What decoding `bytes` as a `GameInput` gives: the message the fields assign,
    /// or the error that stopped the reading.
    pub open spec fn decoded(bytes: Seq<u8>, res: Result<GameInput, ProtoError>) -> bool {
        match res {
            Ok(m) => scan(bytes, Schema::GameInput).1 is None && GameInput::from_fields(
                scan(bytes, Schema::GameInput).0,
                m,
            ),
            Err(e) => scan(bytes, Schema::GameInput).1 == Some(e),
        }
    }

    /// The fields the writer puts out, in order, default values left out.
    pub open spec fn fields(&self) -> Seq<(u32, FieldView)> {
        opt_bool(8, self.up) + opt_bool(16, self.down) + opt_bool(24, self.left) + opt_bool(32, self.right) + opt_float(45, self.angle_bits) + opt_u32(48, self.sequence)
    }

    /// The message can be read back as written: its angle is not negative
    /// zero, which is written as zero.
    pub open spec fn readable(&self) -> bool {
        self.angle_bits != 0x8000_0000
    }

    /// The two messages hold the same values.
    pub open spec fn same_as(&self, other: GameInput) -> bool {
        self.up == other.up && self.down == other.down && self.left == other.left && self.right == other.right && self.angle_bits == other.angle_bits && self.sequence == other.sequence
    }

    #[verifier::rlimit(60)]
    proof fn lemma_written_fields(&self)
        ensures
            self.wire_bytes() == fields_bytes(self.fields()),
            self.readable() ==> fits(self.fields(), Schema::GameInput),
            self.readable() ==> {
                (last_varint(self.fields(), 8) != 0) == self.up
                && (last_varint(self.fields(), 16) != 0) == self.down
                && (last_varint(self.fields(), 24) != 0) == self.left
                && (last_varint(self.fields(), 32) != 0) == self.right
                && last_fixed32(self.fields(), 45) == self.angle_bits
                && last_varint(self.fields(), 48) == self.sequence
            },
    {
        lemma_opt_fields(8, Seq::empty(), 0, self.up, 0);
        lemma_opt_fields(16, Seq::empty(), 0, self.down, 0);
        lemma_opt_fields(24, Seq::empty(), 0, self.left, 0);
        lemma_opt_fields(32, Seq::empty(), 0, self.right, 0);
        lemma_opt_fields(45, Seq::empty(), 0, false, self.angle_bits);
        lemma_opt_fields(48, Seq::empty(), self.sequence, false, 0);
        lemma_fields_bytes_append(opt_bool(8, self.up), opt_bool(16, self.down));
        lemma_fits_append(opt_bool(8, self.up), opt_bool(16, self.down), Schema::GameInput);
        lemma_fields_bytes_append(opt_bool(8, self.up) + opt_bool(16, self.down), opt_bool(24, self.left));
        lemma_fits_append(opt_bool(8, self.up) + opt_bool(16, self.down), opt_bool(24, self.left), Schema::GameInput);
        lemma_fields_bytes_append(opt_bool(8, self.up) + opt_bool(16, self.down) + opt_bool(24, self.left), opt_bool(32, self.right));
        lemma_fits_append(opt_bool(8, self.up) + opt_bool(16, self.down) + opt_bool(24, self.left), opt_bool(32, self.right), Schema::GameInput);
        lemma_fields_bytes_append(opt_bool(8, self.up) + opt_bool(16, self.down) + opt_bool(24, self.left) + opt_bool(32, self.right), opt_float(45, self.angle_bits));
        lemma_fits_append(opt_bool(8, self.up) + opt_bool(16, self.down) + opt_bool(24, self.left) + opt_bool(32, self.right), opt_float(45, self.angle_bits), Schema::GameInput);
        lemma_fields_bytes_append(opt_bool(8, self.up) + opt_bool(16, self.down) + opt_bool(24, self.left) + opt_bool(32, self.right) + opt_float(45, self.angle_bits), opt_u32(48, self.sequence));
        lemma_fits_append(opt_bool(8, self.up) + opt_bool(16, self.down) + opt_bool(24, self.left) + opt_bool(32, self.right) + opt_float(45, self.angle_bits), opt_u32(48, self.sequence), Schema::GameInput);
        assert(self.wire_bytes() =~= fields_bytes(self.fields()));
        reveal_with_fuel(last_varint, 7);
        reveal_with_fuel(last_fixed32, 7);
    }

    /// Appends the encoded fields to `out`.
    #[verifier::rlimit(40)]
    pub fn write_message(&self, out: &mut Vec<u8>)
        ensures
            final(out)@ == old(out)@ + self.wire_bytes(),
    {
        let ghost start = out@;
        write_bool_field(out, 8, self.up);
        let ghost a = bool_field(8, self.up);
        write_bool_field(out, 16, self.down);
        assert(out@ =~= start + (a + bool_field(16, self.down)));
        let ghost a = a + bool_field(16, self.down);
        write_bool_field(out, 24, self.left);
        assert(out@ =~= start + (a + bool_field(24, self.left)));
        let ghost a = a + bool_field(24, self.left);
        write_bool_field(out, 32, self.right);
        assert(out@ =~= start + (a + bool_field(32, self.right)));
        let ghost a = a + bool_field(32, self.right);
        write_float_field(out, 45, self.angle_bits);
        assert(out@ =~= start + (a + float_field(45, self.angle_bits)));
        let ghost a = a + float_field(45, self.angle_bits);
        write_u32_field(out, 48, self.sequence);
        assert(out@ =~= start + (a + u32_field(48, self.sequence)));
    }

    /// The number of bytes `write_message` puts out.
    pub fn get_size(&self) -> (n: usize)
        ensures
            n == self.wire_bytes().len(),
    {
        let mut out: Vec<u8> = Vec::new();
        self.write_message(&mut out);
        assert(out@ =~= self.wire_bytes());
        out.len()
    }

    /// Decodes a buffer that holds the fields of one `GameInput`. A message that
    /// `write_message` wrote, and that can be read back, decodes to itself.
    pub fn from_reader(bytes: &[u8]) -> (res: Result<GameInput, ProtoError>)
        ensures
            GameInput::decoded(bytes@, res),
            forall|m: GameInput|
                #[trigger] m.wire_bytes() == bytes@ && m.readable() ==> (res matches Ok(d)
                    && d.same_as(m)),
    {
        let (fields, err) = scan_fields(bytes, Schema::GameInput);
        let res = match err {
            Some(e) => Err(e),
            None => Ok(GameInput { up: get_varint(&fields, 8) != 0, down: get_varint(&fields, 16) != 0, left: get_varint(&fields, 24) != 0, right: get_varint(&fields, 32) != 0, angle_bits: get_fixed32(&fields, 45), sequence: get_varint(&fields, 48) }),
        };
        proof {
            assert forall|m: GameInput| #[trigger] m.wire_bytes() == bytes@ && m.readable() implies (
            res matches Ok(d) && d.same_as(m)) by {
                m.lemma_written_fields();
                assert(written_as(bytes@, Schema::GameInput, m.fields()));
            }
        }
        res
    }
}

/// The lobby's list of rooms.
#[derive(Clone, Debug, Default, PartialEq)]
pub struct Rooms {
    pub rooms: Vec<Room>,
}

/// The encoding of a list of rooms, one nested field each.
pub open spec fn rooms_bytes(rooms: Seq<Room>) -> Seq<u8>
    decreases rooms.len(),
{
    if rooms.len() == 0 {
        Seq::empty()
    } else {
        rooms_bytes(rooms.drop_last()) + message_field(10, rooms.last().wire_bytes())
    }
}

/// The rooms that the nested fields with tag 10 decode to, in order.
pub open spec fn rooms_from(fs: Seq<(u32, FieldView)>, rooms: Seq<Room>) -> bool
    decreases fs.len(),
{
    if fs.len() == 0 {
        rooms.len() == 0
    } else {
        match fs.last() {
            (t, FieldView::Bytes(b)) if t == 10 => rooms.len() > 0 && Room::decoded(
                b,
                Ok(rooms.last()),
            ) && rooms_from(fs.drop_last(), rooms.drop_last()),
            _ => rooms_from(fs.drop_last(), rooms),
        }
    }
}

/// The error of the first nested room that does not decode, if one does not.
pub open spec fn rooms_error(fs: Seq<(u32, FieldView)>) -> Option<ProtoError>
    decreases fs.len(),
{
    if fs.len() == 0 {
        None
    } else if rooms_error(fs.drop_last()) is Some {
        rooms_error(fs.drop_last())
    } else {
        match fs.last() {
            (t, FieldView::Bytes(b)) if t == 10 => scan(b, Schema::Room).1,
            _ => None,
        }
    }
}

/// The nested fields a list of rooms is written as, one per room.
pub open spec fn rooms_fields(rooms: Seq<Room>) -> Seq<(u32, FieldView)>
    decreases rooms.len(),
{
    if rooms.len() == 0 {
        Seq::empty()
    } else {
        rooms_fields(rooms.drop_last()).push((10u32, FieldView::Bytes(rooms.last().wire_bytes())))
    }
}

/// A nested room field, if it holds the bytes of a room that can be read
/// back, is read as that room.
pub open spec fn room_field_ok(f: (u32, FieldView)) -> bool {
    match f {
        (t, FieldView::Bytes(b)) if t == 10 => forall|r: Room|
            #[trigger] r.wire_bytes() == b && r.readable() ==> scan(b, Schema::Room).1 is None
                && Room::from_fields(scan(b, Schema::Room).0, r),
        _ => true,
    }
}

proof fn lemma_rooms_fields(rooms: Seq<Room>)
    ensures
        rooms_fields(rooms).len() == rooms.len(),
        forall|i: int|
            0 <= i < rooms.len() ==> #[trigger] rooms_fields(rooms)[i] == (
                10u32,
                FieldView::Bytes(rooms[i].wire_bytes()),
            ),
        fields_bytes(rooms_fields(rooms)) == rooms_bytes(rooms),
    decreases rooms.len(),
{
    if rooms.len() > 0 {
        let init = rooms.drop_last();
        let f = (10u32, FieldView::Bytes(rooms.last().wire_bytes()));
        lemma_rooms_fields(init);
        lemma_fields_bytes_append(rooms_fields(init), seq![f]);
        lemma_single_field(f);
        assert(rooms_fields(init).push(f) =~= rooms_fields(init) + seq![f]);
        assert(field_bytes(f) =~= message_field(10, rooms.last().wire_bytes()));
    }
}

/// Reading the first `j` fields of a list of rooms that can be read back
/// meets no error and gives the first `j` rooms as written.
proof fn lemma_rooms_read_back(rooms: Seq<Room>, j: int, ds: Seq<Room>)
    requires
        0 <= j <= rooms.len(),
        forall|k: int| 0 <= k < j ==> #[trigger] room_field_ok(rooms_fields(rooms)[k]),
        forall|i: int| 0 <= i < rooms.len() ==> (#[trigger] rooms[i]).readable(),
    ensures
        rooms_error(rooms_fields(rooms).take(j)) is None,
        rooms_from(rooms_fields(rooms).take(j), ds) ==> ds.len() == j && forall|i: int|
            0 <= i < ds.len() ==> (#[trigger] ds[i]).same_as(rooms[i]),
    decreases j,
{
    let fs = rooms_fields(rooms);
    lemma_rooms_fields(rooms);
    if j > 0 {
        assert(fs.take(j).drop_last() =~= fs.take(j - 1));
        assert(fs.take(j).last() == fs[j - 1]);
        let r = rooms[j - 1];
        assert(fs[j - 1] == (10u32, FieldView::Bytes(r.wire_bytes())));
        assert(room_field_ok(fs[j - 1]));
        assert(r.readable());
        lemma_rooms_read_back(rooms, j - 1, ds.drop_last());
        if rooms_from(fs.take(j), ds) {
            assert forall|i: int| 0 <= i < ds.len() implies (#[trigger] ds[i]).same_as(rooms[i]) by {
                if i < ds.len() - 1 {
                    assert(ds.drop_last()[i] == ds[i]);
                }
            }
        }
    }
}

impl Rooms {
    pub open spec fn wire_bytes(&self) -> Seq<u8> {
        rooms_bytes(self.rooms@)
    }

    /// The fields the writer puts out, in order.
    pub open spec fn fields(&self) -> Seq<(u32, FieldView)> {
        rooms_fields(self.rooms@)
    }

    /// The message can be read back as written: every room can, and the
    /// length of each nested room fits a varint32.
    pub open spec fn readable(&self) -> bool {
        forall|i: int|
            0 <= i < self.rooms@.len() ==> (#[trigger] self.rooms@[i]).readable()
                && self.rooms@[i].wire_bytes().len() <= u32::MAX
    }

    /// The two messages hold the same rooms, in the same order.
    pub open spec fn same_as(&self, other: Rooms) -> bool {
        &&& self.rooms@.len() == other.rooms@.len()
        &&& forall|i: int|
            0 <= i < self.rooms@.len() ==> (#[trigger] self.rooms@[i]).same_as(other.rooms@[i])
    }

    proof fn lemma_written_fields(&self)
        ensures
            self.wire_bytes() == fields_bytes(self.fields()),
            self.readable() ==> fits(self.fields(), Schema::Rooms),
    {
        lemma_rooms_fields(self.rooms@);
        if self.readable() {
            assert forall|i: int| 0 <= i < rooms_fields(self.rooms@).len() implies #[trigger]
            fits_kind(
                schema_kind(Schema::Rooms, rooms_fields(self.rooms@)[i].0),
                rooms_fields(self.rooms@)[i].1,
            ) by {
                assert(self.rooms@[i].readable());
            }
        }
    }

    /// What decoding `bytes` as `Rooms` gives: the rooms of the nested fields,
    /// or the first error met, in the order of the buffer.
    pub open spec fn decoded(bytes: Seq<u8>, res: Result<Rooms, ProtoError>) -> bool {
        let (fs, err) = scan(bytes, Schema::Rooms);
        match res {
            Ok(m) => rooms_error(fs) is None && err is None && rooms_from(fs, m.rooms@),
            Err(e) => match rooms_error(fs) {
                Some(n) => e == n,
                None => err == Some(e),
            },
        }
    }

    /// Appends the encoded rooms to `out`.
    pub fn write_message(&self, out: &mut Vec<u8>)
        ensures
            final(out)@ == old(out)@ + self.wire_bytes(),
    {
        let mut i: usize = 0;
        while i < self.rooms.len()
            invariant
                i <= self.rooms@.len(),
                out@ == old(out)@ + rooms_bytes(self.rooms@.take(i as int)),
            decreases self.rooms@.len() - i,
        {
            let mut body: Vec<u8> = Vec::new();
            self.rooms[i].write_message(&mut body);
            assert(body@ =~= self.rooms@[i as int].wire_bytes());
            write_message_field(out, 10, &body);
            assert(self.rooms@.take(i + 1).drop_last() =~= self.rooms@.take(i as int));
            i = i + 1;
        }
        assert(self.rooms@.take(i as int) =~= self.rooms@);
    }

    /// The number of bytes `write_message` puts out.
    pub fn get_size(&self) -> (n: usize)
        ensures
            n == self.wire_bytes().len(),
    {
        let mut out: Vec<u8> = Vec::new();
        self.write_message(&mut out);
        assert(out@ =~= self.wire_bytes());
        out.len()
    }

    /// Decodes a buffer that holds the fields of one `Rooms`. A message that
    /// `write_message` wrote, and that can be read back, decodes to itself.
    pub fn from_reader(bytes: &[u8]) -> (res: Result<Rooms, ProtoError>)
        ensures
            Rooms::decoded(bytes@, res),
            forall|m: Rooms|
                #[trigger] m.wire_bytes() == bytes@ && m.readable() ==> (res matches Ok(d)
                    && d.same_as(m)),
    {
        let (fields, err) = scan_fields(bytes, Schema::Rooms);
        let ghost fs = fields_view(fields@);
        proof {
            assert forall|m: Rooms| #[trigger]
                m.wire_bytes() == bytes@ && m.readable() implies fs == m.fields() && err is None by {
                m.lemma_written_fields();
                assert(written_as(bytes@, Schema::Rooms, m.fields()));
            }
        }
        let mut rooms: Vec<Room> = Vec::new();
        let mut i: usize = 0;
        while i < fields.len()
            invariant
                i <= fields@.len(),
                fs == fields_view(fields@),
                (fs, err) == scan(bytes@, Schema::Rooms),
                rooms_error(fs.take(i as int)) is None,
                rooms_from(fs.take(i as int), rooms@),
                forall|k: int| 0 <= k < i ==> #[trigger] room_field_ok(fs[k]),
                forall|m: Rooms|
                    #[trigger] m.wire_bytes() == bytes@ && m.readable() ==> fs == m.fields()
                        && err is None,
            decreases fields@.len() - i,
        {
            assert(fs.take(i + 1).drop_last() =~= fs.take(i as int));
            assert(fs.take(i + 1).last() == fs[i as int]);
            match &fields[i] {
                (t, FieldValue::Bytes(b)) => {
                    if *t == 10 {
                        assert(fs[i as int] == (10u32, FieldView::Bytes(b@)));
                        let read = Room::from_reader(b.as_slice());
                        assert(room_field_ok(fs[i as int]));
                        match read {
                            Ok(r) => {
                                let ghost before = rooms@;
                                rooms.push(r);
                                assert(rooms@.drop_last() =~= before);
                            },
                            Err(e) => {
                                assert(rooms_error(fs.take(i + 1)) == Some(e));
                                proof {
                                    lemma_rooms_error_prefix(fs, i + 1);
                                    assert forall|m: Rooms| #[trigger]
                                        m.wire_bytes() == bytes@ && m.readable() implies false by {
                                        lemma_rooms_fields(m.rooms@);
                                        lemma_rooms_read_back(m.rooms@, i + 1, Seq::empty());
                                    }
                                }
                                return Err(e);
                            },
                        }
                    }
                },
                _ => {},
            }
            i = i + 1;
        }
        assert(fs.take(i as int) =~= fs);
        let res = match err {
            Some(e) => Err(e),
            None => Ok(Rooms { rooms }),
        };
        proof {
            assert forall|m: Rooms| #[trigger] m.wire_bytes() == bytes@ && m.readable() implies (
            res matches Ok(d) && d.same_as(m)) by {
                lemma_rooms_fields(m.rooms@);
                assert(fs == m.fields());
                lemma_rooms_read_back(m.rooms@, fs.len() as int, rooms@);
            }
        }
        res
    }
}

/// The users of the lobby, and the id of the user who receives the list.
#[derive(Clone, Debug, Default, PartialEq)]
pub struct Users {
    pub users: Vec<User>,
    pub me: u32,
}

/// The encoding of a list of users, one nested field each.
pub open spec fn users_bytes(users: Seq<User>) -> Seq<u8>
    decreases users.len(),
{
    if users.len() == 0 {
        Seq::empty()
    } else {
        users_bytes(users.drop_last()) + message_field(10, users.last().wire_bytes())
    }
}

/// The users that the nested fields with tag 10 decode to, in order.
pub open spec fn users_from(fs: Seq<(u32, FieldView)>, users: Seq<User>) -> bool
    decreases fs.len(),
{
    if fs.len() == 0 {
        users.len() == 0
    } else {
        match fs.last() {
            (t, FieldView::Bytes(b)) if t == 10 => users.len() > 0 && User::decoded(
                b,
                Ok(users.last()),
            ) && users_from(fs.drop_last(), users.drop_last()),
            _ => users_from(fs.drop_last(), users),
        }
    }
}

/// The error of the first nested user that does not decode, if one does not.
pub open spec fn users_error(fs: Seq<(u32, FieldView)>) -> Option<ProtoError>
    decreases fs.len(),
{
    if fs.len() == 0 {
        None
    } else if users_error(fs.drop_last()) is Some {
        users_error(fs.drop_last())
    } else {
        match fs.last() {
            (t, FieldView::Bytes(b)) if t == 10 => scan(b, Schema::User).1,
            _ => None,
        }
    }
}

/// The nested fields a list of users is written as, one per user.
pub open spec fn users_fields(users: Seq<User>) -> Seq<(u32, FieldView)>
    decreases users.len(),
{
    if users.len() == 0 {
        Seq::empty()
    } else {
        users_fields(users.drop_last()).push((10u32, FieldView::Bytes(users.last().wire_bytes())))
    }
}

/// A nested user field, if it holds the bytes of a user that can be read
/// back, is read as that user.
pub open spec fn user_field_ok(f: (u32, FieldView)) -> bool {
    match f {
        (t, FieldView::Bytes(b)) if t == 10 => forall|u: User|
            #[trigger] u.wire_bytes() == b && u.readable() ==> scan(b, Schema::User).1 is None
                && User::from_fields(scan(b, Schema::User).0, u),
        _ => true,
    }
}

proof fn lemma_users_fields(users: Seq<User>)
    ensures
        users_fields(users).len() == users.len(),
        forall|i: int|
            0 <= i < users.len() ==> #[trigger] users_fields(users)[i] == (
                10u32,
                FieldView::Bytes(users[i].wire_bytes()),
            ),
        fields_bytes(users_fields(users)) == users_bytes(users),
        last_varint(users_fields(users), 16) == 0,
    decreases users.len(),
{
    if users.len() > 0 {
        let init = users.drop_last();
        let f = (10u32, FieldView::Bytes(users.last().wire_bytes()));
        lemma_users_fields(init);
        lemma_fields_bytes_append(users_fields(init), seq![f]);
        lemma_single_field(f);
        assert(users_fields(init).push(f) =~= users_fields(init) + seq![f]);
        assert(field_bytes(f) =~= message_field(10, users.last().wire_bytes()));
        assert(users_fields(users).drop_last() =~= users_fields(init));
    }
}

/// Reading the first `j` fields of a list of users that can be read back
/// meets no error and gives the users as written, as far as they go.
proof fn lemma_users_read_back(users: Seq<User>, me: u32, j: int, ds: Seq<User>)
    requires
        0 <= j <= (users_fields(users) + opt_u32(16, me)).len(),
        forall|k: int|
            0 <= k < j ==> #[trigger] user_field_ok((users_fields(users) + opt_u32(16, me))[k]),
        forall|i: int| 0 <= i < users.len() ==> (#[trigger] users[i]).readable(),
    ensures
        users_error((users_fields(users) + opt_u32(16, me)).take(j)) is None,
        users_from((users_fields(users) + opt_u32(16, me)).take(j), ds) ==> ds.len() == (if j
            <= users.len() {
            j
        } else {
            users.len() as int
        }) && forall|i: int| 0 <= i < ds.len() ==> (#[trigger] ds[i]).same_as(users[i]),
    decreases j,
{
    let fs = users_fields(users) + opt_u32(16, me);
    lemma_users_fields(users);
    if j > 0 {
        assert(fs.take(j).drop_last() =~= fs.take(j - 1));
        assert(fs.take(j).last() == fs[j - 1]);
        if j - 1 < users.len() {
            let u = users[j - 1];
            assert(fs[j - 1] == (10u32, FieldView::Bytes(u.wire_bytes())));
            assert(user_field_ok(fs[j - 1]));
            assert(u.readable());
            lemma_users_read_back(users, me, j - 1, ds.drop_last());
            if users_from(fs.take(j), ds) {
                assert forall|i: int| 0 <= i < ds.len() implies (#[trigger] ds[i]).same_as(
                    users[i],
                ) by {
                    if i < ds.len() - 1 {
                        assert(ds.drop_last()[i] == ds[i]);
                    }
                }
            }
        } else {
            assert(fs[j - 1] == (16u32, FieldView::Varint(me)));
            lemma_users_read_back(users, me, j - 1, ds);
        }
    }
}

impl Users {
    pub open spec fn wire_bytes(&self) -> Seq<u8> {
        users_bytes(self.users@) + u32_field(16, self.me)
    }

    /// The fields the writer puts out, in order, a zero `me` left out.
    pub open spec fn fields(&self) -> Seq<(u32, FieldView)> {
        users_fields(self.users@) + opt_u32(16, self.me)
    }

    /// The message can be read back as written: every user can, and the
    /// length of each nested user fits a varint32.
    pub open spec fn readable(&self) -> bool {
        forall|i: int|
            0 <= i < self.users@.len() ==> (#[trigger] self.users@[i]).readable()
                && self.users@[i].wire_bytes().len() <= u32::MAX
    }

    /// The two messages hold the same users, in the same order, and the same `me`.
    pub open spec fn same_as(&self, other: Users) -> bool {
        &&& self.users@.len() == other.users@.len()
        &&& forall|i: int|
            0 <= i < self.users@.len() ==> (#[trigger] self.users@[i]).same_as(other.users@[i])
        &&& self.me == other.me
    }

    proof fn lemma_written_fields(&self)
        ensures
            self.wire_bytes() == fields_bytes(self.fields()),
            self.readable() ==> fits(self.fields(), Schema::Users),
            last_varint(self.fields(), 16) == self.me,
    {
        lemma_users_fields(self.users@);
        lemma_opt_fields(16, Seq::empty(), self.me, false, 0);
        lemma_fields_bytes_append(users_fields(self.users@), opt_u32(16, self.me));
        if self.readable() {
            assert forall|i: int| 0 <= i < users_fields(self.users@).len() implies #[trigger]
            fits_kind(
                schema_kind(Schema::Users, users_fields(self.users@)[i].0),
                users_fields(self.users@)[i].1,
            ) by {
                assert(self.users@[i].readable());
            }
            lemma_fits_append(users_fields(self.users@), opt_u32(16, self.me), Schema::Users);
        }
        if self.me != 0 {
            assert(self.fields().last() == (16u32, FieldView::Varint(self.me)));
        } else {
            assert(self.fields() =~= users_fields(self.users@));
        }
    }

    /// What decoding `bytes` as `Users` gives: the users of the nested fields
    /// and the last `me`, or the first error met, in the order of the buffer.
    pub open spec fn decoded(bytes: Seq<u8>, res: Result<Users, ProtoError>) -> bool {
        let (fs, err) = scan(bytes, Schema::Users);
        match res {
            Ok(m) => users_error(fs) is None && err is None && users_from(fs, m.users@) && m.me
                == last_varint(fs, 16),
            Err(e) => match users_error(fs) {
                Some(n) => e == n,
                None => err == Some(e),
            },
        }
    }

    /// Appends the encoded users to `out`.
    pub fn write_message(&self, out: &mut Vec<u8>)
        ensures
            final(out)@ == old(out)@ + self.wire_bytes(),
    {
        let mut i: usize = 0;
        while i < self.users.len()
            invariant
                i <= self.users@.len(),
                out@ == old(out)@ + users_bytes(self.users@.take(i as int)),
            decreases self.users@.len() - i,
        {
            let mut body: Vec<u8> = Vec::new();
            self.users[i].write_message(&mut body);
            assert(body@ =~= self.users@[i as int].wire_bytes());
            write_message_field(out, 10, &body);
            assert(self.users@.take(i + 1).drop_last() =~= self.users@.take(i as int));
            i = i + 1;
        }
        assert(self.users@.take(i as int) =~= self.users@);
        write_u32_field(out, 16, self.me);
        assert(out@ =~= old(out)@ + self.wire_bytes());
    }

    /// The number of bytes `write_message` puts out.
    pub fn get_size(&self) -> (n: usize)
        ensures
            n == self.wire_bytes().len(),
    {
        let mut out: Vec<u8> = Vec::new();
        self.write_message(&mut out);
        assert(out@ =~= self.wire_bytes());
        out.len()
    }

    /// Decodes a buffer that holds the fields of one `Users`. A message that
    /// `write_message` wrote, and that can be read back, decodes to itself.
    pub fn from_reader(bytes: &[u8]) -> (res: Result<Users, ProtoError>)
        ensures
            Users::decoded(bytes@, res),
            forall|m: Users|
                #[trigger] m.wire_bytes() == bytes@ && m.readable() ==> (res matches Ok(d)
                    && d.same_as(m)),
    {
        let (fields, err) = scan_fields(bytes, Schema::Users);
        let ghost fs = fields_view(fields@);
        proof {
            assert forall|m: Users| #[trigger]
                m.wire_bytes() == bytes@ && m.readable() implies fs == m.fields() && err is None by {
                m.lemma_written_fields();
                assert(written_as(bytes@, Schema::Users, m.fields()));
            }
        }
        let mut users: Vec<User> = Vec::new();
        let mut i: usize = 0;
        while i < fields.len()
            invariant
                i <= fields@.len(),
                fs == fields_view(fields@),
                (fs, err) == scan(bytes@, Schema::Users),
                users_error(fs.take(i as int)) is None,
                users_from(fs.take(i as int), users@),
                forall|k: int| 0 <= k < i ==> #[trigger] user_field_ok(fs[k]),
                forall|m: Users|
                    #[trigger] m.wire_bytes() == bytes@ && m.readable() ==> fs == m.fields()
                        && err is None,
            decreases fields@.len() - i,
        {
            assert(fs.take(i + 1).drop_last() =~= fs.take(i as int));
            assert(fs.take(i + 1).last() == fs[i as int]);
            match &fields[i] {
                (t, FieldValue::Bytes(b)) => {
                    if *t == 10 {
                        assert(fs[i as int] == (10u32, FieldView::Bytes(b@)));
                        let read = User::from_reader(b.as_slice());
                        assert(user_field_ok(fs[i as int]));
                        match read {
                            Ok(r) => {
                                let ghost before = users@;
                                users.push(r);
                                assert(users@.drop_last() =~= before);
                            },
                            Err(e) => {
                                assert(users_error(fs.take(i + 1)) == Some(e));
                                proof {
                                    lemma_users_error_prefix(fs, i + 1);
                                    assert forall|m: Users| #[trigger]
                                        m.wire_bytes() == bytes@ && m.readable() implies false by {
                                        lemma_users_read_back(m.users@, m.me, i + 1, Seq::empty());
                                    }
                                }
                                return Err(e);
                            },
                        }
                    }
                },
                _ => {},
            }
            i = i + 1;
        }
        assert(fs.take(i as int) =~= fs);
        let res = match err {
            Some(e) => Err(e),
            None => Ok(Users { users, me: get_varint(&fields, 16) }),
        };
        proof {
            assert forall|m: Users| #[trigger] m.wire_bytes() == bytes@ && m.readable() implies (
            res matches Ok(d) && d.same_as(m)) by {
                m.lemma_written_fields();
                lemma_users_fields(m.users@);
                assert(fs == m.fields());
                lemma_users_read_back(m.users@, m.me, fs.len() as int, users@);
            }
        }
        res
    }
}

/// Once a prefix of the fields holds a room that does not decode, the
/// first such error is the error of all the fields.
proof fn lemma_rooms_error_prefix(fs: Seq<(u32, FieldView)>, k: int)
    requires
        0 <= k <= fs.len(),
        rooms_error(fs.take(k)) is Some,
    ensures
        rooms_error(fs) == rooms_error(fs.take(k)),
    decreases fs.len() - k,
{
    if k < fs.len() {
        assert(fs.take(k + 1).drop_last() =~= fs.take(k));
        lemma_rooms_error_prefix(fs, k + 1);
    } else {
        assert(fs.take(k) =~= fs);
    }
}

/// Once a prefix of the fields holds a user that does not decode, the
/// first such error is the error of all the fields.
proof fn lemma_users_error_prefix(fs: Seq<(u32, FieldView)>, k: int)
    requires
        0 <= k <= fs.len(),
        users_error(fs.take(k)) is Some,
    ensures
        users_error(fs) == users_error(fs.take(k)),
    decreases fs.len() - k,
{
    if k < fs.len() {
        assert(fs.take(k + 1).drop_last() =~= fs.take(k));
        lemma_users_error_prefix(fs, k + 1);
    } else {
        assert(fs.take(k) =~= fs);
    }
}

/// One entity of a game snapshot: a player id and its pose, the floating-point
/// values being carried as their IEEE-754 bit patterns.
#[derive(Clone, Copy, Debug, Default, PartialEq)]
pub struct Entity {
    pub id: u32,
    pub x_bits: u32,
    pub y_bits: u32,
    pub angle_bits: u32,
}

impl Entity {
    /// The encoded fields, in field order, default values left out.
    pub open spec fn wire_bytes(&self) -> Seq<u8> {
        u32_field(8, self.id) + float_field(21, self.x_bits) + float_field(29, self.y_bits)
            + float_field(37, self.angle_bits)
    }

    /// The entity that the fields read from a buffer assign: each field takes
    /// the value of its last occurrence, and keeps its default without one.
    pub open spec fn from_fields(fs: Seq<(u32, FieldView)>, m: Entity) -> bool {
        m.id == last_varint(fs, 8)
        && m.x_bits == last_fixed32(fs, 21)
        && m.y_bits == last_fixed32(fs, 29)
        && m.angle_bits == last_fixed32(fs, 37)
    }

    /// What decoding `bytes` as an `Entity` gives: the entity the fields
    /// assign, or the error that stopped the reading.
    pub open spec fn decoded(bytes: Seq<u8>, res: Result<Entity, ProtoError>) -> bool {
        match res {
            Ok(m) => scan(bytes, Schema::Entity).1 is None && Entity::from_fields(
                scan(bytes, Schema::Entity).0,
                m,
            ),
            Err(e) => scan(bytes, Schema::Entity).1 == Some(e),
        }
    }

    /// The fields the writer puts out, in order, default values left out.
    pub open spec fn fields(&self) -> Seq<(u32, FieldView)> {
        opt_u32(8, self.id) + opt_float(21, self.x_bits) + opt_float(29, self.y_bits) + opt_float(
            37,
            self.angle_bits,
        )
    }

    /// The entity can be read back as written: no coordinate and not the
    /// angle is negative zero, which is written as zero.
    pub open spec fn readable(&self) -> bool {
        self.x_bits != 0x8000_0000 && self.y_bits != 0x8000_0000 && self.angle_bits != 0x8000_0000
    }

    /// The two entities hold the same values.
    pub open spec fn same_as(&self, other: Entity) -> bool {
        self.id == other.id && self.x_bits == other.x_bits && self.y_bits == other.y_bits
            && self.angle_bits == other.angle_bits
    }

    #[verifier::rlimit(60)]
    proof fn lemma_written_fields(&self)
        ensures
            self.wire_bytes() == fields_bytes(self.fields()),
            self.readable() ==> fits(self.fields(), Schema::Entity),
            self.readable() ==> {
                last_varint(self.fields(), 8) == self.id
                && last_fixed32(self.fields(), 21) == self.x_bits
                && last_fixed32(self.fields(), 29) == self.y_bits
                && last_fixed32(self.fields(), 37) == self.angle_bits
            },
    {
        let a = opt_u32(8, self.id);
        let b = opt_float(21, self.x_bits);
        let c = opt_float(29, self.y_bits);
        let d = opt_float(37, self.angle_bits);
        lemma_opt_fields(8, Seq::empty(), self.id, false, 0);
        lemma_opt_fields(21, Seq::empty(), 0, false, self.x_bits);
        lemma_opt_fields(29, Seq::empty(), 0, false, self.y_bits);
        lemma_opt_fields(37, Seq::empty(), 0, false, self.angle_bits);
        lemma_fields_bytes_append(a, b);
        lemma_fits_append(a, b, Schema::Entity);
        lemma_fields_bytes_append(a + b, c);
        lemma_fits_append(a + b, c, Schema::Entity);
        lemma_fields_bytes_append(a + b + c, d);
        lemma_fits_append(a + b + c, d, Schema::Entity);
        assert(self.wire_bytes() =~= fields_bytes(self.fields()));
        reveal_with_fuel(last_varint, 5);
        reveal_with_fuel(last_fixed32, 5);
    }

    /// Appends the encoded fields to `out`.
    pub fn write_message(&self, out: &mut Vec<u8>)
        ensures
            final(out)@ == old(out)@ + self.wire_bytes(),
    {
        write_u32_field(out, 8, self.id);
        write_float_field(out, 21, self.x_bits);
        assert(out@ =~= old(out)@ + (u32_field(8, self.id) + float_field(21, self.x_bits)));
        write_float_field(out, 29, self.y_bits);
        assert(out@ =~= old(out)@ + (u32_field(8, self.id) + float_field(21, self.x_bits)
            + float_field(29, self.y_bits)));
        write_float_field(out, 37, self.angle_bits);
        assert(out@ =~= old(out)@ + self.wire_bytes());
    }

    /// The number of bytes `write_message` puts out.
    pub fn get_size(&self) -> (n: usize)
        ensures
            n == self.wire_bytes().len(),
    {
        let mut out: Vec<u8> = Vec::new();
        self.write_message(&mut out);
        assert(out@ =~= self.wire_bytes());
        out.len()
    }

    /// Decodes a buffer that holds the fields of one `Entity`. An entity that
    /// `write_message` wrote, and that can be read back, decodes to itself:
    /// its id, both coordinates and its angle, each from its own field.
    pub fn from_reader(bytes: &[u8]) -> (res: Result<Entity, ProtoError>)
        ensures
            Entity::decoded(bytes@, res),
            forall|m: Entity|
                #[trigger] m.wire_bytes() == bytes@ && m.readable() ==> (res matches Ok(d)
                    && d.same_as(m)),
    {
        let (fields, err) = scan_fields(bytes, Schema::Entity);
        let res = match err {
            Some(e) => Err(e),
            None => Ok(
                Entity {
                    id: get_varint(&fields, 8),
                    x_bits: get_fixed32(&fields, 21),
                    y_bits: get_fixed32(&fields, 29),
                    angle_bits: get_fixed32(&fields, 37),
                },
            ),
        };
        proof {
            assert forall|m: Entity| #[trigger] m.wire_bytes() == bytes@ && m.readable() implies (
            res matches Ok(d) && d.same_as(m)) by {
                m.lemma_written_fields();
                assert(written_as(bytes@, Schema::Entity, m.fields()));
            }
        }
        res
    }
}

/// A game snapshot: the last input sequence number applied and the entities.
#[derive(Clone, Debug, Default, PartialEq)]
pub struct State {
    pub last_seq: u32,
    pub entities: Vec<Entity>,
}

/// The encoding of a list of entities, one nested field each.
pub open spec fn entities_bytes(entities: Seq<Entity>) -> Seq<u8>
    decreases entities.len(),
{
    if entities.len() == 0 {
        Seq::empty()
    } else {
        entities_bytes(entities.drop_last()) + message_field(18, entities.last().wire_bytes())
    }
}

/// The nested fields a list of entities is written as, one per entity.
pub open spec fn entities_fields(entities: Seq<Entity>) -> Seq<(u32, FieldView)>
    decreases entities.len(),
{
    if entities.len() == 0 {
        Seq::empty()
    } else {
        entities_fields(entities.drop_last()).push(
            (18u32, FieldView::Bytes(entities.last().wire_bytes())),
        )
    }
}

/// The entities that the nested fields with tag 18 decode to, in order.
pub open spec fn entities_from(fs: Seq<(u32, FieldView)>, entities: Seq<Entity>) -> bool
    decreases fs.len(),
{
    if fs.len() == 0 {
        entities.len() == 0
    } else {
        match fs.last() {
            (t, FieldView::Bytes(b)) if t == 18 => entities.len() > 0 && Entity::decoded(
                b,
                Ok(entities.last()),
            ) && entities_from(fs.drop_last(), entities.drop_last()),
            _ => entities_from(fs.drop_last(), entities),
        }
    }
}

/// The error of the first nested entity that does not decode, if one does not.
pub open spec fn entities_error(fs: Seq<(u32, FieldView)>) -> Option<ProtoError>
    decreases fs.len(),
{
    if fs.len() == 0 {
        None
    } else if entities_error(fs.drop_last()) is Some {
        entities_error(fs.drop_last())
    } else {
        match fs.last() {
            (t, FieldView::Bytes(b)) if t == 18 => scan(b, Schema::Entity).1,
            _ => None,
        }
    }
}

/// A nested entity field, if it holds the bytes of an entity that can be
/// read back, is read as that entity.
pub open spec fn entity_field_ok(f: (u32, FieldView)) -> bool {
    match f {
        (t, FieldView::Bytes(b)) if t == 18 => forall|e: Entity|
            #[trigger] e.wire_bytes() == b && e.readable() ==> scan(b, Schema::Entity).1 is None
                && Entity::from_fields(scan(b, Schema::Entity).0, e),
        _ => true,
    }
}

proof fn lemma_entities_fields(entities: Seq<Entity>, seq: u32)
    ensures
        entities_fields(entities).len() == entities.len(),
        forall|i: int|
            0 <= i < entities.len() ==> #[trigger] entities_fields(entities)[i] == (
                18u32,
                FieldView::Bytes(entities[i].wire_bytes()),
            ),
        fields_bytes(entities_fields(entities)) == entities_bytes(entities),
        last_varint(opt_u32(8, seq) + entities_fields(entities), 8) == seq,
    decreases entities.len(),
{
    if entities.len() > 0 {
        let init = entities.drop_last();
        let f = (18u32, FieldView::Bytes(entities.last().wire_bytes()));
        lemma_entities_fields(init, seq);
        lemma_fields_bytes_append(entities_fields(init), seq![f]);
        lemma_single_field(f);
        assert(entities_fields(init).push(f) =~= entities_fields(init) + seq![f]);
        assert(field_bytes(f) =~= message_field(18, entities.last().wire_bytes()));
        assert((opt_u32(8, seq) + entities_fields(entities)).drop_last() =~= opt_u32(8, seq)
            + entities_fields(init));
    } else {
        assert(opt_u32(8, seq) + entities_fields(entities) =~= opt_u32(8, seq));
    }
}

/// Once a prefix of the fields holds an entity that does not decode, the
/// first such error is the error of all the fields.
proof fn lemma_entities_error_prefix(fs: Seq<(u32, FieldView)>, k: int)
    requires
        0 <= k <= fs.len(),
        entities_error(fs.take(k)) is Some,
    ensures
        entities_error(fs) == entities_error(fs.take(k)),
    decreases fs.len() - k,
{
    if k < fs.len() {
        assert(fs.take(k + 1).drop_last() =~= fs.take(k));
        lemma_entities_error_prefix(fs, k + 1);
    } else {
        assert(fs.take(k) =~= fs);
    }
}

/// Reading the first `j` fields of a snapshot whose entities can be read
/// back meets no error and gives the entities as written, as far as they go.
proof fn lemma_state_read_back(entities: Seq<Entity>, seq: u32, j: int, ds: Seq<Entity>)
    requires
        0 <= j <= (opt_u32(8, seq) + entities_fields(entities)).len(),
        forall|k: int|
            0 <= k < j ==> #[trigger] entity_field_ok((opt_u32(8, seq) + entities_fields(entities))[k]),
        forall|i: int| 0 <= i < entities.len() ==> (#[trigger] entities[i]).readable(),
    ensures
        entities_error((opt_u32(8, seq) + entities_fields(entities)).take(j)) is None,
        entities_from((opt_u32(8, seq) + entities_fields(entities)).take(j), ds) ==> ds.len() == (
        if j <= opt_u32(8, seq).len() {
            0
        } else {
            j - opt_u32(8, seq).len()
        }) && forall|i: int| 0 <= i < ds.len() ==> (#[trigger] ds[i]).same_as(entities[i]),
    decreases j,
{
    let head = opt_u32(8, seq);
    let fs = head + entities_fields(entities);
    lemma_entities_fields(entities, seq);
    if j > 0 {
        assert(fs.take(j).drop_last() =~= fs.take(j - 1));
        assert(fs.take(j).last() == fs[j - 1]);
        if j - 1 >= head.len() {
            let e = entities[j - 1 - head.len()];
            assert(fs[j - 1] == (18u32, FieldView::Bytes(e.wire_bytes())));
            assert(entity_field_ok(fs[j - 1]));
            assert(e.readable());
            lemma_state_read_back(entities, seq, j - 1, ds.drop_last());
            if entities_from(fs.take(j), ds) {
                assert forall|i: int| 0 <= i < ds.len() implies (#[trigger] ds[i]).same_as(
                    entities[i],
                ) by {
                    if i < ds.len() - 1 {
                        assert(ds.drop_last()[i] == ds[i]);
                    }
                }
            }
        } else {
            assert(fs[j - 1] == (8u32, FieldView::Varint(seq)));
            lemma_state_read_back(entities, seq, j - 1, ds);
            if entities_from(fs.take(j), ds) {
                assert(fs.take(j - 1) =~= Seq::<(u32, FieldView)>::empty());
            }
        }
    } else {
        assert(fs.take(0) =~= Seq::<(u32, FieldView)>::empty());
    }
}

impl State {
    /// The encoded snapshot: the sequence number, then one nested field per
    /// entity.
    pub open spec fn wire_bytes(&self) -> Seq<u8> {
        u32_field(8, self.last_seq) + entities_bytes(self.entities@)
    }

    /// The fields the writer puts out, in order, a zero sequence number left out.
    pub open spec fn fields(&self) -> Seq<(u32, FieldView)> {
        opt_u32(8, self.last_seq) + entities_fields(self.entities@)
    }

    /// The snapshot can be read back as written: every entity can, and the
    /// length of each nested entity fits a varint32.
    pub open spec fn readable(&self) -> bool {
        forall|i: int|
            0 <= i < self.entities@.len() ==> (#[trigger] self.entities@[i]).readable()
                && self.entities@[i].wire_bytes().len() <= u32::MAX
    }

    /// The two snapshots hold the same sequence number and the same entities,
    /// in the same order.
    pub open spec fn same_as(&self, other: State) -> bool {
        &&& self.last_seq == other.last_seq
        &&& self.entities@.len() == other.entities@.len()
        &&& forall|i: int|
            0 <= i < self.entities@.len() ==> (#[trigger] self.entities@[i]).same_as(
                other.entities@[i],
            )
    }

    /// What decoding `bytes` as a `State` gives: the last sequence number and
    /// the entities of the nested fields, or the first error met, in the
    /// order of the buffer.
    pub open spec fn decoded(bytes: Seq<u8>, res: Result<State, ProtoError>) -> bool {
        let (fs, err) = scan(bytes, Schema::State);
        match res {
            Ok(m) => entities_error(fs) is None && err is None && entities_from(fs, m.entities@)
                && m.last_seq == last_varint(fs, 8),
            Err(e) => match entities_error(fs) {
                Some(n) => e == n,
                None => err == Some(e),
            },
        }
    }

    proof fn lemma_written_fields(&self)
        ensures
            self.wire_bytes() == fields_bytes(self.fields()),
            self.readable() ==> fits(self.fields(), Schema::State),
            last_varint(self.fields(), 8) == self.last_seq,
    {
        lemma_entities_fields(self.entities@, self.last_seq);
        lemma_opt_fields(8, Seq::empty(), self.last_seq, false, 0);
        lemma_fields_bytes_append(opt_u32(8, self.last_seq), entities_fields(self.entities@));
        if self.readable() {
            assert forall|i: int| 0 <= i < entities_fields(self.entities@).len() implies #[trigger]
            fits_kind(
                schema_kind(Schema::State, entities_fields(self.entities@)[i].0),
                entities_fields(self.entities@)[i].1,
            ) by {
                assert(self.entities@[i].readable());
            }
            lemma_fits_append(opt_u32(8, self.last_seq), entities_fields(self.entities@), Schema::State);
        }
    }

    /// Appends the encoded fields to `out`.
    pub fn write_message(&self, out: &mut Vec<u8>)
        ensures
            final(out)@ == old(out)@ + self.wire_bytes(),
    {
        write_u32_field(out, 8, self.last_seq);
        let ghost start = out@;
        let mut i: usize = 0;
        while i < self.entities.len()
            invariant
                i <= self.entities@.len(),
                out@ == start + entities_bytes(self.entities@.take(i as int)),
            decreases self.entities@.len() - i,
        {
            let mut body: Vec<u8> = Vec::new();
            self.entities[i].write_message(&mut body);
            assert(body@ =~= self.entities@[i as int].wire_bytes());
            write_message_field(out, 18, &body);
            assert(self.entities@.take(i + 1).drop_last() =~= self.entities@.take(i as int));
            i = i + 1;
        }
        assert(self.entities@.take(i as int) =~= self.entities@);
        assert(out@ =~= old(out)@ + self.wire_bytes());
    }

    /// The number of bytes `write_message` puts out.
    pub fn get_size(&self) -> (n: usize)
        ensures
            n == self.wire_bytes().len(),
    {
        let mut out: Vec<u8> = Vec::new();
        self.write_message(&mut out);
        assert(out@ =~= self.wire_bytes());
        out.len()
    }

    /// Decodes a buffer that holds one `State`. A snapshot that
    /// `write_message` wrote, and whose entities can be read back, decodes to
    /// itself: the same sequence number and the same entities, each with its
    /// own id, coordinates and angle, in order.
    pub fn from_reader(bytes: &[u8]) -> (res: Result<State, ProtoError>)
        ensures
            State::decoded(bytes@, res),
            forall|m: State|
                #[trigger] m.wire_bytes() == bytes@ && m.readable() ==> (res matches Ok(d)
                    && d.same_as(m)),
    {
        let (fields, err) = scan_fields(bytes, Schema::State);
        let ghost fs = fields_view(fields@);
        proof {
            assert forall|m: State| #[trigger]
                m.wire_bytes() == bytes@ && m.readable() implies fs == m.fields() && err is None by {
                m.lemma_written_fields();
                assert(written_as(bytes@, Schema::State, m.fields()));
            }
        }
        let mut entities: Vec<Entity> = Vec::new();
        let mut i: usize = 0;
        while i < fields.len()
            invariant
                i <= fields@.len(),
                fs == fields_view(fields@),
                (fs, err) == scan(bytes@, Schema::State),
                entities_error(fs.take(i as int)) is None,
                entities_from(fs.take(i as int), entities@),
                forall|k: int| 0 <= k < i ==> #[trigger] entity_field_ok(fs[k]),
                forall|m: State|
                    #[trigger] m.wire_bytes() == bytes@ && m.readable() ==> fs == m.fields()
                        && err is None,
            decreases fields@.len() - i,
        {
            assert(fs.take(i + 1).drop_last() =~= fs.take(i as int));
            assert(fs.take(i + 1).last() == fs[i as int]);
            match &fields[i] {
                (t, FieldValue::Bytes(b)) => {
                    if *t == 18 {
                        assert(fs[i as int] == (18u32, FieldView::Bytes(b@)));
                        let read = Entity::from_reader(b.as_slice());
                        assert(entity_field_ok(fs[i as int]));
                        match read {
                            Ok(e) => {
                                let ghost before = entities@;
                                entities.push(e);
                                assert(entities@.drop_last() =~= before);
                            },
                            Err(e) => {
                                assert(entities_error(fs.take(i + 1)) == Some(e));
                                proof {
                                    lemma_entities_error_prefix(fs, i + 1);
                                    assert forall|m: State| #[trigger]
                                        m.wire_bytes() == bytes@ && m.readable() implies false by {
                                        lemma_entities_fields(m.entities@, m.last_seq);
                                        lemma_state_read_back(
                                            m.entities@,
                                            m.last_seq,
                                            i + 1,
                                            Seq::empty(),
                                        );
                                    }
                                }
                                return Err(e);
                            },
                        }
                    }
                },
                _ => {},
            }
            i = i + 1;
        }
        assert(fs.take(i as int) =~= fs);
        let res = match err {
            Some(e) => Err(e),
            None => Ok(State { last_seq: get_varint(&fields, 8), entities }),
        };
        proof {
            assert forall|m: State| #[trigger] m.wire_bytes() == bytes@ && m.readable() implies (
            res matches Ok(d) && d.same_as(m)) by {
                m.lemma_written_fields();
                lemma_entities_fields(m.entities@, m.last_seq);
                assert(fs == m.fields());
                lemma_state_read_back(m.entities@, m.last_seq, fs.len() as int, entities@);
            }
        }
        res
    }
}

} // verus!
