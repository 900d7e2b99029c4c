//! Field-level protobuf coding shared by the messages: the scan of a buffer
//! into its fields, the choice of the last value of a field, and the encoding
//! of single fields.
use crate::proto::wire::{
    bytes_read, fixed32_read, le32_bytes, le32_value, read_bytes, reads_back_bytes, reads_back_string,
    reads_back_varint32, read_fixed32, read_string, read_unknown,
    read_varint32, string_read, unknown_skip, varint32_read, varint_bytes, write_fixed32,
    write_string, write_varint, ProtoError,
};
use vstd::prelude::*;
use vstd::slice::slice_subrange;
use vstd::utf8::encode_utf8;

verus! {

/// How a message reads the field that carries a given tag.
#[derive(Clone, Copy, Debug, PartialEq, Eq, Structural)]
pub enum FieldKind {
    /// A varint, read as 32 bits (`uint32` and `bool`).
    Varint,
    /// A length-delimited UTF-8 string.
    Str,
    /// A length-delimited nested message.
    Bytes,
    /// Four little-endian bytes (`float`).
    Fixed32,
    /// A field the message does not know, skipped by its wire type.
    Skip,
}

/// The messages that are decoded, each with the tags it knows.
#[derive(Clone, Copy, Debug, PartialEq, Eq, Structural)]
pub enum Schema {
    Error,
    User,
    Room,
    Handshake,
    Rooms,
    Users,
    CreateRoom,
    JoinRoom,
    Chat,
    GameInput,
    Entity,
    State,
}

/// A field value that was read.
#[derive(Clone, Debug)]
pub enum FieldValue {
    Varint(u32),
    Str(String),
    Bytes(Vec<u8>),
    Fixed32(u32),
}

/// The mathematical content of a field value.
pub enum FieldView {
    Varint(u32),
    Str(Seq<char>),
    Bytes(Seq<u8>),
    Fixed32(u32),
}

impl View for FieldValue {
    type V = FieldView;

    open spec fn view(&self) -> FieldView {
        match self {
            FieldValue::Varint(v) => FieldView::Varint(*v),
            FieldValue::Str(s) => FieldView::Str(s@),
            FieldValue::Bytes(b) => FieldView::Bytes(b@),
            FieldValue::Fixed32(v) => FieldView::Fixed32(*v),
        }
    }
}

pub open spec fn fields_view(fs: Seq<(u32, FieldValue)>) -> Seq<(u32, FieldView)> {
    fs.map_values(|p: (u32, FieldValue)| (p.0, p.1@))
}

/// The kind of the field with the given tag in each message.
pub open spec fn schema_kind(schema: Schema, tag: u32) -> FieldKind {
    match schema {
        Schema::Error | Schema::CreateRoom | Schema::Chat => if tag == 10 || tag == 18 {
            FieldKind::Str
        } else {
            FieldKind::Skip
        },
        Schema::User | Schema::JoinRoom => if tag == 8 {
            FieldKind::Varint
        } else if tag == 18 {
            FieldKind::Str
        } else {
            FieldKind::Skip
        },
        Schema::Room => if tag == 8 || tag == 24 || tag == 32 {
            FieldKind::Varint
        } else if tag == 18 {
            FieldKind::Str
        } else {
            FieldKind::Skip
        },
        Schema::Handshake => if tag == 10 {
            FieldKind::Str
        } else {
            FieldKind::Skip
        },
        Schema::Rooms => if tag == 10 {
            FieldKind::Bytes
        } else {
            FieldKind::Skip
        },
        Schema::Users => if tag == 10 {
            FieldKind::Bytes
        } else if tag == 16 {
            FieldKind::Varint
        } else {
            FieldKind::Skip
        },
        Schema::GameInput => if tag == 8 || tag == 16 || tag == 24 || tag == 32 || tag == 48 {
            FieldKind::Varint
        } else if tag == 45 {
            FieldKind::Fixed32
        } else {
            FieldKind::Skip
        },
        Schema::Entity => if tag == 8 {
            FieldKind::Varint
        } else if tag == 21 || tag == 29 || tag == 37 {
            FieldKind::Fixed32
        } else {
            FieldKind::Skip
        },
        Schema::State => if tag == 8 {
            FieldKind::Varint
        } else if tag == 18 {
            FieldKind::Bytes
        } else {
            FieldKind::Skip
        },
    }
}

pub fn kind_of(schema: Schema, tag: u32) -> (k: FieldKind)
    ensures
        k == schema_kind(schema, tag),
{
    match schema {
        Schema::Error | Schema::CreateRoom | Schema::Chat => if tag == 10 || tag == 18 {
            FieldKind::Str
        } else {
            FieldKind::Skip
        },
        Schema::User | Schema::JoinRoom => if tag == 8 {
            FieldKind::Varint
        } else if tag == 18 {
            FieldKind::Str
        } else {
            FieldKind::Skip
        },
        Schema::Room => if tag == 8 || tag == 24 || tag == 32 {
            FieldKind::Varint
        } else if tag == 18 {
            FieldKind::Str
        } else {
            FieldKind::Skip
        },
        Schema::Handshake => if tag == 10 {
            FieldKind::Str
        } else {
            FieldKind::Skip
        },
        Schema::Rooms => if tag == 10 {
            FieldKind::Bytes
        } else {
            FieldKind::Skip
        },
        Schema::Users => if tag == 10 {
            FieldKind::Bytes
        } else if tag == 16 {
            FieldKind::Varint
        } else {
            FieldKind::Skip
        },
        Schema::GameInput => if tag == 8 || tag == 16 || tag == 24 || tag == 32 || tag == 48 {
            FieldKind::Varint
        } else if tag == 45 {
            FieldKind::Fixed32
        } else {
            FieldKind::Skip
        },
        Schema::Entity => if tag == 8 {
            FieldKind::Varint
        } else if tag == 21 || tag == 29 || tag == 37 {
            FieldKind::Fixed32
        } else {
            FieldKind::Skip
        },
        Schema::State => if tag == 8 {
            FieldKind::Varint
        } else if tag == 18 {
            FieldKind::Bytes
        } else {
            FieldKind::Skip
        },
    }
}

/// Reading the body of one field whose tag was read: the value (none for a
/// skipped field) and the number of bytes left.
pub open spec fn field_read(bytes: Seq<u8>, kind: FieldKind, tag: u32) -> Result<
    (Option<FieldView>, usize),
    ProtoError,
> {
    match kind {
        FieldKind::Varint => match varint32_read(bytes) {
            Ok((v, r)) => Ok((Some(FieldView::Varint(v)), r)),
            Err(e) => Err(e),
        },
        FieldKind::Str => match string_read(bytes) {
            Ok((s, r)) => Ok((Some(FieldView::Str(s)), r)),
            Err(e) => Err(e),
        },
        FieldKind::Bytes => match bytes_read(bytes) {
            Ok((b, r)) => Ok((Some(FieldView::Bytes(b)), r)),
            Err(e) => Err(e),
        },
        FieldKind::Fixed32 => match fixed32_read(bytes) {
            Ok((v, r)) => Ok((Some(FieldView::Fixed32(v)), r)),
            Err(e) => Err(e),
        },
        FieldKind::Skip => match unknown_skip(bytes, tag) {
            Ok(r) => Ok((None, r)),
            Err(e) => Err(e),
        },
    }
}

/// The last `r` bytes of `bytes`.
pub open spec fn tail_of(bytes: Seq<u8>, r: int) -> Seq<u8> {
    bytes.subrange(bytes.len() - r, bytes.len() as int)
}

/// A buffer read as a message of the given schema, field after field until
/// the buffer ends: the fields with a value, in order, and the error that
/// stopped the reading, if one did.
pub open spec fn scan(bytes: Seq<u8>, schema: Schema) -> (Seq<(u32, FieldView)>, Option<ProtoError>)
    decreases bytes.len(),
{
    if bytes.len() == 0 {
        (Seq::empty(), None)
    } else {
        match varint32_read(bytes) {
            Err(e) => (Seq::empty(), Some(e)),
            Ok((tag, r)) => if r >= bytes.len() {
                (Seq::empty(), Some(ProtoError::Other))
            } else {
                let rest = tail_of(bytes, r as int);
                match field_read(rest, schema_kind(schema, tag), tag) {
                    Err(e) => (Seq::empty(), Some(e)),
                    Ok((value, r2)) => if r2 >= rest.len() {
                        (Seq::empty(), Some(ProtoError::Other))
                    } else {
                        let next = scan(tail_of(rest, r2 as int), schema);
                        (
                            match value {
                                Some(v) => seq![(tag, v)] + next.0,
                                None => next.0,
                            },
                            next.1,
                        )
                    },
                }
            },
        }
    }
}

/// A field value as the writer puts it after the tag.
pub open spec fn value_bytes(v: FieldView) -> Seq<u8> {
    match v {
        FieldView::Varint(x) => varint_bytes(x as nat),
        FieldView::Str(s) => varint_bytes(encode_utf8(s).len()) + encode_utf8(s),
        FieldView::Bytes(b) => varint_bytes(b.len()) + b,
        FieldView::Fixed32(x) => le32_bytes(x),
    }
}

/// One field as the writer puts it: the tag, then the value.
pub open spec fn field_bytes(f: (u32, FieldView)) -> Seq<u8> {
    varint_bytes(f.0 as nat) + value_bytes(f.1)
}

/// Fields as the writer puts them, one after the other.
pub open spec fn fields_bytes(fs: Seq<(u32, FieldView)>) -> Seq<u8>
    decreases fs.len(),
{
    if fs.len() == 0 {
        Seq::empty()
    } else {
        field_bytes(fs[0]) + fields_bytes(fs.drop_first())
    }
}

/// A value is read back by a field of the given kind: the kinds agree and a
/// length fits a varint32.
pub open spec fn fits_kind(kind: FieldKind, v: FieldView) -> bool {
    match v {
        FieldView::Varint(_) => kind == FieldKind::Varint,
        FieldView::Str(s) => kind == FieldKind::Str && encode_utf8(s).len() <= u32::MAX,
        FieldView::Bytes(b) => kind == FieldKind::Bytes && b.len() <= u32::MAX,
        FieldView::Fixed32(_) => kind == FieldKind::Fixed32,
    }
}

/// Every field is read back by the schema.
pub open spec fn fits(fs: Seq<(u32, FieldView)>, schema: Schema) -> bool {
    forall|i: int| 0 <= i < fs.len() ==> #[trigger] fits_kind(schema_kind(schema, fs[i].0), fs[i].1)
}

pub proof fn lemma_fields_bytes_append(a: Seq<(u32, FieldView)>, b: Seq<(u32, FieldView)>)
    ensures
        fields_bytes(a + b) == fields_bytes(a) + fields_bytes(b),
    decreases a.len(),
{
    if a.len() == 0 {
        assert(a + b =~= b);
        assert(fields_bytes(a) + fields_bytes(b) =~= fields_bytes(b));
    } else {
        assert((a + b).drop_first() =~= a.drop_first() + b);
        lemma_fields_bytes_append(a.drop_first(), b);
        assert(fields_bytes(a + b) =~= fields_bytes(a) + fields_bytes(b));
    }
}

proof fn lemma_le32_round_trip(v: u32, tail: Seq<u8>)
    ensures
        le32_value(le32_bytes(v) + tail) == v,
{
    let b = le32_bytes(v) + tail;
    assert(b[0] == (v % 256) as u8);
    assert(b[1] == ((v / 256) % 256) as u8);
    assert(b[2] == ((v / 65536) % 256) as u8);
    assert(b[3] == (v / 16777216) as u8);
    assert((v % 256) + 256 * ((v / 256) % 256) + 65536 * ((v / 65536) % 256) + 16777216 * (v
        / 16777216) == v) by (nonlinear_arith);
}

/// Reads the length prefix of a length-delimited field and checks that
/// that many bytes follow it, before the field itself is read.
fn check_length(rest: &[u8]) -> (res: Result<(), ProtoError>)
    ensures
        match res {
            Ok(()) => varint32_read(rest@) matches Ok((n, r)) && n <= r,
            Err(e) => string_read(rest@) == Err::<(Seq<char>, usize), ProtoError>(e)
                && bytes_read(rest@) == Err::<(Seq<u8>, usize), ProtoError>(e),
        },
        forall|len: u32, tail: Seq<u8>|
            #[trigger] (varint_bytes(len as nat) + tail) == rest@ && len <= tail.len() ==> res is Ok,
{
    let total = rest.len();
    let prefix = read_varint32(rest);
    let res = match prefix {
        Ok((n, r)) => {
            if n as usize > r {
                Err(ProtoError::UnexpectedEndOfBuffer)
            } else {
                Ok(())
            }
        },
        Err(e) => Err(e),
    };
    proof {
        assert forall|len: u32, tail: Seq<u8>|
            #[trigger] (varint_bytes(len as nat) + tail) == rest@ && len <= tail.len() implies res is Ok by {
            assert(tail.len() <= total);
            assert(reads_back_varint32(rest@, prefix));
            assert(prefix == Ok::<(u32, usize), ProtoError>((len, tail.len() as usize)));
        }
    }
    res
}

fn read_field(rest: &[u8], kind: FieldKind, tag: u32) -> (res: Result<
    (Option<FieldValue>, usize),
    ProtoError,
>)
    ensures
        match res {
            Ok((v, r)) => field_read(rest@, kind, tag) == Ok::<
                (Option<FieldView>, usize),
                ProtoError,
            >((
                match v {
                    Some(x) => Some(x@),
                    None => None,
                },
                r,
            )) && r < rest@.len(),
            Err(e) => field_read(rest@, kind, tag) == Err::<(Option<FieldView>, usize), ProtoError>(e),
        },
        forall|v: FieldView, tail: Seq<u8>|
            #[trigger] (value_bytes(v) + tail) == rest@ && fits_kind(kind, v) ==> (res matches Ok(
                (Some(x), r),
            ) && x@ == v && r == tail.len()),
{
    let n = rest.len();
    assert(n == rest@.len());
    match kind {
        FieldKind::Varint => {
            let res = read_varint32(rest);
            proof {
                assert forall|v: FieldView, tail: Seq<u8>|
                    #[trigger] (value_bytes(v) + tail) == rest@ && fits_kind(kind, v) implies (
                    res matches Ok((x, r)) && FieldView::Varint(x) == v && r == tail.len()) by {
                    if let FieldView::Varint(x) = v {
                        assert((varint_bytes(x as nat) + tail) == rest@);
                        assert(tail.len() <= rest@.len());

                    }
                }
            }
            match res {
                Ok((v, r)) => Ok((Some(FieldValue::Varint(v)), r)),
                Err(e) => Err(e),
            }
        },
        FieldKind::Str => {
            let checked = check_length(rest);
            proof {
                assert forall|v: FieldView, tail: Seq<u8>|
                    #[trigger] (value_bytes(v) + tail) == rest@ && fits_kind(kind, v) implies
                    checked is Ok by {
                    if let FieldView::Str(s) = v {
                        let len = encode_utf8(s).len() as u32;
                        assert((varint_bytes(len as nat) + (encode_utf8(s) + tail)) =~= rest@);
                    }
                }
            }
            if let Err(e) = checked {
                return Err(e);
            }
            let res = read_string(rest);
            proof {
                assert forall|v: FieldView, tail: Seq<u8>|
                    #[trigger] (value_bytes(v) + tail) == rest@ && fits_kind(kind, v) implies (
                    res matches Ok((x, r)) && FieldView::Str(x@) == v && r == tail.len()) by {
                    if let FieldView::Str(s) = v {
                        assert((varint_bytes(encode_utf8(s).len()) + encode_utf8(s) + tail)
                            =~= rest@);
                    }
                }
            }
            match res {
                Ok((s, r)) => Ok((Some(FieldValue::Str(s)), r)),
                Err(e) => Err(e),
            }
        },
        FieldKind::Bytes => {
            let checked = check_length(rest);
            proof {
                assert forall|v: FieldView, tail: Seq<u8>|
                    #[trigger] (value_bytes(v) + tail) == rest@ && fits_kind(kind, v) implies
                    checked is Ok by {
                    if let FieldView::Bytes(b) = v {
                        let len = b.len() as u32;
                        assert((varint_bytes(len as nat) + (b + tail)) =~= rest@);
                    }
                }
            }
            if let Err(e) = checked {
                return Err(e);
            }
            let res = read_bytes(rest);
            proof {
                assert forall|v: FieldView, tail: Seq<u8>|
                    #[trigger] (value_bytes(v) + tail) == rest@ && fits_kind(kind, v) implies (
                    res matches Ok((x, r)) && FieldView::Bytes(x@) == v && r == tail.len()) by {
                    if let FieldView::Bytes(b) = v {
                        assert((varint_bytes(b.len()) + b + tail) =~= rest@);
                    }
                }
            }
            match res {
                Ok((b, r)) => Ok((Some(FieldValue::Bytes(b)), r)),
                Err(e) => Err(e),
            }
        },
        FieldKind::Fixed32 => {
            let res = read_fixed32(rest);
            proof {
                assert forall|v: FieldView, tail: Seq<u8>|
                    #[trigger] (value_bytes(v) + tail) == rest@ && fits_kind(kind, v) implies (
                    res matches Ok((x, r)) && FieldView::Fixed32(x) == v && r == tail.len()) by {
                    if let FieldView::Fixed32(x) = v {
                        lemma_le32_round_trip(x, tail);
                        assert(le32_bytes(x).len() == 4);
                        assert(rest@.len() == 4 + tail.len());
                    }
                }
            }
            match res {
                Ok((v, r)) => Ok((Some(FieldValue::Fixed32(v)), r)),
                Err(e) => Err(e),
            }
        },
        FieldKind::Skip => match read_unknown(rest, tag) {
            Ok(r) => Ok((None, r)),
            Err(e) => Err(e),
        },
    }
}

/// `fs` are fields that the schema reads back, written one after the other
/// as `bytes`.
pub open spec fn written_as(bytes: Seq<u8>, schema: Schema, fs: Seq<(u32, FieldView)>) -> bool {
    fields_bytes(fs) == bytes && fits(fs, schema)
}

/// Reading has gone through the first fields of `fs`: those read so far,
/// and the rest of the buffer holds the others.
pub open spec fn read_through(
    bytes: Seq<u8>,
    fs: Seq<(u32, FieldView)>,
    read: Seq<(u32, FieldView)>,
    pos: int,
) -> bool {
    &&& read.len() <= fs.len()
    &&& read == fs.take(read.len() as int)
    &&& bytes.subrange(pos, bytes.len() as int) == fields_bytes(fs.skip(read.len() as int))
}

proof fn lemma_fields_bytes_split(fs: Seq<(u32, FieldView)>, n: int)
    requires
        0 <= n < fs.len(),
    ensures
        fields_bytes(fs.skip(n)) == varint_bytes(fs[n].0 as nat) + (value_bytes(fs[n].1)
            + fields_bytes(fs.skip(n + 1))),
{
    assert(fs.skip(n).drop_first() =~= fs.skip(n + 1));
    assert(fs.skip(n)[0] == fs[n]);
    assert(fields_bytes(fs.skip(n)) == field_bytes(fs[n]) + fields_bytes(fs.skip(n + 1)));
    assert(varint_bytes(fs[n].0 as nat) + value_bytes(fs[n].1) + fields_bytes(fs.skip(n + 1))
        =~= varint_bytes(fs[n].0 as nat) + (value_bytes(fs[n].1) + fields_bytes(fs.skip(n + 1))));
}

proof fn lemma_fields_bytes_empty(fs: Seq<(u32, FieldView)>)
    ensures
        fields_bytes(fs).len() == 0 ==> fs.len() == 0,
{
    if fs.len() > 0 {
        lemma_varint_nonempty(fs[0].0 as nat);
    }
}

/// Reads `bytes` as a message of the given schema: the fields with a value,
/// in order, and the error that stopped the reading, if any. Fields that the
/// schema reads back, written one after the other, are read back as written.
pub fn scan_fields(bytes: &[u8], schema: Schema) -> (res: (Vec<(u32, FieldValue)>, Option<ProtoError>))
    ensures
        (fields_view(res.0@), res.1) == scan(bytes@, schema),
        forall|fs: Seq<(u32, FieldView)>|
            #[trigger] written_as(bytes@, schema, fs) ==> scan(bytes@, schema) == (
                fs,
                None::<ProtoError>,
            ),
{
    let mut fields: Vec<(u32, FieldValue)> = Vec::new();
    let len = bytes.len();
    let mut pos: usize = 0;
    assert(bytes@.subrange(0, len as int) =~= bytes@);
    assert(fields_view(fields@) =~= Seq::<(u32, FieldView)>::empty());
    assert(Seq::<(u32, FieldView)>::empty() + scan(bytes@, schema).0 =~= scan(bytes@, schema).0);
    assert forall|fs: Seq<(u32, FieldView)>| #[trigger]
        written_as(bytes@, schema, fs) implies read_through(bytes@, fs, fields_view(fields@), 0) by {
        assert(fs.skip(0) =~= fs);
        assert(fs.take(0) =~= Seq::<(u32, FieldView)>::empty());
    }
    while pos < len
        invariant
            pos <= len,
            len == bytes@.len(),
            scan(bytes@, schema) == (
                fields_view(fields@) + scan(bytes@.subrange(pos as int, len as int), schema).0,
                scan(bytes@.subrange(pos as int, len as int), schema).1,
            ),
            forall|fs: Seq<(u32, FieldView)>|
                #[trigger] written_as(bytes@, schema, fs) ==> read_through(
                    bytes@,
                    fs,
                    fields_view(fields@),
                    pos as int,
                ),
        decreases len - pos,
    {
        let rest = slice_subrange(bytes, pos, len);
        assert(rest@.len() > 0);
        let ghost before = fields_view(fields@);
        let ghost n = before.len() as int;
        proof {
            assert forall|fs: Seq<(u32, FieldView)>| #[trigger]
                written_as(bytes@, schema, fs) implies n < fs.len() && rest@ == varint_bytes(
                fs[n].0 as nat,
            ) + (value_bytes(fs[n].1) + fields_bytes(fs.skip(n + 1))) by {
                lemma_fields_bytes_empty(fs.skip(n));
                lemma_fields_bytes_split(fs, n);
            }
        }
        match read_varint32(rest) {
            Err(e) => {
                assert(fields_view(fields@) + Seq::<(u32, FieldView)>::empty() =~= fields_view(fields@));
                assert forall|fs: Seq<(u32, FieldView)>| #[trigger]
                    written_as(bytes@, schema, fs) implies false by {
                    assert(rest@ == varint_bytes(fs[n].0 as nat) + (value_bytes(fs[n].1)
                        + fields_bytes(fs.skip(n + 1))));
                }
                return (fields, Some(e));
            },
            Ok((tag, r)) => {
                let rest2 = slice_subrange(rest, rest.len() - r, rest.len());
                assert(rest2@ =~= tail_of(rest@, r as int));
                let kind = kind_of(schema, tag);
                proof {
                    assert forall|fs: Seq<(u32, FieldView)>| #[trigger]
                        written_as(bytes@, schema, fs) implies fs[n].0 == tag && rest2@ == value_bytes(
                        fs[n].1,
                    ) + fields_bytes(fs.skip(n + 1)) && fits_kind(kind, fs[n].1) by {
                        let t = value_bytes(fs[n].1) + fields_bytes(fs.skip(n + 1));
                        assert(rest@ == varint_bytes(fs[n].0 as nat) + t);
                        assert(t.len() <= rest@.len());
                        assert(rest2@ =~= t);
                        assert(fits_kind(schema_kind(schema, fs[n].0), fs[n].1));
                    }
                }
                match read_field(rest2, kind, tag) {
                    Err(e) => {
                        assert(fields_view(fields@) + Seq::<(u32, FieldView)>::empty()
                            =~= fields_view(fields@));
                        assert forall|fs: Seq<(u32, FieldView)>| #[trigger]
                            written_as(bytes@, schema, fs) implies false by {
                            assert(rest2@ == value_bytes(fs[n].1) + fields_bytes(fs.skip(n + 1)));
                        }
                        return (fields, Some(e));
                    },
                    Ok((value, r2)) => {
                        assert(tail_of(rest2@, r2 as int) =~= bytes@.subrange(
                            (len - r2) as int,
                            len as int,
                        ));
                        let ghost old_pos = pos;
                        match value {
                            Some(v) => {
                                fields.push((tag, v));
                                assert(fields_view(fields@) =~= before + seq![(tag, v@)]);
                            },
                            None => {},
                        }
                        pos = len - r2;
                        proof {
                            assert forall|fs: Seq<(u32, FieldView)>| #[trigger]
                                written_as(bytes@, schema, fs) implies read_through(
                                bytes@,
                                fs,
                                fields_view(fields@),
                                pos as int,
                            ) by {
                                let t = fields_bytes(fs.skip(n + 1));
                                assert(rest2@ == value_bytes(fs[n].1) + t);
                                assert(t.len() <= rest2@.len());
                                assert(value matches Some(x) && x@ == fs[n].1 && r2 == t.len());
                                assert(fields_view(fields@) =~= fs.take(n + 1));
                                assert(bytes@.subrange(pos as int, len as int) =~= t);
                            }
                        }
                    },
                }
            },
        }
    }
    assert(bytes@.subrange(pos as int, len as int) =~= Seq::<u8>::empty());
    assert(fields_view(fields@) + Seq::<(u32, FieldView)>::empty() =~= fields_view(fields@));
    assert forall|fs: Seq<(u32, FieldView)>| #[trigger]
        written_as(bytes@, schema, fs) implies scan(bytes@, schema) == (fs, None::<ProtoError>) by {
        let n = fields_view(fields@).len() as int;
        lemma_fields_bytes_empty(fs.skip(n));
        assert(fs.take(n) =~= fs);
    }
    (fields, None)
}

/// The value of the last string field with the tag, or the empty string.
pub open spec fn last_str(fs: Seq<(u32, FieldView)>, tag: u32) -> Seq<char>
    decreases fs.len(),
{
    if fs.len() == 0 {
        Seq::empty()
    } else {
        match fs.last() {
            (t, FieldView::Str(s)) if t == tag => s,
            _ => last_str(fs.drop_last(), tag),
        }
    }
}

/// The value of the last varint field with the tag, or zero.
pub open spec fn last_varint(fs: Seq<(u32, FieldView)>, tag: u32) -> u32
    decreases fs.len(),
{
    if fs.len() == 0 {
        0
    } else {
        match fs.last() {
            (t, FieldView::Varint(v)) if t == tag => v,
            _ => last_varint(fs.drop_last(), tag),
        }
    }
}

/// The value of the last fixed32 field with the tag, or zero.
pub open spec fn last_fixed32(fs: Seq<(u32, FieldView)>, tag: u32) -> u32
    decreases fs.len(),
{
    if fs.len() == 0 {
        0
    } else {
        match fs.last() {
            (t, FieldView::Fixed32(v)) if t == tag => v,
            _ => last_fixed32(fs.drop_last(), tag),
        }
    }
}

/// The string of the last field with the tag, as the message assigns it.
pub fn get_str(fields: &Vec<(u32, FieldValue)>, tag: u32) -> (s: String)
    ensures
        s@ == last_str(fields_view(fields@), tag),
{
    let mut s = String::new();
    let mut i: usize = 0;
    while i < fields.len()
        invariant
            i <= fields@.len(),
            s@ == last_str(fields_view(fields@.take(i as int)), tag),
        decreases fields@.len() - i,
    {
        assert(fields_view(fields@.take(i + 1)).drop_last() =~= fields_view(fields@.take(i as int)));
        match &fields[i] {
            (t, FieldValue::Str(v)) => {
                if *t == tag {
                    s = v.clone();
                }
            },
            _ => {},
        }
        i = i + 1;
    }
    assert(fields@.take(i as int) =~= fields@);
    s
}

/// The number of the last varint field with the tag, as the message assigns it.
pub fn get_varint(fields: &Vec<(u32, FieldValue)>, tag: u32) -> (v: u32)
    ensures
        v == last_varint(fields_view(fields@), tag),
{
    let mut v: u32 = 0;
    let mut i: usize = 0;
    while i < fields.len()
        invariant
            i <= fields@.len(),
            v == last_varint(fields_view(fields@.take(i as int)), tag),
        decreases fields@.len() - i,
    {
        assert(fields_view(fields@.take(i + 1)).drop_last() =~= fields_view(fields@.take(i as int)));
        match &fields[i] {
            (t, FieldValue::Varint(x)) => {
                if *t == tag {
                    v = *x;
                }
            },
            _ => {},
        }
        i = i + 1;
    }
    assert(fields@.take(i as int) =~= fields@);
    v
}

/// The bits of the last fixed32 field with the tag, as the message assigns them.
pub fn get_fixed32(fields: &Vec<(u32, FieldValue)>, tag: u32) -> (v: u32)
    ensures
        v == last_fixed32(fields_view(fields@), tag),
{
    let mut v: u32 = 0;
    let mut i: usize = 0;
    while i < fields.len()
        invariant
            i <= fields@.len(),
            v == last_fixed32(fields_view(fields@.take(i as int)), tag),
        decreases fields@.len() - i,
    {
        assert(fields_view(fields@.take(i + 1)).drop_last() =~= fields_view(fields@.take(i as int)));
        match &fields[i] {
            (t, FieldValue::Fixed32(x)) => {
                if *t == tag {
                    v = *x;
                }
            },
            _ => {},
        }
        i = i + 1;
    }
    assert(fields@.take(i as int) =~= fields@);
    v
}

/// A string field: nothing for the empty string, else the tag, the UTF-8
/// length and the UTF-8 bytes.
pub open spec fn string_field(tag: u32, s: Seq<char>) -> Seq<u8> {
    if s.len() == 0 {
        Seq::empty()
    } else {
        varint_bytes(tag as nat) + varint_bytes(encode_utf8(s).len()) + encode_utf8(s)
    }
}

/// A `uint32` field: nothing for zero, else the tag and the varint.
pub open spec fn u32_field(tag: u32, v: u32) -> Seq<u8> {
    if v == 0 {
        Seq::empty()
    } else {
        varint_bytes(tag as nat) + varint_bytes(v as nat)
    }
}

/// A `bool` field: nothing for false, else the tag and the byte 1.
pub open spec fn bool_field(tag: u32, b: bool) -> Seq<u8> {
    if !b {
        Seq::empty()
    } else {
        varint_bytes(tag as nat) + seq![1u8]
    }
}

/// A `float` field given by its bits: nothing for positive or negative zero,
/// else the tag and the four little-endian bytes.
pub open spec fn float_field(tag: u32, bits: u32) -> Seq<u8> {
    if bits == 0 || bits == 0x8000_0000 {
        Seq::empty()
    } else {
        varint_bytes(tag as nat) + le32_bytes(bits)
    }
}

/// A nested message field: the tag, the length of the body and the body.
pub open spec fn message_field(tag: u32, body: Seq<u8>) -> Seq<u8> {
    varint_bytes(tag as nat) + varint_bytes(body.len()) + body
}

/// A message as it is sent: the varint length and the body, the first byte
/// of which is then replaced by the header.
pub open spec fn framed(header: u8, body: Seq<u8>) -> Seq<u8> {
    (varint_bytes(body.len()) + body).update(0, header)
}

/// A body shorter than 128 bytes has a one-byte length, so the framed
/// message is the header followed by the body.
pub proof fn lemma_framed_short(header: u8, body: Seq<u8>)
    requires
        body.len() < 128,
    ensures
        framed(header, body) == seq![header] + body,
{
    assert(varint_bytes(body.len()) == seq![body.len() as u8]);
    assert(framed(header, body) =~= seq![header] + body);
}

pub proof fn lemma_varint_nonempty(v: nat)
    ensures
        varint_bytes(v).len() >= 1,
    decreases v,
{
    if v > 0x7f {
        lemma_varint_nonempty(v / 128);
    }
}

pub fn write_string_field(out: &mut Vec<u8>, tag: u32, s: &String)
    ensures
        final(out)@ == old(out)@ + string_field(tag, s@),
{
    if !s.as_str().is_empty() {
        write_varint(out, tag as u64);
        write_string(out, s.as_str());
    } else {
        assert(old(out)@ + string_field(tag, s@) =~= old(out)@);
    }
}

pub fn write_u32_field(out: &mut Vec<u8>, tag: u32, v: u32)
    ensures
        final(out)@ == old(out)@ + u32_field(tag, v),
{
    if v != 0 {
        write_varint(out, tag as u64);
        write_varint(out, v as u64);
    } else {
        assert(old(out)@ + u32_field(tag, v) =~= old(out)@);
    }
}

pub fn write_bool_field(out: &mut Vec<u8>, tag: u32, b: bool)
    ensures
        final(out)@ == old(out)@ + bool_field(tag, b),
{
    if b {
        write_varint(out, tag as u64);
        write_varint(out, 1);
        assert(varint_bytes(1) =~= seq![1u8]);
    } else {
        assert(old(out)@ + bool_field(tag, b) =~= old(out)@);
    }
}

pub fn write_float_field(out: &mut Vec<u8>, tag: u32, bits: u32)
    ensures
        final(out)@ == old(out)@ + float_field(tag, bits),
{
    if bits != 0 && bits != 0x8000_0000 {
        write_varint(out, tag as u64);
        write_fixed32(out, bits);
    } else {
        assert(old(out)@ + float_field(tag, bits) =~= old(out)@);
    }
}

pub fn write_message_field(out: &mut Vec<u8>, tag: u32, body: &Vec<u8>)
    ensures
        final(out)@ == old(out)@ + message_field(tag, body@),
{
    write_varint(out, tag as u64);
    write_varint(out, body.len() as u64);
    let mut i: usize = 0;
    let ghost start = out@;
    while i < body.len()
        invariant
            i <= body@.len(),
            out@ == start + body@.take(i as int),
        decreases body@.len() - i,
    {
        out.push(body[i]);
        assert(body@.take(i + 1) =~= body@.take(i as int).push(body@[i as int]));
        i = i + 1;
    }
    assert(body@.take(i as int) =~= body@);
}

/// Frames a message body for sending: `Writer::write_message` writes the
/// varint length of the body and the body, and the first byte is then
/// overwritten by the header.
pub fn frame(header: u8, body: &Vec<u8>) -> (out: Vec<u8>)
    ensures
        out@ == framed(header, body@),
{
    let mut out: Vec<u8> = Vec::new();
    write_varint(&mut out, body.len() as u64);
    let ghost prefix = out@;
    let mut i: usize = 0;
    while i < body.len()
        invariant
            i <= body@.len(),
            out@ == prefix + body@.take(i as int),
            prefix == varint_bytes(body@.len()),
        decreases body@.len() - i,
    {
        out.push(body[i]);
        assert(body@.take(i + 1) =~= body@.take(i as int).push(body@[i as int]));
        i = i + 1;
    }
    assert(body@.take(i as int) =~= body@);
    proof {
        lemma_varint_nonempty(body@.len());
    }
    out.set(0, header);
    out
}

/// The field a string is written as: none for the empty string.
pub open spec fn opt_str(tag: u32, s: Seq<char>) -> Seq<(u32, FieldView)> {
    if s.len() == 0 {
        Seq::empty()
    } else {
        seq![(tag, FieldView::Str(s))]
    }
}

/// The field a `uint32` is written as: none for zero.
pub open spec fn opt_u32(tag: u32, v: u32) -> Seq<(u32, FieldView)> {
    if v == 0 {
        Seq::empty()
    } else {
        seq![(tag, FieldView::Varint(v))]
    }
}

/// The field a `bool` is written as: none for false, else the varint 1.
pub open spec fn opt_bool(tag: u32, b: bool) -> Seq<(u32, FieldView)> {
    if !b {
        Seq::empty()
    } else {
        seq![(tag, FieldView::Varint(1))]
    }
}

/// The field a `float` is written as: none for positive or negative zero.
pub open spec fn opt_float(tag: u32, bits: u32) -> Seq<(u32, FieldView)> {
    if bits == 0 || bits == 0x8000_0000 {
        Seq::empty()
    } else {
        seq![(tag, FieldView::Fixed32(bits))]
    }
}

pub proof fn lemma_single_field(f: (u32, FieldView))
    ensures
        fields_bytes(seq![f]) == field_bytes(f),
{
    let one = seq![f];
    assert(one.drop_first() =~= Seq::<(u32, FieldView)>::empty());
    assert(fields_bytes(one.drop_first()) == Seq::<u8>::empty());
    assert(one[0] == f);
    assert(fields_bytes(one) == field_bytes(one[0]) + fields_bytes(one.drop_first()));
    assert(field_bytes(f) + Seq::<u8>::empty() =~= field_bytes(f));
}

pub proof fn lemma_opt_fields(tag: u32, s: Seq<char>, v: u32, b: bool, bits: u32)
    ensures
        fields_bytes(opt_str(tag, s)) == string_field(tag, s),
        fields_bytes(opt_u32(tag, v)) == u32_field(tag, v),
        fields_bytes(opt_bool(tag, b)) == bool_field(tag, b),
        fields_bytes(opt_float(tag, bits)) == float_field(tag, bits),
{
    lemma_single_field((tag, FieldView::Str(s)));
    lemma_single_field((tag, FieldView::Varint(v)));
    lemma_single_field((tag, FieldView::Varint(1)));
    lemma_single_field((tag, FieldView::Fixed32(bits)));
    assert(varint_bytes(1) =~= seq![1u8]);
    assert(fields_bytes(opt_str(tag, s)) =~= string_field(tag, s));
    assert(fields_bytes(opt_u32(tag, v)) =~= u32_field(tag, v));
    assert(fields_bytes(opt_bool(tag, b)) =~= bool_field(tag, b));
    assert(fields_bytes(opt_float(tag, bits)) =~= float_field(tag, bits));
}

pub proof fn lemma_fits_append(a: Seq<(u32, FieldView)>, b: Seq<(u32, FieldView)>, schema: Schema)
    ensures
        fits(a, schema) && fits(b, schema) ==> fits(a + b, schema),
{
    if fits(a, schema) && fits(b, schema) {
        assert forall|i: int| 0 <= i < (a + b).len() implies #[trigger] fits_kind(
            schema_kind(schema, (a + b)[i].0),
            (a + b)[i].1,
        ) by {
            if i < a.len() {
                assert((a + b)[i] == a[i]);
            } else {
                assert((a + b)[i] == b[i - a.len()]);
            }
        }
    }
}

} // verus!
