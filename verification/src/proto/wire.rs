//! The protobuf wire primitives of the message module: what `quick_protobuf`
//! reads from and writes to a buffer, with the contracts the codec relies on.
use quick_protobuf::errors::Error as PbError;
use quick_protobuf::{BytesReader, Writer};
use vstd::prelude::*;
use vstd::utf8::{decode_utf8, encode_utf8, valid_utf8};

verus! {

/// Why a buffer could not be decoded.
#[derive(Clone, Copy, Debug, PartialEq, Eq, Structural)]
pub enum ProtoError {
    /// A string field does not hold UTF-8.
    Utf8,
    /// A group field (wire types 3 and 4).
    Deprecated,
    /// A wire type above 5.
    UnknownWireType(u8),
    /// A varint of more than ten bytes, or a skipped field longer than the buffer.
    Varint,
    /// The buffer ends inside a field.
    UnexpectedEndOfBuffer,
    /// The leading header byte names no message that is accepted here.
    UndefinedHeader,
    /// Any other failure of the reader.
    Other,
}

/// The base-128 varint encoding of `v`: seven bits per byte, lowest group
/// first, the high bit set on every byte but the last.
pub open spec fn varint_bytes(v: nat) -> Seq<u8>
    decreases v,
{
    if v <= 0x7f {
        seq![v as u8]
    } else {
        seq![((v % 128) + 128) as u8] + varint_bytes(v / 128)
    }
}

/// The four little-endian bytes of `v`.
pub open spec fn le32_bytes(v: u32) -> Seq<u8> {
    seq![(v % 256) as u8, ((v / 256) % 256) as u8, ((v / 65536) % 256) as u8, (v / 16777216) as u8]
}

/// The number whose little-endian bytes are the first four of `b`.
pub open spec fn le32_value(b: Seq<u8>) -> int {
    b[0] + 256 * b[1] + 65536 * b[2] + 16777216 * b[3]
}

/// What `BytesReader::read_varint32` gives on a reader over `bytes`: the value
/// and the number of bytes left after it, or the error.
pub uninterp spec fn varint32_read(bytes: Seq<u8>) -> Result<(u32, usize), ProtoError>;

/// What `BytesReader::read_unknown` gives on a reader over `bytes` for a field
/// with the given tag: the number of bytes left after the field, or the error.
pub uninterp spec fn unknown_skip(bytes: Seq<u8>, tag: u32) -> Result<usize, ProtoError>;

/// What `read_string` gives on a reader over `bytes`: a varint32 length, then
/// that many bytes, which must be UTF-8.
pub open spec fn string_read(bytes: Seq<u8>) -> Result<(Seq<char>, usize), ProtoError> {
    match varint32_read(bytes) {
        Err(e) => Err(e),
        Ok((n, r)) => if n > r {
            Err(ProtoError::UnexpectedEndOfBuffer)
        } else {
            let body = bytes.subrange(bytes.len() - r, bytes.len() - r + n);
            if valid_utf8(body) {
                Ok((decode_utf8(body), (r - n) as usize))
            } else {
                Err(ProtoError::Utf8)
            }
        },
    }
}

/// What `read_bytes` gives on a reader over `bytes`: a varint32 length, then
/// that many bytes.
pub open spec fn bytes_read(bytes: Seq<u8>) -> Result<(Seq<u8>, usize), ProtoError> {
    match varint32_read(bytes) {
        Err(e) => Err(e),
        Ok((n, r)) => if n > r {
            Err(ProtoError::UnexpectedEndOfBuffer)
        } else {
            Ok((bytes.subrange(bytes.len() - r, bytes.len() - r + n), (r - n) as usize))
        },
    }
}

/// What `read_fixed32` gives on a reader over `bytes`: four little-endian bytes.
pub open spec fn fixed32_read(bytes: Seq<u8>) -> Result<(u32, usize), ProtoError> {
    if bytes.len() < 4 {
        Err(ProtoError::UnexpectedEndOfBuffer)
    } else {
        Ok((le32_value(bytes) as u32, (bytes.len() - 4) as usize))
    }
}

/// `res` reads back a varint that `write_varint` wrote for a `u32`: when
/// `rest` starts with it, the value is that `u32` and the rest follows.
pub open spec fn reads_back_varint32(rest: Seq<u8>, res: Result<(u32, usize), ProtoError>) -> bool {
    forall|v: u32, tail: Seq<u8>|
        #[trigger] (varint_bytes(v as nat) + tail) == rest ==> res == Ok::<(u32, usize), ProtoError>(
            (v, tail.len() as usize),
        )
}

/// `res` reads back a string that `write_string` wrote, when its UTF-8 length
/// fits a varint32.
pub open spec fn reads_back_string(rest: Seq<u8>, res: Result<(String, usize), ProtoError>) -> bool {
    forall|s: Seq<char>, tail: Seq<u8>|
        #[trigger] (varint_bytes(encode_utf8(s).len()) + encode_utf8(s) + tail) == rest
            && encode_utf8(s).len() <= u32::MAX ==> (res matches Ok((x, r)) && x@ == s && r
            == tail.len())
}

/// `res` reads back a length-delimited chunk, when its length fits a varint32.
pub open spec fn reads_back_bytes(rest: Seq<u8>, res: Result<(Vec<u8>, usize), ProtoError>) -> bool {
    forall|b: Seq<u8>, tail: Seq<u8>|
        #[trigger] (varint_bytes(b.len()) + b + tail) == rest && b.len() <= u32::MAX ==> (
        res matches Ok((x, r)) && x@ == b && r == tail.len())
}

/// `BytesReader::read_varint32` on a fresh reader over `rest`. The value is
/// named by `varint32_read`; at least one and at most ten bytes are consumed,
/// and a varint that `write_varint` wrote for a `u32` is read back.
#[verifier::external_body]
pub(crate) fn read_varint32(rest: &[u8]) -> (res: Result<(u32, usize), ProtoError>)
    ensures
        res == varint32_read(rest@),
        res matches Ok((v, r)) ==> r < rest@.len() && rest@.len() <= r + 10,
        reads_back_varint32(rest@, res),
{
    let mut r = BytesReader::from_bytes(rest);
    match r.read_varint32(rest) {
        Ok(v) => Ok((v, r.len())),
        Err(PbError::Varint) => Err(ProtoError::Varint),
        Err(PbError::UnexpectedEndOfBuffer) => Err(ProtoError::UnexpectedEndOfBuffer),
        Err(_) => Err(ProtoError::Other),
    }
}

/// `BytesReader::read_string` on a fresh reader over `rest`, the string copied
/// out; the length prefix takes at least one byte, and a string that
/// `write_string` wrote is read back. The caller has checked that the length
/// prefix reads and does not exceed what follows it, so the end of the string
/// that the reader computes is within `rest` and cannot overflow.
#[verifier::external_body]
pub(crate) fn read_string(rest: &[u8]) -> (res: Result<(String, usize), ProtoError>)
    requires
        varint32_read(rest@) matches Ok((n, r)) && n <= r,
    ensures
        match res {
            Ok((s, r)) => string_read(rest@) == Ok::<(Seq<char>, usize), ProtoError>((s@, r)),
            Err(e) => string_read(rest@) == Err::<(Seq<char>, usize), ProtoError>(e),
        },
        res matches Ok((s, r)) ==> r < rest@.len(),
        reads_back_string(rest@, res),
{
    let mut r = BytesReader::from_bytes(rest);
    match r.read_string(rest) {
        Ok(s) => Ok((s.to_owned(), r.len())),
        Err(PbError::Utf8(_)) => Err(ProtoError::Utf8),
        Err(PbError::Varint) => Err(ProtoError::Varint),
        Err(PbError::UnexpectedEndOfBuffer) => Err(ProtoError::UnexpectedEndOfBuffer),
        Err(_) => Err(ProtoError::Other),
    }
}

/// `BytesReader::read_bytes` on a fresh reader over `rest`, the bytes copied
/// out; the length prefix takes at least one byte, and a chunk written as
/// a length and its bytes is read back. The caller has checked that the
/// length prefix reads and does not exceed what follows it, so the end of the
/// chunk that the reader computes is within `rest` and cannot overflow.
#[verifier::external_body]
pub(crate) fn read_bytes(rest: &[u8]) -> (res: Result<(Vec<u8>, usize), ProtoError>)
    requires
        varint32_read(rest@) matches Ok((n, r)) && n <= r,
    ensures
        match res {
            Ok((b, r)) => bytes_read(rest@) == Ok::<(Seq<u8>, usize), ProtoError>((b@, r)),
            Err(e) => bytes_read(rest@) == Err::<(Seq<u8>, usize), ProtoError>(e),
        },
        res matches Ok((b, r)) ==> r < rest@.len(),
        reads_back_bytes(rest@, res),
{
    let mut r = BytesReader::from_bytes(rest);
    match r.read_bytes(rest) {
        Ok(b) => Ok((b.to_vec(), r.len())),
        Err(PbError::Varint) => Err(ProtoError::Varint),
        Err(PbError::UnexpectedEndOfBuffer) => Err(ProtoError::UnexpectedEndOfBuffer),
        Err(_) => Err(ProtoError::Other),
    }
}

/// `BytesReader::read_fixed32` on a fresh reader over `rest`.
#[verifier::external_body]
pub(crate) fn read_fixed32(rest: &[u8]) -> (res: Result<(u32, usize), ProtoError>)
    ensures
        res == fixed32_read(rest@),
{
    let mut r = BytesReader::from_bytes(rest);
    match r.read_fixed32(rest) {
        Ok(v) => Ok((v, r.len())),
        Err(PbError::UnexpectedEndOfBuffer) => Err(ProtoError::UnexpectedEndOfBuffer),
        Err(_) => Err(ProtoError::Other),
    }
}

/// `BytesReader::read_unknown` on a fresh reader over `rest`: skips one field
/// whose tag was read already. The outcome is named by `unknown_skip`; a field
/// that is skipped takes at least one byte.
#[verifier::external_body]
pub(crate) fn read_unknown(rest: &[u8], tag: u32) -> (res: Result<usize, ProtoError>)
    ensures
        res == unknown_skip(rest@, tag),
        res matches Ok(r) ==> r < rest@.len(),
{
    let mut r = BytesReader::from_bytes(rest);
    match r.read_unknown(rest, tag) {
        Ok(()) => Ok(r.len()),
        Err(PbError::Deprecated(_)) => Err(ProtoError::Deprecated),
        Err(PbError::UnknownWireType(t)) => Err(ProtoError::UnknownWireType(t)),
        Err(PbError::Varint) => Err(ProtoError::Varint),
        Err(PbError::UnexpectedEndOfBuffer) => Err(ProtoError::UnexpectedEndOfBuffer),
        Err(_) => Err(ProtoError::Other),
    }
}

/// `Writer::write_varint` into a vector, which cannot fail: appends the varint of `v`.
#[verifier::external_body]
pub(crate) fn write_varint(out: &mut Vec<u8>, v: u64)
    ensures
        final(out)@ == old(out)@ + varint_bytes(v as nat),
{
    let _ = Writer::new(out).write_varint(v);
}

/// `Writer::write_string` into a vector: appends the varint of the UTF-8
/// length, then the UTF-8 bytes.
#[verifier::external_body]
pub(crate) fn write_string(out: &mut Vec<u8>, s: &str)
    ensures
        final(out)@ == old(out)@ + varint_bytes(encode_utf8(s@).len()) + encode_utf8(s@),
{
    let _ = Writer::new(out).write_string(s);
}

/// `Writer::write_fixed32` into a vector: appends the four little-endian bytes of `v`.
#[verifier::external_body]
pub(crate) fn write_fixed32(out: &mut Vec<u8>, v: u32)
    ensures
        final(out)@ == old(out)@ + le32_bytes(v),
{
    let _ = Writer::new(out).write_fixed32(v);
}

} // verus!
