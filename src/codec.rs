//! The record codec: a record is the `u32` little-endian index of its variant
//! followed by its string fields, each a `u64` little-endian byte count and
//! the UTF-8 bytes; a frame is a record's byte count as a `u64` little-endian
//! prefix, then the record.
use vstd::prelude::*;
use vstd::utf8::{encode_utf8, valid_utf8, encode_utf8_valid_utf8, encode_utf8_decode_utf8};
use crate::bytes::{le_u64, u64_le, lemma_le_u64_of_u64_le, lemma_u64_le_of_le_u64, push_u64_le};
use crate::error::EngineError;

verus! {

/// One entry of the log.
#[derive(Debug)]
pub enum EngineCommand {
    SetCommand { key: String, value: String },
    RmCommand { key: String },
}

/// A log entry as a mathematical value.
pub enum CommandView {
    SetRecord { key: Seq<char>, value: Seq<char> },
    RmRecord { key: Seq<char> },
}

impl CommandView {
    pub open spec fn key(self) -> Seq<char> {
        match self {
            CommandView::SetRecord { key, .. } => key,
            CommandView::RmRecord { key } => key,
        }
    }
}

impl View for EngineCommand {
    type V = CommandView;

    open spec fn view(&self) -> CommandView {
        match self {
            EngineCommand::SetCommand { key, value } => CommandView::SetRecord { key: key@, value: value@ },
            EngineCommand::RmCommand { key } => CommandView::RmRecord { key: key@ },
        }
    }
}

/// A string field: its UTF-8 byte count, then its UTF-8 bytes.
pub open spec fn string_bytes(s: Seq<char>) -> Seq<u8> {
    u64_le(encode_utf8(s).len() as u64) + encode_utf8(s)
}

/// The encoding of one record.
pub open spec fn record_bytes(c: CommandView) -> Seq<u8> {
    match c {
        CommandView::SetRecord { key, value } => seq![0u8, 0u8, 0u8, 0u8] + string_bytes(key)
            + string_bytes(value),
        CommandView::RmRecord { key } => seq![1u8, 0u8, 0u8, 0u8] + string_bytes(key),
    }
}

/// The frame of one record: its length prefix, then its encoding.
pub open spec fn frame_bytes(c: CommandView) -> Seq<u8> {
    u64_le(record_bytes(c).len() as u64) + record_bytes(c)
}

/// The bytes at the start of `b` hold a string field.
pub open spec fn starts_with_string(b: Seq<u8>) -> bool {
    &&& 8 <= b.len()
    &&& 8 + le_u64(b.subrange(0, 8)) <= b.len()
    &&& valid_utf8(b.subrange(8, 8 + le_u64(b.subrange(0, 8)) as int))
}

#[verifier::external_type_specification]
#[verifier::external_body]
pub struct ExBincodeErrorKind(bincode::ErrorKind);

/// Relies on `bincode::serialize` of a `str` (fixed-width integers, no size
/// limit): the byte count as a little-endian `u64`, then the UTF-8 bytes;
/// with no limit and a `Vec` to write into, it does not fail.
#[verifier::external_body]
fn serialize_str(s: &str) -> (r: Result<Vec<u8>, Box<bincode::ErrorKind>>)
    ensures
        r is Ok,
        r matches Ok(b) ==> b@ == string_bytes(s@),
{
    bincode::serialize(s)
}

/// Relies on `bincode::deserialize::<String>` (fixed-width integers, trailing
/// bytes allowed): it reads a little-endian `u64` byte count and that many
/// bytes, which must be UTF-8.
#[verifier::external_body]
fn deserialize_string(b: &[u8]) -> (r: Result<String, Box<bincode::ErrorKind>>)
    ensures
        r is Ok <==> starts_with_string(b@),
        r matches Ok(s) ==> encode_utf8(s@) == b@.subrange(8, 8 + le_u64(b@.subrange(0, 8)) as int),
{
    bincode::deserialize::<String>(b)
}

/// Relies on the `Display` of `bincode::ErrorKind` for the message.
#[verifier::external_body]
fn bincode_message(e: &bincode::ErrorKind) -> String {
    e.to_string()
}

/// The library's error for a failure of the codec.
fn codec_error(e: Box<bincode::ErrorKind>) -> (r: EngineError)
    ensures
        r is BincodeError,
{
    EngineError::BincodeError(bincode_message(&e))
}

/// The field of `s` is its byte count, as eight bytes, then its UTF-8 bytes.
proof fn lemma_string_bytes_len(s: Seq<char>)
    requires
        encode_utf8(s).len() <= u64::MAX,
    ensures
        string_bytes(s).len() == 8 + encode_utf8(s).len(),
        string_bytes(s).subrange(0, 8) == u64_le(encode_utf8(s).len() as u64),
        le_u64(string_bytes(s).subrange(0, 8)) == encode_utf8(s).len(),
{
    let n = encode_utf8(s).len() as u64;
    assert(string_bytes(s).subrange(0, 8) =~= u64_le(n));
    lemma_le_u64_of_u64_le(n);
}

/// Reading a string field from bytes that start with one.
proof fn lemma_read_string(b: Seq<u8>, s: Seq<char>, rest: Seq<u8>)
    requires
        b == string_bytes(s) + rest,
        encode_utf8(s).len() <= u64::MAX,
    ensures
        starts_with_string(b),
        le_u64(b.subrange(0, 8)) == encode_utf8(s).len(),
        b.subrange(8, 8 + encode_utf8(s).len() as int) == encode_utf8(s),
{
    lemma_string_bytes_len(s);
    assert(b.subrange(0, 8) =~= string_bytes(s).subrange(0, 8));
    assert(b.subrange(8, 8 + encode_utf8(s).len() as int) =~= encode_utf8(s));
    encode_utf8_valid_utf8(s);
}

/// A string field read from the start of `b` as the string `s` is the prefix
/// `string_bytes(s)` of `b`.
proof fn lemma_string_prefix(b: Seq<u8>, s: Seq<char>)
    requires
        starts_with_string(b),
        encode_utf8(s) == b.subrange(8, 8 + le_u64(b.subrange(0, 8)) as int),
    ensures
        encode_utf8(s).len() <= u64::MAX,
        8 + encode_utf8(s).len() <= b.len(),
        b.subrange(0, 8 + encode_utf8(s).len() as int) == string_bytes(s),
{
    let n = le_u64(b.subrange(0, 8));
    lemma_u64_le_of_le_u64(b.subrange(0, 8));
    assert(encode_utf8(s).len() == n);
    assert(b.subrange(0, 8 + n) =~= b.subrange(0, 8) + b.subrange(8, 8 + n));
}

/// Equal UTF-8 encodings come from equal strings.
proof fn lemma_encode_utf8_injective(a: Seq<char>, b: Seq<char>)
    requires
        encode_utf8(a) == encode_utf8(b),
    ensures
        a == b,
{
    encode_utf8_decode_utf8(a);
    encode_utf8_decode_utf8(b);
}

/// Where the key of an encoded record lies in its bytes.
proof fn lemma_record_key(b: Seq<u8>, c: CommandView) -> (tail: Seq<u8>)
    requires
        record_bytes(c) == b,
        b.len() <= u64::MAX,
    ensures
        b.len() >= 4,
        b[1] == 0 && b[2] == 0 && b[3] == 0,
        b[0] == (if c is SetRecord { 0u8 } else { 1u8 }),
        tail == b.subrange(4, b.len() as int),
        starts_with_string(tail),
        le_u64(tail.subrange(0, 8)) == encode_utf8(c.key()).len(),
        tail.subrange(8, 8 + encode_utf8(c.key()).len() as int) == encode_utf8(c.key()),
        c is RmRecord ==> 12 + encode_utf8(c.key()).len() == b.len(),
{
    let tail = b.subrange(4, b.len() as int);
    let rest = match c {
        CommandView::SetRecord { value, .. } => string_bytes(value),
        CommandView::RmRecord { .. } => Seq::<u8>::empty(),
    };
    assert(tail =~= string_bytes(c.key()) + rest);
    lemma_read_string(tail, c.key(), rest);
    tail
}

/// Where the value of an encoded `SET` record lies in its bytes.
proof fn lemma_record_value(b: Seq<u8>, key: Seq<char>, value: Seq<char>) -> (tail: Seq<u8>)
    requires
        record_bytes(CommandView::SetRecord { key, value }) == b,
        b.len() <= u64::MAX,
    ensures
        tail == b.subrange(12 + encode_utf8(key).len() as int, b.len() as int),
        starts_with_string(tail),
        le_u64(tail.subrange(0, 8)) == encode_utf8(value).len(),
        tail.subrange(8, 8 + encode_utf8(value).len() as int) == encode_utf8(value),
        20 + encode_utf8(key).len() + encode_utf8(value).len() == b.len(),
{
    let n = encode_utf8(key).len() as int;
    let tail = b.subrange(12 + n, b.len() as int);
    lemma_string_bytes_len(key);
    assert(tail =~= string_bytes(value) + Seq::<u8>::empty());
    lemma_read_string(tail, value, Seq::<u8>::empty());
    tail
}

/// A record is determined by its encoding.
pub proof fn lemma_record_bytes_injective(c1: CommandView, c2: CommandView)
    requires
        record_bytes(c1) == record_bytes(c2),
        record_bytes(c1).len() <= u64::MAX,
    ensures
        c1 == c2,
{
    let b = record_bytes(c1);
    let t1 = lemma_record_key(b, c1);
    let t2 = lemma_record_key(b, c2);
    lemma_encode_utf8_injective(c1.key(), c2.key());
    if let CommandView::SetRecord { key: k1, value: v1 } = c1 {
        if let CommandView::SetRecord { key: k2, value: v2 } = c2 {
            lemma_record_value(b, k1, v1);
            lemma_record_value(b, k2, v2);
            lemma_encode_utf8_injective(v1, v2);
        }
    }
}

/// The length prefix and the encoding of a frame that stands at `pos` of `b`.
pub proof fn lemma_frame_at(b: Seq<u8>, pos: int, c: CommandView)
    requires
        0 <= pos,
        pos + frame_bytes(c).len() <= b.len(),
        b.subrange(pos, pos + frame_bytes(c).len()) == frame_bytes(c),
        b.len() <= u64::MAX,
    ensures
        frame_bytes(c).len() == 8 + record_bytes(c).len(),
        le_u64(b.subrange(pos, pos + 8)) == record_bytes(c).len(),
        b.subrange(pos + 8, pos + 8 + record_bytes(c).len()) == record_bytes(c),
{
    let n = record_bytes(c).len() as u64;
    let f = frame_bytes(c);
    assert(b.subrange(pos, pos + 8) =~= f.subrange(0, 8));
    assert(f.subrange(0, 8) =~= u64_le(n));
    lemma_le_u64_of_u64_le(n);
    assert(b.subrange(pos + 8, pos + 8 + record_bytes(c).len()) =~= f.subrange(8, f.len() as int));
    assert(f.subrange(8, f.len() as int) =~= record_bytes(c));
}

impl EngineCommand {
    /// The encoding of this record.
    pub fn encode(&self) -> (r: Result<Vec<u8>, EngineError>)
        ensures
            r is Ok,
            r matches Ok(b) ==> b@ == record_bytes(self@),
            r matches Err(e) ==> e is BincodeError,
    {
        match self {
            EngineCommand::SetCommand { key, value } => {
                let mut out: Vec<u8> = vec![0u8, 0u8, 0u8, 0u8];
                let mut k = match serialize_str(key.as_str()) {
                    Ok(b) => b,
                    Err(e) => return Err(codec_error(e)),
                };
                let mut v = match serialize_str(value.as_str()) {
                    Ok(b) => b,
                    Err(e) => return Err(codec_error(e)),
                };
                let ghost kb = k@;
                let ghost vb = v@;
                out.append(&mut k);
                out.append(&mut v);
                assert(out@ =~= record_bytes(self@));
                Ok(out)
            },
            EngineCommand::RmCommand { key } => {
                let mut out: Vec<u8> = vec![1u8, 0u8, 0u8, 0u8];
                let mut k = match serialize_str(key.as_str()) {
                    Ok(b) => b,
                    Err(e) => return Err(codec_error(e)),
                };
                out.append(&mut k);
                assert(out@ =~= record_bytes(self@));
                Ok(out)
            },
        }
    }

    /// The frame of this record, as it is appended to the log.
    pub fn frame(&self) -> (r: Result<Vec<u8>, EngineError>)
        ensures
            r is Ok,
            r matches Ok(b) ==> b@ == frame_bytes(self@),
            r matches Err(e) ==> e is BincodeError,
    {
        let body = self.encode()?;
        let mut out: Vec<u8> = Vec::new();
        push_u64_le(&mut out, body.len() as u64);
        let mut body = body;
        out.append(&mut body);
        Ok(out)
    }

    /// The record whose encoding is exactly `b`.
    #[verifier::spinoff_prover]
    pub fn decode(b: &[u8]) -> (r: Result<EngineCommand, EngineError>)
        ensures
            r matches Ok(c) ==> record_bytes(c@) == b@,
            (exists|c: CommandView| record_bytes(c) == b@) ==> r is Ok,
            r matches Err(e) ==> e is BincodeError,
    {
        assert(usize::MAX as int == 0xffff_ffff || usize::MAX as int == 0xffff_ffff_ffff_ffff);
        let ghost len = b.len();
        assert(b@.len() <= u64::MAX);
        let ghost wit: Option<CommandView> = if exists|c: CommandView| record_bytes(c) == b@ {
            Some(choose|c: CommandView| record_bytes(c) == b@)
        } else {
            None
        };
        proof {
            if let Some(c) = wit {
                lemma_record_key(b@, c);
                if let CommandView::SetRecord { key, value } = c {
                    lemma_record_value(b@, key, value);
                }
            }
        }
        if b.len() < 4 || b[1] != 0 || b[2] != 0 || b[3] != 0 || b[0] > 1 {
            return Err(EngineError::BincodeError(String::from_str("invalid record tag")));
        }
        let ghost tail = b@.subrange(4, b@.len() as int);
        let key = match deserialize_string(&b[4..b.len()]) {
            Ok(s) => s,
            Err(e) => return Err(codec_error(e)),
        };
        proof {
            lemma_string_prefix(tail, key@);
            if let Some(c) = wit {
                lemma_encode_utf8_injective(key@, c.key());
            }
        }
        let end = 4 + 8 + key.as_str().len();
        if b[0] == 0 {
            let ghost tail2 = b@.subrange(end as int, b@.len() as int);
            let value = match deserialize_string(&b[end..b.len()]) {
                Ok(s) => s,
                Err(e) => return Err(codec_error(e)),
            };
            proof {
                lemma_string_prefix(tail2, value@);
                if let Some(c) = wit {
                    if let CommandView::SetRecord { value: v, .. } = c {
                        lemma_encode_utf8_injective(value@, v);
                    }
                }
            }
            let end2 = end + 8 + value.as_str().len();
            if end2 != b.len() {
                return Err(EngineError::BincodeError(String::from_str("trailing bytes in record")));
            }
            let r = EngineCommand::SetCommand { key, value };
            assert(b@ =~= b@.subrange(0, 4) + tail.subrange(0, end - 4) + tail2.subrange(0, end2 - end));
            assert(record_bytes(r@) =~= b@);
            Ok(r)
        } else {
            if end != b.len() {
                return Err(EngineError::BincodeError(String::from_str("trailing bytes in record")));
            }
            let r = EngineCommand::RmCommand { key };
            assert(b@ =~= b@.subrange(0, 4) + tail.subrange(0, end - 4));
            assert(record_bytes(r@) =~= b@);
            Ok(r)
        }
    }
}

} // verus!
