//! The primitive encodings on `Bytes` buffers: each reader takes the value
//! from the front of the buffer and moves the buffer past it, each writer
//! gives the bytes of a value as a buffer of their own.
use vstd::prelude::*;
use bytes::Bytes;
use crate::codec::buffer::{bytes_advance, bytes_as_slice, bytes_from_vec, bytes_seq};
use crate::codec::cursor::Cursor;
use crate::codec::error::Error;
use crate::codec::primitives::{
    blob_fits, parse_blob, parse_pair, parse_text, parse_varbyte, ser_blob, ser_pair, ser_text,
    ser_varbyte, text_fits, MAX_LEN16, MAX_VARBYTE,
};
use crate::codec::writer::{put_blob, put_pair, put_text, put_varbyte};

verus! {

/// A key and its value, both strings.
pub type Utf8Pair = (String, String);

/// Reads a variable byte integer from the front of `stream`. The result is
/// the value and the number of bytes that it took; where there is no value
/// the buffer stays as it was and the number is 0.
pub fn decode_variable_byte(stream: &mut Bytes) -> (r: (Result<u32, Error>, u32))
    ensures
        match parse_varbyte(bytes_seq(*old(stream))) {
            Ok((v, n)) => r.0 == Ok::<u32, Error>(v) && r.1 == n && bytes_seq(*final(stream))
                == bytes_seq(*old(stream)).skip(n),
            Err(e) => r.0 == Err::<u32, Error>(e) && r.1 == 0 && bytes_seq(*final(stream))
                == bytes_seq(*old(stream)),
        },
{
    let mut cur = Cursor::new(bytes_as_slice(stream));
    let r = cur.read_varbyte();
    let used: usize = cur.pos;
    proof {
        crate::codec::primitives::lemma_varbyte_minimal(bytes_seq(*stream));
    }
    match r {
        Ok(v) => {
            bytes_advance(stream, used);
            (Ok(v), used as u32)
        },
        Err(e) => (Err(e), 0),
    }
}

/// The bytes of `value` as a variable byte integer, in as few bytes as it
/// takes. A value above 268,435,455 has no such form.
pub fn encode_variable_byte(value: u32) -> (r: Result<Bytes, Error>)
    ensures
        match r {
            Ok(b) => value <= MAX_VARBYTE && bytes_seq(b) == ser_varbyte(value as nat),
            Err(e) => value > MAX_VARBYTE && e == Error::MalformedVariableByteInteger,
        },
{
    if value > MAX_VARBYTE {
        return Err(Error::MalformedVariableByteInteger);
    }
    let mut out: Vec<u8> = Vec::new();
    put_varbyte(&mut out, value);
    assert(out@ =~= ser_varbyte(value as nat));
    Ok(bytes_from_vec(out))
}

/// Reads a string from the front of `stream`: its length in two bytes and
/// that many bytes of UTF-8. Where there is no string the buffer stays as
/// it was.
pub fn extract_mqtt_string(stream: &mut Bytes) -> (r: Result<String, Error>)
    ensures
        match parse_text(bytes_seq(*old(stream))) {
            Ok((v, n)) => r matches Ok(text) && text@ == v && bytes_seq(*final(stream))
                == bytes_seq(*old(stream)).skip(n),
            Err(e) => r matches Err(x) && x == e && bytes_seq(*final(stream)) == bytes_seq(
                *old(stream),
            ),
        },
{
    let mut cur = Cursor::new(bytes_as_slice(stream));
    let r = cur.read_text();
    let used: usize = cur.pos;
    match r {
        Ok(text) => {
            bytes_advance(stream, used);
            Ok(text)
        },
        Err(e) => Err(e),
    }
}

/// Reads a string from the front of `stream`. The result is the string and
/// the number of bytes that it took; where there is no string the buffer
/// stays as it was and the number is 0.
pub fn decode_utf_string(stream: &mut Bytes) -> (r: (Result<String, Error>, u32))
    ensures
        match parse_text(bytes_seq(*old(stream))) {
            Ok((v, n)) => r.0 matches Ok(text) && text@ == v && r.1 == n && bytes_seq(
                *final(stream),
            ) == bytes_seq(*old(stream)).skip(n),
            Err(e) => r.0 matches Err(x) && x == e && r.1 == 0 && bytes_seq(*final(stream))
                == bytes_seq(*old(stream)),
        },
{
    proof {
        reveal(parse_text);
    }
    let before: usize = bytes_as_slice(stream).len();
    match extract_mqtt_string(stream) {
        Ok(text) => {
            let after: usize = bytes_as_slice(stream).len();
            (Ok(text), (before - after) as u32)
        },
        Err(e) => (Err(e), 0),
    }
}

/// The bytes of a string: its length in two bytes and its UTF-8 form. A
/// string of more than 65,535 bytes is too long.
pub fn encode_utf_string(value: String) -> (r: Result<Bytes, Error>)
    ensures
        match r {
            Ok(b) => text_fits(value@) && bytes_seq(b) == ser_text(value@),
            Err(e) => !text_fits(value@) && e == Error::PayloadTooLong,
        },
{
    if value.as_str().as_bytes().len() > MAX_LEN16 {
        return Err(Error::PayloadTooLong);
    }
    let mut out: Vec<u8> = Vec::new();
    put_text(&mut out, value.as_str());
    assert(out@ =~= ser_text(value@));
    Ok(bytes_from_vec(out))
}

/// Reads two strings from the front of `stream`. The result is the pair
/// and the number of bytes that it took; where there is no pair the buffer
/// stays as it was and the number is 0.
pub fn decode_utf_string_pair(stream: &mut Bytes) -> (r: (Result<Utf8Pair, Error>, u32))
    ensures
        match parse_pair(bytes_seq(*old(stream))) {
            Ok((v, n)) => r.0 matches Ok(pair) && pair.0@ == v.0 && pair.1@ == v.1 && r.1 == n
                && bytes_seq(*final(stream)) == bytes_seq(*old(stream)).skip(n),
            Err(e) => r.0 matches Err(x) && x == e && r.1 == 0 && bytes_seq(*final(stream))
                == bytes_seq(*old(stream)),
        },
{
    proof {
        reveal(parse_pair);
        reveal(parse_text);
    }
    let mut cur = Cursor::new(bytes_as_slice(stream));
    let r = cur.read_pair();
    let used: usize = cur.pos;
    match r {
        Ok(pair) => {
            bytes_advance(stream, used);
            (Ok(pair), used as u32)
        },
        Err(e) => (Err(e), 0),
    }
}

/// The bytes of two strings, one after the other. A string of more than
/// 65,535 bytes is too long.
pub fn encode_utf_string_pair(value: Utf8Pair) -> (r: Result<Bytes, Error>)
    ensures
        match r {
            Ok(b) => text_fits(value.0@) && text_fits(value.1@) && bytes_seq(b) == ser_pair(
                (value.0@, value.1@),
            ),
            Err(e) => !(text_fits(value.0@) && text_fits(value.1@)) && e == Error::PayloadTooLong,
        },
{
    if value.0.as_str().as_bytes().len() > MAX_LEN16 || value.1.as_str().as_bytes().len()
        > MAX_LEN16 {
        return Err(Error::PayloadTooLong);
    }
    let mut out: Vec<u8> = Vec::new();
    put_pair(&mut out, value.0.as_str(), value.1.as_str());
    assert(out@ =~= ser_pair((value.0@, value.1@)));
    Ok(bytes_from_vec(out))
}

/// Reads a binary value from the front of `stream`: its length in two
/// bytes and that many bytes. The result is the value and the number of
/// bytes that it took; where there is no value the buffer stays as it was
/// and the number is 0.
pub fn decode_binary_data(stream: &mut Bytes) -> (r: (Result<Bytes, Error>, u32))
    ensures
        match parse_blob(bytes_seq(*old(stream))) {
            Ok((v, n)) => r.0 matches Ok(data) && bytes_seq(data) == v && r.1 == n && bytes_seq(
                *final(stream),
            ) == bytes_seq(*old(stream)).skip(n),
            Err(e) => r.0 matches Err(x) && x == e && r.1 == 0 && bytes_seq(*final(stream))
                == bytes_seq(*old(stream)),
        },
{
    proof {
        reveal(parse_blob);
    }
    let mut cur = Cursor::new(bytes_as_slice(stream));
    let r = cur.read_blob();
    let used: usize = cur.pos;
    match r {
        Ok(data) => {
            bytes_advance(stream, used);
            (Ok(bytes_from_vec(data)), used as u32)
        },
        Err(e) => (Err(e), 0),
    }
}

/// The bytes of a binary value: its length in two bytes and the value. A
/// value of more than 65,535 bytes is too long.
pub fn encode_binary_data(value: Bytes) -> (r: Result<Bytes, Error>)
    ensures
        match r {
            Ok(b) => blob_fits(bytes_seq(value)) && bytes_seq(b) == ser_blob(bytes_seq(value)),
            Err(e) => !blob_fits(bytes_seq(value)) && e == Error::PayloadTooLong,
        },
{
    let data = bytes_as_slice(&value);
    if data.len() > MAX_LEN16 {
        return Err(Error::PayloadTooLong);
    }
    let mut out: Vec<u8> = Vec::new();
    put_blob(&mut out, data);
    assert(out@ =~= ser_blob(bytes_seq(value)));
    Ok(bytes_from_vec(out))
}

} // verus!
