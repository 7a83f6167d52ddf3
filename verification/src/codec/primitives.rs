//! The primitive encodings of the wire format: fixed-width integers in
//! network byte order, the variable byte integer, length-prefixed UTF-8
//! strings, string pairs and binary data.
//!
//! Each encoding is given twice as a mathematical function on byte
//! sequences: `ser_*` maps a value to its bytes, `parse_*` maps a byte
//! sequence to the value at its start and the number of bytes that the value
//! takes. The executable readers work on a `Cursor` and advance it by exactly
//! that number; the executable writers append to a `Vec<u8>`.
use vstd::prelude::*;
use vstd::utf8::{decode_utf8, encode_utf8, valid_utf8};
use vstd::utf8::{encode_utf8_decode_utf8, encode_utf8_valid_utf8};
use crate::codec::error::Error;

verus! {

/// The largest value that a variable byte integer can hold.
pub const MAX_VARBYTE: u32 = 268_435_455;

/// The largest number of bytes that a string or a binary value can hold.
pub const MAX_LEN16: usize = 65_535;

// ---------------------------------------------------------------------------
// Fixed-width integers
// ---------------------------------------------------------------------------

pub open spec fn ser_u8(v: u8) -> Seq<u8> {
    seq![v]
}

pub open spec fn parse_u8(s: Seq<u8>) -> Result<(u8, int), Error> {
    if s.len() < 1 {
        Err(Error::BoundaryCrossed)
    } else {
        Ok((s[0], 1))
    }
}

pub open spec fn ser_u16(v: u16) -> Seq<u8> {
    seq![(v / 256) as u8, (v % 256) as u8]
}

pub open spec fn parse_u16(s: Seq<u8>) -> Result<(u16, int), Error> {
    if s.len() < 2 {
        Err(Error::BoundaryCrossed)
    } else {
        Ok(((s[0] as int * 256 + s[1] as int) as u16, 2))
    }
}

pub open spec fn ser_u32(v: u32) -> Seq<u8> {
    seq![
        (v / 16_777_216) as u8,
        ((v / 65_536) % 256) as u8,
        ((v / 256) % 256) as u8,
        (v % 256) as u8,
    ]
}

pub open spec fn parse_u32(s: Seq<u8>) -> Result<(u32, int), Error> {
    if s.len() < 4 {
        Err(Error::BoundaryCrossed)
    } else {
        Ok(
            (
                (s[0] as int * 16_777_216 + s[1] as int * 65_536 + s[2] as int * 256
                    + s[3] as int) as u32,
                4,
            ),
        )
    }
}

// ---------------------------------------------------------------------------
// Variable byte integer
// ---------------------------------------------------------------------------

/// The bytes of `v`, least significant group of seven bits first, each byte
/// but the last with the continuation bit `0x80` set.
pub open spec fn ser_varbyte(v: nat) -> Seq<u8>
    decreases v,
{
    if v < 128 {
        seq![v as u8]
    } else {
        seq![(v % 128 + 128) as u8] + ser_varbyte(v / 128)
    }
}

/// The number of bytes that `ser_varbyte(v)` has, for `v` up to `MAX_VARBYTE`.
pub open spec fn varbyte_size(v: nat) -> nat {
    if v < 128 {
        1
    } else if v < 16_384 {
        2
    } else if v < 2_097_152 {
        3
    } else {
        4
    }
}

/// Reads on from byte `count` of `s`, where the bytes before it carried the
/// value `acc` and the next group of seven bits weighs `weight`.
pub open spec fn parse_varbyte_from(s: Seq<u8>, acc: int, weight: int, count: int) -> Result<
    (u32, int),
    Error,
>
    decreases 4 - count,
{
    if count >= 4 {
        Err(Error::MalformedVariableByteInteger)
    } else if s.len() <= count {
        Err(Error::UnexpectedEof)
    } else if s[count] < 128 {
        Ok(((acc + weight * s[count]) as u32, count + 1))
    } else {
        parse_varbyte_from(s, acc + weight * (s[count] - 128), weight * 128, count + 1)
    }
}

/// The variable byte integer at the start of `s`: bytes are read until one
/// has the continuation bit clear. A fifth byte is never read: four bytes
/// that all ask for more are malformed. Where `s` ends before the integer
/// does, the result is `UnexpectedEof`.
pub open spec fn parse_varbyte(s: Seq<u8>) -> Result<(u32, int), Error> {
    parse_varbyte_from(s, 0, 1, 0)
}

/// `parse_varbyte` inside a packet body, where a value that runs past the
/// end of the body crosses a boundary.
pub open spec fn parse_varint(s: Seq<u8>) -> Result<(u32, int), Error> {
    match parse_varbyte(s) {
        Err(Error::UnexpectedEof) => Err(Error::BoundaryCrossed),
        other => other,
    }
}

/// What `parse_varbyte` says of sequences of each length, written out.
pub proof fn lemma_parse_varbyte_cases(s: Seq<u8>)
    ensures
        s.len() == 0 ==> parse_varbyte(s) == Err::<(u32, int), Error>(Error::UnexpectedEof),
        s.len() >= 1 && s[0] < 128 ==> parse_varbyte(s) == Ok::<(u32, int), Error>(
            (s[0] as u32, 1),
        ),
        s.len() == 1 && s[0] >= 128 ==> parse_varbyte(s) == Err::<(u32, int), Error>(
            Error::UnexpectedEof,
        ),
        s.len() >= 2 && s[0] >= 128 && s[1] < 128 ==> parse_varbyte(s) == Ok::<(u32, int), Error>(
            (((s[0] - 128) + 128 * s[1]) as u32, 2),
        ),
        s.len() == 2 && s[0] >= 128 && s[1] >= 128 ==> parse_varbyte(s) == Err::<
            (u32, int),
            Error,
        >(Error::UnexpectedEof),
        s.len() >= 3 && s[0] >= 128 && s[1] >= 128 && s[2] < 128 ==> parse_varbyte(s) == Ok::<
            (u32, int),
            Error,
        >((((s[0] - 128) + 128 * (s[1] - 128) + 16_384 * s[2]) as u32, 3)),
        s.len() == 3 && s[0] >= 128 && s[1] >= 128 && s[2] >= 128 ==> parse_varbyte(s) == Err::<
            (u32, int),
            Error,
        >(Error::UnexpectedEof),
        s.len() >= 4 && s[0] >= 128 && s[1] >= 128 && s[2] >= 128 && s[3] < 128 ==> parse_varbyte(
            s,
        ) == Ok::<(u32, int), Error>(
            (
                ((s[0] - 128) + 128 * (s[1] - 128) + 16_384 * (s[2] - 128) + 2_097_152
                    * s[3]) as u32,
                4,
            ),
        ),
        s.len() >= 4 && s[0] >= 128 && s[1] >= 128 && s[2] >= 128 && s[3] >= 128
            ==> parse_varbyte(s) == Err::<(u32, int), Error>(
            Error::MalformedVariableByteInteger,
        ),
{
    reveal_with_fuel(parse_varbyte_from, 5);
}

/// What `ser_varbyte` gives for values of each size, written out.
pub proof fn lemma_ser_varbyte_cases(v: nat)
    requires
        v <= MAX_VARBYTE,
    ensures
        ser_varbyte(v).len() == varbyte_size(v),
        v < 128 ==> ser_varbyte(v) == seq![v as u8],
        128 <= v < 16_384 ==> ser_varbyte(v) == seq![(v % 128 + 128) as u8, (v / 128) as u8],
        16_384 <= v < 2_097_152 ==> ser_varbyte(v) == seq![
            (v % 128 + 128) as u8,
            ((v / 128) % 128 + 128) as u8,
            (v / 16_384) as u8,
        ],
        2_097_152 <= v ==> ser_varbyte(v) == seq![
            (v % 128 + 128) as u8,
            ((v / 128) % 128 + 128) as u8,
            ((v / 16_384) % 128 + 128) as u8,
            (v / 2_097_152) as u8,
        ],
{
    reveal_with_fuel(ser_varbyte, 5);
    if v < 128 {
    } else if v < 16_384 {
        assert(ser_varbyte(v) =~= seq![(v % 128 + 128) as u8, (v / 128) as u8]);
    } else if v < 2_097_152 {
        assert(v / 128 / 128 == v / 16_384);
        assert(ser_varbyte(v) =~= seq![
            (v % 128 + 128) as u8,
            ((v / 128) % 128 + 128) as u8,
            (v / 16_384) as u8,
        ]);
    } else {
        assert(v / 128 / 128 == v / 16_384);
        assert(v / 128 / 128 / 128 == v / 2_097_152);
        assert(ser_varbyte(v) =~= seq![
            (v % 128 + 128) as u8,
            ((v / 128) % 128 + 128) as u8,
            ((v / 16_384) % 128 + 128) as u8,
            (v / 2_097_152) as u8,
        ]);
    }
}

/// Reading back what was written gives the value and the number of bytes
/// written, whatever follows.
pub proof fn lemma_varbyte_round_trip(v: nat, rest: Seq<u8>)
    requires
        v <= MAX_VARBYTE,
    ensures
        parse_varbyte(ser_varbyte(v) + rest) == Ok::<(u32, int), Error>(
            (v as u32, ser_varbyte(v).len() as int),
        ),
        parse_varint(ser_varbyte(v) + rest) == Ok::<(u32, int), Error>(
            (v as u32, ser_varbyte(v).len() as int),
        ),
{
    lemma_ser_varbyte_cases(v);
    lemma_parse_varbyte_cases(ser_varbyte(v) + rest);
}

/// No byte sequence that reads as `v` is shorter than `ser_varbyte(v)`.
pub proof fn lemma_varbyte_minimal(s: Seq<u8>)
    ensures
        parse_varbyte(s) matches Ok((v, n)) ==> v <= MAX_VARBYTE && 1 <= n <= 4 && n <= s.len()
            && ser_varbyte(v as nat).len() <= n,
{
    lemma_parse_varbyte_cases(s);
    if let Ok((v, n)) = parse_varbyte(s) {
        lemma_ser_varbyte_cases(v as nat);
    }
}

/// A byte sequence that stops inside a variable byte integer reads as
/// `UnexpectedEof`.
pub proof fn lemma_varbyte_prefix(v: nat, cut: int)
    requires
        v <= MAX_VARBYTE,
        0 <= cut < ser_varbyte(v).len(),
    ensures
        parse_varbyte(ser_varbyte(v).take(cut)) == Err::<(u32, int), Error>(Error::UnexpectedEof),
{
    lemma_ser_varbyte_cases(v);
    lemma_parse_varbyte_cases(ser_varbyte(v).take(cut));
}

// ---------------------------------------------------------------------------
// Strings, pairs and binary data
// ---------------------------------------------------------------------------

/// A string fits its two-byte length prefix.
pub open spec fn text_fits(text: Seq<char>) -> bool {
    encode_utf8(text).len() <= MAX_LEN16
}

#[verifier::opaque]
pub open spec fn ser_text(text: Seq<char>) -> Seq<u8> {
    ser_u16(encode_utf8(text).len() as u16) + encode_utf8(text)
}

/// The string at the start of `s`: a two-byte length, then that many bytes
/// of UTF-8.
#[verifier::opaque]
pub open spec fn parse_text(s: Seq<u8>) -> Result<(Seq<char>, int), Error> {
    match parse_u16(s) {
        Err(e) => Err(e),
        Ok((len, _)) => if s.len() < 2 + len {
            Err(Error::BoundaryCrossed)
        } else if !valid_utf8(s.subrange(2, 2 + len)) {
            Err(Error::TopicNotUtf8)
        } else {
            Ok((decode_utf8(s.subrange(2, 2 + len)), 2 + len))
        },
    }
}

pub open spec fn blob_fits(data: Seq<u8>) -> bool {
    data.len() <= MAX_LEN16
}

#[verifier::opaque]
pub open spec fn ser_blob(data: Seq<u8>) -> Seq<u8> {
    ser_u16(data.len() as u16) + data
}

/// The binary value at the start of `s`: a two-byte length, then that many
/// bytes.
#[verifier::opaque]
pub open spec fn parse_blob(s: Seq<u8>) -> Result<(Seq<u8>, int), Error> {
    match parse_u16(s) {
        Err(e) => Err(e),
        Ok((len, _)) => if s.len() < 2 + len {
            Err(Error::BoundaryCrossed)
        } else {
            Ok((s.subrange(2, 2 + len), 2 + len))
        },
    }
}

#[verifier::opaque]
pub open spec fn ser_pair(pair: (Seq<char>, Seq<char>)) -> Seq<u8> {
    ser_text(pair.0) + ser_text(pair.1)
}

/// Two strings, one after the other.
#[verifier::opaque]
pub open spec fn parse_pair(s: Seq<u8>) -> Result<((Seq<char>, Seq<char>), int), Error> {
    match parse_text(s) {
        Err(e) => Err(e),
        Ok((key, n1)) => match parse_text(s.skip(n1)) {
            Err(e) => Err(e),
            Ok((value, n2)) => Ok(((key, value), n1 + n2)),
        },
    }
}

/// A string takes at least its two bytes of length, and no more bytes than
/// there are.
pub proof fn lemma_parse_text_len(s: Seq<u8>)
    ensures
        parse_text(s) matches Ok((_, n)) ==> 2 <= n <= s.len(),
{
    reveal(parse_text);
}

pub proof fn lemma_u8_round_trip(v: u8, rest: Seq<u8>)
    ensures
        parse_u8(ser_u8(v) + rest) == Ok::<(u8, int), Error>((v, 1)),
        (ser_u8(v) + rest).skip(1) == rest,
{
    assert((ser_u8(v) + rest).skip(1) =~= rest);
}

pub proof fn lemma_u16_round_trip(v: u16, rest: Seq<u8>)
    ensures
        parse_u16(ser_u16(v) + rest) == Ok::<(u16, int), Error>((v, 2)),
        (ser_u16(v) + rest).skip(2) == rest,
{
    assert((ser_u16(v) + rest).skip(2) =~= rest);
}

pub proof fn lemma_u32_round_trip(v: u32, rest: Seq<u8>)
    ensures
        parse_u32(ser_u32(v) + rest) == Ok::<(u32, int), Error>((v, 4)),
        (ser_u32(v) + rest).skip(4) == rest,
{
    assert((ser_u32(v) + rest).skip(4) =~= rest);
}

pub proof fn lemma_text_round_trip(text: Seq<char>, rest: Seq<u8>)
    requires
        text_fits(text),
    ensures
        parse_text(ser_text(text) + rest) == Ok::<(Seq<char>, int), Error>(
            (text, ser_text(text).len() as int),
        ),
        (ser_text(text) + rest).skip(ser_text(text).len() as int) == rest,
        ser_text(text).len() >= 2,
{
    reveal(ser_text);
    reveal(parse_text);
    let bytes = encode_utf8(text);
    let all = ser_text(text) + rest;
    lemma_u16_round_trip(bytes.len() as u16, bytes + rest);
    assert(all =~= ser_u16(bytes.len() as u16) + (bytes + rest));
    assert(all.subrange(2, 2 + bytes.len() as int) =~= bytes);
    encode_utf8_valid_utf8(text);
    encode_utf8_decode_utf8(text);
    assert(all.skip(ser_text(text).len() as int) =~= rest);
}

pub proof fn lemma_blob_round_trip(data: Seq<u8>, rest: Seq<u8>)
    requires
        blob_fits(data),
    ensures
        parse_blob(ser_blob(data) + rest) == Ok::<(Seq<u8>, int), Error>(
            (data, ser_blob(data).len() as int),
        ),
        (ser_blob(data) + rest).skip(ser_blob(data).len() as int) == rest,
        ser_blob(data).len() >= 2,
{
    reveal(ser_blob);
    reveal(parse_blob);
    let all = ser_blob(data) + rest;
    lemma_u16_round_trip(data.len() as u16, data + rest);
    assert(all =~= ser_u16(data.len() as u16) + (data + rest));
    assert(all.subrange(2, 2 + data.len() as int) =~= data);
    assert(all.skip(ser_blob(data).len() as int) =~= rest);
}

pub proof fn lemma_pair_round_trip(pair: (Seq<char>, Seq<char>), rest: Seq<u8>)
    requires
        text_fits(pair.0),
        text_fits(pair.1),
    ensures
        parse_pair(ser_pair(pair) + rest) == Ok::<((Seq<char>, Seq<char>), int), Error>(
            (pair, ser_pair(pair).len() as int),
        ),
        (ser_pair(pair) + rest).skip(ser_pair(pair).len() as int) == rest,
{
    reveal(ser_pair);
    reveal(parse_pair);
    let all = ser_pair(pair) + rest;
    assert(all =~= ser_text(pair.0) + (ser_text(pair.1) + rest));
    lemma_text_round_trip(pair.0, ser_text(pair.1) + rest);
    lemma_text_round_trip(pair.1, rest);
    assert(all.skip(ser_pair(pair).len() as int) =~= rest);
}

} // verus!
