//! The frame reader: cuts the first packet out of a growing buffer.
use vstd::prelude::*;
use bytes::BytesMut;
use crate::codec::auth::Auth;
use crate::codec::buffer::{
    bytes_mut_as_slice, bytes_mut_freeze, bytes_mut_reserve, bytes_mut_seq, bytes_mut_split_to,
    bytes_seq,
};
use crate::codec::connack::ConnAck;
use crate::codec::connect::Connect;
use crate::codec::cursor::Cursor;
use crate::codec::disconnect::Disconnect;
use crate::codec::enums::{packet_type, PacketType};
use crate::codec::error::Error;
use crate::codec::header::{header_len, FixedHeader};
use crate::codec::packet::{decode, frame_extent, Packet};
use crate::codec::primitives::{lemma_varbyte_minimal, parse_varbyte};
use crate::codec::puback::PubAck;
use crate::codec::pubcomp::PubComp;
use crate::codec::publish::Publish;
use crate::codec::pubrec::PubRec;
use crate::codec::pubrel::PubRel;
use crate::codec::suback::SubAck;
use crate::codec::subscribe::Subscribe;
use crate::codec::unsuback::UnsubAck;
use crate::codec::unsubscribe::Unsubscribe;

verus! {

/// The first byte of a buffer and the remaining length that follows it.
pub open spec fn fixed_header_of(s: Seq<u8>) -> Result<(u8, usize), Error> {
    if s.len() == 0 {
        Err(Error::UnexpectedEof)
    } else {
        match parse_varbyte(s.skip(1)) {
            Err(e) => Err(e),
            Ok((remaining_len, _)) => Ok((s[0], remaining_len as usize)),
        }
    }
}

/// The number of bytes that reading takes from a buffer: the length of its
/// first frame where that frame is complete and within the limit, and
/// nothing otherwise.
pub open spec fn taken(s: Seq<u8>, max_payload_size: usize) -> int {
    match frame_extent(s, max_payload_size) {
        Ok(extent) => extent.len,
        Err(_) => 0,
    }
}

/// Reads the first byte and the remaining length from the start of a
/// slice.
pub fn read_fixed_header(s: &[u8]) -> (r: Result<(u8, usize), Error>)
    ensures
        r == fixed_header_of(s@),
        r matches Ok(h) ==> h.1 <= 268_435_455,
{
    if s.len() == 0 {
        return Err(Error::UnexpectedEof);
    }
    let mut cur = Cursor::new(s);
    cur.advance(1);
    proof {
        lemma_varbyte_minimal(cur.rest());
    }
    match cur.read_varbyte() {
        Ok(remaining_len) => Ok((s[0], remaining_len as usize)),
        Err(e) => Err(e),
    }
}

/// Reads the first byte and the remaining length from the start of a
/// buffer. A buffer that is empty or ends inside the length needs more
/// bytes.
pub fn parse_fixed_header(stream: BytesMut) -> (r: Result<(u8, usize), Error>)
    ensures
        r == fixed_header_of(bytes_mut_seq(stream)),
{
    read_fixed_header(bytes_mut_as_slice(&stream))
}

/// Reads the first packet of `stream` and takes its bytes out of the
/// buffer.
///
/// Where the buffer does not yet hold a whole frame the result is
/// `UnexpectedEof`, the buffer keeps its bytes, and room is made for the
/// rest of the frame. A frame whose body is longer than `max_payload_size`
/// is refused before its body is looked at. A whole frame is taken out of
/// the buffer whether or not a packet can be read from it, and where
/// fewer than two bytes are left behind it, room is made for the longest
/// frame that may come next.
pub fn mqtt_read(stream: &mut BytesMut, max_payload_size: usize) -> (r: Result<Packet, Error>)
    ensures
        bytes_mut_seq(*final(stream)) == bytes_mut_seq(*old(stream)).skip(
            taken(bytes_mut_seq(*old(stream)), max_payload_size),
        ),
        match decode(bytes_mut_seq(*old(stream)), max_payload_size) {
            Ok((v, n)) => r matches Ok(p) && p@ == v && n == taken(
                bytes_mut_seq(*old(stream)),
                max_payload_size,
            ),
            Err(e) => r matches Err(x) && x == e,
        },
        r matches Ok(Packet::Publish(p)) ==> bytes_seq(p.bytes) == bytes_mut_seq(
            *old(stream),
        ).take(taken(bytes_mut_seq(*old(stream)), max_payload_size)),
{
    let ghost s = bytes_mut_seq(*stream);
    assert(s.skip(0) =~= s);
    let all = bytes_mut_as_slice(stream);
    let available: usize = all.len();
    let (byte1, remaining_len) = match read_fixed_header(all) {
        Ok(header) => header,
        Err(e) => { return Err(e); },
    };
    let header_len: usize = header_len(remaining_len);
    let len: usize = header_len + remaining_len;
    if remaining_len > max_payload_size {
        return Err(Error::PayloadSizeLimitExceeded);
    }
    if available < len {
        bytes_mut_reserve(stream, remaining_len + 2);
        return Err(Error::UnexpectedEof);
    }
    let frame = bytes_mut_freeze(bytes_mut_split_to(stream, len));
    let ghost body = s.subrange(header_len as int, len as int);
    assert(bytes_seq(frame).skip(header_len as int) =~= body);
    let control_type = match packet_type(byte1 / 16) {
        Ok(t) => t,
        Err(e) => { return Err(e); },
    };
    if remaining_len == 0 {
        return match control_type {
            PacketType::PingReq => Ok(Packet::PingReq),
            PacketType::PingResp => Ok(Packet::PingResp),
            _ => Err(Error::PayloadRequired),
        };
    }
    let fixed_header = FixedHeader { byte1, header_len, remaining_len };
    if available - len < 2 {
        // room for the longest frame that may come next
        let longest: usize = if max_payload_size < 268_435_455 {
            max_payload_size
        } else {
            268_435_455
        };
        bytes_mut_reserve(stream, 6 + longest);
    }
    match control_type {
        PacketType::Connect => match Connect::assemble(fixed_header, frame) {
            Ok(p) => Ok(Packet::Connect(p)),
            Err(e) => Err(e),
        },
        PacketType::ConnAck => match ConnAck::assemble(fixed_header, frame) {
            Ok(p) => Ok(Packet::ConnAck(p)),
            Err(e) => Err(e),
        },
        PacketType::Publish => match Publish::assemble(fixed_header, frame) {
            Ok(p) => Ok(Packet::Publish(p)),
            Err(e) => Err(e),
        },
        PacketType::PubAck => match PubAck::assemble(fixed_header, frame) {
            Ok(p) => Ok(Packet::PubAck(p)),
            Err(e) => Err(e),
        },
        PacketType::PubRec => match PubRec::assemble(fixed_header, frame) {
            Ok(p) => Ok(Packet::PubRec(p)),
            Err(e) => Err(e),
        },
        PacketType::PubRel => match PubRel::assemble(fixed_header, frame) {
            Ok(p) => Ok(Packet::PubRel(p)),
            Err(e) => Err(e),
        },
        PacketType::PubComp => match PubComp::assemble(fixed_header, frame) {
            Ok(p) => Ok(Packet::PubComp(p)),
            Err(e) => Err(e),
        },
        PacketType::Subscribe => match Subscribe::assemble(fixed_header, frame) {
            Ok(p) => Ok(Packet::Subscribe(p)),
            Err(e) => Err(e),
        },
        PacketType::SubAck => match SubAck::assemble(fixed_header, frame) {
            Ok(p) => Ok(Packet::SubAck(p)),
            Err(e) => Err(e),
        },
        PacketType::Unsubscribe => match Unsubscribe::assemble(fixed_header, frame) {
            Ok(p) => Ok(Packet::Unsubscribe(p)),
            Err(e) => Err(e),
        },
        PacketType::UnsubAck => match UnsubAck::assemble(fixed_header, frame) {
            Ok(p) => Ok(Packet::UnsubAck(p)),
            Err(e) => Err(e),
        },
        PacketType::PingReq => Ok(Packet::PingReq),
        PacketType::PingResp => Ok(Packet::PingResp),
        PacketType::Disconnect => match Disconnect::assemble(fixed_header, frame) {
            Ok(p) => Ok(Packet::Disconnect(p)),
            Err(e) => Err(e),
        },
        PacketType::Auth => match Auth::assemble(fixed_header, frame) {
            Ok(p) => Ok(Packet::Auth(p)),
            Err(e) => Err(e),
        },
    }
}

} // verus!
