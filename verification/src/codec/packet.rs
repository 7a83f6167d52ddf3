//! The control packets as one type, and the frame that each one makes on
//! the wire: the first byte with the packet type and the flags, the length
//! of the body as a variable byte integer, and the body.
use vstd::prelude::*;
use crate::codec::ack::{ack_canonical, ack_fits, lemma_ack_round_trip, ser_ack, AckView};
use crate::codec::auth::{Auth, AuthProperties};
use crate::codec::connack::{lemma_connack_round_trip, ConnAck, ConnAckView};
use crate::codec::connect::{lemma_connect_round_trip, Connect, ConnectView};
use crate::codec::disconnect::{Disconnect, DisconnectProperties};
use crate::codec::enums::{packet_type_of, PacketType};
use crate::codec::error::Error;
use crate::codec::primitives::{
    lemma_ser_varbyte_cases, lemma_varbyte_prefix,
    lemma_varbyte_round_trip, parse_varbyte, ser_varbyte, varbyte_size, MAX_VARBYTE,
};
use crate::codec::properties::PropertySource;
use crate::codec::puback::{PubAck, PubAckProperties};
use crate::codec::pubcomp::{PubComp, PubCompProperties};
use crate::codec::publish::{lemma_publish_flags, lemma_publish_round_trip, Publish, PublishView};
use crate::codec::pubrec::{PubRec, PubRecProperties};
use crate::codec::pubrel::{PubRel, PubRelProperties};
use crate::codec::reason::{
    lemma_reason_round_trip, reason_canonical, reason_fits, ser_reason, ReasonView,
};
use crate::codec::suback::{lemma_suback_round_trip, SubAck, SubAckView};
use crate::codec::subscribe::{lemma_subscribe_round_trip, Subscribe, SubscribeView};
use crate::codec::unsuback::{lemma_unsuback_round_trip, UnsubAck, UnsubAckView};
use crate::codec::unsubscribe::{lemma_unsubscribe_round_trip, Unsubscribe, UnsubscribeView};

verus! {

/// A control packet.
#[derive(Debug, Clone, PartialEq)]
pub enum Packet {
    Connect(Connect),
    ConnAck(ConnAck),
    Publish(Publish),
    PubAck(PubAck),
    PubRec(PubRec),
    PubRel(PubRel),
    PubComp(PubComp),
    Subscribe(Subscribe),
    SubAck(SubAck),
    Unsubscribe(Unsubscribe),
    UnsubAck(UnsubAck),
    PingReq,
    PingResp,
    Disconnect(Disconnect),
    Auth(Auth),
}

/// A control packet, as a mathematical value.
pub enum PacketView {
    Connect(ConnectView),
    ConnAck(ConnAckView),
    Publish(PublishView),
    PubAck(AckView),
    PubRec(AckView),
    PubRel(AckView),
    PubComp(AckView),
    Subscribe(SubscribeView),
    SubAck(SubAckView),
    Unsubscribe(UnsubscribeView),
    UnsubAck(UnsubAckView),
    PingReq,
    PingResp,
    Disconnect(ReasonView),
    Auth(ReasonView),
}

impl View for Packet {
    type V = PacketView;

    open spec fn view(&self) -> PacketView {
        match self {
            Packet::Connect(p) => PacketView::Connect(p@),
            Packet::ConnAck(p) => PacketView::ConnAck(p@),
            Packet::Publish(p) => PacketView::Publish(p@),
            Packet::PubAck(p) => PacketView::PubAck(p@),
            Packet::PubRec(p) => PacketView::PubRec(p@),
            Packet::PubRel(p) => PacketView::PubRel(p@),
            Packet::PubComp(p) => PacketView::PubComp(p@),
            Packet::Subscribe(p) => PacketView::Subscribe(p@),
            Packet::SubAck(p) => PacketView::SubAck(p@),
            Packet::Unsubscribe(p) => PacketView::Unsubscribe(p@),
            Packet::UnsubAck(p) => PacketView::UnsubAck(p@),
            Packet::PingReq => PacketView::PingReq,
            Packet::PingResp => PacketView::PingResp,
            Packet::Disconnect(p) => PacketView::Disconnect(p@),
            Packet::Auth(p) => PacketView::Auth(p@),
        }
    }
}

impl PacketView {
    pub open spec fn packet_type(self) -> PacketType {
        match self {
            PacketView::Connect(_) => PacketType::Connect,
            PacketView::ConnAck(_) => PacketType::ConnAck,
            PacketView::Publish(_) => PacketType::Publish,
            PacketView::PubAck(_) => PacketType::PubAck,
            PacketView::PubRec(_) => PacketType::PubRec,
            PacketView::PubRel(_) => PacketType::PubRel,
            PacketView::PubComp(_) => PacketType::PubComp,
            PacketView::Subscribe(_) => PacketType::Subscribe,
            PacketView::SubAck(_) => PacketType::SubAck,
            PacketView::Unsubscribe(_) => PacketType::Unsubscribe,
            PacketView::UnsubAck(_) => PacketType::UnsubAck,
            PacketView::PingReq => PacketType::PingReq,
            PacketView::PingResp => PacketType::PingResp,
            PacketView::Disconnect(_) => PacketType::Disconnect,
            PacketView::Auth(_) => PacketType::Auth,
        }
    }

    /// The lower four bits of the first byte: the flags of a PUBLISH, the
    /// fixed bits 0010 of PUBREL, SUBSCRIBE and UNSUBSCRIBE, and 0 for the
    /// other packets.
    pub open spec fn flags(self) -> u8 {
        match self {
            PacketView::Publish(p) => p.flags(),
            PacketView::PubRel(_) => 2,
            PacketView::Subscribe(_) => 2,
            PacketView::Unsubscribe(_) => 2,
            _ => 0,
        }
    }

    /// The first byte of the packet.
    pub open spec fn first_byte(self) -> u8 {
        (16 * self.packet_type().number() + self.flags()) as u8
    }

    /// The body of the packet: what follows the fixed header.
    pub open spec fn ser_body(self) -> Seq<u8> {
        match self {
            PacketView::Connect(p) => p.ser_body(),
            PacketView::ConnAck(p) => p.ser_body(),
            PacketView::Publish(p) => p.ser_body(),
            PacketView::PubAck(p) => ser_ack(p),
            PacketView::PubRec(p) => ser_ack(p),
            PacketView::PubRel(p) => ser_ack(p),
            PacketView::PubComp(p) => ser_ack(p),
            PacketView::Subscribe(p) => p.ser_body(),
            PacketView::SubAck(p) => p.ser_body(),
            PacketView::Unsubscribe(p) => p.ser_body(),
            PacketView::UnsubAck(p) => p.ser_body(),
            PacketView::PingReq => Seq::empty(),
            PacketView::PingResp => Seq::empty(),
            PacketView::Disconnect(p) => ser_reason(p),
            PacketView::Auth(p) => ser_reason(p),
        }
    }

    /// The packet reads back as itself once written.
    pub open spec fn canonical(self) -> bool {
        match self {
            PacketView::Connect(p) => p.canonical(),
            PacketView::ConnAck(p) => p.canonical(),
            PacketView::Publish(p) => p.canonical(),
            PacketView::PubAck(p) => ack_canonical(p, |id: u8| PubAckProperties::accepts(id)),
            PacketView::PubRec(p) => ack_canonical(p, |id: u8| PubRecProperties::accepts(id)),
            PacketView::PubRel(p) => ack_canonical(p, |id: u8| PubRelProperties::accepts(id)),
            PacketView::PubComp(p) => ack_canonical(p, |id: u8| PubCompProperties::accepts(id)),
            PacketView::Subscribe(p) => p.canonical(),
            PacketView::SubAck(p) => p.canonical(),
            PacketView::Unsubscribe(p) => p.canonical(),
            PacketView::UnsubAck(p) => p.canonical(),
            PacketView::PingReq => true,
            PacketView::PingResp => true,
            PacketView::Disconnect(p) => reason_canonical(
                p,
                |id: u8| DisconnectProperties::accepts(id),
            ),
            PacketView::Auth(p) => reason_canonical(p, |id: u8| AuthProperties::accepts(id)),
        }
    }

    /// The fields of the packet can be written.
    pub open spec fn body_fits(self) -> bool {
        match self {
            PacketView::Connect(p) => p.fits(),
            PacketView::ConnAck(p) => p.fits(),
            PacketView::Publish(p) => p.fits(),
            PacketView::PubAck(p) => ack_fits(p),
            PacketView::PubRec(p) => ack_fits(p),
            PacketView::PubRel(p) => ack_fits(p),
            PacketView::PubComp(p) => ack_fits(p),
            PacketView::Subscribe(p) => p.fits(),
            PacketView::SubAck(p) => p.fits(),
            PacketView::Unsubscribe(p) => p.fits(),
            PacketView::UnsubAck(p) => p.fits(),
            PacketView::PingReq => true,
            PacketView::PingResp => true,
            PacketView::Disconnect(p) => reason_fits(p),
            PacketView::Auth(p) => reason_fits(p),
        }
    }

    /// The packet can be written: its fields can, and so can the length of
    /// its body.
    pub open spec fn fits(self) -> bool {
        self.body_fits() && self.ser_body().len() <= MAX_VARBYTE
    }

    /// A packet that can be written and reads back as itself.
    pub open spec fn valid(self) -> bool {
        self.canonical() && self.fits()
    }

    /// The packet on the wire.
    pub open spec fn frame(self) -> Seq<u8> {
        seq![self.first_byte()] + ser_varbyte(self.ser_body().len()) + self.ser_body()
    }
}

/// What writing a packet gives: the frame of a valid packet. A packet that
/// would not read back as itself has an incorrect format; one that does
/// but has a field too long for its length prefix, or a body too long for
/// the fixed header, is too long.
pub open spec fn encode(v: PacketView) -> Result<Seq<u8>, Error> {
    if !v.canonical() {
        Err(Error::IncorrectPacketFormat)
    } else if !v.fits() {
        Err(Error::PayloadTooLong)
    } else {
        Ok(v.frame())
    }
}

/// The packet of the given type that a first byte and a body hold.
pub open spec fn parse_body(t: PacketType, byte1: u8, body: Seq<u8>) -> Result<PacketView, Error> {
    match t {
        PacketType::Connect => match Connect::parse(body) {
            Ok(p) => Ok(PacketView::Connect(p)),
            Err(e) => Err(e),
        },
        PacketType::ConnAck => match ConnAck::parse(body) {
            Ok(p) => Ok(PacketView::ConnAck(p)),
            Err(e) => Err(e),
        },
        PacketType::Publish => match Publish::parse(byte1, body) {
            Ok(p) => Ok(PacketView::Publish(p)),
            Err(e) => Err(e),
        },
        PacketType::PubAck => match PubAck::parse(body) {
            Ok(p) => Ok(PacketView::PubAck(p)),
            Err(e) => Err(e),
        },
        PacketType::PubRec => match PubRec::parse(body) {
            Ok(p) => Ok(PacketView::PubRec(p)),
            Err(e) => Err(e),
        },
        PacketType::PubRel => match PubRel::parse(body) {
            Ok(p) => Ok(PacketView::PubRel(p)),
            Err(e) => Err(e),
        },
        PacketType::PubComp => match PubComp::parse(body) {
            Ok(p) => Ok(PacketView::PubComp(p)),
            Err(e) => Err(e),
        },
        PacketType::Subscribe => match Subscribe::parse(body) {
            Ok(p) => Ok(PacketView::Subscribe(p)),
            Err(e) => Err(e),
        },
        PacketType::SubAck => match SubAck::parse(body) {
            Ok(p) => Ok(PacketView::SubAck(p)),
            Err(e) => Err(e),
        },
        PacketType::Unsubscribe => match Unsubscribe::parse(body) {
            Ok(p) => Ok(PacketView::Unsubscribe(p)),
            Err(e) => Err(e),
        },
        PacketType::UnsubAck => match UnsubAck::parse(body) {
            Ok(p) => Ok(PacketView::UnsubAck(p)),
            Err(e) => Err(e),
        },
        PacketType::PingReq => Ok(PacketView::PingReq),
        PacketType::PingResp => Ok(PacketView::PingResp),
        PacketType::Disconnect => match Disconnect::parse(body) {
            Ok(p) => Ok(PacketView::Disconnect(p)),
            Err(e) => Err(e),
        },
        PacketType::Auth => match Auth::parse(body) {
            Ok(p) => Ok(PacketView::Auth(p)),
            Err(e) => Err(e),
        },
    }
}

/// The first frame of a buffer: its first byte, the length of its body and
/// its whole length.
pub struct Extent {
    pub byte1: u8,
    pub remaining_len: int,
    pub header_len: int,
    pub len: int,
}

/// Where the first frame of `s` ends. An empty buffer, one that ends
/// inside the length, and one that is shorter than the frame need more
/// bytes; a body longer than `max_payload_size` exceeds the limit.
pub open spec fn frame_extent(s: Seq<u8>, max_payload_size: usize) -> Result<Extent, Error> {
    if s.len() == 0 {
        Err(Error::UnexpectedEof)
    } else {
        match parse_varbyte(s.skip(1)) {
            Err(e) => Err(e),
            Ok((remaining_len, _)) => {
                let header_len = 1 + varbyte_size(remaining_len as nat);
                let len = header_len + remaining_len;
                if remaining_len > max_payload_size {
                    Err(Error::PayloadSizeLimitExceeded)
                } else if s.len() < len {
                    Err(Error::UnexpectedEof)
                } else {
                    Ok(
                        Extent {
                            byte1: s[0],
                            remaining_len: remaining_len as int,
                            header_len: header_len as int,
                            len: len as int,
                        },
                    )
                }
            },
        }
    }
}

/// The packet that a complete frame holds. A frame without a body is a
/// PINGREQ or a PINGRESP, or lacks its payload.
pub open spec fn parse_frame(byte1: u8, body: Seq<u8>) -> Result<PacketView, Error> {
    match packet_type_of(byte1 / 16) {
        Err(e) => Err(e),
        Ok(t) => if body.len() == 0 {
            match t {
                PacketType::PingReq => Ok(PacketView::PingReq),
                PacketType::PingResp => Ok(PacketView::PingResp),
                _ => Err(Error::PayloadRequired),
            }
        } else {
            parse_body(t, byte1, body)
        },
    }
}

/// The first packet of a buffer, and the number of bytes that it takes.
pub open spec fn decode(s: Seq<u8>, max_payload_size: usize) -> Result<(PacketView, int), Error> {
    match frame_extent(s, max_payload_size) {
        Err(e) => Err(e),
        Ok(extent) => match parse_frame(extent.byte1, s.subrange(extent.header_len, extent.len)) {
            Err(e) => Err(e),
            Ok(v) => Ok((v, extent.len)),
        },
    }
}

/// The body of a valid packet reads back as the packet.
pub proof fn lemma_body_round_trip(v: PacketView)
    requires
        v.valid(),
    ensures
        parse_frame(v.first_byte(), v.ser_body()) == Ok::<PacketView, Error>(v),
{
    match v {
        PacketView::Connect(p) => lemma_connect_round_trip(p),
        PacketView::ConnAck(p) => lemma_connack_round_trip(p),
        PacketView::Publish(p) => {
            lemma_publish_flags(p);
            lemma_publish_round_trip(p);
        },
        PacketView::PubAck(p) => lemma_ack_round_trip(p, |id: u8| PubAckProperties::accepts(id)),
        PacketView::PubRec(p) => lemma_ack_round_trip(p, |id: u8| PubRecProperties::accepts(id)),
        PacketView::PubRel(p) => lemma_ack_round_trip(p, |id: u8| PubRelProperties::accepts(id)),
        PacketView::PubComp(p) => lemma_ack_round_trip(p, |id: u8| PubCompProperties::accepts(id)),
        PacketView::Subscribe(p) => lemma_subscribe_round_trip(p),
        PacketView::SubAck(p) => lemma_suback_round_trip(p),
        PacketView::Unsubscribe(p) => lemma_unsubscribe_round_trip(p),
        PacketView::UnsubAck(p) => lemma_unsuback_round_trip(p),
        PacketView::PingReq => {},
        PacketView::PingResp => {},
        PacketView::Disconnect(p) => lemma_reason_round_trip(
            p,
            |id: u8| DisconnectProperties::accepts(id),
        ),
        PacketView::Auth(p) => lemma_reason_round_trip(p, |id: u8| AuthProperties::accepts(id)),
    }
}

/// The frame of a valid packet is found again in whatever buffer starts
/// with it.
pub proof fn lemma_frame_extent(v: PacketView, rest: Seq<u8>, max_payload_size: usize)
    requires
        v.fits(),
        v.ser_body().len() <= max_payload_size,
    ensures
        frame_extent(v.frame() + rest, max_payload_size) == Ok::<Extent, Error>(
            Extent {
                byte1: v.first_byte(),
                remaining_len: v.ser_body().len() as int,
                header_len: 1 + ser_varbyte(v.ser_body().len()).len() as int,
                len: v.frame().len() as int,
            },
        ),
        (v.frame() + rest).subrange(
            1 + ser_varbyte(v.ser_body().len()).len() as int,
            v.frame().len() as int,
        ) == v.ser_body(),
        (v.frame() + rest).skip(v.frame().len() as int) == rest,
{
    let body = v.ser_body();
    let s = v.frame() + rest;
    let length = ser_varbyte(body.len());
    lemma_ser_varbyte_cases(body.len());
    lemma_varbyte_round_trip(body.len(), body + rest);
    assert(s.skip(1) =~= length + (body + rest));
    assert(s.subrange(1 + length.len() as int, v.frame().len() as int) =~= body);
    assert(s.skip(v.frame().len() as int) =~= rest);
}

/// Reading what was written gives the packet back: for every valid packet
/// whose body is within the limit, the first packet of a buffer that
/// starts with its frame is the packet itself, and it takes exactly the
/// bytes of the frame.
pub proof fn lemma_decode_encode(v: PacketView, rest: Seq<u8>, max_payload_size: usize)
    requires
        v.valid(),
        v.ser_body().len() <= max_payload_size,
    ensures
        encode(v) == Ok::<Seq<u8>, Error>(v.frame()),
        decode(v.frame() + rest, max_payload_size) == Ok::<(PacketView, int), Error>(
            (v, v.frame().len() as int),
        ),
{
    lemma_frame_extent(v, rest, max_payload_size);
    lemma_body_round_trip(v);
}

/// A buffer that ends inside the frame of a valid packet needs more bytes:
/// reading it gives `UnexpectedEof` and no other failure.
pub proof fn lemma_decode_prefix(v: PacketView, cut: int, max_payload_size: usize)
    requires
        v.valid(),
        v.ser_body().len() <= max_payload_size,
        0 <= cut < v.frame().len(),
    ensures
        decode(v.frame().take(cut), max_payload_size) == Err::<(PacketView, int), Error>(
            Error::UnexpectedEof,
        ),
{
    let body = v.ser_body();
    let s = v.frame().take(cut);
    let length = ser_varbyte(body.len());
    lemma_ser_varbyte_cases(body.len());
    if cut == 0 {
    } else if cut - 1 < length.len() {
        lemma_varbyte_prefix(body.len(), cut - 1);
        assert(s.skip(1) =~= length.take(cut - 1));
    } else {
        let tail = body.take(cut - 1 - length.len());
        lemma_varbyte_round_trip(body.len(), tail);
        assert(s.skip(1) =~= length + tail);
    }
}

} // verus!
