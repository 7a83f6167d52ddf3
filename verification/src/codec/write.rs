//! The frame writer: the bytes of a packet.
use vstd::prelude::*;
use bytes::Bytes;
use crate::codec::buffer::{bytes_from_vec, bytes_seq};
use crate::codec::error::Error;
use crate::codec::connect::Connect;
use crate::codec::packet::{encode, Packet, PacketView};
use crate::codec::primitives::MAX_VARBYTE;
use crate::codec::properties::{is_canonical, lemma_record_within};
use crate::codec::writer::{put_bytes, put_u8, put_varbyte};

verus! {

impl Packet {
    /// Whether the packet reads back as itself once written.
    pub fn is_canonical(&self) -> (b: bool)
        ensures
            b == self@.canonical(),
    {
        match self {
            Packet::Connect(p) => p.is_canonical(),
            Packet::ConnAck(p) => p.is_canonical(),
            Packet::Publish(p) => p.is_canonical(),
            Packet::PubAck(p) => {
                proof {
                    lemma_record_within(&p.properties);
                }
                is_canonical(&p.properties)
            },
            Packet::PubRec(p) => {
                proof {
                    lemma_record_within(&p.properties);
                }
                is_canonical(&p.properties)
            },
            Packet::PubRel(p) => {
                proof {
                    lemma_record_within(&p.properties);
                }
                is_canonical(&p.properties)
            },
            Packet::PubComp(p) => {
                proof {
                    lemma_record_within(&p.properties);
                }
                is_canonical(&p.properties)
            },
            Packet::Subscribe(p) => p.is_canonical(),
            Packet::SubAck(p) => p.is_canonical(),
            Packet::Unsubscribe(p) => p.is_canonical(),
            Packet::UnsubAck(p) => p.is_canonical(),
            Packet::PingReq => true,
            Packet::PingResp => true,
            Packet::Disconnect(p) => {
                proof {
                    lemma_record_within(&p.properties);
                }
                is_canonical(&p.properties)
            },
            Packet::Auth(p) => {
                proof {
                    lemma_record_within(&p.properties);
                }
                is_canonical(&p.properties)
            },
        }
    }

    /// The first byte of the packet: its type in the upper four bits, its
    /// flags in the lower four.
    pub fn first_byte(&self) -> (b: u8)
        ensures
            b == self@.first_byte(),
    {
        match self {
            Packet::Connect(_) => 0x10,
            Packet::ConnAck(_) => 0x20,
            Packet::Publish(p) => 0x30 + p.flags(),
            Packet::PubAck(_) => 0x40,
            Packet::PubRec(_) => 0x50,
            Packet::PubRel(_) => 0x62,
            Packet::PubComp(_) => 0x70,
            Packet::Subscribe(_) => 0x82,
            Packet::SubAck(_) => 0x90,
            Packet::Unsubscribe(_) => 0xA2,
            Packet::UnsubAck(_) => 0xB0,
            Packet::PingReq => 0xC0,
            Packet::PingResp => 0xD0,
            Packet::Disconnect(_) => 0xE0,
            Packet::Auth(_) => 0xF0,
        }
    }

    /// Appends the body of the packet. One that cannot be written is too
    /// long, and nothing is said of `out` after it.
    pub fn write_body(&self, out: &mut Vec<u8>) -> (r: Result<(), Error>)
        requires
            self@.canonical(),
        ensures
            match r {
                Ok(()) => self@.body_fits() && final(out)@ == old(out)@ + self@.ser_body(),
                Err(e) => e == Error::PayloadTooLong && !self@.body_fits(),
            },
    {
        match self {
            Packet::Connect(p) => p.write(out),
            Packet::ConnAck(p) => p.write(out),
            Packet::Publish(p) => p.write(out),
            Packet::PubAck(p) => p.write(out),
            Packet::PubRec(p) => p.write(out),
            Packet::PubRel(p) => p.write(out),
            Packet::PubComp(p) => p.write(out),
            Packet::Subscribe(p) => p.write(out),
            Packet::SubAck(p) => p.write(out),
            Packet::Unsubscribe(p) => p.write(out),
            Packet::UnsubAck(p) => p.write(out),
            Packet::PingReq => {
                assert(out@ =~= old(out)@ + self@.ser_body());
                Ok(())
            },
            Packet::PingResp => {
                assert(out@ =~= old(out)@ + self@.ser_body());
                Ok(())
            },
            Packet::Disconnect(p) => p.write(out),
            Packet::Auth(p) => p.write(out),
        }
    }
}

/// The bytes of a packet on the wire: the first byte, the length of the
/// body in as few bytes as it takes, and the body.
///
/// A packet that would not read back as itself has an incorrect format;
/// one with a field or a body too long for its length prefix is too long.
pub fn mqtt_write(packet: Packet) -> (r: Result<Bytes, Error>)
    ensures
        match encode(packet@) {
            Ok(frame) => r matches Ok(b) && bytes_seq(b) == frame,
            Err(e) => r matches Err(x) && x == e,
        },
{
    if !packet.is_canonical() {
        return Err(Error::IncorrectPacketFormat);
    }
    let mut body: Vec<u8> = Vec::new();
    match packet.write_body(&mut body) {
        Ok(()) => {},
        Err(e) => { return Err(e); },
    }
    assert(body@ =~= packet@.ser_body());
    if body.len() > MAX_VARBYTE as usize {
        return Err(Error::PayloadTooLong);
    }
    let mut out: Vec<u8> = Vec::new();
    put_u8(&mut out, packet.first_byte());
    put_varbyte(&mut out, body.len() as u32);
    put_bytes(&mut out, body.as_slice());
    assert(out@ =~= packet@.frame());
    Ok(bytes_from_vec(out))
}

impl Connect {
    /// The bytes of the packet on the wire, as `mqtt_write` gives them.
    pub fn disassemble(self) -> (r: Result<Bytes, Error>)
        ensures
            match encode(PacketView::Connect(self@)) {
                Ok(frame) => r matches Ok(b) && bytes_seq(b) == frame,
                Err(e) => r matches Err(x) && x == e,
            },
    {
        mqtt_write(Packet::Connect(self))
    }
}

} // verus!
