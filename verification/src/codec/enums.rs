//! The small enumerations of the protocol.
use vstd::prelude::*;
use crate::codec::error::Error;

verus! {

/// Return codes of a version 3.1.1 connection acknowledgement.
#[derive(Debug, Clone, Copy, PartialEq, Eq, Structural)]
pub enum ConnectReturnCode {
    Accepted,
    RefusedProtocolVersion,
    RefusedIdentifierRejected,
    ServerUnavailable,
    BadUsernamePassword,
    NotAuthorized,
}

/// The answer to one requested subscription.
#[derive(Debug, Clone, Copy, PartialEq, Eq, Structural)]
pub enum SubscribeReturnCodes {
    Success(QoS),
    Failure,
}

/// The protocol and its level.
#[derive(Debug, Clone, Copy, PartialEq, Eq, Structural)]
pub enum Protocol {
    MQTT(u8),
}

/// Quality of service of a delivery.
#[derive(Debug, Clone, Copy, PartialEq, Eq, PartialOrd, Structural)]
pub enum QoS {
    AtMostOnce,
    AtLeastOnce,
    ExactlyOnce,
}

/// The fifteen control packet types.
#[derive(Debug, Clone, Copy, PartialEq, Eq, Structural)]
pub enum PacketType {
    Connect,
    ConnAck,
    Publish,
    PubAck,
    PubRec,
    PubRel,
    PubComp,
    Subscribe,
    SubAck,
    Unsubscribe,
    UnsubAck,
    PingReq,
    PingResp,
    Disconnect,
    Auth,
}

impl QoS {
    /// The number that stands for the level on the wire.
    pub open spec fn level(self) -> u8 {
        match self {
            QoS::AtMostOnce => 0,
            QoS::AtLeastOnce => 1,
            QoS::ExactlyOnce => 2,
        }
    }

    /// The number that stands for the level on the wire.
    #[verifier::when_used_as_spec(level)]
    pub fn code(self) -> (n: u8)
        ensures
            n == self.level(),
    {
        match self {
            QoS::AtMostOnce => 0,
            QoS::AtLeastOnce => 1,
            QoS::ExactlyOnce => 2,
        }
    }

    /// The higher of two levels.
    pub fn highest(self, other: QoS) -> (q: QoS)
        ensures
            q == (if self.level() >= other.level() { self } else { other }),
    {
        if self.code() >= other.code() {
            self
        } else {
            other
        }
    }
}

impl PacketType {
    /// The number in the upper four bits of a packet's first byte.
    pub open spec fn number(self) -> u8 {
        match self {
            PacketType::Connect => 1,
            PacketType::ConnAck => 2,
            PacketType::Publish => 3,
            PacketType::PubAck => 4,
            PacketType::PubRec => 5,
            PacketType::PubRel => 6,
            PacketType::PubComp => 7,
            PacketType::Subscribe => 8,
            PacketType::SubAck => 9,
            PacketType::Unsubscribe => 10,
            PacketType::UnsubAck => 11,
            PacketType::PingReq => 12,
            PacketType::PingResp => 13,
            PacketType::Disconnect => 14,
            PacketType::Auth => 15,
        }
    }
}

/// The level of service that `num` stands for.
pub open spec fn qos_of(num: u8) -> Result<QoS, Error> {
    if num == 0 {
        Ok(QoS::AtMostOnce)
    } else if num == 1 {
        Ok(QoS::AtLeastOnce)
    } else if num == 2 {
        Ok(QoS::ExactlyOnce)
    } else {
        Err(Error::InvalidQoS(num))
    }
}

/// The level of service that `num` stands for; numbers above 2 stand for
/// none.
pub fn qos(num: u8) -> (r: Result<QoS, Error>)
    ensures
        r == qos_of(num),
        r matches Ok(q) ==> q.level() == num,
{
    match num {
        0 => Ok(QoS::AtMostOnce),
        1 => Ok(QoS::AtLeastOnce),
        2 => Ok(QoS::ExactlyOnce),
        other => Err(Error::InvalidQoS(other)),
    }
}

/// The packet type that `num` stands for.
pub open spec fn packet_type_of(num: u8) -> Result<PacketType, Error> {
    if num == 1 {
        Ok(PacketType::Connect)
    } else if num == 2 {
        Ok(PacketType::ConnAck)
    } else if num == 3 {
        Ok(PacketType::Publish)
    } else if num == 4 {
        Ok(PacketType::PubAck)
    } else if num == 5 {
        Ok(PacketType::PubRec)
    } else if num == 6 {
        Ok(PacketType::PubRel)
    } else if num == 7 {
        Ok(PacketType::PubComp)
    } else if num == 8 {
        Ok(PacketType::Subscribe)
    } else if num == 9 {
        Ok(PacketType::SubAck)
    } else if num == 10 {
        Ok(PacketType::Unsubscribe)
    } else if num == 11 {
        Ok(PacketType::UnsubAck)
    } else if num == 12 {
        Ok(PacketType::PingReq)
    } else if num == 13 {
        Ok(PacketType::PingResp)
    } else if num == 14 {
        Ok(PacketType::Disconnect)
    } else if num == 15 {
        Ok(PacketType::Auth)
    } else {
        Err(Error::InvalidPacketType(num))
    }
}

/// The packet type that `num` stands for: 1 to 15 name a type, every other
/// number is refused.
pub fn packet_type(num: u8) -> (r: Result<PacketType, Error>)
    ensures
        r == packet_type_of(num),
        r matches Ok(t) ==> t.number() == num,
{
    match num {
        1 => Ok(PacketType::Connect),
        2 => Ok(PacketType::ConnAck),
        3 => Ok(PacketType::Publish),
        4 => Ok(PacketType::PubAck),
        5 => Ok(PacketType::PubRec),
        6 => Ok(PacketType::PubRel),
        7 => Ok(PacketType::PubComp),
        8 => Ok(PacketType::Subscribe),
        9 => Ok(PacketType::SubAck),
        10 => Ok(PacketType::Unsubscribe),
        11 => Ok(PacketType::UnsubAck),
        12 => Ok(PacketType::PingReq),
        13 => Ok(PacketType::PingResp),
        14 => Ok(PacketType::Disconnect),
        15 => Ok(PacketType::Auth),
        _ => Err(Error::InvalidPacketType(num)),
    }
}

} // verus!
