//! Failures of the wire codec.
use vstd::prelude::*;

verus! {

/// Why a packet could not be read or written.
///
/// `UnexpectedEof` is the one recoverable failure: the buffer holds the start
/// of a packet and more bytes have to arrive. All others describe a packet
/// that is wrong in itself.
#[derive(Debug, Clone, Copy, PartialEq, Eq, Structural)]
pub enum Error {
    InvalidConnectReturnCode(u8),
    InvalidProtocol,
    InvalidProtocolLevel(u8),
    IncorrectPacketFormat,
    InvalidPacketType(u8),
    InvalidQoS(u8),
    PacketIdZero,
    PayloadSizeIncorrect,
    PayloadTooLong,
    PayloadSizeLimitExceeded,
    PayloadRequired,
    TopicNotUtf8,
    MalformedRemainingLength,
    MalformedVariableByteInteger,
    InvalidProperty,
    BoundaryCrossed,
    UnexpectedEof,
}

impl Error {
    /// The message that describes the failure.
    pub fn message(&self) -> (text: &'static str)
        ensures
            text@ == self.message_text(),
    {
        match self {
            Error::InvalidConnectReturnCode(_) => "Invalid connect return code",
            Error::InvalidProtocol => "Invalid protocol. Expecting 'MQTT' in payload",
            Error::InvalidProtocolLevel(_) => "Invalid protocol level",
            Error::IncorrectPacketFormat => "Incorrect packet format",
            Error::InvalidPacketType(_) => "Unsupported Packet type",
            Error::InvalidQoS(_) => "Unsupported QoS",
            Error::PacketIdZero => "Invalid packet identifier = 0",
            Error::PayloadSizeIncorrect => "Payload size incorrect",
            Error::PayloadTooLong => "Payload too long",
            Error::PayloadSizeLimitExceeded => "Payload size limit exceeded",
            Error::PayloadRequired => "Payload required",
            Error::TopicNotUtf8 => "Topic name must only contain valid UTF-8",
            Error::MalformedRemainingLength => "Malformed remaining length",
            Error::MalformedVariableByteInteger => "Malformed variable byte integer",
            Error::InvalidProperty => "Invalid property",
            Error::BoundaryCrossed => "Trying to access wrong boundary",
            Error::UnexpectedEof => "EOF. Not enough data in buffer",
        }
    }

    /// The text of `message`, as a sequence of characters.
    pub open spec fn message_text(&self) -> Seq<char> {
        match self {
            Error::InvalidConnectReturnCode(_) => "Invalid connect return code"@,
            Error::InvalidProtocol => "Invalid protocol. Expecting 'MQTT' in payload"@,
            Error::InvalidProtocolLevel(_) => "Invalid protocol level"@,
            Error::IncorrectPacketFormat => "Incorrect packet format"@,
            Error::InvalidPacketType(_) => "Unsupported Packet type"@,
            Error::InvalidQoS(_) => "Unsupported QoS"@,
            Error::PacketIdZero => "Invalid packet identifier = 0"@,
            Error::PayloadSizeIncorrect => "Payload size incorrect"@,
            Error::PayloadTooLong => "Payload too long"@,
            Error::PayloadSizeLimitExceeded => "Payload size limit exceeded"@,
            Error::PayloadRequired => "Payload required"@,
            Error::TopicNotUtf8 => "Topic name must only contain valid UTF-8"@,
            Error::MalformedRemainingLength => "Malformed remaining length"@,
            Error::MalformedVariableByteInteger => "Malformed variable byte integer"@,
            Error::InvalidProperty => "Invalid property"@,
            Error::BoundaryCrossed => "Trying to access wrong boundary"@,
            Error::UnexpectedEof => "EOF. Not enough data in buffer"@,
        }
    }
}

} // verus!
