//! Wire format of the MQTT control packets.
pub mod ack;
pub mod auth;
pub mod buffer;
pub mod connack;
pub mod connect;
pub mod cursor;
pub mod disconnect;
pub mod enums;
pub mod error;
pub mod frame;
pub mod header;
pub mod packet;
pub mod primitives;
pub mod properties;
pub mod puback;
pub mod pubcomp;
pub mod publish;
pub mod read;
pub mod reason;
pub mod pubrec;
pub mod pubrel;
pub mod reasoncodes;
pub mod stream;
pub mod suback;
pub mod subscribe;
pub mod topic;
pub mod unsuback;
pub mod unsubscribe;
pub mod will;
pub mod write;
pub mod writer;

pub use self::error::Error;
pub use self::enums::{
    packet_type, qos, ConnectReturnCode, PacketType, Protocol, QoS, SubscribeReturnCodes,
};
pub use self::header::{header_len, FixedHeader};
pub use self::reasoncodes::ReasonCode;
pub use self::properties::{extract_properties, Properties};
pub use self::puback::{PubAck, PubAckProperties};
pub use self::pubcomp::{PubComp, PubCompProperties};
pub use self::pubrec::{PubRec, PubRecProperties};
pub use self::pubrel::{PubRel, PubRelProperties};
pub use self::topic::{has_wildcards, SubscribeTopic};
pub use self::publish::{Publish, PublishProperties};
pub use self::connect::{Connect, ConnectFlags, ConnectPayload, ConnectProperties, WillProperties};
pub use self::will::LastWill;
pub use self::auth::{Auth, AuthProperties};
pub use self::connack::{ConnAck, ConnackProperties};
pub use self::disconnect::{Disconnect, DisconnectProperties};
pub use self::subscribe::{Subscribe, SubscribeProperties};
pub use self::suback::{SubAck, SubAckProperties};
pub use self::unsuback::{UnsubAck, UnsubAckProperties};
pub use self::unsubscribe::{Unsubscribe, UnsubscribeProperties};
pub use self::packet::Packet;
pub use self::read::{mqtt_read, parse_fixed_header};
pub use self::write::mqtt_write;
pub use self::stream::{
    decode_binary_data, decode_utf_string, decode_utf_string_pair, decode_variable_byte,
    encode_binary_data, encode_utf_string, encode_utf_string_pair, encode_variable_byte,
    extract_mqtt_string, Utf8Pair,
};
