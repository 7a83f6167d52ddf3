//! CONNACK: the answer to a CONNECT.
//!
//! The body holds the acknowledge flags, of which bit 0 says whether the
//! server has a session for the client, the reason code, and a property
//! block. A body of exactly two bytes is the form of version 3.1.1, which
//! has no properties.
use vstd::prelude::*;
use bytes::Bytes;
use crate::codec::buffer::bytes_seq;
use crate::codec::cursor::Cursor;
use crate::codec::error::Error;
use crate::codec::frame::{body_slice, frame_body};
use crate::codec::header::FixedHeader;
use crate::codec::properties::{
    blob_ref, blob_value, block_canonical, block_writable, byte_ref, byte_value, four_ref,
    four_value, is_canonical, lemma_block_round_trip, lemma_project_within, lemma_record_within,
    narrow, opt_prop_map, pair_ref, pair_value, parse_block, project, props_within, read_block,
    ser_block, text_ref, text_value, two_ref, two_value, write_block, PropMap, PropValue,
    Properties, PropertySource, ValueRef,
};
use crate::codec::writer::put_u8;

verus! {

/// The properties that a CONNACK can carry.
#[derive(Debug, Clone, PartialEq)]
pub struct ConnackProperties {
    pub session_expiry_interval: Option<u32>,
    pub assigned_client_identifier: Option<String>,
    pub server_keep_alive: Option<u16>,
    pub authentication_method: Option<String>,
    pub authentication_data: Option<Vec<u8>>,
    pub response_info: Option<String>,
    pub server_info: Option<String>,
    pub reason_string: Option<String>,
    pub user_property: Option<(String, String)>,
    pub receive_maximum: Option<u16>,
    pub topic_alias_maximum: Option<u16>,
    pub maximum_qos: Option<u8>,
    pub retain_available: Option<u8>,
    pub maximum_packet_size: Option<u32>,
    pub wildcard_subscription_available: Option<u8>,
    pub subscription_identifier_available: Option<u8>,
    pub shared_subscription_available: Option<u8>,
}

impl PropertySource for ConnackProperties {
    open spec fn accepts(id: u8) -> bool {
        id == 17 || id == 18 || id == 19 || id == 21 || id == 22 || id == 26 || id == 28 || id == 31
            || id == 33 || id == 34 || id == 36 || id == 37 || id == 38 || id == 39 || id == 40
            || id == 41 || id == 42
    }

    open spec fn get(&self, id: u8) -> Option<PropValue> {
        if id == 17 {
            four_value(self.session_expiry_interval)
        } else if id == 18 {
            text_value(self.assigned_client_identifier)
        } else if id == 19 {
            two_value(self.server_keep_alive)
        } else if id == 21 {
            text_value(self.authentication_method)
        } else if id == 22 {
            blob_value(self.authentication_data)
        } else if id == 26 {
            text_value(self.response_info)
        } else if id == 28 {
            text_value(self.server_info)
        } else if id == 31 {
            text_value(self.reason_string)
        } else if id == 33 {
            two_value(self.receive_maximum)
        } else if id == 34 {
            two_value(self.topic_alias_maximum)
        } else if id == 36 {
            byte_value(self.maximum_qos)
        } else if id == 37 {
            byte_value(self.retain_available)
        } else if id == 38 {
            pair_value(self.user_property)
        } else if id == 39 {
            four_value(self.maximum_packet_size)
        } else if id == 40 {
            byte_value(self.wildcard_subscription_available)
        } else if id == 41 {
            byte_value(self.subscription_identifier_available)
        } else if id == 42 {
            byte_value(self.shared_subscription_available)
        } else {
            None
        }
    }

    proof fn lemma_typed(&self) {
    }

    fn value_of(&self, id: u8) -> (r: Option<ValueRef<'_>>) {
        match id {
            17 => four_ref(&self.session_expiry_interval),
            18 => text_ref(&self.assigned_client_identifier),
            19 => two_ref(&self.server_keep_alive),
            21 => text_ref(&self.authentication_method),
            22 => blob_ref(&self.authentication_data),
            26 => text_ref(&self.response_info),
            28 => text_ref(&self.server_info),
            31 => text_ref(&self.reason_string),
            33 => two_ref(&self.receive_maximum),
            34 => two_ref(&self.topic_alias_maximum),
            36 => byte_ref(&self.maximum_qos),
            37 => byte_ref(&self.retain_available),
            38 => pair_ref(&self.user_property),
            39 => four_ref(&self.maximum_packet_size),
            40 => byte_ref(&self.wildcard_subscription_available),
            41 => byte_ref(&self.subscription_identifier_available),
            42 => byte_ref(&self.shared_subscription_available),
            _ => None,
        }
    }

    fn from_properties(p: Properties) -> (r: ConnackProperties) {
        ConnackProperties {
            session_expiry_interval: p.session_expiry_interval,
            assigned_client_identifier: p.assigned_client_identifier,
            server_keep_alive: p.server_keep_alive,
            authentication_method: p.authentication_method,
            authentication_data: p.authentication_data,
            response_info: p.response_info,
            server_info: p.server_info,
            reason_string: p.reason_string,
            user_property: p.user_property,
            receive_maximum: p.receive_maximum,
            topic_alias_maximum: p.topic_alias_maximum,
            maximum_qos: p.maximum_qos,
            retain_available: p.retain_available,
            maximum_packet_size: p.maximum_packet_size,
            wildcard_subscription_available: p.wildcard_subscription_available,
            subscription_identifier_available: p.subscription_identifier_available,
            shared_subscription_available: p.shared_subscription_available,
        }
    }
}

/// The answer to a CONNECT.
#[derive(Debug, Clone, PartialEq)]
pub struct ConnAck {
    pub session_present: bool,
    pub reason_code: u8,
    pub properties: Option<ConnackProperties>,
}

/// A CONNACK, as a mathematical value.
pub struct ConnAckView {
    pub session_present: bool,
    pub reason_code: u8,
    pub properties: Option<PropMap>,
}

impl View for ConnAck {
    type V = ConnAckView;

    open spec fn view(&self) -> ConnAckView {
        ConnAckView {
            session_present: self.session_present,
            reason_code: self.reason_code,
            properties: opt_prop_map(&self.properties),
        }
    }
}

impl ConnAckView {
    /// The body of the packet.
    pub open spec fn ser_body(self) -> Seq<u8> {
        seq![if self.session_present { 1u8 } else { 0u8 }, self.reason_code] + ser_block(
            self.properties,
        )
    }

    /// The packet reads back as itself once written.
    pub open spec fn canonical(self) -> bool {
        block_canonical(self.properties) && props_within(
            self.properties,
            |id: u8| ConnackProperties::accepts(id),
        )
    }

    /// The fields of the packet can be written.
    pub open spec fn fits(self) -> bool {
        block_writable(self.properties)
    }
}

impl ConnAck {
    /// The CONNACK that `body` holds. A body of less than two bytes has the
    /// wrong size, and so has one that goes on after its property block.
    pub open spec fn parse(body: Seq<u8>) -> Result<ConnAckView, Error> {
        if body.len() < 2 {
            Err(Error::PayloadSizeIncorrect)
        } else if body.len() == 2 {
            Ok(
                ConnAckView {
                    session_present: body[0] % 2 == 1,
                    reason_code: body[1],
                    properties: None,
                },
            )
        } else {
            match parse_block(body.skip(2)) {
                Err(e) => Err(e),
                Ok((props, n)) => if 2 + n != body.len() {
                    Err(Error::PayloadSizeIncorrect)
                } else {
                    Ok(
                        ConnAckView {
                            session_present: body[0] % 2 == 1,
                            reason_code: body[1],
                            properties: project(props, |id: u8| ConnackProperties::accepts(id)),
                        },
                    )
                },
            }
        }
    }

    /// Reads a CONNACK from its frame: the fixed header as it was read, and
    /// the bytes of the whole packet.
    pub fn assemble(fixed_header: FixedHeader, bytes: Bytes) -> (r: Result<ConnAck, Error>)
        ensures
            match frame_body(fixed_header, bytes_seq(bytes)) {
                Err(e) => r matches Err(x) && x == e,
                Ok(body) => match Self::parse(body) {
                    Ok(v) => r matches Ok(p) && p@ == v,
                    Err(e) => r matches Err(x) && x == e,
                },
            },
    {
        let body = match body_slice(fixed_header, &bytes) {
            Ok(body) => body,
            Err(e) => { return Err(e); },
        };
        if body.len() < 2 {
            return Err(Error::PayloadSizeIncorrect);
        }
        let session_present: bool = body[0] % 2 == 1;
        let reason_code: u8 = body[1];
        if body.len() == 2 {
            return Ok(ConnAck { session_present, reason_code, properties: None });
        }
        let mut cur = Cursor::new(body);
        cur.advance(2);
        let props = match read_block(&mut cur) {
            Ok(props) => props,
            Err(e) => { return Err(e); },
        };
        if cur.remaining() != 0 {
            return Err(Error::PayloadSizeIncorrect);
        }
        Ok(ConnAck { session_present, reason_code, properties: narrow(props) })
    }

    /// Whether the packet reads back as itself once written.
    pub fn is_canonical(&self) -> (b: bool)
        ensures
            b == self@.canonical(),
    {
        proof {
            lemma_record_within(&self.properties);
        }
        is_canonical(&self.properties)
    }

    /// Appends the body of the packet. One that cannot be written is too
    /// long, and nothing is said of `out` after it.
    pub fn write(&self, out: &mut Vec<u8>) -> (r: Result<(), Error>)
        ensures
            match r {
                Ok(()) => self@.fits() && final(out)@ == old(out)@ + self@.ser_body(),
                Err(e) => e == Error::PayloadTooLong && !self@.fits(),
            },
    {
        put_u8(out, if self.session_present { 1 } else { 0 });
        put_u8(out, self.reason_code);
        match write_block(out, &self.properties) {
            Ok(()) => {},
            Err(e) => { return Err(e); },
        }
        assert(out@ =~= old(out)@ + self@.ser_body());
        Ok(())
    }

    /// A CONNACK with the given reason code.
    pub fn new(reason_code: u8, session_present: bool, properties: Option<ConnackProperties>) -> (p:
        ConnAck)
        ensures
            p.session_present == session_present,
            p.reason_code == reason_code,
            p.properties == properties,
    {
        ConnAck { session_present, reason_code, properties }
    }
}

/// A CONNACK that was written reads back as itself.
pub proof fn lemma_connack_round_trip(v: ConnAckView)
    requires
        v.canonical(),
        v.fits(),
    ensures
        ConnAck::parse(v.ser_body()) == Ok::<ConnAckView, Error>(v),
        v.ser_body().len() >= 3,
{
    let body = v.ser_body();
    lemma_block_round_trip(v.properties, Seq::empty());
    assert(body.skip(2) =~= ser_block(v.properties) + Seq::<u8>::empty());
    lemma_project_within(v.properties, |id: u8| ConnackProperties::accepts(id));
}

} // verus!
