//! PUBLISH: an application message on a topic.
//!
//! The first byte carries the duplicate flag (bit 3), the quality of
//! service (bits 2 and 1) and the retain flag (bit 0). The body holds the
//! topic, the packet identifier where the quality of service is above 0,
//! the property block, and the payload, which is whatever remains.
use vstd::prelude::*;
use bytes::Bytes;
use crate::codec::buffer::{bytes_as_slice, bytes_from_vec, bytes_seq, bytes_slice};
use crate::codec::cursor::Cursor;
use crate::codec::enums::{qos, qos_of, QoS};
use crate::codec::error::Error;
use crate::codec::frame::frame_body;
use crate::codec::header::FixedHeader;
use crate::codec::primitives::{
    lemma_text_round_trip, lemma_u16_round_trip, parse_text, parse_u16, ser_text, ser_u16,
    text_fits, MAX_LEN16,
};
use crate::codec::properties::{
    blob_ref, blob_value, block_canonical, block_writable, byte_ref, byte_value, copy_blob,
    copy_pair, copy_text, four_ref,
    four_value, lemma_block_round_trip, lemma_project_within, narrow, opt_prop_map, pair_ref,
    pair_value, parse_block, project, prop_map, props_within, read_block, ser_block, text_ref,
    text_value,
    two_ref, two_value, varint_ref, varint_value, write_block, PropMap, PropValue, Properties,
    PropertySource, ValueRef,
};
use crate::codec::writer::{put_bytes, put_text, put_u16};

verus! {

/// The properties that a PUBLISH can carry.
#[derive(Debug, Clone, PartialEq)]
pub struct PublishProperties {
    pub payload_format_indicator: Option<u8>,
    pub message_expiry_interval: Option<u32>,
    pub topic_alias: Option<u16>,
    pub response_topic: Option<String>,
    pub correlation_data: Option<Vec<u8>>,
    pub user_property: Option<(String, String)>,
    pub subscription_identifier: Option<u32>,
    pub content_type: Option<String>,
}

impl PropertySource for PublishProperties {
    open spec fn accepts(id: u8) -> bool {
        id == 1 || id == 2 || id == 3 || id == 8 || id == 9 || id == 11 || id == 35 || id == 38
    }

    open spec fn get(&self, id: u8) -> Option<PropValue> {
        if id == 1 {
            byte_value(self.payload_format_indicator)
        } else if id == 2 {
            four_value(self.message_expiry_interval)
        } else if id == 3 {
            text_value(self.content_type)
        } else if id == 8 {
            text_value(self.response_topic)
        } else if id == 9 {
            blob_value(self.correlation_data)
        } else if id == 11 {
            varint_value(self.subscription_identifier)
        } else if id == 35 {
            two_value(self.topic_alias)
        } else if id == 38 {
            pair_value(self.user_property)
        } else {
            None
        }
    }

    proof fn lemma_typed(&self) {
    }

    fn value_of(&self, id: u8) -> (r: Option<ValueRef<'_>>) {
        match id {
            1 => byte_ref(&self.payload_format_indicator),
            2 => four_ref(&self.message_expiry_interval),
            3 => text_ref(&self.content_type),
            8 => text_ref(&self.response_topic),
            9 => blob_ref(&self.correlation_data),
            11 => varint_ref(&self.subscription_identifier),
            35 => two_ref(&self.topic_alias),
            38 => pair_ref(&self.user_property),
            _ => None,
        }
    }

    fn from_properties(p: Properties) -> (r: PublishProperties) {
        PublishProperties {
            payload_format_indicator: p.payload_format_indicator,
            message_expiry_interval: p.message_expiry_interval,
            topic_alias: p.topic_alias,
            response_topic: p.response_topic,
            correlation_data: p.correlation_data,
            user_property: p.user_property,
            subscription_identifier: p.subscription_identifier,
            content_type: p.content_type,
        }
    }
}

impl PublishProperties {
    /// Another record that holds the same properties.
    pub fn duplicate(&self) -> (p: PublishProperties)
        ensures
            prop_map(&p) == prop_map(self),
    {
        let p = PublishProperties {
            payload_format_indicator: self.payload_format_indicator,
            message_expiry_interval: self.message_expiry_interval,
            topic_alias: self.topic_alias,
            response_topic: copy_text(&self.response_topic),
            correlation_data: copy_blob(&self.correlation_data),
            user_property: copy_pair(&self.user_property),
            subscription_identifier: self.subscription_identifier,
            content_type: copy_text(&self.content_type),
        };
        assert(prop_map(&p) =~= prop_map(self));
        p
    }
}

/// An application message on a topic.
///
/// `bytes` holds the packet as it came from the wire, where it did; it is
/// no part of what the packet says.
#[derive(Debug, Clone, PartialEq)]
pub struct Publish {
    pub qos: QoS,
    pub pkid: u16,
    pub topic: String,
    pub payload: Bytes,
    pub dup: bool,
    pub retain: bool,
    pub bytes: Bytes,
    pub properties: Option<PublishProperties>,
}

/// A PUBLISH, as a mathematical value.
pub struct PublishView {
    pub qos: QoS,
    pub pkid: u16,
    pub topic: Seq<char>,
    pub payload: Seq<u8>,
    pub dup: bool,
    pub retain: bool,
    pub properties: Option<PropMap>,
}

impl View for Publish {
    type V = PublishView;

    open spec fn view(&self) -> PublishView {
        PublishView {
            qos: self.qos,
            pkid: self.pkid,
            topic: self.topic@,
            payload: bytes_seq(self.payload),
            dup: self.dup,
            retain: self.retain,
            properties: opt_prop_map(&self.properties),
        }
    }
}

impl PublishView {
    /// The lower four bits of the first byte.
    pub open spec fn flags(self) -> u8 {
        ((if self.dup {
            8int
        } else {
            0
        }) + 2 * self.qos.level() + (if self.retain {
            1int
        } else {
            0
        })) as u8
    }

    /// The packet identifier where the quality of service asks for one.
    pub open spec fn ser_pkid(self) -> Seq<u8> {
        if self.qos == QoS::AtMostOnce {
            Seq::empty()
        } else {
            ser_u16(self.pkid)
        }
    }

    /// The body of the packet.
    pub open spec fn ser_body(self) -> Seq<u8> {
        ser_text(self.topic) + self.ser_pkid() + ser_block(self.properties) + self.payload
    }

    /// The packet reads back as itself once written: the packet identifier
    /// is 0 exactly at quality of service 0, and the property set holds
    /// properties of a PUBLISH, at least one if it is present.
    pub open spec fn canonical(self) -> bool {
        &&& self.qos == QoS::AtMostOnce <==> self.pkid == 0
        &&& block_canonical(self.properties)
        &&& props_within(self.properties, |id: u8| PublishProperties::accepts(id))
    }

    /// The fields of the packet can be written.
    pub open spec fn fits(self) -> bool {
        text_fits(self.topic) && block_writable(self.properties)
    }
}

/// The packet identifier of a PUBLISH of the given quality of service, at
/// the start of `s`: at quality of service 0 there is none, and it counts
/// as 0.
pub open spec fn parse_pkid(qos: QoS, s: Seq<u8>) -> Result<(u16, int), Error> {
    if qos == QoS::AtMostOnce {
        Ok((0u16, 0int))
    } else {
        match parse_u16(s) {
            Err(e) => Err(e),
            Ok((pkid, n)) => if pkid == 0 {
                Err(Error::PacketIdZero)
            } else {
                Ok((pkid, n))
            },
        }
    }
}

impl Publish {
    /// The PUBLISH that a first byte and a body hold.
    pub open spec fn parse(byte1: u8, body: Seq<u8>) -> Result<PublishView, Error> {
        match qos_of((byte1 / 2) % 4) {
            Err(e) => Err(e),
            Ok(qos) => match parse_text(body) {
                Err(e) => Err(e),
                Ok((topic, n1)) => match parse_pkid(qos, body.skip(n1)) {
                    Err(e) => Err(e),
                    Ok((pkid, n2)) => match parse_block(body.skip(n1 + n2)) {
                        Err(e) => Err(e),
                        Ok((props, n3)) => Ok(
                            PublishView {
                                qos,
                                pkid,
                                topic,
                                payload: body.skip(n1 + n2 + n3),
                                dup: (byte1 / 8) % 2 == 1,
                                retain: byte1 % 2 == 1,
                                properties: project(
                                    props,
                                    |id: u8| PublishProperties::accepts(id),
                                ),
                            },
                        ),
                    },
                },
            },
        }
    }

    /// Reads a PUBLISH from its frame: the fixed header as it was read, and
    /// the bytes of the whole packet. The payload of the result shares the
    /// frame's memory, and `bytes` is the frame.
    pub fn assemble(fixed_header: FixedHeader, bytes: Bytes) -> (r: Result<Publish, Error>)
        ensures
            match frame_body(fixed_header, bytes_seq(bytes)) {
                Err(e) => r matches Err(x) && x == e,
                Ok(body) => match Self::parse(fixed_header.byte1, body) {
                    Ok(v) => r matches Ok(p) && p@ == v && bytes_seq(p.bytes) == bytes_seq(bytes),
                    Err(e) => r matches Err(x) && x == e,
                },
            },
    {
        let all = bytes_as_slice(&bytes);
        let header_len: usize = fixed_header.header_len;
        if header_len > all.len() {
            return Err(Error::BoundaryCrossed);
        }
        let byte1: u8 = fixed_header.byte1;
        let level = match qos((byte1 / 2) % 4) {
            Ok(level) => level,
            Err(e) => { return Err(e); },
        };
        let mut cur = Cursor::new(all);
        cur.advance(header_len);
        let ghost body = cur.rest();
        let topic = match cur.read_text() {
            Ok(topic) => topic,
            Err(e) => { return Err(e); },
        };
        let ghost after_topic = cur;
        let pkid: u16 = if level == QoS::AtMostOnce {
            0
        } else {
            match cur.read_u16() {
                Ok(pkid) => pkid,
                Err(e) => { return Err(e); },
            }
        };
        if level != QoS::AtMostOnce && pkid == 0 {
            return Err(Error::PacketIdZero);
        }
        let ghost after_pkid = cur;
        proof {
            let n1 = after_topic.pos - header_len;
            let n2 = after_pkid.pos - after_topic.pos;
            assert(after_pkid.rest() =~= body.skip(n1 + n2));
        }
        let props = match read_block(&mut cur) {
            Ok(props) => props,
            Err(e) => { return Err(e); },
        };
        let start: usize = cur.pos;
        proof {
            let n1 = after_topic.pos - header_len;
            let n2 = after_pkid.pos - after_topic.pos;
            let n3 = cur.pos - after_pkid.pos;
            assert(cur.rest() =~= body.skip(n1 + n2 + n3));
            assert(all@.subrange(start as int, all@.len() as int) =~= body.skip(n1 + n2 + n3));
        }
        let payload = bytes_slice(&bytes, start, all.len());
        Ok(
            Publish {
                qos: level,
                pkid,
                topic,
                payload,
                dup: (byte1 / 8) % 2 == 1,
                retain: byte1 % 2 == 1,
                bytes,
                properties: narrow(props),
            },
        )
    }

    /// Whether the packet reads back as itself once written.
    pub fn is_canonical(&self) -> (b: bool)
        ensures
            b == self@.canonical(),
    {
        proof {
            crate::codec::properties::lemma_record_within(&self.properties);
        }
        ((self.qos == QoS::AtMostOnce) == (self.pkid == 0))
            && crate::codec::properties::is_canonical(&self.properties)
    }

    /// The lower four bits of the first byte.
    pub fn flags(&self) -> (f: u8)
        ensures
            f == self@.flags(),
            f < 16,
    {
        let d: u8 = if self.dup { 8 } else { 0 };
        let r: u8 = if self.retain { 1 } else { 0 };
        d + 2 * self.qos.code() + r
    }

    /// Appends the body of the packet. One that cannot be written is too
    /// long, and nothing is said of `out` after it.
    pub fn write(&self, out: &mut Vec<u8>) -> (r: Result<(), Error>)
        ensures
            match r {
                Ok(()) => self@.fits() && final(out)@ == old(out)@ + self@.ser_body(),
                Err(e) => e == Error::PayloadTooLong && !self@.fits(),
            },
    {
        if self.topic.as_str().as_bytes().len() > MAX_LEN16 {
            return Err(Error::PayloadTooLong);
        }
        put_text(out, self.topic.as_str());
        if self.qos != QoS::AtMostOnce {
            put_u16(out, self.pkid);
        }
        match write_block(out, &self.properties) {
            Ok(()) => {},
            Err(e) => { return Err(e); },
        }
        put_bytes(out, bytes_as_slice(&self.payload));
        assert(out@ =~= old(out)@ + self@.ser_body());
        Ok(())
    }

    /// A publish of `payload` on `topic`: not a duplicate, not retained,
    /// without packet identifier and without properties.
    pub fn new(topic: &str, qos: QoS, payload: Vec<u8>) -> (p: Publish)
        ensures
            p@ == (PublishView {
                qos,
                pkid: 0,
                topic: topic@,
                payload: payload@,
                dup: false,
                retain: false,
                properties: None,
            }),
            bytes_seq(p.bytes) == Seq::<u8>::empty(),
    {
        Publish {
            dup: false,
            qos,
            retain: false,
            pkid: 0,
            topic: topic.to_owned(),
            payload: bytes_from_vec(payload),
            bytes: bytes_from_vec(Vec::new()),
            properties: None,
        }
    }

    /// Another packet that says the same and shares the payload's memory.
    pub fn duplicate(&self) -> (p: Publish)
        ensures
            p@ == self@,
            bytes_seq(p.bytes) == bytes_seq(self.bytes),
    {
        let properties = match &self.properties {
            Some(props) => Some(props.duplicate()),
            None => None,
        };
        Publish {
            qos: self.qos,
            pkid: self.pkid,
            topic: self.topic.clone(),
            payload: self.payload.clone(),
            dup: self.dup,
            retain: self.retain,
            bytes: self.bytes.clone(),
            properties,
        }
    }

    /// Gives the packet the identifier `pkid`. The result is the packet
    /// itself, for what is to be done to it next.
    pub fn set_pkid(&mut self, pkid: u16) -> (same: &mut Self)
        ensures
            *same == (Publish { pkid, ..*old(self) }),
            *final(self) == *final(same),
    {
        self.pkid = pkid;
        self
    }
}

/// The first byte of a PUBLISH gives back the flags it was made from.
pub proof fn lemma_publish_flags(v: PublishView)
    ensures
        qos_of(((48 + v.flags()) as u8 / 2) % 4) == Ok::<QoS, Error>(v.qos),
        (((48 + v.flags()) as u8 / 8) % 2 == 1) == v.dup,
        ((48 + v.flags()) as u8 % 2 == 1) == v.retain,
        (48 + v.flags()) as u8 / 16 == 3,
{
}

/// A PUBLISH that was written reads back as itself.
pub proof fn lemma_publish_round_trip(v: PublishView)
    requires
        v.canonical(),
        v.fits(),
    ensures
        Publish::parse((48 + v.flags()) as u8, v.ser_body()) == Ok::<PublishView, Error>(v),
        v.ser_body().len() >= 2,
{
    let body = v.ser_body();
    let byte1 = (48 + v.flags()) as u8;
    let rest1 = v.ser_pkid() + ser_block(v.properties) + v.payload;
    let rest2 = ser_block(v.properties) + v.payload;
    let n1 = ser_text(v.topic).len() as int;
    let n2 = v.ser_pkid().len() as int;
    let n3 = ser_block(v.properties).len() as int;
    lemma_publish_flags(v);
    lemma_text_round_trip(v.topic, Seq::empty());
    assert(parse_text(body) == Ok::<(Seq<char>, int), Error>((v.topic, n1)) && body.skip(n1)
        == rest1) by {
        assert(body =~= ser_text(v.topic) + rest1);
        lemma_text_round_trip(v.topic, rest1);
    }
    assert(parse_pkid(v.qos, rest1) == Ok::<(u16, int), Error>((v.pkid, n2)) && rest1.skip(n2)
        == rest2) by {
        assert(rest1 =~= v.ser_pkid() + rest2);
        if v.qos != QoS::AtMostOnce {
            lemma_u16_round_trip(v.pkid, rest2);
        } else {
            assert(rest1.skip(0) =~= rest2);
        }
    }
    assert(body.skip(n1 + n2) == rest2) by {
        assert(body.skip(n1 + n2) =~= body.skip(n1).skip(n2));
    }
    assert(parse_block(rest2) == Ok::<(Option<PropMap>, int), Error>((v.properties, n3))
        && rest2.skip(n3) == v.payload) by {
        lemma_block_round_trip(v.properties, v.payload);
    }
    assert(body.skip(n1 + n2 + n3) == v.payload) by {
        assert(body.skip(n1 + n2 + n3) =~= body.skip(n1 + n2).skip(n3));
    }
    lemma_project_within(v.properties, |id: u8| PublishProperties::accepts(id));
}

/// A PUBLISH that was read has the packet identifier 0 exactly at quality
/// of service 0.
pub proof fn lemma_publish_pkid(byte1: u8, body: Seq<u8>)
    ensures
        Publish::parse(byte1, body) matches Ok(v) ==> (v.qos == QoS::AtMostOnce <==> v.pkid == 0),
{
}

/// A body that holds the packet identifier 0 above quality of service 0
/// is refused for it.
pub proof fn lemma_publish_pkid_zero_refused(byte1: u8, body: Seq<u8>)
    requires
        qos_of((byte1 / 2) % 4) is Ok,
        qos_of((byte1 / 2) % 4).unwrap() != QoS::AtMostOnce,
        parse_text(body) is Ok,
        parse_u16(body.skip(parse_text(body).unwrap().1)) == Ok::<(u16, int), Error>((0u16, 2int)),
    ensures
        Publish::parse(byte1, body) == Err::<PublishView, Error>(Error::PacketIdZero),
{
}

} // verus!
