//! CONNECT: the first packet of a connection.
//!
//! The body holds the protocol name `MQTT`, the protocol level (5, or 4 for
//! version 3.1.1), the connect flags, the keep alive time, at level 5 a
//! property block, the client identifier, where the will flag is set the
//! will (at level 5 its properties, its topic and its payload), and where
//! their flags are set the user name and the password.
use vstd::prelude::*;
use vstd::utf8::encode_utf8;
use bytes::Bytes;
use crate::codec::buffer::bytes_seq;
use crate::codec::cursor::{moved, Cursor};
use crate::codec::enums::{qos, qos_of, Protocol};
use crate::codec::error::Error;
use crate::codec::frame::{body_slice, frame_body};
use crate::codec::header::FixedHeader;
use crate::codec::primitives::{
    lemma_text_round_trip, lemma_u16_round_trip, lemma_u8_round_trip, parse_text, parse_u16,
    parse_u8, ser_text, ser_u16, ser_u8, text_fits, MAX_LEN16,
};
use crate::codec::properties::{
    blob_ref, blob_value, block_canonical, block_writable, byte_ref, byte_value, four_ref,
    four_value, is_canonical, lemma_block_round_trip, lemma_project_within, lemma_record_within,
    narrow, opt_prop_map, pair_ref, pair_value, parse_block, project, props_within, read_block,
    ser_block, text_ref, text_value, two_ref, two_value, write_block, PropMap, PropValue,
    Properties, PropertySource, ValueRef,
};
use crate::codec::will::LastWill;
use crate::codec::writer::{put_text, put_u16, put_u8};

verus! {

/// The properties that a CONNECT can carry.
#[derive(Debug, Clone, PartialEq)]
pub struct ConnectProperties {
    pub session_expiry_interval: Option<u32>,
    pub receive_maximum: Option<u16>,
    pub maximum_packet_size: Option<u32>,
    pub topic_alias_maximum: Option<u16>,
    pub request_response_information: Option<u8>,
    pub request_problem_information: Option<u8>,
    pub user_property: Option<(String, String)>,
    pub authentication_methods: Option<String>,
    pub authentication_data: Option<Vec<u8>>,
}

impl PropertySource for ConnectProperties {
    open spec fn accepts(id: u8) -> bool {
        id == 17 || id == 21 || id == 22 || id == 23 || id == 25 || id == 33 || id == 34 || id == 38
            || id == 39
    }

    open spec fn get(&self, id: u8) -> Option<PropValue> {
        if id == 17 {
            four_value(self.session_expiry_interval)
        } else if id == 21 {
            text_value(self.authentication_methods)
        } else if id == 22 {
            blob_value(self.authentication_data)
        } else if id == 23 {
            byte_value(self.request_problem_information)
        } else if id == 25 {
            byte_value(self.request_response_information)
        } else if id == 33 {
            two_value(self.receive_maximum)
        } else if id == 34 {
            two_value(self.topic_alias_maximum)
        } else if id == 38 {
            pair_value(self.user_property)
        } else if id == 39 {
            four_value(self.maximum_packet_size)
        } else {
            None
        }
    }

    proof fn lemma_typed(&self) {
    }

    fn value_of(&self, id: u8) -> (r: Option<ValueRef<'_>>) {
        match id {
            17 => four_ref(&self.session_expiry_interval),
            21 => text_ref(&self.authentication_methods),
            22 => blob_ref(&self.authentication_data),
            23 => byte_ref(&self.request_problem_information),
            25 => byte_ref(&self.request_response_information),
            33 => two_ref(&self.receive_maximum),
            34 => two_ref(&self.topic_alias_maximum),
            38 => pair_ref(&self.user_property),
            39 => four_ref(&self.maximum_packet_size),
            _ => None,
        }
    }

    fn from_properties(p: Properties) -> (r: ConnectProperties) {
        ConnectProperties {
            session_expiry_interval: p.session_expiry_interval,
            receive_maximum: p.receive_maximum,
            maximum_packet_size: p.maximum_packet_size,
            topic_alias_maximum: p.topic_alias_maximum,
            request_response_information: p.request_response_info,
            request_problem_information: p.request_problem_info,
            user_property: p.user_property,
            authentication_methods: p.authentication_method,
            authentication_data: p.authentication_data,
        }
    }
}

/// The properties that the will of a CONNECT can carry.
#[derive(Debug, Clone, PartialEq)]
pub struct WillProperties {
    pub will_delay_interval: Option<u32>,
    pub payload_format_indicator: Option<u8>,
    pub message_expiry_interval: Option<u32>,
    pub content_type: Option<String>,
    pub response_topic: Option<String>,
    pub correlation_data: Option<Vec<u8>>,
    pub user_property: Option<(String, String)>,
}

impl PropertySource for WillProperties {
    open spec fn accepts(id: u8) -> bool {
        id == 1 || id == 2 || id == 3 || id == 8 || id == 9 || id == 24 || id == 38
    }

    open spec fn get(&self, id: u8) -> Option<PropValue> {
        if id == 1 {
            byte_value(self.payload_format_indicator)
        } else if id == 2 {
            four_value(self.message_expiry_interval)
        } else if id == 3 {
            text_value(self.content_type)
        } else if id == 8 {
            text_value(self.response_topic)
        } else if id == 9 {
            blob_value(self.correlation_data)
        } else if id == 24 {
            four_value(self.will_delay_interval)
        } else if id == 38 {
            pair_value(self.user_property)
        } else {
            None
        }
    }

    proof fn lemma_typed(&self) {
    }

    fn value_of(&self, id: u8) -> (r: Option<ValueRef<'_>>) {
        match id {
            1 => byte_ref(&self.payload_format_indicator),
            2 => four_ref(&self.message_expiry_interval),
            3 => text_ref(&self.content_type),
            8 => text_ref(&self.response_topic),
            9 => blob_ref(&self.correlation_data),
            24 => four_ref(&self.will_delay_interval),
            38 => pair_ref(&self.user_property),
            _ => None,
        }
    }

    fn from_properties(p: Properties) -> (r: WillProperties) {
        WillProperties {
            will_delay_interval: p.will_delay_interval,
            payload_format_indicator: p.payload_format_indicator,
            message_expiry_interval: p.message_expiry_interval,
            content_type: p.content_type,
            response_topic: p.response_topic,
            correlation_data: p.correlation_data,
            user_property: p.user_property,
        }
    }
}

/// What a CONNECT holds after its fixed fields.
#[derive(Debug, Clone, PartialEq)]
pub struct ConnectPayload {
    pub client_id: String,
    pub will_props: Option<WillProperties>,
    pub will_topic: Option<String>,
    pub will_payload: Option<String>,
    pub username: Option<String>,
    pub password: Option<String>,
}

/// The connect flags, one field for each part of the flags byte.
#[derive(Debug, Clone, Copy, PartialEq, Eq, Structural)]
pub struct ConnectFlags {
    pub username: bool,
    pub password: bool,
    pub will_retain: bool,
    pub will_qos: u8,
    pub will_flag: bool,
    pub clean_session: bool,
    /// Must be 0, or the packet is malformed.
    pub reserved: u8,
}

/// The first packet of a connection.
#[derive(Debug, Clone, PartialEq)]
pub struct Connect {
    /// Protocol and level.
    pub protocol: Protocol,
    /// Protocol name.
    pub proto_name: String,
    /// Keep alive time, in seconds.
    pub keep_alive: u16,
    /// Connect flags.
    pub flags: ConnectFlags,
    /// Connect properties.
    pub properties: Option<ConnectProperties>,
    /// Client identifier, will, user name and password.
    pub payload: ConnectPayload,
}

/// A CONNECT, as a mathematical value.
pub struct ConnectView {
    pub level: u8,
    pub proto_name: Seq<char>,
    pub keep_alive: u16,
    pub flags: ConnectFlags,
    pub properties: Option<PropMap>,
    pub client_id: Seq<char>,
    pub will_props: Option<PropMap>,
    pub will_topic: Option<Seq<char>>,
    pub will_payload: Option<Seq<char>>,
    pub username: Option<Seq<char>>,
    pub password: Option<Seq<char>>,
}

/// The view of an optional string.
pub open spec fn opt_text_view(text: Option<String>) -> Option<Seq<char>> {
    match text {
        Some(t) => Some(t@),
        None => None,
    }
}

impl View for Connect {
    type V = ConnectView;

    open spec fn view(&self) -> ConnectView {
        ConnectView {
            level: match self.protocol {
                Protocol::MQTT(level) => level,
            },
            proto_name: self.proto_name@,
            keep_alive: self.keep_alive,
            flags: self.flags,
            properties: opt_prop_map(&self.properties),
            client_id: self.payload.client_id@,
            will_props: opt_prop_map(&self.payload.will_props),
            will_topic: opt_text_view(self.payload.will_topic),
            will_payload: opt_text_view(self.payload.will_payload),
            username: opt_text_view(self.payload.username),
            password: opt_text_view(self.payload.password),
        }
    }
}

/// The bytes of the protocol name, `MQTT`.
pub open spec fn protocol_name() -> Seq<u8> {
    seq![77u8, 81u8, 84u8, 84u8]
}

/// The flags that a flags byte holds.
pub open spec fn flags_of(b: u8) -> ConnectFlags {
    ConnectFlags {
        username: b >= 128,
        password: (b / 64) % 2 == 1,
        will_retain: (b / 32) % 2 == 1,
        will_qos: (b / 8) % 4,
        will_flag: (b / 4) % 2 == 1,
        clean_session: (b / 2) % 2 == 1,
        reserved: b % 2,
    }
}

/// The byte that holds the flags.
pub open spec fn flags_byte(f: ConnectFlags) -> u8 {
    (bit(f.username, 128) + bit(f.password, 64) + bit(f.will_retain, 32) + 8 * (f.will_qos % 4)
        + bit(f.will_flag, 4) + bit(f.clean_session, 2) + f.reserved % 2) as u8
}

/// The weight of a flag that is set, and 0 for one that is not.
pub open spec fn bit(flag: bool, weight: int) -> int {
    if flag {
        weight
    } else {
        0
    }
}

/// Flags are refused where the reserved bit is set or the quality of
/// service of the will is 3.
pub open spec fn check_flags(f: ConnectFlags) -> Result<(), Error> {
    if f.reserved != 0 {
        Err(Error::IncorrectPacketFormat)
    } else if f.will_qos > 2 {
        Err(Error::InvalidQoS(f.will_qos))
    } else {
        Ok(())
    }
}

/// A string that is there only where `present` says so.
pub open spec fn parse_opt_text(present: bool, s: Seq<u8>) -> Result<
    (Option<Seq<char>>, int),
    Error,
> {
    if present {
        match parse_text(s) {
            Ok((t, n)) => Ok((Some(t), n)),
            Err(e) => Err(e),
        }
    } else {
        Ok((None, 0))
    }
}

/// A string that may be absent fits its length prefix.
pub open spec fn opt_text_fits(text: Option<Seq<char>>) -> bool {
    text matches Some(t) ==> text_fits(t)
}

pub open spec fn ser_opt_text(text: Option<Seq<char>>) -> Seq<u8> {
    match text {
        Some(t) => ser_text(t),
        None => Seq::empty(),
    }
}

/// A property block that is there only at protocol level 5.
pub open spec fn parse_opt_block(present: bool, s: Seq<u8>) -> Result<
    (Option<PropMap>, int),
    Error,
> {
    if present {
        parse_block(s)
    } else {
        Ok((None, 0))
    }
}

pub open spec fn ser_opt_block(present: bool, props: Option<PropMap>) -> Seq<u8> {
    if present {
        ser_block(props)
    } else {
        Seq::empty()
    }
}

/// The properties, the topic and the payload of a will.
pub struct WillView {
    pub props: Option<PropMap>,
    pub topic: Option<Seq<char>>,
    pub payload: Option<Seq<char>>,
}

/// The will at the start of `s`, where `present` says that there is one.
pub open spec fn parse_will(level: u8, present: bool, s: Seq<u8>) -> Result<
    (WillView, int),
    Error,
> {
    if !present {
        Ok((WillView { props: None, topic: None, payload: None }, 0))
    } else {
        match parse_opt_block(level == 5, s) {
            Err(e) => Err(e),
            Ok((props, n1)) => match parse_text(s.skip(n1)) {
                Err(e) => Err(e),
                Ok((topic, n2)) => match parse_text(s.skip(n1 + n2)) {
                    Err(e) => Err(e),
                    Ok((payload, n3)) => Ok(
                        (
                            WillView {
                                props: project(props, |id: u8| WillProperties::accepts(id)),
                                topic: Some(topic),
                                payload: Some(payload),
                            },
                            n1 + n2 + n3,
                        ),
                    ),
                },
            },
        }
    }
}

pub open spec fn ser_will(level: u8, will: WillView) -> Seq<u8> {
    match (will.topic, will.payload) {
        (Some(topic), Some(payload)) => ser_opt_block(level == 5, will.props) + ser_text(topic)
            + ser_text(payload),
        _ => Seq::empty(),
    }
}

/// What follows the keep alive time: properties, client identifier, will,
/// user name and password, and nothing after them.
pub open spec fn parse_connect_rest(
    level: u8,
    flags: ConnectFlags,
    keep_alive: u16,
    proto_name: Seq<char>,
    s: Seq<u8>,
) -> Result<ConnectView, Error> {
    match parse_opt_block(level == 5, s) {
        Err(e) => Err(e),
        Ok((props, n1)) => match parse_text(s.skip(n1)) {
            Err(e) => Err(e),
            Ok((client_id, n2)) => match parse_will(level, flags.will_flag, s.skip(n1 + n2)) {
                Err(e) => Err(e),
                Ok((will, n3)) => match parse_opt_text(flags.username, s.skip(n1 + n2 + n3)) {
                    Err(e) => Err(e),
                    Ok((username, n4)) => match parse_opt_text(
                        flags.password,
                        s.skip(n1 + n2 + n3 + n4),
                    ) {
                        Err(e) => Err(e),
                        Ok((password, n5)) => if n1 + n2 + n3 + n4 + n5 != s.len() {
                            Err(Error::PayloadSizeIncorrect)
                        } else {
                            Ok(
                                ConnectView {
                                    level,
                                    proto_name,
                                    keep_alive,
                                    flags,
                                    properties: project(
                                        props,
                                        |id: u8| ConnectProperties::accepts(id),
                                    ),
                                    client_id,
                                    will_props: will.props,
                                    will_topic: will.topic,
                                    will_payload: will.payload,
                                    username,
                                    password,
                                },
                            )
                        },
                    },
                },
            },
        },
    }
}

impl ConnectView {
    pub open spec fn will(self) -> WillView {
        WillView { props: self.will_props, topic: self.will_topic, payload: self.will_payload }
    }

    /// What follows the keep alive time.
    pub open spec fn ser_rest(self) -> Seq<u8> {
        ser_opt_block(self.level == 5, self.properties) + ser_text(self.client_id) + ser_will(
            self.level,
            self.will(),
        ) + ser_opt_text(self.username) + ser_opt_text(self.password)
    }

    /// The body of the packet.
    pub open spec fn ser_body(self) -> Seq<u8> {
        ser_text(self.proto_name) + seq![self.level] + seq![flags_byte(self.flags)] + ser_u16(
            self.keep_alive,
        ) + self.ser_rest()
    }

    /// The packet reads back as itself once written: name and level are
    /// those of the protocol, the flags say what the payload holds, and
    /// property sets are there only at level 5, each with properties of
    /// its own kind and at least one.
    pub open spec fn canonical(self) -> bool {
        &&& encode_utf8(self.proto_name) == protocol_name()
        &&& (self.level == 5 || self.level == 4)
        &&& self.flags.reserved == 0
        &&& self.flags.will_qos <= 2
        &&& self.flags.username == (self.username is Some)
        &&& self.flags.password == (self.password is Some)
        &&& self.flags.will_flag == (self.will_topic is Some)
        &&& self.flags.will_flag == (self.will_payload is Some)
        &&& (self.will_props is Some ==> self.flags.will_flag)
        &&& (self.level == 4 ==> self.properties is None && self.will_props is None)
        &&& block_canonical(self.properties)
        &&& block_canonical(self.will_props)
        &&& props_within(self.properties, |id: u8| ConnectProperties::accepts(id))
        &&& props_within(self.will_props, |id: u8| WillProperties::accepts(id))
    }

    /// The fields of the packet can be written.
    pub open spec fn fits(self) -> bool {
        &&& text_fits(self.proto_name)
        &&& text_fits(self.client_id)
        &&& block_writable(self.properties)
        &&& block_writable(self.will_props)
        &&& opt_text_fits(self.will_topic)
        &&& opt_text_fits(self.will_payload)
        &&& opt_text_fits(self.username)
        &&& opt_text_fits(self.password)
    }
}

/// Reads a string where `present` says that there is one.
pub fn read_opt_text(present: bool, cur: &mut Cursor) -> (r: Result<Option<String>, Error>)
    requires
        old(cur).wf(),
    ensures
        match parse_opt_text(present, old(cur).rest()) {
            Ok((v, n)) => r matches Ok(t) && opt_text_view(t) == v && moved(
                *old(cur),
                *final(cur),
                n,
            ),
            Err(e) => r matches Err(x) && x == e && *final(cur) == *old(cur),
        },
{
    if present {
        match cur.read_text() {
            Ok(t) => Ok(Some(t)),
            Err(e) => Err(e),
        }
    } else {
        assert(cur.rest().skip(0) =~= cur.rest());
        Ok(None)
    }
}

/// Reads a property block where `present` says that there is one.
pub fn read_opt_block(present: bool, cur: &mut Cursor) -> (r: Result<Option<Properties>, Error>)
    requires
        old(cur).wf(),
    ensures
        match parse_opt_block(present, old(cur).rest()) {
            Ok((m, n)) => r matches Ok(p) && opt_prop_map(&p) == m && moved(
                *old(cur),
                *final(cur),
                n,
            ),
            Err(e) => r matches Err(x) && x == e && *final(cur) == *old(cur),
        },
{
    if present {
        read_block(cur)
    } else {
        assert(cur.rest().skip(0) =~= cur.rest());
        Ok(None)
    }
}

/// Appends a string that may be absent. One that is too long is refused,
/// and nothing is said of `out` after it.
pub fn write_opt_text(out: &mut Vec<u8>, text: &Option<String>) -> (r: Result<(), Error>)
    ensures
        match r {
            Ok(()) => opt_text_fits(opt_text_view(*text)) && final(out)@ == old(out)@
                + ser_opt_text(opt_text_view(*text)),
            Err(e) => e == Error::PayloadTooLong && !opt_text_fits(opt_text_view(*text)),
        },
{
    match text {
        Some(t) => {
            if t.as_str().as_bytes().len() > MAX_LEN16 {
                return Err(Error::PayloadTooLong);
            }
            put_text(out, t.as_str());
        },
        None => {
            assert(out@ =~= old(out)@ + Seq::<u8>::empty());
        },
    }
    Ok(())
}

/// The flags that a flags byte holds.
pub fn connect_flags(b: u8) -> (f: ConnectFlags)
    ensures
        f == flags_of(b),
{
    ConnectFlags {
        username: b >= 128,
        password: (b / 64) % 2 == 1,
        will_retain: (b / 32) % 2 == 1,
        will_qos: (b / 8) % 4,
        will_flag: (b / 4) % 2 == 1,
        clean_session: (b / 2) % 2 == 1,
        reserved: b % 2,
    }
}

impl ConnectFlags {
    /// The byte that holds the flags.
    pub fn byte(&self) -> (b: u8)
        ensures
            b == flags_byte(*self),
    {
        let u: u8 = if self.username { 128 } else { 0 };
        let p: u8 = if self.password { 64 } else { 0 };
        let r: u8 = if self.will_retain { 32 } else { 0 };
        let w: u8 = if self.will_flag { 4 } else { 0 };
        let c: u8 = if self.clean_session { 2 } else { 0 };
        u + p + r + 8 * (self.will_qos % 4) + w + c + self.reserved % 2
    }
}

impl Connect {
    /// The CONNECT that `body` holds.
    pub open spec fn parse(body: Seq<u8>) -> Result<ConnectView, Error> {
        match parse_text(body) {
            Err(e) => Err(e),
            Ok((name, n1)) => if encode_utf8(name) != protocol_name() {
                Err(Error::InvalidProtocol)
            } else {
                match parse_u8(body.skip(n1)) {
                    Err(e) => Err(e),
                    Ok((level, _)) => if level != 5 && level != 4 {
                        Err(Error::InvalidProtocolLevel(level))
                    } else {
                        match parse_u8(body.skip(n1 + 1)) {
                            Err(e) => Err(e),
                            Ok((fb, _)) => match parse_u16(body.skip(n1 + 2)) {
                                Err(e) => Err(e),
                                Ok((keep_alive, _)) => match check_flags(flags_of(fb)) {
                                    Err(e) => Err(e),
                                    Ok(()) => parse_connect_rest(
                                        level,
                                        flags_of(fb),
                                        keep_alive,
                                        name,
                                        body.skip(n1 + 4),
                                    ),
                                },
                            },
                        }
                    },
                }
            },
        }
    }

    /// Reads a CONNECT from its frame: the fixed header as it was read, and
    /// the bytes of the whole packet.
    pub fn assemble(fixed_header: FixedHeader, bytes: Bytes) -> (r: Result<Connect, Error>)
        ensures
            match frame_body(fixed_header, bytes_seq(bytes)) {
                Err(e) => r matches Err(x) && x == e,
                Ok(body) => match Self::parse(body) {
                    Ok(v) => r matches Ok(p) && p@ == v,
                    Err(e) => r matches Err(x) && x == e,
                },
            },
    {
        let body = match body_slice(fixed_header, &bytes) {
            Ok(body) => body,
            Err(e) => { return Err(e); },
        };
        let mut cur = Cursor::new(body);
        let proto_name = match cur.read_text() {
            Ok(name) => name,
            Err(e) => { return Err(e); },
        };
        let ghost n1 = cur.pos as int;
        let name = proto_name.as_str().as_bytes();
        if name.len() != 4 || name[0] != 77 || name[1] != 81 || name[2] != 84 || name[3] != 84 {
            return Err(Error::InvalidProtocol);
        }
        assert(name@ =~= protocol_name());
        let level: u8 = match cur.read_u8() {
            Ok(level) => level,
            Err(e) => { return Err(e); },
        };
        if level != 5 && level != 4 {
            return Err(Error::InvalidProtocolLevel(level));
        }
        assert(cur.rest() =~= body@.skip(n1 + 1));
        let flag_byte: u8 = match cur.read_u8() {
            Ok(b) => b,
            Err(e) => { return Err(e); },
        };
        assert(cur.rest() =~= body@.skip(n1 + 2));
        let keep_alive: u16 = match cur.read_u16() {
            Ok(k) => k,
            Err(e) => { return Err(e); },
        };
        assert(cur.rest() =~= body@.skip(n1 + 4));
        let flags = connect_flags(flag_byte);
        if flags.reserved != 0 {
            return Err(Error::IncorrectPacketFormat);
        }
        if flags.will_qos > 2 {
            return Err(Error::InvalidQoS(flags.will_qos));
        }
        let rest = cur.take(cur.remaining());
        assert(rest@ =~= body@.skip(n1 + 4));
        read_connect_rest(level, flags, keep_alive, proto_name, rest)
    }
}

/// Reads the will of a CONNECT where `present` says that there is one.
pub fn read_will(level: u8, present: bool, cur: &mut Cursor) -> (r: Result<
    (Option<WillProperties>, Option<String>, Option<String>),
    Error,
>)
    requires
        old(cur).wf(),
    ensures
        match parse_will(level, present, old(cur).rest()) {
            Ok((v, n)) => r matches Ok(w) && opt_prop_map(&w.0) == v.props && opt_text_view(w.1)
                == v.topic && opt_text_view(w.2) == v.payload && moved(
                *old(cur),
                *final(cur),
                n,
            ),
            Err(e) => r matches Err(x) && x == e,
        },
{
    if !present {
        assert(cur.rest().skip(0) =~= cur.rest());
        return Ok((None, None, None));
    }
    let ghost w = cur.rest();
    let ghost w0 = *cur;
    let props = match read_opt_block(level == 5, cur) {
        Ok(props) => props,
        Err(e) => { return Err(e); },
    };
    let ghost w1 = *cur;
    let topic = match cur.read_text() {
        Ok(topic) => topic,
        Err(e) => { return Err(e); },
    };
    let ghost w2 = *cur;
    assert(cur.rest() =~= w.skip((w1.pos - w0.pos) + (w2.pos - w1.pos)));
    let payload = match cur.read_text() {
        Ok(payload) => payload,
        Err(e) => { return Err(e); },
    };
    assert(cur.rest() =~= w.skip(cur.pos - w0.pos));
    Ok((narrow(props), Some(topic), Some(payload)))
}

/// Reads what follows the keep alive time of a CONNECT, and puts the
/// packet together.
pub fn read_connect_rest(
    level: u8,
    flags: ConnectFlags,
    keep_alive: u16,
    proto_name: String,
    rest: &[u8],
) -> (r: Result<Connect, Error>)
    ensures
        match parse_connect_rest(level, flags, keep_alive, proto_name@, rest@) {
            Ok(v) => r matches Ok(p) && p@ == v,
            Err(e) => r matches Err(x) && x == e,
        },
{
    let mut cur = Cursor::new(rest);
    let ghost s = rest@;
    let props = match read_opt_block(level == 5, &mut cur) {
        Ok(props) => props,
        Err(e) => { return Err(e); },
    };
    let ghost n1 = cur.pos as int;
    let client_id = match cur.read_text() {
        Ok(id) => id,
        Err(e) => { return Err(e); },
    };
    let ghost n12 = cur.pos as int;
    assert(cur.rest() =~= s.skip(n1 + (n12 - n1)));
    let will = match read_will(level, flags.will_flag, &mut cur) {
        Ok(will) => will,
        Err(e) => { return Err(e); },
    };
    let ghost n123 = cur.pos as int;
    assert(cur.rest() =~= s.skip(n1 + (n12 - n1) + (n123 - n12)));
    let username = match read_opt_text(flags.username, &mut cur) {
        Ok(u) => u,
        Err(e) => { return Err(e); },
    };
    let ghost n1234 = cur.pos as int;
    assert(cur.rest() =~= s.skip(n1 + (n12 - n1) + (n123 - n12) + (n1234 - n123)));
    let password = match read_opt_text(flags.password, &mut cur) {
        Ok(p) => p,
        Err(e) => { return Err(e); },
    };
    if cur.remaining() != 0 {
        return Err(Error::PayloadSizeIncorrect);
    }
    Ok(
        Connect {
            protocol: Protocol::MQTT(level),
            proto_name,
            keep_alive,
            flags,
            properties: narrow(props),
            payload: ConnectPayload {
                client_id,
                will_props: will.0,
                will_topic: will.1,
                will_payload: will.2,
                username,
                password,
            },
        },
    )
}

impl Connect {
    /// Whether the packet reads back as itself once written.
    pub fn is_canonical(&self) -> (b: bool)
        ensures
            b == self@.canonical(),
    {
        proof {
            lemma_record_within(&self.properties);
            lemma_record_within(&self.payload.will_props);
        }
        let name = self.proto_name.as_str().as_bytes();
        let named: bool = name.len() == 4 && name[0] == 77 && name[1] == 81 && name[2] == 84
            && name[3] == 84;
        proof {
            if named {
                assert(name@ =~= protocol_name());
            }
        }
        let level: u8 = match self.protocol {
            Protocol::MQTT(level) => level,
        };
        named && (level == 5 || level == 4) && self.flags.reserved == 0 && self.flags.will_qos
            <= 2 && self.flags.username == self.payload.username.is_some() && self.flags.password
            == self.payload.password.is_some() && self.flags.will_flag
            == self.payload.will_topic.is_some() && self.flags.will_flag
            == self.payload.will_payload.is_some() && (self.payload.will_props.is_none()
            || self.flags.will_flag) && (level != 4 || (self.properties.is_none()
            && self.payload.will_props.is_none())) && is_canonical(&self.properties)
            && is_canonical(&self.payload.will_props)
    }

    /// Appends the will, where the payload holds one.
    fn write_will(&self, out: &mut Vec<u8>) -> (r: Result<(), Error>)
        ensures
            match r {
                Ok(()) => final(out)@ == old(out)@ + ser_will(self@.level, self@.will()) && (
                self@.will_topic is Some && self@.will_payload is Some ==> (self@.level == 5
                    ==> block_writable(self@.will_props)) && opt_text_fits(self@.will_topic)
                    && opt_text_fits(self@.will_payload)),
                Err(e) => e == Error::PayloadTooLong && !self@.fits(),
            },
    {
        let level: u8 = match self.protocol {
            Protocol::MQTT(level) => level,
        };
        match (&self.payload.will_topic, &self.payload.will_payload) {
            (Some(topic), Some(payload)) => {
                if level == 5 {
                    match write_block(out, &self.payload.will_props) {
                        Ok(()) => {},
                        Err(e) => { return Err(e); },
                    }
                }
                if topic.as_str().as_bytes().len() > MAX_LEN16
                    || payload.as_str().as_bytes().len() > MAX_LEN16 {
                    return Err(Error::PayloadTooLong);
                }
                put_text(out, topic.as_str());
                put_text(out, payload.as_str());
                assert(out@ =~= old(out)@ + ser_will(self@.level, self@.will()));
            },
            _ => {
                assert(out@ =~= old(out)@ + ser_will(self@.level, self@.will()));
            },
        }
        Ok(())
    }

    /// Appends what follows the keep alive time. A packet that cannot be
    /// written is too long, and nothing is said of `out` after it.
    fn write_rest(&self, out: &mut Vec<u8>) -> (r: Result<(), Error>)
        requires
            self@.canonical(),
            text_fits(self@.proto_name),
            text_fits(self@.client_id),
        ensures
            match r {
                Ok(()) => self@.fits() && final(out)@ == old(out)@ + self@.ser_rest(),
                Err(e) => e == Error::PayloadTooLong && !self@.fits(),
            },
    {
        let level: u8 = match self.protocol {
            Protocol::MQTT(level) => level,
        };
        if level == 5 {
            match write_block(out, &self.properties) {
                Ok(()) => {},
                Err(e) => { return Err(e); },
            }
        }
        let ghost after_block = out@;
        assert(after_block == old(out)@ + ser_opt_block(self@.level == 5, self@.properties)) by {
            assert(old(out)@ + Seq::<u8>::empty() =~= old(out)@);
        }
        put_text(out, self.payload.client_id.as_str());
        match self.write_will(out) {
            Ok(()) => {},
            Err(e) => { return Err(e); },
        }
        match write_opt_text(out, &self.payload.username) {
            Ok(()) => {},
            Err(e) => { return Err(e); },
        }
        match write_opt_text(out, &self.payload.password) {
            Ok(()) => {},
            Err(e) => { return Err(e); },
        }
        assert(out@ =~= old(out)@ + self@.ser_rest());
        Ok(())
    }

    /// Appends the body of the packet. One that cannot be written is too
    /// long, and nothing is said of `out` after it.
    pub fn write(&self, out: &mut Vec<u8>) -> (r: Result<(), Error>)
        requires
            self@.canonical(),
        ensures
            match r {
                Ok(()) => self@.fits() && final(out)@ == old(out)@ + self@.ser_body(),
                Err(e) => e == Error::PayloadTooLong && !self@.fits(),
            },
    {
        let level: u8 = match self.protocol {
            Protocol::MQTT(level) => level,
        };
        if self.proto_name.as_str().as_bytes().len() > MAX_LEN16
            || self.payload.client_id.as_str().as_bytes().len() > MAX_LEN16 {
            return Err(Error::PayloadTooLong);
        }
        put_text(out, self.proto_name.as_str());
        put_u8(out, level);
        put_u8(out, self.flags.byte());
        put_u16(out, self.keep_alive);
        let ghost fixed = out@;
        assert(fixed =~= old(out)@ + (ser_text(self@.proto_name) + seq![self@.level] + seq![
            flags_byte(self@.flags),
        ] + ser_u16(self@.keep_alive)));
        match self.write_rest(out) {
            Ok(()) => {},
            Err(e) => { return Err(e); },
        }
        assert(out@ =~= old(out)@ + self@.ser_body());
        Ok(())
    }

    /// A CONNECT at protocol level 5 for the client `id`: a clean session,
    /// sixty seconds of keep alive, no will, no user name, no password.
    pub fn new(id: &str) -> (c: Connect)
        ensures
            c.protocol == Protocol::MQTT(5),
            c.proto_name@ == "MQTT"@,
            c.keep_alive == 60,
            c.flags == (ConnectFlags {
                username: false,
                password: false,
                will_retain: false,
                will_qos: 0,
                will_flag: false,
                clean_session: true,
                reserved: 0,
            }),
            c.properties is None,
            c.payload.client_id@ == id@,
            c.payload.will_props is None,
            c.payload.will_topic is None,
            c.payload.will_payload is None,
            c.payload.username is None,
            c.payload.password is None,
    {
        Connect {
            protocol: Protocol::MQTT(5),
            proto_name: "MQTT".to_owned(),
            keep_alive: 60,
            flags: ConnectFlags {
                username: false,
                password: false,
                will_retain: false,
                will_qos: 0,
                will_flag: false,
                clean_session: true,
                reserved: 0,
            },
            properties: None,
            payload: ConnectPayload {
                client_id: id.to_owned(),
                will_props: None,
                will_topic: None,
                will_payload: None,
                username: None,
                password: None,
            },
        }
    }

    /// The will that the packet asks for, if it asks for one.
    pub open spec fn last_will_spec(&self) -> Option<LastWill> {
        match (self.payload.will_topic, self.payload.will_payload, qos_of(self.flags.will_qos)) {
            (Some(topic), Some(message), Ok(level)) => Some(
                LastWill { topic, message, qos: level, retain: self.flags.will_retain },
            ),
            _ => None,
        }
    }

    /// The will that the packet asks for, if it asks for one: the topic
    /// and the payload of the will, at the quality of service and with
    /// the retain flag that the connect flags give.
    pub fn last_will(&self) -> (w: Option<LastWill>)
        ensures
            w == self.last_will_spec(),
    {
        match (&self.payload.will_topic, &self.payload.will_payload, qos(self.flags.will_qos)) {
            (Some(topic), Some(message), Ok(level)) => Some(
                LastWill {
                    topic: topic.clone(),
                    message: message.clone(),
                    qos: level,
                    retain: self.flags.will_retain,
                },
            ),
            _ => None,
        }
    }
}

/// Flags that are written read back as themselves.
pub proof fn lemma_flags_round_trip(f: ConnectFlags)
    requires
        f.reserved == 0,
        f.will_qos <= 2,
    ensures
        flags_of(flags_byte(f)) == f,
        check_flags(f) == Ok::<(), Error>(()),
{
}

pub proof fn lemma_opt_text_round_trip(text: Option<Seq<char>>, rest: Seq<u8>)
    requires
        opt_text_fits(text),
    ensures
        parse_opt_text(text is Some, ser_opt_text(text) + rest) == Ok::<
            (Option<Seq<char>>, int),
            Error,
        >((text, ser_opt_text(text).len() as int)),
        (ser_opt_text(text) + rest).skip(ser_opt_text(text).len() as int) == rest,
{
    match text {
        Some(t) => lemma_text_round_trip(t, rest),
        None => {
            assert((ser_opt_text(text) + rest).skip(0) =~= rest);
        },
    }
}

pub proof fn lemma_opt_block_round_trip(present: bool, props: Option<PropMap>, rest: Seq<u8>)
    requires
        block_canonical(props),
        block_writable(props),
        !present ==> props is None,
    ensures
        parse_opt_block(present, ser_opt_block(present, props) + rest) == Ok::<
            (Option<PropMap>, int),
            Error,
        >((props, ser_opt_block(present, props).len() as int)),
        (ser_opt_block(present, props) + rest).skip(ser_opt_block(present, props).len() as int)
            == rest,
{
    if present {
        lemma_block_round_trip(props, rest);
    } else {
        assert((ser_opt_block(present, props) + rest).skip(0) =~= rest);
    }
}

pub proof fn lemma_will_round_trip(level: u8, will: WillView, rest: Seq<u8>)
    requires
        will.topic is Some == will.payload is Some,
        will.props is Some ==> will.topic is Some && level == 5,
        block_canonical(will.props),
        block_writable(will.props),
        props_within(will.props, |id: u8| WillProperties::accepts(id)),
        opt_text_fits(will.topic),
        opt_text_fits(will.payload),
    ensures
        parse_will(level, will.topic is Some, ser_will(level, will) + rest) == Ok::<
            (WillView, int),
            Error,
        >((will, ser_will(level, will).len() as int)),
        (ser_will(level, will) + rest).skip(ser_will(level, will).len() as int) == rest,
{
    let all = ser_will(level, will) + rest;
    match (will.topic, will.payload) {
        (Some(topic), Some(payload)) => {
            let block = ser_opt_block(level == 5, will.props);
            let rest1 = ser_text(topic) + ser_text(payload) + rest;
            let rest2 = ser_text(payload) + rest;
            let n1 = block.len() as int;
            let n2 = ser_text(topic).len() as int;
            let n3 = ser_text(payload).len() as int;
            assert(all =~= block + rest1);
            lemma_opt_block_round_trip(level == 5, will.props, rest1);
            assert(rest1 =~= ser_text(topic) + rest2);
            lemma_text_round_trip(topic, rest2);
            lemma_text_round_trip(payload, rest);
            assert(all.skip(n1 + n2) =~= all.skip(n1).skip(n2));
            assert(all.skip(n1 + n2 + n3) =~= rest);
            lemma_project_within(will.props, |id: u8| WillProperties::accepts(id));
        },
        _ => {
            assert(all.skip(0) =~= rest);
        },
    }
}

/// What follows the keep alive time reads back as it was written.
pub proof fn lemma_connect_rest_round_trip(v: ConnectView)
    requires
        v.canonical(),
        v.fits(),
    ensures
        parse_connect_rest(v.level, v.flags, v.keep_alive, v.proto_name, v.ser_rest()) == Ok::<
            ConnectView,
            Error,
        >(v),
{
    let s = v.ser_rest();
    let block = ser_opt_block(v.level == 5, v.properties);
    let id = ser_text(v.client_id);
    let will = ser_will(v.level, v.will());
    let user = ser_opt_text(v.username);
    let pass = ser_opt_text(v.password);
    let n1 = block.len() as int;
    let n2 = id.len() as int;
    let n3 = will.len() as int;
    let n4 = user.len() as int;
    let n5 = pass.len() as int;
    let rest1 = id + will + user + pass;
    let rest2 = will + user + pass;
    let rest3 = user + pass;
    assert(parse_opt_block(v.level == 5, s) == Ok::<(Option<PropMap>, int), Error>(
        (v.properties, n1),
    ) && s.skip(n1) == rest1) by {
        assert(s =~= block + rest1);
        lemma_opt_block_round_trip(v.level == 5, v.properties, rest1);
    }
    assert(parse_text(rest1) == Ok::<(Seq<char>, int), Error>((v.client_id, n2)) && rest1.skip(n2)
        == rest2) by {
        assert(rest1 =~= id + rest2);
        lemma_text_round_trip(v.client_id, rest2);
    }
    assert(s.skip(n1 + n2) == rest2) by {
        assert(s.skip(n1 + n2) =~= s.skip(n1).skip(n2));
    }
    assert(parse_will(v.level, v.flags.will_flag, rest2) == Ok::<(WillView, int), Error>(
        (v.will(), n3),
    ) && rest2.skip(n3) == rest3) by {
        assert(rest2 =~= will + rest3);
        lemma_will_round_trip(v.level, v.will(), rest3);
    }
    assert(s.skip(n1 + n2 + n3) == rest3) by {
        assert(s.skip(n1 + n2 + n3) =~= s.skip(n1 + n2).skip(n3));
    }
    assert(parse_opt_text(v.flags.username, rest3) == Ok::<(Option<Seq<char>>, int), Error>(
        (v.username, n4),
    ) && rest3.skip(n4) == pass) by {
        lemma_opt_text_round_trip(v.username, pass);
    }
    assert(s.skip(n1 + n2 + n3 + n4) == pass) by {
        assert(s.skip(n1 + n2 + n3 + n4) =~= s.skip(n1 + n2 + n3).skip(n4));
    }
    assert(parse_opt_text(v.flags.password, pass) == Ok::<(Option<Seq<char>>, int), Error>(
        (v.password, n5),
    )) by {
        lemma_opt_text_round_trip(v.password, Seq::empty());
        assert(pass + Seq::<u8>::empty() =~= pass);
    }
    assert(n1 + n2 + n3 + n4 + n5 == s.len());
    lemma_project_within(v.properties, |id: u8| ConnectProperties::accepts(id));
}

/// A CONNECT that was written reads back as itself.
pub proof fn lemma_connect_round_trip(v: ConnectView)
    requires
        v.canonical(),
        v.fits(),
    ensures
        Connect::parse(v.ser_body()) == Ok::<ConnectView, Error>(v),
        v.ser_body().len() >= 2,
{
    let body = v.ser_body();
    let name = ser_text(v.proto_name);
    let n1 = name.len() as int;
    let rest1 = seq![v.level] + seq![flags_byte(v.flags)] + ser_u16(v.keep_alive) + v.ser_rest();
    let rest2 = seq![flags_byte(v.flags)] + ser_u16(v.keep_alive) + v.ser_rest();
    let rest3 = ser_u16(v.keep_alive) + v.ser_rest();
    assert(parse_text(body) == Ok::<(Seq<char>, int), Error>((v.proto_name, n1)) && body.skip(n1)
        == rest1) by {
        assert(body =~= name + rest1);
        lemma_text_round_trip(v.proto_name, rest1);
    }
    assert(parse_u8(rest1) == Ok::<(u8, int), Error>((v.level, 1)) && rest1.skip(1) == rest2) by {
        assert(rest1 =~= ser_u8(v.level) + rest2);
        lemma_u8_round_trip(v.level, rest2);
    }
    assert(body.skip(n1 + 1) == rest2) by {
        assert(body.skip(n1 + 1) =~= body.skip(n1).skip(1));
    }
    assert(parse_u8(rest2) == Ok::<(u8, int), Error>((flags_byte(v.flags), 1)) && rest2.skip(1)
        == rest3) by {
        assert(rest2 =~= ser_u8(flags_byte(v.flags)) + rest3);
        lemma_u8_round_trip(flags_byte(v.flags), rest3);
    }
    assert(body.skip(n1 + 2) == rest3) by {
        assert(body.skip(n1 + 2) =~= body.skip(n1 + 1).skip(1));
    }
    assert(parse_u16(rest3) == Ok::<(u16, int), Error>((v.keep_alive, 2)) && rest3.skip(2)
        == v.ser_rest()) by {
        lemma_u16_round_trip(v.keep_alive, v.ser_rest());
    }
    assert(body.skip(n1 + 4) == v.ser_rest()) by {
        assert(body.skip(n1 + 4) =~= body.skip(n1 + 2).skip(2));
    }
    lemma_flags_round_trip(v.flags);
    lemma_connect_rest_round_trip(v);
}

} // verus!
