//! The property table and the property block of a packet.
//!
//! A property is an identifier byte followed by a value whose encoding the
//! identifier decides. A property block is a variable byte integer that
//! gives the length of what follows, and that many bytes of properties.
//! The mathematical model of a set of properties is a map from identifiers
//! to values.
use vstd::prelude::*;
use bytes::Bytes;
use crate::codec::buffer::{bytes_advance, bytes_as_slice, bytes_seq};
use crate::codec::cursor::{moved, Cursor};
use crate::codec::error::Error;
use crate::codec::primitives::{
    blob_fits, lemma_blob_round_trip, lemma_pair_round_trip, lemma_text_round_trip,
    lemma_u16_round_trip, lemma_u32_round_trip, lemma_u8_round_trip, lemma_varbyte_round_trip,
    parse_blob, parse_pair, parse_text, parse_u16, parse_u32, parse_u8, parse_varint, ser_blob,
    ser_pair, ser_text, ser_u16, ser_u32, ser_u8, ser_varbyte, text_fits, MAX_LEN16, MAX_VARBYTE,
};
use crate::codec::writer::{
    put_blob, put_bytes, put_pair, put_text, put_u16, put_u32, put_u8, put_varbyte,
};

verus! {

/// The identifiers of the property table.
pub struct PropertyIdentifiers;

impl PropertyIdentifiers {
    pub const PAYLOAD_FORMAT_INDICATOR: u8 = 1;
    pub const MESSAGE_EXPIRY_INTERVAL: u8 = 2;
    pub const CONTENT_TYPE: u8 = 3;
    pub const RESPONSE_TOPIC: u8 = 8;
    pub const CORRELATION_DATA: u8 = 9;
    pub const SUBSCRIPTION_IDENTIFIER: u8 = 11;
    pub const SESSION_EXPIRY_INTERVAL: u8 = 17;
    pub const ASSIGNED_CLIENT_IDENTIFIER: u8 = 18;
    pub const SERVER_KEEP_ALIVE: u8 = 19;
    pub const AUTHENTICATION_METHOD: u8 = 21;
    pub const AUTHENTICATION_DATA: u8 = 22;
    pub const REQUEST_PROBLEM_INFORMATION: u8 = 23;
    pub const WILL_DELAY_INTERVAL: u8 = 24;
    pub const REQUEST_RESPONSE_INFORMATION: u8 = 25;
    pub const RESPONSE_INFO: u8 = 26;
    pub const SERVER_INFO: u8 = 28;
    pub const REASON_STRING: u8 = 31;
    pub const RECEIVE_MAXIMUM: u8 = 33;
    pub const TOPIC_ALIAS_MAXIMUM: u8 = 34;
    pub const TOPIC_ALIAS: u8 = 35;
    pub const MAXIMUM_QOS: u8 = 36;
    pub const RETAIN_AVAILABLE: u8 = 37;
    pub const USER_PROPERTY: u8 = 38;
    pub const MAXIMUM_PACKET_SIZE: u8 = 39;
    pub const WILDCARD_SUBSCRIPTION_AVAILABLE: u8 = 40;
    pub const SUBSCRIPTION_IDENTIFIER_AVAILABLE: u8 = 41;
    pub const SHARED_SUBSCRIPTION_AVAILABLE: u8 = 42;
}

/// The largest identifier of the table.
pub const LAST_IDENTIFIER: u8 = 42;

/// How the value of a property is encoded.
#[derive(Debug, Clone, Copy, PartialEq, Eq, Structural)]
pub enum Kind {
    Byte,
    Two,
    Four,
    VarInt,
    Text,
    Blob,
    Pair,
}

/// The value of a property, as a mathematical value.
pub enum PropValue {
    Byte(u8),
    Two(u16),
    Four(u32),
    VarInt(u32),
    Text(Seq<char>),
    Blob(Seq<u8>),
    Pair(Seq<char>, Seq<char>),
}

/// A set of properties, as a mathematical value: the identifiers that are
/// present, each with its value.
pub type PropMap = Map<u8, PropValue>;

/// The property table: the encoding of the value of each identifier.
/// Identifiers that the table does not hold have none.
pub open spec fn kind_of(id: u8) -> Option<Kind> {
    if id == 1 || id == 23 || id == 25 || id == 36 || id == 37 || id == 40 || id == 41 || id
        == 42 {
        Some(Kind::Byte)
    } else if id == 19 || id == 33 || id == 34 || id == 35 {
        Some(Kind::Two)
    } else if id == 2 || id == 17 || id == 24 || id == 39 {
        Some(Kind::Four)
    } else if id == 11 {
        Some(Kind::VarInt)
    } else if id == 3 || id == 8 || id == 18 || id == 21 || id == 26 || id == 28 || id == 31 {
        Some(Kind::Text)
    } else if id == 9 || id == 22 {
        Some(Kind::Blob)
    } else if id == 38 {
        Some(Kind::Pair)
    } else {
        None
    }
}

/// The property table, executable.
pub fn wire_kind(id: u8) -> (k: Option<Kind>)
    ensures
        k == kind_of(id),
{
    match id {
        1 | 23 | 25 | 36 | 37 | 40 | 41 | 42 => Some(Kind::Byte),
        19 | 33 | 34 | 35 => Some(Kind::Two),
        2 | 17 | 24 | 39 => Some(Kind::Four),
        11 => Some(Kind::VarInt),
        3 | 8 | 18 | 21 | 26 | 28 | 31 => Some(Kind::Text),
        9 | 22 => Some(Kind::Blob),
        38 => Some(Kind::Pair),
        _ => None,
    }
}

impl PropValue {
    pub open spec fn kind(self) -> Kind {
        match self {
            PropValue::Byte(_) => Kind::Byte,
            PropValue::Two(_) => Kind::Two,
            PropValue::Four(_) => Kind::Four,
            PropValue::VarInt(_) => Kind::VarInt,
            PropValue::Text(_) => Kind::Text,
            PropValue::Blob(_) => Kind::Blob,
            PropValue::Pair(_, _) => Kind::Pair,
        }
    }

    /// The value can be written: lengths fit their prefixes.
    pub open spec fn fits(self) -> bool {
        match self {
            PropValue::VarInt(v) => v <= MAX_VARBYTE,
            PropValue::Text(t) => text_fits(t),
            PropValue::Blob(b) => blob_fits(b),
            PropValue::Pair(k, v) => text_fits(k) && text_fits(v),
            _ => true,
        }
    }
}

pub open spec fn ser_value(v: PropValue) -> Seq<u8> {
    match v {
        PropValue::Byte(b) => ser_u8(b),
        PropValue::Two(t) => ser_u16(t),
        PropValue::Four(f) => ser_u32(f),
        PropValue::VarInt(i) => ser_varbyte(i as nat),
        PropValue::Text(t) => ser_text(t),
        PropValue::Blob(b) => ser_blob(b),
        PropValue::Pair(k, v) => ser_pair((k, v)),
    }
}

pub open spec fn parse_value(kind: Kind, s: Seq<u8>) -> Result<(PropValue, int), Error> {
    match kind {
        Kind::Byte => match parse_u8(s) {
            Ok((v, n)) => Ok((PropValue::Byte(v), n)),
            Err(e) => Err(e),
        },
        Kind::Two => match parse_u16(s) {
            Ok((v, n)) => Ok((PropValue::Two(v), n)),
            Err(e) => Err(e),
        },
        Kind::Four => match parse_u32(s) {
            Ok((v, n)) => Ok((PropValue::Four(v), n)),
            Err(e) => Err(e),
        },
        Kind::VarInt => match parse_varint(s) {
            Ok((v, n)) => Ok((PropValue::VarInt(v), n)),
            Err(e) => Err(e),
        },
        Kind::Text => match parse_text(s) {
            Ok((v, n)) => Ok((PropValue::Text(v), n)),
            Err(e) => Err(e),
        },
        Kind::Blob => match parse_blob(s) {
            Ok((v, n)) => Ok((PropValue::Blob(v), n)),
            Err(e) => Err(e),
        },
        Kind::Pair => match parse_pair(s) {
            Ok((v, n)) => Ok((PropValue::Pair(v.0, v.1), n)),
            Err(e) => Err(e),
        },
    }
}

/// One property: its identifier and its value.
pub open spec fn ser_prop(id: u8, v: PropValue) -> Seq<u8> {
    seq![id] + ser_value(v)
}

/// The property at the start of `s`. An identifier outside the table is
/// invalid.
pub open spec fn parse_prop(s: Seq<u8>) -> Result<((u8, PropValue), int), Error> {
    if s.len() == 0 {
        Err(Error::BoundaryCrossed)
    } else {
        match kind_of(s[0]) {
            None => Err(Error::InvalidProperty),
            Some(kind) => match parse_value(kind, s.skip(1)) {
                Err(e) => Err(e),
                Ok((v, n)) => Ok(((s[0], v), n + 1)),
            },
        }
    }
}

/// The properties that `body` holds from start to end, added to those in
/// `seen`. An identifier that comes twice is invalid, but for the user
/// property, of which the first one counts.
pub open spec fn parse_props(body: Seq<u8>, seen: PropMap) -> Result<PropMap, Error>
    decreases body.len(),
{
    if body.len() == 0 {
        Ok(seen)
    } else {
        match parse_prop(body) {
            Err(e) => Err(e),
            Ok(((id, v), n)) => if !(0 < n <= body.len()) {
                Err(Error::BoundaryCrossed)
            } else if !seen.contains_key(id) {
                parse_props(body.skip(n), seen.insert(id, v))
            } else if id == PropertyIdentifiers::USER_PROPERTY {
                parse_props(body.skip(n), seen)
            } else {
                Err(Error::InvalidProperty)
            },
        }
    }
}

/// The property block at the start of `s`: its length, and the properties
/// that fill exactly that length. A block of length zero holds no property
/// set at all.
#[verifier::opaque]
pub open spec fn parse_block(s: Seq<u8>) -> Result<(Option<PropMap>, int), Error> {
    match parse_varint(s) {
        Err(e) => Err(e),
        Ok((len, n)) => if len == 0 {
            Ok((None, n))
        } else if s.len() < n + len {
            Err(Error::BoundaryCrossed)
        } else {
            match parse_props(s.subrange(n, n + len), Map::empty()) {
                Err(e) => Err(e),
                Ok(m) => Ok((Some(m), n + len)),
            }
        },
    }
}

/// The bytes of the property `id` of `m`, or none where `m` lacks it.
pub open spec fn ser_entry(m: PropMap, id: u8) -> Seq<u8> {
    if m.contains_key(id) {
        ser_prop(id, m[id])
    } else {
        Seq::empty()
    }
}

/// The properties of `m` with identifiers from `from` up, in the order of
/// their identifiers.
pub open spec fn ser_props_from(m: PropMap, from: int) -> Seq<u8>
    decreases LAST_IDENTIFIER + 1 - from,
{
    if from < 0 || from > LAST_IDENTIFIER {
        Seq::empty()
    } else {
        ser_entry(m, from as u8) + ser_props_from(m, from + 1)
    }
}

/// All the properties of `m`, in the order of their identifiers.
pub open spec fn ser_props(m: PropMap) -> Seq<u8> {
    ser_props_from(m, 0)
}

/// The property block of an optional property set.
#[verifier::opaque]
pub open spec fn ser_block(props: Option<PropMap>) -> Seq<u8> {
    match props {
        None => ser_varbyte(0),
        Some(m) => ser_varbyte(ser_props(m).len()) + ser_props(m),
    }
}

/// The set holds at least one property.
pub open spec fn holds_some(m: PropMap) -> bool {
    exists|id: u8| m.contains_key(id)
}

/// Every property has the value that the table asks for and can be
/// written.
pub open spec fn props_typed(m: PropMap) -> bool {
    forall|id: u8| #[trigger]
        m.contains_key(id) ==> kind_of(id) == Some(m[id].kind()) && m[id].fits()
}

/// The property set can be written as a block: it is typed and the block's
/// length can be.
pub open spec fn props_fit(m: PropMap) -> bool {
    &&& props_typed(m)
    &&& ser_props(m).len() <= MAX_VARBYTE
}

/// An optional property set can be written and reads back as itself.
pub open spec fn block_fits(props: Option<PropMap>) -> bool {
    block_writable(props) && block_canonical(props)
}

// ---------------------------------------------------------------------------
// Executable values
// ---------------------------------------------------------------------------

/// The value of a property, owned.
#[derive(Debug)]
pub enum Value {
    Byte(u8),
    Two(u16),
    Four(u32),
    VarInt(u32),
    Text(String),
    Blob(Vec<u8>),
    Pair(String, String),
}

impl View for Value {
    type V = PropValue;

    open spec fn view(&self) -> PropValue {
        match self {
            Value::Byte(b) => PropValue::Byte(*b),
            Value::Two(t) => PropValue::Two(*t),
            Value::Four(f) => PropValue::Four(*f),
            Value::VarInt(i) => PropValue::VarInt(*i),
            Value::Text(t) => PropValue::Text(t@),
            Value::Blob(b) => PropValue::Blob(b@),
            Value::Pair(k, v) => PropValue::Pair(k@, v@),
        }
    }
}

/// The value of a property, borrowed from the record that holds it.
#[derive(Debug, Clone, Copy)]
pub enum ValueRef<'a> {
    Byte(u8),
    Two(u16),
    Four(u32),
    VarInt(u32),
    Text(&'a str),
    Blob(&'a [u8]),
    Pair(&'a str, &'a str),
}

impl<'a> View for ValueRef<'a> {
    type V = PropValue;

    open spec fn view(&self) -> PropValue {
        match self {
            ValueRef::Byte(b) => PropValue::Byte(*b),
            ValueRef::Two(t) => PropValue::Two(*t),
            ValueRef::Four(f) => PropValue::Four(*f),
            ValueRef::VarInt(i) => PropValue::VarInt(*i),
            ValueRef::Text(t) => PropValue::Text(t@),
            ValueRef::Blob(b) => PropValue::Blob(b@),
            ValueRef::Pair(k, v) => PropValue::Pair(k@, v@),
        }
    }
}

/// The mathematical value of an optional borrowed value.
pub open spec fn value_ref_view(r: Option<ValueRef>) -> Option<PropValue> {
    match r {
        Some(v) => Some(v@),
        None => None,
    }
}

pub open spec fn byte_value(field: Option<u8>) -> Option<PropValue> {
    match field {
        Some(v) => Some(PropValue::Byte(v)),
        None => None,
    }
}

pub open spec fn two_value(field: Option<u16>) -> Option<PropValue> {
    match field {
        Some(v) => Some(PropValue::Two(v)),
        None => None,
    }
}

pub open spec fn four_value(field: Option<u32>) -> Option<PropValue> {
    match field {
        Some(v) => Some(PropValue::Four(v)),
        None => None,
    }
}

pub open spec fn varint_value(field: Option<u32>) -> Option<PropValue> {
    match field {
        Some(v) => Some(PropValue::VarInt(v)),
        None => None,
    }
}

pub open spec fn text_value(field: Option<String>) -> Option<PropValue> {
    match field {
        Some(v) => Some(PropValue::Text(v@)),
        None => None,
    }
}

pub open spec fn blob_value(field: Option<Vec<u8>>) -> Option<PropValue> {
    match field {
        Some(v) => Some(PropValue::Blob(v@)),
        None => None,
    }
}

pub open spec fn pair_value(field: Option<(String, String)>) -> Option<PropValue> {
    match field {
        Some(v) => Some(PropValue::Pair(v.0@, v.1@)),
        None => None,
    }
}

pub fn byte_ref<'a>(field: &'a Option<u8>) -> (r: Option<ValueRef<'a>>)
    ensures
        value_ref_view(r) == byte_value(*field),
{
    match field {
        Some(v) => Some(ValueRef::Byte(*v)),
        None => None,
    }
}

pub fn two_ref<'a>(field: &'a Option<u16>) -> (r: Option<ValueRef<'a>>)
    ensures
        value_ref_view(r) == two_value(*field),
{
    match field {
        Some(v) => Some(ValueRef::Two(*v)),
        None => None,
    }
}

pub fn four_ref<'a>(field: &'a Option<u32>) -> (r: Option<ValueRef<'a>>)
    ensures
        value_ref_view(r) == four_value(*field),
{
    match field {
        Some(v) => Some(ValueRef::Four(*v)),
        None => None,
    }
}

pub fn varint_ref<'a>(field: &'a Option<u32>) -> (r: Option<ValueRef<'a>>)
    ensures
        value_ref_view(r) == varint_value(*field),
{
    match field {
        Some(v) => Some(ValueRef::VarInt(*v)),
        None => None,
    }
}

pub fn text_ref<'a>(field: &'a Option<String>) -> (r: Option<ValueRef<'a>>)
    ensures
        value_ref_view(r) == text_value(*field),
{
    match field {
        Some(v) => Some(ValueRef::Text(v.as_str())),
        None => None,
    }
}

pub fn blob_ref<'a>(field: &'a Option<Vec<u8>>) -> (r: Option<ValueRef<'a>>)
    ensures
        value_ref_view(r) == blob_value(*field),
{
    match field {
        Some(v) => Some(ValueRef::Blob(v.as_slice())),
        None => None,
    }
}

pub fn pair_ref<'a>(field: &'a Option<(String, String)>) -> (r: Option<ValueRef<'a>>)
    ensures
        value_ref_view(r) == pair_value(*field),
{
    match field {
        Some(v) => Some(ValueRef::Pair(v.0.as_str(), v.1.as_str())),
        None => None,
    }
}

/// Another optional string that says the same.
pub fn copy_text(field: &Option<String>) -> (r: Option<String>)
    ensures
        r == *field,
{
    match field {
        Some(v) => Some(v.clone()),
        None => None,
    }
}

/// Another optional binary value that holds the same bytes.
pub fn copy_blob(field: &Option<Vec<u8>>) -> (r: Option<Vec<u8>>)
    ensures
        blob_value(r) == blob_value(*field),
{
    match field {
        Some(v) => {
            let copy = v.clone();
            assert(copy@ =~= v@);
            Some(copy)
        },
        None => None,
    }
}

/// Another optional pair of strings that says the same.
pub fn copy_pair(field: &Option<(String, String)>) -> (r: Option<(String, String)>)
    ensures
        r == *field,
{
    match field {
        Some(v) => Some((v.0.clone(), v.1.clone())),
        None => None,
    }
}

/// A record of properties: what a property block can be written from.
pub trait PropertySource: Sized {
    /// The identifiers that the record has a field for.
    spec fn accepts(id: u8) -> bool;

    /// The value that the record holds for `id`, if any.
    spec fn get(&self, id: u8) -> Option<PropValue>;

    /// The record holds values only for identifiers it accepts, each of the
    /// kind that the table asks for.
    proof fn lemma_typed(&self)
        ensures
            forall|id: u8|
                (#[trigger] self.get(id)) is Some ==> Self::accepts(id) && kind_of(id) == Some(
                    self.get(id).unwrap().kind(),
                ),
    ;

    /// The value that the record holds for `id`, if any.
    fn value_of(&self, id: u8) -> (r: Option<ValueRef<'_>>)
        ensures
            value_ref_view(r) == self.get(id),
    ;

    /// The record that holds what `p` holds for the identifiers that the
    /// record accepts; the other properties of `p` are dropped.
    fn from_properties(p: Properties) -> (r: Self)
        ensures
            forall|id: u8| #[trigger]
                r.get(id) == (if Self::accepts(id) {
                    p.lookup(id)
                } else {
                    None
                }),
    ;
}

/// Every property of an optional set belongs to the identifiers that a
/// packet type accepts.
pub open spec fn props_within(props: Option<PropMap>, accepts: spec_fn(u8) -> bool) -> bool {
    props matches Some(m) ==> forall|id: u8| #[trigger] m.contains_key(id) ==> accepts(id)
}

/// A set within what is accepted is its own projection.
pub proof fn lemma_project_within(props: Option<PropMap>, accepts: spec_fn(u8) -> bool)
    requires
        props_within(props, accepts),
    ensures
        project(props, accepts) == props,
{
    if let Some(m) = props {
        assert(m.restrict(Set::new(accepts)) =~= m);
    }
}

/// What a record holds lies within what its type accepts.
pub proof fn lemma_record_within<P: PropertySource>(record: &Option<P>)
    ensures
        props_within(opt_prop_map(record), |id: u8| P::accepts(id)),
{
    if let Some(r) = record {
        r.lemma_typed();
        assert forall|id: u8| #[trigger] prop_map(r).contains_key(id) implies P::accepts(id) by {
            assert(r.get(id) is Some);
        }
    }
}

/// The record of a packet type for an optional set of properties as read.
pub fn narrow<P: PropertySource>(props: Option<Properties>) -> (r: Option<P>)
    ensures
        opt_prop_map(&r) == project(opt_prop_map(&props), |id: u8| P::accepts(id)),
{
    match props {
        Some(p) => {
            let r = P::from_properties(p);
            assert(prop_map(&r) =~= prop_map(&p).restrict(Set::new(|id: u8| P::accepts(id))));
            Some(r)
        },
        None => None,
    }
}

/// The property set that a record holds.
pub open spec fn prop_map<P: PropertySource>(record: &P) -> PropMap {
    Map::new(|id: u8| record.get(id) is Some, |id: u8| record.get(id).unwrap())
}

/// The property set that an optional record holds.
pub open spec fn opt_prop_map<P: PropertySource>(record: &Option<P>) -> Option<PropMap> {
    match record {
        Some(r) => Some(prop_map(r)),
        None => None,
    }
}

/// The part of a property set that a packet type has fields for.
pub open spec fn project(props: Option<PropMap>, accepts: spec_fn(u8) -> bool) -> Option<
    PropMap,
> {
    match props {
        Some(m) => Some(m.restrict(Set::new(accepts))),
        None => None,
    }
}

/// Every property of the property table, each present or absent.
#[derive(Debug, Clone, PartialEq)]
pub struct Properties {
    pub payload_format_indicator: Option<u8>,
    pub message_expiry_interval: Option<u32>,
    pub content_type: Option<String>,
    pub response_topic: Option<String>,
    pub correlation_data: Option<Vec<u8>>,
    pub subscription_identifier: Option<u32>,
    pub session_expiry_interval: Option<u32>,
    pub assigned_client_identifier: Option<String>,
    pub server_keep_alive: Option<u16>,
    pub authentication_method: Option<String>,
    pub authentication_data: Option<Vec<u8>>,
    pub request_problem_info: Option<u8>,
    pub will_delay_interval: Option<u32>,
    pub request_response_info: Option<u8>,
    pub response_info: Option<String>,
    pub server_info: Option<String>,
    pub reason_string: Option<String>,
    pub receive_maximum: Option<u16>,
    pub topic_alias_maximum: Option<u16>,
    pub topic_alias: Option<u16>,
    pub maximum_qos: Option<u8>,
    pub retain_available: Option<u8>,
    pub user_property: Option<(String, String)>,
    pub maximum_packet_size: Option<u32>,
    pub wildcard_subscription_available: Option<u8>,
    pub subscription_identifier_available: Option<u8>,
    pub shared_subscription_available: Option<u8>,
}

impl PropertySource for Properties {
    open spec fn accepts(id: u8) -> bool {
        kind_of(id) is Some
    }

    open spec fn get(&self, id: u8) -> Option<PropValue> {
        self.lookup(id)
    }

    proof fn lemma_typed(&self) {
    }

    fn value_of(&self, id: u8) -> (r: Option<ValueRef<'_>>) {
        self.find(id)
    }

    fn from_properties(p: Properties) -> (r: Properties) {
        p
    }
}

impl Properties {
    /// The value that the record holds for `id`, if any.
    pub open spec fn lookup(&self, id: u8) -> Option<PropValue> {
        if id == 1 {
            byte_value(self.payload_format_indicator)
        } else if id == 2 {
            four_value(self.message_expiry_interval)
        } else if id == 3 {
            text_value(self.content_type)
        } else if id == 8 {
            text_value(self.response_topic)
        } else if id == 9 {
            blob_value(self.correlation_data)
        } else if id == 11 {
            varint_value(self.subscription_identifier)
        } else if id == 17 {
            four_value(self.session_expiry_interval)
        } else if id == 18 {
            text_value(self.assigned_client_identifier)
        } else if id == 19 {
            two_value(self.server_keep_alive)
        } else if id == 21 {
            text_value(self.authentication_method)
        } else if id == 22 {
            blob_value(self.authentication_data)
        } else if id == 23 {
            byte_value(self.request_problem_info)
        } else if id == 24 {
            four_value(self.will_delay_interval)
        } else if id == 25 {
            byte_value(self.request_response_info)
        } else if id == 26 {
            text_value(self.response_info)
        } else if id == 28 {
            text_value(self.server_info)
        } else if id == 31 {
            text_value(self.reason_string)
        } else if id == 33 {
            two_value(self.receive_maximum)
        } else if id == 34 {
            two_value(self.topic_alias_maximum)
        } else if id == 35 {
            two_value(self.topic_alias)
        } else if id == 36 {
            byte_value(self.maximum_qos)
        } else if id == 37 {
            byte_value(self.retain_available)
        } else if id == 38 {
            pair_value(self.user_property)
        } else if id == 39 {
            four_value(self.maximum_packet_size)
        } else if id == 40 {
            byte_value(self.wildcard_subscription_available)
        } else if id == 41 {
            byte_value(self.subscription_identifier_available)
        } else if id == 42 {
            byte_value(self.shared_subscription_available)
        } else {
            None
        }
    }

    /// The value that the record holds for `id`, if any.
    pub fn find(&self, id: u8) -> (r: Option<ValueRef<'_>>)
        ensures
            value_ref_view(r) == self.lookup(id),
    {
        match id {
            1 => byte_ref(&self.payload_format_indicator),
            2 => four_ref(&self.message_expiry_interval),
            3 => text_ref(&self.content_type),
            8 => text_ref(&self.response_topic),
            9 => blob_ref(&self.correlation_data),
            11 => varint_ref(&self.subscription_identifier),
            17 => four_ref(&self.session_expiry_interval),
            18 => text_ref(&self.assigned_client_identifier),
            19 => two_ref(&self.server_keep_alive),
            21 => text_ref(&self.authentication_method),
            22 => blob_ref(&self.authentication_data),
            23 => byte_ref(&self.request_problem_info),
            24 => four_ref(&self.will_delay_interval),
            25 => byte_ref(&self.request_response_info),
            26 => text_ref(&self.response_info),
            28 => text_ref(&self.server_info),
            31 => text_ref(&self.reason_string),
            33 => two_ref(&self.receive_maximum),
            34 => two_ref(&self.topic_alias_maximum),
            35 => two_ref(&self.topic_alias),
            36 => byte_ref(&self.maximum_qos),
            37 => byte_ref(&self.retain_available),
            38 => pair_ref(&self.user_property),
            39 => four_ref(&self.maximum_packet_size),
            40 => byte_ref(&self.wildcard_subscription_available),
            41 => byte_ref(&self.subscription_identifier_available),
            42 => byte_ref(&self.shared_subscription_available),
            _ => None,
        }
    }

    /// The record that holds no property.
    pub fn new() -> (p: Properties)
        ensures
            prop_map(&p) == Map::<u8, PropValue>::empty(),
    {
        let p = Properties {
            payload_format_indicator: None,
            message_expiry_interval: None,
            content_type: None,
            response_topic: None,
            correlation_data: None,
            subscription_identifier: None,
            session_expiry_interval: None,
            assigned_client_identifier: None,
            server_keep_alive: None,
            authentication_method: None,
            authentication_data: None,
            request_problem_info: None,
            will_delay_interval: None,
            request_response_info: None,
            response_info: None,
            server_info: None,
            reason_string: None,
            receive_maximum: None,
            topic_alias_maximum: None,
            topic_alias: None,
            maximum_qos: None,
            retain_available: None,
            user_property: None,
            maximum_packet_size: None,
            wildcard_subscription_available: None,
            subscription_identifier_available: None,
            shared_subscription_available: None,
        };
        assert(prop_map(&p) =~= Map::<u8, PropValue>::empty());
        p
    }

    /// Whether the record holds a value for `id`.
    pub fn has(&self, id: u8) -> (b: bool)
        ensures
            b == prop_map(self).contains_key(id),
    {
        self.value_of(id).is_some()
    }

    /// Stores `value` as the property `id`.
    pub fn set(&mut self, id: u8, value: Value)
        requires
            kind_of(id) == Some(value@.kind()),
        ensures
            prop_map(final(self)) == prop_map(old(self)).insert(id, value@),
    {
        match value {
            Value::Byte(b) => {
                match id {
                    1 => { self.payload_format_indicator = Some(b); },
                    23 => { self.request_problem_info = Some(b); },
                    25 => { self.request_response_info = Some(b); },
                    36 => { self.maximum_qos = Some(b); },
                    37 => { self.retain_available = Some(b); },
                    40 => { self.wildcard_subscription_available = Some(b); },
                    41 => { self.subscription_identifier_available = Some(b); },
                    _ => { self.shared_subscription_available = Some(b); },
                }
            },
            Value::Two(t) => {
                match id {
                    19 => { self.server_keep_alive = Some(t); },
                    33 => { self.receive_maximum = Some(t); },
                    34 => { self.topic_alias_maximum = Some(t); },
                    _ => { self.topic_alias = Some(t); },
                }
            },
            Value::Four(f) => {
                match id {
                    2 => { self.message_expiry_interval = Some(f); },
                    17 => { self.session_expiry_interval = Some(f); },
                    24 => { self.will_delay_interval = Some(f); },
                    _ => { self.maximum_packet_size = Some(f); },
                }
            },
            Value::VarInt(i) => { self.subscription_identifier = Some(i); },
            Value::Text(t) => {
                match id {
                    3 => { self.content_type = Some(t); },
                    8 => { self.response_topic = Some(t); },
                    18 => { self.assigned_client_identifier = Some(t); },
                    21 => { self.authentication_method = Some(t); },
                    26 => { self.response_info = Some(t); },
                    28 => { self.server_info = Some(t); },
                    _ => { self.reason_string = Some(t); },
                }
            },
            Value::Blob(b) => {
                match id {
                    9 => { self.correlation_data = Some(b); },
                    _ => { self.authentication_data = Some(b); },
                }
            },
            Value::Pair(k, v) => { self.user_property = Some((k, v)); },
        }
        assert(prop_map(self) =~= prop_map(old(self)).insert(id, value@));
    }
}

/// Reads a value of the given kind.
pub fn read_value(kind: Kind, cur: &mut Cursor) -> (r: Result<Value, Error>)
    requires
        old(cur).wf(),
    ensures
        match parse_value(kind, old(cur).rest()) {
            Ok((v, n)) => r matches Ok(value) && value@ == v && moved(*old(cur), *final(cur), n),
            Err(e) => r matches Err(x) && x == e && *final(cur) == *old(cur),
        },
{
    match kind {
        Kind::Byte => match cur.read_u8() {
            Ok(v) => Ok(Value::Byte(v)),
            Err(e) => Err(e),
        },
        Kind::Two => match cur.read_u16() {
            Ok(v) => Ok(Value::Two(v)),
            Err(e) => Err(e),
        },
        Kind::Four => match cur.read_u32() {
            Ok(v) => Ok(Value::Four(v)),
            Err(e) => Err(e),
        },
        Kind::VarInt => match cur.read_varint() {
            Ok(v) => Ok(Value::VarInt(v)),
            Err(e) => Err(e),
        },
        Kind::Text => match cur.read_text() {
            Ok(v) => Ok(Value::Text(v)),
            Err(e) => Err(e),
        },
        Kind::Blob => match cur.read_blob() {
            Ok(v) => Ok(Value::Blob(v)),
            Err(e) => Err(e),
        },
        Kind::Pair => match cur.read_pair() {
            Ok(v) => Ok(Value::Pair(v.0, v.1)),
            Err(e) => Err(e),
        },
    }
}

/// Reads the properties that fill `body` from start to end.
pub fn read_props(body: &[u8]) -> (r: Result<Properties, Error>)
    ensures
        match parse_props(body@, Map::empty()) {
            Ok(m) => r matches Ok(p) && prop_map(&p) == m,
            Err(e) => r matches Err(x) && x == e,
        },
{
    let mut props = Properties::new();
    let mut cur = Cursor::new(body);
    while cur.remaining() > 0
        invariant
            cur.wf(),
            cur.buf == body,
            parse_props(body@, Map::empty()) == parse_props(cur.rest(), prop_map(&props)),
        decreases cur.rest().len(),
    {
        let ghost before = cur;
        let id: u8 = match cur.read_u8() {
            Ok(id) => id,
            Err(e) => { return Err(e); },
        };
        let kind = match wire_kind(id) {
            Some(kind) => kind,
            None => { return Err(Error::InvalidProperty); },
        };
        let value = match read_value(kind, &mut cur) {
            Ok(value) => value,
            Err(e) => { return Err(e); },
        };
        proof {
            let n = cur.pos - before.pos;
            assert(cur.rest() =~= before.rest().skip(n));
        }
        if !props.has(id) {
            props.set(id, value);
        } else if id != PropertyIdentifiers::USER_PROPERTY {
            return Err(Error::InvalidProperty);
        }
    }
    Ok(props)
}

/// Reads a property block: its length and the properties that fill it.
pub fn read_block(cur: &mut Cursor) -> (r: Result<Option<Properties>, Error>)
    requires
        old(cur).wf(),
    ensures
        match parse_block(old(cur).rest()) {
            Ok((m, n)) => r matches Ok(p) && opt_prop_map(&p) == m && moved(
                *old(cur),
                *final(cur),
                n,
            ),
            Err(e) => r matches Err(x) && x == e && *final(cur) == *old(cur),
        },
{
    proof {
        reveal(parse_block);
    }
    let start: usize = cur.pos;
    let len: u32 = match cur.read_varint() {
        Ok(len) => len,
        Err(e) => { return Err(e); },
    };
    if len == 0 {
        return Ok(None);
    }
    if cur.remaining() < len as usize {
        cur.pos = start;
        return Err(Error::BoundaryCrossed);
    }
    let ghost mid = *cur;
    let body = cur.take(len as usize);
    proof {
        let n = mid.pos - start;
        assert(body@ =~= old(cur).rest().subrange(n, n + len));
        assert(cur.rest() =~= old(cur).rest().skip(n + len));
    }
    match read_props(body) {
        Ok(props) => Ok(Some(props)),
        Err(e) => {
            cur.pos = start;
            Err(e)
        },
    }
}

/// Reads a property block from the front of `stream` and moves the stream
/// past it. Where the block cannot be read the stream stays as it was.
pub fn extract_properties(stream: &mut Bytes) -> (r: Result<Option<Properties>, Error>)
    ensures
        match parse_block(bytes_seq(*old(stream))) {
            Ok((m, n)) => r matches Ok(p) && opt_prop_map(&p) == m && bytes_seq(*final(stream))
                == bytes_seq(*old(stream)).skip(n),
            Err(e) => r matches Err(x) && x == e && bytes_seq(*final(stream)) == bytes_seq(
                *old(stream),
            ),
        },
{
    let mut cur = Cursor::new(bytes_as_slice(stream));
    let r = read_block(&mut cur);
    let used: usize = cur.pos;
    match r {
        Ok(props) => {
            bytes_advance(stream, used);
            Ok(props)
        },
        Err(e) => Err(e),
    }
}

/// Appends a value. A value that does not fit its length prefix is too
/// long, and nothing is said of `out` after it.
pub fn put_value(out: &mut Vec<u8>, value: ValueRef) -> (r: Result<(), Error>)
    ensures
        match r {
            Ok(()) => value@.fits() && final(out)@ == old(out)@ + ser_value(value@),
            Err(e) => e == Error::PayloadTooLong && !value@.fits(),
        },
{
    match value {
        ValueRef::Byte(b) => put_u8(out, b),
        ValueRef::Two(t) => put_u16(out, t),
        ValueRef::Four(f) => put_u32(out, f),
        ValueRef::VarInt(i) => {
            if i > MAX_VARBYTE {
                return Err(Error::PayloadTooLong);
            }
            put_varbyte(out, i);
        },
        ValueRef::Text(t) => {
            if t.as_bytes().len() > MAX_LEN16 {
                return Err(Error::PayloadTooLong);
            }
            put_text(out, t);
        },
        ValueRef::Blob(b) => {
            if b.len() > MAX_LEN16 {
                return Err(Error::PayloadTooLong);
            }
            put_blob(out, b);
        },
        ValueRef::Pair(k, v) => {
            if k.as_bytes().len() > MAX_LEN16 || v.as_bytes().len() > MAX_LEN16 {
                return Err(Error::PayloadTooLong);
            }
            put_pair(out, k, v);
        },
    }
    Ok(())
}

/// Whether the record holds any property at all.
pub fn holds_any<P: PropertySource>(record: &P) -> (b: bool)
    ensures
        b == holds_some(prop_map(record)),
{
    let mut id: u8 = 0;
    while id <= LAST_IDENTIFIER
        invariant
            id <= LAST_IDENTIFIER + 1,
            forall|k: u8| k < id ==> !prop_map(record).contains_key(k),
        decreases LAST_IDENTIFIER + 1 - id,
    {
        if record.value_of(id).is_some() {
            assert(prop_map(record).contains_key(id));
            return true;
        }
        id = id + 1;
    }
    proof {
        record.lemma_typed();
        assert forall|k: u8| !prop_map(record).contains_key(k) by {
            if record.get(k) is Some {
                assert(kind_of(k) is Some);
            }
        }
    }
    false
}

/// Appends the properties of a record, in the order of their identifiers.
/// A value that does not fit its length prefix is too long, and nothing is
/// said of `out` after it.
pub fn write_props<P: PropertySource>(out: &mut Vec<u8>, record: &P) -> (r: Result<(), Error>)
    ensures
        match r {
            Ok(()) => props_typed(prop_map(record)) && final(out)@ == old(out)@ + ser_props(
                prop_map(record),
            ),
            Err(e) => e == Error::PayloadTooLong && !props_typed(prop_map(record)),
        },
{
    let ghost m = prop_map(record);
    let mut id: u8 = 0;
    while id <= LAST_IDENTIFIER
        invariant
            m == prop_map(record),
            id <= LAST_IDENTIFIER + 1,
            out@ + ser_props_from(m, id as int) == old(out)@ + ser_props(m),
            forall|k: u8| k < id && m.contains_key(k) ==> m[k].fits(),
        decreases LAST_IDENTIFIER + 1 - id,
    {
        let ghost before = out@;
        match record.value_of(id) {
            Some(value) => {
                put_u8(out, id);
                match put_value(out, value) {
                    Ok(()) => {},
                    Err(e) => {
                        assert(m.contains_key(id) && !m[id].fits());
                        return Err(e);
                    },
                }
                assert(out@ =~= before + ser_entry(m, id));
            },
            None => {
                assert(ser_entry(m, id) =~= Seq::<u8>::empty());
            },
        }
        assert(out@ + ser_props_from(m, id + 1) =~= before + ser_props_from(m, id as int));
        id = id + 1;
    }
    proof {
        record.lemma_typed();
        assert forall|k: u8| #[trigger] m.contains_key(k) implies kind_of(k) == Some(m[k].kind())
            && m[k].fits() by {
            assert(record.get(k) is Some);
        }
        assert(out@ =~= old(out)@ + ser_props(m));
    }
    Ok(())
}

/// An optional property set can be written: the values of a set that is
/// present fit, and so does the length of the block.
pub open spec fn block_writable(props: Option<PropMap>) -> bool {
    match props {
        None => true,
        Some(m) => props_fit(m),
    }
}

/// An optional property set reads back as itself: a set that is present
/// holds at least one property.
pub open spec fn block_canonical(props: Option<PropMap>) -> bool {
    match props {
        None => true,
        Some(m) => holds_some(m),
    }
}

/// Whether an optional record is absent or holds a property.
pub fn is_canonical<P: PropertySource>(record: &Option<P>) -> (b: bool)
    ensures
        b == block_canonical(opt_prop_map(record)),
{
    match record {
        None => true,
        Some(r) => holds_any(r),
    }
}

/// Appends the property block of an optional record: the length of the
/// properties and the properties. A block that cannot be written is too
/// long, and nothing is said of `out` after it.
pub fn write_block<P: PropertySource>(out: &mut Vec<u8>, record: &Option<P>) -> (r: Result<
    (),
    Error,
>)
    ensures
        match r {
            Ok(()) => block_writable(opt_prop_map(record)) && final(out)@ == old(out)@
                + ser_block(opt_prop_map(record)),
            Err(e) => e == Error::PayloadTooLong && !block_writable(opt_prop_map(record)),
        },
{
    proof {
        reveal(ser_block);
    }
    match record {
        None => {
            put_varbyte(out, 0);
            Ok(())
        },
        Some(rec) => {
            let mut body: Vec<u8> = Vec::new();
            match write_props(&mut body, rec) {
                Ok(()) => {},
                Err(e) => { return Err(e); },
            }
            assert(body@ =~= ser_props(prop_map(rec)));
            if body.len() > MAX_VARBYTE as usize {
                return Err(Error::PayloadTooLong);
            }
            let ghost before = out@;
            put_varbyte(out, body.len() as u32);
            put_bytes(out, body.as_slice());
            assert(out@ =~= before + ser_block(opt_prop_map(record)));
            Ok(())
        },
    }
}

// ---------------------------------------------------------------------------
// Laws
// ---------------------------------------------------------------------------

pub proof fn lemma_value_round_trip(v: PropValue, rest: Seq<u8>)
    requires
        v.fits(),
    ensures
        parse_value(v.kind(), ser_value(v) + rest) == Ok::<(PropValue, int), Error>(
            (v, ser_value(v).len() as int),
        ),
        (ser_value(v) + rest).skip(ser_value(v).len() as int) == rest,
{
    match v {
        PropValue::Byte(b) => lemma_u8_round_trip(b, rest),
        PropValue::Two(t) => lemma_u16_round_trip(t, rest),
        PropValue::Four(f) => lemma_u32_round_trip(f, rest),
        PropValue::VarInt(i) => {
            lemma_varbyte_round_trip(i as nat, rest);
            assert((ser_value(v) + rest).skip(ser_value(v).len() as int) =~= rest);
        },
        PropValue::Text(t) => lemma_text_round_trip(t, rest),
        PropValue::Blob(b) => lemma_blob_round_trip(b, rest),
        PropValue::Pair(k, w) => lemma_pair_round_trip((k, w), rest),
    }
}

pub proof fn lemma_prop_round_trip(id: u8, v: PropValue, rest: Seq<u8>)
    requires
        kind_of(id) == Some(v.kind()),
        v.fits(),
    ensures
        parse_prop(ser_prop(id, v) + rest) == Ok::<((u8, PropValue), int), Error>(
            ((id, v), ser_prop(id, v).len() as int),
        ),
        (ser_prop(id, v) + rest).skip(ser_prop(id, v).len() as int) == rest,
        ser_prop(id, v).len() > 0,
{
    let all = ser_prop(id, v) + rest;
    assert(all.skip(1) =~= ser_value(v) + rest);
    lemma_value_round_trip(v, rest);
    assert(all.skip(ser_prop(id, v).len() as int) =~= rest);
}

/// The properties of `m` below `bound`.
pub open spec fn below(m: PropMap, bound: int) -> PropMap {
    m.restrict(Set::new(|id: u8| id < bound))
}

/// Reading the properties of `m` from `from` up, after those below `from`
/// were seen, gives `m`.
pub proof fn lemma_props_round_trip_from(m: PropMap, from: int)
    requires
        props_typed(m),
        0 <= from <= LAST_IDENTIFIER + 1,
    ensures
        parse_props(ser_props_from(m, from), below(m, from)) == Ok::<PropMap, Error>(m),
    decreases LAST_IDENTIFIER + 1 - from,
{
    if from > LAST_IDENTIFIER {
        assert forall|id: u8| m.contains_key(id) implies id < from by {
            assert(kind_of(id) is Some);
        }
        assert(below(m, from) =~= m);
    } else {
        let id = from as u8;
        let rest = ser_props_from(m, from + 1);
        lemma_props_round_trip_from(m, from + 1);
        if m.contains_key(id) {
            lemma_prop_round_trip(id, m[id], rest);
            assert(!below(m, from).contains_key(id));
            assert(below(m, from).insert(id, m[id]) =~= below(m, from + 1));
        } else {
            assert(ser_props_from(m, from) =~= rest);
            assert(below(m, from) =~= below(m, from + 1));
        }
    }
}

/// A property block that was written reads back as the set it was written
/// from.
pub proof fn lemma_block_round_trip(props: Option<PropMap>, rest: Seq<u8>)
    requires
        block_fits(props),
    ensures
        parse_block(ser_block(props) + rest) == Ok::<(Option<PropMap>, int), Error>(
            (props, ser_block(props).len() as int),
        ),
        (ser_block(props) + rest).skip(ser_block(props).len() as int) == rest,
        ser_block(props).len() >= 1,
{
    reveal(ser_block);
    reveal(parse_block);
    crate::codec::primitives::lemma_ser_varbyte_cases(0);
    if let Some(m) = props {
        crate::codec::primitives::lemma_ser_varbyte_cases(ser_props(m).len());
    }
    let all = ser_block(props) + rest;
    assert(all.skip(ser_block(props).len() as int) =~= rest);
    match props {
        None => {
            lemma_varbyte_round_trip(0, rest);
        },
        Some(m) => {
            let body = ser_props(m);
            lemma_varbyte_round_trip(body.len(), body + rest);
            assert(all =~= ser_varbyte(body.len()) + (body + rest));
            let n = ser_varbyte(body.len()).len() as int;
            assert(all.subrange(n, n + body.len()) =~= body);
            lemma_props_round_trip_from(m, 0);
            assert(below(m, 0) =~= Map::<u8, PropValue>::empty());
            let some = choose|id: u8| m.contains_key(id);
            assert(m.contains_key(some) && some >= 0);
            lemma_props_nonempty(m, 0);
        },
    }
}

/// A set that holds a property at or above `from` has bytes there.
pub proof fn lemma_props_nonempty(m: PropMap, from: int)
    requires
        props_typed(m),
        0 <= from <= LAST_IDENTIFIER + 1,
        exists|id: u8| m.contains_key(id) && id >= from,
    ensures
        ser_props_from(m, from).len() > 0,
    decreases LAST_IDENTIFIER + 1 - from,
{
    let id = choose|id: u8| m.contains_key(id) && id >= from;
    assert(kind_of(id) is Some);
    if m.contains_key(from as u8) {
    } else {
        lemma_props_nonempty(m, from + 1);
    }
}

} // verus!

verus! {

/// The properties of `m` with identifiers from `from` up to, but not
/// including, `to`, in the order of their identifiers.
pub open spec fn ser_props_range(m: PropMap, from: int, to: int) -> Seq<u8>
    decreases to - from,
{
    if from < 0 || from >= to || from > LAST_IDENTIFIER {
        Seq::empty()
    } else {
        ser_entry(m, from as u8) + ser_props_range(m, from + 1, to)
    }
}

/// The properties from `from` up are those below `mid` followed by those
/// from `mid` up.
pub proof fn lemma_props_split(m: PropMap, from: int, mid: int)
    requires
        0 <= from <= mid,
    ensures
        ser_props_from(m, from) == ser_props_range(m, from, mid) + ser_props_from(m, mid),
    decreases mid - from,
{
    if from > LAST_IDENTIFIER {
        lemma_props_from_beyond(m, mid);
        assert(ser_props_from(m, from) =~= ser_props_range(m, from, mid) + ser_props_from(m, mid));
    } else if from == mid {
        assert(ser_props_from(m, from) =~= ser_props_range(m, from, mid) + ser_props_from(m, mid));
    } else {
        lemma_props_split(m, from + 1, mid);
        assert(ser_props_from(m, from) =~= ser_props_range(m, from, mid) + ser_props_from(m, mid));
    }
}

/// Beyond the last identifier of the table there is nothing to write.
pub proof fn lemma_props_from_beyond(m: PropMap, from: int)
    requires
        from > LAST_IDENTIFIER,
    ensures
        ser_props_from(m, from) == Seq::<u8>::empty(),
{
}

/// Properties are written in the order of their identifiers: of two
/// properties that a set holds, the one with the smaller identifier stands
/// first in the bytes, whatever else the set holds.
pub proof fn lemma_properties_in_identifier_order(m: PropMap, a: u8, b: u8)
    requires
        m.contains_key(a),
        m.contains_key(b),
        a < b <= LAST_IDENTIFIER,
    ensures
        ser_props(m) == ser_props_range(m, 0, a as int) + ser_prop(a, m[a]) + ser_props_range(
            m,
            a + 1,
            b as int,
        ) + ser_prop(b, m[b]) + ser_props_from(m, b + 1),
{
    lemma_props_split(m, 0, a as int);
    lemma_props_split(m, a + 1, b as int);
    assert(ser_props_from(m, a as int) == ser_prop(a, m[a]) + ser_props_from(m, a + 1));
    assert(ser_props_from(m, b as int) == ser_prop(b, m[b]) + ser_props_from(m, b + 1));
    assert(ser_props(m) =~= ser_props_range(m, 0, a as int) + ser_prop(a, m[a])
        + ser_props_range(m, a + 1, b as int) + ser_prop(b, m[b]) + ser_props_from(m, b + 1));
}

} // verus!
