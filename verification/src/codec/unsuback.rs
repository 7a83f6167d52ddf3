//! UNSUBACK: the answer to an UNSUBSCRIBE.
//!
//! The body holds the packet identifier and, where it goes on, a property
//! block and one reason code for each filter of the UNSUBSCRIBE. A body of
//! exactly two bytes is the form of version 3.1.1.
use vstd::prelude::*;
use bytes::Bytes;
use crate::codec::buffer::bytes_seq;
use crate::codec::cursor::Cursor;
use crate::codec::error::Error;
use crate::codec::frame::{body_slice, frame_body};
use crate::codec::header::FixedHeader;
use crate::codec::primitives::{lemma_u16_round_trip, parse_u16, ser_u16};
use crate::codec::properties::{
    block_canonical, block_writable, is_canonical, lemma_block_round_trip, lemma_project_within,
    lemma_record_within, narrow, opt_prop_map, pair_ref, pair_value, parse_block, project,
    props_within, read_block, ser_block, text_ref, text_value, write_block, PropMap, PropValue,
    Properties, PropertySource, ValueRef,
};
use crate::codec::writer::{put_bytes, put_u16};

verus! {

/// The properties that an UNSUBACK can carry.
#[derive(Debug, Clone, PartialEq)]
pub struct UnsubAckProperties {
    pub reason_string: Option<String>,
    pub user_property: Option<(String, String)>,
}

impl PropertySource for UnsubAckProperties {
    open spec fn accepts(id: u8) -> bool {
        id == 31 || id == 38
    }

    open spec fn get(&self, id: u8) -> Option<PropValue> {
        if id == 31 {
            text_value(self.reason_string)
        } else if id == 38 {
            pair_value(self.user_property)
        } else {
            None
        }
    }

    proof fn lemma_typed(&self) {
    }

    fn value_of(&self, id: u8) -> (r: Option<ValueRef<'_>>) {
        match id {
            31 => text_ref(&self.reason_string),
            38 => pair_ref(&self.user_property),
            _ => None,
        }
    }

    fn from_properties(p: Properties) -> (r: UnsubAckProperties) {
        UnsubAckProperties {
            reason_string: p.reason_string,
            user_property: p.user_property,
        }
    }
}

/// The answer to an UNSUBSCRIBE.
#[derive(Debug, Clone, PartialEq)]
pub struct UnsubAck {
    pub pkid: u16,
    pub reason_codes: Vec<u8>,
    pub properties: Option<UnsubAckProperties>,
}

/// An UNSUBACK, as a mathematical value.
pub struct UnsubAckView {
    pub pkid: u16,
    pub reason_codes: Seq<u8>,
    pub properties: Option<PropMap>,
}

impl View for UnsubAck {
    type V = UnsubAckView;

    open spec fn view(&self) -> UnsubAckView {
        UnsubAckView {
            pkid: self.pkid,
            reason_codes: self.reason_codes@,
            properties: opt_prop_map(&self.properties),
        }
    }
}

impl UnsubAckView {
    /// The body of the packet. Without properties and without reason codes
    /// it is written in its short form of two bytes.
    pub open spec fn ser_body(self) -> Seq<u8> {
        if self.properties is None && self.reason_codes.len() == 0 {
            ser_u16(self.pkid)
        } else {
            ser_u16(self.pkid) + ser_block(self.properties) + self.reason_codes
        }
    }

    /// The packet reads back as itself once written.
    pub open spec fn canonical(self) -> bool {
        block_canonical(self.properties) && props_within(
            self.properties,
            |id: u8| UnsubAckProperties::accepts(id),
        )
    }

    /// The fields of the packet can be written.
    pub open spec fn fits(self) -> bool {
        block_writable(self.properties)
    }
}

impl UnsubAck {
    /// The UNSUBACK that `body` holds.
    pub open spec fn parse(body: Seq<u8>) -> Result<UnsubAckView, Error> {
        match parse_u16(body) {
            Err(_) => Err(Error::PayloadSizeIncorrect),
            Ok((pkid, _)) => if body.len() == 2 {
                Ok(UnsubAckView { pkid, reason_codes: Seq::empty(), properties: None })
            } else {
                match parse_block(body.skip(2)) {
                    Err(e) => Err(e),
                    Ok((props, n)) => Ok(
                        UnsubAckView {
                            pkid,
                            reason_codes: body.skip(2 + n),
                            properties: project(props, |id: u8| UnsubAckProperties::accepts(id)),
                        },
                    ),
                }
            },
        }
    }

    /// Reads an UNSUBACK from its frame: the fixed header as it was read,
    /// and the bytes of the whole packet.
    pub fn assemble(fixed_header: FixedHeader, bytes: Bytes) -> (r: Result<UnsubAck, Error>)
        ensures
            match frame_body(fixed_header, bytes_seq(bytes)) {
                Err(e) => r matches Err(x) && x == e,
                Ok(body) => match Self::parse(body) {
                    Ok(v) => r matches Ok(p) && p@ == v,
                    Err(e) => r matches Err(x) && x == e,
                },
            },
    {
        let body = match body_slice(fixed_header, &bytes) {
            Ok(body) => body,
            Err(e) => { return Err(e); },
        };
        let mut cur = Cursor::new(body);
        let pkid: u16 = match cur.read_u16() {
            Ok(pkid) => pkid,
            Err(_) => { return Err(Error::PayloadSizeIncorrect); },
        };
        if cur.remaining() == 0 {
            return Ok(UnsubAck { pkid, reason_codes: Vec::new(), properties: None });
        }
        let props = match read_block(&mut cur) {
            Ok(props) => props,
            Err(e) => { return Err(e); },
        };
        let ghost n = cur.pos - 2;
        assert(cur.rest() =~= body@.skip(2 + n));
        let rest = cur.take(cur.remaining());
        let reason_codes = vstd::slice::slice_to_vec(rest);
        assert(reason_codes@ =~= body@.skip(2 + n));
        Ok(UnsubAck { pkid, reason_codes, properties: narrow(props) })
    }

    /// Whether the packet reads back as itself once written.
    pub fn is_canonical(&self) -> (b: bool)
        ensures
            b == self@.canonical(),
    {
        proof {
            lemma_record_within(&self.properties);
        }
        is_canonical(&self.properties)
    }

    /// Appends the body of the packet. One that cannot be written is too
    /// long, and nothing is said of `out` after it.
    pub fn write(&self, out: &mut Vec<u8>) -> (r: Result<(), Error>)
        ensures
            match r {
                Ok(()) => self@.fits() && final(out)@ == old(out)@ + self@.ser_body(),
                Err(e) => e == Error::PayloadTooLong && !self@.fits(),
            },
    {
        put_u16(out, self.pkid);
        if self.properties.is_none() && self.reason_codes.len() == 0 {
            return Ok(());
        }
        match write_block(out, &self.properties) {
            Ok(()) => {},
            Err(e) => { return Err(e); },
        }
        put_bytes(out, self.reason_codes.as_slice());
        assert(out@ =~= old(out)@ + self@.ser_body());
        Ok(())
    }
}

/// An UNSUBACK that was written reads back as itself.
pub proof fn lemma_unsuback_round_trip(v: UnsubAckView)
    requires
        v.canonical(),
        v.fits(),
    ensures
        UnsubAck::parse(v.ser_body()) == Ok::<UnsubAckView, Error>(v),
        v.ser_body().len() >= 2,
{
    let body = v.ser_body();
    if v.properties is None && v.reason_codes.len() == 0 {
        lemma_u16_round_trip(v.pkid, Seq::empty());
        assert(body =~= ser_u16(v.pkid) + Seq::<u8>::empty());
        assert(v.reason_codes =~= Seq::<u8>::empty());
    } else {
        let rest1 = ser_block(v.properties) + v.reason_codes;
        let n = ser_block(v.properties).len() as int;
        assert(body =~= ser_u16(v.pkid) + rest1);
        lemma_u16_round_trip(v.pkid, rest1);
        lemma_block_round_trip(v.properties, v.reason_codes);
        assert(body.skip(2 + n) =~= body.skip(2).skip(n));
        lemma_project_within(v.properties, |id: u8| UnsubAckProperties::accepts(id));
    }
}

} // verus!
