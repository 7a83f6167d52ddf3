//! PUBREC: The first answer to a publish at quality of service 2: the publish was received.
use vstd::prelude::*;
use bytes::Bytes;
use crate::codec::ack::{parse_ack, read_ack, write_ack, AckView};
use crate::codec::buffer::bytes_seq;
use crate::codec::error::Error;
use crate::codec::frame::{body_slice, frame_body};
use crate::codec::header::FixedHeader;
use crate::codec::properties::{
    opt_prop_map, pair_ref, pair_value, text_ref, text_value, PropValue, Properties,
    PropertySource, ValueRef,
};

verus! {

/// The properties that a PUBREC can carry.
#[derive(Debug, Clone, PartialEq)]
pub struct PubRecProperties {
    pub reason_string: Option<String>,
    pub user_property: Option<(String, String)>,
}

impl PropertySource for PubRecProperties {
    open spec fn accepts(id: u8) -> bool {
        id == 31 || id == 38
    }

    open spec fn get(&self, id: u8) -> Option<PropValue> {
        if id == 31 {
            text_value(self.reason_string)
        } else if id == 38 {
            pair_value(self.user_property)
        } else {
            None
        }
    }

    proof fn lemma_typed(&self) {
    }

    fn value_of(&self, id: u8) -> (r: Option<ValueRef<'_>>) {
        match id {
            31 => text_ref(&self.reason_string),
            38 => pair_ref(&self.user_property),
            _ => None,
        }
    }

    fn from_properties(p: Properties) -> (r: PubRecProperties) {
        PubRecProperties {
            reason_string: p.reason_string,
            user_property: p.user_property,
        }
    }
}

/// The first answer to a publish at quality of service 2: the publish was received.
#[derive(Debug, Clone, PartialEq)]
pub struct PubRec {
    pub pkid: u16,
    pub reason_code: u8,
    pub properties: Option<PubRecProperties>,
}

impl View for PubRec {
    type V = AckView;

    open spec fn view(&self) -> AckView {
        AckView {
            pkid: self.pkid,
            reason_code: self.reason_code,
            properties: opt_prop_map(&self.properties),
        }
    }
}

impl PubRec {
    /// The PUBREC that `body` holds.
    pub open spec fn parse(body: Seq<u8>) -> Result<AckView, Error> {
        parse_ack(body, |id: u8| PubRecProperties::accepts(id))
    }

    /// Reads a PUBREC from its frame: the fixed header as it was read, and
    /// the bytes of the whole packet.
    pub fn assemble(fixed_header: FixedHeader, bytes: Bytes) -> (r: Result<PubRec, Error>)
        ensures
            match frame_body(fixed_header, bytes_seq(bytes)) {
                Err(e) => r matches Err(x) && x == e,
                Ok(body) => match Self::parse(body) {
                    Ok(v) => r matches Ok(p) && p@ == v,
                    Err(e) => r matches Err(x) && x == e,
                },
            },
    {
        let body = match body_slice(fixed_header, &bytes) {
            Ok(body) => body,
            Err(e) => { return Err(e); },
        };
        match read_ack::<PubRecProperties>(body) {
            Ok((pkid, reason_code, properties)) => Ok(PubRec { pkid, reason_code, properties }),
            Err(e) => Err(e),
        }
    }

    /// Appends the body of the packet. One that cannot be written is too
    /// long, and nothing is said of `out` after it.
    pub fn write(&self, out: &mut Vec<u8>) -> (r: Result<(), Error>)
        ensures
            match r {
                Ok(()) => crate::codec::ack::ack_fits(self@) && final(out)@ == old(out)@
                    + crate::codec::ack::ser_ack(self@),
                Err(e) => e == Error::PayloadTooLong && !crate::codec::ack::ack_fits(self@),
            },
    {
        write_ack(out, self.pkid, self.reason_code, &self.properties)
    }
}

impl PubRec {
    /// A PUBREC for the packet identifier `pkid`, with the reason code 0 and
    /// without properties.
    pub fn new(pkid: u16) -> (p: PubRec)
        ensures
            p.pkid == pkid,
            p.reason_code == 0,
            p.properties is None,
    {
        PubRec { pkid, reason_code: 0, properties: None }
    }
}

} // verus!
