//! AUTH: a step of an extended authentication.
use vstd::prelude::*;
use bytes::Bytes;
use crate::codec::buffer::bytes_seq;
use crate::codec::error::Error;
use crate::codec::frame::{body_slice, frame_body};
use crate::codec::header::FixedHeader;
use crate::codec::properties::{
    blob_ref, blob_value, opt_prop_map, pair_ref, pair_value, text_ref, text_value, PropValue,
    Properties, PropertySource, ValueRef,
};
use crate::codec::reason::{
    parse_reason, read_reason, reason_fits, ser_reason, write_reason, ReasonView,
};

verus! {

/// The properties that AUTH can carry.
#[derive(Debug, Clone, PartialEq)]
pub struct AuthProperties {
    pub authentication_method: Option<String>,
    pub authentication_data: Option<Vec<u8>>,
    pub reason_string: Option<String>,
    pub user_property: Option<(String, String)>,
}

impl PropertySource for AuthProperties {
    open spec fn accepts(id: u8) -> bool {
        id == 21 || id == 22 || id == 31 || id == 38
    }

    open spec fn get(&self, id: u8) -> Option<PropValue> {
        if id == 21 {
            text_value(self.authentication_method)
        } else if id == 22 {
            blob_value(self.authentication_data)
        } else if id == 31 {
            text_value(self.reason_string)
        } else if id == 38 {
            pair_value(self.user_property)
        } else {
            None
        }
    }

    proof fn lemma_typed(&self) {
    }

    fn value_of(&self, id: u8) -> (r: Option<ValueRef<'_>>) {
        match id {
            21 => text_ref(&self.authentication_method),
            22 => blob_ref(&self.authentication_data),
            31 => text_ref(&self.reason_string),
            38 => pair_ref(&self.user_property),
            _ => None,
        }
    }

    fn from_properties(p: Properties) -> (r: AuthProperties) {
        AuthProperties {
            authentication_method: p.authentication_method,
            authentication_data: p.authentication_data,
            reason_string: p.reason_string,
            user_property: p.user_property,
        }
    }
}

/// A step of an extended authentication.
#[derive(Debug, Clone, PartialEq)]
pub struct Auth {
    pub reason_code: u8,
    pub properties: Option<AuthProperties>,
}

impl View for Auth {
    type V = ReasonView;

    open spec fn view(&self) -> ReasonView {
        ReasonView { reason_code: self.reason_code, properties: opt_prop_map(&self.properties) }
    }
}

impl Auth {
    /// The packet that `body` holds.
    pub open spec fn parse(body: Seq<u8>) -> Result<ReasonView, Error> {
        parse_reason(body, |id: u8| AuthProperties::accepts(id))
    }

    /// Reads the packet from its frame: the fixed header as it was read,
    /// and the bytes of the whole packet.
    pub fn assemble(fixed_header: FixedHeader, bytes: Bytes) -> (r: Result<Auth, Error>)
        ensures
            match frame_body(fixed_header, bytes_seq(bytes)) {
                Err(e) => r matches Err(x) && x == e,
                Ok(body) => match Self::parse(body) {
                    Ok(v) => r matches Ok(p) && p@ == v,
                    Err(e) => r matches Err(x) && x == e,
                },
            },
    {
        let body = match body_slice(fixed_header, &bytes) {
            Ok(body) => body,
            Err(e) => { return Err(e); },
        };
        match read_reason::<AuthProperties>(body) {
            Ok((reason_code, properties)) => Ok(Auth { reason_code, properties }),
            Err(e) => Err(e),
        }
    }

    /// Appends the body of the packet. One that cannot be written is too
    /// long, and nothing is said of `out` after it.
    pub fn write(&self, out: &mut Vec<u8>) -> (r: Result<(), Error>)
        ensures
            match r {
                Ok(()) => reason_fits(self@) && final(out)@ == old(out)@ + ser_reason(self@),
                Err(e) => e == Error::PayloadTooLong && !reason_fits(self@),
            },
    {
        write_reason(out, self.reason_code, &self.properties)
    }
}

} // verus!
