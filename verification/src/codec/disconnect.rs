//! DISCONNECT: the last packet of a connection that ends in order.
use vstd::prelude::*;
use bytes::Bytes;
use crate::codec::buffer::bytes_seq;
use crate::codec::error::Error;
use crate::codec::frame::{body_slice, frame_body};
use crate::codec::header::FixedHeader;
use crate::codec::properties::{
    four_ref, four_value, opt_prop_map, pair_ref, pair_value, text_ref, text_value, PropValue,
    Properties, PropertySource, ValueRef,
};
use crate::codec::reason::{
    parse_reason, read_reason, reason_fits, ser_reason, write_reason, ReasonView,
};

verus! {

/// The properties that DISCONNECT can carry.
#[derive(Debug, Clone, PartialEq)]
pub struct DisconnectProperties {
    pub session_expiry_interval: Option<u32>,
    pub reason_string: Option<String>,
    pub user_property: Option<(String, String)>,
    pub server_reference: Option<String>,
}

impl PropertySource for DisconnectProperties {
    open spec fn accepts(id: u8) -> bool {
        id == 17 || id == 28 || id == 31 || id == 38
    }

    open spec fn get(&self, id: u8) -> Option<PropValue> {
        if id == 17 {
            four_value(self.session_expiry_interval)
        } else if id == 28 {
            text_value(self.server_reference)
        } else if id == 31 {
            text_value(self.reason_string)
        } else if id == 38 {
            pair_value(self.user_property)
        } else {
            None
        }
    }

    proof fn lemma_typed(&self) {
    }

    fn value_of(&self, id: u8) -> (r: Option<ValueRef<'_>>) {
        match id {
            17 => four_ref(&self.session_expiry_interval),
            28 => text_ref(&self.server_reference),
            31 => text_ref(&self.reason_string),
            38 => pair_ref(&self.user_property),
            _ => None,
        }
    }

    fn from_properties(p: Properties) -> (r: DisconnectProperties) {
        DisconnectProperties {
            session_expiry_interval: p.session_expiry_interval,
            reason_string: p.reason_string,
            user_property: p.user_property,
            server_reference: p.server_info,
        }
    }
}

/// The last packet of a connection that ends in order.
#[derive(Debug, Clone, PartialEq)]
pub struct Disconnect {
    pub reason_code: u8,
    pub properties: Option<DisconnectProperties>,
}

impl View for Disconnect {
    type V = ReasonView;

    open spec fn view(&self) -> ReasonView {
        ReasonView { reason_code: self.reason_code, properties: opt_prop_map(&self.properties) }
    }
}

impl Disconnect {
    /// The packet that `body` holds.
    pub open spec fn parse(body: Seq<u8>) -> Result<ReasonView, Error> {
        parse_reason(body, |id: u8| DisconnectProperties::accepts(id))
    }

    /// Reads the packet from its frame: the fixed header as it was read,
    /// and the bytes of the whole packet.
    pub fn assemble(fixed_header: FixedHeader, bytes: Bytes) -> (r: Result<Disconnect, Error>)
        ensures
            match frame_body(fixed_header, bytes_seq(bytes)) {
                Err(e) => r matches Err(x) && x == e,
                Ok(body) => match Self::parse(body) {
                    Ok(v) => r matches Ok(p) && p@ == v,
                    Err(e) => r matches Err(x) && x == e,
                },
            },
    {
        let body = match body_slice(fixed_header, &bytes) {
            Ok(body) => body,
            Err(e) => { return Err(e); },
        };
        match read_reason::<DisconnectProperties>(body) {
            Ok((reason_code, properties)) => Ok(Disconnect { reason_code, properties }),
            Err(e) => Err(e),
        }
    }

    /// Appends the body of the packet. One that cannot be written is too
    /// long, and nothing is said of `out` after it.
    pub fn write(&self, out: &mut Vec<u8>) -> (r: Result<(), Error>)
        ensures
            match r {
                Ok(()) => reason_fits(self@) && final(out)@ == old(out)@ + ser_reason(self@),
                Err(e) => e == Error::PayloadTooLong && !reason_fits(self@),
            },
    {
        write_reason(out, self.reason_code, &self.properties)
    }
}

} // verus!
