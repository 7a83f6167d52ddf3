//! SUBACK: the answer to a SUBSCRIBE.
//!
//! The body holds the packet identifier, a property block, and one return
//! code for each filter that was asked for. A return code with bit 7 set
//! is a failure; any other one grants the quality of service in its two
//! lowest bits.
use vstd::prelude::*;
use bytes::Bytes;
use crate::codec::buffer::bytes_seq;
use crate::codec::cursor::Cursor;
use crate::codec::enums::{qos, QoS, SubscribeReturnCodes};
use crate::codec::error::Error;
use crate::codec::frame::{body_slice, frame_body};
use crate::codec::header::FixedHeader;
use crate::codec::primitives::{lemma_u16_round_trip, parse_u16, ser_u16};
use crate::codec::properties::{
    block_canonical, block_writable, is_canonical, lemma_block_round_trip, lemma_project_within,
    lemma_record_within, narrow, opt_prop_map, pair_ref, pair_value, parse_block, project,
    props_within, read_block, ser_block, text_ref, text_value, write_block, PropMap, PropValue,
    Properties, PropertySource, ValueRef,
};
use crate::codec::writer::{put_u16};

verus! {

/// The properties that a SUBACK can carry.
#[derive(Debug, Clone, PartialEq)]
pub struct SubAckProperties {
    pub reason_string: Option<String>,
    pub user_property: Option<(String, String)>,
}

impl PropertySource for SubAckProperties {
    open spec fn accepts(id: u8) -> bool {
        id == 31 || id == 38
    }

    open spec fn get(&self, id: u8) -> Option<PropValue> {
        if id == 31 {
            text_value(self.reason_string)
        } else if id == 38 {
            pair_value(self.user_property)
        } else {
            None
        }
    }

    proof fn lemma_typed(&self) {
    }

    fn value_of(&self, id: u8) -> (r: Option<ValueRef<'_>>) {
        match id {
            31 => text_ref(&self.reason_string),
            38 => pair_ref(&self.user_property),
            _ => None,
        }
    }

    fn from_properties(p: Properties) -> (r: SubAckProperties) {
        SubAckProperties {
            reason_string: p.reason_string,
            user_property: p.user_property,
        }
    }
}

/// The answer to a SUBSCRIBE.
#[derive(Debug, Clone, PartialEq)]
pub struct SubAck {
    pub pkid: u16,
    pub return_codes: Vec<SubscribeReturnCodes>,
    pub properties: Option<SubAckProperties>,
}

/// A SUBACK, as a mathematical value.
pub struct SubAckView {
    pub pkid: u16,
    pub return_codes: Seq<SubscribeReturnCodes>,
    pub properties: Option<PropMap>,
}

impl View for SubAck {
    type V = SubAckView;

    open spec fn view(&self) -> SubAckView {
        SubAckView {
            pkid: self.pkid,
            return_codes: self.return_codes@,
            properties: opt_prop_map(&self.properties),
        }
    }
}

/// Whether a byte is a return code: a failure, or a grant of a quality of
/// service up to 2.
pub open spec fn is_return_code(b: u8) -> bool {
    b >= 128 || b % 4 != 3
}

/// The return code that a byte stands for.
pub open spec fn return_code_of(b: u8) -> SubscribeReturnCodes {
    if b >= 128 {
        SubscribeReturnCodes::Failure
    } else if b % 4 == 0 {
        SubscribeReturnCodes::Success(QoS::AtMostOnce)
    } else if b % 4 == 1 {
        SubscribeReturnCodes::Success(QoS::AtLeastOnce)
    } else {
        SubscribeReturnCodes::Success(QoS::ExactlyOnce)
    }
}

/// The byte that stands for a return code.
pub open spec fn return_code_byte(code: SubscribeReturnCodes) -> u8 {
    match code {
        SubscribeReturnCodes::Failure => 128,
        SubscribeReturnCodes::Success(level) => level.level(),
    }
}

/// The return codes that fill `s` from start to end. A byte that grants
/// the quality of service 3 is refused.
pub open spec fn parse_return_codes(s: Seq<u8>) -> Result<Seq<SubscribeReturnCodes>, Error> {
    if forall|i: int| 0 <= i < s.len() ==> is_return_code(#[trigger] s[i]) {
        Ok(Seq::new(s.len(), |i: int| return_code_of(s[i])))
    } else {
        Err(Error::InvalidQoS(3))
    }
}

pub open spec fn ser_return_codes(codes: Seq<SubscribeReturnCodes>) -> Seq<u8> {
    Seq::new(codes.len(), |i: int| return_code_byte(codes[i]))
}

/// The packet that the return codes make with what stands before them.
pub open spec fn with_return_codes(
    pkid: u16,
    properties: Option<PropMap>,
    codes: Result<Seq<SubscribeReturnCodes>, Error>,
) -> Result<SubAckView, Error> {
    match codes {
        Err(e) => Err(e),
        Ok(return_codes) => Ok(SubAckView { pkid, return_codes, properties }),
    }
}

impl SubAckView {
    /// The body of the packet.
    pub open spec fn ser_body(self) -> Seq<u8> {
        ser_u16(self.pkid) + ser_block(self.properties) + ser_return_codes(self.return_codes)
    }

    /// The packet reads back as itself once written.
    pub open spec fn canonical(self) -> bool {
        block_canonical(self.properties) && props_within(
            self.properties,
            |id: u8| SubAckProperties::accepts(id),
        )
    }

    /// The fields of the packet can be written.
    pub open spec fn fits(self) -> bool {
        block_writable(self.properties)
    }
}

impl SubAck {
    /// The SUBACK that `body` holds.
    pub open spec fn parse(body: Seq<u8>) -> Result<SubAckView, Error> {
        match parse_u16(body) {
            Err(e) => Err(e),
            Ok((pkid, _)) => match parse_block(body.skip(2)) {
                Err(e) => Err(e),
                Ok((props, n)) => with_return_codes(
                    pkid,
                    project(props, |id: u8| SubAckProperties::accepts(id)),
                    parse_return_codes(body.skip(2 + n)),
                ),
            },
        }
    }

    /// Reads a SUBACK from its frame: the fixed header as it was read, and
    /// the bytes of the whole packet.
    #[verifier::loop_isolation(false)]
    pub fn assemble(fixed_header: FixedHeader, bytes: Bytes) -> (r: Result<SubAck, Error>)
        ensures
            match frame_body(fixed_header, bytes_seq(bytes)) {
                Err(e) => r matches Err(x) && x == e,
                Ok(body) => match Self::parse(body) {
                    Ok(v) => r matches Ok(p) && p@ == v,
                    Err(e) => r matches Err(x) && x == e,
                },
            },
    {
        let body = match body_slice(fixed_header, &bytes) {
            Ok(body) => body,
            Err(e) => { return Err(e); },
        };
        let mut cur = Cursor::new(body);
        let pkid: u16 = match cur.read_u16() {
            Ok(pkid) => pkid,
            Err(e) => { return Err(e); },
        };
        let props = match read_block(&mut cur) {
            Ok(props) => props,
            Err(e) => { return Err(e); },
        };
        let start: usize = cur.pos;
        let ghost s = cur.rest();
        assert(s =~= body@.skip(start as int));
        let mut return_codes: Vec<SubscribeReturnCodes> = Vec::new();
        let mut i: usize = start;
        while i < body.len()
            invariant
                start <= i <= body@.len(),
                return_codes@.len() == i - start,
                forall|k: int| 0 <= k < i - start ==> is_return_code(#[trigger] s[k]),
                forall|k: int|
                    0 <= k < i - start ==> #[trigger] return_codes@[k] == return_code_of(s[k]),
            decreases body@.len() - i,
        {
            let code: u8 = body[i];
            assert(code == s[i - start]);
            if code >= 128 {
                return_codes.push(SubscribeReturnCodes::Failure);
            } else {
                match qos(code % 4) {
                    Ok(level) => return_codes.push(SubscribeReturnCodes::Success(level)),
                    Err(e) => {
                        assert(!is_return_code(s[i - start]));
                        return Err(e);
                    },
                }
            }
            i = i + 1;
        }
        assert(return_codes@ =~= Seq::new(s.len(), |i: int| return_code_of(s[i])));
        Ok(SubAck { pkid, return_codes, properties: narrow(props) })
    }

    /// Whether the packet reads back as itself once written.
    pub fn is_canonical(&self) -> (b: bool)
        ensures
            b == self@.canonical(),
    {
        proof {
            lemma_record_within(&self.properties);
        }
        is_canonical(&self.properties)
    }

    /// Appends the body of the packet. One that cannot be written is too
    /// long, and nothing is said of `out` after it.
    #[verifier::loop_isolation(false)]
    pub fn write(&self, out: &mut Vec<u8>) -> (r: Result<(), Error>)
        ensures
            match r {
                Ok(()) => self@.fits() && final(out)@ == old(out)@ + self@.ser_body(),
                Err(e) => e == Error::PayloadTooLong && !self@.fits(),
            },
    {
        put_u16(out, self.pkid);
        match write_block(out, &self.properties) {
            Ok(()) => {},
            Err(e) => { return Err(e); },
        }
        let ghost base = out@;
        let mut i: usize = 0;
        while i < self.return_codes.len()
            invariant
                i <= self.return_codes@.len(),
                out@ == base + ser_return_codes(self.return_codes@.take(i as int)),
            decreases self.return_codes@.len() - i,
        {
            let byte: u8 = match self.return_codes[i] {
                SubscribeReturnCodes::Failure => 128,
                SubscribeReturnCodes::Success(level) => level.code(),
            };
            out.push(byte);
            i = i + 1;
            assert(out@ =~= base + ser_return_codes(self.return_codes@.take(i as int)));
        }
        assert(self.return_codes@.take(i as int) =~= self.return_codes@);
        assert(out@ =~= old(out)@ + self@.ser_body());
        Ok(())
    }

    /// A SUBACK for the packet identifier `pkid`.
    pub fn new(
        pkid: u16,
        return_codes: Vec<SubscribeReturnCodes>,
        properties: Option<SubAckProperties>,
    ) -> (p: SubAck)
        ensures
            p.pkid == pkid,
            p.return_codes == return_codes,
            p.properties == properties,
    {
        SubAck { pkid, return_codes, properties }
    }
}

/// Return codes that were written read back as themselves.
pub proof fn lemma_return_codes_round_trip(codes: Seq<SubscribeReturnCodes>)
    ensures
        parse_return_codes(ser_return_codes(codes)) == Ok::<Seq<SubscribeReturnCodes>, Error>(
            codes,
        ),
{
    let s = ser_return_codes(codes);
    assert(Seq::new(s.len(), |i: int| return_code_of(s[i])) =~= codes);
}

/// A SUBACK that was written reads back as itself.
pub proof fn lemma_suback_round_trip(v: SubAckView)
    requires
        v.canonical(),
        v.fits(),
    ensures
        SubAck::parse(v.ser_body()) == Ok::<SubAckView, Error>(v),
        v.ser_body().len() >= 2,
{
    let body = v.ser_body();
    let rest1 = ser_block(v.properties) + ser_return_codes(v.return_codes);
    let n = ser_block(v.properties).len() as int;
    assert(body =~= ser_u16(v.pkid) + rest1);
    lemma_u16_round_trip(v.pkid, rest1);
    lemma_block_round_trip(v.properties, ser_return_codes(v.return_codes));
    assert(body.skip(2 + n) =~= body.skip(2).skip(n));
    lemma_return_codes_round_trip(v.return_codes);
    lemma_project_within(v.properties, |id: u8| SubAckProperties::accepts(id));
}

} // verus!
