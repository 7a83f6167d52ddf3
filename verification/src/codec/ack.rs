//! What the four acknowledgements of a publish have in common on the wire:
//! a packet identifier, and after it, where the packet is longer than two
//! bytes, a reason code and a property block.
use vstd::prelude::*;
use crate::codec::cursor::Cursor;
use crate::codec::error::Error;
use crate::codec::primitives::{lemma_u16_round_trip, parse_u16, ser_u16};
use crate::codec::properties::{
    block_canonical, block_writable, lemma_block_round_trip, lemma_project_within,
    narrow, opt_prop_map, parse_block, project, props_within, read_block, ser_block, write_block,
    PropMap, PropertySource,
};
use crate::codec::writer::{put_u16, put_u8};

verus! {

/// An acknowledgement, as a mathematical value.
pub struct AckView {
    pub pkid: u16,
    pub reason_code: u8,
    pub properties: Option<PropMap>,
}

/// The acknowledgement that `body` holds, for a packet type that accepts
/// the properties `accepts`. A body of two bytes stands for the reason
/// code 0 without properties, one of three bytes for a reason code without
/// properties.
pub open spec fn parse_ack(body: Seq<u8>, accepts: spec_fn(u8) -> bool) -> Result<AckView, Error> {
    match parse_u16(body) {
        Err(_) => Err(Error::PayloadSizeIncorrect),
        Ok((pkid, _)) => if body.len() == 2 {
            Ok(AckView { pkid, reason_code: 0, properties: None })
        } else if body.len() == 3 {
            Ok(AckView { pkid, reason_code: body[2], properties: None })
        } else {
            match parse_block(body.skip(3)) {
                Err(e) => Err(e),
                Ok((props, n)) => if 3 + n != body.len() {
                    Err(Error::PayloadSizeIncorrect)
                } else {
                    Ok(
                        AckView {
                            pkid,
                            reason_code: body[2],
                            properties: project(props, accepts),
                        },
                    )
                },
            }
        },
    }
}

/// The body of an acknowledgement. Success without properties is written
/// in its short form of two bytes.
pub open spec fn ser_ack(v: AckView) -> Seq<u8> {
    if v.reason_code == 0 && v.properties is None {
        ser_u16(v.pkid)
    } else {
        ser_u16(v.pkid) + seq![v.reason_code] + ser_block(v.properties)
    }
}

/// The acknowledgement reads back as itself once written.
pub open spec fn ack_canonical(v: AckView, accepts: spec_fn(u8) -> bool) -> bool {
    block_canonical(v.properties) && props_within(v.properties, accepts)
}

/// The acknowledgement can be written.
pub open spec fn ack_fits(v: AckView) -> bool {
    block_writable(v.properties)
}

/// An acknowledgement that was written reads back as itself.
pub proof fn lemma_ack_round_trip(v: AckView, accepts: spec_fn(u8) -> bool)
    requires
        ack_canonical(v, accepts),
        ack_fits(v),
    ensures
        parse_ack(ser_ack(v), accepts) == Ok::<AckView, Error>(v),
        ser_ack(v).len() >= 2,
{
    let body = ser_ack(v);
    lemma_project_within(v.properties, accepts);
    if v.reason_code == 0 && v.properties is None {
        lemma_u16_round_trip(v.pkid, Seq::empty());
        assert(body =~= ser_u16(v.pkid) + Seq::<u8>::empty());
    } else {
        let tail = seq![v.reason_code] + ser_block(v.properties);
        lemma_u16_round_trip(v.pkid, tail);
        assert(body =~= ser_u16(v.pkid) + tail);
        lemma_block_round_trip(v.properties, Seq::empty());
        assert(body.skip(3) =~= ser_block(v.properties) + Seq::<u8>::empty());
    }
}

/// Reads the body of an acknowledgement.
pub fn read_ack<P: PropertySource>(body: &[u8]) -> (r: Result<(u16, u8, Option<P>), Error>)
    ensures
        match parse_ack(body@, |id: u8| P::accepts(id)) {
            Ok(v) => r matches Ok(got) && got.0 == v.pkid && got.1 == v.reason_code
                && opt_prop_map(&got.2) == v.properties,
            Err(e) => r matches Err(x) && x == e,
        },
{
    let mut cur = Cursor::new(body);
    let pkid: u16 = match cur.read_u16() {
        Ok(pkid) => pkid,
        Err(_) => { return Err(Error::PayloadSizeIncorrect); },
    };
    if cur.remaining() == 0 {
        return Ok((pkid, 0, None));
    }
    let reason: u8 = match cur.read_u8() {
        Ok(reason) => reason,
        Err(e) => { return Err(e); },
    };
    if cur.remaining() == 0 {
        return Ok((pkid, reason, None));
    }
    assert(cur.rest() =~= body@.skip(3));
    let props = match read_block(&mut cur) {
        Ok(props) => props,
        Err(e) => { return Err(e); },
    };
    if cur.remaining() != 0 {
        return Err(Error::PayloadSizeIncorrect);
    }
    Ok((pkid, reason, narrow(props)))
}

/// Appends the body of an acknowledgement. One that cannot be written is
/// too long, and nothing is said of `out` after it.
pub fn write_ack<P: PropertySource>(
    out: &mut Vec<u8>,
    pkid: u16,
    reason_code: u8,
    properties: &Option<P>,
) -> (r: Result<(), Error>)
    ensures
        match r {
            Ok(()) => ack_fits(
                AckView { pkid, reason_code, properties: opt_prop_map(properties) },
            ) && final(out)@ == old(out)@ + ser_ack(
                AckView { pkid, reason_code, properties: opt_prop_map(properties) },
            ),
            Err(e) => e == Error::PayloadTooLong && !ack_fits(
                AckView { pkid, reason_code, properties: opt_prop_map(properties) },
            ),
        },
{
    let ghost v = AckView { pkid, reason_code, properties: opt_prop_map(properties) };
    put_u16(out, pkid);
    if reason_code == 0 && properties.is_none() {
        return Ok(());
    }
    put_u8(out, reason_code);
    match write_block(out, properties) {
        Ok(()) => {},
        Err(e) => { return Err(e); },
    }
    assert(out@ =~= old(out)@ + ser_ack(v));
    Ok(())
}

} // verus!
