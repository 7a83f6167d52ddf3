//! What DISCONNECT and AUTH have in common on the wire: a reason code, and
//! after it, where the packet goes on, a property block.
use vstd::prelude::*;
use crate::codec::cursor::Cursor;
use crate::codec::error::Error;
use crate::codec::properties::{
    block_canonical, block_writable, lemma_block_round_trip, lemma_project_within, narrow,
    opt_prop_map, parse_block, project, props_within, read_block, ser_block, write_block, PropMap,
    PropertySource,
};
use crate::codec::writer::put_u8;

verus! {

/// A reason code with properties, as a mathematical value.
pub struct ReasonView {
    pub reason_code: u8,
    pub properties: Option<PropMap>,
}

/// The reason code and the properties that `body` holds, for a packet type
/// that accepts the properties `accepts`. A body of one byte holds no
/// properties; an empty one has the wrong size.
pub open spec fn parse_reason(body: Seq<u8>, accepts: spec_fn(u8) -> bool) -> Result<
    ReasonView,
    Error,
> {
    if body.len() < 1 {
        Err(Error::PayloadSizeIncorrect)
    } else if body.len() == 1 {
        Ok(ReasonView { reason_code: body[0], properties: None })
    } else {
        match parse_block(body.skip(1)) {
            Err(e) => Err(e),
            Ok((props, n)) => if 1 + n != body.len() {
                Err(Error::PayloadSizeIncorrect)
            } else {
                Ok(ReasonView { reason_code: body[0], properties: project(props, accepts) })
            },
        }
    }
}

/// The body of such a packet.
pub open spec fn ser_reason(v: ReasonView) -> Seq<u8> {
    seq![v.reason_code] + ser_block(v.properties)
}

/// The packet reads back as itself once written.
pub open spec fn reason_canonical(v: ReasonView, accepts: spec_fn(u8) -> bool) -> bool {
    block_canonical(v.properties) && props_within(v.properties, accepts)
}

/// The packet can be written.
pub open spec fn reason_fits(v: ReasonView) -> bool {
    block_writable(v.properties)
}

/// Such a packet reads back as itself once written.
pub proof fn lemma_reason_round_trip(v: ReasonView, accepts: spec_fn(u8) -> bool)
    requires
        reason_canonical(v, accepts),
        reason_fits(v),
    ensures
        parse_reason(ser_reason(v), accepts) == Ok::<ReasonView, Error>(v),
        ser_reason(v).len() >= 2,
{
    let body = ser_reason(v);
    lemma_block_round_trip(v.properties, Seq::empty());
    assert(body.skip(1) =~= ser_block(v.properties) + Seq::<u8>::empty());
    lemma_project_within(v.properties, accepts);
}

/// Reads a reason code and the properties after it.
pub fn read_reason<P: PropertySource>(body: &[u8]) -> (r: Result<(u8, Option<P>), Error>)
    ensures
        match parse_reason(body@, |id: u8| P::accepts(id)) {
            Ok(v) => r matches Ok(got) && got.0 == v.reason_code && opt_prop_map(&got.1)
                == v.properties,
            Err(e) => r matches Err(x) && x == e,
        },
{
    if body.len() < 1 {
        return Err(Error::PayloadSizeIncorrect);
    }
    let reason: u8 = body[0];
    if body.len() == 1 {
        return Ok((reason, None));
    }
    let mut cur = Cursor::new(body);
    cur.advance(1);
    let props = match read_block(&mut cur) {
        Ok(props) => props,
        Err(e) => { return Err(e); },
    };
    if cur.remaining() != 0 {
        return Err(Error::PayloadSizeIncorrect);
    }
    Ok((reason, narrow(props)))
}

/// Appends a reason code and a property block. What cannot be written is
/// too long, and nothing is said of `out` after it.
pub fn write_reason<P: PropertySource>(
    out: &mut Vec<u8>,
    reason_code: u8,
    properties: &Option<P>,
) -> (r: Result<(), Error>)
    ensures
        match r {
            Ok(()) => reason_fits(ReasonView { reason_code, properties: opt_prop_map(properties) })
                && final(out)@ == old(out)@ + ser_reason(
                ReasonView { reason_code, properties: opt_prop_map(properties) },
            ),
            Err(e) => e == Error::PayloadTooLong && !reason_fits(
                ReasonView { reason_code, properties: opt_prop_map(properties) },
            ),
        },
{
    put_u8(out, reason_code);
    match write_block(out, properties) {
        Ok(()) => {},
        Err(e) => { return Err(e); },
    }
    assert(out@ =~= old(out)@ + ser_reason(
        ReasonView { reason_code, properties: opt_prop_map(properties) },
    ));
    Ok(())
}

} // verus!
