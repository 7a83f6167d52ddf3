//! UNSUBSCRIBE: the end of some subscriptions.
//!
//! The body holds the packet identifier, a property block, and one or more
//! topic filters.
use vstd::prelude::*;
use bytes::Bytes;
use crate::codec::buffer::bytes_seq;
use crate::codec::cursor::Cursor;
use crate::codec::error::Error;
use crate::codec::frame::{body_slice, frame_body};
use crate::codec::header::FixedHeader;
use crate::codec::primitives::{
    lemma_parse_text_len, lemma_text_round_trip, lemma_u16_round_trip, parse_text, parse_u16,
    ser_text, ser_u16, text_fits, MAX_LEN16,
};
use crate::codec::properties::{
    block_canonical, block_writable, is_canonical, lemma_block_round_trip, lemma_project_within,
    lemma_record_within, narrow, opt_prop_map, pair_ref, pair_value, parse_block, project,
    props_within, read_block, ser_block, write_block, PropMap, PropValue, Properties,
    PropertySource, ValueRef,
};
use crate::codec::subscribe::after;
use crate::codec::writer::{put_text, put_u16};

verus! {

/// The properties that an UNSUBSCRIBE can carry.
#[derive(Debug, Clone, PartialEq)]
pub struct UnsubscribeProperties {
    pub user_property: Option<(String, String)>,
}

impl PropertySource for UnsubscribeProperties {
    open spec fn accepts(id: u8) -> bool {
        id == 38
    }

    open spec fn get(&self, id: u8) -> Option<PropValue> {
        if id == 38 {
            pair_value(self.user_property)
        } else {
            None
        }
    }

    proof fn lemma_typed(&self) {
    }

    fn value_of(&self, id: u8) -> (r: Option<ValueRef<'_>>) {
        match id {
            38 => pair_ref(&self.user_property),
            _ => None,
        }
    }

    fn from_properties(p: Properties) -> (r: UnsubscribeProperties) {
        UnsubscribeProperties {
            user_property: p.user_property,
        }
    }
}

/// The end of some subscriptions.
#[derive(Debug, Clone, PartialEq)]
pub struct Unsubscribe {
    pub pkid: u16,
    pub topics: Vec<String>,
    pub properties: Option<UnsubscribeProperties>,
}

/// An UNSUBSCRIBE, as a mathematical value.
pub struct UnsubscribeView {
    pub pkid: u16,
    pub topics: Seq<Seq<char>>,
    pub properties: Option<PropMap>,
}

/// The strings that a vector of them stands for.
pub open spec fn texts_view(topics: Seq<String>) -> Seq<Seq<char>> {
    Seq::new(topics.len(), |i: int| topics[i]@)
}

impl View for Unsubscribe {
    type V = UnsubscribeView;

    open spec fn view(&self) -> UnsubscribeView {
        UnsubscribeView {
            pkid: self.pkid,
            topics: texts_view(self.topics@),
            properties: opt_prop_map(&self.properties),
        }
    }
}

/// The strings, one after the other.
pub open spec fn ser_texts(ts: Seq<Seq<char>>) -> Seq<u8>
    decreases ts.len(),
{
    if ts.len() == 0 {
        Seq::empty()
    } else {
        ser_text(ts[0]) + ser_texts(ts.skip(1))
    }
}

/// The strings that fill `s` from start to end.
pub open spec fn parse_texts(s: Seq<u8>) -> Result<Seq<Seq<char>>, Error>
    decreases s.len(),
{
    if s.len() == 0 {
        Ok(Seq::empty())
    } else {
        match parse_text(s) {
            Err(e) => Err(e),
            Ok((t, n)) => if !(0 < n <= s.len()) {
                Err(Error::BoundaryCrossed)
            } else {
                match parse_texts(s.skip(n)) {
                    Err(e) => Err(e),
                    Ok(ts) => Ok(seq![t] + ts),
                }
            },
        }
    }
}

/// The packet that the filters make with what stands before them.
pub open spec fn with_texts(
    pkid: u16,
    properties: Option<PropMap>,
    texts: Result<Seq<Seq<char>>, Error>,
) -> Result<UnsubscribeView, Error> {
    match texts {
        Err(e) => Err(e),
        Ok(topics) => Ok(UnsubscribeView { pkid, topics, properties }),
    }
}

impl UnsubscribeView {
    /// The body of the packet.
    pub open spec fn ser_body(self) -> Seq<u8> {
        ser_u16(self.pkid) + ser_block(self.properties) + ser_texts(self.topics)
    }

    /// The packet reads back as itself once written: it names at least one
    /// filter, and its property set holds properties of an UNSUBSCRIBE, at
    /// least one if it is present.
    pub open spec fn canonical(self) -> bool {
        &&& self.topics.len() > 0
        &&& block_canonical(self.properties)
        &&& props_within(self.properties, |id: u8| UnsubscribeProperties::accepts(id))
    }

    /// The fields of the packet can be written.
    pub open spec fn fits(self) -> bool {
        &&& block_writable(self.properties)
        &&& forall|i: int| 0 <= i < self.topics.len() ==> text_fits(#[trigger] self.topics[i])
    }
}

impl Unsubscribe {
    /// The UNSUBSCRIBE that `body` holds. One without a filter lacks its
    /// payload.
    pub open spec fn parse(body: Seq<u8>) -> Result<UnsubscribeView, Error> {
        match parse_u16(body) {
            Err(e) => Err(e),
            Ok((pkid, _)) => match parse_block(body.skip(2)) {
                Err(e) => Err(e),
                Ok((props, n)) => if body.len() == 2 + n {
                    Err(Error::PayloadRequired)
                } else {
                    with_texts(
                        pkid,
                        project(props, |id: u8| UnsubscribeProperties::accepts(id)),
                        parse_texts(body.skip(2 + n)),
                    )
                },
            },
        }
    }

    /// Reads an UNSUBSCRIBE from its frame: the fixed header as it was
    /// read, and the bytes of the whole packet.
    #[verifier::loop_isolation(false)]
    pub fn assemble(fixed_header: FixedHeader, bytes: Bytes) -> (r: Result<Unsubscribe, Error>)
        ensures
            match frame_body(fixed_header, bytes_seq(bytes)) {
                Err(e) => r matches Err(x) && x == e,
                Ok(body) => match Self::parse(body) {
                    Ok(v) => r matches Ok(p) && p@ == v,
                    Err(e) => r matches Err(x) && x == e,
                },
            },
    {
        let body = match body_slice(fixed_header, &bytes) {
            Ok(body) => body,
            Err(e) => { return Err(e); },
        };
        let mut cur = Cursor::new(body);
        let pkid: u16 = match cur.read_u16() {
            Ok(pkid) => pkid,
            Err(e) => { return Err(e); },
        };
        let props = match read_block(&mut cur) {
            Ok(props) => props,
            Err(e) => { return Err(e); },
        };
        if cur.remaining() == 0 {
            return Err(Error::PayloadRequired);
        }
        let ghost start = cur.rest();
        assert(start =~= body@.skip(cur.pos as int));
        let mut topics: Vec<String> = Vec::new();
        assert(texts_view(topics@) =~= Seq::<Seq<char>>::empty());
        assert(after(texts_view(topics@), parse_texts(start)) == parse_texts(start)) by {
            if let Ok(ts) = parse_texts(start) {
                assert(Seq::<Seq<char>>::empty() + ts =~= ts);
            }
        }
        while cur.remaining() > 0
            invariant
                cur.wf(),
                cur.buf == body,
                parse_texts(start) == after(texts_view(topics@), parse_texts(cur.rest())),
            decreases cur.rest().len(),
        {
            let ghost done = texts_view(topics@);
            proof {
                lemma_parse_text_len(cur.rest());
            }
            let filter = match cur.read_text() {
                Ok(filter) => filter,
                Err(e) => { return Err(e); },
            };
            proof {
                assert(texts_view(topics@.push(filter)) =~= done.push(filter@));
                if let Ok(ts) = parse_texts(cur.rest()) {
                    assert(done + (seq![filter@] + ts) =~= done.push(filter@) + ts);
                }
            }
            topics.push(filter);
        }
        assert(texts_view(topics@) + Seq::<Seq<char>>::empty() =~= texts_view(topics@));
        Ok(Unsubscribe { pkid, topics, properties: narrow(props) })
    }

    /// Whether the packet reads back as itself once written.
    pub fn is_canonical(&self) -> (b: bool)
        ensures
            b == self@.canonical(),
    {
        proof {
            lemma_record_within(&self.properties);
        }
        self.topics.len() > 0 && is_canonical(&self.properties)
    }

    /// Appends the body of the packet. One that cannot be written is too
    /// long, and nothing is said of `out` after it.
    #[verifier::loop_isolation(false)]
    pub fn write(&self, out: &mut Vec<u8>) -> (r: Result<(), Error>)
        ensures
            match r {
                Ok(()) => self@.fits() && final(out)@ == old(out)@ + self@.ser_body(),
                Err(e) => e == Error::PayloadTooLong && !self@.fits(),
            },
    {
        put_u16(out, self.pkid);
        match write_block(out, &self.properties) {
            Ok(()) => {},
            Err(e) => { return Err(e); },
        }
        let ghost base = out@;
        let ghost ts = texts_view(self.topics@);
        let mut i: usize = 0;
        while i < self.topics.len()
            invariant
                i <= self.topics@.len(),
                out@ == base + ser_texts(ts.take(i as int)),
                forall|k: int| 0 <= k < i ==> text_fits(#[trigger] ts[k]),
            decreases self.topics@.len() - i,
        {
            let topic = &self.topics[i];
            if topic.as_str().as_bytes().len() > MAX_LEN16 {
                assert(!text_fits(ts[i as int]));
                assert(self@.topics == ts);
                return Err(Error::PayloadTooLong);
            }
            put_text(out, topic.as_str());
            proof {
                lemma_ser_texts_push(ts.take(i as int), ts[i as int]);
                assert(ts.take(i + 1) =~= ts.take(i as int).push(ts[i as int]));
            }
            i = i + 1;
        }
        assert(ts.take(i as int) =~= ts);
        assert(out@ =~= old(out)@ + self@.ser_body());
        Ok(())
    }
}

/// The bytes of a list of strings with one more are those of the list,
/// followed by those of the one.
pub proof fn lemma_ser_texts_push(ts: Seq<Seq<char>>, t: Seq<char>)
    ensures
        ser_texts(ts.push(t)) == ser_texts(ts) + ser_text(t),
    decreases ts.len(),
{
    if ts.len() == 0 {
        assert(ts.push(t).skip(1) =~= Seq::<Seq<char>>::empty());
        assert(ser_texts(Seq::<Seq<char>>::empty()) =~= Seq::<u8>::empty());
        assert(ser_texts(ts.push(t)) =~= ser_texts(ts) + ser_text(t));
    } else {
        assert(ts.push(t).skip(1) =~= ts.skip(1).push(t));
        lemma_ser_texts_push(ts.skip(1), t);
        assert(ser_texts(ts.push(t)) =~= ser_texts(ts) + ser_text(t));
    }
}

/// Strings that were written read back as themselves.
pub proof fn lemma_texts_round_trip(ts: Seq<Seq<char>>)
    requires
        forall|i: int| 0 <= i < ts.len() ==> text_fits(#[trigger] ts[i]),
    ensures
        parse_texts(ser_texts(ts)) == Ok::<Seq<Seq<char>>, Error>(ts),
        ts.len() > 0 ==> ser_texts(ts).len() > 0,
    decreases ts.len(),
{
    if ts.len() > 0 {
        let t = ts[0];
        let rest = ser_texts(ts.skip(1));
        assert(text_fits(ts[0]));
        lemma_text_round_trip(t, rest);
        assert forall|i: int| 0 <= i < ts.skip(1).len() implies text_fits(
            #[trigger] ts.skip(1)[i],
        ) by {
            assert(ts.skip(1)[i] == ts[i + 1]);
        }
        lemma_texts_round_trip(ts.skip(1));
        assert(seq![t] + ts.skip(1) =~= ts);
    } else {
        assert(ts =~= Seq::<Seq<char>>::empty());
    }
}

/// An UNSUBSCRIBE that was written reads back as itself.
pub proof fn lemma_unsubscribe_round_trip(v: UnsubscribeView)
    requires
        v.canonical(),
        v.fits(),
    ensures
        Unsubscribe::parse(v.ser_body()) == Ok::<UnsubscribeView, Error>(v),
        v.ser_body().len() >= 2,
{
    let body = v.ser_body();
    let rest1 = ser_block(v.properties) + ser_texts(v.topics);
    let n = ser_block(v.properties).len() as int;
    assert(body =~= ser_u16(v.pkid) + rest1);
    lemma_u16_round_trip(v.pkid, rest1);
    lemma_block_round_trip(v.properties, ser_texts(v.topics));
    assert(body.skip(2 + n) =~= body.skip(2).skip(n));
    lemma_texts_round_trip(v.topics);
    lemma_project_within(v.properties, |id: u8| UnsubscribeProperties::accepts(id));
}

} // verus!
