//! SUBSCRIBE: a request for the messages of some topics.
//!
//! The body holds the packet identifier, a property block, and one or more
//! topic filters, each followed by a byte of options whose two lowest bits
//! are the quality of service asked for.
use vstd::prelude::*;
use bytes::Bytes;
use crate::codec::buffer::bytes_seq;
use crate::codec::cursor::Cursor;
use crate::codec::enums::{qos, qos_of, QoS};
use crate::codec::error::Error;
use crate::codec::frame::{body_slice, frame_body};
use crate::codec::header::FixedHeader;
use crate::codec::primitives::{
    lemma_text_round_trip, lemma_u16_round_trip, lemma_u8_round_trip, parse_text, parse_u16,
    parse_u8, ser_text, ser_u16, ser_u8, text_fits, MAX_LEN16,
};
use crate::codec::properties::{
    block_canonical, block_writable, is_canonical, lemma_block_round_trip, lemma_project_within,
    lemma_record_within, narrow, opt_prop_map, pair_ref, pair_value, parse_block, project,
    props_within, read_block, ser_block, varint_ref, varint_value, write_block, PropMap,
    PropValue, Properties, PropertySource, ValueRef,
};
use crate::codec::topic::SubscribeTopic;
use crate::codec::writer::{put_text, put_u16, put_u8};

verus! {

/// The properties that a SUBSCRIBE can carry.
#[derive(Debug, Clone, PartialEq)]
pub struct SubscribeProperties {
    pub subscription_identifier: Option<u32>,
    pub user_property: Option<(String, String)>,
}

impl PropertySource for SubscribeProperties {
    open spec fn accepts(id: u8) -> bool {
        id == 11 || id == 38
    }

    open spec fn get(&self, id: u8) -> Option<PropValue> {
        if id == 11 {
            varint_value(self.subscription_identifier)
        } else if id == 38 {
            pair_value(self.user_property)
        } else {
            None
        }
    }

    proof fn lemma_typed(&self) {
    }

    fn value_of(&self, id: u8) -> (r: Option<ValueRef<'_>>) {
        match id {
            11 => varint_ref(&self.subscription_identifier),
            38 => pair_ref(&self.user_property),
            _ => None,
        }
    }

    fn from_properties(p: Properties) -> (r: SubscribeProperties) {
        SubscribeProperties {
            subscription_identifier: p.subscription_identifier,
            user_property: p.user_property,
        }
    }
}

/// A request for the messages of some topics.
#[derive(Debug, Clone, PartialEq)]
pub struct Subscribe {
    pub pkid: u16,
    pub topics: Vec<SubscribeTopic>,
    pub properties: Option<SubscribeProperties>,
}

/// A topic filter and the quality of service asked for it.
pub type FilterView = (Seq<char>, QoS);

/// A SUBSCRIBE, as a mathematical value.
pub struct SubscribeView {
    pub pkid: u16,
    pub topics: Seq<FilterView>,
    pub properties: Option<PropMap>,
}

impl View for SubscribeTopic {
    type V = FilterView;

    open spec fn view(&self) -> FilterView {
        (self.topic_path@, self.qos)
    }
}

/// The filters that a vector of them stands for.
pub open spec fn filters_view(topics: Seq<SubscribeTopic>) -> Seq<FilterView> {
    Seq::new(topics.len(), |i: int| topics[i]@)
}

impl View for Subscribe {
    type V = SubscribeView;

    open spec fn view(&self) -> SubscribeView {
        SubscribeView {
            pkid: self.pkid,
            topics: filters_view(self.topics@),
            properties: opt_prop_map(&self.properties),
        }
    }
}

/// One filter with its options byte.
pub open spec fn ser_filter(f: FilterView) -> Seq<u8> {
    ser_text(f.0) + seq![f.1.level()]
}

/// The filters, one after the other.
pub open spec fn ser_filters(fs: Seq<FilterView>) -> Seq<u8>
    decreases fs.len(),
{
    if fs.len() == 0 {
        Seq::empty()
    } else {
        ser_filter(fs[0]) + ser_filters(fs.skip(1))
    }
}

/// The filter at the start of `s` with its options byte.
pub open spec fn parse_filter(s: Seq<u8>) -> Result<(FilterView, int), Error> {
    match parse_text(s) {
        Err(e) => Err(e),
        Ok((filter, n)) => match parse_u8(s.skip(n)) {
            Err(e) => Err(e),
            Ok((options, _)) => match qos_of(options % 4) {
                Err(e) => Err(e),
                Ok(level) => Ok(((filter, level), n + 1)),
            },
        },
    }
}

/// The filters that fill `s` from start to end.
pub open spec fn parse_filters(s: Seq<u8>) -> Result<Seq<FilterView>, Error>
    decreases s.len(),
{
    if s.len() == 0 {
        Ok(Seq::empty())
    } else {
        match parse_filter(s) {
            Err(e) => Err(e),
            Ok((f, n)) => if !(0 < n <= s.len()) {
                Err(Error::BoundaryCrossed)
            } else {
                match parse_filters(s.skip(n)) {
                    Err(e) => Err(e),
                    Ok(fs) => Ok(seq![f] + fs),
                }
            },
        }
    }
}

/// What was read so far, followed by what the rest gives.
pub open spec fn after<T>(done: Seq<T>, rest: Result<Seq<T>, Error>) -> Result<Seq<T>, Error> {
    match rest {
        Ok(fs) => Ok(done + fs),
        Err(e) => Err(e),
    }
}

/// The packet that the filters make with what stands before them.
pub open spec fn with_filters(
    pkid: u16,
    properties: Option<PropMap>,
    filters: Result<Seq<FilterView>, Error>,
) -> Result<SubscribeView, Error> {
    match filters {
        Err(e) => Err(e),
        Ok(topics) => Ok(SubscribeView { pkid, topics, properties }),
    }
}

impl SubscribeView {
    /// The body of the packet.
    pub open spec fn ser_body(self) -> Seq<u8> {
        ser_u16(self.pkid) + ser_block(self.properties) + ser_filters(self.topics)
    }

    /// The packet reads back as itself once written: it asks for at least
    /// one filter, and its property set holds properties of a SUBSCRIBE,
    /// at least one if it is present.
    pub open spec fn canonical(self) -> bool {
        &&& self.topics.len() > 0
        &&& block_canonical(self.properties)
        &&& props_within(self.properties, |id: u8| SubscribeProperties::accepts(id))
    }

    /// The fields of the packet can be written.
    pub open spec fn fits(self) -> bool {
        &&& block_writable(self.properties)
        &&& forall|i: int| 0 <= i < self.topics.len() ==> text_fits(#[trigger] self.topics[i].0)
    }
}

impl Subscribe {
    /// The SUBSCRIBE that `body` holds. One without a filter lacks its
    /// payload.
    pub open spec fn parse(body: Seq<u8>) -> Result<SubscribeView, Error> {
        match parse_u16(body) {
            Err(e) => Err(e),
            Ok((pkid, _)) => match parse_block(body.skip(2)) {
                Err(e) => Err(e),
                Ok((props, n)) => if body.len() == 2 + n {
                    Err(Error::PayloadRequired)
                } else {
                    with_filters(
                        pkid,
                        project(props, |id: u8| SubscribeProperties::accepts(id)),
                        parse_filters(body.skip(2 + n)),
                    )
                },
            },
        }
    }

    /// Reads a SUBSCRIBE from its frame: the fixed header as it was read,
    /// and the bytes of the whole packet.
    #[verifier::loop_isolation(false)]
    pub fn assemble(fixed_header: FixedHeader, bytes: Bytes) -> (r: Result<Subscribe, Error>)
        ensures
            match frame_body(fixed_header, bytes_seq(bytes)) {
                Err(e) => r matches Err(x) && x == e,
                Ok(body) => match Self::parse(body) {
                    Ok(v) => r matches Ok(p) && p@ == v,
                    Err(e) => r matches Err(x) && x == e,
                },
            },
    {
        let body = match body_slice(fixed_header, &bytes) {
            Ok(body) => body,
            Err(e) => { return Err(e); },
        };
        let mut cur = Cursor::new(body);
        let pkid: u16 = match cur.read_u16() {
            Ok(pkid) => pkid,
            Err(e) => { return Err(e); },
        };
        let props = match read_block(&mut cur) {
            Ok(props) => props,
            Err(e) => { return Err(e); },
        };
        if cur.remaining() == 0 {
            return Err(Error::PayloadRequired);
        }
        let ghost start = cur.rest();
        let ghost accepted = project(
            opt_prop_map(&props),
            |id: u8| SubscribeProperties::accepts(id),
        );
        assert(start =~= body@.skip(cur.pos as int));
        assert(Self::parse(body@) == with_filters(pkid, accepted, parse_filters(start)));
        let mut topics: Vec<SubscribeTopic> = Vec::new();
        assert(filters_view(topics@) =~= Seq::<FilterView>::empty());
        assert(after(filters_view(topics@), parse_filters(start)) == parse_filters(start)) by {
            if let Ok(fs) = parse_filters(start) {
                assert(Seq::<FilterView>::empty() + fs =~= fs);
            }
        }
        while cur.remaining() > 0
            invariant
                cur.wf(),
                cur.buf == body,
                Self::parse(body@) == with_filters(pkid, accepted, parse_filters(start)),
                parse_filters(start) == after(filters_view(topics@), parse_filters(cur.rest())),
            decreases cur.rest().len(),
        {
            let ghost before = cur;
            let ghost done = filters_view(topics@);
            let filter = match cur.read_text() {
                Ok(filter) => filter,
                Err(e) => { return Err(e); },
            };
            let options: u8 = match cur.read_u8() {
                Ok(options) => options,
                Err(e) => { return Err(e); },
            };
            let level = match qos(options % 4) {
                Ok(level) => level,
                Err(e) => { return Err(e); },
            };
            let topic = SubscribeTopic { topic_path: filter, qos: level };
            proof {
                let n = cur.pos - before.pos;
                assert(cur.rest() =~= before.rest().skip(n));
                assert(filters_view(topics@.push(topic)) =~= done.push(topic@));
                if let Ok(fs) = parse_filters(cur.rest()) {
                    assert(done + (seq![topic@] + fs) =~= done.push(topic@) + fs);
                }
            }
            topics.push(topic);
        }
        assert(filters_view(topics@) + Seq::<FilterView>::empty() =~= filters_view(topics@));
        Ok(Subscribe { pkid, topics, properties: narrow(props) })
    }

    /// Whether the packet reads back as itself once written.
    pub fn is_canonical(&self) -> (b: bool)
        ensures
            b == self@.canonical(),
    {
        proof {
            lemma_record_within(&self.properties);
        }
        self.topics.len() > 0 && is_canonical(&self.properties)
    }

    /// Appends the body of the packet. One that cannot be written is too
    /// long, and nothing is said of `out` after it.
    pub fn write(&self, out: &mut Vec<u8>) -> (r: Result<(), Error>)
        ensures
            match r {
                Ok(()) => self@.fits() && final(out)@ == old(out)@ + self@.ser_body(),
                Err(e) => e == Error::PayloadTooLong && !self@.fits(),
            },
    {
        put_u16(out, self.pkid);
        match write_block(out, &self.properties) {
            Ok(()) => {},
            Err(e) => { return Err(e); },
        }
        let ghost base = out@;
        let ghost fs = filters_view(self.topics@);
        let mut i: usize = 0;
        while i < self.topics.len()
            invariant
                i <= self.topics@.len(),
                fs == filters_view(self.topics@),
                out@ == base + ser_filters(fs.take(i as int)),
                forall|k: int| 0 <= k < i ==> text_fits(#[trigger] fs[k].0),
            decreases self.topics@.len() - i,
        {
            let topic = &self.topics[i];
            if topic.topic_path.as_str().as_bytes().len() > MAX_LEN16 {
                assert(!text_fits(fs[i as int].0));
                assert(self@.topics == fs);
                return Err(Error::PayloadTooLong);
            }
            let ghost before = out@;
            put_text(out, topic.topic_path.as_str());
            put_u8(out, topic.qos.code());
            proof {
                lemma_ser_filters_push(fs.take(i as int), fs[i as int]);
                assert(fs.take(i + 1) =~= fs.take(i as int).push(fs[i as int]));
                assert(out@ =~= before + ser_filter(fs[i as int]));
            }
            i = i + 1;
        }
        assert(fs.take(i as int) =~= fs);
        assert(out@ =~= old(out)@ + self@.ser_body());
        Ok(())
    }

    /// A SUBSCRIBE for one filter, with the packet identifier 0.
    pub fn new(topic: &str, qos: QoS) -> (s: Subscribe)
        ensures
            s.pkid == 0,
            s@.topics == seq![(topic@, qos)],
            s.properties is None,
    {
        let one = SubscribeTopic { topic_path: topic.to_owned(), qos };
        let mut topics: Vec<SubscribeTopic> = Vec::new();
        topics.push(one);
        assert(filters_view(topics@) =~= seq![(topic@, qos)]);
        Subscribe { pkid: 0, topics, properties: None }
    }

    /// A SUBSCRIBE without filters, with the packet identifier 0.
    pub fn empty_subscribe() -> (s: Subscribe)
        ensures
            s.pkid == 0,
            s@.topics == Seq::<FilterView>::empty(),
            s.properties is None,
    {
        let topics: Vec<SubscribeTopic> = Vec::new();
        assert(filters_view(topics@) =~= Seq::<FilterView>::empty());
        Subscribe { pkid: 0, topics, properties: None }
    }

    /// Adds a filter after those that the packet holds. The result is the
    /// packet itself, for what is to be done to it next.
    pub fn add(&mut self, topic: String, qos: QoS) -> (same: &mut Self)
        ensures
            same@.topics == old(self)@.topics.push((topic@, qos)),
            same.pkid == old(self).pkid,
            same.properties == old(self).properties,
            *final(self) == *final(same),
    {
        let one = SubscribeTopic { topic_path: topic, qos };
        self.topics.push(one);
        assert(filters_view(self.topics@) =~= filters_view(old(self).topics@).push((topic@, qos)));
        self
    }
}

/// The bytes of a list of filters with one more are those of the list,
/// followed by those of the one.
pub proof fn lemma_ser_filters_push(fs: Seq<FilterView>, f: FilterView)
    ensures
        ser_filters(fs.push(f)) == ser_filters(fs) + ser_filter(f),
    decreases fs.len(),
{
    if fs.len() == 0 {
        assert(fs.push(f).skip(1) =~= Seq::<FilterView>::empty());
        assert(ser_filters(Seq::<FilterView>::empty()) =~= Seq::<u8>::empty());
        assert(ser_filters(fs.push(f)) =~= ser_filters(fs) + ser_filter(f));
    } else {
        assert(fs.push(f).skip(1) =~= fs.skip(1).push(f));
        lemma_ser_filters_push(fs.skip(1), f);
        assert(ser_filters(fs.push(f)) =~= ser_filters(fs) + ser_filter(f));
    }
}

/// Filters that were written read back as themselves.
pub proof fn lemma_filters_round_trip(fs: Seq<FilterView>)
    requires
        forall|i: int| 0 <= i < fs.len() ==> text_fits(#[trigger] fs[i].0),
    ensures
        parse_filters(ser_filters(fs)) == Ok::<Seq<FilterView>, Error>(fs),
        fs.len() > 0 ==> ser_filters(fs).len() > 0,
    decreases fs.len(),
{
    if fs.len() > 0 {
        let f = fs[0];
        let rest = ser_filters(fs.skip(1));
        let s = ser_filters(fs);
        let n = ser_text(f.0).len() as int;
        assert(text_fits(fs[0].0));
        assert(s =~= ser_text(f.0) + (seq![f.1.level()] + rest));
        lemma_text_round_trip(f.0, seq![f.1.level()] + rest);
        lemma_u8_round_trip(f.1.level(), rest);
        assert(seq![f.1.level()] + rest =~= ser_u8(f.1.level()) + rest);
        assert(parse_filter(s) == Ok::<(FilterView, int), Error>((f, n + 1)));
        assert(s.skip(n + 1) =~= s.skip(n).skip(1));
        assert(s.skip(n + 1) == rest);
        assert forall|i: int| 0 <= i < fs.skip(1).len() implies text_fits(
            #[trigger] fs.skip(1)[i].0,
        ) by {
            assert(fs.skip(1)[i] == fs[i + 1]);
        }
        lemma_filters_round_trip(fs.skip(1));
        assert(seq![f] + fs.skip(1) =~= fs);
    } else {
        assert(fs =~= Seq::<FilterView>::empty());
    }
}

/// A SUBSCRIBE that was written reads back as itself.
pub proof fn lemma_subscribe_round_trip(v: SubscribeView)
    requires
        v.canonical(),
        v.fits(),
    ensures
        Subscribe::parse(v.ser_body()) == Ok::<SubscribeView, Error>(v),
        v.ser_body().len() >= 2,
{
    let body = v.ser_body();
    let rest1 = ser_block(v.properties) + ser_filters(v.topics);
    let n = ser_block(v.properties).len() as int;
    assert(body =~= ser_u16(v.pkid) + rest1);
    lemma_u16_round_trip(v.pkid, rest1);
    lemma_block_round_trip(v.properties, ser_filters(v.topics));
    assert(body.skip(2 + n) =~= body.skip(2).skip(n));
    lemma_filters_round_trip(v.topics);
    lemma_project_within(v.properties, |id: u8| SubscribeProperties::accepts(id));
}

} // verus!
