//! The session of a client: what it asked for when it connected, and the
//! deliveries above quality of service 0 that are under way.
use vstd::prelude::*;
use std::collections::VecDeque;
use crate::codec::ack::AckView;
use crate::codec::enums::{QoS, SubscribeReturnCodes};
use crate::codec::packet::{Packet, PacketView};
use crate::codec::puback::PubAck;
use crate::codec::pubcomp::PubComp;
use crate::codec::publish::{Publish, PublishView};
use crate::codec::pubrec::PubRec;
use crate::codec::pubrel::PubRel;
use crate::codec::suback::{SubAck, SubAckView};
use crate::codec::subscribe::SubscribeView;
use crate::codec::unsuback::{UnsubAck, UnsubAckView};
use crate::codec::will::{LastWill, LastWillView};
use crate::router::commitlog::publish_views;

verus! {

/// Why the session refused a packet.
#[derive(Debug, Clone, Copy, PartialEq, Eq, Structural)]
pub enum Error {
    /// An acknowledgement for a packet identifier that no delivery under
    /// way has.
    Unsolicited(u16),
}

/// The session of a client.
#[derive(Debug)]
pub struct MqttState {
    /// Whether the session ends with the connection.
    pub clean_session: bool,
    /// The will of the client.
    pub will: Option<LastWill>,
    /// The packet identifier that was given out last.
    pub last_pkid: u16,
    /// The publishes that were sent to the client above quality of service
    /// 0 and are not acknowledged, oldest first.
    pub outgoing_publishes: VecDeque<Publish>,
    /// The packet identifiers of the publishes to the client that were
    /// released and are not complete.
    pub outgoing_rel: Vec<u16>,
    /// The packet identifiers of the publishes from the client that were
    /// received at quality of service 2 and are not released.
    pub incoming_pub: Vec<u16>,
}

/// A session, as a mathematical value.
pub struct StateView {
    pub clean_session: bool,
    pub will: Option<LastWillView>,
    pub last_pkid: u16,
    pub outgoing_publishes: Seq<PublishView>,
    pub outgoing_rel: Seq<u16>,
    pub incoming_pub: Seq<u16>,
}

/// The packets that a vector of them stands for.
pub open spec fn packet_views(packets: Seq<Packet>) -> Seq<PacketView> {
    Seq::new(packets.len(), |i: int| packets[i]@)
}

/// Publishes with the quality of service that each was asked for at, as
/// plain values.
pub open spec fn retained_views(found: Seq<(Publish, QoS)>) -> Seq<(PublishView, QoS)> {
    Seq::new(found.len(), |i: int| (found[i].0@, found[i].1))
}

/// The view of an optional will.
pub open spec fn will_view(will: Option<LastWill>) -> Option<LastWillView> {
    match will {
        Some(w) => Some(w@),
        None => None,
    }
}

impl View for MqttState {
    type V = StateView;

    open spec fn view(&self) -> StateView {
        StateView {
            clean_session: self.clean_session,
            will: will_view(self.will),
            last_pkid: self.last_pkid,
            outgoing_publishes: publish_views(self.outgoing_publishes@),
            outgoing_rel: self.outgoing_rel@,
            incoming_pub: self.incoming_pub@,
        }
    }
}

/// The first place from `from` on at which `pkid` stands in `ids`, or the
/// length of `ids` where it stands at none.
pub open spec fn place_of(ids: Seq<u16>, pkid: u16, from: int) -> int
    decreases ids.len() - from,
{
    if from < 0 || from >= ids.len() || ids[from] == pkid {
        from
    } else {
        place_of(ids, pkid, from + 1)
    }
}

/// The packet identifiers of some publishes.
pub open spec fn pkids(publishes: Seq<PublishView>) -> Seq<u16> {
    Seq::new(publishes.len(), |i: int| publishes[i].pkid)
}

/// The packet identifier that follows `last`: 1 after 65,535, never 0.
pub open spec fn pkid_after(last: u16) -> u16 {
    if last == u16::MAX {
        1
    } else {
        (last + 1) as u16
    }
}

/// The lower of two levels of service.
pub open spec fn lower(a: QoS, b: QoS) -> QoS {
    if a.level() <= b.level() {
        a
    } else {
        b
    }
}

/// The answer of a session to a packet: the session after it, and what is
/// to be sent back.
pub struct Step {
    pub state: StateView,
    pub reply: Result<Option<PacketView>, Error>,
}

/// The SUBACK that grants every filter of a SUBSCRIBE the quality of
/// service that it asks for.
pub open spec fn granted(subscribe: SubscribeView) -> SubAckView {
    SubAckView {
        pkid: subscribe.pkid,
        return_codes: Seq::new(
            subscribe.topics.len(),
            |i: int| SubscribeReturnCodes::Success(subscribe.topics[i].1),
        ),
        properties: None,
    }
}

/// The acknowledgement with the reason code 0 and without properties.
pub open spec fn plain_ack(pkid: u16) -> AckView {
    AckView { pkid, reason_code: 0, properties: None }
}

impl StateView {
    /// A new session.
    pub open spec fn fresh(clean_session: bool, will: Option<LastWillView>) -> StateView {
        StateView {
            clean_session,
            will,
            last_pkid: 0,
            outgoing_publishes: Seq::empty(),
            outgoing_rel: Seq::empty(),
            incoming_pub: Seq::empty(),
        }
    }

    /// No delivery is under way.
    pub open spec fn idle(self) -> bool {
        self.outgoing_publishes.len() == 0 && self.outgoing_rel.len() == 0
            && self.incoming_pub.len() == 0
    }

    /// What the session does with a packet from its client.
    ///
    /// A publish at quality of service 1 is acknowledged; one at quality
    /// of service 2 is noted and answered with PUBREC. PUBACK ends the
    /// oldest delivery with its packet identifier. PUBREC releases that
    /// delivery and is answered with PUBREL; PUBREL ends the publish that
    /// was noted and is answered with PUBCOMP; PUBCOMP ends the release.
    /// An acknowledgement that belongs to no delivery is unsolicited and
    /// leaves the session as it is. SUBSCRIBE is answered with a SUBACK
    /// that grants every filter what it asks for, UNSUBSCRIBE with
    /// UNSUBACK, PINGREQ with PINGRESP.
    pub open spec fn receive(self, packet: PacketView) -> Step {
        match packet {
            PacketView::Publish(p) => match p.qos {
                QoS::AtMostOnce => Step { state: self, reply: Ok(None) },
                QoS::AtLeastOnce => Step {
                    state: self,
                    reply: Ok(Some(PacketView::PubAck(plain_ack(p.pkid)))),
                },
                QoS::ExactlyOnce => Step {
                    state: StateView { incoming_pub: self.incoming_pub.push(p.pkid), ..self },
                    reply: Ok(Some(PacketView::PubRec(plain_ack(p.pkid)))),
                },
            },
            PacketView::PubAck(a) => {
                let i = place_of(pkids(self.outgoing_publishes), a.pkid, 0);
                if i < self.outgoing_publishes.len() {
                    Step {
                        state: StateView {
                            outgoing_publishes: self.outgoing_publishes.remove(i),
                            ..self
                        },
                        reply: Ok(None),
                    }
                } else {
                    Step { state: self, reply: Err(Error::Unsolicited(a.pkid)) }
                }
            },
            PacketView::PubRec(a) => {
                let i = place_of(pkids(self.outgoing_publishes), a.pkid, 0);
                if i < self.outgoing_publishes.len() {
                    Step {
                        state: StateView {
                            outgoing_publishes: self.outgoing_publishes.remove(i),
                            outgoing_rel: self.outgoing_rel.push(a.pkid),
                            ..self
                        },
                        reply: Ok(Some(PacketView::PubRel(plain_ack(a.pkid)))),
                    }
                } else {
                    Step { state: self, reply: Err(Error::Unsolicited(a.pkid)) }
                }
            },
            PacketView::PubRel(a) => {
                let i = place_of(self.incoming_pub, a.pkid, 0);
                if i < self.incoming_pub.len() {
                    Step {
                        state: StateView { incoming_pub: self.incoming_pub.remove(i), ..self },
                        reply: Ok(Some(PacketView::PubComp(plain_ack(a.pkid)))),
                    }
                } else {
                    Step { state: self, reply: Err(Error::Unsolicited(a.pkid)) }
                }
            },
            PacketView::PubComp(a) => {
                let i = place_of(self.outgoing_rel, a.pkid, 0);
                if i < self.outgoing_rel.len() {
                    Step {
                        state: StateView { outgoing_rel: self.outgoing_rel.remove(i), ..self },
                        reply: Ok(None),
                    }
                } else {
                    Step { state: self, reply: Err(Error::Unsolicited(a.pkid)) }
                }
            },
            PacketView::Subscribe(s) => Step {
                state: self,
                reply: Ok(Some(PacketView::SubAck(granted(s)))),
            },
            PacketView::Unsubscribe(u) => Step {
                state: self,
                reply: Ok(
                    Some(
                        PacketView::UnsubAck(
                            UnsubAckView {
                                pkid: u.pkid,
                                reason_codes: Seq::empty(),
                                properties: None,
                            },
                        ),
                    ),
                ),
            },
            PacketView::PingReq => Step { state: self, reply: Ok(Some(PacketView::PingResp)) },
            _ => Step { state: self, reply: Ok(None) },
        }
    }

    /// The publish as it goes out to the client on a subscription of the
    /// quality of service `qos`: at the lower of the two levels, and above
    /// level 0 with the next packet identifier.
    pub open spec fn outgoing(self, qos: QoS, publish: PublishView) -> PublishView {
        let level = lower(publish.qos, qos);
        PublishView {
            qos: level,
            pkid: if level == QoS::AtMostOnce {
                0
            } else {
                pkid_after(self.last_pkid)
            },
            ..publish
        }
    }

    /// The session is a later one of `earlier`: it differs from it at most
    /// by publishes that have gone out since and are under way after those
    /// that were, and by the packet identifier that was given out last.
    pub open spec fn extends(self, earlier: StateView) -> bool {
        &&& self.clean_session == earlier.clean_session
        &&& self.will == earlier.will
        &&& self.outgoing_rel == earlier.outgoing_rel
        &&& self.incoming_pub == earlier.incoming_pub
        &&& earlier.outgoing_publishes.len() <= self.outgoing_publishes.len()
        &&& self.outgoing_publishes.take(earlier.outgoing_publishes.len() as int)
            == earlier.outgoing_publishes
    }

    /// The session after the first `n` of some publishes went out, one
    /// after the other.
    pub open spec fn sent_all(self, qos: QoS, publishes: Seq<PublishView>, n: int) -> StateView
        decreases n,
    {
        if n <= 0 || n > publishes.len() {
            self
        } else {
            self.sent_all(qos, publishes, n - 1).sent(qos, publishes[n - 1])
        }
    }

    /// The session after the first `n` of some publishes went out, each
    /// on a subscription of the quality of service that stands with it.
    pub open spec fn sent_each(self, publishes: Seq<(PublishView, QoS)>, n: int) -> StateView
        decreases n,
    {
        if n <= 0 || n > publishes.len() {
            self
        } else {
            self.sent_each(publishes, n - 1).sent(publishes[n - 1].1, publishes[n - 1].0)
        }
    }

    /// A batch of publishes as it goes out on a subscription of the
    /// quality of service `qos`: each publish as the session makes it
    /// ready after those before it.
    pub open spec fn batch(self, qos: QoS, publishes: Seq<PublishView>) -> Seq<PacketView> {
        Seq::new(
            publishes.len(),
            |i: int|
                PacketView::Publish(
                    self.sent_all(qos, publishes, i).outgoing(qos, publishes[i]),
                ),
        )
    }

    /// Retained publishes as they go out, each on a subscription of the
    /// quality of service that stands with it.
    pub open spec fn batch_each(self, publishes: Seq<(PublishView, QoS)>) -> Seq<PacketView> {
        Seq::new(
            publishes.len(),
            |i: int|
                PacketView::Publish(
                    self.sent_each(publishes, i).outgoing(publishes[i].1, publishes[i].0),
                ),
        )
    }

    /// The session after the publish went out: above quality of service 0
    /// the publish is under way.
    pub open spec fn sent(self, qos: QoS, publish: PublishView) -> StateView {
        let out = self.outgoing(qos, publish);
        if out.qos == QoS::AtMostOnce {
            self
        } else {
            StateView {
                last_pkid: out.pkid,
                outgoing_publishes: self.outgoing_publishes.push(out),
                ..self
            }
        }
    }
}

/// Sending publishes takes nothing from a session: what was under way
/// before is under way after, in its order and before what was sent.
pub proof fn lemma_sent_all_extends(state: StateView, qos: QoS, publishes: Seq<PublishView>, n: int)
    ensures
        state.sent_all(qos, publishes, n).extends(state),
    decreases n,
{
    if n <= 0 || n > publishes.len() {
        assert(state.outgoing_publishes.take(state.outgoing_publishes.len() as int)
            =~= state.outgoing_publishes);
    } else {
        lemma_sent_all_extends(state, qos, publishes, n - 1);
        let before = state.sent_all(qos, publishes, n - 1);
        let after = before.sent(qos, publishes[n - 1]);
        assert(after.outgoing_publishes.take(state.outgoing_publishes.len() as int)
            =~= before.outgoing_publishes.take(state.outgoing_publishes.len() as int));
    }
}

/// A later session of a later session is a later session.
pub proof fn lemma_extends_twice(first: StateView, second: StateView, third: StateView)
    requires
        second.extends(first),
        third.extends(second),
    ensures
        third.extends(first),
{
    assert(third.outgoing_publishes.take(first.outgoing_publishes.len() as int)
        =~= second.outgoing_publishes.take(first.outgoing_publishes.len() as int));
}

/// The place of `pkid` among some packet identifiers.
fn find_pkid(ids: &Vec<u16>, pkid: u16) -> (i: usize)
    ensures
        i == place_of(ids@, pkid, 0),
        i <= ids@.len(),
{
    let mut i: usize = 0;
    while i < ids.len() && ids[i] != pkid
        invariant
            i <= ids@.len(),
            place_of(ids@, pkid, 0) == place_of(ids@, pkid, i as int),
        decreases ids@.len() - i,
    {
        i = i + 1;
    }
    i
}

impl MqttState {
    /// A new session.
    pub fn new(clean_session: bool, will: Option<LastWill>) -> (s: MqttState)
        ensures
            s@ == StateView::fresh(clean_session, will_view(will)),
    {
        let s = MqttState {
            clean_session,
            will,
            last_pkid: 0,
            outgoing_publishes: VecDeque::new(),
            outgoing_rel: Vec::new(),
            incoming_pub: Vec::new(),
        };
        assert(s@.outgoing_publishes =~= Seq::<PublishView>::empty());
        s
    }

    /// The place of the oldest publish under way with the packet
    /// identifier `pkid`.
    fn find_outgoing(&self, pkid: u16) -> (i: usize)
        ensures
            i == place_of(pkids(self@.outgoing_publishes), pkid, 0),
            i <= self@.outgoing_publishes.len(),
    {
        let ghost ids = pkids(self@.outgoing_publishes);
        let mut i: usize = 0;
        while i < self.outgoing_publishes.len() && self.outgoing_publishes[i].pkid != pkid
            invariant
                i <= self.outgoing_publishes@.len(),
                ids == pkids(self@.outgoing_publishes),
                place_of(ids, pkid, 0) == place_of(ids, pkid, i as int),
            decreases self.outgoing_publishes@.len() - i,
        {
            i = i + 1;
        }
        i
    }

    /// Takes the publish under way at place `i` out of the session.
    fn end_outgoing(&mut self, i: usize)
        requires
            i < old(self)@.outgoing_publishes.len(),
        ensures
            final(self)@ == (StateView {
                outgoing_publishes: old(self)@.outgoing_publishes.remove(i as int),
                ..old(self)@
            }),
    {
        let _ = self.outgoing_publishes.remove(i);
        assert(self@.outgoing_publishes =~= old(self)@.outgoing_publishes.remove(i as int));
    }

    /// Takes a packet from the client of the session. The result is the
    /// packet to send back, if any.
    pub fn handle_incoming_mqtt_packet(&mut self, packet: &Packet) -> (r: Result<
        Option<Packet>,
        Error,
    >)
        ensures
            final(self)@ == old(self)@.receive(packet@).state,
            match old(self)@.receive(packet@).reply {
                Ok(Some(v)) => r matches Ok(Some(p)) && p@ == v,
                Ok(None) => r matches Ok(None),
                Err(e) => r matches Err(x) && x == e,
            },
    {
        match packet {
            Packet::Publish(p) => match p.qos {
                QoS::AtMostOnce => Ok(None),
                QoS::AtLeastOnce => Ok(Some(Packet::PubAck(PubAck::new(p.pkid, None)))),
                QoS::ExactlyOnce => {
                    self.incoming_pub.push(p.pkid);
                    Ok(Some(Packet::PubRec(PubRec::new(p.pkid))))
                },
            },
            Packet::PubAck(a) => {
                let i = self.find_outgoing(a.pkid);
                if i < self.outgoing_publishes.len() {
                    self.end_outgoing(i);
                    Ok(None)
                } else {
                    Err(Error::Unsolicited(a.pkid))
                }
            },
            Packet::PubRec(a) => {
                let i = self.find_outgoing(a.pkid);
                if i < self.outgoing_publishes.len() {
                    self.end_outgoing(i);
                    self.outgoing_rel.push(a.pkid);
                    Ok(Some(Packet::PubRel(PubRel::new(a.pkid, None))))
                } else {
                    Err(Error::Unsolicited(a.pkid))
                }
            },
            Packet::PubRel(a) => {
                let i = find_pkid(&self.incoming_pub, a.pkid);
                if i < self.incoming_pub.len() {
                    let _ = self.incoming_pub.remove(i);
                    Ok(Some(Packet::PubComp(PubComp::new(a.pkid, None))))
                } else {
                    Err(Error::Unsolicited(a.pkid))
                }
            },
            Packet::PubComp(a) => {
                let i = find_pkid(&self.outgoing_rel, a.pkid);
                if i < self.outgoing_rel.len() {
                    let _ = self.outgoing_rel.remove(i);
                    Ok(None)
                } else {
                    Err(Error::Unsolicited(a.pkid))
                }
            },
            Packet::Subscribe(s) => {
                let mut codes: Vec<SubscribeReturnCodes> = Vec::new();
                let mut i: usize = 0;
                while i < s.topics.len()
                    invariant
                        i <= s.topics@.len(),
                        codes@.len() == i,
                        forall|k: int|
                            0 <= k < i ==> #[trigger] codes@[k] == SubscribeReturnCodes::Success(
                                s@.topics[k].1,
                            ),
                    decreases s.topics@.len() - i,
                {
                    codes.push(SubscribeReturnCodes::Success(s.topics[i].qos));
                    i = i + 1;
                }
                let ack = SubAck::new(s.pkid, codes, None);
                assert(ack@.return_codes =~= granted(s@).return_codes);
                Ok(Some(Packet::SubAck(ack)))
            },
            Packet::Unsubscribe(u) => Ok(
                Some(
                    Packet::UnsubAck(
                        UnsubAck { pkid: u.pkid, reason_codes: Vec::new(), properties: None },
                    ),
                ),
            ),
            Packet::PingReq => Ok(Some(Packet::PingResp)),
            _ => Ok(None),
        }
    }

    /// Makes a publish ready to go out to the client on a subscription of
    /// the quality of service `qos`, and notes it as under way where it
    /// goes out above quality of service 0.
    pub fn handle_outgoing_publish(&mut self, qos: QoS, publish: &mut Publish)
        ensures
            final(publish)@ == old(self)@.outgoing(qos, old(publish)@),
            final(self)@ == old(self)@.sent(qos, old(publish)@),
    {
        let level = if publish.qos.code() <= qos.code() { publish.qos } else { qos };
        publish.qos = level;
        if level == QoS::AtMostOnce {
            publish.pkid = 0;
        } else {
            let pkid: u16 = if self.last_pkid == u16::MAX { 1 } else { self.last_pkid + 1 };
            publish.pkid = pkid;
            self.last_pkid = pkid;
            let copy = publish.duplicate();
            self.outgoing_publishes.push_back(copy);
            assert(self@.outgoing_publishes =~= old(self)@.outgoing_publishes.push(publish@));
        }
    }

    /// Makes a batch of publishes ready to go out to the client on a
    /// subscription of the quality of service `qos`, one after the other.
    /// The result is the batch as it goes out.
    pub fn handle_outgoing_publishes(&mut self, qos: QoS, publishes: &Vec<Publish>) -> (packets:
        Vec<Packet>)
        ensures
            final(self)@ == old(self)@.sent_all(
                qos,
                publish_views(publishes@),
                publishes@.len() as int,
            ),
            packet_views(packets@) == old(self)@.batch(qos, publish_views(publishes@)),
    {
        let ghost all = publish_views(publishes@);
        let mut packets: Vec<Packet> = Vec::new();
        let mut i: usize = 0;
        while i < publishes.len()
            invariant
                i <= publishes@.len(),
                all == publish_views(publishes@),
                self@ == old(self)@.sent_all(qos, all, i as int),
                packets@.len() == i,
                forall|k: int|
                    0 <= k < i ==> (#[trigger] packets@[k])@ == old(self)@.batch(qos, all)[k],
            decreases publishes@.len() - i,
        {
            let mut publish = publishes[i].duplicate();
            self.handle_outgoing_publish(qos, &mut publish);
            packets.push(Packet::Publish(publish));
            i = i + 1;
        }
        assert(packet_views(packets@) =~= old(self)@.batch(qos, all));
        packets
    }

    /// Makes retained publishes ready to go out to the client, each on a
    /// subscription of the quality of service that stands with it, one
    /// after the other. The result is the batch as it goes out.
    pub fn handle_retained_publishes(&mut self, publishes: &Vec<(Publish, QoS)>) -> (packets: Vec<
        Packet,
    >)
        ensures
            final(self)@ == old(self)@.sent_each(
                retained_views(publishes@),
                publishes@.len() as int,
            ),
            packet_views(packets@) == old(self)@.batch_each(retained_views(publishes@)),
    {
        let ghost all = retained_views(publishes@);
        let mut packets: Vec<Packet> = Vec::new();
        let mut i: usize = 0;
        while i < publishes.len()
            invariant
                i <= publishes@.len(),
                all == retained_views(publishes@),
                self@ == old(self)@.sent_each(all, i as int),
                packets@.len() == i,
                forall|k: int|
                    0 <= k < i ==> (#[trigger] packets@[k])@ == old(self)@.batch_each(all)[k],
            decreases publishes@.len() - i,
        {
            let mut publish = publishes[i].0.duplicate();
            self.handle_outgoing_publish(publishes[i].1, &mut publish);
            packets.push(Packet::Publish(publish));
            i = i + 1;
        }
        assert(packet_views(packets@) =~= old(self)@.batch_each(all));
        packets
    }

    /// The publishes that are under way, oldest first.
    pub fn pending(&self) -> (queue: VecDeque<Publish>)
        ensures
            publish_views(queue@) == self@.outgoing_publishes,
    {
        let mut queue: VecDeque<Publish> = VecDeque::new();
        let mut i: usize = 0;
        while i < self.outgoing_publishes.len()
            invariant
                i <= self.outgoing_publishes@.len(),
                publish_views(queue@) == self@.outgoing_publishes.take(i as int),
            decreases self.outgoing_publishes@.len() - i,
        {
            let ghost so_far = publish_views(queue@);
            let copy = self.outgoing_publishes[i].duplicate();
            assert(copy@ == self@.outgoing_publishes[i as int]);
            queue.push_back(copy);
            assert(publish_views(queue@) =~= so_far.push(copy@));
            i = i + 1;
            assert(publish_views(queue@) =~= self@.outgoing_publishes.take(i as int));
        }
        assert(self@.outgoing_publishes.take(i as int) =~= self@.outgoing_publishes);
        queue
    }
}

/// A publish at quality of service 1 is acknowledged under its packet
/// identifier and leaves nothing behind in the session: one in which no
/// delivery was under way is so after it.
pub proof fn lemma_qos1_publish_is_acknowledged(state: StateView, publish: PublishView)
    requires
        publish.qos == QoS::AtLeastOnce,
    ensures
        state.receive(PacketView::Publish(publish)).reply == Ok::<Option<PacketView>, Error>(
            Some(PacketView::PubAck(plain_ack(publish.pkid))),
        ),
        state.receive(PacketView::Publish(publish)).state == state,
        state.idle() ==> state.receive(PacketView::Publish(publish)).state.idle(),
{
}

/// An acknowledgement ends the delivery that it belongs to and no other:
/// after a publish went out above quality of service 0 from a session in
/// which nothing was under way, the acknowledgement of its packet
/// identifier leaves nothing under way.
pub proof fn lemma_acknowledgement_ends_delivery(state: StateView, qos: QoS, publish: PublishView)
    requires
        state.idle(),
        lower(publish.qos, qos) != QoS::AtMostOnce,
    ensures
        ({
            let sent = state.sent(qos, publish);
            let pkid = state.outgoing(qos, publish).pkid;
            &&& pkid != 0
            &&& sent.outgoing_publishes == seq![state.outgoing(qos, publish)]
            &&& sent.receive(PacketView::PubAck(plain_ack(pkid))).reply == Ok::<
                Option<PacketView>,
                Error,
            >(None)
            &&& sent.receive(PacketView::PubAck(plain_ack(pkid))).state.idle()
        }),
{
    let sent = state.sent(qos, publish);
    let out = state.outgoing(qos, publish);
    assert(sent.outgoing_publishes =~= seq![out]);
    assert(pkids(sent.outgoing_publishes)[0] == out.pkid);
    assert(sent.outgoing_publishes.remove(0) =~= Seq::<PublishView>::empty());
}

} // verus!
