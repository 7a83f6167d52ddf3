//! The routing engine of the broker.
//!
//! The router owns the commit log and the connections. It takes what the
//! connections send it, one message at a time, answers the sender, keeps
//! the publishes in the log and notes the subscriptions; and on every
//! tick it hands each connection the publishes that its subscriptions
//! have not yet read. It never waits for a connection: one whose channel
//! is full or closed is dropped, and its session is kept if it is
//! persistent.
pub mod channel;
pub mod commitlog;
pub mod connection;
pub mod state;
pub mod table;

pub use self::channel::{Outgoing, SendOutcome};
pub use self::commitlog::{CommitLog, Messages, Segment};
pub use self::connection::{ActiveConnection, InactiveConnection, Subscription};
pub use self::state::MqttState;

use vstd::prelude::*;
use tokio::sync::mpsc::Sender;
use crate::codec::connect::Connect;
use crate::codec::disconnect::Disconnect;
use crate::codec::enums::QoS;
use crate::codec::packet::{Packet, PacketView};
use crate::codec::publish::{Publish, PublishView};
use crate::codec::reasoncodes::ReasonCode;
use crate::codec::topic::{has_wildcards, SubscribeTopic};
use crate::codec::will::LastWillView;
use crate::codec::subscribe::Subscribe;
use crate::router::channel::try_send;
use crate::router::commitlog::{publish_views, retained_pairs, LogView, MessagesView};
use crate::router::connection::{covers, cursor_of, next_offset, Subscriptions};
use crate::router::state::{retained_views, will_view, StateView};
use crate::router::table::{put, Table};

verus! {

/// Why the router refused a message.
#[derive(Debug)]
pub enum Error {
    /// The session of the sender refused the packet.
    State(state::Error),
    /// A connection came without a channel to answer on.
    AllSendersDown,
}

/// A new connection: what the client asked for and the channel on which
/// the router sends to it.
#[derive(Debug)]
pub struct Connection {
    pub connect: Connect,
    pub handle: Option<Sender<Outgoing>>,
}

impl Connection {
    /// A connection with its channel.
    pub fn new(connect: Connect, handle: Sender<Outgoing>) -> (c: Connection)
        ensures
            c.connect == connect,
            c.handle == Some(handle),
    {
        Connection { connect, handle: Some(handle) }
    }
}

/// What a connection sends to the router.
#[derive(Debug)]
pub enum RouterMessage {
    /// A client has connected.
    Connect(Connection),
    /// A packet from the client.
    Packet(Packet),
    /// The connection of the client has died.
    Death(String),
}

/// The router.
#[derive(Debug)]
pub struct Router {
    /// The publishes, by topic.
    pub commitlog: CommitLog,
    /// The connections that are there, by client id.
    pub active_connections: Table<ActiveConnection>,
    /// The sessions of the persistent clients that are gone, by client id.
    pub inactive_connections: Table<InactiveConnection>,
}

/// An active connection, as a mathematical value.
pub struct ConnectionView {
    pub state: StateView,
    pub tx: Sender<Outgoing>,
    pub subscriptions: Subscriptions,
    pub wild_cursors: Seq<(Seq<char>, (u64, usize))>,
}

impl View for ActiveConnection {
    type V = ConnectionView;

    open spec fn view(&self) -> ConnectionView {
        ConnectionView {
            state: self.state@,
            tx: self.tx,
            subscriptions: self.subscriptions(),
            wild_cursors: self.wild_cursors.pairs(),
        }
    }
}

/// The router, as a mathematical value.
pub struct RouterView {
    pub log: LogView,
    pub active: Map<Seq<char>, ConnectionView>,
    pub inactive: Map<Seq<char>, StateView>,
}

/// The read of a tick that a channel refused: the subscription without
/// wildcards at a place of its table, or the subscription with wildcards at
/// a place of its table and the topic at a place of the log's topics.
#[derive(Debug, Clone, Copy, PartialEq, Eq, Structural)]
pub enum Refusal {
    Concrete(usize),
    Wild(usize, usize),
}

/// The cursor of a subscription after a tick in which the channel took
/// its batch: after the last publish of the batch that stood to be read,
/// or where it was if none did.
pub open spec fn moved_cursor(log: LogView, entry: (Seq<char>, Subscription)) -> (u64, usize) {
    match batch_at(log, entry.0, entry.1.offset) {
        Some(batch) => (batch.segment_id, next_offset(batch.log_offset)),
        None => entry.1.offset,
    }
}

/// The batch that stands to be read at a cursor in a topic, if any.
pub open spec fn batch_at(log: LogView, topic: Seq<char>, cursor: (u64, usize)) -> Option<
    MessagesView,
> {
    log.read(topic, cursor.0, cursor.1, BATCH_SIZE)
}

impl ConnectionView {
    /// A connection without subscriptions.
    pub open spec fn fresh(state: StateView, tx: Sender<Outgoing>) -> ConnectionView {
        ConnectionView {
            state,
            tx,
            subscriptions: Subscriptions { concrete: Seq::empty(), wild: Seq::empty() },
            wild_cursors: Seq::empty(),
        }
    }

    /// The connection after its session made a batch ready to go out on a
    /// subscription of the quality of service `qos`.
    pub open spec fn noted(self, qos: QoS, batch: MessagesView) -> ConnectionView {
        ConnectionView {
            state: self.state.sent_all(qos, batch.packets, batch.packets.len() as int),
            ..self
        }
    }

    /// The batch that stands to be read for the subscription without
    /// wildcards at place `j`: what the log holds of its topic at its
    /// cursor.
    pub open spec fn concrete_batch(self, log: LogView, j: int) -> Option<MessagesView> {
        batch_at(log, self.subscriptions.concrete[j].0, self.subscriptions.concrete[j].1.offset)
    }

    /// The connection after the subscription without wildcards at place
    /// `j` was served and the channel took the batch: the session has made
    /// the batch ready, and the cursor of the subscription stands after
    /// the last publish of the batch. Without a batch nothing changes.
    pub open spec fn served_concrete(self, log: LogView, j: int) -> ConnectionView {
        match self.concrete_batch(log, j) {
            None => self,
            Some(batch) => {
                let entry = self.subscriptions.concrete[j];
                ConnectionView {
                    subscriptions: Subscriptions {
                        concrete: self.subscriptions.concrete.update(
                            j,
                            (
                                entry.0,
                                Subscription {
                                    qos: entry.1.qos,
                                    offset: (batch.segment_id, next_offset(batch.log_offset)),
                                },
                            ),
                        ),
                        ..self.subscriptions
                    },
                    ..self.noted(entry.1.qos, batch)
                }
            },
        }
    }

    /// The connection after its first `n` subscriptions without wildcards
    /// were served, in the order of their table.
    pub open spec fn after_concrete(self, log: LogView, n: int) -> ConnectionView
        decreases n,
    {
        if n <= 0 || n > self.subscriptions.concrete.len() {
            self
        } else {
            self.after_concrete(log, n - 1).served_concrete(log, n - 1)
        }
    }

    /// The batch that stands to be read for the subscription with
    /// wildcards at place `w` in the topic at place `t` of the log: what
    /// the log holds of the topic at the cursor that the connection has in
    /// it, where the filter covers the topic.
    pub open spec fn wild_batch(self, log: LogView, w: int, t: int) -> Option<MessagesView> {
        if covers(self.subscriptions.wild[w].0, log.topics[t]) {
            batch_at(log, log.topics[t], cursor_of(self.wild_cursors, log.topics[t]))
        } else {
            None
        }
    }

    /// The connection after the subscription with wildcards at place `w`
    /// was served in the topic at place `t` and the channel took the
    /// batch: the session has made the batch ready, and the cursor of the
    /// connection in the topic stands after the last publish of the batch.
    /// Without a batch nothing changes.
    pub open spec fn served_wild(self, log: LogView, w: int, t: int) -> ConnectionView {
        match self.wild_batch(log, w, t) {
            None => self,
            Some(batch) => ConnectionView {
                wild_cursors: put(
                    self.wild_cursors,
                    log.topics[t],
                    (batch.segment_id, next_offset(batch.log_offset)),
                ),
                ..self.noted(self.subscriptions.wild[w].1.qos, batch)
            },
        }
    }

    /// The connection after the subscription with wildcards at place `w`
    /// was served in the first `t` topics of the log.
    pub open spec fn after_topics(self, log: LogView, w: int, t: int) -> ConnectionView
        decreases t,
    {
        if t <= 0 || t > log.topics.len() {
            self
        } else {
            self.after_topics(log, w, t - 1).served_wild(log, w, t - 1)
        }
    }

    /// The connection after its first `w` subscriptions with wildcards
    /// were served, each in all the topics of the log.
    pub open spec fn after_wild(self, log: LogView, w: int) -> ConnectionView
        decreases w,
    {
        if w <= 0 || w > self.subscriptions.wild.len() {
            self
        } else {
            self.after_wild(log, w - 1).after_topics(log, w - 1, log.topics.len() as int)
        }
    }

    /// The connection after a tick in which its channel took every batch:
    /// the subscriptions without wildcards were served in the order of
    /// their table, and after them those with wildcards, each in the
    /// topics of the log in their order.
    pub open spec fn delivered(self, log: LogView) -> ConnectionView {
        self.after_concrete(log, self.subscriptions.concrete.len() as int).after_wild(
            log,
            self.subscriptions.wild.len() as int,
        )
    }

    /// The connection after a tick in which its channel refused the batch
    /// of the read `refusal`, if a batch stood to be read there: every
    /// read before it was served, the session has made the refused batch
    /// ready, and the cursor of the refused read and all that follows stay
    /// as they were.
    pub open spec fn refused(self, log: LogView, refusal: Refusal) -> Option<ConnectionView> {
        match refusal {
            Refusal::Concrete(j) => {
                let before = self.after_concrete(log, j as int);
                if j < self.subscriptions.concrete.len() {
                    match before.concrete_batch(log, j as int) {
                        Some(batch) => Some(
                            before.noted(before.subscriptions.concrete[j as int].1.qos, batch),
                        ),
                        None => None,
                    }
                } else {
                    None
                }
            },
            Refusal::Wild(w, t) => {
                let before = self.after_concrete(
                    log,
                    self.subscriptions.concrete.len() as int,
                ).after_wild(log, w as int).after_topics(log, w as int, t as int);
                if w < self.subscriptions.wild.len() && t < log.topics.len() {
                    match before.wild_batch(log, w as int, t as int) {
                        Some(batch) => Some(
                            before.noted(before.subscriptions.wild[w as int].1.qos, batch),
                        ),
                        None => None,
                    }
                } else {
                    None
                }
            },
        }
    }

    /// Nothing stands to be read for the connection: the log holds
    /// nothing at the cursor of any of its subscriptions.
    pub open spec fn nothing_to_read(self, log: LogView) -> bool {
        &&& forall|j: int|
            0 <= j < self.subscriptions.concrete.len() ==> (#[trigger] self.concrete_batch(
                log,
                j,
            )) is None
        &&& forall|w: int, t: int|
            0 <= w < self.subscriptions.wild.len() && 0 <= t < log.topics.len() ==> (
            #[trigger] self.wild_batch(log, w, t)) is None
    }
}

impl RouterView {
    /// The session that a connecting client gets: the one that the router
    /// kept for it, where the client asks for it and the router has one;
    /// a new one otherwise.
    pub open spec fn session_for(
        self,
        id: Seq<char>,
        clean_session: bool,
        will: Option<LastWillView>,
    ) -> StateView {
        if !clean_session && self.inactive.contains_key(id) {
            self.inactive[id]
        } else {
            StateView::fresh(clean_session, will)
        }
    }

    /// The router after a client connected: the client is active with its
    /// session and without subscriptions, in place of an earlier
    /// connection under the same id, and no session is kept for it.
    pub open spec fn connected(
        self,
        id: Seq<char>,
        clean_session: bool,
        will: Option<LastWillView>,
        tx: Sender<Outgoing>,
    ) -> RouterView {
        RouterView {
            active: self.active.insert(
                id,
                ConnectionView::fresh(self.session_for(id, clean_session, will), tx),
            ),
            inactive: self.inactive.remove(id),
            ..self
        }
    }

    /// The publishes that a connecting client is handed: those that its
    /// session holds as under way, oldest first.
    pub open spec fn pending_for(
        self,
        id: Seq<char>,
        clean_session: bool,
        will: Option<LastWillView>,
    ) -> Seq<PublishView> {
        self.session_for(id, clean_session, will).outgoing_publishes
    }

    /// The router after a packet from a client came in: the session of
    /// the client, if it is active, has taken the packet.
    pub open spec fn received(self, id: Seq<char>, packet: PacketView) -> RouterView {
        if self.active.contains_key(id) {
            RouterView {
                active: self.active.insert(
                    id,
                    ConnectionView {
                        state: self.active[id].state.receive(packet).state,
                        ..self.active[id]
                    },
                ),
                ..self
            }
        } else {
            self
        }
    }

    /// The packet that goes back to a client for a packet from it.
    pub open spec fn answer(self, id: Seq<char>, packet: PacketView) -> Option<PacketView> {
        if self.active.contains_key(id) {
            match self.active[id].state.receive(packet).reply {
                Ok(reply) => reply,
                Err(_) => None,
            }
        } else {
            None
        }
    }

    /// The retained publishes that a subscribe asks for, each with the
    /// quality of service asked for it.
    pub open spec fn retained_of(self, subscribe: Subscribe) -> Seq<(PublishView, QoS)> {
        retained_for(
            self.log.retained,
            crate::codec::subscribe::filters_view(subscribe.topics@),
            subscribe.topics@.len() as int,
        )
    }

    /// The router after a subscribe of a client: the client, if it is
    /// active, has the subscriptions that its filters make, and its
    /// session holds the retained publishes that they ask for as gone
    /// out.
    pub open spec fn subscribed(self, id: Seq<char>, subscribe: Subscribe) -> RouterView {
        if self.active.contains_key(id) {
            RouterView {
                active: self.active.insert(
                    id,
                    ConnectionView {
                        state: self.active[id].state.sent_each(
                            self.retained_of(subscribe),
                            self.retained_of(subscribe).len() as int,
                        ),
                        subscriptions: self.active[id].subscriptions.subscribed_all(
                            subscribe,
                            subscribe.topics@.len() as int,
                        ),
                        ..self.active[id]
                    },
                ),
                ..self
            }
        } else {
            self
        }
    }

    /// The router after an unsubscribe of a client: the subscriptions of
    /// the client, if it is active, are without the filters that the
    /// packet names.
    pub open spec fn unsubscribed(
        self,
        id: Seq<char>,
        unsubscribe: crate::codec::unsubscribe::Unsubscribe,
    ) -> RouterView {
        if self.active.contains_key(id) {
            RouterView {
                active: self.active.insert(
                    id,
                    ConnectionView {
                        subscriptions: self.active[id].subscriptions.unsubscribed_all(
                            unsubscribe,
                            unsubscribe.topics@.len() as int,
                        ),
                        ..self.active[id]
                    },
                ),
                ..self
            }
        } else {
            self
        }
    }

    /// What became of the sessions from an earlier router to this one,
    /// whose log is the same: a client is active only if it was, with a
    /// later session of its own; a session that was kept is kept as it
    /// was; and a client that is no longer active is kept with a later
    /// session of its own if it is persistent, and gone if it is not.
    pub open spec fn follows(self, earlier: RouterView) -> bool {
        &&& self.log == earlier.log
        &&& forall|id: Seq<char>|
            #![trigger self.active.contains_key(id)]
            self.active.contains_key(id) ==> earlier.active.contains_key(id)
                && self.active[id].state.extends(earlier.active[id].state)
        &&& forall|id: Seq<char>|
            #![trigger earlier.inactive.contains_key(id)]
            earlier.inactive.contains_key(id) ==> self.inactive.contains_key(id)
                && self.inactive[id] == earlier.inactive[id]
        &&& forall|id: Seq<char>|
            #![trigger self.inactive.contains_key(id)]
            !earlier.inactive.contains_key(id) && self.inactive.contains_key(id)
                ==> earlier.active.contains_key(id) && !self.active.contains_key(id)
                && !earlier.active[id].state.clean_session && self.inactive[id].extends(
                earlier.active[id].state,
            )
        &&& forall|id: Seq<char>|
            #![trigger earlier.active.contains_key(id)]
            earlier.active.contains_key(id) && !self.active.contains_key(id)
                && !earlier.active[id].state.clean_session ==> self.inactive.contains_key(id)
    }

    /// What noting a packet of a client makes of the router: `after` is
    /// the router after it. A publish is taken by the log as `took`
    /// says; a client that subscribed has its new subscriptions, and is
    /// let go only where retained publishes were to be sent and its
    /// channel did not take them; a client that unsubscribed is without
    /// the filters it named; a client that disconnected is let go; any
    /// other packet changes nothing.
    pub open spec fn noted_as(self, id: Seq<char>, packet: Packet, after: RouterView) -> bool {
        match packet {
            Packet::Publish(p) => {
                &&& after.active == self.active
                &&& after.inactive == self.inactive
                &&& self.log.took(p@, after.log)
            },
            Packet::Subscribe(s) => after == self.subscribed(id, s) || (self.retained_of(s).len()
                > 0 && after == self.subscribed(id, s).deactivated(id)),
            Packet::Unsubscribe(u) => after == self.unsubscribed(id, u),
            Packet::Disconnect(_) => after == self.deactivated(id),
            _ => after == self,
        }
    }

    /// The router after the connections that the first `n` of `ids` name
    /// were let go, one after the other.
    pub open spec fn let_go_all(self, ids: Seq<Seq<char>>, n: int) -> RouterView
        decreases n,
    {
        if n <= 0 || n > ids.len() {
            self
        } else {
            self.let_go_all(ids, n - 1).deactivated(ids[n - 1])
        }
    }

    /// What the first half of a tick makes of the router: `after` is the
    /// router after it and `refused` names the connections whose channel
    /// refused a batch. The same connections are active; each of those
    /// named is as a refusal of one of its reads leaves it, and each
    /// other one is `delivered`.
    pub open spec fn handed(self, after: RouterView, refused: Seq<Seq<char>>) -> bool {
        &&& forall|id: Seq<char>| after.active.contains_key(id) == self.active.contains_key(id)
        &&& forall|id: Seq<char>|
            #![trigger after.active.contains_key(id)]
            after.active.contains_key(id) ==> handed_one(
                self.active[id],
                self.log,
                after.active[id],
                refused.contains(id),
            ) && after.active[id].state.extends(self.active[id].state)
        &&& forall|id: Seq<char>| refused.contains(id) ==> after.active.contains_key(id)
    }

    /// Whether a client that was let go with the session `state` is kept
    /// as it should be: with that session if it is persistent, and not at
    /// all if it is not.
    pub open spec fn keeps(self, id: Seq<char>, state: StateView) -> bool {
        if state.clean_session {
            !self.inactive.contains_key(id)
        } else {
            self.inactive.contains_key(id) && self.inactive[id] == state
        }
    }

    /// What a tick makes of the router: `after` is the router after it.
    /// The log stays. A connection that is active after the tick was
    /// active before and is `delivered`: its channel took every batch.
    /// A connection that was active and is not was refused a batch that
    /// stood to be read, and is kept, where it is persistent, with its
    /// session as it was after that batch. Every session that was kept
    /// is kept as it was, and no other session is kept.
    pub open spec fn ticked(self, after: RouterView) -> bool {
        &&& after.log == self.log
        &&& forall|id: Seq<char>|
            #![trigger after.active.contains_key(id)]
            after.active.contains_key(id) ==> self.active.contains_key(id) && after.active[id]
                == self.active[id].delivered(self.log)
        &&& forall|id: Seq<char>|
            #![trigger self.active.contains_key(id)]
            self.active.contains_key(id) && !after.active.contains_key(id) ==> exists|
                refusal: Refusal,
            |
                let_go_after(self.active[id], self.log, refusal, after, id)
        &&& forall|id: Seq<char>|
            #![trigger self.inactive.contains_key(id)]
            self.inactive.contains_key(id) ==> after.inactive.contains_key(id)
                && after.inactive[id] == self.inactive[id]
        &&& forall|id: Seq<char>|
            #![trigger after.inactive.contains_key(id)]
            after.inactive.contains_key(id) ==> self.inactive.contains_key(id) || (
            self.active.contains_key(id) && !after.active.contains_key(id))
    }

    /// The will of an active client, if it has one.
    pub open spec fn will_of(self, id: Seq<char>) -> Option<LastWillView> {
        if self.active.contains_key(id) {
            self.active[id].state.will
        } else {
            None
        }
    }

    /// The connections after the connection of a client died: the client
    /// is no longer active, and its session is kept, without the will,
    /// where it is persistent.
    pub open spec fn died(self, id: Seq<char>) -> RouterView {
        if !self.active.contains_key(id) {
            self
        } else if self.active[id].state.clean_session {
            RouterView { active: self.active.remove(id), ..self }
        } else {
            RouterView {
                active: self.active.remove(id),
                inactive: self.inactive.insert(
                    id,
                    StateView { will: None, ..self.active[id].state },
                ),
                ..self
            }
        }
    }

    /// The router after a connection went away: it is no longer active,
    /// and its session is kept where it is persistent.
    pub open spec fn deactivated(self, id: Seq<char>) -> RouterView {
        if !self.active.contains_key(id) {
            self
        } else if self.active[id].state.clean_session {
            RouterView { active: self.active.remove(id), ..self }
        } else {
            RouterView {
                active: self.active.remove(id),
                inactive: self.inactive.insert(id, self.active[id].state),
                ..self
            }
        }
    }
}

/// What answering a packet of a client makes of the router: the session
/// of the client has taken the packet, and the client is let go where its
/// channel did not take the answer.
pub open spec fn answers(
    before: RouterView,
    id: Seq<char>,
    packet: PacketView,
    after: RouterView,
) -> bool {
    after == before.received(id, packet) || (before.answer(id, packet) is Some && after
        == before.received(id, packet).deactivated(id))
}

/// The names that a vector of strings holds.
pub open spec fn names(ids: Seq<String>) -> Seq<Seq<char>> {
    Seq::new(ids.len(), |i: int| ids[i]@)
}

/// What the first half of a tick makes of one connection: where its
/// channel refused a batch, it is as the refusal of one of its reads
/// leaves it, and where not, it is `delivered`.
pub open spec fn handed_one(
    before: ConnectionView,
    log: LogView,
    after: ConnectionView,
    refused: bool,
) -> bool {
    if refused {
        exists|refusal: Refusal| #[trigger] before.refused(log, refusal) == Some(after)
    } else {
        after == before.delivered(log)
    }
}

/// The channel of a connection refused the batch of the read `refusal`,
/// which stood to be read, and the connection was let go: `after` keeps
/// its session as it was after that batch, if it is persistent.
pub open spec fn let_go_after(
    connection: ConnectionView,
    log: LogView,
    refusal: Refusal,
    after: RouterView,
    id: Seq<char>,
) -> bool {
    match connection.refused(log, refusal) {
        Some(left) => after.keeps(id, left.state),
        None => false,
    }
}

/// What a connection is told whose client has connected anew: a
/// DISCONNECT without properties whose reason is that the session was
/// taken over.
pub fn takeover_notice() -> (notice: Outgoing)
    ensures
        notice matches Outgoing::Packet(Packet::Disconnect(disconnect))
            && disconnect.reason_code == 142 && disconnect.properties is None,
{
    Outgoing::Packet(
        Packet::Disconnect(
            Disconnect { reason_code: ReasonCode::SESSION_TAKE_OVER, properties: None },
        ),
    )
}

/// Two tables of subscriptions hold the same filters in the same order and
/// grant each the same quality of service: they differ at most in their
/// cursors.
pub open spec fn same_grants(later: connection::Entries, earlier: connection::Entries) -> bool {
    &&& later.len() == earlier.len()
    &&& forall|i: int|
        0 <= i < later.len() ==> (#[trigger] later[i]).0 == earlier[i].0 && later[i].1.qos
            == earlier[i].1.qos
}

/// The number of publishes that a connection is handed at once for one
/// subscription.
pub const BATCH_SIZE: usize = 100;

/// The payload bytes from which on a segment of the router's log is full:
/// ten megabytes.
pub const SEGMENT_SIZE: usize = 10_485_760;

/// The number of segments that the router's log keeps for a topic.
pub const SEGMENTS_PER_TOPIC: usize = 100;

/// The publish that a will asks for.
pub open spec fn will_publish(will: LastWillView) -> PublishView {
    PublishView {
        qos: will.qos,
        pkid: 0,
        topic: will.topic,
        payload: vstd::utf8::encode_utf8(will.message),
        dup: false,
        retain: will.retain,
        properties: None,
    }
}

/// Whether a filter selects the retained publish of a topic: a filter
/// with a wildcard where it matches the topic, any other one where it is
/// the topic.
pub open spec fn selects(filter: Seq<char>, topic: Seq<char>) -> bool {
    if connection::is_wild(filter) {
        connection::covers(filter, topic)
    } else {
        topic == filter
    }
}

/// Those of the first `n` retained publishes that `filter` selects.
pub open spec fn retained_matching(
    retained: Seq<(Seq<char>, PublishView)>,
    filter: Seq<char>,
    qos: QoS,
    n: int,
) -> Seq<(PublishView, QoS)>
    decreases n,
{
    if n <= 0 || n > retained.len() {
        Seq::empty()
    } else if selects(filter, retained[n - 1].0) {
        retained_matching(retained, filter, qos, n - 1).push((retained[n - 1].1, qos))
    } else {
        retained_matching(retained, filter, qos, n - 1)
    }
}

/// The retained publishes that the first `m` filters select, filter by
/// filter.
pub open spec fn retained_for(
    retained: Seq<(Seq<char>, PublishView)>,
    filters: Seq<crate::codec::subscribe::FilterView>,
    m: int,
) -> Seq<(PublishView, QoS)>
    decreases m,
{
    if m <= 0 || m > filters.len() {
        Seq::empty()
    } else {
        retained_for(retained, filters, m - 1) + retained_matching(
            retained,
            filters[m - 1].0,
            filters[m - 1].1,
            retained.len() as int,
        )
    }
}

impl View for Router {
    type V = RouterView;

    open spec fn view(&self) -> RouterView {
        RouterView {
            log: self.commitlog@,
            active: Map::new(
                |id: Seq<char>| self.active_connections.has(id),
                |id: Seq<char>| self.active_connections.value_of(id)@,
            ),
            inactive: Map::new(
                |id: Seq<char>| self.inactive_connections.has(id),
                |id: Seq<char>| self.inactive_connections.value_of(id).state@,
            ),
        }
    }
}

impl Router {
    /// The log and the tables are in order, every active connection is,
    /// and no client is both active and gone.
    pub open spec fn wf(&self) -> bool {
        &&& self.commitlog.wf()
        &&& self.active_connections.wf()
        &&& self.inactive_connections.wf()
        &&& forall|i: int|
            0 <= i < self.active_connections.entries@.len() ==> (
            #[trigger] self.active_connections.entries@[i]).1.wf()
        &&& forall|id: Seq<char>|
            !(self.active_connections.has(id) && self.inactive_connections.has(id))
    }

    /// Whether the router is in order.
    pub fn is_wf(&self) -> (b: bool)
        ensures
            b == self.wf(),
    {
        if !self.commitlog.is_wf() || !self.active_connections.is_wf()
            || !self.inactive_connections.is_wf() {
            return false;
        }
        let mut i: usize = 0;
        while i < self.active_connections.len()
            invariant
                self.active_connections.wf(),
                self.inactive_connections.wf(),
                i <= self.active_connections.entries@.len(),
                forall|k: int|
                    0 <= k < i ==> (#[trigger] self.active_connections.entries@[k]).1.wf(),
                forall|k: int|
                    0 <= k < i ==> !self.inactive_connections.has(
                        (#[trigger] self.active_connections.entries@[k]).0@,
                    ),
            decreases self.active_connections.entries@.len() - i,
        {
            if !self.active_connections.value_at(i).is_wf() {
                return false;
            }
            let id = self.active_connections.key_at(i).as_str();
            if self.inactive_connections.position(id).is_some() {
                proof {
                    self.active_connections.lemma_index(i as int);
                }
                return false;
            }
            i = i + 1;
        }
        proof {
            assert forall|id: Seq<char>|
                !(self.active_connections.has(id) && self.inactive_connections.has(id)) by {
                if self.active_connections.has(id) {
                    let k = self.active_connections.index_of(id);
                    assert(self.active_connections.entries@[k].0@ == id);
                }
            }
        }
        true
    }

    /// A router without connections and with an empty log, which holds
    /// for every topic a hundred segments of ten megabytes.
    pub fn new() -> (r: Router)
        ensures
            r.wf(),
            r@ == (RouterView {
                log: LogView {
                    topics: Seq::empty(),
                    partitions: Map::empty(),
                    retained: Seq::empty(),
                    max_segment_size: SEGMENT_SIZE,
                    segments_per_partition: SEGMENTS_PER_TOPIC,
                    current_segment_id: 0,
                },
                active: Map::empty(),
                inactive: Map::empty(),
            }),
    {
        let commitlog = CommitLog::new(SEGMENT_SIZE, SEGMENTS_PER_TOPIC).unwrap();
        let r = Router {
            commitlog,
            active_connections: Table::new(),
            inactive_connections: Table::new(),
        };
        assert(r@.active =~= Map::<Seq<char>, ConnectionView>::empty());
        assert(r@.inactive =~= Map::<Seq<char>, StateView>::empty());
        r
    }

    /// Takes a client in. A client that asks for a clean session, or for
    /// which no session is kept, gets a new session; any other gets the
    /// session that was kept for it. The client is active from now on, in
    /// place of an earlier connection under the same id, which is sent a
    /// DISCONNECT that says that its session was taken over. The answer
    /// holds the publishes that the session holds as under way, oldest
    /// first.
    pub fn handle_connect(&mut self, connect: &Connect, connection_handle: Sender<Outgoing>) -> (r:
        Result<Option<Outgoing>, Error>)
        requires
            old(self).wf(),
        ensures
            final(self).wf(),
            final(self)@ == old(self)@.connected(
                connect@.client_id,
                connect.flags.clean_session,
                will_view(connect.last_will_spec()),
                connection_handle,
            ),
            r matches Ok(Some(Outgoing::Pending(queue))) && publish_views(queue@)
                == old(self)@.pending_for(
                connect@.client_id,
                connect.flags.clean_session,
                will_view(connect.last_will_spec()),
            ),
    {
        let id = connect.payload.client_id.clone();
        let clean_session = connect.flags.clean_session;
        match self.active_connections.position(id.as_str()) {
            Some(earlier) => {
                // the connection that is displaced is told so; whether it hears it
                // makes no difference
                let _ = try_send(
                    &self.active_connections.value_at(earlier).tx,
                    takeover_notice(),
                );
            },
            None => {},
        }
        let kept = self.inactive_connections.remove(id.as_str());
        let state = match kept {
            Some(connection) => {
                if clean_session {
                    MqttState::new(clean_session, connect.last_will())
                } else {
                    connection.state
                }
            },
            None => MqttState::new(clean_session, connect.last_will()),
        };
        let pending = state.pending();
        let connection = ActiveConnection::new(connection_handle, state);
        let ghost held = *self;
        let _ = self.active_connections.insert(id, connection);
        proof {
            let key = connect@.client_id;
            self.lemma_after_insert(held, key, connection);
            assert(self@.inactive =~= old(self)@.inactive.remove(key)) by {
                old(self).lemma_views();
                self.lemma_views();
                held.lemma_views();
            }
            assert(self@.active =~= old(self)@.active.insert(key, connection@)) by {
                old(self).lemma_views();
                self.lemma_views();
                held.lemma_views();
            }
            assert(connection@ == ConnectionView::fresh(
                old(self)@.session_for(
                    key,
                    clean_session,
                    will_view(connect.last_will_spec()),
                ),
                connection_handle,
            )) by {
                old(self).lemma_views();
                assert(connection@.subscriptions.concrete =~= Seq::empty());
                assert(connection@.subscriptions.wild =~= Seq::empty());
                assert(connection@.wild_cursors =~= Seq::empty());
            }
        }
        Ok(Some(Outgoing::Pending(pending)))
    }

    /// Lets a connection go. Its session is kept where it is persistent.
    pub fn deactivate(&mut self, id: &str)
        requires
            old(self).wf(),
        ensures
            final(self).wf(),
            final(self)@ == old(self)@.deactivated(id@),
            final(self).commitlog == old(self).commitlog,
    {
        let ghost held = *self;
        match self.active_connections.remove(id) {
            Some(connection) => {
                let ghost mid = *self;
                proof {
                    old(self).lemma_views();
                    mid.lemma_views();
                    mid.lemma_after_remove(held, id@);
                    assert(mid@.active =~= old(self)@.active.remove(id@));
                }
                if !connection.state.clean_session {
                    let ghost state = connection.state;
                    let _ = self.inactive_connections.insert(
                        id.to_owned(),
                        InactiveConnection::new(connection.state),
                    );
                    proof {
                        self.lemma_views();
                        assert(self@.inactive =~= old(self)@.inactive.insert(id@, state@));
                        assert(self@.active =~= mid@.active);
                    }
                }
            },
            None => {
                proof {
                    old(self).lemma_views();
                    self.lemma_views();
                    assert(self@.active =~= old(self)@.active);
                }
            },
        }
    }

    /// Adds a publish to the commit log. A publish that starts no segment
    /// is in the log after it. One that starts a segment is, unless the
    /// clock gave no time for the segment: it is dropped, and only noted
    /// among the retained publishes. Every publish is dropped once the
    /// log has given out all its segment ids.
    pub fn fill_commitlog(&mut self, publish: Publish)
        requires
            old(self).wf(),
        ensures
            final(self).wf(),
            final(self).active_connections == old(self).active_connections,
            final(self).inactive_connections == old(self).inactive_connections,
            old(self)@.log.took(publish@, final(self)@.log),
            old(self).commitlog.current_segment_id == u64::MAX ==> final(self)@.log
                == old(self)@.log,
            old(self).commitlog.current_segment_id < u64::MAX ==> final(self)@.log.retained
                == old(self)@.log.retained_after(publish@),
    {
        let _ = self.commitlog.fill(publish);
    }

    /// What the session of a client answers to a packet from it. An
    /// acknowledgement that the session did not expect is passed over. A
    /// client that is not active gets no answer.
    pub fn handle_incoming_packet(&mut self, id: &str, packet: &Packet) -> (r: Result<
        Option<Outgoing>,
        Error,
    >)
        requires
            old(self).wf(),
        ensures
            final(self).wf(),
            final(self)@ == old(self)@.received(id@, packet@),
            match old(self)@.answer(id@, packet@) {
                Some(v) => r matches Ok(Some(Outgoing::Packet(p))) && p@ == v,
                None => r matches Ok(None),
            },
    {
        let index = match self.active_connections.position(id) {
            Some(index) => index,
            None => {
                proof {
                    old(self).lemma_views();
                    assert(self@.active =~= old(self)@.active);
                }
                return Ok(None);
            },
        };
        proof {
            old(self).lemma_views();
            old(self).active_connections.lemma_index(index as int);
        }
        let connection = self.active_connections.value_at_mut(index);
        let answer = connection.state.handle_incoming_mqtt_packet(packet);
        proof {
            let before = old(self).active_connections;
            let after = self.active_connections;
            let changed = after.entries@[index as int].1;
            assert(after.keys() =~= before.keys());
            assert forall|i: int, j: int|
                0 <= i < j < after.entries@.len() implies after.entries@[i].0@
                != after.entries@[j].0@ by {
                assert(before.entries@[i].0@ != before.entries@[j].0@);
            }
            assert forall|k: Seq<char>| after.has(k) == before.has(k) by {
                if after.has(k) {
                    let j = after.index_of(k);
                    assert(before.entries@[j].0@ == k);
                }
                if before.has(k) {
                    let j = before.index_of(k);
                    assert(after.entries@[j].0@ == k);
                }
            }
            assert forall|k: Seq<char>| after.has(k) implies after.value_of(k) == (if k == id@ {
                changed
            } else {
                before.value_of(k)
            }) by {
                let j = after.index_of(k);
                after.lemma_index(j);
                before.lemma_index(j);
            }
            assert(changed.wf());
            self.lemma_views();
            assert(self@.active =~= old(self)@.active.insert(id@, changed@));
            assert(self@.inactive =~= old(self)@.inactive);
        }
        match answer {
            Ok(Some(reply)) => Ok(Some(Outgoing::Packet(reply))),
            Ok(None) => Ok(None),
            Err(state::Error::Unsolicited(_)) => Ok(None),
        }
    }

    /// What follows from an attempt to send to a client: a client whose
    /// channel did not take the message is let go.
    pub fn settle(&mut self, id: &str, outcome: SendOutcome)
        requires
            old(self).wf(),
        ensures
            final(self).wf(),
            final(self)@ == (if outcome == SendOutcome::Sent {
                old(self)@
            } else {
                old(self)@.deactivated(id@)
            }),
    {
        match outcome {
            SendOutcome::Sent => {},
            _ => self.deactivate(id),
        }
    }

    /// Sends a message to a client, if it is active. A client whose
    /// channel is full or closed is let go.
    pub fn forward(&mut self, id: &str, message: Outgoing)
        requires
            old(self).wf(),
        ensures
            final(self).wf(),
            final(self)@ == old(self)@ || final(self)@ == old(self)@.deactivated(id@),
    {
        match self.active_connections.position(id) {
            Some(index) => {
                let outcome = try_send(&self.active_connections.value_at(index).tx, message);
                self.settle(id, outcome);
            },
            None => {},
        }
    }

    /// Lets a connection go whose client has died: the will of the client
    /// is published, and the session is kept, without the will, where it
    /// is persistent.
    pub fn deactivate_and_forward_will(&mut self, id: &str)
        requires
            old(self).wf(),
        ensures
            final(self).wf(),
            final(self)@.active == old(self)@.died(id@).active,
            final(self)@.inactive == old(self)@.died(id@).inactive,
            match old(self)@.will_of(id@) {
                Some(will) => old(self)@.log.took(will_publish(will), final(self)@.log),
                None => final(self)@.log == old(self)@.log,
            },
            old(self).commitlog.current_segment_id == u64::MAX ==> final(self)@.log
                == old(self)@.log,
    {
        let ghost held = *self;
        match self.active_connections.remove(id) {
            Some(connection) => {
                let ghost mid = *self;
                proof {
                    old(self).lemma_views();
                    mid.lemma_views();
                    mid.lemma_after_remove(held, id@);
                    assert(mid@.active =~= old(self)@.active.remove(id@));
                }
                let ActiveConnection { state, .. } = connection;
                let MqttState {
                    clean_session,
                    will,
                    last_pkid,
                    outgoing_publishes,
                    outgoing_rel,
                    incoming_pub,
                } = state;
                match will {
                    Some(will) => {
                        let payload = vstd::slice::slice_to_vec(will.message.as_str().as_bytes());
                        let mut publish = Publish::new(will.topic.as_str(), will.qos, payload);
                        publish.retain = will.retain;
                        self.fill_commitlog(publish);
                    },
                    None => {},
                }
                let ghost filled = *self;
                if !clean_session {
                    let rest = MqttState {
                        clean_session,
                        will: None,
                        last_pkid,
                        outgoing_publishes,
                        outgoing_rel,
                        incoming_pub,
                    };
                    let ghost kept = rest@;
                    let _ = self.inactive_connections.insert(
                        id.to_owned(),
                        InactiveConnection::new(rest),
                    );
                    proof {
                        filled.lemma_views();
                        self.lemma_views();
                        assert(self@.inactive =~= old(self)@.inactive.insert(id@, kept));
                        assert(self@.active =~= mid@.active);
                    }
                }
            },
            None => {
                proof {
                    old(self).lemma_views();
                    self.lemma_views();
                    assert(self@.active =~= old(self)@.active);
                }
            },
        }
    }

    /// The retained publishes that the filters of a subscribe ask for:
    /// for each filter in turn those whose topic it selects, in the order
    /// of the log's table, each with the quality of service asked for.
    pub fn match_retainted_publishes(&self, topics: &Vec<SubscribeTopic>) -> (r: Vec<
        (Publish, QoS),
    >)
        requires
            self.wf(),
        ensures
            retained_views(r@) == retained_for(
                retained_pairs(self.commitlog.retained),
                crate::codec::subscribe::filters_view(topics@),
                topics@.len() as int,
            ),
    {
        let ghost pairs = retained_pairs(self.commitlog.retained);
        let ghost filters = crate::codec::subscribe::filters_view(topics@);
        let mut found: Vec<(Publish, QoS)> = Vec::new();
        assert(retained_views(found@) =~= retained_for(pairs, filters, 0));
        let mut i: usize = 0;
        while i < topics.len()
            invariant
                i <= topics@.len(),
                pairs == retained_pairs(self.commitlog.retained),
                filters == crate::codec::subscribe::filters_view(topics@),
                retained_views(found@) == retained_for(pairs, filters, i as int),
            decreases topics@.len() - i,
        {
            let filter = topics[i].topic_path.as_str();
            let qos = topics[i].qos;
            let wild: bool = has_wildcards(filter);
            let ghost base = retained_views(found@);
            assert(base + retained_matching(pairs, filters[i as int].0, qos, 0) =~= base);
            let mut j: usize = 0;
            while j < self.commitlog.retained.len()
                invariant
                    j <= pairs.len(),
                    i < topics@.len(),
                    pairs == retained_pairs(self.commitlog.retained),
                    filters == crate::codec::subscribe::filters_view(topics@),
                    filter@ == filters[i as int].0,
                    qos == filters[i as int].1,
                    wild == connection::is_wild(filter@),
                    retained_views(found@) == base + retained_matching(
                        pairs,
                        filter@,
                        qos,
                        j as int,
                    ),
                decreases pairs.len() - j,
            {
                let topic = self.commitlog.retained.key_at(j).as_str();
                let selected: bool = if wild {
                    connection::is_covered(filter, topic)
                } else {
                    table::same_text(topic, filter)
                };
                let ghost so_far = retained_views(found@);
                if selected {
                    let copy = self.commitlog.retained.value_at(j).duplicate();
                    found.push((copy, qos));
                    assert(retained_views(found@) =~= so_far.push((pairs[j as int].1, qos)));
                }
                j = j + 1;
                assert(retained_views(found@) =~= base + retained_matching(
                    pairs,
                    filter@,
                    qos,
                    j as int,
                ));
            }
            i = i + 1;
        }
        found
    }

    /// Notes what a packet asks of the router, after its sender was
    /// answered: a publish goes to the commit log, a subscribe and an
    /// unsubscribe change the subscriptions of the sender, and a
    /// disconnect lets the sender go. The retained publishes that a
    /// subscribe asks for are sent to the sender at once.
    pub fn fill_and_track(&mut self, id: &str, packet: Packet)
        requires
            old(self).wf(),
        ensures
            final(self).wf(),
            old(self)@.noted_as(id@, packet, final(self)@),
    {
        match packet {
            Packet::Publish(publish) => {
                self.fill_commitlog(publish);
                proof {
                    old(self).lemma_views();
                    self.lemma_views();
                    assert(self@.active =~= old(self)@.active);
                    assert(self@.inactive =~= old(self)@.inactive);
                }
            },
            Packet::Subscribe(subscribe) => {
                let outcome = self.track_subscribe(id, subscribe);
                proof {
                    old(self).lemma_views();
                    self.lemma_views();
                }
                self.settle(id, outcome);
            },
            Packet::Unsubscribe(unsubscribe) => {
                match self.active_connections.position(id) {
                    Some(index) => {
                        proof {
                            old(self).lemma_views();
                            old(self).active_connections.lemma_index(index as int);
                        }
                        let connection = self.active_connections.value_at_mut(index);
                        connection.remove_from_subscriptions(unsubscribe);
                        proof {
                            self.lemma_after_change(*old(self), index as int);
                            self.lemma_views();
                            let changed = self.active_connections.entries@[index as int].1;
                            assert(self@.active =~= old(self)@.active.insert(id@, changed@));
                            assert(self@.inactive =~= old(self)@.inactive);
                        }
                    },
                    None => {
                        proof {
                            old(self).lemma_views();
                            assert(self@.active =~= old(self)@.active);
                        }
                    },
                }
            },
            Packet::Disconnect(_) => self.deactivate(id),
            _ => {},
        }
    }

    /// Adds the subscriptions of a SUBSCRIBE to those of its sender and
    /// sends the sender the retained publishes that the filters ask for,
    /// each at the lower of its own quality of service and the one asked
    /// for. The result is how the sending ended; where nothing was to be
    /// sent it counts as sent.
    pub fn track_subscribe(&mut self, id: &str, subscribe: Subscribe) -> (outcome: SendOutcome)
        requires
            old(self).wf(),
        ensures
            final(self).wf(),
            final(self)@ == old(self)@.subscribed(id@, subscribe),
            !old(self)@.active.contains_key(id@) ==> outcome == SendOutcome::Sent,
            old(self)@.retained_of(subscribe).len() == 0 ==> outcome == SendOutcome::Sent,
    {
        let index = match self.active_connections.position(id) {
            Some(index) => index,
            None => {
                proof {
                    old(self).lemma_views();
                }
                return SendOutcome::Sent;
            },
        };
        let retained = self.match_retainted_publishes(&subscribe.topics);
        proof {
            old(self).lemma_views();
            old(self).active_connections.lemma_index(index as int);
        }
        let connection = self.active_connections.value_at_mut(index);
        connection.add_to_subscriptions(subscribe);
        let mut outcome = SendOutcome::Sent;
        if retained.len() > 0 {
            let packets = connection.state.handle_retained_publishes(&retained);
            outcome = try_send(&connection.tx, Outgoing::Packets(packets));
        }
        proof {
            self.lemma_after_change(*old(self), index as int);
            self.lemma_views();
            let changed = self.active_connections.entries@[index as int].1;
            assert(self@.active =~= old(self)@.active.insert(id@, changed@));
            assert(self@.inactive =~= old(self)@.inactive);
        }
        outcome
    }

    /// Hands a connection the publishes that its subscriptions have not
    /// yet read: for each subscription without wildcards, in the order of
    /// their table, the batch at its cursor in its topic; and after them
    /// for each subscription with wildcards, in the order of their table,
    /// and each topic of the log that it covers, in the order of the log,
    /// the batch at the cursor that the connection has in that topic. The
    /// session makes each batch ready, the batch is handed to the channel,
    /// and the cursor moves past a batch that the channel took.
    ///
    /// Whether the channel takes a batch is the channel's to say. The
    /// result is nothing where it took them all, and the connection is
    /// `delivered`. Where it refused one, the result is that read, nothing
    /// more is sent, and the connection is as `refused` says: the reads
    /// before were served, the session has made the refused batch ready,
    /// and its cursor and what follows stay. A connection for which
    /// nothing stands to be read is handed nothing and stays as it was.
    pub fn deliver(connection: &mut ActiveConnection, log: &CommitLog) -> (slow: Option<Refusal>)
        requires
            old(connection).wf(),
            log.wf(),
        ensures
            final(connection).wf(),
            match slow {
                None => final(connection)@ == old(connection)@.delivered(log@),
                Some(refusal) => old(connection)@.refused(log@, refusal) == Some(
                    final(connection)@,
                ),
            },
            old(connection)@.nothing_to_read(log@) ==> slow is None && final(connection)@
                == old(connection)@,
            slow is None ==> forall|j: int|
                0 <= j < old(connection).concrete_subscriptions.pairs().len() ==> (
                #[trigger] final(connection).concrete_subscriptions.pairs()[j]).1.offset
                    == moved_cursor(log@, old(connection).concrete_subscriptions.pairs()[j]),
            final(connection).state@.extends(old(connection).state@),
            same_grants(
                final(connection).concrete_subscriptions.pairs(),
                old(connection).concrete_subscriptions.pairs(),
            ),
            final(connection).wild_subscriptions == old(connection).wild_subscriptions,
    {
        let ghost start = connection@;
        let ghost view = log@;
        proof {
            state::lemma_sent_all_extends(old(connection).state@, QoS::AtMostOnce, Seq::empty(), 0);
            if start.nothing_to_read(view) {
                lemma_nothing_to_read(start, view);
            }
        }
        let mut j: usize = 0;
        while j < connection.concrete_subscriptions.len()
            invariant
                connection.wf(),
                log.wf(),
                view == log@,
                start == old(connection)@,
                j <= connection.concrete_subscriptions.entries@.len(),
                connection.concrete_subscriptions.entries@.len()
                    == start.subscriptions.concrete.len(),
                connection@ == start.after_concrete(view, j as int),
                connection.state@.extends(old(connection).state@),
                same_grants(
                    connection.concrete_subscriptions.pairs(),
                    old(connection).concrete_subscriptions.pairs(),
                ),
                connection.wild_subscriptions == old(connection).wild_subscriptions,
            decreases connection.concrete_subscriptions.entries@.len() - j,
        {
            let ghost before = connection@;
            let subscription = *connection.concrete_subscriptions.value_at(j);
            assert(connection.concrete_subscriptions.pairs()[j as int].1 == subscription);
            let batch = log.get(
                connection.concrete_subscriptions.key_at(j).as_str(),
                subscription.offset.0,
                subscription.offset.1,
                BATCH_SIZE,
            );
            match batch {
                Some(messages) => {
                    let segment_id: u64 = messages.segment_id;
                    let log_offset: usize = messages.log_offset;
                    let ghost earlier = connection.state@;
                    let outcome = Self::send_batch(connection, subscription.qos, messages);
                    proof {
                        state::lemma_extends_twice(
                            old(connection).state@,
                            earlier,
                            connection.state@,
                        );
                    }
                    connection.advance(j, outcome, segment_id, log_offset);
                    match outcome {
                        SendOutcome::Sent => {
                            assert(connection@ == before.served_concrete(view, j as int));
                        },
                        _ => {
                            assert(connection@ == before.noted(subscription.qos, messages@));
                            assert(start.refused(view, Refusal::Concrete(j)) == Some(connection@));
                            proof {
                                if start.nothing_to_read(view) {
                                    lemma_nothing_to_read(start, view);
                                }
                            }
                            return Some(Refusal::Concrete(j));
                        },
                    }
                },
                None => {
                    assert(connection@ == before.served_concrete(view, j as int));
                },
            }
            j = j + 1;
        }
        let ghost halfway = connection@;
        assert(halfway == start.after_concrete(view, start.subscriptions.concrete.len() as int));
        let mut w: usize = 0;
        while w < connection.wild_subscriptions.len()
            invariant
                connection.wf(),
                log.wf(),
                view == log@,
                start == old(connection)@,
                halfway == start.after_concrete(view, start.subscriptions.concrete.len() as int),
                w <= connection.wild_subscriptions.entries@.len(),
                connection.wild_subscriptions.entries@.len() == start.subscriptions.wild.len(),
                halfway.subscriptions.wild == start.subscriptions.wild,
                connection@ == halfway.after_wild(view, w as int),
                connection.state@.extends(old(connection).state@),
                same_grants(
                    connection.concrete_subscriptions.pairs(),
                    old(connection).concrete_subscriptions.pairs(),
                ),
                connection.wild_subscriptions == old(connection).wild_subscriptions,
            decreases connection.wild_subscriptions.entries@.len() - w,
        {
            let ghost base = connection@;
            assert(view.topics.len() == log.partitions.entries@.len());
            let qos = connection.wild_subscriptions.value_at(w).qos;
            assert(connection.wild_subscriptions.pairs()[w as int].1.qos == qos);
            let mut t: usize = 0;
            while t < log.partitions.len()
                invariant
                    connection.wf(),
                    log.wf(),
                    view == log@,
                    start == old(connection)@,
                    w < connection.wild_subscriptions.entries@.len(),
                    t <= log.partitions.entries@.len(),
                    halfway == start.after_concrete(
                        view,
                        start.subscriptions.concrete.len() as int,
                    ),
                    connection.wild_subscriptions.entries@.len() == start.subscriptions.wild.len(),
                    view.topics.len() == log.partitions.entries@.len(),
                    base.subscriptions.wild == start.subscriptions.wild,
                    base.subscriptions.wild[w as int].1.qos == qos,
                    base == halfway.after_wild(view, w as int),
                    connection@ == base.after_topics(view, w as int, t as int),
                    connection.state@.extends(old(connection).state@),
                    same_grants(
                        connection.concrete_subscriptions.pairs(),
                        old(connection).concrete_subscriptions.pairs(),
                    ),
                    connection.wild_subscriptions == old(connection).wild_subscriptions,
                decreases log.partitions.entries@.len() - t,
            {
                let ghost before = connection@;
                let topic = log.partitions.key_at(t);
                assert(view.topics[t as int] == topic@);
                assert(connection.wild_subscriptions.pairs()[w as int].0
                    == before.subscriptions.wild[w as int].0);
                if connection::is_covered(
                    connection.wild_subscriptions.key_at(w).as_str(),
                    topic.as_str(),
                ) {
                    let cursor = connection.wild_cursor(topic.as_str());
                    match log.get(topic.as_str(), cursor.0, cursor.1, BATCH_SIZE) {
                        Some(messages) => {
                            let segment_id: u64 = messages.segment_id;
                            let log_offset: usize = messages.log_offset;
                            let ghost earlier = connection.state@;
                            let outcome = Self::send_batch(connection, qos, messages);
                            proof {
                                state::lemma_extends_twice(
                                    old(connection).state@,
                                    earlier,
                                    connection.state@,
                                );
                            }
                            connection.advance_wild(
                                topic.as_str(),
                                outcome,
                                segment_id,
                                log_offset,
                            );
                            match outcome {
                                SendOutcome::Sent => {
                                    assert(connection@ == before.served_wild(
                                        view,
                                        w as int,
                                        t as int,
                                    ));
                                },
                                _ => {
                                    assert(connection@ == before.noted(qos, messages@));
                                    assert(before.subscriptions.wild == start.subscriptions.wild);
                                    assert(before.wild_batch(view, w as int, t as int) == Some(
                                        messages@,
                                    ));
                                    assert(start.refused(view, Refusal::Wild(w, t)) == Some(
                                        connection@,
                                    ));
                                    proof {
                                        if start.nothing_to_read(view) {
                                            lemma_nothing_to_read(start, view);
                                        }
                                    }
                                    return Some(Refusal::Wild(w, t));
                                },
                            }
                        },
                        None => {
                            assert(connection@ == before.served_wild(view, w as int, t as int));
                        },
                    }
                } else {
                    assert(connection@ == before.served_wild(view, w as int, t as int));
                }
                t = t + 1;
            }
            w = w + 1;
        }
        proof {
            if start.nothing_to_read(view) {
                lemma_nothing_to_read(start, view);
            }
            lemma_delivered_cursors(start, view);
        }
        None
    }

    /// Sends a batch of publishes to a connection on a subscription of the
    /// quality of service `qos`. Each publish goes out at the lower of its
    /// own quality of service and that of the subscription, and is noted
    /// by the session as under way where that is above 0. What is handed
    /// to the channel is the batch that the session made ready.
    pub fn send_batch(
        connection: &mut ActiveConnection,
        qos: QoS,
        messages: commitlog::Messages,
    ) -> (outcome: SendOutcome)
        ensures
            final(connection).tx == old(connection).tx,
            final(connection).concrete_subscriptions == old(connection).concrete_subscriptions,
            final(connection).wild_subscriptions == old(connection).wild_subscriptions,
            final(connection).wild_cursors == old(connection).wild_cursors,
            final(connection).state@ == old(connection).state@.sent_all(
                qos,
                messages@.packets,
                messages@.packets.len() as int,
            ),
            final(connection).state@.extends(old(connection).state@),
    {
        proof {
            state::lemma_sent_all_extends(
                old(connection).state@,
                qos,
                messages@.packets,
                messages@.packets.len() as int,
            );
        }
        let packets = connection.state.handle_outgoing_publishes(qos, &messages.packets);
        try_send(&connection.tx, Outgoing::Packets(packets))
    }

    /// The first half of a tick: every active connection is handed the
    /// publishes that its subscriptions have not yet read. The result
    /// names the connections whose channel refused a batch. No connection
    /// comes or goes, and the log and the sessions that are kept stay as
    /// they are.
    pub fn deliver_all(&mut self) -> (graveyard: Vec<String>)
        requires
            old(self).wf(),
        ensures
            final(self).wf(),
            final(self).commitlog == old(self).commitlog,
            final(self)@.log == old(self)@.log,
            final(self)@.inactive == old(self)@.inactive,
            old(self)@.handed(final(self)@, names(graveyard@)),
    {
        let mut graveyard: Vec<String> = Vec::new();
        let ghost log = self.commitlog@;
        let mut i: usize = 0;
        proof {
            old(self).lemma_views();
            assert forall|id: Seq<char>|
                old(self)@.active.contains_key(id) implies old(self)@.active[id].state.extends(
                old(self)@.active[id].state,
            ) by {
                state::lemma_sent_all_extends(
                    old(self)@.active[id].state,
                    QoS::AtMostOnce,
                    Seq::empty(),
                    0,
                );
            }
        }
        while i < self.active_connections.len()
            invariant
                self.wf(),
                old(self).wf(),
                log == old(self)@.log,
                self.commitlog == old(self).commitlog,
                self.inactive_connections == old(self).inactive_connections,
                self.active_connections.keys() == old(self).active_connections.keys(),
                i <= self.active_connections.entries@.len(),
                forall|id: Seq<char>|
                    self@.active.contains_key(id) == old(self)@.active.contains_key(id),
                forall|id: Seq<char>|
                    self@.active.contains_key(id) ==> (#[trigger] self@.active[id]).state.extends(
                        old(self)@.active[id].state,
                    ),
                forall|id: Seq<char>|
                    #![trigger self@.active.contains_key(id)]
                    self@.active.contains_key(id) && self.active_connections.index_of(id) >= i
                        ==> self@.active[id] == old(self)@.active[id] && !names(
                        graveyard@,
                    ).contains(id),
                forall|id: Seq<char>|
                    #![trigger self@.active.contains_key(id)]
                    self@.active.contains_key(id) && self.active_connections.index_of(id) < i
                        ==> handed_one(
                        old(self)@.active[id],
                        log,
                        self@.active[id],
                        names(graveyard@).contains(id),
                    ),
                forall|id: Seq<char>|
                    names(graveyard@).contains(id) ==> self@.active.contains_key(id),
            decreases self.active_connections.entries@.len() - i,
        {
            let ghost before = *self;
            let ghost buried = names(graveyard@);
            proof {
                before.lemma_views();
                before.active_connections.lemma_index(i as int);
            }
            let ghost changed = before.active_connections.entries@[i as int].0@;
            let connection = self.active_connections.value_at_mut(i);
            let slow = Self::deliver(connection, &self.commitlog);
            if slow.is_some() {
                graveyard.push(self.active_connections.key_at(i).clone());
            }
            proof {
                self.lemma_after_change(before, i as int);
                self.lemma_views();
                let now = names(graveyard@);
                if slow is Some {
                    assert(now =~= buried.push(changed));
                    assert(now[now.len() - 1] == changed);
                } else {
                    assert(now =~= buried);
                }
                assert forall|id: Seq<char>| id != changed implies now.contains(id)
                    == buried.contains(id) by {
                    if now.contains(id) {
                        let g = choose|g: int| 0 <= g < now.len() && now[g] == id;
                        assert(buried[g] == id);
                    }
                    if buried.contains(id) {
                        let g = choose|g: int| 0 <= g < buried.len() && buried[g] == id;
                        assert(now[g] == id);
                    }
                }
                assert forall|id: Seq<char>|
                    self@.active.contains_key(id) && id != changed implies self@.active[id]
                    == before@.active[id] && self.active_connections.index_of(id)
                    == before.active_connections.index_of(id)
                    && self.active_connections.index_of(id) != i by {
                    let k = before.active_connections.index_of(id);
                    before.active_connections.lemma_index(k);
                    self.active_connections.lemma_index(k);
                }
                self.active_connections.lemma_index(i as int);
                assert(handed_one(
                    old(self)@.active[changed],
                    log,
                    self@.active[changed],
                    now.contains(changed),
                )) by {
                    assert(before@.active[changed] == old(self)@.active[changed]);
                    assert(!buried.contains(changed));
                    match slow {
                        Some(refusal) => {
                            assert(old(self)@.active[changed].refused(log, refusal) == Some(
                                self@.active[changed],
                            ));
                        },
                        None => {
                            assert(!now.contains(changed));
                        },
                    }
                }
                assert forall|id: Seq<char>| self@.active.contains_key(id) implies (
                #[trigger] self@.active[id]).state.extends(old(self)@.active[id].state) by {
                    if id == changed {
                        state::lemma_extends_twice(
                            old(self)@.active[id].state,
                            before@.active[id].state,
                            self@.active[id].state,
                        );
                    }
                }
            }
            i = i + 1;
        }
        proof {
            self.lemma_views();
            old(self).lemma_views();
            assert(self@.inactive =~= old(self)@.inactive);
            assert forall|id: Seq<char>|
                #![trigger self@.active.contains_key(id)]
                self@.active.contains_key(id) implies self.active_connections.index_of(id) < i by {
                assert(self.active_connections.has(id));
            }
        }
        graveyard
    }

    /// The second half of a tick: the connections that `graveyard` names
    /// are let go, one after the other.
    pub fn bury(&mut self, graveyard: &Vec<String>)
        requires
            old(self).wf(),
        ensures
            final(self).wf(),
            final(self).commitlog == old(self).commitlog,
            final(self)@ == old(self)@.let_go_all(names(graveyard@), graveyard@.len() as int),
    {
        let mut k: usize = 0;
        while k < graveyard.len()
            invariant
                self.wf(),
                k <= graveyard@.len(),
                self.commitlog == old(self).commitlog,
                self@ == old(self)@.let_go_all(names(graveyard@), k as int),
            decreases graveyard@.len() - k,
        {
            self.deactivate(graveyard[k].as_str());
            k = k + 1;
        }
    }

    /// The tick of the router: every active connection is handed the
    /// publishes that its subscriptions have not yet read, and a
    /// connection whose channel refuses a batch is let go.
    ///
    /// Whether a channel takes a batch is the channel's to say. What
    /// holds whatever it says: the log stays as it is; a connection that
    /// is active after the tick is `delivered`, so that one with nothing
    /// to read is as it was; a connection that is not was refused a batch
    /// that stood to be read, and is kept, if it is persistent, with the
    /// session as it was after that batch; and the sessions that were
    /// kept before are kept as they were.
    pub fn route(&mut self)
        requires
            old(self).wf(),
        ensures
            final(self).wf(),
            final(self).commitlog == old(self).commitlog,
            old(self)@.ticked(final(self)@),
            final(self)@.follows(old(self)@),
            forall|id: Seq<char>, j: int|
                #![trigger final(self)@.active[id].subscriptions.concrete[j]]
                final(self)@.active.contains_key(id) && 0 <= j
                    < old(self)@.active[id].subscriptions.concrete.len()
                    ==> final(self)@.active[id].subscriptions.concrete[j].1.offset == moved_cursor(
                    old(self)@.log,
                    old(self)@.active[id].subscriptions.concrete[j],
                ),
            forall|id: Seq<char>|
                #![trigger final(self)@.active.contains_key(id)]
                old(self)@.active.contains_key(id) && old(self)@.active[id].nothing_to_read(
                    old(self)@.log,
                ) ==> final(self)@.active.contains_key(id) && final(self)@.active[id]
                    == old(self)@.active[id],
    {
        let graveyard = self.deliver_all();
        let ghost mid = self@;
        proof {
            self.lemma_views();
        }
        self.bury(&graveyard);
        proof {
            old(self).lemma_views();
            lemma_let_go_all(mid, names(graveyard@), graveyard@.len() as int);
            lemma_tick(old(self)@, mid, names(graveyard@), self@);
            let before = old(self)@;
            let after = self@;
            assert forall|id: Seq<char>, j: int|
                #![trigger after.active[id].subscriptions.concrete[j]]
                after.active.contains_key(id) && 0 <= j
                    < before.active[id].subscriptions.concrete.len()
                    implies after.active[id].subscriptions.concrete[j].1.offset == moved_cursor(
                before.log,
                before.active[id].subscriptions.concrete[j],
            ) by {
                lemma_delivered_cursors(before.active[id], before.log);
            }
            assert forall|id: Seq<char>|
                #![trigger after.active.contains_key(id)]
                before.active.contains_key(id) && before.active[id].nothing_to_read(
                    before.log,
                ) implies after.active.contains_key(id) && after.active[id]
                == before.active[id] by {
                lemma_nothing_to_read(before.active[id], before.log);
                if !after.active.contains_key(id) {
                    let refusal = choose|refusal: Refusal|
                        let_go_after(before.active[id], before.log, refusal, after, id);
                    assert(before.active[id].refused(before.log, refusal) is None);
                }
            }
        }
    }

    /// The answer to a message, for its sender. A client that connects is
    /// taken in, and the channel of the connection leaves the message; a
    /// packet goes to the session of the sender. A connection without a
    /// channel is refused.
    pub fn reply(&mut self, id: &str, message: &mut RouterMessage) -> (r: Result<
        Option<Outgoing>,
        Error,
    >)
        requires
            old(self).wf(),
        ensures
            final(self).wf(),
            match *old(message) {
                RouterMessage::Connect(connection) => match connection.handle {
                    Some(handle) => {
                        &&& r matches Ok(Some(Outgoing::Pending(queue))) && publish_views(queue@)
                            == old(self)@.pending_for(
                            connection.connect@.client_id,
                            connection.connect.flags.clean_session,
                            will_view(connection.connect.last_will_spec()),
                        )
                        &&& final(self)@ == old(self)@.connected(
                            connection.connect@.client_id,
                            connection.connect.flags.clean_session,
                            will_view(connection.connect.last_will_spec()),
                            handle,
                        )
                        &&& *final(message) == RouterMessage::Connect(
                            Connection { connect: connection.connect, handle: None },
                        )
                    },
                    None => {
                        &&& r matches Err(Error::AllSendersDown)
                        &&& final(self)@ == old(self)@
                        &&& *final(message) == *old(message)
                    },
                },
                RouterMessage::Packet(packet) => {
                    &&& final(self)@ == old(self)@.received(id@, packet@)
                    &&& *final(message) == *old(message)
                    &&& match old(self)@.answer(id@, packet@) {
                        Some(v) => r matches Ok(Some(Outgoing::Packet(p))) && p@ == v,
                        None => r matches Ok(None),
                    }
                },
                RouterMessage::Death(_) => {
                    &&& r matches Ok(None)
                    &&& final(self)@ == old(self)@
                    &&& *final(message) == *old(message)
                },
            },
    {
        match message {
            RouterMessage::Connect(connection) => match connection.handle.take() {
                Some(handle) => self.handle_connect(&connection.connect, handle),
                None => Err(Error::AllSendersDown),
            },
            RouterMessage::Packet(packet) => self.handle_incoming_packet(id, packet),
            RouterMessage::Death(_) => Ok(None),
        }
    }

    /// Takes one message from a connection: answers the sender, and notes
    /// what the message asks of the router. A message that is refused
    /// asks nothing of it.
    ///
    /// Whether the answer could be sent is the channel's to say: a sender
    /// whose channel did not take it is let go. So a client that connects
    /// is active after it or let go at once, and a message without an
    /// answer does what it asks for.
    pub fn handle(&mut self, id: &str, message: RouterMessage)
        requires
            old(self).wf(),
        ensures
            final(self).wf(),
            match message {
                RouterMessage::Connect(connection) => match connection.handle {
                    Some(handle) => {
                        let connected = old(self)@.connected(
                            connection.connect@.client_id,
                            connection.connect.flags.clean_session,
                            will_view(connection.connect.last_will_spec()),
                            handle,
                        );
                        final(self)@ == connected || final(self)@ == connected.deactivated(id@)
                    },
                    None => final(self)@ == old(self)@,
                },
                RouterMessage::Packet(packet) => exists|answered: RouterView|
                    answers(old(self)@, id@, packet@, answered) && #[trigger] answered.noted_as(
                        id@,
                        packet,
                        final(self)@,
                    ),
                RouterMessage::Death(_) => {
                    &&& final(self)@.active == old(self)@.died(id@).active
                    &&& final(self)@.inactive == old(self)@.died(id@).inactive
                    &&& match old(self)@.will_of(id@) {
                        Some(will) => old(self)@.log.took(will_publish(will), final(self)@.log),
                        None => final(self)@.log == old(self)@.log,
                    }
                },
            },
    {
        let mut message = message;
        match self.reply(id, &mut message) {
            Ok(Some(answer)) => self.forward(id, answer),
            Ok(None) => {},
            Err(_) => { return ; },
        }
        let ghost answered = self@;
        match message {
            RouterMessage::Packet(packet) => {
                let ghost noted = packet;
                self.fill_and_track(id, packet);
                assert(answered.noted_as(id@, noted, self@));
            },
            RouterMessage::Death(_) => self.deactivate_and_forward_will(id),
            RouterMessage::Connect(_) => {},
        }
    }

    /// The maps of the view hold what the tables hold.
    pub proof fn lemma_views(&self)
        ensures
            forall|id: Seq<char>|
                #![trigger self.active_connections.has(id)]
                #![trigger self@.active.contains_key(id)]
                self@.active.contains_key(id) == self.active_connections.has(id)
                    && self.active_connections@.contains_key(id) == self.active_connections.has(
                    id,
                ) && (self.active_connections.has(id) ==> self@.active[id]
                    == self.active_connections.value_of(id)@ && self.active_connections@[id]
                    == self.active_connections.value_of(id)),
            forall|id: Seq<char>|
                #![trigger self.inactive_connections.has(id)]
                #![trigger self@.inactive.contains_key(id)]
                self@.inactive.contains_key(id) == self.inactive_connections.has(id)
                    && self.inactive_connections@.contains_key(id)
                    == self.inactive_connections.has(id) && (self.inactive_connections.has(id)
                    ==> self@.inactive[id] == self.inactive_connections.value_of(id).state@
                    && self.inactive_connections@[id] == self.inactive_connections.value_of(id)),
    {
    }

    /// A router of which one active connection changed is in order where
    /// it was before and the connection still is.
    proof fn lemma_after_change(&self, before: Router, index: int)
        requires
            before.wf(),
            0 <= index < before.active_connections.entries@.len(),
            self.commitlog == before.commitlog,
            self.inactive_connections == before.inactive_connections,
            self.active_connections.entries@ == before.active_connections.entries@.update(
                index,
                (
                    before.active_connections.entries@[index].0,
                    self.active_connections.entries@[index].1,
                ),
            ),
            self.active_connections.entries@[index].1.wf(),
        ensures
            self.wf(),
            self.active_connections.keys() == before.active_connections.keys(),
            forall|k: Seq<char>| self.active_connections.has(k) == before.active_connections.has(k),
            forall|k: Seq<char>|
                self.active_connections.has(k) ==> self.active_connections.value_of(k) == (if k
                    == before.active_connections.entries@[index].0@ {
                    self.active_connections.entries@[index].1
                } else {
                    before.active_connections.value_of(k)
                }),
    {
        let old_table = before.active_connections;
        let new_table = self.active_connections;
        assert(new_table.keys() =~= old_table.keys());
        assert forall|i: int, j: int|
            0 <= i < j < new_table.entries@.len() implies new_table.entries@[i].0@
            != new_table.entries@[j].0@ by {
            assert(old_table.entries@[i].0@ != old_table.entries@[j].0@);
        }
        assert forall|k: Seq<char>| new_table.has(k) == old_table.has(k) by {
            if new_table.has(k) {
                let j = new_table.index_of(k);
                assert(old_table.entries@[j].0@ == k);
            }
            if old_table.has(k) {
                let j = old_table.index_of(k);
                assert(new_table.entries@[j].0@ == k);
            }
        }
        assert forall|k: Seq<char>| new_table.has(k) implies new_table.value_of(k) == (if k
            == old_table.entries@[index].0@ {
            new_table.entries@[index].1
        } else {
            old_table.value_of(k)
        }) by {
            let j = new_table.index_of(k);
            new_table.lemma_index(j);
            old_table.lemma_index(j);
        }
        assert forall|i: int| 0 <= i < new_table.entries@.len() implies (
        #[trigger] new_table.entries@[i]).1.wf() by {
            if i != index {
                assert(new_table.entries@[i] == old_table.entries@[i]);
            }
        }
    }

    /// A router whose active connections lost one is in order where it
    /// was before.
    proof fn lemma_after_remove(&self, before: Router, key: Seq<char>)
        requires
            before.wf(),
            self.commitlog == before.commitlog,
            self.inactive_connections == before.inactive_connections,
            self.active_connections.wf(),
            self.active_connections@ == before.active_connections@.remove(key),
            !self.active_connections.has(key),
        ensures
            self.commitlog.wf(),
            self.active_connections.wf(),
            self.inactive_connections.wf(),
            forall|i: int|
                0 <= i < self.active_connections.entries@.len() ==> (
                #[trigger] self.active_connections.entries@[i]).1.wf(),
            forall|id: Seq<char>|
                id != key ==> !(self.active_connections.has(id) && self.inactive_connections.has(
                    id,
                )),
            !self.active_connections.has(key),
            self.wf(),
    {
        before.lemma_views();
        self.lemma_views();
        assert forall|i: int| 0 <= i < self.active_connections.entries@.len() implies (
        #[trigger] self.active_connections.entries@[i]).1.wf() by {
            self.active_connections.lemma_index(i);
            let id = self.active_connections.entries@[i].0@;
            assert(self.active_connections@[id] == self.active_connections.entries@[i].1);
            assert(before.active_connections@.contains_key(id));
            let j = before.active_connections.index_of(id);
            before.active_connections.lemma_index(j);
        }
        assert forall|id: Seq<char>|
            !(self.active_connections.has(id) && self.inactive_connections.has(id)) by {
            if id != key {
                assert(self.active_connections@.contains_key(id)
                    == before.active_connections@.contains_key(id));
            }
        }
    }

    /// A router whose active connections got one more is in order where it
    /// was before and the new connection is.
    proof fn lemma_after_insert(&self, before: Router, key: Seq<char>, connection: ActiveConnection)
        requires
            before.commitlog.wf(),
            before.active_connections.wf(),
            before.inactive_connections.wf(),
            forall|i: int|
                0 <= i < before.active_connections.entries@.len() ==> (
                #[trigger] before.active_connections.entries@[i]).1.wf(),
            forall|id: Seq<char>|
                id != key ==> !(before.active_connections.has(id)
                    && before.inactive_connections.has(id)),
            !before.inactive_connections.has(key),
            connection.wf(),
            self.commitlog == before.commitlog,
            self.inactive_connections == before.inactive_connections,
            self.active_connections.wf(),
            self.active_connections@ == before.active_connections@.insert(key, connection),
        ensures
            self.wf(),
    {
        before.lemma_views();
        self.lemma_views();
        assert forall|i: int| 0 <= i < self.active_connections.entries@.len() implies (
        #[trigger] self.active_connections.entries@[i]).1.wf() by {
            self.active_connections.lemma_index(i);
            let id = self.active_connections.entries@[i].0@;
            assert(self.active_connections@[id] == self.active_connections.entries@[i].1);
            if id != key {
                assert(before.active_connections@.contains_key(id));
                let j = before.active_connections.index_of(id);
                before.active_connections.lemma_index(j);
            }
        }
        assert forall|id: Seq<char>|
            !(self.active_connections.has(id) && self.inactive_connections.has(id)) by {
            if id != key {
                assert(self.active_connections@.contains_key(id)
                    == before.active_connections@.contains_key(id));
            }
        }
    }
}

/// A persistent client that goes away and comes back without asking for
/// a clean session goes on with its session, and is handed the publishes
/// that the session holds as under way, all of them and in their order.
pub proof fn lemma_persistent_session_comes_back(
    router: RouterView,
    id: Seq<char>,
    will: Option<LastWillView>,
    tx: Sender<Outgoing>,
)
    requires
        router.active.contains_key(id),
        !router.active[id].state.clean_session,
    ensures
        !router.deactivated(id).active.contains_key(id),
        router.deactivated(id).inactive[id] == router.active[id].state,
        router.deactivated(id).pending_for(id, false, will)
            == router.active[id].state.outgoing_publishes,
        router.deactivated(id).connected(id, false, will, tx).active[id].state
            == router.active[id].state,
        !router.deactivated(id).connected(id, false, will, tx).inactive.contains_key(id),
{
}

/// A client that asks for a clean session starts anew, whatever the router
/// kept for it: nothing is under way and nothing is handed to it.
pub proof fn lemma_clean_session_starts_anew(
    router: RouterView,
    id: Seq<char>,
    will: Option<LastWillView>,
    tx: Sender<Outgoing>,
)
    ensures
        router.connected(id, true, will, tx).active[id].state == StateView::fresh(true, will),
        router.pending_for(id, true, will) == Seq::<PublishView>::empty(),
        !router.connected(id, true, will, tx).inactive.contains_key(id),
{
}

/// Letting a connection go loses no session.
pub proof fn lemma_deactivated_follows(router: RouterView, earlier: RouterView, id: Seq<char>)
    requires
        router.follows(earlier),
        forall|k: Seq<char>| !(router.active.contains_key(k) && router.inactive.contains_key(k)),
        forall|k: Seq<char>| !(earlier.active.contains_key(k) && earlier.inactive.contains_key(k)),
    ensures
        router.deactivated(id).follows(earlier),
{
    let after = router.deactivated(id);
    assert forall|k: Seq<char>|
        #![trigger after.active.contains_key(k)]
        after.active.contains_key(k) implies earlier.active.contains_key(k)
        && after.active[k].state.extends(earlier.active[k].state) by {
        assert(router.active.contains_key(k));
        assert(after.active[k] == router.active[k]);
    }
    assert forall|k: Seq<char>|
        #![trigger earlier.inactive.contains_key(k)]
        earlier.inactive.contains_key(k) implies after.inactive.contains_key(k)
        && after.inactive[k] == earlier.inactive[k] by {
        assert(router.inactive.contains_key(k));
        assert(router.inactive[k] == earlier.inactive[k]);
        if k == id && router.active.contains_key(id) {
            assert(earlier.active.contains_key(id));
        }
    }
    assert forall|k: Seq<char>|
        #![trigger after.inactive.contains_key(k)]
        !earlier.inactive.contains_key(k) && after.inactive.contains_key(k)
            implies earlier.active.contains_key(k) && !after.active.contains_key(k)
        && !earlier.active[k].state.clean_session && after.inactive[k].extends(
        earlier.active[k].state,
    ) by {
        if router.inactive.contains_key(k) {
            assert(!router.active.contains_key(k));
            assert(after.inactive[k] == router.inactive[k]);
        } else {
            assert(k == id);
            assert(router.active[k].state.extends(earlier.active[k].state));
        }
    }
    assert forall|k: Seq<char>|
        #![trigger earlier.active.contains_key(k)]
        earlier.active.contains_key(k) && !after.active.contains_key(k)
            && !earlier.active[k].state.clean_session implies after.inactive.contains_key(k) by {
        if router.active.contains_key(k) {
            assert(k == id);
            assert(router.active[k].state.extends(earlier.active[k].state));
        } else {
            assert(router.inactive.contains_key(k));
        }
    }
}

/// A connection for which nothing stands to be read is as it was after a
/// tick, and no read of it can be refused.
pub proof fn lemma_nothing_to_read(connection: ConnectionView, log: LogView)
    requires
        connection.nothing_to_read(log),
    ensures
        connection.delivered(log) == connection,
        forall|refusal: Refusal| (#[trigger] connection.refused(log, refusal)) is None,
        forall|n: int| (#[trigger] connection.after_concrete(log, n)) == connection,
        forall|w: int, t: int|
            0 <= w < connection.subscriptions.wild.len() ==> (#[trigger] connection.after_topics(
                log,
                w,
                t,
            )) == connection,
        forall|w: int| (#[trigger] connection.after_wild(log, w)) == connection,
{
    assert forall|n: int| (#[trigger] connection.after_concrete(log, n)) == connection by {
        lemma_no_concrete_read(connection, log, n);
    }
    assert forall|w: int, t: int|
        0 <= w < connection.subscriptions.wild.len() implies (#[trigger] connection.after_topics(
        log,
        w,
        t,
    )) == connection by {
        lemma_no_wild_read(connection, log, w, t);
    }
    assert forall|w: int| (#[trigger] connection.after_wild(log, w)) == connection by {
        lemma_no_wild_reads(connection, log, w);
    }
    assert forall|refusal: Refusal| (#[trigger] connection.refused(log, refusal)) is None by {
        match refusal {
            Refusal::Concrete(j) => {
                if j < connection.subscriptions.concrete.len() {
                    assert(connection.concrete_batch(log, j as int) is None);
                }
            },
            Refusal::Wild(w, t) => {
                if w < connection.subscriptions.wild.len() && t < log.topics.len() {
                    assert(connection.wild_batch(log, w as int, t as int) is None);
                }
            },
        }
    }
}

proof fn lemma_no_concrete_read(connection: ConnectionView, log: LogView, n: int)
    requires
        connection.nothing_to_read(log),
    ensures
        connection.after_concrete(log, n) == connection,
    decreases n,
{
    if 0 < n <= connection.subscriptions.concrete.len() {
        lemma_no_concrete_read(connection, log, n - 1);
        assert(connection.concrete_batch(log, n - 1) is None);
    }
}

proof fn lemma_no_wild_read(connection: ConnectionView, log: LogView, w: int, t: int)
    requires
        connection.nothing_to_read(log),
        0 <= w < connection.subscriptions.wild.len(),
    ensures
        connection.after_topics(log, w, t) == connection,
    decreases t,
{
    if 0 < t <= log.topics.len() {
        lemma_no_wild_read(connection, log, w, t - 1);
        assert(connection.wild_batch(log, w, t - 1) is None);
    }
}

proof fn lemma_no_wild_reads(connection: ConnectionView, log: LogView, w: int)
    requires
        connection.nothing_to_read(log),
    ensures
        connection.after_wild(log, w) == connection,
    decreases w,
{
    if 0 < w <= connection.subscriptions.wild.len() {
        lemma_no_wild_reads(connection, log, w - 1);
        lemma_no_wild_read(connection, log, w - 1, log.topics.len() as int);
    }
}

/// What letting connections go makes of the router: the connections
/// that were named are no longer active and the others are as they were;
/// a persistent one that was let go is kept with its session; and what
/// was kept before is kept as it was.
pub proof fn lemma_let_go_all(router: RouterView, ids: Seq<Seq<char>>, n: int)
    requires
        0 <= n <= ids.len(),
        forall|id: Seq<char>| !(router.active.contains_key(id) && router.inactive.contains_key(id)),
    ensures
        ({
            let after = router.let_go_all(ids, n);
            &&& after.log == router.log
            &&& forall|id: Seq<char>|
                #![trigger after.active.contains_key(id)]
                after.active.contains_key(id) == (router.active.contains_key(id) && !ids.take(
                    n,
                ).contains(id))
            &&& forall|id: Seq<char>|
                #![trigger after.active.contains_key(id)]
                after.active.contains_key(id) ==> after.active[id] == router.active[id]
            &&& forall|id: Seq<char>|
                #![trigger after.inactive.contains_key(id)]
                after.inactive.contains_key(id) == (router.inactive.contains_key(id) || (
                router.active.contains_key(id) && ids.take(n).contains(id)
                    && !router.active[id].state.clean_session))
            &&& forall|id: Seq<char>|
                #![trigger router.inactive.contains_key(id)]
                router.inactive.contains_key(id) ==> after.inactive[id] == router.inactive[id]
            &&& forall|id: Seq<char>|
                #![trigger router.active.contains_key(id)]
                router.active.contains_key(id) && ids.take(n).contains(id)
                    && !router.active[id].state.clean_session ==> after.inactive[id]
                    == router.active[id].state
        }),
    decreases n,
{
    if n == 0 {
        assert(ids.take(0) =~= Seq::<Seq<char>>::empty());
    } else {
        lemma_let_go_all(router, ids, n - 1);
        let before = router.let_go_all(ids, n - 1);
        let gone = ids[n - 1];
        let after = before.deactivated(gone);
        let shorter = ids.take(n - 1);
        let longer = ids.take(n);
        assert(longer =~= shorter.push(gone));
        assert forall|id: Seq<char>| longer.contains(id) == (shorter.contains(id) || id
            == gone) by {
            if longer.contains(id) {
                let g = choose|g: int| 0 <= g < longer.len() && longer[g] == id;
                if g < n - 1 {
                    assert(shorter[g] == id);
                }
            }
            if shorter.contains(id) {
                let g = choose|g: int| 0 <= g < shorter.len() && shorter[g] == id;
                assert(longer[g] == id);
            }
            if id == gone {
                assert(longer[n - 1] == id);
            }
        }
        assert forall|id: Seq<char>|
            #![trigger after.active.contains_key(id)]
            after.active.contains_key(id) == (router.active.contains_key(id) && !ids.take(
                n,
            ).contains(id)) by {
            assert(before.active.contains_key(id) == (router.active.contains_key(id)
                && !ids.take(n - 1).contains(id)));
        }
        assert forall|id: Seq<char>|
            #![trigger after.active.contains_key(id)]
            after.active.contains_key(id) implies after.active[id] == router.active[id] by {
            assert(before.active.contains_key(id));
        }
        assert forall|id: Seq<char>|
            #![trigger after.inactive.contains_key(id)]
            after.inactive.contains_key(id) == (router.inactive.contains_key(id) || (
            router.active.contains_key(id) && ids.take(n).contains(id)
                && !router.active[id].state.clean_session)) by {
            assert(before.inactive.contains_key(id) == (router.inactive.contains_key(id) || (
            router.active.contains_key(id) && ids.take(n - 1).contains(id)
                && !router.active[id].state.clean_session)));
            assert(before.active.contains_key(gone) == (router.active.contains_key(gone)
                && !ids.take(n - 1).contains(gone)));
            if before.active.contains_key(gone) {
                assert(before.active[gone] == router.active[gone]);
            }
        }
        assert forall|id: Seq<char>|
            #![trigger router.inactive.contains_key(id)]
            router.inactive.contains_key(id) implies after.inactive[id]
            == router.inactive[id] by {
            assert(before.inactive[id] == router.inactive[id]);
            assert(before.active.contains_key(gone) == (router.active.contains_key(gone)
                && !ids.take(n - 1).contains(gone)));
        }
        assert forall|id: Seq<char>|
            #![trigger router.active.contains_key(id)]
            router.active.contains_key(id) && ids.take(n).contains(id)
                && !router.active[id].state.clean_session implies after.inactive[id]
            == router.active[id].state by {
            assert(before.active.contains_key(gone) == (router.active.contains_key(gone)
                && !ids.take(n - 1).contains(gone)));
            if before.active.contains_key(gone) {
                assert(before.active[gone] == router.active[gone]);
            }
            if ids.take(n - 1).contains(id) {
                assert(before.inactive[id] == router.active[id].state);
            }
        }
    }
}

/// The two halves of a tick make a tick.
pub proof fn lemma_tick(
    before: RouterView,
    mid: RouterView,
    refused: Seq<Seq<char>>,
    after: RouterView,
)
    requires
        forall|id: Seq<char>| !(before.active.contains_key(id) && before.inactive.contains_key(id)),
        mid.log == before.log,
        mid.inactive == before.inactive,
        before.handed(mid, refused),
        after == mid.let_go_all(refused, refused.len() as int),
    ensures
        before.ticked(after),
        after.follows(before),
{
    lemma_let_go_all(mid, refused, refused.len() as int);
    assert(refused.take(refused.len() as int) =~= refused);
    assert forall|id: Seq<char>|
        #![trigger after.active.contains_key(id)]
        after.active.contains_key(id) implies before.active.contains_key(id) && after.active[id]
        == before.active[id].delivered(before.log) && after.active[id].state.extends(
        before.active[id].state,
    ) by {
        assert(mid.active.contains_key(id));
        assert(after.active[id] == mid.active[id]);
    }
    assert forall|id: Seq<char>|
        #![trigger before.active.contains_key(id)]
        before.active.contains_key(id) && !after.active.contains_key(id) implies exists|
        refusal: Refusal,
    |
        let_go_after(before.active[id], before.log, refusal, after, id) by {
        assert(mid.active.contains_key(id));
        assert(after.active.contains_key(id) == (mid.active.contains_key(id) && !refused.contains(
            id,
        )));
        assert(refused.contains(id));
        let refusal = choose|refusal: Refusal| #[trigger]
            before.active[id].refused(before.log, refusal) == Some(mid.active[id]);
        assert(after.inactive.contains_key(id) == (mid.inactive.contains_key(id) || (
        mid.active.contains_key(id) && refused.contains(id)
            && !mid.active[id].state.clean_session)));
        assert(let_go_after(before.active[id], before.log, refusal, after, id));
    }
    assert forall|id: Seq<char>|
        #![trigger before.inactive.contains_key(id)]
        before.inactive.contains_key(id) implies after.inactive.contains_key(id)
        && after.inactive[id] == before.inactive[id] by {
        assert(mid.inactive.contains_key(id));
        assert(after.inactive.contains_key(id) == (mid.inactive.contains_key(id) || (
        mid.active.contains_key(id) && refused.contains(id)
            && !mid.active[id].state.clean_session)));
    }
    assert forall|id: Seq<char>|
        #![trigger after.inactive.contains_key(id)]
        after.inactive.contains_key(id) implies before.inactive.contains_key(id) || (
    before.active.contains_key(id) && !after.active.contains_key(id)) by {
        assert(after.inactive.contains_key(id) == (mid.inactive.contains_key(id) || (
        mid.active.contains_key(id) && refused.contains(id)
            && !mid.active[id].state.clean_session)));
        assert(after.active.contains_key(id) == (mid.active.contains_key(id) && !refused.contains(
            id,
        )));
    }
    assert forall|id: Seq<char>|
        #![trigger after.inactive.contains_key(id)]
        !before.inactive.contains_key(id) && after.inactive.contains_key(id)
            implies before.active.contains_key(id) && !after.active.contains_key(id)
        && !before.active[id].state.clean_session && after.inactive[id].extends(
        before.active[id].state,
    ) by {
        assert(after.inactive.contains_key(id) == (mid.inactive.contains_key(id) || (
        mid.active.contains_key(id) && refused.contains(id)
            && !mid.active[id].state.clean_session)));
        assert(after.active.contains_key(id) == (mid.active.contains_key(id) && !refused.contains(
            id,
        )));
        assert(mid.active[id].state.extends(before.active[id].state));
    }
    assert forall|id: Seq<char>|
        #![trigger before.active.contains_key(id)]
        before.active.contains_key(id) && !after.active.contains_key(id)
            && !before.active[id].state.clean_session implies after.inactive.contains_key(id) by {
        assert(mid.active.contains_key(id));
        assert(after.active.contains_key(id) == (mid.active.contains_key(id) && !refused.contains(
            id,
        )));
        assert(mid.active[id].state.extends(before.active[id].state));
        assert(after.inactive.contains_key(id) == (mid.inactive.contains_key(id) || (
        mid.active.contains_key(id) && refused.contains(id)
            && !mid.active[id].state.clean_session)));
    }
}

/// Serving the subscriptions without wildcards touches nothing but their
/// cursors and the session: each of the first `n` has its cursor after
/// the batch that stood to be read for it, and the others have theirs as
/// they were.
pub proof fn lemma_after_concrete(connection: ConnectionView, log: LogView, n: int)
    requires
        0 <= n <= connection.subscriptions.concrete.len(),
    ensures
        ({
            let after = connection.after_concrete(log, n);
            &&& after.tx == connection.tx
            &&& after.wild_cursors == connection.wild_cursors
            &&& after.subscriptions.wild == connection.subscriptions.wild
            &&& after.subscriptions.concrete.len() == connection.subscriptions.concrete.len()
            &&& forall|j: int|
                0 <= j < connection.subscriptions.concrete.len() ==> (
                #[trigger] after.subscriptions.concrete[j]) == (
                    connection.subscriptions.concrete[j].0,
                    Subscription {
                        qos: connection.subscriptions.concrete[j].1.qos,
                        offset: if j < n {
                            moved_cursor(log, connection.subscriptions.concrete[j])
                        } else {
                            connection.subscriptions.concrete[j].1.offset
                        },
                    },
                )
        }),
    decreases n,
{
    if n > 0 {
        lemma_after_concrete(connection, log, n - 1);
    }
}

/// Serving a subscription with wildcards touches nothing but the cursors
/// of the connection in the topics and the session.
pub proof fn lemma_after_topics(connection: ConnectionView, log: LogView, w: int, t: int)
    ensures
        connection.after_topics(log, w, t).tx == connection.tx,
        connection.after_topics(log, w, t).subscriptions == connection.subscriptions,
    decreases t,
{
    if 0 < t <= log.topics.len() {
        lemma_after_topics(connection, log, w, t - 1);
    }
}

/// Serving the subscriptions with wildcards touches nothing but the
/// cursors of the connection in the topics and the session.
pub proof fn lemma_after_wild(connection: ConnectionView, log: LogView, w: int)
    ensures
        connection.after_wild(log, w).tx == connection.tx,
        connection.after_wild(log, w).subscriptions == connection.subscriptions,
    decreases w,
{
    if 0 < w <= connection.subscriptions.wild.len() {
        lemma_after_wild(connection, log, w - 1);
        lemma_after_topics(
            connection.after_wild(log, w - 1),
            log,
            w - 1,
            log.topics.len() as int,
        );
    }
}

/// After a tick in which the channel took every batch, each subscription
/// without wildcards has its cursor after the batch that stood to be read
/// for it, or where it was if none did; the filters, what they grant and
/// the channel are as they were.
pub proof fn lemma_delivered_cursors(connection: ConnectionView, log: LogView)
    ensures
        connection.delivered(log).tx == connection.tx,
        connection.delivered(log).subscriptions.wild == connection.subscriptions.wild,
        connection.delivered(log).subscriptions.concrete.len()
            == connection.subscriptions.concrete.len(),
        forall|j: int|
            0 <= j < connection.subscriptions.concrete.len() ==> (#[trigger] connection.delivered(
                log,
            ).subscriptions.concrete[j]) == (
                connection.subscriptions.concrete[j].0,
                Subscription {
                    qos: connection.subscriptions.concrete[j].1.qos,
                    offset: moved_cursor(log, connection.subscriptions.concrete[j]),
                },
            ),
{
    let n = connection.subscriptions.concrete.len() as int;
    lemma_after_concrete(connection, log, n);
    lemma_after_wild(
        connection.after_concrete(log, n),
        log,
        connection.subscriptions.wild.len() as int,
    );
}

/// A tick for a connection with one subscription, which has no wildcard:
/// where a batch stands to be read at its cursor and the channel takes
/// it, the session has made exactly that batch ready and the cursor
/// stands after it; where none stands to be read, the connection is as
/// it was. So a publish that went out at one tick does not go out again
/// at the next.
pub proof fn lemma_tick_of_one_subscription(connection: ConnectionView, log: LogView)
    requires
        connection.subscriptions.concrete.len() == 1,
        connection.subscriptions.wild.len() == 0,
    ensures
        connection.delivered(log) == connection.served_concrete(log, 0),
        connection.concrete_batch(log, 0) is None ==> connection.delivered(log) == connection,
        connection.concrete_batch(log, 0) matches Some(batch) ==> connection.delivered(log).state
            == connection.state.sent_all(
            connection.subscriptions.concrete[0].1.qos,
            batch.packets,
            batch.packets.len() as int,
        ) && connection.delivered(log).subscriptions.concrete[0].1.offset == (
            batch.segment_id,
            next_offset(batch.log_offset),
        ),
{
    reveal_with_fuel(ConnectionView::after_concrete, 2);
    reveal_with_fuel(ConnectionView::after_wild, 2);
}

/// A tick for a connection with one subscription, which has a wildcard,
/// over a log of one topic: where the filter covers the topic, a batch
/// stands to be read at the cursor of the connection in the topic and the
/// channel takes it, the session has made exactly that batch ready, on
/// the quality of service of the subscription, and the cursor stands
/// after it; otherwise the connection is as it was. So one copy goes
/// out, and none at the next tick.
pub proof fn lemma_tick_of_one_wild_subscription(connection: ConnectionView, log: LogView)
    requires
        connection.subscriptions.concrete.len() == 0,
        connection.subscriptions.wild.len() == 1,
        log.topics.len() == 1,
    ensures
        connection.delivered(log) == connection.served_wild(log, 0, 0),
        connection.wild_batch(log, 0, 0) is None ==> connection.delivered(log) == connection,
        connection.wild_batch(log, 0, 0) matches Some(batch) ==> connection.delivered(log).state
            == connection.state.sent_all(
            connection.subscriptions.wild[0].1.qos,
            batch.packets,
            batch.packets.len() as int,
        ) && cursor_of(connection.delivered(log).wild_cursors, log.topics[0]) == (
            batch.segment_id,
            next_offset(batch.log_offset),
        ),
{
    reveal_with_fuel(ConnectionView::after_concrete, 2);
    reveal_with_fuel(ConnectionView::after_wild, 2);
    reveal_with_fuel(ConnectionView::after_topics, 2);
    if let Some(batch) = connection.wild_batch(log, 0, 0) {
        lemma_cursor_of_put(
            connection.wild_cursors,
            log.topics[0],
            (batch.segment_id, next_offset(batch.log_offset)),
        );
    }
}

/// The cursor that was put for a topic is the cursor of the topic.
pub proof fn lemma_cursor_of_put(
    cursors: Seq<(Seq<char>, (u64, usize))>,
    topic: Seq<char>,
    cursor: (u64, usize),
)
    ensures
        cursor_of(put(cursors, topic, cursor), topic) == cursor,
{
    lemma_place_found(cursors, topic, 0);
    let i = table::place(cursors, topic, 0);
    let after = put(cursors, topic, cursor);
    lemma_place_at(after, topic, i, 0);
}

/// The place of a key is within the entries or at their end, and no entry
/// before it has the key.
pub proof fn lemma_place_found<V>(entries: Seq<(Seq<char>, V)>, key: Seq<char>, from: int)
    requires
        0 <= from <= entries.len(),
    ensures
        from <= table::place(entries, key, from) <= entries.len(),
        table::place(entries, key, from) < entries.len() ==> entries[table::place(
            entries,
            key,
            from,
        )].0 == key,
        forall|k: int| from <= k < table::place(entries, key, from) ==> entries[k].0 != key,
    decreases entries.len() - from,
{
    if from < entries.len() && entries[from].0 != key {
        lemma_place_found(entries, key, from + 1);
    }
}

/// A key that stands at a place, and at none between `from` and it, has
/// that place.
pub proof fn lemma_place_at<V>(entries: Seq<(Seq<char>, V)>, key: Seq<char>, at: int, from: int)
    requires
        0 <= from <= at < entries.len(),
        entries[at].0 == key,
        forall|k: int| from <= k < at ==> entries[k].0 != key,
    ensures
        table::place(entries, key, from) == at,
    decreases at - from,
{
    if from < at {
        lemma_place_at(entries, key, at, from + 1);
    }
}

/// What a subscriber is handed in `ticks` ticks from the cursor `cursor`
/// in a topic of a log that stays as it is, where its channel takes every
/// batch: batch after batch, each read at the cursor that the one before
/// it left.
pub open spec fn handed_in(log: LogView, topic: Seq<char>, cursor: (u64, usize), ticks: nat) -> Seq<
    PublishView,
>
    decreases ticks,
{
    if ticks == 0 {
        Seq::empty()
    } else {
        match batch_at(log, topic, cursor) {
            None => Seq::empty(),
            Some(batch) => batch.packets + handed_in(
                log,
                topic,
                (batch.segment_id, next_offset(batch.log_offset)),
                (ticks - 1) as nat,
            ),
        }
    }
}

/// The publishes of a batch, or none where there is no batch.
pub open spec fn publishes_of(batch: Option<MessagesView>) -> Seq<PublishView> {
    match batch {
        Some(batch) => batch.packets,
        None => Seq::empty(),
    }
}

/// Over the ticks a subscriber is handed each publish once and in order:
/// the batches of some ticks, one after the other, are what one reader
/// gets that asks at the first cursor for all of them at once. From the
/// cursor `(0, 0)` that is the log of the topic from its oldest publish
/// on, and all of it once the ticks are enough.
pub proof fn lemma_ticks_hand_over_in_order(
    log: LogView,
    topic: Seq<char>,
    cursor: (u64, usize),
    ticks: nat,
)
    requires
        ticks > 0,
        ticks * BATCH_SIZE <= usize::MAX,
        log.in_order(topic),
    ensures
        handed_in(log, topic, cursor, ticks) == publishes_of(
            log.read(topic, cursor.0, cursor.1, (ticks * BATCH_SIZE) as usize),
        ),
        cursor == (0u64, 0usize) ==> handed_in(log, topic, cursor, ticks) == commitlog::log_of(
            log.partitions[topic],
        ).take(
            commitlog::least(
                ticks * BATCH_SIZE,
                commitlog::log_of(log.partitions[topic]).len() as int,
            ),
        ),
    decreases ticks,
{
    let segments = log.partitions[topic];
    let rest = (ticks - 1) as nat;
    assert(rest * BATCH_SIZE + BATCH_SIZE == ticks * BATCH_SIZE) by (nonlinear_arith)
        requires
            rest == ticks - 1,
    ;
    commitlog::lemma_read_resumes(
        segments,
        cursor.0,
        cursor.1,
        BATCH_SIZE,
        (rest * BATCH_SIZE) as usize,
    );
    if let Some(batch) = batch_at(log, topic, cursor) {
        let onward = (batch.segment_id, next_offset(batch.log_offset));
        if rest > 0 {
            lemma_ticks_hand_over_in_order(log, topic, onward, rest);
            let more = log.read(topic, onward.0, onward.1, (rest * BATCH_SIZE) as usize);
            assert(batch.packets + publishes_of(more) =~= commitlog::joined(
                batch,
                match more {
                    Some(next) => next,
                    None => commitlog::no_messages(),
                },
            ).packets);
        } else {
            assert(handed_in(log, topic, onward, 0) =~= Seq::empty());
            assert(batch.packets + Seq::<PublishView>::empty() =~= batch.packets);
        }
    }
    if cursor == (0u64, 0usize) {
        commitlog::lemma_read_from_start(segments, (ticks * BATCH_SIZE) as usize);
        assert(segments.len() == 0 || commitlog::log_of(segments).take(0) =~= Seq::empty());
    }
}

/// A topic that holds no more publishes than a batch takes is read at
/// once: a subscriber at the cursor `(0, 0)` is handed all of them at the
/// first tick, in their order, and finds nothing at the cursor that this
/// tick leaves.
pub proof fn lemma_short_topic_is_read_at_once(log: LogView, topic: Seq<char>)
    requires
        log.in_order(topic),
        commitlog::log_of(log.partitions[topic]).len() <= BATCH_SIZE,
    ensures
        match batch_at(log, topic, (0, 0)) {
            Some(batch) => batch.packets == commitlog::log_of(log.partitions[topic]) && batch_at(
                log,
                topic,
                (batch.segment_id, next_offset(batch.log_offset)),
            ) is None,
            None => commitlog::log_of(log.partitions[topic]).len() == 0,
        },
{
    let segments = log.partitions[topic];
    let all = commitlog::log_of(segments);
    commitlog::lemma_read_from_start(segments, BATCH_SIZE);
    commitlog::lemma_read_from_start(segments, (2 * BATCH_SIZE) as usize);
    commitlog::lemma_read_resumes(segments, 0, 0, BATCH_SIZE, BATCH_SIZE);
    assert(all.take(all.len() as int) =~= all);
}

/// A tick at the router for a client with one subscription, which has no
/// wildcard: where the client is still active after the tick, its session
/// has made ready exactly the batch that stood to be read at the cursor
/// of the subscription, and the cursor stands after that batch; where no
/// batch stood to be read, the connection is as it was.
pub proof fn lemma_tick_serves_the_subscriber(before: RouterView, after: RouterView, id: Seq<char>)
    requires
        before.ticked(after),
        after.active.contains_key(id),
        before.active[id].subscriptions.concrete.len() == 1,
        before.active[id].subscriptions.wild.len() == 0,
    ensures
        before.active.contains_key(id),
        match before.active[id].concrete_batch(before.log, 0) {
            Some(batch) => after.active[id].state == before.active[id].state.sent_all(
                before.active[id].subscriptions.concrete[0].1.qos,
                batch.packets,
                batch.packets.len() as int,
            ) && after.active[id].subscriptions.concrete[0].1.offset == (
                batch.segment_id,
                next_offset(batch.log_offset),
            ),
            None => after.active[id] == before.active[id],
        },
{
    lemma_tick_of_one_subscription(before.active[id], before.log);
}

/// A tick at the router for a client with one subscription, which has a
/// wildcard, over a log of one topic: where the client is still active
/// after the tick, its session has made ready, on the quality of service
/// of the subscription, exactly the batch that stood to be read in the
/// topic, once, and the cursor of the client in the topic stands after
/// that batch; where no batch stood to be read, the connection is as it
/// was.
pub proof fn lemma_tick_serves_the_wild_subscriber(
    before: RouterView,
    after: RouterView,
    id: Seq<char>,
)
    requires
        before.ticked(after),
        after.active.contains_key(id),
        before.active[id].subscriptions.concrete.len() == 0,
        before.active[id].subscriptions.wild.len() == 1,
        before.log.topics.len() == 1,
    ensures
        before.active.contains_key(id),
        match before.active[id].wild_batch(before.log, 0, 0) {
            Some(batch) => after.active[id].state == before.active[id].state.sent_all(
                before.active[id].subscriptions.wild[0].1.qos,
                batch.packets,
                batch.packets.len() as int,
            ) && cursor_of(after.active[id].wild_cursors, before.log.topics[0]) == (
                batch.segment_id,
                next_offset(batch.log_offset),
            ),
            None => after.active[id] == before.active[id],
        },
{
    lemma_tick_of_one_wild_subscription(before.active[id], before.log);
}

} // verus!
