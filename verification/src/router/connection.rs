//! The connections that the router knows: for each one its session, the
//! channel to it and its subscriptions.
//!
//! A connection holds its subscriptions in two tables keyed by topic
//! filter, one for the filters without wildcards and one for those with.
//! A new filter with wildcards takes the place of the subscriptions that
//! it covers, and gives way to a subscription with wildcards that covers
//! it.
use vstd::prelude::*;
use vstd::utf8::encode_utf8;
use tokio::sync::mpsc::Sender;
use crate::codec::enums::QoS;
use crate::codec::subscribe::Subscribe;
use crate::codec::topic::{admitted, has_wildcard_bytes, has_wildcards, topic_match};
use crate::codec::unsubscribe::Unsubscribe;
use crate::router::channel::{Outgoing, SendOutcome};
use crate::router::state::MqttState;
use crate::router::table::{put, without, Table};

verus! {

/// A subscription: the quality of service that it grants and the cursor in
/// the commit log at which its owner reads on.
#[derive(Debug, Clone, Copy, PartialEq, Eq)]
pub struct Subscription {
    pub qos: QoS,
    pub offset: (u64, usize),
}

impl Subscription {
    /// A subscription that reads from the start of the log.
    pub fn new(qos: QoS) -> (s: Subscription)
        ensures
            s == (Subscription { qos, offset: (0u64, 0usize) }),
    {
        Subscription { qos, offset: (0, 0) }
    }

    /// Moves the cursor.
    pub fn update_offset(&mut self, segment_id: u64, log_offset: usize)
        ensures
            *final(self) == (Subscription { qos: old(self).qos, offset: (segment_id, log_offset) }),
    {
        self.offset = (segment_id, log_offset)
    }

    /// The cursor.
    pub fn offset(&self) -> (cursor: (u64, usize))
        ensures
            cursor == self.offset,
    {
        self.offset
    }
}

/// The place after `log_offset` in a segment.
pub open spec fn next_offset(log_offset: usize) -> usize {
    if log_offset == usize::MAX {
        usize::MAX
    } else {
        (log_offset + 1) as usize
    }
}

/// The cursor that a table of cursors holds for `topic`, or the start of
/// the log where it holds none.
pub open spec fn cursor_of(cursors: Seq<(Seq<char>, (u64, usize))>, topic: Seq<char>) -> (
    u64,
    usize,
) {
    let i = crate::router::table::place(cursors, topic, 0);
    if 0 <= i < cursors.len() {
        cursors[i].1
    } else {
        (0u64, 0usize)
    }
}

/// Subscriptions by filter, in the order of a table.
pub type Entries = Seq<(Seq<char>, Subscription)>;

/// The filter `filter` matches `other` taken as a topic: whatever `other`
/// stands for, `filter` stands for too. A string that the matching rule
/// cannot be asked about is covered by nothing.
pub open spec fn covers(filter: Seq<char>, other: Seq<char>) -> bool {
    admitted(other) && topic_match(other, filter)
}

/// Whether `filter` matches `other` taken as a topic.
pub fn is_covered(filter: &str, other: &str) -> (b: bool)
    ensures
        b == covers(filter@, other@),
{
    match crate::codec::topic::matches(other, filter) {
        Some(found) => found,
        None => false,
    }
}

/// The filter holds a wildcard.
pub open spec fn is_wild(filter: Seq<char>) -> bool {
    has_wildcard_bytes(encode_utf8(filter))
}

/// A subscription to `key` overlaps the new filter `filter` and makes way
/// for it: the new filter covers it, or, among the subscriptions with
/// wildcards, it covers the new filter.
pub open spec fn makes_way(filter: Seq<char>, key: Seq<char>, in_wild: bool) -> bool {
    covers(filter, key) || (in_wild && covers(key, filter))
}

/// The entries from place `i` on that do not make way for `filter`.
pub open spec fn kept_from(entries: Entries, filter: Seq<char>, in_wild: bool, i: int) -> Entries
    decreases entries.len() - i,
{
    if i < 0 || i >= entries.len() {
        Seq::empty()
    } else if makes_way(filter, entries[i].0, in_wild) {
        kept_from(entries, filter, in_wild, i + 1)
    } else {
        seq![entries[i]] + kept_from(entries, filter, in_wild, i + 1)
    }
}

/// The quality of service after the first `n` entries were looked at: the
/// highest of `qos` and those of the entries that make way.
pub open spec fn raised(entries: Entries, filter: Seq<char>, in_wild: bool, qos: QoS, n: int) -> QoS
    decreases n,
{
    if n <= 0 || n > entries.len() {
        qos
    } else {
        let before = raised(entries, filter, in_wild, qos, n - 1);
        if makes_way(filter, entries[n - 1].0, in_wild) && entries[n - 1].1.qos.level()
            > before.level() {
            entries[n - 1].1.qos
        } else {
            before
        }
    }
}

/// Whether one of the first `n` entries makes way.
pub open spec fn any_makes_way(entries: Entries, filter: Seq<char>, in_wild: bool, n: int) -> bool
    decreases n,
{
    if n <= 0 || n > entries.len() {
        false
    } else {
        any_makes_way(entries, filter, in_wild, n - 1) || makes_way(
            filter,
            entries[n - 1].0,
            in_wild,
        )
    }
}

/// The filter that the new subscription gives way to after the first `n`
/// entries with wildcards were looked at: the last of them that covers the
/// new filter without being covered by it, if there is one.
pub open spec fn adopted(entries: Entries, filter: Seq<char>, n: int) -> Option<Seq<char>>
    decreases n,
{
    if n <= 0 || n > entries.len() {
        None
    } else if !covers(filter, entries[n - 1].0) && covers(entries[n - 1].0, filter) {
        Some(entries[n - 1].0)
    } else {
        adopted(entries, filter, n - 1)
    }
}

/// The subscriptions of a connection, as plain values.
pub struct Subscriptions {
    pub concrete: Entries,
    pub wild: Entries,
}

impl Subscriptions {
    /// The subscription that takes the place of those that overlap the new
    /// filter, if any does: its filter and what it grants. A filter
    /// without wildcards overlaps none.
    pub open spec fn overlap(self, filter: Seq<char>, qos: QoS) -> Option<
        (Seq<char>, Subscription),
    > {
        if is_wild(filter) && (any_makes_way(
            self.concrete,
            filter,
            false,
            self.concrete.len() as int,
        ) || any_makes_way(self.wild, filter, true, self.wild.len() as int)) {
            Some(
                (
                    match adopted(self.wild, filter, self.wild.len() as int) {
                        Some(wider) => wider,
                        None => filter,
                    },
                    Subscription {
                        qos: raised(
                            self.wild,
                            filter,
                            true,
                            raised(self.concrete, filter, false, qos, self.concrete.len() as int),
                            self.wild.len() as int,
                        ),
                        offset: (0u64, 0usize),
                    },
                ),
            )
        } else {
            None
        }
    }

    /// The subscriptions without those that overlap the new filter.
    pub open spec fn pruned(self, filter: Seq<char>) -> Subscriptions {
        if is_wild(filter) {
            Subscriptions {
                concrete: kept_from(self.concrete, filter, false, 0),
                wild: kept_from(self.wild, filter, true, 0),
            }
        } else {
            self
        }
    }

    /// The subscriptions after a subscribe to `filter`: those that overlap
    /// it are gone, and the subscription that stands for them and for it
    /// is there, among those with wildcards if its filter has one.
    pub open spec fn subscribed(self, filter: Seq<char>, qos: QoS) -> Subscriptions {
        let rest = self.pruned(filter);
        let entry = match self.overlap(filter, qos) {
            Some(entry) => entry,
            None => (filter, Subscription { qos, offset: (0u64, 0usize) }),
        };
        if is_wild(entry.0) {
            Subscriptions { wild: put(rest.wild, entry.0, entry.1), ..rest }
        } else {
            Subscriptions { concrete: put(rest.concrete, entry.0, entry.1), ..rest }
        }
    }

    /// The subscriptions after an unsubscribe from `filter`.
    pub open spec fn unsubscribed(self, filter: Seq<char>) -> Subscriptions {
        Subscriptions {
            concrete: without(self.concrete, filter),
            wild: without(self.wild, filter),
        }
    }

    /// The subscriptions after the first `n` filters of a SUBSCRIBE.
    pub open spec fn subscribed_all(self, subscribe: Subscribe, n: int) -> Subscriptions
        decreases n,
    {
        if n <= 0 || n > subscribe.topics@.len() {
            self
        } else {
            self.subscribed_all(subscribe, n - 1).subscribed(
                subscribe.topics@[n - 1].topic_path@,
                subscribe.topics@[n - 1].qos,
            )
        }
    }

    /// The subscriptions after the first `n` filters of an UNSUBSCRIBE.
    pub open spec fn unsubscribed_all(self, unsubscribe: Unsubscribe, n: int) -> Subscriptions
        decreases n,
    {
        if n <= 0 || n > unsubscribe.topics@.len() {
            self
        } else {
            self.unsubscribed_all(unsubscribe, n - 1).unsubscribed(unsubscribe.topics@[n - 1]@)
        }
    }
}

/// A connection that is there: the router sends to it.
#[derive(Debug)]
pub struct ActiveConnection {
    /// The session of the client.
    pub state: MqttState,
    /// The channel to the connection.
    pub tx: Sender<Outgoing>,
    /// The subscriptions to filters without wildcards.
    pub concrete_subscriptions: Table<Subscription>,
    /// The subscriptions to filters with wildcards.
    pub wild_subscriptions: Table<Subscription>,
    /// For each topic that was read through a filter with wildcards, the
    /// cursor at which the connection reads on.
    pub wild_cursors: Table<(u64, usize)>,
}

/// A connection that is gone, of a client whose session goes on.
#[derive(Debug)]
pub struct InactiveConnection {
    /// The session of the client.
    pub state: MqttState,
}

impl InactiveConnection {
    /// Keeps the session of a connection that is gone.
    pub fn new(state: MqttState) -> (c: InactiveConnection)
        ensures
            c.state == state,
    {
        InactiveConnection { state }
    }
}

/// Takes the entries that make way for `filter` out of a table.
fn prune(table: &mut Table<Subscription>, filter: &str, in_wild: bool)
    requires
        old(table).wf(),
    ensures
        final(table).wf(),
        final(table).pairs() == kept_from(old(table).pairs(), filter@, in_wild, 0),
        forall|k: Seq<char>| final(table).has(k) ==> old(table).has(k),
{
    let ghost before = table.pairs();
    let mut i: usize = table.len();
    assert(table.pairs() =~= before.take(i as int) + kept_from(before, filter@, in_wild, i as int));
    while i > 0
        invariant
            table.wf(),
            i <= before.len(),
            i <= table.entries@.len(),
            table.pairs() == before.take(i as int) + kept_from(before, filter@, in_wild, i as int),
            forall|k: Seq<char>| table.has(k) ==> old(table).has(k),
            before == old(table).pairs(),
        decreases i,
    {
        i = i - 1;
        let ghost rest = kept_from(before, filter@, in_wild, i + 1);
        let ghost held = *table;
        assert(table.pairs()[i as int] == before[i as int]);
        let key = table.key_at(i).as_str();
        let gone: bool = is_covered(filter, key) || (in_wild && is_covered(key, filter));
        if gone {
            let _ = table.remove_at(i);
            assert(table.pairs() =~= before.take(i as int) + rest);
            assert forall|k: Seq<char>| table.has(k) implies old(table).has(k) by {
                assert(held@.contains_key(k) == held.has(k));
                assert(table@.contains_key(k) == table.has(k));
            }
        } else {
            assert(before.take(i + 1) + rest =~= before.take(i as int) + (seq![before[i as int]]
                + rest));
        }
    }
    assert(before.take(0) + kept_from(before, filter@, in_wild, 0) =~= kept_from(
        before,
        filter@,
        in_wild,
        0,
    ));
}

impl ActiveConnection {
    /// The subscriptions as plain values.
    pub open spec fn subscriptions(&self) -> Subscriptions {
        Subscriptions {
            concrete: self.concrete_subscriptions.pairs(),
            wild: self.wild_subscriptions.pairs(),
        }
    }

    /// No filter stands twice, a filter with a wildcard stands among those
    /// with wildcards and every other one among those without.
    pub open spec fn wf(&self) -> bool {
        &&& self.concrete_subscriptions.wf()
        &&& self.wild_subscriptions.wf()
        &&& self.wild_cursors.wf()
        &&& forall|i: int|
            0 <= i < self.concrete_subscriptions.pairs().len() ==> !is_wild(
                (#[trigger] self.concrete_subscriptions.pairs()[i]).0,
            )
        &&& forall|i: int|
            0 <= i < self.wild_subscriptions.pairs().len() ==> is_wild(
                (#[trigger] self.wild_subscriptions.pairs()[i]).0,
            )
    }

    /// Whether the subscriptions are in order.
    pub fn is_wf(&self) -> (b: bool)
        ensures
            b == self.wf(),
    {
        if !self.concrete_subscriptions.is_wf() || !self.wild_subscriptions.is_wf()
            || !self.wild_cursors.is_wf() {
            return false;
        }
        let mut i: usize = 0;
        while i < self.concrete_subscriptions.len()
            invariant
                i <= self.concrete_subscriptions.entries@.len(),
                forall|k: int|
                    0 <= k < i ==> !is_wild((#[trigger] self.concrete_subscriptions.pairs()[k]).0),
            decreases self.concrete_subscriptions.entries@.len() - i,
        {
            if has_wildcards(self.concrete_subscriptions.key_at(i).as_str()) {
                assert(is_wild(self.concrete_subscriptions.pairs()[i as int].0));
                return false;
            }
            i = i + 1;
        }
        let mut j: usize = 0;
        while j < self.wild_subscriptions.len()
            invariant
                j <= self.wild_subscriptions.entries@.len(),
                forall|k: int|
                    0 <= k < j ==> is_wild((#[trigger] self.wild_subscriptions.pairs()[k]).0),
            decreases self.wild_subscriptions.entries@.len() - j,
        {
            if !has_wildcards(self.wild_subscriptions.key_at(j).as_str()) {
                assert(!is_wild(self.wild_subscriptions.pairs()[j as int].0));
                return false;
            }
            j = j + 1;
        }
        true
    }

    /// A connection without subscriptions.
    pub fn new(tx: Sender<Outgoing>, state: MqttState) -> (c: ActiveConnection)
        ensures
            c.wf(),
            c.tx == tx,
            c.state == state,
            c.concrete_subscriptions.entries@.len() == 0,
            c.wild_subscriptions.entries@.len() == 0,
            c.wild_cursors.entries@.len() == 0,
    {
        ActiveConnection {
            state,
            tx,
            concrete_subscriptions: Table::new(),
            wild_subscriptions: Table::new(),
            wild_cursors: Table::new(),
        }
    }

    /// What follows for the subscription at place `place` among those
    /// without wildcards from an attempt to send it a batch: where the
    /// channel took the batch, the cursor moves past the last publish of
    /// the batch, which stands at `(segment_id, log_offset)`; where it did
    /// not, the cursor stays.
    pub fn advance(
        &mut self,
        place: usize,
        outcome: SendOutcome,
        segment_id: u64,
        log_offset: usize,
    )
        requires
            old(self).wf(),
            place < old(self).concrete_subscriptions.entries@.len(),
        ensures
            final(self).wf(),
            final(self).state == old(self).state,
            final(self).tx == old(self).tx,
            final(self).wild_subscriptions == old(self).wild_subscriptions,
            final(self).wild_cursors == old(self).wild_cursors,
            final(self).concrete_subscriptions.keys() == old(self).concrete_subscriptions.keys(),
            final(self).concrete_subscriptions.entries@.len()
                == old(self).concrete_subscriptions.entries@.len(),
            final(self).concrete_subscriptions.pairs() == (if outcome == SendOutcome::Sent {
                old(self).concrete_subscriptions.pairs().update(
                    place as int,
                    (
                        old(self).concrete_subscriptions.pairs()[place as int].0,
                        Subscription {
                            qos: old(self).concrete_subscriptions.pairs()[place as int].1.qos,
                            offset: (segment_id, next_offset(log_offset)),
                        },
                    ),
                )
            } else {
                old(self).concrete_subscriptions.pairs()
            }),
    {
        match outcome {
            SendOutcome::Sent => {
                let qos = self.concrete_subscriptions.value_at(place).qos;
                let moved = Subscription {
                    qos,
                    offset: (segment_id, log_offset.saturating_add(1)),
                };
                let _ = self.concrete_subscriptions.replace_at(place, moved);
                proof {
                    let before = old(self).concrete_subscriptions.pairs();
                    let after = self.concrete_subscriptions.pairs();
                    assert(after =~= before.update(place as int, (before[place as int].0, moved)));
                    assert forall|i: int| 0 <= i < after.len() implies !is_wild(
                        (#[trigger] after[i]).0,
                    ) by {
                        assert(after[i].0 == before[i].0);
                    }
                }
            },
            _ => {},
        }
    }

    /// The cursor at which the connection reads on in `topic` through its
    /// filters with wildcards: the start of the log for a topic that it
    /// has not read yet.
    pub fn wild_cursor(&self, topic: &str) -> (cursor: (u64, usize))
        requires
            self.wf(),
        ensures
            cursor == cursor_of(self.wild_cursors.pairs(), topic@),
    {
        match self.wild_cursors.position(topic) {
            Some(place) => *self.wild_cursors.value_at(place),
            None => (0, 0),
        }
    }

    /// What follows for the cursor of `topic` from an attempt to send a
    /// batch that was read through a filter with wildcards: where the
    /// channel took the batch, the cursor moves past the last publish of
    /// the batch, which stands at `(segment_id, log_offset)`; where it did
    /// not, the cursor stays.
    pub fn advance_wild(
        &mut self,
        topic: &str,
        outcome: SendOutcome,
        segment_id: u64,
        log_offset: usize,
    )
        requires
            old(self).wf(),
        ensures
            final(self).wf(),
            final(self).state == old(self).state,
            final(self).tx == old(self).tx,
            final(self).concrete_subscriptions == old(self).concrete_subscriptions,
            final(self).wild_subscriptions == old(self).wild_subscriptions,
            final(self).wild_cursors.pairs() == (if outcome == SendOutcome::Sent {
                put(
                    old(self).wild_cursors.pairs(),
                    topic@,
                    (segment_id, next_offset(log_offset)),
                )
            } else {
                old(self).wild_cursors.pairs()
            }),
    {
        match outcome {
            SendOutcome::Sent => {
                let _ = self.wild_cursors.insert(
                    topic.to_owned(),
                    (segment_id, log_offset.saturating_add(1)),
                );
            },
            _ => {},
        }
    }

    /// Takes the subscriptions that overlap a new filter out of the
    /// tables. The result is the subscription that stands for them and for
    /// the new filter: at the highest quality of service among them, under
    /// the widest filter. Where nothing overlaps, and for a filter without
    /// wildcards, the result is nothing and the tables stay as they are.
    pub fn fix_overlapping_subscriptions(&mut self, current_filter: &str, qos: QoS) -> (r: Option<
        (String, Subscription),
    >)
        requires
            old(self).wf(),
        ensures
            final(self).wf(),
            final(self).subscriptions() == old(self).subscriptions().pruned(current_filter@),
            final(self).state == old(self).state,
            final(self).tx == old(self).tx,
            final(self).wild_cursors == old(self).wild_cursors,
            forall|k: Seq<char>|
                final(self).concrete_subscriptions.has(k) ==> old(self).concrete_subscriptions.has(
                    k,
                ),
            forall|k: Seq<char>|
                final(self).wild_subscriptions.has(k) ==> old(self).wild_subscriptions.has(k),
            match old(self).subscriptions().overlap(current_filter@, qos) {
                Some(entry) => r matches Some(got) && got.1 == entry.1 && got.0@ == entry.0,
                None => r is None,
            },
    {
        if !has_wildcards(current_filter) {
            return None;
        }
        let ghost concrete = self.concrete_subscriptions.pairs();
        let ghost wild = self.wild_subscriptions.pairs();
        let mut level = qos;
        let mut found: bool = false;
        let mut i: usize = 0;
        while i < self.concrete_subscriptions.len()
            invariant
                i <= concrete.len(),
                concrete == self.concrete_subscriptions.pairs(),
                level == raised(concrete, current_filter@, false, qos, i as int),
                found == any_makes_way(concrete, current_filter@, false, i as int),
            decreases concrete.len() - i,
        {
            let key = self.concrete_subscriptions.key_at(i).as_str();
            if is_covered(current_filter, key) {
                found = true;
                let existing = self.concrete_subscriptions.value_at(i).qos;
                if existing.code() > level.code() {
                    level = existing;
                }
            }
            i = i + 1;
        }
        let ghost level1 = level;
        let ghost found1 = found;
        let mut adopt: Option<usize> = None;
        let mut j: usize = 0;
        while j < self.wild_subscriptions.len()
            invariant
                j <= wild.len(),
                wild == self.wild_subscriptions.pairs(),
                level == raised(wild, current_filter@, true, level1, j as int),
                found == (found1 || any_makes_way(wild, current_filter@, true, j as int)),
                adopt matches Some(a) ==> a < j,
                adopted(wild, current_filter@, j as int) == (match adopt {
                    Some(a) => Some(wild[a as int].0),
                    None => None,
                }),
            decreases wild.len() - j,
        {
            let key = self.wild_subscriptions.key_at(j).as_str();
            let covered: bool = is_covered(current_filter, key);
            let wider: bool = !covered && is_covered(key, current_filter);
            if covered || wider {
                found = true;
                let existing = self.wild_subscriptions.value_at(j).qos;
                if existing.code() > level.code() {
                    level = existing;
                }
            }
            if wider {
                adopt = Some(j);
            }
            j = j + 1;
        }
        let filter = match adopt {
            Some(a) => self.wild_subscriptions.key_at(a).clone(),
            None => current_filter.to_owned(),
        };
        prune(&mut self.concrete_subscriptions, current_filter, false);
        prune(&mut self.wild_subscriptions, current_filter, true);
        proof {
            lemma_kept_are_old(concrete, current_filter@, false, 0);
            lemma_kept_are_old(wild, current_filter@, true, 0);
        }
        if found {
            Some((filter, Subscription::new(level)))
        } else {
            None
        }
    }

    /// Adds the subscription to one filter.
    pub fn subscribe_to(&mut self, filter: String, qos: QoS)
        requires
            old(self).wf(),
        ensures
            final(self).wf(),
            final(self).subscriptions() == old(self).subscriptions().subscribed(filter@, qos),
            final(self).state == old(self).state,
            final(self).tx == old(self).tx,
            final(self).wild_cursors == old(self).wild_cursors,
    {
        let entry = match self.fix_overlapping_subscriptions(filter.as_str(), qos) {
            Some(entry) => {
                proof {
                    lemma_adopted_is_wild(
                        old(self).wild_subscriptions.pairs(),
                        filter@,
                        old(self).wild_subscriptions.pairs().len() as int,
                    );
                }
                entry
            },
            None => (filter, Subscription::new(qos)),
        };
        let ghost rest = self.subscriptions();
        let ghost key = entry.0@;
        if has_wildcards(entry.0.as_str()) {
            let _ = self.wild_subscriptions.insert(entry.0, entry.1);
            proof {
                lemma_put_keys(rest.wild, key, entry.1);
            }
        } else {
            let _ = self.concrete_subscriptions.insert(entry.0, entry.1);
            proof {
                lemma_put_keys(rest.concrete, key, entry.1);
            }
        }
    }

    /// Adds the subscriptions of a SUBSCRIBE, one filter after the other.
    pub fn add_to_subscriptions(&mut self, subscribe: Subscribe)
        requires
            old(self).wf(),
        ensures
            final(self).wf(),
            final(self).subscriptions() == old(self).subscriptions().subscribed_all(
                subscribe,
                subscribe.topics@.len() as int,
            ),
            final(self).state == old(self).state,
            final(self).tx == old(self).tx,
            final(self).wild_cursors == old(self).wild_cursors,
    {
        let mut i: usize = 0;
        while i < subscribe.topics.len()
            invariant
                self.wf(),
                i <= subscribe.topics@.len(),
                self.subscriptions() == old(self).subscriptions().subscribed_all(
                    subscribe,
                    i as int,
                ),
                self.state == old(self).state,
                self.tx == old(self).tx,
                self.wild_cursors == old(self).wild_cursors,
            decreases subscribe.topics@.len() - i,
        {
            let filter = subscribe.topics[i].topic_path.clone();
            let qos = subscribe.topics[i].qos;
            self.subscribe_to(filter, qos);
            i = i + 1;
        }
    }

    /// Takes the subscriptions to the filters of an UNSUBSCRIBE out of
    /// both tables.
    pub fn remove_from_subscriptions(&mut self, unsubscribe: Unsubscribe)
        requires
            old(self).wf(),
        ensures
            final(self).wf(),
            final(self).subscriptions() == old(self).subscriptions().unsubscribed_all(
                unsubscribe,
                unsubscribe.topics@.len() as int,
            ),
            final(self).state == old(self).state,
            final(self).tx == old(self).tx,
            final(self).wild_cursors == old(self).wild_cursors,
    {
        let mut i: usize = 0;
        while i < unsubscribe.topics.len()
            invariant
                self.wf(),
                i <= unsubscribe.topics@.len(),
                self.subscriptions() == old(self).subscriptions().unsubscribed_all(
                    unsubscribe,
                    i as int,
                ),
                self.state == old(self).state,
                self.tx == old(self).tx,
                self.wild_cursors == old(self).wild_cursors,
            decreases unsubscribe.topics@.len() - i,
        {
            let ghost before = *self;
            let topic = unsubscribe.topics[i].as_str();
            let _ = self.concrete_subscriptions.remove(topic);
            let _ = self.wild_subscriptions.remove(topic);
            proof {
                lemma_without_keys(before.concrete_subscriptions.pairs(), topic@);
                lemma_without_keys(before.wild_subscriptions.pairs(), topic@);
            }
            i = i + 1;
        }
    }
}

/// Every entry that is kept is an entry that was there.
pub proof fn lemma_kept_are_old(entries: Entries, filter: Seq<char>, in_wild: bool, i: int)
    requires
        0 <= i,
    ensures
        forall|k: int|
            0 <= k < kept_from(entries, filter, in_wild, i).len() ==> exists|j: int|
                i <= j < entries.len() && entries[j] == #[trigger] kept_from(
                    entries,
                    filter,
                    in_wild,
                    i,
                )[k],
    decreases entries.len() - i,
{
    if i < entries.len() {
        lemma_kept_are_old(entries, filter, in_wild, i + 1);
        let rest = kept_from(entries, filter, in_wild, i + 1);
        let here = kept_from(entries, filter, in_wild, i);
        assert forall|k: int| 0 <= k < here.len() implies exists|j: int|
            i <= j < entries.len() && entries[j] == #[trigger] here[k] by {
            if makes_way(filter, entries[i].0, in_wild) {
                let j = choose|j: int| i + 1 <= j < entries.len() && entries[j] == rest[k];
                assert(entries[j] == here[k]);
            } else if k == 0 {
                assert(entries[i] == here[0]);
            } else {
                let j = choose|j: int| i + 1 <= j < entries.len() && entries[j] == rest[k - 1];
                assert(entries[j] == here[k]);
            }
        }
    }
}

/// A filter that the new subscription gives way to has a wildcard, where
/// all the subscriptions it is taken from have.
pub proof fn lemma_adopted_is_wild(entries: Entries, filter: Seq<char>, n: int)
    requires
        0 <= n <= entries.len(),
        forall|i: int| 0 <= i < entries.len() ==> is_wild((#[trigger] entries[i]).0),
    ensures
        adopted(entries, filter, n) matches Some(wider) ==> is_wild(wider),
    decreases n,
{
    if n > 0 {
        lemma_adopted_is_wild(entries, filter, n - 1);
    }
}

/// The filters after a put are those before it and the one put.
pub proof fn lemma_put_keys(entries: Entries, key: Seq<char>, value: Subscription)
    ensures
        forall|i: int|
            0 <= i < put(entries, key, value).len() ==> (#[trigger] put(entries, key, value)[i]).0
                == key || exists|j: int|
                0 <= j < entries.len() && entries[j].0 == put(entries, key, value)[i].0,
{
    let after = put(entries, key, value);
    let p = crate::router::table::place(entries, key, 0);
    assert forall|i: int| 0 <= i < after.len() implies (#[trigger] after[i]).0 == key
        || exists|j: int| 0 <= j < entries.len() && entries[j].0 == after[i].0 by {
        if 0 <= p < entries.len() {
            if i != p {
                assert(entries[i].0 == after[i].0);
            }
        } else if i < entries.len() {
            assert(entries[i].0 == after[i].0);
        }
    }
}

/// The filters after a removal are among those before it.
pub proof fn lemma_without_keys(entries: Entries, key: Seq<char>)
    ensures
        forall|i: int|
            0 <= i < without(entries, key).len() ==> exists|j: int|
                0 <= j < entries.len() && entries[j] == #[trigger] without(entries, key)[i],
{
    let after = without(entries, key);
    let p = crate::router::table::place(entries, key, 0);
    assert forall|i: int| 0 <= i < after.len() implies exists|j: int|
        0 <= j < entries.len() && entries[j] == #[trigger] after[i] by {
        if 0 <= p < entries.len() {
            if i < p {
                assert(entries[i] == after[i]);
            } else {
                assert(entries[i + 1] == after[i]);
            }
        } else {
            assert(entries[i] == after[i]);
        }
    }
}

} // verus!
