//! The commit log: for every topic the publishes that came in on it, in the
//! order in which they came, kept in segments of bounded size of which only
//! the newest are held.
use vstd::prelude::*;
use std::time::{Duration, SystemTimeError, UNIX_EPOCH};
use crate::codec::buffer::{bytes_as_slice};
use crate::codec::publish::{Publish, PublishView};
use crate::router::table::{place, put, without, Table};

verus! {

/// `std::time::SystemTimeError`, which is carried and never looked into.
#[verifier::external_type_specification]
#[verifier::external_body]
pub struct ExSystemTimeError(SystemTimeError);

/// `SystemTime::elapsed` of `UNIX_EPOCH`: the time that has passed since the
/// epoch, or the failure of a clock that stands before it. Nothing is
/// said of the result: it is the clock's.
#[verifier::external_body]
fn since_epoch() -> Result<Duration, SystemTimeError> {
    UNIX_EPOCH.elapsed()
}

/// `Duration::as_millis`: a length of time in milliseconds. Nothing is
/// said of the number.
#[verifier::external_body]
fn as_millis(length: Duration) -> u128 {
    length.as_millis()
}

/// Why the commit log could not take a publish.
#[derive(Debug)]
pub enum Error {
    /// The clock stands before the epoch.
    Time(SystemTimeError),
    /// Every segment id has been given out.
    SegmentIds,
}

/// A batch of publishes read from the log, with the place of the last one
/// of them.
#[derive(Debug)]
pub struct Messages {
    /// The segment of the last publish of the batch.
    pub segment_id: u64,
    /// The place of the last publish of the batch in its segment.
    pub log_offset: usize,
    /// The publishes.
    pub packets: Vec<Publish>,
}

/// A run of publishes of bounded size.
#[derive(Debug)]
pub struct Segment {
    /// The id of the segment.
    pub id: u64,
    /// The payload bytes that the segment holds.
    pub current_size: usize,
    /// The size from which on the segment is full.
    pub max_size: usize,
    /// When the segment was made, in milliseconds since the epoch.
    pub timestamp: u128,
    /// The publishes of the segment.
    pub packets: Vec<Publish>,
}

/// The publishes that a vector of them stands for.
pub open spec fn publish_views(packets: Seq<Publish>) -> Seq<PublishView> {
    Seq::new(packets.len(), |i: int| packets[i]@)
}

/// A segment, as a mathematical value.
pub struct SegmentView {
    pub id: u64,
    pub current_size: usize,
    pub max_size: usize,
    pub timestamp: u128,
    pub packets: Seq<PublishView>,
}

/// A batch, as a mathematical value.
pub struct MessagesView {
    pub segment_id: u64,
    pub log_offset: usize,
    pub packets: Seq<PublishView>,
}

impl View for Segment {
    type V = SegmentView;

    open spec fn view(&self) -> SegmentView {
        SegmentView {
            id: self.id,
            current_size: self.current_size,
            max_size: self.max_size,
            timestamp: self.timestamp,
            packets: publish_views(self.packets@),
        }
    }
}

impl View for Messages {
    type V = MessagesView;

    open spec fn view(&self) -> MessagesView {
        MessagesView {
            segment_id: self.segment_id,
            log_offset: self.log_offset,
            packets: publish_views(self.packets@),
        }
    }
}

/// The segments that a vector of them stands for.
pub open spec fn segment_views(segments: Seq<Segment>) -> Seq<SegmentView> {
    Seq::new(segments.len(), |i: int| segments[i]@)
}

/// The sum of two sizes, held at the largest size where it goes beyond.
pub open spec fn capped_sum(a: usize, b: int) -> usize {
    if a + b > usize::MAX {
        usize::MAX
    } else {
        (a + b) as usize
    }
}

impl SegmentView {
    /// An empty segment.
    pub open spec fn fresh(id: u64, max_size: usize, timestamp: u128) -> SegmentView {
        SegmentView { id, current_size: 0, max_size, timestamp, packets: Seq::empty() }
    }

    /// The segment with one more publish.
    pub open spec fn filled(self, publish: PublishView) -> SegmentView {
        SegmentView {
            current_size: capped_sum(self.current_size, publish.payload.len() as int),
            packets: self.packets.push(publish),
            ..self
        }
    }

    /// The segment has reached its size.
    pub open spec fn is_full(self) -> bool {
        self.current_size >= self.max_size
    }
}

impl Segment {
    /// An empty segment that was made at the given time.
    pub fn at(id: u64, max_size: usize, timestamp: u128) -> (s: Segment)
        ensures
            s@ == SegmentView::fresh(id, max_size, timestamp),
    {
        let s = Segment { id, current_size: 0, max_size, timestamp, packets: Vec::new() };
        assert(s@.packets =~= Seq::<PublishView>::empty());
        s
    }

    /// An empty segment, made now. It is refused where the clock stands
    /// before the epoch.
    pub fn new(id: u64, max_size: usize) -> (r: Result<Segment, Error>)
        ensures
            match r {
                Ok(s) => s@ == SegmentView::fresh(id, max_size, s.timestamp),
                Err(e) => e is Time,
            },
    {
        match since_epoch() {
            Ok(length) => Ok(Segment::at(id, max_size, as_millis(length))),
            Err(e) => Err(Error::Time(e)),
        }
    }

    /// Adds a publish to the segment. Where the segment is full with it the
    /// result is the place of the publish, which is the last of the
    /// segment.
    pub fn fill(&mut self, publish: Publish) -> (r: Option<u64>)
        ensures
            final(self)@ == old(self)@.filled(publish@),
            match r {
                Some(offset) => final(self)@.is_full() && offset == old(self).packets@.len(),
                None => !final(self)@.is_full(),
            },
    {
        let payload_size: usize = bytes_as_slice(&publish.payload).len();
        self.packets.push(publish);
        self.current_size = self.current_size.saturating_add(payload_size);
        assert(self@.packets =~= old(self)@.packets.push(publish@));
        if self.current_size >= self.max_size {
            return Some((self.packets.len() - 1) as u64);
        }
        None
    }
}

/// The segments of a topic with one more publish. Where the newest segment
/// is full with it, a new segment with the id `next_id` is started after
/// it, and the oldest segment leaves where there are `limit` of them or
/// more.
pub open spec fn partition_filled(
    segments: Seq<SegmentView>,
    publish: PublishView,
    next_id: u64,
    max_size: usize,
    limit: usize,
    timestamp: u128,
) -> Seq<SegmentView> {
    let tail = segments.last().filled(publish);
    let updated = segments.drop_last().push(tail);
    if !tail.is_full() {
        updated
    } else {
        let kept = if updated.len() >= limit {
            updated.skip(1)
        } else {
            updated
        };
        kept.push(SegmentView::fresh(next_id, max_size, timestamp))
    }
}

/// Whether a publish fills the newest segment.
pub open spec fn rotates(segments: Seq<SegmentView>, publish: PublishView) -> bool {
    segments.last().filled(publish).is_full()
}

/// The segments of a topic are in order: there is at least one, the ids
/// grow from each to the next, and none is above `newest`.
pub open spec fn partition_wf(segments: Seq<SegmentView>, newest: u64) -> bool {
    &&& segments.len() >= 1
    &&& forall|i: int, j: int| 0 <= i < j < segments.len() ==> segments[i].id < segments[j].id
    &&& forall|i: int| 0 <= i < segments.len() ==> (#[trigger] segments[i]).id <= newest
}

/// The first place from `i` on whose segment has an id of at least
/// `segment_id`, or the number of segments where there is none.
pub open spec fn first_from(segments: Seq<SegmentView>, segment_id: u64, i: int) -> int
    decreases segments.len() - i,
{
    if i < 0 || i >= segments.len() || segments[i].id >= segment_id {
        i
    } else {
        first_from(segments, segment_id, i + 1)
    }
}

/// The smaller of two numbers.
pub open spec fn least(a: int, b: int) -> int {
    if a <= b {
        a
    } else {
        b
    }
}

/// What is read from the segments at place `from` and after, starting at
/// `offset` in the first of them, up to `count` publishes, added to what
/// was read before. A segment that does not reach `offset` is passed
/// over.
pub open spec fn collect(
    segments: Seq<SegmentView>,
    from: int,
    offset: int,
    count: int,
    got: MessagesView,
) -> MessagesView
    decreases segments.len() - from,
{
    if from < 0 || from >= segments.len() || count <= 0 {
        got
    } else if offset < 0 || offset >= segments[from].packets.len() {
        collect(segments, from + 1, 0, count, got)
    } else {
        let k = least(count, segments[from].packets.len() - offset);
        collect(
            segments,
            from + 1,
            0,
            count - k,
            MessagesView {
                segment_id: segments[from].id,
                log_offset: (offset + k - 1) as usize,
                packets: got.packets + segments[from].packets.subrange(offset, offset + k),
            },
        )
    }
}

/// The batch that is empty.
pub open spec fn no_messages() -> MessagesView {
    MessagesView { segment_id: 0, log_offset: 0, packets: Seq::empty() }
}

/// Up to `count` publishes of the segments from the cursor `(segment_id,
/// log_offset)` on, with the place of the last of them, or nothing where
/// no publish stands at the cursor or after it. A cursor into a segment
/// that is gone reads from the start of the first segment that follows.
pub open spec fn read_from(
    segments: Seq<SegmentView>,
    segment_id: u64,
    log_offset: usize,
    count: usize,
) -> Option<MessagesView> {
    let from = first_from(segments, segment_id, 0);
    let offset = if 0 <= from < segments.len() && segments[from].id == segment_id {
        log_offset as int
    } else {
        0
    };
    let got = collect(segments, from, offset, count as int, no_messages());
    if got.packets.len() == 0 {
        None
    } else {
        Some(got)
    }
}

/// The publishes of the segments at place `from` and after, oldest first.
pub open spec fn log_from(segments: Seq<SegmentView>, from: int) -> Seq<PublishView>
    decreases segments.len() - from,
{
    if from < 0 || from >= segments.len() {
        Seq::empty()
    } else {
        segments[from].packets + log_from(segments, from + 1)
    }
}

/// All the publishes of the segments, oldest first.
pub open spec fn log_of(segments: Seq<SegmentView>) -> Seq<PublishView> {
    log_from(segments, 0)
}

/// Whether the segments of a topic are in order.
pub fn partition_in_order(segments: &Vec<Segment>, newest: u64) -> (b: bool)
    ensures
        b == partition_wf(segment_views(segments@), newest),
{
    let ghost views = segment_views(segments@);
    if segments.len() == 0 {
        return false;
    }
    if segments[0].id > newest {
        assert(views[0].id > newest);
        return false;
    }
    let mut i: usize = 1;
    while i < segments.len()
        invariant
            1 <= i <= segments@.len(),
            views == segment_views(segments@),
            forall|a: int, b: int| 0 <= a < b < i ==> views[a].id < views[b].id,
            forall|a: int| 0 <= a < i ==> (#[trigger] views[a]).id <= newest,
        decreases segments@.len() - i,
    {
        if segments[i - 1].id >= segments[i].id {
            assert(!(views[i - 1].id < views[i as int].id));
            return false;
        }
        if segments[i].id > newest {
            assert(views[i as int].id > newest);
            return false;
        }
        assert forall|a: int, b: int| 0 <= a < b < i + 1 implies views[a].id < views[b].id by {
            if b == i && a < i - 1 {
                assert(views[a].id < views[i - 1].id);
            }
        }
        i = i + 1;
    }
    true
}

/// The commit log.
#[derive(Debug)]
pub struct CommitLog {
    /// The segments of each topic, oldest first.
    pub partitions: Table<Vec<Segment>>,
    /// The retained publish of each topic that has one.
    pub retained: Table<Publish>,
    /// The size from which on a segment is full.
    pub max_segement_size: usize,
    /// The number of segments that a topic keeps.
    pub segments_per_partition: usize,
    /// The newest segment id that was given out.
    pub current_segment_id: u64,
}

/// The retained publishes of a table, by topic.
pub open spec fn retained_pairs(retained: Table<Publish>) -> Seq<(Seq<char>, PublishView)> {
    Seq::new(retained.entries@.len(), |i: int| (retained.entries@[i].0@, retained.entries@[i].1@))
}

/// A topic stands at the same place among the retained publishes and
/// among their views.
pub proof fn lemma_place_of_views(retained: Table<Publish>, topic: Seq<char>, from: int)
    requires
        0 <= from,
    ensures
        place(retained_pairs(retained), topic, from) == place(retained.pairs(), topic, from),
    decreases retained.entries@.len() - from,
{
    if from < retained.entries@.len() && retained.entries@[from].0@ != topic {
        lemma_place_of_views(retained, topic, from + 1);
    }
}

/// The commit log, as a mathematical value.
pub struct LogView {
    /// The topics, in the order in which their first publish came.
    pub topics: Seq<Seq<char>>,
    pub partitions: Map<Seq<char>, Seq<SegmentView>>,
    /// The retained publishes by topic, in the order in which the topics
    /// first got one.
    pub retained: Seq<(Seq<char>, PublishView)>,
    pub max_segment_size: usize,
    pub segments_per_partition: usize,
    pub current_segment_id: u64,
}

impl LogView {
    /// The segments that a publish on `topic` is added to: those of the
    /// topic, or the one empty segment with the id 0 that a new topic
    /// starts with.
    pub open spec fn segments_for(self, topic: Seq<char>, timestamp: u128) -> Seq<SegmentView> {
        if self.partitions.contains_key(topic) {
            self.partitions[topic]
        } else {
            seq![SegmentView::fresh(0, self.max_segment_size, timestamp)]
        }
    }

    /// The retained publishes after `publish`: a retained publish takes the
    /// place of the one of its topic, or clears it where its payload is
    /// empty.
    pub open spec fn retained_after(self, publish: PublishView) -> Seq<(Seq<char>, PublishView)> {
        if !publish.retain {
            self.retained
        } else if publish.payload.len() == 0 {
            without(self.retained, publish.topic)
        } else {
            put(self.retained, publish.topic, publish)
        }
    }

    /// The log with one more publish, taken at the given time.
    pub open spec fn filled(self, publish: PublishView, timestamp: u128) -> LogView {
        let segments = self.segments_for(publish.topic, timestamp);
        LogView {
            topics: if self.partitions.contains_key(publish.topic) {
                self.topics
            } else {
                self.topics.push(publish.topic)
            },
            partitions: self.partitions.insert(
                publish.topic,
                partition_filled(
                    segments,
                    publish,
                    (self.current_segment_id + 1) as u64,
                    self.max_segment_size,
                    self.segments_per_partition,
                    timestamp,
                ),
            ),
            retained: self.retained_after(publish),
            current_segment_id: if rotates(segments, publish) {
                (self.current_segment_id + 1) as u64
            } else {
                self.current_segment_id
            },
            ..self
        }
    }

    /// What a reader of `topic` gets at the cursor.
    pub open spec fn read(
        self,
        topic: Seq<char>,
        segment_id: u64,
        log_offset: usize,
        count: usize,
    ) -> Option<MessagesView> {
        if self.partitions.contains_key(topic) {
            read_from(self.partitions[topic], segment_id, log_offset, count)
        } else {
            None
        }
    }

    /// The publish starts a segment: its topic is new to the log, or the
    /// newest segment of its topic is full with it. Only then the time
    /// of the publish matters to the log.
    pub open spec fn starts_segment(self, publish: PublishView) -> bool {
        !self.partitions.contains_key(publish.topic) || rotates(
            self.partitions[publish.topic],
            publish,
        )
    }

    /// The log that has noted what a publish asks of the retained
    /// publishes and has not taken the publish into a segment.
    pub open spec fn retained_noted(self, publish: PublishView) -> LogView {
        LogView { retained: self.retained_after(publish), ..self }
    }

    /// What a publish makes of the log, whatever the clock says: `after`
    /// is the log after it. A log that has given out every segment id
    /// stays as it is. A publish that starts no segment is in the log.
    /// One that starts a segment is in the log with the time at which the
    /// segment was started, or, where the clock gave no time, is only
    /// noted among the retained publishes.
    pub open spec fn took(self, publish: PublishView, after: LogView) -> bool {
        if self.current_segment_id == u64::MAX {
            after == self
        } else if self.starts_segment(publish) {
            after == self.retained_noted(publish) || exists|timestamp: u128|
                after == self.filled(publish, timestamp)
        } else {
            after == self.filled(publish, 0)
        }
    }

    /// The log holds `topic`, and the segments of the topic are in order
    /// and can be held in memory.
    pub open spec fn in_order(self, topic: Seq<char>) -> bool {
        &&& self.partitions.contains_key(topic)
        &&& partition_wf(self.partitions[topic], self.current_segment_id)
        &&& countable(self.partitions[topic])
    }
}

impl View for CommitLog {
    type V = LogView;

    open spec fn view(&self) -> LogView {
        LogView {
            topics: self.partitions.keys(),
            partitions: Map::new(
                |topic: Seq<char>| self.partitions.has(topic),
                |topic: Seq<char>| segment_views(self.partitions.value_of(topic)@),
            ),
            retained: retained_pairs(self.retained),
            max_segment_size: self.max_segement_size,
            segments_per_partition: self.segments_per_partition,
            current_segment_id: self.current_segment_id,
        }
    }
}

/// Adds a publish to the segments of a topic and says whether a new
/// segment was started.
pub fn fill_partition(
    segments: &mut Vec<Segment>,
    publish: Publish,
    next_id: u64,
    max_size: usize,
    limit: usize,
    timestamp: u128,
) -> (rotated: bool)
    requires
        partition_wf(segment_views(old(segments)@), (next_id - 1) as u64),
        next_id >= 1,
    ensures
        segment_views(final(segments)@) == partition_filled(
            segment_views(old(segments)@),
            publish@,
            next_id,
            max_size,
            limit,
            timestamp,
        ),
        rotated == rotates(segment_views(old(segments)@), publish@),
        partition_wf(
            segment_views(final(segments)@),
            if rotated {
                next_id
            } else {
                (next_id - 1) as u64
            },
        ),
{
    let ghost before = segment_views(segments@);
    let mut tail = segments.pop().unwrap();
    assert(tail@ == before.last());
    assert(segment_views(segments@) =~= before.drop_last());
    let full = tail.fill(publish);
    segments.push(tail);
    let ghost updated = before.drop_last().push(before.last().filled(publish@));
    assert(segment_views(segments@) =~= updated);
    assert forall|i: int| 0 <= i < updated.len() implies (#[trigger] updated[i]).id
        == before[i].id by {}
    if full.is_none() {
        return false;
    }
    if segments.len() >= limit {
        let _ = segments.remove(0);
        assert(segment_views(segments@) =~= updated.skip(1));
    }
    let ghost kept = segment_views(segments@);
    assert forall|i: int| 0 <= i < kept.len() implies (#[trigger] kept[i]).id < next_id
        && exists|j: int| 0 <= j < before.len() && i <= j && before[j].id == kept[i].id
        && j - i == before.len() - kept.len() by {
        let j = i + (before.len() - kept.len());
        assert(kept[i].id == before[j].id);
        assert(before[j].id <= (next_id - 1) as u64);
    }
    segments.push(Segment::at(next_id, max_size, timestamp));
    assert(segment_views(segments@) =~= kept.push(
        SegmentView::fresh(next_id, max_size, timestamp),
    ));
    true
}

impl CommitLog {
    /// Topics stand once in each table, and the segments of every topic
    /// are in order.
    pub open spec fn wf(&self) -> bool {
        &&& self.partitions.wf()
        &&& self.retained.wf()
        &&& forall|i: int|
            0 <= i < self.partitions.entries@.len() ==> partition_wf(
                segment_views((#[trigger] self.partitions.entries@[i]).1@),
                self.current_segment_id,
            )
    }

    /// In a log that is in order every topic that it holds is.
    pub proof fn lemma_in_order(&self, topic: Seq<char>)
        requires
            self.wf(),
            self@.partitions.contains_key(topic),
        ensures
            self@.in_order(topic),
    {
        let i = self.partitions.index_of(topic);
        let segments = self.partitions.entries@[i].1;
        assert(partition_wf(segment_views(segments@), self.current_segment_id));
        assert forall|k: int| 0 <= k < segment_views(segments@).len() implies (
        #[trigger] segment_views(segments@)[k]).packets.len() <= usize::MAX by {
            assert(segments@[k].packets.len() == segments@[k].packets@.len());
        }
    }

    /// Whether the log is in order.
    pub fn is_wf(&self) -> (b: bool)
        ensures
            b == self.wf(),
    {
        if !self.partitions.is_wf() || !self.retained.is_wf() {
            return false;
        }
        let mut i: usize = 0;
        while i < self.partitions.len()
            invariant
                i <= self.partitions.entries@.len(),
                forall|k: int|
                    0 <= k < i ==> partition_wf(
                        segment_views((#[trigger] self.partitions.entries@[k]).1@),
                        self.current_segment_id,
                    ),
            decreases self.partitions.entries@.len() - i,
        {
            if !partition_in_order(self.partitions.value_at(i), self.current_segment_id) {
                return false;
            }
            i = i + 1;
        }
        true
    }

    /// An empty log whose segments are full at `max_segement_size` bytes
    /// of payload and whose topics keep `segments_per_partition` segments.
    pub fn new(max_segement_size: usize, segments_per_partition: usize) -> (r: Result<
        CommitLog,
        Error,
    >)
        ensures
            r matches Ok(log) && log.wf() && log@ == (LogView {
                topics: Seq::empty(),
                partitions: Map::empty(),
                retained: Seq::empty(),
                max_segment_size: max_segement_size,
                segments_per_partition,
                current_segment_id: 0,
            }),
    {
        let log = CommitLog {
            partitions: Table::new(),
            retained: Table::new(),
            max_segement_size,
            segments_per_partition,
            current_segment_id: 0,
        };
        assert(log@.partitions =~= Map::<Seq<char>, Seq<SegmentView>>::empty());
        assert(log@.retained =~= Seq::<(Seq<char>, PublishView)>::empty());
        assert(log@.topics =~= Seq::<Seq<char>>::empty());
        Ok(log)
    }

    /// The number of segments that the log holds for `topic`, if it holds
    /// the topic.
    pub fn segment_count(&self, topic: &str) -> (n: Option<usize>)
        requires
            self.wf(),
        ensures
            match n {
                Some(count) => self@.partitions.contains_key(topic@) && count
                    == self@.partitions[topic@].len(),
                None => !self@.partitions.contains_key(topic@),
            },
    {
        match self.partitions.position(topic) {
            Some(i) => Some(self.partitions.value_at(i).len()),
            None => None,
        }
    }

    /// Notes a retained publish, or the end of one.
    fn retain(&mut self, publish: &Publish)
        requires
            old(self).wf(),
        ensures
            final(self).wf(),
            final(self).partitions == old(self).partitions,
            final(self).max_segement_size == old(self).max_segement_size,
            final(self).segments_per_partition == old(self).segments_per_partition,
            final(self).current_segment_id == old(self).current_segment_id,
            final(self)@.retained == old(self)@.retained_after(publish@),
    {
        if publish.retain {
            let ghost topic = publish@.topic;
            let ghost before = retained_pairs(self.retained);
            if bytes_as_slice(&publish.payload).len() == 0 {
                let _ = self.retained.remove(publish.topic.as_str());
                proof {
                    lemma_place_of_views(old(self).retained, topic, 0);
                    let after = retained_pairs(self.retained);
                    let wanted = without(before, topic);
                    let table = without(old(self).retained.pairs(), topic);
                    assert(after.len() == self.retained.pairs().len());
                    assert(before.len() == old(self).retained.pairs().len());
                    assert forall|k: int| 0 <= k < after.len() implies after[k] == wanted[k] by {
                        assert(self.retained.pairs()[k] == table[k]);
                    }
                    assert(after =~= wanted);
                }
            } else {
                let copy = publish.duplicate();
                let _ = self.retained.insert(publish.topic.clone(), copy);
                proof {
                    lemma_place_of_views(old(self).retained, topic, 0);
                    let after = retained_pairs(self.retained);
                    let wanted = put(before, topic, publish@);
                    let table = put(old(self).retained.pairs(), topic, copy);
                    assert(after.len() == self.retained.pairs().len());
                    assert(before.len() == old(self).retained.pairs().len());
                    assert forall|k: int| 0 <= k < after.len() implies after[k] == wanted[k] by {
                        assert(self.retained.pairs()[k] == table[k]);
                    }
                    assert(after =~= wanted);
                }
            }
        }
    }

    /// Adds a publish to the segments of its topic, at the given time. A
    /// log that has given out every segment id takes no more publishes,
    /// and stays as it is.
    pub fn fill_at(&mut self, publish: Publish, timestamp: u128) -> (r: Result<(), Error>)
        requires
            old(self).wf(),
        ensures
            final(self).wf(),
            match r {
                Ok(()) => old(self).current_segment_id < u64::MAX
                    && final(self)@ == old(self)@.filled(publish@, timestamp),
                Err(e) => e is SegmentIds && old(self).current_segment_id == u64::MAX
                    && *final(self) == *old(self),
            },
    {
        if self.current_segment_id == u64::MAX {
            return Err(Error::SegmentIds);
        }
        self.retain(&publish);
        let ghost mid = *self;
        let next_id: u64 = self.current_segment_id + 1;
        let max_size: usize = self.max_segement_size;
        let limit: usize = self.segments_per_partition;
        let ghost topic = publish@.topic;
        let ghost old_segments = old(self)@.segments_for(topic, timestamp);
        let ghost new_segments = partition_filled(
            old_segments,
            publish@,
            next_id,
            max_size,
            limit,
            timestamp,
        );
        let rotated: bool;
        match self.partitions.position(publish.topic.as_str()) {
            Some(i) => {
                proof {
                    self.partitions.lemma_index(i as int);
                }
                let mut segments = self.partitions.replace_at(i, Vec::new());
                assert(segment_views(segments@) == old_segments);
                rotated =
                fill_partition(&mut segments, publish, next_id, max_size, limit, timestamp);
                let _ = self.partitions.replace_at(i, segments);
                proof {
                    assert(self.partitions@ =~= mid.partitions@.insert(topic, segments));
                    assert(mid.partitions@.contains_key(topic) == mid.partitions.has(topic));
                    assert(self.partitions.keys() =~= mid.partitions.keys());
                }
            },
            None => {
                let mut segments: Vec<Segment> = Vec::new();
                segments.push(Segment::at(0, max_size, timestamp));
                assert(segment_views(segments@) =~= old_segments);
                let key = publish.topic.clone();
                rotated =
                fill_partition(&mut segments, publish, next_id, max_size, limit, timestamp);
                let _ = self.partitions.insert(key, segments);
                proof {
                    assert(mid.partitions@.contains_key(topic) == mid.partitions.has(topic));
                    assert(self.partitions.keys() =~= mid.partitions.keys().push(topic));
                }
            },
        }
        if rotated {
            self.current_segment_id = next_id;
        }
        proof {
            let newest = self.current_segment_id;
            assert forall|k: Seq<char>| self.partitions.has(k) == (k == topic
                || mid.partitions.has(k)) by {
                assert(self.partitions@.contains_key(k) == self.partitions.has(k));
                assert(mid.partitions@.contains_key(k) == mid.partitions.has(k));
            }
            assert forall|k: Seq<char>| self.partitions.has(k) implies segment_views(
                self.partitions.value_of(k)@,
            ) == (if k == topic {
                new_segments
            } else {
                segment_views(mid.partitions.value_of(k)@)
            }) by {
                assert(self.partitions@[k] == self.partitions.value_of(k));
                if k != topic {
                    assert(mid.partitions@[k] == mid.partitions.value_of(k));
                }
            }
            assert(self@.partitions =~= old(self)@.partitions.insert(topic, new_segments));
            assert forall|i: int| 0 <= i < self.partitions.entries@.len() implies partition_wf(
                segment_views((#[trigger] self.partitions.entries@[i]).1@),
                newest,
            ) by {
                self.partitions.lemma_index(i);
                let k = self.partitions.entries@[i].0@;
                if k != topic {
                    let j = mid.partitions.index_of(k);
                    assert(partition_wf(
                        segment_views(mid.partitions.entries@[j].1@),
                        mid.current_segment_id,
                    ));
                }
            }
        }
        Ok(())
    }

    /// Whether the publish starts a segment: its topic is new to the log,
    /// or the newest segment of its topic is full with it.
    pub fn starts_segment(&self, publish: &Publish) -> (starts: bool)
        requires
            self.wf(),
        ensures
            starts == self@.starts_segment(publish@),
    {
        match self.partitions.position(publish.topic.as_str()) {
            None => true,
            Some(i) => {
                proof {
                    self.partitions.lemma_index(i as int);
                }
                let segments = self.partitions.value_at(i);
                assert(self@.partitions[publish@.topic] == segment_views(segments@));
                let tail = &segments[segments.len() - 1];
                assert(tail@ == segment_views(segments@).last());
                let size: usize = bytes_as_slice(&publish.payload).len();
                tail.current_size.saturating_add(size) >= tail.max_size
            },
        }
    }

    /// Adds a publish to the segments of its topic. Where the newest
    /// segment of the topic is full with it a new segment is started, and
    /// the oldest one leaves where the topic holds as many segments as it
    /// may. A retained publish takes the place of the retained publish of
    /// its topic, or clears it where its payload is empty.
    ///
    /// A log that has given out every segment id refuses the publish and
    /// stays as it is. Any other log asks the clock only for a publish
    /// that starts a segment: a publish that starts none is taken. Where
    /// the clock stands before the epoch, a publish that starts a segment
    /// is refused: it is noted among the retained publishes and is in no
    /// segment.
    pub fn fill(&mut self, publish: Publish) -> (r: Result<(), Error>)
        requires
            old(self).wf(),
        ensures
            final(self).wf(),
            match r {
                Ok(()) => old(self).current_segment_id < u64::MAX && exists|timestamp: u128|
                    final(self)@ == old(self)@.filled(publish@, timestamp),
                Err(Error::SegmentIds) => old(self).current_segment_id == u64::MAX && *final(self)
                    == *old(self),
                Err(Error::Time(_)) => old(self).current_segment_id < u64::MAX
                    && old(self)@.starts_segment(publish@) && final(self)@
                    == old(self)@.retained_noted(publish@),
            },
            old(self).current_segment_id < u64::MAX && !old(self)@.starts_segment(publish@) ==> r
                is Ok && final(self)@ == old(self)@.filled(publish@, 0),
            old(self)@.took(publish@, final(self)@),
    {
        if self.current_segment_id == u64::MAX {
            return Err(Error::SegmentIds);
        }
        if !self.starts_segment(&publish) {
            return self.fill_at(publish, 0);
        }
        match since_epoch() {
            Ok(length) => self.fill_at(publish, as_millis(length)),
            Err(e) => {
                self.retain(&publish);
                Err(Error::Time(e))
            },
        }
    }

    /// Up to `count` publishes of `topic` from the cursor `(segment_id,
    /// log_offset)` on, with the place of the last of them, so that the
    /// reader goes on at `log_offset + 1`. The result is nothing where the
    /// log does not hold the topic or no publish stands at the cursor or
    /// after it.
    #[verifier::loop_isolation(false)]
    pub fn get(&self, topic: &str, segment_id: u64, log_offset: usize, count: usize) -> (r: Option<
        Messages,
    >)
        requires
            self.wf(),
        ensures
            match self@.read(topic@, segment_id, log_offset, count) {
                Some(m) => r matches Some(got) && got@ == m,
                None => r is None,
            },
    {
        let index = match self.partitions.position(topic) {
            Some(index) => index,
            None => { return None; },
        };
        let segments = self.partitions.value_at(index);
        let ghost segs = segment_views(segments@);
        proof {
            self.partitions.lemma_index(index as int);
            assert(self@.partitions[topic@] == segs);
        }
        let mut from: usize = 0;
        while from < segments.len() && segments[from].id < segment_id
            invariant
                from <= segments@.len(),
                first_from(segs, segment_id, 0) == first_from(segs, segment_id, from as int),
            decreases segments@.len() - from,
        {
            from = from + 1;
        }
        let mut offset: usize = if from < segments.len() && segments[from].id == segment_id {
            log_offset
        } else {
            0
        };
        let mut left: usize = count;
        let mut got = Messages { segment_id: 0, log_offset: 0, packets: Vec::new() };
        assert(got@.packets =~= Seq::<PublishView>::empty());
        let ghost wanted = collect(segs, from as int, offset as int, count as int, no_messages());
        while from < segments.len() && left > 0
            invariant
                from <= segments@.len(),
                wanted == collect(segs, from as int, offset as int, left as int, got@),
            decreases segments@.len() - from,
        {
            let segment = &segments[from];
            let ghost held = got@;
            if offset < segment.packets.len() {
                let available: usize = segment.packets.len() - offset;
                let k: usize = if left <= available { left } else { available };
                let mut i: usize = 0;
                while i < k
                    invariant
                        i <= k,
                        offset + k <= segment.packets@.len(),
                        got.segment_id == held.segment_id,
                        got.log_offset == held.log_offset,
                        got@.packets == held.packets + segs[from as int].packets.subrange(
                            offset as int,
                            offset + i,
                        ),
                    decreases k - i,
                {
                    let ghost so_far = got@.packets;
                    let copy = segment.packets[offset + i].duplicate();
                    assert(copy@ == segs[from as int].packets[offset + i]);
                    got.packets.push(copy);
                    assert(got@.packets =~= so_far.push(copy@));
                    i = i + 1;
                    assert(got@.packets =~= held.packets + segs[from as int].packets.subrange(
                        offset as int,
                        offset + i,
                    ));
                }
                got.segment_id = segment.id;
                got.log_offset = offset + k - 1;
                left = left - k;
            }
            offset = 0;
            from = from + 1;
        }
        if got.packets.len() == 0 {
            None
        } else {
            Some(got)
        }
    }
}

} // verus!

verus! {

/// The publishes of segments with one more segment after them.
pub proof fn lemma_log_push(segments: Seq<SegmentView>, last: SegmentView, from: int)
    requires
        0 <= from <= segments.len(),
    ensures
        log_from(segments.push(last), from) == log_from(segments, from) + last.packets,
    decreases segments.len() - from,
{
    let longer = segments.push(last);
    if from == segments.len() {
        assert(log_from(longer, from + 1) =~= Seq::<PublishView>::empty());
        assert(log_from(longer, from) =~= log_from(segments, from) + last.packets);
    } else {
        lemma_log_push(segments, last, from + 1);
        assert(longer[from] == segments[from]);
        assert(log_from(longer, from) =~= log_from(segments, from) + last.packets);
    }
}

/// The publishes of segments without the first of them.
pub proof fn lemma_log_skip(segments: Seq<SegmentView>, from: int)
    requires
        0 <= from,
        segments.len() >= 1,
    ensures
        log_from(segments.skip(1), from) == log_from(segments, from + 1),
    decreases segments.len() - from,
{
    let shorter = segments.skip(1);
    if from >= shorter.len() {
    } else {
        lemma_log_skip(segments, from + 1);
        assert(shorter[from] == segments[from + 1]);
    }
}

/// The number of publishes that leave the log of a topic when `publish`
/// comes in: those of the oldest segment where a segment leaves, and none
/// otherwise.
pub open spec fn evicted(segments: Seq<SegmentView>, publish: PublishView, limit: usize) -> int {
    let updated = segments.drop_last().push(segments.last().filled(publish));
    if rotates(segments, publish) && updated.len() >= limit {
        updated[0].packets.len() as int
    } else {
        0
    }
}

/// A publish goes to the end of the log of its topic, and where a segment
/// leaves for it, the publishes of that one segment leave from the start:
/// what is left is a tail of the old log followed by the publish.
pub proof fn lemma_fill_appends(
    segments: Seq<SegmentView>,
    publish: PublishView,
    next_id: u64,
    max_size: usize,
    limit: usize,
    timestamp: u128,
)
    requires
        segments.len() >= 1,
    ensures
        log_of(partition_filled(segments, publish, next_id, max_size, limit, timestamp)) == log_of(
            segments,
        ).push(publish).skip(evicted(segments, publish, limit)),
        0 <= evicted(segments, publish, limit) <= log_of(segments).len() + 1,
        !rotates(segments, publish) || segments.len() < limit ==> evicted(segments, publish, limit)
            == 0,
        partition_filled(segments, publish, next_id, max_size, limit, timestamp).len()
            <= segments.len() + 1,
        partition_filled(segments, publish, next_id, max_size, limit, timestamp).len() >= 1,
{
    let tail = segments.last().filled(publish);
    let front = segments.drop_last();
    let updated = front.push(tail);
    let fresh = SegmentView::fresh(next_id, max_size, timestamp);
    lemma_log_push(front, tail, 0);
    lemma_log_push(front, segments.last(), 0);
    assert(front.push(segments.last()) =~= segments);
    assert(log_of(updated) =~= log_of(segments).push(publish));
    if tail.is_full() {
        if updated.len() >= limit {
            lemma_log_push(updated.skip(1), fresh, 0);
            lemma_log_skip(updated, 0);
            assert(log_from(updated, 1) =~= log_of(updated).skip(updated[0].packets.len() as int));
            assert(log_of(updated.skip(1).push(fresh)) =~= log_of(updated).skip(
                updated[0].packets.len() as int,
            ));
        } else {
            lemma_log_push(updated, fresh, 0);
            assert(log_of(updated.push(fresh)) =~= log_of(updated).skip(0));
        }
    } else {
        assert(log_of(updated) =~= log_of(updated).skip(0));
    }
}

/// Reading goes through the segments in order: what is read from place
/// `from` on is what was read before, followed by the first `count`
/// publishes that stand there.
pub proof fn lemma_collect_reads_log(
    segments: Seq<SegmentView>,
    from: int,
    count: int,
    got: MessagesView,
)
    requires
        0 <= from,
        0 <= count,
    ensures
        collect(segments, from, 0, count, got).packets == got.packets + log_from(
            segments,
            from,
        ).take(least(count, log_from(segments, from).len() as int)),
    decreases segments.len() - from,
{
    let log = log_from(segments, from);
    if from >= segments.len() || count <= 0 {
        assert(got.packets + log.take(least(count, log.len() as int)) =~= got.packets);
    } else {
        let here = segments[from].packets;
        let rest = log_from(segments, from + 1);
        if here.len() == 0 {
            lemma_collect_reads_log(segments, from + 1, count, got);
            assert(log =~= rest);
        } else {
            let k = least(count, here.len() as int);
            let next = MessagesView {
                segment_id: segments[from].id,
                log_offset: (k - 1) as usize,
                packets: got.packets + here.subrange(0, k),
            };
            lemma_collect_reads_log(segments, from + 1, count - k, next);
            assert(got.packets + here.subrange(0, k) + rest.take(
                least(count - k, rest.len() as int),
            ) =~= got.packets + log.take(least(count, log.len() as int)));
        }
    }
}

/// A reader that starts at the cursor `(0, 0)` gets the publishes of the
/// topic from the oldest one that the log still holds, in the order in
/// which they came, as many as it asks for or as there are.
pub proof fn lemma_read_from_start(segments: Seq<SegmentView>, count: usize)
    ensures
        match read_from(segments, 0, 0, count) {
            Some(m) => m.packets == log_of(segments).take(
                least(count as int, log_of(segments).len() as int),
            ) && m.packets.len() > 0,
            None => count == 0 || log_of(segments).len() == 0,
        },
{
    lemma_collect_reads_log(segments, 0, count as int, no_messages());
    let log = log_of(segments);
    assert(Seq::<PublishView>::empty() + log.take(least(count as int, log.len() as int))
        =~= log.take(least(count as int, log.len() as int)));
}

/// The segments of a topic after the publishes `publishes` came in one
/// after the other, the first of them into `segments`.
pub open spec fn after_publishes(
    segments: Seq<SegmentView>,
    publishes: Seq<PublishView>,
    next_id: int,
    max_size: usize,
    limit: usize,
    timestamp: u128,
) -> Seq<SegmentView>
    decreases publishes.len(),
{
    if publishes.len() == 0 {
        segments
    } else {
        let before = after_publishes(
            segments,
            publishes.drop_last(),
            next_id,
            max_size,
            limit,
            timestamp,
        );
        partition_filled(
            before,
            publishes.last(),
            (next_id + publishes.len() - 1) as u64,
            max_size,
            limit,
            timestamp,
        )
    }
}

/// After some publishes on a topic that was new, the log of the topic is a
/// tail of those publishes, in their order, and it is all of them where
/// the topic may keep more segments than publishes came in. A reader that
/// starts at the cursor `(0, 0)` and asks for as many publishes as came in
/// gets exactly that log.
pub proof fn lemma_log_is_tail_of_publishes(
    publishes: Seq<PublishView>,
    next_id: int,
    max_size: usize,
    limit: usize,
    timestamp: u128,
    count: usize,
)
    requires
        publishes.len() <= count,
    ensures
        ({
            let segments = after_publishes(
                seq![SegmentView::fresh(0, max_size, timestamp)],
                publishes,
                next_id,
                max_size,
                limit,
                timestamp,
            );
            &&& exists|gone: int|
                0 <= gone <= publishes.len() && log_of(segments) == publishes.skip(gone)
            &&& limit > publishes.len() ==> log_of(segments) == publishes
            &&& publishes.len() > 0 && limit > publishes.len() ==> (read_from(
                segments,
                0,
                0,
                count,
            ) matches Some(m) && m.packets == publishes)
            &&& read_from(segments, 0, 0, count) matches Some(m) ==> m.packets == log_of(segments)
        }),
{
    let start = seq![SegmentView::fresh(0, max_size, timestamp)];
    let segments = after_publishes(start, publishes, next_id, max_size, limit, timestamp);
    let gone = lemma_publishes_tail(publishes, next_id, max_size, limit, timestamp);
    lemma_read_from_start(segments, count);
    let log = log_of(segments);
    assert(log.take(least(count as int, log.len() as int)) =~= log);
    if limit > publishes.len() {
        assert(publishes.skip(0) =~= publishes);
    }
}

/// The number of publishes that have left the log of a topic that was new
/// after `publishes` came in.
pub proof fn lemma_publishes_tail(
    publishes: Seq<PublishView>,
    next_id: int,
    max_size: usize,
    limit: usize,
    timestamp: u128,
) -> (gone: int)
    ensures
        0 <= gone <= publishes.len(),
        log_of(
            after_publishes(
                seq![SegmentView::fresh(0, max_size, timestamp)],
                publishes,
                next_id,
                max_size,
                limit,
                timestamp,
            ),
        ) == publishes.skip(gone),
        1 <= after_publishes(
            seq![SegmentView::fresh(0, max_size, timestamp)],
            publishes,
            next_id,
            max_size,
            limit,
            timestamp,
        ).len() <= publishes.len() + 1,
        limit > publishes.len() ==> gone == 0,
    decreases publishes.len(),
{
    let start = seq![SegmentView::fresh(0, max_size, timestamp)];
    if publishes.len() == 0 {
        assert(log_from(start, 1) =~= Seq::<PublishView>::empty());
        assert(log_of(start) =~= publishes.skip(0));
        0
    } else {
        let earlier = publishes.drop_last();
        let before = after_publishes(start, earlier, next_id, max_size, limit, timestamp);
        let gone_before = lemma_publishes_tail(earlier, next_id, max_size, limit, timestamp);
        let id = (next_id + publishes.len() - 1) as u64;
        lemma_fill_appends(before, publishes.last(), id, max_size, limit, timestamp);
        let more = evicted(before, publishes.last(), limit);
        assert(earlier.skip(gone_before).push(publishes.last()).skip(more) =~= publishes.skip(
            gone_before + more,
        ));
        gone_before + more
    }
}

} // verus!

verus! {

/// What is read from place `from` on without anything read before.
pub open spec fn collect_at(
    segments: Seq<SegmentView>,
    from: int,
    offset: int,
    count: int,
) -> MessagesView {
    collect(segments, from, offset, count, no_messages())
}

/// A batch followed by the batch that was read after it: the publishes of
/// both, with the place of the last one.
pub open spec fn joined(first: MessagesView, second: MessagesView) -> MessagesView {
    if second.packets.len() == 0 {
        first
    } else {
        MessagesView {
            segment_id: second.segment_id,
            log_offset: second.log_offset,
            packets: first.packets + second.packets,
        }
    }
}

/// The segments can be held in memory: none has more publishes than a
/// `usize` counts.
pub open spec fn countable(segments: Seq<SegmentView>) -> bool {
    forall|i: int| 0 <= i < segments.len() ==> (#[trigger] segments[i]).packets.len() <= usize::MAX
}

/// Joining batches is associative.
pub proof fn lemma_joined_twice(a: MessagesView, b: MessagesView, c: MessagesView)
    ensures
        joined(joined(a, b), c) == joined(a, joined(b, c)),
{
    if c.packets.len() > 0 {
        assert((a.packets + b.packets) + c.packets =~= a.packets + (b.packets + c.packets));
        if b.packets.len() == 0 {
            assert(b.packets + c.packets =~= c.packets);
            assert(a.packets + c.packets =~= a.packets + (b.packets + c.packets));
        }
    }
}

/// What is read after something is that something, joined with what is
/// read after nothing.
pub proof fn lemma_collect_joined(
    segments: Seq<SegmentView>,
    from: int,
    offset: int,
    count: int,
    got: MessagesView,
)
    ensures
        collect(segments, from, offset, count, got) == joined(
            got,
            collect_at(segments, from, offset, count),
        ),
    decreases segments.len() - from,
{
    if from < 0 || from >= segments.len() || count <= 0 {
    } else if offset < 0 || offset >= segments[from].packets.len() {
        lemma_collect_joined(segments, from + 1, 0, count, got);
        lemma_collect_joined(segments, from + 1, 0, count, no_messages());
    } else {
        let here = segments[from];
        let k = least(count, here.packets.len() - offset);
        let part = here.packets.subrange(offset, offset + k);
        let next = MessagesView {
            segment_id: here.id,
            log_offset: (offset + k - 1) as usize,
            packets: got.packets + part,
        };
        let alone = MessagesView {
            segment_id: here.id,
            log_offset: (offset + k - 1) as usize,
            packets: no_messages().packets + part,
        };
        let rest = collect_at(segments, from + 1, 0, count - k);
        lemma_collect_joined(segments, from + 1, 0, count - k, next);
        lemma_collect_joined(segments, from + 1, 0, count - k, alone);
        assert(alone.packets =~= part);
        assert(part.len() > 0);
        assert(joined(got, alone) == next);
        lemma_joined_twice(got, alone, rest);
    }
}

/// Where a reader that asks for something gets nothing, there is nothing:
/// it gets nothing whatever it asks for.
pub proof fn lemma_collect_nothing(segments: Seq<SegmentView>, from: int, asked: int, other: int)
    requires
        asked > 0,
        collect_at(segments, from, 0, asked).packets.len() == 0,
    ensures
        collect_at(segments, from, 0, other).packets.len() == 0,
    decreases segments.len() - from,
{
    if from < 0 || from >= segments.len() || other <= 0 {
    } else if segments[from].packets.len() == 0 {
        lemma_collect_nothing(segments, from + 1, asked, other);
    } else {
        let here = segments[from];
        let k = least(asked, here.packets.len() as int);
        let alone = MessagesView {
            segment_id: here.id,
            log_offset: (k - 1) as usize,
            packets: no_messages().packets + here.packets.subrange(0, k),
        };
        lemma_collect_joined(segments, from + 1, 0, asked - k, alone);
        assert(alone.packets.len() > 0);
    }
}

/// The place in the segments at which a batch ended: the segment of its
/// last publish, or `from` where it is empty.
pub open spec fn end_of(segments: Seq<SegmentView>, from: int, offset: int, count: int) -> int
    decreases segments.len() - from,
{
    if from < 0 || from >= segments.len() || count <= 0 {
        from
    } else if offset < 0 || offset >= segments[from].packets.len() {
        end_of(segments, from + 1, 0, count)
    } else {
        let k = least(count, segments[from].packets.len() - offset);
        if collect_at(segments, from + 1, 0, count - k).packets.len() == 0 {
            from
        } else {
            end_of(segments, from + 1, 0, count - k)
        }
    }
}

/// A reader that reads on after a batch gets what it would have got had
/// it asked for more at once: the batch of `first + more` publishes is the
/// batch of `first`, joined with the batch of `more` that is read from the
/// place after its last publish.
pub proof fn lemma_collect_resumes(
    segments: Seq<SegmentView>,
    from: int,
    offset: int,
    first: int,
    more: int,
)
    requires
        0 <= from,
        0 <= offset,
        first > 0,
        more >= 0,
        countable(segments),
    ensures
        ({
            let batch = collect_at(segments, from, offset, first);
            let end = end_of(segments, from, offset, first);
            &&& batch.packets.len() == 0 ==> collect_at(
                segments,
                from,
                offset,
                first + more,
            ).packets.len() == 0
            &&& batch.packets.len() > 0 ==> from <= end < segments.len() && segments[end].id
                == batch.segment_id && batch.log_offset < segments[end].packets.len()
                && collect_at(segments, from, offset, first + more) == joined(
                batch,
                collect_at(segments, end, batch.log_offset + 1, more),
            )
        }),
    decreases segments.len() - from,
{
    let batch = collect_at(segments, from, offset, first);
    let all = collect_at(segments, from, offset, first + more);
    if from >= segments.len() {
    } else if offset >= segments[from].packets.len() {
        lemma_collect_resumes(segments, from + 1, 0, first, more);
    } else {
        let here = segments[from];
        let available = here.packets.len() - offset;
        let k = least(first, available);
        let k_all = least(first + more, available);
        let taken = MessagesView {
            segment_id: here.id,
            log_offset: (offset + k - 1) as usize,
            packets: no_messages().packets + here.packets.subrange(offset, offset + k),
        };
        let taken_all = MessagesView {
            segment_id: here.id,
            log_offset: (offset + k_all - 1) as usize,
            packets: no_messages().packets + here.packets.subrange(offset, offset + k_all),
        };
        let rest = collect_at(segments, from + 1, 0, first - k);
        let rest_all = collect_at(segments, from + 1, 0, first + more - k_all);
        lemma_collect_joined(segments, from + 1, 0, first - k, taken);
        lemma_collect_joined(segments, from + 1, 0, first + more - k_all, taken_all);
        assert(batch == joined(taken, rest));
        assert(all == joined(taken_all, rest_all));
        assert(taken.packets.len() > 0);
        if first <= available {
            // the batch ended in this segment
            assert(rest.packets.len() == 0);
            assert(batch == taken);
            let resume = offset + first;
            let onward = collect_at(segments, from, resume, more);
            if more == 0 {
                assert(taken_all.packets =~= taken.packets);
            } else if resume >= here.packets.len() {
                assert(taken_all.packets =~= taken.packets);
                assert(onward == rest_all);
            } else {
                let k_more = least(more, here.packets.len() - resume);
                let taken_more = MessagesView {
                    segment_id: here.id,
                    log_offset: (resume + k_more - 1) as usize,
                    packets: no_messages().packets + here.packets.subrange(
                        resume,
                        resume + k_more,
                    ),
                };
                lemma_collect_joined(segments, from + 1, 0, more - k_more, taken_more);
                assert(onward == joined(taken_more, rest_all));
                assert(taken_all.packets =~= taken.packets + taken_more.packets);
                assert(taken_all == joined(taken, taken_more));
                lemma_joined_twice(taken, taken_more, rest_all);
            }
        } else {
            // the batch took what was left of this segment and went on
            lemma_collect_resumes(segments, from + 1, 0, first - available, more);
            if rest.packets.len() == 0 {
                lemma_collect_nothing(segments, from + 1, first - available, more);
                assert(collect_at(segments, from, offset + available, more) == collect_at(
                    segments,
                    from + 1,
                    0,
                    more,
                ));
            } else {
                let end = end_of(segments, from + 1, 0, first - available);
                lemma_joined_twice(
                    taken,
                    rest,
                    collect_at(segments, end, rest.log_offset + 1, more),
                );
            }
        }
    }
}

/// In segments whose ids grow, the first segment with an id of at least
/// that of a segment is that segment.
pub proof fn lemma_first_from_finds(segments: Seq<SegmentView>, place: int, i: int)
    requires
        0 <= i <= place < segments.len(),
        forall|a: int, b: int| 0 <= a < b < segments.len() ==> segments[a].id < segments[b].id,
    ensures
        first_from(segments, segments[place].id, i) == place,
    decreases place - i,
{
    if i < place {
        lemma_first_from_finds(segments, place, i + 1);
    }
}

/// Reading in batches loses nothing and repeats nothing: a reader that
/// reads `first` publishes from a cursor and reads on with the cursor
/// after the last of them gets, batch after batch, what a reader gets that
/// asks for all of them at once.
pub proof fn lemma_read_resumes(
    segments: Seq<SegmentView>,
    segment_id: u64,
    log_offset: usize,
    first: usize,
    more: usize,
)
    requires
        first > 0,
        first + more <= usize::MAX,
        countable(segments),
        forall|a: int, b: int| 0 <= a < b < segments.len() ==> segments[a].id < segments[b].id,
    ensures
        match read_from(segments, segment_id, log_offset, first) {
            None => read_from(segments, segment_id, log_offset, (first + more) as usize) is None,
            Some(batch) => batch.log_offset < usize::MAX && read_from(
                segments,
                segment_id,
                log_offset,
                (first + more) as usize,
            ) == Some(
                joined(
                    batch,
                    match read_from(
                        segments,
                        batch.segment_id,
                        (batch.log_offset + 1) as usize,
                        more,
                    ) {
                        Some(next) => next,
                        None => no_messages(),
                    },
                ),
            ),
        },
{
    let from = first_from(segments, segment_id, 0);
    lemma_first_from_bounds(segments, segment_id, 0);
    let offset = if 0 <= from < segments.len() && segments[from].id == segment_id {
        log_offset as int
    } else {
        0
    };
    lemma_collect_resumes(segments, from, offset, first as int, more as int);
    let batch = collect_at(segments, from, offset, first as int);
    if batch.packets.len() > 0 {
        let end = end_of(segments, from, offset, first as int);
        lemma_first_from_finds(segments, end, 0);
        let onward = collect_at(segments, end, batch.log_offset + 1, more as int);
        if onward.packets.len() == 0 {
            assert(joined(batch, onward) == joined(batch, no_messages()));
        }
    }
}

/// The time of a publish matters to the log only where the publish
/// starts a segment: one that starts none leaves the same log whenever it
/// comes.
pub proof fn lemma_time_matters_only_at_a_new_segment(
    log: LogView,
    publish: PublishView,
    one: u128,
    other: u128,
)
    requires
        !log.starts_segment(publish),
    ensures
        log.filled(publish, one) == log.filled(publish, other),
{
}

/// The first segment with an id of at least `segment_id` is sought from
/// `i` on and found at `i` or after it.
pub proof fn lemma_first_from_bounds(segments: Seq<SegmentView>, segment_id: u64, i: int)
    requires
        0 <= i,
    ensures
        i <= first_from(segments, segment_id, i),
    decreases segments.len() - i,
{
    if i < segments.len() && segments[i].id < segment_id {
        lemma_first_from_bounds(segments, segment_id, i + 1);
    }
}

} // verus!
