//! The footer of a segment: an index of its blocks and the sets of types in it.
//!
//! A migration decides from the sets whether a segment has to be rewritten, and a
//! reader what is in it at all, without reading a block. A footer that does not
//! list every block would lead a reader past the rest, so a set is settled only
//! together with the block it belongs to.

use crate::format::{BlockHeader, EventId, MetricId, Micros};
use crate::staged::RecordView;
use vstd::prelude::*;

verus! {

/// A block of a segment.
#[derive(Debug, Clone, Copy, PartialEq, Eq, Structural)]
pub struct BlockEntry {
    /// Where the block begins.
    pub offset: u64,
    /// The time of its first record.
    pub base: Micros,
    /// The time of its last record.
    pub last: Micros,
    /// How many records it holds.
    pub count: u32,
}

/// The footer of a sealed segment.
#[derive(Debug)]
pub struct Footer {
    /// The blocks in file order.
    pub blocks: Vec<BlockEntry>,
    /// The events in the segment, ascending.
    pub events: Vec<EventId>,
    /// The metrics in the segment, ascending.
    pub metrics: Vec<MetricId>,
}

pub open spec fn ascending(ids: Seq<u16>) -> bool {
    forall|i: int, j: int| 0 <= i < j < ids.len() ==> ids[i] < ids[j]
}

/// Adds an identifier to an ascending list without repetition.
fn insert_ascending(ids: &mut Vec<u16>, id: u16)
    requires
        ascending(old(ids)@),
    ensures
        ascending(final(ids)@),
        final(ids)@.to_set() == old(ids)@.to_set().insert(id),
{
    let n: usize = ids.len();
    let mut i: usize = 0;
    while i < n && ids[i] < id
        invariant
            n == ids@.len(),
            i <= n,
            ids@ == old(ids)@,
            forall|k: int| 0 <= k < i ==> ids@[k] < id,
        decreases n - i,
    {
        i = i + 1;
    }
    if i < n && ids[i] == id {
        assert(old(ids)@.to_set().insert(id) =~= old(ids)@.to_set()) by {
            assert(old(ids)@[i as int] == id);
        }
        return ;
    }
    ids.insert(i, id);
    proof {
        let before = old(ids)@;
        let after = ids@;
        assert(after == before.insert(i as int, id));
        assert forall|x: u16| after.to_set().contains(x) == before.to_set().insert(id).contains(
            x,
        ) by {
            if before.contains(x) {
                let k = choose|k: int| 0 <= k < before.len() && before[k] == x;
                if k < i {
                    assert(after[k] == x);
                } else {
                    assert(after[k + 1] == x);
                }
            }
            if x == id {
                assert(after[i as int] == x);
            }
            if after.contains(x) {
                let k = choose|k: int| 0 <= k < after.len() && after[k] == x;
                if k < i {
                    assert(before[k] == x);
                } else if k > i {
                    assert(before[k - 1] == x);
                }
            }
        }
        assert(after.to_set() =~= before.to_set().insert(id));
    }
}

/// Adds every identifier of one list to another.
fn merge_ascending(ids: &mut Vec<u16>, more: &Vec<u16>)
    requires
        ascending(old(ids)@),
    ensures
        ascending(final(ids)@),
        final(ids)@.to_set() == old(ids)@.to_set().union(more@.to_set()),
{
    let mut i: usize = 0;
    assert(more@.take(0).to_set() =~= Set::<u16>::empty());
    assert(ids@.to_set() =~= old(ids)@.to_set().union(more@.take(0).to_set()));
    while i < more.len()
        invariant
            i <= more@.len(),
            ascending(ids@),
            ids@.to_set() == old(ids)@.to_set().union(more@.take(i as int).to_set()),
        decreases more@.len() - i,
    {
        let id: u16 = more[i];
        insert_ascending(ids, id);
        proof {
            let head = more@.take(i as int);
            let next = more@.take(i + 1);
            assert(next =~= head.push(id));
            assert forall|x: u16| next.to_set().contains(x) == head.to_set().insert(id).contains(
                x,
            ) by {
                if head.contains(x) {
                    let k = choose|k: int| 0 <= k < head.len() && head[k] == x;
                    assert(next[k] == x);
                }
                assert(next[i as int] == id);
            }
            assert(next.to_set() =~= head.to_set().insert(id));
            assert(ids@.to_set() =~= old(ids)@.to_set().union(next.to_set()));
        }
        i = i + 1;
    }
    assert(more@.take(more@.len() as int) =~= more@);
}

/// What a footer builder holds.
#[verifier::ext_equal]
pub struct FooterView {
    /// The blocks that landed.
    pub blocks: Seq<BlockEntry>,
    /// The types of the blocks that landed.
    pub events: Set<u16>,
    pub metrics: Set<u16>,
    /// The types of the block being assembled.
    pub pending_events: Set<u16>,
    pub pending_metrics: Set<u16>,
}

/// Assembles a footer block by block.
#[derive(Debug)]
pub struct FooterBuilder {
    blocks: Vec<BlockEntry>,
    events: Vec<u16>,
    metrics: Vec<u16>,
    pending_events: Vec<u16>,
    pending_metrics: Vec<u16>,
}

impl View for FooterBuilder {
    type V = FooterView;

    closed spec fn view(&self) -> FooterView {
        FooterView {
            blocks: self.blocks@,
            events: self.events@.to_set(),
            metrics: self.metrics@.to_set(),
            pending_events: self.pending_events@.to_set(),
            pending_metrics: self.pending_metrics@.to_set(),
        }
    }
}

impl FooterView {
    pub open spec fn empty() -> FooterView {
        FooterView {
            blocks: Seq::empty(),
            events: Set::empty(),
            metrics: Set::empty(),
            pending_events: Set::empty(),
            pending_metrics: Set::empty(),
        }
    }

    /// The types of the block being assembled are dropped with it.
    pub open spec fn without_pending(self) -> FooterView {
        FooterView { pending_events: Set::empty(), pending_metrics: Set::empty(), ..self }
    }

    /// A new segment: what landed belongs to the old one, the block being
    /// assembled does not.
    pub open spec fn fresh(self) -> FooterView {
        FooterView { blocks: Seq::empty(), events: Set::empty(), metrics: Set::empty(), ..self }
    }

    /// A record went into the block being assembled: its type, if it has one, is noted.
    pub open spec fn noting(self, record: RecordView) -> FooterView {
        match record {
            RecordView::Message { event, .. } => FooterView {
                pending_events: self.pending_events.insert(event.0),
                ..self
            },
            RecordView::Sample { metric, .. } => FooterView {
                pending_metrics: self.pending_metrics.insert(metric.0),
                ..self
            },
            _ => self,
        }
    }

    /// Records went into the block being assembled.
    pub open spec fn noting_all(self, records: Seq<(Micros, RecordView)>) -> FooterView
        decreases records.len(),
    {
        if records.len() == 0 {
            self
        } else {
            self.noting_all(records.drop_last()).noting(records.last().1)
        }
    }

    /// A block landed: it enters the index and its types settle.
    pub open spec fn with_block(self, entry: BlockEntry) -> FooterView {
        FooterView {
            blocks: self.blocks.push(entry),
            events: self.events.union(self.pending_events),
            metrics: self.metrics.union(self.pending_metrics),
            pending_events: Set::empty(),
            pending_metrics: Set::empty(),
        }
    }
}

impl FooterBuilder {
    /// The lists are ascending.
    pub closed spec fn wf(&self) -> bool {
        &&& ascending(self.events@)
        &&& ascending(self.metrics@)
        &&& ascending(self.pending_events@)
        &&& ascending(self.pending_metrics@)
    }

    pub fn new() -> (f: FooterBuilder)
        ensures
            f.wf(),
            f@ == FooterView::empty(),
    {
        let f = FooterBuilder {
            blocks: Vec::new(),
            events: Vec::new(),
            metrics: Vec::new(),
            pending_events: Vec::new(),
            pending_metrics: Vec::new(),
        };
        assert(f@ =~= FooterView::empty());
        f
    }

    /// Notes an event of the block being assembled.
    pub fn add_event(&mut self, id: EventId)
        requires
            old(self).wf(),
        ensures
            final(self).wf(),
            final(self)@ == (FooterView {
                pending_events: old(self)@.pending_events.insert(id.0),
                ..old(self)@
            }),
    {
        insert_ascending(&mut self.pending_events, id.0);
    }

    /// Notes a metric of the block being assembled.
    pub fn add_metric(&mut self, id: MetricId)
        requires
            old(self).wf(),
        ensures
            final(self).wf(),
            final(self)@ == (FooterView {
                pending_metrics: old(self)@.pending_metrics.insert(id.0),
                ..old(self)@
            }),
    {
        insert_ascending(&mut self.pending_metrics, id.0);
    }

    /// The block landed at an offset: it enters the index together with its
    /// types.
    pub fn add_block(&mut self, offset: u64, header: &BlockHeader, last: Micros)
        requires
            old(self).wf(),
        ensures
            final(self).wf(),
            final(self)@ == old(self)@.with_block(
                BlockEntry { offset, base: header.base, last, count: header.count },
            ),
    {
        self.blocks.push(BlockEntry { offset, base: header.base, last, count: header.count });
        merge_ascending(&mut self.events, &self.pending_events);
        merge_ascending(&mut self.metrics, &self.pending_metrics);
        self.pending_events = Vec::new();
        self.pending_metrics = Vec::new();
        assert(self@ =~= old(self)@.with_block(
            BlockEntry { offset, base: header.base, last, count: header.count },
        ));
    }

    /// The block being assembled will be in no segment: its types settle
    /// nowhere.
    pub fn discard_pending(&mut self)
        requires
            old(self).wf(),
        ensures
            final(self).wf(),
            final(self)@ == old(self)@.without_pending(),
    {
        self.pending_events = Vec::new();
        self.pending_metrics = Vec::new();
        assert(self@ =~= old(self)@.without_pending());
    }

    /// Starts over for a new segment, keeping the block being assembled.
    pub fn reset(&mut self)
        requires
            old(self).wf(),
        ensures
            final(self).wf(),
            final(self)@ == old(self)@.fresh(),
    {
        self.blocks = Vec::new();
        self.events = Vec::new();
        self.metrics = Vec::new();
        assert(self@ =~= old(self)@.fresh());
    }

    /// Whether no block has landed.
    pub fn is_empty(&self) -> (yes: bool)
        ensures
            yes == (self@.blocks.len() == 0),
    {
        self.blocks.len() == 0
    }

    /// The footer of what landed.
    pub fn build(&self) -> (f: Footer)
        requires
            self.wf(),
        ensures
            f.describes(self@),
    {
        let mut blocks: Vec<BlockEntry> = Vec::new();
        let mut i: usize = 0;
        while i < self.blocks.len()
            invariant
                i <= self.blocks@.len(),
                blocks@ == self.blocks@.take(i as int),
            decreases self.blocks@.len() - i,
        {
            blocks.push(self.blocks[i]);
            i = i + 1;
            assert(blocks@ =~= self.blocks@.take(i as int));
        }
        let mut events: Vec<EventId> = Vec::new();
        let mut j: usize = 0;
        while j < self.events.len()
            invariant
                j <= self.events@.len(),
                events@ == Seq::new(j as nat, |k: int| EventId(self.events@[k])),
            decreases self.events@.len() - j,
        {
            events.push(EventId(self.events[j]));
            j = j + 1;
            assert(events@ =~= Seq::new(j as nat, |k: int| EventId(self.events@[k])));
        }
        let mut metrics: Vec<MetricId> = Vec::new();
        let mut l: usize = 0;
        while l < self.metrics.len()
            invariant
                l <= self.metrics@.len(),
                metrics@ == Seq::new(l as nat, |k: int| MetricId(self.metrics@[k])),
            decreases self.metrics@.len() - l,
        {
            metrics.push(MetricId(self.metrics[l]));
            l = l + 1;
            assert(metrics@ =~= Seq::new(l as nat, |k: int| MetricId(self.metrics@[k])));
        }
        let f = Footer { blocks, events, metrics };
        assert(f.blocks@ =~= self@.blocks);
        assert(f.event_ids() =~= self.events@);
        assert(f.metric_ids() =~= self.metrics@);
        f
    }
}

impl Footer {
    pub open spec fn event_ids(&self) -> Seq<u16> {
        Seq::new(self.events@.len(), |i: int| self.events@[i].0)
    }

    pub open spec fn metric_ids(&self) -> Seq<u16> {
        Seq::new(self.metrics@.len(), |i: int| self.metrics@[i].0)
    }

    /// The footer lists what landed, the types in ascending order.
    pub open spec fn describes(&self, v: FooterView) -> bool {
        &&& self.blocks@ == v.blocks
        &&& ascending(self.event_ids())
        &&& self.event_ids().to_set() == v.events
        &&& ascending(self.metric_ids())
        &&& self.metric_ids().to_set() == v.metrics
    }

    /// Some listed type is among the given ones.
    pub open spec fn holds_any(&self, events: Seq<EventId>, metrics: Seq<MetricId>) -> bool {
        ||| exists|i: int| 0 <= i < events.len() && self.events@.contains(#[trigger] events[i])
        ||| exists|i: int| 0 <= i < metrics.len() && self.metrics@.contains(#[trigger] metrics[i])
    }

    /// Whether a segment with this footer holds any of the given types.
    pub fn touches(&self, events: &[EventId], metrics: &[MetricId]) -> (yes: bool)
        ensures
            yes == self.holds_any(events@, metrics@),
    {
        let mut i: usize = 0;
        while i < events.len()
            invariant
                i <= events@.len(),
                forall|k: int| 0 <= k < i ==> !self.events@.contains(#[trigger] events@[k]),
            decreases events@.len() - i,
        {
            let mut j: usize = 0;
            while j < self.events.len()
                invariant
                    i < events@.len(),
                    j <= self.events@.len(),
                    forall|k: int| 0 <= k < j ==> self.events@[k] != events@[i as int],
                decreases self.events@.len() - j,
            {
                if self.events[j] == events[i] {
                    assert(self.events@.contains(events@[i as int]));
                    return true;
                }
                j = j + 1;
            }
            i = i + 1;
        }
        let mut l: usize = 0;
        while l < metrics.len()
            invariant
                l <= metrics@.len(),
                forall|k: int| 0 <= k < l ==> !self.metrics@.contains(#[trigger] metrics@[k]),
            decreases metrics@.len() - l,
        {
            let mut j: usize = 0;
            while j < self.metrics.len()
                invariant
                    l < metrics@.len(),
                    j <= self.metrics@.len(),
                    forall|k: int| 0 <= k < j ==> self.metrics@[k] != metrics@[l as int],
                decreases self.metrics@.len() - j,
            {
                if self.metrics[j] == metrics[l] {
                    assert(self.metrics@.contains(metrics@[l as int]));
                    return true;
                }
                j = j + 1;
            }
            l = l + 1;
        }
        false
    }
}

/// A type settles in the footer exactly when its block lands: a block that is
/// discarded leaves no trace, and starting a new segment carries the block being
/// assembled over to it.
pub proof fn law_types_settle_with_their_block(v: FooterView, entry: BlockEntry, id: u16)
    ensures
        v.without_pending().with_block(entry).events == v.events,
        v.without_pending().with_block(entry).metrics == v.metrics,
        v.with_block(entry).events.contains(id) == (v.events.contains(id)
            || v.pending_events.contains(id)),
        v.fresh().with_block(entry).events == v.pending_events,
        v.fresh().with_block(entry).metrics == v.pending_metrics,
        v.fresh().with_block(entry).blocks == seq![entry],
{
    assert(v.without_pending().with_block(entry).events =~= v.events);
    assert(v.without_pending().with_block(entry).metrics =~= v.metrics);
    assert(v.fresh().with_block(entry).events =~= v.pending_events);
    assert(v.fresh().with_block(entry).metrics =~= v.pending_metrics);
    assert(v.fresh().with_block(entry).blocks =~= seq![entry]);
}

/// The types noted with a block are exactly those of the messages and samples that went into it:
/// spans and text have none, and no event is taken for a metric.
pub proof fn law_a_block_notes_the_types_of_its_records(
    v: FooterView,
    records: Seq<(Micros, RecordView)>,
    id: u16,
)
    ensures
        v.noting_all(records).pending_events.contains(id) <==> v.pending_events.contains(id)
            || exists|k: int|
            0 <= k < records.len() && ((#[trigger] records[k]).1 matches RecordView::Message {
                event,
                ..
            } && event.0 == id),
        v.noting_all(records).pending_metrics.contains(id) <==> v.pending_metrics.contains(id)
            || exists|k: int|
            0 <= k < records.len() && ((#[trigger] records[k]).1 matches RecordView::Sample {
                metric,
                ..
            } && metric.0 == id),
        v.noting_all(records).blocks == v.blocks,
        v.noting_all(records).events == v.events,
        v.noting_all(records).metrics == v.metrics,
    decreases records.len(),
{
    if records.len() > 0 {
        let rest = records.drop_last();
        law_a_block_notes_the_types_of_its_records(v, rest, id);
        let last = records.len() - 1;
        assert(forall|k: int| 0 <= k < rest.len() ==> rest[k] == #[trigger] records[k]);
        if exists|k: int|
            0 <= k < rest.len() && ((#[trigger] rest[k]).1 matches RecordView::Message { event, .. }
                && event.0 == id) {
            let k = choose|k: int|
                0 <= k < rest.len() && ((#[trigger] rest[k]).1 matches RecordView::Message {
                    event,
                    ..
                } && event.0 == id);
            assert(records[k] == rest[k]);
        }
        if exists|k: int|
            0 <= k < rest.len() && ((#[trigger] rest[k]).1 matches RecordView::Sample { metric, .. }
                && metric.0 == id) {
            let k = choose|k: int|
                0 <= k < rest.len() && ((#[trigger] rest[k]).1 matches RecordView::Sample {
                    metric,
                    ..
                } && metric.0 == id);
            assert(records[k] == rest[k]);
        }
        assert(records[last] == records.last());
    }
}

/// A block that lands stands behind the others in the index; the types it brings are added to those
/// of the segment, none is taken away, and nothing is left pending.
pub proof fn law_a_landed_block_adds_its_types(v: FooterView, entry: BlockEntry, id: u16)
    ensures
        v.with_block(entry).blocks == v.blocks.push(entry),
        v.with_block(entry).events.contains(id) <==> v.events.contains(id)
            || v.pending_events.contains(id),
        v.with_block(entry).metrics.contains(id) <==> v.metrics.contains(id)
            || v.pending_metrics.contains(id),
        !v.with_block(entry).pending_events.contains(id),
        !v.with_block(entry).pending_metrics.contains(id),
        v.fresh().pending_events == v.pending_events,
        v.fresh().pending_metrics == v.pending_metrics,
        v.fresh().blocks.len() == 0 && !v.fresh().events.contains(id) && !v.fresh().metrics.contains(
            id,
        ),
        v.without_pending().blocks == v.blocks && v.without_pending().events == v.events,
{
}

} // verus!
