//! The physical run of a migration: segments of earlier versions are rewritten
//! into the current layout.
//!
//! A segment is rewritten into the staging area, synced, and only then swapped in
//! by the writer, who owns the inventory. Until that moment the original is not
//! touched: a run that breaks off leaves it as it was.

use crate::channel_state::blocks_alone;
use crate::control::MigrationCommit;
use crate::error::Error;
use crate::footer::{BlockEntry, Footer, FooterBuilder, FooterView};
use crate::format::{BlockHeader, Compression, Layout, Micros, ProtocolVersion, SegmentHeader};
use crate::medium;
use crate::medium::{
    Accepted, BlockContents, BlockInfo, Finished, HeaderProbe, Io, Landed, Look, Medium, Place,
    SegmentFile, Stamped,
};
use crate::migrate;
use crate::migrate::{Asked, Chained, ChainedView, ChainError, ChainErrorKind, Migrator, Steps};
use crate::schema::Migration;
use crate::segment::{
    filled, is_damaged, lists_blocks, ReaderView, SegmentReader, SegmentWriter,
};
use crate::staged::{Record, RecordView};
use crate::stats;
use crate::text;
use vstd::prelude::*;

verus! {

broadcast use crate::medium::group_trace;

/// What the chain made of the records of blocks.
pub struct Story {
    /// The records as they were read.
    pub input: Seq<(Micros, RecordView)>,
    /// What the steps were asked about each.
    pub asked: Seq<Seq<Asked>>,
    /// What became of each.
    pub results: Seq<ChainedView>,
}

/// Questions one after another.
pub open spec fn joined(asked: Seq<Seq<Asked>>) -> Seq<Asked>
    decreases asked.len(),
{
    if asked.len() == 0 {
        Seq::empty()
    } else {
        joined(asked.drop_last()) + asked.last()
    }
}

/// The records that survive, as they go into blocks at a place.
pub open spec fn survivors(
    place: Place,
    input: Seq<(Micros, RecordView)>,
    results: Seq<ChainedView>,
) -> Seq<Accepted>
    decreases input.len(),
{
    if input.len() == 0 {
        Seq::empty()
    } else {
        let before = survivors(place, input.drop_last(), results.drop_last());
        match results.last().record() {
            Some(record) => before.push(Accepted { place, at: input.last().0, record }),
            None => before,
        }
    }
}

impl Story {
    pub open spec fn empty() -> Story {
        Story { input: Seq::empty(), asked: Seq::empty(), results: Seq::empty() }
    }

    /// Every record went through the chain.
    pub open spec fn is_told_by(self, steps: Seq<&'static Migration>) -> bool {
        &&& self.asked.len() == self.input.len()
        &&& self.results.len() == self.input.len()
        &&& forall|k: int|
            0 <= k < self.input.len() ==> migrate::settles(
                steps,
                ChainedView::Same(#[trigger] self.input[k].1),
                self.asked[k],
                Ok::<ChainedView, ChainError>(self.results[k]),
            )
    }

    pub open spec fn kept(self, place: Place) -> Seq<Accepted> {
        survivors(place, self.input, self.results)
    }

    pub open spec fn and(self, other: Story) -> Story {
        Story {
            input: self.input + other.input,
            asked: self.asked + other.asked,
            results: self.results + other.results,
        }
    }

    pub open spec fn and_one(
        self,
        record: (Micros, RecordView),
        asked: Seq<Asked>,
        result: ChainedView,
    ) -> Story {
        Story {
            input: self.input.push(record),
            asked: self.asked.push(asked),
            results: self.results.push(result),
        }
    }
}

proof fn lemma_joined(a: Seq<Seq<Asked>>, b: Seq<Seq<Asked>>)
    ensures
        joined(a + b) == joined(a) + joined(b),
    decreases b.len(),
{
    if b.len() == 0 {
        assert(a + b =~= a);
        assert(joined(a) + joined(b) =~= joined(a));
    } else {
        lemma_joined(a, b.drop_last());
        assert((a + b).drop_last() =~= a + b.drop_last());
        assert((a + b).last() == b.last());
        assert(joined(a + b) =~= joined(a) + joined(b));
    }
}

proof fn lemma_survivors(
    place: Place,
    i1: Seq<(Micros, RecordView)>,
    r1: Seq<ChainedView>,
    i2: Seq<(Micros, RecordView)>,
    r2: Seq<ChainedView>,
)
    requires
        i1.len() == r1.len(),
        i2.len() == r2.len(),
    ensures
        survivors(place, i1 + i2, r1 + r2) == survivors(place, i1, r1) + survivors(place, i2, r2),
        survivors(place, i2, r2).len() <= i2.len(),
    decreases i2.len(),
{
    if i2.len() == 0 {
        assert(i1 + i2 =~= i1);
        assert(r1 + r2 =~= r1);
        assert(survivors(place, i1, r1) + survivors(place, i2, r2) =~= survivors(place, i1, r1));
    } else {
        lemma_survivors(place, i1, r1, i2.drop_last(), r2.drop_last());
        assert((i1 + i2).drop_last() =~= i1 + i2.drop_last());
        assert((r1 + r2).drop_last() =~= r1 + r2.drop_last());
        assert((i1 + i2).last() == i2.last());
        assert((r1 + r2).last() == r2.last());
        assert(survivors(place, i1 + i2, r1 + r2) =~= survivors(place, i1, r1) + survivors(
            place,
            i2,
            r2,
        ));
    }
}

/// Two stories one after the other.
proof fn lemma_and(a: Story, b: Story, steps: Seq<&'static Migration>, place: Place)
    requires
        a.is_told_by(steps),
        b.is_told_by(steps),
    ensures
        a.and(b).is_told_by(steps),
        a.and(b).kept(place) == a.kept(place) + b.kept(place),
        b.kept(place).len() <= b.input.len(),
        joined(a.and(b).asked) == joined(a.asked) + joined(b.asked),
{
    lemma_joined(a.asked, b.asked);
    lemma_survivors(place, a.input, a.results, b.input, b.results);
    let c = a.and(b);
    assert forall|k: int| 0 <= k < c.input.len() implies migrate::settles(
        steps,
        ChainedView::Same(#[trigger] c.input[k].1),
        c.asked[k],
        Ok::<ChainedView, ChainError>(c.results[k]),
    ) by {
        if k < a.input.len() {
            assert(c.input[k] == a.input[k]);
        } else {
            assert(c.input[k] == b.input[k - a.input.len()]);
        }
    }
}

/// A story with one record more.
proof fn lemma_and_one(
    a: Story,
    steps: Seq<&'static Migration>,
    place: Place,
    record: (Micros, RecordView),
    asked: Seq<Asked>,
    result: ChainedView,
)
    requires
        a.is_told_by(steps),
        migrate::settles(
            steps,
            ChainedView::Same(record.1),
            asked,
            Ok::<ChainedView, ChainError>(result),
        ),
    ensures
        a.and_one(record, asked, result).is_told_by(steps),
        joined(a.and_one(record, asked, result).asked) == joined(a.asked) + asked,
        a.and_one(record, asked, result).kept(place) == match result.record() {
            Some(r) => a.kept(place).push(Accepted { place, at: record.0, record: r }),
            None => a.kept(place),
        },
{
    let c = a.and_one(record, asked, result);
    assert(c.asked.drop_last() =~= a.asked);
    assert(c.input.drop_last() =~= a.input);
    assert(c.results.drop_last() =~= a.results);
    assert forall|k: int| 0 <= k < c.input.len() implies migrate::settles(
        steps,
        ChainedView::Same(#[trigger] c.input[k].1),
        c.asked[k],
        Ok::<ChainedView, ChainError>(c.results[k]),
    ) by {
        if k < a.input.len() {
            assert(c.input[k] == a.input[k]);
        }
    }
}

/// What the chain made of one block, and how the block was packed.
pub struct Part {
    pub story: Story,
    pub compression: Compression,
}

/// What the chain made of blocks one after another.
pub open spec fn told(parts: Seq<Part>) -> Story
    decreases parts.len(),
{
    if parts.len() == 0 {
        Story::empty()
    } else {
        told(parts.drop_last()).and(parts.last().story)
    }
}

/// The blocks as they were read.
pub open spec fn sources(parts: Seq<Part>) -> Seq<(Compression, Seq<(Micros, RecordView)>)> {
    Seq::new(parts.len(), |k: int| (parts[k].compression, parts[k].story.input))
}

/// Records with their times, without their place.
pub open spec fn timed(kept: Seq<Accepted>) -> Seq<(Micros, RecordView)> {
    Seq::new(kept.len(), |k: int| (kept[k].at, kept[k].record))
}

/// The records of blocks one after another.
pub open spec fn records_in(blocks: Seq<Landed>) -> Seq<(Micros, RecordView)>
    decreases blocks.len(),
{
    if blocks.len() == 0 {
        Seq::empty()
    } else {
        records_in(blocks.drop_last()) + blocks.last().stamped->0.records
    }
}

/// A count as far as a block header can say.
pub open spec fn up_to_u32(n: int) -> u32 {
    if n <= u32::MAX {
        n as u32
    } else {
        u32::MAX
    }
}

/// Where blocks written to a fresh segment end.
pub open spec fn end_of(layout: Layout, blocks: Seq<Landed>) -> int {
    if blocks.len() == 0 {
        layout.segment_header as int
    } else {
        blocks.last().offset + blocks.last().block.len
    }
}

/// A block holds what is left of one that was read, packed as that one was; it stands
/// behind the others of its segment and is numbered after them.
pub open spec fn is_block_of(
    part: Part,
    before: Seq<Landed>,
    b: Landed,
    file: SegmentFile,
    layout: Layout,
) -> bool {
    let kept = part.story.kept(file.place);
    let seq = up_to_u32(before.len() as int);
    &&& b.file == file
    &&& b.offset == end_of(layout, before)
    &&& b.stamped == Some(
        Stamped {
            place: file.place,
            seq,
            compression: part.compression,
            finished: b.stamped->0.finished,
            records: timed(kept),
        },
    )
    &&& b.block == (BlockInfo {
        header: BlockHeader {
            seq,
            body_len: b.stamped->0.finished.body_len,
            base: kept[0].at,
            count: up_to_u32(kept.len() as int),
        },
        len: b.stamped->0.finished.len,
    })
}

/// The blocks of the new segment: one for each block read of which something is left.
pub open spec fn are_blocks_of(
    parts: Seq<Part>,
    blocks: Seq<Landed>,
    file: SegmentFile,
    layout: Layout,
) -> bool
    decreases parts.len(),
{
    if parts.len() == 0 {
        blocks.len() == 0
    } else if parts.last().story.kept(file.place).len() == 0 {
        are_blocks_of(parts.drop_last(), blocks, file, layout)
    } else {
        &&& blocks.len() > 0
        &&& are_blocks_of(parts.drop_last(), blocks.drop_last(), file, layout)
        &&& is_block_of(parts.last(), blocks.drop_last(), blocks.last(), file, layout)
    }
}

/// The blocks of the new segment hold, one after another, what is left of all that was
/// read: nothing else, and in that order.
pub proof fn law_the_new_segment_holds_what_is_left(
    parts: Seq<Part>,
    blocks: Seq<Landed>,
    file: SegmentFile,
    layout: Layout,
)
    requires
        are_blocks_of(parts, blocks, file, layout),
        forall|k: int|
            0 <= k < parts.len() ==> (#[trigger] parts[k]).story.results.len()
                == parts[k].story.input.len(),
    ensures
        records_in(blocks) == timed(told(parts).kept(file.place)),
        told(parts).results.len() == told(parts).input.len(),
    decreases parts.len(),
{
    let place = file.place;
    if parts.len() > 0 {
        let rest = parts.drop_last();
        let part = parts.last();
        assert(part == parts[parts.len() - 1]);
        let kept = part.story.kept(place);
        let fewer = if kept.len() == 0 {
            blocks
        } else {
            blocks.drop_last()
        };
        assert forall|k: int| 0 <= k < rest.len() implies (
        #[trigger] rest[k]).story.results.len() == rest[k].story.input.len() by {
            assert(rest[k] == parts[k]);
        }
        law_the_new_segment_holds_what_is_left(rest, fewer, file, layout);
        lemma_survivors(
            place,
            told(rest).input,
            told(rest).results,
            part.story.input,
            part.story.results,
        );
        assert(timed(told(rest).kept(place) + kept) =~= timed(told(rest).kept(place)) + timed(
            kept,
        ));
        if kept.len() == 0 {
            assert(timed(kept) =~= Seq::empty());
            assert(timed(told(rest).kept(place)) + timed(kept) =~= timed(
                told(rest).kept(place),
            ));
        }
    } else {
        assert(timed(told(parts).kept(place)) =~= Seq::empty());
    }
}

// ---------------------------------------------------------------------------
// What a failure says
// ---------------------------------------------------------------------------

/// A failure of the chain in words.
pub open spec fn chain_error_text(e: ChainError) -> Seq<char> {
    "migration step "@ + text::decimal(e.step_from as nat) + " → "@ + text::decimal(
        (e.step_from + 1) as nat,
    ) + ": "@ + match e.kind {
        ChainErrorKind::Decode => "the payload did not parse"@,
        ChainErrorKind::WrongOutcome => "the step's outcome does not apply to the record kind"@,
        ChainErrorKind::MissingStep => "the step is missing from the schema"@,
    }
}

impl ChainError {
    /// The failure in words.
    pub fn message(&self) -> (s: String)
        ensures
            s@ == chain_error_text(*self),
    {
        let mut s = String::new();
        s.push_str("migration step ");
        text::push_decimal(&mut s, self.step_from as u64);
        s.push_str(" → ");
        text::push_decimal(&mut s, self.step_from as u64 + 1);
        s.push_str(": ");
        s.push_str(
            match self.kind {
                ChainErrorKind::Decode => "the payload did not parse",
                ChainErrorKind::WrongOutcome =>
                    "the step's outcome does not apply to the record kind",
                ChainErrorKind::MissingStep => "the step is missing from the schema",
            },
        );
        assert(s@ =~= chain_error_text(*self));
        s
    }
}

/// Why a segment cannot be rewritten.
pub open spec fn drifted_text(e: ChainError) -> Seq<char> {
    chain_error_text(e)
        + ": the record cannot be brought to the current version — the history and the actual layout have drifted apart; the original is untouched"@
}

fn drifted_reason(e: &ChainError) -> (s: String)
    ensures
        s@ == drifted_text(*e),
{
    let mut s = e.message();
    s.push_str(
        ": the record cannot be brought to the current version — the history and the actual layout have drifted apart; the original is untouched",
    );
    s
}

// ---------------------------------------------------------------------------
// One block, one segment
// ---------------------------------------------------------------------------

/// What is left of a block.
#[derive(Debug, Clone, Copy, PartialEq, Eq, Structural)]
struct Remainder {
    /// How many records are in it, as far as a block header can say.
    kept: u32,
    rewritten: u64,
    dropped: u64,
    first: Micros,
    last: Micros,
}

/// A step refused a record: it did not parse, or the outcome did not fit it.
pub open spec fn chain_failed(
    steps: Seq<&'static Migration>,
    asked: Seq<Asked>,
    e: Error,
) -> bool {
    exists|before: Seq<Asked>, last: Seq<Asked>, record: RecordView, failure: ChainError|
        {
            &&& asked == #[trigger] (before + last)
            &&& #[trigger] migrate::settles(
                steps,
                ChainedView::Same(record),
                last,
                Err::<ChainedView, ChainError>(failure),
            )
            &&& crate::segment::corrupt_because(e, drifted_text(failure))
        }
}

/// The type of a record is among those noted for the footer.
pub open spec fn is_noted(v: FooterView, record: RecordView) -> bool {
    match record {
        RecordView::Message { event, .. } => v.events.contains(event.0)
            || v.pending_events.contains(event.0),
        RecordView::Sample { metric, .. } => v.metrics.contains(metric.0)
            || v.pending_metrics.contains(metric.0),
        _ => true,
    }
}

/// The types of all these records are.
pub open spec fn all_noted(v: FooterView, kept: Seq<Accepted>) -> bool {
    forall|i: int| 0 <= i < kept.len() ==> is_noted(v, (#[trigger] kept[i]).record)
}

/// What is left of a block went into the one being assembled, and its types are noted.
spec fn is_remainder(
    left: Remainder,
    kept: Seq<Accepted>,
    f0: FooterView,
    f1: FooterView,
    a0: Seq<(Micros, RecordView)>,
    a1: Seq<(Micros, RecordView)>,
) -> bool {
    &&& left.kept == up_to_u32(kept.len() as int)
    &&& kept.len() > 0 ==> left.first == kept[0].at && left.last == kept.last().at
    &&& f1 == f0.noting_all(timed(kept))
    &&& a1 == a0 + timed(kept)
}

/// Pushes the records of a block through the chain and what survives into the
/// block being assembled at a place.
fn rewrite_block<M: Medium, S: Steps>(
    contents: &BlockContents,
    place: Place,
    steps: &Vec<&'static Migration>,
    migrator: &mut Migrator<S>,
    footer: &mut FooterBuilder,
    path: &String,
    io: &mut Io<M>,
) -> (r: Result<Remainder, Error>)
    requires
        old(footer).wf(),
    ensures
        final(footer).wf(),
        final(footer)@.blocks == old(footer)@.blocks,
        final(footer)@.events == old(footer)@.events,
        final(footer)@.metrics == old(footer)@.metrics,
        medium::written(final(io)@) == medium::written(old(io)@),
        medium::refusals(final(io)@) >= medium::refusals(old(io)@),
        medium::only_changes(old(io)@, final(io)@, place),
        r matches Err(e) ==> answered_with(old(io)@, final(io)@, e) || chain_failed(
            steps@,
            final(migrator)@,
            e,
        ),
        medium::stamped(final(io)@) == medium::stamped(old(io)@),
        medium::made(final(io)@) == medium::made(old(io)@),
        r matches Ok(left) ==> exists|story: Story| #[trigger]
            story.is_told_by(steps@) && {
                &&& is_remainder(
                    left,
                    story.kept(place),
                    old(footer)@,
                    final(footer)@,
                    medium::assembled(old(io)@, place),
                    medium::assembled(final(io)@, place),
                )
                &&& story.input == medium::records_of(contents.records@)
                &&& final(migrator)@ == old(migrator)@ + joined(story.asked)
                &&& medium::accepted(final(io)@) == medium::accepted(old(io)@) + story.kept(place)
                &&& all_noted(final(footer)@, story.kept(place))
                &&& left.rewritten == stats::plus(0, story.kept(place).len() as int)
                &&& left.dropped == stats::plus(
                    0,
                    story.input.len() - story.kept(place).len(),
                )
            },
{
    let ghost t0 = io@;
    let ghost a0 = migrator@;
    let ghost all = medium::records_of(contents.records@);
    let ghost mut story = Story::empty();
    let mut left = Remainder { kept: 0, rewritten: 0, dropped: 0, first: Micros(0), last: Micros(0) };
    proof {
        stats::lemma_plus_nothing(0);
        assert(a0 + joined(story.asked) =~= a0);
        assert(medium::accepted(t0) + story.kept(place) =~= medium::accepted(t0));
        assert(story.input =~= all.take(0));
        assert(timed(story.kept(place)) =~= Seq::empty());
        assert(medium::assembled(t0, place) + timed(story.kept(place)) =~= medium::assembled(
            t0,
            place,
        ));
    }
    let mut k: usize = 0;
    while k < contents.records.len()
        invariant
            k <= contents.records@.len(),
            t0 == old(io)@,
            a0 == old(migrator)@,
            footer.wf(),
            footer@.blocks == old(footer)@.blocks,
            footer@.events == old(footer)@.events,
            footer@.metrics == old(footer)@.metrics,
            all_noted(footer@, story.kept(place)),
            medium::written(io@) == medium::written(t0),
            medium::refusals(io@) >= medium::refusals(t0),
            medium::only_changes(t0, io@, place),
            all == medium::records_of(contents.records@),
            story.is_told_by(steps@),
            story.input == all.take(k as int),
            migrator@ == a0 + joined(story.asked),
            medium::accepted(io@) == medium::accepted(t0) + story.kept(place),
            medium::stamped(io@) == medium::stamped(t0),
            medium::made(io@) == medium::made(t0),
            is_remainder(
                left,
                story.kept(place),
                old(footer)@,
                footer@,
                medium::assembled(t0, place),
                medium::assembled(io@, place),
            ),
            left.rewritten == stats::plus(0, story.kept(place).len() as int),
            left.dropped == stats::plus(0, story.input.len() - story.kept(place).len()),
        decreases contents.records@.len() - k,
    {
        let ghost t1 = io@;
        let ghost told = story;
        let ghost a1 = migrator@;
        let at: Micros = contents.records[k].0;
        let record: Record<'_> = contents.records[k].1.as_record();
        let ghost entry = (at, record@);
        assert(all[k as int] == entry);
        let chained: Chained<'_> = match migrate::apply(steps, migrator, record) {
            Ok(c) => c,
            Err(e) => {
                proof {
                    let asked = choose|asked: Seq<Asked>|
                        {
                            &&& migrator@ == a1 + asked
                            &&& #[trigger] migrate::settles(
                                steps@,
                                ChainedView::Same(entry.1),
                                asked,
                                Err::<ChainedView, ChainError>(e),
                            )
                        };
                    assert(migrator@ == a1 + asked);
                }
                return Err(Error::Corrupt { path: path.clone(), reason: drifted_reason(&e) });
            },
        };
        proof {
            let asked = choose|asked: Seq<Asked>|
                {
                    &&& migrator@ == a1 + asked
                    &&& #[trigger] migrate::settles(
                        steps@,
                        ChainedView::Same(entry.1),
                        asked,
                        Ok::<ChainedView, ChainError>(chained@),
                    )
                };
            lemma_and_one(told, steps@, place, entry, asked, chained@);
            story = told.and_one(entry, asked, chained@);
            assert(story.input =~= all.take(k + 1));
            assert(migrator@ =~= a0 + joined(story.asked));
        }
        match chained.record() {
            None => {
                stats::Counters::bump(&mut left.dropped);
                proof {
                    stats::law_counters_add_up(
                        0,
                        told.input.len() - told.kept(place).len(),
                        1,
                    );
                }
            },
            Some(rec) => {
                let ghost noted = footer@;
                match rec {
                    Record::Message { event, .. } => {
                        footer.add_event(event);
                    },
                    Record::Sample { metric, .. } => {
                        footer.add_metric(metric);
                    },
                    _ => {},
                }
                let pushed = io.push_record(place, at, &rec);
                proof {
                    let op = medium::Op::PushRecord { place, at, record: rec@, outcome: pushed };
                    medium::lemma_landed_push(t1, op);
                    medium::lemma_read_out_push(t1, op);
                    medium::lemma_assembled_push(t1, op, place);
                    assert forall|p: Place| p != place implies #[trigger] medium::changes(io@, p)
                        == medium::changes(t0, p) by {
                        medium::lemma_changes_push(t1, op, p);
                    }
                }
                match pushed {
                    Ok(_) => {},
                    Err(e) => {
                        return Err(e);
                    },
                }
                proof {
                    assert(medium::accepted(t0) + story.kept(place) =~= (medium::accepted(t0)
                        + told.kept(place)).push(Accepted { place, at, record: rec@ }));
                    let kept = story.kept(place);
                    assert forall|i: int| 0 <= i < kept.len() implies is_noted(
                        footer@,
                        (#[trigger] kept[i]).record,
                    ) by {
                        if i < told.kept(place).len() {
                            assert(kept[i] == told.kept(place)[i]);
                            assert(is_noted(noted, kept[i].record));
                        }
                    }
                }
                if left.kept == 0 {
                    left.first = at;
                }
                left.kept = left.kept.saturating_add(1);
                stats::Counters::bump(&mut left.rewritten);
                proof {
                    stats::law_counters_add_up(0, told.kept(place).len() as int, 1);
                }
                left.last = at;
                proof {
                    let was = timed(told.kept(place));
                    let is = timed(story.kept(place));
                    assert(is.drop_last() =~= was);
                    assert(is.last() == (at, rec@));
                    assert(footer@ =~= noted.noting(rec@));
                    assert(medium::assembled(io@, place) =~= medium::assembled(t0, place) + is);
                }
            },
        }
        k = k + 1;
    }
    assert(all.take(k as int) =~= all);
    Ok(left)
}

/// The outcome of rewriting one segment, before the commit.
#[derive(Debug, Clone, Copy, PartialEq, Eq, Structural)]
pub struct Rewrite {
    pub commit: MigrationCommit,
    pub records_rewritten: u64,
    pub records_dropped: u64,
}

/// The staging area of a place.
pub open spec fn staging_of(place: Place) -> Place {
    Place { staging: true, ..place }
}

/// The blocks among these offsets that were found.
pub open spec fn picked(file: SegmentFile, offsets: Seq<u64>, found: Seq<bool>) -> Seq<
    (SegmentFile, u64),
>
    decreases offsets.len(),
{
    if offsets.len() == 0 {
        Seq::empty()
    } else {
        let before = picked(file, offsets.drop_last(), found.drop_last());
        if found.last() {
            before.push((file, offsets.last()))
        } else {
            before
        }
    }
}

/// There is no block at an offset: it lies past the data, or the medium found a
/// zero terminator there.
pub open spec fn nothing_at(v: ReaderView, offset: u64, looks: Seq<Look>) -> bool {
    ||| offset >= v.data_end
    ||| offset + v.layout.block_header > v.data_end
    ||| looks.contains(Look { file: v.file, offset, found: HeaderProbe::Zero })
}

/// The records of every block at these offsets were read, in order.
pub open spec fn blocks_read(
    v: ReaderView,
    offsets: Seq<u64>,
    found: Seq<bool>,
    t0: Seq<medium::Op>,
    t1: Seq<medium::Op>,
) -> bool {
    &&& found.len() == offsets.len()
    &&& medium::fetched(t1) == medium::fetched(t0) + picked(v.file, offsets, found)
    &&& forall|k: int|
        0 <= k < offsets.len() && !(#[trigger] found[k]) ==> nothing_at(
            v,
            offsets[k],
            medium::looks(t1),
        )
}

/// The records of every block of a segment were read, in order.
pub open spec fn read_whole(v: ReaderView, t0: Seq<medium::Op>, t1: Seq<medium::Op>) -> bool {
    exists|offsets: Seq<u64>, found: Seq<bool>, a: Seq<medium::Op>, b: Seq<medium::Op>|
        {
            &&& #[trigger] lists_blocks(v, offsets, a, b)
            &&& #[trigger] blocks_read(v, offsets, found, t0, t1)
            &&& medium::looks(a) == medium::looks(t0)
            &&& medium::grown(t0, a)
            &&& medium::grown(a, b)
            &&& medium::grown(b, t1)
        }
}

/// The file a segment is rewritten to: under its name, in the staging area.
pub open spec fn staged_file(v: ReaderView) -> SegmentFile {
    SegmentFile { place: staging_of(v.file.place), name: v.header.name() }
}

/// The segment of the new version, before anything is written to it: it may grow to what
/// the data of the original takes, with room for the terminator.
pub open spec fn staged_segment(v: ReaderView, to: ProtocolVersion) -> SegmentWriter {
    let room = v.data_end + v.layout.block_header;
    SegmentWriter::created(
        staged_file(v),
        SegmentHeader { protocol_version: to, ..v.header },
        if room <= u64::MAX {
            room as u64
        } else {
            u64::MAX
        },
        v.layout,
    )
}

/// A segment of the new version under the name of the original was sealed behind these
/// blocks, with a footer that lists each of them and the types of these records.
pub open spec fn staged_for(
    v: ReaderView,
    to: ProtocolVersion,
    kept: Seq<Accepted>,
    blocks: Seq<Landed>,
    size: u64,
    t1: Seq<medium::Op>,
) -> bool {
    let seg = filled(staged_segment(v, to), blocks_alone(blocks));
    exists|t: Seq<medium::Op>, footer: Footer, len: u64|
        {
            &&& t1 == #[trigger] seg.sealed_trace(t, footer, len)
            &&& seg.end == end_of(v.layout, blocks)
            &&& footer.describes(medium::footer_of(blocks))
            &&& size == if seg.end + len <= u64::MAX {
                seg.end + len
            } else {
                u64::MAX as int
            }
            &&& forall|i: int|
                0 <= i < kept.len() ==> migrate::is_listed(footer, (#[trigger] kept[i]).record)
        }
}

/// The staged file was closed, and its deletion asked for.
pub open spec fn dropped_staged(v: ReaderView, t1: Seq<medium::Op>) -> bool {
    &&& t1.len() >= 2
    &&& t1[t1.len() - 2] == (medium::Op::Close { file: staged_file(v) })
    &&& t1.last() matches medium::Op::Unlink { file, .. } && file == staged_file(v)
}

/// What rewriting a segment came to.
pub open spec fn is_rewrite(
    v: ReaderView,
    to: ProtocolVersion,
    story: Story,
    rw: Rewrite,
    t0: Seq<medium::Op>,
    t1: Seq<medium::Op>,
) -> bool {
    let kept = story.kept(staging_of(v.file.place));
    // Every record of the segment was read and went through the chain, and what
    // survived went into the new segment in the order it was read in.
    &&& read_whole(v, t0, t1)
    &&& medium::read_out(t1) == medium::read_out(t0) + story.input
    // One segment was created, and what survived was written to it: a block in is a
    // block out, an emptied one drops out.
    &&& medium::made(t1) == medium::made(t0).push(
        medium::Made {
            file: staged_file(v),
            header: staged_segment(v, to).header,
            capacity: staged_segment(v, to).capacity,
        },
    )
    &&& exists|parts: Seq<Part>, blocks: Seq<Landed>|
        {
            &&& #[trigger] are_blocks_of(parts, blocks, staged_file(v), v.layout)
            &&& told(parts) == story
            &&& medium::unpacked(t1) == medium::unpacked(t0) + sources(parts)
            &&& medium::written(t1) == medium::written(t0) + blocks
            &&& records_in(blocks) == timed(kept)
            &&& rw.commit matches MigrationCommit::Replace { size } ==> staged_for(
                v,
                to,
                kept,
                blocks,
                size,
                t1,
            )
        }
    &&& medium::accepted(t1) == medium::accepted(t0) + kept
    &&& rw.records_rewritten == stats::plus(0, kept.len() as int)
    &&& rw.records_dropped == stats::plus(0, story.input.len() - kept.len())
    // A segment that nothing survives goes, and its empty copy is deleted.
    &&& match rw.commit {
        MigrationCommit::Remove => kept.len() == 0 && dropped_staged(v, t1),
        MigrationCommit::Replace { .. } => kept.len() > 0,
    }
}

/// Why a segment was not rewritten: the medium refused, a step did, a block is
/// damaged, or a block outgrew any file.
pub open spec fn rewrite_failed(
    v: ReaderView,
    steps: Seq<&'static Migration>,
    asked: Seq<Asked>,
    t0: Seq<medium::Op>,
    t1: Seq<medium::Op>,
    e: Error,
) -> bool {
    ||| answered_with(t0, t1, e)
    ||| chain_failed(steps, asked, e)
    ||| exists|offset: u64| #[trigger] is_damaged(v, t1, offset, e)
    ||| e is NoSpace && medium::finished(t1) is Some && staged_end(
        v.layout,
        medium::written(t0),
        medium::written(t1),
    ) + medium::finished(t1)->0.len > u64::MAX
}

/// The medium answered something with this error, at the end or just before closing the
/// file.
pub open spec fn answered_with(t0: Seq<medium::Op>, t1: Seq<medium::Op>, e: Error) -> bool {
    &&& medium::troubled(t0, t1)
    &&& {
        ||| t1.len() > 0 && medium::refused_with(t1.last(), e)
        ||| t1.len() > 1 && medium::refused_with(t1[t1.len() - 2], e) && t1.last() is Close
    }
}

/// Where the blocks of the new segment end: behind the one written last, or behind the
/// header.
pub open spec fn staged_end(
    layout: Layout,
    before: Seq<medium::Landed>,
    after: Seq<medium::Landed>,
) -> int {
    if after.len() == before.len() {
        layout.segment_header as int
    } else {
        after.last().offset + after.last().block.len
    }
}

/// Rewrites a segment into the staging area. The file is synced; committing it is
/// the writer's job.
///
/// Block boundaries are preserved: a block in is a block out, an emptied one drops
/// out. So are the name and the base: even where the leading records are deleted,
/// selecting segments by name only becomes more conservative.
#[verifier::spinoff_prover]
#[verifier::rlimit(60)]
pub fn rewrite_segment<M: Medium, S: Steps>(
    reader: &mut SegmentReader,
    to: ProtocolVersion,
    steps: &Vec<&'static Migration>,
    migrator: &mut Migrator<S>,
    io: &mut Io<M>,
) -> (r: Result<Rewrite, Error>)
    requires
        old(reader)@.layout.block_header > 0,
    ensures
        // The original is not touched, whatever happens.
        medium::only_changes_but_read(
            old(io)@,
            final(io)@,
            staging_of(old(reader)@.file.place),
        ),
        r matches Ok(rw) ==> exists|story: Story|
            {
                &&& #[trigger] story.is_told_by(steps@)
                &&& final(migrator)@ == old(migrator)@ + joined(story.asked)
                &&& is_rewrite(old(reader)@, to, story, rw, old(io)@, final(io)@)
            },
        r matches Err(e) ==> rewrite_failed(
            old(reader)@,
            steps@,
            final(migrator)@,
            old(io)@,
            final(io)@,
            e,
        ),
{
    broadcast use {
        medium::group_trace,
        medium::group_synced,
        medium::lemma_changes_push,
        medium::lemma_read_out_push,
    };

    let ghost t0 = io@;
    let ghost a0 = migrator@;
    let ghost v = reader@;
    let src: SegmentHeader = reader.header();
    let header = SegmentHeader {
        protocol_version: to,
        boot: src.boot,
        base: src.base,
        store_id: src.store_id,
    };
    let original: SegmentFile = reader.path();
    let layout: Layout = reader.layout();
    let place = Place { staging: true, ..original.place };
    // The growth limit is what the original takes with room for the terminator:
    // slack would press on the medium for real, outside any budget.
    let limit: u64 = reader.data_end().saturating_add(layout.block_header as u64);
    io.reset_block(place);
    let mut seg: SegmentWriter = match SegmentWriter::create(io, place, header, limit, layout) {
        Ok(s) => s,
        Err(e) => {
            return Err(e);
        },
    };
    let staged = SegmentFile { place, name: header.file_name() };
    let path: String = io.path_of(original);
    let ghost ta = io@;
    let offsets: Vec<u64> = reader.block_offsets(io);
    let ghost tb = io@;
    let ghost mut found: Seq<bool> = Seq::empty();
    let mut footer = FooterBuilder::new();
    let ghost mut story = Story::empty();
    let ghost mut parts: Seq<Part> = Seq::empty();
    let ghost mut blocks: Seq<Landed> = Seq::empty();
    let mut rw = Rewrite {
        commit: MigrationCommit::Remove,
        records_rewritten: 0,
        records_dropped: 0,
    };
    proof {
        stats::lemma_plus_nothing(0);
        assert(a0 + joined(story.asked) =~= a0);
        assert(medium::accepted(t0) + story.kept(place) =~= medium::accepted(t0));
        assert(medium::read_out(t0) + story.input =~= medium::read_out(t0));
        assert(offsets@.take(0) =~= Seq::empty());
        assert(sources(parts) =~= Seq::empty());
        assert(medium::unpacked(t0) + sources(parts) =~= medium::unpacked(t0));
        assert(medium::written(t0) + blocks =~= medium::written(t0));
        assert(blocks_alone(blocks) =~= Seq::<BlockInfo>::empty());
        assert(seg == staged_segment(v, to));
        assert(medium::fetched(t0) + picked(v.file, offsets@.take(0), found) =~= medium::fetched(
            t0,
        ));
    }
    let mut k: usize = 0;
    while k < offsets.len()
        invariant
            k <= offsets@.len(),
            t0 == old(io)@,
            a0 == old(migrator)@,
            v == old(reader)@,
            original == v.file,
            place == staging_of(original.place),
            reader@ == (ReaderView { is_open: reader@.is_open, ..v }),
            medium::looks(ta) == medium::looks(t0),
            medium::grown(t0, ta),
            medium::grown(ta, tb),
            medium::grown(tb, io@),
            lists_blocks(v, offsets@, ta, tb),
            blocks_read(v, offsets@.take(k as int), found, t0, io@),
            medium::refusals(io@) >= medium::refusals(t0),
            staged == staged_file(v),
            parts_settled(parts),
            story == told(parts),
            are_blocks_of(parts, blocks, staged, v.layout),
            medium::unpacked(io@) == medium::unpacked(t0) + sources(parts),
            medium::written(io@) == medium::written(t0) + blocks,
            medium::made(io@) == medium::made(t0).push(
                medium::Made {
                    file: staged,
                    header,
                    capacity: staged_segment(v, to).capacity,
                },
            ),
            medium::assembled(io@, place) == Seq::<(Micros, RecordView)>::empty(),
            footer@ == medium::footer_of(blocks),
            seg.end == end_of(v.layout, blocks),
            seg.next_seq == up_to_u32(blocks.len() as int),
            medium::written(io@).len() >= medium::written(t0).len(),
            seg.end == staged_end(v.layout, medium::written(t0), medium::written(io@)),
            seg.wf(),
            seg == filled(staged_segment(v, to), blocks_alone(blocks)),
            seg.file == staged,
            seg.header == header,
            header == (SegmentHeader { protocol_version: to, ..v.header }),
            footer.wf(),
            footer@.pending_events == Set::<u16>::empty(),
            footer@.pending_metrics == Set::<u16>::empty(),
            all_noted(footer@, story.kept(place)),
            story.is_told_by(steps@),
            migrator@ == a0 + joined(story.asked),
            medium::only_changes_but_read(t0, io@, place),
            medium::read_out(io@) == medium::read_out(t0) + story.input,
            medium::accepted(io@) == medium::accepted(t0) + story.kept(place),
            (footer@.blocks.len() == 0) == (story.kept(place).len() == 0),
            rw.commit is Remove,
            rw.records_rewritten == stats::plus(0, story.kept(place).len() as int),
            rw.records_dropped == stats::plus(0, story.input.len() - story.kept(place).len()),
        decreases offsets@.len() - k,
    {
        broadcast use {
            medium::group_trace,
            medium::group_synced,
            medium::lemma_changes_push,
            medium::lemma_read_out_push,
        };

        let offset: u64 = offsets[k];
        let ghost looked = medium::looks(io@);
        let ghost k0 = k as int;
        k = k + 1;
        let at_hand: Option<BlockHeader> = match reader.read_block_at(offset, io) {
            Ok(Some(block)) => Some(block.header),
            Ok(None) => None,
            Err(e) => {
                assert(answered_with(t0, io@, e) || is_damaged(v, io@, offset, e));
                return Err(e);
            },
        };
        let ghost t1 = io@;
        let block_header: BlockHeader = match at_hand {
            Some(h) => h,
            None => {
                proof {
                    if medium::looks(t1) != looked {
                        assert(medium::looks(t1)[looked.len() as int] == (Look {
                            file: v.file,
                            offset,
                            found: HeaderProbe::Zero,
                        }));
                    }
                    lemma_another(v, offsets@, found, k0, false, looked, t0, t1, t1);
                    found = found.push(false);
                }
                continue;
            },
        };
        let contents: BlockContents = match io.read_records(original, offset, block_header) {
            Ok(c) => c,
            Err(e) => {
                return Err(e);
            },
        };
        let ghost t2 = io@;
        proof {
            lemma_another(v, offsets@, found, k0, true, looked, t0, t1, t2);
            found = found.push(true);
        }
        let ghost told = story;
        let ghost a1 = migrator@;
        let ghost noted = footer@;
        let ghost mut part = Part { story: Story::empty(), compression: contents.compression };
        let left: Remainder = match rewrite_block(
            &contents,
            place,
            steps,
            migrator,
            &mut footer,
            &path,
            io,
        ) {
            Ok(l) => l,
            Err(e) => {
                return Err(e);
            },
        };
        proof {
            let block = choose|block: Story| #[trigger]
                block.is_told_by(steps@) && {
                    &&& block.input == medium::records_of(contents.records@)
                    &&& migrator@ == a1 + joined(block.asked)
                    &&& medium::accepted(io@) == medium::accepted(t2) + block.kept(place)
                    &&& is_remainder(
                        left,
                        block.kept(place),
                        noted,
                        footer@,
                        medium::assembled(t2, place),
                        medium::assembled(io@, place),
                    )
                    &&& all_noted(footer@, block.kept(place))
                    &&& left.rewritten == stats::plus(0, block.kept(place).len() as int)
                    &&& left.dropped == stats::plus(
                        0,
                        block.input.len() - block.kept(place).len(),
                    )
                };
            lemma_and(told, block, steps@, place);
            story = told.and(block);
            part = Part { story: block, compression: contents.compression };
            lemma_part_on(parts, part);
            let had = parts;
            parts = parts.push(part);
            assert(medium::unpacked(io@) =~= medium::unpacked(t0) + sources(parts));
            assert(parts.drop_last() =~= had);
            assert(medium::assembled(io@, place) =~= timed(block.kept(place)));
            assert forall|i: int| 0 <= i < story.kept(place).len() implies is_noted(
                footer@,
                (#[trigger] story.kept(place)[i]).record,
            ) by {
                let kept = story.kept(place);
                if i < told.kept(place).len() {
                    assert(kept[i] == told.kept(place)[i]);
                    assert(is_noted(noted, kept[i].record));
                } else {
                    assert(kept[i] == block.kept(place)[i - told.kept(place).len()]);
                }
            }
            assert(migrator@ =~= a0 + joined(story.asked));
            assert(medium::accepted(io@) =~= medium::accepted(t0) + story.kept(place));
            assert(medium::read_out(io@) =~= medium::read_out(t0) + story.input);
            lemma_plus_plus(told.kept(place).len() as int, block.kept(place).len() as int);
            lemma_plus_plus(
                told.input.len() - told.kept(place).len(),
                block.input.len() - block.kept(place).len(),
            );
        }
        stats::Counters::add(&mut rw.records_rewritten, left.rewritten);
        stats::Counters::add(&mut rw.records_dropped, left.dropped);
        let ghost before_block = footer@;
        if left.kept == 0 {
            footer.discard_pending();
            proof {
                assert(timed(part.story.kept(place)) =~= Seq::empty());
                assert(footer@ =~= noted);
                assert(story.kept(place) =~= told.kept(place));
                assert(all_noted(footer@, told.kept(place))) by {
                    assert forall|i: int| 0 <= i < told.kept(place).len() implies is_noted(
                        footer@,
                        (#[trigger] told.kept(place)[i]).record,
                    ) by {
                        assert(is_noted(noted, told.kept(place)[i].record));
                    }
                }
            }
            continue;
        }
        let seq: u32 = seg.next_seq();
        let finished: Finished = match io.finish_block(place, seq, contents.compression) {
            Ok(f) => f,
            Err(e) => {
                return Err(e);
            },
        };
        let block = BlockHeader {
            seq,
            body_len: finished.body_len,
            base: left.first,
            count: left.kept,
        };
        let at: u64 = match seg.append_block(BlockInfo { header: block, len: finished.len }, io) {
            Ok(a) => a,
            Err(e) => {
                return Err(e);
            },
        };
        footer.add_block(at, &block, left.last);
        proof {
            let was = blocks;
            let kept = part.story.kept(place);
            let b = Landed {
                file: staged,
                offset: at,
                block: BlockInfo { header: block, len: finished.len },
                stamped: Some(
                    Stamped {
                        place,
                        seq,
                        compression: contents.compression,
                        finished,
                        records: timed(kept),
                    },
                ),
            };
            blocks = blocks.push(b);
            assert(blocks.drop_last() =~= was);
            assert(blocks_alone(blocks).drop_last() =~= blocks_alone(was));
            assert(medium::written(io@) =~= medium::written(t0) + blocks);
            assert(timed(kept).last() == (kept.last().at, kept.last().record));
            assert(is_block_of(part, was, b, staged, v.layout));
            assert(medium::entry_of(b) == (BlockEntry {
                offset: at,
                base: left.first,
                last: left.last,
                count: left.kept,
            }));
            assert(footer@ =~= medium::footer_of(blocks));
        }
        assert forall|i: int| 0 <= i < story.kept(place).len() implies is_noted(
            footer@,
            (#[trigger] story.kept(place)[i]).record,
        ) by {
            assert(is_noted(before_block, story.kept(place)[i].record));
        }
    }
    assert(offsets@.take(k as int) =~= offsets@);
    proof {
        law_the_new_segment_holds_what_is_left(parts, blocks, staged, v.layout);
        lemma_blocks_of_none(parts, blocks, staged, v.layout);
    }
    if footer.is_empty() {
        io.close(staged);
        let _ = io.unlink(staged);
        assert(blocks_read(v, offsets@, found, t0, io@));
        return Ok(rw);
    }
    let built = footer.build();
    let end: u64 = seg.data_end();
    let ghost ts = io@;
    match seg.seal(&built, io) {
        Ok(len) => {
            rw.commit = MigrationCommit::Replace { size: end.saturating_add(len) };
            proof {
                assert(blocks_read(v, offsets@, found, t0, io@));
                let kept = story.kept(place);
                assert forall|i: int| 0 <= i < kept.len() implies migrate::is_listed(
                    built,
                    (#[trigger] kept[i]).record,
                ) by {
                    assert(is_noted(footer@, kept[i].record));
                    lemma_noted_is_listed(footer@, built, kept[i].record);
                }
                assert(io@ == seg.sealed_trace(ts, built, len));
            }
            Ok(rw)
        },
        Err(e) => Err(e),
    }
}

/// Every record of the parts has a result.
spec fn parts_settled(parts: Seq<Part>) -> bool {
    forall|k: int|
        0 <= k < parts.len() ==> (#[trigger] parts[k]).story.results.len()
            == parts[k].story.input.len()
}

proof fn lemma_part_on(parts: Seq<Part>, part: Part)
    requires
        parts_settled(parts),
        part.story.results.len() == part.story.input.len(),
    ensures
        parts_settled(parts.push(part)),
        told(parts.push(part)) == told(parts).and(part.story),
        sources(parts.push(part)) == sources(parts).push((part.compression, part.story.input)),
{
    let more = parts.push(part);
    assert(more.drop_last() =~= parts);
    assert(sources(more) =~= sources(parts).push((part.compression, part.story.input)));
}

/// No block is written exactly where no record is left.
proof fn lemma_blocks_of_none(
    parts: Seq<Part>,
    blocks: Seq<Landed>,
    file: SegmentFile,
    layout: Layout,
)
    requires
        are_blocks_of(parts, blocks, file, layout),
    ensures
        medium::footer_of(blocks).blocks.len() == blocks.len(),
    decreases parts.len(),
{
    if parts.len() > 0 {
        if parts.last().story.kept(file.place).len() == 0 {
            lemma_blocks_of_none(parts.drop_last(), blocks, file, layout);
        } else {
            lemma_blocks_of_none(parts.drop_last(), blocks.drop_last(), file, layout);
            lemma_noting_keeps_blocks(
                medium::footer_of(blocks.drop_last()),
                blocks.last().stamped->0.records,
            );
        }
    }
}

proof fn lemma_noting_keeps_blocks(v: FooterView, records: Seq<(Micros, RecordView)>)
    ensures
        v.noting_all(records).blocks == v.blocks,
    decreases records.len(),
{
    if records.len() > 0 {
        lemma_noting_keeps_blocks(v, records.drop_last());
    }
}

/// One more block was looked for, and read where it was found.
proof fn lemma_another(
    v: ReaderView,
    offsets: Seq<u64>,
    found: Seq<bool>,
    k: int,
    there: bool,
    looked: Seq<Look>,
    t0: Seq<medium::Op>,
    t1: Seq<medium::Op>,
    t2: Seq<medium::Op>,
)
    requires
        0 <= k < offsets.len(),
        found.len() == k,
        forall|j: int|
            0 <= j < k && !(#[trigger] found[j]) ==> nothing_at(v, offsets.take(k)[j], looked),
        medium::looks(t2) == medium::looks(t1),
        !there ==> nothing_at(v, offsets[k], medium::looks(t1)),
        medium::looks(t1) == looked || (medium::looks(t1).len() == looked.len() + 1
            && medium::looks(t1).drop_last() =~= looked),
        medium::fetched(t1) == medium::fetched(t0) + picked(v.file, offsets.take(k), found),
        medium::fetched(t2) == if there {
            medium::fetched(t1).push((v.file, offsets[k]))
        } else {
            medium::fetched(t1)
        },
    ensures
        blocks_read(v, offsets.take(k + 1), found.push(there), t0, t2),
{
    let more = found.push(there);
    let taken = offsets.take(k + 1);
    assert(taken.drop_last() =~= offsets.take(k));
    assert(more.drop_last() =~= found);
    assert(medium::fetched(t2) =~= medium::fetched(t0) + picked(v.file, taken, more));
    assert forall|j: int| 0 <= j < taken.len() && !(#[trigger] more[j]) implies nothing_at(
        v,
        taken[j],
        medium::looks(t2),
    ) by {
        if j < k {
            assert(!found[j]);
            assert(nothing_at(v, offsets.take(k)[j], looked));
            let zero = Look { file: v.file, offset: taken[j], found: HeaderProbe::Zero };
            if looked.contains(zero) {
                let i = looked.index_of(zero);
                assert(medium::looks(t1)[i] == zero);
            }
        }
    }
}

/// What is noted and settled is listed by the footer.
proof fn lemma_noted_is_listed(v: FooterView, footer: Footer, record: RecordView)
    requires
        is_noted(v, record),
        v.pending_events == Set::<u16>::empty(),
        v.pending_metrics == Set::<u16>::empty(),
        footer.describes(v),
    ensures
        migrate::is_listed(footer, record),
{
    match record {
        RecordView::Message { event, .. } => {
            assert(footer.event_ids().to_set().contains(event.0));
            assert(footer.event_ids().contains(event.0));
            let i = footer.event_ids().index_of(event.0);
            assert(footer.events@[i] == event);
        },
        RecordView::Sample { metric, .. } => {
            assert(footer.metric_ids().to_set().contains(metric.0));
            assert(footer.metric_ids().contains(metric.0));
            let i = footer.metric_ids().index_of(metric.0);
            assert(footer.metrics@[i] == metric);
        },
        _ => {},
    }
}

/// Two counts started at nothing add up.
proof fn lemma_plus_plus(n: int, m: int)
    ensures
        stats::plus(stats::plus(0, n), stats::plus(0, m) as int) == stats::plus(0, n + m),
{
    reveal(stats::plus);
    let b = 0x1_0000_0000_0000_0000int;
    assert(((n % b) + (m % b)) % b == (n + m) % b) by (nonlinear_arith)
        requires
            b == 0x1_0000_0000_0000_0000int,
    {
        vstd::arithmetic::div_mod::lemma_add_mod_noop(n, m, b);
    }
}

/// What survives of a segment is what the steps left of its records: each under its own time, in the
/// order it was read in, and nothing of a record that was dropped.
pub proof fn law_what_survives_keeps_its_time_and_order(
    place: Place,
    input: Seq<(Micros, RecordView)>,
    results: Seq<ChainedView>,
    at: Micros,
    record: RecordView,
    result: ChainedView,
)
    ensures
        survivors(place, Seq::empty(), Seq::empty()) == Seq::<Accepted>::empty(),
        result is Dropped ==> survivors(place, input.push((at, record)), results.push(result))
            == survivors(place, input, results),
        (result matches ChainedView::Same(r) ==> survivors(
            place,
            input.push((at, record)),
            results.push(result),
        ) == survivors(place, input, results).push(Accepted { place, at, record: r })),
        (result matches ChainedView::Owned(r) ==> survivors(
            place,
            input.push((at, record)),
            results.push(result),
        ) == survivors(place, input, results).push(Accepted { place, at, record: r })),
{
    assert(input.push((at, record)).drop_last() =~= input);
    assert(results.push(result).drop_last() =~= results);
}

/// The type of a record that went into a segment is in the lists of its footer, or about to be.
pub proof fn law_the_types_that_are_left_are_noted(v: FooterView, kept: Seq<Accepted>, i: int)
    requires
        all_noted(v, kept),
        0 <= i < kept.len(),
    ensures
        (kept[i].record matches RecordView::Message { event, .. } ==> v.events.contains(event.0)
            || v.pending_events.contains(event.0)),
        (kept[i].record matches RecordView::Sample { metric, .. } ==> v.metrics.contains(metric.0)
            || v.pending_metrics.contains(metric.0)),
{
    assert(is_noted(v, kept[i].record));
}

/// A segment is rewritten aside, under its own name: its copy lies in the same channel, is staged, and
/// differs from it in the version alone. What is counted is what became of its records.
pub proof fn law_a_segment_is_rewritten_aside(
    v: ReaderView,
    to: ProtocolVersion,
    story: Story,
    rw: Rewrite,
    t0: Seq<medium::Op>,
    t1: Seq<medium::Op>,
)
    requires
        is_rewrite(v, to, story, rw, t0, t1),
    ensures
        medium::made(t1).len() == medium::made(t0).len() + 1,
        ({
            let m = medium::made(t1).last();
            &&& m.file.place.staging
            &&& m.file.place.ns == v.file.place.ns
            &&& m.file.place.channel == v.file.place.channel
            &&& m.file.name.boot == v.header.boot
            &&& m.file.name.base == v.header.base
            &&& m.header.store_id == v.header.store_id
            &&& m.header.boot == v.header.boot
            &&& m.header.base == v.header.base
            &&& m.header.protocol_version == to
        }),
        rw.commit is Remove <==> story.kept(staging_of(v.file.place)).len() == 0,
        story.kept(staging_of(v.file.place)).len() <= story.input.len() <= u64::MAX
            ==> rw.records_rewritten + rw.records_dropped == story.input.len(),
{
    let kept = story.kept(staging_of(v.file.place));
    if kept.len() <= story.input.len() <= u64::MAX {
        stats::lemma_plus_in_range(0, kept.len() as int);
        stats::lemma_plus_in_range(0, story.input.len() - kept.len());
    }
}

} // verus!
