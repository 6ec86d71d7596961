//! A migration run over the segments of a namespace.
//!
//! Every segment is sorted by its header; one of an earlier version that the steps
//! touch is rewritten into the staging area, and committing it is the writer's job.

use crate::control::MigrationCommit;
use crate::error::Error;
use crate::format::{Layout, ProtocolVersion, SegmentHeader, SegmentName};
use crate::medium;
use crate::medium::{Io, Medium, Op, Place, SegmentFile};
use crate::migrate;
use crate::migrate::{Asked, ChainError, Migrator, Steps};
use crate::rewrite::{
    chain_error_text, is_rewrite, joined, rewrite_failed, rewrite_segment, staging_of, Rewrite,
    Story,
};
use crate::rotation::Inventory;
use crate::schema::{Migration, Schema};
use crate::segment::{corrupt_because, was_opened, ReaderView, SegmentReader};
use crate::staged::{ChannelIdx, NsId};
use crate::stats;
use vstd::prelude::*;

verus! {

broadcast use crate::medium::group_trace;

/// The channel was swept and listed, and these are its segments, oldest first.
pub open spec fn was_planned(
    place: Place,
    names: Seq<SegmentName>,
    t0: Seq<Op>,
    t1: Seq<Op>,
) -> bool {
    &&& exists|listing: Option<Vec<medium::Listed>>|
        {
            &&& t1 == #[trigger] t0.push(Op::Sweep { place, refused: None }).push(
                Op::List { place, outcome: Ok(listing) },
            )
            &&& names.to_multiset() == match listing {
                Some(l) => crate::rotation::named_in(l@).to_multiset(),
                None => vstd::multiset::Multiset::empty(),
            }
        }
    &&& forall|i: int, j: int|
        0 <= i < j < names.len() ==> !(#[trigger] names[j]).precedes(#[trigger] names[i])
}

/// The segments of a channel that a run looks at, oldest first. What an earlier
/// run left in the staging area is swept up: its names would be in the way.
pub fn plan_channel<M: Medium>(place: Place, io: &mut Io<M>) -> (r: Result<Vec<SegmentName>, Error>)
    ensures
        medium::quiet(old(io)@, final(io)@),
        medium::changes(final(io)@, place) == medium::changes(old(io)@, place) + 1,
        r is Err ==> medium::troubled(old(io)@, final(io)@),
        r matches Ok(names) ==> was_planned(place, names@, old(io)@, final(io)@),
        r matches Err(e) ==> medium::refused_with(final(io)@.last(), e),
{
    broadcast use {medium::group_trace, medium::lemma_changes_push};

    match io.sweep(place) {
        Ok(()) => {},
        Err(e) => {
            return Err(e);
        },
    }
    match io.list(place) {
        Ok(Some(listing)) => Ok(Inventory::scan_names(&listing)),
        Ok(None) => {
            let names: Vec<SegmentName> = Vec::new();
            proof {
                names@.to_multiset_ensures();
                assert(names@.to_multiset() =~= vstd::multiset::Multiset::empty());
            }
            Ok(names)
        },
        Err(e) => Err(e),
    }
}

/// What a segment is to a run, by how it opened.
#[derive(Debug)]
pub enum Triage {
    /// It vanished underfoot: rotation got there first.
    RotatedAway,
    /// Its header is broken, or it belongs to another store. No version of the
    /// schema would have read it, so it does not stand in the way.
    CorruptOrForeign,
    /// It is of the current version, or of a newer one.
    AlreadyCurrent,
    /// It is of an earlier version.
    Old(SegmentReader),
}

/// Sorts a segment by how it opened. Any other failure to open breaks the run
/// off: carrying on would mean declaring a segment migrated that was not.
pub fn triage(opened: Result<SegmentReader, Error>, store_id: u64, version: ProtocolVersion) -> (r:
    Result<Triage, Error>)
    ensures
        match opened {
            Err(e) => if e.is_missing() {
                r == Ok::<Triage, Error>(Triage::RotatedAway)
            } else if e is Corrupt {
                r == Ok::<Triage, Error>(Triage::CorruptOrForeign)
            } else {
                r == Err::<Triage, Error>(e)
            },
            Ok(reader) => {
                let h = reader@.header;
                if h.store_id != store_id {
                    r == Ok::<Triage, Error>(Triage::CorruptOrForeign)
                } else if h.protocol_version.0 >= version.0 {
                    r == Ok::<Triage, Error>(Triage::AlreadyCurrent)
                } else {
                    r == Ok::<Triage, Error>(Triage::Old(reader))
                }
            },
        },
{
    match opened {
        Err(e) => {
            if e.is_not_found() {
                return Ok(Triage::RotatedAway);
            }
            match e {
                Error::Corrupt { .. } => Ok(Triage::CorruptOrForeign),
                other => Err(other),
            }
        },
        Ok(reader) => {
            let header = reader.header();
            if header.store_id != store_id {
                Ok(Triage::CorruptOrForeign)
            } else if header.protocol_version.0 >= version.0 {
                Ok(Triage::AlreadyCurrent)
            } else {
                Ok(Triage::Old(reader))
            }
        },
    }
}

/// What a run made of a segment, before the commit.
#[derive(Debug, Clone, Copy, PartialEq, Eq, Structural)]
pub enum Prepared {
    RotatedAway,
    CorruptOrForeign,
    AlreadyCurrent,
    /// No step touches it, by its footer. Its header keeps the earlier version:
    /// the current decoders read it, precisely because none of the affected types
    /// are in it.
    Untouched,
    /// It lies rewritten in the staging area, or nothing of it is left.
    Rewritten(Rewrite),
}

/// What a run brings segments to.
pub struct Target {
    pub schema: Schema,
    pub store_id: u64,
    pub layout: Layout,
}

impl Target {
    /// A segment of this store and of an earlier version.
    pub open spec fn outdates(self, v: ReaderView) -> bool {
        v.header.store_id == self.store_id && v.header.protocol_version.0 < self.schema.version.0
    }

    /// The steps from the version of a segment to the current one.
    pub open spec fn has_chain(self, v: ReaderView, steps: Seq<&'static Migration>) -> bool {
        migrate::is_chain(
            self.schema.migrations@,
            v.header.protocol_version.0,
            self.schema.version.0,
            steps,
        )
    }
}

/// A sealed segment that no step touches, by its footer.
pub open spec fn is_untouched(v: ReaderView, steps: Seq<&'static Migration>) -> bool {
    v.footer matches Some(f) && forall|k: int|
        0 <= k < steps.len() ==> !migrate::needs_rewrite(*(#[trigger] steps[k]), f)
}

/// What a run made of a segment, and why.
pub open spec fn was_prepared(
    target: Target,
    file: SegmentFile,
    p: Prepared,
    t0: Seq<Op>,
    t1: Seq<Op>,
    a0: Seq<Asked>,
    a1: Seq<Asked>,
) -> bool {
    &&& !(p is Rewritten) ==> a1 == a0 && medium::quiet(t0, t1)
    &&& match p {
        Prepared::RotatedAway => exists|e: Error| #[trigger]
            medium::refused_with(t1.last(), e) && e.is_missing(),
        Prepared::CorruptOrForeign => {
            ||| exists|e: Error| #[trigger] medium::refused_with(t1.last(), e) && e is Corrupt
            ||| exists|v: ReaderView| #[trigger]
                was_opened(v, file, target.layout, t0, t1) && v.header.store_id != target.store_id
        },
        Prepared::AlreadyCurrent => exists|v: ReaderView| #[trigger]
            was_opened(v, file, target.layout, t0, t1) && v.header.store_id == target.store_id
                && !target.outdates(v),
        Prepared::Untouched => exists|v: ReaderView, steps: Seq<&'static Migration>|
            {
                &&& #[trigger] was_opened(v, file, target.layout, t0, t1)
                &&& target.outdates(v)
                &&& #[trigger] target.has_chain(v, steps)
                &&& is_untouched(v, steps)
            },
        Prepared::Rewritten(rw) => exists|
            v: ReaderView,
            steps: Seq<&'static Migration>,
            story: Story,
            t: Seq<Op>,
        |
            {
                &&& #[trigger] was_opened(v, file, target.layout, t0, t)
                &&& target.outdates(v)
                &&& #[trigger] target.has_chain(v, steps)
                &&& !is_untouched(v, steps)
                &&& #[trigger] story.is_told_by(steps)
                &&& a1 == a0 + joined(story.asked)
                &&& is_rewrite(v, target.schema.version, story, rw, t, t1)
            },
    }
}

/// Why a segment could not be prepared: it did not open, a step is missing from
/// the schema, or it could not be rewritten; then nothing is left in the staging
/// area that can be deleted.
pub open spec fn prepare_failed(
    target: Target,
    file: SegmentFile,
    t0: Seq<Op>,
    t1: Seq<Op>,
    a0: Seq<Asked>,
    a1: Seq<Asked>,
    e: Error,
) -> bool {
    ||| a1 == a0 && medium::refused_with(t1.last(), e) && !e.is_missing() && !(e is Corrupt)
    ||| a1 == a0 && exists|v: ReaderView, hole: ChainError|
        {
            &&& #[trigger] was_opened(v, file, target.layout, t0, t1)
            &&& target.outdates(v)
            &&& #[trigger] migrate::is_first_hole(
                target.schema.migrations@,
                v.header.protocol_version.0,
                target.schema.version.0,
                hole,
            )
            &&& corrupt_because(e, chain_error_text(hole))
        }
    ||| exists|v: ReaderView, steps: Seq<&'static Migration>, t: Seq<Op>, broken: Seq<Op>|
        {
            &&& #[trigger] was_opened(v, file, target.layout, t0, t)
            &&& target.outdates(v)
            &&& #[trigger] target.has_chain(v, steps)
            &&& !is_untouched(v, steps)
            &&& #[trigger] rewrite_failed(v, steps, a1, t, broken, e)
            &&& given_up(broken.push(Op::Close { file: staged(file) }), t1, file)
        }
}

/// The place of a segment in the staging area.
pub open spec fn staged(file: SegmentFile) -> SegmentFile {
    SegmentFile { place: staging_of(file.place), name: file.name }
}

/// What was rewritten of a segment was to be deleted.
pub open spec fn given_up(before: Seq<Op>, after: Seq<Op>, file: SegmentFile) -> bool {
    &&& after == before.push(after.last())
    &&& after.last() matches Op::Unlink { file: gone, .. } && gone == staged(file)
}

/// A run repeated finds nothing to do: a segment of the version it was brought to
/// is not rewritten again.
pub proof fn law_what_was_rewritten_is_current(
    target: Target,
    v: ReaderView,
    again: ReaderView,
)
    requires
        target.outdates(v),
        again.header == (SegmentHeader { protocol_version: target.schema.version, ..v.header }),
    ensures
        !target.outdates(again),
        again.header.name() == v.header.name(),
{
}

/// Prepares one segment: sorts it, and rewrites it if it has to be. A failure
/// leaves the original as it was and nothing in the staging area that the next
/// run would not sweep up.
pub fn prepare_segment<M: Medium, S: Steps>(
    file: SegmentFile,
    schema: &Schema,
    store_id: u64,
    layout: Layout,
    migrator: &mut Migrator<S>,
    io: &mut Io<M>,
) -> (r: Result<Prepared, Error>)
    requires
        layout.block_header > 0,
        !file.place.staging,
    ensures
        medium::changes(final(io)@, file.place) == medium::changes(old(io)@, file.place),
        match r {
            Ok(p) => was_prepared(
                Target { schema: *schema, store_id, layout },
                file,
                p,
                old(io)@,
                final(io)@,
                old(migrator)@,
                final(migrator)@,
            ),
            Err(e) => prepare_failed(
                Target { schema: *schema, store_id, layout },
                file,
                old(io)@,
                final(io)@,
                old(migrator)@,
                final(migrator)@,
                e,
            ),
        },
{
    let ghost target = Target { schema: *schema, store_id, layout };
    let ghost t0 = io@;
    let ghost a0 = migrator@;
    let opened = SegmentReader::open(io, file, layout);
    let ghost t1 = io@;
    proof {
        assert(medium::changes(t1, file.place) == medium::changes(t0, file.place));
        assert(opened is Ok ==> was_opened(opened->Ok_0@, file, target.layout, t0, t1));
        assert(opened is Err ==> medium::refused_with(t1.last(), opened->Err_0));
    }
    let ghost was = opened;
    let mut reader: SegmentReader = match triage(opened, store_id, schema.version) {
        Err(e) => {
            return Err(e);
        },
        Ok(Triage::RotatedAway) => {
            return Ok(Prepared::RotatedAway);
        },
        Ok(Triage::CorruptOrForeign) => {
            assert(was_prepared(target, file, Prepared::CorruptOrForeign, t0, t1, a0, a0)) by {
                if was is Ok {
                    assert(was->Ok_0@.header.store_id != store_id);
                    assert(was_opened(was->Ok_0@, file, target.layout, t0, t1));
                } else {
                    assert(medium::refused_with(t1.last(), was->Err_0));
                }
            }
            return Ok(Prepared::CorruptOrForeign);
        },
        Ok(Triage::AlreadyCurrent) => {
            assert(was_prepared(target, file, Prepared::AlreadyCurrent, t0, t1, a0, a0)) by {
                assert(was is Ok);
                assert(was_opened(was->Ok_0@, file, target.layout, t0, t1));
            }
            return Ok(Prepared::AlreadyCurrent);
        },
        Ok(Triage::Old(r)) => r,
    };
    let ghost v = reader@;
    assert(target.outdates(v));
    let from: u16 = reader.header().protocol_version.0;
    let steps: Vec<&'static Migration> = match migrate::chain(schema, from) {
        Ok(s) => s,
        Err(e) => {
            let path = io.path_of(file);
            return Err(Error::Corrupt { path, reason: e.message() });
        },
    };
    assert(target.has_chain(v, steps@));
    if let Some(footer) = reader.footer() {
        if !migrate::chain_touches(&steps, footer) {
            assert(is_untouched(v, steps@));
            return Ok(Prepared::Untouched);
        }
    }
    assert(!is_untouched(v, steps@));
    match rewrite_segment(&mut reader, schema.version, &steps, migrator, io) {
        Ok(rw) => Ok(Prepared::Rewritten(rw)),
        Err(e) => {
            let ours = SegmentFile { place: Place { staging: true, ..file.place }, name: file.name };
            let ghost t2 = io@;
            io.close(ours);
            let ghost t3 = io@;
            let gone = io.unlink(ours);
            proof {
                medium::lemma_changes_push(t2, Op::Close { file: ours }, file.place);
                medium::lemma_changes_push(
                    t3,
                    Op::Unlink { file: ours, refused: medium::refusal(gone) },
                    file.place,
                );
                assert(ours == staged(file));
            }
            Err(e)
        },
    }
}

/// The outcome of a migration run. Every segment met falls into exactly one
/// column.
#[derive(Debug, Clone, Copy, PartialEq, Eq, Structural)]
#[non_exhaustive]
pub struct MigrationReport {
    /// Rewritten into the current layout.
    pub rewritten: usize,
    /// Skipped by their footer: no step touches them.
    pub skipped_untouched: usize,
    /// Already of the current version, or of a newer one.
    pub already_current: usize,
    /// Deleted whole: the steps removed all of their records.
    pub emptied: usize,
    /// Vanished during the run: rotation got there first.
    pub rotated_away: usize,
    /// Broken headers and foreign stores. They are not touched.
    pub corrupt_or_foreign: usize,
    /// Records that landed in the rewritten segments.
    pub records_rewritten: u64,
    /// Records deleted by the steps.
    pub records_dropped: u64,
}

impl Default for MigrationReport {
    fn default() -> (r: MigrationReport)
        ensures
            r == MigrationReport::zero(),
    {
        MigrationReport {
            rewritten: 0,
            skipped_untouched: 0,
            already_current: 0,
            emptied: 0,
            rotated_away: 0,
            corrupt_or_foreign: 0,
            records_rewritten: 0,
            records_dropped: 0,
        }
    }
}

/// One more, as far as the number can say.
pub open spec fn one_more(n: usize) -> usize {
    if n < usize::MAX {
        (n + 1) as usize
    } else {
        n
    }
}

impl MigrationReport {
    pub open spec fn zero() -> MigrationReport {
        MigrationReport {
            rewritten: 0,
            skipped_untouched: 0,
            already_current: 0,
            emptied: 0,
            rotated_away: 0,
            corrupt_or_foreign: 0,
            records_rewritten: 0,
            records_dropped: 0,
        }
    }

    /// The report with one segment more. What became of a rewritten one is decided
    /// by the commit: where rotation got there first its records were thrown out,
    /// not rewritten.
    pub open spec fn with(self, p: Prepared, committed: bool) -> MigrationReport {
        match p {
            Prepared::RotatedAway => MigrationReport {
                rotated_away: one_more(self.rotated_away),
                ..self
            },
            Prepared::CorruptOrForeign => MigrationReport {
                corrupt_or_foreign: one_more(self.corrupt_or_foreign),
                ..self
            },
            Prepared::AlreadyCurrent => MigrationReport {
                already_current: one_more(self.already_current),
                ..self
            },
            Prepared::Untouched => MigrationReport {
                skipped_untouched: one_more(self.skipped_untouched),
                ..self
            },
            Prepared::Rewritten(rw) => if !committed {
                MigrationReport { rotated_away: one_more(self.rotated_away), ..self }
            } else {
                MigrationReport {
                    emptied: if rw.commit is Remove {
                        one_more(self.emptied)
                    } else {
                        self.emptied
                    },
                    rewritten: if rw.commit is Remove {
                        self.rewritten
                    } else {
                        one_more(self.rewritten)
                    },
                    records_rewritten: stats::plus(
                        self.records_rewritten,
                        rw.records_rewritten as int,
                    ),
                    records_dropped: stats::plus(self.records_dropped, rw.records_dropped as int),
                    ..self
                }
            },
        }
    }

    /// How many segments the report speaks of.
    pub open spec fn segments(self) -> int {
        self.rewritten + self.skipped_untouched + self.already_current + self.emptied
            + self.rotated_away + self.corrupt_or_foreign
    }

    /// Notes what became of a segment.
    pub fn note(&mut self, p: Prepared, committed: bool)
        ensures
            *final(self) == old(self).with(p, committed),
    {
        match p {
            Prepared::RotatedAway => {
                self.rotated_away = self.rotated_away.saturating_add(1);
            },
            Prepared::CorruptOrForeign => {
                self.corrupt_or_foreign = self.corrupt_or_foreign.saturating_add(1);
            },
            Prepared::AlreadyCurrent => {
                self.already_current = self.already_current.saturating_add(1);
            },
            Prepared::Untouched => {
                self.skipped_untouched = self.skipped_untouched.saturating_add(1);
            },
            Prepared::Rewritten(rw) => {
                if !committed {
                    self.rotated_away = self.rotated_away.saturating_add(1);
                    return ;
                }
                match rw.commit {
                    MigrationCommit::Remove => {
                        self.emptied = self.emptied.saturating_add(1);
                    },
                    MigrationCommit::Replace { .. } => {
                        self.rewritten = self.rewritten.saturating_add(1);
                    },
                }
                stats::Counters::add(&mut self.records_rewritten, rw.records_rewritten);
                stats::Counters::add(&mut self.records_dropped, rw.records_dropped);
            },
        }
    }
}

/// Every segment falls into exactly one column of the report.
pub proof fn law_every_segment_has_its_column(
    report: MigrationReport,
    p: Prepared,
    committed: bool,
)
    requires
        report.segments() < usize::MAX,
    ensures
        report.with(p, committed).segments() == report.segments() + 1,
{
}

// ---------------------------------------------------------------------------
// The run
// ---------------------------------------------------------------------------

/// Who commits the result: the writer, which alone knows the inventory.
pub trait Committer {
    /// Swaps a segment for the one in the staging area, or deletes it. `false`
    /// means the segment is gone and there is nothing to commit.
    fn commit(
        &mut self,
        ns: NsId,
        channel: ChannelIdx,
        name: SegmentName,
        commit: MigrationCommit,
    ) -> Result<bool, Error>;
}

/// A commit that was asked for, with the answer.
#[verifier::ext_equal]
pub struct Commit {
    pub file: SegmentFile,
    pub commit: MigrationCommit,
    pub answer: Result<bool, Error>,
}

/// Who commits, together with what was asked of them.
pub struct Commits<C> {
    committer: C,
    log: Ghost<Seq<Commit>>,
}

impl<C> View for Commits<C> {
    type V = Seq<Commit>;

    closed spec fn view(&self) -> Seq<Commit> {
        self.log@
    }
}

impl<C: Committer> Commits<C> {
    pub fn new(committer: C) -> (c: Commits<C>)
        ensures
            c@ == Seq::<Commit>::empty(),
    {
        Commits { committer, log: Ghost(Seq::empty()) }
    }

    /// Asks for a commit.
    pub fn ask(&mut self, file: SegmentFile, commit: MigrationCommit) -> (answer: Result<
        bool,
        Error,
    >)
        ensures
            final(self)@ == old(self)@.push(Commit { file, commit, answer }),
    {
        let answer = self.committer.commit(file.place.ns, file.place.channel, file.name, commit);
        self.log = Ghost(self.log@.push(Commit { file, commit, answer }));
        answer
    }
}

/// How far a run has come: what was asked of the medium, of the steps and of the
/// writer, and the report.
#[verifier::ext_equal]
pub struct Progress {
    pub trace: Seq<Op>,
    pub asked: Seq<Asked>,
    pub commits: Seq<Commit>,
    pub report: MigrationReport,
}

/// A segment got its turn: it was prepared, committed if it was rewritten, and
/// entered in the report. What could not be committed is deleted.
pub open spec fn segment_done(target: Target, file: SegmentFile, a: Progress, b: Progress) -> bool {
    exists|p: Prepared, committed: bool, t: Seq<Op>|
        {
            &&& #[trigger] was_prepared(target, file, p, a.trace, t, a.asked, b.asked)
            &&& b.report == #[trigger] a.report.with(p, committed)
            &&& match p {
                Prepared::Rewritten(rw) => {
                    &&& b.commits == a.commits.push(
                        Commit { file, commit: rw.commit, answer: Ok(committed) },
                    )
                    &&& if committed {
                        b.trace == t
                    } else {
                        given_up(t, b.trace, file)
                    }
                },
                _ => !committed && b.commits == a.commits && b.trace == t,
            }
        }
}

/// A segment broke the run off: it could not be prepared, or not be committed.
pub open spec fn segment_failed(
    target: Target,
    file: SegmentFile,
    a: Progress,
    b: Progress,
    e: Error,
) -> bool {
    &&& b.report == a.report
    &&& {
        ||| b.commits == a.commits && prepare_failed(
            target,
            file,
            a.trace,
            b.trace,
            a.asked,
            b.asked,
            e,
        )
        ||| exists|rw: Rewrite|
            {
                &&& #[trigger] was_prepared(
                    target,
                    file,
                    Prepared::Rewritten(rw),
                    a.trace,
                    b.trace,
                    a.asked,
                    b.asked,
                )
                &&& b.commits == a.commits.push(
                    Commit { file, commit: rw.commit, answer: Err(e) },
                )
            }
    }
}

/// The first segments got their turn, one after another.
pub open spec fn went_through(
    target: Target,
    place: Place,
    names: Seq<SegmentName>,
    states: Seq<Progress>,
) -> bool {
    &&& 1 <= states.len() <= names.len() + 1
    &&& forall|i: int|
        #![trigger states[i]]
        0 <= i < states.len() - 1 ==> segment_done(
            target,
            SegmentFile { place, name: names[i] },
            states[i],
            states[i + 1],
        )
}

/// Every segment got its turn, or one broke the run off.
pub open spec fn segments_run(
    target: Target,
    place: Place,
    names: Seq<SegmentName>,
    a: Progress,
    b: Progress,
    failure: Option<Error>,
) -> bool {
    exists|states: Seq<Progress>|
        {
            &&& #[trigger] went_through(target, place, names, states)
            &&& states[0] == a
            &&& match failure {
                None => states.len() == names.len() + 1 && states.last() == b,
                Some(e) => states.len() <= names.len() && segment_failed(
                    target,
                    SegmentFile { place, name: names[states.len() - 1] },
                    states.last(),
                    b,
                    e,
                ),
            }
        }
}

/// Runs over segments of a channel: each is prepared, and those that were
/// rewritten are committed. The run breaks off at the first failure: carrying on
/// would mean declaring a segment migrated that was not.
pub fn run_segments<M: Medium, S: Steps, C: Committer>(
    place: Place,
    names: &Vec<SegmentName>,
    schema: &Schema,
    store_id: u64,
    layout: Layout,
    migrator: &mut Migrator<S>,
    commits: &mut Commits<C>,
    report: &mut MigrationReport,
    io: &mut Io<M>,
) -> (r: Result<(), Error>)
    requires
        layout.block_header > 0,
        !place.staging,
    ensures
        // The channel's files are not touched: commits are the writer's.
        medium::changes(final(io)@, place) == medium::changes(old(io)@, place),
        segments_run(
            Target { schema: *schema, store_id, layout },
            place,
            names@,
            Progress {
                trace: old(io)@,
                asked: old(migrator)@,
                commits: old(commits)@,
                report: *old(report),
            },
            Progress {
                trace: final(io)@,
                asked: final(migrator)@,
                commits: final(commits)@,
                report: *final(report),
            },
            medium::refusal(r),
        ),
{
    let ghost target = Target { schema: *schema, store_id, layout };
    let ghost start = Progress {
        trace: io@,
        asked: migrator@,
        commits: commits@,
        report: *report,
    };
    let ghost mut states: Seq<Progress> = seq![start];
    let mut k: usize = 0;
    while k < names.len()
        invariant
            k <= names@.len(),
            layout.block_header > 0,
            !place.staging,
            target == (Target { schema: *schema, store_id, layout }),
            start == (Progress {
                trace: old(io)@,
                asked: old(migrator)@,
                commits: old(commits)@,
                report: *old(report),
            }),
            medium::changes(io@, place) == medium::changes(start.trace, place),
            went_through(target, place, names@, states),
            states.len() == k + 1,
            states[0] == start,
            states.last() == (Progress {
                trace: io@,
                asked: migrator@,
                commits: commits@,
                report: *report,
            }),
        decreases names@.len() - k,
    {
        let ghost a = states.last();
        let name: SegmentName = names[k];
        let file = SegmentFile { place, name };
        let prepared: Prepared = match prepare_segment(
            file,
            schema,
            store_id,
            layout,
            migrator,
            io,
        ) {
            Ok(p) => p,
            Err(e) => {
                proof {
                    let b = Progress {
                        trace: io@,
                        asked: migrator@,
                        commits: commits@,
                        report: *report,
                    };
                    assert(segment_failed(target, file, a, b, e));
                    assert(names@[states.len() - 1] == name);
                }
                return Err(e);
            },
        };
        let ghost t = io@;
        assert(was_prepared(target, file, prepared, a.trace, t, a.asked, migrator@));
        let mut committed: bool = false;
        if let Prepared::Rewritten(rw) = prepared {
            assert(was_prepared(
                target,
                file,
                Prepared::Rewritten(rw),
                a.trace,
                t,
                a.asked,
                migrator@,
            ));
            match commits.ask(file, rw.commit) {
                Ok(done) => {
                    committed = done;
                },
                Err(e) => {
                    proof {
                        let b = Progress {
                            trace: io@,
                            asked: migrator@,
                            commits: commits@,
                            report: *report,
                        };
                        assert(b.commits == a.commits.push(
                            Commit { file, commit: rw.commit, answer: Err(e) },
                        ));
                        assert(b.trace == t);
                        assert(was_prepared(
                            target,
                            file,
                            Prepared::Rewritten(rw),
                            a.trace,
                            b.trace,
                            a.asked,
                            b.asked,
                        ));
                        assert(segment_failed(target, file, a, b, e));
                        assert(names@[states.len() - 1] == name);
                    }
                    return Err(e);
                },
            }
            if !committed {
                let ours = SegmentFile { place: Place { staging: true, ..place }, name };
                let gone = io.unlink(ours);
                proof {
                    medium::lemma_changes_push(
                        t,
                        Op::Unlink { file: ours, refused: medium::refusal(gone) },
                        place,
                    );
                    assert(ours == staged(file));
                }
            }
        }
        report.note(prepared, committed);
        proof {
            let b = Progress {
                trace: io@,
                asked: migrator@,
                commits: commits@,
                report: *report,
            };
            assert(b.report == a.report.with(prepared, committed));
            if let Prepared::Rewritten(rw) = prepared {
                assert(b.commits == a.commits.push(
                    Commit { file, commit: rw.commit, answer: Ok(committed) },
                ));
                if !committed {
                    assert(given_up(t, b.trace, file));
                } else {
                    assert(b.trace == t);
                }
            } else {
                assert(b.commits == a.commits && b.trace == t && !committed);
            }
            assert(was_prepared(target, file, prepared, a.trace, t, a.asked, b.asked));
            assert(segment_done(target, file, a, b));
            let longer = states.push(b);
            assert forall|i: int|
                #![trigger longer[i]]
                0 <= i < longer.len() - 1 implies segment_done(
                target,
                SegmentFile { place, name: names@[i] },
                longer[i],
                longer[i + 1],
            ) by {
                if i < states.len() - 1 {
                    assert(longer[i] == states[i] && longer[i + 1] == states[i + 1]);
                } else {
                    assert(longer[i] == a && longer[i + 1] == b);
                }
            }
            states = longer;
        }
        k = k + 1;
    }
    Ok(())
}

/// A run that was not broken off has met every segment, and each is in the report
/// once.
pub proof fn law_a_run_meets_every_segment(
    target: Target,
    place: Place,
    names: Seq<SegmentName>,
    a: Progress,
    b: Progress,
)
    requires
        segments_run(target, place, names, a, b, None),
        a.report.segments() + names.len() <= usize::MAX,
    ensures
        b.report.segments() == a.report.segments() + names.len(),
{
    let states = choose|states: Seq<Progress>|
        {
            &&& #[trigger] went_through(target, place, names, states)
            &&& states[0] == a
            &&& states.len() == names.len() + 1
            &&& states.last() == b
        };
    lemma_met(target, place, names, states, names.len() as int);
}

proof fn lemma_met(
    target: Target,
    place: Place,
    names: Seq<SegmentName>,
    states: Seq<Progress>,
    n: int,
)
    requires
        went_through(target, place, names, states),
        0 <= n < states.len(),
        states[0].report.segments() + n <= usize::MAX,
    ensures
        states[n].report.segments() == states[0].report.segments() + n,
    decreases n,
{
    if n > 0 {
        lemma_met(target, place, names, states, n - 1);
        let x = states[n - 1];
        let y = states[n];
        assert(segment_done(target, SegmentFile { place, name: names[n - 1] }, x, y));
        let (p, committed) = choose|p: Prepared, committed: bool|
            y.report == #[trigger] x.report.with(p, committed);
        law_every_segment_has_its_column(x.report, p, committed);
    }
}

/// A channel was run over: what an earlier run left behind was swept up, and every
/// segment in the directory got its turn, oldest first.
pub open spec fn channel_run(
    target: Target,
    place: Place,
    a: Progress,
    b: Progress,
    failure: Option<Error>,
) -> bool {
    ||| {
        &&& failure matches Some(e) && medium::refused_with(b.trace.last(), e)
        &&& medium::troubled(a.trace, b.trace)
        &&& b == (Progress { trace: b.trace, ..a })
    }
    ||| exists|names: Seq<SegmentName>, t: Seq<Op>| #[trigger]
        was_planned(place, names, a.trace, t) && #[trigger] segments_run(
            target,
            place,
            names,
            Progress { trace: t, ..a },
            b,
            failure,
        )
}

/// Runs over one channel: what an earlier run left behind is swept up, then every
/// segment in the directory gets its turn, oldest first.
pub fn run_channel<M: Medium, S: Steps, C: Committer>(
    place: Place,
    schema: &Schema,
    store_id: u64,
    layout: Layout,
    migrator: &mut Migrator<S>,
    commits: &mut Commits<C>,
    report: &mut MigrationReport,
    io: &mut Io<M>,
) -> (r: Result<(), Error>)
    requires
        layout.block_header > 0,
        !place.staging,
    ensures
        // Nothing but the sweep touches the channel's files.
        medium::changes(final(io)@, place) == medium::changes(old(io)@, place) + 1,
        channel_run(
            Target { schema: *schema, store_id, layout },
            place,
            Progress {
                trace: old(io)@,
                asked: old(migrator)@,
                commits: old(commits)@,
                report: *old(report),
            },
            Progress {
                trace: final(io)@,
                asked: final(migrator)@,
                commits: final(commits)@,
                report: *final(report),
            },
            medium::refusal(r),
        ),
{
    let ghost t0 = io@;
    let planned = plan_channel(place, io);
    let ghost t = io@;
    match planned {
        Ok(names) => {
            let ghost a = Progress {
                trace: t0,
                asked: migrator@,
                commits: commits@,
                report: *report,
            };
            let r = run_segments(
                place,
                &names,
                schema,
                store_id,
                layout,
                migrator,
                commits,
                report,
                io,
            );
            proof {
                let target = Target { schema: *schema, store_id, layout };
                let b = Progress {
                    trace: io@,
                    asked: migrator@,
                    commits: commits@,
                    report: *report,
                };
                assert(was_planned(place, names@, a.trace, t));
                assert(segments_run(target, place, names@, Progress { trace: t, ..a }, b, medium::refusal(r)));
                assert(channel_run(target, place, a, b, medium::refusal(r)));
            }
            r
        },
        Err(e) => Err(e),
    }
}

/// The first channels of a namespace were run over, one after another.
pub open spec fn ran_over(target: Target, ns: NsId, states: Seq<Progress>) -> bool {
    &&& states.len() >= 1
    &&& forall|i: int|
        #![trigger states[i]]
        0 <= i < states.len() - 1 ==> channel_run(
            target,
            Place { ns, channel: ChannelIdx(i as u16), staging: false },
            states[i],
            states[i + 1],
            None,
        )
}

/// Every channel of a namespace was run over, or one broke the run off.
pub open spec fn namespace_run(
    target: Target,
    ns: NsId,
    channels: u16,
    a: Progress,
    b: Progress,
    r: Result<MigrationReport, Error>,
) -> bool {
    exists|states: Seq<Progress>|
        {
            &&& #[trigger] ran_over(target, ns, states)
            &&& states[0] == a
            &&& states.len() <= channels + 1
            &&& match r {
                Ok(report) => states.len() == channels + 1 && states.last() == b && report
                    == b.report,
                Err(e) => states.len() <= channels && channel_run(
                    target,
                    Place { ns, channel: ChannelIdx((states.len() - 1) as u16), staging: false },
                    states.last(),
                    b,
                    Some(e),
                ),
            }
        }
}

/// Runs over the channels of a namespace, in their order.
pub fn run_namespace<M: Medium, S: Steps, C: Committer>(
    ns: NsId,
    channels: u16,
    schema: &Schema,
    store_id: u64,
    layout: Layout,
    migrator: &mut Migrator<S>,
    commits: &mut Commits<C>,
    io: &mut Io<M>,
) -> (r: Result<MigrationReport, Error>)
    requires
        layout.block_header > 0,
    ensures
        exists|report: MigrationReport| #[trigger]
            namespace_run(
                Target { schema: *schema, store_id, layout },
                ns,
                channels,
                Progress {
                    trace: old(io)@,
                    asked: old(migrator)@,
                    commits: old(commits)@,
                    report: MigrationReport::zero(),
                },
                Progress {
                    trace: final(io)@,
                    asked: final(migrator)@,
                    commits: final(commits)@,
                    report,
                },
                r,
            ),
{
    let ghost target = Target { schema: *schema, store_id, layout };
    let mut report: MigrationReport = MigrationReport::default();
    let ghost start = Progress { trace: io@, asked: migrator@, commits: commits@, report };
    let ghost mut states: Seq<Progress> = seq![start];
    let mut i: u16 = 0;
    while i < channels
        invariant
            i <= channels,
            layout.block_header > 0,
            target == (Target { schema: *schema, store_id, layout }),
            start == (Progress {
                trace: old(io)@,
                asked: old(migrator)@,
                commits: old(commits)@,
                report: MigrationReport::zero(),
            }),
            ran_over(target, ns, states),
            states.len() == i + 1,
            states[0] == start,
            states.last() == (Progress {
                trace: io@,
                asked: migrator@,
                commits: commits@,
                report,
            }),
        decreases channels - i,
    {
        let ghost a = states.last();
        let place = Place { ns, channel: ChannelIdx(i), staging: false };
        let done = run_channel(
            place,
            schema,
            store_id,
            layout,
            migrator,
            commits,
            &mut report,
            io,
        );
        let ghost b = Progress { trace: io@, asked: migrator@, commits: commits@, report };
        assert(channel_run(target, place, a, b, medium::refusal(done)));
        match done {
            Ok(()) => {},
            Err(e) => {
                proof {
                    assert((states.len() - 1) as u16 == i);
                    assert(namespace_run(target, ns, channels, start, b, Err(e)));
                }
                return Err(e);
            },
        }
        proof {
            let longer = states.push(b);
            assert forall|k: int|
                #![trigger longer[k]]
                0 <= k < longer.len() - 1 implies channel_run(
                target,
                Place { ns, channel: ChannelIdx(k as u16), staging: false },
                longer[k],
                longer[k + 1],
                None,
            ) by {
                if k < states.len() - 1 {
                    assert(longer[k] == states[k] && longer[k + 1] == states[k + 1]);
                } else {
                    assert(longer[k] == a && longer[k + 1] == b);
                    assert(k as u16 == i);
                }
            }
            states = longer;
        }
        i = i + 1;
    }
    proof {
        assert(namespace_run(target, ns, channels, start, states.last(), Ok(report)));
    }
    Ok(report)
}

/// A segment is rewritten only if it is of this store and of an earlier version than the schema, and
/// some step may see a record of it; one that is current, or foreign, or that no step touches is left
/// as it is, and no step is asked.
pub proof fn law_only_outdated_segments_are_rewritten(
    target: Target,
    file: SegmentFile,
    p: Prepared,
    t0: Seq<Op>,
    t1: Seq<Op>,
    a0: Seq<Asked>,
    a1: Seq<Asked>,
)
    requires
        was_prepared(target, file, p, t0, t1, a0, a1),
    ensures
        !(p is Rewritten) ==> a1 == a0 && medium::written(t1) == medium::written(t0),
        p is Rewritten ==> exists|v: ReaderView, t: Seq<Op>|
            {
                &&& #[trigger] was_opened(v, file, target.layout, t0, t)
                &&& v.header.store_id == target.store_id
                &&& v.header.protocol_version.0 < target.schema.version.0
            },
        p is AlreadyCurrent ==> exists|v: ReaderView|
            {
                &&& #[trigger] was_opened(v, file, target.layout, t0, t1)
                &&& v.header.store_id == target.store_id
                &&& v.header.protocol_version.0 >= target.schema.version.0
            },
        p is Untouched ==> exists|v: ReaderView|
            {
                &&& #[trigger] was_opened(v, file, target.layout, t0, t1)
                &&& v.header.protocol_version.0 < target.schema.version.0
                &&& v.footer is Some
            },
{
    match p {
        Prepared::Rewritten(rw) => {
            let (v, steps, story, t) = choose|
                v: ReaderView,
                steps: Seq<&'static Migration>,
                story: Story,
                t: Seq<Op>,
            |
                {
                    &&& #[trigger] was_opened(v, file, target.layout, t0, t)
                    &&& target.outdates(v)
                    &&& #[trigger] target.has_chain(v, steps)
                    &&& !is_untouched(v, steps)
                    &&& #[trigger] story.is_told_by(steps)
                    &&& a1 == a0 + joined(story.asked)
                    &&& is_rewrite(v, target.schema.version, story, rw, t, t1)
                };
            assert(was_opened(v, file, target.layout, t0, t));
        },
        _ => {},
    }
}

/// The report says of each segment what became of it: rewritten or emptied only if the result was
/// committed, and then its records are counted with it; where rotation got there first it counts as
/// rotated away and none of its records do.
pub proof fn law_the_report_says_what_became_of_a_segment(
    report: MigrationReport,
    rw: Rewrite,
    committed: bool,
)
    requires
        report.segments() < usize::MAX,
    ensures
        ({
            let after = report.with(Prepared::Rewritten(rw), committed);
            &&& committed && rw.commit is Remove ==> after.emptied == report.emptied + 1
                && after.rewritten == report.rewritten
            &&& committed && !(rw.commit is Remove) ==> after.rewritten == report.rewritten + 1
                && after.emptied == report.emptied
            &&& committed ==> after.records_rewritten == stats::plus(
                report.records_rewritten,
                rw.records_rewritten as int,
            ) && after.records_dropped == stats::plus(
                report.records_dropped,
                rw.records_dropped as int,
            )
            &&& !committed ==> after.rotated_away == report.rotated_away + 1
                && after.records_rewritten == report.records_rewritten && after.records_dropped
                == report.records_dropped && after.rewritten == report.rewritten && after.emptied
                == report.emptied
        }),
        report.with(Prepared::RotatedAway, committed).rotated_away == report.rotated_away + 1,
        report.with(Prepared::CorruptOrForeign, committed).corrupt_or_foreign
            == report.corrupt_or_foreign + 1,
        report.with(Prepared::AlreadyCurrent, committed).already_current == report.already_current
            + 1,
        report.with(Prepared::Untouched, committed).skipped_untouched == report.skipped_untouched
            + 1,
{
}

/// The segments of a channel are gone through from the oldest to the newest, each one that is listed
/// and no other, after whatever an interrupted migration left behind was swept away.
pub proof fn law_segments_are_gone_through_from_the_oldest(
    place: Place,
    names: Seq<SegmentName>,
    t0: Seq<Op>,
    t1: Seq<Op>,
    i: int,
    j: int,
)
    requires
        was_planned(place, names, t0, t1),
    ensures
        t1.len() == t0.len() + 2,
        t1[t0.len() as int] == (Op::Sweep { place, refused: None }),
        0 <= i < j < names.len() ==> names[i].boot.0 < names[j].boot.0 || (names[i].boot.0
            == names[j].boot.0 && names[i].base.0 <= names[j].base.0),
        (t1.last() matches Op::List { place: p, outcome: Ok(listing) } && {
            &&& p == place
            &&& listing is None ==> names.len() == 0
            &&& (listing matches Some(l) ==> forall|name: SegmentName|
                names.contains(name) == #[trigger] crate::rotation::named_in(l@).contains(name))
        }),
{
    let listing = choose|listing: Option<Vec<medium::Listed>>|
        {
            &&& t1 == #[trigger] t0.push(Op::Sweep { place, refused: None }).push(
                Op::List { place, outcome: Ok(listing) },
            )
            &&& names.to_multiset() == match listing {
                Some(l) => crate::rotation::named_in(l@).to_multiset(),
                None => vstd::multiset::Multiset::empty(),
            }
        };
    assert(t1.last() == (Op::List { place, outcome: Ok(listing) }));
    names.to_multiset_ensures();
    match listing {
        Some(l) => {
            let all = crate::rotation::named_in(l@);
            all.to_multiset_ensures();
            assert forall|name: SegmentName| names.contains(name) == #[trigger] all.contains(
                name,
            ) by {
                assert(names.contains(name) <==> names.to_multiset().count(name) > 0);
                assert(all.contains(name) <==> all.to_multiset().count(name) > 0);
            }
        },
        None => {
            assert(names.to_multiset().len() == 0);
        },
    }
}

} // verus!
