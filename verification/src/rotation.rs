//! A channel's segment inventory and rotation by budget.
//!
//! Rotation deletes the oldest segment once the total size exceeds the budget;
//! nothing is rewritten. What counts is the **allocated** size of the files, not
//! the volume of useful data: the budget has to reflect real occupancy.

use crate::error::Error;
use crate::format::SegmentName;
use crate::medium::{Io, Listed, Medium, Op, Place, SegmentFile};
use crate::medium;
use std::collections::VecDeque;
use vstd::prelude::*;

verus! {

broadcast use crate::medium::group_trace;

/// A segment in the inventory.
#[derive(Debug, Clone, Copy, PartialEq, Eq, Structural)]
pub struct SegmentEntry {
    pub name: SegmentName,
    /// The size on the medium, the reserve window included.
    pub size_bytes: u64,
}

impl SegmentEntry {
    /// The file of the segment in a channel's directory.
    pub fn file(&self, place: Place) -> (f: SegmentFile)
        ensures
            f == (SegmentFile { place, name: self.name }),
    {
        SegmentFile { place, name: self.name }
    }
}

/// The total size of segments.
pub open spec fn total_of(segments: Seq<SegmentEntry>) -> int
    decreases segments.len(),
{
    if segments.len() == 0 {
        0
    } else {
        total_of(segments.drop_last()) + segments.last().size_bytes
    }
}

/// A list of segments in the order of time.
pub open spec fn in_order(segments: Seq<SegmentEntry>) -> bool {
    forall|i: int, j: int|
        0 <= i < j < segments.len() ==> !(#[trigger] segments[j]).name.precedes(
            (#[trigger] segments[i]).name,
        )
}

/// The segments among the entries of a directory.
pub open spec fn segments_in(listing: Seq<Listed>) -> Seq<SegmentEntry>
    decreases listing.len(),
{
    if listing.len() == 0 {
        Seq::empty()
    } else {
        let rest = segments_in(listing.drop_last());
        let last = listing.last();
        match last.name {
            Some(name) => if last.is_file {
                rest.push(SegmentEntry { name, size_bytes: last.size_bytes })
            } else {
                rest
            },
            None => rest,
        }
    }
}

/// How many of the oldest segments have to go: until the total fits the budget,
/// and never past the live one.
pub open spec fn to_evict(
    segments: Seq<SegmentEntry>,
    budget: u64,
    live: Option<SegmentName>,
) -> nat
    decreases segments.len(),
{
    if total_of(segments) <= budget || segments.len() == 0 || Some(segments[0].name) == live {
        0
    } else {
        1 + to_evict(segments.skip(1), budget, live)
    }
}

/// No more have to go than there are.
pub proof fn lemma_to_evict_bound(
    segments: Seq<SegmentEntry>,
    budget: u64,
    live: Option<SegmentName>,
)
    ensures
        to_evict(segments, budget, live) <= segments.len(),
    decreases segments.len(),
{
    if segments.len() > 0 {
        lemma_to_evict_bound(segments.skip(1), budget, live);
    }
}

/// The trace after the first `n` segments were deleted one by one.
pub open spec fn after_unlinks(
    trace: Seq<Op>,
    place: Place,
    segments: Seq<SegmentEntry>,
    n: nat,
) -> Seq<Op>
    decreases n,
{
    if n == 0 {
        trace
    } else {
        after_unlinks(trace, place, segments, (n - 1) as nat).push(
            Op::Unlink {
                file: SegmentFile { place, name: segments[n - 1].name },
                refused: None,
            },
        )
    }
}

/// The oldest segments over the budget were deleted, and the deletions made durable.
pub open spec fn budget_kept(
    before: Seq<SegmentEntry>,
    after: Seq<SegmentEntry>,
    place: Place,
    budget: u64,
    live: Option<SegmentName>,
    t0: Seq<Op>,
    t1: Seq<Op>,
) -> bool {
    let k = to_evict(before, budget, live);
    let unlinked = after_unlinks(t0, place, before, k);
    &&& after == before.skip(k as int)
    &&& t1 == if k > 0 {
        unlinked.push(Op::SyncDir { place, refused: None })
    } else {
        unlinked
    }
}

/// The medium refused to delete one of the oldest segments over the budget, or to make the
/// deletions durable; those before it are gone.
pub open spec fn budget_exceeded(
    before: Seq<SegmentEntry>,
    after: Seq<SegmentEntry>,
    place: Place,
    budget: u64,
    live: Option<SegmentName>,
    t0: Seq<Op>,
    t1: Seq<Op>,
    e: Error,
) -> bool {
    exists|k: nat|
        #![trigger before.skip(k as int)]
        {
            let all = to_evict(before, budget, live);
            let unlinked = after_unlinks(t0, place, before, k);
            &&& k <= all
            &&& after == before.skip(k as int)
            &&& if k < all {
                t1 == unlinked.push(
                    Op::Unlink {
                        file: SegmentFile { place, name: before[k as int].name },
                        refused: Some(e),
                    },
                )
            } else {
                k > 0 && t1 == unlinked.push(Op::SyncDir { place, refused: Some(e) })
            }
        }
}

pub proof fn lemma_total_nonnegative(segments: Seq<SegmentEntry>)
    ensures
        0 <= total_of(segments) <= segments.len() * u64::MAX,
    decreases segments.len(),
{
    if segments.len() > 0 {
        lemma_total_nonnegative(segments.drop_last());
        assert((segments.len() - 1) * u64::MAX + u64::MAX == segments.len() * u64::MAX)
            by (nonlinear_arith);
    }
}

pub proof fn lemma_total_push(segments: Seq<SegmentEntry>, e: SegmentEntry)
    ensures
        total_of(segments.push(e)) == total_of(segments) + e.size_bytes,
{
    assert(segments.push(e).drop_last() =~= segments);
}

pub proof fn lemma_total_remove(segments: Seq<SegmentEntry>, i: int)
    requires
        0 <= i < segments.len(),
    ensures
        total_of(segments.remove(i)) == total_of(segments) - segments[i].size_bytes,
    decreases segments.len(),
{
    let without = segments.remove(i);
    if i == segments.len() - 1 {
        assert(without =~= segments.drop_last());
    } else {
        lemma_total_remove(segments.drop_last(), i);
        assert(without.drop_last() =~= segments.drop_last().remove(i));
        assert(without.last() == segments.last());
    }
}

pub proof fn lemma_total_insert(segments: Seq<SegmentEntry>, i: int, e: SegmentEntry)
    requires
        0 <= i <= segments.len(),
    ensures
        total_of(segments.insert(i, e)) == total_of(segments) + e.size_bytes,
{
    assert(segments.insert(i, e).remove(i) =~= segments);
    lemma_total_remove(segments.insert(i, e), i);
}

proof fn lemma_unlinks_land_nothing(
    trace: Seq<Op>,
    place: Place,
    segments: Seq<SegmentEntry>,
    n: nat,
)
    ensures
        medium::quiet(trace, after_unlinks(trace, place, segments, n)),
        medium::made(after_unlinks(trace, place, segments, n)) == medium::made(trace),
    decreases n,
{
    if n > 0 {
        lemma_unlinks_land_nothing(trace, place, segments, (n - 1) as nat);
        medium::lemma_landed_push(
            after_unlinks(trace, place, segments, (n - 1) as nat),
            Op::Unlink {
                file: SegmentFile { place, name: segments[n - 1].name },
                refused: None,
            },
        );
    }
}

/// A channel's segments.
#[derive(Debug)]
pub struct Inventory {
    /// Oldest first: the order of rotation.
    segments: VecDeque<SegmentEntry>,
    total: u128,
}

impl View for Inventory {
    type V = Seq<SegmentEntry>;

    closed spec fn view(&self) -> Seq<SegmentEntry> {
        self.segments@
    }
}

/// A segment of this name is listed.
pub open spec fn lists(segments: Seq<SegmentEntry>, name: SegmentName) -> bool {
    exists|i: int| 0 <= i < segments.len() && (#[trigger] segments[i]).name == name
}

pub open spec fn is_named(segments: Seq<SegmentEntry>, name: SegmentName) -> spec_fn(int) -> bool {
    |i: int| segments[i].name == name
}

/// The position of the first segment of a name; the length where there is none.
pub open spec fn position_of(segments: Seq<SegmentEntry>, name: SegmentName) -> int {
    crate::search::first_at(is_named(segments, name), 0, segments.len() as int)
}

/// The segments with one of them at another size.
pub open spec fn resized(segments: Seq<SegmentEntry>, name: SegmentName, size_bytes: u64) -> Seq<
    SegmentEntry,
> {
    let i = position_of(segments, name);
    if i < segments.len() {
        segments.update(i, SegmentEntry { name, size_bytes })
    } else {
        segments
    }
}

/// The segments without one of them.
pub open spec fn forgotten(segments: Seq<SegmentEntry>, name: SegmentName) -> Seq<SegmentEntry> {
    let i = position_of(segments, name);
    if i < segments.len() {
        segments.remove(i)
    } else {
        segments
    }
}

/// Without its oldest segment a list is the rest of it.
pub proof fn lemma_oldest_forgotten(segments: Seq<SegmentEntry>)
    requires
        segments.len() > 0,
    ensures
        forgotten(segments, segments[0].name) == segments.skip(1),
{
    assert(is_named(segments, segments[0].name)(0));
    assert(forgotten(segments, segments[0].name) =~= segments.skip(1));
}

impl Inventory {
    /// The total is the sum of the sizes.
    pub closed spec fn wf(&self) -> bool {
        self.total as int == total_of(self.segments@)
    }

    pub fn new() -> (inv: Inventory)
        ensures
            inv.wf(),
            inv@ == Seq::<SegmentEntry>::empty(),
    {
        Inventory { segments: VecDeque::new(), total: 0 }
    }

    /// Puts a segment where it belongs in the order of time.
    fn insert_in_order(&mut self, entry: SegmentEntry)
        requires
            old(self).wf(),
            in_order(old(self)@),
        ensures
            final(self).wf(),
            in_order(final(self)@),
            final(self)@.to_multiset() == old(self)@.to_multiset().insert(entry),
            final(self)@.len() == old(self)@.len() + 1,
    {
        let count: usize = self.segments.len();
        let mut i: usize = count;
        while i > 0 && entry.name.is_before(self.segments[i - 1].name)
            invariant
                i <= self.segments@.len() == count,
                self.segments@ == old(self).segments@,
                self.total == old(self).total,
                forall|k: int|
                    i <= k < self.segments@.len() ==> entry.name.precedes(
                        (#[trigger] self.segments@[k]).name,
                    ),
            decreases i,
        {
            i = i - 1;
        }
        proof {
            lemma_total_insert(self.segments@, i as int, entry);
            lemma_total_nonnegative(self.segments@.insert(i as int, entry));
            assert(self.segments@.insert(i as int, entry).len() * u64::MAX <= u128::MAX)
                by (nonlinear_arith)
                requires
                    self.segments@.insert(i as int, entry).len() <= u64::MAX + 1,
            ;
            old(self)@.to_multiset_ensures();
            assert(self.segments@.insert(i as int, entry).to_multiset()
                =~= self.segments@.to_multiset().insert(entry)) by {
                self.segments@.insert(i as int, entry).to_multiset_ensures();
                let grown = self.segments@.insert(i as int, entry);
                assert(grown.remove(i as int) =~= self.segments@);
                assert(self.segments@.to_multiset() =~= grown.to_multiset().remove(entry));
                assert(grown[i as int] == entry);
                assert(grown.contains(entry));
            }
        }
        self.segments.insert(i, entry);
        self.total = self.total + entry.size_bytes as u128;
    }

    /// The segments among the entries of a channel's directory; `None` stands for
    /// a directory that is not there.
    ///
    /// Foreign files are ignored: a directory may contain anything. A name that
    /// is not an ordinary file must not fall under rotation either.
    pub fn scan(listing: Option<&Vec<Listed>>) -> (inv: Inventory)
        ensures
            inv.wf(),
            in_order(inv@),
            inv@.to_multiset() == match listing {
                Some(l) => segments_in(l@).to_multiset(),
                None => vstd::multiset::Multiset::empty(),
            },
            inv@.len() == match listing {
                Some(l) => segments_in(l@).len(),
                None => 0,
            },
    {
        let mut inv = Inventory::new();
        proof {
            Seq::<SegmentEntry>::empty().to_multiset_ensures();
            assert(inv@.to_multiset() =~= vstd::multiset::Multiset::empty());
        }
        if let Some(list) = listing {
            let mut i: usize = 0;
            assert(list@.take(0) =~= Seq::<Listed>::empty());
            while i < list.len()
                invariant
                    i <= list@.len(),
                    inv.wf(),
                    in_order(inv@),
                    inv@.to_multiset() == segments_in(list@.take(i as int)).to_multiset(),
                    inv@.len() == segments_in(list@.take(i as int)).len(),
                    inv@.len() <= i,
                decreases list@.len() - i,
            {
                let item: Listed = list[i];
                proof {
                    assert(list@.take(i + 1).drop_last() =~= list@.take(i as int));
                    segments_in(list@.take(i as int)).to_multiset_ensures();
                }
                match item.name {
                    Some(name) => {
                        if item.is_file {
                            inv.insert_in_order(
                                SegmentEntry { name, size_bytes: item.size_bytes },
                            );
                        }
                    },
                    None => {},
                }
                i = i + 1;
            }
            assert(list@.take(list@.len() as int) =~= list@);
        }
        inv
    }

    /// The segment names alone, in the order of time.
    pub fn scan_names(listing: &Vec<Listed>) -> (names: Vec<SegmentName>)
        ensures
            names@.len() == named_in(listing@).len(),
            names@.to_multiset() == named_in(listing@).to_multiset(),
            forall|i: int, j: int|
                0 <= i < j < names@.len() ==> !(#[trigger] names@[j]).precedes(
                    #[trigger] names@[i],
                ),
    {
        let mut names: Vec<SegmentName> = Vec::new();
        let mut i: usize = 0;
        assert(listing@.take(0) =~= Seq::<Listed>::empty());
        while i < listing.len()
            invariant
                i <= listing@.len(),
                names@.len() <= i,
                names@.len() == named_in(listing@.take(i as int)).len(),
                names@.to_multiset() == named_in(listing@.take(i as int)).to_multiset(),
                forall|a: int, b: int|
                    0 <= a < b < names@.len() ==> !(#[trigger] names@[b]).precedes(
                        #[trigger] names@[a],
                    ),
            decreases listing@.len() - i,
        {
            assert(listing@.take(i + 1).drop_last() =~= listing@.take(i as int));
            proof {
                named_in(listing@.take(i as int)).to_multiset_ensures();
            }
            if let Some(name) = listing[i].name {
                let mut k: usize = names.len();
                while k > 0 && name.is_before(names[k - 1])
                    invariant
                        k <= names@.len(),
                        forall|m: int| k <= m < names@.len() ==> name.precedes(#[trigger] names@[m]),
                    decreases k,
                {
                    k = k - 1;
                }
                proof {
                    let grown = names@.insert(k as int, name);
                    grown.to_multiset_ensures();
                    names@.to_multiset_ensures();
                    assert(grown.remove(k as int) =~= names@);
                    assert(grown[k as int] == name);
                    assert(grown.contains(name));
                    assert(grown.to_multiset() =~= names@.to_multiset().insert(name));
                }
                names.insert(k, name);
            }
            i = i + 1;
        }
        assert(listing@.take(listing@.len() as int) =~= listing@);
        names
    }

    pub fn is_empty(&self) -> (yes: bool)
        ensures
            yes == (self@.len() == 0),
    {
        self.segments.len() == 0
    }

    pub fn len(&self) -> (n: usize)
        ensures
            n == self@.len(),
    {
        self.segments.len()
    }

    /// The total size of the segments.
    pub fn total_bytes(&self) -> (n: u128)
        requires
            self.wf(),
        ensures
            n as int == total_of(self@),
    {
        self.total
    }

    /// The segment at a position, oldest first.
    pub fn get(&self, i: usize) -> (e: Option<SegmentEntry>)
        ensures
            e == if (i as int) < self@.len() {
                Some(self@[i as int])
            } else {
                None
            },
    {
        if i < self.segments.len() {
            Some(self.segments[i])
        } else {
            None
        }
    }

    pub open spec fn front(segments: Seq<SegmentEntry>) -> Option<SegmentEntry> {
        if segments.len() > 0 {
            Some(segments[0])
        } else {
            None
        }
    }

    pub fn oldest(&self) -> (e: Option<SegmentEntry>)
        ensures
            e == Self::front(self@),
    {
        self.get(0)
    }

    pub fn newest(&self) -> (e: Option<SegmentEntry>)
        ensures
            e == if self@.len() > 0 {
                Some(self@.last())
            } else {
                None
            },
    {
        let n: usize = self.segments.len();
        if n > 0 {
            Some(self.segments[n - 1])
        } else {
            None
        }
    }

    /// Whether a segment of this name is listed.
    pub fn contains(&self, name: SegmentName) -> (yes: bool)
        ensures
            yes == lists(self@, name),
    {
        let mut i: usize = 0;
        while i < self.segments.len()
            invariant
                i <= self.segments@.len(),
                forall|k: int| 0 <= k < i ==> (#[trigger] self.segments@[k]).name != name,
            decreases self.segments@.len() - i,
        {
            if self.segments[i].name == name {
                assert(self@[i as int].name == name);
                return true;
            }
            i = i + 1;
        }
        false
    }

    fn position(&self, name: SegmentName) -> (i: usize)
        ensures
            i == position_of(self@, name),
            i <= self@.len(),
    {
        let ghost p = is_named(self@, name);
        let n: usize = self.segments.len();
        let mut i: usize = 0;
        while i < n
            invariant
                i <= n == self.segments@.len(),
                p == is_named(self@, name),
                crate::search::first_at(p, 0, n as int) == crate::search::first_at(
                    p,
                    i as int,
                    n as int,
                ),
            decreases n - i,
        {
            if self.segments[i].name == name {
                assert(p(i as int));
                return i;
            }
            assert(!p(i as int));
            i = i + 1;
        }
        n
    }

    /// Adds a segment that was just created: it is the newest.
    pub fn push_newest(&mut self, entry: SegmentEntry)
        requires
            old(self).wf(),
        ensures
            final(self).wf(),
            final(self)@ == old(self)@.push(entry),
    {
        let count: usize = self.segments.len();
        proof {
            lemma_total_push(self.segments@, entry);
            lemma_total_nonnegative(self.segments@.push(entry));
            assert(self.segments@.push(entry).len() * u64::MAX <= u128::MAX) by (nonlinear_arith)
                requires
                    self.segments@.push(entry).len() <= u64::MAX + 1,
            ;
        }
        self.total = self.total + entry.size_bytes as u128;
        self.segments.push_back(entry);
    }

    /// Corrects a segment's size: sealing cuts the file down, and a reserve
    /// window that is extended takes more.
    pub fn update_size_bytes(&mut self, name: SegmentName, size_bytes: u64)
        requires
            old(self).wf(),
        ensures
            final(self).wf(),
            final(self)@ == resized(old(self)@, name, size_bytes),
    {
        let i: usize = self.position(name);
        let n: usize = self.segments.len();
        if i < n {
            let entry = SegmentEntry { name, size_bytes };
            let size: u64 = self.segments[i].size_bytes;
            proof {
                let p = is_named(self@, name);
                crate::search::lemma_first_at(p, 0, self@.len() as int);
                lemma_total_remove(self.segments@, i as int);
                lemma_total_nonnegative(self.segments@.remove(i as int));
                lemma_total_insert(self.segments@.remove(i as int), i as int, entry);
                lemma_total_nonnegative(self.segments@.remove(i as int).insert(i as int, entry));
                assert(self.segments@.len() * u64::MAX <= u128::MAX) by (nonlinear_arith)
                    requires
                        self.segments@.len() <= u64::MAX,
                ;
                assert(self.segments@.remove(i as int).insert(i as int, entry)
                    =~= self.segments@.update(i as int, entry));
            }
            let _ = self.segments.remove(i);
            self.segments.insert(i, entry);
            self.total = self.total - size as u128 + size_bytes as u128;
        }
    }

    /// Forgets a segment.
    pub fn remove(&mut self, name: SegmentName)
        requires
            old(self).wf(),
        ensures
            final(self).wf(),
            final(self)@ == forgotten(old(self)@, name),
    {
        let i: usize = self.position(name);
        if i < self.segments.len() {
            let size: u64 = self.segments[i].size_bytes;
            proof {
                lemma_total_remove(self.segments@, i as int);
                lemma_total_nonnegative(self.segments@.remove(i as int));
            }
            let _ = self.segments.remove(i);
            self.total = self.total - size as u128;
        }
    }

    /// The smallest run number among the segments in order: the boundary for
    /// cleaning up epoch entries.
    pub fn min_boot(&self) -> (boot: Option<u32>)
        ensures
            boot == match Self::front(self@) {
                Some(e) => Some(e.name.boot.0),
                None => None,
            },
    {
        match self.oldest() {
            Some(e) => Some(e.name.boot.0),
            None => None,
        }
    }

    /// Deletes the oldest segments while the total exceeds the budget.
    ///
    /// `live` is the segment the channel writes to or will go on writing to: it
    /// must not be deleted. The answer is the number deleted.
    pub fn enforce_budget<M: Medium>(
        &mut self,
        place: Place,
        budget: u64,
        live: Option<SegmentName>,
        io: &mut Io<M>,
    ) -> (r: Result<usize, Error>)
        requires
            old(self).wf(),
        ensures
            final(self).wf(),
            medium::quiet(old(io)@, final(io)@),
            medium::made(final(io)@) == medium::made(old(io)@),
            r is Err ==> medium::troubled(old(io)@, final(io)@),
            r matches Err(e) ==> medium::answered(old(io)@, final(io)@, e),
            match r {
                Ok(n) => {
                    &&& n == to_evict(old(self)@, budget, live)
                    &&& budget_kept(
                        old(self)@,
                        final(self)@,
                        place,
                        budget,
                        live,
                        old(io)@,
                        final(io)@,
                    )
                },
                Err(e) => budget_exceeded(
                    old(self)@,
                    final(self)@,
                    place,
                    budget,
                    live,
                    old(io)@,
                    final(io)@,
                    e,
                ),
            },
    {
        broadcast use {medium::group_trace, medium::group_answered};

        let ghost segments = self@;
        let ghost trace = io@;
        let count: usize = self.segments.len();
        let mut removed: usize = 0;
        assert(segments.skip(0) =~= segments);
        while self.total > budget as u128 && self.segments.len() > 0 && Some(self.segments[0].name)
            != live
            invariant
                self.wf(),
                segments == old(self)@,
                trace == old(io)@,
                removed <= segments.len() == count,
                self@ == segments.skip(removed as int),
                removed + to_evict(self@, budget, live) == to_evict(segments, budget, live),
                io@ == after_unlinks(trace, place, segments, removed as nat),
            decreases self.segments@.len(),
        {
            let front: SegmentEntry = self.segments[0];
            proof {
                lemma_unlinks_land_nothing(trace, place, segments, removed as nat);
                assert(self@[0] == segments[removed as int]);
                assert(self@.skip(1) =~= segments.skip(removed + 1));
                assert(self@.remove(0) =~= self@.skip(1));
                lemma_total_remove(self@, 0);
                lemma_total_nonnegative(self@.skip(1));
            }
            broadcast use {medium::group_trace, medium::group_answered};

            let ghost before = io@;
            let gone = io.unlink(front.file(place));
            proof {
                medium::lemma_landed_push(
                    before,
                    Op::Unlink { file: SegmentFile { place, name: front.name }, refused: medium::refusal(gone) },
                );
            }
            match gone {
                Ok(()) => {},
                Err(e) => {
                    assert(self@ == segments.skip(removed as nat as int));
                    return Err(e);
                },
            }
            let _ = self.segments.pop_front();
            self.total = self.total - front.size_bytes as u128;
            assert(self@ =~= segments.skip(removed + 1));
            removed = removed + 1;
        }
        proof {
            lemma_unlinks_land_nothing(trace, place, segments, removed as nat);
            assert(to_evict(self@, budget, live) == 0);
        }
        if removed > 0 {
            let synced = io.sync_dir(place);
            match synced {
                Ok(()) => {},
                Err(e) => {
                    assert(self@ == segments.skip(removed as nat as int));
                    return Err(e);
                },
            }
        }
        assert(removed as nat == to_evict(segments, budget, live));
        Ok(removed)
    }
}

/// The segment names among the entries of a directory.
pub open spec fn named_in(listing: Seq<Listed>) -> Seq<SegmentName>
    decreases listing.len(),
{
    if listing.len() == 0 {
        Seq::empty()
    } else {
        match listing.last().name {
            Some(name) => named_in(listing.drop_last()).push(name),
            None => named_in(listing.drop_last()),
        }
    }
}

/// Rotation deletes the oldest segments, only as many as it has to, and never the
/// live one; afterwards the rest fits the budget unless only what must stay is
/// left.
pub proof fn law_rotation_keeps_the_budget(
    segments: Seq<SegmentEntry>,
    budget: u64,
    live: Option<SegmentName>,
)
    ensures
        ({
            let k = to_evict(segments, budget, live) as int;
            let rest = segments.skip(k);
            &&& k <= segments.len()
            &&& forall|i: int|
                0 <= i < k ==> Some((#[trigger] segments[i]).name) != live && total_of(
                    segments.skip(i),
                ) > budget
            &&& total_of(rest) <= budget || rest.len() == 0 || Some(rest[0].name) == live
        }),
    decreases segments.len(),
{
    if total_of(segments) <= budget || segments.len() == 0 || Some(segments[0].name) == live {
        assert(segments.skip(0) =~= segments);
    } else {
        let tail = segments.skip(1);
        law_rotation_keeps_the_budget(tail, budget, live);
        let k = to_evict(tail, budget, live) as int;
        assert(segments.skip(k + 1) =~= tail.skip(k));
        assert(segments.skip(0) =~= segments);
        assert forall|i: int| 0 <= i < k + 1 implies Some((#[trigger] segments[i]).name) != live
            && total_of(segments.skip(i)) > budget by {
            if i > 0 {
                assert(tail[i - 1] == segments[i]);
                assert(tail.skip(i - 1) =~= segments.skip(i));
            }
        }
    }
}

/// A store within its budget loses nothing to rotation.
pub proof fn law_within_the_budget_nothing_goes(
    segments: Seq<SegmentEntry>,
    budget: u64,
    live: Option<SegmentName>,
)
    requires
        total_of(segments) <= budget,
    ensures
        to_evict(segments, budget, live) == 0,
{
}

/// A segment whose size is corrected keeps its place and its name, and the others stay as they are;
/// the total moves by what the size moved by.
pub proof fn law_a_size_is_corrected_in_its_place(
    segments: Seq<SegmentEntry>,
    name: SegmentName,
    size_bytes: u64,
    i: int,
)
    requires
        0 <= i < segments.len(),
        segments[i].name == name,
        forall|k: int| 0 <= k < i ==> (#[trigger] segments[k]).name != name,
    ensures
        resized(segments, name, size_bytes).len() == segments.len(),
        resized(segments, name, size_bytes)[i] == (SegmentEntry { name, size_bytes }),
        forall|k: int|
            0 <= k < segments.len() && k != i ==> #[trigger] resized(segments, name, size_bytes)[k]
                == segments[k],
        total_of(resized(segments, name, size_bytes)) == total_of(segments) - segments[i].size_bytes
            + size_bytes,
{
    let p = is_named(segments, name);
    assert forall|k: int| 0 <= k < i implies !#[trigger] p(k) by {
        assert(segments[k].name != name);
    }
    crate::search::lemma_first_is(p, 0, segments.len() as int, i);
    let entry = SegmentEntry { name, size_bytes };
    lemma_total_remove(segments, i);
    lemma_total_insert(segments.remove(i), i, entry);
    assert(segments.remove(i).insert(i, entry) =~= segments.update(i, entry));
}

/// A segment that is forgotten is gone, the others keep their order, and the total is less by its
/// size; forgetting what is not there changes nothing.
pub proof fn law_a_forgotten_segment_is_gone(
    segments: Seq<SegmentEntry>,
    name: SegmentName,
    i: int,
)
    ensures
        0 <= i < segments.len() && segments[i].name == name && (forall|k: int|
            0 <= k < i ==> (#[trigger] segments[k]).name != name) ==> {
            &&& forgotten(segments, name) == segments.take(i) + segments.skip(i + 1)
            &&& total_of(forgotten(segments, name)) == total_of(segments) - segments[i].size_bytes
        },
        (forall|k: int| 0 <= k < segments.len() ==> (#[trigger] segments[k]).name != name)
            ==> forgotten(segments, name) == segments,
{
    let p = is_named(segments, name);
    let n = segments.len() as int;
    if 0 <= i < n && segments[i].name == name && (forall|k: int|
        0 <= k < i ==> (#[trigger] segments[k]).name != name) {
        assert forall|k: int| 0 <= k < i implies !#[trigger] p(k) by {
            assert(segments[k].name != name);
        }
        crate::search::lemma_first_is(p, 0, n, i);
        lemma_total_remove(segments, i);
        assert(segments.remove(i) =~= segments.take(i) + segments.skip(i + 1));
    }
    if forall|k: int| 0 <= k < n ==> (#[trigger] segments[k]).name != name {
        assert forall|k: int| 0 <= k < n implies !#[trigger] p(k) by {
            assert(segments[k].name != name);
        }
        crate::search::lemma_first_is(p, 0, n, n);
    }
}

/// Rotation leaves a channel with the newest of its segments: those that went were its oldest, each
/// was deleted while the rest did not fit the budget, the live one is still there, and what is left
/// fits the budget unless the live segment is the oldest left. The deletions are made durable.
pub proof fn law_rotation_deletes_the_oldest_and_no_more(
    before: Seq<SegmentEntry>,
    after: Seq<SegmentEntry>,
    place: Place,
    budget: u64,
    live: Option<SegmentName>,
    t0: Seq<Op>,
    t1: Seq<Op>,
)
    requires
        budget_kept(before, after, place, budget, live, t0, t1),
    ensures
        after.len() <= before.len(),
        after == before.skip(before.len() - after.len()),
        total_of(after) <= budget || after.len() == 0 || Some(after[0].name) == live,
        forall|i: int|
            0 <= i < before.len() - after.len() ==> Some((#[trigger] before[i]).name) != live
                && total_of(before.skip(i)) > budget,
        t1.len() == t0.len() + (before.len() - after.len()) + if after.len() < before.len() {
            1int
        } else {
            0
        },
        after.len() < before.len() ==> t1.last() == (Op::SyncDir { place, refused: None }),
{
    law_rotation_keeps_the_budget(before, budget, live);
    let k = to_evict(before, budget, live);
    lemma_unlinks_count(t0, place, before, k);
}

proof fn lemma_unlinks_count(trace: Seq<Op>, place: Place, segments: Seq<SegmentEntry>, n: nat)
    ensures
        after_unlinks(trace, place, segments, n).len() == trace.len() + n,
    decreases n,
{
    if n > 0 {
        lemma_unlinks_count(trace, place, segments, (n - 1) as nat);
    }
}

/// The segments of a directory are its files with the name of a segment, each with its size, and
/// nothing else.
pub proof fn law_a_directory_lists_its_segments(listing: Seq<Listed>, e: SegmentEntry)
    ensures
        segments_in(listing).contains(e) <==> exists|k: int|
            {
                &&& 0 <= k < listing.len()
                &&& (#[trigger] listing[k]).is_file
                &&& listing[k].name == Some(e.name)
                &&& listing[k].size_bytes == e.size_bytes
            },
    decreases listing.len(),
{
    if listing.len() > 0 {
        let rest = listing.drop_last();
        let last = listing.len() - 1;
        law_a_directory_lists_its_segments(rest, e);
        let found = segments_in(rest);
        assert(forall|k: int| 0 <= k < rest.len() ==> rest[k] == #[trigger] listing[k]);
        if found.contains(e) {
            let k = choose|k: int|
                {
                    &&& 0 <= k < rest.len()
                    &&& (#[trigger] rest[k]).is_file
                    &&& rest[k].name == Some(e.name)
                    &&& rest[k].size_bytes == e.size_bytes
                };
            assert(listing[k] == rest[k]);
            let i = found.index_of(e);
            assert(segments_in(listing)[i] == e);
        }
        if segments_in(listing).contains(e) && !found.contains(e) {
            let i = segments_in(listing).index_of(e);
            if i < found.len() {
                assert(found[i] == e);
            }
            assert(listing[last].is_file);
        }
        if listing[last].is_file && listing[last].name == Some(e.name) && listing[last].size_bytes
            == e.size_bytes {
            assert(segments_in(listing)[found.len() as int] == e);
        }
    } else {
        assert(!segments_in(listing).contains(e));
    }
}

/// The total is the sum of the sizes: nothing without segments, and each adds its own.
pub proof fn law_the_total_is_the_sum_of_the_sizes(segments: Seq<SegmentEntry>, e: SegmentEntry)
    ensures
        total_of(Seq::empty()) == 0,
        total_of(segments.push(e)) == total_of(segments) + e.size_bytes,
{
    lemma_total_push(segments, e);
}

/// The names of a listing are those of its entries that have one; a name is listed in an inventory if
/// and only if an entry bears it.
pub proof fn law_names_come_from_the_listing(
    listing: Seq<Listed>,
    name: SegmentName,
    segments: Seq<SegmentEntry>,
    i: int,
)
    ensures
        named_in(listing).contains(name) <==> exists|k: int|
            0 <= k < listing.len() && (#[trigger] listing[k]).name == Some(name),
        named_in(listing).len() <= listing.len(),
        0 <= i < segments.len() ==> lists(segments, segments[i].name),
        !lists(segments, name) && 0 <= i < segments.len() ==> segments[i].name != name,
    decreases listing.len(),
{
    if listing.len() > 0 {
        let rest = listing.drop_last();
        law_names_come_from_the_listing(rest, name, segments, i);
        assert(forall|k: int| 0 <= k < rest.len() ==> rest[k] == #[trigger] listing[k]);
        match listing.last().name {
            Some(last) => {
                let all = named_in(rest).push(last);
                if last == name {
                    assert(all[all.len() - 1] == name);
                    assert(listing[listing.len() - 1].name == Some(name));
                }
                if named_in(rest).contains(name) {
                    let k = named_in(rest).index_of(name);
                    assert(all[k] == name);
                    let m = choose|m: int|
                        0 <= m < rest.len() && (#[trigger] rest[m]).name == Some(name);
                    assert(listing[m].name == Some(name));
                }
                if all.contains(name) && last != name {
                    let k = all.index_of(name);
                    assert(named_in(rest)[k] == name);
                }
            },
            None => {
                if named_in(rest).contains(name) {
                    let m = choose|m: int|
                        0 <= m < rest.len() && (#[trigger] rest[m]).name == Some(name);
                    assert(listing[m].name == Some(name));
                }
            },
        }
        if exists|k: int| 0 <= k < listing.len() && (#[trigger] listing[k]).name == Some(name) {
            let k = choose|k: int|
                0 <= k < listing.len() && (#[trigger] listing[k]).name == Some(name);
            if k < rest.len() {
                assert(rest[k].name == Some(name));
            }
        }
    }
}

/// Correcting a size neither adds a segment nor removes one.
pub proof fn lemma_resized_keeps_the_number(
    segments: Seq<SegmentEntry>,
    name: SegmentName,
    size_bytes: u64,
)
    ensures
        resized(segments, name, size_bytes).len() == segments.len(),
{
    crate::search::lemma_first_at(is_named(segments, name), 0, segments.len() as int);
}

} // verus!
