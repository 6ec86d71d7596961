//! All the channels of a process, and what is said of them as a whole.
//!
//! A channel is addressed by the slot of its namespace and its number within it.
//! What one channel's step does to the whole is proved once, here.

use crate::channel_state::ChannelState;
use crate::medium;
use crate::medium::{Op, Place};
use crate::rotation;
use crate::staged::{ChannelIdx, NsId};
use crate::stats;
use vstd::prelude::*;

verus! {

/// The state of a namespace.
#[derive(Debug)]
pub struct NsState {
    pub name: String,
    pub channels: Vec<ChannelState>,
}

/// A sum over the channels of a namespace.
pub open spec fn channels_sum(channels: Seq<ChannelState>, f: spec_fn(ChannelState) -> int) -> int
    decreases channels.len(),
{
    if channels.len() == 0 {
        0
    } else {
        channels_sum(channels.drop_last(), f) + f(channels.last())
    }
}

/// The part of a slot in a sum over all channels.
pub open spec fn slot_sum(slot: Option<NsState>, f: spec_fn(ChannelState) -> int) -> int {
    match slot {
        Some(ns) => channels_sum(ns.channels@, f),
        None => 0,
    }
}

/// A sum over all channels.
pub open spec fn fleet_sum(
    namespaces: Seq<Option<NsState>>,
    f: spec_fn(ChannelState) -> int,
) -> int
    decreases namespaces.len(),
{
    if namespaces.len() == 0 {
        0
    } else {
        fleet_sum(namespaces.drop_last(), f) + slot_sum(namespaces.last(), f)
    }
}

/// The records in the block being assembled.
pub open spec fn in_block() -> spec_fn(ChannelState) -> int {
    |c: ChannelState| c.block.count as int
}

/// Records in blocks being assembled, over all channels.
pub open spec fn pending(namespaces: Seq<Option<NsState>>) -> int {
    fleet_sum(namespaces, in_block())
}

/// What a channel's segments occupy, if it belongs to a group.
pub open spec fn occupied_in(group: usize) -> spec_fn(ChannelState) -> int {
    |c: ChannelState|
        if c.group == group {
            rotation::total_of(c.inventory@)
        } else {
            0
        }
}

/// What the segments of a group occupy.
pub open spec fn group_total(namespaces: Seq<Option<NsState>>, group: usize) -> int {
    fleet_sum(namespaces, occupied_in(group))
}

/// There is a channel at an address.
pub open spec fn has_channel(namespaces: Seq<Option<NsState>>, i: int, j: int) -> bool {
    0 <= i < namespaces.len() && namespaces[i] is Some && 0 <= j
        < namespaces[i]->0.channels@.len()
}

/// The channel at an address.
pub open spec fn channel_at(namespaces: Seq<Option<NsState>>, i: int, j: int) -> ChannelState {
    namespaces[i]->0.channels@[j]
}

/// Every channel has a number, and every namespace.
pub open spec fn all_numbered(namespaces: Seq<Option<NsState>>) -> bool {
    &&& namespaces.len() <= u32::MAX
    &&& forall|i: int|
        0 <= i < namespaces.len() && (#[trigger] namespaces[i]) is Some
            ==> namespaces[i]->0.channels@.len() <= u16::MAX
}

/// Every channel can take a record.
pub open spec fn all_ready(namespaces: Seq<Option<NsState>>) -> bool {
    forall|i: int, j: int|
        has_channel(namespaces, i, j) ==> (#[trigger] channel_at(namespaces, i, j)).ready()
}

/// Every channel's files lie under its address.
pub open spec fn all_placed(namespaces: Seq<Option<NsState>>) -> bool {
    forall|i: int, j: int|
        has_channel(namespaces, i, j) ==> (#[trigger] channel_at(namespaces, i, j)).place == (
        Place { ns: NsId(i as u32), channel: ChannelIdx(j as u16), staging: false })
}

/// Every segment that passes for synced is, every block holds the records counted in it,
/// and where there is no channel no block is being assembled.
#[verifier::opaque]
pub open spec fn all_honest(namespaces: Seq<Option<NsState>>, trace: Seq<Op>) -> bool {
    &&& forall|i: int, j: int|
        has_channel(namespaces, i, j) ==> (#[trigger] channel_at(namespaces, i, j)).honest(trace)
    &&& nothing_elsewhere(namespaces, trace)
}

/// Where there is no channel no block is being assembled.
pub open spec fn nothing_elsewhere(namespaces: Seq<Option<NsState>>, trace: Seq<Op>) -> bool {
    forall|p: Place|
        !p.staging && !has_channel(namespaces, p.ns.0 as int, p.channel.0 as int) ==> (
        #[trigger] medium::assembled(trace, p)).len() == 0
}

/// Every open block has a segment to go to.
pub open spec fn all_housed(namespaces: Seq<Option<NsState>>) -> bool {
    forall|i: int, j: int|
        has_channel(namespaces, i, j) ==> (#[trigger] channel_at(namespaces, i, j)).housed()
}

/// No channel has a record in its block.
pub open spec fn all_flushed(namespaces: Seq<Option<NsState>>) -> bool {
    forall|i: int, j: int|
        has_channel(namespaces, i, j) ==> (#[trigger] channel_at(namespaces, i, j)).block.count == 0
}

/// No channel has an open segment.
pub open spec fn all_closed(namespaces: Seq<Option<NsState>>) -> bool {
    forall|i: int, j: int|
        has_channel(namespaces, i, j) ==> (#[trigger] channel_at(namespaces, i, j)).segment is None
}

/// Every channel with something to service is in the list of those serviced.
pub open spec fn all_listed(
    namespaces: Seq<Option<NsState>>,
    active: Seq<(usize, usize)>,
) -> bool {
    forall|i: int, j: int|
        #![trigger channel_at(namespaces, i, j)]
        has_channel(namespaces, i, j) && channel_at(namespaces, i, j).is_in_active_list
            ==> active.contains((i as usize, j as usize))
}

/// Only the channel at an address changed.
pub open spec fn one_channel_changed(
    before: Seq<Option<NsState>>,
    after: Seq<Option<NsState>>,
    i: int,
    j: int,
) -> bool {
    &&& has_channel(before, i, j)
    &&& after.len() == before.len()
    &&& forall|k: int| 0 <= k < before.len() && k != i ==> (#[trigger] after[k]) == before[k]
    &&& after[i] is Some
    &&& after[i]->0.name == before[i]->0.name
    &&& after[i]->0.channels@.len() == before[i]->0.channels@.len()
    &&& forall|k: int|
        0 <= k < before[i]->0.channels@.len() && k != j ==> (#[trigger] after[i]->0.channels@[k])
            == before[i]->0.channels@[k]
}

/// The slots and their channels are the same ones.
pub open spec fn same_fleet(before: Seq<Option<NsState>>, after: Seq<Option<NsState>>) -> bool {
    &&& after.len() == before.len()
    &&& forall|i: int|
        #![trigger after[i]]
        0 <= i < before.len() ==> match (before[i], after[i]) {
            (Some(a), Some(b)) => a.name == b.name && a.channels@.len() == b.channels@.len(),
            (None, None) => true,
            _ => false,
        }
    &&& forall|i: int, j: int|
        #![trigger channel_at(after, i, j)]
        has_channel(before, i, j) ==> channel_at(after, i, j).same_channel(
            &channel_at(before, i, j),
        )
}

proof fn lemma_channels_sum_update(
    before: Seq<ChannelState>,
    after: Seq<ChannelState>,
    j: int,
    f: spec_fn(ChannelState) -> int,
)
    requires
        0 <= j < before.len(),
        after.len() == before.len(),
        forall|k: int| 0 <= k < before.len() && k != j ==> (#[trigger] after[k]) == before[k],
    ensures
        channels_sum(after, f) == channels_sum(before, f) - f(before[j]) + f(after[j]),
    decreases before.len(),
{
    if j == before.len() - 1 {
        assert(after.drop_last() =~= before.drop_last());
    } else {
        let b = before.drop_last();
        let a = after.drop_last();
        assert forall|k: int| 0 <= k < b.len() && k != j implies (#[trigger] a[k]) == b[k] by {
            assert(a[k] == after[k] && b[k] == before[k]);
        }
        lemma_channels_sum_update(b, a, j, f);
        assert(after[before.len() - 1] == before[before.len() - 1]);
    }
}

/// A sum over all channels after one slot changed.
pub proof fn lemma_fleet_sum_update(
    before: Seq<Option<NsState>>,
    after: Seq<Option<NsState>>,
    i: int,
    f: spec_fn(ChannelState) -> int,
)
    requires
        0 <= i < before.len(),
        after.len() == before.len(),
        forall|k: int| 0 <= k < before.len() && k != i ==> (#[trigger] after[k]) == before[k],
    ensures
        fleet_sum(after, f) == fleet_sum(before, f) - slot_sum(before[i], f) + slot_sum(
            after[i],
            f,
        ),
    decreases before.len(),
{
    if i == before.len() - 1 {
        assert(after.drop_last() =~= before.drop_last());
    } else {
        let b = before.drop_last();
        let a = after.drop_last();
        assert forall|k: int| 0 <= k < b.len() && k != i implies (#[trigger] a[k]) == b[k] by {
            assert(a[k] == after[k] && b[k] == before[k]);
        }
        lemma_fleet_sum_update(b, a, i, f);
        assert(after[before.len() - 1] == before[before.len() - 1]);
    }
}

/// A sum over all channels after one of them changed.
pub proof fn lemma_sum_step(
    before: Seq<Option<NsState>>,
    after: Seq<Option<NsState>>,
    i: int,
    j: int,
    f: spec_fn(ChannelState) -> int,
)
    requires
        one_channel_changed(before, after, i, j),
    ensures
        fleet_sum(after, f) == fleet_sum(before, f) - f(channel_at(before, i, j)) + f(
            channel_at(after, i, j),
        ),
{
    lemma_channels_sum_update(before[i]->0.channels@, after[i]->0.channels@, j, f);
    lemma_fleet_sum_update(before, after, i, f);
}

/// What the change of one channel does to the whole.
pub proof fn lemma_one_channel(
    before: Seq<Option<NsState>>,
    after: Seq<Option<NsState>>,
    i: int,
    j: int,
)
    requires
        one_channel_changed(before, after, i, j),
    ensures
        pending(after) == pending(before) - channel_at(before, i, j).block.count + channel_at(
            after,
            i,
            j,
        ).block.count,
        all_ready(before) && channel_at(after, i, j).ready() ==> all_ready(after),
        all_placed(before) && channel_at(after, i, j).same_channel(&channel_at(before, i, j))
            ==> all_placed(after),
        channel_at(after, i, j).same_channel(&channel_at(before, i, j)) ==> same_fleet(
            before,
            after,
        ),
        forall|a: int, b: int|
            has_channel(before, a, b) && (a != i || b != j) ==> (#[trigger] channel_at(after, a, b))
                == channel_at(before, a, b),
        forall|a: int, b: int| has_channel(before, a, b) == has_channel(after, a, b),
        all_numbered(before) ==> all_numbered(after),
{
    lemma_sum_step(before, after, i, j, in_block());
    assert forall|a: int, b: int| has_channel(before, a, b) && (a != i || b != j) implies (
    #[trigger] channel_at(after, a, b)) == channel_at(before, a, b) by {
        if a == i {
            assert(after[i]->0.channels@[b] == before[i]->0.channels@[b]);
        } else {
            assert(after[a] == before[a]);
        }
    }
    assert forall|a: int, b: int| has_channel(before, a, b) == has_channel(after, a, b) by {
        if 0 <= a < before.len() && a != i {
            assert(after[a] == before[a]);
        }
    }
    if all_ready(before) && channel_at(after, i, j).ready() {
        assert forall|a: int, b: int| has_channel(after, a, b) implies (#[trigger] channel_at(
            after,
            a,
            b,
        )).ready() by {
            assert(has_channel(before, a, b));
            if a != i || b != j {
                assert(channel_at(after, a, b) == channel_at(before, a, b));
            }
        }
    }
    if all_placed(before) && channel_at(after, i, j).same_channel(&channel_at(before, i, j)) {
        assert forall|a: int, b: int| has_channel(after, a, b) implies (#[trigger] channel_at(
            after,
            a,
            b,
        )).place == (Place { ns: NsId(a as u32), channel: ChannelIdx(b as u16), staging: false }) by {
            assert(has_channel(before, a, b));
            assert(channel_at(before, a, b).place == (Place {
                ns: NsId(a as u32),
                channel: ChannelIdx(b as u16),
                staging: false,
            }));
            if a != i || b != j {
                assert(channel_at(after, a, b) == channel_at(before, a, b));
            }
        }
    }
    if channel_at(after, i, j).same_channel(&channel_at(before, i, j)) {
        assert forall|a: int, b: int| #![trigger channel_at(after, a, b)] has_channel(before, a, b) implies channel_at(
            after,
            a,
            b,
        ).same_channel(&channel_at(before, a, b)) by {
            if a != i || b != j {
                assert(channel_at(after, a, b) == channel_at(before, a, b));
            }
        }
    }
}

/// Segments stay honest over what writes no block.
pub broadcast proof fn lemma_honest_on(
    namespaces: Seq<Option<NsState>>,
    t0: Seq<Op>,
    t1: Seq<Op>,
)
    requires
        #[trigger] all_honest(namespaces, t0),
        #[trigger] medium::no_dirtier(t0, t1),
    ensures
        all_honest(namespaces, t1),
{
    broadcast use medium::group_synced;

    reveal(all_honest);
}

/// One channel is as honest as all of them.
pub proof fn lemma_honest_at(namespaces: Seq<Option<NsState>>, trace: Seq<Op>, i: int, j: int)
    requires
        all_honest(namespaces, trace),
        has_channel(namespaces, i, j),
    ensures
        channel_at(namespaces, i, j).honest(trace),
{
    reveal(all_honest);
}

/// Segments stay honest over a step on one channel that keeps its own honest.
pub proof fn lemma_honest_step(
    before: Seq<Option<NsState>>,
    after: Seq<Option<NsState>>,
    i: int,
    j: int,
    t0: Seq<Op>,
    t1: Seq<Op>,
)
    requires
        one_channel_changed(before, after, i, j),
        all_numbered(before),
        all_placed(before),
        all_ready(before),
        all_honest(before, t0),
        ChannelState::faithful(&channel_at(before, i, j), &channel_at(after, i, j), t0, t1),
    ensures
        all_honest(after, t1),
{
    lemma_one_channel(before, after, i, j);
    reveal(all_honest);
    assert forall|a: int, b: int| has_channel(after, a, b) implies (#[trigger] channel_at(
        after,
        a,
        b,
    )).honest(t1) by {
        assert(has_channel(before, a, b));
        assert(channel_at(before, a, b).honest(t0));
        if a != i || b != j {
            let c = channel_at(before, a, b);
            let d = channel_at(before, i, j);
            assert(channel_at(after, a, b) == c);
            assert(c.ready());
            assert(before[a] == before[a] && before[i] == before[i]);
            assert(d.place.ns.0 == i && d.place.channel.0 == j);
            assert(c.place.ns.0 == a && c.place.channel.0 == b);
            assert(c.place != d.place);
            medium::lemma_assembled_elsewhere(t0, t1, d.place, c.place);
            if let Some(s) = c.segment {
                medium::lemma_dirties_at(t0, t1, d.place, s.file);
            }
        }
    }
    assert forall|p: Place|
        !p.staging && !has_channel(after, p.ns.0 as int, p.channel.0 as int) implies (
    #[trigger] medium::assembled(t1, p)).len() == 0 by {
        let d = channel_at(before, i, j);
        assert(before[i] == before[i]);
        assert(d.place.ns.0 == i && d.place.channel.0 == j);
        medium::lemma_assembled_elsewhere(t0, t1, d.place, p);
        assert(medium::assembled(t0, p).len() == 0);
    }
}

pub proof fn lemma_same_fleet_trans(
    a: Seq<Option<NsState>>,
    b: Seq<Option<NsState>>,
    c: Seq<Option<NsState>>,
)
    requires
        same_fleet(a, b),
        same_fleet(b, c),
    ensures
        same_fleet(a, c),
{
    assert forall|i: int| #![trigger c[i]] 0 <= i < a.len() implies match (a[i], c[i]) {
        (Some(x), Some(y)) => x.name == y.name && x.channels@.len() == y.channels@.len(),
        (None, None) => true,
        _ => false,
    } by {
        assert(b[i] == b[i]);
    }
    assert forall|i: int, j: int| #![trigger channel_at(c, i, j)] has_channel(a, i, j) implies channel_at(
        c,
        i,
        j,
    ).same_channel(&channel_at(a, i, j)) by {
        assert(b[i] == b[i]);
        assert(has_channel(b, i, j));
        assert(channel_at(b, i, j).same_channel(&channel_at(a, i, j)));
    }
}

/// The books of the writer: what it took is pending, on the medium, or dropped.
/// `outside` are the losses counted by others.
pub open spec fn ledger(
    dropped: u64,
    outside: u64,
    taken: int,
    namespaces: Seq<Option<NsState>>,
    trace: Seq<Op>,
) -> bool {
    dropped == stats::plus(outside, taken - pending(namespaces) - medium::landed(trace))
}

/// The books stay balanced over a step that took `more` records and lost `gone`.
pub proof fn lemma_ledger_step(
    d0: u64,
    d1: u64,
    outside: u64,
    taken: int,
    more: int,
    n0: Seq<Option<NsState>>,
    n1: Seq<Option<NsState>>,
    t0: Seq<Op>,
    t1: Seq<Op>,
    gone: int,
)
    requires
        ledger(d0, outside, taken, n0, t0),
        d1 == stats::plus(d0, gone),
        gone == more + pending(n0) + medium::landed(t0) - pending(n1) - medium::landed(t1),
    ensures
        ledger(d1, outside, taken + more, n1, t1),
{
    let k = taken - pending(n0) - medium::landed(t0);
    stats::law_counters_add_up(outside, k, gone);
    assert(k + gone == taken + more - pending(n1) - medium::landed(t1));
}

pub proof fn lemma_same_fleet_refl(a: Seq<Option<NsState>>)
    ensures
        same_fleet(a, a),
{
}

/// A step that leaves a channel without a segment opens none.
pub proof fn lemma_closed_step(
    before: Seq<Option<NsState>>,
    after: Seq<Option<NsState>>,
    i: int,
    j: int,
)
    requires
        one_channel_changed(before, after, i, j),
        all_closed(before),
        channel_at(after, i, j).segment is None,
    ensures
        all_closed(after),
{
    lemma_one_channel(before, after, i, j);
    assert forall|a: int, b: int| has_channel(after, a, b) implies (#[trigger] channel_at(
        after,
        a,
        b,
    )).segment is None by {
        assert(has_channel(before, a, b));
        if a != i || b != j {
            assert(channel_at(after, a, b) == channel_at(before, a, b));
        }
    }
}

/// A step that leaves a channel's block empty leaves all blocks empty, if they
/// were.
pub proof fn lemma_flushed_step(
    before: Seq<Option<NsState>>,
    after: Seq<Option<NsState>>,
    i: int,
    j: int,
)
    requires
        one_channel_changed(before, after, i, j),
        all_flushed(before),
        channel_at(after, i, j).block.count == 0,
    ensures
        all_flushed(after),
{
    lemma_one_channel(before, after, i, j);
    assert forall|a: int, b: int| has_channel(after, a, b) implies (#[trigger] channel_at(
        after,
        a,
        b,
    )).block.count == 0 by {
        assert(has_channel(before, a, b));
        if a != i || b != j {
            assert(channel_at(after, a, b) == channel_at(before, a, b));
        }
    }
}

proof fn lemma_channels_sum_zero(channels: Seq<ChannelState>, f: spec_fn(ChannelState) -> int)
    requires
        forall|j: int| 0 <= j < channels.len() ==> f(#[trigger] channels[j]) == 0,
    ensures
        channels_sum(channels, f) == 0,
    decreases channels.len(),
{
    if channels.len() > 0 {
        let rest = channels.drop_last();
        assert forall|j: int| 0 <= j < rest.len() implies f(#[trigger] rest[j]) == 0 by {
            assert(rest[j] == channels[j]);
        }
        lemma_channels_sum_zero(rest, f);
        assert(f(channels[channels.len() - 1]) == 0);
    }
}

/// Where every block is empty nothing is pending.
pub proof fn lemma_nothing_pending(namespaces: Seq<Option<NsState>>)
    requires
        all_flushed(namespaces),
    ensures
        pending(namespaces) == 0,
    decreases namespaces.len(),
{
    if namespaces.len() > 0 {
        let rest = namespaces.drop_last();
        assert forall|i: int, j: int| has_channel(rest, i, j) implies (#[trigger] channel_at(
            rest,
            i,
            j,
        )).block.count == 0 by {
            assert(rest[i] == namespaces[i]);
            assert(has_channel(namespaces, i, j));
            assert(channel_at(rest, i, j) == channel_at(namespaces, i, j));
        }
        lemma_nothing_pending(rest);
        let last = namespaces.len() - 1;
        if namespaces[last] is Some {
            let chans = namespaces[last]->0.channels@;
            assert forall|j: int| 0 <= j < chans.len() implies in_block()(#[trigger] chans[j]) == 0 by {
                assert(has_channel(namespaces, last, j));
                assert(channel_at(namespaces, last, j) == chans[j]);
            }
            lemma_channels_sum_zero(chans, in_block());
        }
    }
}

/// Empty blocks of a slot hold nothing.
pub proof fn lemma_slot_flushed(slot: Option<NsState>)
    requires
        slot matches Some(ns) ==> forall|j: int|
            0 <= j < ns.channels@.len() ==> (#[trigger] ns.channels@[j]).block.count == 0,
    ensures
        slot_sum(slot, in_block()) == 0,
{
    if let Some(ns) = slot {
        assert forall|j: int| 0 <= j < ns.channels@.len() implies in_block()(
            #[trigger] ns.channels@[j],
        ) == 0 by {}
        lemma_channels_sum_zero(ns.channels@, in_block());
    }
}

/// What is pending is the sum of what the blocks of all channels hold, and what a group occupies the
/// sum of the segments of its channels: an empty store has nothing of either, an empty slot adds
/// nothing, and each channel adds its own.
pub proof fn law_sums_are_taken_channel_by_channel(
    namespaces: Seq<Option<NsState>>,
    with: NsState,
    without: NsState,
    ch: ChannelState,
    group: usize,
)
    requires
        with.channels@ == without.channels@.push(ch),
    ensures
        pending(Seq::empty()) == 0,
        group_total(Seq::empty(), group) == 0,
        pending(namespaces.push(None)) == pending(namespaces),
        group_total(namespaces.push(None), group) == group_total(namespaces, group),
        pending(namespaces.push(Some(with))) == pending(namespaces.push(Some(without)))
            + ch.block.count,
        group_total(namespaces.push(Some(with)), group) == group_total(
            namespaces.push(Some(without)),
            group,
        ) + if ch.group == group {
            rotation::total_of(ch.inventory@)
        } else {
            0
        },
        without.channels@.len() == 0 ==> pending(namespaces.push(Some(without))) == pending(
            namespaces,
        ) && group_total(namespaces.push(Some(without)), group) == group_total(namespaces, group),
{
    assert(namespaces.push(None).drop_last() =~= namespaces);
    assert(namespaces.push(Some(with)).drop_last() =~= namespaces);
    assert(namespaces.push(Some(without)).drop_last() =~= namespaces);
    assert(with.channels@.drop_last() =~= without.channels@);
    assert(with.channels@.last() == ch);
}

} // verus!
