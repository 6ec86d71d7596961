//! The order in which a batch of records is laid out across channels.
//!
//! Records of different threads arrive reordered, while a block has to stay
//! monotonic. The order is stable: the start of a span does not overtake an end
//! of the same moment.

use crate::staged::Staged;
use vstd::prelude::*;

verus! {

/// The key of a record: where it goes, and when it happened.
pub open spec fn key_le(a: Staged, b: Staged) -> bool {
    ||| a.ns.0 < b.ns.0
    ||| a.ns.0 == b.ns.0 && a.channel.0 < b.channel.0
    ||| a.ns.0 == b.ns.0 && a.channel.0 == b.channel.0 && a.at.0 <= b.at.0
}

fn is_key_le(a: &Staged, b: &Staged) -> (yes: bool)
    ensures
        yes == key_le(*a, *b),
{
    a.ns.0 < b.ns.0 || (a.ns.0 == b.ns.0 && a.channel.0 < b.channel.0) || (a.ns.0 == b.ns.0
        && a.channel.0 == b.channel.0 && a.at.0 <= b.at.0)
}

pub open spec fn sorted_by_key(s: Seq<Staged>) -> bool {
    forall|i: int, j: int| 0 <= i <= j < s.len() ==> key_le(#[trigger] s[i], #[trigger] s[j])
}

/// Where a record belongs in an ordered batch: behind everything that is not
/// after it.
pub open spec fn slot_for(s: Seq<Staged>, x: Staged) -> int
    decreases s.len(),
{
    if s.len() == 0 || key_le(s.last(), x) {
        s.len() as int
    } else {
        slot_for(s.drop_last(), x)
    }
}

/// A batch in the order of its keys; records with equal keys keep their order.
pub open spec fn stable_sorted(s: Seq<Staged>) -> Seq<Staged>
    decreases s.len(),
{
    if s.len() == 0 {
        s
    } else {
        let rest = stable_sorted(s.drop_last());
        rest.insert(slot_for(rest, s.last()), s.last())
    }
}

proof fn lemma_slot(s: Seq<Staged>, x: Staged)
    requires
        sorted_by_key(s),
    ensures
        0 <= slot_for(s, x) <= s.len(),
        forall|i: int| 0 <= i < slot_for(s, x) ==> key_le(#[trigger] s[i], x),
        forall|i: int| slot_for(s, x) <= i < s.len() ==> !key_le(#[trigger] s[i], x),
    decreases s.len(),
{
    if s.len() > 0 && !key_le(s.last(), x) {
        let rest = s.drop_last();
        assert forall|i: int, j: int| 0 <= i <= j < rest.len() implies key_le(
            #[trigger] rest[i],
            #[trigger] rest[j],
        ) by {
            assert(rest[i] == s[i] && rest[j] == s[j]);
        }
        lemma_slot(rest, x);
        assert forall|i: int| 0 <= i < slot_for(s, x) implies key_le(#[trigger] s[i], x) by {
            assert(rest[i] == s[i]);
        }
        assert forall|i: int| slot_for(s, x) <= i < s.len() implies !key_le(#[trigger] s[i], x) by {
            if i < rest.len() {
                assert(rest[i] == s[i]);
            }
        }
    } else if s.len() > 0 {
        assert forall|i: int| 0 <= i < s.len() implies key_le(#[trigger] s[i], x) by {
            assert(key_le(s[i], s[s.len() - 1]));
        }
    }
}

/// Laying a batch out orders it by channel and time, loses and adds nothing, and
/// leaves a batch that is in order as it is.
pub proof fn law_a_batch_is_only_reordered(s: Seq<Staged>)
    ensures
        sorted_by_key(stable_sorted(s)),
        stable_sorted(s).to_multiset() == s.to_multiset(),
        stable_sorted(s).len() == s.len(),
        sorted_by_key(s) ==> stable_sorted(s) == s,
    decreases s.len(),
{
    s.to_multiset_ensures();
    if s.len() > 0 {
        let rest = s.drop_last();
        let x = s.last();
        let done = stable_sorted(rest);
        law_a_batch_is_only_reordered(rest);
        lemma_slot(done, x);
        let k = slot_for(done, x);
        let out = done.insert(k, x);
        assert forall|i: int, j: int| 0 <= i <= j < out.len() implies key_le(
            #[trigger] out[i],
            #[trigger] out[j],
        ) by {
            if i < k {
                assert(out[i] == done[i]);
                assert(key_le(done[i], x));
            } else if i > k {
                assert(out[i] == done[i - 1]);
            }
            if j < k {
                assert(out[j] == done[j]);
            } else if j > k {
                assert(out[j] == done[j - 1]);
                assert(!key_le(done[j - 1], x));
            }
        }
        out.to_multiset_ensures();
        done.to_multiset_ensures();
        assert(out.remove(k) =~= done);
        assert(out[k] == x);
        assert(out.contains(x));
        assert(rest.push(x) =~= s);
        rest.to_multiset_ensures();
        assert(s.to_multiset() =~= rest.to_multiset().insert(x));
        assert(out.to_multiset() =~= done.to_multiset().insert(x));
        if sorted_by_key(s) {
            assert forall|i: int, j: int| 0 <= i <= j < rest.len() implies key_le(
                #[trigger] rest[i],
                #[trigger] rest[j],
            ) by {
                assert(rest[i] == s[i] && rest[j] == s[j]);
            }
            if done.len() > 0 {
                assert(done.last() == s[s.len() - 2]);
                assert(key_le(s[s.len() - 2], s[s.len() - 1]));
            }
            assert(k == done.len());
            assert(out =~= s);
        }
    }
}

/// Sorts a batch by its keys, keeping the order of equal ones.
pub fn sort_batch(batch: &mut Vec<Staged>)
    ensures
        final(batch)@ == stable_sorted(old(batch)@),
{
    let n: usize = batch.len();
    let ghost start = batch@;
    let mut i: usize = 0;
    assert(start.take(0) =~= Seq::<Staged>::empty());
    assert(stable_sorted(start.take(0)) + start.skip(0) =~= start);
    while i < n
        invariant
            i <= n,
            n == start.len(),
            batch@ == stable_sorted(start.take(i as int)) + start.skip(i as int),
            stable_sorted(start.take(i as int)).len() == i,
        decreases n - i,
    {
        let ghost done = stable_sorted(start.take(i as int));
        proof {
            law_a_batch_is_only_reordered(start.take(i as int));
            law_a_batch_is_only_reordered(start.take(i + 1));
            assert(start.take(i + 1).drop_last() =~= start.take(i as int));
            assert(batch@[i as int] == start[i as int]);
        }
        let ghost x = batch@[i as int];
        assert(done.take(i as int) =~= done);
        let mut k: usize = i;
        while k > 0 && !is_key_le(&batch[k - 1], &batch[i])
            invariant
                i < n,
                k <= i,
                n == start.len(),
                batch@ == done + start.skip(i as int),
                done.len() == i,
                x == batch@[i as int],
                slot_for(done, x) == slot_for(done.take(k as int), x),
            decreases k,
        {
            assert(done.take(k as int).last() == batch@[k - 1]);
            assert(done.take(k as int).drop_last() =~= done.take(k - 1));
            k = k - 1;
        }
        proof {
            assert(done.take(i as int) =~= done);
            if k > 0 {
                assert(done.take(k as int).last() == batch@[k - 1]);
            }
            assert(slot_for(done.take(k as int), x) == k);
        }
        let item: Staged = batch.remove(i);
        batch.insert(k, item);
        proof {
            assert(batch@ =~= done.insert(k as int, x) + start.skip(i + 1));
        }
        i = i + 1;
    }
    assert(start.take(n as int) =~= start);
    assert(batch@ =~= stable_sorted(start));
}

/// Whether a batch is in the order of its keys already.
pub fn is_sorted(batch: &Vec<Staged>) -> (yes: bool)
    ensures
        yes == sorted_by_key(batch@),
{
    let mut i: usize = 1;
    while i < batch.len()
        invariant
            1 <= i,
            i <= batch@.len() || batch@.len() == 0,
            forall|a: int, b: int|
                0 <= a <= b < i && b < batch@.len() ==> key_le(
                    #[trigger] batch@[a],
                    #[trigger] batch@[b],
                ),
        decreases batch@.len() - i,
    {
        if !is_key_le(&batch[i - 1], &batch[i]) {
            assert(!key_le(batch@[i - 1], batch@[i as int]));
            return false;
        }
        assert forall|a: int, b: int| 0 <= a <= b < i + 1 && b < batch@.len() implies key_le(
            #[trigger] batch@[a],
            #[trigger] batch@[b],
        ) by {
            if b == i {
                assert(a == i || key_le(batch@[a], batch@[i - 1]));
            }
        }
        i = i + 1;
    }
    true
}

/// In a batch that is laid out, the records of a channel stand together, in the order of their
/// times: between two records of one channel there is none of another, and none of a later time
/// comes before one of an earlier.
pub proof fn law_a_channel_gets_its_records_together_and_in_time(s: Seq<Staged>, i: int, j: int, k: int)
    requires
        0 <= i < j < k < s.len(),
    ensures
        ({
            let out = stable_sorted(s);
            &&& out[i].ns == out[k].ns && out[i].channel == out[k].channel ==> {
                &&& out[j].ns == out[i].ns && out[j].channel == out[i].channel
                &&& out[i].at.0 <= out[j].at.0 <= out[k].at.0
            }
            &&& out[i].ns.0 <= out[j].ns.0
            &&& out[i].ns == out[j].ns ==> out[i].channel.0 <= out[j].channel.0
            &&& out[i].ns == out[j].ns && out[i].channel == out[j].channel ==> out[i].at.0
                <= out[j].at.0
        }),
{
    law_a_batch_is_only_reordered(s);
    let out = stable_sorted(s);
    assert(key_le(out[i], out[j]));
    assert(key_le(out[j], out[k]));
}

/// The records of one channel and one moment.
pub open spec fn of_one_moment(ns: u32, channel: u16, at: u64) -> spec_fn(Staged) -> bool {
    |x: Staged| x.ns.0 == ns && x.channel.0 == channel && x.at.0 == at
}

proof fn lemma_filter_insert(s: Seq<Staged>, k: int, x: Staged, p: spec_fn(Staged) -> bool)
    requires
        0 <= k <= s.len(),
        p(x) ==> forall|i: int| k <= i < s.len() ==> !p(#[trigger] s[i]),
    ensures
        s.insert(k, x).filter(p) == if p(x) {
            s.filter(p).push(x)
        } else {
            s.filter(p)
        },
    decreases s.len(),
{
    reveal(Seq::filter);
    let out = s.insert(k, x);
    if k == s.len() {
        assert(out.drop_last() =~= s);
        assert(out.last() == x);
    } else {
        let rest = s.drop_last();
        assert(out.drop_last() =~= rest.insert(k, x));
        assert(out.last() == s.last());
        assert forall|i: int| p(x) && k <= i < rest.len() implies !p(#[trigger] rest[i]) by {
            assert(rest[i] == s[i]);
        }
        if p(x) {
            assert(!p(s[s.len() - 1]));
        }
        lemma_filter_insert(rest, k, x, p);
    }
}

/// Records of one channel and one moment keep the order they came in: the start of a span does not
/// overtake an end of the same moment.
pub proof fn law_records_of_a_moment_keep_their_order(s: Seq<Staged>, ns: u32, channel: u16, at: u64)
    ensures
        stable_sorted(s).filter(of_one_moment(ns, channel, at)) == s.filter(
            of_one_moment(ns, channel, at),
        ),
    decreases s.len(),
{
    let p = of_one_moment(ns, channel, at);
    reveal(Seq::filter);
    if s.len() > 0 {
        let rest = s.drop_last();
        let x = s.last();
        let done = stable_sorted(rest);
        law_records_of_a_moment_keep_their_order(rest, ns, channel, at);
        law_a_batch_is_only_reordered(rest);
        lemma_slot(done, x);
        let k = slot_for(done, x);
        assert forall|i: int| p(x) && k <= i < done.len() implies !p(#[trigger] done[i]) by {
            assert(!key_le(done[i], x));
        }
        lemma_filter_insert(done, k, x, p);
    }
}

} // verus!
