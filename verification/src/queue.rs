//! The queues between the application's threads and the writer.
//!
//! What a queue answers depends on the other threads, so nothing is promised of
//! it. Each end keeps what it was asked and what it answered, in order, and the
//! contracts of those who use it speak of that.

use crate::staged::Staged;
use crossbeam_channel::{Receiver, SendTimeoutError, Sender, TrySendError};
use std::time::Duration;
use vstd::prelude::*;

verus! {

/// The sending half of a queue of `crossbeam_channel`.
#[verifier::external_type_specification]
#[verifier::external_body]
#[verifier::reject_recursive_types(T)]
pub struct ExSender<T>(crossbeam_channel::Sender<T>);

/// The receiving half of a queue of `crossbeam_channel`.
#[verifier::external_type_specification]
#[verifier::external_body]
#[verifier::reject_recursive_types(T)]
pub struct ExReceiver<T>(crossbeam_channel::Receiver<T>);

/// A record the queue did not take.
#[derive(Debug)]
pub enum Returned {
    /// There was no room.
    Full(Staged),
    /// There is nobody left to drain the queue.
    Disconnected(Staged),
}

impl Returned {
    /// The record that came back.
    pub open spec fn item(self) -> Staged {
        match self {
            Returned::Full(item) => item,
            Returned::Disconnected(item) => item,
        }
    }
}

/// `Receiver::try_recv` of `crossbeam_channel`: a record, if one is waiting. It
/// depends on the other threads which, if any.
#[verifier::external_body]
fn take_record(queue: &Receiver<Staged>) -> (item: Option<Staged>) {
    queue.try_recv().ok()
}

/// `Receiver::len` of `crossbeam_channel`: how many records are waiting at the
/// moment of the call.
#[verifier::external_body]
fn waiting(queue: &Receiver<Staged>) -> (n: usize) {
    queue.len()
}

/// `Sender::try_send` of `crossbeam_channel`: puts a record into the queue
/// without waiting. A record that was not taken comes back as it was.
#[verifier::external_body]
fn offer(queue: &Sender<Staged>, item: Staged) -> (r: Result<(), Returned>)
    ensures
        r matches Err(back) ==> back.item() == item,
{
    queue.try_send(item).map_err(
        |e|
            match e {
                TrySendError::Full(item) => Returned::Full(item),
                TrySendError::Disconnected(item) => Returned::Disconnected(item),
            },
    )
}

/// `Sender::send_timeout` of `crossbeam_channel`: puts a record into the queue,
/// waiting for room up to `millis` milliseconds. A record that was not taken
/// comes back as it was.
#[verifier::external_body]
fn offer_within(queue: &Sender<Staged>, item: Staged, millis: u64) -> (r: Result<
    (),
    Returned,
>)
    ensures
        r matches Err(back) ==> back.item() == item,
{
    queue.send_timeout(item, Duration::from_millis(millis)).map_err(
        |e|
            match e {
                SendTimeoutError::Timeout(item) => Returned::Full(item),
                SendTimeoutError::Disconnected(item) => Returned::Disconnected(item),
            },
    )
}

// ---------------------------------------------------------------------------
// The receiving end
// ---------------------------------------------------------------------------

/// What a queue answered to the writer.
pub enum Answer {
    /// A record.
    Item(Staged),
    /// There was none.
    Empty,
    /// So many were waiting.
    Waiting(usize),
}

impl Answer {
    pub open spec fn of(item: Option<Staged>) -> Answer {
        match item {
            Some(x) => Answer::Item(x),
            None => Answer::Empty,
        }
    }
}

/// The receiving end of a queue.
pub struct Inbox {
    pub queue: Receiver<Staged>,
    /// What it answered so far.
    pub answers: Ghost<Seq<Answer>>,
}

impl View for Inbox {
    type V = Seq<Answer>;

    open spec fn view(&self) -> Seq<Answer> {
        self.answers@
    }
}

impl Inbox {
    pub fn new(queue: Receiver<Staged>) -> (i: Inbox)
        ensures
            i.queue == queue,
            i@ == Seq::<Answer>::empty(),
    {
        Inbox { queue, answers: Ghost(Seq::empty()) }
    }

    /// Takes a record, if one is waiting.
    pub fn take(&mut self) -> (item: Option<Staged>)
        ensures
            final(self).queue == old(self).queue,
            final(self)@ == old(self)@.push(Answer::of(item)),
    {
        let item = take_record(&self.queue);
        self.answers = Ghost(self.answers@.push(Answer::of(item)));
        item
    }

    /// How many records are waiting.
    pub fn waiting(&mut self) -> (n: usize)
        ensures
            final(self).queue == old(self).queue,
            final(self)@ == old(self)@.push(Answer::Waiting(n)),
    {
        let n: usize = waiting(&self.queue);
        self.answers = Ghost(self.answers@.push(Answer::Waiting(n)));
        n
    }
}

/// The answers that hand over the records in turn.
pub open spec fn handing_over(items: Seq<Staged>) -> Seq<Answer> {
    Seq::new(items.len(), |k: int| Answer::Item(items[k]))
}

/// How many records came out of a queue.
pub open spec fn received(answers: Seq<Answer>) -> int
    decreases answers.len(),
{
    if answers.len() == 0 {
        0
    } else {
        received(answers.drop_last()) + if answers.last() is Item {
            1int
        } else {
            0
        }
    }
}

/// The queue was last found empty.
pub open spec fn ran_dry(answers: Seq<Answer>) -> bool {
    answers.len() > 0 && answers.last() is Empty
}

pub broadcast proof fn lemma_received_push(answers: Seq<Answer>, a: Answer)
    ensures
        #[trigger] received(answers.push(a)) == received(answers) + if a is Item {
            1int
        } else {
            0
        },
{
    assert(answers.push(a).drop_last() =~= answers);
}

// ---------------------------------------------------------------------------
// The sending end
// ---------------------------------------------------------------------------

/// A record handed to a queue, with the answer.
pub enum Handed {
    /// Without waiting.
    AtOnce { item: Staged, back: Result<(), Returned> },
    /// Waiting for room so many milliseconds at the most.
    Within { item: Staged, millis: u64, back: Result<(), Returned> },
}

impl Handed {
    pub open spec fn back(self) -> Result<(), Returned> {
        match self {
            Handed::AtOnce { back, .. } => back,
            Handed::Within { back, .. } => back,
        }
    }
}

/// The sending end of a queue.
pub struct Outbox {
    pub queue: Sender<Staged>,
    /// What was handed to it so far.
    pub handed: Ghost<Seq<Handed>>,
}

impl View for Outbox {
    type V = Seq<Handed>;

    open spec fn view(&self) -> Seq<Handed> {
        self.handed@
    }
}

impl Outbox {
    pub fn new(queue: Sender<Staged>) -> (o: Outbox)
        ensures
            o.queue == queue,
            o@ == Seq::<Handed>::empty(),
    {
        Outbox { queue, handed: Ghost(Seq::empty()) }
    }

    /// Hands over a record without waiting.
    pub fn put(&mut self, item: Staged) -> (back: Result<(), Returned>)
        ensures
            final(self).queue == old(self).queue,
            final(self)@ == old(self)@.push(Handed::AtOnce { item, back }),
            back matches Err(b) ==> b.item() == item,
    {
        let ghost given = item;
        let back = offer(&self.queue, item);
        self.handed = Ghost(self.handed@.push(Handed::AtOnce { item: given, back }));
        back
    }

    /// Hands over a record, waiting for room.
    pub fn put_within(&mut self, item: Staged, millis: u64) -> (back: Result<(), Returned>)
        ensures
            final(self).queue == old(self).queue,
            final(self)@ == old(self)@.push(Handed::Within { item, millis, back }),
            back matches Err(b) ==> b.item() == item,
    {
        let ghost given = item;
        let back = offer_within(&self.queue, item, millis);
        self.handed = Ghost(self.handed@.push(Handed::Within { item: given, millis, back }));
        back
    }
}

} // verus!
