use vstd::prelude::*;

use queues::IsQueue;

verus! {

#[verifier::external_type_specification]
#[verifier::external_body]
#[verifier::reject_recursive_types(T)]
pub struct ExQueue<T: Clone>(queues::Queue<T>);

#[verifier::external_type_specification]
#[verifier::external_body]
pub struct ExInstant(tokio::time::Instant);

/// The messages a queue of the `queues` crate holds, oldest first.
pub uninterp spec fn queued(q: queues::Queue<String>) -> Seq<Seq<char>>;

/// An empty queue.
///
/// Calls `queues::Queue::new`, which makes a queue over an empty `Vec`.
#[verifier::external_body]
fn queue_new() -> (q: queues::Queue<String>)
    ensures
        queued(q) == Seq::<Seq<char>>::empty(),
{
    queues::Queue::new()
}

/// Appends `message` at the back of `q`.
///
/// Calls `IsQueue::add` of `queues::Queue`, which pushes onto its `Vec` and
/// always answers `Ok(None)`.
#[verifier::external_body]
fn queue_add(q: &mut queues::Queue<String>, message: String)
    ensures
        queued(*final(q)) == queued(*old(q)).push(message@),
{
    let _ = q.add(message);
}

/// A copy of the oldest message of `q`, if any.
///
/// Calls `IsQueue::peek` of `queues::Queue`, which clones the first element of
/// its `Vec`, or fails when the queue is empty.
#[verifier::external_body]
fn queue_peek(q: &queues::Queue<String>) -> (head: Option<String>)
    ensures
        head is Some <==> queued(*q).len() > 0,
        head matches Some(h) ==> h@ == queued(*q)[0],
{
    q.peek().ok()
}

/// Removes the oldest message of `q`; tells whether there was one.
///
/// Calls `IsQueue::remove` of `queues::Queue`, which removes the first
/// element of its `Vec`, or fails and changes nothing when it is empty.
#[verifier::external_body]
fn queue_remove(q: &mut queues::Queue<String>) -> (removed: bool)
    ensures
        removed == (queued(*old(q)).len() > 0),
        queued(*final(q)) == if removed {
            queued(*old(q)).drop_first()
        } else {
            queued(*old(q))
        },
{
    q.remove().is_ok()
}

/// How many messages `q` holds.
///
/// Calls `IsQueue::size` of `queues::Queue`: the length of its `Vec`.
#[verifier::external_body]
fn queue_size(q: &queues::Queue<String>) -> (n: usize)
    ensures
        n == queued(*q).len(),
{
    q.size()
}

/// The present moment.
///
/// Calls `tokio::time::Instant::now`; nothing is claimed of the result.
#[verifier::external_body]
pub(crate) fn instant_now() -> tokio::time::Instant {
    tokio::time::Instant::now()
}

/// Whole seconds since `t` (zero if `t` is in the future).
///
/// Calls `tokio::time::Instant::elapsed` and `Duration::as_secs`; nothing is
/// claimed of the result, which depends on the clock.
#[verifier::external_body]
fn seconds_since(t: &tokio::time::Instant) -> u64 {
    t.elapsed().as_secs()
}

/// Whether `t` is an instant that reading the clock (`instant_now`) can give.
pub closed spec fn clock_reading(t: tokio::time::Instant) -> bool {
    call_ensures(instant_now, (), t)
}

/// What `instant_now` returned is a reading of the clock.
pub(crate) proof fn lemma_clock_reading(t: tokio::time::Instant)
    requires
        call_ensures(instant_now, (), t),
    ensures
        clock_reading(t),
{
}

/// Whether `secs` is a count of whole seconds since `t` that reading the
/// clock against `t` (`seconds_since`) can give.
pub closed spec fn elapsed_reading(t: tokio::time::Instant, secs: u64) -> bool {
    call_ensures(seconds_since, (&t,), secs)
}

/// The messages waiting for one channel, and when the channel last had a
/// message written.
pub struct ChannelInfo {
    last_write: tokio::time::Instant,
    messages: queues::Queue<String>,
}

impl View for ChannelInfo {
    type V = Seq<Seq<char>>;

    /// The waiting messages, oldest first.
    closed spec fn view(&self) -> Seq<Seq<char>> {
        queued(self.messages)
    }
}

/// Taking the head and then dequeueing removes exactly that head: a queue is
/// its head followed by what `dequeue` leaves.
pub proof fn lemma_head_then_dequeue(waiting: Seq<Seq<char>>)
    requires
        waiting.len() > 0,
    ensures
        waiting == seq![waiting[0]] + waiting.drop_first(),
{
    assert(waiting =~= seq![waiting[0]] + waiting.drop_first());
}

/// Messages leave in the order they were enqueued: after enqueueing `m` on
/// a queue, the head is unchanged if there was one, and is `m` otherwise.
pub proof fn lemma_enqueue_keeps_head(waiting: Seq<Seq<char>>, m: Seq<char>)
    ensures
        waiting.push(m)[0] == if waiting.len() > 0 {
            waiting[0]
        } else {
            m
        },
        waiting.push(m).drop_first() == if waiting.len() > 0 {
            waiting.drop_first().push(m)
        } else {
            Seq::<Seq<char>>::empty()
        },
{
    if waiting.len() > 0 {
        assert(waiting.push(m).drop_first() =~= waiting.drop_first().push(m));
    } else {
        assert(waiting.push(m).drop_first() =~= Seq::<Seq<char>>::empty());
    }
}

/// The queue after a run of calls on it: `Some(m)` enqueues `m`, `None`
/// dequeues (and changes nothing on an empty queue).
pub open spec fn run_queue(waiting: Seq<Seq<char>>, calls: Seq<Option<Seq<char>>>) -> Seq<Seq<char>>
    decreases calls.len(),
{
    if calls.len() == 0 {
        waiting
    } else {
        let before = run_queue(waiting, calls.drop_last());
        match calls.last() {
            Some(m) => before.push(m),
            None => if before.len() > 0 {
                before.drop_first()
            } else {
                before
            },
        }
    }
}

/// How many enqueues a run of calls makes.
pub open spec fn enqueues(calls: Seq<Option<Seq<char>>>) -> nat
    decreases calls.len(),
{
    if calls.len() == 0 {
        0
    } else {
        enqueues(calls.drop_last()) + if calls.last() is Some {
            1nat
        } else {
            0nat
        }
    }
}

/// How many dequeues of a run of calls remove a message (answer `true`).
pub open spec fn removals(waiting: Seq<Seq<char>>, calls: Seq<Option<Seq<char>>>) -> nat
    decreases calls.len(),
{
    if calls.len() == 0 {
        0
    } else {
        removals(waiting, calls.drop_last()) + if calls.last() is None && run_queue(
            waiting,
            calls.drop_last(),
        ).len() > 0 {
            1nat
        } else {
            0nat
        }
    }
}

/// After any run of enqueues and dequeues, the length is the starting length
/// plus the enqueues minus the dequeues that removed a message; so a channel
/// made by `new` holds `1 + a - d` messages after `a` enqueues and `d`
/// successful dequeues.
pub proof fn lemma_queue_length(waiting: Seq<Seq<char>>, calls: Seq<Option<Seq<char>>>)
    ensures
        run_queue(waiting, calls).len() == waiting.len() + enqueues(calls) - removals(
            waiting,
            calls,
        ),
    decreases calls.len(),
{
    if calls.len() > 0 {
        lemma_queue_length(waiting, calls.drop_last());
    }
}

impl ChannelInfo {
    /// A channel with one waiting message, written now.
    pub fn new(message: String) -> (info: ChannelInfo)
        ensures
            info@ == seq![message@],
            clock_reading(info.last_write()),
    {
        let mut messages = queue_new();
        queue_add(&mut messages, message);
        assert(queued(messages) =~= seq![message@]);
        ChannelInfo { last_write: instant_now(), messages }
    }

    /// Adds a message at the back of the queue; the time of the last write
    /// stays.
    pub fn enqueue(&mut self, message: String)
        ensures
            final(self)@ == old(self)@.push(message@),
            final(self).last_write() == old(self).last_write(),
    {
        queue_add(&mut self.messages, message);
    }

    /// The oldest waiting message, which stays in the queue.
    pub fn head(&mut self) -> (head: Option<String>)
        ensures
            final(self)@ == old(self)@,
            final(self).last_write() == old(self).last_write(),
            head is Some <==> old(self)@.len() > 0,
            head matches Some(h) ==> h@ == old(self)@[0],
    {
        queue_peek(&self.messages)
    }

    /// The oldest waiting message, which stays in the queue.
    pub(crate) fn front(&self) -> (head: Option<String>)
        ensures
            head is Some <==> self@.len() > 0,
            head matches Some(h) ==> h@ == self@[0],
    {
        queue_peek(&self.messages)
    }

    /// When the channel was last written to.
    pub closed spec fn last_write(&self) -> tokio::time::Instant {
        self.last_write
    }

    /// Records that the channel was written to at `at`.
    pub fn set_last_write(&mut self, at: tokio::time::Instant)
        ensures
            final(self)@ == old(self)@,
            final(self).last_write() == at,
    {
        self.last_write = at;
    }

    /// Records that the channel was written to now: the clock is read, and
    /// its reading becomes the time of the last write.
    pub fn update_instant(&mut self)
        ensures
            final(self)@ == old(self)@,
            clock_reading(final(self).last_write()),
    {
        let now = instant_now();
        self.set_last_write(now);
    }

    /// Removes the oldest waiting message; tells whether there was one. Call
    /// `head` first to get that message.
    pub fn dequeue(&mut self) -> (removed: bool)
        ensures
            final(self).last_write() == old(self).last_write(),
            removed == (old(self)@.len() > 0),
            final(self)@ == if removed {
                old(self)@.drop_first()
            } else {
                old(self)@
            },
    {
        queue_remove(&mut self.messages)
    }

    /// How many messages wait.
    pub fn len(&self) -> (n: usize)
        ensures
            n == self@.len(),
    {
        queue_size(&self.messages)
    }

    /// Whole seconds since the channel was last written to.
    pub fn idle_seconds(&self) -> (secs: u64)
        ensures
            elapsed_reading(self.last_write(), secs),
    {
        seconds_since(&self.last_write)
    }
}

} // verus!
