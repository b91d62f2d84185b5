//! A bounded single-producer single-consumer channel of collection commands.
//!
//! The ring buffer comes from `rtrb`. When it is full, the sender keeps the
//! message in a local queue of its own and retries on the next send, so a
//! send never blocks and never loses a message.
use std::collections::VecDeque;
use std::sync::mpsc::SyncSender;

use rtrb::Consumer;
use rtrb::Producer;
use vstd::prelude::*;

use crate::global_collector::CollectCommand;

verus! {

#[verifier::external_type_specification]
#[verifier::external_body]
#[verifier::reject_recursive_types(T)]
pub struct ExProducer<T>(Producer<T>);

#[verifier::external_type_specification]
#[verifier::external_body]
#[verifier::reject_recursive_types(T)]
pub struct ExConsumer<T>(Consumer<T>);

#[verifier::external_type_specification]
#[verifier::external_body]
#[verifier::reject_recursive_types(T)]
pub struct ExSyncSender<T>(SyncSender<T>);

/// The messages pushed into a ring buffer through its producer, oldest first.
pub uninterp spec fn ring_pushed(p: Producer<CollectCommand>) -> Seq<CollectCommand>;

/// The number of slots of the ring buffer behind a producer, fixed when the
/// buffer is made.
pub uninterp spec fn ring_capacity_of(p: Producer<CollectCommand>) -> usize;

/// The messages popped from a ring buffer through its consumer, oldest first.
pub uninterp spec fn ring_popped(c: Consumer<CollectCommand>) -> Seq<CollectCommand>;

/// Relies on `rtrb::RingBuffer::new`: the two ends of a new, empty ring buffer.
#[verifier::external_body]
fn ring_new(capacity: usize) -> (r: (Producer<CollectCommand>, Consumer<CollectCommand>))
    ensures
        ring_pushed(r.0) == Seq::<CollectCommand>::empty(),
        ring_popped(r.1) == Seq::<CollectCommand>::empty(),
        ring_capacity_of(r.0) == capacity,
{
    rtrb::RingBuffer::new(capacity)
}

/// Relies on `rtrb::Producer::push`: the value is appended to the buffer, or
/// handed back unchanged when the buffer is full.
#[verifier::external_body]
fn ring_push(tx: &mut Producer<CollectCommand>, value: CollectCommand) -> (r: Option<
    CollectCommand,
>)
    ensures
        match r {
            None => ring_pushed(*final(tx)) == ring_pushed(*old(tx)).push(value),
            Some(v) => v == value && ring_pushed(*final(tx)) == ring_pushed(*old(tx)),
        },
        ring_capacity_of(*final(tx)) == ring_capacity_of(*old(tx)),
{
    match tx.push(value) {
        Ok(()) => None,
        Err(rtrb::PushError::Full(v)) => Some(v),
    }
}

/// Relies on `rtrb::Producer::slots`: the number of free slots right now (the
/// consumer may free more at any time), at most the capacity.
#[verifier::external_body]
fn ring_free_slots(tx: &Producer<CollectCommand>) -> (r: usize)
    ensures
        r <= ring_capacity_of(*tx),
{
    tx.slots()
}

/// Relies on `rtrb::RingBuffer::capacity`, through `Producer::buffer`.
#[verifier::external_body]
fn ring_capacity(tx: &Producer<CollectCommand>) -> (r: usize)
    ensures
        r == ring_capacity_of(*tx),
{
    tx.buffer().capacity()
}

/// Relies on `rtrb::Consumer::pop`: the oldest message, or `None` when the
/// buffer is empty.
#[verifier::external_body]
fn ring_pop(rx: &mut Consumer<CollectCommand>) -> (r: Option<CollectCommand>)
    ensures
        match r {
            Some(v) => ring_popped(*final(rx)) == ring_popped(*old(rx)).push(v),
            None => ring_popped(*final(rx)) == ring_popped(*old(rx)),
        },
{
    rx.pop().ok()
}

/// Relies on `rtrb::Consumer::is_abandoned`: whether the producer is gone.
#[verifier::external_body]
fn ring_abandoned(rx: &Consumer<CollectCommand>) -> (r: bool) {
    rx.is_abandoned()
}

/// Relies on `std::sync::mpsc::SyncSender::try_send`: a wake-up signal is
/// sent if there is room for it; otherwise one is already pending.
#[verifier::external_body]
fn signal(tx: &SyncSender<()>) {
    tx.try_send(()).ok();
}

/// Whether `free_slots` free slots out of `capacity` mean that fewer than
/// half of the slots are free.
pub open spec fn pressure(free_slots: usize, capacity: usize) -> bool {
    free_slots as int * 2 < capacity as int
}

/// Whether `free_slots` free slots out of `capacity` mean that fewer than
/// half of the slots are free.
pub fn under_pressure(free_slots: usize, capacity: usize) -> (r: bool)
    ensures
        r == pressure(free_slots, capacity),
{
    (free_slots as u128) * 2 < capacity as u128
}

/// The sending end of a channel.
pub struct Sender {
    tx: Producer<CollectCommand>,
    pending_msgs: VecDeque<CollectCommand>,
}

/// The receiving end of a channel.
pub struct Receiver {
    rx: Consumer<CollectCommand>,
}

/// The sending end is gone and nothing is left to receive.
#[derive(Debug)]
pub struct ChannelClosed;

/// A channel whose ring buffer holds `capacity` messages.
pub fn bounded(capacity: usize) -> (r: (Sender, Receiver))
    ensures
        r.0.sent() == Seq::<CollectCommand>::empty(),
        r.0.capacity() == capacity,
        r.1.received() == Seq::<CollectCommand>::empty(),
{
    let (tx, rx) = ring_new(capacity);
    let s = Sender { tx, pending_msgs: VecDeque::new() };
    assert(s.sent() =~= Seq::<CollectCommand>::empty());
    (s, Receiver { rx })
}

impl Sender {
    /// Every message accepted so far, in order: those in the ring buffer
    /// (possibly received already), then those still waiting for room.
    pub closed spec fn sent(&self) -> Seq<CollectCommand> {
        ring_pushed(self.tx) + self.pending_msgs@
    }

    /// The number of slots of the ring buffer.
    pub closed spec fn capacity(&self) -> usize {
        ring_capacity_of(self.tx)
    }

    /// Whether fewer than half of the ring buffer's slots are free, at the
    /// moment the free slots are counted (the receiver may free more at any
    /// time).
    pub fn is_under_pressure(&self) -> (r: bool)
        ensures
            exists|free: usize|
                free <= self.capacity() && r == #[trigger] pressure(free, self.capacity()),
    {
        let capacity = ring_capacity(&self.tx);
        let slots = ring_free_slots(&self.tx);
        let r = under_pressure(slots, capacity);
        assert(slots <= self.capacity() && r == pressure(slots, self.capacity()));
        r
    }

    /// Pushes the waiting messages into the ring buffer while there is room,
    /// oldest first.
    pub fn flush_pending(&mut self)
        ensures
            final(self).sent() == old(self).sent(),
            final(self).capacity() == old(self).capacity(),
    {
        let ghost s0 = self.sent();
        loop
            invariant
                self.sent() == s0,
                s0 == old(self).sent(),
                self.capacity() == old(self).capacity(),
            decreases self.pending_msgs@.len(),
        {
            let ghost pend0 = self.pending_msgs@;
            match self.pending_msgs.pop_front() {
                Some(p) => {
                    match ring_push(&mut self.tx, p) {
                        Some(back) => {
                            self.pending_msgs.push_front(back);
                            assert(self.pending_msgs@ =~= pend0);
                            return;
                        },
                        None => {
                            assert(self.sent() =~= s0);
                        },
                    }
                },
                None => {
                    return;
                },
            }
        }
    }

    /// Sends a message without blocking: waiting messages go first, and what
    /// does not fit waits for the next send.
    pub fn send(&mut self, value: CollectCommand)
        ensures
            final(self).sent() == old(self).sent().push(value),
            final(self).capacity() == old(self).capacity(),
    {
        let ghost s0 = self.sent();
        assert(s0 == old(self).sent());
        loop
            invariant
                self.sent() == s0,
                s0 == old(self).sent(),
                self.capacity() == old(self).capacity(),
            ensures
                self.sent() == s0,
                self.pending_msgs@.len() == 0,
            decreases self.pending_msgs@.len(),
        {
            let ghost pend0 = self.pending_msgs@;
            let ghost ring0 = ring_pushed(self.tx);
            match self.pending_msgs.pop_front() {
                Some(p) => {
                    let ghost rest = self.pending_msgs@;
                    match ring_push(&mut self.tx, p) {
                        Some(back) => {
                            self.pending_msgs.push_front(back);
                            assert(self.pending_msgs@ =~= pend0);
                            assert(ring_pushed(self.tx) == ring0);
                            self.pending_msgs.push_back(value);
                            assert(self.sent() =~= s0.push(value));
                            assert(s0 == old(self).sent());
                            return;
                        },
                        None => {
                            assert(self.sent() =~= s0);
                        },
                    }
                },
                None => {
                    break;
                },
            }
        }
        let ghost s1 = self.sent();
        assert(self.pending_msgs@ =~= Seq::<CollectCommand>::empty());
        match ring_push(&mut self.tx, value) {
            Some(back) => {
                self.pending_msgs.push_back(back);
            },
            None => {},
        }
        assert(self.sent() =~= s0.push(value));
    }
}

impl Receiver {
    /// Receives up to `limit` messages, appending them to `out` in order.
    /// Returns `false` when the sender is gone and nothing is left.
    pub fn drain_into(&mut self, out: &mut Vec<CollectCommand>, limit: usize) -> (open: bool)
        ensures
            old(out)@.len() <= final(out)@.len() <= old(out)@.len() + limit,
            final(out)@.subrange(0, old(out)@.len() as int) == old(out)@,
            final(self).received() == old(self).received() + final(out)@.subrange(
                old(out)@.len() as int,
                final(out)@.len() as int,
            ),
    {
        let ghost o0 = out@;
        let ghost r0 = self.received();
        let mut n: usize = 0;
        assert(out@.subrange(o0.len() as int, out@.len() as int) =~= seq![]);
        assert(r0 + seq![] =~= r0);
        while n < limit
            invariant
                n <= limit,
                o0 == old(out)@,
                r0 == old(self).received(),
                out@.len() == o0.len() + n,
                out@.subrange(0, o0.len() as int) == o0,
                self.received() == r0 + out@.subrange(o0.len() as int, out@.len() as int),
            decreases limit - n,
        {
            let ghost before = out@;
            match self.try_recv() {
                Ok(Some(msg)) => {
                    out.push(msg);
                    assert(out@.subrange(0, o0.len() as int) =~= o0);
                    assert(out@.subrange(o0.len() as int, out@.len() as int) =~= before.subrange(
                        o0.len() as int,
                        before.len() as int,
                    ).push(msg));
                    n = n + 1;
                },
                Ok(None) => {
                    return true;
                },
                Err(_) => {
                    return false;
                },
            }
        }
        true
    }

    /// Every message received so far, in order.
    pub closed spec fn received(&self) -> Seq<CollectCommand> {
        ring_popped(self.rx)
    }

    /// The next message, `Ok(None)` when there is none yet, or `ChannelClosed`
    /// when there is none and the sender is gone.
    pub fn try_recv(&mut self) -> (r: Result<Option<CollectCommand>, ChannelClosed>)
        ensures
            match r {
                Ok(Some(v)) => final(self).received() == old(self).received().push(v),
                _ => final(self).received() == old(self).received(),
            },
    {
        match ring_pop(&mut self.rx) {
            Some(v) => Ok(Some(v)),
            None => {
                if ring_abandoned(&self.rx) {
                    Err(ChannelClosed)
                } else {
                    Ok(None)
                }
            },
        }
    }
}

/// Wakes the aggregator early.
pub struct NotifySender {
    notify_tx: SyncSender<()>,
}

impl NotifySender {
    /// A notifier over the given wake-up channel.
    pub fn new(notify_tx: SyncSender<()>) -> (r: NotifySender) {
        NotifySender { notify_tx }
    }

    /// Signals the aggregator; a signal already pending is enough.
    pub fn notify(&self) {
        signal(&self.notify_tx);
    }
}

/// A producer thread's end of the command bus.
pub struct CommandSender {
    tx: Sender,
    notify: NotifySender,
}

impl CommandSender {
    /// A command sender over a channel and a wake-up notifier.
    pub fn new(tx: Sender, notify: NotifySender) -> (r: CommandSender)
        ensures
            r.sent() == tx.sent(),
    {
        CommandSender { tx, notify }
    }

    /// Every command accepted so far, in order.
    pub closed spec fn sent(&self) -> Seq<CollectCommand> {
        self.tx.sent()
    }

    /// Sends a command, and wakes the aggregator when the channel fills up.
    pub fn send(&mut self, value: CollectCommand)
        ensures
            final(self).sent() == old(self).sent().push(value),
    {
        self.tx.send(value);
        if self.tx.is_under_pressure() {
            self.notify.notify();
        }
    }

    /// Pushes the waiting commands into the ring buffer while there is room.
    pub fn flush_pending(&mut self)
        ensures
            final(self).sent() == old(self).sent(),
    {
        self.tx.flush_pending();
    }
}

/// The messages of several batches, batch after batch.
pub open spec fn joined(batches: Seq<Seq<CollectCommand>>) -> Seq<CollectCommand>
    decreases batches.len(),
{
    if batches.len() == 0 {
        seq![]
    } else {
        joined(batches.drop_last()) + batches.last()
    }
}

/// The receivers whose flag is set, in order.
pub open spec fn kept(rxs: Seq<Receiver>, open: Seq<bool>) -> Seq<Receiver>
    decreases rxs.len(),
{
    if rxs.len() == 0 {
        seq![]
    } else {
        let p = kept(rxs.drop_last(), open);
        if open[rxs.len() - 1] {
            p.push(rxs.last())
        } else {
            p
        }
    }
}

/// Receiver `i` went from `before[i]` to `after[i]` by receiving `news[i]`,
/// at most `limit` messages, and reported its channel open or not in
/// `open[i]`.
pub open spec fn drained(
    before: Seq<Receiver>,
    after: Seq<Receiver>,
    news: Seq<Seq<CollectCommand>>,
    open: Seq<bool>,
    limit: usize,
) -> bool {
    &&& after.len() == before.len()
    &&& news.len() == before.len()
    &&& open.len() == before.len()
    &&& forall|i: int|
        0 <= i < before.len() ==> (#[trigger] news[i]).len() <= limit && after[i].received()
            == before[i].received() + news[i]
}

/// Drains a set of receivers in order, at most `limit` messages from each
/// (see [`Receiver::drain_into`]): the messages come out receiver after
/// receiver, and only the receivers whose channel is still open are kept.
pub fn drain_receivers(rxs: &mut Vec<Receiver>, limit: usize) -> (r: Vec<CollectCommand>)
    ensures
        exists|after: Seq<Receiver>, news: Seq<Seq<CollectCommand>>, open: Seq<bool>|
            #[trigger] drained(old(rxs)@, after, news, open, limit) && r@ == joined(news)
                && final(rxs)@ == kept(after, open),
{
    let ghost before = rxs@;
    let n = rxs.len();
    let mut rev: Vec<Receiver> = Vec::new();
    while rxs.len() > 0
        invariant
            n == before.len(),
            rxs@.len() + rev@.len() == n,
            rxs@ == before.subrange(0, rxs@.len() as int),
            forall|j: int| 0 <= j < rev@.len() ==> #[trigger] rev@[j] == before[n - 1 - j],
        decreases rxs@.len(),
    {
        match rxs.pop() {
            Some(x) => {
                rev.push(x);
            },
            None => {},
        }
    }
    let mut out: Vec<CollectCommand> = Vec::new();
    let mut keep: Vec<Receiver> = Vec::new();
    let ghost mut after: Seq<Receiver> = seq![];
    let ghost mut news: Seq<Seq<CollectCommand>> = seq![];
    let ghost mut opens: Seq<bool> = seq![];
    assert(out@ =~= joined(news));
    while rev.len() > 0
        invariant
            n == before.len(),
            rev@.len() + after.len() == n,
            forall|j: int| 0 <= j < rev@.len() ==> #[trigger] rev@[j] == before[n - 1 - j],
            drained(before.subrange(0, after.len() as int), after, news, opens, limit),
            out@ == joined(news),
            keep@ == kept(after, opens),
        decreases rev@.len(),
    {
        match rev.pop() {
            Some(mut rx) => {
                let ghost k: int = after.len() as int;
                assert(rx == before[k]);
                let ghost o = out@;
                let ghost rx0 = rx;
                let open = rx.drain_into(&mut out, limit);
                let ghost fresh = out@.subrange(o.len() as int, out@.len() as int);
                let ghost rx1 = rx;
                if open {
                    keep.push(rx);
                }
                proof {
                    assert forall|i: int| 0 <= i < out@.len() implies out@[i] == (o + fresh)[i] by {
                        if i < o.len() {
                            assert(out@.subrange(0, o.len() as int)[i] == out@[i]);
                        }
                    }
                    assert(out@ =~= o + fresh);
                    let a2 = after.push(rx1);
                    let n2 = news.push(fresh);
                    let o2 = opens.push(open);
                    assert(a2.drop_last() =~= after);
                    assert(n2.drop_last() =~= news);
                    assert(keep@ =~= kept(a2, o2)) by {
                        assert(kept(after, o2) == kept(after, opens)) by {
                            lemma_kept_flags(after, opens, o2);
                        }
                    }
                    let b2 = before.subrange(0, k + 1);
                    assert forall|i: int| 0 <= i < b2.len() implies (#[trigger] n2[i]).len()
                        <= limit && a2[i].received() == b2[i].received() + n2[i] by {
                        if i < k {
                            assert(before.subrange(0, k)[i] == b2[i]);
                        }
                    }
                    after = a2;
                    news = n2;
                    opens = o2;
                }
            },
            None => {},
        }
    }
    assert(before.subrange(0, n as int) =~= before);
    *rxs = keep;
    out
}

proof fn lemma_kept_flags(rxs: Seq<Receiver>, a: Seq<bool>, b: Seq<bool>)
    requires
        a.len() >= rxs.len(),
        b.len() >= rxs.len(),
        forall|i: int| 0 <= i < rxs.len() ==> a[i] == b[i],
    ensures
        kept(rxs, a) == kept(rxs, b),
    decreases rxs.len(),
{
    if rxs.len() > 0 {
        lemma_kept_flags(rxs.drop_last(), a, b);
    }
}

} // verus!
