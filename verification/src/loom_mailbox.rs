//! Interleaving model of the mailbox protocol.
//!
//! The mailbox is touched in atomic steps: the permit gate, the size counter,
//! the queue, the backpressure latch and the wakeup gate are each read or
//! written in one go, and between any two of these another thread may step in.
//! [`LoomMailbox`] offers every such step, and [`crate::crew::Crew`] a set of
//! threads that take steps in the order that a schedule says.
//!
//! What a model function promises, it promises for every schedule.
use crate::crew::{
    fresh_crew, in_hand, is, is_gate, is_roomy, law_gate_admits_capacity, law_handshake_delivers,
    law_rest_is_conserved, law_roomy_crews_send, law_wakeup_means_mail, lemma_fresh_crew,
    lemma_outcome, put, put_of, sent_by, Crew, CrewView, Mode, SenderThread,
};
use crate::rounding::{four_fifths, law_four_fifths, scale_to_four_fifths, unit_of};
use crate::sums::{lemma_sum_push, sum_of};
use std::collections::VecDeque;
use vstd::prelude::*;

verus! {

/// Wakeup contract of the single receiver.
///
/// A notification wakes a receiver that is registered at that moment and takes
/// its registration; one that registers afterwards is not woken.
pub struct WakeupGate {
    registered: bool,
}

impl View for WakeupGate {
    type V = bool;

    /// Whether the receiver is registered.
    closed spec fn view(&self) -> bool {
        self.registered
    }
}

impl WakeupGate {
    /// A gate without a registered receiver.
    pub fn new() -> (r: Self)
        ensures
            !r@,
    {
        WakeupGate { registered: false }
    }

    /// Register the receiver: a notification from this point on wakes it.
    pub fn enable(&mut self)
        ensures
            final(self)@,
    {
        self.registered = true;
    }

    /// Wake the registered receiver, if any. Tells whether there was one.
    pub fn notify_waiters(&mut self) -> (r: bool)
        ensures
            r == old(self)@,
            !final(self)@,
    {
        let woken: bool = self.registered;
        self.registered = false;
        woken
    }

    /// Whether the receiver has to go on waiting: its registration has not
    /// been taken by a notification.
    pub fn wait(&self) -> (r: bool)
        ensures
            r == self@,
    {
        self.registered
    }
}

/// Where a thread is in sending a message.
#[derive(Debug, Clone, Copy, PartialEq, Eq, Structural)]
pub enum SendStep {
    /// Before the permit gate.
    Idle,
    /// A permit was taken.
    Permitted,
    /// The message was counted; the size then was as given.
    Counted(usize),
    /// The message was enqueued.
    Enqueued(usize),
    /// The backpressure latch was looked after.
    Latched,
    /// The receiver was notified: the send succeeded.
    Sent,
    /// There was no permit: the send failed.
    Refused,
}

/// Where a thread is in receiving a message.
#[derive(Debug, Clone, Copy, PartialEq, Eq, Structural)]
pub enum RecvStep {
    /// Before the queue was looked at.
    Idle,
    /// A message was dequeued.
    Popped(usize),
    /// The message is no longer counted.
    Reduced(usize),
    /// The permit was returned.
    Returned(usize),
    /// The size was read, and was low or not.
    Loaded(usize, bool),
    /// The backpressure latch was looked after: the message is received.
    Got(usize),
    /// The queue was empty.
    Empty,
}

/// What a mailbox holds.
#[verifier::ext_equal]
pub struct BoxView {
    /// The messages, oldest first.
    pub queue: Seq<usize>,
    /// Send permits left.
    pub permits: int,
    /// The size counter.
    pub size: int,
    /// Whether the backpressure latch is set.
    pub backpressure: bool,
    /// Messages the mailbox can hold.
    pub capacity: int,
    /// Size at which backpressure sets in.
    pub threshold: int,
    /// Whether the receiver is registered for a wakeup.
    pub registered: bool,
}

impl BoxView {
    /// An empty mailbox.
    pub open spec fn empty(capacity: int) -> BoxView {
        BoxView {
            queue: Seq::empty(),
            permits: capacity,
            size: 0,
            backpressure: false,
            capacity,
            threshold: four_fifths(capacity),
            registered: false,
        }
    }

    /// Whether the accounts are those of a mailbox that no thread is at work
    /// in: every slot is a permit or a message, and every message is counted.
    pub open spec fn at_rest(self) -> bool {
        &&& self.permits >= 0
        &&& self.permits + self.queue.len() == self.capacity
        &&& self.size == self.queue.len()
    }

    /// Where one step of sending leads.
    pub open spec fn send_next(self, s: SendStep) -> SendStep {
        match s {
            SendStep::Idle => if self.permits == 0 {
                SendStep::Refused
            } else {
                SendStep::Permitted
            },
            SendStep::Permitted => SendStep::Counted((self.size + 1) as usize),
            SendStep::Counted(n) => SendStep::Enqueued(n),
            SendStep::Enqueued(_) => SendStep::Latched,
            SendStep::Latched => SendStep::Sent,
            SendStep::Sent => SendStep::Sent,
            SendStep::Refused => SendStep::Refused,
        }
    }

    /// The mailbox after one step of sending `message`.
    pub open spec fn send(self, message: usize, s: SendStep) -> BoxView {
        match s {
            SendStep::Idle => if self.permits == 0 {
                self
            } else {
                BoxView { permits: self.permits - 1, ..self }
            },
            SendStep::Permitted => BoxView { size: self.size + 1, ..self },
            SendStep::Counted(_) => BoxView { queue: self.queue.push(message), ..self },
            SendStep::Enqueued(n) => BoxView {
                backpressure: self.backpressure || n >= self.threshold,
                ..self
            },
            SendStep::Latched => BoxView { registered: false, ..self },
            SendStep::Sent => self,
            SendStep::Refused => self,
        }
    }

    /// Where one step of receiving leads.
    pub open spec fn recv_next(self, s: RecvStep) -> RecvStep {
        match s {
            RecvStep::Idle => if self.queue.len() == 0 {
                RecvStep::Empty
            } else {
                RecvStep::Popped(self.queue[0])
            },
            RecvStep::Popped(m) => RecvStep::Reduced(m),
            RecvStep::Reduced(m) => RecvStep::Returned(m),
            RecvStep::Returned(m) => RecvStep::Loaded(m, self.size < self.threshold / 2),
            RecvStep::Loaded(m, _) => RecvStep::Got(m),
            RecvStep::Got(m) => RecvStep::Got(m),
            RecvStep::Empty => RecvStep::Empty,
        }
    }

    /// The mailbox after one step of receiving.
    pub open spec fn recv(self, s: RecvStep) -> BoxView {
        match s {
            RecvStep::Idle => if self.queue.len() == 0 {
                self
            } else {
                BoxView { queue: self.queue.drop_first(), ..self }
            },
            RecvStep::Popped(_) => BoxView { size: self.size - 1, ..self },
            RecvStep::Reduced(_) => BoxView { permits: self.permits + 1, ..self },
            RecvStep::Returned(_) => self,
            RecvStep::Loaded(_, low) => BoxView {
                backpressure: self.backpressure && !low,
                ..self
            },
            RecvStep::Got(_) => self,
            RecvStep::Empty => self,
        }
    }

    /// The mailbox after `message` was sent without interruption.
    pub open spec fn sent(self, message: usize) -> BoxView {
        BoxView {
            queue: self.queue.push(message),
            permits: self.permits - 1,
            size: self.size + 1,
            backpressure: self.backpressure || self.size + 1 >= self.threshold,
            registered: false,
            ..self
        }
    }

    /// The mailbox after a message was received without interruption.
    pub open spec fn received(self) -> BoxView {
        BoxView {
            queue: self.queue.drop_first(),
            permits: self.permits + 1,
            size: self.size - 1,
            backpressure: self.backpressure && self.size - 1 >= self.threshold / 2,
            ..self
        }
    }
}

/// Mailbox whose protocol steps can be taken one at a time. Numbers stand in
/// for messages.
pub struct LoomMailbox {
    queue: VecDeque<usize>,
    /// Remaining send permits.
    permits: usize,
    /// Size accounting.
    size: usize,
    /// Backpressure latch.
    backpressure: bool,
    capacity: usize,
    backpressure_count: usize,
    notify: WakeupGate,
}

impl View for LoomMailbox {
    type V = BoxView;

    closed spec fn view(&self) -> BoxView {
        BoxView {
            queue: self.queue@,
            permits: self.permits as int,
            size: self.size as int,
            backpressure: self.backpressure,
            capacity: self.capacity as int,
            threshold: self.backpressure_count as int,
            registered: self.notify@,
        }
    }
}

impl LoomMailbox {
    /// Mailbox with capacity `capacity` and a backpressure threshold of 80% of
    /// it, computed in single precision.
    pub fn with_capacity(capacity: usize) -> (r: Self)
        ensures
            r@ == BoxView::empty(capacity as int),
            r@.at_rest(),
    {
        let count: usize = scale_to_four_fifths(capacity);
        let r = LoomMailbox {
            queue: VecDeque::new(),
            permits: capacity,
            size: 0,
            backpressure: false,
            capacity,
            backpressure_count: count,
            notify: WakeupGate::new(),
        };
        assert(r@.queue =~= Seq::empty());
        r
    }

    /// Take one step of sending `message`.
    pub fn send_step(&mut self, message: usize, s: SendStep) -> (r: SendStep)
        requires
            s is Permitted ==> old(self)@.size < usize::MAX,
        ensures
            r == old(self)@.send_next(s),
            final(self)@ == old(self)@.send(message, s),
    {
        match s {
            SendStep::Idle => {
                if self.permits == 0 {
                    return SendStep::Refused;
                }
                self.permits = self.permits - 1;
                SendStep::Permitted
            },
            SendStep::Permitted => {
                self.size = self.size + 1;
                SendStep::Counted(self.size)
            },
            SendStep::Counted(n) => {
                self.queue.push_back(message);
                SendStep::Enqueued(n)
            },
            SendStep::Enqueued(n) => {
                if n >= self.backpressure_count {
                    self.backpressure = true;
                }
                SendStep::Latched
            },
            SendStep::Latched => {
                let _ = self.notify.notify_waiters();
                SendStep::Sent
            },
            SendStep::Sent => SendStep::Sent,
            SendStep::Refused => SendStep::Refused,
        }
    }

    /// Take one step of receiving.
    pub fn recv_step(&mut self, s: RecvStep) -> (r: RecvStep)
        requires
            s is Popped ==> old(self)@.size > 0,
            s is Reduced ==> old(self)@.permits < usize::MAX,
        ensures
            r == old(self)@.recv_next(s),
            final(self)@ == old(self)@.recv(s),
    {
        match s {
            RecvStep::Idle => {
                let ghost before = self@;
                match self.queue.pop_front() {
                    Some(m) => {
                        assert(self@.queue =~= before.queue.drop_first());
                        RecvStep::Popped(m)
                    },
                    None => {
                        assert(self@ =~= before);
                        RecvStep::Empty
                    },
                }
            },
            RecvStep::Popped(m) => {
                self.size = self.size - 1;
                RecvStep::Reduced(m)
            },
            RecvStep::Reduced(m) => {
                self.permits = self.permits + 1;
                RecvStep::Returned(m)
            },
            RecvStep::Returned(m) => RecvStep::Loaded(m, self.size < self.backpressure_count / 2),
            RecvStep::Loaded(m, low) => {
                if low {
                    self.backpressure = false;
                }
                RecvStep::Got(m)
            },
            RecvStep::Got(m) => RecvStep::Got(m),
            RecvStep::Empty => RecvStep::Empty,
        }
    }

    /// Send without interruption: permit gate, size increment, enqueue,
    /// backpressure latch, notification. Fails when the mailbox is full.
    pub fn try_send(&mut self, message: usize) -> (r: bool)
        requires
            old(self)@.at_rest(),
        ensures
            final(self)@.at_rest(),
            r == (old(self)@.queue.len() < old(self)@.capacity),
            r ==> final(self)@ == old(self)@.sent(message),
            !r ==> final(self)@ == old(self)@,
    {
        let gate = self.send_step(message, SendStep::Idle);
        if gate == SendStep::Refused {
            return false;
        }
        let counted = self.send_step(message, gate);
        let queued = self.send_step(message, counted);
        let latched = self.send_step(message, queued);
        let _ = self.send_step(message, latched);
        true
    }

    /// Receive without interruption: dequeue, size decrement, permit return,
    /// backpressure re-arm.
    pub fn try_recv(&mut self) -> (r: Option<usize>)
        requires
            old(self)@.at_rest(),
        ensures
            final(self)@.at_rest(),
            r is Some <==> old(self)@.queue.len() > 0,
            r matches Some(m) ==> m == old(self)@.queue[0] && final(self)@ == old(self)@.received(),
            r is None ==> final(self)@ == old(self)@,
    {
        let popped = self.recv_step(RecvStep::Idle);
        if popped == RecvStep::Empty {
            return None;
        }
        let reduced = self.recv_step(popped);
        let returned = self.recv_step(reduced);
        let loaded = self.recv_step(returned);
        match self.recv_step(loaded) {
            RecvStep::Got(m) => Some(m),
            _ => None,
        }
    }

    /// One pass of the receive handshake: register for a wakeup first, then
    /// look. `None` means that the receiver is to wait for a notification and
    /// then try again.
    pub fn recv(&mut self) -> (r: Option<usize>)
        requires
            old(self)@.at_rest(),
        ensures
            final(self)@.at_rest(),
            final(self)@.registered,
            r is Some <==> old(self)@.queue.len() > 0,
            r matches Some(m) ==> m == old(self)@.queue[0] && final(self)@ == (BoxView {
                registered: true,
                ..old(self)@.received()
            }),
            r is None ==> final(self)@ == (BoxView { registered: true, ..old(self)@ }),
    {
        self.enable();
        self.try_recv()
    }

    /// Register the receiver for a wakeup.
    pub fn enable(&mut self)
        ensures
            final(self)@ == (BoxView { registered: true, ..old(self)@ }),
    {
        self.notify.enable();
    }

    /// Whether the receiver is registered and has not been woken.
    pub fn is_waiting(&self) -> (r: bool)
        ensures
            r == self@.registered,
    {
        self.notify.wait()
    }

    /// Send permits left.
    pub fn permits(&self) -> (r: usize)
        ensures
            r == self@.permits,
    {
        self.permits
    }

    /// The size counter.
    pub fn len(&self) -> (r: usize)
        ensures
            r == self@.size,
    {
        self.size
    }

    /// Whether the backpressure latch is set.
    pub fn is_backpressured(&self) -> (r: bool)
        ensures
            r == self@.backpressure,
    {
        self.backpressure
    }

    /// Whether the accounting is exactly conserved: every permit returned, the
    /// size counter back to zero, the queue drained.
    pub fn is_fully_drained(&self) -> (r: bool)
        ensures
            r == (self@.permits == self@.capacity && self@.size == 0 && self@.queue.len() == 0),
    {
        self.permits == self.capacity && self.size == 0 && self.queue.len() == 0
    }

    /// Receive everything that is there.
    pub(crate) fn drain_into(&mut self, got: &mut Vec<usize>)
        requires
            old(self)@.at_rest(),
        ensures
            final(self)@.at_rest(),
            final(self)@.queue.len() == 0,
            final(self)@.capacity == old(self)@.capacity,
            final(got)@ == old(got)@ + old(self)@.queue,
    {
        let ghost all = old(got)@ + self@.queue;
        let ghost capacity = self@.capacity;
        let mut next: Option<usize> = self.try_recv();
        assert(next is None ==> all =~= got@);
        assert(next matches Some(m) ==> all =~= got@.push(m) + self@.queue);
        while next.is_some()
            invariant
                self@.at_rest(),
                self@.capacity == capacity,
                all == old(got)@ + old(self)@.queue,
                next is None ==> self@.queue.len() == 0 && got@ == all,
                next matches Some(m) ==> got@.push(m) + self@.queue == all,
            decreases self@.queue.len() + (if next is Some {
                1int
            } else {
                0
            }),
        {
            if let Some(m) = next {
                got.push(m);
            }
            let ghost before = self@.queue;
            let ghost held = got@;
            next = self.try_recv();
            proof {
                assert(next is None ==> held + before =~= held);
                assert(next matches Some(m) ==> held + before =~= held.push(m) + self@.queue);
            }
        }
    }
}

/// What the capacity-gate model saw.
#[derive(Debug, Clone, Copy, PartialEq, Eq, Structural)]
pub struct GateReport {
    /// Sends that succeeded.
    pub total: usize,
    /// The size counter after the senders.
    pub len: usize,
    /// The backpressure latch after the senders.
    pub backpressured: bool,
    /// Messages that came out again.
    pub drained: usize,
    /// Whether the accounting was exactly conserved after draining.
    pub fully_drained: bool,
    /// Whether a fresh send succeeded after that.
    pub fresh_send: bool,
}

/// What a model with a receiver saw.
#[derive(Debug)]
pub struct DeliveryReport {
    /// Messages received, in order.
    pub received: Vec<usize>,
    /// Whether the accounting was exactly conserved in the end.
    pub fully_drained: bool,
}

/// The crew of the capacity gate.
pub open spec fn gate_crew() -> CrewView {
    fresh_crew(
        2,
        seq![SenderThread::fresh(0, 2, false), SenderThread::fresh(1, 2, false)],
        Mode::Off,
        0,
        0,
    )
}

/// The capacity gate.
///
/// Two senders each attempt two sends into a mailbox of capacity 2, with no
/// receiver. Under every interleaving exactly two sends succeed, the size
/// counter says so, the backpressure latch is set, all of it comes out again,
/// and after that the accounting is conserved and a fresh send succeeds.
pub fn model_capacity_gate_two_senders(schedule: &[usize]) -> (r: GateReport)
    ensures
        r.total == sum_of(gate_crew().outcome(schedule@).senders, sent_by()),
        r.len == gate_crew().outcome(schedule@).mailbox.size,
        r.backpressured == gate_crew().outcome(schedule@).mailbox.backpressure,
        r.drained == gate_crew().outcome(schedule@).mailbox.queue.len(),
        r.total == 2,
        r.len == r.total,
        r.backpressured,
        r.drained == r.total,
        r.fully_drained,
        r.fresh_send,
{
    let senders: Vec<SenderThread> = vec![
        SenderThread::new(0, 2, false),
        SenderThread::new(1, 2, false),
    ];
    let ghost start = fresh_crew(2, senders@, Mode::Off, 0, 0);
    let mut crew = Crew::new(2, senders, Mode::Off, 0, 0);
    proof {
        assert(senders@ =~= seq![
            SenderThread::fresh(0, 2, false),
            SenderThread::fresh(1, 2, false),
        ]);
        assert(four_fifths(2) == 1) by {
            reveal_with_fuel(unit_of, 3);
        }
        assert(is_gate(start));
        lemma_outcome(start, schedule@);
    }
    crew.run(schedule);
    let ghost end = crew@;
    proof {
        law_gate_admits_capacity(end);
        law_rest_is_conserved(end);
        assert(end.senders =~= seq![end.senders[0], end.senders[1]]);
        lemma_sum_push(seq![end.senders[0]], end.senders[1], sent_by());
        lemma_sum_push(Seq::empty(), end.senders[0], sent_by());
        assert(Seq::empty().push(end.senders[0]) =~= seq![end.senders[0]]);
        assert(seq![end.senders[0]].push(end.senders[1]) =~= end.senders);
    }
    let total: usize = crew.total_sent();
    let (mut mailbox, mut got) = crew.into_parts();
    let len: usize = mailbox.len();
    let backpressured: bool = mailbox.is_backpressured();
    mailbox.drain_into(&mut got);
    let drained: usize = got.len();
    let fully_drained: bool = mailbox.is_fully_drained();
    let fresh_send: bool = mailbox.try_send(9);
    GateReport { total, len, backpressured, drained, fully_drained, fresh_send }
}

/// What a roomy pair's mailbox and receiver hold in the end is one of each tag.
proof fn lemma_pair_delivered(c: CrewView, all: Seq<usize>)
    requires
        c.inv(),
        c.stuck(),
        is_roomy(c),
        c.senders.len() == 2,
        c.senders[0].tag == 1,
        c.senders[1].tag == 2,
        all == c.receiver.got + c.mailbox.queue,
    ensures
        all == seq![1usize, 2usize] || all == seq![2usize, 1usize],
{
    law_roomy_crews_send(c);
    law_rest_is_conserved(c);
    let s = c.senders;
    assert(put()(s[0]) == 1 && put()(s[1]) == 1);
    assert(Seq::empty().push(s[0]).push(s[1]) =~= s);
    assert forall|x: usize| sum_of(all, #[trigger] is(x)) == (if x == 1 || x == 2 {
        1int
    } else {
        0
    }) by {
        lemma_sum_push(Seq::empty(), s[0], put_of(x));
        lemma_sum_push(Seq::empty().push(s[0]), s[1], put_of(x));
        assert(sum_of(s, put_of(x)) == sum_of(c.mailbox.queue, is(x)) + sum_of(
            in_hand(c.receiver.phase),
            is(x),
        ) + sum_of(c.receiver.got, is(x)));
        assert(in_hand(c.receiver.phase) =~= Seq::empty());
        crate::sums::lemma_sum_add(c.receiver.got, c.mailbox.queue, is(x));
    }
    assert(all.len() == 2);
    let a = all[0];
    let b = all[1];
    assert(all =~= Seq::empty().push(a).push(b));
    assert forall|x: usize| sum_of(all, #[trigger] is(x)) == is(x)(a) + is(x)(b) by {
        lemma_sum_push(Seq::empty(), a, is(x));
        lemma_sum_push(Seq::empty().push(a), b, is(x));
    }
    assert(sum_of(all, is(1)) == 1);
    assert(sum_of(all, is(2)) == 1);
    assert(a == 1 && b == 2 || a == 2 && b == 1);
    assert(all =~= seq![1usize, 2usize] || all =~= seq![2usize, 1usize]);
}

/// The crew of the round trip.
pub open spec fn roundtrip_crew() -> CrewView {
    fresh_crew(
        2,
        seq![SenderThread::fresh(1, 4, true), SenderThread::fresh(2, 4, true)],
        Mode::Polling,
        2,
        8,
    )
}

/// Permit conservation across a send/receive round trip.
///
/// Two senders push one tagged message each; a receiver looks a bounded number
/// of times, and what it missed is drained afterwards. Under every
/// interleaving both messages come out, once each, and the mailbox is exactly
/// conserved.
pub fn model_permit_conservation_roundtrip(schedule: &[usize]) -> (r: DeliveryReport)
    ensures
        r.received@ == roundtrip_crew().outcome(schedule@).receiver.got
            + roundtrip_crew().outcome(schedule@).mailbox.queue,
        r.received@ == seq![1usize, 2usize] || r.received@ == seq![2usize, 1usize],
        r.fully_drained,
{
    let senders: Vec<SenderThread> = vec![
        SenderThread::new(1, 4, true),
        SenderThread::new(2, 4, true),
    ];
    let ghost start = fresh_crew(2, senders@, Mode::Polling, 2, 8);
    let mut crew = Crew::new(2, senders, Mode::Polling, 2, 8);
    proof {
        assert(senders@ =~= seq![
            SenderThread::fresh(1, 4, true),
            SenderThread::fresh(2, 4, true),
        ]);
        assert(is_roomy(start));
        lemma_outcome(start, schedule@);
    }
    crew.run(schedule);
    let ghost end = crew@;
    proof {
        law_rest_is_conserved(end);
    }
    let (mut mailbox, mut received) = crew.into_parts();
    mailbox.drain_into(&mut received);
    proof {
        lemma_pair_delivered(end, received@);
    }
    DeliveryReport { received, fully_drained: mailbox.is_fully_drained() }
}

/// The crew of one sender and a receiver that works by the handshake.
pub open spec fn wakeup_crew() -> CrewView {
    fresh_crew(2, seq![SenderThread::fresh(1, 1, true)], Mode::Handshake, 1, 0)
}

/// The receive handshake never loses a wakeup.
///
/// One receiver registers, looks and waits; one sender sends. Under every
/// interleaving the receiver ends up with the message.
pub fn model_recv_no_lost_wakeup(schedule: &[usize]) -> (r: DeliveryReport)
    ensures
        r.received@ == wakeup_crew().outcome(schedule@).receiver.got,
        r.received@ == seq![1usize],
        r.fully_drained,
{
    let senders: Vec<SenderThread> = vec![SenderThread::new(1, 1, true)];
    let ghost start = fresh_crew(2, senders@, Mode::Handshake, 1, 0);
    let mut crew = Crew::new(2, senders, Mode::Handshake, 1, 0);
    proof {
        assert(senders@ =~= seq![SenderThread::fresh(1, 1, true)]);
        assert(is_roomy(start));
        lemma_outcome(start, schedule@);
    }
    crew.run(schedule);
    proof {
        law_handshake_delivers(crew@);
        lemma_single_delivered(crew@);
    }
    let (mailbox, received) = crew.into_parts();
    DeliveryReport { received, fully_drained: mailbox.is_fully_drained() }
}

/// A wakeup means mail: at every point of every schedule of the lone sender
/// and receiver, the message is in the queue when the receiver's wait is over.
pub proof fn law_lone_wakeup_means_mail(schedule: Seq<usize>)
    ensures
        ({
            let c = wakeup_crew().played(schedule);
            c.receiver.phase is Parked && !c.mailbox.registered ==> c.mailbox.queue.len() > 0
        }),
{
    let senders = seq![SenderThread::fresh(1, 1, true)];
    lemma_fresh_crew(2, senders, Mode::Handshake, 1, 0);
    law_wakeup_means_mail(wakeup_crew(), schedule);
}

/// What a lone sender's mailbox and receiver hold in the end is its message.
proof fn lemma_single_delivered(c: CrewView)
    requires
        c.inv(),
        c.stuck(),
        is_roomy(c),
        c.senders.len() == 1,
        c.senders[0].tag == 1,
    ensures
        c.receiver.got.len() == 1 ==> c.receiver.got == seq![1usize],
        c.mailbox.queue.len() == 1 ==> c.mailbox.queue == seq![1usize],
        c.receiver.got.len() + c.mailbox.queue.len() == 1,
{
    law_roomy_crews_send(c);
    law_rest_is_conserved(c);
    let s = c.senders;
    assert(put()(s[0]) == 1);
    assert(Seq::empty().push(s[0]) =~= s);
    lemma_sum_push(Seq::empty(), s[0], put_of(1));
    assert(sum_of(s, put_of(1)) == sum_of(c.mailbox.queue, is(1)) + sum_of(
        in_hand(c.receiver.phase),
        is(1),
    ) + sum_of(c.receiver.got, is(1)));
    assert(in_hand(c.receiver.phase) =~= Seq::empty());
    if c.receiver.got.len() == 1 {
        let a = c.receiver.got[0];
        assert(c.receiver.got =~= Seq::empty().push(a));
        lemma_sum_push(Seq::empty(), a, is(1));
        assert(c.mailbox.queue =~= Seq::empty());
        assert(c.receiver.got =~= seq![1usize]);
    } else {
        let a = c.mailbox.queue[0];
        assert(c.mailbox.queue =~= Seq::empty().push(a));
        lemma_sum_push(Seq::empty(), a, is(1));
        assert(c.receiver.got =~= Seq::empty());
        assert(c.mailbox.queue =~= seq![1usize]);
    }
}

/// The crew of two senders and a receiver that works by the handshake.
pub open spec fn handshake_crew() -> CrewView {
    fresh_crew(
        2,
        seq![SenderThread::fresh(1, 1, true), SenderThread::fresh(2, 1, true)],
        Mode::Handshake,
        2,
        0,
    )
}

/// Two senders, one receiver: no loss, no duplication, no missed wakeup.
///
/// Both senders push a distinct tag; the receiver drains both by the
/// handshake. Under every interleaving it receives each exactly once, and the
/// mailbox is fully drained.
pub fn model_two_senders_receiver_drains_via_handshake(schedule: &[usize]) -> (r: DeliveryReport)
    ensures
        r.received@ == handshake_crew().outcome(schedule@).receiver.got,
        r.received@ == seq![1usize, 2usize] || r.received@ == seq![2usize, 1usize],
        r.fully_drained,
{
    let senders: Vec<SenderThread> = vec![
        SenderThread::new(1, 1, true),
        SenderThread::new(2, 1, true),
    ];
    let ghost start = fresh_crew(2, senders@, Mode::Handshake, 2, 0);
    let mut crew = Crew::new(2, senders, Mode::Handshake, 2, 0);
    proof {
        assert(senders@ =~= seq![
            SenderThread::fresh(1, 1, true),
            SenderThread::fresh(2, 1, true),
        ]);
        assert(is_roomy(start));
        lemma_outcome(start, schedule@);
    }
    crew.run(schedule);
    proof {
        let end = crew@;
        law_handshake_delivers(end);
        assert(end.receiver.got + end.mailbox.queue =~= end.receiver.got);
        lemma_pair_delivered(end, end.receiver.got);
    }
    let (mailbox, received) = crew.into_parts();
    DeliveryReport { received, fully_drained: mailbox.is_fully_drained() }
}

/// The crew of the broken variant.
pub open spec fn broken_crew() -> CrewView {
    fresh_crew(2, seq![SenderThread::fresh(1, 1, true)], Mode::Broken, 1, 0)
}

/// A deliberately broken variant: the receiver looks before it registers.
///
/// Under some interleavings (the receiver finds nothing, the sender enqueues
/// and notifies nobody, the receiver registers and waits) the wakeup is lost:
/// nothing is received, and the message stays in the mailbox. Under the others
/// the message is received. The schedule decides, as [`CrewView::outcome`]
/// says.
pub fn model_broken_recv_loses_wakeup(schedule: &[usize]) -> (r: DeliveryReport)
    ensures
        r.received@ == broken_crew().outcome(schedule@).receiver.got,
        r.received@ == seq![1usize] || r.received@ == Seq::<usize>::empty(),
        r.fully_drained == (r.received@ == seq![1usize]),
{
    let senders: Vec<SenderThread> = vec![SenderThread::new(1, 1, true)];
    let ghost start = fresh_crew(2, senders@, Mode::Broken, 1, 0);
    let mut crew = Crew::new(2, senders, Mode::Broken, 1, 0);
    proof {
        assert(senders@ =~= seq![SenderThread::fresh(1, 1, true)]);
        assert(is_roomy(start));
        lemma_outcome(start, schedule@);
    }
    crew.run(schedule);
    proof {
        let end = crew@;
        law_rest_is_conserved(end);
        lemma_single_delivered(end);
        if end.receiver.got.len() == 0 {
            assert(end.receiver.got =~= Seq::empty());
        }
    }
    let (mailbox, received) = crew.into_parts();
    DeliveryReport { received, fully_drained: mailbox.is_fully_drained() }
}

/// The schedule by which the broken variant loses the wakeup: the receiver
/// looks, the sender sends and notifies, the receiver registers and waits.
pub open spec fn losing_schedule() -> Seq<usize> {
    seq![1usize, 0, 0, 0, 0, 0, 1]
}

/// Offering one more turn.
proof fn lemma_played_push(c: CrewView, schedule: Seq<usize>, turn: usize)
    ensures
        c.played(schedule.push(turn)) == c.played(schedule).offered(turn),
{
    assert(schedule.push(turn).drop_last() =~= schedule);
}

/// The broken variant can lose the wakeup: by the losing schedule nothing is
/// ever received, though the message was sent and is in the mailbox.
pub proof fn law_broken_handshake_loses()
    ensures
        broken_crew().outcome(losing_schedule()).receiver.got == Seq::<usize>::empty(),
        broken_crew().outcome(losing_schedule()).mailbox.queue == seq![1usize],
        broken_crew().outcome(losing_schedule()).stuck(),
{
    let c = broken_crew();
    let none = Seq::<usize>::empty();
    let s1 = none.push(1);
    let s2 = s1.push(0);
    let s3 = s2.push(0);
    let s4 = s3.push(0);
    let s5 = s4.push(0);
    let s6 = s5.push(0);
    let s7 = s6.push(1);
    assert(s7 =~= losing_schedule());
    assert(four_fifths(2) == 1) by {
        reveal_with_fuel(unit_of, 3);
    }
    lemma_played_push(c, none, 1);
    lemma_played_push(c, s1, 0);
    lemma_played_push(c, s2, 0);
    lemma_played_push(c, s3, 0);
    lemma_played_push(c, s4, 0);
    lemma_played_push(c, s5, 0);
    lemma_played_push(c, s6, 1);
    assert(c.played(none) == c);
    assert(c.played(s1).receiver.phase is Late);
    assert(c.played(s2).senders[0].step is Permitted);
    assert(c.played(s3).senders[0].step == SendStep::Counted(1));
    assert(c.played(s4).senders[0].step == SendStep::Enqueued(1));
    assert(c.played(s5).senders[0].step is Latched);
    assert(c.played(s6).senders[0].step is Sent);
    let d = c.played(s7);
    assert(d.receiver.phase is Parked);
    assert(d.mailbox.registered);
    assert(d.receiver.got =~= none);
    assert(d.mailbox.queue =~= seq![1usize]);
    assert(!d.runnable(0) && !d.runnable(1));
    assert(d.first_from(0) == 2) by {
        reveal_with_fuel(CrewView::first_from, 3);
    }
    assert(c.outcome(losing_schedule()) == d);
}

/// What each step of sending does: without a permit the send fails and nothing
/// changes; otherwise a permit is taken, the message is counted, it is put
/// behind the others, the latch is set where the count came to the threshold,
/// and the receiver's registration is taken. Each step changes this and
/// nothing else, and leads to the next.
pub proof fn law_send_protocol(b: BoxView, message: usize, n: usize)
    requires
        0 <= b.size < usize::MAX,
    ensures
        b.permits == 0 ==> b.send_next(SendStep::Idle) == SendStep::Refused && b.send(
            message,
            SendStep::Idle,
        ) == b,
        b.permits != 0 ==> b.send_next(SendStep::Idle) == SendStep::Permitted && b.send(
            message,
            SendStep::Idle,
        ) == (BoxView { permits: b.permits - 1, ..b }),
        b.send_next(SendStep::Permitted) matches SendStep::Counted(k) && k == b.size + 1,
        b.send(message, SendStep::Permitted) == (BoxView { size: b.size + 1, ..b }),
        b.send_next(SendStep::Counted(n)) == SendStep::Enqueued(n),
        b.send(message, SendStep::Counted(n)) == (BoxView { queue: b.queue.push(message), ..b }),
        b.send_next(SendStep::Enqueued(n)) == SendStep::Latched,
        n < b.threshold ==> b.send(message, SendStep::Enqueued(n)) == b,
        n >= b.threshold ==> b.send(message, SendStep::Enqueued(n)) == (BoxView {
            backpressure: true,
            ..b
        }),
        b.send_next(SendStep::Latched) == SendStep::Sent,
        b.send(message, SendStep::Latched) == (BoxView { registered: false, ..b }),
        b.send_next(SendStep::Sent) == SendStep::Sent,
        b.send(message, SendStep::Sent) == b,
        b.send_next(SendStep::Refused) == SendStep::Refused,
        b.send(message, SendStep::Refused) == b,
{
}

/// What each step of receiving does: from an empty queue nothing is received
/// and nothing changes; otherwise the oldest message is taken, it is counted no
/// longer, its permit is returned, the count is read, and the latch is cleared
/// where the count was below half the threshold. Each step changes this and
/// nothing else, and leads to the next.
pub proof fn law_recv_protocol(b: BoxView, m: usize, low: bool)
    ensures
        b.queue.len() == 0 ==> b.recv_next(RecvStep::Idle) == RecvStep::Empty && b.recv(
            RecvStep::Idle,
        ) == b,
        b.queue.len() > 0 ==> b.recv_next(RecvStep::Idle) == RecvStep::Popped(b.queue[0])
            && b.recv(RecvStep::Idle) == (BoxView { queue: b.queue.skip(1), ..b }),
        b.recv_next(RecvStep::Popped(m)) == RecvStep::Reduced(m),
        b.recv(RecvStep::Popped(m)) == (BoxView { size: b.size - 1, ..b }),
        b.recv_next(RecvStep::Reduced(m)) == RecvStep::Returned(m),
        b.recv(RecvStep::Reduced(m)) == (BoxView { permits: b.permits + 1, ..b }),
        b.recv_next(RecvStep::Returned(m)) == RecvStep::Loaded(m, 2 * b.size + 1 < b.threshold),
        b.recv(RecvStep::Returned(m)) == b,
        b.recv_next(RecvStep::Loaded(m, low)) == RecvStep::Got(m),
        low ==> b.recv(RecvStep::Loaded(m, low)) == (BoxView { backpressure: false, ..b }),
        !low ==> b.recv(RecvStep::Loaded(m, low)) == b,
        b.recv_next(RecvStep::Got(m)) == RecvStep::Got(m),
        b.recv(RecvStep::Got(m)) == b,
        b.recv_next(RecvStep::Empty) == RecvStep::Empty,
        b.recv(RecvStep::Empty) == b,
{
    if b.queue.len() > 0 {
        assert(b.queue.drop_first() =~= b.queue.skip(1));
    }
}

/// What a send and a receive do when nothing comes between their steps, and
/// what a new mailbox is: all permits, nothing in it, and under pressure from
/// four fifths of its capacity on.
pub proof fn law_whole_operations(b: BoxView, message: usize, capacity: int)
    ensures
        b.sent(message) == (BoxView {
            queue: b.queue.push(message),
            permits: b.permits - 1,
            size: b.size + 1,
            backpressure: b.backpressure || b.size + 1 >= b.threshold,
            registered: false,
            ..b
        }),
        b.queue.len() > 0 ==> b.received() == (BoxView {
            queue: b.queue.skip(1),
            permits: b.permits + 1,
            size: b.size - 1,
            backpressure: b.backpressure && 2 * b.size > b.threshold,
            ..b
        }),
        BoxView::empty(capacity).queue.len() == 0,
        BoxView::empty(capacity).permits == capacity,
        BoxView::empty(capacity).capacity == capacity,
        BoxView::empty(capacity).size == 0,
        !BoxView::empty(capacity).backpressure,
        !BoxView::empty(capacity).registered,
        0 <= capacity <= 3_355_443 ==> BoxView::empty(capacity).threshold == 4 * capacity / 5,
        b.at_rest() == (b.permits >= 0 && b.permits == b.capacity - b.queue.len() && b.size
            == b.queue.len()),
{
    if capacity >= 0 {
        law_four_fifths(capacity);
    }
    if b.queue.len() > 0 {
        assert(b.queue.drop_first() =~= b.queue.skip(1));
    }
}

/// The crews that the models put to work.
pub proof fn law_model_crews()
    ensures
        ({
            let c = gate_crew();
            &&& c.mailbox == BoxView::empty(2)
            &&& c.receiver.mode == Mode::Off
            &&& c.senders.len() == 2
            &&& c.senders[0].tag == 0 && c.senders[0].tries == 2 && !c.senders[0].until_sent
            &&& c.senders[1].tag == 1 && c.senders[1].tries == 2 && !c.senders[1].until_sent
        }),
        ({
            let c = roundtrip_crew();
            &&& c.mailbox == BoxView::empty(2)
            &&& c.receiver.mode == Mode::Polling
            &&& c.receiver.wants == 2
            &&& c.receiver.tries == 8
            &&& c.senders.len() == 2
            &&& c.senders[0].tag == 1 && c.senders[0].tries == 4 && c.senders[0].until_sent
            &&& c.senders[1].tag == 2 && c.senders[1].tries == 4 && c.senders[1].until_sent
        }),
        ({
            let c = wakeup_crew();
            &&& c.mailbox == BoxView::empty(2)
            &&& c.receiver.mode == Mode::Handshake
            &&& c.receiver.wants == 1
            &&& c.senders.len() == 1
            &&& c.senders[0].tag == 1 && c.senders[0].tries == 1 && c.senders[0].until_sent
        }),
        ({
            let c = handshake_crew();
            &&& c.mailbox == BoxView::empty(2)
            &&& c.receiver.mode == Mode::Handshake
            &&& c.receiver.wants == 2
            &&& c.senders.len() == 2
            &&& c.senders[0].tag == 1 && c.senders[0].tries == 1 && c.senders[0].until_sent
            &&& c.senders[1].tag == 2 && c.senders[1].tries == 1 && c.senders[1].until_sent
        }),
        ({
            let c = broken_crew();
            &&& c.mailbox == BoxView::empty(2)
            &&& c.receiver.mode == Mode::Broken
            &&& c.receiver.wants == 1
            &&& c.senders.len() == 1
            &&& c.senders[0].tag == 1 && c.senders[0].tries == 1 && c.senders[0].until_sent
        }),
{
}

} // verus!
