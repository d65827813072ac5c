//! Threads at work in one mailbox, a step at a time.
//!
//! A [`Crew`] is any number of senders and at most one receiver. A schedule
//! says whose turn it is; whoever cannot move lets the turn pass. What is
//! proved of a crew holds for every schedule, that is for every way in which
//! the threads' steps can interleave.
use crate::loom_mailbox::{BoxView, LoomMailbox, RecvStep, SendStep};
use crate::sums::{
    lemma_sum_at_most, lemma_sum_le, lemma_sum_nonneg, lemma_sum_of_ones, lemma_sum_push,
    lemma_sum_update, sum_of,
};
use vstd::prelude::*;

verus! {

/// A thread that sends its tag, up to a number of times.
#[derive(Debug, Clone, Copy, PartialEq, Eq, Structural)]
pub struct SenderThread {
    /// What it sends.
    pub tag: usize,
    /// Sends it was given to try.
    pub given: usize,
    /// Sends it has not begun.
    pub tries: usize,
    /// Whether it stops after its first success.
    pub until_sent: bool,
    /// Where it is.
    pub step: SendStep,
    /// Sends that succeeded.
    pub sent: usize,
}

impl SenderThread {
    /// A thread that has not begun.
    pub open spec fn fresh(tag: usize, given: usize, until_sent: bool) -> SenderThread {
        SenderThread { tag, given, tries: given, until_sent, step: SendStep::Idle, sent: 0 }
    }

    /// A thread that has not begun.
    pub fn new(tag: usize, given: usize, until_sent: bool) -> (r: Self)
        ensures
            r == SenderThread::fresh(tag, given, until_sent),
    {
        SenderThread { tag, given, tries: given, until_sent, step: SendStep::Idle, sent: 0 }
    }

    /// Whether the thread has nothing left to do.
    pub open spec fn finished(self) -> bool {
        match self.step {
            SendStep::Sent => self.until_sent || self.tries == 0,
            SendStep::Refused => self.tries == 0,
            SendStep::Idle => self.tries == 0,
            _ => false,
        }
    }

    /// Whether the thread has nothing left to do.
    pub fn is_finished(&self) -> (r: bool)
        ensures
            r == self.finished(),
    {
        match self.step {
            SendStep::Sent => self.until_sent || self.tries == 0,
            SendStep::Refused => self.tries == 0,
            SendStep::Idle => self.tries == 0,
            _ => false,
        }
    }

    /// Where the thread goes on: a finished send is followed by the next.
    pub open spec fn at(self) -> SendStep {
        match self.step {
            SendStep::Sent => SendStep::Idle,
            SendStep::Refused => SendStep::Idle,
            s => s,
        }
    }

    /// The thread after one step in a mailbox.
    pub open spec fn stepped(self, b: BoxView) -> SenderThread {
        SenderThread {
            step: b.send_next(self.at()),
            tries: if self.at() is Idle {
                (self.tries - 1) as usize
            } else {
                self.tries
            },
            sent: if self.at() is Latched {
                (self.sent + 1) as usize
            } else {
                self.sent
            },
            ..self
        }
    }
}

/// How a receiver goes about its work.
#[derive(Debug, Clone, Copy, PartialEq, Eq, Structural)]
pub enum Mode {
    /// There is no receiver.
    Off,
    /// It looks a number of times.
    Polling,
    /// It registers for a wakeup, looks, and waits if there was nothing.
    Handshake,
    /// It looks, registers for a wakeup if there was nothing, and waits.
    Broken,
}

/// Where a receiver is.
#[derive(Debug, Clone, Copy, PartialEq, Eq, Structural)]
pub enum Phase {
    /// About to begin.
    Ready,
    /// Receiving.
    Trying(RecvStep),
    /// Found nothing, and not registered yet.
    Late,
    /// Waiting for a wakeup.
    Parked,
    /// Done.
    Done,
}

/// What a receiver has done so far.
#[verifier::ext_equal]
pub struct ReceiverView {
    /// How it goes about its work.
    pub mode: Mode,
    /// Where it is.
    pub phase: Phase,
    /// What it received.
    pub got: Seq<usize>,
    /// How many messages it wants.
    pub wants: int,
    /// How often it still looks, when polling.
    pub tries: int,
}

impl ReceiverView {
    /// Where an attempt to receive leads.
    pub open spec fn after(self, s: RecvStep) -> ReceiverView {
        let got = match s {
            RecvStep::Got(m) => self.got.push(m),
            _ => self.got,
        };
        let over = s is Got || s is Empty;
        let tries = if over && self.mode is Polling {
            self.tries - 1
        } else {
            self.tries
        };
        let phase = match s {
            RecvStep::Got(_) => if got.len() >= self.wants || (self.mode is Polling && tries
                == 0) {
                Phase::Done
            } else {
                Phase::Ready
            },
            RecvStep::Empty => match self.mode {
                Mode::Handshake => Phase::Parked,
                Mode::Broken => Phase::Late,
                _ => if tries == 0 {
                    Phase::Done
                } else {
                    Phase::Ready
                },
            },
            _ => Phase::Trying(s),
        };
        ReceiverView { got, tries, phase, ..self }
    }

    /// Whether the receiver can move.
    pub open spec fn runnable(self, b: BoxView) -> bool {
        !(self.phase is Done) && !(self.phase is Parked && b.registered)
    }

    /// The receiver after one step in a mailbox.
    pub open spec fn stepped(self, b: BoxView) -> ReceiverView {
        match self.phase {
            Phase::Ready => if self.mode is Handshake {
                ReceiverView { phase: Phase::Trying(RecvStep::Idle), ..self }
            } else {
                self.after(b.recv_next(RecvStep::Idle))
            },
            Phase::Trying(s) => self.after(b.recv_next(s)),
            Phase::Late => ReceiverView { phase: Phase::Parked, ..self },
            Phase::Parked => ReceiverView { phase: Phase::Ready, ..self },
            Phase::Done => self,
        }
    }

    /// The mailbox after one step of the receiver.
    pub open spec fn touched(self, b: BoxView) -> BoxView {
        match self.phase {
            Phase::Ready => if self.mode is Handshake {
                BoxView { registered: true, ..b }
            } else {
                b.recv(RecvStep::Idle)
            },
            Phase::Trying(s) => b.recv(s),
            Phase::Late => BoxView { registered: true, ..b },
            _ => b,
        }
    }
}

/// Threads at work in a mailbox.
#[verifier::ext_equal]
pub struct CrewView {
    /// The mailbox.
    pub mailbox: BoxView,
    /// The senders.
    pub senders: Seq<SenderThread>,
    /// The receiver.
    pub receiver: ReceiverView,
}

/// One while a thread holds a permit for a message that is not enqueued.
pub open spec fn holding() -> spec_fn(SenderThread) -> int {
    |t: SenderThread|
        if t.step is Permitted || t.step is Counted {
            1
        } else {
            0
        }
}

/// One while a thread's message is counted and not enqueued.
pub open spec fn counting() -> spec_fn(SenderThread) -> int {
    |t: SenderThread|
        if t.step is Counted {
            1
        } else {
            0
        }
}

/// One while a thread's message is enqueued and the receiver not notified.
pub open spec fn enqueued() -> spec_fn(SenderThread) -> int {
    |t: SenderThread|
        if t.step is Enqueued || t.step is Latched {
            1
        } else {
            0
        }
}

/// Messages that a thread has enqueued.
pub open spec fn put() -> spec_fn(SenderThread) -> int {
    |t: SenderThread| t.sent + enqueued()(t)
}

/// Copies of `x` that a thread has enqueued.
pub open spec fn put_of(x: usize) -> spec_fn(SenderThread) -> int {
    |t: SenderThread|
        if t.tag == x {
            put()(t)
        } else {
            0
        }
}

/// One for every `x`.
pub open spec fn is(x: usize) -> spec_fn(usize) -> int {
    |y: usize|
        if y == x {
            1
        } else {
            0
        }
}

/// One while the receiver keeps a permit of a message that it dequeued.
pub open spec fn keeping(p: Phase) -> int {
    match p {
        Phase::Trying(RecvStep::Popped(_)) => 1,
        Phase::Trying(RecvStep::Reduced(_)) => 1,
        _ => 0,
    }
}

/// One while a message that the receiver dequeued is still counted.
pub open spec fn popped(p: Phase) -> int {
    match p {
        Phase::Trying(RecvStep::Popped(_)) => 1,
        _ => 0,
    }
}

/// The message that the receiver has in hand.
pub open spec fn in_hand(p: Phase) -> Seq<usize> {
    match p {
        Phase::Trying(RecvStep::Popped(m)) => seq![m],
        Phase::Trying(RecvStep::Reduced(m)) => seq![m],
        Phase::Trying(RecvStep::Returned(m)) => seq![m],
        Phase::Trying(RecvStep::Loaded(m, _)) => seq![m],
        _ => Seq::empty(),
    }
}

impl CrewView {
    /// Whether a thread can move. The receiver comes after the senders.
    pub open spec fn runnable(self, i: int) -> bool {
        if 0 <= i < self.senders.len() {
            !self.senders[i].finished()
        } else {
            i == self.senders.len() && self.receiver.runnable(self.mailbox)
        }
    }

    /// The crew after a thread took a step.
    pub open spec fn advanced(self, i: int) -> CrewView {
        if 0 <= i < self.senders.len() {
            let t = self.senders[i];
            CrewView {
                mailbox: self.mailbox.send(t.tag, t.at()),
                senders: self.senders.update(i, t.stepped(self.mailbox)),
                ..self
            }
        } else {
            CrewView {
                mailbox: self.receiver.touched(self.mailbox),
                receiver: self.receiver.stepped(self.mailbox),
                ..self
            }
        }
    }

    /// The crew after a turn was offered to a thread.
    pub open spec fn offered(self, turn: usize) -> CrewView {
        let i = turn as int % (self.senders.len() as int + 1);
        if self.runnable(i) {
            self.advanced(i)
        } else {
            self
        }
    }

    /// The crew after turns were offered as a schedule says.
    pub open spec fn played(self, schedule: Seq<usize>) -> CrewView
        decreases schedule.len(),
    {
        if schedule.len() == 0 {
            self
        } else {
            self.played(schedule.drop_last()).offered(schedule.last())
        }
    }

    /// Whether no thread can move.
    pub open spec fn stuck(self) -> bool {
        forall|i: int| !#[trigger] self.runnable(i)
    }

    /// The first thread from `i` on that can move, or the number of threads.
    pub open spec fn first_from(self, i: int) -> int
        decreases self.senders.len() + 1 - i,
    {
        if i > self.senders.len() || self.runnable(i) {
            i
        } else {
            self.first_from(i + 1)
        }
    }

    /// The crew after the first thread that can move moved, up to `n` times.
    pub open spec fn finished(self, n: nat) -> CrewView
        decreases n,
    {
        let i = self.first_from(0);
        if n == 0 || i > self.senders.len() {
            self
        } else {
            self.advanced(i).finished((n - 1) as nat)
        }
    }

    /// The crew at the end of a schedule, once nobody can move.
    pub open spec fn outcome(self, schedule: Seq<usize>) -> CrewView {
        let c = self.played(schedule);
        c.finished(c.work() as nat)
    }

    /// Permits and sizes are accounted for, whatever steps are half done.
    pub open spec fn accounted(self) -> bool {
        let b = self.mailbox;
        &&& 0 <= b.permits
        &&& b.capacity <= usize::MAX
        &&& b.capacity == b.permits + b.queue.len() + sum_of(self.senders, holding()) + keeping(
            self.receiver.phase,
        )
        &&& b.size == b.queue.len() + sum_of(self.senders, counting()) + popped(
            self.receiver.phase,
        )
    }

    /// Messages are neither made nor lost: what was enqueued is in the queue,
    /// in the receiver's hand or received.
    pub open spec fn conserved(self) -> bool {
        &&& sum_of(self.senders, put()) == self.mailbox.queue.len() + in_hand(
            self.receiver.phase,
        ).len() + self.receiver.got.len()
        &&& forall|x: usize|
            sum_of(self.senders, #[trigger] put_of(x)) == sum_of(self.mailbox.queue, is(x))
                + sum_of(in_hand(self.receiver.phase), is(x)) + sum_of(self.receiver.got, is(x))
    }

    /// A receiver that waits by the handshake has either nothing to receive,
    /// or a wakeup coming.
    pub open spec fn awake(self) -> bool {
        self.receiver.mode is Handshake && self.receiver.phase is Parked && self.mailbox.registered
            ==> self.mailbox.queue.len() == 0 || sum_of(self.senders, enqueued()) > 0
    }

    /// The receiver is where its way of working can take it.
    pub open spec fn receiver_sane(self) -> bool {
        let r = self.receiver;
        &&& r.phase is Trying ==> !(r.phase->Trying_0 is Got) && !(r.phase->Trying_0 is Empty)
        &&& r.phase is Trying && r.phase->Trying_0 is Idle ==> r.mode is Handshake
        &&& r.phase is Parked ==> r.mode is Handshake || r.mode is Broken
        &&& r.phase is Late ==> r.mode is Broken
        &&& r.mode is Off ==> r.phase is Done
        &&& !(r.phase is Done) ==> r.got.len() < r.wants
        &&& r.mode is Polling && !(r.phase is Done) ==> r.tries > 0
        &&& r.phase is Done && (r.mode is Handshake || r.mode is Broken) ==> r.got.len() == r.wants
    }

    /// Each sender has begun no more sends than it was given.
    pub open spec fn senders_sane(self) -> bool {
        forall|i: int| 0 <= i < self.senders.len() ==> sender_sane(#[trigger] self.senders[i])
    }

    /// All invariants of a crew.
    pub open spec fn inv(self) -> bool {
        &&& self.accounted()
        &&& self.conserved()
        &&& self.awake()
        &&& self.receiver_sane()
        &&& self.senders_sane()
    }

    /// The work left: no step adds to it, and every step takes from it.
    pub open spec fn work(self) -> int {
        20 * sum_of(self.senders, sender_work()) + receiver_work(self.receiver, self.mailbox)
    }
}

/// Whether a thread has begun no more sends than it was given.
pub open spec fn sender_sane(t: SenderThread) -> bool {
    &&& t.sent + t.tries + (if t.at() is Idle {
        0int
    } else {
        1
    }) <= t.given
    &&& t.step is Sent ==> t.sent > 0
}

/// The work left to a sender.
pub open spec fn sender_work() -> spec_fn(SenderThread) -> int {
    |t: SenderThread|
        if t.finished() {
            0
        } else {
            6 * t.tries + match t.step {
                SendStep::Permitted => 5,
                SendStep::Counted(_) => 4,
                SendStep::Enqueued(_) => 3,
                SendStep::Latched => 2,
                _ => 0int,
            }
        }
}

/// The work left in one attempt to receive.
pub open spec fn attempt_work(s: RecvStep) -> int {
    match s {
        RecvStep::Idle => 7,
        RecvStep::Popped(_) => 6,
        RecvStep::Reduced(_) => 5,
        RecvStep::Returned(_) => 4,
        RecvStep::Loaded(_, _) => 3,
        _ => 0,
    }
}

/// The work left to a receiver.
pub open spec fn receiver_work(r: ReceiverView, b: BoxView) -> int {
    let woken = if b.registered {
        0int
    } else {
        12
    };
    match r.phase {
        Phase::Done => 0,
        Phase::Ready => if r.mode is Polling {
            8 * r.tries
        } else {
            20 * (r.wants - r.got.len()) + 10
        },
        Phase::Trying(s) => if r.mode is Polling {
            8 * r.tries + attempt_work(s) - 7
        } else if r.mode is Handshake {
            20 * (r.wants - r.got.len()) + attempt_work(s) + woken
        } else {
            20 * (r.wants - r.got.len()) + attempt_work(s)
        },
        Phase::Late => 20 * (r.wants - r.got.len()) + 9,
        Phase::Parked => 20 * (r.wants - r.got.len()) + woken,
    }
}

/// The sum over a list with its first element taken off.
proof fn lemma_sum_drop_first(s: Seq<usize>, f: spec_fn(usize) -> int)
    requires
        s.len() > 0,
    ensures
        sum_of(s.drop_first(), f) == sum_of(s, f) - f(s[0]),
{
    crate::sums::lemma_sum_remove(s, 0, f);
    assert(s.drop_first() =~= s.remove(0));
}

/// The sum over a list of one.
proof fn lemma_sum_one(m: usize, f: spec_fn(usize) -> int)
    ensures
        sum_of(seq![m], f) == f(m),
        sum_of(Seq::<usize>::empty(), f) == 0,
{
    lemma_sum_push(Seq::empty(), m, f);
    assert(Seq::empty().push(m) =~= seq![m]);
}

/// A sender's step keeps every invariant.
proof fn lemma_sender_step(c: CrewView, i: int)
    requires
        c.inv(),
        0 <= i < c.senders.len(),
        c.runnable(i),
    ensures
        c.advanced(i).inv(),
        c.advanced(i).work() < c.work(),
        c.senders[i].at() is Permitted ==> c.mailbox.size < usize::MAX,
{
    let t = c.senders[i];
    let d = c.advanced(i);
    let u = t.stepped(c.mailbox);
    assert(sender_sane(t));
    lemma_sum_update(c.senders, i, u, holding());
    lemma_sum_update(c.senders, i, u, counting());
    lemma_sum_update(c.senders, i, u, enqueued());
    lemma_sum_update(c.senders, i, u, put());
    lemma_sum_update(c.senders, i, u, sender_work());
    lemma_sum_nonneg(c.senders, enqueued());
    lemma_sum_nonneg(d.senders, enqueued());
    assert(enqueued()(c.senders[i]) <= sum_of(c.senders, enqueued()));
    let slack = |s: SenderThread| holding()(s) - counting()(s);
    lemma_sum_nonneg(c.senders, slack);
    assert(slack(c.senders[i]) <= sum_of(c.senders, slack));
    crate::sums::lemma_sum_plus(c.senders, slack, counting(), holding());
    assert forall|x: usize| sum_of(d.senders, #[trigger] put_of(x)) == sum_of(
        d.mailbox.queue,
        is(x),
    ) + sum_of(in_hand(d.receiver.phase), is(x)) + sum_of(d.receiver.got, is(x)) by {
        lemma_sum_update(c.senders, i, u, put_of(x));
        lemma_sum_push(c.mailbox.queue, t.tag, is(x));
        assert(sum_of(c.senders, put_of(x)) == sum_of(c.mailbox.queue, is(x)) + sum_of(
            in_hand(c.receiver.phase),
            is(x),
        ) + sum_of(c.receiver.got, is(x)));
    }
    assert forall|k: int| 0 <= k < d.senders.len() implies sender_sane(#[trigger] d.senders[k]) by {
        if k != i {
            assert(sender_sane(c.senders[k]));
        }
    }
}

/// The receiver's step keeps every invariant.
proof fn lemma_receiver_step(c: CrewView)
    requires
        c.inv(),
        c.receiver.runnable(c.mailbox),
    ensures
        c.advanced(c.senders.len() as int).inv(),
        c.advanced(c.senders.len() as int).work() < c.work(),
        c.receiver.phase == Phase::Trying(RecvStep::Popped(in_hand(c.receiver.phase)[0]))
            ==> c.mailbox.size > 0,
        c.receiver.phase == Phase::Trying(RecvStep::Reduced(in_hand(c.receiver.phase)[0]))
            ==> c.mailbox.permits < usize::MAX,
{
    let d = c.advanced(c.senders.len() as int);
    let b = c.mailbox;
    let r = c.receiver;
    lemma_sum_nonneg(c.senders, holding());
    lemma_sum_nonneg(c.senders, counting());
    assert forall|x: usize| sum_of(d.senders, #[trigger] put_of(x)) == sum_of(
        d.mailbox.queue,
        is(x),
    ) + sum_of(in_hand(d.receiver.phase), is(x)) + sum_of(d.receiver.got, is(x)) by {
        assert(sum_of(c.senders, put_of(x)) == sum_of(b.queue, is(x)) + sum_of(
            in_hand(r.phase),
            is(x),
        ) + sum_of(r.got, is(x)));
        if b.queue.len() > 0 {
            lemma_sum_drop_first(b.queue, is(x));
            lemma_sum_one(b.queue[0], is(x));
        }
        if in_hand(r.phase).len() > 0 {
            let m = in_hand(r.phase)[0];
            lemma_sum_one(m, is(x));
            lemma_sum_push(r.got, m, is(x));
        }
    }
}

/// Whoever takes a step, permits and sizes stay accounted for, messages are
/// neither made nor lost, and no wakeup is lost.
pub proof fn law_steps_keep_accounts(c: CrewView, i: int)
    requires
        c.inv(),
        c.runnable(i),
    ensures
        c.advanced(i).inv(),
        c.advanced(i).work() < c.work(),
{
    if 0 <= i < c.senders.len() {
        lemma_sender_step(c, i);
    } else {
        lemma_receiver_step(c);
    }
}

/// Work left is never negative.
pub proof fn lemma_work_nonneg(c: CrewView)
    requires
        c.inv(),
    ensures
        c.work() >= 0,
{
    lemma_sum_nonneg(c.senders, sender_work());
}

/// Whatever the schedule, the accounts hold at every point of it.
pub proof fn law_schedules_keep_accounts(c: CrewView, schedule: Seq<usize>)
    requires
        c.inv(),
    ensures
        c.played(schedule).inv(),
        c.played(schedule).senders.len() == c.senders.len(),
    decreases schedule.len(),
{
    if schedule.len() > 0 {
        law_schedules_keep_accounts(c, schedule.drop_last());
        let d = c.played(schedule.drop_last());
        let i = schedule.last() as int % (d.senders.len() as int + 1);
        if d.runnable(i) {
            law_steps_keep_accounts(d, i);
        }
    }
}

/// The capacity gate cannot be raced through: at no point of any schedule does
/// the mailbox hold more than its capacity, nor does the size counter exceed
/// it.
pub proof fn law_capacity_gate(c: CrewView)
    requires
        c.inv(),
    ensures
        c.mailbox.queue.len() <= c.mailbox.capacity,
        0 <= c.mailbox.size <= c.mailbox.capacity,
{
    lemma_sum_nonneg(c.senders, holding());
    lemma_sum_nonneg(c.senders, counting());
    lemma_sum_le(c.senders, counting(), holding());
}

/// Once nobody is at work, the accounts are exactly conserved: every slot is a
/// permit or a message, and every message is counted.
pub proof fn law_rest_is_conserved(c: CrewView)
    requires
        c.inv(),
        c.stuck(),
    ensures
        c.mailbox.at_rest(),
        sum_of(c.senders, enqueued()) == 0,
        in_hand(c.receiver.phase).len() == 0,
{
    assert forall|i: int| 0 <= i < c.senders.len() implies #[trigger] holding()(c.senders[i]) == 0
        && counting()(c.senders[i]) == 0 && enqueued()(c.senders[i]) == 0 by {
        assert(!c.runnable(i));
    }
    crate::sums::lemma_sum_zero(c.senders, holding());
    assert forall|i: int| 0 <= i < c.senders.len() implies #[trigger] counting()(c.senders[i])
        == 0 by {
        assert(holding()(c.senders[i]) == 0);
    }
    crate::sums::lemma_sum_zero(c.senders, counting());
    assert forall|i: int| 0 <= i < c.senders.len() implies #[trigger] enqueued()(c.senders[i])
        == 0 by {
        assert(holding()(c.senders[i]) == 0);
    }
    crate::sums::lemma_sum_zero(c.senders, enqueued());
    assert(!c.runnable(c.senders.len() as int));
}

/// No wakeup is lost: once nobody can move, a receiver that works by the
/// handshake is done, or waits for messages that nobody has sent.
pub proof fn law_no_lost_wakeup(c: CrewView)
    requires
        c.inv(),
        c.stuck(),
        c.receiver.mode is Handshake,
    ensures
        c.receiver.phase is Done || c.mailbox.queue.len() == 0,
        c.receiver.phase is Done || c.receiver.got.len() == sum_of(c.senders, put()),
{
    law_rest_is_conserved(c);
    assert(!c.runnable(c.senders.len() as int));
}

/// Whether a lone receiver that looks or waits is registered, or its sender
/// has notified.
spec fn heard(c: CrewView) -> bool {
    &&& c.senders.len() == 1
    &&& c.receiver.mode is Handshake
    &&& c.receiver.wants == 1
    &&& (c.receiver.phase is Parked || c.receiver.phase == Phase::Trying(RecvStep::Idle))
        && !c.mailbox.registered ==> c.senders[0].step is Sent
}

/// A wakeup means mail: where one sender sends to a receiver that works by the
/// handshake and wants one message, the message is in the queue whenever the
/// receiver's wait is over, at every point of every schedule.
pub proof fn law_wakeup_means_mail(c: CrewView, schedule: Seq<usize>)
    requires
        c.inv(),
        is_roomy(c),
        c.senders.len() == 1,
        c.receiver.mode is Handshake,
        c.receiver.wants == 1,
        c.receiver.phase is Ready,
    ensures
        c.played(schedule).receiver.phase is Parked && !c.played(schedule).mailbox.registered
            ==> c.played(schedule).mailbox.queue.len() > 0,
{
    lemma_played_heard(c, schedule);
    let d = c.played(schedule);
    law_schedules_keep_accounts(c, schedule);
    lemma_sum_push(Seq::empty(), d.senders[0], put());
    assert(Seq::empty().push(d.senders[0]) =~= d.senders);
}

/// The receiver stays registered until its sender notifies.
proof fn lemma_played_heard(c: CrewView, schedule: Seq<usize>)
    requires
        c.inv(),
        is_roomy(c),
        heard(c),
    ensures
        heard(c.played(schedule)),
        is_roomy(c.played(schedule)),
    decreases schedule.len(),
{
    lemma_kind_played(c, schedule);
    if schedule.len() > 0 {
        let front = schedule.drop_last();
        lemma_played_heard(c, front);
        law_schedules_keep_accounts(c, front);
        let d = c.played(front);
        assert(sends_once(d.senders[0]));
    }
}

/// When no thread from `i` on can move, none can.
proof fn lemma_first_from(c: CrewView, i: int)
    requires
        0 <= i <= c.senders.len() + 1,
    ensures
        i <= c.first_from(i) <= c.senders.len() + 1,
        c.first_from(i) <= c.senders.len() ==> c.runnable(c.first_from(i)),
        c.first_from(i) > c.senders.len() ==> forall|k: int| i <= k <= c.senders.len()
            ==> !#[trigger] c.runnable(k),
    decreases c.senders.len() + 1 - i,
{
    if i <= c.senders.len() && !c.runnable(i) {
        lemma_first_from(c, i + 1);
    }
}

/// With enough steps, everybody gets to where they cannot move.
pub proof fn law_crews_come_to_rest(c: CrewView, n: nat)
    requires
        c.inv(),
        n >= c.work(),
    ensures
        c.finished(n).inv(),
        c.finished(n).stuck(),
        c.finished(n).senders.len() == c.senders.len(),
    decreases n,
{
    lemma_first_from(c, 0);
    lemma_work_nonneg(c);
    let i = c.first_from(0);
    if i <= c.senders.len() {
        law_steps_keep_accounts(c, i);
        lemma_work_nonneg(c.advanced(i));
        law_crews_come_to_rest(c.advanced(i), (n - 1) as nat);
    } else {
        assert forall|k: int| !#[trigger] c.runnable(k) by {}
    }
}

/// Enough steps and more steps lead to the same place.
proof fn lemma_finished_more(c: CrewView, a: nat, b: nat)
    requires
        c.inv(),
        c.work() <= a <= b,
    ensures
        c.finished(a) == c.finished(b),
    decreases a,
{
    lemma_first_from(c, 0);
    lemma_work_nonneg(c);
    let i = c.first_from(0);
    if i <= c.senders.len() {
        law_steps_keep_accounts(c, i);
        lemma_work_nonneg(c.advanced(i));
        lemma_finished_more(c.advanced(i), (a - 1) as nat, (b - 1) as nat);
    }
}

/// Whether two crews differ in how far they got only.
pub open spec fn same_setup(c: CrewView, d: CrewView) -> bool {
    &&& d.senders.len() == c.senders.len()
    &&& forall|i: int|
        0 <= i < c.senders.len() ==> {
            &&& (#[trigger] d.senders[i]).tag == c.senders[i].tag
            &&& d.senders[i].given == c.senders[i].given
            &&& d.senders[i].until_sent == c.senders[i].until_sent
        }
    &&& d.receiver.mode == c.receiver.mode
    &&& d.receiver.wants == c.receiver.wants
    &&& d.mailbox.capacity == c.mailbox.capacity
    &&& d.mailbox.threshold == c.mailbox.threshold
}

/// Whether a thread that sends once has not been refused.
pub open spec fn sends_once(t: SenderThread) -> bool {
    &&& t.until_sent
    &&& t.given > 0
    &&& t.sent <= 1
    &&& !(t.step is Refused)
    &&& t.step is Idle ==> t.sent == 0 && t.tries == t.given
    &&& t.step is Sent <==> t.sent == 1
}

/// Whether every sender sends once, and there is a permit for each.
pub open spec fn is_roomy(c: CrewView) -> bool {
    &&& c.senders.len() <= c.mailbox.capacity
    &&& forall|i: int| 0 <= i < c.senders.len() ==> sends_once(#[trigger] c.senders[i])
}

/// Whether a thread has been refused only if there is no permit, and the
/// latch is set once it has looked after it.
pub open spec fn gated(b: BoxView, t: SenderThread) -> bool {
    &&& !t.until_sent
    &&& b.permits > 0 ==> t.sent + t.tries + (if t.at() is Idle {
        0int
    } else {
        1
    }) == t.given
    &&& t.sent > 0 || t.step is Latched ==> b.backpressure
    &&& t.step matches SendStep::Counted(n) ==> n >= 1
    &&& t.step matches SendStep::Enqueued(n) ==> n >= 1
}

/// Whether nobody receives, and every send sets the latch.
pub open spec fn is_gate(c: CrewView) -> bool {
    &&& c.receiver.mode is Off
    &&& c.receiver.got.len() == 0
    &&& c.mailbox.threshold <= 1
    &&& forall|i: int| 0 <= i < c.senders.len() ==> gated(c.mailbox, #[trigger] c.senders[i])
}

/// A sum of terms of at most one, one of which is zero, is less than their
/// number.
proof fn lemma_sum_spare(s: Seq<SenderThread>, f: spec_fn(SenderThread) -> int, i: int)
    requires
        0 <= i < s.len(),
        f(s[i]) == 0,
        forall|k: int| 0 <= k < s.len() ==> #[trigger] f(s[k]) <= 1,
    ensures
        sum_of(s, f) < s.len(),
{
    crate::sums::lemma_sum_remove(s, i, f);
    let rest = s.remove(i);
    assert forall|k: int| 0 <= k < rest.len() implies #[trigger] f(rest[k]) <= 1 by {
        if k < i {
            assert(rest[k] == s[k]);
            assert(f(s[k]) <= 1);
        } else {
            assert(rest[k] == s[k + 1]);
            assert(f(s[k + 1]) <= 1);
        }
    }
    lemma_sum_at_most(rest, f, 1);
}

/// In a roomy crew a permit is left for every sender yet to take one.
proof fn lemma_roomy_permit(c: CrewView, i: int)
    requires
        c.inv(),
        is_roomy(c),
        0 <= i < c.senders.len(),
        c.senders[i].step is Idle,
    ensures
        c.mailbox.permits > 0,
{
    let f = |t: SenderThread| put()(t) + holding()(t);
    crate::sums::lemma_sum_plus(c.senders, put(), holding(), f);
    assert(sends_once(c.senders[i]));
    assert forall|k: int| 0 <= k < c.senders.len() implies #[trigger] f(c.senders[k]) <= 1 by {
        assert(sends_once(c.senders[k]));
    }
    lemma_sum_spare(c.senders, f, i);
}

/// Steps keep roomy crews roomy and gates gates, and change how far the crew got
/// only.
proof fn lemma_kind_step(c: CrewView, i: int)
    requires
        c.inv(),
        c.runnable(i),
    ensures
        same_setup(c, c.advanced(i)),
        is_roomy(c) ==> is_roomy(c.advanced(i)),
        is_gate(c) ==> is_gate(c.advanced(i)),
{
    let d = c.advanced(i);
    if 0 <= i < c.senders.len() {
        let t = c.senders[i];
        assert(sender_sane(t));
        if is_roomy(c) {
            assert(sends_once(t));
            if t.step is Idle {
                lemma_roomy_permit(c, i);
            }
            assert forall|k: int| 0 <= k < d.senders.len() implies sends_once(
                #[trigger] d.senders[k],
            ) by {
                assert(sends_once(c.senders[k]));
            }
        }
        if is_gate(c) {
            assert(gated(c.mailbox, t));
            lemma_sender_step(c, i);
            lemma_sum_nonneg(c.senders, counting());
            assert forall|k: int| 0 <= k < d.senders.len() implies gated(
                d.mailbox,
                #[trigger] d.senders[k],
            ) by {
                assert(gated(c.mailbox, c.senders[k]));
            }
        }
    }
}

/// Schedules keep roomy crews roomy and gates gates.
proof fn lemma_kind_played(c: CrewView, schedule: Seq<usize>)
    requires
        c.inv(),
    ensures
        same_setup(c, c.played(schedule)),
        is_roomy(c) ==> is_roomy(c.played(schedule)),
        is_gate(c) ==> is_gate(c.played(schedule)),
    decreases schedule.len(),
{
    if schedule.len() > 0 {
        lemma_kind_played(c, schedule.drop_last());
        law_schedules_keep_accounts(c, schedule.drop_last());
        let d = c.played(schedule.drop_last());
        let i = schedule.last() as int % (d.senders.len() as int + 1);
        if d.runnable(i) {
            lemma_kind_step(d, i);
        }
    }
}

/// Letting whoever can move keeps roomy crews roomy and gates gates.
proof fn lemma_kind_finished(c: CrewView, n: nat)
    requires
        c.inv(),
    ensures
        same_setup(c, c.finished(n)),
        is_roomy(c) ==> is_roomy(c.finished(n)),
        is_gate(c) ==> is_gate(c.finished(n)),
    decreases n,
{
    lemma_first_from(c, 0);
    let i = c.first_from(0);
    if n > 0 && i <= c.senders.len() {
        law_steps_keep_accounts(c, i);
        lemma_kind_step(c, i);
        lemma_kind_finished(c.advanced(i), (n - 1) as nat);
    }
}

/// The end of every schedule: nobody can move, the accounts hold, and roomy
/// crews are roomy and gates gates.
pub proof fn lemma_outcome(c: CrewView, schedule: Seq<usize>)
    requires
        c.inv(),
    ensures
        c.outcome(schedule).inv(),
        c.outcome(schedule).stuck(),
        same_setup(c, c.outcome(schedule)),
        is_roomy(c) ==> is_roomy(c.outcome(schedule)),
        is_gate(c) ==> is_gate(c.outcome(schedule)),
{
    let d = c.played(schedule);
    law_schedules_keep_accounts(c, schedule);
    lemma_kind_played(c, schedule);
    lemma_work_nonneg(d);
    law_crews_come_to_rest(d, d.work() as nat);
    lemma_kind_finished(d, d.work() as nat);
}

/// Exactly the permits there are get used: at the end of every schedule of a
/// crew without a receiver, the number of successful sends is the capacity, or
/// all that were to be tried.
pub proof fn law_gate_admits_capacity(c: CrewView)
    requires
        c.inv(),
        is_gate(c),
        c.stuck(),
    ensures
        sum_of(c.senders, sent_by()) == c.mailbox.queue.len(),
        sum_of(c.senders, sent_by()) <= c.mailbox.capacity,
        sum_of(c.senders, sent_by()) < c.mailbox.capacity ==> forall|i: int|
            0 <= i < c.senders.len() ==> (#[trigger] c.senders[i]).sent == c.senders[i].given,
        c.mailbox.queue.len() > 0 ==> c.mailbox.backpressure,
{
    law_rest_is_conserved(c);
    assert forall|i: int| 0 <= i < c.senders.len() implies #[trigger] put()(c.senders[i])
        == sent_by()(c.senders[i]) by {
        assert(!c.runnable(i));
    }
    crate::sums::lemma_sum_same(c.senders, put(), sent_by());
    if sum_of(c.senders, sent_by()) < c.mailbox.capacity {
        assert forall|i: int| 0 <= i < c.senders.len() implies (#[trigger] c.senders[i]).sent
            == c.senders[i].given by {
            assert(!c.runnable(i));
            assert(gated(c.mailbox, c.senders[i]));
            assert(sender_sane(c.senders[i]));
        }
    }
    if c.mailbox.queue.len() > 0 {
        if forall|i: int| 0 <= i < c.senders.len() ==> (#[trigger] c.senders[i]).sent == 0 {
            crate::sums::lemma_sum_zero(c.senders, sent_by());
        } else {
            let i = choose|i: int|
                0 <= i < c.senders.len() && (#[trigger] c.senders[i]).sent != 0;
            assert(gated(c.mailbox, c.senders[i]));
        }
    }
}

/// Every message of a roomy crew is sent: at the end of every schedule each
/// sender has succeeded.
pub proof fn law_roomy_crews_send(c: CrewView)
    requires
        c.inv(),
        is_roomy(c),
        c.stuck(),
    ensures
        forall|i: int| 0 <= i < c.senders.len() ==> #[trigger] put()(c.senders[i]) == 1,
        sum_of(c.senders, put()) == c.senders.len(),
{
    assert forall|i: int| 0 <= i < c.senders.len() implies #[trigger] put()(c.senders[i]) == 1 by {
        assert(!c.runnable(i));
        assert(sends_once(c.senders[i]));
    }
    lemma_sum_of_ones(c.senders, put());
}

/// The handshake delivers: at the end of every schedule of a roomy crew whose
/// receiver works by the handshake and wants as many messages as there are
/// senders, it has got them all, and the mailbox is fully drained.
pub proof fn law_handshake_delivers(c: CrewView)
    requires
        c.inv(),
        is_roomy(c),
        c.stuck(),
        c.receiver.mode is Handshake,
        c.receiver.wants == c.senders.len(),
    ensures
        c.receiver.phase is Done,
        c.receiver.got.len() == c.senders.len(),
        c.mailbox.at_rest(),
        c.mailbox.queue.len() == 0,
{
    law_roomy_crews_send(c);
    law_no_lost_wakeup(c);
    law_rest_is_conserved(c);
}

/// Threads at work in a mailbox.
pub struct Crew {
    mailbox: LoomMailbox,
    senders: Vec<SenderThread>,
    mode: Mode,
    phase: Phase,
    got: Vec<usize>,
    wants: usize,
    tries: usize,
}

impl View for Crew {
    type V = CrewView;

    closed spec fn view(&self) -> CrewView {
        CrewView {
            mailbox: self.mailbox@,
            senders: self.senders@,
            receiver: ReceiverView {
                mode: self.mode,
                phase: self.phase,
                got: self.got@,
                wants: self.wants as int,
                tries: self.tries as int,
            },
        }
    }
}

/// A crew that has not begun.
pub open spec fn fresh_crew(
    capacity: usize,
    senders: Seq<SenderThread>,
    mode: Mode,
    wants: usize,
    tries: usize,
) -> CrewView {
    CrewView {
        mailbox: BoxView::empty(capacity as int),
        senders,
        receiver: ReceiverView {
            mode,
            phase: if mode is Off || wants == 0 || (mode is Polling && tries == 0) {
                Phase::Done
            } else {
                Phase::Ready
            },
            got: Seq::empty(),
            wants: wants as int,
            tries: tries as int,
        },
    }
}

/// Whether no sender has begun.
pub open spec fn all_fresh(senders: Seq<SenderThread>) -> bool {
    forall|i: int|
        0 <= i < senders.len() ==> (#[trigger] senders[i]) == SenderThread::fresh(
            senders[i].tag,
            senders[i].given,
            senders[i].until_sent,
        )
}

/// A crew that has not begun satisfies the invariants.
pub proof fn lemma_fresh_crew(
    capacity: usize,
    senders: Seq<SenderThread>,
    mode: Mode,
    wants: usize,
    tries: usize,
)
    requires
        all_fresh(senders),
    ensures
        fresh_crew(capacity, senders, mode, wants, tries).inv(),
{
    let c = fresh_crew(capacity, senders, mode, wants, tries);
    assert forall|i: int| 0 <= i < senders.len() implies #[trigger] holding()(senders[i]) == 0 by {
        assert(senders[i].step is Idle);
    }
    crate::sums::lemma_sum_zero(senders, holding());
    assert forall|i: int| 0 <= i < senders.len() implies #[trigger] counting()(senders[i]) == 0 by {
        assert(senders[i].step is Idle);
    }
    crate::sums::lemma_sum_zero(senders, counting());
    assert forall|i: int| 0 <= i < senders.len() implies #[trigger] put()(senders[i]) == 0 by {
        assert(senders[i].step is Idle);
    }
    crate::sums::lemma_sum_zero(senders, put());
    assert forall|x: usize| sum_of(c.senders, #[trigger] put_of(x)) == sum_of(
        c.mailbox.queue,
        is(x),
    ) + sum_of(in_hand(c.receiver.phase), is(x)) + sum_of(c.receiver.got, is(x)) by {
        assert forall|i: int| 0 <= i < senders.len() implies #[trigger] put_of(x)(senders[i])
            == 0 by {
            assert(put()(senders[i]) == 0);
        }
        crate::sums::lemma_sum_zero(senders, put_of(x));
        lemma_sum_one(0, is(x));
    }
    assert forall|i: int| 0 <= i < senders.len() implies sender_sane(#[trigger] senders[i]) by {}
}

impl Crew {
    /// The crew satisfies the invariants.
    pub open spec fn wf(self) -> bool {
        self@.inv()
    }

    /// A crew around an empty mailbox.
    pub fn new(
        capacity: usize,
        senders: Vec<SenderThread>,
        mode: Mode,
        wants: usize,
        tries: usize,
    ) -> (r: Self)
        requires
            all_fresh(senders@),
        ensures
            r.wf(),
            r@ == fresh_crew(capacity, senders@, mode, wants, tries),
    {
        let idle: bool = mode == Mode::Off || wants == 0 || (mode == Mode::Polling && tries == 0);
        let phase: Phase = if idle {
            Phase::Done
        } else {
            Phase::Ready
        };
        let r = Crew {
            mailbox: LoomMailbox::with_capacity(capacity),
            senders,
            mode,
            phase,
            got: Vec::new(),
            wants,
            tries,
        };
        proof {
            assert(r@ =~= fresh_crew(capacity, senders@, mode, wants, tries));
            lemma_fresh_crew(capacity, senders@, mode, wants, tries);
        }
        r
    }

    /// Whether a thread can move.
    fn is_runnable(&self, i: usize) -> (r: bool)
        ensures
            r == self@.runnable(i as int),
    {
        if i < self.senders.len() {
            !self.senders[i].is_finished()
        } else if i == self.senders.len() {
            self.phase != Phase::Done && !(self.phase == Phase::Parked && self.mailbox.is_waiting())
        } else {
            false
        }
    }

    /// Let a sender take a step.
    fn advance_sender(&mut self, i: usize)
        requires
            old(self).wf(),
            i < old(self)@.senders.len(),
            old(self)@.runnable(i as int),
        ensures
            final(self)@ == old(self)@.advanced(i as int),
    {
        let ghost c = self@;
        proof {
            lemma_sender_step(c, i as int);
        }
        let t: SenderThread = self.senders[i];
        assert(sender_sane(c.senders[i as int]));
        let at: SendStep = match t.step {
            SendStep::Sent => SendStep::Idle,
            SendStep::Refused => SendStep::Idle,
            s => s,
        };
        let step: SendStep = self.mailbox.send_step(t.tag, at);
        let tries: usize = if at == SendStep::Idle {
            t.tries - 1
        } else {
            t.tries
        };
        let sent: usize = if at == SendStep::Latched {
            t.sent + 1
        } else {
            t.sent
        };
        self.senders.set(i, SenderThread { step, tries, sent, ..t });
        assert(self@ =~= c.advanced(i as int));
    }

    /// Note where an attempt to receive led.
    fn conclude(&mut self, s: RecvStep)
        requires
            old(self)@.receiver.mode is Polling && (s is Got || s is Empty)
                ==> old(self)@.receiver.tries > 0,
        ensures
            final(self)@ == (CrewView {
                receiver: old(self)@.receiver.after(s),
                ..old(self)@
            }),
    {
        let ghost c = self@;
        if self.mode == Mode::Polling {
            match s {
                RecvStep::Got(_) => {
                    self.tries = self.tries - 1;
                },
                RecvStep::Empty => {
                    self.tries = self.tries - 1;
                },
                _ => {},
            }
        }
        let spent: bool = self.tries == 0;
        match s {
            RecvStep::Got(m) => {
                self.got.push(m);
                if self.got.len() >= self.wants || (self.mode == Mode::Polling && spent) {
                    self.phase = Phase::Done;
                } else {
                    self.phase = Phase::Ready;
                }
            },
            RecvStep::Empty => {
                match self.mode {
                    Mode::Handshake => {
                        self.phase = Phase::Parked;
                    },
                    Mode::Broken => {
                        self.phase = Phase::Late;
                    },
                    _ => {
                        if spent {
                            self.phase = Phase::Done;
                        } else {
                            self.phase = Phase::Ready;
                        }
                    },
                }
            },
            _ => {
                self.phase = Phase::Trying(s);
            },
        }
        assert(self@ =~= CrewView { receiver: c.receiver.after(s), ..c });
    }

    /// Let the receiver take a step.
    fn advance_receiver(&mut self)
        requires
            old(self).wf(),
            old(self)@.receiver.runnable(old(self)@.mailbox),
        ensures
            final(self)@ == old(self)@.advanced(old(self)@.senders.len() as int),
    {
        let ghost c = self@;
        proof {
            lemma_receiver_step(c);
        }
        match self.phase {
            Phase::Ready => {
                if self.mode == Mode::Handshake {
                    self.mailbox.enable();
                    self.phase = Phase::Trying(RecvStep::Idle);
                } else {
                    let s: RecvStep = self.mailbox.recv_step(RecvStep::Idle);
                    self.conclude(s);
                }
            },
            Phase::Trying(at) => {
                let s: RecvStep = self.mailbox.recv_step(at);
                self.conclude(s);
            },
            Phase::Late => {
                self.mailbox.enable();
                self.phase = Phase::Parked;
            },
            Phase::Parked => {
                self.phase = Phase::Ready;
            },
            Phase::Done => {},
        }
        assert(self@ =~= c.advanced(c.senders.len() as int));
    }

    /// Let a thread that can move take a step.
    fn advance(&mut self, i: usize)
        requires
            old(self).wf(),
            old(self)@.runnable(i as int),
        ensures
            final(self).wf(),
            final(self)@ == old(self)@.advanced(i as int),
    {
        proof {
            law_steps_keep_accounts(self@, i as int);
        }
        if i < self.senders.len() {
            self.advance_sender(i);
        } else {
            self.advance_receiver();
        }
    }

    /// Offer turns as a schedule says, then let whoever can move until nobody
    /// can.
    pub fn run(&mut self, schedule: &[usize])
        requires
            old(self).wf(),
            old(self)@.senders.len() < usize::MAX,
        ensures
            final(self).wf(),
            final(self)@ == old(self)@.outcome(schedule@),
            final(self)@.stuck(),
    {
        let ghost c = self@;
        let n: usize = self.senders.len();
        let mut k: usize = 0;
        assert(schedule@.take(0) =~= Seq::empty());
        while k < schedule.len()
            invariant
                k <= schedule@.len(),
                self.wf(),
                self@ == c.played(schedule@.take(k as int)),
                n == self@.senders.len(),
                n < usize::MAX,
            decreases schedule@.len() - k,
        {
            let turn: usize = schedule[k] % (n + 1);
            proof {
                assert(schedule@.take(k + 1).drop_last() =~= schedule@.take(k as int));
                assert(schedule@.take(k + 1).last() == schedule@[k as int]);
            }
            if self.is_runnable(turn) {
                self.advance(turn);
            }
            k = k + 1;
        }
        let ghost d = self@;
        proof {
            assert(schedule@.take(k as int) =~= schedule@);
            lemma_work_nonneg(d);
            law_crews_come_to_rest(d, d.work() as nat);
        }
        let mut i: usize = 0;
        proof {
            lemma_first_from(d, 0);
        }
        while i <= n
            invariant
                self.wf(),
                d.inv(),
                n == self@.senders.len(),
                n < usize::MAX,
                i <= n + 1,
                self@.first_from(0) == self@.first_from(i as int),
                d.work() >= 0,
                self@.finished(self@.work() as nat) == d.finished(d.work() as nat),
            decreases self@.work(), n + 1 - i,
        {
            proof {
                lemma_work_nonneg(self@);
            }
            if self.is_runnable(i) {
                let ghost e = self@;
                proof {
                    law_steps_keep_accounts(e, i as int);
                    lemma_work_nonneg(e.advanced(i as int));
                    lemma_finished_more(
                        e.advanced(i as int),
                        e.advanced(i as int).work() as nat,
                        (e.work() - 1) as nat,
                    );
                }
                self.advance(i);
                i = 0;
            } else {
                i = i + 1;
            }
        }
        proof {
            let e = self@;
            assert(e.first_from(0) > e.senders.len());
            assert(e.finished(e.work() as nat) == e);
            lemma_first_from(e, 0);
            assert forall|k: int| !#[trigger] e.runnable(k) by {}
        }
    }

    /// The mailbox, and what the receiver got.
    pub fn into_parts(self) -> (r: (LoomMailbox, Vec<usize>))
        ensures
            r.0@ == self@.mailbox,
            r.1@ == self@.receiver.got,
    {
        (self.mailbox, self.got)
    }

    /// Sends that succeeded.
    pub fn total_sent(&self) -> (r: usize)
        requires
            self.wf(),
            sum_of(self@.senders, sent_by()) <= usize::MAX,
        ensures
            r == sum_of(self@.senders, sent_by()),
    {
        let ghost all = self@.senders;
        let mut total: usize = 0;
        let mut i: usize = 0;
        assert(all.take(0) =~= Seq::empty());
        while i < self.senders.len()
            invariant
                i <= self.senders@.len(),
                all == self@.senders,
                all == self.senders@,
                total == sum_of(all.take(i as int), sent_by()),
                sum_of(all, sent_by()) <= usize::MAX,
            decreases self.senders@.len() - i,
        {
            proof {
                lemma_sum_push(all.take(i as int), all[i as int], sent_by());
                assert(all.take(i as int).push(all[i as int]) =~= all.take(i + 1));
                crate::sums::lemma_sum_add(all.take(i + 1), all.skip(i + 1), sent_by());
                assert(all.take(i + 1) + all.skip(i + 1) =~= all);
                lemma_sum_nonneg(all.skip(i + 1), sent_by());
            }
            total = total + self.senders[i].sent;
            i = i + 1;
        }
        assert(all.take(i as int) =~= all);
        total
    }
}

/// Sends of a thread that succeeded.
pub open spec fn sent_by() -> spec_fn(SenderThread) -> int {
    |t: SenderThread| t.sent as int
}

/// What a turn is: turn numbers go round all threads, the receiver after the
/// senders; the thread whose turn it is takes one step if it can move, and
/// nothing happens if it cannot. A sender's step concerns itself and the
/// mailbox, and so does the receiver's.
pub proof fn law_turns(c: CrewView, turn: usize, i: int)
    requires
        0 <= i < c.senders.len(),
    ensures
        ({
            let k = turn as int % (c.senders.len() as int + 1);
            &&& c.runnable(k) ==> c.offered(turn) == c.advanced(k)
            &&& !c.runnable(k) ==> c.offered(turn) == c
        }),
        c.runnable(i) == !c.senders[i].finished(),
        c.runnable(c.senders.len() as int) == c.receiver.runnable(c.mailbox),
        c.advanced(i).mailbox == c.mailbox.send(c.senders[i].tag, c.senders[i].at()),
        c.advanced(i).senders == c.senders.update(i, c.senders[i].stepped(c.mailbox)),
        c.advanced(i).receiver == c.receiver,
        c.advanced(c.senders.len() as int).mailbox == c.receiver.touched(c.mailbox),
        c.advanced(c.senders.len() as int).senders == c.senders,
        c.advanced(c.senders.len() as int).receiver == c.receiver.stepped(c.mailbox),
        c.played(Seq::empty()) == c,
        forall|s: Seq<usize>| #[trigger] c.played(s.push(turn)) == c.played(s).offered(turn),
{
    assert forall|s: Seq<usize>| #[trigger] c.played(s.push(turn)) == c.played(s).offered(turn) by {
        assert(s.push(turn).drop_last() =~= s);
    }
}

/// What a sender does with its turn. It is finished when it has no attempt
/// left and is not in the middle of one, or when it was to send once and has.
/// One that is not begins an attempt, which costs it one, or goes on with the
/// one it has begun; the last step of a send counts as a message sent.
pub proof fn law_sender_turn(t: SenderThread, b: BoxView)
    ensures
        t.finished() == ((t.step == SendStep::Idle || t.step == SendStep::Refused) && t.tries == 0
            || t.step == SendStep::Sent && (t.until_sent || t.tries == 0)),
        t.stepped(b).tag == t.tag,
        t.stepped(b).given == t.given,
        t.stepped(b).until_sent == t.until_sent,
        t.step == SendStep::Idle || t.step == SendStep::Sent || t.step == SendStep::Refused ==> {
            &&& t.at() == SendStep::Idle
            &&& t.tries > 0 ==> t.stepped(b).tries == t.tries - 1
            &&& t.stepped(b).sent == t.sent
            &&& t.stepped(b).step == (if b.permits == 0 {
                SendStep::Refused
            } else {
                SendStep::Permitted
            })
        },
        t.step == SendStep::Latched ==> {
            &&& t.at() == SendStep::Latched
            &&& t.stepped(b).tries == t.tries
            &&& t.sent < usize::MAX ==> t.stepped(b).sent == t.sent + 1
            &&& t.stepped(b).step == SendStep::Sent
        },
        t.step == SendStep::Permitted || t.step is Counted || t.step is Enqueued ==> {
            &&& t.at() == t.step
            &&& t.stepped(b).tries == t.tries
            &&& t.stepped(b).sent == t.sent
            &&& t.stepped(b).step == b.send_next(t.step)
        },
        SenderThread::fresh(t.tag, t.given, t.until_sent).step == SendStep::Idle,
        SenderThread::fresh(t.tag, t.given, t.until_sent).tries == t.given,
        SenderThread::fresh(t.tag, t.given, t.until_sent).sent == 0,
{
}

/// What the receiver does with its turn. By the handshake it registers before
/// it looks, and waits when it found nothing; the broken way it looks first,
/// and registers and waits when it found nothing; polling it looks again, as
/// often as it is to. Waiting, it can move only once its registration was
/// taken, and then begins again. It is done when it has what it wants.
pub proof fn law_receiver_turn(r: ReceiverView, b: BoxView, m: usize)
    ensures
        r.runnable(b) == (r.phase != Phase::Done && (r.phase != Phase::Parked || !b.registered)),
        r.phase == Phase::Ready && r.mode == Mode::Handshake ==> {
            &&& r.touched(b) == (BoxView { registered: true, ..b })
            &&& r.stepped(b) == (ReceiverView { phase: Phase::Trying(RecvStep::Idle), ..r })
        },
        r.phase == Phase::Ready && r.mode != Mode::Handshake ==> {
            &&& r.touched(b) == b.recv(RecvStep::Idle)
            &&& r.stepped(b) == r.after(b.recv_next(RecvStep::Idle))
        },
        r.phase matches Phase::Trying(s) ==> {
            &&& r.touched(b) == b.recv(s)
            &&& r.stepped(b) == r.after(b.recv_next(s))
        },
        r.phase == Phase::Late ==> {
            &&& r.touched(b) == (BoxView { registered: true, ..b })
            &&& r.stepped(b) == (ReceiverView { phase: Phase::Parked, ..r })
        },
        r.phase == Phase::Parked ==> {
            &&& r.touched(b) == b
            &&& r.stepped(b) == (ReceiverView { phase: Phase::Ready, ..r })
        },
        r.phase == Phase::Done ==> r.touched(b) == b && r.stepped(b) == r,
        ({
            let a = r.after(RecvStep::Got(m));
            let left = if r.mode == Mode::Polling {
                r.tries - 1
            } else {
                r.tries
            };
            &&& a.got == r.got.push(m)
            &&& a.tries == left
            &&& a.mode == r.mode
            &&& a.wants == r.wants
            &&& a.phase == (if r.got.len() + 1 >= r.wants || r.mode == Mode::Polling && left == 0 {
                Phase::Done
            } else {
                Phase::Ready
            })
        }),
        ({
            let a = r.after(RecvStep::Empty);
            &&& a.got == r.got
            &&& a.mode == r.mode
            &&& a.wants == r.wants
            &&& r.mode == Mode::Handshake ==> a.phase == Phase::Parked && a.tries == r.tries
            &&& r.mode == Mode::Broken ==> a.phase == Phase::Late && a.tries == r.tries
            &&& r.mode == Mode::Polling ==> a.tries == r.tries - 1 && a.phase == (if r.tries == 1 {
                Phase::Done
            } else {
                Phase::Ready
            })
        }),
        r.after(RecvStep::Popped(m)) == (ReceiverView {
            phase: Phase::Trying(RecvStep::Popped(m)),
            ..r
        }),
        r.after(RecvStep::Reduced(m)) == (ReceiverView {
            phase: Phase::Trying(RecvStep::Reduced(m)),
            ..r
        }),
        r.after(RecvStep::Returned(m)) == (ReceiverView {
            phase: Phase::Trying(RecvStep::Returned(m)),
            ..r
        }),
        r.after(RecvStep::Loaded(m, true)) == (ReceiverView {
            phase: Phase::Trying(RecvStep::Loaded(m, true)),
            ..r
        }),
        r.after(RecvStep::Loaded(m, false)) == (ReceiverView {
            phase: Phase::Trying(RecvStep::Loaded(m, false)),
            ..r
        }),
{
}

/// What happens once a schedule is used up: as long as a thread can move, the
/// first that can, senders before the receiver, takes a step; when none can,
/// nothing more happens.
pub proof fn law_end_of_schedule(c: CrewView, schedule: Seq<usize>, n: nat, i: int)
    requires
        0 <= i <= c.senders.len(),
    ensures
        c.outcome(schedule) == c.played(schedule).finished(c.played(schedule).work() as nat),
        c.finished(0) == c,
        c.runnable(i) && (forall|j: int| 0 <= j < i ==> !#[trigger] c.runnable(j)) ==> c.finished(
            n + 1,
        ) == c.advanced(i).finished(n),
        (forall|j: int| 0 <= j <= c.senders.len() ==> !#[trigger] c.runnable(j)) ==> c.finished(n)
            == c,
{
    if c.runnable(i) && (forall|j: int| 0 <= j < i ==> !#[trigger] c.runnable(j)) {
        lemma_first(c, 0, i);
    }
    if forall|j: int| 0 <= j <= c.senders.len() ==> !#[trigger] c.runnable(j) {
        lemma_first(c, 0, c.senders.len() as int + 1);
    }
}

/// The search for a thread that can move stops at the first.
proof fn lemma_first(c: CrewView, from: int, i: int)
    requires
        0 <= from <= i <= c.senders.len() + 1,
        forall|j: int| from <= j < i ==> !#[trigger] c.runnable(j),
        i > c.senders.len() || c.runnable(i),
    ensures
        c.first_from(from) == i,
    decreases i - from,
{
    if from < i {
        assert(!c.runnable(from));
        lemma_first(c, from + 1, i);
    }
}

} // verus!
