//! Bounded mailbox with permit accounting and a backpressure latch.
//!
//! A send takes a permit and fails when none is left; a receive returns the
//! permit. The backpressure latch trips when the mailbox fills past its
//! threshold and clears again once it has emptied to below half of that.
use crate::error::Error;
use crate::{ActorId, Message, MessageView, Priority};
use std::collections::VecDeque;
use vstd::prelude::*;

verus! {

/// Mailbox configuration.
#[derive(Debug, Clone, Copy, PartialEq, Eq, Structural)]
pub struct MailboxConfig {
    /// Messages the mailbox can hold.
    pub capacity: usize,
    /// Deliver the most urgent message first, rather than the oldest.
    pub priority_queue: bool,
    /// Share of the capacity, in thousandths, at which backpressure sets in.
    pub backpressure_threshold: u16,
}

/// Capacity of a mailbox whose configuration does not say otherwise.
pub const DEFAULT_CAPACITY: usize = 10_000;

/// Backpressure threshold of a mailbox whose configuration does not say
/// otherwise: 80% of the capacity.
pub const DEFAULT_THRESHOLD: u16 = 800;

impl MailboxConfig {
    /// The default configuration with the given capacity.
    pub fn new(capacity: usize) -> (r: Self)
        ensures
            r.capacity == capacity,
            r.priority_queue,
            r.backpressure_threshold == DEFAULT_THRESHOLD,
    {
        MailboxConfig {
            capacity,
            priority_queue: true,
            backpressure_threshold: DEFAULT_THRESHOLD,
        }
    }

    /// Messages at which backpressure sets in.
    pub open spec fn pressure_point(self) -> int {
        (self.capacity as int * self.backpressure_threshold as int) / 1000
    }

    /// Messages at which backpressure sets in.
    fn pressure_count(&self) -> (r: u128)
        ensures
            r == self.pressure_point(),
    {
        assert(self.capacity as int * self.backpressure_threshold as int <= u128::MAX)
            by (nonlinear_arith)
            requires
                self.capacity <= u64::MAX,
                self.backpressure_threshold <= u16::MAX,
        ;
        (self.capacity as u128 * self.backpressure_threshold as u128) / 1000
    }
}

impl Default for MailboxConfig {
    fn default() -> (r: Self)
        ensures
            r.capacity == DEFAULT_CAPACITY,
            r.priority_queue,
            r.backpressure_threshold == DEFAULT_THRESHOLD,
    {
        MailboxConfig::new(DEFAULT_CAPACITY)
    }
}

/// What a mailbox holds.
#[verifier::ext_equal]
pub struct MailboxView {
    /// The configuration it was made with.
    pub config: MailboxConfig,
    /// The messages in it, oldest first.
    pub queue: Seq<MessageView>,
    /// Whether the backpressure latch is set.
    pub backpressure: bool,
}

/// Whether the message at `i` is delivered before every other one: no message
/// is more urgent, and none that came earlier is as urgent.
pub open spec fn is_most_urgent(queue: Seq<MessageView>, i: int) -> bool {
    &&& 0 <= i < queue.len()
    &&& forall|j: int|
        0 <= j < queue.len() ==> (#[trigger] queue[j]).priority.level() <= queue[i].priority.level()
    &&& forall|j: int|
        0 <= j < i ==> (#[trigger] queue[j]).priority.level() < queue[i].priority.level()
}

impl MailboxView {
    /// An empty mailbox.
    pub open spec fn empty(config: MailboxConfig) -> MailboxView {
        MailboxView { config, queue: Seq::empty(), backpressure: false }
    }

    /// Whether the messages fit the capacity.
    pub open spec fn fits(self) -> bool {
        self.queue.len() <= self.config.capacity
    }

    /// The mailbox after `message` was accepted.
    pub open spec fn sent(self, message: MessageView) -> MailboxView {
        MailboxView {
            queue: self.queue.push(message),
            backpressure: self.backpressure || self.queue.len() + 1 >= self.config.pressure_point(),
            ..self
        }
    }

    /// The position of the message that is received next.
    pub open spec fn next_index(self) -> int {
        if self.config.priority_queue {
            choose|i: int| is_most_urgent(self.queue, i)
        } else {
            0
        }
    }

    /// The mailbox after a message was received.
    pub open spec fn received(self) -> MailboxView {
        MailboxView {
            queue: self.queue.remove(self.next_index()),
            backpressure: self.backpressure && self.queue.len() - 1 >= self.config.pressure_point()
                / 2,
            ..self
        }
    }

    /// The mailbox after everything in it was received.
    pub open spec fn cleared(self) -> MailboxView {
        MailboxView {
            queue: Seq::empty(),
            backpressure: self.backpressure && (self.queue.len() == 0 || self.config.pressure_point()
                / 2 <= 0),
            ..self
        }
    }
}

/// There is exactly one most urgent message in a queue that is not empty.
pub proof fn lemma_most_urgent_unique(queue: Seq<MessageView>, i: int, j: int)
    requires
        is_most_urgent(queue, i),
        is_most_urgent(queue, j),
    ensures
        i == j,
{
    assert(queue[i].priority.level() == queue[j].priority.level());
}

/// Per-actor bounded mailbox.
pub struct Mailbox {
    owner: ActorId,
    config: MailboxConfig,
    queue: VecDeque<Message>,
    /// Send permits left.
    permits: usize,
    /// Messages in the mailbox.
    size: usize,
    backpressure: bool,
}

impl View for Mailbox {
    type V = MailboxView;

    closed spec fn view(&self) -> MailboxView {
        MailboxView {
            config: self.config,
            queue: self.queue@.map_values(|m: Message| m@),
            backpressure: self.backpressure,
        }
    }
}

impl Mailbox {
    /// Permit and size accounting: every slot is either a permit or a message.
    pub closed spec fn wf(self) -> bool {
        &&& self.size == self.queue@.len()
        &&& self.permits + self.size == self.config.capacity
    }

    /// A well-formed mailbox holds no more than its capacity.
    pub proof fn lemma_wf(self)
        requires
            self.wf(),
        ensures
            self@.fits(),
    {
    }

    /// An empty mailbox for the actor `owner`.
    pub fn new(owner: ActorId, config: MailboxConfig) -> (r: Self)
        requires
            config.capacity > 0,
        ensures
            r.wf(),
            r@ == MailboxView::empty(config),
            r.owned_by() == owner,
    {
        let r = Mailbox {
            owner,
            config,
            queue: VecDeque::new(),
            permits: config.capacity,
            size: 0,
            backpressure: false,
        };
        assert(r@.queue =~= Seq::empty());
        r
    }

    /// The actor whose mailbox this is.
    pub closed spec fn owned_by(self) -> ActorId {
        self.owner
    }

    /// The actor whose mailbox this is.
    pub fn owner(&self) -> (r: ActorId)
        ensures
            r == self.owned_by(),
    {
        self.owner
    }

    /// Number of messages in the mailbox.
    pub fn len(&self) -> (r: usize)
        requires
            self.wf(),
        ensures
            r == self@.queue.len(),
    {
        self.size
    }

    /// True when no message is waiting.
    pub fn is_empty(&self) -> (r: bool)
        requires
            self.wf(),
        ensures
            r == (self@.queue.len() == 0),
    {
        self.size == 0
    }

    /// Number of messages that can still be accepted.
    pub fn remaining_capacity(&self) -> (r: usize)
        requires
            self.wf(),
        ensures
            r == self@.config.capacity - self@.queue.len(),
    {
        self.permits
    }

    /// True while the backpressure latch is set.
    pub fn is_backpressured(&self) -> (r: bool)
        ensures
            r == self@.backpressure,
    {
        self.backpressure
    }

    /// Accept `message`, or hand it back with an error when the mailbox is
    /// full.
    pub fn try_send(&mut self, message: Message) -> (r: Result<(), (Message, Error)>)
        requires
            old(self).wf(),
        ensures
            final(self).wf(),
            final(self).owned_by() == old(self).owned_by(),
            r is Ok <==> old(self)@.queue.len() < old(self)@.config.capacity,
            r is Ok ==> final(self)@ == old(self)@.sent(message@),
            r matches Err((m, e)) ==> m == message && e is ResourceExhausted && e.detail()
                == "mailbox full"@ && *final(self) == *old(
                self,
            ),
    {
        if self.permits == 0 {
            return Err((message, Error::resource_exhausted("mailbox full")));
        }
        let ghost before = self.queue@;
        self.permits = self.permits - 1;
        self.size = self.size + 1;
        self.queue.push_back(message);
        if self.size as u128 >= self.config.pressure_count() {
            self.backpressure = true;
        }
        assert(self@.queue =~= before.map_values(|m: Message| m@).push(message@));
        Ok(())
    }

    /// Position of the message to deliver next.
    fn pick_index(&self) -> (r: usize)
        requires
            self.wf(),
            self@.queue.len() > 0,
        ensures
            r == self@.next_index(),
            r < self@.queue.len(),
            self@.config.priority_queue ==> is_most_urgent(self@.queue, r as int),
    {
        if !self.config.priority_queue {
            return 0;
        }
        let ghost q = self@.queue;
        let mut best: usize = 0;
        let mut i: usize = 1;
        while i < self.queue.len()
            invariant
                self.wf(),
                q == self@.queue,
                q.len() == self.queue@.len(),
                best < i <= q.len(),
                forall|j: int|
                    0 <= j < i ==> (#[trigger] q[j]).priority.level()
                        <= q[best as int].priority.level(),
                forall|j: int|
                    0 <= j < best ==> (#[trigger] q[j]).priority.level()
                        < q[best as int].priority.level(),
            decreases q.len() - i,
        {
            assert(q[i as int] == self.queue@[i as int]@);
            assert(q[best as int] == self.queue@[best as int]@);
            if self.queue[i].priority.rank() > self.queue[best].priority.rank() {
                best = i;
            }
            i = i + 1;
        }
        proof {
            assert(is_most_urgent(q, best as int));
            lemma_most_urgent_unique(q, best as int, self@.next_index());
        }
        best
    }

    /// Take the next message, returning its permit.
    pub fn try_recv(&mut self) -> (r: Option<Message>)
        requires
            old(self).wf(),
        ensures
            final(self).wf(),
            final(self).owned_by() == old(self).owned_by(),
            r is Some <==> old(self)@.queue.len() > 0,
            r is None ==> *final(self) == *old(self),
            r matches Some(m) ==> {
                &&& 0 <= old(self)@.next_index() < old(self)@.queue.len()
                &&& old(self)@.config.priority_queue ==> is_most_urgent(
                    old(self)@.queue,
                    old(self)@.next_index(),
                )
                &&& m@ == old(self)@.queue[old(self)@.next_index()]
                &&& final(self)@ == old(self)@.received()
            },
    {
        if self.size == 0 {
            return None;
        }
        let ghost before = self@;
        let index: usize = self.pick_index();
        let message = self.queue.remove(index);
        self.size = self.size - 1;
        self.permits = self.permits + 1;
        if (self.size as u128) < self.config.pressure_count() / 2 {
            self.backpressure = false;
        }
        assert(self@.queue =~= before.queue.remove(index as int));
        message
    }

    /// Drop every message in the mailbox, returning all permits.
    pub fn clear(&mut self)
        requires
            old(self).wf(),
        ensures
            final(self).wf(),
            final(self).owned_by() == old(self).owned_by(),
            final(self)@ == old(self)@.cleared(),
            final(self)@.queue.len() == 0,
            final(self)@.config == old(self)@.config,
    {
        let ghost start = self@;
        let ghost owner = self.owned_by();
        assert(start.config.pressure_point() >= 0) by (nonlinear_arith)
            requires
                start.config.pressure_point() == (start.config.capacity as int
                    * start.config.backpressure_threshold as int) / 1000,
                start.config.capacity >= 0,
                start.config.backpressure_threshold >= 0,
        ;
        while self.size > 0
            invariant
                self.wf(),
                self.owned_by() == owner,
                self@.cleared() == start.cleared(),
                self@.config == start.config,
                start.config.pressure_point() >= 0,
            decreases self@.queue.len(),
        {
            let _ = self.try_recv();
        }
        assert(self@.queue =~= Seq::empty());
    }
}

/// Some message of a queue that is not empty is delivered before every other
/// one.
pub proof fn lemma_most_urgent_exists(queue: Seq<MessageView>) -> (i: int)
    requires
        queue.len() > 0,
    ensures
        is_most_urgent(queue, i),
    decreases queue.len(),
{
    if queue.len() == 1 {
        0
    } else {
        let head = queue.drop_last();
        let n = queue.len() - 1;
        let j = lemma_most_urgent_exists(head);
        assert forall|k: int| 0 <= k < n implies (#[trigger] queue[k]).priority.level()
            <= queue[j].priority.level() by {
            assert(head[k] == queue[k]);
        }
        if queue[n].priority.level() > queue[j].priority.level() {
            n
        } else {
            assert forall|k: int| 0 <= k < j implies (#[trigger] queue[k]).priority.level()
                < queue[j].priority.level() by {
                assert(head[k] == queue[k]);
            }
            j
        }
    }
}

/// Delivery order: by age where the mailbox does not order by priority; else
/// no waiting message is more urgent than the one delivered next, and none of
/// the same priority is older.
pub proof fn law_delivery_order(m: MailboxView, j: int)
    requires
        0 <= j < m.queue.len(),
    ensures
        0 <= m.next_index() < m.queue.len(),
        !m.config.priority_queue ==> m.next_index() == 0,
        m.config.priority_queue ==> m.queue[j].priority.level()
            <= m.queue[m.next_index()].priority.level(),
        m.queue[j].priority == m.queue[m.next_index()].priority ==> m.next_index() <= j,
{
    let i = lemma_most_urgent_exists(m.queue);
    if m.config.priority_queue {
        assert(is_most_urgent(m.queue, m.next_index()));
    }
}

/// What is sent is received: a message sent to an empty mailbox is the one
/// delivered next, and the mailbox is empty again after that.
pub proof fn law_send_then_receive(m: MailboxView, message: MessageView)
    requires
        m.queue.len() == 0,
    ensures
        m.sent(message).next_index() == 0,
        m.sent(message).queue[0] == message,
        m.sent(message).received().queue == m.queue,
{
    law_delivery_order(m.sent(message), 0);
    assert(m.sent(message).received().queue =~= m.queue);
}

/// Receiving takes exactly one message out of a mailbox that is not empty.
pub proof fn law_receive_takes_one(m: MailboxView)
    requires
        m.queue.len() > 0,
    ensures
        m.received().queue.len() == m.queue.len() - 1,
        m.received().queue == m.queue.remove(m.next_index()),
        m.received().config == m.config,
{
    law_delivery_order(m, 0);
}

/// The backpressure latch trips where the configured share of the capacity is
/// reached, stays while the mailbox is at least half as full as that, and
/// clears below.
pub proof fn law_backpressure_latch(m: MailboxView, message: MessageView)
    ensures
        m.queue.len() + 1 >= m.config.pressure_point() ==> m.sent(message).backpressure,
        m.queue.len() + 1 < m.config.pressure_point() ==> m.sent(message).backpressure
            == m.backpressure,
        m.queue.len() > 0 && m.queue.len() - 1 < m.config.pressure_point() / 2
            ==> !m.received().backpressure,
        m.queue.len() > 0 && m.queue.len() - 1 >= m.config.pressure_point() / 2
            ==> m.received().backpressure == m.backpressure,
{
}

/// The mailbox loses and makes up nothing: sending adds exactly the message
/// sent, and receiving takes exactly the message delivered.
pub proof fn law_nothing_lost(m: MailboxView, message: MessageView)
    ensures
        m.sent(message).queue.to_multiset() == m.queue.to_multiset().insert(message),
        m.queue.len() > 0 ==> m.received().queue.to_multiset() == m.queue.to_multiset().remove(
            m.queue[m.next_index()],
        ),
{
    broadcast use vstd::seq_lib::group_to_multiset_ensures;

    if m.queue.len() > 0 {
        law_delivery_order(m, 0);
    }
}

/// The configured share of the capacity decides: a send sets the latch exactly
/// when the messages then held, and the fraction cut off, come to the share; a
/// receive clears it exactly when those left come to less than half of it.
/// Nothing else moves the latch, and the settings stay.
pub proof fn law_pressure_is_a_share(m: MailboxView, message: MessageView)
    ensures
        ({
            let share = m.config.capacity as int * m.config.backpressure_threshold as int;
            let held = m.queue.len() + 1;
            let left = m.queue.len() - 1;
            &&& m.sent(message).backpressure == (m.backpressure || 1000 * (held + 1) > share)
            &&& m.queue.len() > 0 ==> m.received().backpressure == (m.backpressure && 2000 * (left
                + 1) > share)
            &&& m.cleared().backpressure == (m.backpressure && (m.queue.len() == 0 || 2000
                > share))
        }),
        m.sent(message).queue == m.queue.push(message),
        m.sent(message).config == m.config,
        m.received().config == m.config,
        m.cleared().queue.len() == 0,
        m.cleared().config == m.config,
        !MailboxView::empty(m.config).backpressure,
        MailboxView::empty(m.config).queue.len() == 0,
        MailboxView::empty(m.config).config == m.config,
{
    let share = m.config.capacity as int * m.config.backpressure_threshold as int;
    assert(share >= 0) by (nonlinear_arith)
        requires
            share == m.config.capacity as int * m.config.backpressure_threshold as int,
            m.config.capacity >= 0,
            m.config.backpressure_threshold >= 0,
    ;
    assert(m.config.pressure_point() == share / 1000);
}

/// A mailbox that starts empty and only takes sends is under pressure once it
/// has taken its share, and not before.
pub proof fn law_pressure_sets_in(config: MailboxConfig, messages: Seq<MessageView>)
    ensures
        ({
            let m = sent_in_turn(MailboxView::empty(config), messages);
            &&& m.queue == messages
            &&& m.config == config
            &&& m.backpressure == (messages.len() > 0 && 1000 * (messages.len() + 1)
                > config.capacity as int * config.backpressure_threshold as int)
        }),
    decreases messages.len(),
{
    let e = MailboxView::empty(config);
    if messages.len() == 0 {
        assert(e.queue =~= messages);
    } else {
        let front = messages.drop_last();
        law_pressure_sets_in(config, front);
        let m = sent_in_turn(e, front);
        law_pressure_is_a_share(m, messages.last());
        assert(front.push(messages.last()) =~= messages);
    }
}

/// A mailbox after messages were sent to it one after the other.
pub open spec fn sent_in_turn(m: MailboxView, messages: Seq<MessageView>) -> MailboxView
    decreases messages.len(),
{
    if messages.len() == 0 {
        m
    } else {
        sent_in_turn(m, messages.drop_last()).sent(messages.last())
    }
}

/// What comes out: in a mailbox that orders by priority, the message received
/// is one that no other exceeds in urgency and that is the oldest of its
/// urgency; in one that does not, it is the oldest. The others stay in order.
pub proof fn law_received_message(m: MailboxView) -> (i: int)
    requires
        m.queue.len() > 0,
    ensures
        0 <= i < m.queue.len(),
        i == m.next_index(),
        m.received().queue == m.queue.take(i) + m.queue.skip(i + 1),
        !m.config.priority_queue ==> i == 0,
        m.config.priority_queue ==> forall|j: int|
            0 <= j < m.queue.len() ==> {
                let a = (#[trigger] m.queue[j]).priority;
                let b = m.queue[i].priority;
                &&& a == Priority::Critical ==> b == Priority::Critical
                &&& a == Priority::High ==> b == Priority::Critical || b == Priority::High
                &&& b == Priority::Low ==> a == Priority::Low
                &&& a == b ==> i <= j
            },
{
    let i = m.next_index();
    law_delivery_order(m, 0);
    assert(m.queue.remove(i) =~= m.queue.take(i) + m.queue.skip(i + 1));
    if m.config.priority_queue {
        assert forall|j: int| 0 <= j < m.queue.len() implies {
            let a = (#[trigger] m.queue[j]).priority;
            let b = m.queue[i].priority;
            &&& a == Priority::Critical ==> b == Priority::Critical
            &&& a == Priority::High ==> b == Priority::Critical || b == Priority::High
            &&& b == Priority::Low ==> a == Priority::Low
            &&& a == b ==> i <= j
        } by {
            law_delivery_order(m, j);
        }
    }
    i
}

/// A mailbox whose configuration does not say otherwise holds ten thousand
/// messages, and is under pressure at four fifths of its capacity.
pub proof fn law_default_mailbox()
    ensures
        DEFAULT_CAPACITY == 10_000,
        5 * DEFAULT_THRESHOLD == 4 * 1000,
{
}

} // verus!
