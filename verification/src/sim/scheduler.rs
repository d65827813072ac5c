//! Deterministic task-selection model for the simulation.
//!
//! The real runtime's workers take work from a priority queue first, then from
//! wherever they find some. The fixed part of that order (priority first) and
//! the arbitrary part (which ready task is taken) are separated here: the
//! priority set always drains first, and under [`SchedulingPolicy::Random`]
//! the seeded stream picks any element of the ready set.
use crate::queue::Task;
use crate::sim::faults::{
    after_word, lemma_scaled_below, lemma_word_for, scaled, word, xoshiro_drawn, SimRng,
};
use crate::sums::{
    lemma_sum_add, lemma_sum_nonneg, lemma_sum_plus, lemma_sum_push, lemma_sum_remove,
    lemma_sum_same, lemma_sum_zero, sum_of,
};
use crate::{ActorId, MessageView, Priority};
use std::collections::{BTreeMap, VecDeque};
use vstd::prelude::*;

verus! {

broadcast use vstd::laws_cmp::group_laws_cmp;

/// Map key for an actor: the bits of its identifier.
pub fn actor_key(id: &ActorId) -> (r: u128)
    ensures
        r == id.0,
{
    id.0
}

/// How the simulation picks the next runnable task.
#[derive(Debug, Clone, Copy, PartialEq, Eq, Structural)]
pub enum SchedulingPolicy {
    /// Priority set first, then first in, first out.
    Fifo,
    /// Priority set first, then a uniform-random element of the ready set.
    Random,
    /// Priority set first, then the oldest task of the least-recently-served
    /// actor.
    RoundRobin,
}

impl Default for SchedulingPolicy {
    fn default() -> (r: Self)
        ensures
            r == SchedulingPolicy::Fifo,
    {
        SchedulingPolicy::Fifo
    }
}

/// One schedulable unit: a task, the identities of its application messages,
/// and the ordinal of its actor.
pub struct SimTask {
    /// Actor ordinal (stable across incarnations).
    pub ord: u64,
    /// The task.
    pub task: Task,
    /// Identities of the application messages; empty for system messages.
    pub mids: Vec<u64>,
}

/// What a schedulable unit holds.
#[verifier::ext_equal]
pub struct SimTaskView {
    /// Actor ordinal.
    pub ord: u64,
    /// Target actor.
    pub id: ActorId,
    /// Scheduling priority.
    pub priority: Priority,
    /// The messages, in order.
    pub msgs: Seq<MessageView>,
    /// Identities of the application messages.
    pub mids: Seq<u64>,
}

impl View for SimTask {
    type V = SimTaskView;

    open spec fn view(&self) -> SimTaskView {
        SimTaskView {
            ord: self.ord,
            id: self.task.actor_id,
            priority: self.task.priority,
            msgs: self.task.messages(),
            mids: self.mids@,
        }
    }
}

impl SimTask {
    /// Number of application messages in the task.
    pub fn app_len(&self) -> (r: usize)
        ensures
            r == self@.mids.len(),
    {
        self.mids.len()
    }

    /// The task's actor ordinal.
    pub fn ord(&self) -> (r: u64)
        ensures
            r == self@.ord,
    {
        self.ord
    }
}

/// Application messages in a task.
pub open spec fn app_msgs() -> spec_fn(SimTaskView) -> int {
    |t: SimTaskView| t.mids.len() as int
}

/// Application messages in a task for the actor with the given key.
pub open spec fn app_msgs_for(key: u128) -> spec_fn(SimTaskView) -> int {
    |t: SimTaskView|
        if t.id.0 == key {
            t.mids.len() as int
        } else {
            0
        }
}

/// What a ready set holds.
#[verifier::ext_equal]
pub struct ReadyView {
    /// Urgent tasks, oldest first.
    pub priority: Seq<SimTaskView>,
    /// Ordinary tasks, oldest first.
    pub ready: Seq<SimTaskView>,
    /// Actor key to the tick at which it was last served.
    pub last_served: Map<u128, u64>,
}

/// Whether a task goes to the priority set.
pub open spec fn is_urgent(t: SimTaskView) -> bool {
    t.priority.level() >= Priority::High.level()
}

impl ReadyView {
    /// A set without tasks.
    pub open spec fn empty() -> ReadyView {
        ReadyView { priority: Seq::empty(), ready: Seq::empty(), last_served: Map::empty() }
    }

    /// All queued tasks, the urgent ones first.
    pub open spec fn tasks(self) -> Seq<SimTaskView> {
        self.priority + self.ready
    }

    /// Whether the urgent tasks are those in the priority set.
    pub open spec fn is_split(self) -> bool {
        &&& forall|i: int| 0 <= i < self.priority.len() ==> is_urgent(#[trigger] self.priority[i])
        &&& forall|i: int| 0 <= i < self.ready.len() ==> !is_urgent(#[trigger] self.ready[i])
    }

    /// Whether an urgent task is queued.
    pub open spec fn has_urgent(self) -> bool {
        exists|i: int| 0 <= i < self.tasks().len() && is_urgent(#[trigger] self.tasks()[i])
    }

    /// The set after a task was queued.
    pub open spec fn pushed(self, t: SimTaskView) -> ReadyView {
        if is_urgent(t) {
            ReadyView { priority: self.priority.push(t), ..self }
        } else {
            ReadyView { ready: self.ready.push(t), ..self }
        }
    }

    /// When an actor was last served, zero for never.
    pub open spec fn served(self, key: u128) -> int {
        if self.last_served.contains_key(key) {
            self.last_served[key] as int
        } else {
            0
        }
    }

    /// Whether the ordinary task at `i` is the oldest one of an actor that
    /// was served least recently.
    pub open spec fn is_fairest(self, i: int) -> bool {
        &&& 0 <= i < self.ready.len()
        &&& forall|j: int|
            0 <= j < self.ready.len() ==> self.served(self.ready[i].id.0) <= self.served(
                (#[trigger] self.ready[j]).id.0,
            )
        &&& forall|j: int|
            0 <= j < i ==> self.served(self.ready[i].id.0) < self.served(
                (#[trigger] self.ready[j]).id.0,
            )
    }

    /// The position of the ordinary task that a policy takes, for a stream
    /// in the given state.
    pub open spec fn choice(self, policy: SchedulingPolicy, rng: Seq<u8>) -> int {
        match policy {
            SchedulingPolicy::Fifo => 0,
            SchedulingPolicy::Random => scaled(word(rng), self.ready.len() as int) as int,
            SchedulingPolicy::RoundRobin => choose|i: int| self.is_fairest(i),
        }
    }

    /// Whether nothing is queued.
    pub open spec fn is_clear(self) -> bool {
        self.priority.len() == 0 && self.ready.len() == 0
    }

    /// The task that is taken next. There has to be one.
    pub open spec fn taken(self, policy: SchedulingPolicy, rng: Seq<u8>) -> SimTaskView {
        if self.priority.len() > 0 {
            self.priority[0]
        } else {
            self.ready[self.choice(policy, rng)]
        }
    }

    /// The set after the next task was taken at the given tick.
    pub open spec fn after(self, policy: SchedulingPolicy, rng: Seq<u8>, tick: u64) -> ReadyView {
        let t = self.taken(policy, rng);
        ReadyView {
            priority: if self.priority.len() > 0 {
                self.priority.remove(0)
            } else {
                self.priority
            },
            ready: if self.priority.len() > 0 {
                self.ready
            } else {
                self.ready.remove(self.choice(policy, rng))
            },
            last_served: self.last_served.insert(t.id.0, tick),
        }
    }

    /// The set after a task was taken for each of the given draws: the state
    /// of the stream, and the tick.
    pub open spec fn left(self, policy: SchedulingPolicy, draws: Seq<(Seq<u8>, u64)>) -> ReadyView
        decreases draws.len(),
    {
        if draws.len() == 0 {
            self
        } else {
            self.left(policy, draws.drop_last()).after(policy, draws.last().0, draws.last().1)
        }
    }

    /// The state of the stream after a task was asked for.
    pub open spec fn after_draw(self, policy: SchedulingPolicy, rng: Seq<u8>) -> Seq<u8> {
        if policy is Random && self.priority.len() == 0 && self.ready.len() > 0 {
            after_word(rng)
        } else {
            rng
        }
    }

    /// Application messages queued.
    pub open spec fn queued(self) -> int {
        sum_of(self.tasks(), app_msgs())
    }

    /// Application messages queued for an actor.
    pub open spec fn queued_for(self, key: u128) -> int {
        sum_of(self.tasks(), app_msgs_for(key))
    }
}

/// Queueing adds a task's term to any sum over the tasks.
pub proof fn lemma_pushed_sum(r: ReadyView, t: SimTaskView, f: spec_fn(SimTaskView) -> int)
    ensures
        sum_of(r.pushed(t).tasks(), f) == sum_of(r.tasks(), f) + f(t),
{
    lemma_sum_add(r.priority, r.ready, f);
    if is_urgent(t) {
        lemma_sum_push(r.priority, t, f);
        lemma_sum_add(r.priority.push(t), r.ready, f);
    } else {
        lemma_sum_push(r.ready, t, f);
        lemma_sum_add(r.priority, r.ready.push(t), f);
    }
}

/// Whether a set has a next task: an urgent one, or one among as many ordinary
/// tasks as a word can count.
pub open spec fn can_take(r: ReadyView) -> bool {
    r.priority.len() > 0 || 0 < r.ready.len() <= u64::MAX
}

/// At most one task is the fairest.
pub proof fn lemma_fairest_unique(r: ReadyView, i: int, j: int)
    requires
        r.is_fairest(i),
        r.is_fairest(j),
    ensures
        i == j,
{
    if i < j {
        assert(r.served(r.ready[j].id.0) < r.served(r.ready[i].id.0));
    } else if j < i {
        assert(r.served(r.ready[i].id.0) < r.served(r.ready[j].id.0));
    }
}

/// Some task of a set with ordinary tasks is the fairest.
pub proof fn lemma_fairest_exists(r: ReadyView, n: int) -> (i: int)
    requires
        0 < n <= r.ready.len(),
    ensures
        0 <= i < n,
        forall|j: int|
            0 <= j < n ==> r.served(r.ready[i].id.0) <= r.served((#[trigger] r.ready[j]).id.0),
        forall|j: int|
            0 <= j < i ==> r.served(r.ready[i].id.0) < r.served((#[trigger] r.ready[j]).id.0),
    decreases n,
{
    if n == 1 {
        0
    } else {
        let k = lemma_fairest_exists(r, n - 1);
        if r.served(r.ready[n - 1].id.0) < r.served(r.ready[k].id.0) {
            n - 1
        } else {
            k
        }
    }
}

/// The position that a policy takes is one of the ordinary tasks.
pub proof fn lemma_choice_in_range(r: ReadyView, policy: SchedulingPolicy, rng: Seq<u8>)
    requires
        0 < r.ready.len() <= u64::MAX,
    ensures
        0 <= r.choice(policy, rng) < r.ready.len(),
        policy is RoundRobin ==> r.is_fairest(r.choice(policy, rng)),
{
    match policy {
        SchedulingPolicy::Fifo => {},
        SchedulingPolicy::Random => {
            lemma_scaled_below(word(rng), r.ready.len() as int);
        },
        SchedulingPolicy::RoundRobin => {
            let i = lemma_fairest_exists(r, r.ready.len() as int);
            assert(r.is_fairest(i));
        },
    }
}

/// Taking a task takes its term out of any sum over the tasks, and the task
/// was queued.
pub proof fn lemma_taken_sum(
    r: ReadyView,
    policy: SchedulingPolicy,
    rng: Seq<u8>,
    tick: u64,
    f: spec_fn(SimTaskView) -> int,
)
    requires
        can_take(r),
    ensures
        sum_of(r.after(policy, rng, tick).tasks(), f) == sum_of(r.tasks(), f) - f(
            r.taken(policy, rng),
        ),
        r.tasks().contains(r.taken(policy, rng)),
{
    let t = r.taken(policy, rng);
    let s = r.after(policy, rng, tick);
    lemma_sum_add(r.priority, r.ready, f);
    lemma_sum_add(s.priority, s.ready, f);
    if r.priority.len() > 0 {
        lemma_sum_remove(r.priority, 0, f);
        assert(r.tasks()[0] == t);
    } else {
        lemma_choice_in_range(r, policy, rng);
        let i = r.choice(policy, rng);
        lemma_sum_remove(r.ready, i, f);
        assert(r.tasks()[r.priority.len() + i] == t);
    }
}

/// Model of the runtime's ready sets.
pub struct ReadySet {
    priority: VecDeque<SimTask>,
    ready: VecDeque<SimTask>,
    /// Actor to the tick at which it was last served.
    last_served: BTreeMap<u128, u64>,
    /// Actor to the number of its queued application messages.
    queued_msgs: BTreeMap<u128, u64>,
}

impl View for ReadySet {
    type V = ReadyView;

    closed spec fn view(&self) -> ReadyView {
        ReadyView {
            priority: self.priority@.map_values(|t: SimTask| t@),
            ready: self.ready@.map_values(|t: SimTask| t@),
            last_served: self.last_served@,
        }
    }
}

/// What a map of counts says of a key, zero when it says nothing.
pub open spec fn count_at(m: Map<u128, u64>, key: u128) -> int {
    if m.contains_key(key) {
        m[key] as int
    } else {
        0
    }
}

/// What a map of counts says of each key.
pub open spec fn count_in(m: Map<u128, u64>) -> spec_fn(u128) -> int {
    |key: u128| count_at(m, key)
}

/// Application messages in tasks, by the key of their actor.
spec fn msgs_by_key(tasks: Seq<SimTaskView>) -> spec_fn(u128) -> int {
    |key: u128| sum_of(tasks, app_msgs_for(key))
}

/// The application messages of one task, by the key of its actor.
spec fn task_by_key(t: SimTaskView) -> spec_fn(u128) -> int {
    |key: u128| app_msgs_for(key)(t)
}

/// Counting one task by key counts it once, under its own key.
proof fn lemma_task_by_key(t: SimTaskView, keys: Seq<u128>)
    requires
        keys.no_duplicates(),
    ensures
        sum_of(keys, task_by_key(t)) == (if keys.contains(t.id.0) {
            t.mids.len() as int
        } else {
            0
        }),
    decreases keys.len(),
{
    if keys.len() > 0 {
        let rest = keys.drop_last();
        lemma_task_by_key(t, rest);
        if keys.contains(t.id.0) {
            let i = keys.index_of(t.id.0);
            if i < rest.len() {
                assert(rest[i] == t.id.0);
            } else if rest.contains(t.id.0) {
                let j = rest.index_of(t.id.0);
                assert(keys[j] == keys[i]);
            }
        } else if rest.contains(t.id.0) {
            let j = rest.index_of(t.id.0);
            assert(keys[j] == t.id.0);
        }
    }
}

/// Counting tasks by key counts every one of them, when each task with
/// messages has its key among `keys`.
proof fn lemma_sum_by_key(tasks: Seq<SimTaskView>, keys: Seq<u128>)
    requires
        keys.no_duplicates(),
        forall|i: int|
            0 <= i < tasks.len() ==> keys.contains((#[trigger] tasks[i]).id.0)
                || tasks[i].mids.len() == 0,
    ensures
        sum_of(keys, msgs_by_key(tasks)) == sum_of(tasks, app_msgs()),
    decreases tasks.len(),
{
    if tasks.len() == 0 {
        lemma_sum_zero(keys, msgs_by_key(tasks));
    } else {
        let rest = tasks.drop_last();
        let t = tasks.last();
        assert forall|i: int| 0 <= i < rest.len() implies keys.contains((#[trigger] rest[i]).id.0)
            || rest[i].mids.len() == 0 by {
            assert(rest[i] == tasks[i]);
        }
        assert(tasks[tasks.len() - 1] == t);
        lemma_sum_by_key(rest, keys);
        lemma_task_by_key(t, keys);
        assert forall|k: u128| #[trigger] msgs_by_key(tasks)(k) == msgs_by_key(rest)(k)
            + task_by_key(t)(k) by {}
        lemma_sum_plus(keys, msgs_by_key(rest), task_by_key(t), msgs_by_key(tasks));
    }
}

impl ReadySet {
    /// The side ledger agrees with the queued tasks, the urgent ones are in
    /// the priority set, and all that is queued can be counted.
    pub closed spec fn wf(self) -> bool {
        &&& self@.is_split()
        &&& forall|key: u128| #[trigger]
            count_at(self.queued_msgs@, key) == self@.queued_for(key)
        &&& self@.queued() <= u64::MAX
    }

    /// The urgent tasks are in the priority set, and what is queued can be
    /// counted.
    pub proof fn lemma_wf(self)
        requires
            self.wf(),
        ensures
            self@.is_split(),
            self@.queued() <= u64::MAX,
    {
    }

    /// An empty set.
    pub fn new() -> (r: Self)
        ensures
            r.wf(),
            r@ == ReadyView::empty(),
    {
        let r = ReadySet {
            priority: VecDeque::new(),
            ready: VecDeque::new(),
            last_served: BTreeMap::new(),
            queued_msgs: BTreeMap::new(),
        };
        proof {
            assert(r@ =~= ReadyView::empty());
            assert(r@.tasks() =~= Seq::empty());
        }
        r
    }

    /// Push a task: to the priority set when its priority is `High` or above,
    /// else to the ordinary one.
    pub fn push(&mut self, sim_task: SimTask)
        requires
            old(self).wf(),
            old(self)@.queued() + sim_task@.mids.len() <= u64::MAX,
        ensures
            final(self).wf(),
            final(self)@ == old(self)@.pushed(sim_task@),
    {
        let ghost before = self@;
        let ghost counts = self.queued_msgs@;
        let ghost t = sim_task@;
        let key: u128 = actor_key(&sim_task.task.actor_id);
        let held: u64 = match self.queued_msgs.get(&key) {
            Some(n) => *n,
            None => 0,
        };
        proof {
            assert(count_at(counts, key) == before.queued_for(key));
            lemma_queued_for_le(before, key);
        }
        let added: u64 = sim_task.app_len() as u64;
        self.queued_msgs.insert(key, held + added);
        if sim_task.task.priority.rank() >= Priority::High.rank() {
            self.priority.push_back(sim_task);
            assert(self@.priority =~= before.priority.push(t));
            assert(self@.ready =~= before.ready);
        } else {
            self.ready.push_back(sim_task);
            assert(self@.ready =~= before.ready.push(t));
            assert(self@.priority =~= before.priority);
        }
        proof {
            assert(self@ =~= before.pushed(t));
            assert forall|k: u128| #[trigger] count_at(self.queued_msgs@, k) == self@.queued_for(
                k,
            ) by {
                assert(count_at(counts, k) == before.queued_for(k));
                lemma_pushed_sum(before, t, app_msgs_for(k));
            }
            lemma_pushed_sum(before, t, app_msgs());
        }
    }

    /// Position of the oldest task of the least-recently-served actor.
    fn fairest(&self) -> (r: usize)
        requires
            self@.ready.len() > 0,
        ensures
            r < self@.ready.len(),
            self@.is_fairest(r as int),
    {
        let ghost v = self@;
        let mut best: usize = 0;
        let mut best_served: u64 = self.served(0);
        let mut i: usize = 1;
        while i < self.ready.len()
            invariant
                v == self@,
                v.ready.len() == self.ready@.len(),
                best < i <= v.ready.len(),
                best_served == v.served(v.ready[best as int].id.0),
                forall|j: int|
                    0 <= j < i ==> best_served <= v.served((#[trigger] v.ready[j]).id.0),
                forall|j: int|
                    0 <= j < best ==> best_served < v.served((#[trigger] v.ready[j]).id.0),
            decreases v.ready.len() - i,
        {
            let served: u64 = self.served(i);
            if served < best_served {
                best = i;
                best_served = served;
            }
            i = i + 1;
        }
        best
    }

    /// When the actor of the ordinary task at `i` was last served.
    fn served(&self, i: usize) -> (r: u64)
        requires
            i < self@.ready.len(),
        ensures
            r == self@.served(self@.ready[i as int].id.0),
    {
        assert(self@.ready[i as int] == self.ready@[i as int]@);
        match self.last_served.get(&actor_key(&self.ready[i].task.actor_id)) {
            Some(tick) => *tick,
            None => 0,
        }
    }

    /// Remove and return the next task per policy. `tick` stamps the actor as
    /// served.
    pub fn pick(&mut self, policy: SchedulingPolicy, rng: &mut SimRng, tick: u64) -> (r: Option<
        SimTask,
    >)
        requires
            old(self).wf(),
        ensures
            final(self).wf(),
            r is None <==> old(self)@.is_clear(),
            old(self)@.is_split(),
            final(rng)@ == old(self)@.after_draw(policy, old(rng)@),
            r is None ==> final(self)@ == old(self)@,
            r matches Some(t) ==> {
                &&& can_take(old(self)@)
                &&& t@ == old(self)@.taken(policy, old(rng)@)
                &&& final(self)@ == old(self)@.after(policy, old(rng)@, tick)
            },
    {
        let ghost before = self@;
        let ghost stream = rng@;
        let ghost counts = self.queued_msgs@;
        let first = self.priority.pop_front();
        let picked: SimTask = match first {
            Some(t) => {
                assert(self@.priority =~= before.priority.remove(0));
                assert(t@ == before.priority[0]);
                t
            },
            None => {
                let len: usize = self.ready.len();
                if len == 0 {
                    assert(self@ =~= before);
                    return None;
                }
                proof {
                    assert(before.ready.len() == len);
                    lemma_choice_in_range(before, policy, stream);
                }
                let index: usize = match policy {
                    SchedulingPolicy::Fifo => 0,
                    SchedulingPolicy::Random => rng.below(len as u64) as usize,
                    SchedulingPolicy::RoundRobin => {
                        let i: usize = self.fairest();
                        proof {
                            assert(self@ =~= before);
                            lemma_fairest_unique(before, i as int, before.choice(policy, stream));
                        }
                        i
                    },
                };
                assert(index == before.choice(policy, stream));
                match self.ready.remove(index) {
                    Some(t) => {
                        assert(self@.ready =~= before.ready.remove(index as int));
                        assert(t@ == before.ready[index as int]);
                        t
                    },
                    None => {
                        return None;
                    },
                }
            },
        };
        assert(picked@ == before.taken(policy, stream));
        let key: u128 = actor_key(&picked.task.actor_id);
        self.last_served.insert(key, tick);
        let held: Option<u64> = match self.queued_msgs.get(&key) {
            Some(n) => Some(*n),
            None => None,
        };
        if let Some(n) = held {
            self.queued_msgs.insert(key, n.saturating_sub(picked.app_len() as u64));
        }
        proof {
            assert(self@ =~= before.after(policy, stream, tick));
            let t = picked@;
            assert forall|k: u128| #[trigger] count_at(self.queued_msgs@, k) == self@.queued_for(
                k,
            ) by {
                assert(count_at(counts, k) == before.queued_for(k));
                lemma_taken_sum(before, policy, stream, tick, app_msgs_for(k));
                lemma_sum_nonneg(self@.tasks(), app_msgs_for(k));
            }
            lemma_taken_sum(before, policy, stream, tick, app_msgs());
        }
        Some(picked)
    }

    /// Total queued application messages (both sets).
    pub fn total_queued_msgs(&self) -> (r: u64)
        requires
            self.wf(),
        ensures
            r == self@.queued(),
    {
        let ghost counts = self.queued_msgs@;
        let mut total: u64 = 0;
        let values = self.queued_msgs.values();
        let ghost keys = choose|keys: Seq<u128>|
            {
                &&& keys.to_set() == counts.dom()
                &&& keys.no_duplicates()
                &&& vstd::std_specs::iter::IteratorSpec::remaining(&values) == keys.map(
                    |i: int, k: u128| &counts[k],
                )
            };
        proof {
            self.lemma_counts_add_up(keys);
            assert(keys.take(0) =~= Seq::empty());
        }
        for n in it: values
            invariant
                counts == self.queued_msgs@,
                it.seq() == keys.map(|i: int, k: u128| &counts[k]),
                keys.to_set() == counts.dom(),
                total == sum_of(keys.take(it.index()), count_in(counts)),
                sum_of(keys, count_in(counts)) == self@.queued(),
                self@.queued() <= u64::MAX,
        {
            proof {
                let i = it.index();
                assert(keys.to_set().contains(keys[i]));
                lemma_sum_push(keys.take(i), keys[i], count_in(counts));
                assert(keys.take(i).push(keys[i]) =~= keys.take(i + 1));
                lemma_sum_add(keys.take(i + 1), keys.skip(i + 1), count_in(counts));
                assert(keys.take(i + 1) + keys.skip(i + 1) =~= keys);
                lemma_sum_nonneg(keys.skip(i + 1), count_in(counts));
            }
            total = total + *n;
        }
        assert(keys.take(keys.len() as int) =~= keys);
        total
    }

    /// The counts of all actors add up to what is queued.
    proof fn lemma_counts_add_up(self, keys: Seq<u128>)
        requires
            self.wf(),
            keys.to_set() == self.queued_msgs@.dom(),
            keys.no_duplicates(),
        ensures
            sum_of(keys, count_in(self.queued_msgs@)) == self@.queued(),
    {
        let tasks = self@.tasks();
        let counts = self.queued_msgs@;
        assert forall|i: int| 0 <= i < tasks.len() implies keys.contains(
            (#[trigger] tasks[i]).id.0,
        ) || tasks[i].mids.len() == 0 by {
            let k = tasks[i].id.0;
            if !keys.contains(k) {
                assert(!keys.to_set().contains(k));
                assert(count_at(counts, k) == self@.queued_for(k));
                lemma_sum_nonneg(tasks, app_msgs_for(k));
                assert(app_msgs_for(k)(tasks[i]) <= 0);
            }
        }
        lemma_sum_by_key(tasks, keys);
        assert forall|i: int| 0 <= i < keys.len() implies #[trigger] count_in(counts)(keys[i])
            == msgs_by_key(tasks)(keys[i]) by {
            assert(count_at(counts, keys[i]) == self@.queued_for(keys[i]));
        }
        lemma_sum_same(keys, count_in(counts), msgs_by_key(tasks));
    }

    /// True when nothing is queued anywhere.
    pub fn is_empty(&self) -> (r: bool)
        ensures
            r == self@.is_clear(),
    {
        self.priority.len() == 0 && self.ready.len() == 0
    }
}

/// No actor has more queued than all actors together.
proof fn lemma_queued_for_le(r: ReadyView, key: u128)
    ensures
        0 <= r.queued_for(key) <= r.queued(),
{
    crate::sums::lemma_sum_le(r.tasks(), app_msgs_for(key), app_msgs());
    lemma_sum_nonneg(r.tasks(), app_msgs_for(key));
}

/// Priority first: while an urgent task is queued the oldest of them is taken,
/// under every policy.
pub proof fn law_priority_first(r: ReadyView, policy: SchedulingPolicy, rng: Seq<u8>)
    requires
        r.priority.len() > 0,
    ensures
        r.taken(policy, rng) == r.priority[0],
        r.after_draw(policy, rng) == rng,
{
}

/// The two sets stay apart: queueing and taking leave the urgent tasks in the
/// priority set, so that it is empty just when no urgent task is queued.
pub proof fn law_sets_stay_apart(
    r: ReadyView,
    t: SimTaskView,
    policy: SchedulingPolicy,
    rng: Seq<u8>,
    tick: u64,
)
    requires
        r.is_split(),
    ensures
        r.has_urgent() <==> r.priority.len() > 0,
        r.pushed(t).is_split(),
        can_take(r) ==> r.after(policy, rng, tick).is_split(),
{
    if r.priority.len() > 0 {
        assert(r.tasks()[0] == r.priority[0]);
    }
    if can_take(r) && r.priority.len() == 0 {
        lemma_choice_in_range(r, policy, rng);
    }
}

/// The stream is drawn from once, and only to choose at random among ordinary
/// tasks when no urgent one is queued.
pub proof fn law_draws_when_choosing(r: ReadyView, policy: SchedulingPolicy, rng: Seq<u8>)
    requires
        r.is_split(),
    ensures
        r.after_draw(policy, rng) == (if policy is Random && !r.has_urgent() && !r.is_clear() {
            after_word(rng)
        } else {
            rng
        }),
{
    law_sets_stay_apart(r, arbitrary(), policy, rng, 0);
}

/// Round robin serves the least recently served: without urgent tasks it takes
/// the oldest task of an actor that no queued task's actor was served before.
pub proof fn law_least_recently_served(r: ReadyView, rng: Seq<u8>) -> (i: int)
    requires
        r.is_split(),
        !r.has_urgent(),
        0 < r.tasks().len() <= u64::MAX,
    ensures
        0 <= i < r.tasks().len(),
        r.taken(SchedulingPolicy::RoundRobin, rng) == r.tasks()[i],
        forall|j: int|
            0 <= j < r.tasks().len() ==> r.served(r.tasks()[i].id.0) <= r.served(
                (#[trigger] r.tasks()[j]).id.0,
            ),
        forall|j: int|
            0 <= j < i ==> r.served(r.tasks()[i].id.0) < r.served(
                (#[trigger] r.tasks()[j]).id.0,
            ),
{
    law_sets_stay_apart(r, r.tasks()[0], SchedulingPolicy::RoundRobin, rng, 0);
    assert(r.tasks() =~= r.ready);
    lemma_choice_in_range(r, SchedulingPolicy::RoundRobin, rng);
    r.choice(SchedulingPolicy::RoundRobin, rng)
}

/// An urgent task overtakes every ordinary one, whenever it is queued and
/// under every policy.
pub proof fn law_urgent_overtakes(
    r: ReadyView,
    t: SimTaskView,
    policy: SchedulingPolicy,
    rng: Seq<u8>,
)
    requires
        r.priority.len() == 0,
        is_urgent(t),
    ensures
        r.pushed(t).taken(policy, rng) == t,
{
}

/// First in, first out: without urgent tasks the oldest task is taken, and
/// what is queued behind it does not matter.
pub proof fn law_fifo(r: ReadyView, t: SimTaskView, rng: Seq<u8>)
    requires
        r.priority.len() == 0,
        r.ready.len() > 0,
        !is_urgent(t),
    ensures
        r.taken(SchedulingPolicy::Fifo, rng) == r.ready[0],
        r.pushed(t).taken(SchedulingPolicy::Fifo, rng) == r.ready[0],
{
}

/// Taking a task takes exactly that task out: every sum over the queued tasks
/// loses its term, and the task was queued.
pub proof fn law_taking_takes_one(
    r: ReadyView,
    policy: SchedulingPolicy,
    rng: Seq<u8>,
    tick: u64,
    f: spec_fn(SimTaskView) -> int,
)
    requires
        can_take(r),
    ensures
        r.tasks().contains(r.taken(policy, rng)),
        sum_of(r.after(policy, rng, tick).tasks(), f) + f(r.taken(policy, rng)) == sum_of(
            r.tasks(),
            f,
        ),
        r.after(policy, rng, tick).tasks().len() == r.tasks().len() - 1,
        r.after(policy, rng, tick).tasks() == r.tasks().remove(
            if r.priority.len() > 0 {
                0
            } else {
                r.choice(policy, rng)
            },
        ),
{
    lemma_taken_sum(r, policy, rng, tick, f);
    if r.priority.len() == 0 {
        lemma_choice_in_range(r, policy, rng);
    }
}

/// Urgent tasks are taken in the order in which they were queued, under every
/// policy, and meanwhile the ordinary ones stay as they are.
pub proof fn law_urgent_in_order(
    r: ReadyView,
    policy: SchedulingPolicy,
    draws: Seq<(Seq<u8>, u64)>,
    rng: Seq<u8>,
)
    requires
        draws.len() <= r.priority.len(),
    ensures
        r.left(policy, draws).priority == r.priority.skip(draws.len() as int),
        r.left(policy, draws).ready == r.ready,
        draws.len() < r.priority.len() ==> r.left(policy, draws).taken(policy, rng)
            == r.priority[draws.len() as int],
    decreases draws.len(),
{
    if draws.len() == 0 {
        assert(r.priority.skip(0) =~= r.priority);
    } else {
        let front = draws.drop_last();
        law_urgent_in_order(r, policy, front, draws.last().0);
        assert(r.priority.skip(front.len() as int).remove(0) =~= r.priority.skip(
            draws.len() as int,
        ));
    }
}

/// First in, first out: the urgent tasks are taken in the order in which they
/// were queued, and then the ordinary ones in theirs.
pub proof fn law_fifo_in_order(r: ReadyView, draws: Seq<(Seq<u8>, u64)>, rng: Seq<u8>)
    requires
        draws.len() <= r.tasks().len(),
    ensures
        r.left(SchedulingPolicy::Fifo, draws).tasks() == r.tasks().skip(draws.len() as int),
        draws.len() < r.tasks().len() ==> r.left(SchedulingPolicy::Fifo, draws).taken(
            SchedulingPolicy::Fifo,
            rng,
        ) == r.tasks()[draws.len() as int],
    decreases draws.len(),
{
    let s = r.left(SchedulingPolicy::Fifo, draws);
    if draws.len() == 0 {
        assert(r.tasks().skip(0) =~= r.tasks());
    } else {
        let front = draws.drop_last();
        let u = r.left(SchedulingPolicy::Fifo, front);
        law_fifo_in_order(r, front, draws.last().0);
        assert(u.tasks().len() > 0);
        assert(s.tasks() =~= u.tasks().remove(0));
        assert(s.tasks() =~= r.tasks().skip(draws.len() as int));
    }
    if draws.len() < r.tasks().len() {
        assert(s.tasks()[0] == r.tasks()[draws.len() as int]);
    }
}

/// A queued task waits its turn. An urgent one is taken after the urgent ones
/// queued before it and before all others, under every policy. An ordinary one
/// is not taken while urgent ones are queued, and under `Fifo` it is taken
/// after all that were queued before it. Queueing it leaves the order of the
/// others alone, and its messages are counted.
pub proof fn law_queued_in_turn(
    r: ReadyView,
    t: SimTaskView,
    policy: SchedulingPolicy,
    draws: Seq<(Seq<u8>, u64)>,
    rng: Seq<u8>,
)
    ensures
        !r.pushed(t).is_clear(),
        r.pushed(t).queued() == r.queued() + t.mids.len(),
        draws.len() < r.priority.len() ==> r.pushed(t).left(policy, draws).taken(policy, rng)
            == r.priority[draws.len() as int],
        is_urgent(t) && draws.len() == r.priority.len() ==> r.pushed(t).left(policy, draws).taken(
            policy,
            rng,
        ) == t,
        is_urgent(t) && draws.len() == r.priority.len() + 1 ==> r.pushed(t).left(
            policy,
            draws,
        ).ready == r.ready,
        !is_urgent(t) && policy is Fifo && draws.len() < r.tasks().len() ==> r.pushed(t).left(
            policy,
            draws,
        ).taken(policy, rng) == r.tasks()[draws.len() as int],
        !is_urgent(t) && policy is Fifo && draws.len() == r.tasks().len() ==> r.pushed(t).left(
            policy,
            draws,
        ).taken(policy, rng) == t,
{
    let p = r.pushed(t);
    lemma_pushed_sum(r, t, app_msgs());
    if draws.len() <= p.priority.len() {
        law_urgent_in_order(p, policy, draws, rng);
    }
    if !is_urgent(t) {
        assert(p.tasks() =~= r.tasks().push(t));
        if policy is Fifo && draws.len() <= r.tasks().len() {
            law_fifo_in_order(p, draws, rng);
        }
    }
}

/// Round robin is fair: the task taken is the oldest of an actor that was
/// served no later than any other with a task, and once served it is not its
/// turn again while another actor with a task was served before.
pub proof fn law_round_robin_alternates(r: ReadyView, rng: Seq<u8>, tick: u64, later: Seq<u8>, j: int)
    requires
        r.priority.len() == 0,
        0 < r.ready.len() <= u64::MAX,
        0 <= j < r.after(SchedulingPolicy::RoundRobin, rng, tick).ready.len(),
        ({
            let s = r.after(SchedulingPolicy::RoundRobin, rng, tick);
            s.served(s.ready[j].id.0) < tick
        }),
    ensures
        forall|k: int|
            0 <= k < r.ready.len() ==> r.served(
                r.taken(SchedulingPolicy::RoundRobin, rng).id.0,
            ) <= r.served((#[trigger] r.ready[k]).id.0),
        r.after(SchedulingPolicy::RoundRobin, rng, tick).taken(
            SchedulingPolicy::RoundRobin,
            later,
        ).id != r.taken(SchedulingPolicy::RoundRobin, rng).id,
{
    let p = SchedulingPolicy::RoundRobin;
    let s = r.after(p, rng, tick);
    lemma_choice_in_range(r, p, rng);
    lemma_choice_in_range(s, p, later);
    let i = s.choice(p, later);
    assert(s.served(s.ready[i].id.0) <= s.served(s.ready[j].id.0));
    assert(s.served(r.taken(p, rng).id.0) == tick);
}

/// Which tasks are urgent, and where a task goes: one of high or critical
/// priority to the end of the urgent tasks, any other to the end of the
/// ordinary ones.
pub proof fn law_tasks_line_up(r: ReadyView, t: SimTaskView)
    ensures
        is_urgent(t) == (t.priority == Priority::High || t.priority == Priority::Critical),
        t.priority == Priority::High || t.priority == Priority::Critical ==> {
            &&& r.pushed(t).priority == r.priority.push(t)
            &&& r.pushed(t).ready == r.ready
        },
        t.priority == Priority::Normal || t.priority == Priority::Low ==> {
            &&& r.pushed(t).priority == r.priority
            &&& r.pushed(t).ready == r.ready.push(t)
        },
        r.pushed(t).last_served == r.last_served,
        r.tasks() == r.priority + r.ready,
        r.is_clear() == (r.tasks().len() == 0),
{
}

/// Which ordinary task is taken when no urgent one is queued. First in, first
/// out takes the oldest. The random policy takes the one at the next word's
/// share of all of them, so every one of them is taken for some word. Taking
/// turns takes the oldest task of an actor that was served no later than any
/// other that has one. The rest stay in order.
pub proof fn law_ordinary_pick(r: ReadyView, rng: Seq<u8>, tick: u64, p: int)
    requires
        r.priority.len() == 0,
        0 < r.ready.len() <= u64::MAX,
        0 <= p < r.ready.len(),
    ensures
        r.taken(SchedulingPolicy::Fifo, rng) == r.ready[0],
        r.after(SchedulingPolicy::Fifo, rng, tick).ready == r.ready.remove(0),
        r.after_draw(SchedulingPolicy::Fifo, rng) == rng,
        ({
            let n = r.ready.len() as int;
            let at = (xoshiro_drawn(rng).0 as int * n) / 0x1_0000_0000_0000_0000;
            &&& 0 <= at < n
            &&& r.taken(SchedulingPolicy::Random, rng) == r.ready[at]
            &&& r.after(SchedulingPolicy::Random, rng, tick).ready == r.ready.remove(at)
            &&& exists|w: u64| (#[trigger] (w as int * n)) / 0x1_0000_0000_0000_0000 == p
        }),
        r.after_draw(SchedulingPolicy::Random, rng) == xoshiro_drawn(rng).1,
        exists|i: int|
            #![trigger r.ready[i]]
            {
                &&& 0 <= i < r.ready.len()
                &&& r.taken(SchedulingPolicy::RoundRobin, rng) == r.ready[i]
                &&& r.after(SchedulingPolicy::RoundRobin, rng, tick).ready == r.ready.remove(i)
                &&& forall|j: int|
                    0 <= j < r.ready.len() ==> {
                        let mine = if r.last_served.contains_key(r.ready[i].id.0) {
                            r.last_served[r.ready[i].id.0]
                        } else {
                            0
                        };
                        let other = if r.last_served.contains_key((#[trigger] r.ready[j]).id.0) {
                            r.last_served[r.ready[j].id.0]
                        } else {
                            0
                        };
                        &&& mine <= other
                        &&& j < i ==> mine < other
                    }
            },
        r.after_draw(SchedulingPolicy::RoundRobin, rng) == rng,
{
    let n = r.ready.len() as int;
    lemma_scaled_below(word(rng), n);
    let w = lemma_word_for(n, p);
    assert((w as int * n) / 0x1_0000_0000_0000_0000 == p);
    lemma_choice_in_range(r, SchedulingPolicy::RoundRobin, rng);
    let i = r.choice(SchedulingPolicy::RoundRobin, rng);
    assert forall|j: int| 0 <= j < r.ready.len() implies {
        let mine = if r.last_served.contains_key(r.ready[i].id.0) {
            r.last_served[r.ready[i].id.0]
        } else {
            0
        };
        let other = if r.last_served.contains_key((#[trigger] r.ready[j]).id.0) {
            r.last_served[r.ready[j].id.0]
        } else {
            0
        };
        &&& mine <= other
        &&& j < i ==> mine < other
    } by {
        assert(r.served(r.ready[i].id.0) <= r.served(r.ready[j].id.0));
    }
    assert(r.taken(SchedulingPolicy::RoundRobin, rng) == r.ready[i]);
}

/// Under every policy the oldest urgent task is taken while there is one,
/// without a draw, and the ordinary tasks wait; and whichever task is taken,
/// its actor was then served at that tick, and no other actor was.
pub proof fn law_urgent_pick(r: ReadyView, policy: SchedulingPolicy, rng: Seq<u8>, tick: u64)
    requires
        r.priority.len() > 0 || 0 < r.ready.len() <= u64::MAX,
    ensures
        r.priority.len() > 0 ==> {
            &&& r.taken(policy, rng) == r.priority[0]
            &&& r.after(policy, rng, tick).priority == r.priority.remove(0)
            &&& r.after(policy, rng, tick).ready == r.ready
            &&& r.after_draw(policy, rng) == rng
        },
        r.priority.len() == 0 ==> r.after(policy, rng, tick).priority.len() == 0,
        r.after(policy, rng, tick).last_served == r.last_served.insert(
            r.taken(policy, rng).id.0,
            tick,
        ),
        r.is_clear() ==> r.after_draw(policy, rng) == rng,
{
}

/// The application messages queued: none in an empty set, and a task that is
/// queued brings its own, to its actor's share and to no other.
pub proof fn law_messages_queued(r: ReadyView, t: SimTaskView, key: u128)
    ensures
        ReadyView::empty().queued() == 0,
        ReadyView::empty().queued_for(key) == 0,
        ReadyView::empty().is_clear(),
        r.pushed(t).queued() == r.queued() + t.mids.len(),
        t.id.0 == key ==> r.pushed(t).queued_for(key) == r.queued_for(key) + t.mids.len(),
        t.id.0 != key ==> r.pushed(t).queued_for(key) == r.queued_for(key),
{
    lemma_pushed_sum(r, t, app_msgs());
    lemma_pushed_sum(r, t, app_msgs_for(key));
    assert(ReadyView::empty().tasks().len() == 0);
}

} // verus!
