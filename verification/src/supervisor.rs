//! Supervision: which crashed children are restarted, and how often.
//!
//! A one-for-one supervisor restarts a child that exited, as its restart
//! policy says, until the child has used up its restart budget. Past the
//! budget the exit is an error: it is escalated to whoever drives the
//! supervisor.
use crate::error::{Error, Result};
use crate::sums::sum_of;
use vstd::prelude::*;

verus! {

/// When a child that exited is restarted.
#[derive(Debug, Clone, Copy, PartialEq, Eq, Structural)]
pub enum RestartPolicy {
    /// Always.
    Permanent,
    /// After an abnormal exit only.
    Transient,
    /// Never.
    Temporary,
}

/// Why a child exited.
#[derive(Debug, Clone, PartialEq, Eq)]
pub enum ExitReason {
    /// It finished.
    Normal,
    /// It failed.
    Error(String),
}

/// State of a supervised child.
#[derive(Debug, Clone, Copy, PartialEq, Eq, Structural)]
pub enum ChildState {
    /// Up.
    Running,
    /// To be brought up again.
    Restarting,
    /// Down for good.
    Stopped,
}

/// What a supervisor needs to know of a child.
#[derive(Debug)]
pub struct ChildSpec {
    /// Name of the child, unique under its supervisor.
    pub name: String,
    /// When to restart it.
    pub policy: RestartPolicy,
}

impl ChildSpec {
    /// A child that is always restarted.
    pub fn new(name: String) -> (r: Self)
        ensures
            r.name == name,
            r.policy == RestartPolicy::Permanent,
    {
        ChildSpec { name, policy: RestartPolicy::Permanent }
    }

    /// The same child with another restart policy.
    pub fn restart_policy(self, policy: RestartPolicy) -> (r: Self)
        ensures
            r.name == self.name,
            r.policy == policy,
    {
        ChildSpec { name: self.name, policy }
    }
}

/// A child under supervision.
pub struct SupervisedChild {
    name: String,
    policy: RestartPolicy,
    state: ChildState,
    restarts: u64,
}

/// What a supervisor knows of a child.
#[verifier::ext_equal]
pub struct ChildView {
    /// Its name.
    pub name: Seq<char>,
    /// When it is restarted.
    pub policy: RestartPolicy,
    /// Its state.
    pub state: ChildState,
    /// Restarts granted to it.
    pub restarts: int,
}

impl View for SupervisedChild {
    type V = ChildView;

    closed spec fn view(&self) -> ChildView {
        ChildView {
            name: self.name@,
            policy: self.policy,
            state: self.state,
            restarts: self.restarts as int,
        }
    }
}

/// What a supervisor knows.
#[verifier::ext_equal]
pub struct SupervisorView {
    /// Restarts that each child is granted, zero for no limit.
    pub max_restarts: u32,
    /// The children, in the order in which they were started.
    pub children: Seq<ChildView>,
}

/// Whether an exit calls for a restart.
pub open spec fn wants_restart(policy: RestartPolicy, reason: ExitReason) -> bool {
    match policy {
        RestartPolicy::Permanent => true,
        RestartPolicy::Transient => reason is Error,
        RestartPolicy::Temporary => false,
    }
}

impl SupervisorView {
    /// Whether the child at `i` is the first of the given name.
    pub open spec fn is_child(self, name: Seq<char>, i: int) -> bool {
        &&& 0 <= i < self.children.len()
        &&& self.children[i].name == name
        &&& forall|j: int| 0 <= j < i ==> (#[trigger] self.children[j]).name != name
    }

    /// Whether a child of the given name exists.
    pub open spec fn has_child(self, name: Seq<char>) -> bool {
        exists|i: int| 0 <= i < self.children.len() && (#[trigger] self.children[i]).name == name
    }

    /// Whether the child at `i` has a restart left.
    pub open spec fn has_budget(self, i: int) -> bool {
        self.max_restarts == 0 || self.children[i].restarts < self.max_restarts
    }

    /// The supervisor after the child at `i` entered a state.
    pub open spec fn with_state(self, i: int, state: ChildState) -> SupervisorView {
        SupervisorView {
            children: self.children.update(i, ChildView { state, ..self.children[i] }),
            ..self
        }
    }

    /// Whether an exit of the child at `i` is escalated.
    pub open spec fn escalates(self, i: int, reason: ExitReason) -> bool {
        wants_restart(self.children[i].policy, reason) && !self.has_budget(i)
    }

    /// The supervisor after the child at `i` exited.
    pub open spec fn exited(self, i: int, reason: ExitReason) -> SupervisorView {
        if wants_restart(self.children[i].policy, reason) && self.has_budget(i) {
            SupervisorView {
                children: self.children.update(
                    i,
                    ChildView {
                        state: ChildState::Restarting,
                        restarts: self.children[i].restarts + 1,
                        ..self.children[i]
                    },
                ),
                ..self
            }
        } else {
            self.with_state(i, ChildState::Stopped)
        }
    }

    /// The supervisor after a child was started.
    pub open spec fn started(self, name: Seq<char>, policy: RestartPolicy) -> SupervisorView {
        SupervisorView {
            children: self.children.push(
                ChildView { name, policy, state: ChildState::Running, restarts: 0 },
            ),
            ..self
        }
    }

    /// Restarts granted to all children.
    pub open spec fn total_restarts(self) -> int {
        sum_of(self.children, restarts_of())
    }
}

/// The restarts granted to a child.
pub open spec fn restarts_of() -> spec_fn(ChildView) -> int {
    |c: ChildView| c.restarts
}

/// A one-for-one supervisor.
pub struct Supervisor {
    max_restarts: u32,
    children: Vec<SupervisedChild>,
}

impl View for Supervisor {
    type V = SupervisorView;

    closed spec fn view(&self) -> SupervisorView {
        SupervisorView {
            max_restarts: self.max_restarts,
            children: self.children@.map_values(|c: SupervisedChild| c@),
        }
    }
}

impl Supervisor {
    /// Restarts that each child is granted. Zero means any number.
    pub fn max_restarts(&self) -> (r: u32)
        ensures
            r == self@.max_restarts,
    {
        self.max_restarts
    }

    /// A supervisor that grants each child `max_restarts` restarts, or any
    /// number of them when that is zero.
    pub fn new(max_restarts: u32) -> (r: Self)
        ensures
            r@ == (SupervisorView { max_restarts, children: Seq::empty() }),
    {
        let r = Supervisor { max_restarts, children: Vec::new() };
        assert(r@.children =~= Seq::empty());
        r
    }

    /// Position of the child of the given name.
    fn find(&self, name: &String) -> (r: Option<usize>)
        ensures
            r is Some <==> self@.has_child(name@),
            r matches Some(i) ==> self@.is_child(name@, i as int),
    {
        let ghost children = self@.children;
        let mut i: usize = 0;
        while i < self.children.len()
            invariant
                i <= self.children@.len(),
                children == self@.children,
                children.len() == self.children@.len(),
                forall|j: int| 0 <= j < i ==> (#[trigger] children[j]).name != name@,
            decreases self.children@.len() - i,
        {
            assert(children[i as int] == self.children@[i as int]@);
            if self.children[i].name == *name {
                assert(self@.is_child(name@, i as int));
                assert(self@.has_child(name@));
                return Some(i);
            }
            i = i + 1;
        }
        None
    }

    /// Start supervising a child. Fails when its name is taken.
    pub fn start_child(&mut self, spec_of_child: ChildSpec) -> (r: Result<()>)
        ensures
            r is Ok <==> !old(self)@.has_child(spec_of_child.name@),
            r is Ok ==> final(self)@ == old(self)@.started(
                spec_of_child.name@,
                spec_of_child.policy,
            ),
            r matches Err(e) ==> e is Actor && e.detail() == "child already exists"@ && *final(self) == *old(self),
    {
        if self.find(&spec_of_child.name).is_some() {
            return Err(Error::actor("child already exists"));
        }
        let ghost before = self@;
        let child = SupervisedChild {
            name: spec_of_child.name,
            policy: spec_of_child.policy,
            state: ChildState::Running,
            restarts: 0,
        };
        self.children.push(child);
        assert(self@.children =~= before.children.push(child@));
        Ok(())
    }

    /// Report that a child exited.
    ///
    /// `Ok` means that the child was restarted, or stopped as its policy
    /// says; `Err` means that there is no such child, or that its restart
    /// budget is used up and the exit is escalated.
    pub fn handle_child_exit(&mut self, name: &String, reason: &ExitReason) -> (r: Result<()>)
        requires
            forall|i: int|
                0 <= i < old(self)@.children.len() ==> (#[trigger] old(self)@.children[i]).restarts
                    < u64::MAX,
        ensures
            !old(self)@.has_child(name@) ==> {
                &&& r is Err
                &&& final(self)@ == old(self)@
            },
            forall|i: int| #[trigger]
                old(self)@.is_child(name@, i) ==> {
                    &&& r is Err <==> old(self)@.escalates(i, *reason)
                    &&& final(self)@ == old(self)@.exited(i, *reason)
                },
            r matches Err(e) ==> e is Actor && e.detail() == (if old(self)@.has_child(name@) {
                "restart budget exhausted"@
            } else {
                "unknown child"@
            }),
    {
        let ghost before = self@;
        let found = self.find(name);
        let index: usize = match found {
            Some(i) => i,
            None => {
                assert forall|i: int| #[trigger] before.is_child(name@, i) implies false by {
                    assert(before.children[i].name == name@);
                }
                return Err(Error::actor("unknown child"));
            },
        };
        proof {
            assert forall|i: int| #[trigger] before.is_child(name@, i) implies i == index by {
                if i < index {
                    assert(before.children[i].name == name@);
                } else if index < i {
                    assert(before.children[index as int].name == name@);
                }
            }
            assert(before.children[index as int] == self.children@[index as int]@);
        }
        let policy = self.children[index].policy;
        let restarts: u64 = self.children[index].restarts;
        let wanted: bool = match policy {
            RestartPolicy::Permanent => true,
            RestartPolicy::Transient => match reason {
                ExitReason::Normal => false,
                ExitReason::Error(_) => true,
            },
            RestartPolicy::Temporary => false,
        };
        let allowed: bool = self.max_restarts == 0 || restarts < self.max_restarts as u64;
        let granted: bool = wanted && allowed;
        let state: ChildState = if granted {
            ChildState::Restarting
        } else {
            ChildState::Stopped
        };
        let child = SupervisedChild {
            name: self.children[index].name.clone(),
            policy,
            state,
            restarts: if granted {
                restarts + 1
            } else {
                restarts
            },
        };
        self.children.set(index, child);
        assert(self@.children =~= before.children.update(index as int, child@));
        if wanted && !allowed {
            Err(Error::actor("restart budget exhausted"))
        } else {
            Ok(())
        }
    }

    /// Mark a restarted child as up. Fails when there is no such child.
    pub fn mark_child_running(&mut self, name: &String) -> (r: Result<()>)
        ensures
            r is Ok <==> old(self)@.has_child(name@),
            r matches Err(e) ==> e is Actor && e.detail() == "unknown child"@ && final(self)@ == old(self)@,
            forall|i: int| #[trigger]
                old(self)@.is_child(name@, i) ==> final(self)@ == old(self)@.with_state(
                    i,
                    ChildState::Running,
                ),
    {
        let ghost before = self@;
        match self.find(name) {
            Some(index) => {
                proof {
                    assert forall|i: int| #[trigger] before.is_child(name@, i) implies i == index by {
                        if i < index {
                            assert(before.children[i].name == name@);
                        } else if index < i {
                            assert(before.children[index as int].name == name@);
                        }
                    }
                    assert(before.children[index as int] == self.children@[index as int]@);
                }
                let child = SupervisedChild {
                    name: self.children[index].name.clone(),
                    policy: self.children[index].policy,
                    state: ChildState::Running,
                    restarts: self.children[index].restarts,
                };
                self.children.set(index, child);
                assert(self@.children =~= before.children.update(index as int, child@));
                Ok(())
            },
            None => {
                assert forall|i: int| #[trigger] before.is_child(name@, i) implies false by {
                    assert(before.children[i].name == name@);
                }
                Err(Error::actor("unknown child"))
            },
        }
    }

    /// The state of a child.
    pub fn child_state(&self, name: &String) -> (r: Option<ChildState>)
        ensures
            r is Some <==> self@.has_child(name@),
            forall|i: int| #[trigger]
                self@.is_child(name@, i) ==> r == Some(self@.children[i].state),
    {
        match self.find(name) {
            Some(index) => {
                assert forall|i: int| #[trigger] self@.is_child(name@, i) implies i == index by {
                    if i < index {
                        assert(self@.children[i].name == name@);
                    } else if index < i {
                        assert(self@.children[index as int].name == name@);
                    }
                }
                assert(self@.children[index as int] == self.children@[index as int]@);
                Some(self.children[index].state)
            },
            None => {
                assert forall|i: int| #[trigger] self@.is_child(name@, i) implies false by {
                    assert(self@.children[i].name == name@);
                }
                None
            },
        }
    }

    /// Restarts granted to all children so far.
    pub fn total_restarts(&self) -> (r: u64)
        requires
            self@.total_restarts() <= u64::MAX,
        ensures
            r == self@.total_restarts(),
    {
        let ghost children = self@.children;
        let mut total: u64 = 0;
        let mut i: usize = 0;
        assert(children.take(0) =~= Seq::empty());
        while i < self.children.len()
            invariant
                i <= self.children@.len(),
                children == self@.children,
                children.len() == self.children@.len(),
                total == sum_of(children.take(i as int), restarts_of()),
                sum_of(children, restarts_of()) <= u64::MAX,
            decreases self.children@.len() - i,
        {
            assert(children[i as int] == self.children@[i as int]@);
            proof {
                crate::sums::lemma_sum_push(children.take(i as int), children[i as int], restarts_of());
                assert(children.take(i as int).push(children[i as int]) =~= children.take(i + 1));
                lemma_partial_restarts(children, i + 1, self.children@);
            }
            total = total + self.children[i].restarts;
            i = i + 1;
        }
        assert(children.take(i as int) =~= children);
        total
    }
}

/// The restarts granted to the first `n` children are no more than those
/// granted to all.
proof fn lemma_partial_restarts(children: Seq<ChildView>, n: int, held: Seq<SupervisedChild>)
    requires
        0 <= n <= children.len(),
        children == held.map_values(|c: SupervisedChild| c@),
    ensures
        sum_of(children.take(n), restarts_of()) <= sum_of(children, restarts_of()),
    decreases children.len() - n,
{
    if n < children.len() {
        lemma_partial_restarts(children, n + 1, held);
        crate::sums::lemma_sum_push(children.take(n), children[n], restarts_of());
        assert(children.take(n).push(children[n]) =~= children.take(n + 1));
        assert(children[n] == held[n]@);
    } else {
        assert(children.take(n) =~= children);
    }
}

/// The restart policies: a permanent child is wanted back after every exit, a
/// transient one after a failure only, a temporary one never.
pub proof fn law_restart_policies(reason: ExitReason)
    ensures
        wants_restart(RestartPolicy::Permanent, reason),
        wants_restart(RestartPolicy::Transient, reason) <==> reason is Error,
        !wants_restart(RestartPolicy::Temporary, reason),
{
}

/// A child is never restarted past its budget: an exit that is granted a
/// restart counts against the limit, and one that comes once the limit is
/// reached is escalated and stops the child.
pub proof fn law_restart_budget(s: SupervisorView, i: int, reason: ExitReason)
    requires
        0 <= i < s.children.len(),
        s.max_restarts > 0,
        s.children[i].restarts <= s.max_restarts,
        wants_restart(s.children[i].policy, reason),
    ensures
        s.exited(i, reason).children[i].restarts <= s.max_restarts,
        s.escalates(i, reason) <==> s.children[i].restarts == s.max_restarts,
        s.escalates(i, reason) ==> s.exited(i, reason).children[i].state == ChildState::Stopped
            && s.exited(i, reason).children[i].restarts == s.children[i].restarts,
        !s.escalates(i, reason) ==> s.exited(i, reason).children[i].state
            == ChildState::Restarting && s.exited(i, reason).children[i].restarts
            == s.children[i].restarts + 1,
{
}

/// One for one: an exit changes nothing about the other children.
pub proof fn law_one_for_one(s: SupervisorView, i: int, reason: ExitReason, j: int)
    requires
        0 <= i < s.children.len(),
        0 <= j < s.children.len(),
        i != j,
    ensures
        s.exited(i, reason).children.len() == s.children.len(),
        s.exited(i, reason).children[j] == s.children[j],
        s.exited(i, reason).max_restarts == s.max_restarts,
{
}

impl SupervisorView {
    /// The supervisor after the child at `i` exited `k` times.
    pub open spec fn exited_times(self, i: int, reason: ExitReason, k: nat) -> SupervisorView
        decreases k,
    {
        if k == 0 {
            self
        } else {
            self.exited_times(i, reason, (k - 1) as nat).exited(i, reason)
        }
    }
}

/// Restarts are capped: of `k` crashes of a permanent child that has not been
/// restarted yet, as many lead to a restart as its budget allows, or all of
/// them where there is no limit.
pub proof fn law_restarts_capped(s: SupervisorView, i: int, reason: ExitReason, k: nat)
    requires
        0 <= i < s.children.len(),
        s.children[i].policy == RestartPolicy::Permanent,
        s.children[i].restarts == 0,
    ensures
        s.exited_times(i, reason, k).children[i].restarts == (if s.max_restarts == 0 || k
            <= s.max_restarts {
            k as int
        } else {
            s.max_restarts as int
        }),
        s.exited_times(i, reason, k).children[i].policy == RestartPolicy::Permanent,
        s.exited_times(i, reason, k).children.len() == s.children.len(),
        s.exited_times(i, reason, k).max_restarts == s.max_restarts,
        s.exited_times(i, reason, k).escalates(i, reason) <==> 0 < s.max_restarts <= k,
    decreases k,
{
    if k > 0 {
        law_restarts_capped(s, i, reason, (k - 1) as nat);
    }
}

/// What an exit leads to, for every policy and every reason. A permanent child
/// is brought up again after any exit and a transient one after a failure, as
/// long as fewer restarts were granted than the limit, or there is none; each
/// such exit grants one. Past the limit the exit is escalated, and the child is
/// down. An exit after which a child is not wanted back, of a temporary child
/// or of a transient one that finished, takes it down, grants nothing and is
/// not escalated.
pub proof fn law_exits(s: SupervisorView, i: int, reason: ExitReason)
    requires
        0 <= i < s.children.len(),
    ensures
        ({
            let before = s.children[i];
            let after = s.exited(i, reason).children[i];
            let wanted = before.policy == RestartPolicy::Permanent || (before.policy
                == RestartPolicy::Transient && !(reason is Normal));
            let spent = s.max_restarts > 0 && before.restarts >= s.max_restarts;
            &&& after.name == before.name
            &&& after.policy == before.policy
            &&& s.escalates(i, reason) == (wanted && spent)
            &&& wanted && !spent ==> after.state == ChildState::Restarting && after.restarts
                == before.restarts + 1
            &&& !wanted || spent ==> after.state == ChildState::Stopped && after.restarts
                == before.restarts
        }),
        s.exited(i, reason).children.len() == s.children.len(),
        s.exited(i, reason).max_restarts == s.max_restarts,
        forall|j: int|
            0 <= j < s.children.len() && j != i ==> #[trigger] s.exited(i, reason).children[j]
                == s.children[j],
{
}

/// A child that was started is up, has not been restarted, and comes after the
/// others, which stay as they are; a child that is marked as running is up, and
/// nothing else about it changes.
pub proof fn law_children_start_up(
    s: SupervisorView,
    name: Seq<char>,
    policy: RestartPolicy,
    i: int,
)
    requires
        0 <= i < s.children.len(),
    ensures
        s.started(name, policy).children.len() == s.children.len() + 1,
        s.started(name, policy).children[i] == s.children[i],
        ({
            let c = s.started(name, policy).children[s.children.len() as int];
            &&& c.name == name
            &&& c.policy == policy
            &&& c.state == ChildState::Running
            &&& c.restarts == 0
        }),
        s.started(name, policy).max_restarts == s.max_restarts,
        s.with_state(i, ChildState::Running).children[i].state == ChildState::Running,
        s.with_state(i, ChildState::Running).children[i].restarts == s.children[i].restarts,
        s.with_state(i, ChildState::Running).children[i].policy == s.children[i].policy,
        s.with_state(i, ChildState::Running).children[i].name == s.children[i].name,
{
}

/// How a child is found by its name: it is there exactly when some child has
/// the name, and it is the first that does.
pub proof fn law_children_by_name(s: SupervisorView, name: Seq<char>, i: int)
    requires
        0 <= i < s.children.len(),
        s.children[i].name == name,
    ensures
        s.has_child(name),
        exists|j: int|
            #![trigger s.is_child(name, j)]
            s.is_child(name, j) && 0 <= j <= i && s.children[j].name == name,
        forall|j: int, k: int|
            #![trigger s.is_child(name, j), s.is_child(name, k)]
            s.is_child(name, j) && s.is_child(name, k) ==> j == k,
        forall|j: int| #[trigger] s.is_child(name, j) ==> 0 <= j <= i && s.children[j].name == name,
    decreases i,
{
    if forall|j: int| 0 <= j < i ==> (#[trigger] s.children[j]).name != name {
        assert(s.is_child(name, i));
    } else {
        let j = choose|j: int| 0 <= j < i && (#[trigger] s.children[j]).name == name;
        law_children_by_name(s, name, j);
    }
}

/// The restarts granted to all children: none without children, and one more
/// child adds its own.
pub proof fn law_total_restarts(s: SupervisorView, c: ChildView)
    ensures
        s.children.len() == 0 ==> s.total_restarts() == 0,
        (SupervisorView { children: s.children.push(c), ..s }).total_restarts()
            == s.total_restarts() + c.restarts,
{
    crate::sums::lemma_sum_push(s.children, c, restarts_of());
}

} // verus!
