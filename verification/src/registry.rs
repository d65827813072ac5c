//! Actor registry: identity, lifecycle state and mailbox of every actor.
use crate::error::{Error, Result};
use crate::mailbox::{Mailbox, MailboxConfig, MailboxView};
use crate::{ActorId, Message};
use std::collections::BTreeMap;
use vstd::prelude::*;

verus! {

broadcast use vstd::laws_cmp::group_laws_cmp;

/// Lifecycle state of a registered actor.
#[derive(Debug, Clone, Copy, PartialEq, Eq, Structural)]
pub enum ActorState {
    /// Registered, not started yet.
    Creating,
    /// Processing messages.
    Running,
    /// Stopped.
    Stopped,
    /// Crashed.
    Failed,
}

impl ActorState {
    /// Whether an actor in this state processes messages.
    pub open spec fn viable(self) -> bool {
        self is Creating || self is Running
    }
}

/// A registered actor.
pub struct ActorEntry {
    name: Option<String>,
    state: ActorState,
    mailbox: Mailbox,
}

/// What a registry entry holds.
#[verifier::ext_equal]
pub struct EntryView {
    /// Registered name.
    pub name: Option<Seq<char>>,
    /// Lifecycle state.
    pub state: ActorState,
    /// Mailbox contents.
    pub mailbox: MailboxView,
}

impl View for ActorEntry {
    type V = EntryView;

    closed spec fn view(&self) -> EntryView {
        EntryView {
            name: match self.name {
                Some(n) => Some(n@),
                None => None,
            },
            state: self.state,
            mailbox: self.mailbox@,
        }
    }
}

/// What a registry holds.
#[verifier::ext_equal]
pub struct RegistryView {
    /// Configuration of the mailboxes of new actors.
    pub config: MailboxConfig,
    /// The registered actors, by identifier.
    pub entries: Map<u128, EntryView>,
}

impl RegistryView {
    /// The lifecycle state of an actor, if it is registered.
    pub open spec fn state(self, id: ActorId) -> Option<ActorState> {
        if self.entries.contains_key(id.0) {
            Some(self.entries[id.0].state)
        } else {
            None
        }
    }

    /// The number of messages waiting for an actor.
    pub open spec fn waiting(self, id: ActorId) -> int {
        if self.entries.contains_key(id.0) {
            self.entries[id.0].mailbox.queue.len() as int
        } else {
            0
        }
    }

    /// The registry with an actor's entry replaced.
    pub open spec fn with_entry(self, id: ActorId, entry: EntryView) -> RegistryView {
        RegistryView { entries: self.entries.insert(id.0, entry), ..self }
    }

    /// The registry with an actor's mailbox replaced.
    pub open spec fn with_mailbox(self, id: ActorId, mailbox: MailboxView) -> RegistryView {
        self.with_entry(id, EntryView { mailbox, ..self.entries[id.0] })
    }

    /// The registry with an actor's state replaced.
    pub open spec fn with_state(self, id: ActorId, state: ActorState) -> RegistryView {
        self.with_entry(id, EntryView { state, ..self.entries[id.0] })
    }

    /// The registry without an actor.
    pub open spec fn without(self, id: ActorId) -> RegistryView {
        RegistryView { entries: self.entries.remove(id.0), ..self }
    }

    /// The registry with a fresh actor added.
    pub open spec fn with_new(self, id: ActorId, name: Option<Seq<char>>) -> RegistryView {
        self.with_entry(
            id,
            EntryView {
                name,
                state: ActorState::Creating,
                mailbox: MailboxView::empty(self.config),
            },
        )
    }
}

/// The name a text option holds.
pub open spec fn name_view(name: Option<String>) -> Option<Seq<char>> {
    match name {
        Some(n) => Some(n@),
        None => None,
    }
}

/// All registered actors.
pub struct ActorRegistry {
    config: MailboxConfig,
    entries: BTreeMap<u128, ActorEntry>,
}

impl View for ActorRegistry {
    type V = RegistryView;

    closed spec fn view(&self) -> RegistryView {
        RegistryView {
            config: self.config,
            entries: self.entries@.map_values(|e: ActorEntry| e@),
        }
    }
}

impl ActorRegistry {
    /// Every mailbox keeps its own accounts.
    pub closed spec fn wf(self) -> bool {
        &&& self.config.capacity > 0
        &&& forall|k: u128| #[trigger]
            self.entries@.contains_key(k) ==> self.entries@[k].mailbox.wf()
    }

    /// In a well-formed registry no mailbox holds more than its capacity.
    pub proof fn lemma_wf(self)
        requires
            self.wf(),
        ensures
            self@.config.capacity > 0,
            forall|k: u128| #[trigger]
                self@.entries.contains_key(k) ==> self@.entries[k].mailbox.fits(),
    {
        assert forall|k: u128| #[trigger] self@.entries.contains_key(k) implies self@.entries[k].mailbox.fits() by {
            assert(self.entries@.contains_key(k));
            self.entries@[k].mailbox.lemma_wf();
        }
    }

    /// An empty registry whose actors get mailboxes of the given
    /// configuration.
    pub fn with_mailbox_config(config: MailboxConfig) -> (r: Self)
        requires
            config.capacity > 0,
        ensures
            r.wf(),
            r@ == (RegistryView { config, entries: Map::empty() }),
    {
        let r = ActorRegistry { config, entries: BTreeMap::new() };
        assert(r@.entries =~= Map::empty());
        r
    }

    /// Register an actor in state `Creating` with an empty mailbox. Fails when
    /// the identifier is taken.
    pub fn register_named(&mut self, id: ActorId, name: Option<String>) -> (r: Result<()>)
        requires
            old(self).wf(),
        ensures
            final(self).wf(),
            r is Ok <==> !old(self)@.entries.contains_key(id.0),
            r is Ok ==> final(self)@ == old(self)@.with_new(id, name_view(name)),
            r matches Err(e) ==> e is Actor && e.detail() == "actor already registered"@ && *final(self) == *old(self),
    {
        if self.entries.contains_key(&id.0) {
            return Err(Error::actor("actor already registered"));
        }
        let ghost before = self@;
        let entry = ActorEntry {
            name,
            state: ActorState::Creating,
            mailbox: Mailbox::new(id, self.config),
        };
        let ghost e = entry@;
        self.entries.insert(id.0, entry);
        assert(self@.entries =~= before.entries.insert(id.0, e));
        Ok(())
    }

    /// Remove an actor. Fails when it is not registered.
    pub fn unregister(&mut self, id: &ActorId) -> (r: Result<()>)
        requires
            old(self).wf(),
        ensures
            final(self).wf(),
            r is Ok <==> old(self)@.entries.contains_key(id.0),
            r matches Err(e) ==> e is Actor && e.detail() == "actor not found"@,
            final(self)@ == old(self)@.without(*id),
    {
        let ghost before = self@;
        let gone = self.entries.remove(&id.0);
        assert(self@.entries =~= before.entries.remove(id.0));
        match gone {
            Some(_) => Ok(()),
            None => Err(Error::actor("actor not found")),
        }
    }

    /// The lifecycle state of an actor.
    pub fn get_state(&self, id: &ActorId) -> (r: Option<ActorState>)
        ensures
            r == self@.state(*id),
    {
        match self.entries.get(&id.0) {
            Some(entry) => Some(entry.state),
            None => None,
        }
    }

    /// The mailbox of an actor.
    pub fn get_mailbox(&self, id: &ActorId) -> (r: Option<&Mailbox>)
        requires
            self.wf(),
        ensures
            r is Some <==> self@.entries.contains_key(id.0),
            r matches Some(m) ==> m.wf() && m@ == self@.entries[id.0].mailbox,
    {
        match self.entries.get(&id.0) {
            Some(entry) => Some(&entry.mailbox),
            None => None,
        }
    }

    /// Set the lifecycle state of an actor. Fails when it is not registered.
    pub fn set_state(&mut self, id: &ActorId, state: ActorState) -> (r: Result<()>)
        requires
            old(self).wf(),
        ensures
            final(self).wf(),
            r is Ok <==> old(self)@.entries.contains_key(id.0),
            r is Ok ==> final(self)@ == old(self)@.with_state(*id, state),
            r matches Err(e) ==> e is Actor && e.detail() == "actor not found"@ && final(self)@ == old(self)@,
    {
        let ghost before = self@;
        match self.entries.remove(&id.0) {
            Some(mut entry) => {
                entry.state = state;
                let ghost e = entry@;
                self.entries.insert(id.0, entry);
                assert(self@.entries =~= before.entries.insert(id.0, e));
                Ok(())
            },
            None => {
                assert(self@.entries =~= before.entries);
                Err(Error::actor("actor not found"))
            },
        }
    }

    /// Put a message into an actor's mailbox.
    pub fn try_send(&mut self, id: &ActorId, message: Message) -> (r: std::result::Result<
        (),
        (Message, Error),
    >)
        requires
            old(self).wf(),
        ensures
            final(self).wf(),
            r is Ok <==> old(self)@.entries.contains_key(id.0) && old(self)@.waiting(*id) < old(
                self,
            )@.entries[id.0].mailbox.config.capacity,
            r is Ok ==> final(self)@ == old(self)@.with_mailbox(
                *id,
                old(self)@.entries[id.0].mailbox.sent(message@),
            ),
            r matches Err((m, e)) ==> {
                &&& m == message
                &&& final(self)@ == old(self)@
                &&& e is ResourceExhausted <==> old(self)@.entries.contains_key(id.0)
                &&& e is Actor <==> !old(self)@.entries.contains_key(id.0)
                &&& e.detail() == (if e is Actor {
                    "actor not found"@
                } else {
                    "mailbox full"@
                })
            },
    {
        let ghost before = self@;
        match self.entries.remove(&id.0) {
            Some(mut entry) => {
                let result = entry.mailbox.try_send(message);
                let ghost e = entry@;
                self.entries.insert(id.0, entry);
                assert(self@.entries =~= before.entries.insert(id.0, e));
                proof {
                    if result is Err {
                        assert(e == before.entries[id.0]);
                        assert(self@.entries =~= before.entries);
                    }
                }
                result
            },
            None => {
                assert(self@.entries =~= before.entries);
                Err((message, Error::actor("actor not found")))
            },
        }
    }

    /// Release one mailbox slot of an actor, dropping the message in it.
    pub fn release_slot(&mut self, id: &ActorId) -> (r: bool)
        requires
            old(self).wf(),
        ensures
            final(self).wf(),
            r == (old(self)@.waiting(*id) > 0),
            r ==> final(self)@ == old(self)@.with_mailbox(
                *id,
                old(self)@.entries[id.0].mailbox.received(),
            ) && 0 <= old(self)@.entries[id.0].mailbox.next_index() < old(self)@.waiting(*id),
            !r ==> final(self)@ == old(self)@,
    {
        let ghost before = self@;
        match self.entries.remove(&id.0) {
            Some(mut entry) => {
                let taken = entry.mailbox.try_recv();
                let ghost e = entry@;
                self.entries.insert(id.0, entry);
                assert(self@.entries =~= before.entries.insert(id.0, e));
                proof {
                    if taken is None {
                        assert(e == before.entries[id.0]);
                        assert(self@.entries =~= before.entries);
                    }
                }
                taken.is_some()
            },
            None => {
                assert(self@.entries =~= before.entries);
                false
            },
        }
    }

    /// Empty an actor's mailbox and tell how many messages were in it.
    pub fn clear_mailbox(&mut self, id: &ActorId) -> (r: usize)
        requires
            old(self).wf(),
        ensures
            final(self).wf(),
            r == old(self)@.waiting(*id),
            old(self)@.entries.contains_key(id.0) ==> final(self)@ == old(self)@.with_mailbox(
                *id,
                old(self)@.entries[id.0].mailbox.cleared(),
            ),
            !old(self)@.entries.contains_key(id.0) ==> final(self)@ == old(self)@,
    {
        let ghost before = self@;
        match self.entries.remove(&id.0) {
            Some(mut entry) => {
                let n: usize = entry.mailbox.len();
                entry.mailbox.clear();
                let ghost e = entry@;
                self.entries.insert(id.0, entry);
                assert(self@.entries =~= before.entries.insert(id.0, e));
                n
            },
            None => {
                assert(self@.entries =~= before.entries);
                0
            },
        }
    }
}

/// The name of an actor is the text that it was registered with, if any.
pub proof fn law_names_kept(text: String)
    ensures
        name_view(Some(text)) == Some(text@),
        name_view(None) is None,
{
}

/// What the operations on a registry do to an actor's entry: a new actor has
/// not started and has an empty mailbox of the registry's configuration; a
/// change of state or mailbox leaves the rest of the entry alone; an actor that
/// was removed is gone. No other actor is touched.
pub proof fn law_entries(
    r: RegistryView,
    id: ActorId,
    name: Option<Seq<char>>,
    state: ActorState,
    mailbox: MailboxView,
    k: u128,
)
    requires
        k != id.0,
    ensures
        ({
            let e = r.with_new(id, name).entries[id.0];
            &&& e.name == name
            &&& e.state == ActorState::Creating
            &&& e.mailbox.queue.len() == 0
            &&& !e.mailbox.backpressure
            &&& e.mailbox.config == r.config
        }),
        r.with_new(id, name).config == r.config,
        r.entries.contains_key(id.0) ==> ({
            let e = r.entries[id.0];
            &&& r.with_state(id, state).entries[id.0] == (EntryView { state, ..e })
            &&& r.with_mailbox(id, mailbox).entries[id.0] == (EntryView { mailbox, ..e })
            &&& r.state(id) == Some(e.state)
            &&& r.waiting(id) == e.mailbox.queue.len()
        }),
        !r.entries.contains_key(id.0) ==> r.state(id) is None && r.waiting(id) == 0,
        !r.without(id).entries.contains_key(id.0),
        r.with_new(id, name).entries.contains_key(k) == r.entries.contains_key(k),
        r.without(id).entries.contains_key(k) == r.entries.contains_key(k),
        r.entries.contains_key(k) ==> {
            &&& r.with_new(id, name).entries[k] == r.entries[k]
            &&& r.with_state(id, state).entries[k] == r.entries[k]
            &&& r.with_mailbox(id, mailbox).entries[k] == r.entries[k]
            &&& r.without(id).entries[k] == r.entries[k]
        },
        state.viable() == (state == ActorState::Creating || state == ActorState::Running),
{
}

} // verus!
