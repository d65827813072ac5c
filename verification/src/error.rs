//! Error types for the actor runtime.
use vstd::prelude::*;

verus! {

/// Convenience alias used throughout the runtime.
pub type Result<T> = std::result::Result<T, Error>;

/// The error type for the actor runtime.
///
/// Deliberately small: actor-lifecycle failures, resource exhaustion,
/// serialization failures, and internal bugs.
#[derive(Debug, Clone, PartialEq, Eq)]
pub enum Error {
    /// An actor lifecycle or messaging error (unknown actor, stopped actor,
    /// duplicate registration, supervision failure, ...).
    Actor(String),
    /// A resource limit was hit: mailbox full, spawn rejected by the
    /// [`crate::ResourcePolicy`], message rate exceeded.
    ResourceExhausted(String),
    /// Serialization or deserialization failure.
    Serialization(String),
    /// An internal invariant was violated (bug).
    Internal(String),
}

impl Error {
    /// What the error is about.
    pub open spec fn detail(self) -> Seq<char> {
        match self {
            Error::Actor(m) => m@,
            Error::ResourceExhausted(m) => m@,
            Error::Serialization(m) => m@,
            Error::Internal(m) => m@,
        }
    }

    /// The words that introduce an error of this kind.
    pub open spec fn heading(self) -> Seq<char> {
        match self {
            Error::Actor(_) => "actor error: "@,
            Error::ResourceExhausted(_) => "resource exhausted: "@,
            Error::Serialization(_) => "serialization failed: "@,
            Error::Internal(_) => "internal error: "@,
        }
    }

    /// An actor lifecycle or messaging error.
    pub fn actor(message: &str) -> (r: Self)
        ensures
            r is Actor,
            r.detail() == message@,
    {
        Error::Actor(message.to_string())
    }

    /// A resource exhaustion error (mailbox full, quota rejected).
    pub fn resource_exhausted(message: &str) -> (r: Self)
        ensures
            r is ResourceExhausted,
            r.detail() == message@,
    {
        Error::ResourceExhausted(message.to_string())
    }

    /// A serialization/deserialization error.
    pub fn serialization(message: &str) -> (r: Self)
        ensures
            r is Serialization,
            r.detail() == message@,
    {
        Error::Serialization(message.to_string())
    }

    /// An internal error (bug or unimplemented feature).
    pub fn internal(message: &str) -> (r: Self)
        ensures
            r is Internal,
            r.detail() == message@,
    {
        Error::Internal(message.to_string())
    }

    /// The error as text: its kind, then what it is about.
    pub fn describe(&self) -> (r: String)
        ensures
            r@ == self.heading() + self.detail(),
    {
        match self {
            Error::Actor(m) => "actor error: ".to_string().concat(m.as_str()),
            Error::ResourceExhausted(m) => "resource exhausted: ".to_string().concat(m.as_str()),
            Error::Serialization(m) => "serialization failed: ".to_string().concat(m.as_str()),
            Error::Internal(m) => "internal error: ".to_string().concat(m.as_str()),
        }
    }
}

/// How each kind of error is introduced, and what it is about.
pub proof fn law_error_text(text: String)
    ensures
        Error::Actor(text).heading() == "actor error: "@,
        Error::ResourceExhausted(text).heading() == "resource exhausted: "@,
        Error::Serialization(text).heading() == "serialization failed: "@,
        Error::Internal(text).heading() == "internal error: "@,
        Error::Actor(text).detail() == text@,
        Error::ResourceExhausted(text).detail() == text@,
        Error::Serialization(text).detail() == text@,
        Error::Internal(text).detail() == text@,
{
}

} // verus!
