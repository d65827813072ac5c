//! The operation trace of a simulation and its hash.
//!
//! Entries name actors by ordinal and messages by number, never by
//! [`crate::ActorId`], so that the trace is a function of the seed and the
//! configuration.
use crate::bytes::{lemma_word_bytes_injective, lemma_word_round_trip, push_word, word_bytes};
use vstd::prelude::*;

verus! {

/// Why a send was rejected.
#[derive(Debug, Clone, Copy, PartialEq, Eq, Structural)]
pub enum RejectReason {
    /// Fault injection rejected the send (models a fail-fast transport).
    Fault,
    /// Target actor does not exist or is not running.
    DeadTarget,
}

/// One entry in the deterministic operation trace.
#[derive(Debug, Clone, Copy, PartialEq, Eq, Structural)]
pub enum TraceOp {
    /// Actor spawned (registry entry + supervisor child created).
    Spawn {
        /// Actor ordinal.
        ord: u64,
    },
    /// Workload injected a message.
    Send {
        /// Message identity.
        mid: u64,
        /// Target actor ordinal.
        to: u64,
    },
    /// Workload injected a batch.
    BatchSend {
        /// First message identity.
        first: u64,
        /// Batch size.
        len: u64,
        /// Target actor ordinal.
        to: u64,
    },
    /// Send rejected (message lost — at-most-once transport semantics).
    Reject {
        /// Message identity.
        mid: u64,
        /// Target actor ordinal.
        to: u64,
        /// Why the send was rejected.
        reason: RejectReason,
    },
    /// Batch delivered to the target's mailbox + ready set.
    Deliver {
        /// First message identity.
        first: u64,
        /// Batch size.
        len: u64,
        /// Target actor ordinal.
        to: u64,
    },
    /// Delivery hit a full mailbox; parked for retry (backpressure event).
    Blocked {
        /// First message identity.
        first: u64,
        /// Batch size.
        len: u64,
        /// Target actor ordinal.
        to: u64,
    },
    /// The runtime processed a message (executor observation).
    Process {
        /// Message identity.
        mid: u64,
        /// Target actor ordinal.
        to: u64,
    },
    /// The runtime processed a system message.
    ProcessSystem {
        /// Target actor ordinal.
        to: u64,
    },
    /// Actor crashed mid-message; containment drained `dropped` buffered
    /// artifacts.
    Crash {
        /// Actor ordinal.
        to: u64,
        /// Artifacts destroyed by the containment drain.
        dropped: u64,
    },
    /// A queued task targeted a dead actor and was discarded.
    Discard {
        /// First message identity.
        first: u64,
        /// Batch size.
        len: u64,
        /// Target actor ordinal.
        to: u64,
    },
    /// Crash reported to the supervisor: `allowed` = restart, else
    /// escalation.
    Restart {
        /// Actor ordinal.
        to: u64,
        /// Whether the supervisor granted a restart.
        allowed: bool,
    },
    /// Actor escalated past `max_restarts`: permanently killed.
    Kill {
        /// Actor ordinal.
        to: u64,
        /// Artifacts destroyed by the final mailbox clear.
        dropped: u64,
    },
}

/// The number that stands for a flag.
pub open spec fn flag(b: bool) -> u64 {
    if b {
        1
    } else {
        0
    }
}

impl TraceOp {
    /// The tag byte of an entry.
    pub open spec fn tag(self) -> u8 {
        match self {
            TraceOp::Spawn { .. } => 0,
            TraceOp::Send { .. } => 1,
            TraceOp::BatchSend { .. } => 2,
            TraceOp::Reject { .. } => 3,
            TraceOp::Deliver { .. } => 4,
            TraceOp::Blocked { .. } => 5,
            TraceOp::Process { .. } => 6,
            TraceOp::ProcessSystem { .. } => 7,
            TraceOp::Crash { .. } => 8,
            TraceOp::Discard { .. } => 9,
            TraceOp::Restart { .. } => 10,
            TraceOp::Kill { .. } => 11,
        }
    }

    /// The fields of an entry, as words.
    pub open spec fn fields(self) -> Seq<u64> {
        match self {
            TraceOp::Spawn { ord } => seq![ord],
            TraceOp::Send { mid, to } => seq![mid, to],
            TraceOp::BatchSend { first, len, to } => seq![first, len, to],
            TraceOp::Reject { mid, to, reason } => seq![mid, to, flag(reason is DeadTarget)],
            TraceOp::Deliver { first, len, to } => seq![first, len, to],
            TraceOp::Blocked { first, len, to } => seq![first, len, to],
            TraceOp::Process { mid, to } => seq![mid, to],
            TraceOp::ProcessSystem { to } => seq![to],
            TraceOp::Crash { to, dropped } => seq![to, dropped],
            TraceOp::Discard { first, len, to } => seq![first, len, to],
            TraceOp::Restart { to, allowed } => seq![to, flag(allowed)],
            TraceOp::Kill { to, dropped } => seq![to, dropped],
        }
    }

    /// The bytes of an entry: its tag, then its fields.
    pub open spec fn encoded(self) -> Seq<u8> {
        seq![self.tag()] + words_encoded(self.fields())
    }

    /// Append the stable little-endian encoding of the entry (tag byte +
    /// fields).
    pub fn encode_into(&self, buf: &mut Vec<u8>)
        ensures
            final(buf)@ == old(buf)@ + self.encoded(),
    {
        let (tag, fields): (u8, Vec<u64>) = match self {
            TraceOp::Spawn { ord } => (0, vec![*ord]),
            TraceOp::Send { mid, to } => (1, vec![*mid, *to]),
            TraceOp::BatchSend { first, len, to } => (2, vec![*first, *len, *to]),
            TraceOp::Reject { mid, to, reason } => {
                let why: u64 = match reason {
                    RejectReason::Fault => 0,
                    RejectReason::DeadTarget => 1,
                };
                (3, vec![*mid, *to, why])
            },
            TraceOp::Deliver { first, len, to } => (4, vec![*first, *len, *to]),
            TraceOp::Blocked { first, len, to } => (5, vec![*first, *len, *to]),
            TraceOp::Process { mid, to } => (6, vec![*mid, *to]),
            TraceOp::ProcessSystem { to } => (7, vec![*to]),
            TraceOp::Crash { to, dropped } => (8, vec![*to, *dropped]),
            TraceOp::Discard { first, len, to } => (9, vec![*first, *len, *to]),
            TraceOp::Restart { to, allowed } => {
                let granted: u64 = if *allowed {
                    1
                } else {
                    0
                };
                (10, vec![*to, granted])
            },
            TraceOp::Kill { to, dropped } => (11, vec![*to, *dropped]),
        };
        assert(fields@ =~= self.fields());
        push_fields(buf, tag, fields.as_slice());
    }
}

/// The bytes of a list of words.
pub open spec fn words_encoded(words: Seq<u64>) -> Seq<u8>
    decreases words.len(),
{
    if words.len() == 0 {
        Seq::empty()
    } else {
        word_bytes(words[0]) + words_encoded(words.drop_first())
    }
}

/// Append a tag byte and fields.
fn push_fields(buf: &mut Vec<u8>, tag: u8, fields: &[u64])
    ensures
        final(buf)@ == old(buf)@ + (seq![tag] + words_encoded(fields@)),
{
    buf.push(tag);
    let mut i: usize = 0;
    proof {
        assert(fields@.skip(0) =~= fields@);
        assert(buf@ + words_encoded(fields@) =~= old(buf)@ + (seq![tag] + words_encoded(fields@)));
    }
    while i < fields.len()
        invariant
            i <= fields@.len(),
            buf@ + words_encoded(fields@.skip(i as int)) == old(buf)@ + (seq![tag] + words_encoded(
                fields@,
            )),
        decreases fields@.len() - i,
    {
        let ghost before = buf@;
        push_word(buf, fields[i]);
        proof {
            let rest = fields@.skip(i as int);
            assert(rest.drop_first() =~= fields@.skip(i + 1));
            assert(buf@ + words_encoded(fields@.skip(i + 1)) =~= before + words_encoded(rest));
        }
        i = i + 1;
    }
    assert(buf@ + words_encoded(fields@.skip(i as int)) =~= buf@);
}

/// The bytes of a trace.
pub open spec fn trace_encoded(trace: Seq<TraceOp>) -> Seq<u8>
    decreases trace.len(),
{
    if trace.len() == 0 {
        Seq::empty()
    } else {
        trace_encoded(trace.drop_last()) + trace.last().encoded()
    }
}

/// Start value of the hash.
pub const FNV_OFFSET: u64 = 0xcbf2_9ce4_8422_2325;

/// Multiplier of the hash.
pub const FNV_PRIME: u64 = 0x0000_0100_0000_01b3;

/// The hash after one more byte.
pub open spec fn fnv_step(hash: u64, byte: u8) -> u64 {
    (((hash ^ byte as u64) * FNV_PRIME) % 0x1_0000_0000_0000_0000) as u64
}

/// The 64-bit FNV-1a hash of a list of bytes.
pub open spec fn fnv1a_spec(bytes: Seq<u8>) -> u64
    decreases bytes.len(),
{
    if bytes.len() == 0 {
        FNV_OFFSET
    } else {
        fnv_step(fnv1a_spec(bytes.drop_last()), bytes.last())
    }
}

/// FNV-1a 64-bit (stable across platforms and compiler versions).
pub fn fnv1a(bytes: &[u8]) -> (r: u64)
    ensures
        r == fnv1a_spec(bytes@),
{
    let mut hash: u64 = FNV_OFFSET;
    let mut i: usize = 0;
    assert(bytes@.take(0) =~= Seq::empty());
    while i < bytes.len()
        invariant
            i <= bytes@.len(),
            hash == fnv1a_spec(bytes@.take(i as int)),
        decreases bytes@.len() - i,
    {
        proof {
            assert(bytes@.take(i + 1).drop_last() =~= bytes@.take(i as int));
        }
        hash = hash ^ (bytes[i] as u64);
        hash = hash.wrapping_mul(FNV_PRIME);
        i = i + 1;
    }
    assert(bytes@.take(i as int) =~= bytes@);
    hash
}

/// FNV-1a hash of an operation trace.
pub fn hash_of(trace: &[TraceOp]) -> (r: u64)
    ensures
        r == fnv1a_spec(trace_encoded(trace@)),
{
    let mut buf: Vec<u8> = Vec::new();
    let mut i: usize = 0;
    assert(trace@.take(0) =~= Seq::empty());
    while i < trace.len()
        invariant
            i <= trace@.len(),
            buf@ == trace_encoded(trace@.take(i as int)),
        decreases trace@.len() - i,
    {
        proof {
            assert(trace@.take(i + 1).drop_last() =~= trace@.take(i as int));
        }
        trace[i].encode_into(&mut buf);
        i = i + 1;
    }
    assert(trace@.take(i as int) =~= trace@);
    fnv1a(buf.as_slice())
}

/// The number of bytes that a list of words takes.
proof fn lemma_words_len(words: Seq<u64>)
    ensures
        words_encoded(words).len() == 8 * words.len(),
    decreases words.len(),
{
    if words.len() > 0 {
        lemma_word_round_trip(words[0]);
        lemma_words_len(words.drop_first());
    }
}

/// Lists of as many words are equal when their bytes are.
proof fn lemma_words_injective(a: Seq<u64>, b: Seq<u64>)
    requires
        a.len() == b.len(),
        words_encoded(a) == words_encoded(b),
    ensures
        a == b,
    decreases a.len(),
{
    if a.len() > 0 {
        lemma_word_round_trip(a[0]);
        lemma_word_round_trip(b[0]);
        assert(words_encoded(a).take(8) =~= word_bytes(a[0]));
        assert(words_encoded(b).take(8) =~= word_bytes(b[0]));
        lemma_word_bytes_injective(a[0], b[0]);
        assert(words_encoded(a).skip(8) =~= words_encoded(a.drop_first()));
        assert(words_encoded(b).skip(8) =~= words_encoded(b.drop_first()));
        lemma_words_injective(a.drop_first(), b.drop_first());
        assert(a =~= seq![a[0]] + a.drop_first());
        assert(b =~= seq![b[0]] + b.drop_first());
    } else {
        assert(a =~= b);
    }
}

/// The tag and the fields determine an entry.
proof fn lemma_fields_injective(a: TraceOp, b: TraceOp)
    requires
        a.tag() == b.tag(),
        a.fields() == b.fields(),
    ensures
        a == b,
{
    let f = a.fields();
    let g = b.fields();
    assert(f.len() == g.len());
    assert(f[0] == g[0]);
    assert(f.len() > 1 ==> f[1] == g[1]);
    assert(f.len() > 2 ==> f[2] == g[2]);
}

/// No encoded entry is the start of another one: an entry can be read off the
/// front of a byte string in one way only.
pub proof fn law_encoding_is_prefix_free(a: TraceOp, x: Seq<u8>, b: TraceOp, y: Seq<u8>)
    requires
        a.encoded() + x == b.encoded() + y,
    ensures
        a == b,
        x == y,
{
    let s = a.encoded() + x;
    assert(s[0] == a.tag());
    assert(s[0] == b.tag());
    assert(a.fields().len() == b.fields().len());
    lemma_words_len(a.fields());
    lemma_words_len(b.fields());
    let n = 1 + 8 * a.fields().len();
    assert(s.take(n as int) =~= a.encoded());
    assert(s.take(n as int) =~= b.encoded());
    assert(a.encoded().skip(1) =~= words_encoded(a.fields()));
    assert(b.encoded().skip(1) =~= words_encoded(b.fields()));
    lemma_words_injective(a.fields(), b.fields());
    lemma_fields_injective(a, b);
    assert(s.skip(n as int) =~= x);
    assert(s.skip(n as int) =~= y);
}

/// The bytes of a trace, split after its first entry.
proof fn lemma_trace_head(trace: Seq<TraceOp>)
    requires
        trace.len() > 0,
    ensures
        trace_encoded(trace) == trace[0].encoded() + trace_encoded(trace.drop_first()),
    decreases trace.len(),
{
    if trace.len() == 1 {
        reveal_with_fuel(trace_encoded, 2);
        assert(trace.drop_first() =~= Seq::empty());
        assert(trace_encoded(trace) =~= trace[0].encoded());
        assert(trace[0].encoded() + trace_encoded(trace.drop_first()) =~= trace[0].encoded());
    } else {
        let front = trace.drop_last();
        lemma_trace_head(front);
        assert(front.drop_first() =~= trace.drop_first().drop_last());
        assert(trace_encoded(trace) =~= trace[0].encoded() + (trace_encoded(front.drop_first())
            + trace.last().encoded()));
    }
}

/// Different traces have different bytes: what the hash is taken of tells any
/// two traces apart.
pub proof fn law_trace_encoding_injective(a: Seq<TraceOp>, b: Seq<TraceOp>)
    requires
        trace_encoded(a) == trace_encoded(b),
    ensures
        a == b,
    decreases a.len(),
{
    if a.len() == 0 {
        if b.len() > 0 {
            lemma_trace_head(b);
            assert(trace_encoded(b).len() > 0);
        }
        assert(a =~= b);
    } else {
        lemma_trace_head(a);
        if b.len() == 0 {
            assert(trace_encoded(a).len() > 0);
        } else {
            lemma_trace_head(b);
            law_encoding_is_prefix_free(
                a[0],
                trace_encoded(a.drop_first()),
                b[0],
                trace_encoded(b.drop_first()),
            );
            law_trace_encoding_injective(a.drop_first(), b.drop_first());
            assert(a =~= seq![a[0]] + a.drop_first());
            assert(b =~= seq![b[0]] + b.drop_first());
        }
    }
}

/// The bytes of one, two and three words, one word after the other.
proof fn lemma_words_laid_out(a: u64, b: u64, c: u64)
    ensures
        words_encoded(seq![a]) == word_bytes(a),
        words_encoded(seq![a, b]) == word_bytes(a) + word_bytes(b),
        words_encoded(seq![a, b, c]) == word_bytes(a) + word_bytes(b) + word_bytes(c),
{
    let none = Seq::<u64>::empty();
    assert(seq![c].drop_first() =~= none);
    assert(seq![b].drop_first() =~= none);
    assert(seq![a].drop_first() =~= none);
    assert(seq![b, c].drop_first() =~= seq![c]);
    assert(seq![a, b].drop_first() =~= seq![b]);
    assert(seq![a, b, c].drop_first() =~= seq![b, c]);
    assert(words_encoded(none) =~= Seq::empty());
    assert(words_encoded(seq![c]) =~= word_bytes(c));
    assert(words_encoded(seq![b]) =~= word_bytes(b));
    assert(words_encoded(seq![a]) =~= word_bytes(a));
    assert(words_encoded(seq![b, c]) =~= word_bytes(b) + word_bytes(c));
    assert(words_encoded(seq![a, b]) =~= word_bytes(a) + word_bytes(b));
    assert(words_encoded(seq![a, b, c]) =~= word_bytes(a) + word_bytes(b) + word_bytes(c));
}

/// The layout of every entry: one byte that tells its kind, then its fields in
/// the order in which they are declared, eight bytes each; a reason and an
/// answer are a word of zero or one.
pub proof fn law_entry_layout(op: TraceOp)
    ensures
        match op {
            TraceOp::Spawn { ord } => op.encoded() == seq![0u8] + word_bytes(ord),
            TraceOp::Send { mid, to } => op.encoded() == seq![1u8] + word_bytes(mid) + word_bytes(
                to,
            ),
            TraceOp::BatchSend { first, len, to } => op.encoded() == seq![2u8] + word_bytes(first)
                + word_bytes(len) + word_bytes(to),
            TraceOp::Reject { mid, to, reason } => op.encoded() == seq![3u8] + word_bytes(mid)
                + word_bytes(to) + word_bytes(
                if reason == RejectReason::Fault {
                    0
                } else {
                    1
                },
            ),
            TraceOp::Deliver { first, len, to } => op.encoded() == seq![4u8] + word_bytes(first)
                + word_bytes(len) + word_bytes(to),
            TraceOp::Blocked { first, len, to } => op.encoded() == seq![5u8] + word_bytes(first)
                + word_bytes(len) + word_bytes(to),
            TraceOp::Process { mid, to } => op.encoded() == seq![6u8] + word_bytes(mid)
                + word_bytes(to),
            TraceOp::ProcessSystem { to } => op.encoded() == seq![7u8] + word_bytes(to),
            TraceOp::Crash { to, dropped } => op.encoded() == seq![8u8] + word_bytes(to)
                + word_bytes(dropped),
            TraceOp::Discard { first, len, to } => op.encoded() == seq![9u8] + word_bytes(first)
                + word_bytes(len) + word_bytes(to),
            TraceOp::Restart { to, allowed } => op.encoded() == seq![10u8] + word_bytes(to)
                + word_bytes(
                if allowed {
                    1
                } else {
                    0
                },
            ),
            TraceOp::Kill { to, dropped } => op.encoded() == seq![11u8] + word_bytes(to)
                + word_bytes(dropped),
        },
{
    let f = op.fields();
    lemma_words_laid_out(f[0], f[1], f[2]);
    if f.len() == 1 {
        assert(f =~= seq![f[0]]);
        assert(op.encoded() =~= seq![op.tag()] + word_bytes(f[0]));
    } else if f.len() == 2 {
        assert(f =~= seq![f[0], f[1]]);
        assert(op.encoded() =~= seq![op.tag()] + word_bytes(f[0]) + word_bytes(f[1]));
    } else {
        assert(f =~= seq![f[0], f[1], f[2]]);
        assert(op.encoded() =~= seq![op.tag()] + word_bytes(f[0]) + word_bytes(f[1]) + word_bytes(
            f[2],
        ));
    }
}

/// The bytes of a trace are those of its entries, one after the other.
pub proof fn law_trace_layout(a: Seq<TraceOp>, b: Seq<TraceOp>, op: TraceOp)
    ensures
        trace_encoded(Seq::empty()).len() == 0,
        trace_encoded(seq![op]) == op.encoded(),
        trace_encoded(a + b) == trace_encoded(a) + trace_encoded(b),
    decreases b.len(),
{
    reveal_with_fuel(trace_encoded, 2);
    assert(seq![op].drop_last() =~= Seq::empty());
    assert(trace_encoded(seq![op]) =~= op.encoded());
    if b.len() == 0 {
        assert(a + b =~= a);
        assert(trace_encoded(a) + trace_encoded(b) =~= trace_encoded(a));
    } else {
        law_trace_layout(a, b.drop_last(), op);
        assert((a + b).drop_last() =~= a + b.drop_last());
        assert(trace_encoded(a + b) =~= trace_encoded(a) + trace_encoded(b));
    }
}

/// The hash of no bytes, and what one more byte does to it: it is mixed into
/// the low bits, and the product with the multiplier is cut to 64 bits.
pub proof fn law_hash_steps(bytes: Seq<u8>, byte: u8)
    ensures
        fnv1a_spec(Seq::empty()) == 0xcbf2_9ce4_8422_2325,
        fnv1a_spec(bytes.push(byte)) as int == ((fnv1a_spec(bytes) ^ byte as u64) as int
            * 0x100_0000_01b3) % 0x1_0000_0000_0000_0000,
{
    assert(bytes.push(byte).drop_last() =~= bytes);
}

} // verus!
