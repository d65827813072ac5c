//! Names and identifiers of simulated actors.
use crate::ActorId;
use vstd::prelude::*;

verus! {

/// Identity base: actor identifiers derive from `(ordinal, incarnation)`.
pub const SIM_ID_BASE: u128 = 0xA77C_70B1_5160_0000;

/// Incarnations whose identifiers are told apart from one another.
pub const DISTINCT_INCARNATIONS: u64 = 0x20_0000;

/// The identifier of an ordinal's incarnation.
pub open spec fn sim_id(ord: u64, incarnation: u64) -> ActorId {
    ActorId(SIM_ID_BASE | ((ord as u128) << 64) | incarnation as u128)
}

/// Derive the deterministic actor ID for `ordinal`'s `incarnation`.
pub fn sim_actor_id(ordinal: u64, incarnation: u64) -> (r: ActorId)
    ensures
        r == sim_id(ordinal, incarnation),
{
    ActorId(SIM_ID_BASE | ((ordinal as u128) << 64) | incarnation as u128)
}

/// Two identifiers are equal only when they come from the same ordinal and
/// the same incarnation, as long as incarnations stay below the first bit
/// that the base uses.
pub proof fn law_identifiers_tell_apart(o1: u64, i1: u64, o2: u64, i2: u64)
    requires
        i1 < DISTINCT_INCARNATIONS,
        i2 < DISTINCT_INCARNATIONS,
    ensures
        sim_id(o1, i1) == sim_id(o2, i2) ==> o1 == o2 && i1 == i2,
{
    assert((0xA77C_70B1_5160_0000u128 | ((o1 as u128) << 64) | (i1 as u128))
        == (0xA77C_70B1_5160_0000u128 | ((o2 as u128) << 64) | (i2 as u128)) ==> o1 == o2 && i1
        == i2) by (bit_vector)
        requires
            i1 < 0x20_0000u64,
            i2 < 0x20_0000u64,
    ;
}

/// The character of a decimal digit.
pub open spec fn digit(n: int) -> char {
    if n == 0 {
        '0'
    } else if n == 1 {
        '1'
    } else if n == 2 {
        '2'
    } else if n == 3 {
        '3'
    } else if n == 4 {
        '4'
    } else if n == 5 {
        '5'
    } else if n == 6 {
        '6'
    } else if n == 7 {
        '7'
    } else if n == 8 {
        '8'
    } else {
        '9'
    }
}

/// A number in decimal.
pub open spec fn decimal(n: nat) -> Seq<char>
    decreases n,
{
    if n < 10 {
        seq![digit(n as int)]
    } else {
        decimal(n / 10).push(digit((n % 10) as int))
    }
}

/// The text of a decimal digit.
fn digit_text(n: u64) -> (r: &'static str)
    requires
        n < 10,
    ensures
        r@ == seq![digit(n as int)],
{
    proof {
        reveal_strlit("0");
        reveal_strlit("1");
        reveal_strlit("2");
        reveal_strlit("3");
        reveal_strlit("4");
        reveal_strlit("5");
        reveal_strlit("6");
        reveal_strlit("7");
        reveal_strlit("8");
        reveal_strlit("9");
    }
    let r: &'static str = if n == 0 {
        "0"
    } else if n == 1 {
        "1"
    } else if n == 2 {
        "2"
    } else if n == 3 {
        "3"
    } else if n == 4 {
        "4"
    } else if n == 5 {
        "5"
    } else if n == 6 {
        "6"
    } else if n == 7 {
        "7"
    } else if n == 8 {
        "8"
    } else {
        "9"
    };
    assert(r@ =~= seq![digit(n as int)]);
    r
}

/// Append a number in decimal.
fn push_decimal(text: &mut String, n: u64)
    ensures
        final(text)@ == old(text)@ + decimal(n as nat),
    decreases n,
{
    if n >= 10 {
        push_decimal(text, n / 10);
    }
    text.append(digit_text(n % 10));
    proof {
        assert(text@ =~= old(text)@ + decimal(n as nat));
    }
}

/// The registry name of an actor incarnation.
pub open spec fn actor_name_spec(ord: u64, inc: u64) -> Seq<char> {
    "sim-"@ + decimal(ord as nat) + "-v"@ + decimal(inc as nat)
}

/// The supervisor's name for an actor.
pub open spec fn supervisor_name_spec(ord: u64) -> Seq<char> {
    "sim-"@ + decimal(ord as nat)
}

/// Registry name for an actor incarnation (unique per incarnation).
pub fn actor_name(ord: u64, inc: u64) -> (r: String)
    ensures
        r@ == actor_name_spec(ord, inc),
{
    let mut text: String = "sim-".to_string();
    push_decimal(&mut text, ord);
    text.append("-v");
    push_decimal(&mut text, inc);
    text
}

/// Supervisor child name (stable across restarts).
pub fn supervisor_name(ord: u64) -> (r: String)
    ensures
        r@ == supervisor_name_spec(ord),
{
    let mut text: String = "sim-".to_string();
    push_decimal(&mut text, ord);
    text
}

/// Whether every character is a decimal digit.
pub open spec fn all_digits(s: Seq<char>) -> bool {
    forall|i: int| 0 <= i < s.len() ==> '0' <= (#[trigger] s[i]) <= '9'
}

/// A decimal numeral has at least one character, and all of them are digits.
pub proof fn lemma_decimal_digits(n: nat)
    ensures
        decimal(n).len() > 0,
        all_digits(decimal(n)),
    decreases n,
{
    if n >= 10 {
        lemma_decimal_digits(n / 10);
    }
}

/// Different numbers have different decimal numerals.
pub proof fn lemma_decimal_injective(a: nat, b: nat)
    requires
        decimal(a) == decimal(b),
    ensures
        a == b,
    decreases a,
{
    lemma_decimal_digits(a);
    lemma_decimal_digits(b);
    let da = decimal(a);
    let db = decimal(b);
    if a < 10 && b < 10 {
        assert(da[0] == db[0]);
    } else if a < 10 {
        lemma_decimal_digits(b / 10);
        assert(db.len() == decimal(b / 10).len() + 1);
        assert(false);
    } else if b < 10 {
        lemma_decimal_digits(a / 10);
        assert(da.len() == decimal(a / 10).len() + 1);
        assert(false);
    } else {
        assert(da.drop_last() =~= decimal(a / 10));
        assert(db.drop_last() =~= decimal(b / 10));
        lemma_decimal_injective(a / 10, b / 10);
        assert(da.last() == db.last());
    }
}

/// Different actors have different supervisor names.
pub proof fn lemma_supervisor_name_injective(a: u64, b: u64)
    requires
        supervisor_name_spec(a) == supervisor_name_spec(b),
    ensures
        a == b,
{
    let p = "sim-"@.len() as int;
    assert(supervisor_name_spec(a).skip(p) =~= decimal(a as nat));
    assert(supervisor_name_spec(b).skip(p) =~= decimal(b as nat));
    lemma_decimal_injective(a as nat, b as nat);
}

/// Different actor incarnations have different registry names.
pub proof fn law_actor_names_tell_apart(o1: u64, i1: u64, o2: u64, i2: u64)
    requires
        actor_name_spec(o1, i1) == actor_name_spec(o2, i2),
    ensures
        o1 == o2,
        i1 == i2,
{
    reveal_strlit("sim-");
    reveal_strlit("-v");
    let a = decimal(o1 as nat);
    let b = decimal(o2 as nat);
    let x = decimal(i1 as nat);
    let y = decimal(i2 as nat);
    lemma_decimal_digits(o1 as nat);
    lemma_decimal_digits(o2 as nat);
    let s = actor_name_spec(o1, i1);
    let t = actor_name_spec(o2, i2);
    if a.len() < b.len() {
        assert(s[4 + a.len() as int] == '-');
        assert(t[4 + a.len() as int] == b[a.len() as int]);
        assert(false);
    }
    if b.len() < a.len() {
        assert(t[4 + b.len() as int] == '-');
        assert(s[4 + b.len() as int] == a[b.len() as int]);
        assert(false);
    }
    assert(s.subrange(4, 4 + a.len() as int) =~= a);
    assert(t.subrange(4, 4 + a.len() as int) =~= b);
    assert(s.skip(6 + a.len() as int) =~= x);
    assert(t.skip(6 + a.len() as int) =~= y);
    lemma_decimal_injective(o1 as nat, o2 as nat);
    lemma_decimal_injective(i1 as nat, i2 as nat);
}

/// The layout of an identifier: the ordinal in the high half, and the base with
/// the incarnation in its free low bits in the other.
pub proof fn law_identifier_layout(ord: u64, inc: u64)
    requires
        inc < DISTINCT_INCARNATIONS,
    ensures
        sim_id(ord, inc).0 as int == ord as int * 0x1_0000_0000_0000_0000
            + 0xA77C_70B1_5160_0000 + inc as int,
        DISTINCT_INCARNATIONS == 2_097_152,
{
    assert((0xA77C_70B1_5160_0000u128 | ((ord as u128) << 64) | (inc as u128)) == (ord as u128)
        * 0x1_0000_0000_0000_0000u128 + 0xA77C_70B1_5160_0000u128 + (inc as u128))
        by (bit_vector)
        requires
            inc < 0x20_0000u64,
    ;
}

/// The number that a numeral stands for, read from its first digit on.
pub open spec fn reading(s: Seq<char>) -> int
    decreases s.len(),
{
    if s.len() == 0 {
        0
    } else {
        10 * reading(s.drop_last()) + (s.last() as int - 48)
    }
}

/// A decimal numeral is made of digits, reads as its number, and has no
/// leading zero unless it is that one digit.
pub proof fn law_decimal_reads_back(n: nat)
    ensures
        reading(decimal(n)) == n,
        decimal(n).len() > 0,
        forall|i: int|
            0 <= i < decimal(n).len() ==> 48 <= (#[trigger] decimal(n)[i]) as int <= 57,
        n > 0 ==> decimal(n)[0] as int != 48,
        n == 0 ==> decimal(n).len() == 1,
    decreases n,
{
    reveal_with_fuel(reading, 2);
    if n < 10 {
        assert(decimal(n).drop_last() =~= Seq::empty());
    } else {
        law_decimal_reads_back(n / 10);
        assert(decimal(n).drop_last() =~= decimal(n / 10));
    }
}

/// What the names are made of.
pub proof fn law_names(ord: u64, inc: u64)
    ensures
        supervisor_name_spec(ord) == "sim-"@ + decimal(ord as nat),
        actor_name_spec(ord, inc) == "sim-"@ + decimal(ord as nat) + "-v"@ + decimal(inc as nat),
{
}

} // verus!
