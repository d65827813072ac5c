//! Little-endian bytes of 64-bit words.
use vstd::prelude::*;

verus! {

/// The `n` low bytes of `x`, least significant first.
pub open spec fn le_bytes(x: int, n: nat) -> Seq<u8>
    decreases n,
{
    if n == 0 {
        Seq::empty()
    } else {
        seq![(x % 256) as u8] + le_bytes(x / 256, (n - 1) as nat)
    }
}

/// The number whose bytes, least significant first, are `s`.
pub open spec fn le_value(s: Seq<u8>) -> int
    decreases s.len(),
{
    if s.len() == 0 {
        0
    } else {
        s[0] + 256 * le_value(s.drop_first())
    }
}

/// The eight bytes of a word.
pub open spec fn word_bytes(x: u64) -> Seq<u8> {
    le_bytes(x as int, 8)
}

/// `256` to the power `n`.
pub open spec fn byte_span(n: nat) -> int
    decreases n,
{
    if n == 0 {
        1
    } else {
        256 * byte_span((n - 1) as nat)
    }
}

/// As many bytes are written as asked for.
pub proof fn lemma_le_len(x: int, n: nat)
    ensures
        le_bytes(x, n).len() == n,
    decreases n,
{
    if n > 0 {
        lemma_le_len(x / 256, (n - 1) as nat);
    }
}

/// Reading back what was written gives the number that was written.
pub proof fn lemma_le_round_trip(x: int, n: nat)
    requires
        0 <= x < byte_span(n),
    ensures
        le_value(le_bytes(x, n)) == x,
    decreases n,
{
    lemma_le_len(x, n);
    if n > 0 {
        lemma_le_round_trip(x / 256, (n - 1) as nat);
        assert(le_bytes(x, n).drop_first() =~= le_bytes(x / 256, (n - 1) as nat));
    }
}

/// The number read from `n` bytes is below `256` to the power `n`.
pub proof fn lemma_le_value_bound(s: Seq<u8>)
    ensures
        0 <= le_value(s) < byte_span(s.len()),
    decreases s.len(),
{
    if s.len() > 0 {
        lemma_le_value_bound(s.drop_first());
    }
}

/// Eight bytes span the words.
pub proof fn lemma_word_span()
    ensures
        byte_span(8) == 0x1_0000_0000_0000_0000,
{
    reveal_with_fuel(byte_span, 9);
}

/// A word is read back from its eight bytes.
pub proof fn lemma_word_round_trip(x: u64)
    ensures
        word_bytes(x).len() == 8,
        le_value(word_bytes(x)) == x,
{
    lemma_word_span();
    lemma_le_len(x as int, 8);
    lemma_le_round_trip(x as int, 8);
}

/// Words with the same bytes are equal.
pub proof fn lemma_word_bytes_injective(x: u64, y: u64)
    requires
        word_bytes(x) == word_bytes(y),
    ensures
        x == y,
{
    lemma_word_round_trip(x);
    lemma_word_round_trip(y);
}

/// Append the eight bytes of a word.
pub fn push_word(buf: &mut Vec<u8>, x: u64)
    ensures
        final(buf)@ == old(buf)@ + word_bytes(x),
{
    let mut rest: u64 = x;
    let mut i: usize = 0;
    while i < 8
        invariant
            i <= 8,
            buf@ + le_bytes(rest as int, (8 - i) as nat) == old(buf)@ + word_bytes(x),
        decreases 8 - i,
    {
        let low: u8 = (rest % 256) as u8;
        let ghost before = buf@;
        buf.push(low);
        proof {
            assert(le_bytes(rest as int, (8 - i) as nat) == seq![low] + le_bytes(
                rest as int / 256,
                (8 - i - 1) as nat,
            ));
            assert(before.push(low) + le_bytes(rest as int / 256, (8 - i - 1) as nat) =~= before + (
            seq![low] + le_bytes(rest as int / 256, (8 - i - 1) as nat)));
        }
        rest = rest / 256;
        i = i + 1;
    }
    assert(buf@ + le_bytes(rest as int, 0) =~= buf@);
}

/// The eight bytes of a word.
pub fn word_to_bytes(x: u64) -> (r: Vec<u8>)
    ensures
        r@ == word_bytes(x),
{
    let mut buf: Vec<u8> = Vec::new();
    push_word(&mut buf, x);
    assert(buf@ =~= word_bytes(x));
    buf
}

/// The word with the given eight bytes.
pub fn word_from_bytes(bytes: &Vec<u8>) -> (r: u64)
    requires
        bytes@.len() == 8,
    ensures
        r == le_value(bytes@),
{
    proof {
        lemma_word_span();
        lemma_le_value_bound(bytes@);
        assert(bytes@.skip(8) =~= Seq::empty());
    }
    let mut value: u64 = 0;
    let mut i: usize = 8;
    while i > 0
        invariant
            i <= 8,
            bytes@.len() == 8,
            value == le_value(bytes@.skip(i as int)),
            byte_span(8) == 0x1_0000_0000_0000_0000,
        decreases i,
    {
        i = i - 1;
        proof {
            assert(bytes@.skip(i as int).drop_first() =~= bytes@.skip(i + 1));
            lemma_le_value_bound(bytes@.skip(i as int));
            lemma_span_monotone((8 - i) as nat, 8);
        }
        value = value * 256 + bytes[i] as u64;
    }
    assert(bytes@.skip(0) =~= bytes@);
    value
}

/// More bytes span more numbers.
proof fn lemma_span_monotone(a: nat, b: nat)
    requires
        a <= b,
    ensures
        0 < byte_span(a) <= byte_span(b),
    decreases b,
{
    if b > 0 {
        if a < b {
            lemma_span_monotone(a, (b - 1) as nat);
        } else {
            lemma_span_monotone((a - 1) as nat, (b - 1) as nat);
        }
    }
}

/// The bytes of a word, least significant first, and what eight bytes stand
/// for.
pub proof fn law_word_layout(x: u64)
    ensures
        word_bytes(x) == seq![
            (x as int % 256) as u8,
            (x as int / 0x100 % 256) as u8,
            (x as int / 0x1_0000 % 256) as u8,
            (x as int / 0x100_0000 % 256) as u8,
            (x as int / 0x1_0000_0000 % 256) as u8,
            (x as int / 0x100_0000_0000 % 256) as u8,
            (x as int / 0x1_0000_0000_0000 % 256) as u8,
            (x as int / 0x100_0000_0000_0000 % 256) as u8,
        ],
{
    reveal_with_fuel(le_bytes, 9);
    assert(word_bytes(x) =~= seq![
        (x as int % 256) as u8,
        (x as int / 0x100 % 256) as u8,
        (x as int / 0x1_0000 % 256) as u8,
        (x as int / 0x100_0000 % 256) as u8,
        (x as int / 0x1_0000_0000 % 256) as u8,
        (x as int / 0x100_0000_0000 % 256) as u8,
        (x as int / 0x1_0000_0000_0000 % 256) as u8,
        (x as int / 0x100_0000_0000_0000 % 256) as u8,
    ]);
}

/// The word that eight bytes stand for: each counts 256 times as much as the
/// one before it.
pub proof fn law_word_value(s: Seq<u8>)
    requires
        s.len() == 8,
    ensures
        le_value(s) == s[0] + 0x100 * s[1] + 0x1_0000 * s[2] + 0x100_0000 * s[3] + 0x1_0000_0000
            * s[4] + 0x100_0000_0000 * s[5] + 0x1_0000_0000_0000 * s[6] + 0x100_0000_0000_0000
            * s[7],
{
    lemma_le_tail(s, 8);
    lemma_le_tail(s, 7);
    lemma_le_tail(s, 6);
    lemma_le_tail(s, 5);
    lemma_le_tail(s, 4);
    lemma_le_tail(s, 3);
    lemma_le_tail(s, 2);
    lemma_le_tail(s, 1);
    lemma_le_tail(s, 0);
    assert(s.skip(0) =~= s);
}

/// Reading from one byte further on.
proof fn lemma_le_tail(s: Seq<u8>, i: int)
    requires
        0 <= i <= s.len(),
    ensures
        i == s.len() ==> le_value(s.skip(i)) == 0,
        i < s.len() ==> le_value(s.skip(i)) == s[i] + 256 * le_value(s.skip(i + 1)),
{
    if i < s.len() {
        assert(s.skip(i).drop_first() =~= s.skip(i + 1));
    }
}

} // verus!
