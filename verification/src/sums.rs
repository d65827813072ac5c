//! Sums over sequences.
use vstd::prelude::*;

verus! {

/// The sum of `f` over the elements of `s`.
pub open spec fn sum_of<T>(s: Seq<T>, f: spec_fn(T) -> int) -> int
    decreases s.len(),
{
    if s.len() == 0 {
        0
    } else {
        sum_of(s.drop_last(), f) + f(s.last())
    }
}

/// Whether `f` is never negative.
pub open spec fn never_negative<T>(f: spec_fn(T) -> int) -> bool {
    forall|t: T| #[trigger] f(t) >= 0
}

/// Appending an element adds its term.
pub proof fn lemma_sum_push<T>(s: Seq<T>, t: T, f: spec_fn(T) -> int)
    ensures
        sum_of(s.push(t), f) == sum_of(s, f) + f(t),
{
    assert(s.push(t).drop_last() =~= s);
}

/// The sum over a concatenation.
pub proof fn lemma_sum_add<T>(a: Seq<T>, b: Seq<T>, f: spec_fn(T) -> int)
    ensures
        sum_of(a + b, f) == sum_of(a, f) + sum_of(b, f),
    decreases b.len(),
{
    if b.len() == 0 {
        assert(a + b =~= a);
    } else {
        assert((a + b).drop_last() =~= a + b.drop_last());
        lemma_sum_add(a, b.drop_last(), f);
    }
}

/// Removing an element takes its term away.
pub proof fn lemma_sum_remove<T>(s: Seq<T>, i: int, f: spec_fn(T) -> int)
    requires
        0 <= i < s.len(),
    ensures
        sum_of(s.remove(i), f) == sum_of(s, f) - f(s[i]),
{
    let a = s.take(i);
    let b = s.skip(i + 1);
    assert(s =~= a.push(s[i]) + b);
    assert(s.remove(i) =~= a + b);
    lemma_sum_add(a.push(s[i]), b, f);
    lemma_sum_push(a, s[i], f);
    lemma_sum_add(a, b, f);
}

/// Inserting an element adds its term.
pub proof fn lemma_sum_insert<T>(s: Seq<T>, i: int, t: T, f: spec_fn(T) -> int)
    requires
        0 <= i <= s.len(),
    ensures
        sum_of(s.insert(i, t), f) == sum_of(s, f) + f(t),
{
    let r = s.insert(i, t);
    lemma_sum_remove(r, i, f);
    assert(r.remove(i) =~= s);
}

/// Replacing an element exchanges its term.
pub proof fn lemma_sum_update<T>(s: Seq<T>, i: int, t: T, f: spec_fn(T) -> int)
    requires
        0 <= i < s.len(),
    ensures
        sum_of(s.update(i, t), f) == sum_of(s, f) - f(s[i]) + f(t),
{
    let r = s.update(i, t);
    lemma_sum_remove(r, i, f);
    lemma_sum_remove(s, i, f);
    assert(r.remove(i) =~= s.remove(i));
}

/// The sum of a pointwise sum.
pub proof fn lemma_sum_plus<T>(
    s: Seq<T>,
    f: spec_fn(T) -> int,
    g: spec_fn(T) -> int,
    h: spec_fn(T) -> int,
)
    requires
        forall|t: T| #[trigger] h(t) == f(t) + g(t),
    ensures
        sum_of(s, h) == sum_of(s, f) + sum_of(s, g),
    decreases s.len(),
{
    if s.len() > 0 {
        lemma_sum_plus(s.drop_last(), f, g, h);
    }
}

/// A sum of terms that are never negative is not negative, and is at least
/// each of its terms.
pub proof fn lemma_sum_nonneg<T>(s: Seq<T>, f: spec_fn(T) -> int)
    requires
        never_negative(f),
    ensures
        sum_of(s, f) >= 0,
        forall|i: int| 0 <= i < s.len() ==> #[trigger] f(s[i]) <= sum_of(s, f),
    decreases s.len(),
{
    if s.len() > 0 {
        lemma_sum_nonneg(s.drop_last(), f);
        assert forall|i: int| 0 <= i < s.len() implies #[trigger] f(s[i]) <= sum_of(s, f) by {
            if i < s.len() - 1 {
                assert(s.drop_last()[i] == s[i]);
                assert(f(s.drop_last()[i]) <= sum_of(s.drop_last(), f));
            }
        }
    }
}

/// Sums of terms that agree are equal.
pub proof fn lemma_sum_same<T>(s: Seq<T>, f: spec_fn(T) -> int, g: spec_fn(T) -> int)
    requires
        forall|i: int| 0 <= i < s.len() ==> #[trigger] f(s[i]) == g(s[i]),
    ensures
        sum_of(s, f) == sum_of(s, g),
    decreases s.len(),
{
    if s.len() > 0 {
        let r = s.drop_last();
        assert forall|i: int| 0 <= i < r.len() implies #[trigger] f(r[i]) == g(r[i]) by {
            assert(r[i] == s[i]);
            assert(f(s[i]) == g(s[i]));
        }
        lemma_sum_same(r, f, g);
        assert(f(s[s.len() - 1]) == g(s[s.len() - 1]));
    }
}

/// A sum whose terms are no larger is no larger.
pub proof fn lemma_sum_le<T>(s: Seq<T>, f: spec_fn(T) -> int, g: spec_fn(T) -> int)
    requires
        forall|i: int| 0 <= i < s.len() ==> #[trigger] f(s[i]) <= g(s[i]),
    ensures
        sum_of(s, f) <= sum_of(s, g),
    decreases s.len(),
{
    if s.len() > 0 {
        let r = s.drop_last();
        assert forall|i: int| 0 <= i < r.len() implies #[trigger] f(r[i]) <= g(r[i]) by {
            assert(r[i] == s[i]);
            assert(f(s[i]) <= g(s[i]));
        }
        lemma_sum_le(r, f, g);
        assert(f(s[s.len() - 1]) <= g(s[s.len() - 1]));
    }
}

/// A sum of zero terms is zero.
pub proof fn lemma_sum_zero<T>(s: Seq<T>, f: spec_fn(T) -> int)
    requires
        forall|i: int| 0 <= i < s.len() ==> #[trigger] f(s[i]) == 0,
    ensures
        sum_of(s, f) == 0,
    decreases s.len(),
{
    if s.len() > 0 {
        let r = s.drop_last();
        assert forall|i: int| 0 <= i < r.len() implies #[trigger] f(r[i]) == 0 by {
            assert(r[i] == s[i]);
            assert(f(s[i]) == 0);
        }
        lemma_sum_zero(r, f);
        assert(f(s[s.len() - 1]) == 0);
    }
}

/// A sum of terms that are at most `b` is at most `b` times their number.
pub proof fn lemma_sum_at_most<T>(s: Seq<T>, f: spec_fn(T) -> int, b: int)
    requires
        forall|i: int| 0 <= i < s.len() ==> #[trigger] f(s[i]) <= b,
    ensures
        sum_of(s, f) <= b * s.len(),
    decreases s.len(),
{
    if s.len() > 0 {
        let r = s.drop_last();
        assert forall|i: int| 0 <= i < r.len() implies #[trigger] f(r[i]) <= b by {
            assert(f(s[i]) <= b);
        }
        assert(f(s[s.len() - 1]) <= b);
        lemma_sum_at_most(r, f, b);
        let n = s.len() as int;
        assert(b * n == b * (n - 1) + b) by (nonlinear_arith);
    }
}

/// A sum of ones is their number.
pub proof fn lemma_sum_of_ones<T>(s: Seq<T>, f: spec_fn(T) -> int)
    requires
        forall|i: int| 0 <= i < s.len() ==> #[trigger] f(s[i]) == 1,
    ensures
        sum_of(s, f) == s.len(),
    decreases s.len(),
{
    if s.len() > 0 {
        let r = s.drop_last();
        assert forall|i: int| 0 <= i < r.len() implies #[trigger] f(r[i]) == 1 by {
            assert(f(s[i]) == 1);
        }
        assert(f(s[s.len() - 1]) == 1);
        lemma_sum_of_ones(r, f);
    }
}

} // verus!
