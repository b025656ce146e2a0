//! Sums of integer sequences.

use vstd::prelude::*;

verus! {

/// The sum of the elements of `s`.
pub open spec fn sum(s: Seq<int>) -> int
    decreases s.len(),
{
    if s.len() == 0 {
        0
    } else {
        sum(s.drop_last()) + s.last()
    }
}

/// Appending an element adds it to the sum.
pub proof fn sum_push(s: Seq<int>, x: int)
    ensures
        sum(s.push(x)) == sum(s) + x,
{
    assert(s.push(x).drop_last() =~= s);
}

/// Replacing one element shifts the sum by the difference.
pub proof fn sum_update(s: Seq<int>, i: int, x: int)
    requires
        0 <= i < s.len(),
    ensures
        sum(s.update(i, x)) == sum(s) + x - s[i],
    decreases s.len(),
{
    if i == s.len() - 1 {
        assert(s.update(i, x).drop_last() =~= s.drop_last());
    } else {
        assert(s.update(i, x).drop_last() =~= s.drop_last().update(i, x));
        sum_update(s.drop_last(), i, x);
    }
}

/// Removing one element takes it off the sum.
pub proof fn sum_remove(s: Seq<int>, i: int)
    requires
        0 <= i < s.len(),
    ensures
        sum(s.remove(i)) == sum(s) - s[i],
    decreases s.len(),
{
    if i == s.len() - 1 {
        assert(s.remove(i) =~= s.drop_last());
    } else {
        assert(s.remove(i).drop_last() =~= s.drop_last().remove(i));
        sum_remove(s.drop_last(), i);
    }
}

/// Sums are monotone in the elements.
pub proof fn sum_le(s: Seq<int>, t: Seq<int>)
    requires
        s.len() == t.len(),
        forall|i: int| 0 <= i < s.len() ==> s[i] <= t[i],
    ensures
        sum(s) <= sum(t),
    decreases s.len(),
{
    if s.len() > 0 {
        sum_le(s.drop_last(), t.drop_last());
    }
}

/// A sum of non-negative elements is at least each of them.
pub proof fn sum_at_least(s: Seq<int>, i: int)
    requires
        0 <= i < s.len(),
        forall|j: int| 0 <= j < s.len() ==> s[j] >= 0,
    ensures
        s[i] <= sum(s),
{
    sum_update(s, i, 0);
    sum_nonnegative(s.update(i, 0));
}

/// A sum of non-negative elements is not negative.
pub proof fn sum_nonnegative(s: Seq<int>)
    requires
        forall|j: int| 0 <= j < s.len() ==> s[j] >= 0,
    ensures
        sum(s) >= 0,
    decreases s.len(),
{
    if s.len() > 0 {
        sum_nonnegative(s.drop_last());
    }
}

/// The sum of the first elements is at most the sum of all, where none is negative.
pub proof fn sum_prefix(s: Seq<int>, k: int)
    requires
        0 <= k <= s.len(),
        forall|j: int| 0 <= j < s.len() ==> s[j] >= 0,
    ensures
        0 <= sum(s.take(k)) <= sum(s),
    decreases s.len() - k,
{
    sum_nonnegative(s.take(k));
    if k == s.len() {
        assert(s.take(k) =~= s);
    } else {
        sum_prefix(s, k + 1);
        assert(s.take(k + 1).drop_last() =~= s.take(k));
    }
}

/// The sum of a constant.
pub proof fn sum_constant(n: nat, x: int)
    ensures
        sum(Seq::new(n, |i: int| x)) == n * x,
    decreases n,
{
    let s = Seq::new(n, |i: int| x);
    if n > 0 {
        assert(s.drop_last() =~= Seq::new((n - 1) as nat, |i: int| x));
        sum_constant((n - 1) as nat, x);
        assert(n * x == (n - 1) * x + x) by (nonlinear_arith);
    } else {
        assert(n * x == 0) by (nonlinear_arith)
            requires
                n == 0,
        ;
    }
}

/// Sums add elementwise.
pub proof fn sum_plus(s: Seq<int>, t: Seq<int>)
    requires
        s.len() == t.len(),
    ensures
        sum(Seq::new(s.len(), |i: int| s[i] + t[i])) == sum(s) + sum(t),
    decreases s.len(),
{
    let u = Seq::new(s.len(), |i: int| s[i] + t[i]);
    if s.len() > 0 {
        let (s1, t1) = (s.drop_last(), t.drop_last());
        assert(u.drop_last() =~= Seq::new(s1.len(), |i: int| s1[i] + t1[i]));
        sum_plus(s1, t1);
    }
}

/// Sums of multiples.
pub proof fn sum_scaled(s: Seq<int>, c: int)
    ensures
        sum(Seq::new(s.len(), |i: int| c * s[i])) == c * sum(s),
    decreases s.len(),
{
    let u = Seq::new(s.len(), |i: int| c * s[i]);
    if s.len() > 0 {
        let s1 = s.drop_last();
        assert(u.drop_last() =~= Seq::new(s1.len(), |i: int| c * s1[i]));
        sum_scaled(s1, c);
        assert(c * (sum(s1) + s.last()) == c * sum(s1) + c * s.last()) by (nonlinear_arith);
    } else {
        assert(c * 0 == 0) by (nonlinear_arith);
    }
}

/// A sequence of zeros sums to zero.
pub proof fn sum_zero(s: Seq<int>)
    requires
        forall|i: int| 0 <= i < s.len() ==> s[i] == 0,
    ensures
        sum(s) == 0,
    decreases s.len(),
{
    if s.len() > 0 {
        sum_zero(s.drop_last());
    }
}

} // verus!
