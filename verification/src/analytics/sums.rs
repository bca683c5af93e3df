//! Finite sums.

use vstd::prelude::*;

verus! {

/// The sum of the first `n` values.
pub open spec fn sum(n: nat, f: spec_fn(int) -> int) -> int
    decreases n,
{
    if n == 0 {
        0
    } else {
        sum((n - 1) as nat, f) + f(n - 1)
    }
}

/// The value where the condition holds.
pub open spec fn only_if(b: bool, v: int) -> int {
    if b {
        v
    } else {
        0
    }
}

pub proof fn lemma_sum_ext(n: nat, f: spec_fn(int) -> int, g: spec_fn(int) -> int)
    requires
        forall|i: int| 0 <= i < n ==> #[trigger] f(i) == g(i),
    ensures
        sum(n, f) == sum(n, g),
    decreases n,
{
    if n > 0 {
        lemma_sum_ext((n - 1) as nat, f, g);
        assert(f(n - 1) == g(n - 1));
    }
}

pub proof fn lemma_sum_add(n: nat, f: spec_fn(int) -> int, g: spec_fn(int) -> int, h: spec_fn(int) -> int)
    requires
        forall|i: int| 0 <= i < n ==> #[trigger] h(i) == f(i) + g(i),
    ensures
        sum(n, h) == sum(n, f) + sum(n, g),
    decreases n,
{
    if n > 0 {
        lemma_sum_add((n - 1) as nat, f, g, h);
        assert(h(n - 1) == f(n - 1) + g(n - 1));
    }
}

pub proof fn lemma_sum_scale(n: nat, f: spec_fn(int) -> int, c: int, h: spec_fn(int) -> int)
    requires
        forall|i: int| 0 <= i < n ==> #[trigger] h(i) == c * f(i),
    ensures
        sum(n, h) == c * sum(n, f),
    decreases n,
{
    if n > 0 {
        lemma_sum_scale((n - 1) as nat, f, c, h);
        assert(h(n - 1) == c * f(n - 1));
        let a = sum((n - 1) as nat, f);
        let b = f(n - 1);
        assert(c * (a + b) == c * a + c * b) by (nonlinear_arith);
    } else {
        assert(c * 0 == 0) by (nonlinear_arith);
    }
}

pub proof fn lemma_sum_zero(n: nat, f: spec_fn(int) -> int)
    requires
        forall|i: int| 0 <= i < n ==> #[trigger] f(i) == 0,
    ensures
        sum(n, f) == 0,
    decreases n,
{
    if n > 0 {
        lemma_sum_zero((n - 1) as nat, f);
        assert(f(n - 1) == 0);
    }
}

/// Values that differ in one place.
pub proof fn lemma_sum_point(n: nat, f: spec_fn(int) -> int, g: spec_fn(int) -> int, k: int)
    requires
        0 <= k < n,
        forall|i: int| 0 <= i < n && i != k ==> #[trigger] f(i) == g(i),
    ensures
        sum(n, g) - sum(n, f) == g(k) - f(k),
    decreases n,
{
    if k == n - 1 {
        lemma_sum_ext((n - 1) as nat, f, g);
    } else {
        lemma_sum_point((n - 1) as nat, f, g, k);
        assert(f(n - 1) == g(n - 1));
    }
}

pub proof fn lemma_sum_le(n: nat, f: spec_fn(int) -> int, g: spec_fn(int) -> int)
    requires
        forall|i: int| 0 <= i < n ==> #[trigger] f(i) <= g(i),
    ensures
        sum(n, f) <= sum(n, g),
    decreases n,
{
    if n > 0 {
        lemma_sum_le((n - 1) as nat, f, g);
        assert(f(n - 1) <= g(n - 1));
    }
}

pub proof fn lemma_sum_nonneg(n: nat, f: spec_fn(int) -> int)
    requires
        forall|i: int| 0 <= i < n ==> #[trigger] f(i) >= 0,
    ensures
        sum(n, f) >= 0,
        forall|i: int| 0 <= i < n ==> #[trigger] f(i) <= sum(n, f),
    decreases n,
{
    if n > 0 {
        lemma_sum_nonneg((n - 1) as nat, f);
        assert(f(n - 1) >= 0);
        assert forall|i: int| 0 <= i < n implies #[trigger] f(i) <= sum(n, f) by {
            if i < n - 1 {
                assert(f(i) <= sum((n - 1) as nat, f));
            }
        }
    }
}

/// The order of summation does not matter.
pub proof fn lemma_sum_swap(n: nat, m: nat, f: spec_fn(int, int) -> int)
    ensures
        sum(n, |i: int| sum(m, |j: int| f(i, j))) == sum(m, |j: int| sum(n, |i: int| f(i, j))),
    decreases n,
{
    let rows = |i: int| sum(m, |j: int| f(i, j));
    let cols = |j: int| sum(n, |i: int| f(i, j));
    if n == 0 {
        lemma_sum_zero(m, cols);
    } else {
        let k = (n - 1) as nat;
        lemma_sum_swap(k, m, f);
        let part = |j: int| sum(k, |i: int| f(i, j));
        let last = |j: int| f(n - 1, j);
        assert forall|j: int| 0 <= j < m implies #[trigger] cols(j) == part(j) + last(j) by {
            let c = |i: int| f(i, j);
            assert(sum(n, c) == sum(k, c) + c(n - 1));
        }
        lemma_sum_add(m, part, last, cols);
        assert(rows(n - 1) == sum(m, last)) by {
            lemma_sum_ext(m, |j: int| f(n - 1, j), last);
        }
    }
}

/// A sum with one term that counts.
pub proof fn lemma_sum_one(n: nat, f: spec_fn(int) -> int, k: int)
    requires
        0 <= k < n,
        forall|i: int| 0 <= i < n && i != k ==> #[trigger] f(i) == 0,
    ensures
        sum(n, f) == f(k),
{
    let z = |i: int| 0int;
    lemma_sum_zero(n, z);
    lemma_sum_point(n, z, f, k);
}

/// Summing by groups: the values of the members of each group, over the groups for
/// which the condition holds.
pub proof fn lemma_sum_groups(n: nat, k: nat, group: spec_fn(int) -> int, cond: spec_fn(int) -> bool, f: spec_fn(int) -> int)
    requires
        forall|i: int| 0 <= i < n ==> 0 <= #[trigger] group(i) < k,
    ensures
        sum(k, |u: int| only_if(cond(u), sum(n, |i: int| only_if(group(i) == u, f(i))))) == sum(n, |i: int| only_if(cond(group(i)), f(i))),
{
    let t = |u: int, i: int| only_if(cond(u) && group(i) == u, f(i));
    let lhs = |u: int| only_if(cond(u), sum(n, |i: int| only_if(group(i) == u, f(i))));
    let rows = |u: int| sum(n, |i: int| t(u, i));
    assert forall|u: int| 0 <= u < k implies #[trigger] lhs(u) == rows(u) by {
        let a = |i: int| only_if(group(i) == u, f(i));
        let b = |i: int| t(u, i);
        if cond(u) {
            assert forall|i: int| 0 <= i < n implies #[trigger] a(i) == b(i) by {}
            lemma_sum_ext(n, a, b);
        } else {
            assert forall|i: int| 0 <= i < n implies #[trigger] b(i) == 0 by {}
            lemma_sum_zero(n, b);
        }
    }
    lemma_sum_ext(k, lhs, rows);
    lemma_sum_swap(k, n, t);
    let cols = |i: int| sum(k, |u: int| t(u, i));
    let rhs = |i: int| only_if(cond(group(i)), f(i));
    assert forall|i: int| 0 <= i < n implies #[trigger] cols(i) == rhs(i) by {
        let c = |u: int| t(u, i);
        assert(0 <= group(i) < k);
        assert forall|u: int| 0 <= u < k && u != group(i) implies #[trigger] c(u) == 0 by {}
        lemma_sum_one(k, c, group(i));
    }
    lemma_sum_ext(n, cols, rhs);
}

} // verus!
