//! Finite sums over an index range, and the few facts about them that the
//! rest of the crate builds on.

use vstd::prelude::*;

verus! {

/// `f(0) + f(1) + ... + f(n - 1)`.
pub open spec fn sum_to(n: nat, f: spec_fn(int) -> int) -> int
    decreases n,
{
    if n == 0 {
        0
    } else {
        sum_to((n - 1) as nat, f) + f(n - 1)
    }
}

/// Sums of functions that agree on the range are equal.
pub proof fn lemma_sum_to_eq(n: nat, f: spec_fn(int) -> int, g: spec_fn(int) -> int)
    requires
        forall|i: int| 0 <= i < n ==> #[trigger] f(i) == g(i),
    ensures
        sum_to(n, f) == sum_to(n, g),
    decreases n,
{
    if n > 0 {
        lemma_sum_to_eq((n - 1) as nat, f, g);
    }
}

/// A pointwise bound carries over to the sums.
pub proof fn lemma_sum_to_le(n: nat, f: spec_fn(int) -> int, g: spec_fn(int) -> int)
    requires
        forall|i: int| 0 <= i < n ==> #[trigger] f(i) <= g(i),
    ensures
        sum_to(n, f) <= sum_to(n, g),
    decreases n,
{
    if n > 0 {
        lemma_sum_to_le((n - 1) as nat, f, g);
    }
}

/// A sum of non-negative terms is non-negative and grows with the range.
pub proof fn lemma_sum_to_monotone(k: nat, n: nat, f: spec_fn(int) -> int)
    requires
        k <= n,
        forall|i: int| 0 <= i < n ==> 0 <= #[trigger] f(i),
    ensures
        0 <= sum_to(k, f) <= sum_to(n, f),
    decreases n,
{
    if n == 0 {
    } else if k == n {
        lemma_sum_to_monotone((k - 1) as nat, (n - 1) as nat, f);
    } else {
        lemma_sum_to_monotone(k, (n - 1) as nat, f);
    }
}

/// The sum of a pointwise sum is the sum of the sums.
pub proof fn lemma_sum_to_add(
    n: nat,
    f: spec_fn(int) -> int,
    g: spec_fn(int) -> int,
    h: spec_fn(int) -> int,
)
    requires
        forall|i: int| 0 <= i < n ==> #[trigger] f(i) == g(i) + h(i),
    ensures
        sum_to(n, f) == sum_to(n, g) + sum_to(n, h),
    decreases n,
{
    if n > 0 {
        lemma_sum_to_add((n - 1) as nat, f, g, h);
    }
}

/// A function that vanishes everywhere but at `k` sums to its value at `k`.
pub proof fn lemma_sum_to_point(n: nat, f: spec_fn(int) -> int, k: int)
    requires
        forall|i: int| 0 <= i < n && i != k ==> #[trigger] f(i) == 0,
    ensures
        sum_to(n, f) == if 0 <= k < n { f(k) } else { 0 },
    decreases n,
{
    if n > 0 {
        lemma_sum_to_point((n - 1) as nat, f, k);
    }
}

/// A sum of terms that stay below a bound stays below as many bounds.
pub proof fn lemma_sum_to_bound(n: nat, f: spec_fn(int) -> int, high: int)
    requires
        forall|i: int| 0 <= i < n ==> #[trigger] f(i) <= high,
    ensures
        sum_to(n, f) <= n * high,
    decreases n,
{
    if n > 0 {
        lemma_sum_to_bound((n - 1) as nat, f, high);
        assert((n - 1) * high + high == n * high) by (nonlinear_arith);
    } else {
        assert(n * high == 0) by (nonlinear_arith)
            requires
                n == 0,
        ;
    }
}

/// Where two functions differ at two places only, their sums differ by what
/// the functions differ by there.
pub proof fn lemma_sum_to_two_points(
    n: nat,
    f: spec_fn(int) -> int,
    g: spec_fn(int) -> int,
    j: int,
    k: int,
)
    requires
        0 <= j < n,
        0 <= k < n,
        j != k,
        forall|i: int| 0 <= i < n && i != j && i != k ==> #[trigger] f(i) == g(i),
    ensures
        sum_to(n, f) - sum_to(n, g) == (f(j) - g(j)) + (f(k) - g(k)),
{
    let d = |i: int| f(i) - g(i);
    let dj = |i: int| if i == j { f(j) - g(j) } else { 0int };
    let dk = |i: int| if i == k { f(k) - g(k) } else { 0int };
    assert forall|i: int| 0 <= i < n implies #[trigger] d(i) == dj(i) + dk(i) by {}
    lemma_sum_to_add(n, d, dj, dk);
    lemma_sum_to_point(n, dj, j);
    lemma_sum_to_point(n, dk, k);
    assert forall|i: int| 0 <= i < n implies #[trigger] f(i) == g(i) + d(i) by {}
    lemma_sum_to_add(n, f, g, d);
}

/// `f` on the members of `s`, zero elsewhere.
pub open spec fn restricted(s: Set<usize>, f: spec_fn(int) -> int) -> spec_fn(int) -> int {
    |i: int| if s.contains(i as usize) { f(i) } else { 0 }
}

/// The sum of `f` over the members of `s` that are below `n`.
pub open spec fn set_sum(n: nat, s: Set<usize>, f: spec_fn(int) -> int) -> int {
    sum_to(n, restricted(s, f))
}

/// A new member adds its own term to the sum.
pub proof fn lemma_set_sum_insert(n: nat, s: Set<usize>, f: spec_fn(int) -> int, x: usize)
    requires
        x < n <= usize::MAX,
        !s.contains(x),
    ensures
        set_sum(n, s.insert(x), f) == set_sum(n, s, f) + f(x as int),
{
    let h = |i: int| if i == x { f(x as int) } else { 0int };
    assert forall|i: int| 0 <= i < n implies #[trigger] restricted(s.insert(x), f)(i) == restricted(s, f)(i)
        + h(i) by {}
    lemma_sum_to_add(n, restricted(s.insert(x), f), restricted(s, f), h);
    lemma_sum_to_point(n, h, x as int);
}

/// A member that leaves takes its own term with it.
pub proof fn lemma_set_sum_remove(n: nat, s: Set<usize>, f: spec_fn(int) -> int, x: usize)
    requires
        x < n <= usize::MAX,
        s.contains(x),
    ensures
        set_sum(n, s.remove(x), f) == set_sum(n, s, f) - f(x as int),
{
    lemma_set_sum_insert(n, s.remove(x), f, x);
    assert(s.remove(x).insert(x) =~= s);
}

/// A sum of non-negative terms over a set is non-negative, grows with the
/// set, and never exceeds the sum over the whole range.
pub proof fn lemma_set_sum_le(n: nat, s: Set<usize>, t: Set<usize>, f: spec_fn(int) -> int)
    requires
        forall|i: int| 0 <= i < n ==> 0 <= #[trigger] f(i),
        forall|x: usize| s.contains(x) ==> t.contains(x),
    ensures
        0 <= set_sum(n, s, f) <= set_sum(n, t, f) <= sum_to(n, f),
{
    let zero = |i: int| 0int;
    assert forall|i: int| 0 <= i < n implies #[trigger] zero(i) <= restricted(s, f)(i) by {
        assert(0 <= f(i));
    }
    lemma_sum_to_le(n, zero, restricted(s, f));
    lemma_sum_to_point(n, zero, -1);
    assert forall|i: int| 0 <= i < n implies #[trigger] restricted(s, f)(i) <= restricted(t, f)(i) by {
        assert(0 <= f(i));
    }
    lemma_sum_to_le(n, restricted(s, f), restricted(t, f));
    assert forall|i: int| 0 <= i < n implies #[trigger] restricted(t, f)(i) <= f(i) by {
        assert(0 <= f(i));
    }
    lemma_sum_to_le(n, restricted(t, f), f);
}

/// The sum over two disjoint sets is the sum over their union.
pub proof fn lemma_set_sum_union(n: nat, s: Set<usize>, t: Set<usize>, f: spec_fn(int) -> int)
    requires
        forall|x: usize| !(s.contains(x) && t.contains(x)),
    ensures
        set_sum(n, s.union(t), f) == set_sum(n, s, f) + set_sum(n, t, f),
{
    assert forall|i: int| 0 <= i < n implies #[trigger] restricted(s.union(t), f)(i) == restricted(s, f)(i)
        + restricted(t, f)(i) by {}
    lemma_sum_to_add(n, restricted(s.union(t), f), restricted(s, f), restricted(t, f));
}

/// The sum of `f` over the entries of a list.
pub open spec fn list_sum(list: Seq<usize>, f: spec_fn(int) -> int) -> int
    decreases list.len(),
{
    if list.len() == 0 {
        0
    } else {
        list_sum(list.drop_last(), f) + f(list.last() as int)
    }
}

/// Summing over a list without repetitions is summing over the set of its
/// entries.
pub proof fn lemma_list_sum_is_set_sum(n: nat, list: Seq<usize>, f: spec_fn(int) -> int)
    requires
        n <= usize::MAX,
        list.no_duplicates(),
        forall|k: int| 0 <= k < list.len() ==> #[trigger] list[k] < n,
    ensures
        list_sum(list, f) == set_sum(n, list.to_set(), f),
    decreases list.len(),
{
    if list.len() == 0 {
        assert(list.to_set() =~= Set::<usize>::empty());
        lemma_sum_to_point(n, restricted(list.to_set(), f), -1);
    } else {
        let rest = list.drop_last();
        let x = list.last();
        assert(x == list[list.len() - 1]);
        assert forall|k: int| 0 <= k < rest.len() implies #[trigger] rest[k] < n by {
            assert(rest[k] == list[k]);
        }
        assert(rest.no_duplicates()) by {
            assert forall|i: int, j: int| 0 <= i < rest.len() && 0 <= j < rest.len() && i != j implies rest[i]
                != rest[j] by {
                assert(rest[i] == list[i] && rest[j] == list[j]);
            }
        }
        lemma_list_sum_is_set_sum(n, rest, f);
        assert(!rest.to_set().contains(x)) by {
            if rest.to_set().contains(x) {
                let k = choose|k: int| 0 <= k < rest.len() && rest[k] == x;
                assert(list[k] == x);
            }
        }
        assert(list.to_set() =~= rest.to_set().insert(x)) by {
            assert forall|y: usize| list.to_set().contains(y) <==> rest.to_set().insert(x).contains(y) by {
                if list.to_set().contains(y) {
                    let k = choose|k: int| 0 <= k < list.len() && list[k] == y;
                    if k < rest.len() {
                        assert(rest[k] == y);
                    }
                }
                if rest.to_set().contains(y) {
                    let k = choose|k: int| 0 <= k < rest.len() && rest[k] == y;
                    assert(list[k] == y);
                }
            }
        }
        lemma_set_sum_insert(n, rest.to_set(), f, x);
    }
}

/// A prefix of a list without repetitions sums to no more than the whole
/// range, and one more entry adds its own term.
pub proof fn lemma_list_sum_take(n: nat, list: Seq<usize>, j: int, f: spec_fn(int) -> int)
    requires
        n <= usize::MAX,
        0 <= j <= list.len(),
        list.no_duplicates(),
        forall|k: int| 0 <= k < list.len() ==> #[trigger] list[k] < n,
        forall|i: int| 0 <= i < n ==> 0 <= #[trigger] f(i),
    ensures
        0 <= list_sum(list.take(j), f) <= sum_to(n, f),
        j < list.len() ==> list_sum(list.take(j + 1), f) == list_sum(list.take(j), f) + f(list[j] as int),
        j == list.len() ==> list.take(j) == list,
{
    let prefix = list.take(j);
    lemma_list_sum_is_set_sum(n, prefix, f);
    lemma_set_sum_le(n, prefix.to_set(), prefix.to_set(), f);
    if j < list.len() {
        assert(list.take(j + 1).drop_last() =~= prefix);
    } else {
        assert(prefix =~= list);
    }
}

/// The sum over a set of a pointwise sum is the sum of the sums.
pub proof fn lemma_set_sum_add(
    n: nat,
    s: Set<usize>,
    f: spec_fn(int) -> int,
    g: spec_fn(int) -> int,
    h: spec_fn(int) -> int,
)
    requires
        forall|i: int| 0 <= i < n ==> #[trigger] f(i) == g(i) + h(i),
    ensures
        set_sum(n, s, f) == set_sum(n, s, g) + set_sum(n, s, h),
{
    assert forall|i: int| 0 <= i < n implies #[trigger] restricted(s, f)(i) == restricted(s, g)(i) + restricted(
        s,
        h,
    )(i) by {
        assert(f(i) == g(i) + h(i));
    }
    lemma_sum_to_add(n, restricted(s, f), restricted(s, g), restricted(s, h));
}

/// A pointwise bound carries over to the sums over a set.
pub proof fn lemma_set_sum_pointwise(n: nat, s: Set<usize>, f: spec_fn(int) -> int, g: spec_fn(int) -> int)
    requires
        forall|i: int| 0 <= i < n && s.contains(i as usize) ==> #[trigger] f(i) <= g(i),
    ensures
        set_sum(n, s, f) <= set_sum(n, s, g),
{
    assert forall|i: int| 0 <= i < n implies #[trigger] restricted(s, f)(i) <= restricted(s, g)(i) by {
        if s.contains(i as usize) {
            assert(f(i) <= g(i));
        }
    }
    lemma_sum_to_le(n, restricted(s, f), restricted(s, g));
}

/// A product of bounded factors is bounded by the product of the bounds.
pub proof fn lemma_product_bound(a: int, b: int, high_a: int, high_b: int)
    requires
        0 <= a <= high_a,
        0 <= b <= high_b,
    ensures
        0 <= a * b <= high_a * high_b,
{
    assert(0 <= a * b <= high_a * high_b) by (nonlinear_arith)
        requires
            0 <= a <= high_a,
            0 <= b <= high_b,
    ;
}

} // verus!
