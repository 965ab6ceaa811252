//! Small helpers on sequences and vectors that several modules share.

use vstd::prelude::*;

verus! {

/// Number of `true` entries in a boolean sequence.
pub open spec fn count_true(s: Seq<bool>) -> int
    decreases s.len(),
{
    if s.len() == 0 {
        0
    } else {
        count_true(s.drop_last()) + (if s.last() {
            1int
        } else {
            0int
        })
    }
}

pub proof fn lemma_count_true_le(s: Seq<bool>)
    ensures
        0 <= count_true(s) <= s.len(),
    decreases s.len(),
{
    if s.len() > 0 {
        lemma_count_true_le(s.drop_last());
    }
}

/// Setting a `false` entry to `true` raises the count by one.
pub proof fn lemma_count_true_update(s: Seq<bool>, i: int)
    requires
        0 <= i < s.len(),
        !s[i],
    ensures
        count_true(s.update(i, true)) == count_true(s) + 1,
    decreases s.len(),
{
    let t = s.update(i, true);
    if i == s.len() - 1 {
        assert(t.drop_last() =~= s.drop_last());
    } else {
        assert(t.drop_last() =~= s.drop_last().update(i, true));
        lemma_count_true_update(s.drop_last(), i);
    }
}

/// A pointwise implication between boolean sequences bounds the counts.
pub proof fn lemma_count_true_pointwise(a: Seq<bool>, b: Seq<bool>)
    requires
        a.len() == b.len(),
        forall|i: int| 0 <= i < a.len() ==> (a[i] ==> b[i]),
    ensures
        count_true(a) <= count_true(b),
    decreases a.len(),
{
    if a.len() > 0 {
        lemma_count_true_pointwise(a.drop_last(), b.drop_last());
    }
}

/// A duplicate-free sequence of ids below `n` has at most `n` elements.
pub proof fn lemma_nodup_bounded_len(s: Seq<usize>, n: int)
    requires
        n >= 0,
        s.no_duplicates(),
        forall|k: int| 0 <= k < s.len() ==> (s[k] as int) < n,
    ensures
        s.len() <= n,
{
    let f = |x: usize| x as int;
    let si = s.map_values(f);
    s.lemma_no_duplicates_injective(f);
    si.unique_seq_to_set();
    vstd::set_lib::lemma_int_range(0, n);
    assert forall|x: int| si.to_set().contains(x) implies vstd::set_lib::set_int_range(
        0,
        n,
    ).contains(x) by {
        let k = choose|k: int| 0 <= k < si.len() && si[k] == x;
        assert((s[k] as int) < n);
    }
    vstd::set_lib::lemma_len_subset(si.to_set(), vstd::set_lib::set_int_range(0, n));
}

/// Membership in a sequence is membership in either half of a split.
pub proof fn lemma_contains_split<A>(q: Seq<A>, a: int, x: A)
    requires
        0 <= a <= q.len(),
    ensures
        q.contains(x) <==> (q.subrange(0, a).contains(x) || q.subrange(a, q.len() as int).contains(
            x,
        )),
{
    let lo = q.subrange(0, a);
    let hi = q.subrange(a, q.len() as int);
    if q.contains(x) {
        let j = choose|j: int| 0 <= j < q.len() && q[j] == x;
        if j < a {
            assert(lo[j] == x);
        } else {
            assert(hi[j - a] == x);
        }
    }
    if lo.contains(x) {
        let j = choose|j: int| 0 <= j < lo.len() && lo[j] == x;
        assert(q[j] == x);
    }
    if hi.contains(x) {
        let j = choose|j: int| 0 <= j < hi.len() && hi[j] == x;
        assert(q[j + a] == x);
    }
}

/// A vector holding `n` copies of `x`.
pub fn filled_vec<A: Copy>(n: usize, x: A) -> (v: Vec<A>)
    ensures
        v@.len() == n,
        forall|i: int| 0 <= i < n ==> v@[i] == x,
{
    let mut v: Vec<A> = Vec::new();
    while v.len() < n
        invariant
            v@.len() <= n,
            forall|i: int| 0 <= i < v@.len() ==> v@[i] == x,
        decreases n - v@.len(),
    {
        v.push(x);
    }
    v
}

} // verus!
