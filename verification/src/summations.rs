//! Generic sums over sequences: integer-valued and multiset-valued
//! element-wise summations, with the algebra the assigners' invariants
//! need (push, update, concatenation, non-negativity, uniqueness).

use vstd::multiset::Multiset;
use vstd::prelude::*;

verus! {

/// The sum of `f` over the elements of `s`.
pub open spec fn seq_sum<A>(s: Seq<A>, f: spec_fn(A) -> int) -> int
    decreases s.len(),
{
    if s.len() == 0 {
        0
    } else {
        seq_sum(s.drop_last(), f) + f(s.last())
    }
}

/// The multiset union of `f` over the elements of `s`.
pub open spec fn seq_msum<A, B>(s: Seq<A>, f: spec_fn(A) -> Multiset<B>) -> Multiset<B>
    decreases s.len(),
{
    if s.len() == 0 {
        Multiset::empty()
    } else {
        seq_msum(s.drop_last(), f).add(f(s.last()))
    }
}

/// Pushing an element extends the sums in the evident way.
pub proof fn lemma_seq_sum_push<A>(s: Seq<A>, f: spec_fn(A) -> int, x: A)
    ensures
        seq_sum(s.push(x), f) == seq_sum(s, f) + f(x),
{
    assert(s.push(x).drop_last() =~= s);
}

/// Pushing an element extends the multiset sums in the evident way.
pub proof fn lemma_seq_msum_push<A, B>(s: Seq<A>, f: spec_fn(A) -> Multiset<B>, x: A)
    ensures
        forall|y: B|
            seq_msum(s.push(x), f).count(y) == seq_msum(s, f).count(y) + f(x).count(y),
{
    assert(s.push(x).drop_last() =~= s);
}

/// Replacing one element adjusts the sum by the difference.
pub proof fn lemma_seq_sum_update<A>(s: Seq<A>, f: spec_fn(A) -> int, j: int, x: A)
    requires
        0 <= j < s.len(),
    ensures
        seq_sum(s.update(j, x), f) == seq_sum(s, f) - f(s[j]) + f(x),
    decreases s.len(),
{
    if j == s.len() - 1 {
        assert(s.update(j, x).drop_last() =~= s.drop_last());
    } else {
        assert(s.update(j, x).drop_last() =~= s.drop_last().update(j, x));
        assert(s.update(j, x).last() == s.last());
        assert(s.drop_last()[j] == s[j]);
        lemma_seq_sum_update(s.drop_last(), f, j, x);
    }
}

/// Replacing one element adjusts the multiset sum by the difference.
pub proof fn lemma_seq_msum_update<A, B>(s: Seq<A>, f: spec_fn(A) -> Multiset<B>, j: int, x: A)
    requires
        0 <= j < s.len(),
    ensures
        forall|y: B|
            seq_msum(s.update(j, x), f).count(y) == seq_msum(s, f).count(y) - f(s[j]).count(y)
                + f(x).count(y),
    decreases s.len(),
{
    if j == s.len() - 1 {
        assert(s.update(j, x).drop_last() =~= s.drop_last());
        assert forall|y: B|
            seq_msum(s.update(j, x), f).count(y) == seq_msum(s, f).count(y) - f(s[j]).count(y)
                + f(x).count(y) by {
            assert(seq_msum(s.update(j, x), f).count(y) == seq_msum(s.drop_last(), f).count(y)
                + f(x).count(y));
            assert(seq_msum(s, f).count(y) == seq_msum(s.drop_last(), f).count(y) + f(
                s[j],
            ).count(y));
        }
    } else {
        assert(s.update(j, x).drop_last() =~= s.drop_last().update(j, x));
        assert(s.update(j, x).last() == s.last());
        assert(s.drop_last()[j] == s[j]);
        lemma_seq_msum_update(s.drop_last(), f, j, x);
        assert forall|y: B|
            seq_msum(s.update(j, x), f).count(y) == seq_msum(s, f).count(y) - f(s[j]).count(y)
                + f(x).count(y) by {
            assert(seq_msum(s.update(j, x), f).count(y) == seq_msum(
                s.drop_last().update(j, x),
                f,
            ).count(y) + f(s.last()).count(y));
            assert(seq_msum(s, f).count(y) == seq_msum(s.drop_last(), f).count(y) + f(
                s.last(),
            ).count(y));
        }
    }
}

/// Concatenation adds the sums.
pub proof fn lemma_seq_sum_concat<A>(a: Seq<A>, b: Seq<A>, f: spec_fn(A) -> int)
    ensures
        seq_sum(a + b, f) == seq_sum(a, f) + seq_sum(b, f),
    decreases b.len(),
{
    if b.len() == 0 {
        assert(a + b =~= a);
    } else {
        assert((a + b).drop_last() =~= a + b.drop_last());
        assert((a + b).last() == b.last());
        lemma_seq_sum_concat(a, b.drop_last(), f);
    }
}

/// Concatenation adds the multiset sums.
pub proof fn lemma_seq_msum_concat<A, B>(a: Seq<A>, b: Seq<A>, f: spec_fn(A) -> Multiset<B>)
    ensures
        forall|y: B|
            seq_msum(a + b, f).count(y) == seq_msum(a, f).count(y) + seq_msum(b, f).count(y),
    decreases b.len(),
{
    if b.len() == 0 {
        assert(a + b =~= a);
    } else {
        assert((a + b).drop_last() =~= a + b.drop_last());
        assert((a + b).last() == b.last());
        lemma_seq_msum_concat(a, b.drop_last(), f);
        assert forall|y: B|
            seq_msum(a + b, f).count(y) == seq_msum(a, f).count(y) + seq_msum(b, f).count(
                y,
            ) by {
            assert(seq_msum(a + b, f).count(y) == seq_msum(a + b.drop_last(), f).count(y) + f(
                b.last(),
            ).count(y));
            assert(seq_msum(b, f).count(y) == seq_msum(b.drop_last(), f).count(y) + f(
                b.last(),
            ).count(y));
        }
    }
}

/// A sum of element-wise non-negative contributions is non-negative.
pub proof fn lemma_seq_sum_nonneg<A>(s: Seq<A>, f: spec_fn(A) -> int)
    requires
        forall|j: int| 0 <= j < s.len() ==> f(#[trigger] s[j]) >= 0,
    ensures
        seq_sum(s, f) >= 0,
    decreases s.len(),
{
    if s.len() > 0 {
        lemma_seq_sum_nonneg(s.drop_last(), f);
    }
}

/// In a sum of element-wise non-negative contributions, each element's
/// contribution bounds the sum from below.
pub proof fn lemma_seq_sum_member<A>(s: Seq<A>, f: spec_fn(A) -> int, j: int)
    requires
        forall|t: int| 0 <= t < s.len() ==> f(#[trigger] s[t]) >= 0,
        0 <= j < s.len(),
    ensures
        seq_sum(s, f) >= f(s[j]),
    decreases s.len(),
{
    if j == s.len() - 1 {
        lemma_seq_sum_nonneg(s.drop_last(), f);
    } else {
        assert(s.drop_last()[j] == s[j]);
        lemma_seq_sum_member(s.drop_last(), f, j);
    }
}

/// When a sum of element-wise non-negative contributions is positive,
/// some element contributes positively.
pub proof fn lemma_seq_sum_positive<A>(s: Seq<A>, f: spec_fn(A) -> int)
    requires
        seq_sum(s, f) > 0,
    ensures
        exists|j: int| 0 <= j < s.len() && f(#[trigger] s[j]) > 0,
    decreases s.len(),
{
    if s.len() > 0 {
        if f(s.last()) > 0 {
            assert(f(s[s.len() - 1]) > 0);
        } else {
            lemma_seq_sum_positive(s.drop_last(), f);
            let j = choose|j: int| 0 <= j < s.drop_last().len() && f(#[trigger] s.drop_last()[j])
                > 0;
            assert(f(s[j]) > 0);
        }
    }
}

/// Splitting off the first element splits the sum.
pub proof fn lemma_seq_sum_drop_first<A>(s: Seq<A>, f: spec_fn(A) -> int)
    requires
        s.len() > 0,
    ensures
        seq_sum(s, f) == f(s[0]) + seq_sum(s.drop_first(), f),
{
    let single = Seq::empty().push(s[0]);
    assert(s =~= single + s.drop_first());
    lemma_seq_sum_concat(single, s.drop_first(), f);
    assert(seq_sum(single, f) == f(s[0])) by {
        assert(single.drop_last() =~= Seq::<A>::empty());
        assert(single.last() == s[0]);
        assert(seq_sum(single, f) == seq_sum(single.drop_last(), f) + f(single.last()));
        assert(seq_sum(Seq::<A>::empty(), f) == 0);
    }
}

/// Splitting off the first element splits the multiset sum.
pub proof fn lemma_seq_msum_drop_first<A, B>(s: Seq<A>, f: spec_fn(A) -> Multiset<B>)
    requires
        s.len() > 0,
    ensures
        forall|y: B|
            seq_msum(s, f).count(y) == f(s[0]).count(y) + seq_msum(s.drop_first(), f).count(y),
{
    let single = Seq::empty().push(s[0]);
    assert(s =~= single + s.drop_first());
    lemma_seq_msum_concat(single, s.drop_first(), f);
    assert forall|y: B| seq_msum(single, f).count(y) == f(s[0]).count(y) by {
        assert(single.drop_last() =~= Seq::<A>::empty());
        assert(seq_msum(single, f).count(y) == seq_msum(Seq::<A>::empty(), f).count(y) + f(
            single.last(),
        ).count(y));
    }
}

/// A sum of contributions that are each at most one is at most the
/// length.
pub proof fn lemma_seq_sum_le_one<A>(s: Seq<A>, f: spec_fn(A) -> int)
    requires
        forall|t: int| 0 <= t < s.len() ==> f(#[trigger] s[t]) <= 1,
    ensures
        seq_sum(s, f) <= s.len(),
    decreases s.len(),
{
    if s.len() > 0 {
        lemma_seq_sum_le_one(s.drop_last(), f);
    }
}

/// A sum of contributions that each equal one equals the length.
pub proof fn lemma_seq_sum_all_one<A>(s: Seq<A>, f: spec_fn(A) -> int)
    requires
        forall|t: int| 0 <= t < s.len() ==> f(#[trigger] s[t]) == 1,
    ensures
        seq_sum(s, f) == s.len(),
    decreases s.len(),
{
    if s.len() > 0 {
        lemma_seq_sum_all_one(s.drop_last(), f);
    }
}

/// An element's contribution appears in the multiset sum.
pub proof fn lemma_seq_msum_member<A, B>(s: Seq<A>, f: spec_fn(A) -> Multiset<B>, j: int, y: B)
    requires
        0 <= j < s.len(),
    ensures
        seq_msum(s, f).count(y) >= f(s[j]).count(y),
    decreases s.len(),
{
    if j == s.len() - 1 {
        lemma_seq_msum_nonneg(s.drop_last(), f, y);
    } else {
        lemma_seq_msum_member(s.drop_last(), f, j, y);
        assert(s.drop_last()[j] == s[j]);
    }
}

/// Multiset sums count non-negatively.
pub proof fn lemma_seq_msum_nonneg<A, B>(s: Seq<A>, f: spec_fn(A) -> Multiset<B>, y: B)
    ensures
        seq_msum(s, f).count(y) >= 0,
{
}

/// A value counted in the multiset sum is contributed by some element.
pub proof fn lemma_seq_msum_contains<A, B>(s: Seq<A>, f: spec_fn(A) -> Multiset<B>, y: B)
    requires
        seq_msum(s, f).count(y) > 0,
    ensures
        exists|j: int| 0 <= j < s.len() && f(#[trigger] s[j]).count(y) > 0,
    decreases s.len(),
{
    if s.len() > 0 {
        if f(s.last()).count(y) > 0 {
            assert(f(s[s.len() - 1]).count(y) > 0);
        } else {
            lemma_seq_msum_contains(s.drop_last(), f, y);
            let j = choose|j: int|
                0 <= j < s.drop_last().len() && f(#[trigger] s.drop_last()[j]).count(y) > 0;
            assert(f(s[j]) == f(s.drop_last()[j]));
            assert(f(s[j]).count(y) > 0);
        }
    }
}

/// When a value is counted at most once in the multiset sum, two
/// contributing elements coincide.
pub proof fn lemma_seq_msum_unique<A, B>(s: Seq<A>, f: spec_fn(A) -> Multiset<B>, y: B, j1: int, j2: int)
    requires
        seq_msum(s, f).count(y) <= 1,
        0 <= j1 < s.len(),
        0 <= j2 < s.len(),
        f(s[j1]).count(y) > 0,
        f(s[j2]).count(y) > 0,
    ensures
        j1 == j2,
    decreases s.len(),
{
    if j1 != j2 {
        let n = s.len() - 1;
        if j1 < n && j2 < n {
            assert(seq_msum(s, f).count(y) == seq_msum(s.drop_last(), f).count(y) + f(
                s.last(),
            ).count(y));
            lemma_seq_msum_nonneg(s.drop_last(), f, y);
            assert(s.drop_last()[j1] == s[j1]);
            assert(s.drop_last()[j2] == s[j2]);
            lemma_seq_msum_unique(s.drop_last(), f, y, j1, j2);
        } else {
            let (ja, jb) = if j1 < j2 {
                (j1, j2)
            } else {
                (j2, j1)
            };
            assert(jb == n);
            assert(s.drop_last()[ja] == s[ja]);
            lemma_seq_msum_member(s.drop_last(), f, ja, y);
            assert(seq_msum(s, f).count(y) == seq_msum(s.drop_last(), f).count(y) + f(
                s.last(),
            ).count(y));
            assert(seq_msum(s, f).count(y) >= 2);
        }
    }
}

} // verus!
