//! In-order flattening of a row of subsequences with one separator between
//! each pair of neighbours.
//!
//! A row is given by `subs`, the subsequences, and `seps`, the separators;
//! a well-shaped row has exactly one subsequence more than it has
//! separators. Its flattening is
//! `subs[0] + [seps[0]] + subs[1] + [seps[1]] + ... + subs[n]`.
use vstd::prelude::*;

verus! {

/// Everything that is laid out strictly before `subs[i]`:
/// `subs[0] + [seps[0]] + ... + subs[i - 1] + [seps[i - 1]]`.
pub open spec fn before<T>(subs: Seq<Seq<T>>, seps: Seq<T>, i: int) -> Seq<T>
    decreases i,
{
    if i <= 0 {
        Seq::empty()
    } else {
        before(subs, seps, i - 1) + subs[i - 1] + seq![seps[i - 1]]
    }
}

/// Everything that is laid out strictly after `subs[i]`:
/// `[seps[i]] + subs[i + 1] + ... + [seps[n - 1]] + subs[n]`.
pub open spec fn after<T>(subs: Seq<Seq<T>>, seps: Seq<T>, i: int) -> Seq<T>
    decreases subs.len() - i,
{
    if i + 1 >= subs.len() {
        Seq::empty()
    } else {
        seq![seps[i]] + subs[i + 1] + after(subs, seps, i + 1)
    }
}

/// The flattening of the whole row.
pub open spec fn join<T>(subs: Seq<Seq<T>>, seps: Seq<T>) -> Seq<T> {
    if subs.len() == 0 {
        Seq::empty()
    } else {
        before(subs, seps, subs.len() - 1) + subs.last()
    }
}

/// The summed length of the first `i` subsequences.
pub open spec fn subs_len<T>(subs: Seq<Seq<T>>, i: int) -> nat
    decreases i,
{
    if i <= 0 {
        0
    } else {
        subs_len(subs, i - 1) + subs[i - 1].len()
    }
}

/// The flattening is what lies before `subs[i]`, then `subs[i]` itself, then
/// what lies after it.
pub proof fn lemma_join_split<T>(subs: Seq<Seq<T>>, seps: Seq<T>, i: int)
    requires
        0 <= i < subs.len(),
    ensures
        join(subs, seps) == before(subs, seps, i) + subs[i] + after(subs, seps, i),
    decreases subs.len() - i,
{
    if i + 1 < subs.len() {
        lemma_join_split(subs, seps, i + 1);
        assert(before(subs, seps, i + 1) + subs[i + 1] + after(subs, seps, i + 1) =~= before(
            subs,
            seps,
            i,
        ) + subs[i] + after(subs, seps, i));
    } else {
        assert(before(subs, seps, i) + subs[i] + after(subs, seps, i) =~= before(subs, seps, i)
            + subs[i]);
    }
}

/// The same decomposition around two neighbours and the separator between
/// them.
pub proof fn lemma_join_split_pair<T>(subs: Seq<Seq<T>>, seps: Seq<T>, i: int)
    requires
        0 <= i,
        i + 1 < subs.len(),
    ensures
        join(subs, seps) == before(subs, seps, i) + subs[i] + seq![seps[i]] + subs[i + 1] + after(
            subs,
            seps,
            i + 1,
        ),
{
    lemma_join_split(subs, seps, i);
    assert(before(subs, seps, i) + subs[i] + after(subs, seps, i) =~= before(subs, seps, i)
        + subs[i] + seq![seps[i]] + subs[i + 1] + after(subs, seps, i + 1));
}

/// What lies before position `i` depends only on the first `i` subsequences
/// and separators.
pub proof fn lemma_before_agree<T>(
    subs1: Seq<Seq<T>>,
    seps1: Seq<T>,
    subs2: Seq<Seq<T>>,
    seps2: Seq<T>,
    i: int,
)
    requires
        forall|j: int| 0 <= j < i ==> subs1[j] == subs2[j],
        forall|j: int| 0 <= j < i ==> seps1[j] == seps2[j],
    ensures
        before(subs1, seps1, i) == before(subs2, seps2, i),
    decreases i,
{
    if i > 0 {
        lemma_before_agree(subs1, seps1, subs2, seps2, i - 1);
    }
}

/// What lies after a position depends only on the subsequences and
/// separators behind it, not on where in its row the position stands.
pub proof fn lemma_after_agree<T>(
    subs1: Seq<Seq<T>>,
    seps1: Seq<T>,
    i1: int,
    subs2: Seq<Seq<T>>,
    seps2: Seq<T>,
    i2: int,
)
    requires
        subs1.len() - i1 == subs2.len() - i2,
        forall|j: int| i1 < j < subs1.len() ==> #[trigger] subs1[j] == subs2[j - i1 + i2],
        forall|j: int| i1 <= j < subs1.len() - 1 ==> #[trigger] seps1[j] == seps2[j - i1 + i2],
    ensures
        after(subs1, seps1, i1) == after(subs2, seps2, i2),
    decreases subs1.len() - i1,
{
    if i1 + 1 < subs1.len() {
        lemma_after_agree(subs1, seps1, i1 + 1, subs2, seps2, i2 + 1);
        assert(subs1[i1 + 1] == subs2[i2 + 1]);
        assert(seps1[i1] == seps2[i2]);
    }
}

/// What lies before position `i` holds the first `i` subsequences and `i`
/// separators.
pub proof fn lemma_before_len<T>(subs: Seq<Seq<T>>, seps: Seq<T>, i: int)
    requires
        0 <= i,
    ensures
        before(subs, seps, i).len() == subs_len(subs, i) + i,
    decreases i,
{
    if i > 0 {
        lemma_before_len(subs, seps, i - 1);
    }
}

/// The summed length of a prefix of the row grows with the prefix.
pub proof fn lemma_subs_len_mono<T>(subs: Seq<Seq<T>>, i: int, j: int)
    requires
        i <= j,
    ensures
        subs_len(subs, i) <= subs_len(subs, j),
    decreases j - i,
{
    if i < j {
        lemma_subs_len_mono(subs, i, j - 1);
    }
}

/// Subsequences of at least `least` elements each hold at least so many
/// elements each time over.
pub proof fn lemma_subs_len_at_least<T>(subs: Seq<Seq<T>>, i: int, least: int)
    requires
        0 <= i <= subs.len(),
        forall|j: int| 0 <= j < i ==> (#[trigger] subs[j]).len() >= least,
    ensures
        subs_len(subs, i) >= i * least,
    decreases i,
{
    if i > 0 {
        lemma_subs_len_at_least(subs, i - 1, least);
        assert((i - 1) * least + least == i * least) by (nonlinear_arith);
    } else {
        assert(0 * least == 0);
    }
}

/// The flattening of a well-shaped row holds every subsequence and every
/// separator once.
pub proof fn lemma_join_len<T>(subs: Seq<Seq<T>>, seps: Seq<T>)
    requires
        subs.len() == seps.len() + 1,
    ensures
        join(subs, seps).len() == subs_len(subs, subs.len() as int) + seps.len(),
{
    lemma_before_len(subs, seps, subs.len() - 1);
}

/// A row of one subsequence flattens to that subsequence.
pub proof fn lemma_join_one<T>(subs: Seq<Seq<T>>, seps: Seq<T>)
    requires
        subs.len() == 1,
    ensures
        join(subs, seps) == subs[0],
{
    assert(before(subs, seps, 0) + subs[0] =~= subs[0]);
}

/// Two well-shaped rows laid side by side, with one more separator between
/// them, flatten to the two flattenings around that separator.
pub proof fn lemma_join_concat<T>(
    subs1: Seq<Seq<T>>,
    seps1: Seq<T>,
    mid: T,
    subs2: Seq<Seq<T>>,
    seps2: Seq<T>,
)
    requires
        subs1.len() == seps1.len() + 1,
        subs2.len() == seps2.len() + 1,
    ensures
        join(subs1 + subs2, seps1 + seq![mid] + seps2) == join(subs1, seps1) + seq![mid] + join(
            subs2,
            seps2,
        ),
{
    let s = subs1 + subs2;
    let p = seps1 + seq![mid] + seps2;
    let i = subs1.len() - 1;
    lemma_join_split_pair(s, p, i);
    lemma_before_agree(s, p, subs1, seps1, i);
    lemma_join_split(subs2, seps2, 0);
    assert(before(subs2, seps2, 0) + subs2[0] + after(subs2, seps2, 0) =~= subs2[0] + after(
        subs2,
        seps2,
        0,
    ));
    lemma_after_agree(s, p, i + 1, subs2, seps2, 0);
    assert(s[i] == subs1.last());
    assert(s[i + 1] == subs2[0]);
    assert(p[i] == mid);
    assert(before(s, p, i) + s[i] + seq![p[i]] + s[i + 1] + after(s, p, i + 1) =~= (before(
        subs1,
        seps1,
        i,
    ) + subs1.last()) + seq![mid] + (subs2[0] + after(subs2, seps2, 0)));
}

/// Whether `a` and `b` have the same length and stand in the relation `rel`
/// position by position.
pub open spec fn related<T>(a: Seq<T>, b: Seq<T>, rel: spec_fn(T, T) -> bool) -> bool {
    &&& a.len() == b.len()
    &&& forall|k: int| 0 <= k < a.len() ==> rel(#[trigger] a[k], b[k])
}

/// Where two rows are related subsequence by subsequence and separator by
/// separator, what lies before a position is related too.
pub proof fn lemma_before_related<T>(
    subs1: Seq<Seq<T>>,
    seps1: Seq<T>,
    subs2: Seq<Seq<T>>,
    seps2: Seq<T>,
    i: int,
    rel: spec_fn(T, T) -> bool,
)
    requires
        forall|j: int| 0 <= j < i ==> related(#[trigger] subs1[j], subs2[j], rel),
        forall|j: int| 0 <= j < i ==> rel(#[trigger] seps1[j], seps2[j]),
    ensures
        related(before(subs1, seps1, i), before(subs2, seps2, i), rel),
    decreases i,
{
    if i > 0 {
        lemma_before_related(subs1, seps1, subs2, seps2, i - 1, rel);
        let b1 = before(subs1, seps1, i - 1);
        let b2 = before(subs2, seps2, i - 1);
        assert(related(subs1[i - 1], subs2[i - 1], rel));
        assert(rel(seps1[i - 1], seps2[i - 1]));
        assert forall|k: int| 0 <= k < before(subs1, seps1, i).len() implies rel(
            #[trigger] before(subs1, seps1, i)[k],
            before(subs2, seps2, i)[k],
        ) by {
            if k < b1.len() {
                assert(rel(b1[k], b2[k]));
            } else if k < b1.len() + subs1[i - 1].len() {
                assert(rel(subs1[i - 1][k - b1.len()], subs2[i - 1][k - b1.len()]));
            }
        }
    }
}

/// Where two well-shaped rows are related subsequence by subsequence and
/// separator by separator, their flattenings are related.
pub proof fn lemma_join_related<T>(
    subs1: Seq<Seq<T>>,
    seps1: Seq<T>,
    subs2: Seq<Seq<T>>,
    seps2: Seq<T>,
    rel: spec_fn(T, T) -> bool,
)
    requires
        subs1.len() == subs2.len(),
        subs1.len() >= 1,
        forall|j: int| 0 <= j < subs1.len() ==> related(#[trigger] subs1[j], subs2[j], rel),
        forall|j: int| 0 <= j < subs1.len() - 1 ==> rel(#[trigger] seps1[j], seps2[j]),
    ensures
        related(join(subs1, seps1), join(subs2, seps2), rel),
{
    let n = subs1.len() - 1;
    lemma_before_related(subs1, seps1, subs2, seps2, n, rel);
    let b1 = before(subs1, seps1, n);
    let b2 = before(subs2, seps2, n);
    assert(related(subs1[n], subs2[n], rel));
    assert forall|k: int| 0 <= k < join(subs1, seps1).len() implies rel(
        #[trigger] join(subs1, seps1)[k],
        join(subs2, seps2)[k],
    ) by {
        if k < b1.len() {
            assert(rel(b1[k], b2[k]));
        } else {
            assert(rel(subs1[n][k - b1.len()], subs2[n][k - b1.len()]));
        }
    }
}

} // verus!
