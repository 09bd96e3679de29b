//! Families of identifier sets with the antichain invariant.
//!
//! A set family holds the minimal blocking or splitting sets of one analysis
//! result. Members are kept as strictly sorted vectors of identifiers; the
//! family-level operations (`minimize`, `map_elements`, `filter_exclude`)
//! restore the antichain invariant after every transform that can shrink or
//! relabel members.

use vstd::prelude::*;

verus! {

/// A member is modeled as the set of identifiers it holds.
pub open spec fn member_set(m: Seq<usize>) -> Set<usize> {
    m.to_set()
}

/// Identifiers inside a member are strictly increasing (sorted, no duplicates).
pub open spec fn member_wf(m: Seq<usize>) -> bool {
    forall|i: int, j: int| 0 <= i < j < m.len() ==> m[i] < m[j]
}

pub open spec fn member_subset(a: Seq<usize>, b: Seq<usize>) -> bool {
    member_set(a).subset_of(member_set(b))
}

pub open spec fn same_member(a: Seq<usize>, b: Seq<usize>) -> bool {
    member_set(a) =~= member_set(b)
}

pub open spec fn proper_member_subset(a: Seq<usize>, b: Seq<usize>) -> bool {
    member_subset(a, b) && !member_subset(b, a)
}

/// No member is a subset of another member: the antichain property.
pub open spec fn is_antichain(f: Seq<Seq<usize>>) -> bool {
    forall|i: int, j: int|
        0 <= i < f.len() && 0 <= j < f.len() && i != j ==> !member_subset(#[trigger] f[i], #[trigger] f[j])
}

/// Every identifier of every member lies below `n`.
pub open spec fn family_bounded(f: Seq<Seq<usize>>, n: int) -> bool {
    forall|i: int, j: int| 0 <= i < f.len() && 0 <= j < f[i].len() ==> (#[trigger] f[i][j]) < n
}

/// All members are well-formed.
pub open spec fn family_wf(f: Seq<Seq<usize>>) -> bool {
    forall|i: int| 0 <= i < f.len() ==> member_wf(#[trigger] f[i])
}

/// The member at index `i` survives minimization: no member of `f` is a
/// proper subset of it, and no earlier member denotes the same set.
pub open spec fn min_keep(f: Seq<Seq<usize>>, i: int) -> bool {
    &&& forall|j: int| 0 <= j < f.len() ==> !proper_member_subset(#[trigger] f[j], f[i])
    &&& forall|j: int| 0 <= j < i ==> !same_member(#[trigger] f[j], f[i])
}

/// The surviving members among the first `k`, in their original order.
pub open spec fn minimize_upto(f: Seq<Seq<usize>>, k: int) -> Seq<Seq<usize>>
    decreases k,
{
    if k <= 0 {
        Seq::empty()
    } else {
        minimize_upto(f, k - 1) + if min_keep(f, k - 1) {
            seq![f[k - 1]]
        } else {
            Seq::empty()
        }
    }
}

/// Removes every member that is a proper superset of another member, and
/// every duplicate of an earlier member. The order of survivors is kept.
pub open spec fn minimize_spec(f: Seq<Seq<usize>>) -> Seq<Seq<usize>> {
    minimize_upto(f, f.len() as int)
}

/// `m` is one of the first `k` members of `f` and survives minimization.
pub open spec fn from_kept(f: Seq<Seq<usize>>, m: Seq<usize>, k: int) -> bool {
    exists|j: int| 0 <= j < k && min_keep(f, j) && f[j] == m
}

/// Each survivor comes from a kept member, each kept member survives, and no
/// two survivors denote the same set.
pub proof fn lemma_upto_props(f: Seq<Seq<usize>>, k: int)
    requires
        0 <= k <= f.len(),
    ensures
        forall|i: int|
            0 <= i < minimize_upto(f, k).len() ==> from_kept(f, #[trigger] minimize_upto(f, k)[i], k),
        forall|j: int| 0 <= j < k && min_keep(f, j) ==> minimize_upto(f, k).contains(#[trigger] f[j]),
        forall|i1: int, i2: int|
            0 <= i1 < i2 < minimize_upto(f, k).len() ==> !same_member(
                minimize_upto(f, k)[i1],
                minimize_upto(f, k)[i2],
            ),
    decreases k,
{
    if k > 0 {
        lemma_upto_props(f, k - 1);
        let prev = minimize_upto(f, k - 1);
        let cur = minimize_upto(f, k);
        if min_keep(f, k - 1) {
            assert(cur =~= prev.push(f[k - 1]));
            assert forall|i: int| 0 <= i < cur.len() implies from_kept(f, #[trigger] cur[i], k) by {
                if i < prev.len() {
                    assert(cur[i] == prev[i]);
                    let j = choose|j: int| 0 <= j < k - 1 && min_keep(f, j) && f[j] == prev[i];
                    assert(0 <= j < k && min_keep(f, j) && f[j] == cur[i]);
                } else {
                    assert(cur[i] == f[k - 1]);
                }
            }
            assert forall|j: int| 0 <= j < k && min_keep(f, j) implies cur.contains(#[trigger] f[j]) by {
                if j < k - 1 {
                    let i = choose|i: int| 0 <= i < prev.len() && prev[i] == f[j];
                    assert(cur[i] == f[j]);
                } else {
                    assert(cur[cur.len() - 1] == f[j]);
                }
            }
            assert forall|i1: int, i2: int| 0 <= i1 < i2 < cur.len() implies !same_member(
                cur[i1],
                cur[i2],
            ) by {
                if i2 < prev.len() {
                } else {
                    assert(cur[i2] == f[k - 1]);
                    let j = choose|j: int| 0 <= j < k - 1 && min_keep(f, j) && f[j] == prev[i1];
                    assert(!same_member(f[j], f[k - 1]));
                }
            }
        } else {
            assert(cur =~= prev);
            assert forall|j: int| 0 <= j < k && min_keep(f, j) implies cur.contains(#[trigger] f[j]) by {
                if j < k - 1 {
                    let i = choose|i: int| 0 <= i < prev.len() && prev[i] == f[j];
                    assert(cur[i] == f[j]);
                }
            }
        }
    }
}

/// The earliest member of `f` denoting the same set as `f[k]`.
proof fn first_same_index(f: Seq<Seq<usize>>, k: int) -> (k0: int)
    requires
        0 <= k < f.len(),
    ensures
        0 <= k0 <= k,
        same_member(f[k0], f[k]),
        forall|j: int| 0 <= j < k0 ==> !same_member(#[trigger] f[j], f[k0]),
    decreases k,
{
    if exists|j: int| 0 <= j < k && same_member(#[trigger] f[j], f[k]) {
        let j = choose|j: int| 0 <= j < k && same_member(#[trigger] f[j], f[k]);
        let k0 = first_same_index(f, j);
        assert(same_member(f[k0], f[k]));
        k0
    } else {
        k
    }
}

/// A proper subset of a finite set has strictly fewer elements.
proof fn lemma_proper_subset_len(a: Set<usize>, b: Set<usize>)
    requires
        a.subset_of(b),
        !(a =~= b),
        b.finite(),
    ensures
        a.len() < b.len(),
{
    let x = choose|x: usize| b.contains(x) && !a.contains(x);
    assert(a.subset_of(b.remove(x)));
    vstd::set_lib::lemma_len_subset(a, b.remove(x));
}

/// Every member of the family has some minimization survivor below it
/// (subset-wise). This is the reason `minimize` loses no information.
pub proof fn lemma_minimal_below(f: Seq<Seq<usize>>, k: int)
    requires
        0 <= k < f.len(),
    ensures
        exists|i: int|
            0 <= i < minimize_spec(f).len() && member_subset(
                #[trigger] minimize_spec(f)[i],
                f[k],
            ),
    decreases member_set(f[k]).len(),
{
    broadcast use vstd::seq_lib::seq_to_set_is_finite;

    let m = minimize_spec(f);
    if exists|j: int| 0 <= j < f.len() && proper_member_subset(#[trigger] f[j], f[k]) {
        let j = choose|j: int| 0 <= j < f.len() && proper_member_subset(#[trigger] f[j], f[k]);
        assert(!(member_set(f[j]) =~= member_set(f[k])));
        lemma_proper_subset_len(member_set(f[j]), member_set(f[k]));
        lemma_minimal_below(f, j);
        let i = choose|i: int| 0 <= i < m.len() && member_subset(#[trigger] m[i], f[j]);
        assert(member_subset(m[i], f[k]));
    } else {
        let k0 = first_same_index(f, k);
        assert forall|j: int| 0 <= j < f.len() implies !proper_member_subset(
            #[trigger] f[j],
            f[k0],
        ) by {
            assert(member_set(f[k0]) =~= member_set(f[k]));
        }
        assert(min_keep(f, k0));
        lemma_upto_props(f, f.len() as int);
        assert(m.contains(f[k0]));
        let i = choose|i: int| 0 <= i < m.len() && m[i] == f[k0];
        assert(member_subset(m[i], f[k]));
    }
}

/// Minimizing an already minimized family changes nothing.
proof fn lemma_minimize_all_kept(m: Seq<Seq<usize>>, k: int)
    requires
        0 <= k <= m.len(),
        forall|i: int| 0 <= i < m.len() ==> min_keep(m, i),
    ensures
        minimize_upto(m, k) =~= m.subrange(0, k),
    decreases k,
{
    if k > 0 {
        lemma_minimize_all_kept(m, k - 1);
        assert(minimize_upto(m, k) =~= m.subrange(0, k - 1).push(m[k - 1]));
        assert(m.subrange(0, k) =~= m.subrange(0, k - 1).push(m[k - 1]));
    }
}

/// Minimization is idempotent.
pub proof fn lemma_minimize_idempotent(f: Seq<Seq<usize>>)
    ensures
        minimize_spec(minimize_spec(f)) =~= minimize_spec(f),
{
    let m = minimize_spec(f);
    lemma_upto_props(f, f.len() as int);
    assert forall|i: int| 0 <= i < m.len() implies min_keep(m, i) by {
        let ki = choose|j: int| 0 <= j < f.len() && min_keep(f, j) && f[j] == m[i];
        assert forall|j: int| 0 <= j < m.len() implies !proper_member_subset(
            #[trigger] m[j],
            m[i],
        ) by {
            let kj = choose|j2: int| 0 <= j2 < f.len() && min_keep(f, j2) && f[j2] == m[j];
            assert(!proper_member_subset(f[kj], f[ki]));
        }
        assert forall|j: int| 0 <= j < i implies !same_member(#[trigger] m[j], m[i]) by {}
    }
    lemma_minimize_all_kept(m, m.len() as int);
    assert(m.subrange(0, m.len() as int) =~= m);
}

/// A minimized family is an antichain: no member is a subset of another.
pub proof fn lemma_minimize_antichain(f: Seq<Seq<usize>>)
    ensures
        is_antichain(minimize_spec(f)),
{
    let m = minimize_spec(f);
    lemma_upto_props(f, f.len() as int);
    assert forall|i: int, j: int|
        0 <= i < m.len() && 0 <= j < m.len() && i != j implies !member_subset(
        #[trigger] m[i],
        #[trigger] m[j],
    ) by {
        if member_subset(m[i], m[j]) {
            let ki = choose|k: int| 0 <= k < f.len() && min_keep(f, k) && f[k] == m[i];
            let kj = choose|k: int| 0 <= k < f.len() && min_keep(f, k) && f[k] == m[j];
            if same_member(m[i], m[j]) {
                if i < j {
                    assert(!same_member(m[i], m[j]));
                } else {
                    assert(!same_member(m[j], m[i]));
                    assert(member_set(m[j]) =~= member_set(m[i]));
                }
            } else {
                assert(proper_member_subset(f[ki], f[kj]));
                assert(!proper_member_subset(f[ki], f[kj]));
            }
        }
    }
}

/// Keeps the identifiers that are not excluded by `e`.
pub open spec fn excl_pred(e: Set<usize>) -> spec_fn(usize) -> bool {
    |x: usize| !e.contains(x)
}

/// One member with every identifier of `e` removed.
pub open spec fn member_without(m: Seq<usize>, e: Set<usize>) -> Seq<usize> {
    m.filter(excl_pred(e))
}

/// Every member with the identifiers of `e` removed, not yet minimized.
pub open spec fn family_without(f: Seq<Seq<usize>>, e: Set<usize>) -> Seq<Seq<usize>> {
    f.map_values(|m: Seq<usize>| member_without(m, e))
}

/// Removes the identifiers of `e` from every member, then minimizes.
pub open spec fn filter_exclude_spec(f: Seq<Seq<usize>>, e: Set<usize>) -> Seq<Seq<usize>> {
    minimize_spec(family_without(f, e))
}

/// Filtering keeps a strictly sorted member strictly sorted.
proof fn lemma_filter_keeps_wf(m: Seq<usize>, pred: spec_fn(usize) -> bool)
    requires
        member_wf(m),
    ensures
        member_wf(m.filter(pred)),
    decreases m.len(),
{
    broadcast use vstd::seq_lib::group_filter_ensures;

    reveal(Seq::filter);
    if m.len() > 0 {
        lemma_filter_keeps_wf(m.drop_last(), pred);
        let rest = m.drop_last().filter(pred);
        if pred(m.last()) {
            assert(m.filter(pred) == rest.push(m.last()));
            assert forall|i: int| 0 <= i < rest.len() implies rest[i] < m.last() by {
                assert(rest.contains(rest[i]));
                m.drop_last().lemma_filter_contains_rev(pred, rest[i]);
                let k = choose|k: int| 0 <= k < m.drop_last().len() && m.drop_last()[k] == rest[i];
                assert(m[k] < m.last());
            }
        }
    }
}

pub proof fn lemma_member_without_set(m: Seq<usize>, e: Set<usize>)
    ensures
        member_set(member_without(m, e)) =~= member_set(m).difference(e),
        member_wf(m) ==> member_wf(member_without(m, e)),
{
    broadcast use vstd::seq_lib::group_filter_ensures;

    let pred = excl_pred(e);
    assert forall|x: usize| member_set(m).difference(e).contains(x) implies member_set(
        member_without(m, e),
    ).contains(x) by {
        assert(m.contains(x) && pred(x));
    }
    assert forall|x: usize| member_set(member_without(m, e)).contains(x) implies member_set(
        m,
    ).difference(e).contains(x) by {
        assert(m.filter(pred).contains(x));
        m.lemma_filter_contains_rev(pred, x);
    }
    if member_wf(m) {
        lemma_filter_keeps_wf(m, pred);
    }
}

/// `m` is a subset of some member of `b`.
pub open spec fn refined_member(m: Seq<usize>, b: Seq<Seq<usize>>) -> bool {
    exists|j: int| 0 <= j < b.len() && member_subset(m, #[trigger] b[j])
}

/// Every member of `a` is a subset of some member of `b`.
pub open spec fn family_refines(a: Seq<Seq<usize>>, b: Seq<Seq<usize>>) -> bool {
    forall|i: int| 0 <= i < a.len() ==> refined_member(#[trigger] a[i], b)
}

/// Excluding more identifiers refines the family: every member of the family
/// filtered by `e1 ∪ e2` is a subset of some member of the family filtered by
/// `e1` alone.
pub proof fn lemma_exclusion_monotone(f: Seq<Seq<usize>>, e1: Set<usize>, e2: Set<usize>)
    ensures
        family_refines(filter_exclude_spec(f, e1.union(e2)), filter_exclude_spec(f, e1)),
{
    let e12 = e1.union(e2);
    let g12 = family_without(f, e12);
    let g1 = family_without(f, e1);
    let m12 = minimize_spec(g12);
    let m1 = minimize_spec(g1);
    lemma_upto_props(g12, g12.len() as int);
    lemma_upto_props(g1, g1.len() as int);
    assert forall|i: int| 0 <= i < m12.len() implies refined_member(#[trigger] m12[i], m1) by {
        let k = choose|k: int| 0 <= k < g12.len() && min_keep(g12, k) && g12[k] == m12[i];
        lemma_minimal_below(g1, k);
        let j = choose|j: int| 0 <= j < m1.len() && member_subset(#[trigger] m1[j], g1[k]);
        let kj = choose|kj: int| 0 <= kj < g1.len() && min_keep(g1, kj) && g1[kj] == m1[j];
        // The double difference collapses because e1 is part of e12.
        lemma_member_without_set(f[k], e12);
        lemma_member_without_set(f[k], e1);
        lemma_member_without_set(f[kj], e12);
        lemma_member_without_set(f[kj], e1);
        let z = g12[kj];
        assert(member_set(z) =~= member_set(m1[j]).difference(e12));
        assert(member_set(g1[k]).difference(e12) =~= member_set(m12[i]));
        assert(member_subset(z, m12[i]));
        assert(!proper_member_subset(z, g12[k]));
        assert(member_subset(m12[i], z));
        assert(member_subset(m12[i], m1[j]));
        assert(refined_member(m12[i], m1));
    }
    assert(family_refines(m12, m1));
    assert(filter_exclude_spec(f, e1.union(e2)) == m12);
    assert(filter_exclude_spec(f, e1) == m1);
}

/// The family has a member that denotes the empty set.
pub open spec fn contains_empty_spec(f: Seq<Seq<usize>>) -> bool {
    exists|i: int| 0 <= i < f.len() && #[trigger] f[i].len() == 0
}

/// A family with an empty member minimizes to exactly `{∅}`: the empty set is
/// a subset of everything, so it absorbs the whole family.
pub proof fn lemma_empty_collapse(f: Seq<Seq<usize>>)
    ensures
        contains_empty_spec(f) <==> minimize_spec(f) =~= seq![Seq::<usize>::empty()],
{
    lemma_upto_props(f, f.len() as int);
    if contains_empty_spec(f) {
        let w = choose|i: int| 0 <= i < f.len() && #[trigger] f[i].len() == 0;
        let k0 = first_same_index(f, w);
        assert(member_set(f[w]) =~= Set::<usize>::empty());
        assert(f[k0].len() == 0) by {
            if f[k0].len() > 0 {
                assert(member_set(f[k0]).contains(f[k0][0]));
            }
        }
        assert forall|j: int| 0 <= j < f.len() implies !proper_member_subset(
            #[trigger] f[j],
            f[k0],
        ) by {
            assert(member_set(f[k0]).subset_of(member_set(f[j])));
        }
        assert(min_keep(f, k0));
        assert forall|k: int| 0 <= k < f.len() && k != k0 implies !min_keep(f, k) by {
            if f[k].len() == 0 {
                assert(member_set(f[k]) =~= Set::<usize>::empty());
                if k < k0 {
                    assert(same_member(f[k], f[k0]));
                } else {
                    assert(same_member(f[k0], f[k]));
                }
            } else {
                assert(member_set(f[k]).contains(f[k][0]));
                assert(proper_member_subset(f[k0], f[k]));
            }
        }
        lemma_single_kept(f, k0, f.len() as int);
        assert(f[k0] =~= Seq::<usize>::empty());
        assert(minimize_spec(f) =~= seq![Seq::<usize>::empty()]);
    }
    if minimize_spec(f) =~= seq![Seq::<usize>::empty()] {
        let m = minimize_spec(f);
        assert(m[0].len() == 0);
        let j = choose|j: int| 0 <= j < f.len() && min_keep(f, j) && f[j] == m[0];
        assert(f[j].len() == 0);
    }
}

/// When exactly one index is kept, minimization yields that single member.
proof fn lemma_single_kept(f: Seq<Seq<usize>>, k0: int, k: int)
    requires
        0 <= k0 < f.len(),
        0 <= k <= f.len(),
        min_keep(f, k0),
        forall|j: int| 0 <= j < f.len() && j != k0 ==> !min_keep(f, j),
    ensures
        minimize_upto(f, k) =~= if k <= k0 {
            Seq::<Seq<usize>>::empty()
        } else {
            seq![f[k0]]
        },
    decreases k,
{
    if k > 0 {
        lemma_single_kept(f, k0, k - 1);
    }
}

/// Insertion into a strictly sorted member, dropping duplicates.
pub open spec fn insert_sorted(x: usize, m: Seq<usize>) -> Seq<usize>
    decreases m.len(),
{
    if m.len() == 0 {
        seq![x]
    } else if x < m[0] {
        seq![x] + m
    } else if x == m[0] {
        m
    } else {
        seq![m[0]] + insert_sorted(x, m.drop_first())
    }
}

/// The strictly sorted, duplicate-free form of a member.
pub open spec fn member_canon(m: Seq<usize>) -> Seq<usize>
    decreases m.len(),
{
    if m.len() == 0 {
        Seq::empty()
    } else {
        insert_sorted(m[0], member_canon(m.drop_first()))
    }
}

proof fn lemma_insert_sorted(x: usize, m: Seq<usize>)
    requires
        member_wf(m),
    ensures
        member_wf(insert_sorted(x, m)),
        member_set(insert_sorted(x, m)) =~= member_set(m).insert(x),
    decreases m.len(),
{
    let r = insert_sorted(x, m);
    if m.len() == 0 {
        assert(r =~= seq![x]);
        assert(r[0] == x);
        assert forall|y: usize| member_set(r).contains(y) implies member_set(m).insert(
            x,
        ).contains(y) by {
            let i = choose|i: int| 0 <= i < r.len() && r[i] == y;
        }
        assert(member_set(r) =~= member_set(m).insert(x));
    } else if x < m[0] {
        assert(r =~= seq![x] + m);
        assert forall|y: usize| member_set(m).insert(x).contains(y) implies member_set(
            r,
        ).contains(y) by {
            if y == x {
                assert(r[0] == y);
            } else {
                let i = choose|i: int| 0 <= i < m.len() && m[i] == y;
                assert(r[i + 1] == y);
            }
        }
    } else if x == m[0] {
    } else {
        lemma_insert_sorted(x, m.drop_first());
        let rest = insert_sorted(x, m.drop_first());
        assert(r =~= seq![m[0]] + rest);
        assert forall|i: int, j: int| 0 <= i < j < r.len() implies r[i] < r[j] by {
            if i == 0 {
                assert(r[j] == rest[j - 1]);
                assert(member_set(rest).contains(rest[j - 1]));
                if rest[j - 1] != x {
                    assert(member_set(m.drop_first()).contains(rest[j - 1]));
                    let t = choose|t: int| 0 <= t < m.drop_first().len() && m.drop_first()[t] == rest[j - 1];
                    assert(m[t + 1] == rest[j - 1]);
                }
            } else {
                assert(r[i] == rest[i - 1] && r[j] == rest[j - 1]);
            }
        }
        assert forall|y: usize| member_set(m).insert(x).contains(y) implies member_set(
            r,
        ).contains(y) by {
            if y == m[0] {
                assert(r[0] == y);
            } else {
                assert(member_set(m.drop_first()).insert(x).contains(y)) by {
                    if y != x {
                        let i = choose|i: int| 0 <= i < m.len() && m[i] == y;
                        assert(m.drop_first()[i - 1] == y);
                    }
                }
                let i = choose|i: int| 0 <= i < rest.len() && rest[i] == y;
                assert(r[i + 1] == y);
            }
        }
        assert forall|y: usize| member_set(r).contains(y) implies member_set(m).insert(
            x,
        ).contains(y) by {
            let i = choose|i: int| 0 <= i < r.len() && r[i] == y;
            if i == 0 {
                assert(m[0] == y);
            } else {
                assert(rest[i - 1] == y);
                assert(member_set(m.drop_first()).insert(x).contains(y));
                if y != x {
                    let t = choose|t: int| 0 <= t < m.drop_first().len() && m.drop_first()[t] == y;
                    assert(m[t + 1] == y);
                }
            }
        }
    }
}

pub proof fn lemma_member_canon(m: Seq<usize>)
    ensures
        member_wf(member_canon(m)),
        member_set(member_canon(m)) =~= member_set(m),
    decreases m.len(),
{
    if m.len() > 0 {
        lemma_member_canon(m.drop_first());
        lemma_insert_sorted(m[0], member_canon(m.drop_first()));
        assert forall|y: usize| member_set(m).contains(y) implies member_set(
            member_canon(m),
        ).contains(y) by {
            if y != m[0] {
                let i = choose|i: int| 0 <= i < m.len() && m[i] == y;
                assert(m.drop_first()[i - 1] == y);
            }
        }
        assert forall|y: usize| member_set(member_canon(m)).contains(y) implies member_set(
            m,
        ).contains(y) by {
            if y != m[0] {
                assert(member_set(m.drop_first()).contains(y));
                let i = choose|i: int| 0 <= i < m.drop_first().len() && m.drop_first()[i] == y;
                assert(m[i + 1] == y);
            }
        }
    }
}

/// Two strictly sorted members denoting the same set are identical.
pub proof fn lemma_member_wf_unique(a: Seq<usize>, b: Seq<usize>)
    requires
        member_wf(a),
        member_wf(b),
        member_set(a) =~= member_set(b),
    ensures
        a =~= b,
    decreases a.len(),
{
    if a.len() == 0 {
        if b.len() > 0 {
            assert(member_set(b).contains(b[0]));
        }
    } else if b.len() == 0 {
        assert(member_set(a).contains(a[0]));
    } else {
        assert(member_set(a).contains(a[0]));
        assert(member_set(b).contains(b[0]));
        let k = choose|k: int| 0 <= k < b.len() && b[k] == a[0];
        let t = choose|t: int| 0 <= t < a.len() && a[t] == b[0];
        assert(a[0] == b[0]) by {
            if a[0] < b[0] {
                assert(b[0] <= b[k]);
            } else if b[0] < a[0] {
                assert(a[0] <= a[t]);
            }
        }
        assert(member_set(a.drop_first()) =~= member_set(a).remove(a[0])) by {
            assert forall|y: usize| member_set(a.drop_first()).contains(y) implies member_set(
                a,
            ).remove(a[0]).contains(y) by {
                let i = choose|i: int| 0 <= i < a.drop_first().len() && a.drop_first()[i] == y;
                assert(a[i + 1] == y);
                assert(a[0] < a[i + 1]);
            }
            assert forall|y: usize| member_set(a).remove(a[0]).contains(y) implies member_set(
                a.drop_first(),
            ).contains(y) by {
                let i = choose|i: int| 0 <= i < a.len() && a[i] == y;
                assert(a.drop_first()[i - 1] == y);
            }
        }
        assert(member_set(b.drop_first()) =~= member_set(b).remove(b[0])) by {
            assert forall|y: usize| member_set(b.drop_first()).contains(y) implies member_set(
                b,
            ).remove(b[0]).contains(y) by {
                let i = choose|i: int| 0 <= i < b.drop_first().len() && b.drop_first()[i] == y;
                assert(b[i + 1] == y);
                assert(b[0] < b[i + 1]);
            }
            assert forall|y: usize| member_set(b).remove(b[0]).contains(y) implies member_set(
                b.drop_first(),
            ).contains(y) by {
                let i = choose|i: int| 0 <= i < b.len() && b[i] == y;
                assert(b.drop_first()[i - 1] == y);
            }
        }
        lemma_member_wf_unique(a.drop_first(), b.drop_first());
        assert(a =~= seq![a[0]] + a.drop_first());
        assert(b =~= seq![b[0]] + b.drop_first());
    }
}

/// One member relabeled through the table `g`, duplicates not yet removed.
pub open spec fn map_member_raw(m: Seq<usize>, g: Seq<usize>) -> Seq<usize> {
    m.map_values(|x: usize| g[x as int])
}

/// Every member relabeled through `g` and brought to canonical form.
pub open spec fn family_mapped(f: Seq<Seq<usize>>, g: Seq<usize>) -> Seq<Seq<usize>> {
    f.map_values(|m: Seq<usize>| member_canon(map_member_raw(m, g)))
}

/// Relabels every element of every member through `g`, removes duplicates
/// inside each member, then minimizes.
pub open spec fn map_elements_spec(f: Seq<Seq<usize>>, g: Seq<usize>) -> Seq<Seq<usize>> {
    minimize_spec(family_mapped(f, g))
}

/// The views of a sequence of members.
pub open spec fn family_view(sets: Seq<Vec<usize>>) -> Seq<Seq<usize>> {
    Seq::new(sets.len(), |i: int| sets[i]@)
}

/// An ordered family of identifier sets. Each member is a strictly sorted
/// vector of identifiers; after construction through the operations below the
/// family is an antichain.
pub struct SetFamily {
    pub sets: Vec<Vec<usize>>,
}

impl View for SetFamily {
    type V = Seq<Seq<usize>>;

    open spec fn view(&self) -> Seq<Seq<usize>> {
        family_view(self.sets@)
    }
}

pub fn member_contains(m: &Vec<usize>, x: usize) -> (r: bool)
    ensures
        r == member_set(m@).contains(x),
{
    let mut i: usize = 0;
    while i < m.len()
        invariant
            0 <= i <= m.len(),
            forall|t: int| 0 <= t < i ==> m@[t] != x,
        decreases m.len() - i,
    {
        if m[i] == x {
            return true;
        }
        i += 1;
    }
    false
}

pub fn is_member_subset_exec(a: &Vec<usize>, b: &Vec<usize>) -> (r: bool)
    ensures
        r == member_subset(a@, b@),
{
    let mut i: usize = 0;
    while i < a.len()
        invariant
            0 <= i <= a.len(),
            forall|t: int| 0 <= t < i ==> member_set(b@).contains(#[trigger] a@[t]),
        decreases a.len() - i,
    {
        if !member_contains(b, a[i]) {
            return false;
        }
        i += 1;
    }
    assert forall|x: usize| member_set(a@).contains(x) implies member_set(b@).contains(x) by {
        let t = choose|t: int| 0 <= t < a@.len() && a@[t] == x;
    }
    true
}

fn same_member_exec(a: &Vec<usize>, b: &Vec<usize>) -> (r: bool)
    ensures
        r == same_member(a@, b@),
{
    let fwd = is_member_subset_exec(a, b);
    let bwd = is_member_subset_exec(b, a);
    fwd && bwd
}

pub(crate) fn copy_member(m: &Vec<usize>) -> (r: Vec<usize>)
    ensures
        r@ == m@,
{
    let mut r: Vec<usize> = Vec::new();
    let mut i: usize = 0;
    while i < m.len()
        invariant
            0 <= i <= m.len(),
            r@ == m@.subrange(0, i as int),
        decreases m.len() - i,
    {
        r.push(m[i]);
        assert(r@ =~= m@.subrange(0, i + 1));
        i += 1;
    }
    assert(r@ =~= m@);
    r
}

/// Removes non-minimal members and duplicates from a raw family.
pub(crate) fn minimize_vec(sets: &Vec<Vec<usize>>) -> (out: Vec<Vec<usize>>)
    ensures
        family_view(out@) == minimize_spec(family_view(sets@)),
{
    let ghost f = family_view(sets@);
    let n = sets.len();
    let mut out: Vec<Vec<usize>> = Vec::new();
    let mut k: usize = 0;
    while k < n
        invariant
            0 <= k <= n,
            n == sets.len(),
            f == family_view(sets@),
            family_view(out@) =~= minimize_upto(f, k as int),
        decreases n - k,
    {
        let mut has_proper = false;
        let mut j: usize = 0;
        while j < n
            invariant
                0 <= j <= n,
                n == sets.len(),
                f == family_view(sets@),
                k < n,
                has_proper == exists|t: int|
                    0 <= t < j && proper_member_subset(#[trigger] f[t], f[k as int]),
            decreases n - j,
        {
            let fwd = is_member_subset_exec(&sets[j], &sets[k]);
            let bwd = is_member_subset_exec(&sets[k], &sets[j]);
            if fwd && !bwd {
                assert(proper_member_subset(f[j as int], f[k as int]));
                has_proper = true;
            }
            j += 1;
        }
        let mut has_dup = false;
        let mut j2: usize = 0;
        while j2 < k
            invariant
                0 <= j2 <= k < n,
                n == sets.len(),
                f == family_view(sets@),
                has_dup == exists|t: int| 0 <= t < j2 && same_member(#[trigger] f[t], f[k as int]),
            decreases k - j2,
        {
            if same_member_exec(&sets[j2], &sets[k]) {
                assert(same_member(f[j2 as int], f[k as int]));
                has_dup = true;
            }
            j2 += 1;
        }
        if !has_proper && !has_dup {
            assert(min_keep(f, k as int));
            let m = copy_member(&sets[k]);
            out.push(m);
            assert(family_view(out@) =~= minimize_upto(f, k as int + 1));
        } else {
            assert(!min_keep(f, k as int));
            assert(family_view(out@) =~= minimize_upto(f, k as int + 1));
        }
        k += 1;
    }
    assert(family_view(out@) =~= minimize_spec(f));
    out
}

/// Brings one member to canonical form: strictly sorted, no duplicates.
pub fn member_canon_exec(m: &Vec<usize>) -> (r: Vec<usize>)
    ensures
        r@ == member_canon(m@),
        member_wf(r@),
        member_set(r@) =~= member_set(m@),
{
    let mut r: Vec<usize> = Vec::new();
    let mut k: usize = 0;
    while k < m.len()
        invariant
            0 <= k <= m.len(),
            member_wf(r@),
            member_set(r@) =~= member_set(m@.subrange(0, k as int)),
        decreases m.len() - k,
    {
        let x = m[k];
        let mut pos: usize = 0;
        while pos < r.len() && r[pos] < x
            invariant
                0 <= pos <= r.len(),
                forall|t: int| 0 <= t < pos ==> r@[t] < x,
            decreases r.len() - pos,
        {
            pos += 1;
        }
        let ghost old_r = r@;
        if pos == r.len() || r[pos] != x {
            r.insert(pos, x);
            assert forall|i: int, j: int| 0 <= i < j < r@.len() implies r@[i] < r@[j] by {
                if i < pos && j == pos {
                } else if i == pos && j > pos {
                    assert(r@[j] == old_r[j - 1]);
                    if pos < old_r.len() {
                        assert(old_r[pos as int] <= old_r[j - 1]) by {
                            if pos < j - 1 {
                                assert(old_r[pos as int] < old_r[j - 1]);
                            }
                        }
                        assert(x < old_r[pos as int]);
                    }
                } else if i < pos && j > pos {
                    assert(r@[i] == old_r[i] && r@[j] == old_r[j - 1]);
                } else if i > pos {
                    assert(r@[i] == old_r[i - 1] && r@[j] == old_r[j - 1]);
                } else {
                    assert(r@[i] == old_r[i] && r@[j] == old_r[j]);
                }
            }
            assert(member_set(r@) =~= member_set(old_r).insert(x)) by {
                assert forall|y: usize| member_set(r@).contains(y) implies member_set(
                    old_r,
                ).insert(x).contains(y) by {
                    let i = choose|i: int| 0 <= i < r@.len() && r@[i] == y;
                    if i < pos {
                        assert(old_r[i] == y);
                    } else if i > pos {
                        assert(old_r[i - 1] == y);
                    }
                }
                assert forall|y: usize| member_set(old_r).insert(x).contains(y) implies member_set(
                    r@,
                ).contains(y) by {
                    if y == x {
                        assert(r@[pos as int] == y);
                    } else {
                        let i = choose|i: int| 0 <= i < old_r.len() && old_r[i] == y;
                        if i < pos {
                            assert(r@[i] == y);
                        } else {
                            assert(r@[i + 1] == y);
                        }
                    }
                }
            }
        } else {
            assert(member_set(r@).contains(x)) by {
                assert(r@[pos as int] == x);
            }
            assert(member_set(r@) =~= member_set(old_r).insert(x));
        }
        assert(member_set(m@.subrange(0, k + 1)) =~= member_set(m@.subrange(0, k as int)).insert(
            x,
        )) by {
            assert(m@.subrange(0, k + 1) =~= m@.subrange(0, k as int).push(x));
            assert forall|y: usize| member_set(m@.subrange(0, k + 1)).contains(y)
                implies member_set(m@.subrange(0, k as int)).insert(x).contains(y) by {
                let sub = m@.subrange(0, k + 1);
                let i = choose|i: int| 0 <= i < sub.len() && sub[i] == y;
                if i < k {
                    assert(m@.subrange(0, k as int)[i] == y);
                }
            }
            assert forall|y: usize| member_set(m@.subrange(0, k as int)).insert(x).contains(y)
                implies member_set(m@.subrange(0, k + 1)).contains(y) by {
                if y == x {
                    assert(m@.subrange(0, k + 1)[k as int] == y);
                } else {
                    let i = choose|i: int|
                        0 <= i < m@.subrange(0, k as int).len() && m@.subrange(0, k as int)[i] == y;
                    assert(m@.subrange(0, k + 1)[i] == y);
                }
            }
        }
        k += 1;
    }
    assert(m@.subrange(0, m@.len() as int) =~= m@);
    proof {
        lemma_member_canon(m@);
        lemma_member_wf_unique(r@, member_canon(m@));
    }
    r
}

impl SetFamily {
    /// The empty family.
    pub fn new() -> (r: SetFamily)
        ensures
            r@ =~= Seq::<Seq<usize>>::empty(),
    {
        SetFamily { sets: Vec::new() }
    }

    pub fn len(&self) -> (r: usize)
        ensures
            r == self@.len(),
    {
        self.sets.len()
    }

    /// Removes every member that is a proper superset of another member and
    /// every duplicate member, keeping the original order.
    pub fn minimize(&self) -> (r: SetFamily)
        ensures
            r@ == minimize_spec(self@),
            is_antichain(r@),
    {
        let out = minimize_vec(&self.sets);
        proof {
            lemma_minimize_antichain(self@);
        }
        SetFamily { sets: out }
    }

    /// Relabels every identifier through the table `g`, removes duplicates
    /// inside each member, and minimizes the result.
    pub fn map_elements(&self, g: &Vec<usize>) -> (r: SetFamily)
        requires
            family_bounded(self@, g@.len() as int),
        ensures
            r@ == map_elements_spec(self@, g@),
            is_antichain(r@),
    {
        let n = self.sets.len();
        let mut mapped: Vec<Vec<usize>> = Vec::new();
        let mut k: usize = 0;
        while k < n
            invariant
                0 <= k <= n,
                n == self.sets@.len(),
                family_bounded(self@, g@.len() as int),
                family_view(mapped@) =~= family_mapped(self@, g@).subrange(0, k as int),
            decreases n - k,
        {
            let m = &self.sets[k];
            let mut raw: Vec<usize> = Vec::new();
            let mut i: usize = 0;
            while i < m.len()
                invariant
                    0 <= i <= m@.len(),
                    m@ == self.sets@[k as int]@,
                    k < n == self.sets@.len(),
                    family_bounded(self@, g@.len() as int),
                    raw@ =~= map_member_raw(m@, g@).subrange(0, i as int),
                decreases m@.len() - i,
            {
                assert(self@[k as int][i as int] < g@.len());
                assert(m@[i as int] < g@.len());
                raw.push(g[m[i]]);
                assert(raw@ =~= map_member_raw(m@, g@).subrange(0, i + 1));
                i += 1;
            }
            assert(raw@ =~= map_member_raw(m@, g@));
            let canon = member_canon_exec(&raw);
            assert(raw@ == map_member_raw(self@[k as int], g@));
            assert(canon@ == family_mapped(self@, g@)[k as int]);
            let ghost prev_mapped = mapped@;
            mapped.push(canon);
            assert(family_view(mapped@) =~= family_view(prev_mapped).push(canon@));
            assert(family_mapped(self@, g@).subrange(0, k as int + 1) =~= family_mapped(
                self@,
                g@,
            ).subrange(0, k as int).push(family_mapped(self@, g@)[k as int]));
            assert(family_view(mapped@) =~= family_mapped(self@, g@).subrange(0, k as int + 1));
            k += 1;
        }
        assert(family_view(mapped@) =~= family_mapped(self@, g@));
        let out = minimize_vec(&mapped);
        proof {
            lemma_minimize_antichain(family_mapped(self@, g@));
        }
        SetFamily { sets: out }
    }

    /// Removes every identifier of `e` from every member and minimizes: a
    /// member that loses all its identifiers becomes the empty set, which then
    /// absorbs the whole family.
    pub fn filter_exclude(&self, e: &Vec<usize>) -> (r: SetFamily)
        ensures
            r@ == filter_exclude_spec(self@, e@.to_set()),
            is_antichain(r@),
    {
        broadcast use vstd::seq_lib::group_filter_ensures;

        let ghost eset = e@.to_set();
        let ghost pred = excl_pred(eset);
        let n = self.sets.len();
        let mut filtered: Vec<Vec<usize>> = Vec::new();
        let mut k: usize = 0;
        while k < n
            invariant
                0 <= k <= n,
                n == self.sets@.len(),
                eset == e@.to_set(),
                pred == excl_pred(eset),
                family_view(filtered@) =~= family_without(self@, eset).subrange(0, k as int),
            decreases n - k,
        {
            let m = &self.sets[k];
            let mut keep: Vec<usize> = Vec::new();
            let mut i: usize = 0;
            while i < m.len()
                invariant
                    0 <= i <= m@.len(),
                    m@ == self.sets@[k as int]@,
                    eset == e@.to_set(),
                    pred == excl_pred(eset),
                    keep@ =~= m@.subrange(0, i as int).filter(pred),
                decreases m@.len() - i,
            {
                let x = m[i];
                assert(m@.subrange(0, i + 1) =~= m@.subrange(0, i as int).push(x));
                if !member_contains(e, x) {
                    assert(pred(x));
                    keep.push(x);
                } else {
                    assert(!pred(x));
                }
                proof {
                    m@.subrange(0, i as int).lemma_filter_push(x, pred);
                }
                i += 1;
            }
            assert(m@.subrange(0, m@.len() as int) =~= m@);
            assert(keep@ =~= member_without(m@, eset));
            assert(keep@ == family_without(self@, eset)[k as int]);
            let ghost prev_filtered = filtered@;
            filtered.push(keep);
            assert(family_view(filtered@) =~= family_view(prev_filtered).push(keep@));
            assert(family_without(self@, eset).subrange(0, k as int + 1) =~= family_without(
                self@,
                eset,
            ).subrange(0, k as int).push(family_without(self@, eset)[k as int]));
            assert(family_view(filtered@) =~= family_without(self@, eset).subrange(
                0,
                k as int + 1,
            ));
            k += 1;
        }
        assert(family_view(filtered@) =~= family_without(self@, eset));
        let out = minimize_vec(&filtered);
        proof {
            lemma_minimize_antichain(family_without(self@, eset));
        }
        SetFamily { sets: out }
    }

    /// A structural copy with the same view.
    pub fn clone_family(&self) -> (r: SetFamily)
        ensures
            r@ == self@,
    {
        let mut sets: Vec<Vec<usize>> = Vec::new();
        let mut i: usize = 0;
        while i < self.sets.len()
            invariant
                0 <= i <= self.sets@.len(),
                family_view(sets@) =~= family_view(self.sets@).subrange(0, i as int),
            decreases self.sets@.len() - i,
        {
            let m = copy_member(&self.sets[i]);
            let ghost prev = sets@;
            sets.push(m);
            proof {
                assert(family_view(sets@) =~= family_view(prev).push(m@));
                assert(family_view(self.sets@).subrange(0, i + 1) =~= family_view(
                    self.sets@,
                ).subrange(0, i as int).push(family_view(self.sets@)[i as int]));
            }
            assert(family_view(sets@) =~= family_view(self.sets@).subrange(0, i + 1));
            i += 1;
        }
        assert(family_view(sets@) =~= family_view(self.sets@));
        SetFamily { sets }
    }

    /// True iff the family has a member denoting the empty set; for a
    /// minimized family that is exactly the `{∅}` state.
    pub fn contains_empty_set(&self) -> (r: bool)
        ensures
            r == contains_empty_spec(self@),
    {
        let mut i: usize = 0;
        while i < self.sets.len()
            invariant
                0 <= i <= self.sets@.len(),
                forall|t: int| 0 <= t < i ==> #[trigger] family_view(self.sets@)[t].len() != 0,
            decreases self.sets@.len() - i,
        {
            if self.sets[i].len() == 0 {
                assert(family_view(self.sets@)[i as int].len() == 0);
                return true;
            }
            i += 1;
        }
        false
    }
}

} // verus!
