//! Raw and canonical FBAS topology descriptions.
//!
//! A raw topology maps public keys to recursive quorum-slice threshold
//! structures. Canonicalization orders nodes by public key, rewrites public
//! keys to dense identifiers, orders and deduplicates the clauses inside every
//! quorum set, and rejects malformed descriptions. Two descriptions that
//! differ only in ordering or duplicated clauses canonicalize to equal values,
//! which is what makes the canonical topology usable as a cache key.

use vstd::prelude::*;

verus! {

/// A quorum-slice threshold structure over public keys, as described by the
/// caller: agreement of `threshold` members among the listed validators and
/// nested structures.
pub struct RawQuorumSet {
    pub threshold: usize,
    pub validators: Vec<String>,
    pub inner: Vec<RawQuorumSet>,
}

/// One node of a raw topology description.
pub struct RawNode {
    pub public_key: String,
    pub quorum_set: RawQuorumSet,
}

/// A quorum-slice threshold structure over dense identifiers, in canonical
/// form: validators strictly sorted, inner sets strictly sorted and
/// deduplicated.
pub struct CQuorumSet {
    pub threshold: usize,
    pub validators: Vec<usize>,
    pub inner: Vec<CQuorumSet>,
}

/// Mathematical model of a raw quorum set.
#[verifier::ext_equal]
pub ghost struct RawQsetV {
    pub threshold: int,
    pub validators: Seq<Seq<char>>,
    pub inner: Seq<RawQsetV>,
}

/// Mathematical model of a canonical quorum set.
#[verifier::ext_equal]
pub ghost struct QsetV {
    pub threshold: int,
    pub validators: Seq<usize>,
    pub inner: Seq<QsetV>,
}

/// The views of a vector of strings.
pub open spec fn str_views(v: Vec<String>) -> Seq<Seq<char>> {
    Seq::new(v@.len(), |i: int| v@[i]@)
}

pub open spec fn rviews_seq(s: Seq<RawQuorumSet>) -> Seq<RawQsetV>
    decreases s,
{
    if s.len() == 0 {
        Seq::empty()
    } else {
        seq![rview(s[0])] + rviews_seq(s.drop_first())
    }
}

pub open spec fn rviews(v: Vec<RawQuorumSet>) -> Seq<RawQsetV>
    decreases v,
{
    rviews_seq(v@)
}

pub open spec fn rview(q: RawQuorumSet) -> RawQsetV
    decreases q,
{
    RawQsetV {
        threshold: q.threshold as int,
        validators: str_views(q.validators),
        inner: rviews(q.inner),
    }
}

impl View for RawQuorumSet {
    type V = RawQsetV;

    open spec fn view(&self) -> RawQsetV {
        rview(*self)
    }
}

pub open spec fn cviews_seq(s: Seq<CQuorumSet>) -> Seq<QsetV>
    decreases s,
{
    if s.len() == 0 {
        Seq::empty()
    } else {
        seq![cview(s[0])] + cviews_seq(s.drop_first())
    }
}

pub open spec fn cviews(v: Vec<CQuorumSet>) -> Seq<QsetV>
    decreases v,
{
    cviews_seq(v@)
}

pub open spec fn cview(q: CQuorumSet) -> QsetV
    decreases q,
{
    QsetV { threshold: q.threshold as int, validators: q.validators@, inner: cviews(q.inner) }
}

impl View for CQuorumSet {
    type V = QsetV;

    open spec fn view(&self) -> QsetV {
        cview(*self)
    }
}

pub broadcast proof fn lemma_rviews_seq(s: Seq<RawQuorumSet>)
    ensures
        (#[trigger] rviews_seq(s)).len() == s.len(),
        forall|i: int| 0 <= i < s.len() ==> rviews_seq(s)[i] == rview(s[i]),
    decreases s.len(),
{
    if s.len() > 0 {
        lemma_rviews_seq(s.drop_first());
        assert forall|i: int| 0 <= i < s.len() implies rviews_seq(s)[i] == rview(s[i]) by {
            if i > 0 {
                assert(rviews_seq(s)[i] == rviews_seq(s.drop_first())[i - 1]);
                assert(s.drop_first()[i - 1] == s[i]);
            }
        }
    }
}

pub broadcast proof fn lemma_cviews_seq(s: Seq<CQuorumSet>)
    ensures
        (#[trigger] cviews_seq(s)).len() == s.len(),
        forall|i: int| 0 <= i < s.len() ==> cviews_seq(s)[i] == cview(s[i]),
    decreases s.len(),
{
    if s.len() > 0 {
        lemma_cviews_seq(s.drop_first());
        assert forall|i: int| 0 <= i < s.len() implies cviews_seq(s)[i] == cview(s[i]) by {
            if i > 0 {
                assert(cviews_seq(s)[i] == cviews_seq(s.drop_first())[i - 1]);
                assert(s.drop_first()[i - 1] == s[i]);
            }
        }
    }
}

/// Mathematical model of a raw node.
#[verifier::ext_equal]
pub ghost struct RawNodeV {
    pub public_key: Seq<char>,
    pub quorum_set: RawQsetV,
}

impl View for RawNode {
    type V = RawNodeV;

    open spec fn view(&self) -> RawNodeV {
        RawNodeV { public_key: self.public_key@, quorum_set: self.quorum_set@ }
    }
}

// ---------------------------------------------------------------------------
// Orders used by canonicalization.
// ---------------------------------------------------------------------------

/// Lexicographic order on character sequences (public keys).
pub open spec fn str_lt(a: Seq<char>, b: Seq<char>) -> bool
    decreases a.len(),
{
    if b.len() == 0 {
        false
    } else if a.len() == 0 {
        true
    } else if a[0] != b[0] {
        (a[0] as int) < (b[0] as int)
    } else {
        str_lt(a.drop_first(), b.drop_first())
    }
}

/// Lexicographic order on identifier sequences.
pub open spec fn useq_lt(a: Seq<usize>, b: Seq<usize>) -> bool
    decreases a.len(),
{
    if b.len() == 0 {
        false
    } else if a.len() == 0 {
        true
    } else if a[0] != b[0] {
        a[0] < b[0]
    } else {
        useq_lt(a.drop_first(), b.drop_first())
    }
}

/// Total order on canonical quorum sets: by threshold, then validators, then
/// the inner sets lexicographically.
pub open spec fn qlt(a: QsetV, b: QsetV) -> bool
    decreases a, 0int,
{
    if a.threshold != b.threshold {
        a.threshold < b.threshold
    } else if a.validators != b.validators {
        useq_lt(a.validators, b.validators)
    } else {
        qseq_lt(a.inner, b.inner)
    }
}

/// Lexicographic order on sequences of canonical quorum sets.
pub open spec fn qseq_lt(x: Seq<QsetV>, y: Seq<QsetV>) -> bool
    decreases x, 1int,
{
    if y.len() == 0 {
        false
    } else if x.len() == 0 {
        true
    } else if x[0] != y[0] {
        qlt(x[0], y[0])
    } else {
        qseq_lt(x.drop_first(), y.drop_first())
    }
}

pub proof fn lemma_str_lt_connex(a: Seq<char>, b: Seq<char>)
    ensures
        a == b || str_lt(a, b) || str_lt(b, a),
    decreases a.len(),
{
    if a.len() > 0 && b.len() > 0 && a[0] == b[0] {
        lemma_str_lt_connex(a.drop_first(), b.drop_first());
        if a.drop_first() == b.drop_first() {
            assert(a =~= seq![a[0]] + a.drop_first());
            assert(b =~= seq![b[0]] + b.drop_first());
        }
    }
}

pub proof fn lemma_str_lt_asym(a: Seq<char>, b: Seq<char>)
    ensures
        str_lt(a, b) ==> !str_lt(b, a) && a != b,
    decreases a.len(),
{
    if a.len() > 0 && b.len() > 0 && a[0] == b[0] {
        lemma_str_lt_asym(a.drop_first(), b.drop_first());
        if str_lt(a, b) && a.drop_first() == b.drop_first() {
            assert(a =~= seq![a[0]] + a.drop_first());
            assert(b =~= seq![b[0]] + b.drop_first());
        }
    }
}

pub proof fn lemma_useq_lt_connex(a: Seq<usize>, b: Seq<usize>)
    ensures
        a == b || useq_lt(a, b) || useq_lt(b, a),
    decreases a.len(),
{
    if a.len() > 0 && b.len() > 0 && a[0] == b[0] {
        lemma_useq_lt_connex(a.drop_first(), b.drop_first());
        if a.drop_first() == b.drop_first() {
            assert(a =~= seq![a[0]] + a.drop_first());
            assert(b =~= seq![b[0]] + b.drop_first());
        }
    }
}

pub proof fn lemma_useq_lt_asym(a: Seq<usize>, b: Seq<usize>)
    ensures
        useq_lt(a, b) ==> !useq_lt(b, a) && a != b,
    decreases a.len(),
{
    if a.len() > 0 && b.len() > 0 && a[0] == b[0] {
        lemma_useq_lt_asym(a.drop_first(), b.drop_first());
        if useq_lt(a, b) && a.drop_first() == b.drop_first() {
            assert(a =~= seq![a[0]] + a.drop_first());
            assert(b =~= seq![b[0]] + b.drop_first());
        }
    }
}

pub proof fn lemma_qlt_connex(a: QsetV, b: QsetV)
    ensures
        a == b || qlt(a, b) || qlt(b, a),
    decreases a, 0int,
{
    if a.threshold == b.threshold {
        if a.validators != b.validators {
            lemma_useq_lt_connex(a.validators, b.validators);
        } else {
            lemma_qseq_lt_connex(a.inner, b.inner);
            if a.inner == b.inner {
                assert(a =~= b);
            }
        }
    }
}

pub proof fn lemma_qseq_lt_connex(x: Seq<QsetV>, y: Seq<QsetV>)
    ensures
        x == y || qseq_lt(x, y) || qseq_lt(y, x),
    decreases x, 1int,
{
    if x.len() > 0 && y.len() > 0 {
        if x[0] != y[0] {
            lemma_qlt_connex(x[0], y[0]);
            assert(qlt(x[0], y[0]) || qlt(y[0], x[0]));
        } else {
            lemma_qseq_lt_connex(x.drop_first(), y.drop_first());
            if x.drop_first() == y.drop_first() {
                assert(x =~= seq![x[0]] + x.drop_first());
                assert(y =~= seq![y[0]] + y.drop_first());
            }
        }
    }
}

pub proof fn lemma_qlt_asym(a: QsetV, b: QsetV)
    ensures
        qlt(a, b) ==> !qlt(b, a) && a != b,
    decreases a, 0int,
{
    if qlt(a, b) {
        if a.threshold == b.threshold {
            if a.validators != b.validators {
                lemma_useq_lt_asym(a.validators, b.validators);
            } else {
                lemma_qseq_lt_asym(a.inner, b.inner);
                assert(a.inner != b.inner ==> a != b);
                if a.inner == b.inner {
                    lemma_qseq_lt_asym(a.inner, b.inner);
                }
            }
        }
    }
}

pub proof fn lemma_qseq_lt_asym(x: Seq<QsetV>, y: Seq<QsetV>)
    ensures
        qseq_lt(x, y) ==> !qseq_lt(y, x) && x != y,
    decreases x, 1int,
{
    if qseq_lt(x, y) {
        if x.len() > 0 && y.len() > 0 {
            if x[0] != y[0] {
                lemma_qlt_asym(x[0], y[0]);
            } else {
                lemma_qseq_lt_asym(x.drop_first(), y.drop_first());
                if x.drop_first() == y.drop_first() {
                    assert(x =~= seq![x[0]] + x.drop_first());
                    assert(y =~= seq![y[0]] + y.drop_first());
                }
            }
        }
    }
}

/// Two sequences that are strictly sorted by a connected, asymmetric relation
/// and hold the same elements are equal.
pub proof fn lemma_strict_sorted_unique<T>(a: Seq<T>, b: Seq<T>, lt: spec_fn(T, T) -> bool)
    requires
        forall|i: int, j: int| 0 <= i < j < a.len() ==> lt(a[i], a[j]),
        forall|i: int, j: int| 0 <= i < j < b.len() ==> lt(b[i], b[j]),
        a.to_set() =~= b.to_set(),
        forall|x: T, y: T| !(#[trigger] lt(x, y) && #[trigger] lt(y, x)),
        forall|x: T, y: T| x != y ==> #[trigger] lt(x, y) || #[trigger] lt(y, x),
    ensures
        a =~= b,
    decreases a.len(),
{
    if a.len() == 0 {
        if b.len() > 0 {
            assert(b.to_set().contains(b[0]));
        }
    } else if b.len() == 0 {
        assert(a.to_set().contains(a[0]));
    } else {
        assert(a.to_set().contains(a[0]));
        assert(b.to_set().contains(b[0]));
        let k = choose|k: int| 0 <= k < b.len() && b[k] == a[0];
        let t = choose|t: int| 0 <= t < a.len() && a[t] == b[0];
        assert(a[0] == b[0]) by {
            if a[0] != b[0] {
                assert(k > 0 && t > 0);
                assert(lt(b[0], b[k]));
                assert(lt(a[0], a[t]));
            }
        }
        assert(a.drop_first().to_set() =~= a.to_set().remove(a[0])) by {
            assert forall|y: T| a.drop_first().to_set().contains(y) implies a.to_set().remove(
                a[0],
            ).contains(y) by {
                let i = choose|i: int| 0 <= i < a.drop_first().len() && a.drop_first()[i] == y;
                assert(a[i + 1] == y);
                assert(lt(a[0], a[i + 1]));
            }
            assert forall|y: T| a.to_set().remove(a[0]).contains(y) implies a.drop_first(
            ).to_set().contains(y) by {
                let i = choose|i: int| 0 <= i < a.len() && a[i] == y;
                assert(a.drop_first()[i - 1] == y);
            }
        }
        assert(b.drop_first().to_set() =~= b.to_set().remove(b[0])) by {
            assert forall|y: T| b.drop_first().to_set().contains(y) implies b.to_set().remove(
                b[0],
            ).contains(y) by {
                let i = choose|i: int| 0 <= i < b.drop_first().len() && b.drop_first()[i] == y;
                assert(b[i + 1] == y);
                assert(lt(b[0], b[i + 1]));
            }
            assert forall|y: T| b.to_set().remove(b[0]).contains(y) implies b.drop_first(
            ).to_set().contains(y) by {
                let i = choose|i: int| 0 <= i < b.len() && b[i] == y;
                assert(b.drop_first()[i - 1] == y);
            }
        }
        lemma_strict_sorted_unique(a.drop_first(), b.drop_first(), lt);
        assert(a =~= seq![a[0]] + a.drop_first());
        assert(b =~= seq![b[0]] + b.drop_first());
    }
}


// ---------------------------------------------------------------------------
// Canonicalization.
// ---------------------------------------------------------------------------

/// The dense identifier of the public key `s`: its index among the sorted
/// public keys of the canonical topology.
pub open spec fn pk_id(pks: Seq<Seq<char>>, s: Seq<char>) -> usize {
    choose|i: usize| 0 <= i < pks.len() && pks[i as int] == s
}

pub open spec fn pk_id_fn(pks: Seq<Seq<char>>) -> spec_fn(Seq<char>) -> usize {
    |v: Seq<char>| pk_id(pks, v)
}

/// Strictly sorted by public-key order: sorted and duplicate-free.
pub open spec fn pks_sorted(pks: Seq<Seq<char>>) -> bool {
    forall|i: int, j: int| 0 <= i < j < pks.len() ==> str_lt(#[trigger] pks[i], #[trigger] pks[j])
}

/// Identifiers strictly increasing.
pub open spec fn ids_sorted(s: Seq<usize>) -> bool {
    forall|i: int, j: int| 0 <= i < j < s.len() ==> s[i] < s[j]
}

/// Strictly sorted by quorum-set order: sorted and duplicate-free.
pub open spec fn qsorted(s: Seq<QsetV>) -> bool {
    forall|i: int, j: int| 0 <= i < j < s.len() ==> qlt(#[trigger] s[i], #[trigger] s[j])
}

/// Insertion into a strictly `qlt`-sorted sequence, dropping duplicates.
pub open spec fn insert_qsorted(x: QsetV, s: Seq<QsetV>) -> Seq<QsetV>
    decreases s.len(),
{
    if s.len() == 0 {
        seq![x]
    } else if qlt(x, s[0]) {
        seq![x] + s
    } else if x == s[0] {
        s
    } else {
        seq![s[0]] + insert_qsorted(x, s.drop_first())
    }
}

/// The strictly `qlt`-sorted, duplicate-free form of a sequence of canonical
/// quorum sets.
pub open spec fn qsort_dedup(s: Seq<QsetV>) -> Seq<QsetV>
    decreases s.len(),
{
    if s.len() == 0 {
        Seq::empty()
    } else {
        insert_qsorted(s[0], qsort_dedup(s.drop_first()))
    }
}

pub proof fn lemma_insert_qsorted(x: QsetV, s: Seq<QsetV>)
    requires
        qsorted(s),
    ensures
        qsorted(insert_qsorted(x, s)),
        insert_qsorted(x, s).to_set() =~= s.to_set().insert(x),
    decreases s.len(),
{
    let r = insert_qsorted(x, s);
    if s.len() == 0 {
        assert(r =~= seq![x]);
        assert(r[0] == x);
        assert forall|y: QsetV| r.to_set().contains(y) implies s.to_set().insert(x).contains(
            y,
        ) by {
            let i = choose|i: int| 0 <= i < r.len() && r[i] == y;
        }
    } else if qlt(x, s[0]) {
        assert(r =~= seq![x] + s);
        assert forall|i: int, j: int| 0 <= i < j < r.len() implies qlt(r[i], r[j]) by {
            if i == 0 {
                if j == 1 {
                } else {
                    lemma_qlt_connex(x, s[j - 1]);
                    lemma_qlt_asym(s[0], s[j - 1]);
                    lemma_qlt_asym(x, s[0]);
                    if x == s[j - 1] {
                        lemma_qlt_asym(s[0], s[j - 1]);
                        assert(false);
                    }
                    if qlt(s[j - 1], x) {
                        // s[0] qlt s[j-1] qlt x qlt s[0] is impossible for an
                        // order that is asymmetric on this triple.
                        lemma_qlt_total_triple(x, s[0], s[j - 1]);
                        assert(false);
                    }
                }
            }
        }
        assert forall|y: QsetV| s.to_set().insert(x).contains(y) implies r.to_set().contains(
            y,
        ) by {
            if y == x {
                assert(r[0] == y);
            } else {
                let i = choose|i: int| 0 <= i < s.len() && s[i] == y;
                assert(r[i + 1] == y);
            }
        }
        assert forall|y: QsetV| r.to_set().contains(y) implies s.to_set().insert(x).contains(
            y,
        ) by {
            let i = choose|i: int| 0 <= i < r.len() && r[i] == y;
            if i > 0 {
                assert(s[i - 1] == y);
            }
        }
    } else if x == s[0] {
        assert(s.to_set().contains(x)) by {
            assert(s[0] == x);
        }
    } else {
        lemma_qlt_connex(x, s[0]);
        assert(qlt(s[0], x));
        lemma_insert_qsorted(x, s.drop_first());
        let rest = insert_qsorted(x, s.drop_first());
        assert(r =~= seq![s[0]] + rest);
        assert forall|i: int, j: int| 0 <= i < j < r.len() implies qlt(r[i], r[j]) by {
            if i == 0 {
                assert(r[j] == rest[j - 1]);
                assert(rest.to_set().contains(rest[j - 1]));
                if rest[j - 1] == x {
                } else {
                    assert(s.drop_first().to_set().contains(rest[j - 1]));
                    let t = choose|t: int|
                        0 <= t < s.drop_first().len() && s.drop_first()[t] == rest[j - 1];
                    assert(s[t + 1] == rest[j - 1]);
                    assert(qlt(s[0], s[t + 1]));
                }
            } else {
                assert(r[i] == rest[i - 1] && r[j] == rest[j - 1]);
            }
        }
        assert forall|y: QsetV| s.to_set().insert(x).contains(y) implies r.to_set().contains(
            y,
        ) by {
            if y == s[0] {
                assert(r[0] == y);
            } else {
                assert(s.drop_first().to_set().insert(x).contains(y)) by {
                    if y != x {
                        let i = choose|i: int| 0 <= i < s.len() && s[i] == y;
                        assert(s.drop_first()[i - 1] == y);
                    }
                }
                let i = choose|i: int| 0 <= i < rest.len() && rest[i] == y;
                assert(r[i + 1] == y);
            }
        }
        assert forall|y: QsetV| r.to_set().contains(y) implies s.to_set().insert(x).contains(
            y,
        ) by {
            let i = choose|i: int| 0 <= i < r.len() && r[i] == y;
            if i == 0 {
                assert(s[0] == y);
            } else {
                assert(rest[i - 1] == y);
                assert(s.drop_first().to_set().insert(x).contains(y));
                if y != x {
                    let t = choose|t: int|
                        0 <= t < s.drop_first().len() && s.drop_first()[t] == y;
                    assert(s[t + 1] == y);
                }
            }
        }
    }
}

/// `qlt` admits no cycle of length three.
proof fn lemma_qlt_total_triple(a: QsetV, b: QsetV, c: QsetV)
    requires
        qlt(a, b),
        qlt(b, c),
    ensures
        !qlt(c, a),
{
    lemma_qlt_trans(a, b, c);
    lemma_qlt_asym(a, c);
}

/// Transitivity of the quorum-set order.
pub proof fn lemma_qlt_trans(a: QsetV, b: QsetV, c: QsetV)
    ensures
        qlt(a, b) && qlt(b, c) ==> qlt(a, c),
    decreases a, b, c, 0int,
{
    if qlt(a, b) && qlt(b, c) {
        if a.threshold == b.threshold && b.threshold == c.threshold {
            if a.validators != b.validators {
                if b.validators != c.validators {
                    lemma_useq_lt_trans(a.validators, b.validators, c.validators);
                    if a.validators == c.validators {
                        lemma_useq_lt_asym(a.validators, b.validators);
                        lemma_useq_lt_asym(b.validators, c.validators);
                    }
                }
            } else {
                if b.validators == c.validators {
                    lemma_qseq_lt_trans(a.inner, b.inner, c.inner);
                }
            }
        }
    }
}

pub proof fn lemma_useq_lt_trans(a: Seq<usize>, b: Seq<usize>, c: Seq<usize>)
    ensures
        useq_lt(a, b) && useq_lt(b, c) ==> useq_lt(a, c),
    decreases a.len(),
{
    if useq_lt(a, b) && useq_lt(b, c) {
        if a.len() > 0 && b.len() > 0 && c.len() > 0 {
            if a[0] == b[0] && b[0] == c[0] {
                lemma_useq_lt_trans(a.drop_first(), b.drop_first(), c.drop_first());
            }
        }
    }
}

pub proof fn lemma_qseq_lt_trans(x: Seq<QsetV>, y: Seq<QsetV>, z: Seq<QsetV>)
    ensures
        qseq_lt(x, y) && qseq_lt(y, z) ==> qseq_lt(x, z),
    decreases x, y, z, 1int,
{
    if qseq_lt(x, y) && qseq_lt(y, z) {
        if x.len() > 0 && y.len() > 0 && z.len() > 0 {
            if x[0] != y[0] {
                if y[0] != z[0] {
                    lemma_qlt_trans(x[0], y[0], z[0]);
                    if x[0] == z[0] {
                        lemma_qlt_asym(x[0], y[0]);
                        lemma_qlt_asym(y[0], z[0]);
                    }
                }
            } else {
                if y[0] == z[0] {
                    lemma_qseq_lt_trans(x.drop_first(), y.drop_first(), z.drop_first());
                }
            }
        }
    }
}

pub proof fn lemma_qsort_dedup(s: Seq<QsetV>)
    ensures
        qsorted(qsort_dedup(s)),
        qsort_dedup(s).to_set() =~= s.to_set(),
    decreases s.len(),
{
    if s.len() > 0 {
        lemma_qsort_dedup(s.drop_first());
        lemma_insert_qsorted(s[0], qsort_dedup(s.drop_first()));
        assert forall|y: QsetV| s.to_set().contains(y) implies qsort_dedup(s).to_set().contains(
            y,
        ) by {
            if y != s[0] {
                let i = choose|i: int| 0 <= i < s.len() && s[i] == y;
                assert(s.drop_first()[i - 1] == y);
            }
        }
        assert forall|y: QsetV| qsort_dedup(s).to_set().contains(y) implies s.to_set().contains(
            y,
        ) by {
            if y != s[0] {
                assert(s.drop_first().to_set().contains(y));
                let i = choose|i: int| 0 <= i < s.drop_first().len() && s.drop_first()[i] == y;
                assert(s[i + 1] == y);
            }
        }
    }
}

/// The identifiers of the validator keys of a raw quorum set.
pub open spec fn vids(validators: Seq<Seq<char>>, pks: Seq<Seq<char>>) -> Seq<usize> {
    validators.map_values(pk_id_fn(pks))
}

/// The canonical form of one raw quorum set under the sorted public-key table
/// `pks`: same threshold, validators rewritten to sorted deduplicated dense
/// identifiers, inner sets canonicalized recursively, sorted and deduplicated.
#[verifier::opaque]
pub open spec fn canon_qset(r: RawQsetV, pks: Seq<Seq<char>>) -> QsetV
    decreases r, 0int,
{
    QsetV {
        threshold: r.threshold,
        validators: crate::set_family::member_canon(vids(r.validators, pks)),
        inner: qsort_dedup(canon_qsets(r.inner, pks)),
    }
}

#[verifier::opaque]
pub open spec fn canon_qsets(s: Seq<RawQsetV>, pks: Seq<Seq<char>>) -> Seq<QsetV>
    decreases s, 1int,
{
    if s.len() == 0 {
        Seq::empty()
    } else {
        seq![canon_qset(s[0], pks)] + canon_qsets(s.drop_first(), pks)
    }
}

pub broadcast proof fn lemma_canon_qsets(s: Seq<RawQsetV>, pks: Seq<Seq<char>>)
    ensures
        (#[trigger] canon_qsets(s, pks)).len() == s.len(),
        forall|i: int| 0 <= i < s.len() ==> canon_qsets(s, pks)[i] == canon_qset(s[i], pks),
    decreases s.len(),
{
    reveal(canon_qset);
    reveal(canon_qsets);
    if s.len() > 0 {
        lemma_canon_qsets(s.drop_first(), pks);
        assert forall|i: int| 0 <= i < s.len() implies canon_qsets(s, pks)[i] == canon_qset(
            s[i],
            pks,
        ) by {
            reveal(canon_qset);
            reveal(canon_qsets);
            if i > 0 {
                assert(canon_qsets(s, pks)[i] == canon_qsets(s.drop_first(), pks)[i - 1]);
                assert(s.drop_first()[i - 1] == s[i]);
            } else {
                assert(canon_qsets(s, pks) == seq![canon_qset(s[0], pks)] + canon_qsets(
                    s.drop_first(),
                    pks,
                ));
                assert((seq![canon_qset(s[0], pks)] + canon_qsets(s.drop_first(), pks))[0]
                    == canon_qset(s[0], pks));
                assert(canon_qsets(s, pks)[0] == canon_qset(s[0], pks));
            }
        }
    }
}

pub proof fn lemma_str_lt_trans(a: Seq<char>, b: Seq<char>, c: Seq<char>)
    ensures
        str_lt(a, b) && str_lt(b, c) ==> str_lt(a, c),
    decreases a.len(),
{
    if str_lt(a, b) && str_lt(b, c) {
        if a.len() > 0 && b.len() > 0 && c.len() > 0 {
            if a[0] == b[0] && b[0] == c[0] {
                lemma_str_lt_trans(a.drop_first(), b.drop_first(), c.drop_first());
            }
        }
    }
}

/// Insertion into a strictly sorted public-key table, dropping duplicates.
pub open spec fn insert_pk_sorted(x: Seq<char>, s: Seq<Seq<char>>) -> Seq<Seq<char>>
    decreases s.len(),
{
    if s.len() == 0 {
        seq![x]
    } else if str_lt(x, s[0]) {
        seq![x] + s
    } else if x == s[0] {
        s
    } else {
        seq![s[0]] + insert_pk_sorted(x, s.drop_first())
    }
}

/// The strictly sorted, duplicate-free form of a public-key table.
pub open spec fn pks_sort(s: Seq<Seq<char>>) -> Seq<Seq<char>>
    decreases s.len(),
{
    if s.len() == 0 {
        Seq::empty()
    } else {
        insert_pk_sorted(s[0], pks_sort(s.drop_first()))
    }
}

pub proof fn lemma_insert_pk_sorted(x: Seq<char>, s: Seq<Seq<char>>)
    requires
        pks_sorted(s),
    ensures
        pks_sorted(insert_pk_sorted(x, s)),
        insert_pk_sorted(x, s).to_set() =~= s.to_set().insert(x),
    decreases s.len(),
{
    let r = insert_pk_sorted(x, s);
    if s.len() == 0 {
        assert(r =~= seq![x]);
        assert(r[0] == x);
        assert forall|y: Seq<char>| r.to_set().contains(y) implies s.to_set().insert(x).contains(
            y,
        ) by {
            let i = choose|i: int| 0 <= i < r.len() && r[i] == y;
        }
    } else if str_lt(x, s[0]) {
        assert(r =~= seq![x] + s);
        assert forall|i: int, j: int| 0 <= i < j < r.len() implies str_lt(r[i], r[j]) by {
            if i == 0 && j > 1 {
                lemma_str_lt_trans(x, s[0], s[j - 1]);
            }
        }
        assert forall|y: Seq<char>| s.to_set().insert(x).contains(y) implies r.to_set().contains(
            y,
        ) by {
            if y == x {
                assert(r[0] == y);
            } else {
                let i = choose|i: int| 0 <= i < s.len() && s[i] == y;
                assert(r[i + 1] == y);
            }
        }
        assert forall|y: Seq<char>| r.to_set().contains(y) implies s.to_set().insert(x).contains(
            y,
        ) by {
            let i = choose|i: int| 0 <= i < r.len() && r[i] == y;
            if i > 0 {
                assert(s[i - 1] == y);
            }
        }
    } else if x == s[0] {
        assert(s.to_set().contains(x)) by {
            assert(s[0] == x);
        }
    } else {
        lemma_str_lt_connex(x, s[0]);
        assert(str_lt(s[0], x));
        lemma_insert_pk_sorted(x, s.drop_first());
        let rest = insert_pk_sorted(x, s.drop_first());
        assert(r =~= seq![s[0]] + rest);
        assert forall|i: int, j: int| 0 <= i < j < r.len() implies str_lt(r[i], r[j]) by {
            if i == 0 {
                assert(r[j] == rest[j - 1]);
                assert(rest.to_set().contains(rest[j - 1]));
                if rest[j - 1] == x {
                } else {
                    assert(s.drop_first().to_set().contains(rest[j - 1]));
                    let t = choose|t: int|
                        0 <= t < s.drop_first().len() && s.drop_first()[t] == rest[j - 1];
                    assert(s[t + 1] == rest[j - 1]);
                    assert(str_lt(s[0], s[t + 1]));
                }
            } else {
                assert(r[i] == rest[i - 1] && r[j] == rest[j - 1]);
            }
        }
        assert forall|y: Seq<char>| s.to_set().insert(x).contains(y) implies r.to_set().contains(
            y,
        ) by {
            if y == s[0] {
                assert(r[0] == y);
            } else {
                assert(s.drop_first().to_set().insert(x).contains(y)) by {
                    if y != x {
                        let i = choose|i: int| 0 <= i < s.len() && s[i] == y;
                        assert(s.drop_first()[i - 1] == y);
                    }
                }
                let i = choose|i: int| 0 <= i < rest.len() && rest[i] == y;
                assert(r[i + 1] == y);
            }
        }
        assert forall|y: Seq<char>| r.to_set().contains(y) implies s.to_set().insert(x).contains(
            y,
        ) by {
            let i = choose|i: int| 0 <= i < r.len() && r[i] == y;
            if i == 0 {
                assert(s[0] == y);
            } else {
                assert(rest[i - 1] == y);
                assert(s.drop_first().to_set().insert(x).contains(y));
                if y != x {
                    let t = choose|t: int|
                        0 <= t < s.drop_first().len() && s.drop_first()[t] == y;
                    assert(s[t + 1] == y);
                }
            }
        }
    }
}

pub proof fn lemma_pks_sort(s: Seq<Seq<char>>)
    ensures
        pks_sorted(pks_sort(s)),
        pks_sort(s).to_set() =~= s.to_set(),
    decreases s.len(),
{
    if s.len() > 0 {
        lemma_pks_sort(s.drop_first());
        lemma_insert_pk_sorted(s[0], pks_sort(s.drop_first()));
        assert forall|y: Seq<char>| s.to_set().contains(y) implies pks_sort(s).to_set().contains(
            y,
        ) by {
            if y != s[0] {
                let i = choose|i: int| 0 <= i < s.len() && s[i] == y;
                assert(s.drop_first()[i - 1] == y);
            }
        }
        assert forall|y: Seq<char>| pks_sort(s).to_set().contains(y) implies s.to_set().contains(
            y,
        ) by {
            if y != s[0] {
                assert(s.drop_first().to_set().contains(y));
                let i = choose|i: int| 0 <= i < s.drop_first().len() && s.drop_first()[i] == y;
                assert(s[i + 1] == y);
            }
        }
    }
}

// ---------------------------------------------------------------------------
// Canonical topologies.
// ---------------------------------------------------------------------------

/// A canonical topology: nodes ordered by public key, quorum sets over dense
/// identifiers. `pks` doubles as the reverse mapping from identifiers back to
/// public keys for display.
pub struct CanonicalTopology {
    pub pks: Vec<String>,
    pub qsets: Vec<CQuorumSet>,
}

/// Mathematical model of a canonical topology.
#[verifier::ext_equal]
pub ghost struct TopoV {
    pub pks: Seq<Seq<char>>,
    pub qsets: Seq<QsetV>,
}

impl View for CanonicalTopology {
    type V = TopoV;

    open spec fn view(&self) -> TopoV {
        TopoV { pks: str_views(self.pks), qsets: cviews(self.qsets) }
    }
}

/// The public keys of a raw topology description.
pub open spec fn raw_pks(raw: Seq<RawNodeV>) -> Seq<Seq<char>> {
    raw.map_values(|n: RawNodeV| n.public_key)
}

/// Two raw node entries share a public key.
pub open spec fn has_dup_pk(raw: Seq<RawNodeV>) -> bool {
    exists|i: int, j: int|
        0 <= i < j < raw.len() && #[trigger] raw[i].public_key == #[trigger] raw[j].public_key
}

/// The quorum set of the node of `raw` that carries the public key `pk`.
pub open spec fn raw_qset_of(raw: Seq<RawNodeV>, pk: Seq<char>) -> RawQsetV {
    let j = choose|j: int| 0 <= j < raw.len() && raw[j].public_key == pk;
    raw[j].quorum_set
}

/// The canonical form of a raw topology: public keys sorted and deduplicated,
/// each position holding the canonical quorum set of the node with that key.
pub open spec fn canon_topo(raw: Seq<RawNodeV>) -> TopoV {
    let pks = pks_sort(raw_pks(raw));
    TopoV { pks, qsets: Seq::new(pks.len(), |i: int| canon_qset(raw_qset_of(raw, pks[i]), pks)) }
}

/// Node entries of `r1` and `r2` match up to ordering, with equivalent quorum
/// sets.
pub open spec fn raw_topo_equiv(r1: Seq<RawNodeV>, r2: Seq<RawNodeV>) -> bool {
    &&& forall|i: int|
        0 <= i < r1.len() ==> exists|j: int|
            0 <= j < r2.len() && (#[trigger] r1[i]).public_key == r2[j].public_key
                && raw_qset_equiv(r1[i].quorum_set, r2[j].quorum_set)
    &&& forall|j: int|
        0 <= j < r2.len() ==> exists|i: int|
            0 <= i < r1.len() && r1[i].public_key == (#[trigger] r2[j]).public_key
                && raw_qset_equiv(r1[i].quorum_set, r2[j].quorum_set)
}

/// `r1` and `r2` describe the same quorum logic: equal thresholds, equal
/// validator sets, and inner structures equal up to ordering and repetition.
#[verifier::opaque]
pub open spec fn raw_qset_equiv(r1: RawQsetV, r2: RawQsetV) -> bool
    decreases r1,
{
    &&& r1.threshold == r2.threshold
    &&& r1.validators.to_set() == r2.validators.to_set()
    &&& forall|j1: int|
        0 <= j1 < r1.inner.len() ==> exists|j2: int|
            0 <= j2 < r2.inner.len() && raw_qset_equiv(#[trigger] r1.inner[j1], r2.inner[j2])
    &&& forall|j2: int|
        0 <= j2 < r2.inner.len() ==> exists|j1: int|
            0 <= j1 < r1.inner.len() && raw_qset_equiv(r1.inner[j1], #[trigger] r2.inner[j2])
}

/// Sorted according to `qlt` and holding the same set, two sequences of
/// canonical quorum sets are equal.
proof fn lemma_qsorted_unique(a: Seq<QsetV>, b: Seq<QsetV>)
    requires
        qsorted(a),
        qsorted(b),
        a.to_set() == b.to_set(),
    ensures
        a == b,
{
    let qltf = |x: QsetV, y: QsetV| qlt(x, y);
    assert forall|x: QsetV, y: QsetV| !(#[trigger] qltf(x, y) && #[trigger] qltf(y, x)) by {
        lemma_qlt_asym(x, y);
    }
    assert forall|x: QsetV, y: QsetV| x != y implies #[trigger] qltf(x, y) || #[trigger] qltf(
        y,
        x,
    ) by {
        lemma_qlt_connex(x, y);
    }
    assert forall|i: int, j: int| 0 <= i < j < a.len() implies qltf(a[i], a[j]) by {
        assert(qlt(a[i], a[j]));
    }
    assert forall|i: int, j: int| 0 <= i < j < b.len() implies qltf(b[i], b[j]) by {
        assert(qlt(b[i], b[j]));
    }
    lemma_strict_sorted_unique(a, b, qltf);
}

/// Equal validator-key sets canonicalize to equal identifier lists.
proof fn lemma_canon_vids_equiv(v1: Seq<Seq<char>>, v2: Seq<Seq<char>>, pks: Seq<Seq<char>>)
    requires
        v1.to_set() == v2.to_set(),
    ensures
        crate::set_family::member_canon(vids(v1, pks)) == crate::set_family::member_canon(
            vids(v2, pks),
        ),
{
    assert(vids(v1, pks).to_set() =~= vids(v2, pks).to_set()) by {
        broadcast use vstd::prelude::Seq::lemma_to_set_map_commutes;

        assert(v1.to_set().map(pk_id_fn(pks)) =~= v2.to_set().map(pk_id_fn(pks)));
    }
    crate::set_family::lemma_member_canon(vids(v1, pks));
    crate::set_family::lemma_member_canon(vids(v2, pks));
    crate::set_family::lemma_member_wf_unique(
        crate::set_family::member_canon(vids(v1, pks)),
        crate::set_family::member_canon(vids(v2, pks)),
    );
}

/// Equivalent inner-clause lists canonicalize to the same set of values.
proof fn lemma_canon_qsets_equiv(r1: RawQsetV, r2: RawQsetV, pks: Seq<Seq<char>>)
    requires
        raw_qset_equiv(r1, r2),
    ensures
        canon_qsets(r1.inner, pks).to_set() =~= canon_qsets(r2.inner, pks).to_set(),
    decreases r1, 0int,
{
    reveal(raw_qset_equiv);
    lemma_canon_qsets(r1.inner, pks);
    lemma_canon_qsets(r2.inner, pks);
    assert forall|y: QsetV| canon_qsets(r1.inner, pks).to_set().contains(y)
        implies canon_qsets(r2.inner, pks).to_set().contains(y) by {
        let k = choose|k: int|
            0 <= k < canon_qsets(r1.inner, pks).len() && canon_qsets(r1.inner, pks)[k] == y;
        let j2 = choose|j2: int|
            0 <= j2 < r2.inner.len() && raw_qset_equiv(r1.inner[k], r2.inner[j2]);
        lemma_canon_qset_equiv(r1.inner[k], r2.inner[j2], pks);
        assert(canon_qsets(r2.inner, pks)[j2] == y);
    }
    assert forall|y: QsetV| canon_qsets(r2.inner, pks).to_set().contains(y)
        implies canon_qsets(r1.inner, pks).to_set().contains(y) by {
        let k = choose|k: int|
            0 <= k < canon_qsets(r2.inner, pks).len() && canon_qsets(r2.inner, pks)[k] == y;
        let j1 = choose|j1: int|
            0 <= j1 < r1.inner.len() && raw_qset_equiv(#[trigger] r1.inner[j1], r2.inner[k]);
        lemma_canon_qset_equiv(r1.inner[j1], r2.inner[k], pks);
        assert(canon_qsets(r1.inner, pks)[j1] == y);
    }
}

/// Equivalent raw quorum sets canonicalize to the same value.
pub proof fn lemma_canon_qset_equiv(r1: RawQsetV, r2: RawQsetV, pks: Seq<Seq<char>>)
    requires
        raw_qset_equiv(r1, r2),
    ensures
        canon_qset(r1, pks) == canon_qset(r2, pks),
    decreases r1, 1int,
{
    reveal(raw_qset_equiv);
    reveal(canon_qset);
    reveal(canon_qsets);
    let c1 = canon_qset(r1, pks);
    let c2 = canon_qset(r2, pks);
    lemma_canon_vids_equiv(r1.validators, r2.validators, pks);
    lemma_canon_qsets_equiv(r1, r2, pks);
    lemma_qsort_dedup(canon_qsets(r1.inner, pks));
    lemma_qsort_dedup(canon_qsets(r2.inner, pks));
    assert(qsort_dedup(canon_qsets(r1.inner, pks)).to_set() =~= qsort_dedup(
        canon_qsets(r2.inner, pks),
    ).to_set());
    lemma_qsorted_unique(
        qsort_dedup(canon_qsets(r1.inner, pks)),
        qsort_dedup(canon_qsets(r2.inner, pks)),
    );
    assert(c1.threshold == c2.threshold);
    assert(c1.validators == c2.validators);
    assert(c1.inner == c2.inner);
    assert(c1 =~= c2);
}

/// Canonicalization invariance: raw topologies that describe the same quorum
/// logic — the same node entries in any order, with clauses in any order and
/// possibly repeated — canonicalize to equal values. Together with the
/// contract of `canonicalize` this makes the canonical topology a sound cache
/// key.
#[verifier::rlimit(30)]
pub proof fn lemma_canonicalization_invariance(r1: Seq<RawNodeV>, r2: Seq<RawNodeV>)
    requires
        raw_topo_equiv(r1, r2),
        !has_dup_pk(r1),
        !has_dup_pk(r2),
    ensures
        canon_topo(r1) == canon_topo(r2),
{
    reveal(raw_qset_equiv);
    let t1 = canon_topo(r1);
    let t2 = canon_topo(r2);
    assert(raw_pks(r1).to_set() =~= raw_pks(r2).to_set()) by {
        assert forall|x: Seq<char>| raw_pks(r1).to_set().contains(x) implies raw_pks(
            r2,
        ).to_set().contains(x) by {
            let i = choose|i: int| 0 <= i < raw_pks(r1).len() && raw_pks(r1)[i] == x;
            assert(r1[i].public_key == x);
            let j = choose|j: int|
                0 <= j < r2.len() && r1[i].public_key == r2[j].public_key && raw_qset_equiv(
                    r1[i].quorum_set,
                    r2[j].quorum_set,
                );
            assert(raw_pks(r2)[j] == x);
        }
        assert forall|x: Seq<char>| raw_pks(r2).to_set().contains(x) implies raw_pks(
            r1,
        ).to_set().contains(x) by {
            let j = choose|j: int| 0 <= j < raw_pks(r2).len() && raw_pks(r2)[j] == x;
            assert(r2[j].public_key == x);
            let i = choose|i: int|
                0 <= i < r1.len() && r1[i].public_key == r2[j].public_key && raw_qset_equiv(
                    r1[i].quorum_set,
                    r2[j].quorum_set,
                );
            assert(raw_pks(r1)[i] == x);
        }
    }
    lemma_pks_sort(raw_pks(r1));
    lemma_pks_sort(raw_pks(r2));
    assert(t1.pks =~= t2.pks) by {
        let strf = |a: Seq<char>, b: Seq<char>| str_lt(a, b);
        assert forall|x: Seq<char>, y: Seq<char>| !(#[trigger] strf(x, y) && #[trigger] strf(
            y,
            x,
        )) by {
            lemma_str_lt_asym(x, y);
        }
        assert forall|x: Seq<char>, y: Seq<char>| x != y implies #[trigger] strf(x, y)
            || #[trigger] strf(y, x) by {
            lemma_str_lt_connex(x, y);
        }
        assert forall|i: int, j: int| 0 <= i < j < t1.pks.len() implies strf(
            t1.pks[i],
            t1.pks[j],
        ) by {
            assert(str_lt(t1.pks[i], t1.pks[j]));
        }
        assert forall|i: int, j: int| 0 <= i < j < t2.pks.len() implies strf(
            t2.pks[i],
            t2.pks[j],
        ) by {
            assert(str_lt(t2.pks[i], t2.pks[j]));
        }
        assert(t1.pks.to_set() =~= t2.pks.to_set());
        lemma_strict_sorted_unique(t1.pks, t2.pks, strf);
    }
    assert forall|i: int| 0 <= i < t1.qsets.len() implies t1.qsets[i] == t2.qsets[i] by {
        let pk = t1.pks[i];
        assert(t1.pks.to_set().contains(pk));
        assert(raw_pks(r1).to_set().contains(pk));
        // The witnesses that raw_qset_of picks on both sides.
        let jc1 = choose|j: int| 0 <= j < r1.len() && r1[j].public_key == pk;
        let jc2 = choose|j: int| 0 <= j < r2.len() && r2[j].public_key == pk;
        assert(exists|j: int| 0 <= j < r1.len() && #[trigger] r1[j].public_key == pk) by {
            let k = choose|k: int| 0 <= k < raw_pks(r1).len() && raw_pks(r1)[k] == pk;
            assert(r1[k].public_key == pk);
        }
        assert(0 <= jc1 < r1.len() && r1[jc1].public_key == pk);
        assert(raw_qset_of(r1, pk) == r1[jc1].quorum_set);
        // The matching node of r2 carries the same key and an equivalent set.
        let jm = choose|j: int|
            0 <= j < r2.len() && r1[jc1].public_key == r2[j].public_key && raw_qset_equiv(
                r1[jc1].quorum_set,
                r2[j].quorum_set,
            );
        assert(0 <= jm < r2.len() && r2[jm].public_key == pk);
        assert(0 <= jc2 < r2.len() && r2[jc2].public_key == pk);
        assert(raw_qset_of(r2, pk) == r2[jc2].quorum_set);
        assert(jc2 == jm) by {
            if jc2 < jm || jm < jc2 {
                assert(has_dup_pk(r2));
            }
        }
        lemma_canon_qset_equiv(r1[jc1].quorum_set, r2[jm].quorum_set, t1.pks);
        assert(t1.qsets[i] == canon_qset(raw_qset_of(r1, pk), t1.pks));
        assert(t2.qsets[i] == canon_qset(raw_qset_of(r2, t2.pks[i]), t2.pks));
    }
    assert(t1.qsets =~= t2.qsets);
    assert(t1 =~= t2);
}

// ---------------------------------------------------------------------------
// Executable comparisons.
// ---------------------------------------------------------------------------

/// Lexicographic comparison of the suffixes of two strings starting at
/// character `i`.
fn str_lt_from(a: &str, b: &str, i: usize) -> (r: bool)
    requires
        i <= a@.len(),
        i <= b@.len(),
    ensures
        r == str_lt(a@.skip(i as int), b@.skip(i as int)),
    decreases a@.len() - i,
{
    let an = a.unicode_len();
    let bn = b.unicode_len();
    if i == bn {
        false
    } else if i == an {
        true
    } else {
        let ca = a.get_char(i);
        let cb = b.get_char(i);
        assert(a@.skip(i as int)[0] == ca);
        assert(b@.skip(i as int)[0] == cb);
        if ca != cb {
            (ca as u32) < (cb as u32)
        } else {
            let r = str_lt_from(a, b, i + 1);
            assert(a@.skip(i as int).drop_first() =~= a@.skip(i + 1));
            assert(b@.skip(i as int).drop_first() =~= b@.skip(i + 1));
            r
        }
    }
}

/// Lexicographic comparison of two public keys.
pub fn str_lt_exec(a: &String, b: &String) -> (r: bool)
    ensures
        r == str_lt(a@, b@),
{
    let r = str_lt_from(a.as_str(), b.as_str(), 0);
    assert(a@.skip(0) =~= a@);
    assert(b@.skip(0) =~= b@);
    r
}

fn useq_eq_exec(a: &Vec<usize>, b: &Vec<usize>) -> (r: bool)
    ensures
        r == (a@ == b@),
{
    if a.len() != b.len() {
        return false;
    }
    let mut i: usize = 0;
    while i < a.len()
        invariant
            0 <= i <= a.len() == b.len(),
            forall|t: int| 0 <= t < i ==> a@[t] == b@[t],
        decreases a.len() - i,
    {
        if a[i] != b[i] {
            return false;
        }
        i += 1;
    }
    assert(a@ =~= b@);
    true
}

fn useq_lt_from(a: &Vec<usize>, b: &Vec<usize>, i: usize) -> (r: bool)
    requires
        i <= a@.len(),
        i <= b@.len(),
    ensures
        r == useq_lt(a@.skip(i as int), b@.skip(i as int)),
    decreases a@.len() - i,
{
    if i == b.len() {
        false
    } else if i == a.len() {
        true
    } else {
        assert(a@.skip(i as int)[0] == a@[i as int]);
        assert(b@.skip(i as int)[0] == b@[i as int]);
        if a[i] != b[i] {
            a[i] < b[i]
        } else {
            let r = useq_lt_from(a, b, i + 1);
            assert(a@.skip(i as int).drop_first() =~= a@.skip(i + 1));
            assert(b@.skip(i as int).drop_first() =~= b@.skip(i + 1));
            r
        }
    }
}

/// Structural equality of canonical quorum sets, at the level of their views.
pub fn qeq_exec(a: &CQuorumSet, b: &CQuorumSet) -> (r: bool)
    ensures
        r == (a@ == b@),
    decreases *a,
{
    proof {
        lemma_cviews_seq(a.inner@);
        lemma_cviews_seq(b.inner@);
    }
    if a.threshold != b.threshold {
        return false;
    }
    if !useq_eq_exec(&a.validators, &b.validators) {
        return false;
    }
    if a.inner.len() != b.inner.len() {
        assert(cviews(a.inner).len() != cviews(b.inner).len());
        return false;
    }
    let mut i: usize = 0;
    while i < a.inner.len()
        invariant
            0 <= i <= a.inner@.len() == b.inner@.len(),
            a.threshold == b.threshold,
            a.validators@ == b.validators@,
            forall|t: int| 0 <= t < i ==> cviews(a.inner)[t] == cviews(b.inner)[t],
        decreases a.inner@.len() - i,
    {
        proof {
            lemma_cviews_seq(a.inner@);
            lemma_cviews_seq(b.inner@);
        }
        if !qeq_exec(&a.inner[i], &b.inner[i]) {
            assert(cviews(a.inner)[i as int] != cviews(b.inner)[i as int]);
            return false;
        }
        i += 1;
    }
    assert(cviews(a.inner) =~= cviews(b.inner));
    assert(a@ =~= b@);
    true
}

/// The canonical quorum-set order, executable.
pub fn qlt_exec(a: &CQuorumSet, b: &CQuorumSet) -> (r: bool)
    ensures
        r == qlt(a@, b@),
    decreases *a, 0int,
{
    if a.threshold != b.threshold {
        return a.threshold < b.threshold;
    }
    if !useq_eq_exec(&a.validators, &b.validators) {
        let r = useq_lt_from(&a.validators, &b.validators, 0);
        assert(a.validators@.skip(0) =~= a.validators@);
        assert(b.validators@.skip(0) =~= b.validators@);
        return r;
    }
    let r = qseq_lt_from(&a.inner, &b.inner, 0);
    assert(cviews_seq(a.inner@).skip(0) =~= cviews_seq(a.inner@));
    assert(cviews_seq(b.inner@).skip(0) =~= cviews_seq(b.inner@));
    r
}

fn qseq_lt_from(x: &Vec<CQuorumSet>, y: &Vec<CQuorumSet>, i: usize) -> (r: bool)
    requires
        i <= x@.len(),
        i <= y@.len(),
    ensures
        r == qseq_lt(cviews_seq(x@).skip(i as int), cviews_seq(y@).skip(i as int)),
    decreases *x, 1int, x@.len() - i,
{
    proof {
        lemma_cviews_seq(x@);
        lemma_cviews_seq(y@);
    }
    if i == y.len() {
        false
    } else if i == x.len() {
        true
    } else {
        assert(cviews_seq(x@).skip(i as int)[0] == cviews_seq(x@)[i as int]);
        assert(cviews_seq(y@).skip(i as int)[0] == cviews_seq(y@)[i as int]);
        if !qeq_exec(&x[i], &y[i]) {
            qlt_exec(&x[i], &y[i])
        } else {
            let r = qseq_lt_from(x, y, i + 1);
            assert(cviews_seq(x@).skip(i as int).drop_first() =~= cviews_seq(x@).skip(i + 1));
            assert(cviews_seq(y@).skip(i as int).drop_first() =~= cviews_seq(y@).skip(i + 1));
            r
        }
    }
}

// ---------------------------------------------------------------------------
// Executable sorting of clauses and public keys.
// ---------------------------------------------------------------------------

/// Removes one minimal quorum set (and every duplicate of it) from `v`.
fn extract_min_qset(v: Vec<CQuorumSet>) -> (res: (CQuorumSet, Vec<CQuorumSet>))
    requires
        v@.len() > 0,
    ensures
        cviews(v).to_set().contains(res.0@),
        cviews(res.1).to_set() =~= cviews(v).to_set().remove(res.0@),
        forall|x: QsetV| cviews(res.1).to_set().contains(x) ==> qlt(res.0@, x),
        res.1@.len() < v@.len(),
{
    proof {
        lemma_cviews_seq(v@);
    }
    let ghost orig = cviews_seq(v@).to_set();
    let ghost n0 = v@.len();
    let ghost v0 = v@;
    let mut v = v;
    let mut m = v.pop().unwrap();
    proof {
        assert(v0 =~= v@.push(m));
    }
    let mut rest: Vec<CQuorumSet> = Vec::new();
    proof {
        lemma_cviews_seq(v@);
        assert(cviews_seq(v@.push(m)).to_set() =~= cviews_seq(v@).to_set().insert(m@)) by {
            lemma_cviews_seq(v@.push(m));
            assert forall|x: QsetV| cviews_seq(v@.push(m)).to_set().contains(x)
                implies cviews_seq(v@).to_set().insert(m@).contains(x) by {
                let i = choose|i: int|
                    0 <= i < cviews_seq(v@.push(m)).len() && cviews_seq(v@.push(m))[i] == x;
                if i < v@.len() {
                    assert(cviews_seq(v@)[i] == x);
                }
            }
            assert forall|x: QsetV| cviews_seq(v@).to_set().insert(m@).contains(x)
                implies cviews_seq(v@.push(m)).to_set().contains(x) by {
                if x == m@ {
                    assert(cviews_seq(v@.push(m))[v@.len() as int] == x);
                } else {
                    let i = choose|i: int| 0 <= i < cviews_seq(v@).len() && cviews_seq(v@)[i] == x;
                    assert(cviews_seq(v@.push(m))[i] == x);
                }
            }
        }
        lemma_cviews_seq(rest@);
        assert(cviews_seq(rest@).to_set() =~= Set::<QsetV>::empty());
        assert(orig =~= cviews_seq(v@).to_set().union(cviews_seq(rest@).to_set()).insert(m@));
    }
    while v.len() > 0
        invariant
            orig =~= cviews_seq(v@).to_set().union(cviews_seq(rest@).to_set()).insert(m@),
            forall|x: QsetV| cviews_seq(rest@).to_set().contains(x) ==> qlt(m@, x),
            v@.len() + rest@.len() + 1 <= n0,
        decreases v@.len(),
    {
        let ghost old_v = v@;
        let ghost old_rest = rest@;
        let ghost old_m = m@;
        let e = v.pop().unwrap();
        proof {
            lemma_cviews_seq(old_v);
            lemma_cviews_seq(v@);
            assert(cviews_seq(old_v).to_set() =~= cviews_seq(v@).to_set().insert(e@)) by {
                assert forall|x: QsetV| cviews_seq(old_v).to_set().contains(x)
                    implies cviews_seq(v@).to_set().insert(e@).contains(x) by {
                    let i = choose|i: int|
                        0 <= i < cviews_seq(old_v).len() && cviews_seq(old_v)[i] == x;
                    if i < v@.len() {
                        assert(cviews_seq(v@)[i] == x);
                    }
                }
                assert forall|x: QsetV| cviews_seq(v@).to_set().insert(e@).contains(x)
                    implies cviews_seq(old_v).to_set().contains(x) by {
                    if x == e@ {
                        assert(cviews_seq(old_v)[v@.len() as int] == x);
                    } else {
                        let i = choose|i: int|
                            0 <= i < cviews_seq(v@).len() && cviews_seq(v@)[i] == x;
                        assert(cviews_seq(old_v)[i] == x);
                    }
                }
            }
        }
        if qeq_exec(&e, &m) {
            // a duplicate of the current minimum: drop it
        } else if qlt_exec(&e, &m) {
            // a new minimum: the old one joins the kept remainder
            let prev = m;
            m = e;
            proof {
                assert forall|x: QsetV| cviews_seq(old_rest.push(prev)).to_set().contains(x)
                    implies qlt(m@, x) by {
                    lemma_cviews_seq(old_rest.push(prev));
                    lemma_cviews_seq(old_rest);
                    let i = choose|i: int|
                        0 <= i < cviews_seq(old_rest.push(prev)).len() && cviews_seq(
                            old_rest.push(prev),
                        )[i] == x;
                    if i < old_rest.len() {
                        assert(cviews_seq(old_rest)[i] == x);
                        assert(qlt(old_m, x));
                        lemma_qlt_trans(m@, old_m, x);
                    }
                }
            }
            rest.push(prev);
            proof {
                lemma_push_view_set(old_rest, prev);
            }
        } else {
            proof {
                lemma_qlt_connex(e@, m@);
            }
            rest.push(e);
            proof {
                lemma_push_view_set(old_rest, e);
            }
        }
    }
    proof {
        lemma_cviews_seq(rest@);
        lemma_cviews_seq(v@);
        assert(cviews_seq(v@).to_set() =~= Set::<QsetV>::empty());
        assert(!cviews_seq(rest@).to_set().contains(m@)) by {
            if cviews_seq(rest@).to_set().contains(m@) {
                lemma_qlt_asym(m@, m@);
            }
        }
        assert(cviews(rest).to_set() =~= orig.remove(m@));
    }
    (m, rest)
}

/// The set of views pushed grows by exactly the pushed element.
proof fn lemma_push_view_set(s: Seq<CQuorumSet>, e: CQuorumSet)
    ensures
        cviews_seq(s.push(e)).to_set() =~= cviews_seq(s).to_set().insert(e@),
{
    lemma_cviews_seq(s.push(e));
    lemma_cviews_seq(s);
    assert forall|x: QsetV| cviews_seq(s.push(e)).to_set().contains(x) implies cviews_seq(
        s,
    ).to_set().insert(e@).contains(x) by {
        let i = choose|i: int| 0 <= i < cviews_seq(s.push(e)).len() && cviews_seq(s.push(e))[i] == x;
        if i < s.len() {
            assert(cviews_seq(s)[i] == x);
        }
    }
    assert forall|x: QsetV| cviews_seq(s).to_set().insert(e@).contains(x) implies cviews_seq(
        s.push(e),
    ).to_set().contains(x) by {
        if x == e@ {
            assert(cviews_seq(s.push(e))[s.len() as int] == x);
        } else {
            let i = choose|i: int| 0 <= i < cviews_seq(s).len() && cviews_seq(s)[i] == x;
            assert(cviews_seq(s.push(e))[i] == x);
        }
    }
}

/// Sorts a collection of canonical quorum sets by the canonical order and
/// removes duplicates.
fn sort_qsets(v: Vec<CQuorumSet>) -> (out: Vec<CQuorumSet>)
    ensures
        qsorted(cviews(out)),
        cviews(out).to_set() =~= cviews(v).to_set(),
    decreases v@.len(),
{
    proof {
        lemma_cviews_seq(v@);
    }
    if v.len() == 0 {
        let out: Vec<CQuorumSet> = Vec::new();
        proof {
            lemma_cviews_seq(out@);
        }
        out
    } else {
        let (m, rest) = extract_min_qset(v);
        let sorted_rest = sort_qsets(rest);
        let ghost m_view = m@;
        let ghost sr = sorted_rest@;
        let mut out = sorted_rest;
        out.insert(0, m);
        proof {
            assert(out@ =~= seq![m].add(sr));
            lemma_cviews_seq(out@);
            lemma_cviews_seq(sr);
            lemma_cviews_seq(rest@);
            assert(cviews(out)[0] == m_view);
            assert(forall|t: int| 1 <= t < out@.len() ==> out@[t] == sr[t - 1]);
            assert forall|a: int, b: int| 0 <= a < b < cviews(out).len() implies qlt(
                cviews(out)[a],
                cviews(out)[b],
            ) by {
                if a == 0 {
                    assert(cviews(out)[b] == cviews_seq(sr)[b - 1]);
                    assert(cviews_seq(sr).to_set().contains(cviews(out)[b]));
                    assert(cviews_seq(rest@).to_set().contains(cviews(out)[b]));
                } else {
                    assert(cviews(out)[a] == cviews_seq(sr)[a - 1]);
                    assert(cviews(out)[b] == cviews_seq(sr)[b - 1]);
                }
            }
            assert(cviews(out).to_set() =~= cviews(v).to_set()) by {
                assert forall|x: QsetV| cviews(out).to_set().contains(x) implies cviews(
                    v,
                ).to_set().contains(x) by {
                    let t = choose|t: int| 0 <= t < cviews(out).len() && cviews(out)[t] == x;
                    if t > 0 {
                        assert(cviews_seq(sr)[t - 1] == x);
                        assert(cviews_seq(sr).to_set().contains(x));
                        assert(cviews_seq(rest@).to_set().contains(x));
                    }
                }
                assert forall|x: QsetV| cviews(v).to_set().contains(x) implies cviews(
                    out,
                ).to_set().contains(x) by {
                    if x == cviews(out)[0] {
                    } else {
                        assert(cviews_seq(rest@).to_set().contains(x));
                        assert(cviews_seq(sr).to_set().contains(x));
                        let t = choose|t: int|
                            0 <= t < cviews_seq(sr).len() && cviews_seq(sr)[t] == x;
                        assert(cviews(out)[t + 1] == x);
                    }
                }
            }
        }
        out
    }
}

/// A structural copy of a canonical quorum set with the same view.
pub(crate) fn copy_qset(q: &CQuorumSet) -> (r: CQuorumSet)
    ensures
        r@ == q@,
    decreases *q,
{
    let mut validators: Vec<usize> = Vec::new();
    let mut i: usize = 0;
    while i < q.validators.len()
        invariant
            0 <= i <= q.validators@.len(),
            validators@ == q.validators@.subrange(0, i as int),
        decreases q.validators@.len() - i,
    {
        validators.push(q.validators[i]);
        assert(validators@ =~= q.validators@.subrange(0, i + 1));
        i += 1;
    }
    assert(validators@ =~= q.validators@);
    let mut inner: Vec<CQuorumSet> = Vec::new();
    let mut j: usize = 0;
    while j < q.inner.len()
        invariant
            0 <= j <= q.inner@.len(),
            cviews_seq(inner@) =~= cviews_seq(q.inner@).subrange(0, j as int),
        decreases q.inner@.len() - j,
    {
        let ghost old_inner = inner@;
        let c = copy_qset(&q.inner[j]);
        inner.push(c);
        proof {
            lemma_cviews_seq(old_inner.push(c));
            lemma_cviews_seq(old_inner);
            lemma_cviews_seq(q.inner@);
            assert(cviews_seq(inner@) =~= cviews_seq(q.inner@).subrange(0, j + 1));
        }
        j += 1;
    }
    proof {
        lemma_cviews_seq(inner@);
        lemma_cviews_seq(q.inner@);
        assert(cviews_seq(inner@) =~= cviews_seq(q.inner@));
    }
    let r = CQuorumSet { threshold: q.threshold, validators, inner };
    assert(r@ =~= q@);
    r
}

// ---------------------------------------------------------------------------
// Validation and executable canonicalization.
// ---------------------------------------------------------------------------

/// Why a topology description was rejected.
#[derive(Debug, Clone, Copy, PartialEq, Eq, Structural)]
pub enum MalformedInputError {
    /// Two node entries define the same public key.
    DuplicateNodeDefinition,
    /// A quorum set demands agreement of fewer than one member.
    NonPositiveThreshold,
    /// A quorum set names a validator that the topology does not define.
    UnknownValidator,
    /// A quorum set nests deeper than `DEPTH_LIMIT` levels.
    NestingTooDeep,
}

/// The deepest quorum-set nesting the schema accepts. Real topologies nest two
/// or three levels; the bound exists so that every accepted topology stays far
/// inside the recursion limit of the engine's JSON parser.
pub const DEPTH_LIMIT: usize = 32;

/// The nesting depth of a canonical quorum set: one more than its deepest
/// inner set.
pub open spec fn qdepth(q: QsetV) -> int
    decreases q, 0int,
{
    1 + qsdepth(q.inner)
}

pub open spec fn qsdepth(s: Seq<QsetV>) -> int
    decreases s, 1int,
{
    if s.len() == 0 {
        0
    } else {
        let d = qdepth(s[0]);
        let r = qsdepth(s.drop_first());
        if d >= r {
            d
        } else {
            r
        }
    }
}

/// `qsdepth` is the maximum of the members' depths.
proof fn lemma_qsdepth(s: Seq<QsetV>)
    ensures
        qsdepth(s) >= 0,
        forall|j: int| 0 <= j < s.len() ==> qdepth(#[trigger] s[j]) <= qsdepth(s),
        s.len() > 0 ==> exists|j: int| 0 <= j < s.len() && qdepth(#[trigger] s[j]) == qsdepth(s),
    decreases s,
{
    if s.len() > 0 {
        lemma_qsdepth(s.drop_first());
        assert forall|j: int| 0 <= j < s.len() implies qdepth(#[trigger] s[j]) <= qsdepth(s) by {
            if j > 0 {
                assert(s.drop_first()[j - 1] == s[j]);
            }
        }
        if qdepth(s[0]) >= qsdepth(s.drop_first()) {
            assert(qdepth(s[0]) == qsdepth(s));
        } else {
            lemma_qsdepth(s[0].inner);
            assert(qdepth(s[0]) >= 1);
            assert(s.drop_first().len() > 0);
            let j = choose|j: int|
                0 <= j < s.drop_first().len() && qdepth(#[trigger] s.drop_first()[j]) == qsdepth(
                    s.drop_first(),
                );
            assert(s[j + 1] == s.drop_first()[j]);
            assert(qdepth(s[j + 1]) == qsdepth(s));
        }
    }
}

/// Some quorum set of the canonical topology nests deeper than the schema
/// accepts.
pub open spec fn topo_too_deep(t: TopoV) -> bool {
    exists|i: int| 0 <= i < t.qsets.len() && qdepth(#[trigger] t.qsets[i]) > DEPTH_LIMIT as int
}

/// Whether the quorum set nests deeper than `budget` levels.
fn depth_exceeds(q: &CQuorumSet, budget: usize) -> (r: bool)
    ensures
        r == (qdepth(q@) > budget as int),
    decreases *q,
{
    proof {
        lemma_cviews_seq(q.inner@);
        lemma_qsdepth(cviews_seq(q.inner@));
    }
    if budget == 0 {
        return true;
    }
    let mut j: usize = 0;
    while j < q.inner.len()
        invariant
            0 <= j <= q.inner@.len(),
            budget >= 1,
            forall|t: int|
                0 <= t < j ==> qdepth(#[trigger] cviews_seq(q.inner@)[t]) <= budget - 1,
        decreases q.inner@.len() - j,
    {
        proof {
            lemma_cviews_seq(q.inner@);
        }
        if depth_exceeds(&q.inner[j], budget - 1) {
            proof {
                lemma_qsdepth(cviews_seq(q.inner@));
                assert(qdepth(cviews_seq(q.inner@)[j as int]) <= qsdepth(cviews_seq(q.inner@)));
            }
            return true;
        }
        j += 1;
    }
    proof {
        lemma_cviews_seq(q.inner@);
        lemma_qsdepth(cviews_seq(q.inner@));
        if cviews_seq(q.inner@).len() > 0 {
            let j = choose|j: int|
                0 <= j < cviews_seq(q.inner@).len() && qdepth(
                    #[trigger] cviews_seq(q.inner@)[j],
                ) == qsdepth(cviews_seq(q.inner@));
        }
    }
    false
}

/// Some threshold inside the quorum set is not positive.
pub open spec fn qset_has_nonpos(r: RawQsetV) -> bool
    decreases r,
{
    r.threshold < 1 || exists|j: int|
        0 <= j < r.inner.len() && qset_has_nonpos(#[trigger] r.inner[j])
}

/// Some validator inside the quorum set is not a known public key.
pub open spec fn qset_has_unknown(r: RawQsetV, pkset: Set<Seq<char>>) -> bool
    decreases r,
{
    (exists|j: int| 0 <= j < r.validators.len() && !pkset.contains(#[trigger] r.validators[j]))
        || exists|j: int| 0 <= j < r.inner.len() && qset_has_unknown(#[trigger] r.inner[j], pkset)
}

/// The views of a sequence of raw nodes.
pub open spec fn raw_views(nodes: Seq<RawNode>) -> Seq<RawNodeV> {
    Seq::new(nodes.len(), |i: int| nodes[i]@)
}

pub open spec fn topo_has_nonpos(raw: Seq<RawNodeV>) -> bool {
    exists|i: int| 0 <= i < raw.len() && qset_has_nonpos((#[trigger] raw[i]).quorum_set)
}

pub open spec fn topo_has_unknown(raw: Seq<RawNodeV>) -> bool {
    exists|i: int|
        0 <= i < raw.len() && qset_has_unknown(
            (#[trigger] raw[i]).quorum_set,
            raw_pks(raw).to_set(),
        )
}

/// A well-formed canonical quorum set over `n` identifiers.
pub open spec fn qv_wf(q: QsetV, n: int) -> bool
    decreases q,
{
    &&& q.threshold >= 1
    &&& ids_sorted(q.validators)
    &&& forall|j: int| 0 <= j < q.validators.len() ==> (#[trigger] q.validators[j]) < n
    &&& qsorted(q.inner)
    &&& forall|j: int| 0 <= j < q.inner.len() ==> qv_wf(#[trigger] q.inner[j], n)
}

/// A well-formed canonical topology.
pub open spec fn topo_wf(t: TopoV) -> bool {
    &&& pks_sorted(t.pks)
    &&& t.qsets.len() == t.pks.len()
    &&& forall|i: int| 0 <= i < t.qsets.len() ==> qv_wf(#[trigger] t.qsets[i], t.pks.len() as int)
    &&& forall|i: int| 0 <= i < t.qsets.len() ==> qdepth(#[trigger] t.qsets[i]) <= DEPTH_LIMIT as int
}

fn qset_nonpos_exec(q: &RawQuorumSet) -> (r: bool)
    ensures
        r == qset_has_nonpos(q@),
    decreases *q,
{
    proof {
        lemma_rviews_seq(q.inner@);
    }
    if q.threshold < 1 {
        return true;
    }
    let mut j: usize = 0;
    while j < q.inner.len()
        invariant
            0 <= j <= q.inner@.len(),
            q.threshold >= 1,
            forall|t: int| 0 <= t < j ==> !qset_has_nonpos(#[trigger] rviews_seq(q.inner@)[t]),
        decreases q.inner@.len() - j,
    {
        proof {
            lemma_rviews_seq(q.inner@);
        }
        if qset_nonpos_exec(&q.inner[j]) {
            assert(qset_has_nonpos(q@.inner[j as int]));
            return true;
        }
        j += 1;
    }
    proof {
        lemma_rviews_seq(q.inner@);
    }
    false
}

/// Whether some public key of `pks` reads `s`.
pub(crate) fn contains_pk(pks: &Vec<String>, s: &String) -> (r: bool)
    ensures
        r == str_views(*pks).to_set().contains(s@),
{
    let mut i: usize = 0;
    while i < pks.len()
        invariant
            0 <= i <= pks@.len(),
            forall|t: int| 0 <= t < i ==> str_views(*pks)[t] != s@,
        decreases pks@.len() - i,
    {
        if pks[i].eq(s) {
            assert(str_views(*pks)[i as int] == s@);
            return true;
        }
        i += 1;
    }
    assert forall|x: Seq<char>| str_views(*pks).to_set().contains(x) implies x != s@ by {
        let t = choose|t: int| 0 <= t < str_views(*pks).len() && str_views(*pks)[t] == x;
    }
    false
}

fn qset_unknown_exec(q: &RawQuorumSet, pks: &Vec<String>) -> (r: bool)
    ensures
        r == qset_has_unknown(q@, str_views(*pks).to_set()),
    decreases *q,
{
    let ghost pkset = str_views(*pks).to_set();
    let mut j: usize = 0;
    while j < q.validators.len()
        invariant
            0 <= j <= q.validators@.len(),
            pkset == str_views(*pks).to_set(),
            forall|t: int| 0 <= t < j ==> pkset.contains(#[trigger] q@.validators[t]),
        decreases q.validators@.len() - j,
    {
        if !contains_pk(pks, &q.validators[j]) {
            assert(!pkset.contains(q@.validators[j as int]));
            return true;
        }
        assert(q@.validators[j as int] == q.validators@[j as int]@);
        j += 1;
    }
    let mut k: usize = 0;
    while k < q.inner.len()
        invariant
            0 <= k <= q.inner@.len(),
            pkset == str_views(*pks).to_set(),
            forall|t: int| 0 <= t < q.validators@.len() ==> pkset.contains(#[trigger] q@.validators[t]),
            forall|t: int|
                0 <= t < k ==> !qset_has_unknown(#[trigger] rviews_seq(q.inner@)[t], pkset),
        decreases q.inner@.len() - k,
    {
        proof {
            lemma_rviews_seq(q.inner@);
        }
        if qset_unknown_exec(&q.inner[k], pks) {
            assert(qset_has_unknown(q@.inner[k as int], pkset));
            return true;
        }
        k += 1;
    }
    proof {
        lemma_rviews_seq(q.inner@);
    }
    false
}

/// The index of the public key `s` in the sorted table `pks`.
pub(crate) fn pk_index(pks: &Vec<String>, s: &String) -> (r: usize)
    requires
        pks_sorted(str_views(*pks)),
        str_views(*pks).to_set().contains(s@),
    ensures
        r < pks@.len(),
        str_views(*pks)[r as int] == s@,
        r == pk_id(str_views(*pks), s@),
{
    let ghost strv = str_views(*pks);
    let mut i: usize = 0;
    while i < pks.len()
        invariant
            0 <= i <= pks@.len(),
            strv == str_views(*pks),
            pks_sorted(strv),
            str_views(*pks).to_set().contains(s@),
            forall|t: int| 0 <= t < i ==> strv[t] != s@,
        decreases pks@.len() - i,
    {
        if pks[i].eq(s) {
            proof {
                let c = pk_id(strv, s@);
                assert(0 <= c < strv.len() && strv[c as int] == s@) by {
                    assert(strv[i as int] == s@);
                }
                if c != i {
                    if (c as int) < (i as int) {
                        assert(str_lt(strv[c as int], strv[i as int]));
                        lemma_str_lt_asym(s@, s@);
                    } else {
                        assert(str_lt(strv[i as int], strv[c as int]));
                        lemma_str_lt_asym(s@, s@);
                    }
                }
            }
            return i;
        }
        i += 1;
    }
    proof {
        let t = choose|t: int| 0 <= t < strv.len() && strv[t] == s@;
        assert(false);
    }
    0
}

/// Builds the canonical form of one raw quorum set.
fn build_qset(r: &RawQuorumSet, pks: &Vec<String>) -> (c: CQuorumSet)
    requires
        pks_sorted(str_views(*pks)),
        !qset_has_unknown(r@, str_views(*pks).to_set()),
        !qset_has_nonpos(r@),
    ensures
        c@ == canon_qset(r@, str_views(*pks)),
        qv_wf(c@, pks@.len() as int),
    decreases *r,
{
    let ghost strv = str_views(*pks);
    // Rewrite validators to identifiers, then sort and deduplicate them.
    let mut ids: Vec<usize> = Vec::new();
    let mut j: usize = 0;
    while j < r.validators.len()
        invariant
            0 <= j <= r.validators@.len(),
            strv == str_views(*pks),
            pks_sorted(strv),
            !qset_has_unknown(r@, strv.to_set()),
            ids@ =~= vids(r@.validators, strv).subrange(0, j as int),
            forall|t: int| 0 <= t < j ==> (#[trigger] ids@[t]) < pks@.len(),
        decreases r.validators@.len() - j,
    {
        assert(strv.to_set().contains(r@.validators[j as int]));
        assert(r@.validators[j as int] == r.validators@[j as int]@);
        let id = pk_index(pks, &r.validators[j]);
        ids.push(id);
        assert(ids@ =~= vids(r@.validators, strv).subrange(0, j + 1));
        j += 1;
    }
    assert(ids@ =~= vids(r@.validators, strv));
    let validators = crate::set_family::member_canon_exec(&ids);
    // Canonicalize the inner quorum sets, then sort and deduplicate them.
    let mut inner: Vec<CQuorumSet> = Vec::new();
    let mut k: usize = 0;
    while k < r.inner.len()
        invariant
            0 <= k <= r.inner@.len(),
            strv == str_views(*pks),
            pks_sorted(strv),
            !qset_has_unknown(r@, strv.to_set()),
            !qset_has_nonpos(r@),
            cviews_seq(inner@) =~= canon_qsets(r@.inner, strv).subrange(0, k as int),
            forall|t: int| 0 <= t < k ==> qv_wf(#[trigger] cviews_seq(inner@)[t], pks@.len() as int),
        decreases r.inner@.len() - k,
    {
        proof {
            lemma_rviews_seq(r.inner@);
            lemma_canon_qsets(r@.inner, strv);
            lemma_cviews_seq(inner@);
        }
        assert(!qset_has_unknown(r@.inner[k as int], strv.to_set()));
        assert(!qset_has_nonpos(r@.inner[k as int]));
        let ghost old_inner = inner@;
        let c = build_qset(&r.inner[k], pks);
        inner.push(c);
        proof {
            lemma_cviews_seq(old_inner.push(c));
            lemma_cviews_seq(old_inner);
            lemma_canon_qsets(r@.inner, strv);
            assert(cviews_seq(inner@) =~= canon_qsets(r@.inner, strv).subrange(0, k + 1));
        }
        k += 1;
    }
    proof {
        lemma_canon_qsets(r@.inner, strv);
        lemma_rviews_seq(r.inner@);
        lemma_cviews_seq(inner@);
        assert(cviews_seq(inner@) =~= canon_qsets(r@.inner, strv));
    }
    let ghost built = cviews_seq(inner@);
    let inner_sorted = sort_qsets(inner);
    proof {
        lemma_qsort_dedup(canon_qsets(r@.inner, strv));
        lemma_qsorted_unique(
            cviews(inner_sorted),
            qsort_dedup(canon_qsets(r@.inner, strv)),
        );
    }
    let c = CQuorumSet { threshold: r.threshold, validators, inner: inner_sorted };
    proof {
        reveal(canon_qset);
        reveal(canon_qsets);
        assert(c@.threshold == r@.threshold);
        assert(c@ =~= canon_qset(r@, strv));
        // Well-formedness: thresholds positive, identifiers bounded, clauses
        // sorted and themselves well-formed.
        crate::set_family::lemma_member_canon(ids@);
        assert forall|t: int| 0 <= t < c@.validators.len() implies (#[trigger] c@.validators[t])
            < pks@.len() by {
            assert(crate::set_family::member_set(c@.validators).contains(c@.validators[t]));
            assert(crate::set_family::member_set(ids@).contains(c@.validators[t]));
            let u = choose|u: int| 0 <= u < ids@.len() && ids@[u] == c@.validators[t];
        }
        assert forall|t: int| 0 <= t < c@.inner.len() implies qv_wf(
            #[trigger] c@.inner[t],
            pks@.len() as int,
        ) by {
            lemma_cviews_seq(inner_sorted@);
            assert(cviews(inner_sorted).to_set().contains(c@.inner[t]));
            assert(built.to_set().contains(c@.inner[t]));
            let u = choose|u: int| 0 <= u < built.len() && built[u] == c@.inner[t];
        }
        assert(qv_wf(c@, pks@.len() as int));
    }
    c
}

/// Sorts public keys into a strictly increasing, duplicate-free table.
fn sort_pks(pks: &Vec<String>) -> (out: Vec<String>)
    ensures
        pks_sorted(str_views(out)),
        str_views(out).to_set() =~= str_views(*pks).to_set(),
        str_views(out) == pks_sort(str_views(*pks)),
{
    let mut out: Vec<String> = Vec::new();
    let mut k: usize = 0;
    while k < pks.len()
        invariant
            0 <= k <= pks@.len(),
            pks_sorted(str_views(out)),
            str_views(out).to_set() =~= str_views(*pks).subrange(0, k as int).to_set(),
        decreases pks@.len() - k,
    {
        let x = pks[k].clone();
        assert(x@ == str_views(*pks)[k as int]);
        let mut pos: usize = 0;
        while pos < out.len() && str_lt_exec(&out[pos], &x)
            invariant
                0 <= pos <= out@.len(),
                forall|t: int| 0 <= t < pos ==> str_lt(#[trigger] str_views(out)[t], x@),
            decreases out@.len() - pos,
        {
            pos += 1;
        }
        let ghost old_out = str_views(out);
        let ghost xv = x@;
        if pos == out.len() || !pks[k].eq(&out[pos]) {
            proof {
                if pos < out.len() {
                    lemma_str_lt_connex(xv, old_out[pos as int]);
                }
            }
            out.insert(pos, x);
            proof {
                assert(str_views(out) =~= old_out.insert(pos as int, xv)) by {
                    assert forall|t: int| 0 <= t < str_views(out).len() implies str_views(
                        out,
                    )[t] == old_out.insert(pos as int, xv)[t] by {}
                }
                let cur = str_views(out);
                assert forall|a: int, b: int| 0 <= a < b < cur.len() implies str_lt(
                    cur[a],
                    cur[b],
                ) by {
                    lemma_str_lt_trans(xv, xv, xv);
                    if a < pos && b == pos {
                    } else if a == pos && b > pos {
                        assert(cur[b] == old_out[b - 1]);
                        if pos < old_out.len() {
                            assert(str_lt(xv, old_out[pos as int]));
                            if pos < b - 1 {
                                assert(str_lt(old_out[pos as int], old_out[b - 1]));
                                lemma_str_lt_trans(xv, old_out[pos as int], old_out[b - 1]);
                            }
                        }
                    } else if a < pos && b > pos {
                        assert(cur[a] == old_out[a] && cur[b] == old_out[b - 1]);
                        if pos < old_out.len() {
                            if a < pos {
                                assert(str_lt(old_out[a], xv));
                            }
                            if pos == b - 1 {
                                assert(str_lt(xv, old_out[pos as int]));
                                lemma_str_lt_trans(old_out[a], xv, old_out[b - 1]);
                            } else {
                                assert(str_lt(old_out[a], old_out[b - 1]));
                            }
                        }
                    } else if a > pos {
                        assert(cur[a] == old_out[a - 1] && cur[b] == old_out[b - 1]);
                    } else {
                        assert(cur[a] == old_out[a] && cur[b] == old_out[b]);
                    }
                }
                assert(cur.to_set() =~= old_out.to_set().insert(xv)) by {
                    assert forall|y: Seq<char>| cur.to_set().contains(y) implies old_out.to_set(
                    ).insert(xv).contains(y) by {
                        let t = choose|t: int| 0 <= t < cur.len() && cur[t] == y;
                        if t < pos {
                            assert(old_out[t] == y);
                        } else if t > pos {
                            assert(old_out[t - 1] == y);
                        }
                    }
                    assert forall|y: Seq<char>| old_out.to_set().insert(xv).contains(y)
                        implies cur.to_set().contains(y) by {
                        if y == xv {
                            assert(cur[pos as int] == y);
                        } else {
                            let t = choose|t: int| 0 <= t < old_out.len() && old_out[t] == y;
                            if t < pos {
                                assert(cur[t] == y);
                            } else {
                                assert(cur[t + 1] == y);
                            }
                        }
                    }
                }
            }
        } else {
            proof {
                assert(old_out[pos as int] == xv);
                assert(old_out.to_set().contains(xv));
                assert(str_views(out).to_set() =~= old_out.to_set().insert(xv));
            }
        }
        proof {
            let pre = str_views(*pks).subrange(0, k as int);
            let cur_pre = str_views(*pks).subrange(0, k + 1);
            assert(cur_pre =~= pre.push(xv));
            assert(cur_pre.to_set() =~= pre.to_set().insert(xv)) by {
                assert forall|y: Seq<char>| cur_pre.to_set().contains(y) implies pre.to_set(
                ).insert(xv).contains(y) by {
                    let t = choose|t: int| 0 <= t < cur_pre.len() && cur_pre[t] == y;
                    if t < k {
                        assert(pre[t] == y);
                    }
                }
                assert forall|y: Seq<char>| pre.to_set().insert(xv).contains(y)
                    implies cur_pre.to_set().contains(y) by {
                    if y == xv {
                        assert(cur_pre[k as int] == y);
                    } else {
                        let t = choose|t: int| 0 <= t < pre.len() && pre[t] == y;
                        assert(cur_pre[t] == y);
                    }
                }
            }
        }
        k += 1;
    }
    proof {
        assert(str_views(*pks).subrange(0, pks@.len() as int) =~= str_views(*pks));
        lemma_pks_sort(str_views(*pks));
        let strf = |a: Seq<char>, b: Seq<char>| str_lt(a, b);
        assert forall|x: Seq<char>, y: Seq<char>| !(#[trigger] strf(x, y) && #[trigger] strf(
            y,
            x,
        )) by {
            lemma_str_lt_asym(x, y);
        }
        assert forall|x: Seq<char>, y: Seq<char>| x != y implies #[trigger] strf(x, y)
            || #[trigger] strf(y, x) by {
            lemma_str_lt_connex(x, y);
        }
        assert forall|i: int, j: int| 0 <= i < j < str_views(out).len() implies strf(
            str_views(out)[i],
            str_views(out)[j],
        ) by {
            assert(str_lt(str_views(out)[i], str_views(out)[j]));
        }
        assert forall|i: int, j: int| 0 <= i < j < pks_sort(str_views(*pks)).len() implies strf(
            pks_sort(str_views(*pks))[i],
            pks_sort(str_views(*pks))[j],
        ) by {
            assert(str_lt(pks_sort(str_views(*pks))[i], pks_sort(str_views(*pks))[j]));
        }
        lemma_strict_sorted_unique(str_views(out), pks_sort(str_views(*pks)), strf);
    }
    out
}

/// Canonicalizes a raw topology description, or rejects it: duplicate node
/// definitions, non-positive thresholds, unknown validators and nesting
/// beyond `DEPTH_LIMIT` are hard errors, in that order of precedence.
pub fn canonicalize(nodes: &Vec<RawNode>) -> (res: Result<
    CanonicalTopology,
    MalformedInputError,
>)
    ensures
        res is Err <==> (has_dup_pk(raw_views(nodes@)) || topo_has_nonpos(raw_views(nodes@))
            || topo_has_unknown(raw_views(nodes@)) || topo_too_deep(canon_topo(raw_views(nodes@)))),
        res == Result::<CanonicalTopology, MalformedInputError>::Err(
            MalformedInputError::DuplicateNodeDefinition,
        ) <==> has_dup_pk(raw_views(nodes@)),
        res == Result::<CanonicalTopology, MalformedInputError>::Err(
            MalformedInputError::NonPositiveThreshold,
        ) <==> (!has_dup_pk(raw_views(nodes@)) && topo_has_nonpos(raw_views(nodes@))),
        res == Result::<CanonicalTopology, MalformedInputError>::Err(
            MalformedInputError::UnknownValidator,
        ) <==> (!has_dup_pk(raw_views(nodes@)) && !topo_has_nonpos(raw_views(nodes@))
            && topo_has_unknown(raw_views(nodes@))),
        res == Result::<CanonicalTopology, MalformedInputError>::Err(
            MalformedInputError::NestingTooDeep,
        ) <==> (!has_dup_pk(raw_views(nodes@)) && !topo_has_nonpos(raw_views(nodes@))
            && !topo_has_unknown(raw_views(nodes@)) && topo_too_deep(canon_topo(raw_views(nodes@)))),
        res is Ok ==> (res->Ok_0)@ == canon_topo(raw_views(nodes@)) && topo_wf((res->Ok_0)@)
            && (res->Ok_0)@.pks.to_set() == raw_pks(raw_views(nodes@)).to_set(),
{
    let ghost rv = raw_views(nodes@);
    let n = nodes.len();
    // Duplicate node definitions are rejected outright.
    let mut i: usize = 0;
    while i < n
        invariant
            0 <= i <= n == nodes@.len(),
            rv == raw_views(nodes@),
            forall|a: int, b: int| 0 <= a < b < i ==> rv[a].public_key != rv[b].public_key,
            forall|a: int, b: int|
                0 <= a < i && a < b < n ==> rv[a].public_key != rv[b].public_key,
        decreases n - i,
    {
        let mut j: usize = i + 1;
        while j < n
            invariant
                0 <= i < j <= n == nodes@.len(),
                rv == raw_views(nodes@),
                forall|b: int| i < b < j ==> rv[i as int].public_key != rv[b].public_key,
            decreases n - j,
        {
            if nodes[i].public_key.eq(&nodes[j].public_key) {
                assert(rv[i as int].public_key == rv[j as int].public_key);
                assert(has_dup_pk(rv));
                return Err(MalformedInputError::DuplicateNodeDefinition);
            }
            j += 1;
        }
        i += 1;
    }
    assert(!has_dup_pk(rv));
    // Reject non-positive thresholds anywhere in any quorum set.
    let mut i2: usize = 0;
    while i2 < n
        invariant
            0 <= i2 <= n == nodes@.len(),
            rv == raw_views(nodes@),
            !has_dup_pk(rv),
            forall|t: int| 0 <= t < i2 ==> !qset_has_nonpos((#[trigger] rv[t]).quorum_set),
        decreases n - i2,
    {
        if qset_nonpos_exec(&nodes[i2].quorum_set) {
            assert(qset_has_nonpos(rv[i2 as int].quorum_set));
            return Err(MalformedInputError::NonPositiveThreshold);
        }
        i2 += 1;
    }
    assert(!topo_has_nonpos(rv));
    // The sorted public-key table doubles as the identifier assignment.
    let mut pk_list: Vec<String> = Vec::new();
    let mut i3: usize = 0;
    while i3 < n
        invariant
            0 <= i3 <= n == nodes@.len(),
            rv == raw_views(nodes@),
            str_views(pk_list) =~= raw_pks(rv).subrange(0, i3 as int),
        decreases n - i3,
    {
        let pkc = nodes[i3].public_key.clone();
        assert(pkc@ == rv[i3 as int].public_key);
        assert(str_views(pk_list).len() == pk_list@.len());
        assert(pk_list@.len() == i3);
        let ghost old_list = pk_list@;
        pk_list.push(pkc);
        assert(pk_list@ == old_list.push(pkc));
        assert(pk_list@.len() == i3 + 1);
        assert forall|t: int| 0 <= t < str_views(pk_list).len() implies str_views(pk_list)[t]
            == raw_pks(rv).subrange(0, i3 + 1)[t] by {
            if t < i3 {
                assert(str_views(pk_list)[t] == pk_list@[t]@);
                assert(pk_list@[t] == old_list[t]);
            } else {
                assert(str_views(pk_list)[t] == pkc@);
                assert(raw_pks(rv)[t] == rv[t].public_key);
            }
        }
        assert(str_views(pk_list) =~= raw_pks(rv).subrange(0, i3 + 1));
        i3 += 1;
    }
    assert(str_views(pk_list) =~= raw_pks(rv));
    let sorted = sort_pks(&pk_list);
    assert(str_views(sorted).to_set() =~= raw_pks(rv).to_set());
    // Reject validators that the topology does not define.
    let mut i4: usize = 0;
    while i4 < n
        invariant
            0 <= i4 <= n == nodes@.len(),
            rv == raw_views(nodes@),
            !has_dup_pk(rv),
            !topo_has_nonpos(rv),
            str_views(sorted).to_set() =~= raw_pks(rv).to_set(),
            pks_sorted(str_views(sorted)),
            str_views(sorted) == pks_sort(raw_pks(rv)),
            forall|t: int|
                0 <= t < i4 ==> !qset_has_unknown(
                    (#[trigger] rv[t]).quorum_set,
                    raw_pks(rv).to_set(),
                ),
        decreases n - i4,
    {
        if qset_unknown_exec(&nodes[i4].quorum_set, &sorted) {
            assert(qset_has_unknown(rv[i4 as int].quorum_set, str_views(sorted).to_set()));
            assert(str_views(sorted).to_set() == raw_pks(rv).to_set());
            assert(topo_has_unknown(rv));
            return Err(MalformedInputError::UnknownValidator);
        }
        assert(!qset_has_unknown(rv[i4 as int].quorum_set, raw_pks(rv).to_set())) by {
            assert(str_views(sorted).to_set() == raw_pks(rv).to_set());
        }
        i4 += 1;
    }
    assert(!topo_has_unknown(rv));
    // Build the canonical quorum set of each node, in sorted key order.
    let mut qsets: Vec<CQuorumSet> = Vec::new();
    let m = sorted.len();
    let mut i5: usize = 0;
    while i5 < m
        invariant
            0 <= i5 <= m == sorted@.len(),
            n == nodes@.len(),
            rv == raw_views(nodes@),
            !has_dup_pk(rv),
            !topo_has_nonpos(rv),
            !topo_has_unknown(rv),
            str_views(sorted).to_set() =~= raw_pks(rv).to_set(),
            pks_sorted(str_views(sorted)),
            str_views(sorted) == pks_sort(raw_pks(rv)),
            cviews_seq(qsets@).len() == i5,
            forall|t: int|
                0 <= t < i5 ==> #[trigger] cviews_seq(qsets@)[t] == canon_qset(
                    raw_qset_of(rv, str_views(sorted)[t]),
                    str_views(sorted),
                ) && qv_wf(cviews_seq(qsets@)[t], sorted@.len() as int),
        decreases m - i5,
    {
        let ghost pk = str_views(sorted)[i5 as int];
        // Find the node that carries this public key.
        let mut j: usize = 0;
        let mut found = n;
        while j < n
            invariant
                0 <= j <= n == nodes@.len(),
                rv == raw_views(nodes@),
                i5 < m == sorted@.len(),
                pk == str_views(sorted)[i5 as int],
                found == n || (found < j && rv[found as int].public_key == pk),
                found == n ==> forall|t: int| 0 <= t < j ==> rv[t].public_key != pk,
            decreases n - j,
        {
            if found == n && nodes[j].public_key.eq(&sorted[i5]) {
                assert(rv[j as int].public_key == pk);
                found = j;
            }
            j += 1;
        }
        proof {
            assert(str_views(sorted).to_set().contains(pk));
            assert(raw_pks(rv).to_set().contains(pk));
            let t = choose|t: int| 0 <= t < raw_pks(rv).len() && raw_pks(rv)[t] == pk;
            assert(rv[t].public_key == pk);
            if found == n {
                assert(false);
            }
        }
        let node = &nodes[found];
        assert(node@ == rv[found as int]);
        assert(!qset_has_nonpos(node@.quorum_set));
        assert(!qset_has_unknown(node@.quorum_set, raw_pks(rv).to_set()));
        assert(!qset_has_unknown(node@.quorum_set, str_views(sorted).to_set()));
        let ghost old_qsets = qsets@;
        let c = build_qset(&node.quorum_set, &sorted);
        qsets.push(c);
        proof {
            lemma_cviews_seq(old_qsets.push(c));
            lemma_cviews_seq(old_qsets);
            // The node found is the unique carrier of this key.
            let jc = choose|jj: int| 0 <= jj < rv.len() && rv[jj].public_key == pk;
            assert(raw_qset_of(rv, pk) == rv[jc].quorum_set);
            assert(jc == found) by {
                if jc < found || found < jc {
                    assert(has_dup_pk(rv));
                }
            }
            assert(cviews_seq(qsets@)[i5 as int] == canon_qset(
                raw_qset_of(rv, pk),
                str_views(sorted),
            ));
            assert(qv_wf(cviews_seq(qsets@)[i5 as int], sorted@.len() as int));
            assert forall|t: int| 0 <= t < i5 implies #[trigger] cviews_seq(qsets@)[t]
                == canon_qset(raw_qset_of(rv, str_views(sorted)[t]), str_views(sorted)) && qv_wf(
                cviews_seq(qsets@)[t],
                sorted@.len() as int,
            ) by {
                assert(cviews_seq(qsets@)[t] == cview(qsets@[t]));
                assert(qsets@[t] == old_qsets[t]);
                assert(cviews_seq(old_qsets)[t] == cview(old_qsets[t]));
            }
        }
        i5 += 1;
    }
    // Reject quorum sets whose canonical form nests deeper than the schema
    // accepts: the bound keeps every accepted topology within the recursion
    // limit of the engine's JSON parser.
    proof {
        lemma_cviews_seq(qsets@);
        assert(cviews_seq(qsets@) =~= canon_topo(rv).qsets) by {
            assert forall|idx: int| 0 <= idx < cviews_seq(qsets@).len() implies cviews_seq(
                qsets@,
            )[idx] == canon_topo(rv).qsets[idx] by {}
        }
    }
    let mut i6: usize = 0;
    while i6 < m
        invariant
            0 <= i6 <= m == qsets@.len(),
            rv == raw_views(nodes@),
            !has_dup_pk(rv),
            !topo_has_nonpos(rv),
            !topo_has_unknown(rv),
            cviews_seq(qsets@) == canon_topo(rv).qsets,
            canon_topo(rv).qsets.len() == m,
            forall|t: int|
                0 <= t < i6 ==> qdepth(#[trigger] canon_topo(rv).qsets[t]) <= DEPTH_LIMIT as int,
        decreases m - i6,
    {
        proof {
            lemma_cviews_seq(qsets@);
        }
        if depth_exceeds(&qsets[i6], DEPTH_LIMIT) {
            assert(qdepth(canon_topo(rv).qsets[i6 as int]) > DEPTH_LIMIT as int);
            assert(topo_too_deep(canon_topo(rv)));
            return Err(MalformedInputError::NestingTooDeep);
        }
        assert(qdepth(canon_topo(rv).qsets[i6 as int]) <= DEPTH_LIMIT as int);
        i6 += 1;
    }
    assert(!topo_too_deep(canon_topo(rv)));
    let t = CanonicalTopology { pks: sorted, qsets };
    proof {
        lemma_cviews_seq(t.qsets@);
        assert(t@.pks == pks_sort(raw_pks(rv)));
        assert(t@.qsets =~= canon_topo(rv).qsets) by {
            assert forall|idx: int| 0 <= idx < t@.qsets.len() implies t@.qsets[idx] == canon_topo(
                rv,
            ).qsets[idx] by {}
        }
        assert(t@ =~= canon_topo(rv));
        assert(topo_wf(t@));
        lemma_pks_sort(raw_pks(rv));
        assert(t@.pks.to_set() == raw_pks(rv).to_set());
    }
    Ok(t)
}

} // verus!
