//! The memoizing analyzer and the result-projection pipeline.
//!
//! A long-lived analyzer owns a cache from canonical topologies to analysis
//! results. The engine runs at most once per distinct canonical topology over
//! the analyzer's lifetime; all later calls observe the stored result. On top
//! of the cache, `analyze` derives the full report: base, grouped and
//! exclusion-filtered views of the minimal-set families, translated to
//! display strings.

use vstd::prelude::*;
use crate::set_family::{
    SetFamily, family_view, member_canon, member_wf, member_set, minimize_spec, family_bounded,
    family_wf, is_antichain, copy_member, map_elements_spec, filter_exclude_spec,
    contains_empty_spec, map_member_raw, member_without, lemma_upto_props, min_keep,
    lemma_member_canon, lemma_member_without_set, from_kept,
};
use crate::topology::{
    CanonicalTopology, TopoV, topo_wf, canonicalize, canon_topo, raw_views, RawNode, str_views,
    MalformedInputError, has_dup_pk, topo_has_nonpos, topo_has_unknown, topo_too_deep, qeq_exec,
    cviews_seq, lemma_cviews_seq, pk_id, pk_id_fn, contains_pk, pk_index, raw_pks,
};
use crate::engine::{AnalysisCore, CoreV, core_of, core_wf, compute_analysis};
use crate::grouping::{Grouping, GroupingEntry, GroupingV, gviews, resolve, resolve_spec,
    grouping_wf, lemma_resolve_wf};

verus! {

/// Structural equality of canonical topologies, at the level of their views:
/// this is the equality under which the cache memoizes.
pub fn topo_eq(a: &CanonicalTopology, b: &CanonicalTopology) -> (r: bool)
    ensures
        r == (a@ == b@),
{
    proof {
        lemma_cviews_seq(a.qsets@);
        lemma_cviews_seq(b.qsets@);
    }
    proof {
        assert(str_views(a.pks).len() == a.pks@.len());
        assert(str_views(b.pks).len() == b.pks@.len());
    }
    if a.pks.len() != b.pks.len() || a.qsets.len() != b.qsets.len() {
        return false;
    }
    let mut i: usize = 0;
    while i < a.pks.len()
        invariant
            0 <= i <= a.pks@.len() == b.pks@.len(),
            forall|t: int| 0 <= t < i ==> str_views(a.pks)[t] == str_views(b.pks)[t],
        decreases a.pks@.len() - i,
    {
        if !a.pks[i].eq(&b.pks[i]) {
            assert(str_views(a.pks)[i as int] != str_views(b.pks)[i as int]);
            return false;
        }
        i += 1;
    }
    let mut j: usize = 0;
    while j < a.qsets.len()
        invariant
            0 <= j <= a.qsets@.len() == b.qsets@.len(),
            forall|t: int| 0 <= t < j ==> cviews_seq(a.qsets@)[t] == cviews_seq(b.qsets@)[t],
        decreases a.qsets@.len() - j,
    {
        proof {
            lemma_cviews_seq(a.qsets@);
            lemma_cviews_seq(b.qsets@);
        }
        if !qeq_exec(&a.qsets[j], &b.qsets[j]) {
            assert(cviews_seq(a.qsets@)[j as int] != cviews_seq(b.qsets@)[j as int]);
            return false;
        }
        j += 1;
    }
    proof {
        assert(str_views(a.pks) =~= str_views(b.pks));
        assert(cviews_seq(a.qsets@) =~= cviews_seq(b.qsets@));
        assert(a@ =~= b@);
    }
    true
}

/// A structural copy of a canonical topology with the same view.
fn copy_topo(t: &CanonicalTopology) -> (r: CanonicalTopology)
    ensures
        r@ == t@,
{
    let mut pks: Vec<String> = Vec::new();
    let mut i: usize = 0;
    while i < t.pks.len()
        invariant
            0 <= i <= t.pks@.len(),
            str_views(pks) =~= str_views(t.pks).subrange(0, i as int),
        decreases t.pks@.len() - i,
    {
        let pc = t.pks[i].clone();
        assert(pc@ == str_views(t.pks)[i as int]);
        assert(str_views(pks).len() == pks@.len());
        let ghost prev = pks@;
        pks.push(pc);
        proof {
            assert forall|u: int| 0 <= u < str_views(pks).len() implies str_views(pks)[u]
                == str_views(t.pks).subrange(0, i + 1)[u] by {
                if u < prev.len() {
                    assert(pks@[u] == prev[u]);
                }
            }
        }
        assert(str_views(pks) =~= str_views(t.pks).subrange(0, i + 1));
        i += 1;
    }
    assert(str_views(pks) =~= str_views(t.pks));
    let mut qsets: Vec<crate::topology::CQuorumSet> = Vec::new();
    let mut j: usize = 0;
    while j < t.qsets.len()
        invariant
            0 <= j <= t.qsets@.len(),
            cviews_seq(qsets@) =~= cviews_seq(t.qsets@).subrange(0, j as int),
        decreases t.qsets@.len() - j,
    {
        let ghost prev = qsets@;
        let c = crate::topology::copy_qset(&t.qsets[j]);
        qsets.push(c);
        proof {
            lemma_cviews_seq(prev.push(c));
            lemma_cviews_seq(prev);
            lemma_cviews_seq(t.qsets@);
            assert(cviews_seq(qsets@) =~= cviews_seq(t.qsets@).subrange(0, j + 1));
        }
        j += 1;
    }
    proof {
        lemma_cviews_seq(qsets@);
        lemma_cviews_seq(t.qsets@);
        assert(cviews_seq(qsets@) =~= cviews_seq(t.qsets@));
    }
    let r = CanonicalTopology { pks, qsets };
    assert(r@ =~= t@);
    r
}

/// A structural copy of an analysis result with the same view.
fn copy_core(c: &AnalysisCore) -> (r: AnalysisCore)
    ensures
        r@ == c@,
{
    let r = AnalysisCore {
        blocking: c.blocking.clone_family(),
        splitting: c.splitting.clone_family(),
        top_tier: copy_member(&c.top_tier),
        has_quorum_intersection: c.has_quorum_intersection,
    };
    assert(r@ =~= c@);
    r
}

/// The analyzer instance: the cache from canonical topologies to analysis
/// results, unbounded over the instance's lifetime.
pub struct FbasAnalyzer {
    keys: Vec<CanonicalTopology>,
    vals: Vec<AnalysisCore>,
}

pub open spec fn topo_views(keys: Seq<CanonicalTopology>) -> Seq<TopoV> {
    Seq::new(keys.len(), |i: int| keys[i]@)
}

impl FbasAnalyzer {
    /// The cache invariant: distinct well-formed keys, each bound to the
    /// analysis of exactly that topology.
    pub closed spec fn wf(self) -> bool {
        &&& self.keys@.len() == self.vals@.len()
        &&& forall|i: int|
            0 <= i < self.keys@.len() ==> topo_wf(#[trigger] topo_views(self.keys@)[i])
        &&& forall|i: int|
            0 <= i < self.keys@.len() ==> (#[trigger] self.vals@[i])@ == core_of(
                topo_views(self.keys@)[i],
            ) && core_wf(self.vals@[i]@, topo_views(self.keys@)[i].pks.len() as int)
        &&& forall|i: int, j: int|
            0 <= i < j < self.keys@.len() ==> topo_views(self.keys@)[i] != topo_views(
                self.keys@,
            )[j]
    }

    /// The topology has an entry in the cache.
    pub closed spec fn cached(self, t: TopoV) -> bool {
        exists|i: int| 0 <= i < self.keys@.len() && #[trigger] topo_views(self.keys@)[i] == t
    }

    /// A fresh analyzer with an empty cache.
    pub fn new() -> (r: FbasAnalyzer)
        ensures
            r.wf(),
            forall|t: TopoV| !r.cached(t),
    {
        FbasAnalyzer { keys: Vec::new(), vals: Vec::new() }
    }

    /// Returns the analysis of `t`, invoking the engine only if no topology
    /// equal to `t` has been analyzed before, and records the answer. The
    /// second component reports whether the answer came from the cache.
    pub fn get_or_compute(&mut self, t: &CanonicalTopology) -> (r: (AnalysisCore, bool))
        requires
            old(self).wf(),
            topo_wf(t@),
        ensures
            final(self).wf(),
            r.0@ == core_of(t@),
            core_wf(r.0@, t@.pks.len() as int),
            r.1 == old(self).cached(t@),
            final(self).cached(t@),
            forall|x: TopoV|
                final(self).cached(x) == (old(self).cached(x) || x == t@),
    {
        let n = self.keys.len();
        let mut i: usize = 0;
        while i < n
            invariant
                0 <= i <= n == self.keys@.len(),
                self == old(self),
                old(self).wf(),
                topo_wf(t@),
                forall|k: int| 0 <= k < i ==> #[trigger] topo_views(self.keys@)[k] != t@,
            decreases n - i,
        {
            if topo_eq(&self.keys[i], t) {
                assert(topo_views(self.keys@)[i as int] == t@);
                assert(old(self).cached(t@));
                let c = copy_core(&self.vals[i]);
                assert(c@ == core_of(t@));
                return (c, true);
            }
            assert(topo_views(self.keys@)[i as int] != t@);
            i += 1;
        }
        assert(!old(self).cached(t@));
        let core = compute_analysis(t);
        let key = copy_topo(t);
        let stored = copy_core(&core);
        let ghost old_keys = self.keys@;
        let ghost old_vals = self.vals@;
        self.keys.push(key);
        self.vals.push(stored);
        proof {
            assert forall|k: int| 0 <= k < self.keys@.len() implies #[trigger] topo_views(
                self.keys@,
            )[k] == if k < old_keys.len() {
                topo_views(old_keys)[k]
            } else {
                t@
            } by {
                if k < old_keys.len() {
                    assert(self.keys@[k] == old_keys[k]);
                }
            }
            assert(final(self).wf());
            assert(topo_views(self.keys@)[old_keys.len() as int] == t@);
            assert(final(self).cached(t@));
            assert forall|x: TopoV| final(self).cached(x) == (old(self).cached(x) || x
                == t@) by {
                if old(self).cached(x) {
                    let k = choose|k: int|
                        0 <= k < old_keys.len() && #[trigger] topo_views(old_keys)[k] == x;
                    assert(topo_views(self.keys@)[k] == x);
                }
                if final(self).cached(x) {
                    let k = choose|k: int|
                        0 <= k < self.keys@.len() && #[trigger] topo_views(self.keys@)[k] == x;
                    if k < old_keys.len() {
                        assert(topo_views(old_keys)[k] == x);
                    }
                }
            }
        }
        (core, false)
    }
}

// ---------------------------------------------------------------------------
// Exclusion sets and display translation.
// ---------------------------------------------------------------------------

/// The identifiers of the excluded public keys; unknown keys are ignored.
pub open spec fn excl_ids(pks: Seq<Seq<char>>, faulty: Seq<Seq<char>>) -> Set<usize> {
    faulty.to_set().intersect(pks.to_set()).map(pk_id_fn(pks))
}

/// Translates excluded public keys to identifiers, silently ignoring keys the
/// topology does not define.
fn excl_ids_exec(pks: &Vec<String>, faulty: &Vec<String>) -> (e: Vec<usize>)
    requires
        crate::topology::pks_sorted(str_views(*pks)),
    ensures
        e@.to_set() == excl_ids(str_views(*pks), str_views(*faulty)),
{
    let ghost pkv = str_views(*pks);
    let ghost fv = str_views(*faulty);
    let mut e: Vec<usize> = Vec::new();
    let mut i: usize = 0;
    while i < faulty.len()
        invariant
            0 <= i <= faulty@.len(),
            pkv == str_views(*pks),
            fv == str_views(*faulty),
            crate::topology::pks_sorted(pkv),
            e@.to_set() =~= excl_ids(pkv, fv.subrange(0, i as int)),
        decreases faulty@.len() - i,
    {
        let ghost old_e = e@;
        let known = contains_pk(pks, &faulty[i]);
        if known {
            let id = pk_index(pks, &faulty[i]);
            e.push(id);
        }
        proof {
            let pre = fv.subrange(0, i as int);
            let cur = fv.subrange(0, i + 1);
            assert(cur =~= pre.push(fv[i as int]));
            assert forall|y: usize| excl_ids(pkv, cur).contains(y) implies e@.to_set().contains(
                y,
            ) by {
                let sx = choose|sx: Seq<char>|
                    cur.to_set().contains(sx) && pkv.to_set().contains(sx) && pk_id_fn(pkv)(sx)
                        == y;
                let k = choose|k: int| 0 <= k < cur.len() && cur[k] == sx;
                if k < i {
                    assert(pre[k] == sx);
                    assert(pre.to_set().contains(sx));
                    assert(pre.to_set().intersect(pkv.to_set()).contains(sx));
                    assert(excl_ids(pkv, pre).contains(y));
                    assert(old_e.to_set().contains(y));
                    if known {
                        assert(e@ == old_e.push(pk_id(pkv, fv[i as int])));
                        let u = choose|u: int| 0 <= u < old_e.len() && old_e[u] == y;
                        assert(e@[u] == y);
                    }
                } else {
                    assert(sx == fv[i as int]);
                    assert(pkv.to_set().contains(fv[i as int]));
                    assert(known);
                    assert(y == pk_id_fn(pkv)(sx));
                    assert(e@[e@.len() - 1] == pk_id(pkv, fv[i as int]));
                    assert(e@.to_set().contains(e@[e@.len() - 1]));
                }
            }
            assert forall|y: usize| e@.to_set().contains(y) implies excl_ids(pkv, cur).contains(
                y,
            ) by {
                let u = choose|u: int| 0 <= u < e@.len() && e@[u] == y;
                if u < old_e.len() {
                    assert(old_e[u] == y);
                    assert(old_e.to_set().contains(y));
                    assert(excl_ids(pkv, pre).contains(y));
                    let sx = choose|sx: Seq<char>|
                        pre.to_set().intersect(pkv.to_set()).contains(sx) && pk_id_fn(pkv)(sx)
                            == y;
                    let k = choose|k: int| 0 <= k < pre.len() && pre[k] == sx;
                    assert(cur[k] == sx);
                    assert(cur.to_set().contains(sx));
                    assert(cur.to_set().intersect(pkv.to_set()).contains(sx));
                } else {
                    assert(e@ == old_e.push(pk_id(pkv, fv[i as int])));
                    assert(known && y == pk_id(pkv, fv[i as int]));
                    assert(cur[i as int] == fv[i as int]);
                    assert(cur.to_set().contains(fv[i as int]));
                    assert(cur.to_set().intersect(pkv.to_set()).contains(fv[i as int]));
                    assert(y == pk_id_fn(pkv)(fv[i as int]));
                }
            }
            assert(e@.to_set() =~= excl_ids(pkv, cur));
        }
        i += 1;
    }
    proof {
        assert(fv.subrange(0, fv.len() as int) =~= fv);
    }
    e
}

/// One member translated to display strings.
pub open spec fn disp_member(m: Seq<usize>, names: Seq<Seq<char>>) -> Seq<Seq<char>> {
    m.map_values(|x: usize| names[x as int])
}

/// A whole family translated to display strings.
pub open spec fn disp_family(f: Seq<Seq<usize>>, names: Seq<Seq<char>>) -> Seq<Seq<Seq<char>>> {
    f.map_values(|m: Seq<usize>| disp_member(m, names))
}

pub open spec fn vv_views(s: Seq<Vec<String>>) -> Seq<Seq<Seq<char>>> {
    Seq::new(s.len(), |i: int| str_views(s[i]))
}

fn display_member(m: &Vec<usize>, names: &Vec<String>) -> (r: Vec<String>)
    requires
        forall|t: int| 0 <= t < m@.len() ==> (#[trigger] m@[t]) < names@.len(),
    ensures
        str_views(r) == disp_member(m@, str_views(*names)),
{
    let mut r: Vec<String> = Vec::new();
    let mut i: usize = 0;
    while i < m.len()
        invariant
            0 <= i <= m@.len(),
            forall|t: int| 0 <= t < m@.len() ==> (#[trigger] m@[t]) < names@.len(),
            str_views(r) =~= disp_member(m@, str_views(*names)).subrange(0, i as int),
        decreases m@.len() - i,
    {
        let ghost prev = r@;
        assert(str_views(r).len() == r@.len());
        let nm = names[m[i]].clone();
        assert(nm@ == str_views(*names)[m@[i as int] as int]);
        r.push(nm);
        proof {
            assert forall|u: int| 0 <= u < str_views(r).len() implies str_views(r)[u]
                == disp_member(m@, str_views(*names)).subrange(0, i + 1)[u] by {
                if u < prev.len() {
                    assert(r@[u] == prev[u]);
                } else {
                    assert(str_views(r)[u] == nm@);
                    assert(disp_member(m@, str_views(*names))[u] == str_views(*names)[m@[u] as int]);
                }
            }
            assert(str_views(r) =~= disp_member(m@, str_views(*names)).subrange(0, i + 1));
        }
        i += 1;
    }
    proof {
        assert(disp_member(m@, str_views(*names)).subrange(
            0,
            disp_member(m@, str_views(*names)).len() as int,
        ) =~= disp_member(m@, str_views(*names)));
    }
    r
}

fn display_family(f: &SetFamily, names: &Vec<String>) -> (r: Vec<Vec<String>>)
    requires
        family_bounded(f@, names@.len() as int),
    ensures
        vv_views(r@) == disp_family(f@, str_views(*names)),
{
    let mut r: Vec<Vec<String>> = Vec::new();
    let mut i: usize = 0;
    while i < f.sets.len()
        invariant
            0 <= i <= f.sets@.len(),
            family_bounded(f@, names@.len() as int),
            vv_views(r@) =~= disp_family(f@, str_views(*names)).subrange(0, i as int),
        decreases f.sets@.len() - i,
    {
        assert forall|t: int| 0 <= t < f.sets@[i as int]@.len() implies (
        #[trigger] f.sets@[i as int]@[t]) < names@.len() by {
            assert(f@[i as int] == f.sets@[i as int]@);
            assert(family_view(f.sets@)[i as int][t] < names@.len());
        }
        let m = display_member(&f.sets[i], names);
        let ghost prev = r@;
        assert(vv_views(r@).len() == r@.len());
        let ghost mview = str_views(m);
        r.push(m);
        proof {
            assert forall|u: int| 0 <= u < vv_views(r@).len() implies vv_views(r@)[u]
                == disp_family(f@, str_views(*names)).subrange(0, i + 1)[u] by {
                if u < prev.len() {
                    assert(r@[u] == prev[u]);
                    assert(vv_views(r@)[u] == vv_views(prev)[u]);
                } else {
                    assert(vv_views(r@)[u] == mview);
                    assert(f@[i as int] == f.sets@[i as int]@);
                    assert(mview == disp_member(f@[i as int], str_views(*names)));
                    assert(disp_family(f@, str_views(*names))[u] == disp_member(
                        f@[u],
                        str_views(*names),
                    ));
                }
            }
            assert(vv_views(r@) =~= disp_family(f@, str_views(*names)).subrange(0, i + 1));
        }
        i += 1;
    }
    proof {
        assert(disp_family(f@, str_views(*names)).subrange(
            0,
            disp_family(f@, str_views(*names)).len() as int,
        ) =~= disp_family(f@, str_views(*names)));
    }
    r
}

// ---------------------------------------------------------------------------
// The full report.
// ---------------------------------------------------------------------------

/// Bounds survive exclusion filtering.
proof fn lemma_filter_exclude_bounded(f: Seq<Seq<usize>>, e: Set<usize>, n: int)
    requires
        family_bounded(f, n),
    ensures
        family_bounded(filter_exclude_spec(f, e), n),
{
    broadcast use vstd::seq_lib::group_filter_ensures;

    let g = crate::set_family::family_without(f, e);
    assert forall|i: int, j: int| 0 <= i < g.len() && 0 <= j < g[i].len() implies (
    #[trigger] g[i][j]) < n by {
        assert(g[i] == member_without(f[i], e));
        assert(g[i].contains(g[i][j]));
        f[i].lemma_filter_contains_rev(crate::set_family::excl_pred(e), g[i][j]);
        let k = choose|k: int| 0 <= k < f[i].len() && f[i][k] == g[i][j];
    }
    lemma_upto_props(g, g.len() as int);
    let m = filter_exclude_spec(f, e);
    assert forall|i: int, j: int| 0 <= i < m.len() && 0 <= j < m[i].len() implies (
    #[trigger] m[i][j]) < n by {
        let k = choose|k: int| 0 <= k < g.len() && min_keep(g, k) && g[k] == m[i];
        assert(g[k][j] < n);
    }
}

/// Relabeled families stay inside the display table.
proof fn lemma_map_elements_bounded(f: Seq<Seq<usize>>, assign: Seq<usize>, d: int)
    requires
        family_bounded(f, assign.len() as int),
        forall|i: int| 0 <= i < assign.len() ==> (#[trigger] assign[i]) < d,
    ensures
        family_bounded(map_elements_spec(f, assign), d),
{
    let g = crate::set_family::family_mapped(f, assign);
    assert forall|i: int, j: int| 0 <= i < g.len() && 0 <= j < g[i].len() implies (
    #[trigger] g[i][j]) < d by {
        assert(g[i] == member_canon(map_member_raw(f[i], assign)));
        lemma_member_canon(map_member_raw(f[i], assign));
        assert(member_set(g[i]).contains(g[i][j]));
        assert(member_set(map_member_raw(f[i], assign)).contains(g[i][j]));
        let k = choose|k: int|
            0 <= k < map_member_raw(f[i], assign).len() && map_member_raw(f[i], assign)[k]
                == g[i][j];
        assert(map_member_raw(f[i], assign)[k] == assign[f[i][k] as int]);
    }
    lemma_upto_props(g, g.len() as int);
    let m = map_elements_spec(f, assign);
    assert forall|i: int, j: int| 0 <= i < m.len() && 0 <= j < m[i].len() implies (
    #[trigger] m[i][j]) < d by {
        let k = choose|k: int| 0 <= k < g.len() && min_keep(g, k) && g[k] == m[i];
        assert(g[k][j] < d);
    }
}

/// One member relabeled and brought to canonical form (for the top tier).
fn group_member(m: &Vec<usize>, assign: &Vec<usize>) -> (r: Vec<usize>)
    requires
        forall|t: int| 0 <= t < m@.len() ==> (#[trigger] m@[t]) < assign@.len(),
    ensures
        r@ == member_canon(map_member_raw(m@, assign@)),
        member_set(r@) =~= member_set(map_member_raw(m@, assign@)),
        member_wf(r@),
{
    let mut raw: Vec<usize> = Vec::new();
    let mut i: usize = 0;
    while i < m.len()
        invariant
            0 <= i <= m@.len(),
            forall|t: int| 0 <= t < m@.len() ==> (#[trigger] m@[t]) < assign@.len(),
            raw@ =~= map_member_raw(m@, assign@).subrange(0, i as int),
        decreases m@.len() - i,
    {
        raw.push(assign[m[i]]);
        assert(raw@ =~= map_member_raw(m@, assign@).subrange(0, i + 1));
        i += 1;
    }
    assert(raw@ =~= map_member_raw(m@, assign@));
    crate::set_family::member_canon_exec(&raw)
}

/// One member with the excluded identifiers removed.
fn member_without_exec(m: &Vec<usize>, e: &Vec<usize>) -> (r: Vec<usize>)
    ensures
        r@ == member_without(m@, e@.to_set()),
{
    broadcast use vstd::seq_lib::group_filter_ensures;

    let ghost eset = e@.to_set();
    let ghost pred = crate::set_family::excl_pred(eset);
    let mut keep: Vec<usize> = Vec::new();
    let mut i: usize = 0;
    while i < m.len()
        invariant
            0 <= i <= m@.len(),
            eset == e@.to_set(),
            pred == crate::set_family::excl_pred(eset),
            keep@ =~= m@.subrange(0, i as int).filter(pred),
        decreases m@.len() - i,
    {
        let x = m[i];
        assert(m@.subrange(0, i + 1) =~= m@.subrange(0, i as int).push(x));
        if !crate::set_family::member_contains(e, x) {
            assert(pred(x));
            keep.push(x);
        } else {
            assert(!pred(x));
        }
        proof {
            m@.subrange(0, i as int).lemma_filter_push(x, pred);
        }
        i += 1;
    }
    assert(m@.subrange(0, m@.len() as int) =~= m@);
    assert(keep@ =~= member_without(m@, eset));
    keep
}

/// The full report of one request, with every identifier and label translated
/// to display strings.
pub struct AnalysisResultFull {
    pub minimal_blocking_sets: Vec<Vec<String>>,
    pub org_minimal_blocking_sets: Vec<Vec<String>>,
    pub isp_minimal_blocking_sets: Vec<Vec<String>>,
    pub country_minimal_blocking_sets: Vec<Vec<String>>,
    pub minimal_blocking_sets_faulty_nodes_filtered: Vec<Vec<String>>,
    pub org_minimal_blocking_sets_faulty_nodes_filtered: Vec<Vec<String>>,
    pub isp_minimal_blocking_sets_faulty_nodes_filtered: Vec<Vec<String>>,
    pub country_minimal_blocking_sets_faulty_nodes_filtered: Vec<Vec<String>>,
    pub minimal_splitting_sets: Vec<Vec<String>>,
    pub org_minimal_splitting_sets: Vec<Vec<String>>,
    pub isp_minimal_splitting_sets: Vec<Vec<String>>,
    pub country_minimal_splitting_sets: Vec<Vec<String>>,
    pub minimal_splitting_sets_faulty_nodes_filtered: Vec<Vec<String>>,
    pub org_minimal_splitting_sets_faulty_nodes_filtered: Vec<Vec<String>>,
    pub isp_minimal_splitting_sets_faulty_nodes_filtered: Vec<Vec<String>>,
    pub country_minimal_splitting_sets_faulty_nodes_filtered: Vec<Vec<String>>,
    pub top_tier: Vec<String>,
    pub org_top_tier: Vec<String>,
    pub isp_top_tier: Vec<String>,
    pub country_top_tier: Vec<String>,
    pub top_tier_faulty_nodes_filtered: Vec<String>,
    pub has_quorum_intersection: bool,
    pub quorum_intersection_holds_after_exclusion: bool,
    pub cache_hit: bool,
}

/// Mathematical model of a report.
#[verifier::ext_equal]
pub ghost struct ReportV {
    pub minimal_blocking_sets: Seq<Seq<Seq<char>>>,
    pub org_minimal_blocking_sets: Seq<Seq<Seq<char>>>,
    pub isp_minimal_blocking_sets: Seq<Seq<Seq<char>>>,
    pub country_minimal_blocking_sets: Seq<Seq<Seq<char>>>,
    pub minimal_blocking_sets_faulty_nodes_filtered: Seq<Seq<Seq<char>>>,
    pub org_minimal_blocking_sets_faulty_nodes_filtered: Seq<Seq<Seq<char>>>,
    pub isp_minimal_blocking_sets_faulty_nodes_filtered: Seq<Seq<Seq<char>>>,
    pub country_minimal_blocking_sets_faulty_nodes_filtered: Seq<Seq<Seq<char>>>,
    pub minimal_splitting_sets: Seq<Seq<Seq<char>>>,
    pub org_minimal_splitting_sets: Seq<Seq<Seq<char>>>,
    pub isp_minimal_splitting_sets: Seq<Seq<Seq<char>>>,
    pub country_minimal_splitting_sets: Seq<Seq<Seq<char>>>,
    pub minimal_splitting_sets_faulty_nodes_filtered: Seq<Seq<Seq<char>>>,
    pub org_minimal_splitting_sets_faulty_nodes_filtered: Seq<Seq<Seq<char>>>,
    pub isp_minimal_splitting_sets_faulty_nodes_filtered: Seq<Seq<Seq<char>>>,
    pub country_minimal_splitting_sets_faulty_nodes_filtered: Seq<Seq<Seq<char>>>,
    pub top_tier: Seq<Seq<char>>,
    pub org_top_tier: Seq<Seq<char>>,
    pub isp_top_tier: Seq<Seq<char>>,
    pub country_top_tier: Seq<Seq<char>>,
    pub top_tier_faulty_nodes_filtered: Seq<Seq<char>>,
    pub has_quorum_intersection: bool,
    pub quorum_intersection_holds_after_exclusion: bool,
    pub cache_hit: bool,
}

impl View for AnalysisResultFull {
    type V = ReportV;

    open spec fn view(&self) -> ReportV {
        ReportV {
            minimal_blocking_sets: vv_views(self.minimal_blocking_sets@),
            org_minimal_blocking_sets: vv_views(self.org_minimal_blocking_sets@),
            isp_minimal_blocking_sets: vv_views(self.isp_minimal_blocking_sets@),
            country_minimal_blocking_sets: vv_views(self.country_minimal_blocking_sets@),
            minimal_blocking_sets_faulty_nodes_filtered: vv_views(
                self.minimal_blocking_sets_faulty_nodes_filtered@,
            ),
            org_minimal_blocking_sets_faulty_nodes_filtered: vv_views(
                self.org_minimal_blocking_sets_faulty_nodes_filtered@,
            ),
            isp_minimal_blocking_sets_faulty_nodes_filtered: vv_views(
                self.isp_minimal_blocking_sets_faulty_nodes_filtered@,
            ),
            country_minimal_blocking_sets_faulty_nodes_filtered: vv_views(
                self.country_minimal_blocking_sets_faulty_nodes_filtered@,
            ),
            minimal_splitting_sets: vv_views(self.minimal_splitting_sets@),
            org_minimal_splitting_sets: vv_views(self.org_minimal_splitting_sets@),
            isp_minimal_splitting_sets: vv_views(self.isp_minimal_splitting_sets@),
            country_minimal_splitting_sets: vv_views(self.country_minimal_splitting_sets@),
            minimal_splitting_sets_faulty_nodes_filtered: vv_views(
                self.minimal_splitting_sets_faulty_nodes_filtered@,
            ),
            org_minimal_splitting_sets_faulty_nodes_filtered: vv_views(
                self.org_minimal_splitting_sets_faulty_nodes_filtered@,
            ),
            isp_minimal_splitting_sets_faulty_nodes_filtered: vv_views(
                self.isp_minimal_splitting_sets_faulty_nodes_filtered@,
            ),
            country_minimal_splitting_sets_faulty_nodes_filtered: vv_views(
                self.country_minimal_splitting_sets_faulty_nodes_filtered@,
            ),
            top_tier: str_views(self.top_tier),
            org_top_tier: str_views(self.org_top_tier),
            isp_top_tier: str_views(self.isp_top_tier),
            country_top_tier: str_views(self.country_top_tier),
            top_tier_faulty_nodes_filtered: str_views(self.top_tier_faulty_nodes_filtered),
            has_quorum_intersection: self.has_quorum_intersection,
            quorum_intersection_holds_after_exclusion:
                self.quorum_intersection_holds_after_exclusion,
            cache_hit: self.cache_hit,
        }
    }
}

/// One grouped view of a family, translated by the grouping display table.
pub open spec fn grouped_view(f: Seq<Seq<usize>>, g: GroupingV) -> Seq<Seq<Seq<char>>> {
    disp_family(map_elements_spec(f, g.assign), g.display)
}

/// One grouped view of the top tier.
pub open spec fn grouped_tier(m: Seq<usize>, g: GroupingV) -> Seq<Seq<char>> {
    disp_member(member_canon(map_member_raw(m, g.assign)), g.display)
}

/// The report that spec'd inputs produce: canonicalize, analyze (through the
/// cache), then group, filter and translate. `cache_hit` is the one field
/// that depends on the analyzer's history rather than on the inputs.
pub open spec fn report_of(
    rv: Seq<crate::topology::RawNodeV>,
    faulty: Seq<Seq<char>>,
    orgs: Seq<crate::grouping::GroupingEntryV>,
    isps: Seq<crate::grouping::GroupingEntryV>,
    countries: Seq<crate::grouping::GroupingEntryV>,
    cache_hit: bool,
) -> ReportV {
    let t = canon_topo(rv);
    let core = core_of(t);
    let excl = excl_ids(t.pks, faulty);
    let org = resolve_spec(t.pks, orgs);
    let isp = resolve_spec(t.pks, isps);
    let country = resolve_spec(t.pks, countries);
    let fb = filter_exclude_spec(core.blocking, excl);
    let fs = filter_exclude_spec(core.splitting, excl);
    ReportV {
        minimal_blocking_sets: disp_family(core.blocking, t.pks),
        org_minimal_blocking_sets: grouped_view(core.blocking, org),
        isp_minimal_blocking_sets: grouped_view(core.blocking, isp),
        country_minimal_blocking_sets: grouped_view(core.blocking, country),
        minimal_blocking_sets_faulty_nodes_filtered: disp_family(fb, t.pks),
        org_minimal_blocking_sets_faulty_nodes_filtered: grouped_view(fb, org),
        isp_minimal_blocking_sets_faulty_nodes_filtered: grouped_view(fb, isp),
        country_minimal_blocking_sets_faulty_nodes_filtered: grouped_view(fb, country),
        minimal_splitting_sets: disp_family(core.splitting, t.pks),
        org_minimal_splitting_sets: grouped_view(core.splitting, org),
        isp_minimal_splitting_sets: grouped_view(core.splitting, isp),
        country_minimal_splitting_sets: grouped_view(core.splitting, country),
        minimal_splitting_sets_faulty_nodes_filtered: disp_family(fs, t.pks),
        org_minimal_splitting_sets_faulty_nodes_filtered: grouped_view(fs, org),
        isp_minimal_splitting_sets_faulty_nodes_filtered: grouped_view(fs, isp),
        country_minimal_splitting_sets_faulty_nodes_filtered: grouped_view(fs, country),
        top_tier: disp_member(core.top_tier, t.pks),
        org_top_tier: grouped_tier(core.top_tier, org),
        isp_top_tier: grouped_tier(core.top_tier, isp),
        country_top_tier: grouped_tier(core.top_tier, country),
        top_tier_faulty_nodes_filtered: disp_member(member_without(core.top_tier, excl), t.pks),
        has_quorum_intersection: core.has_quorum_intersection,
        quorum_intersection_holds_after_exclusion: !contains_empty_spec(fs),
        cache_hit: cache_hit,
    }
}

/// The post-exclusion safety flag is the negation of the empty-set signal:
/// quorum intersection still holds after excluding the faulty nodes exactly
/// when the filtered splitting-set family does not collapse to `{∅}`.
pub proof fn lemma_empty_set_absorption(
    rv: Seq<crate::topology::RawNodeV>,
    faulty: Seq<Seq<char>>,
    orgs: Seq<crate::grouping::GroupingEntryV>,
    isps: Seq<crate::grouping::GroupingEntryV>,
    countries: Seq<crate::grouping::GroupingEntryV>,
    cache_hit: bool,
)
    ensures
        report_of(rv, faulty, orgs, isps, countries, cache_hit)
            .quorum_intersection_holds_after_exclusion == false <==> contains_empty_spec(
            filter_exclude_spec(
                core_of(canon_topo(rv)).splitting,
                excl_ids(canon_topo(rv).pks, faulty),
            ),
        ),
{
}

impl FbasAnalyzer {
    /// The full request pipeline: canonicalize the topology, analyze it
    /// through the cache, derive the grouped and exclusion-filtered views,
    /// and translate everything to display strings. Malformed descriptions
    /// are rejected with the same classification as `canonicalize`; unknown
    /// public keys in the exclusion list are silently ignored.
    pub fn analyze(
        &mut self,
        nodes: &Vec<RawNode>,
        faulty_nodes: &Vec<String>,
        organizations: &Vec<GroupingEntry>,
        isps: &Vec<GroupingEntry>,
        countries: &Vec<GroupingEntry>,
    ) -> (res: Result<AnalysisResultFull, MalformedInputError>)
        requires
            old(self).wf(),
        ensures
            final(self).wf(),
            res is Err <==> (has_dup_pk(raw_views(nodes@)) || topo_has_nonpos(raw_views(nodes@))
                || topo_has_unknown(raw_views(nodes@)) || topo_too_deep(
                canon_topo(raw_views(nodes@)),
            )),
            res == Result::<AnalysisResultFull, MalformedInputError>::Err(
                MalformedInputError::DuplicateNodeDefinition,
            ) <==> has_dup_pk(raw_views(nodes@)),
            res == Result::<AnalysisResultFull, MalformedInputError>::Err(
                MalformedInputError::NonPositiveThreshold,
            ) <==> (!has_dup_pk(raw_views(nodes@)) && topo_has_nonpos(raw_views(nodes@))),
            res == Result::<AnalysisResultFull, MalformedInputError>::Err(
                MalformedInputError::UnknownValidator,
            ) <==> (!has_dup_pk(raw_views(nodes@)) && !topo_has_nonpos(raw_views(nodes@))
                && topo_has_unknown(raw_views(nodes@))),
            res == Result::<AnalysisResultFull, MalformedInputError>::Err(
                MalformedInputError::NestingTooDeep,
            ) <==> (!has_dup_pk(raw_views(nodes@)) && !topo_has_nonpos(raw_views(nodes@))
                && !topo_has_unknown(raw_views(nodes@)) && topo_too_deep(
                canon_topo(raw_views(nodes@)),
            )),
            // A failed request leaves the cache exactly as it was.
            res is Err ==> forall|x: TopoV|
                final(self).cached(x) == old(self).cached(x),
            res is Ok ==> (res->Ok_0)@ == report_of(
                raw_views(nodes@),
                str_views(*faulty_nodes),
                gviews(organizations@),
                gviews(isps@),
                gviews(countries@),
                old(self).cached(canon_topo(raw_views(nodes@))),
            ),
            // A successful request adds at most the entry for this topology.
            res is Ok ==> forall|x: TopoV|
                final(self).cached(x) == (old(self).cached(x) || x == canon_topo(
                    raw_views(nodes@),
                )),
    {
        let ghost rv = raw_views(nodes@);
        let t = match canonicalize(nodes) {
            Ok(t) => t,
            Err(e) => {
                return Err(e);
            },
        };
        assert(t@ == canon_topo(rv) && topo_wf(t@));
        let ghost n = t@.pks.len() as int;
        let (core, cache_hit) = self.get_or_compute(&t);
        assert(core@ == core_of(t@) && core_wf(core@, n));
        let org = resolve(&t.pks, organizations);
        let isp = resolve(&t.pks, isps);
        let country = resolve(&t.pks, countries);
        assert(org@ == resolve_spec(canon_topo(rv).pks, gviews(organizations@)));
        let excl = excl_ids_exec(&t.pks, faulty_nodes);
        let ghost eset = excl_ids(t@.pks, str_views(*faulty_nodes));
        assert(excl@.to_set() == eset);
        proof {
            assert(t.pks@.len() == str_views(t.pks).len());
            lemma_filter_exclude_bounded(core@.blocking, eset, n);
            lemma_filter_exclude_bounded(core@.splitting, eset, n);
            lemma_map_elements_bounded(core@.blocking, org@.assign, org@.display.len() as int);
            lemma_map_elements_bounded(core@.blocking, isp@.assign, isp@.display.len() as int);
            lemma_map_elements_bounded(
                core@.blocking,
                country@.assign,
                country@.display.len() as int,
            );
            lemma_map_elements_bounded(core@.splitting, org@.assign, org@.display.len() as int);
            lemma_map_elements_bounded(core@.splitting, isp@.assign, isp@.display.len() as int);
            lemma_map_elements_bounded(
                core@.splitting,
                country@.assign,
                country@.display.len() as int,
            );
        }
        let fb = core.blocking.filter_exclude(&excl);
        let fs = core.splitting.filter_exclude(&excl);
        assert(fb@ == filter_exclude_spec(core@.blocking, eset));
        assert(fs@ == filter_exclude_spec(core@.splitting, eset));
        proof {
            lemma_map_elements_bounded(fb@, org@.assign, org@.display.len() as int);
            lemma_map_elements_bounded(fb@, isp@.assign, isp@.display.len() as int);
            lemma_map_elements_bounded(fb@, country@.assign, country@.display.len() as int);
            lemma_map_elements_bounded(fs@, org@.assign, org@.display.len() as int);
            lemma_map_elements_bounded(fs@, isp@.assign, isp@.display.len() as int);
            lemma_map_elements_bounded(fs@, country@.assign, country@.display.len() as int);
        }
        let quorum_intersection_holds_after_exclusion = !fs.contains_empty_set();
        let minimal_blocking_sets = display_family(&core.blocking, &t.pks);
        let org_minimal_blocking_sets = display_family(
            &core.blocking.map_elements(&org.assign),
            &org.display,
        );
        let isp_minimal_blocking_sets = display_family(
            &core.blocking.map_elements(&isp.assign),
            &isp.display,
        );
        let country_minimal_blocking_sets = display_family(
            &core.blocking.map_elements(&country.assign),
            &country.display,
        );
        let minimal_blocking_sets_faulty_nodes_filtered = display_family(&fb, &t.pks);
        let org_minimal_blocking_sets_faulty_nodes_filtered = display_family(
            &fb.map_elements(&org.assign),
            &org.display,
        );
        let isp_minimal_blocking_sets_faulty_nodes_filtered = display_family(
            &fb.map_elements(&isp.assign),
            &isp.display,
        );
        let country_minimal_blocking_sets_faulty_nodes_filtered = display_family(
            &fb.map_elements(&country.assign),
            &country.display,
        );
        let minimal_splitting_sets = display_family(&core.splitting, &t.pks);
        let org_minimal_splitting_sets = display_family(
            &core.splitting.map_elements(&org.assign),
            &org.display,
        );
        let isp_minimal_splitting_sets = display_family(
            &core.splitting.map_elements(&isp.assign),
            &isp.display,
        );
        let country_minimal_splitting_sets = display_family(
            &core.splitting.map_elements(&country.assign),
            &country.display,
        );
        let minimal_splitting_sets_faulty_nodes_filtered = display_family(&fs, &t.pks);
        let org_minimal_splitting_sets_faulty_nodes_filtered = display_family(
            &fs.map_elements(&org.assign),
            &org.display,
        );
        let isp_minimal_splitting_sets_faulty_nodes_filtered = display_family(
            &fs.map_elements(&isp.assign),
            &isp.display,
        );
        let country_minimal_splitting_sets_faulty_nodes_filtered = display_family(
            &fs.map_elements(&country.assign),
            &country.display,
        );
        let top_tier = display_member(&core.top_tier, &t.pks);
        let org_tier_ids = group_member(&core.top_tier, &org.assign);
        let isp_tier_ids = group_member(&core.top_tier, &isp.assign);
        let country_tier_ids = group_member(&core.top_tier, &country.assign);
        proof {
            lemma_grouped_tier_bounded(core@.top_tier, org@);
            lemma_grouped_tier_bounded(core@.top_tier, isp@);
            lemma_grouped_tier_bounded(core@.top_tier, country@);
        }
        let org_top_tier = display_member(&org_tier_ids, &org.display);
        let isp_top_tier = display_member(&isp_tier_ids, &isp.display);
        let country_top_tier = display_member(&country_tier_ids, &country.display);
        let filtered_tier_ids = member_without_exec(&core.top_tier, &excl);
        proof {
            broadcast use vstd::seq_lib::group_filter_ensures;

            assert forall|u: int| 0 <= u < filtered_tier_ids@.len() implies (
            #[trigger] filtered_tier_ids@[u]) < n by {
                assert(filtered_tier_ids@.contains(filtered_tier_ids@[u]));
                core@.top_tier.lemma_filter_contains_rev(
                    crate::set_family::excl_pred(eset),
                    filtered_tier_ids@[u],
                );
                let k = choose|k: int|
                    0 <= k < core@.top_tier.len() && core@.top_tier[k] == filtered_tier_ids@[u];
            }
        }
        let top_tier_faulty_nodes_filtered = display_member(&filtered_tier_ids, &t.pks);
        let result = AnalysisResultFull {
            minimal_blocking_sets,
            org_minimal_blocking_sets,
            isp_minimal_blocking_sets,
            country_minimal_blocking_sets,
            minimal_blocking_sets_faulty_nodes_filtered,
            org_minimal_blocking_sets_faulty_nodes_filtered,
            isp_minimal_blocking_sets_faulty_nodes_filtered,
            country_minimal_blocking_sets_faulty_nodes_filtered,
            minimal_splitting_sets,
            org_minimal_splitting_sets,
            isp_minimal_splitting_sets,
            country_minimal_splitting_sets,
            minimal_splitting_sets_faulty_nodes_filtered,
            org_minimal_splitting_sets_faulty_nodes_filtered,
            isp_minimal_splitting_sets_faulty_nodes_filtered,
            country_minimal_splitting_sets_faulty_nodes_filtered,
            top_tier,
            org_top_tier,
            isp_top_tier,
            country_top_tier,
            top_tier_faulty_nodes_filtered,
            has_quorum_intersection: core.has_quorum_intersection,
            quorum_intersection_holds_after_exclusion,
            cache_hit,
        };
        proof {
            let expected = report_of(
                rv,
                str_views(*faulty_nodes),
                gviews(organizations@),
                gviews(isps@),
                gviews(countries@),
                cache_hit,
            );
            assert(result@ =~= expected);
        }
        Ok(result)
    }
}

/// Topology descriptions that differ only in ordering or repeated clauses
/// produce reports with identical fields (apart from the cache indicator,
/// which reflects the analyzer's history): together with the cache-hit
/// contract of `get_or_compute`, two calls with equivalent descriptions yield
/// a miss and then a hit with the same answer.
pub proof fn lemma_equivalent_descriptions_same_report(
    r1: Seq<crate::topology::RawNodeV>,
    r2: Seq<crate::topology::RawNodeV>,
    faulty: Seq<Seq<char>>,
    orgs: Seq<crate::grouping::GroupingEntryV>,
    isps: Seq<crate::grouping::GroupingEntryV>,
    countries: Seq<crate::grouping::GroupingEntryV>,
    hit1: bool,
    hit2: bool,
)
    requires
        crate::topology::raw_topo_equiv(r1, r2),
        !has_dup_pk(r1),
        !has_dup_pk(r2),
    ensures
        report_of(r1, faulty, orgs, isps, countries, hit1) == (ReportV {
            cache_hit: hit1,
            ..report_of(r2, faulty, orgs, isps, countries, hit2)
        }),
{
    crate::topology::lemma_canonicalization_invariance(r1, r2);
    assert(report_of(r1, faulty, orgs, isps, countries, hit1) =~= (ReportV {
        cache_hit: hit1,
        ..report_of(r2, faulty, orgs, isps, countries, hit2)
    }));
}

/// A grouped top tier stays inside the grouping's display table.
proof fn lemma_grouped_tier_bounded(m: Seq<usize>, g: GroupingV)
    requires
        forall|t: int| 0 <= t < m.len() ==> (#[trigger] m[t]) < g.assign.len(),
        grouping_wf(g, g.assign.len() as int),
    ensures
        forall|t: int|
            0 <= t < member_canon(map_member_raw(m, g.assign)).len() ==> (
            #[trigger] member_canon(map_member_raw(m, g.assign))[t]) < g.display.len(),
{
    let raw = map_member_raw(m, g.assign);
    lemma_member_canon(raw);
    assert forall|t: int| 0 <= t < member_canon(raw).len() implies (#[trigger] member_canon(
        raw,
    )[t]) < g.display.len() by {
        assert(member_set(member_canon(raw)).contains(member_canon(raw)[t]));
        assert(member_set(raw).contains(member_canon(raw)[t]));
        let k = choose|k: int| 0 <= k < raw.len() && raw[k] == member_canon(raw)[t];
        assert(raw[k] == g.assign[m[k] as int]);
    }
}

} // verus!
