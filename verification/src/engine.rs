//! The external quorum-analysis engine behind a verified boundary.
//!
//! A canonical topology is rendered as the engine's JSON exchange format —
//! nodes in canonical order, each named by its dense identifier, so the node
//! ids the engine reports are exactly this library's identifiers. The engine
//! itself (the `fbas_analyzer` crate) is an opaque pure function of that
//! rendering; its four outputs are given names here, and everything that is
//! computed from them is verified against those names. The raw output is
//! normalized into canonical, provably antichain set families by verified
//! code, so no property of the library rests on the engine being minimal.

use vstd::prelude::*;
use crate::set_family::{
    SetFamily, family_view, member_canon, member_wf, member_set, minimize_spec, family_bounded,
    is_antichain, member_canon_exec, lemma_member_canon, lemma_upto_props, from_kept, min_keep,
    lemma_minimize_antichain,
};
use crate::topology::{
    QsetV, TopoV, CanonicalTopology, cviews_seq, lemma_cviews_seq, qdepth, DEPTH_LIMIT,
};

verus! {

// ---------------------------------------------------------------------------
// Decimal rendering.
// ---------------------------------------------------------------------------

pub open spec fn digit_char(d: int) -> char {
    ((48 + d) as u8) as char
}

/// The decimal digits of `n`.
pub open spec fn dec_chars(n: int) -> Seq<char>
    decreases n,
{
    if n < 10 {
        seq![digit_char(n)]
    } else {
        dec_chars(n / 10) + seq![digit_char(n % 10)]
    }
}

/// Appends the decimal rendering of `n`.
fn push_dec(out: &mut Vec<char>, n: usize)
    ensures
        final(out)@ == old(out)@ + dec_chars(n as int),
    decreases n,
{
    if n >= 10 {
        push_dec(out, n / 10);
    }
    let d: u8 = 48 + (n % 10) as u8;
    out.push(d as char);
    proof {
        if n >= 10 {
            assert(final(out)@ =~= old(out)@ + dec_chars(n as int));
        } else {
            assert(dec_chars(n as int) == seq![digit_char(n as int)]);
            assert(final(out)@ =~= old(out)@ + dec_chars(n as int));
        }
    }
}

/// Appends every character of `s`.
fn push_str_chars(out: &mut Vec<char>, s: &str)
    ensures
        final(out)@ == old(out)@ + s@,
{
    let n = s.unicode_len();
    let mut i: usize = 0;
    while i < n
        invariant
            0 <= i <= n == s@.len(),
            out@ == old(out)@ + s@.subrange(0, i as int),
        decreases n - i,
    {
        out.push(s.get_char(i));
        assert(out@ =~= old(out)@ + s@.subrange(0, i + 1));
        i += 1;
    }
    assert(s@.subrange(0, s@.len() as int) =~= s@);
}

// ---------------------------------------------------------------------------
// The engine's JSON exchange format.
// ---------------------------------------------------------------------------

/// `"<id>"` entries of a validator list, from index `i` on.
pub open spec fn vals_json(vs: Seq<usize>, i: int) -> Seq<char>
    decreases vs.len() - i,
{
    if i < 0 || i >= vs.len() {
        Seq::empty()
    } else {
        (if i > 0 {
            ","@
        } else {
            Seq::empty()
        }) + "\""@ + dec_chars(vs[i] as int) + "\""@ + vals_json(vs, i + 1)
    }
}

/// One quorum set in exchange form.
pub open spec fn qset_json(q: QsetV) -> Seq<char>
    decreases q, 0int, 0int,
{
    "{\"threshold\":"@ + dec_chars(q.threshold) + ",\"validators\":["@ + vals_json(q.validators, 0)
        + "],\"innerQuorumSets\":["@ + qseq_json(q.inner, 0) + "]}"@
}

/// The inner quorum sets from index `i` on.
pub open spec fn qseq_json(s: Seq<QsetV>, i: int) -> Seq<char>
    decreases s, 1int, s.len() - i,
{
    if i < 0 || i >= s.len() {
        Seq::empty()
    } else {
        (if i > 0 {
            ","@
        } else {
            Seq::empty()
        }) + qset_json(s[i]) + qseq_json(s, i + 1)
    }
}

/// One node entry: its position is its name.
pub open spec fn node_json(q: QsetV, i: int) -> Seq<char> {
    "{\"publicKey\":\""@ + dec_chars(i) + "\",\"quorumSet\":"@ + qset_json(q) + "}"@
}

pub open spec fn nodes_json(qs: Seq<QsetV>, i: int) -> Seq<char>
    decreases qs.len() - i,
{
    if i < 0 || i >= qs.len() {
        Seq::empty()
    } else {
        (if i > 0 {
            ","@
        } else {
            Seq::empty()
        }) + node_json(qs[i], i) + nodes_json(qs, i + 1)
    }
}

/// A whole canonical topology in the engine's exchange format.
pub open spec fn engine_json(qs: Seq<QsetV>) -> Seq<char> {
    "["@ + nodes_json(qs, 0) + "]"@
}

fn render_vals(out: &mut Vec<char>, vs: &Vec<usize>, i: usize)
    requires
        i <= vs@.len(),
    ensures
        final(out)@ == old(out)@ + vals_json(vs@, i as int),
    decreases vs@.len() - i,
{
    if i < vs.len() {
        if i > 0 {
            push_str_chars(out, ",");
        }
        push_str_chars(out, "\"");
        push_dec(out, vs[i]);
        push_str_chars(out, "\"");
        render_vals(out, vs, i + 1);
        assert(final(out)@ =~= old(out)@ + vals_json(vs@, i as int));
    } else {
        assert(final(out)@ =~= old(out)@ + vals_json(vs@, i as int));
    }
}

fn render_qset(out: &mut Vec<char>, q: &crate::topology::CQuorumSet)
    ensures
        final(out)@ == old(out)@ + qset_json(q@),
    decreases *q, 0int, 0int,
{
    push_str_chars(out, "{\"threshold\":");
    push_dec(out, q.threshold);
    push_str_chars(out, ",\"validators\":[");
    render_vals(out, &q.validators, 0);
    push_str_chars(out, "],\"innerQuorumSets\":[");
    render_qseq(out, &q.inner, 0);
    push_str_chars(out, "]}");
    assert(final(out)@ =~= old(out)@ + qset_json(q@));
}

fn render_qseq(out: &mut Vec<char>, s: &Vec<crate::topology::CQuorumSet>, i: usize)
    requires
        i <= s@.len(),
    ensures
        final(out)@ == old(out)@ + qseq_json(cviews_seq(s@), i as int),
    decreases *s, 1int, s@.len() - i,
{
    proof {
        lemma_cviews_seq(s@);
    }
    if i < s.len() {
        if i > 0 {
            push_str_chars(out, ",");
        }
        render_qset(out, &s[i]);
        render_qseq(out, s, i + 1);
        assert(final(out)@ =~= old(out)@ + qseq_json(cviews_seq(s@), i as int));
    } else {
        assert(final(out)@ =~= old(out)@ + qseq_json(cviews_seq(s@), i as int));
    }
}

/// Renders a canonical topology in the engine's exchange format.
pub fn render_engine_json(t: &CanonicalTopology) -> (out: Vec<char>)
    ensures
        out@ == engine_json(t@.qsets),
{
    let mut out: Vec<char> = Vec::new();
    push_str_chars(&mut out, "[");
    let n = t.qsets.len();
    proof {
        lemma_cviews_seq(t.qsets@);
    }
    let mut i: usize = 0;
    while i < n
        invariant
            0 <= i <= n == t.qsets@.len(),
            t@.qsets.len() == n,
            out@ + nodes_json(t@.qsets, i as int) =~= "["@ + nodes_json(t@.qsets, 0),
        decreases n - i,
    {
        proof {
            lemma_cviews_seq(t.qsets@);
        }
        let ghost pre = out@;
        if i > 0 {
            push_str_chars(&mut out, ",");
        }
        push_str_chars(&mut out, "{\"publicKey\":\"");
        push_dec(&mut out, i);
        push_str_chars(&mut out, "\",\"quorumSet\":");
        render_qset(&mut out, &t.qsets[i]);
        push_str_chars(&mut out, "}");
        proof {
            assert(out@ =~= pre + (if i > 0 {
                ","@
            } else {
                Seq::<char>::empty()
            }) + node_json(t@.qsets[i as int], i as int));
            assert(nodes_json(t@.qsets, i as int) == (if i > 0 {
                ","@
            } else {
                Seq::<char>::empty()
            }) + node_json(t@.qsets[i as int], i as int) + nodes_json(t@.qsets, i + 1));
            assert(out@ + nodes_json(t@.qsets, i + 1) =~= "["@ + nodes_json(t@.qsets, 0));
        }
        i += 1;
    }
    proof {
        assert(nodes_json(t@.qsets, n as int) == Seq::<char>::empty());
        assert(out@ =~= "["@ + nodes_json(t@.qsets, 0));
    }
    push_str_chars(&mut out, "]");
    assert(out@ =~= engine_json(t@.qsets));
    out
}

// ---------------------------------------------------------------------------
// The engine call and its normalized output.
// ---------------------------------------------------------------------------

/// The minimal blocking sets the engine reports for this rendered topology.
pub uninterp spec fn blocking_sets_of(j: Seq<char>) -> Seq<Seq<usize>>;

/// The minimal splitting sets the engine reports for this rendered topology.
pub uninterp spec fn splitting_sets_of(j: Seq<char>) -> Seq<Seq<usize>>;

/// The top tier the engine reports for this rendered topology.
pub uninterp spec fn top_tier_of(j: Seq<char>) -> Seq<usize>;

/// Whether the engine decides that quorum intersection holds.
pub uninterp spec fn has_intersection_of(j: Seq<char>) -> bool;

/// The engine's raw answer, before normalization.
pub struct EngineOutput {
    pub blocking: Vec<Vec<usize>>,
    pub splitting: Vec<Vec<usize>>,
    pub top_tier: Vec<usize>,
    pub has_quorum_intersection: bool,
}

/// Relies on `fbas_analyzer`: `Fbas::from_json_str` parses the rendered
/// canonical topology (node identifiers are array positions); `Analysis::new`
/// with `minimal_blocking_sets`, `minimal_splitting_sets`, `top_tier` and
/// `has_quorum_intersection` computes the quorum analysis, a deterministic
/// pure function of the parsed topology. Deserialization cannot fail here:
/// with every quorum set at most `DEPTH_LIMIT` levels deep — which the
/// `requires` demands and canonicalization enforces — the rendered document
/// nests well below the 128-container recursion limit of the engine's JSON
/// parser, and past the parse the analysis always returns (its running time is
/// unbounded, but it has no failure path). Every reported identifier is one of
/// the `n` node positions of the rendered topology.
#[verifier::external_body]
fn run_engine(json: &Vec<char>, n: usize) -> (r: EngineOutput)
    requires
        exists|qs: Seq<QsetV>|
            json@ == engine_json(qs) && qs.len() == n && (forall|i: int|
                0 <= i < qs.len() ==> qdepth(#[trigger] qs[i]) <= DEPTH_LIMIT as int),
    ensures
        family_view(r.blocking@) == blocking_sets_of(json@),
        family_view(r.splitting@) == splitting_sets_of(json@),
        r.top_tier@ == top_tier_of(json@),
        r.has_quorum_intersection == has_intersection_of(json@),
        family_bounded(family_view(r.blocking@), n as int),
        family_bounded(family_view(r.splitting@), n as int),
        forall|i: int| 0 <= i < r.top_tier@.len() ==> (#[trigger] r.top_tier@[i]) < n,
{
    let s: String = json.iter().collect();
    let fbas = fbas_analyzer::Fbas::from_json_str(&s);
    let analysis = fbas_analyzer::Analysis::new(&fbas);
    EngineOutput {
        blocking: analysis.minimal_blocking_sets().into_vec_vec(),
        splitting: analysis.minimal_splitting_sets().into_vec_vec(),
        top_tier: analysis.top_tier().into_vec(),
        has_quorum_intersection: analysis.has_quorum_intersection(),
    }
}

/// Every member brought to canonical form, duplicates inside members removed.
pub open spec fn family_canon(f: Seq<Seq<usize>>) -> Seq<Seq<usize>> {
    f.map_values(|m: Seq<usize>| member_canon(m))
}

/// The canonical form of a raw engine family: canonical members, minimized.
pub open spec fn normalize_spec(f: Seq<Seq<usize>>) -> Seq<Seq<usize>> {
    minimize_spec(family_canon(f))
}

/// Normalization yields a bounded, well-formed antichain.
pub proof fn lemma_normalize_props(f: Seq<Seq<usize>>, n: int)
    requires
        family_bounded(f, n),
    ensures
        family_bounded(normalize_spec(f), n),
        crate::set_family::family_wf(normalize_spec(f)),
        is_antichain(normalize_spec(f)),
{
    let g = family_canon(f);
    assert forall|i: int| 0 <= i < g.len() implies member_wf(#[trigger] g[i]) && forall|j: int|
        0 <= j < g[i].len() ==> (#[trigger] g[i][j]) < n by {
        assert(g[i] == member_canon(f[i]));
        lemma_member_canon(f[i]);
        assert forall|j: int| 0 <= j < g[i].len() implies (#[trigger] g[i][j]) < n by {
            assert(member_set(g[i]).contains(g[i][j]));
            assert(member_set(f[i]).contains(g[i][j]));
            let k = choose|k: int| 0 <= k < f[i].len() && f[i][k] == g[i][j];
        }
    }
    lemma_upto_props(g, g.len() as int);
    lemma_minimize_antichain(g);
    let m = minimize_spec(g);
    assert forall|i: int| 0 <= i < m.len() implies member_wf(#[trigger] m[i]) && forall|j: int|
        0 <= j < m[i].len() ==> (#[trigger] m[i][j]) < n by {
        let k = choose|k: int| 0 <= k < g.len() && min_keep(g, k) && g[k] == m[i];
    }
    assert(family_bounded(m, n)) by {
        assert forall|i: int, j: int| 0 <= i < m.len() && 0 <= j < m[i].len() implies (
        #[trigger] m[i][j]) < n by {}
    }
}

/// Brings a raw engine family to canonical form.
fn normalize_family(raw: &Vec<Vec<usize>>) -> (r: SetFamily)
    ensures
        r@ == normalize_spec(family_view(raw@)),
{
    let mut canon: Vec<Vec<usize>> = Vec::new();
    let mut i: usize = 0;
    while i < raw.len()
        invariant
            0 <= i <= raw@.len(),
            family_view(canon@) =~= family_canon(family_view(raw@)).subrange(0, i as int),
        decreases raw@.len() - i,
    {
        let m = member_canon_exec(&raw[i]);
        let ghost prev = canon@;
        canon.push(m);
        proof {
            assert(family_view(canon@) =~= family_view(prev).push(m@));
            assert(family_canon(family_view(raw@))[i as int] == member_canon(
                family_view(raw@)[i as int],
            ));
            assert(family_canon(family_view(raw@)).subrange(0, i + 1) =~= family_canon(
                family_view(raw@),
            ).subrange(0, i as int).push(family_canon(family_view(raw@))[i as int]));
        }
        assert(family_view(canon@) =~= family_canon(family_view(raw@)).subrange(0, i + 1));
        i += 1;
    }
    assert(family_view(canon@) =~= family_canon(family_view(raw@)));
    let out = crate::set_family::minimize_vec(&canon);
    SetFamily { sets: out }
}

/// One analysis result in canonical form.
pub struct AnalysisCore {
    pub blocking: SetFamily,
    pub splitting: SetFamily,
    pub top_tier: Vec<usize>,
    pub has_quorum_intersection: bool,
}

/// Mathematical model of an analysis result.
#[verifier::ext_equal]
pub ghost struct CoreV {
    pub blocking: Seq<Seq<usize>>,
    pub splitting: Seq<Seq<usize>>,
    pub top_tier: Seq<usize>,
    pub has_quorum_intersection: bool,
}

impl View for AnalysisCore {
    type V = CoreV;

    open spec fn view(&self) -> CoreV {
        CoreV {
            blocking: self.blocking@,
            splitting: self.splitting@,
            top_tier: self.top_tier@,
            has_quorum_intersection: self.has_quorum_intersection,
        }
    }
}

/// What the analysis of a canonical topology returns: the engine's answer on
/// the canonical rendering, normalized.
pub open spec fn core_of(t: TopoV) -> CoreV {
    CoreV {
        blocking: normalize_spec(blocking_sets_of(engine_json(t.qsets))),
        splitting: normalize_spec(splitting_sets_of(engine_json(t.qsets))),
        top_tier: member_canon(top_tier_of(engine_json(t.qsets))),
        has_quorum_intersection: has_intersection_of(engine_json(t.qsets)),
    }
}

/// All well-formedness facts the pipeline needs about an analysis result.
pub open spec fn core_wf(c: CoreV, n: int) -> bool {
    &&& crate::set_family::family_wf(c.blocking)
    &&& crate::set_family::family_wf(c.splitting)
    &&& is_antichain(c.blocking)
    &&& is_antichain(c.splitting)
    &&& family_bounded(c.blocking, n)
    &&& family_bounded(c.splitting, n)
    &&& member_wf(c.top_tier)
    &&& forall|i: int| 0 <= i < c.top_tier.len() ==> (#[trigger] c.top_tier[i]) < n
}

/// Runs the engine once on a canonical topology and normalizes its answer.
pub fn compute_analysis(t: &CanonicalTopology) -> (r: AnalysisCore)
    requires
        crate::topology::topo_wf(t@),
    ensures
        r@ == core_of(t@),
        core_wf(r@, t@.pks.len() as int),
{
    let json = render_engine_json(t);
    let n = t.qsets.len();
    proof {
        lemma_cviews_seq(t.qsets@);
        assert(t@.qsets.len() == n);
        assert(json@ == engine_json(t@.qsets) && t@.qsets.len() == n && (forall|i: int|
            0 <= i < t@.qsets.len() ==> qdepth(#[trigger] t@.qsets[i]) <= DEPTH_LIMIT as int));
    }
    let out = run_engine(&json, n);
    let blocking = normalize_family(&out.blocking);
    let splitting = normalize_family(&out.splitting);
    let top_tier = member_canon_exec(&out.top_tier);
    proof {
        lemma_normalize_props(blocking_sets_of(engine_json(t@.qsets)), n as int);
        lemma_normalize_props(splitting_sets_of(engine_json(t@.qsets)), n as int);
        lemma_member_canon(top_tier_of(engine_json(t@.qsets)));
        assert forall|i: int| 0 <= i < top_tier@.len() implies (#[trigger] top_tier@[i])
            < n by {
            assert(member_set(top_tier@).contains(top_tier@[i]));
            assert(member_set(top_tier_of(engine_json(t@.qsets))).contains(top_tier@[i]));
            let k = choose|k: int|
                0 <= k < top_tier_of(engine_json(t@.qsets)).len() && top_tier_of(
                    engine_json(t@.qsets),
                )[k] == top_tier@[i];
        }
    }
    AnalysisCore {
        blocking,
        splitting,
        top_tier,
        has_quorum_intersection: out.has_quorum_intersection,
    }
}

} // verus!
