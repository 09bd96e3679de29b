//! Grouping of nodes by operator metadata (organization, internet provider,
//! country).
//!
//! A grouping maps every identifier of a canonical topology to a group. Nodes
//! that the metadata labels with the same string share a group, displayed by
//! that label; a node without a label forms a singleton group of its own,
//! displayed by its public key, and never merges with anything. Groups are
//! distinct even when their display strings collide (a label that equals some
//! ungrouped node's public key): the antichain property of grouped families
//! holds of the groups themselves, not of the rendered strings.

use vstd::prelude::*;
use crate::topology::str_views;

verus! {

/// One metadata entry: a public key and the group label assigned to it.
pub struct GroupingEntry {
    pub public_key: String,
    pub label: String,
}

/// Mathematical model of a metadata entry.
#[verifier::ext_equal]
pub ghost struct GroupingEntryV {
    pub public_key: Seq<char>,
    pub label: Seq<char>,
}

impl View for GroupingEntry {
    type V = GroupingEntryV;

    open spec fn view(&self) -> GroupingEntryV {
        GroupingEntryV { public_key: self.public_key@, label: self.label@ }
    }
}

pub open spec fn gviews(meta: Seq<GroupingEntry>) -> Seq<GroupingEntryV> {
    Seq::new(meta.len(), |i: int| meta[i]@)
}

/// The label the metadata assigns to `pk`: the first matching entry wins.
pub open spec fn label_of(meta: Seq<GroupingEntryV>, pk: Seq<char>) -> Option<Seq<char>>
    decreases meta.len(),
{
    if meta.len() == 0 {
        None
    } else if meta[0].public_key == pk {
        Some(meta[0].label)
    } else {
        label_of(meta.drop_first(), pk)
    }
}

/// The least node index below `i` whose label is `l`, or `-1`.
pub open spec fn first_labeled(
    pks: Seq<Seq<char>>,
    meta: Seq<GroupingEntryV>,
    l: Seq<char>,
    i: int,
) -> int
    decreases i,
{
    if i <= 0 {
        -1
    } else {
        let p = first_labeled(pks, meta, l, i - 1);
        if p >= 0 {
            p
        } else if label_of(meta, pks[i - 1]) == Some(l) {
            i - 1
        } else {
            -1
        }
    }
}

/// A grouping: `assign` maps each identifier to its group, `display` maps
/// each group to its display string.
pub struct Grouping {
    pub assign: Vec<usize>,
    pub display: Vec<String>,
}

/// Mathematical model of a grouping.
#[verifier::ext_equal]
pub ghost struct GroupingV {
    pub assign: Seq<usize>,
    pub display: Seq<Seq<char>>,
}

impl View for Grouping {
    type V = GroupingV;

    open spec fn view(&self) -> GroupingV {
        GroupingV { assign: self.assign@, display: str_views(self.display) }
    }
}

/// The grouping of the first `i` nodes: a labeled node joins the group of the
/// earliest node with the same label, or founds one; an unlabeled node founds
/// a singleton group displayed by its public key.
pub open spec fn resolve_upto(
    pks: Seq<Seq<char>>,
    meta: Seq<GroupingEntryV>,
    i: int,
) -> GroupingV
    decreases i,
{
    if i <= 0 {
        GroupingV { assign: Seq::empty(), display: Seq::empty() }
    } else {
        let g = resolve_upto(pks, meta, i - 1);
        match label_of(meta, pks[i - 1]) {
            None => GroupingV {
                assign: g.assign.push(g.display.len() as usize),
                display: g.display.push(pks[i - 1]),
            },
            Some(l) => {
                let p = first_labeled(pks, meta, l, i - 1);
                if p >= 0 {
                    GroupingV { assign: g.assign.push(g.assign[p]), display: g.display }
                } else {
                    GroupingV {
                        assign: g.assign.push(g.display.len() as usize),
                        display: g.display.push(l),
                    }
                }
            },
        }
    }
}

pub open spec fn resolve_spec(pks: Seq<Seq<char>>, meta: Seq<GroupingEntryV>) -> GroupingV {
    resolve_upto(pks, meta, pks.len() as int)
}

/// Assignments stay inside the display table.
pub open spec fn grouping_wf(g: GroupingV, n: int) -> bool {
    &&& g.assign.len() == n
    &&& forall|i: int| 0 <= i < g.assign.len() ==> (#[trigger] g.assign[i]) < g.display.len()
}

proof fn lemma_first_labeled_bounds(
    pks: Seq<Seq<char>>,
    meta: Seq<GroupingEntryV>,
    l: Seq<char>,
    i: int,
)
    ensures
        -1 <= first_labeled(pks, meta, l, i) < i || (i <= 0 && first_labeled(pks, meta, l, i)
            == -1),
    decreases i,
{
    if i > 0 {
        lemma_first_labeled_bounds(pks, meta, l, i - 1);
    }
}

pub proof fn lemma_resolve_wf(pks: Seq<Seq<char>>, meta: Seq<GroupingEntryV>, i: int)
    requires
        0 <= i <= pks.len(),
    ensures
        grouping_wf(resolve_upto(pks, meta, i), i),
    decreases i,
{
    if i > 0 {
        lemma_resolve_wf(pks, meta, i - 1);
        match label_of(meta, pks[i - 1]) {
            None => {},
            Some(l) => {
                lemma_first_labeled_bounds(pks, meta, l, i - 1);
            },
        }
    }
}

/// The label the metadata assigns to `pk`, executable.
fn find_label(meta: &Vec<GroupingEntry>, pk: &String) -> (r: Option<String>)
    ensures
        match r {
            Some(l) => label_of(gviews(meta@), pk@) == Some(l@),
            None => label_of(gviews(meta@), pk@) is None,
        },
{
    let ghost mv = gviews(meta@);
    proof {
        assert(mv.skip(0) =~= mv);
    }
    let mut i: usize = 0;
    while i < meta.len()
        invariant
            0 <= i <= meta@.len(),
            mv == gviews(meta@),
            label_of(mv, pk@) == label_of(mv.skip(i as int), pk@),
            forall|t: int| 0 <= t < i ==> mv[t].public_key != pk@,
        decreases meta@.len() - i,
    {
        proof {
            assert(mv.skip(i as int)[0] == mv[i as int]);
        }
        if meta[i].public_key.eq(pk) {
            assert(label_of(mv.skip(i as int), pk@) == Some(mv[i as int].label));
            return Some(meta[i].label.clone());
        }
        proof {
            assert(mv.skip(i as int).drop_first() =~= mv.skip(i + 1));
        }
        i += 1;
    }
    assert(mv.skip(mv.len() as int).len() == 0);
    None
}

/// When a scan finds the first matching label, it is the spec's first index.
proof fn lemma_first_labeled_found(
    pks: Seq<Seq<char>>,
    meta: Seq<GroupingEntryV>,
    l: Seq<char>,
    j: int,
    i: int,
)
    requires
        0 <= j < i <= pks.len(),
        label_of(meta, pks[j]) == Some(l),
        forall|t: int| 0 <= t < j ==> label_of(meta, #[trigger] pks[t]) != Some(l),
    ensures
        first_labeled(pks, meta, l, i) == j,
    decreases i,
{
    if i - 1 > j {
        lemma_first_labeled_found(pks, meta, l, j, i - 1);
    } else {
        lemma_first_labeled_none(pks, meta, l, j);
    }
}

/// When nothing below `i` carries the label, the spec's first index is `-1`.
proof fn lemma_first_labeled_none(
    pks: Seq<Seq<char>>,
    meta: Seq<GroupingEntryV>,
    l: Seq<char>,
    i: int,
)
    requires
        forall|t: int| 0 <= t < i ==> label_of(meta, #[trigger] pks[t]) != Some(l),
    ensures
        first_labeled(pks, meta, l, i) == -1,
    decreases i,
{
    if i > 0 {
        lemma_first_labeled_none(pks, meta, l, i - 1);
    }
}

/// Resolves one grouping dimension for the nodes of a canonical topology.
pub fn resolve(pks: &Vec<String>, meta: &Vec<GroupingEntry>) -> (g: Grouping)
    ensures
        g@ == resolve_spec(str_views(*pks), gviews(meta@)),
        grouping_wf(g@, pks@.len() as int),
{
    let ghost pkv = str_views(*pks);
    let ghost mv = gviews(meta@);
    let n = pks.len();
    let mut assign: Vec<usize> = Vec::new();
    let mut display: Vec<String> = Vec::new();
    let mut labels: Vec<Option<String>> = Vec::new();
    let mut i: usize = 0;
    while i < n
        invariant
            0 <= i <= n == pks@.len(),
            pkv == str_views(*pks),
            mv == gviews(meta@),
            labels@.len() == i,
            forall|t: int|
                0 <= t < i ==> match #[trigger] labels@[t] {
                    Some(l) => label_of(mv, pkv[t]) == Some(l@),
                    None => label_of(mv, pkv[t]) is None,
                },
            assign@ == resolve_upto(pkv, mv, i as int).assign,
            str_views(display) == resolve_upto(pkv, mv, i as int).display,
            assign@.len() == i,
            forall|t: int| 0 <= t < i ==> (#[trigger] assign@[t]) < display@.len(),
        decreases n - i,
    {
        proof {
            lemma_resolve_wf(pkv, mv, i as int);
        }
        let lbl = find_label(meta, &pks[i]);
        let ghost prev = resolve_upto(pkv, mv, i as int);
        let ghost old_display = str_views(display);
        match &lbl {
            None => {
                assert(label_of(mv, pkv[i as int]) is None);
                assign.push(display.len());
                display.push(pks[i].clone());
                assert(str_views(display) =~= old_display.push(pkv[i as int]));
            },
            Some(l) => {
                let l = l.clone();
                assert(label_of(mv, pkv[i as int]) == Some(l@));
                // Scan the earlier nodes for the first one with this label.
                let mut j: usize = 0;
                let mut found = n;
                while j < i
                    invariant
                        0 <= j <= i < n == pks@.len(),
                        labels@.len() == i,
                        pkv == str_views(*pks),
                        mv == gviews(meta@),
                        forall|t: int|
                            0 <= t < i ==> match #[trigger] labels@[t] {
                                Some(l2) => label_of(mv, pkv[t]) == Some(l2@),
                                None => label_of(mv, pkv[t]) is None,
                            },
                        found == n || (found < j && label_of(mv, pkv[found as int]) == Some(l@)
                            && forall|t: int|
                            0 <= t < found ==> label_of(mv, #[trigger] pkv[t]) != Some(l@)),
                        found == n ==> forall|t: int|
                            0 <= t < j ==> label_of(mv, #[trigger] pkv[t]) != Some(l@),
                    decreases i - j,
                {
                    if found == n {
                        let same = match &labels[j] {
                            Some(l2) => l2.eq(&l),
                            None => false,
                        };
                        if same {
                            assert(label_of(mv, pkv[j as int]) == Some(l@));
                            found = j;
                        } else {
                            assert(label_of(mv, pkv[j as int]) != Some(l@));
                        }
                    }
                    j += 1;
                }
                if found < n {
                    proof {
                        lemma_first_labeled_found(pkv, mv, l@, found as int, i as int);
                    }
                    let target = assign[found];
                    assign.push(target);
                } else {
                    proof {
                        lemma_first_labeled_none(pkv, mv, l@, i as int);
                    }
                    assign.push(display.len());
                    display.push(l.clone());
                    assert(str_views(display) =~= old_display.push(l@));
                }
            },
        }
        labels.push(lbl);
        proof {
            assert(assign@ == resolve_upto(pkv, mv, i + 1).assign);
            assert(str_views(display) =~= resolve_upto(pkv, mv, i + 1).display);
        }
        i += 1;
    }
    let g = Grouping { assign, display };
    proof {
        lemma_resolve_wf(pkv, mv, n as int);
        assert(g@ =~= resolve_spec(pkv, mv));
        assert(g@ == resolve_spec(pkv, mv));
    }
    g
}

} // verus!
