use fbas_analysis::analyzer::{AnalysisResultFull, FbasAnalyzer};
use fbas_analysis::grouping::GroupingEntry;
use fbas_analysis::set_family::SetFamily;
use fbas_analysis::topology::{canonicalize, MalformedInputError, RawNode, RawQuorumSet};

fn simple_qset(threshold: usize, validators: &[&str]) -> RawQuorumSet {
    RawQuorumSet {
        threshold,
        validators: validators.iter().map(|v| v.to_string()).collect(),
        inner: Vec::new(),
    }
}

fn node(pk: &str, qset: RawQuorumSet) -> RawNode {
    RawNode { public_key: pk.to_string(), quorum_set: qset }
}

/// Four nodes, each requiring 3-of-4 agreement among all four.
fn three_of_four() -> Vec<RawNode> {
    let names = ["A", "B", "C", "D"];
    names
        .iter()
        .map(|pk| node(pk, simple_qset(3, &names)))
        .collect()
}

fn strs(v: &[&str]) -> Vec<String> {
    v.iter().map(|s| s.to_string()).collect()
}

fn sorted(mut v: Vec<Vec<String>>) -> Vec<Vec<String>> {
    v.sort();
    v
}

fn run(
    analyzer: &mut FbasAnalyzer,
    nodes: &Vec<RawNode>,
    faulty: &[&str],
    orgs: Vec<GroupingEntry>,
) -> AnalysisResultFull {
    analyzer
        .analyze(nodes, &strs(faulty), &orgs, &Vec::new(), &Vec::new())
        .expect("well-formed topology")
}

#[test]
fn three_of_four_minimal_sets() {
    let mut analyzer = FbasAnalyzer::new();
    let result = run(&mut analyzer, &three_of_four(), &[], Vec::new());
    let pairs = vec![
        strs(&["A", "B"]),
        strs(&["A", "C"]),
        strs(&["A", "D"]),
        strs(&["B", "C"]),
        strs(&["B", "D"]),
        strs(&["C", "D"]),
    ];
    assert_eq!(sorted(result.minimal_blocking_sets.clone()), pairs);
    assert_eq!(sorted(result.minimal_splitting_sets.clone()), pairs);
    assert_eq!(result.top_tier, strs(&["A", "B", "C", "D"]));
    assert!(result.has_quorum_intersection);
    assert!(!result.cache_hit);
}

#[test]
fn excluding_a_splitting_set_breaks_intersection() {
    let mut analyzer = FbasAnalyzer::new();
    let result = run(&mut analyzer, &three_of_four(), &["A", "B"], Vec::new());
    // {A,B} is itself a minimal splitting set: filtering it leaves the empty
    // set as a member, which absorbs the whole family.
    assert_eq!(
        result.minimal_splitting_sets_faulty_nodes_filtered,
        vec![Vec::<String>::new()]
    );
    assert!(!result.quorum_intersection_holds_after_exclusion);
    // The unfiltered output is not affected.
    assert!(result.has_quorum_intersection);
}

#[test]
fn exclusion_of_nothing_keeps_intersection() {
    let mut analyzer = FbasAnalyzer::new();
    let result = run(&mut analyzer, &three_of_four(), &[], Vec::new());
    assert!(result.quorum_intersection_holds_after_exclusion);
}

#[test]
fn unknown_excluded_keys_are_ignored() {
    let mut analyzer = FbasAnalyzer::new();
    let base = run(&mut analyzer, &three_of_four(), &[], Vec::new());
    let mut analyzer2 = FbasAnalyzer::new();
    let with_unknown = run(&mut analyzer2, &three_of_four(), &["Nobody"], Vec::new());
    assert_eq!(
        base.minimal_blocking_sets_faulty_nodes_filtered,
        with_unknown.minimal_blocking_sets_faulty_nodes_filtered
    );
    assert!(with_unknown.quorum_intersection_holds_after_exclusion);
}

#[test]
fn grouping_collapses_blocking_sets() {
    // All four nodes under one label: every member collapses to {Org1} and
    // minimization leaves exactly one member.
    let mut analyzer = FbasAnalyzer::new();
    let orgs = ["A", "B", "C", "D"]
        .iter()
        .map(|pk| GroupingEntry { public_key: pk.to_string(), label: "Org1".to_string() })
        .collect::<Vec<_>>();
    let result = run(&mut analyzer, &three_of_four(), &[], orgs);
    assert_eq!(result.org_minimal_blocking_sets, vec![strs(&["Org1"])]);
    assert_eq!(result.org_minimal_splitting_sets, vec![strs(&["Org1"])]);
    assert_eq!(result.org_top_tier, strs(&["Org1"]));
}

#[test]
fn ungrouped_nodes_form_singleton_groups() {
    let mut analyzer = FbasAnalyzer::new();
    let result = run(&mut analyzer, &three_of_four(), &[], Vec::new());
    // Without metadata every node is its own group, displayed by public key.
    assert_eq!(result.org_top_tier, result.top_tier);
    assert_eq!(
        sorted(result.org_minimal_blocking_sets.clone()),
        sorted(result.minimal_blocking_sets.clone())
    );
}

#[test]
fn cache_hits_on_equivalent_topologies() {
    let mut analyzer = FbasAnalyzer::new();
    let first = run(&mut analyzer, &three_of_four(), &[], Vec::new());
    assert!(!first.cache_hit);
    // Same quorum logic: nodes reordered, one validator list reordered and one
    // clause repeated via a duplicated validator entry.
    let names = ["A", "B", "C", "D"];
    let mut nodes: Vec<RawNode> = names
        .iter()
        .map(|pk| node(pk, simple_qset(3, &["D", "C", "B", "A", "A"])))
        .collect();
    nodes.reverse();
    let second = run(&mut analyzer, &nodes, &[], Vec::new());
    assert!(second.cache_hit);
    assert_eq!(first.minimal_blocking_sets, second.minimal_blocking_sets);
    assert_eq!(first.minimal_splitting_sets, second.minimal_splitting_sets);
    assert_eq!(first.top_tier, second.top_tier);
    assert_eq!(first.has_quorum_intersection, second.has_quorum_intersection);
    assert_eq!(
        first.quorum_intersection_holds_after_exclusion,
        second.quorum_intersection_holds_after_exclusion
    );
}

#[test]
fn distinct_topologies_miss_the_cache() {
    let mut analyzer = FbasAnalyzer::new();
    let first = run(&mut analyzer, &three_of_four(), &[], Vec::new());
    assert!(!first.cache_hit);
    let names = ["A", "B", "C", "D"];
    let nodes: Vec<RawNode> = names
        .iter()
        .map(|pk| node(pk, simple_qset(2, &names)))
        .collect();
    let second = run(&mut analyzer, &nodes, &[], Vec::new());
    assert!(!second.cache_hit);
}

#[test]
fn duplicate_node_definitions_are_rejected() {
    let nodes = vec![
        node("A", simple_qset(1, &["A"])),
        node("A", simple_qset(1, &["A"])),
    ];
    assert_eq!(
        canonicalize(&nodes).err(),
        Some(MalformedInputError::DuplicateNodeDefinition)
    );
}

#[test]
fn non_positive_thresholds_are_rejected() {
    let nodes = vec![node("A", simple_qset(0, &["A"]))];
    assert_eq!(
        canonicalize(&nodes).err(),
        Some(MalformedInputError::NonPositiveThreshold)
    );
    // Nested thresholds are checked too.
    let mut deep = simple_qset(1, &["A"]);
    deep.inner.push(simple_qset(0, &["A"]));
    let nodes = vec![node("A", deep)];
    assert_eq!(
        canonicalize(&nodes).err(),
        Some(MalformedInputError::NonPositiveThreshold)
    );
}

#[test]
fn unknown_validators_are_rejected() {
    let nodes = vec![node("A", simple_qset(1, &["A", "Ghost"]))];
    assert_eq!(
        canonicalize(&nodes).err(),
        Some(MalformedInputError::UnknownValidator)
    );
}

#[test]
fn canonicalization_is_order_insensitive() {
    let a = vec![
        node("N1", simple_qset(2, &["N1", "N2"])),
        node("N2", simple_qset(1, &["N2", "N1", "N1"])),
    ];
    let b = vec![
        node("N2", simple_qset(1, &["N1", "N2"])),
        node("N1", simple_qset(2, &["N2", "N1"])),
    ];
    let ta = canonicalize(&a).expect("well-formed");
    let tb = canonicalize(&b).expect("well-formed");
    assert_eq!(ta.pks, tb.pks);
    assert_eq!(ta.qsets.len(), tb.qsets.len());
    for i in 0..ta.qsets.len() {
        assert!(fbas_analysis::topology::qeq_exec(&ta.qsets[i], &tb.qsets[i]));
    }
}

fn family(sets: &[&[usize]]) -> SetFamily {
    SetFamily { sets: sets.iter().map(|m| m.to_vec()).collect() }
}

#[test]
fn minimize_removes_supersets_and_duplicates() {
    let f = family(&[&[0, 1], &[0, 2, 3], &[3], &[0, 1, 4, 5], &[0, 1]]);
    let m = f.minimize();
    assert_eq!(m.sets, vec![vec![0, 1], vec![3]]);
}

#[test]
fn minimize_is_idempotent_on_values() {
    let f = family(&[&[1, 2], &[2], &[1, 2, 3]]);
    let once = f.minimize();
    let twice = once.minimize();
    assert_eq!(once.sets, twice.sets);
}

#[test]
fn filter_exclude_collapses_to_empty_set() {
    let f = family(&[&[0, 1], &[2]]);
    let filtered = f.filter_exclude(&vec![2]);
    assert_eq!(filtered.sets, vec![Vec::<usize>::new()]);
    assert!(filtered.contains_empty_set());
}

#[test]
fn filter_exclude_of_nothing_changes_nothing() {
    let f = family(&[&[0, 1], &[2]]);
    let filtered = f.filter_exclude(&Vec::new());
    assert_eq!(filtered.sets, vec![vec![0, 1], vec![2]]);
    assert!(!filtered.contains_empty_set());
}

#[test]
fn empty_family_is_a_fixed_point() {
    let f = family(&[]);
    assert_eq!(f.minimize().sets, Vec::<Vec<usize>>::new());
    assert_eq!(f.filter_exclude(&vec![0]).sets, Vec::<Vec<usize>>::new());
    assert!(!f.contains_empty_set());
}

#[test]
fn family_with_empty_member_survives_transforms() {
    let f = family(&[&[]]);
    assert_eq!(f.minimize().sets, vec![Vec::<usize>::new()]);
    assert_eq!(f.filter_exclude(&vec![0]).sets, vec![Vec::<usize>::new()]);
    assert!(f.contains_empty_set());
}

#[test]
fn map_elements_merges_and_reminimizes() {
    // Two distinct minimal sets collapse to the same label.
    let f = family(&[&[0], &[1]]);
    let g = f.map_elements(&vec![0usize, 0usize]);
    assert_eq!(g.sets, vec![vec![0]]);
}

#[test]
fn exclusion_monotonicity_on_values() {
    // filterExclude(F, E1 ∪ E2) refines filterExclude(F, E1): every member is
    // a subset of some member of the latter.
    let f = family(&[&[0, 1], &[1, 2], &[3]]);
    let e1 = vec![0usize];
    let e12 = vec![0usize, 2usize];
    let r1 = f.filter_exclude(&e1);
    let r12 = f.filter_exclude(&e12);
    for m in &r12.sets {
        assert!(r1
            .sets
            .iter()
            .any(|bigger| m.iter().all(|x| bigger.contains(x))));
    }
}

#[test]
fn canonicalization_sorts_and_deduplicates_inner_clauses() {
    let x = || simple_qset(1, &["A"]);
    let y = || simple_qset(1, &["B"]);
    let mut qa = simple_qset(2, &[]);
    qa.inner = vec![x(), y()];
    let mut qb = simple_qset(2, &[]);
    qb.inner = vec![y(), x(), y()];
    let a = vec![node("A", qa), node("B", simple_qset(1, &["B"]))];
    let b = vec![node("A", qb), node("B", simple_qset(1, &["B"]))];
    let ta = canonicalize(&a).expect("well-formed");
    let tb = canonicalize(&b).expect("well-formed");
    for i in 0..ta.qsets.len() {
        assert!(fbas_analysis::topology::qeq_exec(&ta.qsets[i], &tb.qsets[i]));
    }
    assert_eq!(ta.qsets[0].inner.len(), 2);
}

#[test]
fn engine_rendering_is_exact() {
    let t = canonicalize(&vec![
        node("B", simple_qset(1, &["Z", "B"])),
        node("Z", simple_qset(2, &["B"])),
    ])
    .expect("well-formed");
    let rendered: String = fbas_analysis::engine::render_engine_json(&t).into_iter().collect();
    // Sorted keys: B is node 0, Z is node 1; validators are rewritten to
    // sorted identifier strings.
    let mut expected = String::new();
    expected.push_str("[{\"publicKey\":\"0\",\"quorumSet\":");
    expected.push_str("{\"threshold\":1,\"validators\":[\"0\",\"1\"],\"innerQuorumSets\":[]}},");
    expected.push_str("{\"publicKey\":\"1\",\"quorumSet\":");
    expected.push_str("{\"threshold\":2,\"validators\":[\"0\"],\"innerQuorumSets\":[]}}]");
    assert_eq!(rendered, expected);
}

/// A chain of `depth` nested quorum sets, innermost requiring node `A`.
fn nested_chain(depth: usize) -> RawQuorumSet {
    let mut q = simple_qset(1, &["A"]);
    for _ in 1..depth {
        let mut outer = simple_qset(1, &[]);
        outer.inner.push(q);
        q = outer;
    }
    q
}

#[test]
fn nesting_at_the_limit_is_accepted() {
    let nodes = vec![node("A", nested_chain(32))];
    assert!(canonicalize(&nodes).is_ok());
}

#[test]
fn nesting_beyond_the_limit_is_rejected() {
    let nodes = vec![node("A", nested_chain(33))];
    assert_eq!(
        canonicalize(&nodes).err(),
        Some(MalformedInputError::NestingTooDeep)
    );
    // Far deeper chains are rejected the same way instead of reaching the
    // engine's parser.
    let nodes = vec![node("A", nested_chain(200))];
    assert_eq!(
        canonicalize(&nodes).err(),
        Some(MalformedInputError::NestingTooDeep)
    );
}

#[test]
fn nested_quorum_sets_reach_the_engine() {
    // A topology with inner quorum sets runs through the whole pipeline.
    let mut analyzer = FbasAnalyzer::new();
    let qa = || {
        let mut q = simple_qset(2, &["A"]);
        q.inner.push(simple_qset(1, &["B", "C"]));
        q
    };
    let nodes = vec![node("A", qa()), node("B", qa()), node("C", qa())];
    let result = run(&mut analyzer, &nodes, &[], Vec::new());
    assert!(result.has_quorum_intersection);
    assert_eq!(result.top_tier, strs(&["A", "B", "C"]));
}

#[test]
fn deep_but_legal_nesting_reaches_the_engine() {
    let mut analyzer = FbasAnalyzer::new();
    let nodes = vec![node("A", nested_chain(32))];
    let result = run(&mut analyzer, &nodes, &[], Vec::new());
    assert_eq!(result.minimal_blocking_sets, vec![strs(&["A"])]);
}
