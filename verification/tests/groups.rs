//! Grouping changed entities along the edges among them.

use inspect_core::types::{
    ChangeClassification, ChangeGroup, ChangeType, EntityReview, RiskLevel,
};
use inspect_core::untangle::{assign_groups, untangle};

fn review(id: &str, name: &str, file: &str) -> EntityReview {
    EntityReview {
        entity_id: id.into(),
        entity_name: name.into(),
        entity_type: "function".into(),
        file_path: file.into(),
        change_type: ChangeType::Modified,
        classification: ChangeClassification::Functional,
        risk_score: 0,
        risk_level: RiskLevel::Low,
        blast_radius: 0,
        dependent_count: 0,
        dependency_count: 0,
        is_public_api: false,
        structural_change: None,
        group_id: 7,
        start_line: 1,
        end_line: 1,
        before_content: None,
        after_content: None,
        dependent_names: vec![],
        dependency_names: vec![],
        dependent_entities: vec![],
    }
}

fn edges(pairs: &[(&str, &str)]) -> Vec<(String, String)> {
    pairs.iter().map(|(a, b)| (a.to_string(), b.to_string())).collect()
}

fn reviews(ids: &[&str]) -> Vec<EntityReview> {
    ids.iter().map(|id| review(id, id, "f.rs")).collect()
}

fn listed(groups: &[ChangeGroup]) -> Vec<Vec<String>> {
    groups.iter().map(|g| g.entity_ids.clone()).collect()
}

#[test]
fn without_edges_every_entity_is_alone() {
    let groups = untangle(&reviews(&["a", "b", "c"]), &vec![]);
    assert_eq!(listed(&groups), vec![vec!["a"], vec!["b"], vec!["c"]]);
    let ids: Vec<usize> = groups.iter().map(|g| g.id).collect();
    assert_eq!(ids, vec![0, 1, 2]);
}

#[test]
fn nothing_has_no_groups() {
    assert!(untangle(&vec![], &vec![]).is_empty());
    assert!(untangle(&vec![], &edges(&[("a", "b")])).is_empty());
}

#[test]
fn edges_join_in_both_directions_and_through_others() {
    let groups = untangle(
        &reviews(&["a", "b", "c", "d", "e"]),
        &edges(&[("e", "c"), ("a", "c"), ("d", "d")]),
    );
    assert_eq!(listed(&groups), vec![vec!["a", "c", "e"], vec!["b"], vec!["d"]]);
}

#[test]
fn edges_to_unknown_entities_join_nothing() {
    let groups = untangle(&reviews(&["a", "b"]), &edges(&[("a", "x"), ("x", "b")]));
    assert_eq!(groups.len(), 2);
}

#[test]
fn a_long_chain_is_one_group() {
    let ids: Vec<String> = (0..60).map(|i| format!("n{i}")).collect();
    let all: Vec<EntityReview> = ids.iter().map(|id| review(id, id, "f.rs")).collect();
    let chain: Vec<(String, String)> =
        (0..59).rev().map(|i| (ids[i + 1].clone(), ids[i].clone())).collect();
    let groups = untangle(&all, &chain);
    assert_eq!(groups.len(), 1);
    assert_eq!(groups[0].entity_ids, ids);
}

#[test]
fn a_group_is_labelled_by_its_entity_or_its_first_file() {
    let all = vec![
        review("a", "alpha", "one.rs"),
        review("b", "beta", "two.rs"),
        review("c", "gamma", "three.rs"),
    ];
    let groups = untangle(&all, &edges(&[("c", "b")]));
    assert_eq!(groups[0].label, "alpha");
    assert_eq!(groups[1].label, "two.rs");
}

#[test]
fn reviews_get_the_number_of_their_group() {
    let mut all = reviews(&["a", "b", "c"]);
    let groups = untangle(&all, &edges(&[("a", "c")]));
    assign_groups(&mut all, &groups);
    let ids: Vec<usize> = all.iter().map(|r| r.group_id).collect();
    assert_eq!(ids, vec![0, 1, 0]);
}

#[test]
fn a_review_that_no_group_lists_keeps_its_number() {
    let mut all = reviews(&["a", "b"]);
    let groups = vec![
        ChangeGroup { id: 3, label: "x".into(), entity_ids: vec!["b".into()] },
        ChangeGroup { id: 4, label: "y".into(), entity_ids: vec!["b".into(), "c".into()] },
    ];
    assign_groups(&mut all, &groups);
    assert_eq!(all[0].group_id, 7);
    assert_eq!(all[1].group_id, 4);
}
