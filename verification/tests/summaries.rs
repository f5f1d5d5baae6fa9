//! Keeping the summaries of a result in step with its reviews.

use inspect_core::summary::{compute_stats, refresh_result_summaries, retain_entity_reviews};
use inspect_core::types::{
    ChangeClassification, ChangeGroup, ChangeType, EntityReview, ReviewResult, RiskLevel, Timing,
};

fn make_review(id: &str, name: &str, risk_level: RiskLevel) -> EntityReview {
    EntityReview {
        entity_id: id.into(),
        entity_name: name.into(),
        entity_type: "function".into(),
        file_path: "main.rs".into(),
        change_type: ChangeType::Modified,
        classification: ChangeClassification::Functional,
        risk_score: inspect_core::rank::score_key(0.5f64.to_bits()),
        risk_level,
        blast_radius: 0,
        dependent_count: 0,
        dependency_count: 0,
        is_public_api: false,
        structural_change: None,
        group_id: 0,
        start_line: 1,
        end_line: 1,
        before_content: None,
        after_content: None,
        dependent_names: vec![],
        dependency_names: vec![],
        dependent_entities: vec![],
    }
}

#[test]
fn retain_entity_reviews_recomputes_stats_and_groups() {
    let mut result = ReviewResult {
        entity_reviews: vec![
            make_review("main.rs::one", "one", RiskLevel::High),
            make_review("main.rs::two", "two", RiskLevel::Medium),
        ],
        groups: vec![ChangeGroup {
            id: 0,
            label: "main.rs".into(),
            entity_ids: vec!["main.rs::one".into(), "main.rs::two".into()],
        }],
        stats: compute_stats(&[]),
        timing: Timing::default(),
        dependency_edges: vec![("main.rs::one".into(), "main.rs::two".into())],
        changes: vec![],
    };

    retain_entity_reviews(&mut result, |review| {
        review.risk_level >= RiskLevel::Critical
    });

    assert!(result.entity_reviews.is_empty());
    assert!(result.groups.is_empty());
    assert_eq!(result.stats.total_entities, 0);
    assert_eq!(result.stats.by_risk.high, 0);
}

#[test]
fn retain_entity_reviews_updates_remaining_group_ids() {
    let mut result = ReviewResult {
        entity_reviews: vec![
            make_review("main.rs::one", "one", RiskLevel::High),
            make_review("main.rs::two", "two", RiskLevel::Medium),
        ],
        groups: vec![ChangeGroup {
            id: 0,
            label: "main.rs".into(),
            entity_ids: vec!["main.rs::one".into(), "main.rs::two".into()],
        }],
        stats: compute_stats(&[]),
        timing: Timing::default(),
        dependency_edges: vec![("main.rs::one".into(), "main.rs::two".into())],
        changes: vec![],
    };

    retain_entity_reviews(&mut result, |review| review.entity_id == "main.rs::two");

    assert_eq!(result.entity_reviews.len(), 1);
    assert_eq!(result.entity_reviews[0].group_id, 0);
    assert_eq!(result.groups.len(), 1);
    assert_eq!(result.groups[0].entity_ids, vec!["main.rs::two"]);
    assert_eq!(result.groups[0].label, "two");
    assert_eq!(result.stats.total_entities, 1);
    assert_eq!(result.stats.by_risk.medium, 1);
}

#[test]
fn retain_entity_reviews_drops_removed_bridge_edges() {
    let mut result = ReviewResult {
        entity_reviews: vec![
            make_review("main.rs::one", "one", RiskLevel::High),
            make_review("main.rs::two", "two", RiskLevel::Medium),
            make_review("main.rs::three", "three", RiskLevel::High),
        ],
        groups: vec![ChangeGroup {
            id: 0,
            label: "main.rs".into(),
            entity_ids: vec![
                "main.rs::one".into(),
                "main.rs::two".into(),
                "main.rs::three".into(),
            ],
        }],
        stats: compute_stats(&[]),
        timing: Timing::default(),
        dependency_edges: vec![
            ("main.rs::one".into(), "main.rs::two".into()),
            ("main.rs::two".into(), "main.rs::three".into()),
        ],
        changes: vec![],
    };

    retain_entity_reviews(&mut result, |review| {
        review.risk_level >= RiskLevel::High
    });

    assert_eq!(result.entity_reviews.len(), 2);
    assert_eq!(result.groups.len(), 2);
    assert!(result.groups.iter().all(|group| group.entity_ids.len() == 1));
    assert_ne!(
        result.entity_reviews[0].group_id,
        result.entity_reviews[1].group_id
    );
    assert!(result.dependency_edges.is_empty());
    assert_eq!(result.stats.total_entities, 2);
    assert_eq!(result.stats.by_risk.high, 2);
}

#[test]
fn retain_entity_reviews_supports_sequential_filters() {
    let mut result = ReviewResult {
        entity_reviews: vec![
            make_review("main.rs::one", "one", RiskLevel::High),
            make_review("main.rs::two", "two", RiskLevel::Medium),
            make_review("main.rs::three", "three", RiskLevel::High),
            make_review("main.rs::four", "four", RiskLevel::Low),
        ],
        groups: vec![
            ChangeGroup {
                id: 0,
                label: "main.rs".into(),
                entity_ids: vec![
                    "main.rs::one".into(),
                    "main.rs::two".into(),
                    "main.rs::three".into(),
                ],
            },
            ChangeGroup {
                id: 1,
                label: "four".into(),
                entity_ids: vec!["main.rs::four".into()],
            },
        ],
        stats: compute_stats(&[]),
        timing: Timing::default(),
        dependency_edges: vec![
            ("main.rs::one".into(), "main.rs::two".into()),
            ("main.rs::two".into(), "main.rs::three".into()),
        ],
        changes: vec![],
    };

    retain_entity_reviews(&mut result, |review| review.entity_id != "main.rs::four");
    assert_eq!(result.dependency_edges.len(), 2);

    retain_entity_reviews(&mut result, |review| {
        review.risk_level >= RiskLevel::High
    });

    assert_eq!(result.entity_reviews.len(), 2);
    assert_eq!(result.groups.len(), 2);
    assert!(result.dependency_edges.is_empty());
}

fn result_of(ids: &[&str], edges: &[(&str, &str)]) -> ReviewResult {
    ReviewResult {
        entity_reviews: ids.iter().map(|id| make_review(id, id, RiskLevel::Low)).collect(),
        groups: vec![],
        stats: compute_stats(&[]),
        timing: Timing { diff_ms: 1, file_count: 2, ..Timing::default() },
        dependency_edges: edges.iter().map(|(a, b)| (a.to_string(), b.to_string())).collect(),
        changes: vec![],
    }
}

fn group_ids(result: &ReviewResult) -> Vec<usize> {
    result.entity_reviews.iter().map(|r| r.group_id).collect()
}

#[test]
fn refreshing_sets_everything_that_follows_from_the_reviews() {
    let mut result = result_of(
        &["a", "b", "c", "d"],
        &[("a", "c"), ("d", "x"), ("x", "b"), ("c", "a")],
    );
    refresh_result_summaries(&mut result);
    assert_eq!(
        result.dependency_edges,
        vec![("a".to_string(), "c".to_string()), ("c".to_string(), "a".to_string())]
    );
    assert_eq!(group_ids(&result), vec![0, 1, 0, 2]);
    assert_eq!(result.groups.len(), 3);
    assert_eq!(result.groups[0].entity_ids, vec!["a", "c"]);
    assert_eq!(result.groups[0].label, "main.rs");
    assert_eq!(result.groups[1].entity_ids, vec!["b"]);
    assert_eq!(result.groups[1].label, "b");
    assert_eq!(result.groups[2].id, 2);
    assert_eq!(result.stats.total_entities, 4);
    assert_eq!(result.stats.by_risk.low, 4);
    assert_eq!(result.timing.diff_ms, 1);
    assert_eq!(result.timing.file_count, 2);
}

#[test]
fn refreshing_twice_and_retaining_all_change_nothing() {
    let mut result = result_of(&["a", "b", "c"], &[("c", "a"), ("b", "x")]);
    refresh_result_summaries(&mut result);
    let once = format!("{result:?}");
    refresh_result_summaries(&mut result);
    assert_eq!(format!("{result:?}"), once);
    retain_entity_reviews(&mut result, |_| true);
    assert_eq!(format!("{result:?}"), once);
}

#[test]
fn two_filters_in_a_row_are_one() {
    let mut twice = result_of(&["a", "b", "c", "d"], &[("a", "b"), ("b", "c"), ("c", "d")]);
    let mut once = twice.clone();
    retain_entity_reviews(&mut twice, |r| r.entity_id != "a");
    retain_entity_reviews(&mut twice, |r| r.entity_id != "c");
    retain_entity_reviews(&mut once, |r| r.entity_id != "a" && r.entity_id != "c");
    assert_eq!(format!("{:?}", twice.groups), format!("{:?}", once.groups));
    assert_eq!(twice.dependency_edges, once.dependency_edges);
    assert_eq!(twice.stats, once.stats);
    assert_eq!(group_ids(&twice), group_ids(&once));
}

#[test]
fn stats_count_every_review_once() {
    let levels = [RiskLevel::Critical, RiskLevel::High, RiskLevel::Medium, RiskLevel::Low];
    let classes = [
        ChangeClassification::Text,
        ChangeClassification::Syntax,
        ChangeClassification::Functional,
        ChangeClassification::TextSyntax,
        ChangeClassification::TextFunctional,
        ChangeClassification::SyntaxFunctional,
        ChangeClassification::TextSyntaxFunctional,
    ];
    let kinds = [
        ChangeType::Added,
        ChangeType::Modified,
        ChangeType::Deleted,
        ChangeType::Moved,
        ChangeType::Renamed,
        ChangeType::Reordered,
    ];
    let mut reviews = vec![];
    for level in levels {
        for class in classes {
            for kind in kinds {
                let mut review = make_review("a", "a", level);
                review.classification = class;
                review.change_type = kind;
                reviews.push(review);
            }
        }
    }
    let stats = compute_stats(&reviews);
    assert_eq!(stats.total_entities, 168);
    let risk = stats.by_risk;
    assert_eq!((risk.critical, risk.high, risk.medium, risk.low), (42, 42, 42, 42));
    let class = stats.by_classification;
    assert_eq!((class.text, class.syntax, class.functional, class.mixed), (24, 24, 24, 96));
    let kind = stats.by_change_type;
    assert_eq!(
        (kind.added, kind.modified, kind.deleted, kind.moved, kind.renamed),
        (28, 56, 28, 28, 28)
    );
}
