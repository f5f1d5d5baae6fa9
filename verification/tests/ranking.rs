//! Ordering by score.

use inspect_core::rank::{rank, rank_reviews, score_bits, score_key};
use inspect_core::types::{ChangeClassification, ChangeType, EntityReview, RiskLevel};

fn review(id: &str, score: f64) -> EntityReview {
    EntityReview {
        entity_id: id.into(),
        entity_name: id.into(),
        entity_type: "function".into(),
        file_path: "f.rs".into(),
        change_type: ChangeType::Modified,
        classification: ChangeClassification::Functional,
        risk_score: score_key(score.to_bits()),
        risk_level: RiskLevel::Low,
        blast_radius: 0,
        dependent_count: 0,
        dependency_count: 0,
        is_public_api: false,
        structural_change: None,
        group_id: 0,
        start_line: 1,
        end_line: 1,
        before_content: None,
        after_content: None,
        dependent_names: vec![],
        dependency_names: vec![],
        dependent_entities: vec![],
    }
}

#[test]
fn keys_order_as_the_scores_do() {
    let scores = [
        f64::NEG_INFINITY,
        f64::MIN,
        -1.5,
        -1.0,
        -f64::MIN_POSITIVE,
        -5e-324,
        -0.0,
        0.0,
        5e-324,
        0.25,
        0.5,
        0.75,
        1.0,
        1e300,
        f64::INFINITY,
    ];
    for a in scores {
        for b in scores {
            let (x, y) = (score_key(a.to_bits()), score_key(b.to_bits()));
            assert_eq!(a.partial_cmp(&b), Some(x.cmp(&y)), "{a} {b}");
        }
    }
}

#[test]
fn keys_give_the_scores_back() {
    for score in [0.0, 0.5, 0.123456789, 1.0, -2.5, f64::MAX, f64::NEG_INFINITY] {
        let key = score_key(f64::to_bits(score));
        assert_eq!(f64::from_bits(score_bits(key)), score);
    }
    assert_eq!(score_key((-0.0f64).to_bits()), 0);
    assert_eq!(score_bits(0), 0.0f64.to_bits());
    assert_eq!(score_key(1.0f64.to_bits()), 0x3ff0_0000_0000_0000);
}

#[test]
fn the_highest_comes_first_and_equals_keep_their_order() {
    assert_eq!(rank(&vec![]), Vec::<usize>::new());
    assert_eq!(rank(&vec![5]), vec![0]);
    assert_eq!(rank(&vec![1, 3, 2, 3, 1, 3]), vec![1, 3, 5, 2, 0, 4]);
    assert_eq!(rank(&vec![i64::MIN, i64::MAX, 0]), vec![1, 2, 0]);
}

#[test]
fn ranking_is_a_stable_sort() {
    let mut state: u64 = 12345;
    for n in 0..40usize {
        let mut keys = vec![];
        for _ in 0..n {
            state = state.wrapping_mul(6364136223846793005).wrapping_add(1442695040888963407);
            keys.push((state >> 60) as i64 - 8);
        }
        let mut expected: Vec<usize> = (0..n).collect();
        expected.sort_by(|a, b| keys[*b].cmp(&keys[*a]));
        assert_eq!(rank(&keys), expected);
    }
}

#[test]
fn reviews_are_ranked_by_score() {
    let all = vec![review("a", 0.25), review("b", 0.75), review("c", 0.25), review("d", 0.5)];
    let ids: Vec<String> = rank_reviews(all).into_iter().map(|r| r.entity_id).collect();
    assert_eq!(ids, vec!["b", "d", "a", "c"]);
}
