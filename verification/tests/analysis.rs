//! The analysis of a diff.

use std::io::Write;
use std::time::Instant;

use inspect_core::analyze::{
    analyze, analyze_remote, analyze_with_options, begin_context, conclude, diff_files,
    empty_result, filter_noise, graph_facts, phase_of, remote_change, remote_changes,
    remote_result, review_remote,
    AnalysisContext, AnalyzeError, AnalyzeOptions, DiffPhase,
};
use inspect_core::rank::score_key;
use inspect_core::types::{
    ChangeClassification, ChangeType, EntityReview, FileChange, FilePair, FileStatus,
    ReviewResult, RiskLevel, SemanticChange, Timing,
};
use sem_core::parser::graph::{EntityGraph, EntityInfo, EntityInfoMap, EntityRef, RefType};

fn is_noise(path: &String) -> bool {
    path.ends_with("go.sum")
}

fn is_public(kind: &String, name: &String, text: Option<&String>) -> bool {
    kind == "function" && !name.starts_with('_') && text.map_or(false, |t| t.contains("pub"))
}

fn score(review: &EntityReview, total: usize) -> i64 {
    let mut s = 0.25;
    if review.is_public_api {
        s += 0.25;
    }
    if total > 0 {
        s += review.blast_radius as f64 / total as f64;
    }
    score_key(f64::to_bits(s))
}

fn level(key: i64) -> RiskLevel {
    if key >= score_key(0.75f64.to_bits()) {
        RiskLevel::Critical
    } else if key >= score_key(0.5f64.to_bits()) {
        RiskLevel::High
    } else {
        RiskLevel::Low
    }
}

fn read(path: &String) -> Option<String> {
    if path == "main.rs" {
        Some("pub fn a() {\n    b();\n}\n\nfn b() {\n    c();\n}\n".to_string())
    } else {
        None
    }
}

fn rank_of(own: usize, public: bool, cross_file: bool) -> i64 {
    own as i64 * 4 + if public { 2 } else { 0 } + if cross_file { 1 } else { 0 }
}

fn pair(name: &str, status: &str, before: Option<&str>, after: Option<&str>) -> FilePair {
    FilePair {
        filename: name.to_string(),
        status: status.to_string(),
        before_content: before.map(|s| s.to_string()),
        after_content: after.map(|s| s.to_string()),
    }
}

fn remote(pairs: &[FilePair]) -> ReviewResult {
    analyze_remote(pairs, &is_noise, &is_public, &score, &level).unwrap()
}

fn assert_empty(result: &ReviewResult) {
    assert!(result.entity_reviews.is_empty());
    assert!(result.groups.is_empty());
    assert!(result.dependency_edges.is_empty());
    assert!(result.changes.is_empty());
    assert_eq!(result.timing, Timing::default());
    assert_eq!(result.stats.total_entities, 0);
    assert_eq!(result.stats, inspect_core::summary::compute_stats(&[]));
}

#[test]
fn analyze_remote_counts_filtered_files_in_timing() {
    let result = analyze_remote(
        &[
            FilePair {
                filename: "go.sum".to_string(),
                status: "modified".to_string(),
                before_content: Some("module.example/pkg v0.0.1 h1:aaaa=\n".to_string()),
                after_content: Some("module.example/pkg v0.0.1 h1:bbbb=\n".to_string()),
            },
            FilePair {
                filename: "main.rs".to_string(),
                status: "modified".to_string(),
                before_content: Some("fn hello() {\n    println!(\"one\");\n}\n".to_string()),
                after_content: Some("fn hello() {\n    println!(\"two\");\n}\n".to_string()),
            },
        ],
        &is_noise,
        &is_public,
        &score,
        &level,
    )
    .unwrap();

    assert_eq!(result.timing.file_count, 1);
    assert!(!result.entity_reviews.is_empty());
    assert!(result
        .entity_reviews
        .iter()
        .all(|review| review.file_path == "main.rs"));
}

#[test]
fn remote_files_are_diffed_reviewed_and_ranked() {
    let result = remote(&[
        pair("a.rs", "modified", Some("fn f() {\n    1\n}\n"), Some("fn f() {\n    2\n}\n")),
        pair("b.rs", "added", None, Some("pub fn g() {\n    3\n}\n")),
        pair("c.rs", "removed", Some("fn h() {\n    4\n}\n"), None),
    ]);
    assert_eq!(result.timing.file_count, 3);
    assert_eq!(result.timing.graph_entity_count, 0);
    assert_eq!(result.changes.len(), 3);
    let names: Vec<&str> = result.entity_reviews.iter().map(|r| r.entity_name.as_str()).collect();
    assert_eq!(names, vec!["g", "f", "h"]);
    let g = &result.entity_reviews[0];
    assert_eq!(g.change_type, ChangeType::Added);
    assert_eq!(g.classification, ChangeClassification::Functional);
    assert!(g.is_public_api);
    assert_eq!(g.risk_level, RiskLevel::High);
    assert_eq!(g.risk_score, score_key(0.5f64.to_bits()));
    assert_eq!((g.blast_radius, g.dependent_count, g.dependency_count), (0, 0, 0));
    assert_eq!((g.start_line, g.end_line), (0, 0));
    assert_eq!(g.before_content, None);
    assert!(g.after_content.as_ref().unwrap().contains("pub fn g"));
    assert_eq!(result.entity_reviews[1].change_type, ChangeType::Modified);
    assert_eq!(result.entity_reviews[2].change_type, ChangeType::Deleted);
    assert_eq!(result.groups.len(), 3);
    let group_ids: Vec<usize> = result.entity_reviews.iter().map(|r| r.group_id).collect();
    assert_eq!(group_ids, vec![0, 1, 2]);
    assert!(result.dependency_edges.is_empty());
    assert_eq!(result.stats.total_entities, 3);
    assert_eq!(result.stats.by_change_type.added, 1);
    assert_eq!(result.stats.by_change_type.modified, 1);
    assert_eq!(result.stats.by_change_type.deleted, 1);
    assert_eq!(result.stats.by_risk.high, 1);
    assert_eq!(result.stats.by_risk.low, 2);
}

#[test]
fn nothing_to_review_gives_the_empty_result() {
    assert_empty(&empty_result());
    assert_empty(&remote(&[]));
    assert_empty(&remote(&[pair("go.sum", "modified", Some("a\n"), Some("b\n"))]));
    let same = "fn f() {\n    1\n}\n";
    assert_empty(&remote(&[pair("a.rs", "modified", Some(same), Some(same))]));
}

#[test]
fn the_status_of_a_remote_file() {
    for (status, expected) in [
        ("added", FileStatus::Added),
        ("removed", FileStatus::Deleted),
        ("renamed", FileStatus::Renamed),
        ("modified", FileStatus::Modified),
        ("changed", FileStatus::Modified),
        ("Added", FileStatus::Modified),
        ("", FileStatus::Modified),
    ] {
        let change = remote_change(&pair("a.rs", status, Some("x"), None));
        assert_eq!(change.status, expected, "{status}");
        assert_eq!(change.file_path, "a.rs");
        assert_eq!(change.old_file_path, None);
        assert_eq!(change.before_content.as_deref(), Some("x"));
        assert_eq!(change.after_content, None);
    }
}

#[test]
fn noise_is_left_out() {
    let pairs = [
        pair("a.rs", "added", None, Some("x")),
        pair("go.sum", "added", None, Some("y")),
        pair("b.rs", "added", None, Some("z")),
    ];
    let changes = remote_changes(&pairs, &is_noise);
    let paths: Vec<&str> = changes.iter().map(|c| c.file_path.as_str()).collect();
    assert_eq!(paths, vec!["a.rs", "b.rs"]);
    let kept = filter_noise(pairs.iter().map(remote_change).collect(), &is_noise);
    let paths: Vec<&str> = kept.iter().map(|c| c.file_path.as_str()).collect();
    assert_eq!(paths, vec!["a.rs", "b.rs"]);
}

fn file(path: &str, before: &str, after: &str) -> FileChange {
    FileChange {
        file_path: path.to_string(),
        status: FileStatus::Modified,
        old_file_path: None,
        before_content: Some(before.to_string()),
        after_content: Some(after.to_string()),
    }
}

#[test]
fn the_diff_of_changed_files() {
    assert!(diff_files(&vec![]).is_none());
    assert!(diff_files(&vec![file("a.py", "x = 1\n", "x = 1\n")]).is_none());
    let files = vec![file(
        "a.py",
        "def f():\n    return 1\n\ndef g():\n    return 2\n",
        "def f():\n    return 3\n\ndef g():\n    return 2\n",
    )];
    let phase = diff_files(&files).unwrap();
    assert_eq!(phase.changes.len(), 1);
    let change = &phase.changes[0];
    assert_eq!(change.entity_name, "f");
    assert_eq!(change.entity_type, "function");
    assert_eq!(change.file_path, "a.py");
    assert_eq!(change.change_type, ChangeType::Modified);
    assert_eq!(change.structural_change, Some(true));
    assert_eq!((change.start_line, change.end_line), (1, 2));
    assert_eq!((&change.commit_sha, &change.author, &change.timestamp), (&None, &None, &None));
    assert!(change.before_content.as_ref().unwrap().contains("return 1"));
    assert!(change.after_content.as_ref().unwrap().contains("return 3"));
}

#[test]
fn a_context_begins_without_noise() {
    let noisy = || file("go.sum", "a\n", "b\n");
    assert!(begin_context(vec![], &is_noise).is_none());
    assert!(begin_context(vec![noisy()], &is_noise).is_none());
    let source = || file("a.py", "def f():\n    return 1\n", "def f():\n    return 2\n");
    let phase = begin_context(vec![noisy(), source()], &is_noise).unwrap();
    assert!(phase.changes.iter().all(|c| c.file_path == "a.py"));
}

fn graph() -> EntityGraph {
    let mut entities = EntityInfoMap::default();
    for (name, start, end) in [("a", 1, 3), ("b", 5, 7), ("c", 9, 9), ("lone", 11, 12)] {
        entities.insert(
            name.to_string(),
            EntityInfo {
                id: name.to_string(),
                name: format!("{name}_name"),
                entity_type: "function".to_string(),
                file_path: "main.rs".to_string(),
                parent_id: None,
                start_line: start,
                end_line: end,
            },
        );
    }
    let edge = |from: &str, to: &str| EntityRef {
        from_entity: from.to_string(),
        to_entity: to.to_string(),
        ref_type: RefType::Calls,
    };
    EntityGraph::from_parts(
        entities,
        vec![edge("a", "b"), edge("b", "c"), edge("c", "nowhere"), edge("nowhere", "a")],
    )
}

fn change(id: &str, text: &str) -> SemanticChange {
    SemanticChange {
        id: format!("change::{id}"),
        entity_id: id.to_string(),
        change_type: ChangeType::Modified,
        entity_type: "function".to_string(),
        entity_name: id.to_string(),
        entity_line: 1,
        start_line: 1,
        end_line: 2,
        old_start_line: None,
        old_end_line: None,
        parent_name: None,
        file_path: "main.rs".to_string(),
        old_entity_name: None,
        old_file_path: None,
        old_parent_id: None,
        before_content: Some("x".to_string()),
        after_content: Some(text.to_string()),
        commit_sha: None,
        author: None,
        timestamp: None,
        structural_change: Some(true),
    }
}

#[test]
fn what_the_graph_says_of_an_entity() {
    let graph = graph();
    let b = graph_facts(&graph, "b");
    let ids = |v: &Vec<inspect_core::types::EntityInfo>| -> Vec<String> {
        v.iter().map(|e| e.id.clone()).collect()
    };
    assert_eq!(ids(&b.dependents), vec!["a"]);
    assert_eq!(ids(&b.dependencies), vec!["c"]);
    assert_eq!(b.dependents[0].name, "a_name");
    assert_eq!(b.dependents[0].file_path, "main.rs");
    assert_eq!(b.blast_radius, 3);
    assert_eq!((b.start_line, b.end_line), (5, 7));
    let a = graph_facts(&graph, "a");
    assert!(a.dependents.is_empty());
    assert_eq!(a.blast_radius, 3);
    let lone = graph_facts(&graph, "lone");
    assert_eq!(lone.blast_radius, 0);
    let unknown = graph_facts(&graph, "nowhere");
    assert_eq!(unknown.blast_radius, 0);
    assert_eq!(ids(&unknown.dependents), vec!["c"]);
    assert_eq!((unknown.start_line, unknown.end_line), (0, 0));
}

#[test]
fn the_blast_radius_is_capped() {
    let mut entities = EntityInfoMap::default();
    entities.insert(
        "hub".to_string(),
        EntityInfo {
            id: "hub".to_string(),
            name: "hub".to_string(),
            entity_type: "function".to_string(),
            file_path: "main.rs".to_string(),
            parent_id: None,
            start_line: 1,
            end_line: 1,
        },
    );
    let edges = (0..10_050)
        .map(|i| EntityRef {
            from_entity: format!("u{i}"),
            to_entity: "hub".to_string(),
            ref_type: RefType::Calls,
        })
        .collect();
    let graph = EntityGraph::from_parts(entities, edges);
    let facts = graph_facts(&graph, "hub");
    assert_eq!(facts.blast_radius, 10_000);
    assert!(facts.dependents.is_empty());
}

fn context(changes: Vec<SemanticChange>) -> AnalysisContext {
    AnalysisContext::new(DiffPhase { changes, diff_ms: 1 }, graph(), 2, 3, 4)
}

#[test]
fn a_context_knows_its_ids_and_its_size() {
    let ctx = context(vec![change("a", "1"), change("b", "2"), change("a", "3")]);
    assert_eq!(ctx.total_graph_entities, 4);
    assert_eq!(ctx.changed_entity_ids.len(), 2);
    assert!(ctx.changed_entity_ids.contains("a") && ctx.changed_entity_ids.contains("b"));
}

#[test]
fn changes_are_reviewed_against_the_graph() {
    let ctx = context(vec![
        change("lone", "pub x"),
        change("a", "y"),
        change("b", "pub z"),
        change("gone", "w"),
    ]);
    let options = AnalyzeOptions { include_dependent_code: true, ..AnalyzeOptions::default() };
    let result = analyze_with_options(
        Ok(Some(ctx)),
        &options,
        &Instant::now(),
        &read,
        &is_public,
        &score,
        &level,
        &rank_of,
    )
    .unwrap();
    let ids: Vec<&str> = result.entity_reviews.iter().map(|r| r.entity_id.as_str()).collect();
    assert_eq!(ids, vec!["b", "a", "lone", "gone"]);
    let b = &result.entity_reviews[0];
    assert_eq!(b.blast_radius, 3);
    assert_eq!((b.dependent_count, b.dependency_count), (1, 1));
    assert_eq!(b.dependent_names, vec![("a_name".to_string(), "main.rs".to_string())]);
    assert_eq!(b.dependency_names, vec![("c_name".to_string(), "main.rs".to_string())]);
    assert_eq!((b.start_line, b.end_line), (5, 7));
    assert_eq!(b.risk_score, score_key(1.25f64.to_bits()));
    assert_eq!(b.risk_level, RiskLevel::Critical);
    assert_eq!(b.dependent_entities.len(), 1);
    assert_eq!(b.dependent_entities[0].entity_name, "a_name");
    assert_eq!(b.dependent_entities[0].content, "pub fn a() {\n    b();\n}");
    let gone = &result.entity_reviews[3];
    assert_eq!((gone.start_line, gone.end_line), (0, 0));
    assert_eq!(gone.blast_radius, 0);
    let edge = |from: &str, to: &str| (from.to_string(), to.to_string());
    assert_eq!(result.dependency_edges, vec![edge("a", "b"), edge("b", "a")]);
    let group_ids: Vec<usize> = result.entity_reviews.iter().map(|r| r.group_id).collect();
    assert_eq!(group_ids, vec![0, 0, 1, 2]);
    assert_eq!(result.groups[0].entity_ids, vec!["b", "a"]);
    assert_eq!(result.stats.total_entities, 4);
    let changed: Vec<&str> = result.changes.iter().map(|c| c.entity_id.as_str()).collect();
    assert_eq!(changed, vec!["lone", "a", "b", "gone"]);
    let timing = result.timing;
    assert_eq!((timing.diff_ms, timing.list_files_ms, timing.graph_build_ms), (1, 3, 4));
    assert_eq!((timing.file_count, timing.graph_entity_count), (2, 4));
}

#[test]
fn dependencies_come_before_dependents_among_the_edges() {
    let ctx = context(vec![change("b", "1"), change("a", "2"), change("c", "3")]);
    let result =
        analyze(Ok(Some(ctx)), &Instant::now(), &read, &is_public, &score, &level, &rank_of)
            .unwrap();
    let edge = |from: &str, to: &str| (from.to_string(), to.to_string());
    assert_eq!(
        result.dependency_edges,
        vec![edge("b", "c"), edge("b", "a"), edge("a", "b"), edge("c", "b")]
    );
    assert_eq!(result.groups.len(), 1);
    assert!(result.entity_reviews.iter().all(|r| r.dependent_entities.is_empty()));
}

#[test]
fn errors_and_empty_diffs_are_handed_on() {
    let none = analyze(Ok(None), &Instant::now(), &read, &is_public, &score, &level, &rank_of);
    assert_empty(&none.unwrap());
    let git = analyze(
        Err(AnalyzeError::Git("no repository".to_string())),
        &Instant::now(),
        &read,
        &is_public,
        &score,
        &level,
        &rank_of,
    );
    assert_eq!(git.unwrap_err().message(), "git error: no repository");
    let io = analyze(
        Err(AnalyzeError::Io("disk full".to_string())),
        &Instant::now(),
        &read,
        &is_public,
        &score,
        &level,
        &rank_of,
    );
    assert_eq!(io.unwrap_err().message(), "io error: disk full");
}

#[test]
fn default_options() {
    let options = AnalyzeOptions::default();
    assert!(!options.include_dependent_code);
    assert_eq!(options.max_dependents_per_entity, 5);
    assert_eq!(options.max_dependent_lines, 100);
}

#[test]
fn concluding_the_same_reviews_gives_a_result_in_step() {
    let ctx = context(vec![change("a", "1"), change("b", "pub 2"), change("lone", "3")]);
    let result =
        analyze(Ok(Some(ctx)), &Instant::now(), &read, &is_public, &score, &level, &rank_of)
            .unwrap();
    let mut refreshed = result.clone();
    inspect_core::summary::refresh_result_summaries(&mut refreshed);
    assert_eq!(format!("{refreshed:?}"), format!("{result:?}"));
    let again = conclude(
        result.entity_reviews.clone(),
        result.dependency_edges.clone(),
        result.changes.clone(),
        result.timing,
    );
    assert_eq!(format!("{again:?}"), format!("{result:?}"));
}

#[test]
fn remote_reviews_see_no_graph() {
    let phase = DiffPhase { changes: vec![change("a", "pub 1"), change("b", "2")], diff_ms: 9 };
    let result = review_remote(phase, 7, &Instant::now(), &is_public, &score, &level);
    assert_eq!(result.timing.diff_ms, 9);
    assert_eq!(result.timing.file_count, 7);
    assert_eq!(result.entity_reviews.len(), 2);
    for review in &result.entity_reviews {
        assert_eq!((review.blast_radius, review.dependent_count, review.dependency_count), (0, 0, 0));
        assert!(review.dependent_names.is_empty() && review.dependency_names.is_empty());
    }
    assert_eq!(result.groups.len(), 2);
}

#[test]
fn a_diff_and_its_graph_speak_of_the_same_entities() {
    let before = "def helper():\n    return 'old'\n\ndef caller():\n    return helper()\n";
    let after =
        "def helper(prefix='ok'):\n    return prefix\n\ndef caller():\n    return helper()\n";
    let dir = tempfile::TempDir::new().unwrap();
    let mut source = tempfile::Builder::new()
        .prefix("service")
        .suffix(".py")
        .rand_bytes(0)
        .tempfile_in(dir.path())
        .unwrap();
    source.write_all(after.as_bytes()).unwrap();
    source.flush().unwrap();
    let registry = sem_core::parser::plugins::create_default_registry();
    let (graph, _) = EntityGraph::build(dir.path(), &["service.py".to_string()], &registry);

    let phase = begin_context(vec![file("service.py", before, after)], &is_noise).unwrap();
    let ctx = AnalysisContext::new(phase, graph, 1, 0, 0);
    assert!(ctx.total_graph_entities >= 2);
    let options = AnalyzeOptions { include_dependent_code: true, ..AnalyzeOptions::default() };
    let result = analyze_with_options(
        Ok(Some(ctx)),
        &options,
        &Instant::now(),
        &|path: &String| if path == "service.py" { Some(after.to_string()) } else { None },
        &is_public,
        &score,
        &level,
        &rank_of,
    )
    .unwrap();
    let helper = result.entity_reviews.iter().find(|r| r.entity_name == "helper").unwrap();
    assert!(helper.start_line > 0);
    assert!(helper.end_line >= helper.start_line);
    assert!(helper.dependent_count > 0);
    assert!(helper.dependent_entities.iter().any(|entity| {
        entity.entity_name == "caller" && entity.content.contains("return helper()")
    }));
}

#[test]
fn a_diff_without_changes_is_not_gone_on_with() {
    assert!(phase_of(vec![], 5).is_none());
    let phase = phase_of(vec![change("a", "1"), change("b", "2")], 5).unwrap();
    assert_eq!(phase.diff_ms, 5);
    assert_eq!(phase.changes.len(), 2);
    assert_eq!(phase.changes[1].entity_id, "b");
}

#[test]
fn what_a_remote_diff_found_decides_the_result() {
    let start = Instant::now();
    assert_empty(&remote_result(None, 3, &start, &is_public, &score, &level));
    let phase = phase_of(vec![change("a", "1")], 5);
    let result = remote_result(phase, 3, &start, &is_public, &score, &level);
    assert_eq!(result.changes.len(), 1);
    assert_eq!(result.timing.diff_ms, 5);
    assert_eq!(result.timing.file_count, 3);
}

#[test]
fn files_that_lack_content_have_no_changes() {
    let text = Some("fn f() {\n    1\n}\n");
    assert_empty(&remote(&[
        pair("a.rs", "added", text, None),
        pair("b.rs", "removed", None, text),
        pair("c.rs", "modified", text, None),
        pair("d.rs", "renamed", None, text),
        pair("e.rs", "other", None, None),
    ]));
    assert!(!remote(&[pair("a.rs", "added", None, text)]).changes.is_empty());
    assert!(!remote(&[pair("b.rs", "removed", text, None)]).changes.is_empty());
}

fn without_times(mut result: ReviewResult) -> ReviewResult {
    result.timing = Timing {
        file_count: result.timing.file_count,
        graph_entity_count: result.timing.graph_entity_count,
        ..Timing::default()
    };
    result
}

#[test]
fn noise_changes_nothing_in_a_remote_analysis() {
    let source = [
        pair("a.rs", "modified", Some("fn f() {\n    1\n}\n"), Some("fn f() {\n    2\n}\n")),
        pair("b.rs", "added", None, Some("pub fn g() {\n    3\n}\n")),
    ];
    let noise = pair("sub/go.sum", "modified", Some("x v1\n"), Some("x v2\n"));
    let expected = format!("{:?}", without_times(remote(&source)));
    for at in 0..=source.len() {
        let mut pairs = source.to_vec();
        pairs.insert(at, noise.clone());
        pairs.push(noise.clone());
        assert_eq!(format!("{:?}", without_times(remote(&pairs))), expected);
    }
}

#[test]
fn options_change_only_the_source_of_dependents() {
    let run = |wanted: bool, max: usize| {
        let ctx = context(vec![change("a", "1"), change("b", "pub 2"), change("c", "3")]);
        let options = AnalyzeOptions {
            include_dependent_code: wanted,
            max_dependents_per_entity: max,
            max_dependent_lines: 100,
        };
        let result = analyze_with_options(
            Ok(Some(ctx)),
            &options,
            &Instant::now(),
            &read,
            &is_public,
            &score,
            &level,
            &rank_of,
        );
        without_times(result.unwrap())
    };
    let bare = |mut result: ReviewResult| {
        for review in &mut result.entity_reviews {
            review.dependent_entities.clear();
        }
        format!("{result:?}")
    };
    let listed = |result: &ReviewResult| -> usize {
        result.entity_reviews.iter().map(|r| r.dependent_entities.len()).sum()
    };
    let (plain, full, none) = (run(false, 5), run(true, 5), run(true, 0));
    assert_eq!(listed(&plain), 0);
    assert_eq!(listed(&full), 2);
    assert_eq!(listed(&none), 0);
    assert_eq!(bare(full), bare(plain.clone()));
    assert_eq!(bare(none), bare(plain));
}
