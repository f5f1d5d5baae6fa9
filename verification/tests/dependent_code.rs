//! The source of the entities that use a changed one.

use inspect_core::analyze::AnalyzeOptions;
use inspect_core::dependents::{collect_dependent_code, select_dependents, Candidate};
use inspect_core::types::EntityInfo;
use sem_core::parser::graph::{EntityGraph, EntityInfoMap, EntityRef, RefType};

const SOURCE: &str = "one\ntwo\r\nthree\nfour\nfive";

fn candidate(name: &str, lines: (usize, usize), rank: i64) -> Candidate {
    Candidate {
        info: EntityInfo {
            id: format!("f.py::{name}"),
            name: name.to_string(),
            entity_type: "function".to_string(),
            file_path: "f.py".to_string(),
            parent_id: None,
            start_line: lines.0,
            end_line: lines.1,
        },
        own_dependent_count: 3,
        source: Some(SOURCE.to_string()),
        is_public_api: true,
        rank,
    }
}

fn options(max_dependents: usize, max_lines: usize) -> AnalyzeOptions {
    AnalyzeOptions {
        include_dependent_code: true,
        max_dependents_per_entity: max_dependents,
        max_dependent_lines: max_lines,
    }
}

fn content(lines: (usize, usize), max_lines: usize) -> Option<String> {
    let shown = select_dependents(&vec![candidate("a", lines, 0)], &options(9, max_lines));
    shown.into_iter().next().map(|d| d.content)
}

#[test]
fn the_lines_of_an_entity_are_shown() {
    assert_eq!(content((2, 4), 100).as_deref(), Some("two\nthree\nfour"));
    assert_eq!(content((1, 1), 100).as_deref(), Some("one"));
    assert_eq!(content((0, 2), 100).as_deref(), Some("one\ntwo"));
    assert_eq!(content((4, 9), 100).as_deref(), Some("four\nfive"));
    assert_eq!(content((5, 5), 100).as_deref(), Some("five"));
    assert_eq!(content((6, 9), 100), None);
    assert_eq!(content((3, 2), 100), None);
    assert_eq!(content((0, 0), 100), None);
    assert_eq!(content((3, 3), 1).as_deref(), Some("three"));
}

#[test]
fn long_entities_are_left_out() {
    assert_eq!(content((1, 3), 3).as_deref(), Some("one\ntwo\nthree"));
    assert_eq!(content((1, 4), 3), None);
    assert_eq!(content((1, 1), 0), None);
    assert_eq!(content((0, usize::MAX), usize::MAX), None);
    assert_eq!(content((1, usize::MAX), usize::MAX).as_deref(), Some("one\ntwo\nthree\nfour\nfive"));
}

#[test]
fn unreadable_files_are_left_out_after_the_cut() {
    let mut first = candidate("a", (1, 1), 9);
    first.source = None;
    let all = vec![first, candidate("b", (2, 2), 5), candidate("c", (3, 3), 7)];
    let shown = select_dependents(&all, &options(2, 100));
    assert_eq!(shown.len(), 1);
    assert_eq!(shown[0].entity_name, "c");
    assert_eq!(shown[0].content, "three");
}

#[test]
fn the_highest_ranks_come_first() {
    let all = vec![
        candidate("a", (1, 1), 1),
        candidate("b", (2, 2), 3),
        candidate("c", (3, 3), 1),
        candidate("d", (4, 4), 3),
    ];
    let names = |max: usize| -> Vec<String> {
        select_dependents(&all, &options(max, 100)).into_iter().map(|d| d.entity_name).collect()
    };
    assert_eq!(names(9), vec!["b", "d", "a", "c"]);
    assert_eq!(names(3), vec!["b", "d", "a"]);
    assert!(names(0).is_empty());
    let shown = select_dependents(&all, &options(1, 100));
    assert_eq!(shown[0].entity_type, "function");
    assert_eq!(shown[0].file_path, "f.py");
    assert_eq!((shown[0].start_line, shown[0].end_line), (2, 2));
    assert_eq!(shown[0].own_dependent_count, 3);
    assert!(shown[0].is_public_api);
}

fn graph() -> EntityGraph {
    let mut entities = EntityInfoMap::default();
    for (name, file, start, end) in [
        ("helper", "a.py", 1, 2),
        ("near", "a.py", 4, 5),
        ("far", "b.py", 1, 2),
        ("gone", "gone.py", 1, 2),
        ("user", "b.py", 4, 5),
    ] {
        entities.insert(
            name.to_string(),
            sem_core::parser::graph::EntityInfo {
                id: name.to_string(),
                name: name.to_string(),
                entity_type: "function".to_string(),
                file_path: file.to_string(),
                parent_id: None,
                start_line: start,
                end_line: end,
            },
        );
    }
    let edge = |from: &str, to: &str| EntityRef {
        from_entity: from.to_string(),
        to_entity: to.to_string(),
        ref_type: RefType::Calls,
    };
    EntityGraph::from_parts(
        entities,
        vec![
            edge("near", "helper"),
            edge("far", "helper"),
            edge("gone", "helper"),
            edge("unknown", "helper"),
            edge("user", "near"),
        ],
    )
}

fn read(path: &String) -> Option<String> {
    match path.as_str() {
        "a.py" => Some("def helper():\n    pass\n\ndef near():\n    helper()\n".to_string()),
        "b.py" => Some("def _far():\n    helper()\n\ndef user():\n    near()\n".to_string()),
        _ => None,
    }
}

fn is_public(_kind: &String, _name: &String, text: Option<&String>) -> bool {
    text.map_or(false, |t| !t.starts_with("def _"))
}

fn rank_of(own: usize, public: bool, cross_file: bool) -> i64 {
    own as i64 * 10 + if public { 1 } else { 0 } + if cross_file { 5 } else { 0 }
}

#[test]
fn the_dependents_of_an_entity_are_collected() {
    let graph = graph();
    let shown = collect_dependent_code(
        &graph,
        &"helper".to_string(),
        &options(9, 100),
        &read,
        &is_public,
        &rank_of,
    );
    assert_eq!(shown.len(), 2);
    assert_eq!(shown[0].entity_name, "near");
    assert_eq!(shown[0].content, "def near():\n    helper()");
    assert_eq!(shown[0].own_dependent_count, 1);
    assert!(shown[0].is_public_api);
    assert_eq!(shown[1].entity_name, "far");
    assert_eq!(shown[1].content, "def _far():\n    helper()");
    assert_eq!(shown[1].own_dependent_count, 0);
    assert!(!shown[1].is_public_api);
}

#[test]
fn an_entity_without_dependents_shows_none() {
    let graph = graph();
    for id in ["user", "nowhere"] {
        let shown = collect_dependent_code(
            &graph,
            &id.to_string(),
            &options(9, 100),
            &read,
            &is_public,
            &rank_of,
        );
        assert!(shown.is_empty());
    }
}
