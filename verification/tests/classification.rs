//! How changes are classified.

use inspect_core::classify::{categorize_line, classify_change, is_comment_line, is_syntax_line};
use inspect_core::types::{ChangeClassification, ChangeType, SemanticChange};

fn make_change(before: &str, after: &str, structural: Option<bool>) -> SemanticChange {
    SemanticChange {
        id: "test".to_string(),
        entity_id: "test::fn::foo".to_string(),
        change_type: ChangeType::Modified,
        entity_type: "function".to_string(),
        entity_name: "foo".to_string(),
        entity_line: 0,
        start_line: 0,
        end_line: 0,
        old_start_line: None,
        old_end_line: None,
        parent_name: None,
        file_path: "test.rs".to_string(),
        old_entity_name: None,
        old_file_path: None,
        old_parent_id: None,
        before_content: Some(before.to_string()),
        after_content: Some(after.to_string()),
        commit_sha: None,
        author: None,
        timestamp: None,
        structural_change: structural,
    }
}

#[test]
fn text_only_change() {
    let change = make_change(
        "fn foo() {\n    // old comment\n    x + 1\n}",
        "fn foo() {\n    // new comment\n    x + 1\n}",
        Some(false),
    );
    assert_eq!(classify_change(&change), ChangeClassification::Text);
}

#[test]
fn functional_change() {
    let change = make_change(
        "fn foo() {\n    x + 1\n}",
        "fn foo() {\n    x + 2\n}",
        Some(true),
    );
    assert_eq!(classify_change(&change), ChangeClassification::Functional);
}

#[test]
fn mixed_text_functional() {
    let change = make_change(
        "fn foo() {\n    // old comment\n    x + 1\n}",
        "fn foo() {\n    // new comment\n    x + 2\n}",
        Some(true),
    );
    assert_eq!(classify_change(&change), ChangeClassification::TextFunctional);
}

#[test]
fn every_combination_of_dimensions() {
    let cases = [
        ("// a", "// b", ChangeClassification::Text),
        ("fn a() {}", "fn b() {}", ChangeClassification::Syntax),
        ("a = 1", "a = 2", ChangeClassification::Functional),
        ("// a\nfn a() {}", "// b\nfn b() {}", ChangeClassification::TextSyntax),
        ("// a\na = 1", "// b\na = 2", ChangeClassification::TextFunctional),
        ("fn a() {}\na = 1", "fn b() {}\na = 2", ChangeClassification::SyntaxFunctional),
        (
            "// a\nfn a() {}\na = 1",
            "// b\nfn b() {}\na = 2",
            ChangeClassification::TextSyntaxFunctional,
        ),
    ];
    for (before, after, expected) in cases {
        for structural in [None, Some(true)] {
            assert_eq!(classify_change(&make_change(before, after, structural)), expected);
            assert_eq!(classify_change(&make_change(after, before, structural)), expected);
        }
        assert_eq!(
            classify_change(&make_change(before, after, Some(false))),
            ChangeClassification::Text
        );
    }
}

#[test]
fn added_and_deleted_entities_are_functional() {
    for structural in [None, Some(false), Some(true)] {
        for (before, after) in [("", "// a"), ("// a", ""), ("", "")] {
            assert_eq!(
                classify_change(&make_change(before, after, structural)),
                ChangeClassification::Functional
            );
        }
        let mut change = make_change("", "fn a() {}", structural);
        change.before_content = None;
        assert_eq!(classify_change(&change), ChangeClassification::Functional);
    }
}

#[test]
fn white_space_is_text() {
    assert_eq!(
        classify_change(&make_change("a = 1\n", "\n  a = 1  \r\n", None)),
        ChangeClassification::Text
    );
    assert_eq!(classify_change(&make_change("a", "a", None)), ChangeClassification::Text);
}

#[test]
fn a_new_order_of_the_same_lines_is_functional() {
    assert_eq!(
        classify_change(&make_change("a = 1\nb = 2", "b = 2\na = 1", None)),
        ChangeClassification::Functional
    );
    assert_eq!(
        classify_change(&make_change("a = 1\nb = 2", "a = 1\n\nb = 2", None)),
        ChangeClassification::Functional
    );
}

#[test]
fn comment_lines() {
    for line in ["// a", "/* a", "* a", "/// a", "/** a", "\"\"\"a", "# a", "#", "#!"] {
        assert!(is_comment_line(line), "{line}");
    }
    for line in ["", "a // b", "#[test]", "/ a", "\"\"a", "x"] {
        assert!(!is_comment_line(line), "{line}");
    }
}

#[test]
fn syntax_lines() {
    for line in [
        "fn a()",
        "pub fn a()",
        "pub(crate) fn a()",
        "def a():",
        "class A",
        "struct A",
        "enum A",
        "trait A",
        "impl A",
        "interface A",
        "type A",
        "pub struct A",
        "pub enum A",
        "pub trait A",
        "async fn a()",
        "pub async fn a()",
        "function a()",
        "export function a()",
        "export default a",
        "a -> b",
        "a => b",
        "a: &str",
        "a: Vec<u8>",
        "a: Option<u8>",
        "a: Result<u8>",
    ] {
        assert!(is_syntax_line(line), "{line}");
    }
    for line in ["", "fn", "fna", "a fn b", "a =>b", "a: Box<u8>", "mod a", "const fn a()"] {
        assert!(!is_syntax_line(line), "{line}");
    }
}

#[test]
fn a_line_sets_one_flag_and_clears_none() {
    let (mut text, mut syntax, mut functional) = (false, false, false);
    categorize_line("# -> a", &mut text, &mut syntax, &mut functional);
    assert_eq!((text, syntax, functional), (true, false, false));
    categorize_line("a -> b", &mut text, &mut syntax, &mut functional);
    assert_eq!((text, syntax, functional), (true, true, false));
    categorize_line("a", &mut text, &mut syntax, &mut functional);
    assert_eq!((text, syntax, functional), (true, true, true));
}
