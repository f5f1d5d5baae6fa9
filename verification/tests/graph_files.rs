//! Which files the dependency graph is built from.

use inspect_core::analyze::AnalyzeError;
use inspect_core::source::SourceFilter;
use inspect_core::tree::{
    graph_source_for_scope, index_entry, list_source_files, select_source_files, visit_entry,
    DiffScope, EntryKind, GraphSource, Visit,
};

fn is_noise(path: &String) -> bool {
    path.ends_with("go.sum") || path.starts_with("vendor/")
}

#[test]
fn the_graph_comes_from_the_tree_that_the_diff_leads_to() {
    let commit = DiffScope::Commit { sha: "abc".to_string() };
    assert!(matches!(graph_source_for_scope(&commit), GraphSource::Revision(r) if r == "abc"));
    let range = DiffScope::Range { from: "one".to_string(), to: "two".to_string() };
    assert!(matches!(graph_source_for_scope(&range), GraphSource::Revision(r) if r == "two"));
    assert!(matches!(graph_source_for_scope(&DiffScope::Staged), GraphSource::Index));
    assert!(matches!(graph_source_for_scope(&DiffScope::Working), GraphSource::WorkingTree));
    let to_working = DiffScope::RefToWorking { refspec: "main".to_string() };
    assert!(matches!(graph_source_for_scope(&to_working), GraphSource::WorkingTree));
}

#[test]
fn trees_are_descended_and_source_blobs_written() {
    let filter = SourceFilter::new();
    let visit = |prefix: &str, name: &str, kind: EntryKind| {
        visit_entry(prefix, Some(name), kind, &filter).unwrap()
    };
    assert!(matches!(visit("", "src", EntryKind::Tree), Visit::Descend(p) if p == "src"));
    assert!(matches!(visit("src", "a.b", EntryKind::Tree), Visit::Descend(p) if p == "src/a.b"));
    assert!(matches!(visit("", "lib.rs", EntryKind::Blob), Visit::Write(p) if p == "lib.rs"));
    assert!(matches!(visit("a/b", "c.py", EntryKind::Blob), Visit::Write(p) if p == "a/b/c.py"));
    assert!(matches!(visit("a.rs", "LICENSE", EntryKind::Blob), Visit::Skip));
    assert!(matches!(visit("", "sub.rs", EntryKind::Other), Visit::Skip));
}

#[test]
fn an_entry_without_a_name_is_an_error() {
    let filter = SourceFilter::new();
    for kind in [EntryKind::Tree, EntryKind::Blob, EntryKind::Other] {
        let error = visit_entry("src", None, kind, &filter).unwrap_err();
        assert!(matches!(&error, AnalyzeError::Git(e) if e == "tree entry is not valid UTF-8"));
        assert_eq!(error.message(), "git error: tree entry is not valid UTF-8");
    }
}

#[test]
fn index_entries_with_a_source_path_are_kept() {
    let filter = SourceFilter::new();
    assert_eq!(index_entry(&b"src/lib.rs".to_vec(), &filter), Some("src/lib.rs".to_string()));
    assert_eq!(
        index_entry(&"größe.py".as_bytes().to_vec(), &filter),
        Some("größe.py".to_string())
    );
    assert_eq!(index_entry(&b"LICENSE".to_vec(), &filter), None);
    assert_eq!(index_entry(&b"a\xff.rs".to_vec(), &filter), None);
    assert_eq!(index_entry(&vec![], &filter), None);
}

#[test]
fn a_listing_is_filtered_by_noise_and_extension() {
    let listing = "src/lib.rs\ngo.sum\nvendor/a.rs\nLICENSE\r\nREADME.md\r\n\nlast.py";
    assert_eq!(
        select_source_files(listing, &is_noise),
        vec!["src/lib.rs", "README.md", "last.py"]
    );
    assert!(select_source_files("", &is_noise).is_empty());
}

#[test]
fn listing_the_tracked_files() {
    let printed = Ok((true, b"a.rs\nvendor/b.rs\nc\xff.rs\nd\n".to_vec()));
    assert_eq!(list_source_files(&printed, &is_noise).unwrap(), vec!["a.rs", "c\u{fffd}.rs"]);
    let failed = Ok((false, b"a.rs\n".to_vec()));
    let error = list_source_files(&failed, &is_noise).unwrap_err();
    assert_eq!(error.message(), "git error: git ls-files failed");
    let not_run = Err("No such file or directory".to_string());
    let error = list_source_files(&not_run, &is_noise).unwrap_err();
    assert_eq!(
        error.message(),
        "git error: failed to run git ls-files: No such file or directory"
    );
}
