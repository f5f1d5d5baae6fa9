//! Which files hold entities.

use inspect_core::source::{has_extension, is_source_file, source_extensions, SourceFilter};

/// The thirteen that have always been allowed. None may regress.
const PREVIOUSLY_ALLOWED: &[&str] = &[
    "a.rs", "a.ts", "a.tsx", "a.js", "a.jsx", "a.py", "a.go", "a.java", "a.c", "a.cpp", "a.rb",
    "a.cs", "a.php",
];

/// Languages with a parser that a short list of extensions is likely to miss.
const PREVIOUSLY_DROPPED: &[&str] = &["a.dart", "a.swift", "a.kt", "a.ex", "a.sh", "a.lua"];

#[test]
fn keeps_every_extension_the_hand_written_list_had() {
    for path in PREVIOUSLY_ALLOWED {
        assert!(is_source_file(path), "{path} regressed out of the set");
    }
}

#[test]
fn picks_up_languages_the_hand_written_list_dropped() {
    for path in PREVIOUSLY_DROPPED {
        assert!(
            is_source_file(path),
            "{path}: sem parses this, so it must reach the graph"
        );
    }
}

#[test]
fn admits_data_docs_and_lockfiles() {
    for path in [
        "package-lock.json",
        "pnpm-lock.yaml",
        "README.md",
        "Cargo.toml",
        "data.csv",
        "config.yaml",
    ] {
        assert!(
            is_source_file(path),
            "{path}: the registry claims this, so this variant materializes it"
        );
    }
}

#[test]
fn rejects_files_no_plugin_claims() {
    for path in [
        "justfile",
        "Makefile",
        "Cargo.lock",
        "a.unknownext",
        "gradle.properties",
    ] {
        assert!(!is_source_file(path), "{path} should not be materialized");
    }
}

#[test]
fn registry_holds_multi_part_keys() {
    let derived = source_extensions();
    let multi: Vec<_> = derived.iter().filter(|e| e[1..].contains('.')).collect();
    assert!(
        !multi.is_empty(),
        "expected multi-part registry keys such as .svelte.spec.ts"
    );
    assert!(is_source_file("Counter.svelte.spec.ts"));
}

#[test]
fn handles_paths_without_an_extension() {
    for path in ["deploy", "src/deploy", ".gitignore", ""] {
        assert!(!is_source_file(path), "{path:?} has no claimed extension");
    }
}

#[test]
fn is_derived_from_the_registry_not_hand_listed() {
    let derived = source_extensions();
    assert!(
        derived.len() > PREVIOUSLY_ALLOWED.len() * 4,
        "expected the registry to claim many more than the 13 hand-listed, got {}",
        derived.len()
    );
}

#[test]
fn is_case_insensitive() {
    assert!(is_source_file("SRC/Main.DART"));
}

#[test]
fn extensions_are_listed_once_and_in_lower_case() {
    let derived = source_extensions();
    assert_eq!(derived.len(), 106);
    for (i, ext) in derived.iter().enumerate() {
        assert!(ext.starts_with('.'), "{ext}");
        assert_eq!(*ext, ext.to_ascii_lowercase());
        assert!(!derived[..i].contains(ext), "{ext} is listed twice");
    }
}

#[test]
fn extensions_are_those_of_the_registry() {
    let registry = sem_core::parser::plugins::create_default_registry();
    let derived = source_extensions();
    for ext in registry.registered_extensions() {
        assert!(derived.contains(&ext.to_ascii_lowercase()), "{ext}");
    }
}

#[test]
fn the_name_is_the_last_component() {
    assert!(is_source_file("src/lib.rs"));
    assert!(is_source_file("/src/lib.rs"));
    assert!(is_source_file("src/lib.rs/"));
    assert!(is_source_file("src/lib.rs/."));
    assert!(is_source_file("src/lib.rs/.//"));
    assert!(!is_source_file("src/lib.rs/.."));
    assert!(!is_source_file("src.rs/lib"));
    assert!(!is_source_file("src.rs/lib/."));
    assert!(!is_source_file("/"));
    assert!(!is_source_file("."));
    assert!(!is_source_file(".."));
}

#[test]
fn a_dotted_suffix_may_start_anywhere() {
    assert!(is_source_file(".rs"));
    assert!(is_source_file("a.b.c.rs"));
    assert!(!is_source_file("a.rs.bak"));
    assert!(!is_source_file("rs"));
    assert!(!is_source_file("a.rs "));
}

#[test]
fn directory_and_case_decide_nothing() {
    for name in ["main.rs", "MAIN.RS", "notes", "x.unknownext", "A.Svelte.Spec.Ts"] {
        let plain = is_source_file(name);
        for dir in ["a", "a.rs", "/a/b", "..", "."] {
            assert_eq!(is_source_file(&format!("{dir}/{name}")), plain, "{dir}/{name}");
        }
        assert_eq!(is_source_file(&name.to_ascii_lowercase()), plain, "{name}");
        assert_eq!(is_source_file(&name.to_ascii_uppercase()), plain, "{name}");
    }
}

#[test]
fn a_filter_answers_as_the_function_does() {
    let filter = SourceFilter::new();
    for path in ["src/lib.rs", "deploy", "a.unknownext", "", "README.md", "x/.."] {
        assert_eq!(filter.accepts(path), is_source_file(path), "{path}");
    }
}

#[test]
fn a_name_is_held_to_the_given_extensions() {
    let extensions = vec![".tar.gz".to_string(), ".txt".to_string()];
    assert!(has_extension("a.tar.gz", &extensions));
    assert!(has_extension("a.TAR.gz", &extensions));
    assert!(has_extension(".txt", &extensions));
    assert!(!has_extension("a.gz", &extensions));
    assert!(!has_extension("a.txt.gz", &extensions));
    assert!(!has_extension("txt", &extensions));
    assert!(!has_extension("", &extensions));
    assert!(!has_extension("a.txt", &vec![]));
}

#[test]
fn a_colon_in_a_name_is_part_of_it() {
    assert!(is_source_file("src/a:b.rs"));
    assert!(is_source_file("src/a.b:c/x:y.PY"));
    assert!(!is_source_file("src.rs:/a:b"));
    assert!(!is_source_file("src/a.rs:b"));
    assert!(is_source_file("ab:c.rs"));
}

#[test]
fn a_backslash_hides_no_extension() {
    assert!(is_source_file("src\\main.rs"));
    assert!(is_source_file("C:\\src\\Main.RS"));
    assert!(is_source_file("c:main.py"));
    assert!(!is_source_file("src\\main"));
    assert!(!is_source_file("src\\main.unknownext"));
}
