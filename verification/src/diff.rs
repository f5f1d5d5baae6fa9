//! The entity-level diff of changed files.

use sem_core::git::types::FileChange as SemFileChange;
use sem_core::git::types::FileStatus as SemFileStatus;
use sem_core::model::change::ChangeType as SemChangeType;
use sem_core::parser::differ::DiffResult;
use vstd::prelude::*;

use crate::types::{
    ChangeType, FileChange, FileChangeView, FileStatus, SemanticChange, SemanticChangeView,
};

verus! {

/// What the differ of `sem_core` hands back: the changed entities, and counts
/// over them that nothing here reads.
#[verifier::external_type_specification]
#[verifier::external_body]
pub struct ExDiffResult(sem_core::parser::differ::DiffResult);

/// The changed entities that a diff holds, in its order: its field `changes`.
pub uninterp spec fn diff_changes(diff: DiffResult) -> Seq<SemanticChangeView>;

/// The contents of a vector of changed files.
pub open spec fn file_views(files: Seq<FileChange>) -> Seq<FileChangeView> {
    files.map_values(|f: FileChange| f@)
}

/// The contents of a vector of changed entities.
pub open spec fn change_views(changes: Seq<SemanticChange>) -> Seq<SemanticChangeView> {
    changes.map_values(|c: SemanticChange| c@)
}

/// Whether a side that a file of its status must have is missing.
pub open spec fn lacks_content(file: FileChangeView) -> bool {
    match file.status {
        FileStatus::Added => file.after_content is None,
        FileStatus::Deleted => file.before_content is None,
        _ => file.before_content is None || file.after_content is None,
    }
}

/// Whether all of `files` lack content.
pub open spec fn all_lack_content(files: Seq<FileChangeView>) -> bool {
    forall|i: int| 0 <= i < files.len() ==> lacks_content(#[trigger] files[i])
}

/// Whether no change bears a commit, an author or a time.
pub open spec fn all_unsigned(changes: Seq<SemanticChangeView>) -> bool {
    forall|i: int|
        0 <= i < changes.len() ==> {
            &&& (#[trigger] changes[i]).commit_sha is None
            &&& changes[i].author is None
            &&& changes[i].timestamp is None
        }
}

/// `compute_semantic_diff` of `sem_core`, with the default registry of parsers,
/// no commit and no author: files that lack content have no changed entities,
/// and no change bears a commit, an author or a time.
///
/// Which entities changed in the other files is left open: `sem_core` takes
/// parse results from a cache, and the environment can extend that to files on
/// disk which other processes write.
#[verifier::external_body]
fn compute_semantic_diff(files: &Vec<FileChange>) -> (r: DiffResult)
    ensures
        all_lack_content(file_views(files@)) ==> diff_changes(r).len() == 0,
        all_unsigned(diff_changes(r)),
{
    let files: Vec<SemFileChange> = files.iter().map(|f| SemFileChange {
        file_path: f.file_path.clone(),
        status: match f.status {
            FileStatus::Added => SemFileStatus::Added,
            FileStatus::Modified => SemFileStatus::Modified,
            FileStatus::Deleted => SemFileStatus::Deleted,
            FileStatus::Renamed => SemFileStatus::Renamed,
        },
        old_file_path: f.old_file_path.clone(),
        before_content: f.before_content.clone(),
        after_content: f.after_content.clone(),
    }).collect();
    let registry = sem_core::parser::plugins::create_default_registry();
    sem_core::parser::differ::compute_semantic_diff(&files, &registry, None, None)
}

/// The field `changes` of a `DiffResult` of `sem_core`, copied field by field.
#[verifier::external_body]
fn changes_of(diff: DiffResult) -> (r: Vec<SemanticChange>)
    ensures
        change_views(r@) == diff_changes(diff),
{
    diff.changes.into_iter().map(|c| SemanticChange {
        change_type: match c.change_type {
            SemChangeType::Added => ChangeType::Added, SemChangeType::Modified => ChangeType::Modified,
            SemChangeType::Deleted => ChangeType::Deleted, SemChangeType::Moved => ChangeType::Moved,
            SemChangeType::Renamed => ChangeType::Renamed, SemChangeType::Reordered => ChangeType::Reordered,
        },
        id: c.id, entity_id: c.entity_id, entity_type: c.entity_type, entity_name: c.entity_name,
        entity_line: c.entity_line, start_line: c.start_line, end_line: c.end_line,
        old_start_line: c.old_start_line, old_end_line: c.old_end_line, parent_name: c.parent_name,
        file_path: c.file_path, old_entity_name: c.old_entity_name, old_file_path: c.old_file_path,
        old_parent_id: c.old_parent_id, before_content: c.before_content, after_content: c.after_content,
        commit_sha: c.commit_sha, author: c.author, timestamp: c.timestamp,
        structural_change: c.structural_change,
    }).collect()
}

/// Whether a call of the differ of `sem_core` on `files` gave `diff`.
pub closed spec fn differed(files: Vec<FileChange>, diff: DiffResult) -> bool {
    call_ensures(compute_semantic_diff, (&files,), diff)
}

/// The changed entities of changed files: those that the differ of `sem_core`
/// finds in them.
pub fn diff_entities(files: &Vec<FileChange>) -> (r: Vec<SemanticChange>)
    ensures
        exists|diff: DiffResult| #[trigger]
            differed(*files, diff) && change_views(r@) == diff_changes(diff),
        all_lack_content(file_views(files@)) ==> r@.len() == 0,
        all_unsigned(change_views(r@)),
{
    let diff = compute_semantic_diff(files);
    let ghost given = diff;
    let changes = changes_of(diff);
    assert(differed(*files, given));
    assert(change_views(changes@).len() == changes@.len());
    changes
}

/// Whether a call of [`diff_entities`] on `files` gave `changes`.
pub open spec fn found_by_diff(files: Seq<FileChange>, changes: Vec<SemanticChange>) -> bool {
    exists|given: Vec<FileChange>|
        given@ == files && #[trigger] call_ensures(diff_entities, (&given,), changes)
}

/// What a diff found is what a call of [`diff_entities`] on exactly those files
/// gave, and that is what the differ handed back: nothing for files that lack
/// content, and no change with a commit, an author or a time.
pub proof fn law_found_by_diff(
    files: Seq<FileChange>,
    changes: Vec<SemanticChange>,
) -> (given: Vec<FileChange>)
    requires
        found_by_diff(files, changes),
    ensures
        given@ == files,
        call_ensures(diff_entities, (&given,), changes),
        exists|diff: DiffResult| #[trigger]
            differed(given, diff) && change_views(changes@) == diff_changes(diff),
        (forall|i: int|
            0 <= i < files.len() ==> {
                let f = #[trigger] files[i];
                &&& f.status == FileStatus::Added ==> f.after_content is None
                &&& f.status == FileStatus::Deleted ==> f.before_content is None
                &&& f.status == FileStatus::Modified || f.status == FileStatus::Renamed
                    ==> f.before_content is None || f.after_content is None
            }) ==> changes@.len() == 0,
        forall|k: int|
            0 <= k < changes@.len() ==> {
                let c = #[trigger] changes@[k];
                c.commit_sha is None && c.author is None && c.timestamp is None
            },
{
    let given = choose|given: Vec<FileChange>|
        given@ == files && #[trigger] call_ensures(diff_entities, (&given,), changes);
    if forall|i: int|
        0 <= i < files.len() ==> {
            let f = #[trigger] files[i];
            &&& f.status == FileStatus::Added ==> f.after_content is None
            &&& f.status == FileStatus::Deleted ==> f.before_content is None
            &&& f.status == FileStatus::Modified || f.status == FileStatus::Renamed
                ==> f.before_content is None || f.after_content is None
        } {
        assert forall|i: int| 0 <= i < file_views(files).len() implies lacks_content(
            #[trigger] file_views(files)[i],
        ) by {
            let f = files[i];
            assert(file_views(files)[i] == f@);
        }
    }
    assert forall|k: int| 0 <= k < changes@.len() implies {
        let c = #[trigger] changes@[k];
        c.commit_sha is None && c.author is None && c.timestamp is None
    } by {
        assert(change_views(changes@)[k] == changes@[k]@);
    }
    given
}

} // verus!
