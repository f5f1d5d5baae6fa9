//! What a review speaks of: the changes, their reviews and the result.

use vstd::prelude::*;

verus! {

/// How an entity changed.
#[derive(Clone, Copy, Debug, PartialEq, Eq, Structural)]
pub enum ChangeType {
    Added,
    Modified,
    Deleted,
    Moved,
    Renamed,
    Reordered,
}

/// How a file changed.
#[derive(Clone, Copy, Debug, PartialEq, Eq, Structural)]
pub enum FileStatus {
    Added,
    Modified,
    Deleted,
    Renamed,
}

/// How urgently a change wants a reader, in ascending order.
#[derive(Clone, Copy, Debug, PartialEq, Eq, PartialOrd, Ord, Hash, Structural)]
pub enum RiskLevel {
    Low,
    Medium,
    High,
    Critical,
}

/// Which dimensions of an entity a change touches (the ConGra taxonomy).
#[derive(Clone, Copy, Debug, PartialEq, Eq, Hash, Structural)]
pub enum ChangeClassification {
    Text,
    Syntax,
    Functional,
    TextSyntax,
    TextFunctional,
    SyntaxFunctional,
    TextSyntaxFunctional,
}

/// One changed file with its contents on both sides.
#[derive(Clone, Debug)]
pub struct FileChange {
    pub file_path: String,
    pub status: FileStatus,
    pub old_file_path: Option<String>,
    pub before_content: Option<String>,
    pub after_content: Option<String>,
}

/// The contents of a [`FileChange`].
pub struct FileChangeView {
    pub file_path: Seq<char>,
    pub status: FileStatus,
    pub old_file_path: Option<Seq<char>>,
    pub before_content: Option<Seq<char>>,
    pub after_content: Option<Seq<char>>,
}

/// One changed file as a code host reports it.
#[derive(Clone, Debug)]
pub struct FilePair {
    pub filename: String,
    pub status: String,
    pub before_content: Option<String>,
    pub after_content: Option<String>,
}

/// One changed entity.
#[derive(Clone, Debug)]
pub struct SemanticChange {
    pub id: String,
    pub entity_id: String,
    pub change_type: ChangeType,
    pub entity_type: String,
    pub entity_name: String,
    pub entity_line: usize,
    pub start_line: usize,
    pub end_line: usize,
    pub old_start_line: Option<usize>,
    pub old_end_line: Option<usize>,
    pub parent_name: Option<String>,
    pub file_path: String,
    pub old_entity_name: Option<String>,
    pub old_file_path: Option<String>,
    pub old_parent_id: Option<String>,
    pub before_content: Option<String>,
    pub after_content: Option<String>,
    pub commit_sha: Option<String>,
    pub author: Option<String>,
    pub timestamp: Option<String>,
    /// Whether the syntax tree changed (`true`) or only formatting and
    /// comments (`false`); `None` when that is not known.
    pub structural_change: Option<bool>,
}

/// The contents of a [`SemanticChange`].
pub struct SemanticChangeView {
    pub id: Seq<char>,
    pub entity_id: Seq<char>,
    pub change_type: ChangeType,
    pub entity_type: Seq<char>,
    pub entity_name: Seq<char>,
    pub entity_line: usize,
    pub start_line: usize,
    pub end_line: usize,
    pub old_start_line: Option<usize>,
    pub old_end_line: Option<usize>,
    pub parent_name: Option<Seq<char>>,
    pub file_path: Seq<char>,
    pub old_entity_name: Option<Seq<char>>,
    pub old_file_path: Option<Seq<char>>,
    pub old_parent_id: Option<Seq<char>>,
    pub before_content: Option<Seq<char>>,
    pub after_content: Option<Seq<char>>,
    pub commit_sha: Option<Seq<char>>,
    pub author: Option<Seq<char>>,
    pub timestamp: Option<Seq<char>>,
    pub structural_change: Option<bool>,
}

/// What an optional string holds.
pub open spec fn opt_view(s: Option<String>) -> Option<Seq<char>> {
    match s {
        Some(s) => Some(s@),
        None => None,
    }
}

impl View for FileChange {
    type V = FileChangeView;

    open spec fn view(&self) -> FileChangeView {
        FileChangeView {
            file_path: self.file_path@,
            status: self.status,
            old_file_path: opt_view(self.old_file_path),
            before_content: opt_view(self.before_content),
            after_content: opt_view(self.after_content),
        }
    }
}

impl View for SemanticChange {
    type V = SemanticChangeView;

    open spec fn view(&self) -> SemanticChangeView {
        SemanticChangeView {
            id: self.id@,
            entity_id: self.entity_id@,
            change_type: self.change_type,
            entity_type: self.entity_type@,
            entity_name: self.entity_name@,
            entity_line: self.entity_line,
            start_line: self.start_line,
            end_line: self.end_line,
            old_start_line: self.old_start_line,
            old_end_line: self.old_end_line,
            parent_name: opt_view(self.parent_name),
            file_path: self.file_path@,
            old_entity_name: opt_view(self.old_entity_name),
            old_file_path: opt_view(self.old_file_path),
            old_parent_id: opt_view(self.old_parent_id),
            before_content: opt_view(self.before_content),
            after_content: opt_view(self.after_content),
            commit_sha: opt_view(self.commit_sha),
            author: opt_view(self.author),
            timestamp: opt_view(self.timestamp),
            structural_change: self.structural_change,
        }
    }
}

/// An entity of the dependency graph.
#[derive(Clone, Debug)]
pub struct EntityInfo {
    pub id: String,
    pub name: String,
    pub entity_type: String,
    pub file_path: String,
    pub parent_id: Option<String>,
    pub start_line: usize,
    pub end_line: usize,
}

/// The contents of an [`EntityInfo`].
pub struct EntityInfoView {
    pub id: Seq<char>,
    pub name: Seq<char>,
    pub entity_type: Seq<char>,
    pub file_path: Seq<char>,
    pub parent_id: Option<Seq<char>>,
    pub start_line: usize,
    pub end_line: usize,
}

impl View for EntityInfo {
    type V = EntityInfoView;

    open spec fn view(&self) -> EntityInfoView {
        EntityInfoView {
            id: self.id@,
            name: self.name@,
            entity_type: self.entity_type@,
            file_path: self.file_path@,
            parent_id: opt_view(self.parent_id),
            start_line: self.start_line,
            end_line: self.end_line,
        }
    }
}

/// An entity that uses a changed one, with its source.
#[derive(Clone, Debug)]
pub struct DependentEntity {
    pub entity_name: String,
    pub entity_type: String,
    pub file_path: String,
    pub start_line: usize,
    pub end_line: usize,
    pub content: String,
    pub own_dependent_count: usize,
    pub is_public_api: bool,
}

/// The review of one changed entity.
#[derive(Clone, Debug)]
pub struct EntityReview {
    pub entity_id: String,
    pub entity_name: String,
    pub entity_type: String,
    pub file_path: String,
    pub change_type: ChangeType,
    pub classification: ChangeClassification,
    /// An integer that orders as the risk score does.
    pub risk_score: i64,
    pub risk_level: RiskLevel,
    pub blast_radius: usize,
    pub dependent_count: usize,
    pub dependency_count: usize,
    pub is_public_api: bool,
    pub structural_change: Option<bool>,
    pub group_id: usize,
    pub start_line: usize,
    pub end_line: usize,
    pub before_content: Option<String>,
    pub after_content: Option<String>,
    /// Name and file of each entity that uses this one.
    pub dependent_names: Vec<(String, String)>,
    /// Name and file of each entity that this one uses.
    pub dependency_names: Vec<(String, String)>,
    pub dependent_entities: Vec<DependentEntity>,
}

/// Changed entities that depend on one another.
#[derive(Clone, Debug)]
pub struct ChangeGroup {
    pub id: usize,
    pub label: String,
    pub entity_ids: Vec<String>,
}

/// How many reviews have each risk level.
#[derive(Clone, Copy, Debug, PartialEq, Eq, Structural)]
pub struct RiskBreakdown {
    pub critical: usize,
    pub high: usize,
    pub medium: usize,
    pub low: usize,
}

/// How many reviews have each classification; those of more than one dimension
/// are `mixed`.
#[derive(Clone, Copy, Debug, PartialEq, Eq, Structural)]
pub struct ClassificationBreakdown {
    pub text: usize,
    pub syntax: usize,
    pub functional: usize,
    pub mixed: usize,
}

/// How many reviews have each change type; a reordered entity counts as
/// modified.
#[derive(Clone, Copy, Debug, PartialEq, Eq, Structural)]
pub struct ChangeTypeBreakdown {
    pub added: usize,
    pub modified: usize,
    pub deleted: usize,
    pub moved: usize,
    pub renamed: usize,
}

/// Counts over all reviews of a result.
#[derive(Clone, Copy, Debug, PartialEq, Eq, Structural)]
pub struct ReviewStats {
    pub total_entities: usize,
    pub by_risk: RiskBreakdown,
    pub by_classification: ClassificationBreakdown,
    pub by_change_type: ChangeTypeBreakdown,
}

/// How long the phases of an analysis took, and how much they went through.
#[derive(Clone, Copy, Debug, PartialEq, Eq, Structural)]
pub struct Timing {
    pub diff_ms: u64,
    pub list_files_ms: u64,
    pub file_count: usize,
    pub graph_build_ms: u64,
    pub graph_entity_count: usize,
    pub scoring_ms: u64,
    pub total_ms: u64,
}

impl Default for Timing {
    fn default() -> (r: Self)
        ensures
            r == (Timing {
                diff_ms: 0,
                list_files_ms: 0,
                file_count: 0,
                graph_build_ms: 0,
                graph_entity_count: 0,
                scoring_ms: 0,
                total_ms: 0,
            }),
    {
        Timing {
            diff_ms: 0,
            list_files_ms: 0,
            file_count: 0,
            graph_build_ms: 0,
            graph_entity_count: 0,
            scoring_ms: 0,
            total_ms: 0,
        }
    }
}

/// The outcome of an analysis.
#[derive(Clone, Debug)]
pub struct ReviewResult {
    pub entity_reviews: Vec<EntityReview>,
    pub groups: Vec<ChangeGroup>,
    pub stats: ReviewStats,
    pub timing: Timing,
    /// Pairs of ids of changed entities, one of which uses the other.
    pub dependency_edges: Vec<(String, String)>,
    pub changes: Vec<SemanticChange>,
}

} // verus!
