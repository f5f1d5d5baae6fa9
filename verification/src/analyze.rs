//! The analysis of a diff: from changed files to a ranked and grouped review.

use std::time::Instant;

use sem_core::parser::graph::EntityGraph;
use vstd::hash_set::StringHashSet;
use vstd::prelude::*;

use crate::classify::{change_classification, classify_change};
use crate::clock::{elapsed_ms, now};
use crate::dependents::{
    answers_public, are_candidates, collect_dependent_code, dependent_views, selected, Candidate,
};
use crate::diff::{all_lack_content, diff_entities, file_views, found_by_diff};
use crate::graph::{
    capped_impact, dependencies, dependencies_of, dependents, dependents_of, entity, entity_count,
    graph_entities, impact_count, info_views,
};
use crate::rank::{key_of_bits, law_ranked_by_score, rank_reviews, ranked, score_key};
use crate::summary::{
    compute_stats, in_sync, is_stats_of, is_summary, joins, law_summary_in_sync, lemma_filter_all,
    picked,
};
use crate::text::{string_set, views};
use crate::types::{
    opt_view, ChangeTypeBreakdown, ClassificationBreakdown, EntityInfo, EntityInfoView,
    EntityReview, FileChange, FilePair, FileStatus, ReviewResult, ReviewStats, RiskBreakdown,
    RiskLevel, SemanticChange, Timing,
};
use crate::untangle::{
    assign_groups, assigned, edge_views, group_views, law_same_group_iff_linked,
    lemma_touching_linked, review_ids, touching, untangle, untangled,
};

verus! {

/// Options for controlling analysis behavior.
#[derive(Clone, Copy, Debug, PartialEq, Eq, Structural)]
pub struct AnalyzeOptions {
    /// Include full source code of dependent entities (callers/consumers).
    pub include_dependent_code: bool,
    /// Maximum number of dependents to include per changed entity.
    pub max_dependents_per_entity: usize,
    /// Skip dependent entities larger than this many lines.
    pub max_dependent_lines: usize,
}

impl Default for AnalyzeOptions {
    fn default() -> (r: Self)
        ensures
            !r.include_dependent_code,
            r.max_dependents_per_entity == 5,
            r.max_dependent_lines == 100,
    {
        AnalyzeOptions {
            include_dependent_code: false,
            max_dependents_per_entity: 5,
            max_dependent_lines: 100,
        }
    }
}

/// Why an analysis failed.
#[derive(Clone, Debug)]
pub enum AnalyzeError {
    Git(String),
    Io(String),
}

impl AnalyzeError {
    /// What the error says, with the side that it comes from.
    pub open spec fn says(self) -> Seq<char> {
        match self {
            AnalyzeError::Git(reason) => "git error: "@ + reason@,
            AnalyzeError::Io(reason) => "io error: "@ + reason@,
        }
    }

    /// The message for a user.
    pub fn message(&self) -> (r: String)
        ensures
            r@ == self.says(),
    {
        let mut r = String::new();
        match self {
            AnalyzeError::Git(reason) => {
                r.append("git error: ");
                r.append(reason.as_str());
            },
            AnalyzeError::Io(reason) => {
                r.append("io error: ");
                r.append(reason.as_str());
            },
        }
        assert(Seq::<char>::empty() + "git error: "@ =~= "git error: "@);
        assert(Seq::<char>::empty() + "io error: "@ =~= "io error: "@);
        r
    }
}

/// How far the blast radius of a change is counted.
pub const BLAST_RADIUS_CAP: usize = 10_000;

/// What the graph says of one entity.
pub struct GraphFacts {
    pub dependents: Vec<EntityInfo>,
    pub dependencies: Vec<EntityInfo>,
    pub blast_radius: usize,
    pub start_line: usize,
    pub end_line: usize,
}

/// The contents of a [`GraphFacts`].
pub struct GraphFactsView {
    pub dependents: Seq<EntityInfoView>,
    pub dependencies: Seq<EntityInfoView>,
    pub blast_radius: nat,
    pub start_line: usize,
    pub end_line: usize,
}

impl View for GraphFacts {
    type V = GraphFactsView;

    open spec fn view(&self) -> GraphFactsView {
        GraphFactsView {
            dependents: info_views(self.dependents@),
            dependencies: info_views(self.dependencies@),
            blast_radius: self.blast_radius as nat,
            start_line: self.start_line,
            end_line: self.end_line,
        }
    }
}

/// What `graph` says of the entity `id`. An entity that it does not have stands
/// on the lines 0 to 0.
pub open spec fn facts_in(graph: EntityGraph, id: Seq<char>) -> GraphFactsView {
    let known = graph_entities(graph).contains_key(id);
    GraphFactsView {
        dependents: dependents_of(graph, id),
        dependencies: dependencies_of(graph, id),
        blast_radius: capped_impact(graph, id, BLAST_RADIUS_CAP as nat),
        start_line: if known {
            graph_entities(graph)[id].start_line
        } else {
            0
        },
        end_line: if known {
            graph_entities(graph)[id].end_line
        } else {
            0
        },
    }
}

/// What is said of an entity where there is no graph.
pub open spec fn no_facts() -> GraphFactsView {
    GraphFactsView {
        dependents: Seq::empty(),
        dependencies: Seq::empty(),
        blast_radius: 0,
        start_line: 0,
        end_line: 0,
    }
}

/// Asks the graph for what it says of the entity `id`.
pub fn graph_facts(graph: &EntityGraph, id: &str) -> (r: GraphFacts)
    ensures
        r@ == facts_in(*graph, id@),
{
    let (start_line, end_line): (usize, usize) = match entity(graph, id) {
        Some(e) => (e.start_line, e.end_line),
        None => (0, 0),
    };
    GraphFacts {
        dependents: dependents(graph, id),
        dependencies: dependencies(graph, id),
        blast_radius: impact_count(graph, id, BLAST_RADIUS_CAP),
        start_line,
        end_line,
    }
}

/// The name and the file of each entity.
pub open spec fn name_pairs(infos: Seq<EntityInfoView>) -> Seq<(Seq<char>, Seq<char>)> {
    infos.map_values(|e: EntityInfoView| (e.name, e.file_path))
}

fn named(infos: &Vec<EntityInfo>) -> (r: Vec<(String, String)>)
    ensures
        edge_views(r@) == name_pairs(info_views(infos@)),
{
    let n: usize = infos.len();
    let mut r: Vec<(String, String)> = Vec::new();
    let mut i: usize = 0;
    while i < n
        invariant
            i <= n == infos@.len(),
            r@.len() == i,
            forall|k: int|
                0 <= k < i ==> (#[trigger] r@[k]).0@ == infos@[k].name@ && r@[k].1@
                    == infos@[k].file_path@,
        decreases n - i,
    {
        r.push((infos[i].name.clone(), infos[i].file_path.clone()));
        i += 1;
    }
    assert(edge_views(r@) =~= name_pairs(info_views(infos@)));
    r
}

fn copy_text(text: &Option<String>) -> (r: Option<String>)
    ensures
        r == *text,
{
    match text {
        Some(text) => Some(text.clone()),
        None => None,
    }
}

/// Whether `r` is the review of `change` before it has a score: what the change
/// and the graph say of the entity, with the score 0 at the lowest level, in
/// group 0 and without the source of its dependents.
pub open spec fn is_draft(
    r: EntityReview,
    change: SemanticChange,
    facts: GraphFactsView,
    is_public_api: bool,
) -> bool {
    &&& r.entity_id == change.entity_id
    &&& r.entity_name == change.entity_name
    &&& r.entity_type == change.entity_type
    &&& r.file_path == change.file_path
    &&& r.change_type == change.change_type
    &&& r.classification == change_classification(change)
    &&& r.risk_score == key_of_bits(0)
    &&& r.risk_level == RiskLevel::Low
    &&& r.blast_radius == facts.blast_radius
    &&& r.dependent_count == facts.dependents.len()
    &&& r.dependency_count == facts.dependencies.len()
    &&& r.is_public_api == is_public_api
    &&& r.structural_change == change.structural_change
    &&& r.group_id == 0
    &&& r.start_line == facts.start_line
    &&& r.end_line == facts.end_line
    &&& r.before_content == change.before_content
    &&& r.after_content == change.after_content
    &&& edge_views(r.dependent_names@) == name_pairs(facts.dependents)
    &&& edge_views(r.dependency_names@) == name_pairs(facts.dependencies)
    &&& r.dependent_entities@.len() == 0
}

/// The review of `change` before it has a score.
pub fn draft_review(change: &SemanticChange, facts: &GraphFacts, is_public_api: bool) -> (r:
    EntityReview)
    ensures
        is_draft(r, *change, facts@, is_public_api),
{
    EntityReview {
        entity_id: change.entity_id.clone(),
        entity_name: change.entity_name.clone(),
        entity_type: change.entity_type.clone(),
        file_path: change.file_path.clone(),
        change_type: change.change_type,
        classification: classify_change(change),
        risk_score: score_key(0),
        risk_level: RiskLevel::Low,
        blast_radius: facts.blast_radius,
        dependent_count: facts.dependents.len(),
        dependency_count: facts.dependencies.len(),
        is_public_api,
        structural_change: change.structural_change,
        group_id: 0,
        start_line: facts.start_line,
        end_line: facts.end_line,
        before_content: copy_text(&change.before_content),
        after_content: copy_text(&change.after_content),
        dependent_names: named(&facts.dependents),
        dependency_names: named(&facts.dependencies),
        dependent_entities: Vec::new(),
    }
}

/// Whether `r` is the review of `change` in a graph of `total` entities that
/// says `facts` of it: `is_public` answers for its text after the change,
/// `score` for the draft, and `level` for the score.
pub open spec fn is_review<P, S, L>(
    r: EntityReview,
    change: SemanticChange,
    facts: GraphFactsView,
    total: usize,
    is_public: P,
    score: S,
    level: L,
) -> bool where
    P: Fn(&String, &String, Option<&String>) -> bool,
    S: Fn(&EntityReview, usize) -> i64,
    L: Fn(i64) -> RiskLevel,
 {
    exists|draft: EntityReview|
        {
            &&& #[trigger] is_draft(draft, change, facts, draft.is_public_api)
            &&& answers_public(
                is_public,
                change.entity_type,
                change.entity_name,
                opt_view(change.after_content),
                draft.is_public_api,
            )
            &&& call_ensures(score, (&draft, total), r.risk_score)
            &&& call_ensures(level, (r.risk_score,), r.risk_level)
            &&& r == (EntityReview {
                risk_score: r.risk_score,
                risk_level: r.risk_level,
                ..draft
            })
        }
}

/// Reviews one change.
pub fn review_change<P, S, L>(
    change: &SemanticChange,
    facts: &GraphFacts,
    total: usize,
    is_public: &P,
    score: &S,
    level: &L,
) -> (r: EntityReview) where
    P: Fn(&String, &String, Option<&String>) -> bool,
    S: Fn(&EntityReview, usize) -> i64,
    L: Fn(i64) -> RiskLevel,

    requires
        forall|t: &String, n: &String, text: Option<&String>| #[trigger]
            call_requires(*is_public, (t, n, text)),
        forall|r: &EntityReview, n: usize| #[trigger] call_requires(*score, (r, n)),
        forall|key: i64| #[trigger] call_requires(*level, (key,)),
    ensures
        is_review(r, *change, facts@, total, *is_public, *score, *level),
{
    let is_public_api = match &change.after_content {
        Some(text) => is_public(&change.entity_type, &change.entity_name, Some(text)),
        None => is_public(&change.entity_type, &change.entity_name, None),
    };
    let mut review = draft_review(change, facts, is_public_api);
    let ghost draft = review;
    let risk_score: i64 = score(&review, total);
    let risk_level = level(risk_score);
    review.risk_score = risk_score;
    review.risk_level = risk_level;
    assert(is_draft(draft, *change, facts@, draft.is_public_api));
    review
}

/// The ids of the changed entities.
pub open spec fn change_ids(changes: Seq<SemanticChange>) -> Seq<Seq<char>> {
    changes.map_values(|c: SemanticChange| c.entity_id@)
}

/// An edge from `id` to each of `infos` that is among `changed`.
pub open spec fn edges_to(
    id: Seq<char>,
    infos: Seq<EntityInfoView>,
    changed: Set<Seq<char>>,
) -> Seq<(Seq<char>, Seq<char>)> {
    infos.filter(|e: EntityInfoView| changed.contains(e.id)).map_values(
        |e: EntityInfoView| (id, e.id),
    )
}

/// The edges of the entity `id` to changed entities: first to those that it
/// uses, then to those that use it.
pub open spec fn edges_of(
    id: Seq<char>,
    facts: GraphFactsView,
    changed: Set<Seq<char>>,
) -> Seq<(Seq<char>, Seq<char>)> {
    edges_to(id, facts.dependencies, changed) + edges_to(id, facts.dependents, changed)
}

/// The edges of all entities `ids` to changed entities, in the order of `ids`.
pub open spec fn edges_among(
    graph: EntityGraph,
    ids: Seq<Seq<char>>,
    changed: Set<Seq<char>>,
) -> Seq<(Seq<char>, Seq<char>)>
    decreases ids.len(),
{
    if ids.len() == 0 {
        Seq::empty()
    } else {
        edges_among(graph, ids.drop_last(), changed) + edges_of(
            ids.last(),
            facts_in(graph, ids.last()),
            changed,
        )
    }
}

/// Adds an edge from `id` to each of `infos` that is among `changed`.
fn push_edges(
    edges: &mut Vec<(String, String)>,
    id: &String,
    infos: &Vec<EntityInfo>,
    changed: &StringHashSet,
)
    ensures
        edge_views(final(edges)@) == edge_views(old(edges)@) + edges_to(
            id@,
            info_views(infos@),
            changed@,
        ),
{
    let ghost given = edge_views(edges@);
    let ghost all = info_views(infos@);
    let ghost keep = |e: EntityInfoView| changed@.contains(e.id);
    let n: usize = infos.len();
    let mut i: usize = 0;
    assert(edges_to(id@, all.take(0), changed@) =~= Seq::empty()) by {
        reveal(Seq::filter);
    }
    while i < n
        invariant
            i <= n == infos@.len(),
            all == info_views(infos@),
            keep == (|e: EntityInfoView| changed@.contains(e.id)),
            edge_views(edges@) =~= given + edges_to(id@, all.take(i as int), changed@),
        decreases n - i,
    {
        let ghost before = edge_views(edges@);
        let ghost taken = all.take(i as int);
        let ghost e = all[i as int];
        proof {
            assert(e == infos@[i as int]@);
            assert(all.take(i + 1) =~= taken.push(e));
            taken.lemma_filter_push(e, keep);
        }
        if changed.contains(infos[i].id.as_str()) {
            edges.push((id.clone(), infos[i].id.clone()));
            proof {
                assert(edge_views(edges@) =~= before.push((id@, e.id)));
                assert(edges_to(id@, all.take(i + 1), changed@) =~= edges_to(id@, taken, changed@).push(
                    (id@, e.id),
                ));
            }
        }
        i += 1;
    }
    assert(all.take(n as int) =~= all);
}

/// A diff and the graph of the tree that it leads to.
pub struct AnalysisContext {
    pub graph: EntityGraph,
    pub changes: Vec<SemanticChange>,
    pub changed_entity_ids: StringHashSet,
    pub total_graph_entities: usize,
    pub diff_ms: u64,
    pub list_files_ms: u64,
    pub file_count: usize,
    pub graph_build_ms: u64,
}

impl AnalysisContext {
    /// The ids are those of the changes, and the total is that of the graph.
    pub open spec fn well_formed(self) -> bool {
        &&& self.changed_entity_ids@ == change_ids(self.changes@).to_set()
        &&& self.total_graph_entities == graph_entities(self.graph).len()
    }

    /// The context of a diff whose graph was built from `file_count` files.
    pub fn new(
        phase: DiffPhase,
        graph: EntityGraph,
        file_count: usize,
        list_files_ms: u64,
        graph_build_ms: u64,
    ) -> (r: Self)
        ensures
            r.well_formed(),
            r.graph == graph,
            r.changes == phase.changes,
            r.diff_ms == phase.diff_ms,
            r.list_files_ms == list_files_ms,
            r.file_count == file_count,
            r.graph_build_ms == graph_build_ms,
    {
        let changed_entity_ids = changed_ids(&phase.changes);
        let total_graph_entities: usize = entity_count(&graph);
        AnalysisContext {
            graph,
            changes: phase.changes,
            changed_entity_ids,
            total_graph_entities,
            diff_ms: phase.diff_ms,
            list_files_ms,
            file_count,
            graph_build_ms,
        }
    }
}

fn changed_ids(changes: &Vec<SemanticChange>) -> (r: StringHashSet)
    ensures
        r@ == change_ids(changes@).to_set(),
{
    let n: usize = changes.len();
    let mut ids: Vec<String> = Vec::new();
    let mut i: usize = 0;
    while i < n
        invariant
            i <= n == changes@.len(),
            ids@.len() == i,
            forall|k: int| 0 <= k < i ==> (#[trigger] ids@[k])@ == changes@[k].entity_id@,
        decreases n - i,
    {
        ids.push(changes[i].entity_id.clone());
        i += 1;
    }
    assert(views(ids@) =~= change_ids(changes@));
    string_set(&ids)
}

/// What the diff of changed files found, and how long that took.
pub struct DiffPhase {
    pub changes: Vec<SemanticChange>,
    pub diff_ms: u64,
}

/// Whether `noise` holds what `is_noise` answers for each of `files`.
pub open spec fn marks_noise<N: Fn(&String) -> bool>(
    is_noise: N,
    files: Seq<FileChange>,
    noise: Seq<bool>,
) -> bool {
    &&& noise.len() == files.len()
    &&& forall|i: int|
        0 <= i < noise.len() ==> call_ensures(is_noise, (&files[i].file_path,), #[trigger] noise[i])
}

/// The negation of each flag.
pub open spec fn negated(flags: Seq<bool>) -> Seq<bool> {
    flags.map_values(|b: bool| !b)
}

/// Keeps the changed files that are not noise.
pub fn filter_noise<N: Fn(&String) -> bool>(files: Vec<FileChange>, is_noise: &N) -> (r: Vec<
    FileChange,
>)
    requires
        forall|path: &String| #[trigger] call_requires(*is_noise, (path,)),
    ensures
        exists|noise: Seq<bool>| #[trigger]
            marks_noise(*is_noise, files@, noise) && r@ == picked(files@, negated(noise)),
{
    let ghost given = files@;
    let ghost mut noise: Seq<bool> = Seq::empty();
    let mut r: Vec<FileChange> = Vec::new();
    for file in it: files.into_iter()
        invariant
            it.seq() == given,
            forall|path: &String| #[trigger] call_requires(*is_noise, (path,)),
            marks_noise(*is_noise, given.take(it.index() as int), noise),
            r@ == picked(given.take(it.index() as int), negated(noise)),
    {
        let is_noisy = is_noise(&file.file_path);
        proof {
            let taken = given.take(it.index() as int);
            let next = given.take(it.index() + 1);
            assert(next.drop_last() =~= taken);
            let old_noise = noise;
            noise = noise.push(is_noisy);
            assert(negated(noise).drop_last() =~= negated(old_noise));
            assert forall|i: int| 0 <= i < noise.len() implies call_ensures(
                *is_noise,
                (&next[i].file_path,),
                #[trigger] noise[i],
            ) by {
                if i < old_noise.len() {
                    assert(old_noise[i] == noise[i]);
                    assert(taken[i] == next[i]);
                }
            }
        }
        if !is_noisy {
            r.push(file);
        }
    }
    assert(given.take(given.len() as int) =~= given);
    r
}

/// What to go on with after a diff that found `changes`: `None` where no entity
/// changed.
pub fn phase_of(changes: Vec<SemanticChange>, diff_ms: u64) -> (r: Option<DiffPhase>)
    ensures
        changes@.len() == 0 <==> r is None,
        r matches Some(phase) ==> phase.changes == changes && phase.diff_ms == diff_ms,
{
    if changes.len() == 0 {
        None
    } else {
        Some(DiffPhase { changes, diff_ms })
    }
}

/// Whether `r` is what to go on with after the diff of `files`: the changes that
/// it found, or `None` where it found none. It finds none where all files lack
/// content.
pub open spec fn is_diff_of(files: Seq<FileChange>, r: Option<DiffPhase>) -> bool {
    &&& all_lack_content(file_views(files)) ==> r is None
    &&& files.len() > 0 ==> exists|changes: Vec<SemanticChange>| #[trigger]
        found_by_diff(files, changes) && (match r {
            None => changes@.len() == 0,
            Some(phase) => changes@.len() > 0 && phase.changes == changes,
        })
}

/// Computes the entity-level diff of `files`; `None` where no entity changed.
pub fn diff_files(files: &Vec<FileChange>) -> (r: Option<DiffPhase>)
    ensures
        is_diff_of(files@, r),
{
    if files.len() == 0 {
        return None;
    }
    let start = now();
    let changes = diff_entities(files);
    let diff_ms: u64 = elapsed_ms(&start);
    assert(found_by_diff(files@, changes));
    phase_of(changes, diff_ms)
}

/// Computes the entity-level diff of those of `files` that are not noise; `None`
/// where there is nothing to analyze.
pub fn begin_context<N: Fn(&String) -> bool>(files: Vec<FileChange>, is_noise: &N) -> (r: Option<
    DiffPhase,
>)
    requires
        forall|path: &String| #[trigger] call_requires(*is_noise, (path,)),
    ensures
        exists|noise: Seq<bool>| #[trigger]
            marks_noise(*is_noise, files@, noise) && is_diff_of(
                picked(files@, negated(noise)),
                r,
            ),
{
    let kept = filter_noise(files, is_noise);
    diff_files(&kept)
}

/// Reviews each change of a context, and finds the edges among the changed
/// entities.
pub fn review_changes<P, S, L>(ctx: &AnalysisContext, is_public: &P, score: &S, level: &L) -> (r: (
    Vec<EntityReview>,
    Vec<(String, String)>,
)) where
    P: Fn(&String, &String, Option<&String>) -> bool,
    S: Fn(&EntityReview, usize) -> i64,
    L: Fn(i64) -> RiskLevel,

    requires
        forall|t: &String, n: &String, text: Option<&String>| #[trigger]
            call_requires(*is_public, (t, n, text)),
        forall|r: &EntityReview, n: usize| #[trigger] call_requires(*score, (r, n)),
        forall|key: i64| #[trigger] call_requires(*level, (key,)),
    ensures
        r.0@.len() == ctx.changes@.len(),
        forall|i: int|
            0 <= i < r.0@.len() ==> is_review(
                #[trigger] r.0@[i],
                ctx.changes@[i],
                facts_in(ctx.graph, ctx.changes@[i].entity_id@),
                ctx.total_graph_entities,
                *is_public,
                *score,
                *level,
            ),
        edge_views(r.1@) == edges_among(
            ctx.graph,
            change_ids(ctx.changes@),
            ctx.changed_entity_ids@,
        ),
{
    let ghost ids = change_ids(ctx.changes@);
    let n: usize = ctx.changes.len();
    let mut reviews: Vec<EntityReview> = Vec::new();
    let mut edges: Vec<(String, String)> = Vec::new();
    let mut i: usize = 0;
    assert(edge_views(edges@) =~= Seq::empty());
    while i < n
        invariant
            i <= n == ctx.changes@.len(),
            ids == change_ids(ctx.changes@),
            forall|t: &String, n: &String, text: Option<&String>| #[trigger]
                call_requires(*is_public, (t, n, text)),
            forall|r: &EntityReview, n: usize| #[trigger] call_requires(*score, (r, n)),
            forall|key: i64| #[trigger] call_requires(*level, (key,)),
            reviews@.len() == i,
            forall|k: int|
                0 <= k < i ==> is_review(
                    #[trigger] reviews@[k],
                    ctx.changes@[k],
                    facts_in(ctx.graph, ctx.changes@[k].entity_id@),
                    ctx.total_graph_entities,
                    *is_public,
                    *score,
                    *level,
                ),
            edge_views(edges@) == edges_among(
                ctx.graph,
                ids.take(i as int),
                ctx.changed_entity_ids@,
            ),
        decreases n - i,
    {
        let change = &ctx.changes[i];
        let facts = graph_facts(&ctx.graph, change.entity_id.as_str());
        let review = review_change(
            change,
            &facts,
            ctx.total_graph_entities,
            is_public,
            score,
            level,
        );
        let ghost before = edge_views(edges@);
        push_edges(&mut edges, &change.entity_id, &facts.dependencies, &ctx.changed_entity_ids);
        push_edges(&mut edges, &change.entity_id, &facts.dependents, &ctx.changed_entity_ids);
        reviews.push(review);
        proof {
            let next = ids.take(i + 1);
            assert(next.drop_last() =~= ids.take(i as int));
            assert(next.last() == change.entity_id@);
            assert(edge_views(edges@) =~= before + edges_of(
                change.entity_id@,
                facts@,
                ctx.changed_entity_ids@,
            ));
        }
        i += 1;
    }
    assert(ids.take(n as int) =~= ids);
    (reviews, edges)
}

/// Whether `r` lists the source of its dependents as the options say.
pub open spec fn lists_dependents<F, P, R>(
    r: EntityReview,
    graph: EntityGraph,
    options: AnalyzeOptions,
    read: F,
    is_public: P,
    rank_of: R,
) -> bool where
    F: Fn(&String) -> Option<String>,
    P: Fn(&String, &String, Option<&String>) -> bool,
    R: Fn(usize, bool, bool) -> i64,
 {
    exists|cs: Seq<Candidate>| #[trigger]
        are_candidates(graph, r.entity_id@, read, is_public, rank_of, cs) && dependent_views(
            r.dependent_entities@,
        ) == selected(cs, options)
}

/// Gives each review the source of the top dependents of its entity.
pub fn add_dependent_code<F, P, R>(
    reviews: &mut Vec<EntityReview>,
    graph: &EntityGraph,
    options: &AnalyzeOptions,
    read: &F,
    is_public: &P,
    rank_of: &R,
) where
    F: Fn(&String) -> Option<String>,
    P: Fn(&String, &String, Option<&String>) -> bool,
    R: Fn(usize, bool, bool) -> i64,

    requires
        forall|path: &String| #[trigger] call_requires(*read, (path,)),
        forall|t: &String, n: &String, text: Option<&String>| #[trigger]
            call_requires(*is_public, (t, n, text)),
        forall|count: usize, public: bool, cross: bool| #[trigger]
            call_requires(*rank_of, (count, public, cross)),
    ensures
        final(reviews)@.len() == old(reviews)@.len(),
        forall|i: int|
            0 <= i < final(reviews)@.len() ==> {
                &&& lists_dependents(
                    #[trigger] final(reviews)@[i],
                    *graph,
                    *options,
                    *read,
                    *is_public,
                    *rank_of,
                )
                &&& final(reviews)@[i] == (EntityReview {
                    dependent_entities: final(reviews)@[i].dependent_entities,
                    ..old(reviews)@[i]
                })
            },
{
    let ghost given = reviews@;
    let n: usize = reviews.len();
    let mut i: usize = 0;
    while i < n
        invariant
            i <= n == reviews@.len() == given.len(),
            forall|path: &String| #[trigger] call_requires(*read, (path,)),
            forall|t: &String, n: &String, text: Option<&String>| #[trigger]
                call_requires(*is_public, (t, n, text)),
            forall|count: usize, public: bool, cross: bool| #[trigger]
                call_requires(*rank_of, (count, public, cross)),
            forall|k: int| i <= k < n ==> #[trigger] reviews@[k] == given[k],
            forall|k: int|
                0 <= k < i ==> {
                    &&& lists_dependents(
                        #[trigger] reviews@[k],
                        *graph,
                        *options,
                        *read,
                        *is_public,
                        *rank_of,
                    )
                    &&& reviews@[k] == (EntityReview {
                        dependent_entities: reviews@[k].dependent_entities,
                        ..given[k]
                    })
                },
        decreases n - i,
    {
        let code = collect_dependent_code(
            graph,
            &reviews[i].entity_id,
            options,
            read,
            is_public,
            rank_of,
        );
        let ghost before = reviews@;
        reviews[i].dependent_entities = code;
        proof {
            let r = reviews@[i as int];
            assert(r.entity_id == before[i as int].entity_id && r.dependent_entities == code);
            let cs = choose|cs: Seq<Candidate>| #[trigger]
                are_candidates(*graph, r.entity_id@, *read, *is_public, *rank_of, cs)
                    && dependent_views(code@) == selected(cs, *options);
            assert(are_candidates(*graph, r.entity_id@, *read, *is_public, *rank_of, cs));
            assert forall|k: int| 0 <= k < i implies #[trigger] reviews@[k] == before[k] by {}
        }
        i += 1;
    }
}

/// Whether `result` holds `reviews` ranked, with the groups that `edges` make
/// set, and the counts that follow from these.
pub open spec fn is_conclusion(
    result: ReviewResult,
    reviews: Seq<EntityReview>,
    edges: Seq<(String, String)>,
) -> bool {
    let order = ranked(reviews);
    let groups = untangled(order, edge_views(edges));
    &&& result.entity_reviews@ == assigned(order, groups)
    &&& group_views(result.groups@) == groups
    &&& is_stats_of(result.stats, order)
    &&& result.dependency_edges@ == edges
}

/// Ranks, groups and counts the reviews of a diff.
pub fn conclude(
    reviews: Vec<EntityReview>,
    dependency_edges: Vec<(String, String)>,
    changes: Vec<SemanticChange>,
    timing: Timing,
) -> (r: ReviewResult)
    ensures
        is_conclusion(r, reviews@, dependency_edges@),
        r.changes == changes,
        r.timing == timing,
{
    let mut entity_reviews = rank_reviews(reviews);
    let groups = untangle(&entity_reviews, &dependency_edges);
    let stats = compute_stats(entity_reviews.as_slice());
    assign_groups(&mut entity_reviews, &groups);
    ReviewResult { entity_reviews, groups, stats, timing, dependency_edges, changes }
}

/// The result of a diff in which nothing changed.
pub open spec fn is_empty_result(r: ReviewResult) -> bool {
    &&& r.entity_reviews@.len() == 0
    &&& r.groups@.len() == 0
    &&& r.stats == (ReviewStats {
        total_entities: 0,
        by_risk: RiskBreakdown { critical: 0, high: 0, medium: 0, low: 0 },
        by_classification: ClassificationBreakdown { text: 0, syntax: 0, functional: 0, mixed: 0 },
        by_change_type: ChangeTypeBreakdown {
            added: 0,
            modified: 0,
            deleted: 0,
            moved: 0,
            renamed: 0,
        },
    })
    &&& r.timing == (Timing {
        diff_ms: 0,
        list_files_ms: 0,
        file_count: 0,
        graph_build_ms: 0,
        graph_entity_count: 0,
        scoring_ms: 0,
        total_ms: 0,
    })
    &&& r.dependency_edges@.len() == 0
    &&& r.changes@.len() == 0
}

/// The result of a diff in which nothing changed.
pub fn empty_result() -> (r: ReviewResult)
    ensures
        is_empty_result(r),
{
    ReviewResult {
        entity_reviews: Vec::new(),
        groups: Vec::new(),
        stats: ReviewStats {
            total_entities: 0,
            by_risk: RiskBreakdown { critical: 0, high: 0, medium: 0, low: 0 },
            by_classification: ClassificationBreakdown {
                text: 0,
                syntax: 0,
                functional: 0,
                mixed: 0,
            },
            by_change_type: ChangeTypeBreakdown {
                added: 0,
                modified: 0,
                deleted: 0,
                moved: 0,
                renamed: 0,
            },
        },
        timing: Timing::default(),
        dependency_edges: Vec::new(),
        changes: Vec::new(),
    }
}

/// Whether `r` is the review of `change` in a context, with the source of its
/// dependents where the options ask for it.
pub open spec fn is_full_review<F, P, S, L, R>(
    r: EntityReview,
    change: SemanticChange,
    ctx: AnalysisContext,
    options: AnalyzeOptions,
    read: F,
    is_public: P,
    score: S,
    level: L,
    rank_of: R,
) -> bool where
    F: Fn(&String) -> Option<String>,
    P: Fn(&String, &String, Option<&String>) -> bool,
    S: Fn(&EntityReview, usize) -> i64,
    L: Fn(i64) -> RiskLevel,
    R: Fn(usize, bool, bool) -> i64,
 {
    exists|base: EntityReview|
        {
            &&& #[trigger] is_review(
                base,
                change,
                facts_in(ctx.graph, change.entity_id@),
                ctx.total_graph_entities,
                is_public,
                score,
                level,
            )
            &&& if options.include_dependent_code {
                &&& lists_dependents(r, ctx.graph, options, read, is_public, rank_of)
                &&& r == (EntityReview { dependent_entities: r.dependent_entities, ..base })
            } else {
                r == base
            }
        }
}

/// Whether `reviews` are the reviews of the changes of a context, in their order.
pub open spec fn are_full_reviews<F, P, S, L, R>(
    reviews: Seq<EntityReview>,
    ctx: AnalysisContext,
    options: AnalyzeOptions,
    read: F,
    is_public: P,
    score: S,
    level: L,
    rank_of: R,
) -> bool where
    F: Fn(&String) -> Option<String>,
    P: Fn(&String, &String, Option<&String>) -> bool,
    S: Fn(&EntityReview, usize) -> i64,
    L: Fn(i64) -> RiskLevel,
    R: Fn(usize, bool, bool) -> i64,
 {
    &&& reviews.len() == ctx.changes@.len()
    &&& forall|i: int|
        0 <= i < reviews.len() ==> is_full_review(
            #[trigger] reviews[i],
            ctx.changes@[i],
            ctx,
            options,
            read,
            is_public,
            score,
            level,
            rank_of,
        )
}

/// Whether `result` is the analysis of a context: the changes are reviewed,
/// ranked, and grouped along the edges among them.
pub open spec fn is_analysis<F, P, S, L, R>(
    result: ReviewResult,
    ctx: AnalysisContext,
    options: AnalyzeOptions,
    read: F,
    is_public: P,
    score: S,
    level: L,
    rank_of: R,
) -> bool where
    F: Fn(&String) -> Option<String>,
    P: Fn(&String, &String, Option<&String>) -> bool,
    S: Fn(&EntityReview, usize) -> i64,
    L: Fn(i64) -> RiskLevel,
    R: Fn(usize, bool, bool) -> i64,
 {
    &&& exists|reviews: Seq<EntityReview>| #[trigger]
        are_full_reviews(reviews, ctx, options, read, is_public, score, level, rank_of)
            && is_conclusion(result, reviews, result.dependency_edges@)
    &&& edge_views(result.dependency_edges@) == edges_among(
        ctx.graph,
        change_ids(ctx.changes@),
        ctx.changed_entity_ids@,
    )
    &&& result.changes == ctx.changes
    &&& result.timing == (Timing {
        diff_ms: ctx.diff_ms,
        list_files_ms: ctx.list_files_ms,
        file_count: ctx.file_count,
        graph_build_ms: ctx.graph_build_ms,
        graph_entity_count: ctx.total_graph_entities,
        scoring_ms: result.timing.scoring_ms,
        total_ms: result.timing.total_ms,
    })
}

/// Analyzes a diff with the graph of the tree that it leads to: reviews each
/// change, and ranks, groups and counts the reviews. The text of a file of that
/// tree is what `read` gives for its path.
pub fn analyze_context<F, P, S, L, R>(
    ctx: AnalysisContext,
    options: &AnalyzeOptions,
    total_start: &Instant,
    read: &F,
    is_public: &P,
    score: &S,
    level: &L,
    rank_of: &R,
) -> (result: ReviewResult) where
    F: Fn(&String) -> Option<String>,
    P: Fn(&String, &String, Option<&String>) -> bool,
    S: Fn(&EntityReview, usize) -> i64,
    L: Fn(i64) -> RiskLevel,
    R: Fn(usize, bool, bool) -> i64,

    requires
        forall|path: &String| #[trigger] call_requires(*read, (path,)),
        forall|t: &String, n: &String, text: Option<&String>| #[trigger]
            call_requires(*is_public, (t, n, text)),
        forall|r: &EntityReview, n: usize| #[trigger] call_requires(*score, (r, n)),
        forall|key: i64| #[trigger] call_requires(*level, (key,)),
        forall|count: usize, public: bool, cross: bool| #[trigger]
            call_requires(*rank_of, (count, public, cross)),
    ensures
        is_analysis(result, ctx, *options, *read, *is_public, *score, *level, *rank_of),
{
    let ghost given = ctx;
    let scoring_start = now();
    let (mut reviews, edges) = review_changes(&ctx, is_public, score, level);
    let ghost bases = reviews@;
    if options.include_dependent_code {
        add_dependent_code(&mut reviews, &ctx.graph, options, read, is_public, rank_of);
    }
    proof {
        assert forall|i: int| 0 <= i < reviews@.len() implies is_full_review(
            #[trigger] reviews@[i],
            given.changes@[i],
            given,
            *options,
            *read,
            *is_public,
            *score,
            *level,
            *rank_of,
        ) by {
            let base = bases[i];
            assert(is_review(
                base,
                given.changes@[i],
                facts_in(given.graph, given.changes@[i].entity_id@),
                given.total_graph_entities,
                *is_public,
                *score,
                *level,
            ));
        }
        assert(are_full_reviews(
            reviews@,
            given,
            *options,
            *read,
            *is_public,
            *score,
            *level,
            *rank_of,
        ));
    }
    let mut result = conclude(reviews, edges, ctx.changes, Timing::default());
    result.timing =
    Timing {
        diff_ms: ctx.diff_ms,
        list_files_ms: ctx.list_files_ms,
        file_count: ctx.file_count,
        graph_build_ms: ctx.graph_build_ms,
        graph_entity_count: ctx.total_graph_entities,
        scoring_ms: elapsed_ms(&scoring_start),
        total_ms: elapsed_ms(total_start),
    };
    result
}

/// Analyzes a diff whose context was built: an error is handed on, and a diff in
/// which nothing changed has the empty result.
pub fn analyze_with_options<F, P, S, L, R>(
    ctx: Result<Option<AnalysisContext>, AnalyzeError>,
    options: &AnalyzeOptions,
    total_start: &Instant,
    read: &F,
    is_public: &P,
    score: &S,
    level: &L,
    rank_of: &R,
) -> (r: Result<ReviewResult, AnalyzeError>) where
    F: Fn(&String) -> Option<String>,
    P: Fn(&String, &String, Option<&String>) -> bool,
    S: Fn(&EntityReview, usize) -> i64,
    L: Fn(i64) -> RiskLevel,
    R: Fn(usize, bool, bool) -> i64,

    requires
        forall|path: &String| #[trigger] call_requires(*read, (path,)),
        forall|t: &String, n: &String, text: Option<&String>| #[trigger]
            call_requires(*is_public, (t, n, text)),
        forall|r: &EntityReview, n: usize| #[trigger] call_requires(*score, (r, n)),
        forall|key: i64| #[trigger] call_requires(*level, (key,)),
        forall|count: usize, public: bool, cross: bool| #[trigger]
            call_requires(*rank_of, (count, public, cross)),
    ensures
        match ctx {
            Err(e) => r == Err::<ReviewResult, AnalyzeError>(e),
            Ok(None) => r matches Ok(result) && is_empty_result(result),
            Ok(Some(ctx)) => r matches Ok(result) && is_analysis(
                result,
                ctx,
                *options,
                *read,
                *is_public,
                *score,
                *level,
                *rank_of,
            ),
        },
{
    match ctx {
        Err(e) => Err(e),
        Ok(None) => Ok(empty_result()),
        Ok(Some(ctx)) => Ok(
            analyze_context(ctx, options, total_start, read, is_public, score, level, rank_of),
        ),
    }
}

/// Analyzes a diff whose context was built, with the default options.
pub fn analyze<F, P, S, L, R>(
    ctx: Result<Option<AnalysisContext>, AnalyzeError>,
    total_start: &Instant,
    read: &F,
    is_public: &P,
    score: &S,
    level: &L,
    rank_of: &R,
) -> (r: Result<ReviewResult, AnalyzeError>) where
    F: Fn(&String) -> Option<String>,
    P: Fn(&String, &String, Option<&String>) -> bool,
    S: Fn(&EntityReview, usize) -> i64,
    L: Fn(i64) -> RiskLevel,
    R: Fn(usize, bool, bool) -> i64,

    requires
        forall|path: &String| #[trigger] call_requires(*read, (path,)),
        forall|t: &String, n: &String, text: Option<&String>| #[trigger]
            call_requires(*is_public, (t, n, text)),
        forall|r: &EntityReview, n: usize| #[trigger] call_requires(*score, (r, n)),
        forall|key: i64| #[trigger] call_requires(*level, (key,)),
        forall|count: usize, public: bool, cross: bool| #[trigger]
            call_requires(*rank_of, (count, public, cross)),
    ensures
        match ctx {
            Err(e) => r == Err::<ReviewResult, AnalyzeError>(e),
            Ok(None) => r matches Ok(result) && is_empty_result(result),
            Ok(Some(ctx)) => r matches Ok(result) && is_analysis(
                result,
                ctx,
                (AnalyzeOptions {
                    include_dependent_code: false,
                    max_dependents_per_entity: 5,
                    max_dependent_lines: 100,
                }),
                *read,
                *is_public,
                *score,
                *level,
                *rank_of,
            ),
        },
{
    analyze_with_options(
        ctx,
        &AnalyzeOptions::default(),
        total_start,
        read,
        is_public,
        score,
        level,
        rank_of,
    )
}

/// The status of a file that a code host reports as `status`.
pub open spec fn file_status(status: Seq<char>) -> FileStatus {
    if status == "added"@ {
        FileStatus::Added
    } else if status == "removed"@ {
        FileStatus::Deleted
    } else if status == "renamed"@ {
        FileStatus::Renamed
    } else {
        FileStatus::Modified
    }
}

/// The changed file that a pair describes.
pub open spec fn change_of_pair(pair: FilePair) -> FileChange {
    FileChange {
        file_path: pair.filename,
        status: file_status(pair.status@),
        old_file_path: None,
        before_content: pair.before_content,
        after_content: pair.after_content,
    }
}

/// The changed file that `pair` describes.
pub fn remote_change(pair: &FilePair) -> (r: FileChange)
    ensures
        r == change_of_pair(*pair),
{
    let status = if pair.status == "added".to_string() {
        FileStatus::Added
    } else if pair.status == "removed".to_string() {
        FileStatus::Deleted
    } else if pair.status == "renamed".to_string() {
        FileStatus::Renamed
    } else {
        FileStatus::Modified
    };
    FileChange {
        file_path: pair.filename.clone(),
        status,
        old_file_path: None,
        before_content: copy_text(&pair.before_content),
        after_content: copy_text(&pair.after_content),
    }
}

/// Whether `noise` holds what `is_noise` answers for each of `pairs`.
pub open spec fn marks_noisy_pairs<N: Fn(&String) -> bool>(
    is_noise: N,
    pairs: Seq<FilePair>,
    noise: Seq<bool>,
) -> bool {
    &&& noise.len() == pairs.len()
    &&& forall|i: int|
        0 <= i < noise.len() ==> call_ensures(is_noise, (&pairs[i].filename,), #[trigger] noise[i])
}

/// The changed files that the pairs without a mark in `noise` describe.
pub open spec fn quiet_changes(pairs: Seq<FilePair>, noise: Seq<bool>) -> Seq<FileChange> {
    picked(pairs, negated(noise)).map_values(|p: FilePair| change_of_pair(p))
}

/// The changed files that `pairs` describe, without those that are noise.
pub fn remote_changes<N: Fn(&String) -> bool>(pairs: &[FilePair], is_noise: &N) -> (r: Vec<
    FileChange,
>)
    requires
        forall|path: &String| #[trigger] call_requires(*is_noise, (path,)),
    ensures
        exists|noise: Seq<bool>| #[trigger]
            marks_noisy_pairs(*is_noise, pairs@, noise) && r@ == quiet_changes(pairs@, noise),
{
    let ghost mut noise: Seq<bool> = Seq::empty();
    let n: usize = pairs.len();
    let mut r: Vec<FileChange> = Vec::new();
    let mut i: usize = 0;
    assert(r@ =~= quiet_changes(pairs@.take(0), noise));
    while i < n
        invariant
            i <= n == pairs@.len(),
            forall|path: &String| #[trigger] call_requires(*is_noise, (path,)),
            marks_noisy_pairs(*is_noise, pairs@.take(i as int), noise),
            r@ == quiet_changes(pairs@.take(i as int), noise),
        decreases n - i,
    {
        let ghost before = r@;
        let is_noisy = is_noise(&pairs[i].filename);
        if !is_noisy {
            r.push(remote_change(&pairs[i]));
        }
        proof {
            let taken = pairs@.take(i as int);
            let next = pairs@.take(i + 1);
            assert(next.drop_last() =~= taken);
            let old_noise = noise;
            noise = noise.push(is_noisy);
            assert(negated(noise).drop_last() =~= negated(old_noise));
            assert(negated(noise).last() == !is_noisy);
            assert forall|k: int| 0 <= k < noise.len() implies call_ensures(
                *is_noise,
                (&next[k].filename,),
                #[trigger] noise[k],
            ) by {
                if k < old_noise.len() {
                    assert(old_noise[k] == noise[k]);
                    assert(taken[k] == next[k]);
                }
            }
            assert(r@ =~= quiet_changes(next, noise));
        }
        i += 1;
    }
    assert(pairs@.take(n as int) =~= pairs@);
    r
}

/// Whether `reviews` are the reviews of `changes`, in their order, without a
/// graph.
pub open spec fn are_remote_reviews<P, S, L>(
    reviews: Seq<EntityReview>,
    changes: Seq<SemanticChange>,
    is_public: P,
    score: S,
    level: L,
) -> bool where
    P: Fn(&String, &String, Option<&String>) -> bool,
    S: Fn(&EntityReview, usize) -> i64,
    L: Fn(i64) -> RiskLevel,
 {
    &&& reviews.len() == changes.len()
    &&& forall|i: int|
        0 <= i < reviews.len() ==> is_review(
            #[trigger] reviews[i],
            changes[i],
            no_facts(),
            0,
            is_public,
            score,
            level,
        )
}

/// Whether `result` is the analysis of the changes that it holds, without a
/// graph: they are reviewed, ranked and grouped with no edge among them.
pub open spec fn is_remote_analysis<P, S, L>(
    result: ReviewResult,
    file_count: nat,
    is_public: P,
    score: S,
    level: L,
) -> bool where
    P: Fn(&String, &String, Option<&String>) -> bool,
    S: Fn(&EntityReview, usize) -> i64,
    L: Fn(i64) -> RiskLevel,
 {
    &&& exists|reviews: Seq<EntityReview>| #[trigger]
        are_remote_reviews(reviews, result.changes@, is_public, score, level) && is_conclusion(
            result,
            reviews,
            Seq::empty(),
        )
    &&& result.timing.list_files_ms == 0
    &&& result.timing.file_count == file_count
    &&& result.timing.graph_build_ms == 0
    &&& result.timing.graph_entity_count == 0
}

/// Reviews the changes of a diff of `file_count` files without a graph, and
/// ranks, groups and counts the reviews.
pub fn review_remote<P, S, L>(
    phase: DiffPhase,
    file_count: usize,
    total_start: &Instant,
    is_public: &P,
    score: &S,
    level: &L,
) -> (result: ReviewResult) where
    P: Fn(&String, &String, Option<&String>) -> bool,
    S: Fn(&EntityReview, usize) -> i64,
    L: Fn(i64) -> RiskLevel,

    requires
        forall|t: &String, n: &String, text: Option<&String>| #[trigger]
            call_requires(*is_public, (t, n, text)),
        forall|r: &EntityReview, n: usize| #[trigger] call_requires(*score, (r, n)),
        forall|key: i64| #[trigger] call_requires(*level, (key,)),
    ensures
        result.changes == phase.changes,
        result.timing.diff_ms == phase.diff_ms,
        is_remote_analysis(result, file_count as nat, *is_public, *score, *level),
{
    let scoring_start = now();
    let changes = phase.changes;
    let n: usize = changes.len();
    let facts = GraphFacts {
        dependents: Vec::new(),
        dependencies: Vec::new(),
        blast_radius: 0,
        start_line: 0,
        end_line: 0,
    };
    assert(info_views(facts.dependents@) =~= Seq::empty());
    assert(facts@ == no_facts());
    let mut reviews: Vec<EntityReview> = Vec::new();
    let mut i: usize = 0;
    while i < n
        invariant
            i <= n == changes@.len(),
            facts@ == no_facts(),
            forall|t: &String, n: &String, text: Option<&String>| #[trigger]
                call_requires(*is_public, (t, n, text)),
            forall|r: &EntityReview, n: usize| #[trigger] call_requires(*score, (r, n)),
            forall|key: i64| #[trigger] call_requires(*level, (key,)),
            reviews@.len() == i,
            forall|k: int|
                0 <= k < i ==> is_review(
                    #[trigger] reviews@[k],
                    changes@[k],
                    no_facts(),
                    0,
                    *is_public,
                    *score,
                    *level,
                ),
        decreases n - i,
    {
        reviews.push(review_change(&changes[i], &facts, 0, is_public, score, level));
        i += 1;
    }
    let ghost all = reviews@;
    assert(are_remote_reviews(all, changes@, *is_public, *score, *level));
    let edges: Vec<(String, String)> = Vec::new();
    assert(edges@ =~= Seq::empty());
    let mut result = conclude(reviews, edges, changes, Timing::default());
    result.timing =
    Timing {
        diff_ms: phase.diff_ms,
        list_files_ms: 0,
        file_count,
        graph_build_ms: 0,
        graph_entity_count: 0,
        scoring_ms: elapsed_ms(&scoring_start),
        total_ms: elapsed_ms(total_start),
    };
    assert(are_remote_reviews(all, result.changes@, *is_public, *score, *level));
    assert(is_conclusion(result, all, Seq::empty()));
    result
}

/// The result of a diff of `file_count` remote files: the empty result where no
/// entity changed.
pub fn remote_result<P, S, L>(
    phase: Option<DiffPhase>,
    file_count: usize,
    total_start: &Instant,
    is_public: &P,
    score: &S,
    level: &L,
) -> (result: ReviewResult) where
    P: Fn(&String, &String, Option<&String>) -> bool,
    S: Fn(&EntityReview, usize) -> i64,
    L: Fn(i64) -> RiskLevel,

    requires
        forall|t: &String, n: &String, text: Option<&String>| #[trigger]
            call_requires(*is_public, (t, n, text)),
        forall|r: &EntityReview, n: usize| #[trigger] call_requires(*score, (r, n)),
        forall|key: i64| #[trigger] call_requires(*level, (key,)),
    ensures
        match phase {
            None => is_empty_result(result),
            Some(phase) => {
                &&& result.changes == phase.changes
                &&& result.timing.diff_ms == phase.diff_ms
                &&& is_remote_analysis(result, file_count as nat, *is_public, *score, *level)
            },
        },
{
    match phase {
        Some(phase) => review_remote(phase, file_count, total_start, is_public, score, level),
        None => empty_result(),
    }
}

/// Whether `result` is an analysis of remote files: that of the changes which
/// the diff found in those of `pairs` that are not noise, and the empty result
/// where it found none. It finds none where all of them lack content.
pub open spec fn is_remote_outcome<N, P, S, L>(
    result: ReviewResult,
    pairs: Seq<FilePair>,
    is_noise: N,
    is_public: P,
    score: S,
    level: L,
) -> bool where
    N: Fn(&String) -> bool,
    P: Fn(&String, &String, Option<&String>) -> bool,
    S: Fn(&EntityReview, usize) -> i64,
    L: Fn(i64) -> RiskLevel,
 {
    exists|noise: Seq<bool>|
        {
            let files = quiet_changes(pairs, noise);
            &&& #[trigger] marks_noisy_pairs(is_noise, pairs, noise)
            &&& all_lack_content(file_views(files)) ==> is_empty_result(result)
            &&& files.len() > 0 ==> exists|changes: Vec<SemanticChange>| #[trigger]
                found_by_diff(files, changes) && (if changes@.len() == 0 {
                    is_empty_result(result)
                } else {
                    &&& result.changes == changes
                    &&& is_remote_analysis(result, files.len(), is_public, score, level)
                })
        }
}

/// Analyzes file pairs fetched from a remote source. There is no graph, so no
/// entity has dependents, dependencies or a blast radius. It does not fail.
pub fn analyze_remote<N, P, S, L>(
    file_pairs: &[FilePair],
    is_noise: &N,
    is_public: &P,
    score: &S,
    level: &L,
) -> (r: Result<ReviewResult, AnalyzeError>) where
    N: Fn(&String) -> bool,
    P: Fn(&String, &String, Option<&String>) -> bool,
    S: Fn(&EntityReview, usize) -> i64,
    L: Fn(i64) -> RiskLevel,

    requires
        forall|path: &String| #[trigger] call_requires(*is_noise, (path,)),
        forall|t: &String, n: &String, text: Option<&String>| #[trigger]
            call_requires(*is_public, (t, n, text)),
        forall|r: &EntityReview, n: usize| #[trigger] call_requires(*score, (r, n)),
        forall|key: i64| #[trigger] call_requires(*level, (key,)),
    ensures
        r matches Ok(result) && is_remote_outcome(
            result,
            file_pairs@,
            *is_noise,
            *is_public,
            *score,
            *level,
        ),
{
    let total_start = now();
    let files = remote_changes(file_pairs, is_noise);
    let ghost noise = choose|noise: Seq<bool>| #[trigger]
        marks_noisy_pairs(*is_noise, file_pairs@, noise) && files@ == quiet_changes(
            file_pairs@,
            noise,
        );
    let phase = diff_files(&files);
    let result = remote_result(phase, files.len(), &total_start, is_public, score, level);
    assert(marks_noisy_pairs(*is_noise, file_pairs@, noise));
    Ok(result)
}

proof fn lemma_edges_to(
    id: Seq<char>,
    infos: Seq<EntityInfoView>,
    changed: Set<Seq<char>>,
    k: int,
)
    requires
        0 <= k < edges_to(id, infos, changed).len(),
    ensures
        edges_to(id, infos, changed)[k].0 == id,
        changed.contains(edges_to(id, infos, changed)[k].1),
{
    infos.lemma_filter_pred(|e: EntityInfoView| changed.contains(e.id), k);
}

proof fn lemma_edges_among(
    graph: EntityGraph,
    ids: Seq<Seq<char>>,
    changed: Set<Seq<char>>,
    k: int,
)
    requires
        0 <= k < edges_among(graph, ids, changed).len(),
    ensures
        ids.contains(edges_among(graph, ids, changed)[k].0),
        changed.contains(edges_among(graph, ids, changed)[k].1),
    decreases ids.len(),
{
    let id = ids.last();
    let facts = facts_in(graph, id);
    let rest = edges_among(graph, ids.drop_last(), changed);
    let uses = edges_to(id, facts.dependencies, changed);
    let users = edges_to(id, facts.dependents, changed);
    let e = edges_among(graph, ids, changed)[k];
    if k < rest.len() {
        lemma_edges_among(graph, ids.drop_last(), changed, k);
        assert(e == rest[k]);
        let i = choose|i: int| 0 <= i < ids.drop_last().len() && ids.drop_last()[i] == e.0;
        assert(ids[i] == e.0);
    } else {
        assert(ids[ids.len() - 1] == id);
        if k < rest.len() + uses.len() {
            lemma_edges_to(id, facts.dependencies, changed, k - rest.len());
            assert(e == uses[k - rest.len()]);
        } else {
            lemma_edges_to(id, facts.dependents, changed, k - rest.len() - uses.len());
            assert(e == users[k - rest.len() - uses.len()]);
        }
    }
}

/// A conclusion whose edges join reviewed entities has its summaries in step
/// with its reviews, and its reviews in descending order of their scores.
pub proof fn law_conclusion_in_sync(
    result: ReviewResult,
    reviews: Seq<EntityReview>,
    edges: Seq<(String, String)>,
)
    requires
        is_conclusion(result, reviews, edges),
        forall|k: int| 0 <= k < edges.len() ==> joins(review_ids(reviews), #[trigger] edges[k]),
    ensures
        in_sync(result),
        result.entity_reviews@.len() == reviews.len(),
        forall|a: int, b: int|
            0 <= a < b < reviews.len() ==> (#[trigger] result.entity_reviews@[a]).risk_score >= (
            #[trigger] result.entity_reviews@[b]).risk_score,
{
    let order = ranked(reviews);
    law_ranked_by_score(reviews);
    assert forall|k: int| 0 <= k < edges.len() implies joins(
        review_ids(order),
        #[trigger] edges[k],
    ) by {
        lemma_ranked_ids(reviews, edges[k].0@);
        lemma_ranked_ids(reviews, edges[k].1@);
    }
    lemma_filter_all(edges, |e: (String, String)| joins(review_ids(order), e));
    assert(is_summary(result, order, edges));
    law_summary_in_sync(result, order, edges);
    assert forall|a: int, b: int| 0 <= a < b < reviews.len() implies (
    #[trigger] result.entity_reviews@[a]).risk_score >= (
    #[trigger] result.entity_reviews@[b]).risk_score by {
        assert(order[a].risk_score >= order[b].risk_score);
    }
}

proof fn lemma_ranked_ids(reviews: Seq<EntityReview>, id: Seq<char>)
    requires
        review_ids(reviews).contains(id),
    ensures
        review_ids(ranked(reviews)).contains(id),
{
    law_ranked_by_score(reviews);
    let i = choose|i: int| 0 <= i < review_ids(reviews).len() && review_ids(reviews)[i] == id;
    assert(ranked(reviews).contains(reviews[i]));
    let k = choose|k: int| 0 <= k < ranked(reviews).len() && ranked(reviews)[k] == reviews[i];
    assert(review_ids(ranked(reviews))[k] == id);
}

/// The analysis of a diff has a review for each change, in descending order of
/// the scores, and its edges, groups and counts are in step with them.
pub proof fn law_analysis_in_sync<F, P, S, L, R>(
    result: ReviewResult,
    ctx: AnalysisContext,
    options: AnalyzeOptions,
    read: F,
    is_public: P,
    score: S,
    level: L,
    rank_of: R,
) where
    F: Fn(&String) -> Option<String>,
    P: Fn(&String, &String, Option<&String>) -> bool,
    S: Fn(&EntityReview, usize) -> i64,
    L: Fn(i64) -> RiskLevel,
    R: Fn(usize, bool, bool) -> i64,

    requires
        ctx.well_formed(),
        is_analysis(result, ctx, options, read, is_public, score, level, rank_of),
    ensures
        in_sync(result),
        result.entity_reviews@.len() == ctx.changes@.len(),
        forall|a: int, b: int|
            0 <= a < b < result.entity_reviews@.len() ==> (
            #[trigger] result.entity_reviews@[a]).risk_score >= (
            #[trigger] result.entity_reviews@[b]).risk_score,
        forall|k: int|
            0 <= k < result.entity_reviews@.len() ==> (
            #[trigger] result.entity_reviews@[k]).blast_radius <= BLAST_RADIUS_CAP,
{
    let edges = result.dependency_edges@;
    let reviews = choose|reviews: Seq<EntityReview>| #[trigger]
        are_full_reviews(reviews, ctx, options, read, is_public, score, level, rank_of)
            && is_conclusion(result, reviews, edges);
    let ids = change_ids(ctx.changes@);
    assert forall|i: int| 0 <= i < reviews.len() implies {
        &&& (#[trigger] reviews[i]).entity_id@ == ids[i]
        &&& reviews[i].blast_radius <= BLAST_RADIUS_CAP
    } by {
        assert(is_full_review(
            reviews[i],
            ctx.changes@[i],
            ctx,
            options,
            read,
            is_public,
            score,
            level,
            rank_of,
        ));
    }
    assert(review_ids(reviews) =~= ids);
    assert forall|k: int| 0 <= k < edges.len() implies joins(
        review_ids(reviews),
        #[trigger] edges[k],
    ) by {
        lemma_edges_among(ctx.graph, ids, ctx.changed_entity_ids@, k);
        assert(edge_views(edges)[k] == (edges[k].0@, edges[k].1@));
        assert(ids.to_set().contains(edges[k].1@));
    }
    law_conclusion_in_sync(result, reviews, edges);
    law_ranked_by_score(reviews);
    assert forall|k: int| 0 <= k < result.entity_reviews@.len() implies (
    #[trigger] result.entity_reviews@[k]).blast_radius <= BLAST_RADIUS_CAP by {
        assert(reviews.contains(ranked(reviews)[k]));
    }
}

/// The analysis of remote files has a review for each change, in descending
/// order of the scores, no edges, and groups and counts in step with them. No
/// entity in it has dependents, dependencies or a blast radius.
pub proof fn law_remote_in_sync<P, S, L>(
    result: ReviewResult,
    file_count: nat,
    is_public: P,
    score: S,
    level: L,
) where
    P: Fn(&String, &String, Option<&String>) -> bool,
    S: Fn(&EntityReview, usize) -> i64,
    L: Fn(i64) -> RiskLevel,

    requires
        is_remote_analysis(result, file_count, is_public, score, level),
    ensures
        in_sync(result),
        result.dependency_edges@.len() == 0,
        result.entity_reviews@.len() == result.changes@.len(),
        forall|a: int, b: int|
            0 <= a < b < result.entity_reviews@.len() ==> (
            #[trigger] result.entity_reviews@[a]).risk_score >= (
            #[trigger] result.entity_reviews@[b]).risk_score,
        forall|k: int|
            0 <= k < result.entity_reviews@.len() ==> {
                let r = #[trigger] result.entity_reviews@[k];
                r.blast_radius == 0 && r.dependent_count == 0 && r.dependency_count == 0
            },
{
    let reviews = choose|reviews: Seq<EntityReview>| #[trigger]
        are_remote_reviews(reviews, result.changes@, is_public, score, level) && is_conclusion(
            result,
            reviews,
            Seq::empty(),
        );
    law_conclusion_in_sync(result, reviews, Seq::empty());
    law_ranked_by_score(reviews);
    assert forall|k: int| 0 <= k < result.entity_reviews@.len() implies {
        let r = #[trigger] result.entity_reviews@[k];
        r.blast_radius == 0 && r.dependent_count == 0 && r.dependency_count == 0
    } by {
        assert(reviews.contains(ranked(reviews)[k]));
        let i = choose|i: int| 0 <= i < reviews.len() && reviews[i] == ranked(reviews)[k];
        assert(is_review(reviews[i], result.changes@[i], no_facts(), 0, is_public, score, level));
    }
}

proof fn lemma_edge_to(
    id: Seq<char>,
    infos: Seq<EntityInfoView>,
    changed: Set<Seq<char>>,
    e: EntityInfoView,
)
    requires
        infos.contains(e),
        changed.contains(e.id),
    ensures
        edges_to(id, infos, changed).contains((id, e.id)),
{
    let keep = |e: EntityInfoView| changed.contains(e.id);
    let kept = infos.filter(keep);
    let i = choose|i: int| 0 <= i < infos.len() && infos[i] == e;
    infos.lemma_filter_contains(keep, i);
    let k = choose|k: int| 0 <= k < kept.len() && kept[k] == e;
    assert(edges_to(id, infos, changed)[k] == (id, e.id));
}

proof fn lemma_edge_among(
    graph: EntityGraph,
    ids: Seq<Seq<char>>,
    changed: Set<Seq<char>>,
    id: Seq<char>,
    edge: (Seq<char>, Seq<char>),
)
    requires
        ids.contains(id),
        edges_of(id, facts_in(graph, id), changed).contains(edge),
    ensures
        edges_among(graph, ids, changed).contains(edge),
    decreases ids.len(),
{
    let rest = edges_among(graph, ids.drop_last(), changed);
    let last = edges_of(ids.last(), facts_in(graph, ids.last()), changed);
    let all = edges_among(graph, ids, changed);
    if ids.last() == id {
        let k = choose|k: int| 0 <= k < last.len() && last[k] == edge;
        assert(all[rest.len() + k] == edge);
    } else {
        let i = choose|i: int| 0 <= i < ids.len() && ids[i] == id;
        assert(ids.drop_last()[i] == id);
        lemma_edge_among(graph, ids.drop_last(), changed, id, edge);
        let k = choose|k: int| 0 <= k < rest.len() && rest[k] == edge;
        assert(all[k] == edge);
    }
}

/// Changed entities one of which uses the other are in one group.
pub proof fn law_users_share_group<F, P, S, L, R>(
    result: ReviewResult,
    ctx: AnalysisContext,
    options: AnalyzeOptions,
    read: F,
    is_public: P,
    score: S,
    level: L,
    rank_of: R,
    p: int,
    q: int,
    e: EntityInfoView,
) where
    F: Fn(&String) -> Option<String>,
    P: Fn(&String, &String, Option<&String>) -> bool,
    S: Fn(&EntityReview, usize) -> i64,
    L: Fn(i64) -> RiskLevel,
    R: Fn(usize, bool, bool) -> i64,

    requires
        ctx.well_formed(),
        is_analysis(result, ctx, options, read, is_public, score, level, rank_of),
        0 <= p < result.entity_reviews@.len(),
        0 <= q < result.entity_reviews@.len(),
        e.id == result.entity_reviews@[q].entity_id@,
        dependents_of(ctx.graph, result.entity_reviews@[p].entity_id@).contains(e)
            || dependencies_of(ctx.graph, result.entity_reviews@[p].entity_id@).contains(e),
    ensures
        result.entity_reviews@[p].group_id == result.entity_reviews@[q].group_id,
{
    law_analysis_in_sync(result, ctx, options, read, is_public, score, level, rank_of);
    let reviews = choose|reviews: Seq<EntityReview>| #[trigger]
        are_full_reviews(reviews, ctx, options, read, is_public, score, level, rank_of)
            && is_conclusion(result, reviews, result.dependency_edges@);
    let out = result.entity_reviews@;
    let ids = change_ids(ctx.changes@);
    let changed = ctx.changed_entity_ids@;
    let edges = edge_views(result.dependency_edges@);
    law_ranked_by_score(reviews);
    assert forall|k: int| 0 <= k < out.len() implies ids.contains((#[trigger] out[k]).entity_id@) by {
        assert(reviews.contains(ranked(reviews)[k]));
        let i = choose|i: int| 0 <= i < reviews.len() && reviews[i] == ranked(reviews)[k];
        assert(is_full_review(
            reviews[i],
            ctx.changes@[i],
            ctx,
            options,
            read,
            is_public,
            score,
            level,
            rank_of,
        ));
        assert(ids[i] == out[k].entity_id@);
    }
    let a = out[p].entity_id@;
    let facts = facts_in(ctx.graph, a);
    let uses = edges_to(a, facts.dependencies, changed);
    let users = edges_to(a, facts.dependents, changed);
    assert(ids.to_set().contains(out[q].entity_id@));
    if dependents_of(ctx.graph, a).contains(e) {
        lemma_edge_to(a, facts.dependents, changed, e);
        let k = choose|k: int| 0 <= k < users.len() && users[k] == (a, e.id);
        assert(edges_of(a, facts, changed)[uses.len() + k] == (a, e.id));
    } else {
        lemma_edge_to(a, facts.dependencies, changed, e);
        let k = choose|k: int| 0 <= k < uses.len() && uses[k] == (a, e.id);
        assert(edges_of(a, facts, changed)[k] == (a, e.id));
    }
    lemma_edge_among(ctx.graph, ids, changed, a, (a, e.id));
    let names = review_ids(out);
    assert(touching(names, edges, p, q));
    lemma_touching_linked(names, edges, p, q);
    law_same_group_iff_linked(names, edges, p, q);
}

/// A message names the side that an error comes from and ends in the whole
/// reason.
pub proof fn law_message(error: AnalyzeError, r: String)
    requires
        call_ensures(AnalyzeError::message, (&error,), r),
    ensures
        error matches AnalyzeError::Git(reason) ==> r@ == seq![
            'g',
            'i',
            't',
            ' ',
            'e',
            'r',
            'r',
            'o',
            'r',
            ':',
            ' ',
        ] + reason@,
        error matches AnalyzeError::Io(reason) ==> r@ == seq![
            'i',
            'o',
            ' ',
            'e',
            'r',
            'r',
            'o',
            'r',
            ':',
            ' ',
        ] + reason@,
{
    reveal_strlit("git error: ");
    reveal_strlit("io error: ");
    assert("git error: "@ =~= seq!['g', 'i', 't', ' ', 'e', 'r', 'r', 'o', 'r', ':', ' ']);
    assert("io error: "@ =~= seq!['i', 'o', ' ', 'e', 'r', 'r', 'o', 'r', ':', ' ']);
}

} // verus!
