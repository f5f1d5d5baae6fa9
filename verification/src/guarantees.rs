//! What an analysis says of the changes that it was given, in terms of the
//! changes, the graph and the answers of the functions that were handed in.

use std::time::Instant;

use sem_core::parser::graph::EntityGraph;
use vstd::prelude::*;

use crate::agreement::{
    agree, law_dependents_follow_options, law_options_change_only_dependents,
    lemma_empty_results_agree, settles_level, settles_public, settles_score, EntityReviewView,
};
use crate::analyze::{
    analyze, analyze_remote, analyze_with_options, are_full_reviews, are_remote_reviews, begin_context,
    change_ids, edges_among, edges_of, edges_to, empty_result, facts_in, filter_noise, graph_facts,
    is_conclusion, is_diff_of, is_draft, is_empty_result, is_full_review, is_remote_analysis,
    is_remote_outcome, is_review, law_analysis_in_sync, law_remote_in_sync, lists_dependents, marks_noise,
    marks_noisy_pairs, name_pairs, negated, no_facts, quiet_changes, remote_change, remote_changes,
    AnalysisContext, AnalyzeError, AnalyzeOptions, DiffPhase, GraphFacts, GraphFactsView,
};
use crate::classify::change_classification;
use crate::dependents::{
    answers_public, are_candidates, are_selected_at, dependent_views,
    lemma_candidates_stand_for_users, lemma_selected_at, selected, stand_for_users, Candidate,
};
use crate::diff::{all_lack_content, file_views, found_by_diff};
use crate::graph::{
    capped_impact, graph_entities, graph_users, graph_uses, info_views,
    neighbours,
};
use crate::rank::{lemma_ranked_reordering, ranked, ranking_of, scores_of};
use crate::summary::{in_sync, lemma_picked_at, marked, picked};
use crate::types::{
    opt_view, EntityInfoView, EntityReview, FileChange, FilePair, FileStatus, ReviewResult,
    RiskLevel, SemanticChange,
};
use crate::untangle::{edge_views, group_views, lemma_leader_count, review_ids, untangled};

verus! {

/// The entities that use `id`, along the edges that lead to it.
pub open spec fn users_of(graph: EntityGraph, id: Seq<char>) -> Seq<EntityInfoView> {
    neighbours(graph_entities(graph), graph_users(graph), id)
}

/// The entities that `id` uses, along the edges that start at it.
pub open spec fn used_by(graph: EntityGraph, id: Seq<char>) -> Seq<EntityInfoView> {
    neighbours(graph_entities(graph), graph_uses(graph), id)
}

/// What the graph says of an entity: its users, what it uses, how far a change
/// reaches, and the lines that it stands on, 0 and 0 for an unknown entity.
pub proof fn law_graph_facts(graph: EntityGraph, id: &str, r: GraphFacts)
    requires
        call_ensures(graph_facts, (&graph, id), r),
    ensures
        info_views(r.dependents@) == users_of(graph, id@),
        info_views(r.dependencies@) == used_by(graph, id@),
        r.blast_radius == capped_impact(graph, id@, 10_000),
        graph_entities(graph).contains_key(id@) ==> r.start_line
            == graph_entities(graph)[id@].start_line && r.end_line
            == graph_entities(graph)[id@].end_line,
        !graph_entities(graph).contains_key(id@) ==> r.start_line == 0 && r.end_line == 0
            && r.blast_radius == 0,
{
    assert(r@ == facts_in(graph, id@));
    assert(r@.dependents == info_views(r.dependents@));
    assert(r@.dependencies == info_views(r.dependencies@));
    assert(r@.blast_radius == r.blast_radius);
    assert(r@.start_line == r.start_line && r@.end_line == r.end_line);
}

/// Whether `r` takes over what `change` says of its entity.
pub open spec fn takes_over(r: EntityReview, change: SemanticChange) -> bool {
    &&& r.entity_id@ == change.entity_id@
    &&& r.entity_name@ == change.entity_name@
    &&& r.entity_type@ == change.entity_type@
    &&& r.file_path@ == change.file_path@
    &&& r.change_type == change.change_type
    &&& r.structural_change == change.structural_change
    &&& opt_view(r.before_content) == opt_view(change.before_content)
    &&& opt_view(r.after_content) == opt_view(change.after_content)
    &&& r.classification == change_classification(change)
}

/// Whether `names` gives the name and the file of each of `infos`.
pub open spec fn names_all(names: Seq<(String, String)>, infos: Seq<EntityInfoView>) -> bool {
    &&& names.len() == infos.len()
    &&& forall|k: int|
        0 <= k < names.len() ==> (#[trigger] names[k]).0@ == infos[k].name && names[k].1@
            == infos[k].file_path
}

/// Whether `r` was judged by the functions that were handed in: its visibility by
/// the type, the name and the text after the change, its score by the review as
/// it stood before it had a score, a group and the source of dependents, and its
/// level by the score.
pub open spec fn is_judged<P, S, L>(
    r: EntityReview,
    change: SemanticChange,
    total: usize,
    is_public: P,
    score: S,
    level: L,
) -> bool where
    P: Fn(&String, &String, Option<&String>) -> bool,
    S: Fn(&EntityReview, usize) -> i64,
    L: Fn(i64) -> RiskLevel,
 {
    &&& change.after_content is None ==> call_ensures(
        is_public,
        (&change.entity_type, &change.entity_name, None),
        r.is_public_api,
    )
    &&& change.after_content is Some ==> exists|text: String|
        text@ == change.after_content->0@ && #[trigger] call_ensures(
            is_public,
            (&change.entity_type, &change.entity_name, Some(&text)),
            r.is_public_api,
        )
    &&& exists|before: EntityReview|
        {
            &&& #[trigger] call_ensures(score, (&before, total), r.risk_score)
            &&& before@ == (EntityReviewView {
                risk_score: 0,
                risk_level: RiskLevel::Low,
                group_id: 0,
                dependent_entities: Seq::empty(),
                ..r@
            })
        }
    &&& call_ensures(level, (r.risk_score,), r.risk_level)
}

/// Whether the counts and names of `r` are those of `users` and `uses`.
pub open spec fn counts_neighbours(
    r: EntityReview,
    users: Seq<EntityInfoView>,
    uses: Seq<EntityInfoView>,
) -> bool {
    &&& r.dependent_count == users.len()
    &&& r.dependency_count == uses.len()
    &&& names_all(r.dependent_names@, users)
    &&& names_all(r.dependency_names@, uses)
}

proof fn lemma_names_all(names: Seq<(String, String)>, infos: Seq<EntityInfoView>)
    requires
        edge_views(names) == name_pairs(infos),
    ensures
        names_all(names, infos),
{
    assert(edge_views(names).len() == names.len());
    assert forall|k: int| 0 <= k < names.len() implies (#[trigger] names[k]).0@ == infos[k].name
        && names[k].1@ == infos[k].file_path by {
        assert(edge_views(names)[k] == (names[k].0@, names[k].1@));
        assert(name_pairs(infos)[k] == (infos[k].name, infos[k].file_path));
    }
}

proof fn lemma_review<P, S, L>(
    r: EntityReview,
    base: EntityReview,
    change: SemanticChange,
    facts: GraphFactsView,
    total: usize,
    is_public: P,
    score: S,
    level: L,
) where
    P: Fn(&String, &String, Option<&String>) -> bool,
    S: Fn(&EntityReview, usize) -> i64,
    L: Fn(i64) -> RiskLevel,

    requires
        is_review(base, change, facts, total, is_public, score, level),
        r == (EntityReview {
            group_id: r.group_id,
            dependent_entities: r.dependent_entities,
            ..base
        }),
    ensures
        takes_over(r, change),
        is_judged(r, change, total, is_public, score, level),
        counts_neighbours(r, facts.dependents, facts.dependencies),
        r.blast_radius == facts.blast_radius,
        r.start_line == facts.start_line,
        r.end_line == facts.end_line,
        base.dependent_entities@.len() == 0,
{
    let draft = choose|draft: EntityReview|
        {
            &&& #[trigger] is_draft(draft, change, facts, draft.is_public_api)
            &&& answers_public(
                is_public,
                change.entity_type,
                change.entity_name,
                opt_view(change.after_content),
                draft.is_public_api,
            )
            &&& call_ensures(score, (&draft, total), base.risk_score)
            &&& call_ensures(level, (base.risk_score,), base.risk_level)
            &&& base == (EntityReview {
                risk_score: base.risk_score,
                risk_level: base.risk_level,
                ..draft
            })
        };
    lemma_names_all(r.dependent_names@, facts.dependents);
    lemma_names_all(r.dependency_names@, facts.dependencies);
    assert(call_ensures(score, (&draft, total), r.risk_score));
    assert(dependent_views(draft.dependent_entities@) =~= Seq::empty());
    assert(draft@ == (EntityReviewView {
        risk_score: 0,
        risk_level: RiskLevel::Low,
        group_id: 0,
        dependent_entities: Seq::empty(),
        ..r@
    }));
}

/// Whether the reviews `out` are those of the changes at `from`: each change is
/// taken once, higher scores come first, and equal scores stay in the order of
/// the changes.
pub open spec fn are_in_order(out: Seq<EntityReview>, n: nat, from: Seq<int>) -> bool {
    &&& out.len() == n
    &&& from.len() == n
    &&& forall|k: int| 0 <= k < n ==> 0 <= #[trigger] from[k] < n
    &&& forall|i: int| 0 <= i < n ==> #[trigger] from.contains(i)
    &&& forall|j: int, k: int|
        0 <= j < k < n ==> out[j].risk_score > out[k].risk_score || (out[j].risk_score
            == out[k].risk_score && #[trigger] from[j] < #[trigger] from[k])
}

proof fn lemma_in_order(
    result: ReviewResult,
    reviews: Seq<EntityReview>,
    edges: Seq<(String, String)>,
) -> (from: Seq<int>)
    requires
        is_conclusion(result, reviews, edges),
    ensures
        are_in_order(result.entity_reviews@, reviews.len(), from),
        forall|k: int|
            0 <= k < from.len() ==> result.entity_reviews@[k] == (EntityReview {
                group_id: result.entity_reviews@[k].group_id,
                ..reviews[#[trigger] from[k]]
            }),
{
    let from = ranking_of(scores_of(reviews));
    let order = ranked(reviews);
    let out = result.entity_reviews@;
    lemma_ranked_reordering(reviews);
    assert forall|k: int| 0 <= k < from.len() implies out[k] == (EntityReview {
        group_id: out[k].group_id,
        ..reviews[#[trigger] from[k]]
    }) by {
        assert(order[k] == reviews[from[k]]);
    }
    assert forall|j: int, k: int| 0 <= j < k < from.len() implies out[j].risk_score
        > out[k].risk_score || (out[j].risk_score == out[k].risk_score && #[trigger] from[j]
        < #[trigger] from[k]) by {
        assert(out[j].risk_score == reviews[from[j]].risk_score);
        assert(out[k].risk_score == reviews[from[k]].risk_score);
    }
    from
}

/// An analysis has one review for each change, ordered by score. Each review
/// takes over what its change says. Its counts are those of the entities that
/// the graph says use it and are used by it, and equal the numbers of names that
/// it lists. Its reach and its lines are those of the graph, and it is judged by
/// the functions that were handed in. The result is in step, and the rest of it
/// is that of the context.
pub proof fn law_analysis<F, P, S, L, R>(
    ctx: AnalysisContext,
    options: AnalyzeOptions,
    start: Instant,
    read: F,
    is_public: P,
    score: S,
    level: L,
    rank_of: R,
    r: Result<ReviewResult, AnalyzeError>,
) -> (from: Seq<int>) where
    F: Fn(&String) -> Option<String>,
    P: Fn(&String, &String, Option<&String>) -> bool,
    S: Fn(&EntityReview, usize) -> i64,
    L: Fn(i64) -> RiskLevel,
    R: Fn(usize, bool, bool) -> i64,

    requires
        ctx.well_formed(),
        call_ensures(
            analyze_with_options::<F, P, S, L, R>,
            (Ok(Some(ctx)), &options, &start, &read, &is_public, &score, &level, &rank_of),
            r,
        ),
    ensures
        r is Ok,
        in_sync(r->Ok_0),
        r->Ok_0.changes == ctx.changes,
        r->Ok_0.timing.diff_ms == ctx.diff_ms,
        r->Ok_0.timing.list_files_ms == ctx.list_files_ms,
        r->Ok_0.timing.file_count == ctx.file_count,
        r->Ok_0.timing.graph_build_ms == ctx.graph_build_ms,
        r->Ok_0.timing.graph_entity_count == graph_entities(ctx.graph).len(),
        are_in_order(r->Ok_0.entity_reviews@, ctx.changes@.len(), from),
        forall|k: int|
            0 <= k < from.len() ==> {
                let review = r->Ok_0.entity_reviews@[k];
                let change = ctx.changes@[#[trigger] from[k]];
                let id = change.entity_id@;
                &&& takes_over(review, change)
                &&& is_judged(
                    review,
                    change,
                    ctx.total_graph_entities,
                    is_public,
                    score,
                    level,
                )
                &&& review.dependent_count == users_of(ctx.graph, id).len()
                &&& review.dependency_count == used_by(ctx.graph, id).len()
                &&& review.dependent_names@.len() == review.dependent_count
                &&& review.dependency_names@.len() == review.dependency_count
                &&& names_all(review.dependent_names@, users_of(ctx.graph, id))
                &&& names_all(review.dependency_names@, used_by(ctx.graph, id))
                &&& review.blast_radius == capped_impact(ctx.graph, id, 10_000)
                &&& graph_entities(ctx.graph).contains_key(id) ==> review.start_line
                    == graph_entities(ctx.graph)[id].start_line && review.end_line
                    == graph_entities(ctx.graph)[id].end_line
                &&& !graph_entities(ctx.graph).contains_key(id) ==> review.start_line == 0
                    && review.end_line == 0
            },
{
    let result = r->Ok_0;
    law_analysis_in_sync(result, ctx, options, read, is_public, score, level, rank_of);
    let reviews = choose|reviews: Seq<EntityReview>| #[trigger]
        are_full_reviews(reviews, ctx, options, read, is_public, score, level, rank_of)
            && is_conclusion(result, reviews, result.dependency_edges@);
    let from = lemma_in_order(result, reviews, result.dependency_edges@);
    assert forall|k: int| 0 <= k < from.len() implies {
        let review = result.entity_reviews@[k];
        let change = ctx.changes@[#[trigger] from[k]];
        let facts = facts_in(ctx.graph, change.entity_id@);
        &&& takes_over(review, change)
        &&& is_judged(review, change, ctx.total_graph_entities, is_public, score, level)
        &&& counts_neighbours(review, facts.dependents, facts.dependencies)
        &&& review.blast_radius == facts.blast_radius
        &&& review.start_line == facts.start_line
        &&& review.end_line == facts.end_line
    } by {
        let change = ctx.changes@[from[k]];
        let facts = facts_in(ctx.graph, change.entity_id@);
        let full = reviews[from[k]];
        assert(is_full_review(
            full,
            change,
            ctx,
            options,
            read,
            is_public,
            score,
            level,
            rank_of,
        ));
        let base = choose|base: EntityReview|
            {
                &&& #[trigger] is_review(
                    base,
                    change,
                    facts,
                    ctx.total_graph_entities,
                    is_public,
                    score,
                    level,
                )
                &&& full == (EntityReview { dependent_entities: full.dependent_entities, ..base })
            };
        lemma_review(
            result.entity_reviews@[k],
            base,
            change,
            facts,
            ctx.total_graph_entities,
            is_public,
            score,
            level,
        );
    }
    from
}

/// Where the options ask for it, the source that a review shows is selected from
/// candidates that stand for the users of its entity; else there is none.
pub proof fn law_analysis_dependents<F, P, S, L, R>(
    ctx: AnalysisContext,
    options: AnalyzeOptions,
    start: Instant,
    read: F,
    is_public: P,
    score: S,
    level: L,
    rank_of: R,
    r: Result<ReviewResult, AnalyzeError>,
    k: int,
) -> (found: (Seq<Candidate>, Seq<int>)) where
    F: Fn(&String) -> Option<String>,
    P: Fn(&String, &String, Option<&String>) -> bool,
    S: Fn(&EntityReview, usize) -> i64,
    L: Fn(i64) -> RiskLevel,
    R: Fn(usize, bool, bool) -> i64,

    requires
        call_ensures(
            analyze_with_options::<F, P, S, L, R>,
            (Ok(Some(ctx)), &options, &start, &read, &is_public, &score, &level, &rank_of),
            r,
        ),
        0 <= k < r->Ok_0.entity_reviews@.len(),
    ensures
        !options.include_dependent_code ==> r->Ok_0.entity_reviews@[k].dependent_entities@.len()
            == 0,
        options.include_dependent_code ==> stand_for_users(
            ctx.graph,
            r->Ok_0.entity_reviews@[k].entity_id@,
            read,
            is_public,
            rank_of,
            found.0,
        ) && are_selected_at(
            found.0,
            options,
            r->Ok_0.entity_reviews@[k].dependent_entities@,
            found.1,
        ),
{
    law_dependents_follow_options(
        r->Ok_0,
        ctx,
        options,
        read,
        is_public,
        score,
        level,
        rank_of,
        k,
    );
    let review = r->Ok_0.entity_reviews@[k];
    if options.include_dependent_code {
        assert(lists_dependents(review, ctx.graph, options, read, is_public, rank_of));
        let cs = choose|cs: Seq<Candidate>| #[trigger]
            are_candidates(ctx.graph, review.entity_id@, read, is_public, rank_of, cs)
                && dependent_views(review.dependent_entities@) == selected(cs, options);
        lemma_candidates_stand_for_users(
            ctx.graph,
            review.entity_id@,
            read,
            is_public,
            rank_of,
            cs,
        );
        let at = lemma_selected_at(cs, options, review.dependent_entities@);
        (cs, at)
    } else {
        (Seq::empty(), Seq::empty())
    }
}

/// Whether one of `changes` is that of the entity `id`.
pub open spec fn is_changed(changes: Seq<SemanticChange>, id: Seq<char>) -> bool {
    exists|i: int| 0 <= i < changes.len() && (#[trigger] changes[i]).entity_id@ == id
}

/// Whether `edges` lead from `id` to those of `infos` that changed, in their
/// order; `at` holds their positions.
pub open spec fn lead_to_changed(
    edges: Seq<(Seq<char>, Seq<char>)>,
    id: Seq<char>,
    infos: Seq<EntityInfoView>,
    changes: Seq<SemanticChange>,
    at: Seq<int>,
) -> bool {
    &&& edges.len() == at.len()
    &&& forall|a: int, b: int| 0 <= a < b < at.len() ==> #[trigger] at[a] < #[trigger] at[b]
    &&& forall|k: int|
        0 <= k < at.len() ==> {
            &&& 0 <= #[trigger] at[k] < infos.len()
            &&& edges[k] == (id, infos[at[k]].id)
            &&& is_changed(changes, infos[at[k]].id)
        }
    &&& forall|i: int|
        0 <= i < infos.len() && is_changed(changes, (#[trigger] infos[i]).id) ==> at.contains(i)
}

/// Whether the edges `cuts[i]..cuts[i + 1]` are those of the change at `i`: first
/// to the changed ones among what its entity uses, then to the changed ones among
/// its users.
pub open spec fn are_edges_of(
    edges: Seq<(Seq<char>, Seq<char>)>,
    graph: EntityGraph,
    changes: Seq<SemanticChange>,
    cuts: Seq<int>,
    i: int,
) -> bool {
    let id = changes[i].entity_id@;
    &&& 0 <= cuts[i] <= cuts[i + 1] <= edges.len()
    &&& exists|mid: int, u: Seq<int>, v: Seq<int>|
        {
            &&& cuts[i] <= mid <= cuts[i + 1]
            &&& #[trigger] lead_to_changed(
                edges.subrange(cuts[i], mid),
                id,
                used_by(graph, id),
                changes,
                u,
            )
            &&& #[trigger] lead_to_changed(
                edges.subrange(mid, cuts[i + 1]),
                id,
                users_of(graph, id),
                changes,
                v,
            )
        }
}

proof fn lemma_changed(changes: Seq<SemanticChange>, id: Seq<char>)
    ensures
        change_ids(changes).to_set().contains(id) <==> is_changed(changes, id),
{
    let ids = change_ids(changes);
    if ids.contains(id) {
        let i = choose|i: int| 0 <= i < ids.len() && ids[i] == id;
        assert(changes[i].entity_id@ == id);
    }
    if is_changed(changes, id) {
        let i = choose|i: int| 0 <= i < changes.len() && (#[trigger] changes[i]).entity_id@ == id;
        assert(ids[i] == id);
    }
}

proof fn lemma_lead_to_changed(
    id: Seq<char>,
    infos: Seq<EntityInfoView>,
    changes: Seq<SemanticChange>,
) -> (at: Seq<int>)
    ensures
        lead_to_changed(
            edges_to(id, infos, change_ids(changes).to_set()),
            id,
            infos,
            changes,
            at,
        ),
    decreases infos.len(),
{
    let changed = change_ids(changes).to_set();
    let keep = |e: EntityInfoView| changed.contains(e.id);
    let all = edges_to(id, infos, changed);
    if infos.len() == 0 {
        reveal(Seq::filter);
        let at: Seq<int> = Seq::empty();
        assert(lead_to_changed(all, id, infos, changes, at));
        at
    } else {
        let rest = infos.drop_last();
        let before = lemma_lead_to_changed(id, rest, changes);
        let some = edges_to(id, rest, changed);
        let last = infos.last();
        assert(infos =~= rest.push(last));
        rest.lemma_filter_push(last, keep);
        lemma_changed(changes, last.id);
        let at = if keep(last) {
            before.push(infos.len() - 1)
        } else {
            before
        };
        assert forall|k: int| 0 <= k < at.len() implies {
            &&& 0 <= #[trigger] at[k] < infos.len()
            &&& all[k] == (id, infos[at[k]].id)
            &&& is_changed(changes, infos[at[k]].id)
        } by {
            if k < before.len() {
                assert(at[k] == before[k]);
                assert(rest[before[k]] == infos[at[k]]);
                assert(all[k] == some[k]);
            }
        }
        assert forall|i: int|
            0 <= i < infos.len() && is_changed(changes, (#[trigger] infos[i]).id) implies at.contains(
            i,
        ) by {
            if i < rest.len() {
                assert(rest[i] == infos[i]);
                assert(before.contains(i));
                let k = choose|k: int| 0 <= k < before.len() && before[k] == i;
                assert(at[k] == i);
            } else {
                assert(at[at.len() - 1] == i);
            }
        }
        at
    }
}

proof fn lemma_edge_cuts(
    graph: EntityGraph,
    changes: Seq<SemanticChange>,
    n: int,
) -> (cuts: Seq<int>)
    requires
        0 <= n <= changes.len(),
    ensures
        cuts.len() == n + 1,
        cuts[0] == 0,
        cuts[n] == edges_among(
            graph,
            change_ids(changes).take(n),
            change_ids(changes).to_set(),
        ).len(),
        forall|i: int|
            0 <= i < n ==> #[trigger] are_edges_of(
                edges_among(graph, change_ids(changes).take(n), change_ids(changes).to_set()),
                graph,
                changes,
                cuts,
                i,
            ),
    decreases n,
{
    let ids = change_ids(changes);
    let changed = ids.to_set();
    let edges = edges_among(graph, ids.take(n), changed);
    if n == 0 {
        seq![0]
    } else {
        let before = lemma_edge_cuts(graph, changes, n - 1);
        let some = edges_among(graph, ids.take(n - 1), changed);
        let cuts = before.push(edges.len() as int);
        let id = changes[n - 1].entity_id@;
        let facts = facts_in(graph, id);
        assert(ids.take(n).drop_last() =~= ids.take(n - 1));
        assert(ids.take(n).last() == id);
        let uses = edges_to(id, facts.dependencies, changed);
        let users = edges_to(id, facts.dependents, changed);
        assert(edges =~= some + edges_of(id, facts, changed));
        let u = lemma_lead_to_changed(id, used_by(graph, id), changes);
        let v = lemma_lead_to_changed(id, users_of(graph, id), changes);
        let mid = some.len() + uses.len();
        assert forall|i: int| 0 <= i < n implies #[trigger] are_edges_of(
            edges,
            graph,
            changes,
            cuts,
            i,
        ) by {
            if i < n - 1 {
                assert(are_edges_of(some, graph, changes, before, i));
                assert(cuts[i] == before[i] && cuts[i + 1] == before[i + 1]);
                let own = changes[i].entity_id@;
                let (m, p, q) = choose|m: int, p: Seq<int>, q: Seq<int>|
                    {
                        &&& before[i] <= m <= before[i + 1]
                        &&& #[trigger] lead_to_changed(
                            some.subrange(before[i], m),
                            own,
                            used_by(graph, own),
                            changes,
                            p,
                        )
                        &&& #[trigger] lead_to_changed(
                            some.subrange(m, before[i + 1]),
                            own,
                            users_of(graph, own),
                            changes,
                            q,
                        )
                    };
                assert(edges.subrange(cuts[i], m) =~= some.subrange(before[i], m));
                assert(edges.subrange(m, cuts[i + 1]) =~= some.subrange(m, before[i + 1]));
                assert(lead_to_changed(
                    edges.subrange(cuts[i], m),
                    own,
                    used_by(graph, own),
                    changes,
                    p,
                ));
                assert(lead_to_changed(
                    edges.subrange(m, cuts[i + 1]),
                    own,
                    users_of(graph, own),
                    changes,
                    q,
                ));
            } else {
                assert(cuts[i] == some.len() && cuts[i + 1] == edges.len());
                assert(edges.subrange(cuts[i], mid as int) =~= uses);
                assert(edges.subrange(mid as int, cuts[i + 1]) =~= users);
                assert(lead_to_changed(
                    edges.subrange(cuts[i], mid as int),
                    id,
                    used_by(graph, id),
                    changes,
                    u,
                ));
                assert(lead_to_changed(
                    edges.subrange(mid as int, cuts[i + 1]),
                    id,
                    users_of(graph, id),
                    changes,
                    v,
                ));
            }
        }
        cuts
    }
}

/// The edges of an analysis are, change by change and in their order, those from
/// the changed entity to the changed ones among what it uses and then among its
/// users: the edges of the change at `i` stand at `cuts[i]..cuts[i + 1]`.
pub proof fn law_analysis_edges<F, P, S, L, R>(
    ctx: AnalysisContext,
    options: AnalyzeOptions,
    start: Instant,
    read: F,
    is_public: P,
    score: S,
    level: L,
    rank_of: R,
    r: Result<ReviewResult, AnalyzeError>,
) -> (cuts: Seq<int>) where
    F: Fn(&String) -> Option<String>,
    P: Fn(&String, &String, Option<&String>) -> bool,
    S: Fn(&EntityReview, usize) -> i64,
    L: Fn(i64) -> RiskLevel,
    R: Fn(usize, bool, bool) -> i64,

    requires
        ctx.well_formed(),
        call_ensures(
            analyze_with_options::<F, P, S, L, R>,
            (Ok(Some(ctx)), &options, &start, &read, &is_public, &score, &level, &rank_of),
            r,
        ),
    ensures
        cuts.len() == ctx.changes@.len() + 1,
        cuts[0] == 0,
        cuts[ctx.changes@.len() as int] == r->Ok_0.dependency_edges@.len(),
        forall|i: int|
            0 <= i < ctx.changes@.len() ==> #[trigger] are_edges_of(
                edge_views(r->Ok_0.dependency_edges@),
                ctx.graph,
                ctx.changes@,
                cuts,
                i,
            ),
{
    let n = ctx.changes@.len() as int;
    let cuts = lemma_edge_cuts(ctx.graph, ctx.changes@, n);
    assert(change_ids(ctx.changes@).take(n) =~= change_ids(ctx.changes@));
    assert(edge_views(r->Ok_0.dependency_edges@).len() == r->Ok_0.dependency_edges@.len());
    cuts
}

/// A context knows the ids of its changes and no others, and the number of the
/// entities of its graph.
pub proof fn law_context(
    phase: DiffPhase,
    graph: EntityGraph,
    file_count: usize,
    list_files_ms: u64,
    graph_build_ms: u64,
    ctx: AnalysisContext,
    id: Seq<char>,
)
    requires
        call_ensures(
            AnalysisContext::new,
            (phase, graph, file_count, list_files_ms, graph_build_ms),
            ctx,
        ),
    ensures
        ctx.changed_entity_ids@.contains(id) <==> is_changed(phase.changes@, id),
        ctx.total_graph_entities == graph_entities(graph).len(),
        ctx.changes == phase.changes,
        ctx.graph == graph,
        ctx.diff_ms == phase.diff_ms,
        ctx.file_count == file_count,
        ctx.list_files_ms == list_files_ms,
        ctx.graph_build_ms == graph_build_ms,
{
    lemma_changed(phase.changes@, id);
}

/// Whether `file` is what is diffed for `pair`: under the name of the pair, with
/// the contents of both its sides, whatever its status, and with no older path.
pub open spec fn is_file_of(file: FileChange, pair: FilePair) -> bool {
    &&& file.file_path@ == pair.filename@
    &&& opt_view(file.before_content) == opt_view(pair.before_content)
    &&& opt_view(file.after_content) == opt_view(pair.after_content)
    &&& file.old_file_path is None
    &&& file.status == FileStatus::Added <==> pair.status@ == seq!['a', 'd', 'd', 'e', 'd']
    &&& file.status == FileStatus::Deleted <==> pair.status@ == seq![
        'r',
        'e',
        'm',
        'o',
        'v',
        'e',
        'd',
    ]
    &&& file.status == FileStatus::Renamed <==> pair.status@ == seq![
        'r',
        'e',
        'n',
        'a',
        'm',
        'e',
        'd',
    ]
}

proof fn lemma_status_words()
    ensures
        "added"@ == seq!['a', 'd', 'd', 'e', 'd'],
        "removed"@ == seq!['r', 'e', 'm', 'o', 'v', 'e', 'd'],
        "renamed"@ == seq!['r', 'e', 'n', 'a', 'm', 'e', 'd'],
        "added"@ != "removed"@,
        "added"@ != "renamed"@,
        "removed"@ != "renamed"@,
{
    reveal_strlit("added");
    reveal_strlit("removed");
    reveal_strlit("renamed");
    assert("added"@ =~= seq!['a', 'd', 'd', 'e', 'd']);
    assert("removed"@ =~= seq!['r', 'e', 'm', 'o', 'v', 'e', 'd']);
    assert("renamed"@ =~= seq!['r', 'e', 'n', 'a', 'm', 'e', 'd']);
    assert("removed"@[2] != "renamed"@[2]);
    assert("added"@[0] != "removed"@[0]);
    assert("added"@[0] != "renamed"@[0]);
}

/// A pair is diffed under its own name with the contents of both its sides,
/// whatever its status. The status is that of the same name, and modified for
/// any other.
pub proof fn law_remote_change(pair: FilePair, r: FileChange)
    requires
        call_ensures(remote_change, (&pair,), r),
    ensures
        r.file_path == pair.filename,
        r.before_content == pair.before_content,
        r.after_content == pair.after_content,
        is_file_of(r, pair),
{
    lemma_status_words();
}

/// Whether `files` are diffed for those of `pairs` that stand at `at`, which are
/// those that are not noise, in their order.
pub open spec fn are_files_of<N: Fn(&String) -> bool>(
    is_noise: N,
    pairs: Seq<FilePair>,
    files: Seq<FileChange>,
    at: Seq<int>,
) -> bool {
    &&& files.len() == at.len()
    &&& forall|a: int, b: int| 0 <= a < b < at.len() ==> #[trigger] at[a] < #[trigger] at[b]
    &&& forall|k: int|
        0 <= k < at.len() ==> {
            &&& 0 <= #[trigger] at[k] < pairs.len()
            &&& is_file_of(files[k], pairs[at[k]])
            &&& call_ensures(is_noise, (&pairs[at[k]].filename,), false)
        }
    &&& forall|i: int|
        0 <= i < pairs.len() && !#[trigger] at.contains(i) ==> call_ensures(
            is_noise,
            (&pairs[i].filename,),
            true,
        )
}

proof fn lemma_files_of<N: Fn(&String) -> bool>(
    is_noise: N,
    pairs: Seq<FilePair>,
    noise: Seq<bool>,
)
    requires
        marks_noisy_pairs(is_noise, pairs, noise),
    ensures
        are_files_of(is_noise, pairs, quiet_changes(pairs, noise), marked(negated(noise))),
{
    let keep = negated(noise);
    let at = marked(keep);
    let files = quiet_changes(pairs, noise);
    lemma_picked_at(pairs, keep);
    lemma_status_words();
    assert forall|k: int| 0 <= k < at.len() implies {
        &&& 0 <= #[trigger] at[k] < pairs.len()
        &&& is_file_of(files[k], pairs[at[k]])
        &&& call_ensures(is_noise, (&pairs[at[k]].filename,), false)
    } by {
        assert(keep[at[k]]);
        assert(!noise[at[k]]);
        assert(picked(pairs, keep)[k] == pairs[at[k]]);
    }
    assert forall|i: int| 0 <= i < pairs.len() && !#[trigger] at.contains(i) implies call_ensures(
        is_noise,
        (&pairs[i].filename,),
        true,
    ) by {
        assert(call_ensures(is_noise, (&pairs[i].filename,), noise[i]));
        if keep[i] {
            assert((|i: int| keep[i])(i));
        }
    }
}

/// Remote files are diffed for exactly the pairs that are not noise, in their
/// order, each under its own name with the contents of both its sides.
pub proof fn law_remote_changes<N: Fn(&String) -> bool>(
    pairs: &[FilePair],
    is_noise: N,
    r: Vec<FileChange>,
) -> (at: Seq<int>)
    requires
        call_ensures(remote_changes::<N>, (pairs, &is_noise), r),
    ensures
        are_files_of(is_noise, pairs@, r@, at),
{
    let noise = choose|noise: Seq<bool>| #[trigger]
        marks_noisy_pairs(is_noise, pairs@, noise) && r@ == quiet_changes(pairs@, noise);
    lemma_files_of(is_noise, pairs@, noise);
    marked(negated(noise))
}

/// The analysis of remote files goes by what the differ found in the files of
/// the pairs that are not noise. It counts those files. Where the differ found
/// nothing, or there was nothing to diff, it is empty. Else it has one review for
/// each change, ordered by score, which takes over what its change says and is
/// judged in a graph of no entities, with no users, no uses and no lines.
pub proof fn law_remote_analysis<N, P, S, L>(
    pairs: &[FilePair],
    is_noise: N,
    is_public: P,
    score: S,
    level: L,
    r: Result<ReviewResult, AnalyzeError>,
) -> (found: (Seq<int>, Seq<FileChange>, Seq<int>)) where
    N: Fn(&String) -> bool,
    P: Fn(&String, &String, Option<&String>) -> bool,
    S: Fn(&EntityReview, usize) -> i64,
    L: Fn(i64) -> RiskLevel,

    requires
        call_ensures(
            analyze_remote::<N, P, S, L>,
            (pairs, &is_noise, &is_public, &score, &level),
            r,
        ),
    ensures
        r is Ok,
        are_files_of(is_noise, pairs@, found.1, found.0),
        found.1.len() == 0 ==> r->Ok_0.changes@.len() == 0,
        found.1.len() > 0 && r->Ok_0.changes@.len() > 0 ==> found_by_diff(
            found.1,
            r->Ok_0.changes,
        ),
        found.1.len() > 0 && r->Ok_0.changes@.len() == 0 ==> exists|none: Vec<SemanticChange>|
            none@.len() == 0 && #[trigger] found_by_diff(found.1, none),
        r->Ok_0.changes@.len() == 0 ==> {
            let result = r->Ok_0;
            &&& result.entity_reviews@.len() == 0
            &&& result.groups@.len() == 0
            &&& result.dependency_edges@.len() == 0
            &&& result.stats.total_entities == 0
            &&& result.timing.file_count == 0
            &&& result.timing.total_ms == 0
        },
        r->Ok_0.changes@.len() > 0 ==> {
            let result = r->Ok_0;
            let from = found.2;
            &&& in_sync(result)
            &&& result.dependency_edges@.len() == 0
            &&& result.timing.file_count == found.1.len()
            &&& result.timing.list_files_ms == 0
            &&& result.timing.graph_build_ms == 0
            &&& result.timing.graph_entity_count == 0
            &&& are_in_order(result.entity_reviews@, result.changes@.len(), from)
            &&& forall|k: int|
                0 <= k < from.len() ==> {
                    let review = result.entity_reviews@[k];
                    let change = result.changes@[#[trigger] from[k]];
                    &&& takes_over(review, change)
                    &&& is_judged(review, change, 0, is_public, score, level)
                    &&& review.dependent_count == 0 && review.dependency_count == 0
                    &&& review.dependent_names@.len() == 0 && review.dependency_names@.len() == 0
                    &&& review.blast_radius == 0
                    &&& review.start_line == 0 && review.end_line == 0
                    &&& review.dependent_entities@.len() == 0
                }
        },
{
    let result = r->Ok_0;
    let noise = lemma_remote_noise(pairs@, is_noise, is_public, score, level, result);
    let files = quiet_changes(pairs@, noise);
    lemma_files_of(is_noise, pairs@, noise);
    let at = marked(negated(noise));
    if result.changes@.len() > 0 {
        law_remote_in_sync(result, files.len(), is_public, score, level);
        let reviews = choose|reviews: Seq<EntityReview>| #[trigger]
            are_remote_reviews(reviews, result.changes@, is_public, score, level) && is_conclusion(
                result,
                reviews,
                Seq::empty(),
            );
        let from = lemma_in_order(result, reviews, Seq::empty());
        assert forall|k: int| 0 <= k < from.len() implies {
            let review = result.entity_reviews@[k];
            let change = result.changes@[#[trigger] from[k]];
            &&& takes_over(review, change)
            &&& is_judged(review, change, 0, is_public, score, level)
            &&& review.dependent_count == 0 && review.dependency_count == 0
            &&& review.dependent_names@.len() == 0 && review.dependency_names@.len() == 0
            &&& review.blast_radius == 0
            &&& review.start_line == 0 && review.end_line == 0
            &&& review.dependent_entities@.len() == 0
        } by {
            let base = reviews[from[k]];
            lemma_review(
                result.entity_reviews@[k],
                base,
                result.changes@[from[k]],
                no_facts(),
                0,
                is_public,
                score,
                level,
            );
        }
        (at, files, from)
    } else {
        (at, files, Seq::empty())
    }
}

proof fn lemma_remote_noise<N, P, S, L>(
    pairs: Seq<FilePair>,
    is_noise: N,
    is_public: P,
    score: S,
    level: L,
    result: ReviewResult,
) -> (noise: Seq<bool>) where
    N: Fn(&String) -> bool,
    P: Fn(&String, &String, Option<&String>) -> bool,
    S: Fn(&EntityReview, usize) -> i64,
    L: Fn(i64) -> RiskLevel,

    requires
        is_remote_outcome(result, pairs, is_noise, is_public, score, level),
    ensures
        marks_noisy_pairs(is_noise, pairs, noise),
        quiet_changes(pairs, noise).len() == 0 ==> is_empty_result(result),
        result.changes@.len() == 0 ==> is_empty_result(result),
        quiet_changes(pairs, noise).len() > 0 && result.changes@.len() > 0 ==> found_by_diff(
            quiet_changes(pairs, noise),
            result.changes,
        ),
        quiet_changes(pairs, noise).len() > 0 && result.changes@.len() == 0 ==> exists|
            none: Vec<SemanticChange>,
        |
            none@.len() == 0 && #[trigger] found_by_diff(quiet_changes(pairs, noise), none),
        result.changes@.len() > 0 ==> is_remote_analysis(
            result,
            quiet_changes(pairs, noise).len(),
            is_public,
            score,
            level,
        ),
{
    let noise = choose|noise: Seq<bool>|
        {
            let files = quiet_changes(pairs, noise);
            &&& #[trigger] marks_noisy_pairs(is_noise, pairs, noise)
            &&& all_lack_content(file_views(files)) ==> is_empty_result(result)
            &&& files.len() > 0 ==> exists|changes: Vec<SemanticChange>| #[trigger]
                found_by_diff(files, changes) && (if changes@.len() == 0 {
                    is_empty_result(result)
                } else {
                    &&& result.changes == changes
                    &&& is_remote_analysis(result, files.len(), is_public, score, level)
                })
        };
    noise
}

/// Filtering keeps exactly the changed files that are not noise, each as it is
/// and in their order.
pub proof fn law_filter_noise<N: Fn(&String) -> bool>(
    files: Vec<FileChange>,
    is_noise: N,
    r: Vec<FileChange>,
) -> (at: Seq<int>)
    requires
        call_ensures(filter_noise::<N>, (files, &is_noise), r),
    ensures
        are_quiet_at(is_noise, files@, r@, at),
{
    let noise = choose|noise: Seq<bool>| #[trigger]
        marks_noise(is_noise, files@, noise) && r@ == picked(files@, negated(noise));
    lemma_quiet_at(is_noise, files@, noise);
    marked(negated(noise))
}

/// Whether `r` holds those of `files` that stand at `at`, which are those that
/// are not noise, in their order.
pub open spec fn are_quiet_at<N: Fn(&String) -> bool>(
    is_noise: N,
    files: Seq<FileChange>,
    r: Seq<FileChange>,
    at: Seq<int>,
) -> bool {
    &&& r.len() == at.len()
    &&& forall|a: int, b: int| 0 <= a < b < at.len() ==> #[trigger] at[a] < #[trigger] at[b]
    &&& forall|k: int|
        0 <= k < at.len() ==> {
            &&& 0 <= #[trigger] at[k] < files.len()
            &&& r[k] == files[at[k]]
            &&& call_ensures(is_noise, (&files[at[k]].file_path,), false)
        }
    &&& forall|i: int|
        0 <= i < files.len() && !#[trigger] at.contains(i) ==> call_ensures(
            is_noise,
            (&files[i].file_path,),
            true,
        )
}

proof fn lemma_quiet_at<N: Fn(&String) -> bool>(
    is_noise: N,
    files: Seq<FileChange>,
    noise: Seq<bool>,
)
    requires
        marks_noise(is_noise, files, noise),
    ensures
        are_quiet_at(is_noise, files, picked(files, negated(noise)), marked(negated(noise))),
{
    let keep = negated(noise);
    let at = marked(keep);
    let r = picked(files, keep);
    lemma_picked_at(files, keep);
    assert forall|k: int| 0 <= k < at.len() implies {
        &&& 0 <= #[trigger] at[k] < files.len()
        &&& r[k] == files[at[k]]
        &&& call_ensures(is_noise, (&files[at[k]].file_path,), false)
    } by {
        assert(keep[at[k]]);
        assert(!noise[at[k]]);
    }
    assert forall|i: int| 0 <= i < files.len() && !#[trigger] at.contains(i) implies call_ensures(
        is_noise,
        (&files[i].file_path,),
        true,
    ) by {
        assert(call_ensures(is_noise, (&files[i].file_path,), noise[i]));
        if keep[i] {
            assert((|i: int| keep[i])(i));
        }
    }
}

/// A context begins with what the differ found in the changed files that are not
/// noise. There is none exactly where that is nothing or no such file is left.
pub proof fn law_begin_context<N: Fn(&String) -> bool>(
    files: Vec<FileChange>,
    is_noise: N,
    r: Option<DiffPhase>,
) -> (found: (Seq<int>, Seq<FileChange>))
    requires
        call_ensures(begin_context::<N>, (files, &is_noise), r),
    ensures
        are_quiet_at(is_noise, files@, found.1, found.0),
        found.1.len() == 0 ==> r is None,
        r is Some ==> r->0.changes@.len() > 0 && found_by_diff(found.1, r->0.changes),
        r is None && found.1.len() > 0 ==> exists|none: Vec<SemanticChange>|
            none@.len() == 0 && #[trigger] found_by_diff(found.1, none),
{
    let noise = choose|noise: Seq<bool>| #[trigger]
        marks_noise(is_noise, files@, noise) && is_diff_of(picked(files@, negated(noise)), r);
    lemma_quiet_at(is_noise, files@, noise);
    let kept = picked(files@, negated(noise));
    assert(kept.len() == 0 ==> all_lack_content(file_views(kept)));
    (marked(negated(noise)), kept)
}

/// Nothing to review is a result without reviews, groups, edges and changes, in
/// which nothing was counted and no time passed; it is in step.
pub proof fn law_empty_result(r: ReviewResult)
    requires
        call_ensures(empty_result, (), r),
    ensures
        r.entity_reviews@.len() == 0 && r.groups@.len() == 0,
        r.dependency_edges@.len() == 0 && r.changes@.len() == 0,
        r.timing.file_count == 0 && r.timing.graph_entity_count == 0,
        r.timing.diff_ms == 0 && r.timing.list_files_ms == 0 && r.timing.graph_build_ms == 0,
        r.timing.scoring_ms == 0 && r.timing.total_ms == 0,
        in_sync(r),
{
    reveal(Seq::filter);
    assert(edge_views(r.dependency_edges@) =~= Seq::empty());
    assert(group_views(r.groups@) =~= untangled(
        r.entity_reviews@,
        edge_views(r.dependency_edges@),
    )) by {
        lemma_leader_count(review_ids(r.entity_reviews@), edge_views(r.dependency_edges@));
    }
}

/// An error is handed on as it is, and a diff without changes has the result
/// that [`empty_result`] gives, whatever the options.
pub proof fn law_nothing_to_analyze<F, P, S, L, R>(
    ctx: Result<Option<AnalysisContext>, AnalyzeError>,
    options: AnalyzeOptions,
    start: Instant,
    read: F,
    is_public: P,
    score: S,
    level: L,
    rank_of: R,
    r: Result<ReviewResult, AnalyzeError>,
) where
    F: Fn(&String) -> Option<String>,
    P: Fn(&String, &String, Option<&String>) -> bool,
    S: Fn(&EntityReview, usize) -> i64,
    L: Fn(i64) -> RiskLevel,
    R: Fn(usize, bool, bool) -> i64,

    requires
        call_ensures(
            analyze_with_options::<F, P, S, L, R>,
            (ctx, &options, &start, &read, &is_public, &score, &level, &rank_of),
            r,
        ),
    ensures
        r is Err <==> ctx is Err,
        ctx is Err ==> r->Err_0 == ctx->Err_0,
        ctx is Ok && ctx->Ok_0 is None ==> {
            let result = r->Ok_0;
            &&& result.entity_reviews@.len() == 0 && result.groups@.len() == 0
            &&& result.dependency_edges@.len() == 0 && result.changes@.len() == 0
            &&& result.timing.file_count == 0 && result.timing.graph_entity_count == 0
        },
{
}

/// The plain analysis is one with default options: it agrees with any analysis of
/// its context, where the functions that judge it answer by what they see, and it
/// shows no source of dependents. Errors are handed on as they are.
pub proof fn law_plain_analysis<F, P, S, L, R>(
    ctx: Result<Option<AnalysisContext>, AnalyzeError>,
    options: AnalyzeOptions,
    start: Instant,
    read: F,
    is_public: P,
    score: S,
    level: L,
    rank_of: R,
    plain: Result<ReviewResult, AnalyzeError>,
    other: Result<ReviewResult, AnalyzeError>,
) where
    F: Fn(&String) -> Option<String>,
    P: Fn(&String, &String, Option<&String>) -> bool,
    S: Fn(&EntityReview, usize) -> i64,
    L: Fn(i64) -> RiskLevel,
    R: Fn(usize, bool, bool) -> i64,

    requires
        settles_public(is_public),
        settles_score(score),
        settles_level(level),
        call_ensures(
            analyze::<F, P, S, L, R>,
            (ctx, &start, &read, &is_public, &score, &level, &rank_of),
            plain,
        ),
        call_ensures(
            analyze_with_options::<F, P, S, L, R>,
            (ctx, &options, &start, &read, &is_public, &score, &level, &rank_of),
            other,
        ),
    ensures
        plain is Ok <==> other is Ok,
        plain is Err ==> plain->Err_0 == other->Err_0,
        plain is Ok ==> agree(plain->Ok_0, other->Ok_0),
        plain is Ok ==> forall|k: int|
            0 <= k < plain->Ok_0.entity_reviews@.len() ==> (
            #[trigger] plain->Ok_0.entity_reviews@[k]).dependent_entities@.len() == 0,
{
    if ctx is Ok {
        if ctx->Ok_0 is Some {
            let defaults = AnalyzeOptions {
                include_dependent_code: false,
                max_dependents_per_entity: 5,
                max_dependent_lines: 100,
            };
            let context = ctx->Ok_0->0;
            law_options_change_only_dependents(
                plain->Ok_0,
                other->Ok_0,
                context,
                defaults,
                options,
                read,
                is_public,
                score,
                level,
                rank_of,
            );
            assert forall|k: int| 0 <= k < plain->Ok_0.entity_reviews@.len() implies (
            #[trigger] plain->Ok_0.entity_reviews@[k]).dependent_entities@.len() == 0 by {
                law_dependents_follow_options(
                    plain->Ok_0,
                    context,
                    defaults,
                    read,
                    is_public,
                    score,
                    level,
                    rank_of,
                    k,
                );
            }
        } else {
            lemma_empty_results_agree(plain->Ok_0, other->Ok_0);
        }
    }
}

} // verus!
