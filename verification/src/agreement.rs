//! When two analyses agree: what noise and options leave as it is.

use vstd::prelude::*;

use crate::analyze::{
    are_full_reviews, are_remote_reviews, change_of_pair, facts_in, is_analysis, is_conclusion,
    is_draft, is_empty_result, is_full_review, is_remote_analysis, is_remote_outcome, is_review,
    lists_dependents, marks_noisy_pairs, negated, no_facts, quiet_changes, AnalysisContext,
    AnalyzeOptions, GraphFactsView,
};
use crate::dependents::{
    answers_public, are_candidates, dependent_views, law_selection_bounded, selected, Candidate,
    DependentEntityView,
};
use crate::diff::{all_lack_content, change_views, file_views, found_by_diff};
use crate::rank::{law_ranked_by_score, law_ranking_exists, ranked, ranking_of, scores_of};
use crate::summary::{lemma_stats_agree, picked};
use crate::types::{
    opt_view, ChangeClassification, ChangeType, EntityReview, FileChange, FilePair, ReviewResult,
    RiskLevel, SemanticChange,
};
use crate::untangle::{
    assigned, edge_views, group_views, lemma_group_bounds, review_ids, untangled,
};

verus! {

/// The contents of an [`EntityReview`].
pub struct EntityReviewView {
    pub entity_id: Seq<char>,
    pub entity_name: Seq<char>,
    pub entity_type: Seq<char>,
    pub file_path: Seq<char>,
    pub change_type: ChangeType,
    pub classification: ChangeClassification,
    pub risk_score: i64,
    pub risk_level: RiskLevel,
    pub blast_radius: usize,
    pub dependent_count: usize,
    pub dependency_count: usize,
    pub is_public_api: bool,
    pub structural_change: Option<bool>,
    pub group_id: usize,
    pub start_line: usize,
    pub end_line: usize,
    pub before_content: Option<Seq<char>>,
    pub after_content: Option<Seq<char>>,
    pub dependent_names: Seq<(Seq<char>, Seq<char>)>,
    pub dependency_names: Seq<(Seq<char>, Seq<char>)>,
    pub dependent_entities: Seq<DependentEntityView>,
}

impl View for EntityReview {
    type V = EntityReviewView;

    open spec fn view(&self) -> EntityReviewView {
        EntityReviewView {
            entity_id: self.entity_id@,
            entity_name: self.entity_name@,
            entity_type: self.entity_type@,
            file_path: self.file_path@,
            change_type: self.change_type,
            classification: self.classification,
            risk_score: self.risk_score,
            risk_level: self.risk_level,
            blast_radius: self.blast_radius,
            dependent_count: self.dependent_count,
            dependency_count: self.dependency_count,
            is_public_api: self.is_public_api,
            structural_change: self.structural_change,
            group_id: self.group_id,
            start_line: self.start_line,
            end_line: self.end_line,
            before_content: opt_view(self.before_content),
            after_content: opt_view(self.after_content),
            dependent_names: edge_views(self.dependent_names@),
            dependency_names: edge_views(self.dependency_names@),
            dependent_entities: dependent_views(self.dependent_entities@),
        }
    }
}

/// The contents of a list of reviews.
pub open spec fn review_views(reviews: Seq<EntityReview>) -> Seq<EntityReviewView> {
    reviews.map_values(|r: EntityReview| r@)
}

/// A review without the source of its dependents.
pub open spec fn bare(review: EntityReview) -> EntityReviewView {
    EntityReviewView { dependent_entities: Seq::empty(), ..review@ }
}

/// Whether two lists of reviews differ at most in the source of dependents.
pub open spec fn all_alike(a: Seq<EntityReview>, b: Seq<EntityReview>) -> bool {
    &&& a.len() == b.len()
    &&& forall|i: int|
        #![trigger a[i]]
        #![trigger b[i]]
        0 <= i < a.len() ==> bare(a[i]) == bare(b[i])
}

/// Whether two results differ at most in the source of dependents and in elapsed
/// times.
pub open spec fn agree(a: ReviewResult, b: ReviewResult) -> bool {
    &&& all_alike(a.entity_reviews@, b.entity_reviews@)
    &&& group_views(a.groups@) == group_views(b.groups@)
    &&& a.stats == b.stats
    &&& edge_views(a.dependency_edges@) == edge_views(b.dependency_edges@)
    &&& change_views(a.changes@) == change_views(b.changes@)
    &&& a.timing.file_count == b.timing.file_count
    &&& a.timing.graph_entity_count == b.timing.graph_entity_count
}

/// Whether the answer of `is_noise` depends on the path alone.
pub open spec fn settles_noise<N: Fn(&String) -> bool>(is_noise: N) -> bool {
    forall|a: &String, b: &String, x: bool, y: bool|
        a@ == b@ && #[trigger] call_ensures(is_noise, (a,), x) && #[trigger] call_ensures(
            is_noise,
            (b,),
            y,
        ) ==> x == y
}

/// Whether the answer of `is_public` depends on type, name and text alone.
pub open spec fn settles_public<P: Fn(&String, &String, Option<&String>) -> bool>(
    is_public: P,
) -> bool {
    forall|
        t1: String,
        t2: String,
        n1: String,
        n2: String,
        text: Option<Seq<char>>,
        x: bool,
        y: bool,
    |
        t1@ == t2@ && n1@ == n2@ && #[trigger] answers_public(is_public, t1, n1, text, x)
            && #[trigger] answers_public(is_public, t2, n2, text, y) ==> x == y
}

/// Whether the answer of `score` depends on the contents of the review and the
/// total alone.
pub open spec fn settles_score<S: Fn(&EntityReview, usize) -> i64>(score: S) -> bool {
    forall|a: &EntityReview, b: &EntityReview, total: usize, x: i64, y: i64|
        a@ == b@ && #[trigger] call_ensures(score, (a, total), x) && #[trigger] call_ensures(
            score,
            (b, total),
            y,
        ) ==> x == y
}

/// Whether the answer of `level` depends on the score alone.
pub open spec fn settles_level<L: Fn(i64) -> RiskLevel>(level: L) -> bool {
    forall|key: i64, x: RiskLevel, y: RiskLevel|
        #[trigger] call_ensures(level, (key,), x) && #[trigger] call_ensures(level, (key,), y)
            ==> x == y
}

/// Whether what a diff finds depends on the contents of the files alone.
pub open spec fn diff_settles() -> bool {
    forall|
        f: Seq<FileChange>,
        g: Seq<FileChange>,
        a: Vec<SemanticChange>,
        b: Vec<SemanticChange>,
    |
        file_views(f) == file_views(g) && #[trigger] found_by_diff(f, a)
            && #[trigger] found_by_diff(g, b) ==> change_views(a@) == change_views(b@)
}

proof fn lemma_drafts_agree(
    a: EntityReview,
    b: EntityReview,
    c: SemanticChange,
    d: SemanticChange,
    facts: GraphFactsView,
    is_public_api: bool,
)
    requires
        c@ == d@,
        is_draft(a, c, facts, is_public_api),
        is_draft(b, d, facts, is_public_api),
    ensures
        a@ == b@,
{
    assert(a@.dependent_entities =~= b@.dependent_entities);
    assert(opt_view(c.before_content) == opt_view(d.before_content)) by {
        assert(c@.before_content == d@.before_content);
    }
    assert(opt_view(c.after_content) == opt_view(d.after_content)) by {
        assert(c@.after_content == d@.after_content);
    }
    assert(c@.entity_id == d@.entity_id && c@.entity_name == d@.entity_name && c@.entity_type
        == d@.entity_type && c@.file_path == d@.file_path);
    assert(c@.change_type == d@.change_type && c@.structural_change == d@.structural_change);
}

proof fn lemma_reviews_agree<P, S, L>(
    a: EntityReview,
    b: EntityReview,
    c: SemanticChange,
    d: SemanticChange,
    facts: GraphFactsView,
    total: usize,
    is_public: P,
    score: S,
    level: L,
) where
    P: Fn(&String, &String, Option<&String>) -> bool,
    S: Fn(&EntityReview, usize) -> i64,
    L: Fn(i64) -> RiskLevel,

    requires
        c@ == d@,
        settles_public(is_public),
        settles_score(score),
        settles_level(level),
        is_review(a, c, facts, total, is_public, score, level),
        is_review(b, d, facts, total, is_public, score, level),
    ensures
        a@ == b@,
        a.dependent_entities@.len() == 0,
{
    let x = choose|x: EntityReview|
        {
            &&& #[trigger] is_draft(x, c, facts, x.is_public_api)
            &&& answers_public(
                is_public,
                c.entity_type,
                c.entity_name,
                opt_view(c.after_content),
                x.is_public_api,
            )
            &&& call_ensures(score, (&x, total), a.risk_score)
            &&& call_ensures(level, (a.risk_score,), a.risk_level)
            &&& a == (EntityReview { risk_score: a.risk_score, risk_level: a.risk_level, ..x })
        };
    let y = choose|y: EntityReview|
        {
            &&& #[trigger] is_draft(y, d, facts, y.is_public_api)
            &&& answers_public(
                is_public,
                d.entity_type,
                d.entity_name,
                opt_view(d.after_content),
                y.is_public_api,
            )
            &&& call_ensures(score, (&y, total), b.risk_score)
            &&& call_ensures(level, (b.risk_score,), b.risk_level)
            &&& b == (EntityReview { risk_score: b.risk_score, risk_level: b.risk_level, ..y })
        };
    assert(c@.after_content == d@.after_content);
    assert(c@.entity_type == d@.entity_type && c@.entity_name == d@.entity_name);
    assert(x.is_public_api == y.is_public_api);
    lemma_drafts_agree(x, y, c, d, facts, x.is_public_api);
    assert(a.risk_score == b.risk_score);
    assert(a.risk_level == b.risk_level);
    assert(a@ == (EntityReviewView {
        risk_score: a.risk_score,
        risk_level: a.risk_level,
        ..x@
    }));
    assert(b@ == (EntityReviewView {
        risk_score: b.risk_score,
        risk_level: b.risk_level,
        ..y@
    }));
}

proof fn lemma_alike_fields(a: EntityReview, b: EntityReview)
    requires
        bare(a) == bare(b),
    ensures
        a.entity_id@ == b.entity_id@,
        a.entity_name@ == b.entity_name@,
        a.file_path@ == b.file_path@,
        a.risk_score == b.risk_score,
        a.risk_level == b.risk_level,
        a.classification == b.classification,
        a.change_type == b.change_type,
{
    assert(bare(a).entity_id == a.entity_id@);
    assert(bare(a).entity_name == a.entity_name@);
    assert(bare(a).file_path == a.file_path@);
    assert(bare(a).risk_score == a.risk_score);
    assert(bare(a).risk_level == a.risk_level);
    assert(bare(a).classification == a.classification);
    assert(bare(a).change_type == a.change_type);
}

proof fn lemma_ranked_alike(a: Seq<EntityReview>, b: Seq<EntityReview>)
    requires
        all_alike(a, b),
    ensures
        ranking_of(scores_of(a)) == ranking_of(scores_of(b)),
        all_alike(ranked(a), ranked(b)),
{
    assert(scores_of(a) =~= scores_of(b)) by {
        assert forall|i: int| 0 <= i < a.len() implies scores_of(a)[i] == scores_of(b)[i] by {
            lemma_alike_fields(a[i], b[i]);
        }
    }
    law_ranking_exists(scores_of(a));
    let order = ranking_of(scores_of(a));
    assert forall|k: int| 0 <= k < order.len() implies bare(#[trigger] ranked(a)[k]) == bare(
        ranked(b)[k],
    ) by {
        assert(bare(a[order[k]]) == bare(b[order[k]]));
    }
}

proof fn lemma_groups_agree(
    a: Seq<EntityReview>,
    b: Seq<EntityReview>,
    edges: Seq<(Seq<char>, Seq<char>)>,
)
    requires
        all_alike(a, b),
    ensures
        untangled(a, edges) == untangled(b, edges),
        all_alike(assigned(a, untangled(a, edges)), assigned(b, untangled(b, edges))),
{
    assert forall|i: int| 0 <= i < a.len() implies {
        &&& (#[trigger] a[i]).entity_id@ == b[i].entity_id@
        &&& a[i].entity_name@ == b[i].entity_name@
        &&& a[i].file_path@ == b[i].file_path@
    } by {
        lemma_alike_fields(a[i], b[i]);
    }
    assert(review_ids(a) =~= review_ids(b));
    let ids = review_ids(a);
    let groups = untangled(a, edges);
    assert(groups =~= untangled(b, edges)) by {
        assert forall|g: int| 0 <= g < groups.len() implies groups[g] == #[trigger] untangled(
            b,
            edges,
        )[g] by {
            lemma_group_bounds(ids, edges, g);
        }
    }
    let x = assigned(a, groups);
    let y = assigned(b, groups);
    assert forall|i: int| 0 <= i < a.len() implies bare(#[trigger] x[i]) == bare(y[i]) by {
        assert(bare(a[i]) == bare(b[i]));
        assert(bare(x[i]) == (EntityReviewView { group_id: x[i].group_id, ..bare(a[i]) }));
        assert(bare(y[i]) == (EntityReviewView { group_id: y[i].group_id, ..bare(b[i]) }));
        assert(bare(a[i]).group_id == a[i].group_id);
        assert(bare(b[i]).group_id == b[i].group_id);
    }
}

proof fn lemma_conclusions_agree(
    x: ReviewResult,
    y: ReviewResult,
    a: Seq<EntityReview>,
    b: Seq<EntityReview>,
)
    requires
        all_alike(a, b),
        is_conclusion(x, a, x.dependency_edges@),
        is_conclusion(y, b, y.dependency_edges@),
        edge_views(x.dependency_edges@) == edge_views(y.dependency_edges@),
    ensures
        all_alike(x.entity_reviews@, y.entity_reviews@),
        group_views(x.groups@) == group_views(y.groups@),
        x.stats == y.stats,
{
    lemma_ranked_alike(a, b);
    lemma_groups_agree(ranked(a), ranked(b), edge_views(x.dependency_edges@));
    let p = ranked(a);
    let q = ranked(b);
    assert forall|i: int| 0 <= i < p.len() implies {
        &&& (#[trigger] p[i]).risk_level == q[i].risk_level
        &&& p[i].classification == q[i].classification
        &&& p[i].change_type == q[i].change_type
    } by {
        lemma_alike_fields(p[i], q[i]);
    }
    lemma_stats_agree(x.stats, p, q);
}

/// Options change the source of dependents and nothing else: two analyses of one
/// context agree, where the functions that judge it answer by what they see.
pub proof fn law_options_change_only_dependents<F, P, S, L, R>(
    a: ReviewResult,
    b: ReviewResult,
    ctx: AnalysisContext,
    options: AnalyzeOptions,
    others: AnalyzeOptions,
    read: F,
    is_public: P,
    score: S,
    level: L,
    rank_of: R,
) where
    F: Fn(&String) -> Option<String>,
    P: Fn(&String, &String, Option<&String>) -> bool,
    S: Fn(&EntityReview, usize) -> i64,
    L: Fn(i64) -> RiskLevel,
    R: Fn(usize, bool, bool) -> i64,

    requires
        settles_public(is_public),
        settles_score(score),
        settles_level(level),
        is_analysis(a, ctx, options, read, is_public, score, level, rank_of),
        is_analysis(b, ctx, others, read, is_public, score, level, rank_of),
    ensures
        agree(a, b),
        a.changes == b.changes,
        a.timing.diff_ms == b.timing.diff_ms,
        a.timing.list_files_ms == b.timing.list_files_ms,
        a.timing.graph_build_ms == b.timing.graph_build_ms,
{
    let x = choose|x: Seq<EntityReview>| #[trigger]
        are_full_reviews(x, ctx, options, read, is_public, score, level, rank_of) && is_conclusion(
            a,
            x,
            a.dependency_edges@,
        );
    let y = choose|y: Seq<EntityReview>| #[trigger]
        are_full_reviews(y, ctx, others, read, is_public, score, level, rank_of) && is_conclusion(
            b,
            y,
            b.dependency_edges@,
        );
    assert forall|i: int| 0 <= i < x.len() implies bare(#[trigger] x[i]) == bare(y[i]) by {
        let change = ctx.changes@[i];
        let facts = facts_in(ctx.graph, change.entity_id@);
        let total = ctx.total_graph_entities;
        assert(is_full_review(
            x[i],
            change,
            ctx,
            options,
            read,
            is_public,
            score,
            level,
            rank_of,
        ));
        assert(is_full_review(y[i], change, ctx, others, read, is_public, score, level, rank_of));
        let p = choose|p: EntityReview|
            {
                &&& #[trigger] is_review(p, change, facts, total, is_public, score, level)
                &&& x[i] == (EntityReview { dependent_entities: x[i].dependent_entities, ..p })
            };
        let q = choose|q: EntityReview|
            {
                &&& #[trigger] is_review(q, change, facts, total, is_public, score, level)
                &&& y[i] == (EntityReview { dependent_entities: y[i].dependent_entities, ..q })
            };
        lemma_reviews_agree(p, q, change, change, facts, total, is_public, score, level);
        assert(bare(x[i]) == bare(p));
        assert(bare(y[i]) == bare(q));
    }
    lemma_conclusions_agree(a, b, x, y);
}

/// Without the option no review lists a dependent. With it each review lists
/// what the options select of the dependents of its entity, and no more of them
/// than the options admit.
pub proof fn law_dependents_follow_options<F, P, S, L, R>(
    result: ReviewResult,
    ctx: AnalysisContext,
    options: AnalyzeOptions,
    read: F,
    is_public: P,
    score: S,
    level: L,
    rank_of: R,
    k: int,
) where
    F: Fn(&String) -> Option<String>,
    P: Fn(&String, &String, Option<&String>) -> bool,
    S: Fn(&EntityReview, usize) -> i64,
    L: Fn(i64) -> RiskLevel,
    R: Fn(usize, bool, bool) -> i64,

    requires
        is_analysis(result, ctx, options, read, is_public, score, level, rank_of),
        0 <= k < result.entity_reviews@.len(),
    ensures
        !options.include_dependent_code ==> result.entity_reviews@[k].dependent_entities@.len()
            == 0,
        options.include_dependent_code ==> {
            &&& lists_dependents(
                result.entity_reviews@[k],
                ctx.graph,
                options,
                read,
                is_public,
                rank_of,
            )
            &&& result.entity_reviews@[k].dependent_entities@.len()
                <= options.max_dependents_per_entity
        },
{
    let reviews = choose|reviews: Seq<EntityReview>| #[trigger]
        are_full_reviews(reviews, ctx, options, read, is_public, score, level, rank_of)
            && is_conclusion(result, reviews, result.dependency_edges@);
    law_ranked_by_score(reviews);
    let r = result.entity_reviews@[k];
    assert(reviews.contains(ranked(reviews)[k]));
    let i = choose|i: int| 0 <= i < reviews.len() && reviews[i] == ranked(reviews)[k];
    let change = ctx.changes@[i];
    assert(is_full_review(
        reviews[i],
        change,
        ctx,
        options,
        read,
        is_public,
        score,
        level,
        rank_of,
    ));
    assert(r.dependent_entities == reviews[i].dependent_entities);
    assert(r.entity_id == reviews[i].entity_id);
    if options.include_dependent_code {
        let cs = choose|cs: Seq<Candidate>| #[trigger]
            are_candidates(ctx.graph, r.entity_id@, read, is_public, rank_of, cs)
                && dependent_views(r.dependent_entities@) == selected(cs, options);
        assert(lists_dependents(reviews[i], ctx.graph, options, read, is_public, rank_of));
        assert(are_candidates(ctx.graph, r.entity_id@, read, is_public, rank_of, cs));
        law_selection_bounded(cs, options);
        assert(dependent_views(r.dependent_entities@).len() == r.dependent_entities@.len());
    }
}

proof fn lemma_quiet_step(pairs: Seq<FilePair>, noise: Seq<bool>)
    requires
        pairs.len() == noise.len(),
        pairs.len() > 0,
    ensures
        quiet_changes(pairs, noise) == (if noise.last() {
            quiet_changes(pairs.drop_last(), noise.drop_last())
        } else {
            quiet_changes(pairs.drop_last(), noise.drop_last()).push(change_of_pair(pairs.last()))
        }),
{
    assert(negated(noise).drop_last() =~= negated(noise.drop_last()));
    assert(negated(noise).last() == !noise.last());
    if !noise.last() {
        assert(quiet_changes(pairs, noise) =~= quiet_changes(
            pairs.drop_last(),
            noise.drop_last(),
        ).push(change_of_pair(pairs.last())));
    }
}

proof fn lemma_picked_len<T, U>(s: Seq<T>, t: Seq<U>, flags: Seq<bool>)
    requires
        s.len() == t.len(),
        s.len() == flags.len(),
    ensures
        picked(s, flags).len() == picked(t, flags).len(),
    decreases s.len(),
{
    if s.len() > 0 {
        lemma_picked_len(s.drop_last(), t.drop_last(), flags.drop_last());
    }
}

/// Leaving out pairs that are noise, wherever they stand, leaves the answers for
/// the others and the files that are diffed as they are.
pub proof fn law_noise_is_not_diffed<N: Fn(&String) -> bool>(
    is_noise: N,
    pairs: Seq<FilePair>,
    noise: Seq<bool>,
    keep: Seq<bool>,
)
    requires
        marks_noisy_pairs(is_noise, pairs, noise),
        keep.len() == pairs.len(),
        forall|i: int| 0 <= i < keep.len() && !#[trigger] keep[i] ==> noise[i],
    ensures
        marks_noisy_pairs(is_noise, picked(pairs, keep), picked(noise, keep)),
        quiet_changes(picked(pairs, keep), picked(noise, keep)) == quiet_changes(pairs, noise),
    decreases pairs.len(),
{
    lemma_picked_len(pairs, noise, keep);
    if pairs.len() > 0 {
        let last = pairs.len() - 1;
        let p = pairs.drop_last();
        let n = noise.drop_last();
        let k = keep.drop_last();
        assert forall|i: int| 0 <= i < n.len() implies call_ensures(
            is_noise,
            (&p[i].filename,),
            #[trigger] n[i],
        ) by {
            assert(n[i] == noise[i]);
        }
        assert forall|i: int| 0 <= i < k.len() && !#[trigger] k[i] implies n[i] by {
            assert(!keep[i]);
        }
        law_noise_is_not_diffed(is_noise, p, n, k);
        lemma_picked_len(p, n, k);
        lemma_quiet_step(pairs, noise);
        if keep[last] {
            let pp = picked(pairs, keep);
            let nn = picked(noise, keep);
            assert(pp.drop_last() =~= picked(p, k));
            assert(nn.drop_last() =~= picked(n, k));
            lemma_quiet_step(pp, nn);
            assert(call_ensures(is_noise, (&pairs[last].filename,), noise[last]));
            assert forall|i: int| 0 <= i < nn.len() implies call_ensures(
                is_noise,
                (&pp[i].filename,),
                #[trigger] nn[i],
            ) by {
                if i < picked(n, k).len() {
                    assert(nn[i] == picked(n, k)[i]);
                    assert(pp[i] == picked(p, k)[i]);
                }
            }
        }
    } else {
        assert(picked(pairs, keep) =~= pairs);
        assert(picked(noise, keep) =~= noise);
    }
}

/// A pair that is noise, put in anywhere, leaves the files that are diffed as
/// they are.
pub proof fn law_inserted_noise_is_not_diffed(
    pairs: Seq<FilePair>,
    noise: Seq<bool>,
    i: int,
    pair: FilePair,
)
    requires
        pairs.len() == noise.len(),
        0 <= i <= pairs.len(),
    ensures
        quiet_changes(pairs.insert(i, pair), noise.insert(i, true)) == quiet_changes(pairs, noise),
    decreases pairs.len(),
{
    let p = pairs.insert(i, pair);
    let n = noise.insert(i, true);
    lemma_quiet_step(p, n);
    if i == pairs.len() {
        assert(p.drop_last() =~= pairs);
        assert(n.drop_last() =~= noise);
    } else {
        assert(p.drop_last() =~= pairs.drop_last().insert(i, pair));
        assert(n.drop_last() =~= noise.drop_last().insert(i, true));
        law_inserted_noise_is_not_diffed(pairs.drop_last(), noise.drop_last(), i, pair);
        lemma_quiet_step(pairs, noise);
    }
}

proof fn lemma_remote_analyses_agree<P, S, L>(
    a: ReviewResult,
    b: ReviewResult,
    file_count: nat,
    is_public: P,
    score: S,
    level: L,
) where
    P: Fn(&String, &String, Option<&String>) -> bool,
    S: Fn(&EntityReview, usize) -> i64,
    L: Fn(i64) -> RiskLevel,

    requires
        settles_public(is_public),
        settles_score(score),
        settles_level(level),
        change_views(a.changes@) == change_views(b.changes@),
        is_remote_analysis(a, file_count, is_public, score, level),
        is_remote_analysis(b, file_count, is_public, score, level),
    ensures
        agree(a, b),
        review_views(a.entity_reviews@) == review_views(b.entity_reviews@),
{
    let x = choose|x: Seq<EntityReview>| #[trigger]
        are_remote_reviews(x, a.changes@, is_public, score, level) && is_conclusion(
            a,
            x,
            Seq::empty(),
        );
    let y = choose|y: Seq<EntityReview>| #[trigger]
        are_remote_reviews(y, b.changes@, is_public, score, level) && is_conclusion(
            b,
            y,
            Seq::empty(),
        );
    assert(change_views(a.changes@).len() == a.changes@.len());
    assert(change_views(b.changes@).len() == b.changes@.len());
    assert forall|i: int| 0 <= i < x.len() implies {
        &&& #[trigger] x[i]@ == y[i]@
        &&& x[i].dependent_entities@.len() == 0
        &&& y[i].dependent_entities@.len() == 0
    } by {
        let c = a.changes@[i];
        let d = b.changes@[i];
        assert(change_views(a.changes@)[i] == c@);
        assert(change_views(b.changes@)[i] == d@);
        lemma_reviews_agree(x[i], y[i], c, d, no_facts(), 0, is_public, score, level);
        lemma_reviews_agree(y[i], x[i], d, c, no_facts(), 0, is_public, score, level);
    }
    assert forall|i: int| 0 <= i < x.len() implies bare(#[trigger] x[i]) == bare(y[i]) by {
        assert(x[i]@ == y[i]@);
    }
    lemma_conclusions_agree(a, b, x, y);
    law_ranked_by_score(x);
    law_ranked_by_score(y);
    let r = a.entity_reviews@;
    let s = b.entity_reviews@;
    assert forall|k: int| 0 <= k < r.len() implies r[k]@ == #[trigger] s[k]@ by {
        assert(x.contains(ranked(x)[k]));
        assert(y.contains(ranked(y)[k]));
        let i = choose|i: int| 0 <= i < x.len() && x[i] == ranked(x)[k];
        let j = choose|j: int| 0 <= j < y.len() && y[j] == ranked(y)[k];
        assert(x[i]@ == y[i]@ && x[j]@ == y[j]@);
        assert(r[k].dependent_entities == x[i].dependent_entities);
        assert(s[k].dependent_entities == y[j].dependent_entities);
        assert(dependent_views(r[k].dependent_entities@) =~= Seq::empty());
        assert(dependent_views(s[k].dependent_entities@) =~= Seq::empty());
        assert(bare(r[k]) == bare(s[k]));
        assert(r[k]@ == bare(r[k]));
        assert(s[k]@ == bare(s[k]));
    }
    assert(review_views(r) =~= review_views(s));
}

/// Noise changes nothing in the analysis of remote files: with and without pairs
/// that are noise, wherever they stand, the results are equal but for elapsed
/// times. The functions that judge the files answer by what they see, and what
/// the diff finds depends on the contents of the files alone.
pub proof fn law_remote_ignores_noise<N, P, S, L>(
    without: ReviewResult,
    with: ReviewResult,
    pairs: Seq<FilePair>,
    keep: Seq<bool>,
    is_noise: N,
    is_public: P,
    score: S,
    level: L,
) where
    N: Fn(&String) -> bool,
    P: Fn(&String, &String, Option<&String>) -> bool,
    S: Fn(&EntityReview, usize) -> i64,
    L: Fn(i64) -> RiskLevel,

    requires
        diff_settles(),
        settles_noise(is_noise),
        settles_public(is_public),
        settles_score(score),
        settles_level(level),
        keep.len() == pairs.len(),
        forall|i: int|
            0 <= i < keep.len() && !#[trigger] keep[i] ==> call_ensures(
                is_noise,
                (&pairs[i].filename,),
                true,
            ),
        is_remote_outcome(with, pairs, is_noise, is_public, score, level),
        is_remote_outcome(without, picked(pairs, keep), is_noise, is_public, score, level),
    ensures
        agree(without, with),
        review_views(without.entity_reviews@) == review_views(with.entity_reviews@),
{
    let kept = picked(pairs, keep);
    let m = choose|m: Seq<bool>|
        {
            let files = quiet_changes(pairs, m);
            &&& #[trigger] marks_noisy_pairs(is_noise, pairs, m)
            &&& all_lack_content(file_views(files)) ==> is_empty_result(with)
            &&& files.len() > 0 ==> exists|changes: Vec<SemanticChange>| #[trigger]
                found_by_diff(files, changes) && (if changes@.len() == 0 {
                    is_empty_result(with)
                } else {
                    &&& with.changes == changes
                    &&& is_remote_analysis(with, files.len(), is_public, score, level)
                })
        };
    let n = choose|n: Seq<bool>|
        {
            let files = quiet_changes(kept, n);
            &&& #[trigger] marks_noisy_pairs(is_noise, kept, n)
            &&& all_lack_content(file_views(files)) ==> is_empty_result(without)
            &&& files.len() > 0 ==> exists|changes: Vec<SemanticChange>| #[trigger]
                found_by_diff(files, changes) && (if changes@.len() == 0 {
                    is_empty_result(without)
                } else {
                    &&& without.changes == changes
                    &&& is_remote_analysis(without, files.len(), is_public, score, level)
                })
        };
    assert forall|i: int| 0 <= i < keep.len() && !#[trigger] keep[i] implies m[i] by {
        assert(call_ensures(is_noise, (&pairs[i].filename,), m[i]));
        assert(call_ensures(is_noise, (&pairs[i].filename,), true));
    }
    law_noise_is_not_diffed(is_noise, pairs, m, keep);
    let p = picked(m, keep);
    assert forall|i: int| 0 <= i < n.len() implies n[i] == #[trigger] p[i] by {
        assert(call_ensures(is_noise, (&kept[i].filename,), n[i]));
        assert(call_ensures(is_noise, (&kept[i].filename,), p[i]));
    }
    assert(n =~= p);
    let files = quiet_changes(pairs, m);
    if files.len() == 0 {
        lemma_empty_results_agree(without, with);
    } else {
        let x = choose|x: Vec<SemanticChange>| #[trigger]
            found_by_diff(files, x) && (if x@.len() == 0 {
                is_empty_result(with)
            } else {
                &&& with.changes == x
                &&& is_remote_analysis(with, files.len(), is_public, score, level)
            });
        let y = choose|y: Vec<SemanticChange>| #[trigger]
            found_by_diff(files, y) && (if y@.len() == 0 {
                is_empty_result(without)
            } else {
                &&& without.changes == y
                &&& is_remote_analysis(without, files.len(), is_public, score, level)
            });
        assert(change_views(x@) == change_views(y@));
        assert(change_views(x@).len() == x@.len() && change_views(y@).len() == y@.len());
        if x@.len() == 0 {
            lemma_empty_results_agree(without, with);
        } else {
            lemma_remote_analyses_agree(without, with, files.len(), is_public, score, level);
        }
    }
}

/// Empty results agree.
pub proof fn lemma_empty_results_agree(a: ReviewResult, b: ReviewResult)
    requires
        is_empty_result(a),
        is_empty_result(b),
    ensures
        agree(a, b),
        review_views(a.entity_reviews@) == review_views(b.entity_reviews@),
{
    assert(review_views(a.entity_reviews@) =~= review_views(b.entity_reviews@));
    assert(group_views(a.groups@) =~= group_views(b.groups@));
    assert(edge_views(a.dependency_edges@) =~= edge_views(b.dependency_edges@));
    assert(change_views(a.changes@) =~= change_views(b.changes@));
}

} // verus!
