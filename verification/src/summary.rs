//! What a result says of its reviews as a whole, and keeping that in step with
//! them.

use vstd::hash_set::StringHashSet;
use vstd::prelude::*;

use crate::text::{string_set, views};
use crate::types::{
    ChangeClassification, ChangeGroup, ChangeType, ChangeTypeBreakdown, ClassificationBreakdown,
    EntityReview, ReviewResult, ReviewStats, RiskBreakdown, RiskLevel,
};
use crate::untangle::{
    assign_groups, assigned, edge_views, group_number, group_views, law_groups_partition,
    law_listed_in_own_group, lemma_group_bounds, lemma_leader_count, lemma_own_group_lists,
    review_ids, untangle, untangled, with_group, ChangeGroupView,
};

verus! {

/// How many of `reviews` meet `pred`.
pub open spec fn count(reviews: Seq<EntityReview>, pred: spec_fn(EntityReview) -> bool) -> nat {
    reviews.filter(pred).len()
}

/// Has the risk level `level`.
pub open spec fn at_level(level: RiskLevel) -> spec_fn(EntityReview) -> bool {
    |r: EntityReview| r.risk_level == level
}

/// Has the classification `class`.
pub open spec fn classified(class: ChangeClassification) -> spec_fn(EntityReview) -> bool {
    |r: EntityReview| r.classification == class
}

/// Has a classification of more than one dimension.
pub open spec fn mixed() -> spec_fn(EntityReview) -> bool {
    |r: EntityReview|
        r.classification != ChangeClassification::Text && r.classification
            != ChangeClassification::Syntax && r.classification
            != ChangeClassification::Functional
}

/// Has the change type `change`.
pub open spec fn changed_by(change: ChangeType) -> spec_fn(EntityReview) -> bool {
    |r: EntityReview| r.change_type == change
}

/// Was modified or reordered.
pub open spec fn edited() -> spec_fn(EntityReview) -> bool {
    |r: EntityReview|
        r.change_type == ChangeType::Modified || r.change_type == ChangeType::Reordered
}

/// Whether `stats` counts `reviews`.
pub open spec fn is_stats_of(stats: ReviewStats, reviews: Seq<EntityReview>) -> bool {
    &&& stats.total_entities == reviews.len()
    &&& stats.by_risk.critical == count(reviews, at_level(RiskLevel::Critical))
    &&& stats.by_risk.high == count(reviews, at_level(RiskLevel::High))
    &&& stats.by_risk.medium == count(reviews, at_level(RiskLevel::Medium))
    &&& stats.by_risk.low == count(reviews, at_level(RiskLevel::Low))
    &&& stats.by_classification.text == count(reviews, classified(ChangeClassification::Text))
    &&& stats.by_classification.syntax == count(reviews, classified(ChangeClassification::Syntax))
    &&& stats.by_classification.functional == count(
        reviews,
        classified(ChangeClassification::Functional),
    )
    &&& stats.by_classification.mixed == count(reviews, mixed())
    &&& stats.by_change_type.added == count(reviews, changed_by(ChangeType::Added))
    &&& stats.by_change_type.modified == count(reviews, edited())
    &&& stats.by_change_type.deleted == count(reviews, changed_by(ChangeType::Deleted))
    &&& stats.by_change_type.moved == count(reviews, changed_by(ChangeType::Moved))
    &&& stats.by_change_type.renamed == count(reviews, changed_by(ChangeType::Renamed))
}

/// One more review adds to the counts whose predicates it meets.
proof fn lemma_counts_push(reviews: Seq<EntityReview>, review: EntityReview)
    ensures
        forall|pred: spec_fn(EntityReview) -> bool| #[trigger]
            count(reviews.push(review), pred) == count(reviews, pred) + if pred(review) {
                1int
            } else {
                0
            },
        forall|pred: spec_fn(EntityReview) -> bool| #[trigger]
            count(reviews, pred) <= reviews.len(),
{
    assert forall|pred: spec_fn(EntityReview) -> bool| #[trigger]
        count(reviews.push(review), pred) == count(reviews, pred) + if pred(review) {
            1int
        } else {
            0
        } by {
        reviews.lemma_filter_push(review, pred);
    }
    assert forall|pred: spec_fn(EntityReview) -> bool| #[trigger]
        count(reviews, pred) <= reviews.len() by {
        reviews.lemma_filter_len(pred);
    }
}

/// Whether two lists of reviews have the same levels, classifications and change
/// types, one by one.
pub open spec fn counted_alike(a: Seq<EntityReview>, b: Seq<EntityReview>) -> bool {
    &&& a.len() == b.len()
    &&& forall|i: int|
        0 <= i < a.len() ==> {
            &&& (#[trigger] a[i]).risk_level == b[i].risk_level
            &&& a[i].classification == b[i].classification
            &&& a[i].change_type == b[i].change_type
        }
}

proof fn lemma_counts_agree(
    a: Seq<EntityReview>,
    b: Seq<EntityReview>,
    pred: spec_fn(EntityReview) -> bool,
)
    requires
        a.len() == b.len(),
        forall|i: int| 0 <= i < a.len() ==> pred(#[trigger] a[i]) == pred(b[i]),
    ensures
        count(a, pred) == count(b, pred),
    decreases a.len(),
{
    reveal(Seq::filter);
    if a.len() > 0 {
        let rest = a.drop_last();
        assert(pred(a[a.len() - 1]) == pred(b[a.len() - 1]));
        assert forall|i: int| 0 <= i < rest.len() implies pred(#[trigger] rest[i]) == pred(
            b.drop_last()[i],
        ) by {
            assert(pred(a[i]) == pred(b[i]));
        }
        lemma_counts_agree(rest, b.drop_last(), pred);
    }
}

/// Lists of reviews that are counted alike have the same counts.
pub proof fn lemma_stats_agree(stats: ReviewStats, a: Seq<EntityReview>, b: Seq<EntityReview>)
    requires
        counted_alike(a, b),
    ensures
        is_stats_of(stats, a) == is_stats_of(stats, b),
{
    assert forall|pred: spec_fn(EntityReview) -> bool|
        (forall|i: int| 0 <= i < a.len() ==> pred(#[trigger] a[i]) == pred(b[i])) implies
        #[trigger] count(a, pred) == count(b, pred) by {
        lemma_counts_agree(a, b, pred);
    }
}

/// Counts `reviews` by risk level, classification and change type.
pub fn compute_stats(reviews: &[EntityReview]) -> (stats: ReviewStats)
    ensures
        is_stats_of(stats, reviews@),
{
    let mut by_risk = RiskBreakdown { critical: 0, high: 0, medium: 0, low: 0 };
    let mut by_class = ClassificationBreakdown { text: 0, syntax: 0, functional: 0, mixed: 0 };
    let mut by_change = ChangeTypeBreakdown {
        added: 0,
        modified: 0,
        deleted: 0,
        moved: 0,
        renamed: 0,
    };
    let n: usize = reviews.len();
    let mut i: usize = 0;
    proof {
        assert(reviews@.take(0) =~= Seq::<EntityReview>::empty());
        reveal(Seq::filter);
    }
    while i < n
        invariant
            i <= n == reviews@.len(),
            is_stats_of(
                ReviewStats {
                    total_entities: i,
                    by_risk,
                    by_classification: by_class,
                    by_change_type: by_change,
                },
                reviews@.take(i as int),
            ),
        decreases n - i,
    {
        proof {
            let taken = reviews@.take(i as int);
            let r = reviews@[i as int];
            assert(reviews@.take(i + 1) =~= taken.push(r));
            lemma_counts_push(taken, r);
        }
        match reviews[i].risk_level {
            RiskLevel::Critical => by_risk.critical += 1,
            RiskLevel::High => by_risk.high += 1,
            RiskLevel::Medium => by_risk.medium += 1,
            RiskLevel::Low => by_risk.low += 1,
        }
        match reviews[i].classification {
            ChangeClassification::Text => by_class.text += 1,
            ChangeClassification::Syntax => by_class.syntax += 1,
            ChangeClassification::Functional => by_class.functional += 1,
            _ => by_class.mixed += 1,
        }
        match reviews[i].change_type {
            ChangeType::Added => by_change.added += 1,
            ChangeType::Modified => by_change.modified += 1,
            ChangeType::Deleted => by_change.deleted += 1,
            ChangeType::Moved => by_change.moved += 1,
            ChangeType::Renamed => by_change.renamed += 1,
            ChangeType::Reordered => by_change.modified += 1,
        }
        i += 1;
    }
    assert(reviews@.take(n as int) =~= reviews@);
    ReviewStats {
        total_entities: n,
        by_risk,
        by_classification: by_class,
        by_change_type: by_change,
    }
}

/// Each breakdown counts every review once: its parts add up to the total.
pub proof fn law_breakdowns_add_up(stats: ReviewStats, reviews: Seq<EntityReview>)
    requires
        is_stats_of(stats, reviews),
    ensures
        stats.by_risk.critical + stats.by_risk.high + stats.by_risk.medium + stats.by_risk.low
            == stats.total_entities,
        stats.by_classification.text + stats.by_classification.syntax
            + stats.by_classification.functional + stats.by_classification.mixed
            == stats.total_entities,
        stats.by_change_type.added + stats.by_change_type.modified
            + stats.by_change_type.deleted + stats.by_change_type.moved
            + stats.by_change_type.renamed == stats.total_entities,
{
    lemma_counts_add_up(reviews);
}

proof fn lemma_counts_add_up(reviews: Seq<EntityReview>)
    ensures
        count(reviews, at_level(RiskLevel::Critical)) + count(reviews, at_level(RiskLevel::High))
            + count(reviews, at_level(RiskLevel::Medium)) + count(
            reviews,
            at_level(RiskLevel::Low),
        ) == reviews.len(),
        count(reviews, classified(ChangeClassification::Text)) + count(
            reviews,
            classified(ChangeClassification::Syntax),
        ) + count(reviews, classified(ChangeClassification::Functional)) + count(reviews, mixed())
            == reviews.len(),
        count(reviews, changed_by(ChangeType::Added)) + count(reviews, edited()) + count(
            reviews,
            changed_by(ChangeType::Deleted),
        ) + count(reviews, changed_by(ChangeType::Moved)) + count(
            reviews,
            changed_by(ChangeType::Renamed),
        ) == reviews.len(),
    decreases reviews.len(),
{
    if reviews.len() == 0 {
        reveal(Seq::filter);
    } else {
        let rest = reviews.drop_last();
        let r = reviews.last();
        lemma_counts_add_up(rest);
        assert(reviews =~= rest.push(r));
        lemma_counts_push(rest, r);
    }
}

/// Whether both ends of `edge` are among `ids`.
pub open spec fn joins(ids: Seq<Seq<char>>, edge: (String, String)) -> bool {
    ids.contains(edge.0@) && ids.contains(edge.1@)
}

/// The edges with both ends among `ids`.
pub open spec fn kept_edges(
    edges: Seq<(String, String)>,
    ids: Seq<Seq<char>>,
) -> Seq<(String, String)> {
    edges.filter(|e: (String, String)| joins(ids, e))
}

/// Whether `result` holds `reviews` with their groups set, those of `edges` that
/// join two of them, and the groups and counts that follow from these.
pub open spec fn is_summary(
    result: ReviewResult,
    reviews: Seq<EntityReview>,
    edges: Seq<(String, String)>,
) -> bool {
    let kept = kept_edges(edges, review_ids(reviews));
    let groups = untangled(reviews, edge_views(kept));
    &&& result.dependency_edges@ == kept
    &&& group_views(result.groups@) == groups
    &&& result.entity_reviews@ == assigned(reviews, groups)
    &&& is_stats_of(result.stats, reviews)
}

/// The ids of the reviewed entities as a set.
fn id_set(reviews: &Vec<EntityReview>) -> (r: StringHashSet)
    ensures
        r@ == review_ids(reviews@).to_set(),
{
    let n: usize = reviews.len();
    let mut ids: Vec<String> = Vec::new();
    let mut i: usize = 0;
    while i < n
        invariant
            i <= n == reviews@.len(),
            views(ids@) =~= review_ids(reviews@).take(i as int),
        decreases n - i,
    {
        let ghost before = views(ids@);
        ids.push(reviews[i].entity_id.clone());
        proof {
            let all = review_ids(reviews@);
            assert(views(ids@) =~= before.push(all[i as int]));
            assert(all.take(i + 1) =~= all.take(i as int).push(all[i as int]));
        }
        i += 1;
    }
    assert(review_ids(reviews@).take(n as int) =~= review_ids(reviews@));
    string_set(&ids)
}

/// The edges with both ends among the entities of `reviews`.
fn filter_edges(edges: &Vec<(String, String)>, reviews: &Vec<EntityReview>) -> (r: Vec<
    (String, String),
>)
    ensures
        r@ == kept_edges(edges@, review_ids(reviews@)),
{
    let ghost ids = review_ids(reviews@);
    let ghost keep = |e: (String, String)| joins(ids, e);
    let set = id_set(reviews);
    let n: usize = edges.len();
    let mut r: Vec<(String, String)> = Vec::new();
    let mut i: usize = 0;
    assert(edges@.take(0).filter(keep) =~= Seq::<(String, String)>::empty()) by {
        reveal(Seq::filter);
    }
    while i < n
        invariant
            i <= n == edges@.len(),
            set@ == ids.to_set(),
            keep == (|e: (String, String)| joins(ids, e)),
            r@ == edges@.take(i as int).filter(keep),
        decreases n - i,
    {
        proof {
            let taken = edges@.take(i as int);
            assert(edges@.take(i + 1) =~= taken.push(edges@[i as int]));
            taken.lemma_filter_push(edges@[i as int], keep);
        }
        let edge = &edges[i];
        if set.contains(edge.0.as_str()) && set.contains(edge.1.as_str()) {
            r.push((edge.0.clone(), edge.1.clone()));
        }
        i += 1;
    }
    assert(edges@.take(n as int) =~= edges@);
    r
}

/// Brings edges, groups, group numbers and counts of a result in step with its
/// reviews.
pub fn refresh_result_summaries(result: &mut ReviewResult)
    ensures
        is_summary(*final(result), old(result).entity_reviews@, old(result).dependency_edges@),
        final(result).timing == old(result).timing,
        final(result).changes == old(result).changes,
{
    let edges = filter_edges(&result.dependency_edges, &result.entity_reviews);
    let groups = untangle(&result.entity_reviews, &edges);
    let stats = compute_stats(result.entity_reviews.as_slice());
    assign_groups(&mut result.entity_reviews, &groups);
    result.groups = groups;
    result.stats = stats;
    result.dependency_edges = edges;
}

/// The elements of `s` whose flag in `flags` is set.
pub open spec fn picked<T>(s: Seq<T>, flags: Seq<bool>) -> Seq<T>
    decreases s.len(),
{
    if s.len() == 0 || s.len() != flags.len() {
        Seq::empty()
    } else if flags.last() {
        picked(s.drop_last(), flags.drop_last()).push(s.last())
    } else {
        picked(s.drop_last(), flags.drop_last())
    }
}

/// Whether `flags` holds what `keep` answers for each of `reviews`.
pub open spec fn judged<F: FnMut(&EntityReview) -> bool>(
    keep: F,
    reviews: Seq<EntityReview>,
    flags: Seq<bool>,
) -> bool {
    &&& flags.len() == reviews.len()
    &&& forall|i: int|
        0 <= i < flags.len() ==> call_ensures(keep, (&reviews[i],), #[trigger] flags[i])
}

/// Keeps the reviews for which `keep` holds, and the rest of the result in step
/// with them.
pub fn retain_entity_reviews<F>(result: &mut ReviewResult, mut keep: F) where
    F: FnMut(&EntityReview) -> bool,

    requires
        forall|r: &EntityReview| #[trigger] call_requires(keep, (r,)),
    ensures
        exists|flags: Seq<bool>| #[trigger]
            judged(keep, old(result).entity_reviews@, flags) && is_summary(
                *final(result),
                picked(old(result).entity_reviews@, flags),
                old(result).dependency_edges@,
            ),
        final(result).timing == old(result).timing,
        final(result).changes == old(result).changes,
{
    let ghost pred = keep;
    let ghost reviews = result.entity_reviews@;
    let ghost mut flags: Seq<bool> = Seq::empty();
    let mut all: Vec<EntityReview> = Vec::new();
    std::mem::swap(&mut all, &mut result.entity_reviews);
    for review in it: all.into_iter()
        invariant
            it.seq() == reviews,
            keep == pred,
            forall|r: &EntityReview| #[trigger] call_requires(keep, (r,)),
            judged(pred, reviews.take(it.index() as int), flags),
            result.entity_reviews@ == picked(reviews.take(it.index() as int), flags),
            result.dependency_edges == old(result).dependency_edges,
            result.timing == old(result).timing,
            result.changes == old(result).changes,
    {
        let wanted = keep(&review);
        proof {
            let taken = reviews.take(it.index() as int);
            let next = reviews.take(it.index() + 1);
            assert(next.drop_last() =~= taken);
            let old_flags = flags;
            flags = flags.push(wanted);
            assert(flags.drop_last() =~= old_flags);
            assert forall|i: int| 0 <= i < flags.len() implies call_ensures(
                pred,
                (&next[i],),
                #[trigger] flags[i],
            ) by {
                if i < old_flags.len() {
                    assert(old_flags[i] == flags[i]);
                    assert(taken[i] == next[i]);
                }
            }
        }
        if wanted {
            result.entity_reviews.push(review);
        }
    }
    assert(reviews.take(reviews.len() as int) =~= reviews);
    refresh_result_summaries(result);
}

/// Whether the summaries of a result follow from its reviews and edges: every
/// edge joins two reviewed entities, the groups are those that the edges make,
/// every review bears the number of its group, and the counts are right.
pub open spec fn in_sync(result: ReviewResult) -> bool {
    let reviews = result.entity_reviews@;
    let ids = review_ids(reviews);
    let edges = edge_views(result.dependency_edges@);
    &&& forall|k: int|
        0 <= k < result.dependency_edges@.len() ==> joins(
            ids,
            #[trigger] result.dependency_edges@[k],
        )
    &&& group_views(result.groups@) == untangled(reviews, edges)
    &&& forall|i: int|
        0 <= i < reviews.len() ==> (#[trigger] reviews[i]).group_id == group_number(ids, edges, i)
    &&& is_stats_of(result.stats, reviews)
}

/// Whether two reviews differ at most in their group.
spec fn same_but_group(a: EntityReview, b: EntityReview) -> bool {
    with_group(a, Some(0)) == with_group(b, Some(0))
}

/// Whether two lists of reviews differ at most in the groups.
spec fn regrouped(a: Seq<EntityReview>, b: Seq<EntityReview>) -> bool {
    &&& a.len() == b.len()
    &&& forall|i: int|
        #![trigger a[i]]
        #![trigger b[i]]
        0 <= i < a.len() ==> same_but_group(a[i], b[i])
}

proof fn lemma_assigned_regrouped(reviews: Seq<EntityReview>, groups: Seq<ChangeGroupView>)
    ensures
        regrouped(reviews, assigned(reviews, groups)),
{
}

proof fn lemma_regrouped_summary(
    a: Seq<EntityReview>,
    b: Seq<EntityReview>,
    edges: Seq<(Seq<char>, Seq<char>)>,
)
    requires
        regrouped(a, b),
    ensures
        review_ids(a) == review_ids(b),
        untangled(a, edges) == untangled(b, edges),
        assigned(a, untangled(a, edges)) == assigned(b, untangled(b, edges)),
{
    assert(review_ids(a) =~= review_ids(b));
    let ids = review_ids(a);
    let groups = untangled(a, edges);
    assert(groups =~= untangled(b, edges)) by {
        assert forall|g: int| 0 <= g < groups.len() implies groups[g] == #[trigger] untangled(
            b,
            edges,
        )[g] by {
            lemma_group_bounds(ids, edges, g);
        }
    }
    assert(assigned(a, groups) =~= assigned(b, groups)) by {
        assert forall|i: int| 0 <= i < a.len() implies assigned(a, groups)[i]
            == #[trigger] assigned(b, groups)[i] by {
            law_listed_in_own_group(a, edges, i);
            assert(same_but_group(a[i], b[i]));
        }
    }
}

/// Refreshing and retaining leave a result whose summaries are in step with its
/// reviews.
pub proof fn law_summary_in_sync(
    result: ReviewResult,
    reviews: Seq<EntityReview>,
    edges: Seq<(String, String)>,
)
    requires
        is_summary(result, reviews, edges),
    ensures
        in_sync(result),
        review_ids(result.entity_reviews@) == review_ids(reviews),
{
    let ids = review_ids(reviews);
    let kept = kept_edges(edges, ids);
    let links = edge_views(kept);
    let groups = untangled(reviews, links);
    let out = result.entity_reviews@;
    lemma_assigned_regrouped(reviews, groups);
    lemma_regrouped_summary(reviews, out, links);
    lemma_stats_agree(result.stats, reviews, out);
    assert forall|k: int| 0 <= k < kept.len() implies joins(ids, #[trigger] kept[k]) by {
        edges.lemma_filter_pred(|e: (String, String)| joins(ids, e), k);
    }
    assert forall|i: int| 0 <= i < out.len() implies (#[trigger] out[i]).group_id == group_number(
        ids,
        links,
        i,
    ) by {
        law_listed_in_own_group(reviews, links, i);
        law_groups_partition(ids, links, i);
        lemma_leader_count(ids, links);
        assert(result.entity_reviews.len() == out.len());
    }
}

/// Refreshing a result whose summaries are in step changes nothing.
pub proof fn law_refresh_idempotent(before: ReviewResult, after: ReviewResult)
    requires
        in_sync(before),
        is_summary(after, before.entity_reviews@, before.dependency_edges@),
    ensures
        after.entity_reviews@ == before.entity_reviews@,
        after.dependency_edges@ == before.dependency_edges@,
        group_views(after.groups@) == group_views(before.groups@),
        after.stats == before.stats,
{
    let reviews = before.entity_reviews@;
    let ids = review_ids(reviews);
    let edges = before.dependency_edges@;
    lemma_filter_all(edges, |e: (String, String)| joins(ids, e));
    let links = edge_views(edges);
    let groups = untangled(reviews, links);
    assert(assigned(reviews, groups) =~= reviews) by {
        assert forall|i: int| 0 <= i < reviews.len() implies #[trigger] assigned(
            reviews,
            groups,
        )[i] == reviews[i] by {
            law_listed_in_own_group(reviews, links, i);
        }
    }
}

/// Where every element meets `pred`, filtering by it keeps the sequence.
pub proof fn lemma_filter_all<T>(s: Seq<T>, pred: spec_fn(T) -> bool)
    requires
        forall|i: int| 0 <= i < s.len() ==> pred(#[trigger] s[i]),
    ensures
        s.filter(pred) == s,
    decreases s.len(),
{
    reveal(Seq::filter);
    if s.len() > 0 {
        lemma_filter_all(s.drop_last(), pred);
        assert(s.drop_last().push(s.last()) =~= s);
    }
}

proof fn lemma_filter_filter<T>(s: Seq<T>, p: spec_fn(T) -> bool, q: spec_fn(T) -> bool)
    requires
        forall|x: T| #[trigger] q(x) ==> p(x),
    ensures
        s.filter(p).filter(q) == s.filter(q),
    decreases s.len(),
{
    reveal(Seq::filter);
    if s.len() > 0 {
        lemma_filter_filter(s.drop_last(), p, q);
        if p(s.last()) {
            s.drop_last().filter(p).lemma_filter_push(s.last(), q);
        }
    }
}

proof fn lemma_picked_regrouped(a: Seq<EntityReview>, b: Seq<EntityReview>, flags: Seq<bool>)
    requires
        regrouped(a, b),
    ensures
        regrouped(picked(a, flags), picked(b, flags)),
    decreases a.len(),
{
    if a.len() > 0 && a.len() == flags.len() {
        assert(same_but_group(a.last(), b.last()));
        assert(regrouped(a.drop_last(), b.drop_last()));
        lemma_picked_regrouped(a.drop_last(), b.drop_last(), flags.drop_last());
    }
}

proof fn lemma_picked_contained(reviews: Seq<EntityReview>, flags: Seq<bool>, id: Seq<char>)
    requires
        review_ids(picked(reviews, flags)).contains(id),
    ensures
        review_ids(reviews).contains(id),
    decreases reviews.len(),
{
    if reviews.len() > 0 && reviews.len() == flags.len() {
        let ids = review_ids(picked(reviews, flags));
        let rest = reviews.drop_last();
        let k = choose|k: int| 0 <= k < ids.len() && ids[k] == id;
        if flags.last() && k == ids.len() - 1 {
            assert(review_ids(reviews)[reviews.len() - 1] == id);
        } else {
            let fewer = review_ids(picked(rest, flags.drop_last()));
            assert(fewer[k] == id);
            lemma_picked_contained(rest, flags.drop_last(), id);
            let m = choose|m: int| 0 <= m < rest.len() && review_ids(rest)[m] == id;
            assert(review_ids(reviews)[m] == id);
        }
    }
}

/// Filters can be applied one after the other: what a second filter makes of a
/// filtered result is what one filter with both conditions makes of the whole.
pub proof fn law_sequential_filters(
    reviews: Seq<EntityReview>,
    edges: Seq<(String, String)>,
    between: ReviewResult,
    flags: Seq<bool>,
    after: ReviewResult,
)
    requires
        is_summary(between, reviews, edges),
        is_summary(after, picked(between.entity_reviews@, flags), between.dependency_edges@),
    ensures
        is_summary(after, picked(reviews, flags), edges),
{
    let ids = review_ids(reviews);
    let first = kept_edges(edges, ids);
    let a = picked(reviews, flags);
    let b = picked(between.entity_reviews@, flags);
    lemma_assigned_regrouped(reviews, untangled(reviews, edge_views(first)));
    lemma_picked_regrouped(reviews, between.entity_reviews@, flags);
    let links = edge_views(kept_edges(first, review_ids(b)));
    lemma_regrouped_summary(a, b, links);
    lemma_stats_agree(after.stats, a, b);
    let p = |e: (String, String)| joins(ids, e);
    let q = |e: (String, String)| joins(review_ids(a), e);
    assert forall|e: (String, String)| #[trigger] q(e) implies p(e) by {
        lemma_picked_contained(reviews, flags, e.0@);
        lemma_picked_contained(reviews, flags, e.1@);
    }
    lemma_filter_filter(edges, p, q);
}

proof fn lemma_picked_all<T>(s: Seq<T>, flags: Seq<bool>)
    requires
        flags.len() == s.len(),
        forall|i: int| 0 <= i < flags.len() ==> #[trigger] flags[i],
    ensures
        picked(s, flags) == s,
    decreases s.len(),
{
    if s.len() > 0 {
        assert(flags[flags.len() - 1]);
        assert forall|i: int| 0 <= i < flags.drop_last().len() implies #[trigger] flags.drop_last()[i] by {
            assert(flags[i]);
        }
        lemma_picked_all(s.drop_last(), flags.drop_last());
        assert(picked(s, flags) =~= s);
    } else {
        assert(picked(s, flags) =~= s);
    }
}

/// Retaining every review of a result whose summaries are in step changes
/// nothing.
pub proof fn law_retain_all(before: ReviewResult, after: ReviewResult, flags: Seq<bool>)
    requires
        in_sync(before),
        flags.len() == before.entity_reviews@.len(),
        forall|i: int| 0 <= i < flags.len() ==> #[trigger] flags[i],
        is_summary(after, picked(before.entity_reviews@, flags), before.dependency_edges@),
    ensures
        after.entity_reviews@ == before.entity_reviews@,
        after.dependency_edges@ == before.dependency_edges@,
        group_views(after.groups@) == group_views(before.groups@),
        after.stats == before.stats,
{
    lemma_picked_all(before.entity_reviews@, flags);
    law_refresh_idempotent(before, after);
}

/// One more review raises the total and, in each breakdown, exactly the count
/// that is named after its level, its classification or its change type. A
/// classification of several dimensions counts as mixed, a reordered entity as
/// modified.
pub proof fn law_one_more_review(
    reviews: &[EntityReview],
    more: &[EntityReview],
    review: EntityReview,
    s: ReviewStats,
    t: ReviewStats,
)
    requires
        more@ == reviews@.push(review),
        call_ensures(compute_stats, (reviews,), s),
        call_ensures(compute_stats, (more,), t),
    ensures
        t.total_entities == s.total_entities + 1,
        t.by_risk.critical - s.by_risk.critical == one_if(review.risk_level == RiskLevel::Critical),
        t.by_risk.high - s.by_risk.high == one_if(review.risk_level == RiskLevel::High),
        t.by_risk.medium - s.by_risk.medium == one_if(review.risk_level == RiskLevel::Medium),
        t.by_risk.low - s.by_risk.low == one_if(review.risk_level == RiskLevel::Low),
        t.by_classification.text - s.by_classification.text == one_if(
            review.classification == ChangeClassification::Text,
        ),
        t.by_classification.syntax - s.by_classification.syntax == one_if(
            review.classification == ChangeClassification::Syntax,
        ),
        t.by_classification.functional - s.by_classification.functional == one_if(
            review.classification == ChangeClassification::Functional,
        ),
        t.by_classification.mixed - s.by_classification.mixed == one_if(
            review.classification == ChangeClassification::TextSyntax || review.classification
                == ChangeClassification::TextFunctional || review.classification
                == ChangeClassification::SyntaxFunctional || review.classification
                == ChangeClassification::TextSyntaxFunctional,
        ),
        t.by_change_type.added - s.by_change_type.added == one_if(
            review.change_type == ChangeType::Added,
        ),
        t.by_change_type.modified - s.by_change_type.modified == one_if(
            review.change_type == ChangeType::Modified || review.change_type
                == ChangeType::Reordered,
        ),
        t.by_change_type.deleted - s.by_change_type.deleted == one_if(
            review.change_type == ChangeType::Deleted,
        ),
        t.by_change_type.moved - s.by_change_type.moved == one_if(
            review.change_type == ChangeType::Moved,
        ),
        t.by_change_type.renamed - s.by_change_type.renamed == one_if(
            review.change_type == ChangeType::Renamed,
        ),
{
    lemma_counts_push(reviews@, review);
}

/// 1 where `b` holds, else 0.
pub open spec fn one_if(b: bool) -> int {
    if b {
        1
    } else {
        0
    }
}

/// Without reviews every count is 0.
pub proof fn law_no_reviews(reviews: &[EntityReview], s: ReviewStats)
    requires
        reviews@.len() == 0,
        call_ensures(compute_stats, (reviews,), s),
    ensures
        s.total_entities == 0,
        s.by_risk.critical == 0 && s.by_risk.high == 0 && s.by_risk.medium == 0 && s.by_risk.low
            == 0,
        s.by_classification.text == 0 && s.by_classification.syntax == 0
            && s.by_classification.functional == 0 && s.by_classification.mixed == 0,
        s.by_change_type.added == 0 && s.by_change_type.modified == 0 && s.by_change_type.deleted
            == 0 && s.by_change_type.moved == 0 && s.by_change_type.renamed == 0,
{
    reveal(Seq::filter);
}

/// The statistics of a summary are those that [`compute_stats`] gives for its
/// reviews.
pub proof fn law_summary_stats(
    result: ReviewResult,
    reviews: Seq<EntityReview>,
    edges: Seq<(String, String)>,
    slice: &[EntityReview],
    s: ReviewStats,
)
    requires
        is_summary(result, reviews, edges),
        slice@ == result.entity_reviews@,
        call_ensures(compute_stats, (slice,), s),
    ensures
        result.stats == s,
{
    lemma_assigned_regrouped(
        reviews,
        untangled(reviews, edge_views(kept_edges(edges, review_ids(reviews)))),
    );
    lemma_stats_agree(result.stats, reviews, result.entity_reviews@);
}

/// Whether one of `reviews` is that of the entity `id`.
pub open spec fn is_reviewed(reviews: Seq<EntityReview>, id: Seq<char>) -> bool {
    exists|i: int| 0 <= i < reviews.len() && (#[trigger] reviews[i]).entity_id@ == id
}

/// An edge is kept exactly where both its ends are reviewed, and the kept edges
/// stay in their order: one more edge is appended or dropped.
pub proof fn law_edge_kept(
    without: ReviewResult,
    with: ReviewResult,
    reviews: Seq<EntityReview>,
    edges: Seq<(String, String)>,
    edge: (String, String),
)
    requires
        is_summary(without, reviews, edges),
        is_summary(with, reviews, edges.push(edge)),
    ensures
        is_reviewed(reviews, edge.0@) && is_reviewed(reviews, edge.1@) ==> with.dependency_edges@
            == without.dependency_edges@.push(edge),
        !is_reviewed(reviews, edge.0@) || !is_reviewed(reviews, edge.1@)
            ==> with.dependency_edges@ == without.dependency_edges@,
{
    let ids = review_ids(reviews);
    lemma_id_among(reviews, edge.0@);
    lemma_id_among(reviews, edge.1@);
    edges.lemma_filter_push(edge, |e: (String, String)| joins(ids, e));
}

proof fn lemma_id_among(reviews: Seq<EntityReview>, id: Seq<char>)
    ensures
        review_ids(reviews).contains(id) <==> is_reviewed(reviews, id),
{
    if review_ids(reviews).contains(id) {
        let i = choose|i: int| 0 <= i < review_ids(reviews).len() && review_ids(reviews)[i] == id;
        assert(reviews[i].entity_id@ == id);
    }
    if is_reviewed(reviews, id) {
        let i = choose|i: int| 0 <= i < reviews.len() && (#[trigger] reviews[i]).entity_id@ == id;
        assert(review_ids(reviews)[i] == id);
    }
}

/// Without edges none is kept.
pub proof fn law_no_edges_kept(result: ReviewResult, reviews: Seq<EntityReview>)
    requires
        is_summary(result, reviews, Seq::empty()),
    ensures
        result.dependency_edges@.len() == 0,
{
    reveal(Seq::filter);
}

/// Summing up changes nothing of a review but its group.
pub proof fn law_summary_keeps_reviews(
    result: ReviewResult,
    reviews: Seq<EntityReview>,
    edges: Seq<(String, String)>,
    i: int,
)
    requires
        is_summary(result, reviews, edges),
    ensures
        result.entity_reviews@.len() == reviews.len(),
        0 <= i < reviews.len() ==> result.entity_reviews@[i] == (EntityReview {
            group_id: result.entity_reviews@[i].group_id,
            ..reviews[i]
        }),
{
}

/// The positions of the flags that are set, in ascending order.
pub open spec fn marked(flags: Seq<bool>) -> Seq<int>
    decreases flags.len(),
{
    if flags.len() == 0 {
        Seq::empty()
    } else if flags.last() {
        marked(flags.drop_last()).push(flags.len() - 1)
    } else {
        marked(flags.drop_last())
    }
}

/// Whether `at` lists, in ascending order, the positions below `n` that `pred`
/// holds of.
pub open spec fn lists(at: Seq<int>, n: nat, pred: spec_fn(int) -> bool) -> bool {
    &&& forall|a: int, b: int| 0 <= a < b < at.len() ==> #[trigger] at[a] < #[trigger] at[b]
    &&& forall|k: int| 0 <= k < at.len() ==> 0 <= #[trigger] at[k] < n && pred(at[k])
    &&& forall|i: int| 0 <= i < n && pred(i) ==> #[trigger] at.contains(i)
}

/// What is picked stands at the positions of the set flags, in their order.
pub proof fn lemma_picked_at<T>(s: Seq<T>, flags: Seq<bool>)
    requires
        s.len() == flags.len(),
    ensures
        lists(marked(flags), flags.len(), |i: int| flags[i]),
        picked(s, flags).len() == marked(flags).len(),
        forall|k: int|
            0 <= k < marked(flags).len() ==> #[trigger] picked(s, flags)[k] == s[marked(flags)[k]],
    decreases s.len(),
{
    let at = marked(flags);
    if s.len() > 0 {
        let rest = flags.drop_last();
        let before = marked(rest);
        lemma_picked_at(s.drop_last(), rest);
        assert forall|i: int| 0 <= i < rest.len() && #[trigger] flags[i] implies before.contains(i) by {
            assert(rest[i]);
            assert((|i: int| rest[i])(i));
        }
        assert forall|k: int| 0 <= k < at.len() implies 0 <= #[trigger] at[k] < flags.len()
            && flags[at[k]] by {
            if k < before.len() {
                assert(at[k] == before[k]);
                assert(rest[before[k]]);
            }
        }
        assert forall|a: int, b: int| 0 <= a < b < at.len() implies #[trigger] at[a]
            < #[trigger] at[b] by {
            assert(at[a] == before[a]);
            if b < before.len() {
                assert(at[b] == before[b]);
            }
        }
        assert forall|i: int| 0 <= i < flags.len() && flags[i] implies #[trigger] at.contains(i) by {
            if i < rest.len() {
                let k = choose|k: int| 0 <= k < before.len() && before[k] == i;
                assert(at[k] == i);
            } else {
                assert(at[at.len() - 1] == i);
            }
        }
        let out = picked(s, flags);
        assert forall|k: int| 0 <= k < at.len() implies #[trigger] out[k] == s[at[k]] by {
            if k < before.len() {
                assert(out[k] == picked(s.drop_last(), rest)[k]);
                assert(at[k] == before[k]);
            }
        }
    }
}

/// Retaining keeps exactly the reviews for which `keep` answers yes, in their
/// order and unchanged but for their groups.
pub proof fn law_retained<F: FnMut(&EntityReview) -> bool>(
    keep: F,
    reviews: Seq<EntityReview>,
    edges: Seq<(String, String)>,
    flags: Seq<bool>,
    result: ReviewResult,
) -> (at: Seq<int>)
    requires
        judged(keep, reviews, flags),
        is_summary(result, picked(reviews, flags), edges),
    ensures
        result.entity_reviews@.len() == at.len(),
        forall|a: int, b: int| 0 <= a < b < at.len() ==> #[trigger] at[a] < #[trigger] at[b],
        forall|k: int|
            0 <= k < at.len() ==> {
                let old_review = reviews[#[trigger] at[k]];
                &&& 0 <= at[k] < reviews.len()
                &&& call_ensures(keep, (&old_review,), true)
                &&& result.entity_reviews@[k] == (EntityReview {
                    group_id: result.entity_reviews@[k].group_id,
                    ..old_review
                })
            },
        forall|i: int|
            0 <= i < reviews.len() && !#[trigger] at.contains(i) ==> call_ensures(
                keep,
                (&reviews[i],),
                false,
            ),
{
    let at = marked(flags);
    lemma_picked_at(reviews, flags);
    assert forall|k: int| 0 <= k < at.len() implies {
        let old_review = reviews[#[trigger] at[k]];
        &&& 0 <= at[k] < reviews.len()
        &&& call_ensures(keep, (&old_review,), true)
        &&& result.entity_reviews@[k] == (EntityReview {
            group_id: result.entity_reviews@[k].group_id,
            ..old_review
        })
    } by {
        assert(flags[at[k]]);
        assert(picked(reviews, flags)[k] == reviews[at[k]]);
    }
    assert forall|i: int| 0 <= i < reviews.len() && !#[trigger] at.contains(i) implies call_ensures(
        keep,
        (&reviews[i],),
        false,
    ) by {
        assert(call_ensures(keep, (&reviews[i],), flags[i]));
        if flags[i] {
            assert((|i: int| flags[i])(i));
        }
    }
    at
}

/// A result that is in step has the counts that [`compute_stats`] gives for its
/// reviews and the groups that [`untangle`] makes of its reviews and edges. Each
/// review bears the number of a group that lists it, and each edge joins two
/// reviewed entities.
pub proof fn law_in_step(
    result: ReviewResult,
    slice: &[EntityReview],
    stats: ReviewStats,
    groups: Vec<ChangeGroup>,
)
    requires
        in_sync(result),
        slice@ == result.entity_reviews@,
        call_ensures(compute_stats, (slice,), stats),
        call_ensures(untangle, (&result.entity_reviews, &result.dependency_edges), groups),
    ensures
        result.stats == stats,
        result.groups@.len() == groups@.len(),
        forall|g: int|
            0 <= g < groups@.len() ==> {
                let x = #[trigger] result.groups@[g];
                let y = groups@[g];
                &&& x.id == y.id
                &&& x.label@ == y.label@
                &&& views(x.entity_ids@) == views(y.entity_ids@)
            },
        forall|i: int|
            0 <= i < result.entity_reviews@.len() ==> {
                let r = #[trigger] result.entity_reviews@[i];
                &&& r.group_id < result.groups@.len()
                &&& views(result.groups@[r.group_id as int].entity_ids@).contains(r.entity_id@)
            },
        forall|m: int|
            0 <= m < result.dependency_edges@.len() ==> {
                let e = #[trigger] result.dependency_edges@[m];
                is_reviewed(result.entity_reviews@, e.0@) && is_reviewed(
                    result.entity_reviews@,
                    e.1@,
                )
            },
{
    let reviews = result.entity_reviews@;
    let edges = edge_views(result.dependency_edges@);
    assert(group_views(result.groups@).len() == result.groups@.len());
    assert(group_views(groups@).len() == groups@.len());
    assert forall|g: int| 0 <= g < groups@.len() implies {
        let x = #[trigger] result.groups@[g];
        let y = groups@[g];
        &&& x.id == y.id
        &&& x.label@ == y.label@
        &&& views(x.entity_ids@) == views(y.entity_ids@)
    } by {
        assert(group_views(result.groups@)[g] == result.groups@[g]@);
        assert(group_views(groups@)[g] == groups@[g]@);
    }
    assert forall|i: int| 0 <= i < reviews.len() implies {
        let r = #[trigger] reviews[i];
        &&& r.group_id < result.groups@.len()
        &&& views(result.groups@[r.group_id as int].entity_ids@).contains(r.entity_id@)
    } by {
        lemma_own_group_lists(reviews, edges, i);
        let g = reviews[i].group_id as int;
        assert(group_views(result.groups@)[g] == result.groups@[g]@);
    }
    assert forall|m: int| 0 <= m < result.dependency_edges@.len() implies {
        let e = #[trigger] result.dependency_edges@[m];
        is_reviewed(reviews, e.0@) && is_reviewed(reviews, e.1@)
    } by {
        let e = result.dependency_edges@[m];
        assert(joins(review_ids(reviews), e));
        lemma_id_among(reviews, e.0@);
        lemma_id_among(reviews, e.1@);
    }
}

} // verus!
