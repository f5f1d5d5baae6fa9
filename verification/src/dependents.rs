//! The source of the entities that use a changed one.

use sem_core::parser::graph::EntityGraph;
use vstd::prelude::*;

use crate::analyze::AnalyzeOptions;
use crate::graph::{
    dependents, dependents_of, entity, graph_entities, graph_users, info_views, neighbours,
};
use crate::rank::{as_ints, is_ranking, law_ranking_exists, precedes, rank, ranking_of};
use crate::text::{join, joined, lines, lines_of, views};
use crate::types::{DependentEntity, EntityInfo, EntityInfoView};

verus! {

/// The contents of a [`DependentEntity`].
pub struct DependentEntityView {
    pub entity_name: Seq<char>,
    pub entity_type: Seq<char>,
    pub file_path: Seq<char>,
    pub start_line: usize,
    pub end_line: usize,
    pub content: Seq<char>,
    pub own_dependent_count: usize,
    pub is_public_api: bool,
}

impl View for DependentEntity {
    type V = DependentEntityView;

    open spec fn view(&self) -> DependentEntityView {
        DependentEntityView {
            entity_name: self.entity_name@,
            entity_type: self.entity_type@,
            file_path: self.file_path@,
            start_line: self.start_line,
            end_line: self.end_line,
            content: self.content@,
            own_dependent_count: self.own_dependent_count,
            is_public_api: self.is_public_api,
        }
    }
}

/// The contents of a vector of dependent entities.
pub open spec fn dependent_views(v: Seq<DependentEntity>) -> Seq<DependentEntityView> {
    v.map_values(|d: DependentEntity| d@)
}

/// An entity that uses a changed one, with what its place in the list rests on.
#[derive(Clone, Debug)]
pub struct Candidate {
    pub info: EntityInfo,
    /// How many entities use this one.
    pub own_dependent_count: usize,
    /// The text of its file, where that could be read.
    pub source: Option<String>,
    pub is_public_api: bool,
    /// An integer that orders as its rank does.
    pub rank: i64,
}

/// The index of the first line of an entity. Lines count from 1; an entity at
/// line 0 starts where one at line 1 does.
pub open spec fn first_index(info: EntityInfoView) -> int {
    if info.start_line > 0 {
        info.start_line - 1
    } else {
        0
    }
}

/// How many lines an entity spans.
pub open spec fn line_count(info: EntityInfoView) -> int {
    if info.end_line > info.start_line {
        info.end_line - info.start_line + 1
    } else {
        1
    }
}

/// The index behind the last line of an entity in a file of `n` lines.
pub open spec fn end_index(info: EntityInfoView, n: nat) -> int {
    if info.end_line <= n {
        info.end_line as int
    } else {
        n as int
    }
}

/// The lines of an entity, or `None` where the file has none of them.
pub open spec fn excerpt(info: EntityInfoView, source: Seq<char>) -> Option<Seq<char>> {
    let all = lines_of(source);
    let end = end_index(info, all.len());
    if first_index(info) < end {
        Some(joined(all.subrange(first_index(info), end), "\n"@))
    } else {
        None
    }
}

/// What is shown of a candidate: nothing where it spans more than `max_lines`
/// lines, its file could not be read, or its lines are not in the file.
pub open spec fn shown(c: Candidate, max_lines: int) -> Option<DependentEntityView> {
    if line_count(c.info@) > max_lines {
        None
    } else {
        match c.source {
            None => None,
            Some(source) => match excerpt(c.info@, source@) {
                None => None,
                Some(content) => Some(
                    DependentEntityView {
                        entity_name: c.info.name@,
                        entity_type: c.info.entity_type@,
                        file_path: c.info.file_path@,
                        start_line: c.info.start_line,
                        end_line: c.info.end_line,
                        content,
                        own_dependent_count: c.own_dependent_count,
                        is_public_api: c.is_public_api,
                    },
                ),
            },
        }
    }
}

/// What is shown of the candidates, in their order.
pub open spec fn all_shown(candidates: Seq<Candidate>, max_lines: int) -> Seq<DependentEntityView>
    decreases candidates.len(),
{
    if candidates.len() == 0 {
        Seq::empty()
    } else {
        let before = all_shown(candidates.drop_last(), max_lines);
        match shown(candidates.last(), max_lines) {
            Some(d) => before.push(d),
            None => before,
        }
    }
}

/// The ranks of the candidates.
pub open spec fn ranks_of(candidates: Seq<Candidate>) -> Seq<i64> {
    candidates.map_values(|c: Candidate| c.rank)
}

/// The first `max` candidates in descending order of their ranks, where equal
/// ranks keep their order.
pub open spec fn top(candidates: Seq<Candidate>, max: nat) -> Seq<Candidate> {
    let all = ranking_of(ranks_of(candidates)).map_values(|k: int| candidates[k]);
    if all.len() <= max {
        all
    } else {
        all.take(max as int)
    }
}

/// What the options let a review show of the candidates.
pub open spec fn selected(candidates: Seq<Candidate>, options: AnalyzeOptions) -> Seq<
    DependentEntityView,
> {
    all_shown(
        top(candidates, options.max_dependents_per_entity as nat),
        options.max_dependent_lines as int,
    )
}

fn first_index_of(info: &EntityInfo) -> (r: usize)
    ensures
        r == first_index(info@),
{
    if info.start_line > 0 {
        info.start_line - 1
    } else {
        0
    }
}

/// What is shown of a candidate.
fn show(c: &Candidate, max_lines: usize) -> (r: Option<DependentEntity>)
    ensures
        r is Some <==> shown(*c, max_lines as int) is Some,
        r matches Some(d) ==> Some(d@) == shown(*c, max_lines as int),
{
    let span: usize = if c.info.end_line > c.info.start_line {
        c.info.end_line - c.info.start_line
    } else {
        0
    };
    if span >= max_lines {
        return None;
    }
    let source = match &c.source {
        None => return None,
        Some(source) => source,
    };
    let all = lines(source.as_str());
    let start: usize = first_index_of(&c.info);
    let end: usize = if c.info.end_line <= all.len() {
        c.info.end_line
    } else {
        all.len()
    };
    if start >= end {
        return None;
    }
    Some(
        DependentEntity {
            entity_name: c.info.name.clone(),
            entity_type: c.info.entity_type.clone(),
            file_path: c.info.file_path.clone(),
            start_line: c.info.start_line,
            end_line: c.info.end_line,
            content: join(&all, start, end, "\n"),
            own_dependent_count: c.own_dependent_count,
            is_public_api: c.is_public_api,
        },
    )
}

/// The source of the candidates that rank highest, as far as the options admit.
pub fn select_dependents(candidates: &Vec<Candidate>, options: &AnalyzeOptions) -> (r: Vec<
    DependentEntity,
>)
    ensures
        dependent_views(r@) == selected(candidates@, *options),
{
    let n: usize = candidates.len();
    let mut keys: Vec<i64> = Vec::new();
    let mut i: usize = 0;
    while i < n
        invariant
            i <= n == candidates@.len(),
            keys@ == ranks_of(candidates@).take(i as int),
        decreases n - i,
    {
        keys.push(candidates[i].rank);
        assert(ranks_of(candidates@).take(i + 1) =~= ranks_of(candidates@).take(i as int).push(
            candidates@[i as int].rank,
        ));
        i += 1;
    }
    assert(ranks_of(candidates@).take(n as int) =~= ranks_of(candidates@));
    let order = rank(&keys);
    let ghost ints = as_ints(order@);
    let ghost best = top(candidates@, options.max_dependents_per_entity as nat);
    let count: usize = if n <= options.max_dependents_per_entity {
        n
    } else {
        options.max_dependents_per_entity
    };
    let mut r: Vec<DependentEntity> = Vec::new();
    let mut k: usize = 0;
    assert(dependent_views(r@) =~= Seq::empty());
    while k < count
        invariant
            k <= count <= n == candidates@.len() == order@.len(),
            count == best.len(),
            ints == as_ints(order@),
            is_ranking(ranks_of(candidates@), ints),
            forall|j: int| 0 <= j < count ==> #[trigger] best[j] == candidates@[ints[j]],
            dependent_views(r@) == all_shown(
                best.take(k as int),
                options.max_dependent_lines as int,
            ),
        decreases count - k,
    {
        let at: usize = order[k];
        assert(ints[k as int] == at);
        let ghost before = dependent_views(r@);
        assert(best.take(k + 1).drop_last() =~= best.take(k as int));
        if let Some(d) = show(&candidates[at], options.max_dependent_lines) {
            r.push(d);
            assert(dependent_views(r@) =~= before.push(d@));
        }
        k += 1;
    }
    assert(best.take(count as int) =~= best);
    r
}

/// Whether `r` is what `is_public` answers for an entity of a type and a name
/// whose text, or its first line, is `text`.
pub open spec fn answers_public<P: Fn(&String, &String, Option<&String>) -> bool>(
    is_public: P,
    entity_type: String,
    name: String,
    text: Option<Seq<char>>,
    r: bool,
) -> bool {
    match text {
        None => call_ensures(is_public, (&entity_type, &name, None), r),
        Some(text) => exists|s: String|
            s@ == text && #[trigger] call_ensures(is_public, (&entity_type, &name, Some(&s)), r),
    }
}

/// The first line of an entity, where its file could be read and has that line.
pub open spec fn hint_of(info: EntityInfoView, source: Option<String>) -> Option<Seq<char>> {
    match source {
        Some(source) => if first_index(info) < lines_of(source@).len() {
            Some(lines_of(source@)[first_index(info)])
        } else {
            None
        },
        None => None,
    }
}

/// The file of the entity `id`; empty where the graph has no such entity.
pub open spec fn file_of(graph: EntityGraph, id: Seq<char>) -> Seq<char> {
    if graph_entities(graph).contains_key(id) {
        graph_entities(graph)[id].file_path
    } else {
        Seq::empty()
    }
}

/// Whether `c` is a candidate for the list of an entity in the file
/// `source_file`: its facts are those of the graph, its text is what `read` gave
/// for its file, and its visibility and rank are what `is_public` and `rank_of`
/// answered.
pub open spec fn is_candidate<S, P, R>(
    graph: EntityGraph,
    source_file: Seq<char>,
    read: S,
    is_public: P,
    rank_of: R,
    c: Candidate,
) -> bool where
    S: Fn(&String) -> Option<String>,
    P: Fn(&String, &String, Option<&String>) -> bool,
    R: Fn(usize, bool, bool) -> i64,
 {
    &&& c.own_dependent_count == dependents_of(graph, c.info.id@).len()
    &&& call_ensures(read, (&c.info.file_path,), c.source)
    &&& answers_public(
        is_public,
        c.info.entity_type,
        c.info.name,
        hint_of(c.info@, c.source),
        c.is_public_api,
    )
    &&& call_ensures(
        rank_of,
        (c.own_dependent_count, c.is_public_api, c.info.file_path@ != source_file),
        c.rank,
    )
}

/// Whether `cs` are the candidates for the list of `id`: its dependents, in the
/// order of the graph.
pub open spec fn are_candidates<S, P, R>(
    graph: EntityGraph,
    id: Seq<char>,
    read: S,
    is_public: P,
    rank_of: R,
    cs: Seq<Candidate>,
) -> bool where
    S: Fn(&String) -> Option<String>,
    P: Fn(&String, &String, Option<&String>) -> bool,
    R: Fn(usize, bool, bool) -> i64,
 {
    &&& cs.map_values(|c: Candidate| c.info@) == dependents_of(graph, id)
    &&& forall|i: int|
        0 <= i < cs.len() ==> is_candidate(
            graph,
            file_of(graph, id),
            read,
            is_public,
            rank_of,
            #[trigger] cs[i],
        )
}

fn hint(info: &EntityInfo, source: &Option<String>) -> (r: Option<String>)
    ensures
        r is Some <==> hint_of(info@, *source) is Some,
        r matches Some(h) ==> Some(h@) == hint_of(info@, *source),
{
    match source {
        Some(source) => {
            let all = lines(source.as_str());
            let start: usize = first_index_of(info);
            if start < all.len() {
                assert(views(all@)[start as int] == all@[start as int]@);
                Some(all[start].clone())
            } else {
                None
            }
        },
        None => None,
    }
}

/// The candidate that the dependent `info` of an entity in the file
/// `source_file` is.
fn candidate<S, P, R>(
    graph: &EntityGraph,
    source_file: &String,
    read: &S,
    is_public: &P,
    rank_of: &R,
    info: EntityInfo,
) -> (c: Candidate) where
    S: Fn(&String) -> Option<String>,
    P: Fn(&String, &String, Option<&String>) -> bool,
    R: Fn(usize, bool, bool) -> i64,

    requires
        forall|path: &String| #[trigger] call_requires(*read, (path,)),
        forall|t: &String, n: &String, text: Option<&String>| #[trigger]
            call_requires(*is_public, (t, n, text)),
        forall|count: usize, public: bool, cross: bool| #[trigger]
            call_requires(*rank_of, (count, public, cross)),
    ensures
        c.info == info,
        is_candidate(*graph, source_file@, *read, *is_public, *rank_of, c),
{
    let own = dependents(graph, info.id.as_str());
    let own_dependent_count: usize = own.len();
    assert(info_views(own@).len() == own@.len());
    let source = read(&info.file_path);
    let line = hint(&info, &source);
    let is_public_api = match &line {
        Some(text) => is_public(&info.entity_type, &info.name, Some(text)),
        None => is_public(&info.entity_type, &info.name, None),
    };
    let is_cross_file = info.file_path != *source_file;
    let rank = rank_of(own_dependent_count, is_public_api, is_cross_file);
    Candidate { info, own_dependent_count, source, is_public_api, rank }
}

/// Collects the source of the top dependents of the entity `id`. The text of a
/// file is what `read` gives for its path.
pub fn collect_dependent_code<S, P, R>(
    graph: &EntityGraph,
    id: &String,
    options: &AnalyzeOptions,
    read: &S,
    is_public: &P,
    rank_of: &R,
) -> (r: Vec<DependentEntity>) where
    S: Fn(&String) -> Option<String>,
    P: Fn(&String, &String, Option<&String>) -> bool,
    R: Fn(usize, bool, bool) -> i64,

    requires
        forall|path: &String| #[trigger] call_requires(*read, (path,)),
        forall|t: &String, n: &String, text: Option<&String>| #[trigger]
            call_requires(*is_public, (t, n, text)),
        forall|count: usize, public: bool, cross: bool| #[trigger]
            call_requires(*rank_of, (count, public, cross)),
    ensures
        exists|cs: Seq<Candidate>| #[trigger]
            are_candidates(*graph, id@, *read, *is_public, *rank_of, cs) && dependent_views(r@)
                == selected(cs, *options),
{
    let source_file = match entity(graph, id.as_str()) {
        Some(e) => e.file_path,
        None => String::new(),
    };
    assert(source_file@ =~= file_of(*graph, id@));
    let infos = dependents(graph, id.as_str());
    let ghost given = infos@;
    let mut candidates: Vec<Candidate> = Vec::new();
    for info in it: infos.into_iter()
        invariant
            it.seq() == given,
            forall|path: &String| #[trigger] call_requires(*read, (path,)),
            forall|t: &String, n: &String, text: Option<&String>| #[trigger]
                call_requires(*is_public, (t, n, text)),
            forall|count: usize, public: bool, cross: bool| #[trigger]
                call_requires(*rank_of, (count, public, cross)),
            candidates@.len() == it.index(),
            forall|i: int|
                0 <= i < candidates@.len() ==> {
                    &&& (#[trigger] candidates@[i]).info == given[i]
                    &&& is_candidate(
                        *graph,
                        source_file@,
                        *read,
                        *is_public,
                        *rank_of,
                        candidates@[i],
                    )
                },
    {
        let c = candidate(graph, &source_file, read, is_public, rank_of, info);
        candidates.push(c);
    }
    assert(candidates@.map_values(|c: Candidate| c.info@) =~= info_views(given));
    assert(are_candidates(*graph, id@, *read, *is_public, *rank_of, candidates@));
    select_dependents(&candidates, options)
}

/// Whether `d` is what is shown of a candidate that spans at most `max_lines`
/// lines.
pub open spec fn is_shown(
    candidates: Seq<Candidate>,
    max_lines: int,
    d: DependentEntityView,
) -> bool {
    exists|i: int|
        0 <= i < candidates.len() && #[trigger] shown(candidates[i], max_lines) == Some(d)
            && line_count(candidates[i].info@) <= max_lines
}

proof fn lemma_all_shown(candidates: Seq<Candidate>, max_lines: int)
    ensures
        all_shown(candidates, max_lines).len() <= candidates.len(),
        forall|k: int|
            0 <= k < all_shown(candidates, max_lines).len() ==> is_shown(
                candidates,
                max_lines,
                #[trigger] all_shown(candidates, max_lines)[k],
            ),
    decreases candidates.len(),
{
    if candidates.len() > 0 {
        let rest = candidates.drop_last();
        lemma_all_shown(rest, max_lines);
        let all = all_shown(candidates, max_lines);
        let before = all_shown(rest, max_lines);
        assert forall|k: int| 0 <= k < all.len() implies is_shown(
            candidates,
            max_lines,
            #[trigger] all[k],
        ) by {
            if k < before.len() {
                assert(all[k] == before[k]);
                let i = choose|i: int|
                    0 <= i < rest.len() && #[trigger] shown(rest[i], max_lines) == Some(before[k])
                        && line_count(rest[i].info@) <= max_lines;
                assert(shown(candidates[i], max_lines) == Some(all[k]));
            } else {
                assert(shown(candidates[candidates.len() - 1], max_lines) == Some(all[k]));
            }
        }
    }
}

/// A list of dependents holds no more entries than the options admit, and each
/// entry is a dependent that spans no more lines than the options admit.
pub proof fn law_selection_bounded(candidates: Seq<Candidate>, options: AnalyzeOptions)
    ensures
        selected(candidates, options).len() <= options.max_dependents_per_entity,
        selected(candidates, options).len() <= candidates.len(),
        forall|k: int|
            0 <= k < selected(candidates, options).len() ==> is_shown(
                candidates,
                options.max_dependent_lines as int,
                #[trigger] selected(candidates, options)[k],
            ),
{
    let max = options.max_dependent_lines as int;
    let best = top(candidates, options.max_dependents_per_entity as nat);
    let order = ranking_of(ranks_of(candidates));
    law_ranking_exists(ranks_of(candidates));
    lemma_all_shown(best, max);
    assert forall|k: int| 0 <= k < selected(candidates, options).len() implies is_shown(
        candidates,
        max,
        #[trigger] selected(candidates, options)[k],
    ) by {
        let j = choose|j: int|
            0 <= j < best.len() && #[trigger] shown(best[j], max) == Some(
                selected(candidates, options)[k],
            );
        assert(best[j] == candidates[order[j]]);
        assert(shown(candidates[order[j]], max) == Some(selected(candidates, options)[k]));
    }
}

/// Whether the candidate at `x` is shown before the one at `y`: it ranks higher,
/// or as high and came first.
pub open spec fn is_ahead(cs: Seq<Candidate>, x: int, y: int) -> bool {
    cs[x].rank > cs[y].rank || (cs[x].rank == cs[y].rank && x < y)
}

/// The candidates that are ahead of the one at `y`.
pub open spec fn ahead(cs: Seq<Candidate>, y: int) -> Set<int> {
    Set::new(|x: int| 0 <= x < cs.len() && is_ahead(cs, x, y))
}

/// Whether a candidate can be shown: its file was read, it spans at most
/// `max_lines` lines from its first to its last, and the file holds its first
/// line.
pub open spec fn fits(c: Candidate, max_lines: usize) -> bool {
    &&& c.source is Some
    &&& max_lines > 0
    &&& c.info.end_line - c.info.start_line < max_lines
    &&& c.info.end_line > 0
    &&& c.info.start_line <= c.info.end_line
    &&& c.info.start_line <= lines_of(c.source->0@).len()
    &&& lines_of(c.source->0@).len() > 0
}

/// Whether `d` shows the candidate `c`: what is known of it, and the lines from
/// its first, counted from 1, to its last or that of the file.
pub open spec fn shows(d: DependentEntity, c: Candidate) -> bool {
    let all = lines_of(c.source->0@);
    let first = if c.info.start_line == 0 {
        0int
    } else {
        c.info.start_line - 1
    };
    let end = if c.info.end_line < all.len() {
        c.info.end_line as int
    } else {
        all.len() as int
    };
    &&& d.entity_name@ == c.info.name@
    &&& d.entity_type@ == c.info.entity_type@
    &&& d.file_path@ == c.info.file_path@
    &&& d.start_line == c.info.start_line
    &&& d.end_line == c.info.end_line
    &&& d.own_dependent_count == c.own_dependent_count
    &&& d.is_public_api == c.is_public_api
    &&& d.content@ == joined(all.subrange(first, end), seq!['\n'])
}

/// Whether `r` shows the candidates at the positions `at`: they are those that
/// fit and have fewer than the admitted number ahead of them, each after those
/// ahead of it.
pub open spec fn are_selected_at(
    cs: Seq<Candidate>,
    options: AnalyzeOptions,
    r: Seq<DependentEntity>,
    at: Seq<int>,
) -> bool {
    &&& r.len() == at.len()
    &&& forall|k: int|
        0 <= k < at.len() ==> 0 <= #[trigger] at[k] < cs.len() && shows(r[k], cs[at[k]])
    &&& forall|a: int, b: int|
        0 <= a < b < at.len() ==> is_ahead(cs, #[trigger] at[a], #[trigger] at[b])
    &&& forall|i: int|
        0 <= i < cs.len() ==> (#[trigger] at.contains(i) <==> fits(
            cs[i],
            options.max_dependent_lines,
        ) && ahead(cs, i).len() < options.max_dependents_per_entity)
}

proof fn lemma_all_shown_at(cs: Seq<Candidate>, max_lines: int) -> (at: Seq<int>)
    ensures
        at.len() == all_shown(cs, max_lines).len(),
        forall|a: int, b: int| 0 <= a < b < at.len() ==> #[trigger] at[a] < #[trigger] at[b],
        forall|k: int|
            0 <= k < at.len() ==> 0 <= #[trigger] at[k] < cs.len() && shown(cs[at[k]], max_lines)
                == Some(all_shown(cs, max_lines)[k]),
        forall|i: int|
            0 <= i < cs.len() && shown(#[trigger] cs[i], max_lines) is Some ==> at.contains(i),
    decreases cs.len(),
{
    if cs.len() == 0 {
        Seq::empty()
    } else {
        let rest = cs.drop_last();
        let before = lemma_all_shown_at(rest, max_lines);
        let some = all_shown(rest, max_lines);
        let all = all_shown(cs, max_lines);
        let at = if shown(cs.last(), max_lines) is Some {
            before.push(cs.len() - 1)
        } else {
            before
        };
        assert forall|k: int| 0 <= k < at.len() implies 0 <= #[trigger] at[k] < cs.len() && shown(
            cs[at[k]],
            max_lines,
        ) == Some(all[k]) by {
            if k < before.len() {
                assert(at[k] == before[k]);
                assert(rest[before[k]] == cs[at[k]]);
                assert(all[k] == some[k]);
            }
        }
        assert forall|i: int|
            0 <= i < cs.len() && shown(#[trigger] cs[i], max_lines) is Some implies at.contains(i) by {
            if i < rest.len() {
                assert(rest[i] == cs[i]);
                let k = choose|k: int| 0 <= k < before.len() && before[k] == i;
                assert(at[k] == i);
            } else {
                assert(at[at.len() - 1] == i);
            }
        }
        at
    }
}

proof fn lemma_shown_fits(c: Candidate, max_lines: usize)
    ensures
        shown(c, max_lines as int) is Some <==> fits(c, max_lines),
{
}

proof fn lemma_shows(d: DependentEntity, c: Candidate, max_lines: usize)
    requires
        shown(c, max_lines as int) == Some(d@),
    ensures
        shows(d, c),
{
    reveal_strlit("\n");
    assert("\n"@ =~= seq!['\n']);
}

proof fn lemma_place_is_ahead(cs: Seq<Candidate>, order: Seq<int>, p: int)
    requires
        is_ranking(ranks_of(cs), order),
        0 <= p < order.len(),
    ensures
        ahead(cs, order[p]).len() == p,
        ahead(cs, order[p]).finite(),
{
    let keys = ranks_of(cs);
    let front = order.take(p);
    assert forall|a: int, b: int|
        0 <= a < front.len() && 0 <= b < front.len() && a != b implies front[a] != front[b] by {
        if a < b {
            assert(precedes(keys, order[a], order[b]));
        } else {
            assert(precedes(keys, order[b], order[a]));
        }
    }
    assert(front.no_duplicates());
    front.unique_seq_to_set();
    assert(front.to_set() =~= ahead(cs, order[p])) by {
        assert forall|x: int| front.to_set().contains(x) implies ahead(cs, order[p]).contains(x) by {
            let a = choose|a: int| 0 <= a < front.len() && front[a] == x;
            assert(precedes(keys, order[a], order[p]));
        }
        assert forall|x: int| ahead(cs, order[p]).contains(x) implies front.to_set().contains(x) by {
            assert(order.contains(x));
            let a = choose|a: int| 0 <= a < order.len() && order[a] == x;
            if a > p {
                assert(precedes(keys, order[p], order[a]));
            }
            assert(front[a] == x);
        }
    }
}

/// Selecting dependents shows those that fit among the highest ranked, each with
/// its own lines, in descending order of the ranks; equal ranks keep their order.
pub proof fn law_selected(
    cs: Vec<Candidate>,
    options: AnalyzeOptions,
    r: Vec<DependentEntity>,
) -> (at: Seq<int>)
    requires
        call_ensures(select_dependents, (&cs, &options), r),
    ensures
        are_selected_at(cs@, options, r@, at),
{
    lemma_selected_at(cs@, options, r@)
}

/// What the options select of the candidates stands at some positions.
pub proof fn lemma_selected_at(
    cs: Seq<Candidate>,
    options: AnalyzeOptions,
    r: Seq<DependentEntity>,
) -> (at: Seq<int>)
    requires
        dependent_views(r) == selected(cs, options),
    ensures
        are_selected_at(cs, options, r, at),
{
    let max = options.max_dependent_lines;
    let order = ranking_of(ranks_of(cs));
    law_ranking_exists(ranks_of(cs));
    let best = top(cs, options.max_dependents_per_entity as nat);
    let places = lemma_all_shown_at(best, max as int);
    let at = places.map_values(|p: int| order[p]);
    assert(dependent_views(r).len() == r.len());
    assert forall|k: int| 0 <= k < at.len() implies 0 <= #[trigger] at[k] < cs.len() && shows(
        r[k],
        cs[at[k]],
    ) by {
        assert(best[places[k]] == cs[order[places[k]]]);
        assert(dependent_views(r)[k] == r[k]@);
        lemma_shows(r[k], cs[at[k]], max);
    }
    assert forall|a: int, b: int| 0 <= a < b < at.len() implies is_ahead(
        cs,
        #[trigger] at[a],
        #[trigger] at[b],
    ) by {
        assert(places[a] < places[b]);
        assert(precedes(ranks_of(cs), order[places[a]], order[places[b]]));
    }
    assert forall|i: int| 0 <= i < cs.len() implies (#[trigger] at.contains(i) <==> fits(cs[i], max)
        && ahead(cs, i).len() < options.max_dependents_per_entity) by {
        assert(order.contains(i));
        let p = choose|p: int| 0 <= p < order.len() && order[p] == i;
        lemma_place_is_ahead(cs, order, p);
        lemma_shown_fits(cs[i], max);
        if at.contains(i) {
            let k = choose|k: int| 0 <= k < at.len() && at[k] == i;
            let q = places[k];
            assert(order[q] == order[p]);
            if p < q {
                assert(precedes(ranks_of(cs), order[p], order[q]));
            }
            if q < p {
                assert(precedes(ranks_of(cs), order[q], order[p]));
            }
            assert(best[q] == cs[i]);
        }
        if fits(cs[i], max) && ahead(cs, i).len() < options.max_dependents_per_entity {
            assert(best[p] == cs[order[p]]);
            assert(shown(best[p], max as int) is Some);
            let k = choose|k: int| 0 <= k < places.len() && places[k] == p;
            assert(at[k] == i);
        }
    }
    at
}

/// Whether `c` is the dependent `info` of an entity in the file `file`: its count
/// is that of its own users, its text is what `read` gave for its path, its
/// visibility is what `is_public` answered for its type, its name and its first
/// line, and its rank is what `rank_of` answered for the count, the visibility and
/// whether its path differs from `file`.
pub open spec fn stands_for<S, P, R>(
    graph: EntityGraph,
    info: EntityInfoView,
    file: Seq<char>,
    read: S,
    is_public: P,
    rank_of: R,
    c: Candidate,
) -> bool where
    S: Fn(&String) -> Option<String>,
    P: Fn(&String, &String, Option<&String>) -> bool,
    R: Fn(usize, bool, bool) -> i64,
 {
    &&& c.info@ == info
    &&& c.own_dependent_count == neighbours(
        graph_entities(graph),
        graph_users(graph),
        info.id,
    ).len()
    &&& call_ensures(read, (&c.info.file_path,), c.source)
    &&& match first_line(info, c.source) {
        Some(line) => exists|s: String|
            s@ == line && #[trigger] call_ensures(
                is_public,
                (&c.info.entity_type, &c.info.name, Some(&s)),
                c.is_public_api,
            ),
        None => call_ensures(
            is_public,
            (&c.info.entity_type, &c.info.name, None),
            c.is_public_api,
        ),
    }
    &&& info.file_path == file ==> call_ensures(
        rank_of,
        (c.own_dependent_count, c.is_public_api, false),
        c.rank,
    )
    &&& info.file_path != file ==> call_ensures(
        rank_of,
        (c.own_dependent_count, c.is_public_api, true),
        c.rank,
    )
}

/// The line of the file `source` that an entity starts on, counted from 1, where
/// there is one.
pub open spec fn first_line(info: EntityInfoView, source: Option<String>) -> Option<Seq<char>> {
    match source {
        None => None,
        Some(text) => {
            let all = lines_of(text@);
            if info.start_line == 0 && all.len() > 0 {
                Some(all[0])
            } else if 1 <= info.start_line <= all.len() {
                Some(all[info.start_line - 1])
            } else {
                None
            }
        },
    }
}

/// Whether `cs` stand, one by one, for the users of `id` that the graph knows.
pub open spec fn stand_for_users<S, P, R>(
    graph: EntityGraph,
    id: Seq<char>,
    read: S,
    is_public: P,
    rank_of: R,
    cs: Seq<Candidate>,
) -> bool where
    S: Fn(&String) -> Option<String>,
    P: Fn(&String, &String, Option<&String>) -> bool,
    R: Fn(usize, bool, bool) -> i64,
 {
    let users = neighbours(graph_entities(graph), graph_users(graph), id);
    let file = if graph_entities(graph).contains_key(id) {
        graph_entities(graph)[id].file_path
    } else {
        Seq::empty()
    };
    &&& cs.len() == users.len()
    &&& forall|i: int|
        0 <= i < cs.len() ==> stands_for(
            graph,
            users[i],
            file,
            read,
            is_public,
            rank_of,
            #[trigger] cs[i],
        )
}

/// Candidates stand for the users of their entity.
pub proof fn lemma_candidates_stand_for_users<S, P, R>(
    graph: EntityGraph,
    id: Seq<char>,
    read: S,
    is_public: P,
    rank_of: R,
    cs: Seq<Candidate>,
) where
    S: Fn(&String) -> Option<String>,
    P: Fn(&String, &String, Option<&String>) -> bool,
    R: Fn(usize, bool, bool) -> i64,

    requires
        are_candidates(graph, id, read, is_public, rank_of, cs),
    ensures
        stand_for_users(graph, id, read, is_public, rank_of, cs),
{
    let users = neighbours(graph_entities(graph), graph_users(graph), id);
    let infos = cs.map_values(|c: Candidate| c.info@);
    assert(infos.len() == cs.len());
    assert forall|i: int| 0 <= i < cs.len() implies stands_for(
        graph,
        users[i],
        file_of(graph, id),
        read,
        is_public,
        rank_of,
        #[trigger] cs[i],
    ) by {
        assert(infos[i] == cs[i].info@);
        assert(is_candidate(graph, file_of(graph, id), read, is_public, rank_of, cs[i]));
        assert(first_line(users[i], cs[i].source) == hint_of(cs[i].info@, cs[i].source));
    }
}

/// The source that is collected for an entity is selected from candidates that
/// stand for its users.
pub proof fn law_collected<S, P, R>(
    graph: EntityGraph,
    id: String,
    options: AnalyzeOptions,
    read: S,
    is_public: P,
    rank_of: R,
    r: Vec<DependentEntity>,
) -> (found: (Seq<Candidate>, Seq<int>)) where
    S: Fn(&String) -> Option<String>,
    P: Fn(&String, &String, Option<&String>) -> bool,
    R: Fn(usize, bool, bool) -> i64,

    requires
        call_ensures(
            collect_dependent_code::<S, P, R>,
            (&graph, &id, &options, &read, &is_public, &rank_of),
            r,
        ),
    ensures
        stand_for_users(graph, id@, read, is_public, rank_of, found.0),
        are_selected_at(found.0, options, r@, found.1),
{
    let cs = choose|cs: Seq<Candidate>| #[trigger]
        are_candidates(graph, id@, read, is_public, rank_of, cs) && dependent_views(r@) == selected(
            cs,
            options,
        );
    lemma_candidates_stand_for_users(graph, id@, read, is_public, rank_of, cs);
    let at = lemma_selected_at(cs, options, r@);
    (cs, at)
}

/// Where other files rank above the file of the entity, whatever else is known,
/// the dependents in other files are listed before those in its own.
pub proof fn law_other_files_first<S, P, R>(
    graph: EntityGraph,
    id: String,
    options: AnalyzeOptions,
    read: S,
    is_public: P,
    rank_of: R,
    r: Vec<DependentEntity>,
    a: int,
    b: int,
) where
    S: Fn(&String) -> Option<String>,
    P: Fn(&String, &String, Option<&String>) -> bool,
    R: Fn(usize, bool, bool) -> i64,

    requires
        call_ensures(
            collect_dependent_code::<S, P, R>,
            (&graph, &id, &options, &read, &is_public, &rank_of),
            r,
        ),
        forall|m: usize, n: usize, p: bool, q: bool, x: i64, y: i64|
            #[trigger] call_ensures(rank_of, (m, p, true), x) && #[trigger] call_ensures(
                rank_of,
                (n, q, false),
                y,
            ) ==> x > y,
        graph_entities(graph).contains_key(id@),
        0 <= a < b < r@.len(),
    ensures
        r@[a].file_path@ == graph_entities(graph)[id@].file_path ==> r@[b].file_path@
            == graph_entities(graph)[id@].file_path,
{
    let (cs, at) = law_collected(graph, id, options, read, is_public, rank_of, r);
    let file = graph_entities(graph)[id@].file_path;
    let users = neighbours(graph_entities(graph), graph_users(graph), id@);
    let c = cs[at[a]];
    let d = cs[at[b]];
    assert(is_ahead(cs, at[a], at[b]));
    assert(shows(r@[a], c) && shows(r@[b], d));
    assert(stands_for(graph, users[at[a]], file, read, is_public, rank_of, c));
    assert(stands_for(graph, users[at[b]], file, read, is_public, rank_of, d));
    assert(c.info@.file_path == c.info.file_path@ && d.info@.file_path == d.info.file_path@);
}

} // verus!
