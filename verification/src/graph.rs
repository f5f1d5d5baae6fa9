//! The dependency graph of the entities of a source tree.

use sem_core::parser::graph::EntityGraph;
use vstd::prelude::*;

use crate::types::{EntityInfo, EntityInfoView};

verus! {

/// The graph that `sem_core` builds from source files. What is in it is spoken
/// of by [`graph_entities`], [`graph_users`] and [`graph_uses`].
#[verifier::external_type_specification]
#[verifier::external_body]
pub struct ExEntityGraph(sem_core::parser::graph::EntityGraph);

/// The entities of a graph, by id: its field `entities`.
pub uninterp spec fn graph_entities(graph: EntityGraph) -> Map<Seq<char>, EntityInfoView>;

/// For the id of each entity that something uses, the ids of its users, one for
/// each edge and in the order of the edges: what `EntityGraph::dependents` gives.
pub uninterp spec fn graph_users(graph: EntityGraph) -> Map<Seq<char>, Seq<Seq<char>>>;

/// For the id of each entity that uses something, the ids of what it uses, one
/// for each edge and in the order of the edges: what `EntityGraph::dependencies`
/// gives.
pub uninterp spec fn graph_uses(graph: EntityGraph) -> Map<Seq<char>, Seq<Seq<char>>>;

/// The neighbours of `id` that are entities of the graph, in the order of its
/// edges.
pub open spec fn neighbours(
    entities: Map<Seq<char>, EntityInfoView>,
    adjacent: Map<Seq<char>, Seq<Seq<char>>>,
    id: Seq<char>,
) -> Seq<EntityInfoView> {
    if adjacent.contains_key(id) {
        adjacent[id].filter(|n: Seq<char>| entities.contains_key(n)).map_values(
            |n: Seq<char>| entities[n],
        )
    } else {
        Seq::empty()
    }
}

/// The entities that use `id`.
pub open spec fn dependents_of(graph: EntityGraph, id: Seq<char>) -> Seq<EntityInfoView> {
    neighbours(graph_entities(graph), graph_users(graph), id)
}

/// The entities that `id` uses.
pub open spec fn dependencies_of(graph: EntityGraph, id: Seq<char>) -> Seq<EntityInfoView> {
    neighbours(graph_entities(graph), graph_uses(graph), id)
}

/// Whether each id of `path` uses the one before it.
pub open spec fn is_use_chain(
    users: Map<Seq<char>, Seq<Seq<char>>>,
    path: Seq<Seq<char>>,
) -> bool {
    &&& path.len() > 0
    &&& forall|i: int|
        0 <= i < path.len() - 1 ==> users.contains_key(#[trigger] path[i]) && users[path[i]].contains(
            path[i + 1],
        )
}

/// The ids other than `id` that use it, directly or through others.
pub open spec fn impact_of(users: Map<Seq<char>, Seq<Seq<char>>>, id: Seq<char>) -> Set<Seq<char>> {
    Set::new(
        |other: Seq<char>|
            other != id && exists|path: Seq<Seq<char>>| #[trigger]
                is_use_chain(users, path) && path.first() == id && path.last() == other,
    )
}

/// The lesser of two numbers.
pub open spec fn at_most(n: nat, cap: nat) -> nat {
    if n <= cap {
        n
    } else {
        cap
    }
}

/// How many ids a change of `id` reaches, counted up to `cap`: none where `id`
/// is no entity of the graph.
pub open spec fn capped_impact(graph: EntityGraph, id: Seq<char>, cap: nat) -> nat {
    if graph_entities(graph).contains_key(id) {
        at_most(impact_of(graph_users(graph), id).len(), cap)
    } else {
        0
    }
}

/// The contents of a vector of entities.
pub open spec fn info_views(v: Seq<EntityInfo>) -> Seq<EntityInfoView> {
    v.map_values(|e: EntityInfo| e@)
}

/// The entity with the id `id`, if the graph has one: a lookup in
/// `EntityGraph::entities` of `sem_core`, copied field by field.
#[verifier::external_body]
pub(crate) fn entity(graph: &EntityGraph, id: &str) -> (r: Option<EntityInfo>)
    ensures
        r is Some <==> graph_entities(*graph).contains_key(id@),
        r matches Some(e) ==> e@ == graph_entities(*graph)[id@],
{
    graph.entities.get(id).cloned().map(|e| EntityInfo {
        id: e.id,
        name: e.name,
        entity_type: e.entity_type,
        file_path: e.file_path,
        parent_id: e.parent_id,
        start_line: e.start_line,
        end_line: e.end_line,
    })
}

/// How many entities the graph has: the length of `EntityGraph::entities` of
/// `sem_core`.
#[verifier::external_body]
pub(crate) fn entity_count(graph: &EntityGraph) -> (r: usize)
    ensures
        r == graph_entities(*graph).len(),
{
    graph.entities.len()
}

/// `EntityGraph::get_dependents` of `sem_core`: the entities that use `id`, one
/// for each edge that leads to `id`, in the order of the edges. An id at an edge
/// that the graph has no entity for is left out.
#[verifier::external_body]
pub(crate) fn dependents(graph: &EntityGraph, id: &str) -> (r: Vec<EntityInfo>)
    ensures
        info_views(r@) == neighbours(graph_entities(*graph), graph_users(*graph), id@),
{
    graph.get_dependents(id).into_iter().cloned().map(|e| EntityInfo {
        id: e.id,
        name: e.name,
        entity_type: e.entity_type,
        file_path: e.file_path,
        parent_id: e.parent_id,
        start_line: e.start_line,
        end_line: e.end_line,
    }).collect()
}

/// `EntityGraph::get_dependencies` of `sem_core`: the entities that `id` uses,
/// one for each edge that starts at `id`, in the order of the edges. An id at an
/// edge that the graph has no entity for is left out.
#[verifier::external_body]
pub(crate) fn dependencies(graph: &EntityGraph, id: &str) -> (r: Vec<EntityInfo>)
    ensures
        info_views(r@) == neighbours(graph_entities(*graph), graph_uses(*graph), id@),
{
    graph.get_dependencies(id).into_iter().cloned().map(|e| EntityInfo {
        id: e.id,
        name: e.name,
        entity_type: e.entity_type,
        file_path: e.file_path,
        parent_id: e.parent_id,
        start_line: e.start_line,
        end_line: e.end_line,
    }).collect()
}

/// `EntityGraph::impact_count` of `sem_core`: the number of ids other than `id`
/// that a walk along the users reaches from it, where the walk ends at `cap`;
/// 0 where the graph has no entity `id`.
#[verifier::external_body]
pub(crate) fn impact_count(graph: &EntityGraph, id: &str, cap: usize) -> (r: usize)
    ensures
        r == capped_impact(*graph, id@, cap as nat),
{
    graph.impact_count(id, cap)
}

/// The neighbours of an entity are looked up along its edges: `at` holds, in
/// ascending order, the places of the edges whose other end the graph knows, and
/// each gives the entity that stands there.
pub proof fn law_neighbours(
    entities: Map<Seq<char>, EntityInfoView>,
    adjacent: Map<Seq<char>, Seq<Seq<char>>>,
    id: Seq<char>,
) -> (at: Seq<int>)
    ensures
        neighbours(entities, adjacent, id).len() == at.len(),
        !adjacent.contains_key(id) ==> at.len() == 0,
        adjacent.contains_key(id) ==> are_known_places(
            entities,
            adjacent[id],
            neighbours(entities, adjacent, id),
            at,
        ),
{
    if adjacent.contains_key(id) {
        let at = lemma_known_places(entities, adjacent[id]);
        at
    } else {
        Seq::empty()
    }
}

/// Whether `at` lists, in ascending order, the places of the known ones among
/// `ids`, and `infos` holds the entities that stand there.
pub open spec fn are_known_places(
    entities: Map<Seq<char>, EntityInfoView>,
    ids: Seq<Seq<char>>,
    infos: Seq<EntityInfoView>,
    at: Seq<int>,
) -> bool {
    &&& infos.len() == at.len()
    &&& forall|a: int, b: int| 0 <= a < b < at.len() ==> #[trigger] at[a] < #[trigger] at[b]
    &&& forall|k: int|
        0 <= k < at.len() ==> {
            &&& 0 <= #[trigger] at[k] < ids.len()
            &&& entities.contains_key(ids[at[k]])
            &&& infos[k] == entities[ids[at[k]]]
        }
    &&& forall|i: int|
        0 <= i < ids.len() && entities.contains_key(#[trigger] ids[i]) ==> at.contains(i)
}

proof fn lemma_known_places(
    entities: Map<Seq<char>, EntityInfoView>,
    ids: Seq<Seq<char>>,
) -> (at: Seq<int>)
    ensures
        are_known_places(
            entities,
            ids,
            ids.filter(|n: Seq<char>| entities.contains_key(n)).map_values(
                |n: Seq<char>| entities[n],
            ),
            at,
        ),
    decreases ids.len(),
{
    let keep = |n: Seq<char>| entities.contains_key(n);
    let all = ids.filter(keep).map_values(|n: Seq<char>| entities[n]);
    if ids.len() == 0 {
        reveal(Seq::filter);
        let at: Seq<int> = Seq::empty();
        assert(are_known_places(entities, ids, all, at));
        at
    } else {
        let rest = ids.drop_last();
        let before = lemma_known_places(entities, rest);
        let some = rest.filter(keep).map_values(|n: Seq<char>| entities[n]);
        assert(ids =~= rest.push(ids.last()));
        rest.lemma_filter_push(ids.last(), keep);
        let at = if keep(ids.last()) {
            before.push(ids.len() - 1)
        } else {
            before
        };
        assert forall|k: int| 0 <= k < at.len() implies {
            &&& 0 <= #[trigger] at[k] < ids.len()
            &&& entities.contains_key(ids[at[k]])
            &&& all[k] == entities[ids[at[k]]]
        } by {
            if k < before.len() {
                assert(at[k] == before[k]);
                assert(rest[before[k]] == ids[at[k]]);
                assert(some[k] == entities[rest[before[k]]]);
                assert(all[k] == some[k]);
            }
        }
        assert forall|i: int|
            0 <= i < ids.len() && entities.contains_key(#[trigger] ids[i]) implies at.contains(i) by {
            if i < rest.len() {
                assert(rest[i] == ids[i]);
                assert(before.contains(i));
                let k = choose|k: int| 0 <= k < before.len() && before[k] == i;
                assert(at[k] == i);
            } else {
                assert(at[at.len() - 1] == i);
            }
        }
        at
    }
}

/// The count of what a change reaches is at most the cap, is 0 for an unknown
/// entity, and is otherwise the number of the ids `reached`, as far as the cap
/// allows: those other than the entity itself that a closed set of users holds
/// and that chains of use lead to.
pub proof fn law_capped_impact(
    graph: EntityGraph,
    id: Seq<char>,
    cap: nat,
    reached: Set<Seq<char>>,
)
    requires
        reached.finite(),
        !reached.contains(id),
        forall|a: Seq<char>, b: Seq<char>|
            (a == id || reached.contains(a)) && graph_users(graph).contains_key(a)
                && #[trigger] graph_users(graph)[a].contains(b) ==> b == id || reached.contains(b),
        forall|b: Seq<char>| #[trigger]
            reached.contains(b) ==> exists|path: Seq<Seq<char>>|
                {
                    &&& path.len() > 0
                    &&& path[0] == id
                    &&& path[path.len() - 1] == b
                    &&& #[trigger] is_use_chain(graph_users(graph), path)
                },
    ensures
        capped_impact(graph, id, cap) <= cap,
        !graph_entities(graph).contains_key(id) ==> capped_impact(graph, id, cap) == 0,
        graph_entities(graph).contains_key(id) && reached.len() <= cap ==> capped_impact(
            graph,
            id,
            cap,
        ) == reached.len(),
        graph_entities(graph).contains_key(id) && reached.len() > cap ==> capped_impact(
            graph,
            id,
            cap,
        ) == cap,
{
    let users = graph_users(graph);
    let all = impact_of(users, id);
    assert forall|b: Seq<char>| all.contains(b) implies reached.contains(b) by {
        let path = choose|path: Seq<Seq<char>>| #[trigger]
            is_use_chain(users, path) && path.first() == id && path.last() == b;
        lemma_chain_stays(users, path, id, reached);
    }
    assert forall|b: Seq<char>| reached.contains(b) implies all.contains(b) by {
        let path = choose|path: Seq<Seq<char>>|
            {
                &&& path.len() > 0
                &&& path[0] == id
                &&& path[path.len() - 1] == b
                &&& #[trigger] is_use_chain(users, path)
            };
        assert(path.first() == id && path.last() == b);
    }
    assert(all =~= reached);
}

proof fn lemma_chain_stays(
    users: Map<Seq<char>, Seq<Seq<char>>>,
    path: Seq<Seq<char>>,
    id: Seq<char>,
    reached: Set<Seq<char>>,
)
    requires
        is_use_chain(users, path),
        path.first() == id,
        forall|a: Seq<char>, b: Seq<char>|
            (a == id || reached.contains(a)) && users.contains_key(a) && #[trigger] users[a].contains(
                b,
            ) ==> b == id || reached.contains(b),
    ensures
        path.last() == id || reached.contains(path.last()),
    decreases path.len(),
{
    if path.len() > 1 {
        let rest = path.drop_last();
        assert forall|i: int| 0 <= i < rest.len() - 1 implies users.contains_key(#[trigger] rest[i])
            && users[rest[i]].contains(rest[i + 1]) by {
            assert(users.contains_key(path[i]) && users[path[i]].contains(path[i + 1]));
        }
        lemma_chain_stays(users, rest, id, reached);
        let a = path[path.len() - 2];
        assert(users.contains_key(a) && users[a].contains(path[path.len() - 2 + 1]));
    }
}

} // verus!
