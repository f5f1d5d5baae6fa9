//! Grouping of reviewed entities by the dependencies between them.

use vstd::hash_map::StringHashMap;
use vstd::prelude::*;

use crate::text::views;
use crate::types::{ChangeGroup, EntityReview};

verus! {

/// The ids of the reviewed entities.
pub open spec fn review_ids(reviews: Seq<EntityReview>) -> Seq<Seq<char>> {
    reviews.map_values(|r: EntityReview| r.entity_id@)
}

/// The contents of a list of edges.
pub open spec fn edge_views(edges: Seq<(String, String)>) -> Seq<(Seq<char>, Seq<char>)> {
    edges.map_values(|e: (String, String)| (e.0@, e.1@))
}

/// Whether the entities at `i` and `j` are the same or an edge joins them, in
/// either direction.
pub open spec fn touching(
    ids: Seq<Seq<char>>,
    edges: Seq<(Seq<char>, Seq<char>)>,
    i: int,
    j: int,
) -> bool {
    ||| ids[i] == ids[j]
    ||| edges.contains((ids[i], ids[j]))
    ||| edges.contains((ids[j], ids[i]))
}

/// Whether each two neighbours on `path` are touching.
pub open spec fn is_path(
    ids: Seq<Seq<char>>,
    edges: Seq<(Seq<char>, Seq<char>)>,
    path: Seq<int>,
) -> bool {
    &&& path.len() > 0
    &&& forall|k: int| 0 <= k < path.len() ==> 0 <= #[trigger] path[k] < ids.len()
    &&& forall|k: int, m: int|
        0 <= k && m == k + 1 && m < path.len() ==> touching(
            ids,
            edges,
            #[trigger] path[k],
            #[trigger] path[m],
        )
}

/// Whether a path leads from the entity at `i` to the one at `j`.
pub open spec fn linked(
    ids: Seq<Seq<char>>,
    edges: Seq<(Seq<char>, Seq<char>)>,
    i: int,
    j: int,
) -> bool {
    exists|path: Seq<int>| #[trigger]
        is_path(ids, edges, path) && path.first() == i && path.last() == j
}

/// Every entity is linked to itself.
pub proof fn law_linked_reflexive(
    ids: Seq<Seq<char>>,
    edges: Seq<(Seq<char>, Seq<char>)>,
    i: int,
)
    requires
        0 <= i < ids.len(),
    ensures
        linked(ids, edges, i, i),
{
    assert(is_path(ids, edges, seq![i]));
}

/// A link can be followed backwards.
pub proof fn law_linked_symmetric(
    ids: Seq<Seq<char>>,
    edges: Seq<(Seq<char>, Seq<char>)>,
    i: int,
    j: int,
)
    requires
        linked(ids, edges, i, j),
    ensures
        linked(ids, edges, j, i),
{
    let path = choose|path: Seq<int>| #[trigger]
        is_path(ids, edges, path) && path.first() == i && path.last() == j;
    let back = path.reverse();
    assert forall|k: int, m: int| 0 <= k && m == k + 1 && m < back.len() implies touching(
        ids,
        edges,
        #[trigger] back[k],
        #[trigger] back[m],
    ) by {
        let a = path.len() - 1 - m;
        let b = path.len() - 1 - k;
        assert(touching(ids, edges, path[a], path[b]));
    }
    assert(is_path(ids, edges, back));
}

/// Two links in a row make a link.
pub proof fn law_linked_transitive(
    ids: Seq<Seq<char>>,
    edges: Seq<(Seq<char>, Seq<char>)>,
    i: int,
    j: int,
    k: int,
)
    requires
        linked(ids, edges, i, j),
        linked(ids, edges, j, k),
    ensures
        linked(ids, edges, i, k),
{
    let p = choose|path: Seq<int>| #[trigger]
        is_path(ids, edges, path) && path.first() == i && path.last() == j;
    let q = choose|path: Seq<int>| #[trigger]
        is_path(ids, edges, path) && path.first() == j && path.last() == k;
    let both = p + q;
    assert forall|a: int, b: int| 0 <= a && b == a + 1 && b < both.len() implies touching(
        ids,
        edges,
        #[trigger] both[a],
        #[trigger] both[b],
    ) by {
        if b < p.len() {
            assert(touching(ids, edges, p[a], p[b]));
        } else if a >= p.len() {
            assert(touching(ids, edges, q[a - p.len()], q[b - p.len()]));
        } else {
            assert(both[a] == j && both[b] == j);
        }
    }
    assert(is_path(ids, edges, both));
    assert(both.last() == q.last());
}

/// Entities that are touching are linked.
pub proof fn lemma_touching_linked(
    ids: Seq<Seq<char>>,
    edges: Seq<(Seq<char>, Seq<char>)>,
    i: int,
    j: int,
)
    requires
        0 <= i < ids.len(),
        0 <= j < ids.len(),
        touching(ids, edges, i, j),
    ensures
        linked(ids, edges, i, j),
{
    assert(is_path(ids, edges, seq![i, j]));
    assert(seq![i, j].last() == j);
}

/// The positions `0..n`.
pub open spec fn positions(n: nat) -> Seq<int> {
    Seq::new(n, |i: int| i)
}

/// Whether no earlier entity is linked to the one at `i`.
pub open spec fn is_leader(
    ids: Seq<Seq<char>>,
    edges: Seq<(Seq<char>, Seq<char>)>,
    i: int,
) -> bool {
    forall|j: int| 0 <= j < i ==> !#[trigger] linked(ids, edges, j, i)
}

/// The first entity of each group.
pub open spec fn leaders(ids: Seq<Seq<char>>, edges: Seq<(Seq<char>, Seq<char>)>) -> Seq<int> {
    positions(ids.len()).filter(|i: int| is_leader(ids, edges, i))
}

/// The entities linked to the one at `leader`.
pub open spec fn members(
    ids: Seq<Seq<char>>,
    edges: Seq<(Seq<char>, Seq<char>)>,
    leader: int,
) -> Seq<int> {
    positions(ids.len()).filter(|i: int| linked(ids, edges, leader, i))
}

/// The contents of a [`ChangeGroup`].
pub struct ChangeGroupView {
    pub id: int,
    pub label: Seq<char>,
    pub entity_ids: Seq<Seq<char>>,
}

impl View for ChangeGroup {
    type V = ChangeGroupView;

    open spec fn view(&self) -> ChangeGroupView {
        ChangeGroupView {
            id: self.id as int,
            label: self.label@,
            entity_ids: views(self.entity_ids@),
        }
    }
}

/// What a group is called: a single entity by its name, several by the file of
/// the first.
pub open spec fn group_label(reviews: Seq<EntityReview>, members: Seq<int>) -> Seq<char> {
    if members.len() == 1 {
        reviews[members[0]].entity_name@
    } else {
        reviews[members[0]].file_path@
    }
}

/// The group of the entity at `leader`, under the number `number`.
pub open spec fn group_of(
    reviews: Seq<EntityReview>,
    edges: Seq<(Seq<char>, Seq<char>)>,
    leader: int,
    number: int,
) -> ChangeGroupView {
    let ids = review_ids(reviews);
    let members = members(ids, edges, leader);
    ChangeGroupView {
        id: number,
        label: group_label(reviews, members),
        entity_ids: members.map_values(|i: int| ids[i]),
    }
}

/// The groups of `reviews`: one for each class of linked entities, in the order
/// of their first entities and numbered in that order.
pub open spec fn untangled(
    reviews: Seq<EntityReview>,
    edges: Seq<(Seq<char>, Seq<char>)>,
) -> Seq<ChangeGroupView> {
    let leaders = leaders(review_ids(reviews), edges);
    Seq::new(leaders.len(), |g: int| group_of(reviews, edges, leaders[g], g))
}

/// The contents of a list of groups.
pub open spec fn group_views(groups: Seq<ChangeGroup>) -> Seq<ChangeGroupView> {
    groups.map_values(|g: ChangeGroup| g@)
}

/// What holds of a labelling under which equal labels mean linked entities:
/// each label is the first position that has it, equal ids have equal labels,
/// and entities with equal labels are linked.
spec fn sound_labels(
    ids: Seq<Seq<char>>,
    edges: Seq<(Seq<char>, Seq<char>)>,
    labels: Seq<usize>,
) -> bool {
    &&& labels.len() == ids.len()
    &&& forall|i: int|
        #![trigger labels[i]]
        0 <= i < ids.len() ==> labels[i] <= i && labels[labels[i] as int] == labels[i]
    &&& forall|i: int, j: int|
        #![trigger labels[i], labels[j]]
        0 <= i < ids.len() && 0 <= j < ids.len() && ids[i] == ids[j] ==> labels[i] == labels[j]
    &&& forall|i: int, j: int|
        #![trigger labels[i], labels[j]]
        0 <= i < ids.len() && 0 <= j < ids.len() && labels[i] == labels[j] ==> linked(
            ids,
            edges,
            i,
            j,
        )
}

/// Whether the labels agree across the edge `e`.
spec fn edge_agrees(ids: Seq<Seq<char>>, labels: Seq<usize>, e: (Seq<char>, Seq<char>)) -> bool {
    forall|i: int, j: int|
        #![trigger labels[i], labels[j]]
        0 <= i < ids.len() && 0 <= j < ids.len() && e == (ids[i], ids[j]) ==> labels[i]
            == labels[j]
}

/// Replaces the label `from` by `to`.
fn relabel(labels: &mut Vec<usize>, from: usize, to: usize)
    ensures
        final(labels)@ == old(labels)@.map_values(|l: usize| if l == from { to } else { l }),
{
    let n: usize = labels.len();
    let mut i: usize = 0;
    while i < n
        invariant
            i <= n == labels@.len() == old(labels)@.len(),
            forall|k: int|
                #![trigger labels@[k]]
                0 <= k < n ==> labels@[k] == (if k < i && old(labels)@[k] == from {
                    to
                } else {
                    old(labels)@[k]
                }),
        decreases n - i,
    {
        if labels[i] == from {
            labels.set(i, to);
        }
        i += 1;
    }
    assert(labels@ =~= old(labels)@.map_values(|l: usize| if l == from { to } else { l }));
}

/// Merging the classes of two linked entities keeps the labelling sound, and
/// keeps the agreement across edges.
proof fn lemma_relabel(
    ids: Seq<Seq<char>>,
    edges: Seq<(Seq<char>, Seq<char>)>,
    labels: Seq<usize>,
    a: int,
    b: int,
    high: usize,
    low: usize,
)
    requires
        sound_labels(ids, edges, labels),
        0 <= a < ids.len(),
        0 <= b < ids.len(),
        linked(ids, edges, a, b),
        labels[a] == high,
        labels[b] == low,
        low < high,
    ensures
        ({
            let merged = labels.map_values(|l: usize| if l == high { low } else { l });
            &&& sound_labels(ids, edges, merged)
            &&& merged[a] == merged[b]
            &&& forall|e: (Seq<char>, Seq<char>)| #[trigger]
                edge_agrees(ids, labels, e) ==> edge_agrees(ids, merged, e)
        }),
{
    let merged = labels.map_values(|l: usize| if l == high { low } else { l });
    assert forall|i: int| #![trigger merged[i]] 0 <= i < ids.len() implies merged[i] <= i
        && merged[merged[i] as int] == merged[i] by {
        assert(labels[i] <= i);
        assert(labels[labels[i] as int] == labels[i]);
        assert(labels[labels[b] as int] == labels[b]);
        assert(merged[low as int] == low);
    }
    assert forall|i: int, j: int|
        #![trigger merged[i], merged[j]]
        0 <= i < ids.len() && 0 <= j < ids.len() && merged[i] == merged[j] implies linked(
        ids,
        edges,
        i,
        j,
    ) by {
        law_linked_symmetric(ids, edges, a, b);
        if labels[i] == labels[j] {
        } else if labels[i] == high {
            assert(labels[j] == low);
            assert(linked(ids, edges, i, a));
            assert(linked(ids, edges, b, j));
            law_linked_transitive(ids, edges, i, a, b);
            law_linked_transitive(ids, edges, i, b, j);
        } else {
            assert(labels[i] == low && labels[j] == high);
            assert(linked(ids, edges, i, b));
            assert(linked(ids, edges, a, j));
            law_linked_transitive(ids, edges, i, b, a);
            law_linked_transitive(ids, edges, i, a, j);
        }
    }
    assert forall|i: int, j: int|
        #![trigger merged[i], merged[j]]
        0 <= i < ids.len() && 0 <= j < ids.len() && ids[i] == ids[j] implies merged[i]
        == merged[j] by {
        assert(labels[i] == labels[j]);
    }
    assert forall|e: (Seq<char>, Seq<char>)| #[trigger]
        edge_agrees(ids, labels, e) implies edge_agrees(ids, merged, e) by {
        assert forall|i: int, j: int|
            #![trigger merged[i], merged[j]]
            0 <= i < ids.len() && 0 <= j < ids.len() && e == (ids[i], ids[j]) implies merged[i]
            == merged[j] by {
            assert(labels[i] == labels[j]);
        }
    }
}

/// Where the labels agree across every edge, a path has one label.
proof fn lemma_path_labels(
    ids: Seq<Seq<char>>,
    edges: Seq<(Seq<char>, Seq<char>)>,
    labels: Seq<usize>,
    path: Seq<int>,
)
    requires
        sound_labels(ids, edges, labels),
        forall|k: int| 0 <= k < edges.len() ==> edge_agrees(ids, labels, #[trigger] edges[k]),
        is_path(ids, edges, path),
    ensures
        labels[path.first()] == labels[path.last()],
    decreases path.len(),
{
    if path.len() > 1 {
        let rest = path.drop_first();
        assert forall|k: int, m: int| 0 <= k && m == k + 1 && m < rest.len() implies touching(
            ids,
            edges,
            #[trigger] rest[k],
            #[trigger] rest[m],
        ) by {
            assert(touching(ids, edges, path[k + 1], path[m + 1]));
        }
        lemma_path_labels(ids, edges, labels, rest);
        let i = path[0];
        let j = path[1];
        assert(touching(ids, edges, i, j));
        assert(labels[i] == labels[j]) by {
            if edges.contains((ids[i], ids[j])) {
                let k = choose|k: int| 0 <= k < edges.len() && edges[k] == (ids[i], ids[j]);
                assert(edge_agrees(ids, labels, edges[k]));
            } else if edges.contains((ids[j], ids[i])) {
                let k = choose|k: int| 0 <= k < edges.len() && edges[k] == (ids[j], ids[i]);
                assert(edge_agrees(ids, labels, edges[k]));
            }
        }
    }
}

/// Whether `index` maps each of the first `n` ids to its first position, and
/// holds nothing else.
spec fn indexes(index: Map<Seq<char>, usize>, ids: Seq<Seq<char>>, n: int) -> bool {
    &&& forall|i: int|
        #![trigger ids[i]]
        0 <= i < n ==> index.contains_key(ids[i]) && index[ids[i]] <= i
    &&& forall|id: Seq<char>| #[trigger]
        index.contains_key(id) ==> index[id] < n && ids[index[id] as int] == id
}

/// The first position of each id.
fn index_ids(reviews: &Vec<EntityReview>) -> (index: StringHashMap<usize>)
    ensures
        indexes(index@, review_ids(reviews@), reviews@.len() as int),
{
    let ghost ids = review_ids(reviews@);
    let n: usize = reviews.len();
    let mut index: StringHashMap<usize> = StringHashMap::new();
    let mut i: usize = 0;
    while i < n
        invariant
            i <= n == reviews@.len(),
            ids == review_ids(reviews@),
            indexes(index@, ids, i as int),
        decreases n - i,
    {
        let id = &reviews[i].entity_id;
        assert(ids[i as int] == id@);
        if !index.contains_key(id.as_str()) {
            index.insert(id.clone(), i);
        }
        i += 1;
    }
    index
}

/// Labels the reviewed entities so that two have the same label exactly where
/// they are linked; a label is the first position that has it.
fn label_entities(reviews: &Vec<EntityReview>, edges: &Vec<(String, String)>) -> (labels: Vec<
    usize,
>)
    ensures
        labels@.len() == reviews@.len(),
        forall|i: int|
            #![trigger labels@[i]]
            0 <= i < labels@.len() ==> labels@[i] <= i && labels@[labels@[i] as int] == labels@[i],
        forall|i: int, j: int|
            #![trigger labels@[i], labels@[j]]
            0 <= i < labels@.len() && 0 <= j < labels@.len() ==> (labels@[i] == labels@[j]
                <==> linked(review_ids(reviews@), edge_views(edges@), i, j)),
{
    let ghost ids = review_ids(reviews@);
    let ghost links = edge_views(edges@);
    let index = index_ids(reviews);
    let n: usize = reviews.len();
    let mut labels: Vec<usize> = Vec::new();
    let mut i: usize = 0;
    while i < n
        invariant
            i <= n == reviews@.len(),
            ids == review_ids(reviews@),
            indexes(index@, ids, n as int),
            labels@.len() == i,
            forall|k: int| #![trigger labels@[k]] 0 <= k < i ==> labels@[k] == index@[ids[k]],
        decreases n - i,
    {
        assert(ids[i as int] == reviews@[i as int].entity_id@);
        match index.get(reviews[i].entity_id.as_str()) {
            Some(first) => labels.push(*first),
            None => labels.push(i),
        }
        i += 1;
    }
    proof {
        assert forall|a: int| #![trigger labels@[a]] 0 <= a < n implies labels@[a] <= a
            && labels@[labels@[a] as int] == labels@[a] by {
            assert(index@.contains_key(ids[a]));
            assert(ids[labels@[a] as int] == ids[a]);
        }
        assert forall|a: int, b: int|
            #![trigger labels@[a], labels@[b]]
            0 <= a < n && 0 <= b < n && labels@[a] == labels@[b] implies linked(
            ids,
            links,
            a,
            b,
        ) by {
            assert(index@.contains_key(ids[a]));
            assert(index@.contains_key(ids[b]));
            assert(ids[a] == ids[b]);
            lemma_touching_linked(ids, links, a, b);
        }
        assert(sound_labels(ids, links, labels@));
    }
    let m: usize = edges.len();
    let mut k: usize = 0;
    while k < m
        invariant
            k <= m == edges@.len(),
            n == reviews@.len(),
            ids == review_ids(reviews@),
            links == edge_views(edges@),
            indexes(index@, ids, n as int),
            sound_labels(ids, links, labels@),
            forall|e: int|
                #![trigger links[e]]
                0 <= e < k ==> edge_agrees(ids, labels@, links[e]),
        decreases m - k,
    {
        let ghost before = labels@;
        let ghost from = edges@[k as int].0@;
        let ghost to = edges@[k as int].1@;
        assert(links[k as int] == (from, to));
        match (index.get(edges[k].0.as_str()), index.get(edges[k].1.as_str())) {
            (Some(a), Some(b)) => {
                let a: usize = *a;
                let b: usize = *b;
                let la: usize = labels[a];
                let lb: usize = labels[b];
                proof {
                    assert(links.contains((ids[a as int], ids[b as int])));
                    lemma_touching_linked(ids, links, a as int, b as int);
                    law_linked_symmetric(ids, links, a as int, b as int);
                }
                if la < lb {
                    relabel(&mut labels, lb, la);
                    proof {
                        lemma_relabel(ids, links, before, b as int, a as int, lb, la);
                    }
                } else if lb < la {
                    relabel(&mut labels, la, lb);
                    proof {
                        lemma_relabel(ids, links, before, a as int, b as int, la, lb);
                    }
                }
                assert(edge_agrees(ids, labels@, links[k as int])) by {
                    assert forall|i: int, j: int|
                        #![trigger labels@[i], labels@[j]]
                        0 <= i < ids.len() && 0 <= j < ids.len() && (from, to) == (
                            ids[i],
                            ids[j],
                        ) implies labels@[i] == labels@[j] by {
                        assert(labels@[i] == labels@[a as int]);
                        assert(labels@[j] == labels@[b as int]);
                    }
                }
            },
            _ => {
                assert(edge_agrees(ids, labels@, links[k as int])) by {
                    assert forall|i: int, j: int|
                        #![trigger labels@[i], labels@[j]]
                        0 <= i < ids.len() && 0 <= j < ids.len() && (from, to) == (
                            ids[i],
                            ids[j],
                        ) implies labels@[i] == labels@[j] by {
                        assert(index@.contains_key(ids[i]));
                        assert(index@.contains_key(ids[j]));
                    }
                }
            },
        }
        k += 1;
    }
    proof {
        assert forall|i: int, j: int|
            #![trigger labels@[i], labels@[j]]
            0 <= i < labels@.len() && 0 <= j < labels@.len() implies (labels@[i] == labels@[j]
            <==> linked(ids, links, i, j)) by {
            if linked(ids, links, i, j) {
                let path = choose|path: Seq<int>| #[trigger]
                    is_path(ids, links, path) && path.first() == i && path.last() == j;
                lemma_path_labels(ids, links, labels@, path);
            }
        }
    }
    labels
}

/// The ids of the entities with the label `leader`, and how they are called.
fn collect_group(
    reviews: &Vec<EntityReview>,
    Ghost(edges): Ghost<Seq<(Seq<char>, Seq<char>)>>,
    labels: &Vec<usize>,
    leader: usize,
    number: usize,
) -> (group: ChangeGroup)
    requires
        labels@.len() == reviews@.len(),
        leader < reviews@.len(),
        labels@[leader as int] == leader,
        forall|j: int|
            #![trigger labels@[j]]
            0 <= j < labels@.len() ==> (labels@[j] == leader <==> linked(
                review_ids(reviews@),
                edges,
                leader as int,
                j,
            )),
        is_leader(review_ids(reviews@), edges, leader as int),
    ensures
        group@ == group_of(reviews@, edges, leader as int, number as int),
{
    let ghost ids = review_ids(reviews@);
    let ghost belongs = |i: int| linked(ids, edges, leader as int, i);
    let ghost all = positions(ids.len());
    let n: usize = reviews.len();
    let mut entity_ids: Vec<String> = Vec::new();
    let mut j: usize = 0;
    assert(all.take(0) =~= Seq::<int>::empty());
    assert(all.take(0).filter(belongs) =~= Seq::<int>::empty()) by {
        reveal(Seq::filter);
    }
    while j < n
        invariant
            j <= n == reviews@.len() == labels@.len(),
            leader < n,
            ids == review_ids(reviews@),
            all == positions(ids.len()),
            belongs == (|i: int| linked(ids, edges, leader as int, i)),
            forall|j: int|
                #![trigger labels@[j]]
                0 <= j < n ==> (labels@[j] == leader <==> linked(ids, edges, leader as int, j)),
            views(entity_ids@) =~= all.take(j as int).filter(belongs).map_values(|i: int| ids[i]),
        decreases n - j,
    {
        let ghost taken = all.take(j as int);
        let ghost before = views(entity_ids@);
        if labels[j] == leader {
            entity_ids.push(reviews[j].entity_id.clone());
        }
        proof {
            assert(all.take(j + 1) =~= taken.push(j as int));
            taken.lemma_filter_push(j as int, belongs);
            assert(labels@[j as int] == leader <==> belongs(j as int));
            if belongs(j as int) {
                assert(ids[j as int] == reviews@[j as int].entity_id@);
                assert(views(entity_ids@) =~= before.push(ids[j as int]));
            }
        }
        j += 1;
    }
    let ghost members = members(ids, edges, leader as int);
    proof {
        assert(all.take(n as int) =~= all);
        assert(views(entity_ids@) == members.map_values(|i: int| ids[i]));
        lemma_leader_first(ids, edges, leader as int);
    }
    let label = if entity_ids.len() == 1 {
        reviews[leader].entity_name.clone()
    } else {
        reviews[leader].file_path.clone()
    };
    ChangeGroup { id: number, label, entity_ids }
}

/// Filtering positions keeps them in ascending order.
proof fn lemma_filter_ascending(n: nat, keep: spec_fn(int) -> bool)
    ensures
        ({
            let kept = positions(n).filter(keep);
            &&& forall|k: int| #![trigger kept[k]] 0 <= k < kept.len() ==> 0 <= kept[k] < n && keep(kept[k])
            &&& forall|a: int, b: int| 0 <= a < b < kept.len() ==> kept[a] < kept[b]
            &&& forall|i: int| 0 <= i < n && #[trigger] keep(i) ==> kept.contains(i)
        }),
    decreases n,
{
    let kept = positions(n).filter(keep);
    if n == 0 {
        reveal(Seq::filter);
    } else {
        let m = (n - 1) as nat;
        let fewer = positions(m).filter(keep);
        lemma_filter_ascending(m, keep);
        assert(positions(n) =~= positions(m).push(m as int));
        positions(m).lemma_filter_push(m as int, keep);
        assert forall|i: int| 0 <= i < n && #[trigger] keep(i) implies kept.contains(i) by {
            if i < m {
                assert(fewer.contains(i));
                let k = choose|k: int| 0 <= k < fewer.len() && fewer[k] == i;
                assert(kept[k] == i);
            } else {
                assert(kept.last() == i);
            }
        }
    }
}

/// There are no more groups than entities.
pub proof fn lemma_leader_count(ids: Seq<Seq<char>>, edges: Seq<(Seq<char>, Seq<char>)>)
    ensures
        leaders(ids, edges).len() <= ids.len(),
{
    positions(ids.len()).lemma_filter_len(|i: int| is_leader(ids, edges, i));
}

/// The leader of a group is one of the entities, and so is its first member.
pub proof fn lemma_group_bounds(ids: Seq<Seq<char>>, edges: Seq<(Seq<char>, Seq<char>)>, g: int)
    requires
        0 <= g < leaders(ids, edges).len(),
    ensures
        0 <= leaders(ids, edges)[g] < ids.len(),
        members(ids, edges, leaders(ids, edges)[g]).len() > 0,
        members(ids, edges, leaders(ids, edges)[g])[0] == leaders(ids, edges)[g],
{
    let leads = |i: int| is_leader(ids, edges, i);
    lemma_filter_ascending(ids.len(), leads);
    let leader = leaders(ids, edges)[g];
    assert(leads(leader));
    lemma_leader_first(ids, edges, leader);
}

/// A leader stands first in its own group.
proof fn lemma_leader_first(
    ids: Seq<Seq<char>>,
    edges: Seq<(Seq<char>, Seq<char>)>,
    leader: int,
)
    requires
        0 <= leader < ids.len(),
        is_leader(ids, edges, leader),
    ensures
        members(ids, edges, leader).len() > 0,
        members(ids, edges, leader)[0] == leader,
{
    let belongs = |i: int| linked(ids, edges, leader, i);
    let group = members(ids, edges, leader);
    lemma_filter_ascending(ids.len(), belongs);
    law_linked_reflexive(ids, edges, leader);
    assert(belongs(leader));
    assert(group.contains(leader));
    let k = choose|k: int| 0 <= k < group.len() && group[k] == leader;
    if k > 0 {
        assert(group[0] < group[k]);
        assert(belongs(group[0]));
        law_linked_symmetric(ids, edges, leader, group[0]);
        assert(!linked(ids, edges, group[0], leader));
    }
}

/// Splits the reviewed entities into independent groups: two entities are in
/// one group exactly where dependencies link them.
pub fn untangle(reviews: &Vec<EntityReview>, edges: &Vec<(String, String)>) -> (groups: Vec<
    ChangeGroup,
>)
    ensures
        group_views(groups@) == untangled(reviews@, edge_views(edges@)),
{
    let ghost ids = review_ids(reviews@);
    let ghost links = edge_views(edges@);
    let ghost leads = |i: int| is_leader(ids, links, i);
    let ghost all = positions(ids.len());
    let labels = label_entities(reviews, edges);
    let n: usize = reviews.len();
    let mut groups: Vec<ChangeGroup> = Vec::new();
    let mut i: usize = 0;
    assert(all.take(0).filter(leads) =~= Seq::<int>::empty()) by {
        reveal(Seq::filter);
    }
    while i < n
        invariant
            i <= n == reviews@.len() == labels@.len(),
            ids == review_ids(reviews@),
            links == edge_views(edges@),
            leads == (|i: int| is_leader(ids, links, i)),
            all == positions(ids.len()),
            forall|i: int|
                #![trigger labels@[i]]
                0 <= i < n ==> labels@[i] <= i && labels@[labels@[i] as int] == labels@[i],
            forall|i: int, j: int|
                #![trigger labels@[i], labels@[j]]
                0 <= i < n && 0 <= j < n ==> (labels@[i] == labels@[j] <==> linked(
                    ids,
                    links,
                    i,
                    j,
                )),
            groups@.len() <= i,
            groups@.len() == all.take(i as int).filter(leads).len(),
            forall|g: int|
                #![trigger groups@[g]]
                0 <= g < groups@.len() ==> groups@[g]@ == group_of(
                    reviews@,
                    links,
                    all.take(i as int).filter(leads)[g],
                    g,
                ),
        decreases n - i,
    {
        let ghost taken = all.take(i as int);
        proof {
            assert(all.take(i + 1) =~= taken.push(i as int));
            taken.lemma_filter_push(i as int, leads);
            assert(leads(i as int) <==> labels@[i as int] == i) by {
                let l = labels@[i as int];
                if l == i {
                    assert forall|j: int| 0 <= j < i implies !#[trigger] linked(
                        ids,
                        links,
                        j,
                        i as int,
                    ) by {
                        assert(labels@[j] <= j);
                    }
                } else {
                    assert(labels@[l as int] == l);
                    assert(linked(ids, links, l as int, i as int));
                }
            }
        }
        if labels[i] == i {
            let number: usize = groups.len();
            let group = collect_group(reviews, Ghost(links), &labels, i, number);
            groups.push(group);
        }
        i += 1;
    }
    proof {
        assert(all.take(n as int) =~= all);
        assert(group_views(groups@) =~= untangled(reviews@, links));
    }
    groups
}

/// Whether the entity at `i` belongs to the group with the number `g`.
pub open spec fn in_group(
    ids: Seq<Seq<char>>,
    edges: Seq<(Seq<char>, Seq<char>)>,
    i: int,
    g: int,
) -> bool {
    &&& 0 <= g < leaders(ids, edges).len()
    &&& linked(ids, edges, leaders(ids, edges)[g], i)
}

/// The number of the group that the entity at `i` belongs to.
pub open spec fn group_number(
    ids: Seq<Seq<char>>,
    edges: Seq<(Seq<char>, Seq<char>)>,
    i: int,
) -> int {
    choose|g: int| in_group(ids, edges, i, g)
}

/// Every entity is linked to a leader.
proof fn lemma_has_leader(
    ids: Seq<Seq<char>>,
    edges: Seq<(Seq<char>, Seq<char>)>,
    i: int,
) -> (leader: int)
    requires
        0 <= i < ids.len(),
    ensures
        0 <= leader <= i,
        is_leader(ids, edges, leader),
        linked(ids, edges, leader, i),
    decreases i,
{
    if is_leader(ids, edges, i) {
        law_linked_reflexive(ids, edges, i);
        i
    } else {
        let j = choose|j: int| 0 <= j < i && #[trigger] linked(ids, edges, j, i);
        let leader = lemma_has_leader(ids, edges, j);
        law_linked_transitive(ids, edges, leader, j, i);
        leader
    }
}

/// The groups are a partition: each entity belongs to one group, and to no
/// second one.
pub proof fn law_groups_partition(
    ids: Seq<Seq<char>>,
    edges: Seq<(Seq<char>, Seq<char>)>,
    i: int,
)
    requires
        0 <= i < ids.len(),
    ensures
        in_group(ids, edges, i, group_number(ids, edges, i)),
        forall|g: int| #[trigger]
            in_group(ids, edges, i, g) ==> g == group_number(ids, edges, i),
{
    let leads = |i: int| is_leader(ids, edges, i);
    let firsts = leaders(ids, edges);
    lemma_filter_ascending(ids.len(), leads);
    let leader = lemma_has_leader(ids, edges, i);
    assert(leads(leader));
    assert(firsts.contains(leader));
    let g = choose|g: int| 0 <= g < firsts.len() && firsts[g] == leader;
    assert(in_group(ids, edges, i, g));
    let h = group_number(ids, edges, i);
    assert forall|g: int| #[trigger] in_group(ids, edges, i, g) implies g == h by {
        law_linked_symmetric(ids, edges, firsts[g], i);
        law_linked_symmetric(ids, edges, firsts[h], i);
        law_linked_transitive(ids, edges, firsts[h], i, firsts[g]);
        law_linked_transitive(ids, edges, firsts[g], i, firsts[h]);
        assert(leads(firsts[g]) && leads(firsts[h]));
        if g < h {
            assert(firsts[g] < firsts[h]);
            assert(!linked(ids, edges, firsts[g], firsts[h]));
        }
        if h < g {
            assert(firsts[h] < firsts[g]);
            assert(!linked(ids, edges, firsts[h], firsts[g]));
        }
    }
}

/// Two entities are in one group exactly where they are linked.
pub proof fn law_same_group_iff_linked(
    ids: Seq<Seq<char>>,
    edges: Seq<(Seq<char>, Seq<char>)>,
    i: int,
    j: int,
)
    requires
        0 <= i < ids.len(),
        0 <= j < ids.len(),
    ensures
        group_number(ids, edges, i) == group_number(ids, edges, j) <==> linked(ids, edges, i, j),
{
    let firsts = leaders(ids, edges);
    law_groups_partition(ids, edges, i);
    law_groups_partition(ids, edges, j);
    let g = group_number(ids, edges, i);
    let h = group_number(ids, edges, j);
    if g == h {
        law_linked_symmetric(ids, edges, firsts[g], i);
        law_linked_transitive(ids, edges, i, firsts[g], j);
    }
    if linked(ids, edges, i, j) {
        law_linked_transitive(ids, edges, firsts[g], i, j);
        assert(in_group(ids, edges, j, g));
    }
}

/// Entities that no edge touches are in groups of their own: without edges two
/// entities share a group only where they are the same.
pub proof fn law_no_edges_no_groups(ids: Seq<Seq<char>>, i: int, j: int)
    requires
        0 <= i < ids.len(),
        0 <= j < ids.len(),
    ensures
        ({
            let none = Seq::<(Seq<char>, Seq<char>)>::empty();
            group_number(ids, none, i) == group_number(ids, none, j) <==> ids[i] == ids[j]
        }),
{
    let none = Seq::<(Seq<char>, Seq<char>)>::empty();
    law_same_group_iff_linked(ids, none, i, j);
    if ids[i] == ids[j] {
        lemma_touching_linked(ids, none, i, j);
    }
    if linked(ids, none, i, j) {
        let path = choose|path: Seq<int>| #[trigger]
            is_path(ids, none, path) && path.first() == i && path.last() == j;
        lemma_path_without_edges(ids, path);
    }
}

proof fn lemma_path_without_edges(ids: Seq<Seq<char>>, path: Seq<int>)
    requires
        is_path(ids, Seq::<(Seq<char>, Seq<char>)>::empty(), path),
    ensures
        ids[path.first()] == ids[path.last()],
    decreases path.len(),
{
    let none = Seq::<(Seq<char>, Seq<char>)>::empty();
    if path.len() > 1 {
        let rest = path.drop_first();
        assert forall|k: int, m: int| 0 <= k && m == k + 1 && m < rest.len() implies touching(
            ids,
            none,
            #[trigger] rest[k],
            #[trigger] rest[m],
        ) by {
            assert(touching(ids, none, path[k + 1], path[m + 1]));
        }
        lemma_path_without_edges(ids, rest);
        assert(touching(ids, none, path[0], path[1]));
    }
}

/// The number of the last group that lists `id`.
pub open spec fn group_listing(groups: Seq<ChangeGroupView>, id: Seq<char>) -> Option<int>
    decreases groups.len(),
{
    if groups.len() == 0 {
        None
    } else if groups.last().entity_ids.contains(id) {
        Some(groups.last().id)
    } else {
        group_listing(groups.drop_last(), id)
    }
}

/// A review with its group set.
pub open spec fn with_group(review: EntityReview, group: Option<int>) -> EntityReview {
    match group {
        Some(g) => EntityReview { group_id: g as usize, ..review },
        None => review,
    }
}

/// The reviews with the groups that list them.
pub open spec fn assigned(
    reviews: Seq<EntityReview>,
    groups: Seq<ChangeGroupView>,
) -> Seq<EntityReview> {
    reviews.map_values(|r: EntityReview| with_group(r, group_listing(groups, r.entity_id@)))
}

proof fn lemma_listing_at(groups: Seq<ChangeGroupView>, id: Seq<char>, g: int)
    requires
        0 <= g < groups.len(),
        groups[g].entity_ids.contains(id),
        forall|h: int| g < h < groups.len() ==> !(#[trigger] groups[h]).entity_ids.contains(id),
    ensures
        group_listing(groups, id) == Some(groups[g].id),
    decreases groups.len(),
{
    if g < groups.len() - 1 {
        assert(!groups[groups.len() - 1].entity_ids.contains(id));
        let rest = groups.drop_last();
        assert forall|h: int| g < h < rest.len() implies !(
        #[trigger] rest[h]).entity_ids.contains(id) by {
            assert(groups[h] == rest[h]);
        }
        lemma_listing_at(rest, id, g);
    }
}

/// The group that an entity belongs to lists it.
pub proof fn lemma_own_group_lists(
    reviews: Seq<EntityReview>,
    edges: Seq<(Seq<char>, Seq<char>)>,
    i: int,
)
    requires
        0 <= i < reviews.len(),
    ensures
        0 <= group_number(review_ids(reviews), edges, i) < untangled(reviews, edges).len(),
        untangled(reviews, edges)[group_number(
            review_ids(reviews),
            edges,
            i,
        )].entity_ids.contains(reviews[i].entity_id@),
{
    let ids = review_ids(reviews);
    let firsts = leaders(ids, edges);
    law_groups_partition(ids, edges, i);
    let g = group_number(ids, edges, i);
    let belongs = |k: int| linked(ids, edges, firsts[g], k);
    let group = members(ids, edges, firsts[g]);
    lemma_filter_ascending(ids.len(), belongs);
    assert(belongs(i));
    assert(group.contains(i));
    let k = choose|k: int| 0 <= k < group.len() && group[k] == i;
    assert(untangled(reviews, edges)[g].entity_ids[k] == ids[i]);
}

/// An untangled entity is listed in the group it belongs to, and only there.
pub proof fn law_listed_in_own_group(
    reviews: Seq<EntityReview>,
    edges: Seq<(Seq<char>, Seq<char>)>,
    i: int,
)
    requires
        0 <= i < reviews.len(),
    ensures
        group_listing(untangled(reviews, edges), reviews[i].entity_id@) == Some(
            group_number(review_ids(reviews), edges, i),
        ),
{
    let ids = review_ids(reviews);
    let firsts = leaders(ids, edges);
    let groups = untangled(reviews, edges);
    law_groups_partition(ids, edges, i);
    let g = group_number(ids, edges, i);
    assert(ids[i] == reviews[i].entity_id@);
    lemma_own_group_lists(reviews, edges, i);
    assert forall|h: int| g < h < groups.len() implies !(
    #[trigger] groups[h]).entity_ids.contains(ids[i]) by {
        if groups[h].entity_ids.contains(ids[i]) {
            let belongs = |k: int| linked(ids, edges, firsts[h], k);
            let group = members(ids, edges, firsts[h]);
            lemma_filter_ascending(ids.len(), belongs);
            let k = choose|k: int|
                0 <= k < groups[h].entity_ids.len() && groups[h].entity_ids[k] == ids[i];
            assert(belongs(group[k]));
            assert(ids[group[k]] == ids[i]);
            lemma_touching_linked(ids, edges, group[k], i);
            law_linked_transitive(ids, edges, firsts[h], group[k], i);
            assert(in_group(ids, edges, i, h));
        }
    }
    lemma_listing_at(groups, ids[i], g);
}

/// What a map of group numbers says of `id`.
spec fn looked_up(map: Map<Seq<char>, usize>, id: Seq<char>) -> Option<int> {
    if map.contains_key(id) {
        Some(map[id] as int)
    } else {
        None
    }
}

/// The group number of each listed id; a later group takes precedence.
fn index_groups(groups: &Vec<ChangeGroup>) -> (index: StringHashMap<usize>)
    ensures
        forall|id: Seq<char>| #[trigger]
            looked_up(index@, id) == group_listing(group_views(groups@), id),
{
    let ghost models = group_views(groups@);
    let n: usize = groups.len();
    let mut index: StringHashMap<usize> = StringHashMap::new();
    let mut g: usize = 0;
    while g < n
        invariant
            g <= n == groups@.len(),
            models == group_views(groups@),
            forall|id: Seq<char>| #[trigger]
                looked_up(index@, id) == group_listing(models.take(g as int), id),
        decreases n - g,
    {
        let group = &groups[g];
        let ghost listed = views(group.entity_ids@);
        let m: usize = group.entity_ids.len();
        let mut k: usize = 0;
        while k < m
            invariant
                k <= m == group.entity_ids@.len(),
                listed == views(group.entity_ids@),
                forall|id: Seq<char>| #[trigger]
                    looked_up(index@, id) == (if listed.take(k as int).contains(id) {
                        Some(group.id as int)
                    } else {
                        group_listing(models.take(g as int), id)
                    }),
            decreases m - k,
        {
            let ghost before = index@;
            index.insert(group.entity_ids[k].clone(), group.id);
            proof {
                let here = listed[k as int];
                assert(listed.take(k + 1) =~= listed.take(k as int).push(here));
                assert forall|id: Seq<char>| #[trigger]
                    looked_up(index@, id) == (if listed.take(k + 1).contains(id) {
                    Some(group.id as int)
                } else {
                    group_listing(models.take(g as int), id)
                }) by {
                    assert(looked_up(before, id) == looked_up(before, id));
                    let old_taken = listed.take(k as int);
                    let taken = listed.take(k + 1);
                    if id == here {
                        assert(taken.last() == id);
                    } else {
                        if old_taken.contains(id) {
                            let q = choose|q: int| 0 <= q < old_taken.len() && old_taken[q] == id;
                            assert(taken[q] == id);
                        }
                        if taken.contains(id) {
                            let q = choose|q: int| 0 <= q < taken.len() && taken[q] == id;
                            assert(old_taken[q] == id);
                        }
                    }
                }
            }
            k += 1;
        }
        proof {
            assert(listed.take(m as int) =~= listed);
            let now = models.take(g + 1);
            assert(now.drop_last() =~= models.take(g as int));
            assert(now.last() == group@);
        }
        g += 1;
    }
    assert(models.take(n as int) =~= models);
    index
}

/// Sets the group of each review to the one that lists it.
pub fn assign_groups(reviews: &mut Vec<EntityReview>, groups: &Vec<ChangeGroup>)
    ensures
        final(reviews)@ == assigned(old(reviews)@, group_views(groups@)),
{
    let ghost models = group_views(groups@);
    let index = index_groups(groups);
    let n: usize = reviews.len();
    let mut i: usize = 0;
    while i < n
        invariant
            i <= n == reviews@.len() == old(reviews)@.len(),
            models == group_views(groups@),
            forall|id: Seq<char>| #[trigger]
                looked_up(index@, id) == group_listing(models, id),
            forall|k: int|
                #![trigger reviews@[k]]
                0 <= k < n ==> reviews@[k] == (if k < i {
                    assigned(old(reviews)@, models)[k]
                } else {
                    old(reviews)@[k]
                }),
        decreases n - i,
    {
        let found: Option<usize> = match index.get(reviews[i].entity_id.as_str()) {
            Some(g) => Some(*g),
            None => None,
        };
        assert(looked_up(index@, reviews@[i as int].entity_id@) == group_listing(
            models,
            reviews@[i as int].entity_id@,
        ));
        if let Some(g) = found {
            reviews[i].group_id = g;
        }
        i += 1;
    }
    assert(reviews@ =~= assigned(old(reviews)@, models));
}

proof fn lemma_path_keeps(
    ids: Seq<Seq<char>>,
    edges: Seq<(Seq<char>, Seq<char>)>,
    path: Seq<int>,
    f: spec_fn(Seq<char>) -> int,
)
    requires
        is_path(ids, edges, path),
        forall|m: int|
            0 <= m < edges.len() && ids.contains((#[trigger] edges[m]).0) && ids.contains(edges[m].1)
                ==> f(edges[m].0) == f(edges[m].1),
    ensures
        f(ids[path.first()]) == f(ids[path.last()]),
    decreases path.len(),
{
    if path.len() > 1 {
        let rest = path.drop_last();
        assert forall|k: int| 0 <= k < rest.len() implies 0 <= #[trigger] rest[k] < ids.len() by {
            assert(rest[k] == path[k]);
        }
        assert forall|k: int, m: int| 0 <= k && m == k + 1 && m < rest.len() implies touching(
            ids,
            edges,
            #[trigger] rest[k],
            #[trigger] rest[m],
        ) by {
            assert(touching(ids, edges, path[k], path[m]));
        }
        lemma_path_keeps(ids, edges, rest, f);
        let a = path[path.len() - 2];
        let b = path[path.len() - 1];
        assert(touching(ids, edges, a, b));
        assert(ids.contains(ids[a]) && ids.contains(ids[b]));
        if edges.contains((ids[a], ids[b])) {
            let m = choose|m: int| 0 <= m < edges.len() && edges[m] == (ids[a], ids[b]);
            assert(f(edges[m].0) == f(edges[m].1));
        } else if edges.contains((ids[b], ids[a])) {
            let m = choose|m: int| 0 <= m < edges.len() && edges[m] == (ids[b], ids[a]);
            assert(f(edges[m].0) == f(edges[m].1));
        }
    }
}

/// Whether one of the lists in `at` holds `i`.
pub open spec fn is_somewhere(at: Seq<Seq<int>>, i: int) -> bool {
    exists|g: int| 0 <= g < at.len() && (#[trigger] at[g]).contains(i)
}

/// The groups split the reviews: `at` holds the positions of the reviews in each
/// group. They ascend within a group, each review is in one group and in no
/// second one, and the groups are numbered in the order of their first reviews. A
/// group lists the ids of its reviews. It is labelled by the name of its only
/// entity, or by the file of the first of several.
pub proof fn law_groups_split_reviews(
    reviews: Vec<EntityReview>,
    edges: Vec<(String, String)>,
    groups: Vec<ChangeGroup>,
) -> (at: Seq<Seq<int>>)
    requires
        call_ensures(untangle, (&reviews, &edges), groups),
    ensures
        at.len() == groups@.len(),
        forall|g: int|
            0 <= g < at.len() ==> {
                let first = reviews@[(#[trigger] at[g])[0]];
                &&& at[g].len() > 0
                &&& groups@[g].id == g
                &&& groups@[g].entity_ids@.len() == at[g].len()
                &&& at[g].len() == 1 ==> groups@[g].label@ == first.entity_name@
                &&& at[g].len() > 1 ==> groups@[g].label@ == first.file_path@
            },
        forall|g: int, k: int|
            0 <= g < at.len() && 0 <= k < at[g].len() ==> {
                &&& 0 <= #[trigger] at[g][k] < reviews@.len()
                &&& groups@[g].entity_ids@[k]@ == reviews@[at[g][k]].entity_id@
            },
        forall|g: int, a: int, b: int|
            0 <= g < at.len() && 0 <= a < b < at[g].len() ==> #[trigger] at[g][a] < #[trigger] at[g][b],
        forall|g: int, h: int|
            0 <= g < h < at.len() ==> (#[trigger] at[g])[0] < (#[trigger] at[h])[0],
        forall|i: int| 0 <= i < reviews@.len() ==> #[trigger] is_somewhere(at, i),
        forall|g: int, h: int, i: int|
            0 <= g < at.len() && 0 <= h < at.len() && #[trigger] at[g].contains(i)
                && #[trigger] at[h].contains(i) ==> g == h,
{
    let ids = review_ids(reviews@);
    let links = edge_views(edges@);
    let firsts = leaders(ids, links);
    let at = Seq::new(firsts.len(), |g: int| members(ids, links, firsts[g]));
    let model = untangled(reviews@, links);
    assert(group_views(groups@).len() == groups@.len());
    let leads = |i: int| is_leader(ids, links, i);
    lemma_filter_ascending(ids.len(), leads);
    assert forall|g: int| 0 <= g < at.len() implies {
        let first = reviews@[(#[trigger] at[g])[0]];
        &&& at[g].len() > 0
        &&& at[g][0] == firsts[g]
        &&& groups@[g].id == g
        &&& groups@[g].entity_ids@.len() == at[g].len()
        &&& at[g].len() == 1 ==> groups@[g].label@ == first.entity_name@
        &&& at[g].len() > 1 ==> groups@[g].label@ == first.file_path@
    } by {
        lemma_group_bounds(ids, links, g);
        assert(group_views(groups@)[g] == groups@[g]@);
        assert(model[g].entity_ids.len() == at[g].len());
        assert(views(groups@[g].entity_ids@).len() == groups@[g].entity_ids@.len());
    }
    assert forall|g: int, k: int| 0 <= g < at.len() && 0 <= k < at[g].len() implies {
        &&& 0 <= #[trigger] at[g][k] < reviews@.len()
        &&& groups@[g].entity_ids@[k]@ == reviews@[at[g][k]].entity_id@
    } by {
        lemma_filter_ascending(ids.len(), |i: int| linked(ids, links, firsts[g], i));
        assert(group_views(groups@)[g] == groups@[g]@);
        assert(views(groups@[g].entity_ids@)[k] == groups@[g].entity_ids@[k]@);
        assert(model[g].entity_ids[k] == ids[at[g][k]]);
    }
    assert forall|g: int, a: int, b: int| 0 <= g < at.len() && 0 <= a < b < at[g].len() implies
        #[trigger] at[g][a] < #[trigger] at[g][b] by {
        lemma_filter_ascending(ids.len(), |i: int| linked(ids, links, firsts[g], i));
    }
    assert forall|g: int, h: int| 0 <= g < h < at.len() implies (#[trigger] at[g])[0] < (
    #[trigger] at[h])[0] by {
        assert(firsts[g] < firsts[h]);
    }
    assert forall|i: int| 0 <= i < reviews@.len() implies #[trigger] is_somewhere(at, i) by {
        law_groups_partition(ids, links, i);
        let g = group_number(ids, links, i);
        let belongs = |k: int| linked(ids, links, firsts[g], k);
        lemma_filter_ascending(ids.len(), belongs);
        assert(belongs(i));
        assert(at[g].contains(i));
    }
    assert forall|g: int, h: int, i: int|
        0 <= g < at.len() && 0 <= h < at.len() && #[trigger] at[g].contains(i)
            && #[trigger] at[h].contains(i) implies g == h by {
        lemma_member_of(ids, links, g, i);
        lemma_member_of(ids, links, h, i);
        law_groups_partition(ids, links, i);
    }
    at
}

proof fn lemma_member_of(
    ids: Seq<Seq<char>>,
    edges: Seq<(Seq<char>, Seq<char>)>,
    g: int,
    i: int,
)
    requires
        0 <= g < leaders(ids, edges).len(),
        members(ids, edges, leaders(ids, edges)[g]).contains(i),
    ensures
        0 <= i < ids.len(),
        in_group(ids, edges, i, g),
{
    let group = members(ids, edges, leaders(ids, edges)[g]);
    lemma_filter_ascending(ids.len(), |k: int| linked(ids, edges, leaders(ids, edges)[g], k));
    let k = choose|k: int| 0 <= k < group.len() && group[k] == i;
    assert(group[k] == i);
}

/// What no edge between reviewed entities changes is the same all over a group:
/// entities that the edges do not connect are in different groups.
pub proof fn law_unconnected_entities_are_apart(
    reviews: Vec<EntityReview>,
    edges: Vec<(String, String)>,
    groups: Vec<ChangeGroup>,
    f: spec_fn(Seq<char>) -> int,
    g: int,
    a: int,
    b: int,
)
    requires
        call_ensures(untangle, (&reviews, &edges), groups),
        forall|m: int, i: int, j: int|
            #![trigger edges@[m], reviews@[i], reviews@[j]]
            0 <= m < edges@.len() && 0 <= i < reviews@.len() && 0 <= j < reviews@.len()
                && reviews@[i].entity_id@ == edges@[m].0@ && reviews@[j].entity_id@ == edges@[m].1@
                ==> f(edges@[m].0@) == f(edges@[m].1@),
        0 <= g < groups@.len(),
        0 <= a < groups@[g].entity_ids@.len(),
        0 <= b < groups@[g].entity_ids@.len(),
    ensures
        f(groups@[g].entity_ids@[a]@) == f(groups@[g].entity_ids@[b]@),
{
    let ids = review_ids(reviews@);
    let links = edge_views(edges@);
    let lead = leaders(ids, links)[g];
    let group = members(ids, links, lead);
    let model = untangled(reviews@, links);
    assert(group_views(groups@).len() == groups@.len());
    assert(group_views(groups@)[g] == groups@[g]@);
    assert(views(groups@[g].entity_ids@)[a] == groups@[g].entity_ids@[a]@);
    assert(views(groups@[g].entity_ids@)[b] == groups@[g].entity_ids@[b]@);
    assert(views(groups@[g].entity_ids@).len() == groups@[g].entity_ids@.len());
    assert(model[g].entity_ids[a] == ids[group[a]]);
    assert(model[g].entity_ids[b] == ids[group[b]]);
    lemma_filter_ascending(ids.len(), |k: int| linked(ids, links, lead, k));
    assert(linked(ids, links, lead, group[a]) && linked(ids, links, lead, group[b]));
    assert forall|m: int|
        0 <= m < links.len() && ids.contains((#[trigger] links[m]).0) && ids.contains(links[m].1)
        implies f(links[m].0) == f(links[m].1) by {
        let i = choose|i: int| 0 <= i < ids.len() && ids[i] == links[m].0;
        let j = choose|j: int| 0 <= j < ids.len() && ids[j] == links[m].1;
        assert(reviews@[i].entity_id@ == edges@[m].0@ && reviews@[j].entity_id@ == edges@[m].1@);
    }
    let p = choose|p: Seq<int>| #[trigger]
        is_path(ids, links, p) && p.first() == lead && p.last() == group[a];
    let q = choose|q: Seq<int>| #[trigger]
        is_path(ids, links, q) && q.first() == lead && q.last() == group[b];
    lemma_path_keeps(ids, links, p, f);
    lemma_path_keeps(ids, links, q, f);
}

/// Entities that an edge joins, in either direction, are listed in one group.
pub proof fn law_joined_entities_share_group(
    reviews: Vec<EntityReview>,
    edges: Vec<(String, String)>,
    groups: Vec<ChangeGroup>,
    m: int,
    i: int,
    j: int,
    g: int,
)
    requires
        call_ensures(untangle, (&reviews, &edges), groups),
        0 <= m < edges@.len(),
        0 <= i < reviews@.len(),
        0 <= j < reviews@.len(),
        reviews@[i].entity_id@ == edges@[m].0@,
        reviews@[j].entity_id@ == edges@[m].1@,
        0 <= g < groups@.len(),
    ensures
        (exists|a: int|
            0 <= a < groups@[g].entity_ids@.len() && (#[trigger] groups@[g].entity_ids@[a])@
                == edges@[m].0@) <==> (exists|b: int|
            0 <= b < groups@[g].entity_ids@.len() && (#[trigger] groups@[g].entity_ids@[b])@
                == edges@[m].1@),
{
    let ids = review_ids(reviews@);
    let links = edge_views(edges@);
    assert(links[m] == (ids[i], ids[j]));
    assert(links.contains((ids[i], ids[j])));
    lemma_touching_linked(ids, links, i, j);
    law_linked_symmetric(ids, links, i, j);
    lemma_listed_iff_linked(reviews, edges, groups, g, i);
    lemma_listed_iff_linked(reviews, edges, groups, g, j);
    let lead = leaders(ids, links)[g];
    lemma_group_bounds(ids, links, g);
    if linked(ids, links, lead, i) {
        law_linked_transitive(ids, links, lead, i, j);
    }
    if linked(ids, links, lead, j) {
        law_linked_transitive(ids, links, lead, j, i);
    }
}

proof fn lemma_listed_iff_linked(
    reviews: Vec<EntityReview>,
    edges: Vec<(String, String)>,
    groups: Vec<ChangeGroup>,
    g: int,
    i: int,
)
    requires
        call_ensures(untangle, (&reviews, &edges), groups),
        0 <= g < groups@.len(),
        0 <= i < reviews@.len(),
    ensures
        0 <= g < leaders(review_ids(reviews@), edge_views(edges@)).len(),
        (exists|a: int|
            0 <= a < groups@[g].entity_ids@.len() && (#[trigger] groups@[g].entity_ids@[a])@
                == reviews@[i].entity_id@) <==> linked(
            review_ids(reviews@),
            edge_views(edges@),
            leaders(review_ids(reviews@), edge_views(edges@))[g],
            i,
        ),
{
    let ids = review_ids(reviews@);
    let links = edge_views(edges@);
    let lead = leaders(ids, links)[g];
    let group = members(ids, links, lead);
    let listed = groups@[g].entity_ids@;
    let model = untangled(reviews@, links);
    assert(group_views(groups@).len() == groups@.len());
    assert(group_views(groups@)[g] == groups@[g]@);
    assert(views(listed).len() == listed.len());
    assert(model[g].entity_ids.len() == group.len());
    let belongs = |k: int| linked(ids, links, lead, k);
    lemma_filter_ascending(ids.len(), belongs);
    lemma_group_bounds(ids, links, g);
    if linked(ids, links, lead, i) {
        assert(belongs(i));
        let k = choose|k: int| 0 <= k < group.len() && group[k] == i;
        assert(views(listed)[k] == listed[k]@);
        assert(model[g].entity_ids[k] == ids[i]);
        assert(listed[k]@ == reviews@[i].entity_id@);
    }
    if exists|a: int| 0 <= a < listed.len() && (#[trigger] listed[a])@ == reviews@[i].entity_id@ {
        let a = choose|a: int|
            0 <= a < listed.len() && (#[trigger] listed[a])@ == reviews@[i].entity_id@;
        assert(views(listed)[a] == listed[a]@);
        assert(model[g].entity_ids[a] == ids[group[a]]);
        assert(belongs(group[a]));
        lemma_touching_linked(ids, links, group[a], i);
        law_linked_transitive(ids, links, lead, group[a], i);
    }
}

/// Assigning groups changes nothing of a review but its group. That is the
/// number of the last group that lists the review, and stays where none does.
pub proof fn law_assigned(reviews: Seq<EntityReview>, groups: Seq<ChangeGroup>, i: int, g: int)
    requires
        0 <= i < reviews.len(),
        0 <= g < groups.len(),
    ensures
        assigned(reviews, group_views(groups)).len() == reviews.len(),
        assigned(reviews, group_views(groups))[i] == (EntityReview {
            group_id: assigned(reviews, group_views(groups))[i].group_id,
            ..reviews[i]
        }),
        ((exists|a: int|
            0 <= a < groups[g].entity_ids@.len() && (#[trigger] groups[g].entity_ids@[a])@
                == reviews[i].entity_id@) && forall|h: int, b: int|
            g < h < groups.len() && 0 <= b < groups[h].entity_ids@.len() ==> (
            #[trigger] groups[h].entity_ids@[b])@ != reviews[i].entity_id@) ==> assigned(
            reviews,
            group_views(groups),
        )[i].group_id == groups[g].id,
        (forall|h: int, b: int|
            0 <= h < groups.len() && 0 <= b < groups[h].entity_ids@.len() ==> (
            #[trigger] groups[h].entity_ids@[b])@ != reviews[i].entity_id@) ==> assigned(
            reviews,
            group_views(groups),
        )[i] == reviews[i],
{
    let id = reviews[i].entity_id@;
    let model = group_views(groups);
    assert forall|h: int| 0 <= h < groups.len() implies ((#[trigger] model[h]).entity_ids.contains(id)
        <==> exists|a: int|
        0 <= a < groups[h].entity_ids@.len() && (#[trigger] groups[h].entity_ids@[a])@ == id) by {
        let listed = groups[h].entity_ids@;
        assert(model[h] == groups[h]@);
        if views(listed).contains(id) {
            let a = choose|a: int| 0 <= a < views(listed).len() && views(listed)[a] == id;
            assert(listed[a]@ == id);
        }
        if exists|a: int| 0 <= a < listed.len() && (#[trigger] listed[a])@ == id {
            let a = choose|a: int| 0 <= a < listed.len() && (#[trigger] listed[a])@ == id;
            assert(views(listed)[a] == id);
        }
    }
    if (exists|a: int|
        0 <= a < groups[g].entity_ids@.len() && (#[trigger] groups[g].entity_ids@[a])@ == id) && (
    forall|h: int, b: int|
        g < h < groups.len() && 0 <= b < groups[h].entity_ids@.len() ==> (
        #[trigger] groups[h].entity_ids@[b])@ != id) {
        assert(model[g].entity_ids.contains(id));
        lemma_listing_at(model, id, g);
        assert(model[g].id == groups[g].id);
    }
    if forall|h: int, b: int|
        0 <= h < groups.len() && 0 <= b < groups[h].entity_ids@.len() ==> (
        #[trigger] groups[h].entity_ids@[b])@ != id {
        assert forall|h: int| 0 <= h < model.len() implies !(
        #[trigger] model[h]).entity_ids.contains(id) by {}
        lemma_no_listing(model, id);
    }
}

proof fn lemma_no_listing(groups: Seq<ChangeGroupView>, id: Seq<char>)
    requires
        forall|h: int| 0 <= h < groups.len() ==> !(#[trigger] groups[h]).entity_ids.contains(id),
    ensures
        group_listing(groups, id) is None,
    decreases groups.len(),
{
    if groups.len() > 0 {
        let rest = groups.drop_last();
        assert(!groups[groups.len() - 1].entity_ids.contains(id));
        assert forall|h: int| 0 <= h < rest.len() implies !(
        #[trigger] rest[h]).entity_ids.contains(id) by {
            assert(rest[h] == groups[h]);
        }
        lemma_no_listing(rest, id);
    }
}

} // verus!
