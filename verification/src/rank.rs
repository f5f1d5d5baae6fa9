//! Ordering by score: the highest first, equal scores in the order they came.

use vstd::prelude::*;

use crate::types::EntityReview;

verus! {

/// The bit that a negative floating-point number has set.
pub const SIGN_BIT: u64 = 0x8000_0000_0000_0000;

/// The key of the double-precision number with the bits `bits`: its magnitude
/// bits as a number, negated where the sign bit is set.
pub open spec fn key_of_bits(bits: u64) -> int {
    if bits < SIGN_BIT {
        bits as int
    } else {
        SIGN_BIT - bits
    }
}

/// An integer that orders as the double-precision score with the bits `bits`
/// does. Both zeros have the key 0.
pub fn score_key(bits: u64) -> (key: i64)
    ensures
        key == key_of_bits(bits),
{
    if bits < SIGN_BIT {
        bits as i64
    } else {
        -((bits - SIGN_BIT) as i64)
    }
}

/// The bits of the score whose key is `key`.
pub fn score_bits(key: i64) -> (bits: u64)
    requires
        key > i64::MIN,
    ensures
        key_of_bits(bits) == key,
        bits != SIGN_BIT,
{
    if key >= 0 {
        key as u64
    } else {
        (-key) as u64 + SIGN_BIT
    }
}

/// A key tells the bits it was made of, but for the sign of zero.
pub proof fn law_key_injective(a: u64, b: u64)
    requires
        a != SIGN_BIT,
        b != SIGN_BIT,
    ensures
        key_of_bits(a) == key_of_bits(b) <==> a == b,
{
}

/// Whether the item at `a` comes before the one at `b`: it has the higher key,
/// or the same key and the lower position.
pub open spec fn precedes(keys: Seq<i64>, a: int, b: int) -> bool {
    keys[a] > keys[b] || (keys[a] == keys[b] && a < b)
}

/// Whether `order` lists the positions of `keys`, each once, each before those
/// that it precedes.
pub open spec fn is_ranking(keys: Seq<i64>, order: Seq<int>) -> bool {
    &&& order.len() == keys.len()
    &&& forall|k: int| 0 <= k < order.len() ==> 0 <= #[trigger] order[k] < keys.len()
    &&& forall|i: int| 0 <= i < keys.len() ==> #[trigger] order.contains(i)
    &&& in_order(keys, order)
}

/// Whether each position in `order` precedes the later ones.
pub open spec fn in_order(keys: Seq<i64>, order: Seq<int>) -> bool {
    forall|a: int, b: int|
        0 <= a < b < order.len() ==> precedes(keys, #[trigger] order[a], #[trigger] order[b])
}

/// The ranking of `keys`.
pub open spec fn ranking_of(keys: Seq<i64>) -> Seq<int> {
    choose|order: Seq<int>| is_ranking(keys, order)
}

proof fn lemma_rankings_agree(keys: Seq<i64>, a: Seq<int>, b: Seq<int>, n: int)
    requires
        is_ranking(keys, a),
        is_ranking(keys, b),
        0 <= n <= keys.len(),
    ensures
        forall|k: int| #![trigger a[k]] 0 <= k < n ==> a[k] == b[k],
    decreases n,
{
    if n > 0 {
        let k = n - 1;
        lemma_rankings_agree(keys, a, b, k);
        if a[k] != b[k] {
            assert(b.contains(a[k]));
            assert(a.contains(b[k]));
            let m = choose|m: int| 0 <= m < b.len() && b[m] == a[k];
            let p = choose|p: int| 0 <= p < a.len() && a[p] == b[k];
            if m < k {
                assert(a[m] == b[m]);
                assert(precedes(keys, a[m], a[k]));
            } else if p < k {
                assert(a[p] == b[p]);
                assert(precedes(keys, b[p], b[k]));
            } else {
                assert(precedes(keys, b[k], b[m]));
                assert(precedes(keys, a[k], a[p]));
            }
        }
    }
}

/// There is only one ranking.
pub proof fn law_ranking_unique(keys: Seq<i64>, order: Seq<int>)
    requires
        is_ranking(keys, order),
    ensures
        order == ranking_of(keys),
{
    lemma_rankings_agree(keys, order, ranking_of(keys), keys.len() as int);
    assert(order =~= ranking_of(keys));
}

/// The place in `order` of an item with the key `key` that comes after all
/// others with that key.
spec fn place(keys: Seq<i64>, order: Seq<int>, key: i64) -> int
    decreases order.len(),
{
    if order.len() == 0 || keys[order.last()] >= key {
        order.len() as int
    } else {
        place(keys, order.drop_last(), key)
    }
}

proof fn lemma_place(keys: Seq<i64>, order: Seq<int>, key: i64)
    requires
        in_order(keys, order),
    ensures
        0 <= place(keys, order, key) <= order.len(),
        forall|k: int| 0 <= k < place(keys, order, key) ==> keys[#[trigger] order[k]] >= key,
        forall|k: int|
            place(keys, order, key) <= k < order.len() ==> keys[#[trigger] order[k]] < key,
    decreases order.len(),
{
    if order.len() > 0 {
        let rest = order.drop_last();
        if keys[order.last()] >= key {
            assert forall|k: int| 0 <= k < order.len() implies keys[#[trigger] order[k]] >= key by {
                if k < order.len() - 1 {
                    assert(precedes(keys, order[k], order[order.len() - 1]));
                }
            }
        } else {
            assert forall|a: int, b: int| 0 <= a < b < rest.len() implies precedes(
                keys,
                #[trigger] rest[a],
                #[trigger] rest[b],
            ) by {
                assert(precedes(keys, order[a], order[b]));
            }
            lemma_place(keys, rest, key);
            let at = place(keys, order, key);
            assert forall|k: int| 0 <= k < at implies keys[#[trigger] order[k]] >= key by {
                assert(rest[k] == order[k]);
            }
            assert forall|k: int| at <= k < order.len() implies keys[#[trigger] order[k]] < key by {
                if k < rest.len() {
                    assert(rest[k] == order[k]);
                }
            }
        }
    }
}

/// All keys can be ranked.
pub proof fn law_ranking_exists(keys: Seq<i64>)
    ensures
        is_ranking(keys, ranking_of(keys)),
    decreases keys.len(),
{
    if keys.len() == 0 {
        assert(is_ranking(keys, Seq::empty()));
    } else {
        let rest = keys.drop_last();
        law_ranking_exists(rest);
        let order = ranking_of(rest);
        let n = rest.len() as int;
        lemma_place(rest, order, keys.last());
        let at = place(rest, order, keys.last());
        let all = order.insert(at, n);
        assert forall|k: int| 0 <= k < all.len() implies 0 <= #[trigger] all[k] < keys.len() by {
            if k < at {
                assert(all[k] == order[k]);
            } else if k > at {
                assert(all[k] == order[k - 1]);
            }
        }
        assert forall|i: int| 0 <= i < keys.len() implies #[trigger] all.contains(i) by {
            if i < n {
                assert(order.contains(i));
                let k = choose|k: int| 0 <= k < order.len() && order[k] == i;
                assert(all[if k < at {
                    k
                } else {
                    k + 1
                }] == i);
            } else {
                assert(all[at] == i);
            }
        }
        assert forall|a: int, b: int| 0 <= a < b < all.len() implies precedes(
            keys,
            #[trigger] all[a],
            #[trigger] all[b],
        ) by {
            let x = if a < at {
                a
            } else {
                a - 1
            };
            let y = if b < at {
                b
            } else {
                b - 1
            };
            if a == at {
                assert(all[b] == order[y]);
            } else if b == at {
                assert(all[a] == order[x]);
            } else {
                assert(all[a] == order[x] && all[b] == order[y]);
                assert(precedes(rest, order[x], order[y]));
            }
        }
        assert(is_ranking(keys, all));
    }
}

/// The positions in `v` as integers.
pub open spec fn as_ints(v: Seq<usize>) -> Seq<int> {
    v.map_values(|x: usize| x as int)
}

/// Whether `order` lists the positions `from..to`, each before those that it
/// precedes.
spec fn ranks_range(keys: Seq<i64>, order: Seq<int>, from: int, to: int) -> bool {
    &&& order.len() == to - from
    &&& forall|k: int| 0 <= k < order.len() ==> from <= #[trigger] order[k] < to
    &&& forall|i: int| from <= i < to ==> #[trigger] order.contains(i)
    &&& in_order(keys, order)
}

proof fn lemma_push_contains(s: Seq<int>, x: int)
    ensures
        s.push(x).contains(x),
        forall|y: int| #[trigger] s.contains(y) ==> s.push(x).contains(y),
{
    assert(s.push(x).last() == x);
    assert forall|y: int| #[trigger] s.contains(y) implies s.push(x).contains(y) by {
        let k = choose|k: int| 0 <= k < s.len() && s[k] == y;
        assert(s.push(x)[k] == y);
    }
}

/// Merges two ranked stretches of positions that stand side by side.
fn merge(
    keys: &Vec<i64>,
    left: &Vec<usize>,
    right: &Vec<usize>,
    Ghost(from): Ghost<int>,
    Ghost(mid): Ghost<int>,
    Ghost(to): Ghost<int>,
) -> (out: Vec<usize>)
    requires
        0 <= from <= mid <= to <= keys@.len(),
        ranks_range(keys@, as_ints(left@), from, mid),
        ranks_range(keys@, as_ints(right@), mid, to),
    ensures
        ranks_range(keys@, as_ints(out@), from, to),
{
    let ghost a = as_ints(left@);
    let ghost b = as_ints(right@);
    let n: usize = left.len();
    let m: usize = right.len();
    let mut out: Vec<usize> = Vec::new();
    let mut i: usize = 0;
    let mut j: usize = 0;
    while i < n || j < m
        invariant
            0 <= from <= mid <= to <= keys@.len(),
            a == as_ints(left@),
            b == as_ints(right@),
            ranks_range(keys@, a, from, mid),
            ranks_range(keys@, b, mid, to),
            i <= n == left@.len(),
            j <= m == right@.len(),
            out@.len() == i + j,
            in_order(keys@, as_ints(out@)),
            forall|k: int| 0 <= k < out@.len() ==> from <= #[trigger] as_ints(out@)[k] < to,
            forall|k: int| #![trigger a[k]] 0 <= k < i ==> as_ints(out@).contains(a[k]),
            forall|k: int| #![trigger b[k]] 0 <= k < j ==> as_ints(out@).contains(b[k]),
            forall|k: int, p: int|
                0 <= k < out@.len() && i <= p < n ==> precedes(
                    keys@,
                    #[trigger] as_ints(out@)[k],
                    #[trigger] a[p],
                ),
            forall|k: int, p: int|
                0 <= k < out@.len() && j <= p < m ==> precedes(
                    keys@,
                    #[trigger] as_ints(out@)[k],
                    #[trigger] b[p],
                ),
        decreases n - i + m - j,
    {
        let ghost before = as_ints(out@);
        let ghost i0 = i as int;
        let ghost j0 = j as int;
        let take_left = if i == n {
            false
        } else if j == m {
            true
        } else {
            assert(a[i as int] == left@[i as int] as int);
            assert(b[j as int] == right@[j as int] as int);
            keys[left[i]] >= keys[right[j]]
        };
        let next: usize = if take_left { left[i] } else { right[j] };
        proof {
            if i < n {
                assert(a[i as int] == left@[i as int] as int);
            }
            if j < m {
                assert(b[j as int] == right@[j as int] as int);
            }
        }
        out.push(next);
        if take_left {
            i += 1;
        } else {
            j += 1;
        }
        proof {
            let now = as_ints(out@);
            assert(now =~= before.push(next as int));
            lemma_push_contains(before, next as int);
            if take_left {
                assert(next as int == a[i0]);
            } else {
                assert(next as int == b[j0]);
            }
            assert forall|k: int, p: int| 0 <= k < now.len() && i <= p < n implies precedes(
                keys@,
                #[trigger] now[k],
                #[trigger] a[p],
            ) by {
                if k < before.len() {
                    assert(now[k] == before[k]);
                } else if take_left {
                    assert(precedes(keys@, a[i0], a[p]));
                } else {
                    assert(precedes(keys@, b[j0], a[i0]));
                    if i0 < p {
                        assert(precedes(keys@, a[i0], a[p]));
                    }
                }
            }
            assert forall|k: int, p: int| 0 <= k < now.len() && j <= p < m implies precedes(
                keys@,
                #[trigger] now[k],
                #[trigger] b[p],
            ) by {
                if k < before.len() {
                    assert(now[k] == before[k]);
                } else if !take_left {
                    assert(precedes(keys@, b[j0], b[p]));
                } else {
                    assert(precedes(keys@, a[i0], b[j0]));
                    if j0 < p {
                        assert(precedes(keys@, b[j0], b[p]));
                    }
                }
            }
        }
    }
    proof {
        let all = as_ints(out@);
        assert forall|x: int| from <= x < to implies #[trigger] all.contains(x) by {
            if x < mid {
                assert(a.contains(x));
                let k = choose|k: int| 0 <= k < a.len() && a[k] == x;
                assert(all.contains(a[k]));
            } else {
                assert(b.contains(x));
                let k = choose|k: int| 0 <= k < b.len() && b[k] == x;
                assert(all.contains(b[k]));
            }
        }
    }
    out
}

/// Ranks the positions `from..to`.
fn rank_range(keys: &Vec<i64>, from: usize, to: usize) -> (out: Vec<usize>)
    requires
        from <= to <= keys@.len(),
    ensures
        ranks_range(keys@, as_ints(out@), from as int, to as int),
    decreases to - from,
{
    let len: usize = to - from;
    if len == 0 {
        return Vec::new();
    }
    if len == 1 {
        let mut out: Vec<usize> = Vec::new();
        out.push(from);
        assert(as_ints(out@)[0] == from as int);
        assert(as_ints(out@).contains(from as int));
        return out;
    }
    let mid: usize = from + len / 2;
    let left = rank_range(keys, from, mid);
    let right = rank_range(keys, mid, to);
    merge(keys, &left, &right, Ghost(from as int), Ghost(mid as int), Ghost(to as int))
}

/// The positions of `keys` in descending order of the keys; equal keys keep
/// their order.
pub fn rank(keys: &Vec<i64>) -> (order: Vec<usize>)
    ensures
        is_ranking(keys@, as_ints(order@)),
        as_ints(order@) == ranking_of(keys@),
{
    let order = rank_range(keys, 0, keys.len());
    proof {
        law_ranking_unique(keys@, as_ints(order@));
    }
    order
}

/// The scores of `reviews`.
pub open spec fn scores_of(reviews: Seq<EntityReview>) -> Seq<i64> {
    reviews.map_values(|r: EntityReview| r.risk_score)
}

/// The reviews in descending order of their scores; equal scores keep their
/// order.
pub open spec fn ranked(reviews: Seq<EntityReview>) -> Seq<EntityReview> {
    ranking_of(scores_of(reviews)).map_values(|k: int| reviews[k])
}

/// Sorts `reviews` by descending score; equal scores keep their order.
pub fn rank_reviews(reviews: Vec<EntityReview>) -> (r: Vec<EntityReview>)
    ensures
        r@ == ranked(reviews@),
        r@.len() == reviews@.len(),
{
    let ghost given = reviews@;
    let n: usize = reviews.len();
    let mut keys: Vec<i64> = Vec::new();
    let mut slots: Vec<Option<EntityReview>> = Vec::new();
    for review in it: reviews.into_iter()
        invariant
            it.seq() == given,
            keys@ == scores_of(given).take(it.index() as int),
            slots@.len() == it.index(),
            forall|k: int| #![trigger slots@[k]] 0 <= k < slots@.len() ==> slots@[k] == Some(given[k]),
    {
        assert(scores_of(given)[it.index() as int] == review.risk_score);
        keys.push(review.risk_score);
        slots.push(Some(review));
    }
    assert(scores_of(given).take(n as int) =~= scores_of(given));
    let order = rank(&keys);
    let ghost ints = as_ints(order@);
    let mut r: Vec<EntityReview> = Vec::new();
    let mut k: usize = 0;
    while k < n
        invariant
            k <= n == given.len() == order@.len() == slots@.len(),
            ints == as_ints(order@),
            is_ranking(scores_of(given), ints),
            forall|i: int|
                #![trigger slots@[i]]
                0 <= i < n ==> (slots@[i] == Some(given[i]) || ints.take(k as int).contains(i)),
            r@ == ints.take(k as int).map_values(|k: int| given[k]),
        decreases n - k,
    {
        let at: usize = order[k];
        assert(ints[k as int] == at);
        assert(!ints.take(k as int).contains(at as int)) by {
            if ints.take(k as int).contains(at as int) {
                let p = choose|p: int|
                    0 <= p < ints.take(k as int).len() && ints.take(k as int)[p] == at;
                assert(precedes(scores_of(given), ints[p], ints[k as int]));
            }
        }
        let ghost before = slots@;
        let slot = slots[at].take();
        if let Some(review) = slot {
            r.push(review);
        }
        proof {
            assert(ints.take(k + 1) =~= ints.take(k as int).push(at as int));
            lemma_push_contains(ints.take(k as int), at as int);
            assert forall|i: int|
                #![trigger slots@[i]]
                0 <= i < n implies (slots@[i] == Some(given[i]) || ints.take(k + 1).contains(i)) by {
                if i != at {
                    assert(slots@[i] == before[i]);
                }
            }
            assert(r@ =~= ints.take(k + 1).map_values(|k: int| given[k]));
        }
        k += 1;
    }
    assert(ints.take(n as int) =~= ints);
    r
}

/// Ranking reviews keeps each of them, once, and puts no review before one with
/// a higher score.
pub proof fn law_ranked_by_score(reviews: Seq<EntityReview>)
    ensures
        ranked(reviews).len() == reviews.len(),
        ranking_of(scores_of(reviews)).no_duplicates(),
        forall|i: int| 0 <= i < reviews.len() ==> ranked(reviews).contains(#[trigger] reviews[i]),
        forall|k: int| 0 <= k < reviews.len() ==> reviews.contains(#[trigger] ranked(reviews)[k]),
        forall|a: int, b: int|
            0 <= a < b < reviews.len() ==> (#[trigger] ranked(reviews)[a]).risk_score >= (
            #[trigger] ranked(reviews)[b]).risk_score,
{
    let keys = scores_of(reviews);
    let order = ranking_of(keys);
    let out = ranked(reviews);
    law_ranking_exists(keys);
    assert forall|a: int, b: int|
        0 <= a < order.len() && 0 <= b < order.len() && a != b implies order[a] != order[b] by {
        if a < b {
            assert(precedes(keys, order[a], order[b]));
        } else {
            assert(precedes(keys, order[b], order[a]));
        }
    }
    assert forall|i: int| 0 <= i < reviews.len() implies out.contains(#[trigger] reviews[i]) by {
        assert(order.contains(i));
        let k = choose|k: int| 0 <= k < order.len() && order[k] == i;
        assert(out[k] == reviews[i]);
    }
    assert forall|k: int| 0 <= k < reviews.len() implies reviews.contains(#[trigger] out[k]) by {
        assert(out[k] == reviews[order[k]]);
    }
    assert forall|a: int, b: int| 0 <= a < b < reviews.len() implies (#[trigger] out[a]).risk_score
        >= (#[trigger] out[b]).risk_score by {
        assert(precedes(keys, order[a], order[b]));
        assert(keys[order[a]] == out[a].risk_score && keys[order[b]] == out[b].risk_score);
    }
}

/// Keys order as double-precision numbers do: by magnitude where the sign bit is
/// clear, against it where it is set, and the latter never above the former.
pub proof fn law_key_order(a: u64, b: u64, x: i64, y: i64)
    requires
        call_ensures(score_key, (a,), x),
        call_ensures(score_key, (b,), y),
    ensures
        a < 0x8000_0000_0000_0000 && b < 0x8000_0000_0000_0000 ==> (a < b <==> x < y),
        a >= 0x8000_0000_0000_0000 && b >= 0x8000_0000_0000_0000 ==> (a < b <==> x > y),
        a < 0x8000_0000_0000_0000 ==> x >= 0,
        a >= 0x8000_0000_0000_0000 ==> x <= 0,
        a == 0 || a == 0x8000_0000_0000_0000 ==> x == 0,
{
}

/// The bits of a score come back from its key; minus zero comes back as zero.
pub proof fn law_key_gives_bits_back(bits: u64, key: i64, back: u64)
    requires
        call_ensures(score_key, (bits,), key),
        call_ensures(score_bits, (key,), back),
    ensures
        bits != 0x8000_0000_0000_0000 ==> back == bits,
        bits == 0x8000_0000_0000_0000 ==> back == 0,
{
}

/// Ranking lists each position once, the higher keys first, and equal keys in
/// the order that they came in.
pub proof fn law_rank(keys: Vec<i64>, order: Vec<usize>)
    requires
        call_ensures(rank, (&keys,), order),
    ensures
        order@.len() == keys@.len(),
        forall|k: int| 0 <= k < order@.len() ==> 0 <= #[trigger] order@[k] < keys@.len(),
        forall|a: int, b: int|
            0 <= a < b < order@.len() ==> {
                let x = #[trigger] order@[a];
                let y = #[trigger] order@[b];
                keys@[x as int] > keys@[y as int] || (keys@[x as int] == keys@[y as int] && x < y)
            },
{
    let ints = as_ints(order@);
    assert forall|k: int| 0 <= k < order@.len() implies 0 <= #[trigger] order@[k] < keys@.len() by {
        assert(ints[k] == order@[k]);
    }
    assert forall|a: int, b: int| 0 <= a < b < order@.len() implies {
        let x = #[trigger] order@[a];
        let y = #[trigger] order@[b];
        keys@[x as int] > keys@[y as int] || (keys@[x as int] == keys@[y as int] && x < y)
    } by {
        assert(precedes(keys@, ints[a], ints[b]));
    }
}

/// Ranking reviews moves them, each as it is, so that higher scores come first
/// and equal scores stay in their order: the review at `k` comes from `from[k]`.
pub proof fn law_rank_reviews(reviews: Vec<EntityReview>, r: Vec<EntityReview>) -> (from: Seq<int>)
    requires
        call_ensures(rank_reviews, (reviews,), r),
    ensures
        r@.len() == reviews@.len(),
        is_reordering(reviews@, r@, from),
{
    lemma_ranked_reordering(reviews@);
    ranking_of(scores_of(reviews@))
}

/// Whether the review at `k` in `b` is the one at `from[k]` in `a`, all reviews
/// are taken once, higher scores come first, and equal scores keep their order.
pub open spec fn is_reordering(
    a: Seq<EntityReview>,
    b: Seq<EntityReview>,
    from: Seq<int>,
) -> bool {
    &&& from.len() == a.len()
    &&& b.len() == a.len()
    &&& forall|k: int|
        0 <= k < from.len() ==> 0 <= #[trigger] from[k] < a.len() && b[k] == a[from[k]]
    &&& forall|i: int| 0 <= i < a.len() ==> #[trigger] from.contains(i)
    &&& forall|j: int, k: int|
        0 <= j < k < from.len() ==> {
            let x = #[trigger] from[j];
            let y = #[trigger] from[k];
            a[x].risk_score > a[y].risk_score || (a[x].risk_score == a[y].risk_score && x < y)
        }
}

/// The ranked reviews are a reordering of the reviews.
pub proof fn lemma_ranked_reordering(reviews: Seq<EntityReview>)
    ensures
        is_reordering(reviews, ranked(reviews), ranking_of(scores_of(reviews))),
{
    let keys = scores_of(reviews);
    let order = ranking_of(keys);
    law_ranking_exists(keys);
    assert forall|j: int, k: int| 0 <= j < k < order.len() implies {
        let x = #[trigger] order[j];
        let y = #[trigger] order[k];
        reviews[x].risk_score > reviews[y].risk_score || (reviews[x].risk_score
            == reviews[y].risk_score && x < y)
    } by {
        assert(precedes(keys, order[j], order[k]));
    }
}

} // verus!
