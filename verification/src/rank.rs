//! Ranking: documents in descending order of relevance.
//!
//! A document comes with a relevance key, an unsigned number that is larger
//! for the more relevant document. The ranking is the stable descending
//! sort by key: of two documents with the same key, the one that came first
//! stays first.

use vstd::prelude::*;
use vstd::seq_lib::*;

verus! {

/// How many entries of `ranked`, from its start, have a key of at least `key`.
pub open spec fn slot(ranked: Seq<(Seq<char>, u32)>, key: u32) -> nat
    decreases ranked.len(),
{
    if ranked.len() > 0 && ranked[0].1 >= key {
        1 + slot(ranked.skip(1), key)
    } else {
        0
    }
}

/// The entries of `scored` in descending order of key, entries with equal
/// keys in the order in which `scored` has them: each entry in turn goes
/// behind those already placed whose key is at least its own.
pub open spec fn ranking(scored: Seq<(Seq<char>, u32)>) -> Seq<(Seq<char>, u32)>
    decreases scored.len(),
{
    if scored.len() == 0 {
        Seq::empty()
    } else {
        let placed = ranking(scored.drop_last());
        placed.insert(slot(placed, scored.last().1) as int, scored.last())
    }
}

/// Whether `a` ranks before `b` among the entries of `scored`: by the larger
/// key, and for equal keys by the earlier place in `scored`.
pub open spec fn precedes(
    scored: Seq<(Seq<char>, u32)>,
    a: (Seq<char>, u32),
    b: (Seq<char>, u32),
) -> bool {
    a.1 > b.1 || (a.1 == b.1 && scored.index_of(a) < scored.index_of(b))
}

/// Whether `ranked` is in order among the entries of `scored`: of any two
/// of its entries, the earlier one precedes the later one.
pub open spec fn in_order(scored: Seq<(Seq<char>, u32)>, ranked: Seq<(Seq<char>, u32)>) -> bool {
    forall|i: int, j: int|
        #![trigger ranked[i], ranked[j]]
        0 <= i < j < ranked.len() ==> precedes(scored, ranked[i], ranked[j])
}

/// No two entries are for the same document.
pub open spec fn distinct_ids(scored: Seq<(Seq<char>, u32)>) -> bool {
    forall|i: int, j: int|
        #![trigger scored[i], scored[j]]
        0 <= i < scored.len() && 0 <= j < scored.len() && i != j ==> scored[i].0 != scored[j].0
}

/// The entries before the slot have a key of at least `key`, and the entry at the
/// slot, if there is one, has a smaller key.
proof fn lemma_slot_holds(ranked: Seq<(Seq<char>, u32)>, key: u32)
    ensures
        slot(ranked, key) <= ranked.len(),
        forall|i: int| 0 <= i < slot(ranked, key) ==> (#[trigger] ranked[i]).1 >= key,
        slot(ranked, key) < ranked.len() ==> ranked[slot(ranked, key) as int].1 < key,
    decreases ranked.len(),
{
    if ranked.len() > 0 && ranked[0].1 >= key {
        let rest = ranked.skip(1);
        lemma_slot_holds(rest, key);
        assert forall|i: int| 0 <= i < slot(ranked, key) implies (#[trigger] ranked[i]).1
            >= key by {
            if i > 0 {
                assert(ranked[i] == rest[i - 1]);
            }
        }
        if slot(ranked, key) < ranked.len() {
            assert(ranked[slot(ranked, key) as int] == rest[slot(rest, key) as int]);
        }
    }
}

/// If the first `p` entries have a key of at least `key` and the next one has
/// not, the slot is `p`.
proof fn lemma_slot_is(ranked: Seq<(Seq<char>, u32)>, key: u32, p: nat)
    requires
        p <= ranked.len(),
        forall|i: int| 0 <= i < p ==> (#[trigger] ranked[i]).1 >= key,
        p < ranked.len() ==> ranked[p as int].1 < key,
    ensures
        slot(ranked, key) == p,
    decreases p,
{
    if p > 0 {
        let rest = ranked.skip(1);
        assert forall|i: int| 0 <= i < p - 1 implies (#[trigger] rest[i]).1 >= key by {
            assert(rest[i] == ranked[i + 1]);
        }
        lemma_slot_is(rest, key, (p - 1) as nat);
    }
}

/// A ranking has the entries that were ranked, each as often as it was given.
pub proof fn lemma_ranking_permutes(scored: Seq<(Seq<char>, u32)>)
    ensures
        ranking(scored).len() == scored.len(),
        ranking(scored).to_multiset() == scored.to_multiset(),
    decreases scored.len(),
{
    broadcast use group_to_multiset_ensures;

    if scored.len() > 0 {
        let front = scored.drop_last();
        let placed = ranking(front);
        lemma_ranking_permutes(front);
        lemma_slot_holds(placed, scored.last().1);
        assert(scored =~= front.push(scored.last()));
        assert(ranking(scored).to_multiset() =~= scored.to_multiset());
    }
}

/// Among entries for distinct documents, an entry that stands before the
/// last one has the same place with and without the last one.
proof fn lemma_index_in_front(scored: Seq<(Seq<char>, u32)>, x: (Seq<char>, u32))
    requires
        distinct_ids(scored),
        scored.len() > 0,
        scored.drop_last().contains(x),
    ensures
        scored.index_of(x) == scored.drop_last().index_of(x),
        0 <= scored.index_of(x) < scored.len() - 1,
{
    let front = scored.drop_last();
    let j = front.index_of(x);
    assert(0 <= j < front.len() && front[j] == x);
    assert(scored[j] == x);
    let m = scored.index_of(x);
    assert(0 <= m < scored.len() && scored[m] == x);
}

/// Among entries for distinct documents, the last one has the last place.
proof fn lemma_index_of_last(scored: Seq<(Seq<char>, u32)>)
    requires
        distinct_ids(scored),
        scored.len() > 0,
    ensures
        scored.index_of(scored.last()) == scored.len() - 1,
{
    let m = scored.index_of(scored.last());
    assert(scored[scored.len() - 1] == scored.last());
    assert(0 <= m < scored.len() && scored[m] == scored.last());
}

/// Two lists with the same entries have the same length and the same members.
proof fn lemma_same_members(
    x: Seq<(Seq<char>, u32)>,
    y: Seq<(Seq<char>, u32)>,
    e: (Seq<char>, u32),
)
    requires
        x.to_multiset() == y.to_multiset(),
    ensures
        x.len() == y.len(),
        x.contains(e) == y.contains(e),
{
    to_multiset_len(x);
    to_multiset_len(y);
    to_multiset_contains(x, e);
    to_multiset_contains(y, e);
}

/// Every entry of a ranking is one of the entries that were ranked.
proof fn lemma_ranking_members(scored: Seq<(Seq<char>, u32)>, k: int)
    requires
        0 <= k < ranking(scored).len(),
    ensures
        scored.contains(ranking(scored)[k]),
{
    broadcast use group_to_multiset_ensures;

    lemma_ranking_permutes(scored);
    let x = ranking(scored)[k];
    assert(ranking(scored).contains(x));
    lemma_same_members(ranking(scored), scored, x);
}

/// A ranking of distinct documents is in order: of any two of its entries,
/// the earlier one has the larger key, or the same key and the earlier
/// place in what was ranked.
pub proof fn lemma_ranking_sorted(scored: Seq<(Seq<char>, u32)>)
    requires
        distinct_ids(scored),
    ensures
        in_order(scored, ranking(scored)),
    decreases scored.len(),
{
    if scored.len() > 0 {
        let front = scored.drop_last();
        let placed = ranking(front);
        let last = scored.last();
        let p = slot(placed, last.1) as int;
        let ranked = ranking(scored);
        assert(distinct_ids(front)) by {
            assert forall|i: int, j: int|
                #![trigger front[i], front[j]]
                0 <= i < front.len() && 0 <= j < front.len() && i != j implies front[i].0
                != front[j].0 by {
                assert(front[i] == scored[i] && front[j] == scored[j]);
            }
        }
        lemma_ranking_sorted(front);
        lemma_ranking_permutes(front);
        lemma_slot_holds(placed, last.1);
        lemma_index_of_last(scored);
        assert forall|k: int| 0 <= k < placed.len() implies scored.index_of(#[trigger] placed[k])
            == front.index_of(placed[k]) && scored.index_of(placed[k]) < scored.len() - 1 by {
            lemma_ranking_members(front, k);
            lemma_index_in_front(scored, placed[k]);
        }
        assert forall|k: int| p <= k < placed.len() implies (#[trigger] placed[k]).1 < last.1 by {
            if k > p {
                assert(precedes(front, placed[p], placed[k]));
            }
        }
        assert forall|i: int, j: int|
            #![trigger ranked[i], ranked[j]]
            0 <= i < j < ranked.len() implies precedes(scored, ranked[i], ranked[j]) by {
            if j < p {
                assert(ranked[i] == placed[i] && ranked[j] == placed[j]);
                assert(precedes(front, placed[i], placed[j]));
            } else if j == p {
                assert(ranked[i] == placed[i] && ranked[j] == last);
                assert(placed[i].1 >= last.1);
            } else if i < p {
                assert(ranked[i] == placed[i] && ranked[j] == placed[j - 1]);
                assert(precedes(front, placed[i], placed[j - 1]));
            } else if i == p {
                assert(ranked[i] == last && ranked[j] == placed[j - 1]);
                assert(placed[j - 1].1 < last.1);
            } else {
                assert(ranked[i] == placed[i - 1] && ranked[j] == placed[j - 1]);
                assert(precedes(front, placed[i - 1], placed[j - 1]));
            }
        }
    }
}

/// Whether two lists agree on the order of tied entries: of any two
/// entries of `a` with equal keys, the one that is earlier in `a` is the
/// earlier one in `b` too.
pub open spec fn ties_agree(a: Seq<(Seq<char>, u32)>, b: Seq<(Seq<char>, u32)>) -> bool {
    forall|x: (Seq<char>, u32), y: (Seq<char>, u32)|
        #![trigger a.index_of(x), a.index_of(y)]
        a.contains(x) && a.contains(y) && x.1 == y.1 ==> (a.index_of(x) < a.index_of(y))
            == (b.index_of(x) < b.index_of(y))
}

/// Two lists with the same entries, both in order by `precedes` over the
/// same list, are the same list.
proof fn lemma_order_is_unique(
    scored: Seq<(Seq<char>, u32)>,
    x: Seq<(Seq<char>, u32)>,
    y: Seq<(Seq<char>, u32)>,
)
    requires
        x.to_multiset() == y.to_multiset(),
        in_order(scored, x),
        in_order(scored, y),
    ensures
        x == y,
    decreases x.len(),
{
    broadcast use group_to_multiset_ensures;

    lemma_same_members(x, y, arbitrary());
    if x.len() > 0 {
        assert(x.contains(x[0]));
        lemma_same_members(x, y, x[0]);
        let k = choose|k: int| 0 <= k < y.len() && y[k] == x[0];
        assert(y.contains(y[0]));
        lemma_same_members(x, y, y[0]);
        let m = choose|m: int| 0 <= m < x.len() && x[m] == y[0];
        if k > 0 && m > 0 {
            assert(precedes(scored, y[0], y[k]));
            assert(precedes(scored, x[0], x[m]));
        }
        assert(x[0] == y[0]);
        let xs = x.remove(0);
        let ys = y.remove(0);
        assert(xs.to_multiset() == ys.to_multiset());
        assert(in_order(scored, xs)) by {
            assert forall|i: int, j: int|
                #![trigger xs[i], xs[j]]
                0 <= i < j < xs.len() implies precedes(scored, xs[i], xs[j]) by {
                assert(xs[i] == x[i + 1] && xs[j] == x[j + 1]);
            }
        }
        assert(in_order(scored, ys)) by {
            assert forall|i: int, j: int|
                #![trigger ys[i], ys[j]]
                0 <= i < j < ys.len() implies precedes(scored, ys[i], ys[j]) by {
                assert(ys[i] == y[i + 1] && ys[j] == y[j + 1]);
            }
        }
        lemma_order_is_unique(scored, xs, ys);
        assert(x =~= y) by {
            assert forall|i: int| 0 <= i < x.len() implies x[i] == y[i] by {
                if i > 0 {
                    assert(xs[i - 1] == x[i]);
                    assert(ys[i - 1] == y[i]);
                }
            }
        }
    }
}

/// The ranking does not depend on the order in which the documents are
/// given, as long as tied documents are given in the same order: two lists
/// of the same scored documents that agree on the order of their ties have
/// the same ranking. Where no two documents have the same key, every order
/// of them has the same ranking.
pub proof fn lemma_ranking_ignores_order(a: Seq<(Seq<char>, u32)>, b: Seq<(Seq<char>, u32)>)
    requires
        distinct_ids(a),
        a.to_multiset() == b.to_multiset(),
        ties_agree(a, b),
    ensures
        ranking(a) == ranking(b),
{
    broadcast use group_to_multiset_ensures;

    assert(a.no_duplicates());
    a.lemma_multiset_has_no_duplicates();
    assert(distinct_ids(b)) by {
        assert forall|i: int, j: int|
            #![trigger b[i], b[j]]
            0 <= i < b.len() && 0 <= j < b.len() && i != j implies b[i].0 != b[j].0 by {
            assert(b.contains(b[i]) && b.contains(b[j]));
            lemma_same_members(a, b, b[i]);
            lemma_same_members(a, b, b[j]);
            if b[i] == b[j] {
                b.lemma_multiset_has_no_duplicates_conv();
                assert(b.no_duplicates());
            } else {
                let m = choose|m: int| 0 <= m < a.len() && a[m] == b[i];
                let n = choose|n: int| 0 <= n < a.len() && a[n] == b[j];
                assert(a[m].0 != a[n].0);
            }
        }
    }
    lemma_ranking_sorted(a);
    lemma_ranking_sorted(b);
    lemma_ranking_permutes(a);
    lemma_ranking_permutes(b);
    let ra = ranking(a);
    let rb = ranking(b);
    assert forall|i: int, j: int|
        #![trigger rb[i], rb[j]]
        0 <= i < j < rb.len() implies precedes(a, rb[i], rb[j]) by {
        lemma_ranking_members(b, i);
        lemma_ranking_members(b, j);
        lemma_same_members(a, b, rb[i]);
        lemma_same_members(a, b, rb[j]);
        assert(precedes(b, rb[i], rb[j]));
        if rb[i].1 == rb[j].1 {
            let (x, y) = (rb[i], rb[j]);
            assert((a.index_of(x) < a.index_of(y)) == (b.index_of(x) < b.index_of(y)));
        }
    }
    lemma_order_is_unique(a, ra, rb);
}

/// The documents in descending order of key, documents with equal keys in
/// the order in which they were given.
pub fn rank(scored: &Vec<(String, u32)>) -> (ranked: Vec<(String, u32)>)
    ensures
        ranked.deep_view() == ranking(scored.deep_view()),
{
    let ghost given = scored.deep_view();
    let mut ranked: Vec<(String, u32)> = Vec::new();
    let mut i: usize = 0;
    assert(ranked.deep_view() =~= ranking(given.take(0)));
    while i < scored.len()
        invariant
            given == scored.deep_view(),
            i <= scored.len(),
            ranked.deep_view() == ranking(given.take(i as int)),
        decreases scored.len() - i,
    {
        let ghost placed = ranked.deep_view();
        let key = scored[i].1;
        let mut p: usize = 0;
        while p < ranked.len() && ranked[p].1 >= key
            invariant
                placed == ranked.deep_view(),
                p <= ranked.len(),
                forall|k: int| 0 <= k < p ==> (#[trigger] placed[k]).1 >= key,
            decreases ranked.len() - p,
        {
            assert(placed[p as int].1 == ranked[p as int].1);
            p += 1;
        }
        proof {
            if p < ranked.len() {
                assert(placed[p as int].1 == ranked[p as int].1);
            }
            lemma_slot_is(placed, key, p as nat);
        }
        let id = scored[i].0.clone();
        ranked.insert(p, (id, key));
        i += 1;
        proof {
            let entry = (id@, key);
            assert(given[i - 1] == entry);
            assert(given.take(i as int).drop_last() =~= given.take(i - 1));
            assert(given.take(i as int).last() == entry);
            assert(ranked.deep_view() =~= placed.insert(p as int, entry));
        }
    }
    assert(given.take(i as int) =~= given);
    ranked
}

} // verus!
