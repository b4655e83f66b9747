//! Ordering search candidates by score: highest score first, and among equal
//! scores the candidate that came first stays first.

use vstd::prelude::*;

verus! {

/// Candidate `i` is placed before candidate `j`.
pub open spec fn ranks_before(keys: Seq<u32>, i: int, j: int) -> bool {
    keys[i] > keys[j] || (keys[i] == keys[j] && i < j)
}

/// `order` lists every candidate index of `keys` once, best first.
pub open spec fn is_ranking(keys: Seq<u32>, order: Seq<usize>) -> bool {
    &&& order.len() == keys.len()
    &&& forall|p: int| 0 <= p < order.len() ==> #[trigger] order[p] < keys.len()
    &&& forall|j: usize| j < keys.len() ==> #[trigger] order.contains(j)
    &&& forall|p: int, q: int|
        #![trigger order[p], order[q]]
        0 <= p < q < order.len() ==> ranks_before(keys, order[p] as int, order[q] as int)
}

/// The ranking of `keys` (there is exactly one; see `lemma_ranking_unique`).
pub open spec fn ranking(keys: Seq<u32>) -> Seq<usize> {
    choose|order: Seq<usize>| is_ranking(keys, order)
}

proof fn lemma_rankings_agree_upto(keys: Seq<u32>, a: Seq<usize>, b: Seq<usize>, p: int)
    requires
        is_ranking(keys, a),
        is_ranking(keys, b),
        0 <= p <= a.len(),
    ensures
        forall|t: int| 0 <= t < p ==> a[t] == b[t],
    decreases p,
{
    if p > 0 {
        lemma_rankings_agree_upto(keys, a, b, p - 1);
        let t = p - 1;
        if a[t] != b[t] {
            let x = a[t];
            let y = b[t];
            assert(x < keys.len());
            assert(y < keys.len());
            assert(b.contains(x));
            let q = choose|q: int| 0 <= q < b.len() && b[q] == x;
            assert(a.contains(y));
            let r = choose|r: int| 0 <= r < a.len() && a[r] == y;
            if q < t {
                assert(a[q] == b[q]);
                assert(ranks_before(keys, a[q] as int, a[t] as int));
            }
            if r < t {
                assert(a[r] == b[r]);
                assert(ranks_before(keys, b[r] as int, b[t] as int));
            }
            assert(q > t);
            assert(r > t);
            assert(ranks_before(keys, b[t] as int, b[q] as int));
            assert(ranks_before(keys, a[t] as int, a[r] as int));
        }
    }
}

/// A sequence of scores has at most one ranking.
pub proof fn lemma_ranking_unique(keys: Seq<u32>, a: Seq<usize>, b: Seq<usize>)
    requires
        is_ranking(keys, a),
        is_ranking(keys, b),
    ensures
        a == b,
{
    lemma_rankings_agree_upto(keys, a, b, a.len() as int);
    assert(a =~= b);
}

/// `order` lists candidates `0..m` once each, best first.
spec fn ranks_upto(keys: Seq<u32>, order: Seq<usize>, m: int) -> bool {
    &&& order.len() == m
    &&& forall|p: int| 0 <= p < order.len() ==> #[trigger] order[p] < m
    &&& forall|j: usize| j < m ==> #[trigger] order.contains(j)
    &&& forall|p: int, q: int|
        #![trigger order[p], order[q]]
        0 <= p < q < order.len() ==> ranks_before(keys, order[p] as int, order[q] as int)
}

spec fn sorted_insert(keys: Seq<u32>, order: Seq<usize>, i: usize) -> Seq<usize>
    decreases order.len(),
{
    if order.len() == 0 {
        seq![i]
    } else if keys[order[0] as int] >= keys[i as int] {
        seq![order[0]] + sorted_insert(keys, order.drop_first(), i)
    } else {
        seq![i] + order
    }
}

spec fn build_ranking(keys: Seq<u32>, m: nat) -> Seq<usize>
    decreases m,
{
    if m == 0 {
        Seq::empty()
    } else {
        sorted_insert(keys, build_ranking(keys, (m - 1) as nat), (m - 1) as usize)
    }
}

proof fn lemma_sorted_insert(keys: Seq<u32>, order: Seq<usize>, i: usize)
    requires
        i < keys.len(),
        forall|p: int| 0 <= p < order.len() ==> #[trigger] order[p] < i,
        forall|p: int, q: int|
            #![trigger order[p], order[q]]
            0 <= p < q < order.len() ==> ranks_before(keys, order[p] as int, order[q] as int),
    ensures
        sorted_insert(keys, order, i).len() == order.len() + 1,
        forall|x: usize| #[trigger]
            sorted_insert(keys, order, i).contains(x) <==> (order.contains(x) || x == i),
        forall|p: int, q: int|
            #![trigger sorted_insert(keys, order, i)[p], sorted_insert(keys, order, i)[q]]
            0 <= p < q < order.len() + 1 ==> ranks_before(
                keys,
                sorted_insert(keys, order, i)[p] as int,
                sorted_insert(keys, order, i)[q] as int,
            ),
    decreases order.len(),
{
    let r = sorted_insert(keys, order, i);
    if order.len() == 0 {
        assert forall|x: usize| #[trigger] r.contains(x) <==> (order.contains(x) || x == i) by {
            if r.contains(x) {
                assert(r[0] == i);
            }
            if x == i {
                assert(r[0] == i);
            }
        }
    } else if keys[order[0] as int] >= keys[i as int] {
        let rest = order.drop_first();
        lemma_sorted_insert(keys, rest, i);
        let rr = sorted_insert(keys, rest, i);
        assert(r == seq![order[0]] + rr);
        assert forall|x: usize| #[trigger] r.contains(x) <==> (order.contains(x) || x == i) by {
            if r.contains(x) {
                let w = choose|w: int| 0 <= w < r.len() && r[w] == x;
                if w > 0 {
                    assert(rr[w - 1] == x);
                    assert(rr.contains(x));
                    if rest.contains(x) {
                        let v = choose|v: int| 0 <= v < rest.len() && rest[v] == x;
                        assert(order[v + 1] == x);
                    }
                } else {
                    assert(order[0] == x);
                }
            }
            if order.contains(x) {
                let w = choose|w: int| 0 <= w < order.len() && order[w] == x;
                if w == 0 {
                    assert(r[0] == x);
                } else {
                    assert(rest[w - 1] == x);
                    assert(rr.contains(x));
                    let v = choose|v: int| 0 <= v < rr.len() && rr[v] == x;
                    assert(r[v + 1] == x);
                }
            }
            if x == i {
                assert(rr.contains(x));
                let v = choose|v: int| 0 <= v < rr.len() && rr[v] == x;
                assert(r[v + 1] == x);
            }
        }
        assert forall|p: int, q: int|
            #![trigger r[p], r[q]]
            0 <= p < q < order.len() + 1 implies ranks_before(keys, r[p] as int, r[q] as int) by {
            if p == 0 {
                assert(r[q] == rr[q - 1]);
                assert(rr.contains(rr[q - 1]));
                let x = rr[q - 1];
                if x == i {
                    assert(order[0] < i);
                } else {
                    assert(rest.contains(x));
                    let v = choose|v: int| 0 <= v < rest.len() && rest[v] == x;
                    assert(order[v + 1] == x);
                    assert(ranks_before(keys, order[0] as int, order[v + 1] as int));
                }
            } else {
                assert(r[p] == rr[p - 1]);
                assert(r[q] == rr[q - 1]);
            }
        }
    } else {
        assert(r == seq![i] + order);
        assert forall|x: usize| #[trigger] r.contains(x) <==> (order.contains(x) || x == i) by {
            if r.contains(x) {
                let w = choose|w: int| 0 <= w < r.len() && r[w] == x;
                if w > 0 {
                    assert(order[w - 1] == x);
                }
            }
            if order.contains(x) {
                let w = choose|w: int| 0 <= w < order.len() && order[w] == x;
                assert(r[w + 1] == x);
            }
            if x == i {
                assert(r[0] == x);
            }
        }
        assert forall|p: int, q: int|
            #![trigger r[p], r[q]]
            0 <= p < q < order.len() + 1 implies ranks_before(keys, r[p] as int, r[q] as int) by {
            if p == 0 {
                assert(r[q] == order[q - 1]);
                if q - 1 > 0 {
                    assert(ranks_before(keys, order[0] as int, order[q - 1] as int));
                }
            } else {
                assert(r[p] == order[p - 1]);
                assert(r[q] == order[q - 1]);
            }
        }
    }
}

proof fn lemma_build_ranking(keys: Seq<u32>, m: nat)
    requires
        m <= keys.len(),
        keys.len() <= usize::MAX,
    ensures
        ranks_upto(keys, build_ranking(keys, m), m as int),
    decreases m,
{
    if m > 0 {
        let prev = build_ranking(keys, (m - 1) as nat);
        lemma_build_ranking(keys, (m - 1) as nat);
        let i = (m - 1) as usize;
        lemma_sorted_insert(keys, prev, i);
        let r = build_ranking(keys, m);
        assert(r == sorted_insert(keys, prev, i));
        assert forall|p: int| 0 <= p < r.len() implies #[trigger] r[p] < m by {
            assert(r.contains(r[p]));
            if r[p] != i {
                assert(prev.contains(r[p]));
                let w = choose|w: int| 0 <= w < prev.len() && prev[w] == r[p];
                assert(prev[w] < m - 1);
            }
        }
        assert forall|j: usize| j < m implies #[trigger] r.contains(j) by {
            if j < m - 1 {
                assert(prev.contains(j));
            }
        }
    }
}

/// Every sequence of scores that a vector can hold has a ranking.
pub proof fn lemma_ranking_exists(keys: Seq<u32>)
    requires
        keys.len() <= usize::MAX,
    ensures
        is_ranking(keys, ranking(keys)),
{
    lemma_build_ranking(keys, keys.len());
    assert(is_ranking(keys, build_ranking(keys, keys.len())));
}

/// Inserting candidate `i` in front of the first candidate that scores
/// lower keeps a ranking of `0..i` a ranking, now of `0..i + 1`.
proof fn lemma_insert_ranked(keys: Seq<u32>, old_order: Seq<usize>, pos: int, i: usize)
    requires
        i < keys.len(),
        0 <= pos <= old_order.len(),
        ranks_upto(keys, old_order, i as int),
        forall|t: int| 0 <= t < pos ==> keys[#[trigger] old_order[t] as int] >= keys[i as int],
        pos < old_order.len() ==> keys[old_order[pos] as int] < keys[i as int],
    ensures
        ranks_upto(keys, old_order.insert(pos, i), i + 1),
{
    let order = old_order.insert(pos, i);
    old_order.insert_ensures(pos, i);
    let ki = keys[i as int];
    assert forall|p: int, q: int|
        #![trigger order[p], order[q]]
        0 <= p < q < order.len() implies ranks_before(keys, order[p] as int, order[q] as int) by {
        if p < pos && q < pos {
            assert(order[p] == old_order[p] && order[q] == old_order[q]);
        } else if p < pos && q == pos {
            assert(order[p] == old_order[p]);
            assert(keys[old_order[p] as int] >= ki);
        } else if p < pos {
            assert(order[p] == old_order[p] && order[q] == old_order[q - 1]);
        } else if p == pos {
            assert(order[q] == old_order[q - 1]);
            assert(keys[old_order[pos] as int] < ki);
            if q - 1 > pos {
                assert(ranks_before(keys, old_order[pos] as int, old_order[q - 1] as int));
            }
        } else {
            assert(order[p] == old_order[p - 1] && order[q] == old_order[q - 1]);
        }
    }
    assert forall|j: usize| j < i + 1 implies #[trigger] order.contains(j) by {
        if j == i {
            assert(order[pos] == i);
        } else {
            assert(old_order.contains(j));
            let w = choose|w: int| 0 <= w < old_order.len() && old_order[w] == j;
            if w < pos {
                assert(order[w] == j);
            } else {
                assert(order[w + 1] == j);
            }
        }
    }
    assert forall|p: int| 0 <= p < order.len() implies #[trigger] order[p] < i + 1 by {
        if p < pos {
            assert(order[p] == old_order[p]);
        } else if p > pos {
            assert(order[p] == old_order[p - 1]);
        }
    }
}

/// Sorts the candidate indices of `keys`, best first, ties in their original
/// order.
pub fn rank_indices(keys: &Vec<u32>) -> (order: Vec<usize>)
    ensures
        is_ranking(keys@, order@),
        order@ == ranking(keys@),
{
    let n = keys.len();
    let mut order: Vec<usize> = Vec::new();
    let mut i: usize = 0;
    while i < n
        invariant
            n == keys@.len(),
            i <= n,
            ranks_upto(keys@, order@, i as int),
        decreases n - i,
    {
        let ki = keys[i];
        let mut pos: usize = 0;
        while pos < order.len() && keys[order[pos]] >= ki
            invariant
                n == keys@.len(),
                i < n,
                ki == keys@[i as int],
                pos <= order@.len(),
                ranks_upto(keys@, order@, i as int),
                forall|t: int| 0 <= t < pos ==> keys@[#[trigger] order@[t] as int] >= ki,
            decreases order@.len() - pos,
        {
            pos = pos + 1;
        }
        let ghost old_order = order@;
        order.insert(pos, i);
        proof {
            lemma_insert_ranked(keys@, old_order, pos as int, i);
        }
        i = i + 1;
    }
    proof {
        lemma_ranking_unique(keys@, order@, ranking(keys@));
    }
    order
}

} // verus!
