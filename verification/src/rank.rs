//! Ranking: a stable merge sort of keyed entries, smallest key first.

use vstd::prelude::*;
use vstd::seq_lib::lemma_multiset_commutative;

verus! {

/// An entry to rank: a key to order by, and the position it came from.
#[derive(Clone, Copy, Debug, PartialEq, Eq, Structural)]
pub struct Ranked {
    pub key: i128,
    pub index: usize,
}

/// `a` may stand before `b` in a ranking: its key is smaller, or the keys
/// are equal and it came from no later a position.
pub open spec fn ranks_no_later(a: Ranked, b: Ranked) -> bool {
    a.key < b.key || (a.key == b.key && a.index <= b.index)
}

/// Every entry of `entries` may stand before all that follow it.
pub open spec fn is_ranked(entries: Seq<Ranked>) -> bool {
    forall|a: int, b: int|
        0 <= a < b < entries.len() ==> ranks_no_later(#[trigger] entries[a], #[trigger] entries[b])
}

/// `ranking` is `entries` in ranked order.
pub open spec fn is_ranking_of(ranking: Seq<Ranked>, entries: Seq<Ranked>) -> bool {
    &&& is_ranked(ranking)
    &&& ranking.len() == entries.len()
    &&& ranking.to_multiset() == entries.to_multiset()
}

/// The ranking of `entries`.
pub open spec fn ranking_of(entries: Seq<Ranked>) -> Seq<Ranked> {
    choose|ranking: Seq<Ranked>| is_ranking_of(ranking, entries)
}

/// The same entries have one ranking only.
pub proof fn lemma_ranking_unique(first: Seq<Ranked>, second: Seq<Ranked>, entries: Seq<Ranked>)
    requires
        is_ranking_of(first, entries),
        is_ranking_of(second, entries),
    ensures
        first == second,
{
    let no_later = |a: Ranked, b: Ranked| ranks_no_later(a, b);
    assert(vstd::relations::sorted_by(first, no_later)) by {
        assert forall|a: int, b: int| 0 <= a < b < first.len() implies #[trigger] no_later(
            first[a],
            first[b],
        ) by {
            assert(ranks_no_later(first[a], first[b]));
        }
    }
    assert(vstd::relations::sorted_by(second, no_later)) by {
        assert forall|a: int, b: int| 0 <= a < b < second.len() implies #[trigger] no_later(
            second[a],
            second[b],
        ) by {
            assert(ranks_no_later(second[a], second[b]));
        }
    }
    assert(vstd::relations::total_ordering(no_later)) by {
        assert forall|x: Ranked, y: Ranked| #[trigger] no_later(x, y) && #[trigger] no_later(
            y,
            x,
        ) implies x == y by {
            assert(x.key == y.key && x.index == y.index);
        }
    }
    vstd::seq_lib::lemma_sorted_unique(first, second, no_later);
}

/// Whatever is in a ranking is in what was ranked, and the other way round.
pub proof fn lemma_ranking_same_entries(ranking: Seq<Ranked>, entries: Seq<Ranked>, e: Ranked)
    requires
        ranking.to_multiset() == entries.to_multiset(),
    ensures
        ranking.contains(e) == entries.contains(e),
{
    broadcast use vstd::seq_lib::to_multiset_contains;

    assert(ranking.contains(e) <==> ranking.to_multiset().count(e) > 0);
    assert(entries.contains(e) <==> entries.to_multiset().count(e) > 0);
}

/// Merges two rankings into one.
fn merge_ranked(left: &Vec<Ranked>, right: &Vec<Ranked>) -> (merged: Vec<Ranked>)
    requires
        is_ranked(left@),
        is_ranked(right@),
    ensures
        is_ranked(merged@),
        merged@.len() == left@.len() + right@.len(),
        merged@.to_multiset() == (left@ + right@).to_multiset(),
{
    let mut merged: Vec<Ranked> = Vec::new();
    let mut a: usize = 0;
    let mut b: usize = 0;
    proof {
        assert(left@.subrange(0, 0) + right@.subrange(0, 0) =~= merged@);
    }
    while a < left.len() || b < right.len()
        invariant
            a <= left@.len(),
            b <= right@.len(),
            is_ranked(left@),
            is_ranked(right@),
            is_ranked(merged@),
            merged@.len() == a + b,
            merged@.to_multiset() == (left@.subrange(0, a as int) + right@.subrange(
                0,
                b as int,
            )).to_multiset(),
            forall|k: int, p: int|
                0 <= k < merged@.len() && a <= p < left@.len() ==> ranks_no_later(
                    #[trigger] merged@[k],
                    #[trigger] left@[p],
                ),
            forall|k: int, p: int|
                0 <= k < merged@.len() && b <= p < right@.len() ==> ranks_no_later(
                    #[trigger] merged@[k],
                    #[trigger] right@[p],
                ),
        decreases left@.len() - a + right@.len() - b,
    {
        let take_left: bool = if a >= left.len() {
            false
        } else if b >= right.len() {
            true
        } else {
            let x: Ranked = left[a];
            let y: Ranked = right[b];
            x.key < y.key || (x.key == y.key && x.index <= y.index)
        };
        let ghost before = merged@;
        let ghost la = left@.subrange(0, a as int);
        let ghost rb = right@.subrange(0, b as int);
        if take_left {
            let x: Ranked = left[a];
            merged.push(x);
            proof {
                let la2 = left@.subrange(0, a + 1);
                assert(la2 =~= la.push(x));
                lemma_multiset_commutative(la, rb);
                lemma_multiset_commutative(la2, rb);
                vstd::seq_lib::to_multiset_build(la, x);
                vstd::seq_lib::to_multiset_build(before, x);
                assert(merged@.to_multiset() =~= (la2 + rb).to_multiset());
                assert forall|k: int, p: int|
                    0 <= k < merged@.len() && a + 1 <= p < left@.len() implies ranks_no_later(
                    #[trigger] merged@[k],
                    #[trigger] left@[p],
                ) by {
                    if k == merged@.len() - 1 {
                        assert(ranks_no_later(left@[a as int], left@[p]));
                    } else {
                        assert(merged@[k] == before[k]);
                    }
                }
                assert forall|k: int, p: int|
                    0 <= k < merged@.len() && b <= p < right@.len() implies ranks_no_later(
                    #[trigger] merged@[k],
                    #[trigger] right@[p],
                ) by {
                    if k == merged@.len() - 1 {
                        assert(ranks_no_later(right@[b as int], right@[p]) || p == b);
                    } else {
                        assert(merged@[k] == before[k]);
                    }
                }
                assert(is_ranked(merged@)) by {
                    assert forall|p: int, q: int| 0 <= p < q < merged@.len() implies ranks_no_later(
                        #[trigger] merged@[p],
                        #[trigger] merged@[q],
                    ) by {
                        if q == merged@.len() - 1 {
                            assert(merged@[p] == before[p]);
                            assert(ranks_no_later(before[p], left@[a as int]));
                        } else {
                            assert(merged@[p] == before[p]);
                            assert(merged@[q] == before[q]);
                        }
                    }
                }
            }
            a += 1;
        } else {
            let y: Ranked = right[b];
            merged.push(y);
            proof {
                let rb2 = right@.subrange(0, b + 1);
                assert(rb2 =~= rb.push(y));
                assert(la + rb2 =~= (la + rb).push(y));
                vstd::seq_lib::to_multiset_build(la + rb, y);
                vstd::seq_lib::to_multiset_build(before, y);
                assert(merged@.to_multiset() =~= (la + rb2).to_multiset());
                assert forall|k: int, p: int|
                    0 <= k < merged@.len() && b + 1 <= p < right@.len() implies ranks_no_later(
                    #[trigger] merged@[k],
                    #[trigger] right@[p],
                ) by {
                    if k == merged@.len() - 1 {
                        assert(ranks_no_later(right@[b as int], right@[p]));
                    } else {
                        assert(merged@[k] == before[k]);
                    }
                }
                assert forall|k: int, p: int|
                    0 <= k < merged@.len() && a <= p < left@.len() implies ranks_no_later(
                    #[trigger] merged@[k],
                    #[trigger] left@[p],
                ) by {
                    if k == merged@.len() - 1 {
                        assert(ranks_no_later(left@[a as int], left@[p]) || p == a);
                    } else {
                        assert(merged@[k] == before[k]);
                    }
                }
                assert(is_ranked(merged@)) by {
                    assert forall|p: int, q: int| 0 <= p < q < merged@.len() implies ranks_no_later(
                        #[trigger] merged@[p],
                        #[trigger] merged@[q],
                    ) by {
                        if q == merged@.len() - 1 {
                            assert(merged@[p] == before[p]);
                            assert(ranks_no_later(before[p], right@[b as int]));
                        } else {
                            assert(merged@[p] == before[p]);
                            assert(merged@[q] == before[q]);
                        }
                    }
                }
            }
            b += 1;
        }
    }
    proof {
        assert(left@.subrange(0, a as int) =~= left@);
        assert(right@.subrange(0, b as int) =~= right@);
    }
    merged
}

/// Ranks the entries of `entries` from `lo` up to, not including, `hi`.
fn rank_range(entries: &Vec<Ranked>, lo: usize, hi: usize) -> (ranking: Vec<Ranked>)
    requires
        lo <= hi <= entries@.len(),
    ensures
        is_ranking_of(ranking@, entries@.subrange(lo as int, hi as int)),
    decreases hi - lo,
{
    if hi - lo <= 1 {
        let mut ranking: Vec<Ranked> = Vec::new();
        if lo < hi {
            ranking.push(entries[lo]);
        }
        proof {
            assert(ranking@ =~= entries@.subrange(lo as int, hi as int));
        }
        ranking
    } else {
        let mid: usize = lo + (hi - lo) / 2;
        let left: Vec<Ranked> = rank_range(entries, lo, mid);
        let right: Vec<Ranked> = rank_range(entries, mid, hi);
        let merged: Vec<Ranked> = merge_ranked(&left, &right);
        proof {
            let l = entries@.subrange(lo as int, mid as int);
            let r = entries@.subrange(mid as int, hi as int);
            assert(l + r =~= entries@.subrange(lo as int, hi as int));
            lemma_multiset_commutative(left@, right@);
            lemma_multiset_commutative(l, r);
        }
        merged
    }
}

/// Ranks `entries`: the same entries, smallest key first, and among equal
/// keys the one from the earliest position first.
pub fn rank_entries(entries: &Vec<Ranked>) -> (ranking: Vec<Ranked>)
    ensures
        is_ranking_of(ranking@, entries@),
        ranking@ == ranking_of(entries@),
{
    let ranking: Vec<Ranked> = rank_range(entries, 0, entries.len());
    proof {
        assert(entries@.subrange(0, entries@.len() as int) =~= entries@);
        lemma_ranking_unique(ranking@, ranking_of(entries@), entries@);
    }
    ranking
}

} // verus!
