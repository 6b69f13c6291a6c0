//! The candidates of a neighbourhood: the exchanges in the order of the
//! scan, those of them that save more than a threshold, and their ranking
//! by what they save.

use crate::conflict::{is_placed, CandidateSwap};
use crate::geometry::City;
use crate::parallel::parallel_map;
use crate::rank::{lemma_ranking_same_entries, rank_entries, ranking_of, ranks_no_later, Ranked};
use crate::tour::{
    evaluate_exchange, exchange_gain, is_exchange, lemma_exchange_gain_bound, visits_within,
};
use vstd::prelude::*;

verus! {

/// The exchanges whose first position is `i`, in the order of the scan.
pub open spec fn scan_row(i: int, len: int) -> Seq<(usize, usize)> {
    Seq::new((len - 1 - i) as nat, |k: int| (i as usize, (i + 1 + k) as usize))
}

/// The exchanges whose first position is at most `rows`, in the order of
/// the scan.
pub open spec fn scan_rows(len: int, rows: int) -> Seq<(usize, usize)>
    decreases rows,
{
    if rows <= 0 {
        Seq::empty()
    } else {
        scan_rows(len, rows - 1) + scan_row(rows, len)
    }
}

/// Every exchange on a tour of `len` positions, in the order of the scan.
pub open spec fn scan_order(len: int) -> Seq<(usize, usize)> {
    scan_rows(len, len - 2)
}

/// `pair` names an exchange on a tour of `len` positions.
pub open spec fn is_exchange_pair(len: int, pair: (usize, usize)) -> bool {
    is_exchange(len, pair.0 as int, pair.1 as int)
}

/// What the exchange that `pair` names saves on `tour`.
pub open spec fn gain_of_pair(tour: Seq<usize>, cities: Seq<City>, pair: (usize, usize)) -> int {
    exchange_gain(tour, cities, pair.0 as int, pair.1 as int)
}

/// The candidates among the first `upto` pairs of `pairs`: those that save
/// more than `threshold`, in the order of `pairs`.
pub open spec fn candidates_above(
    tour: Seq<usize>,
    cities: Seq<City>,
    pairs: Seq<(usize, usize)>,
    threshold: int,
    upto: int,
) -> Seq<CandidateSwap>
    decreases upto,
{
    if upto <= 0 {
        Seq::empty()
    } else {
        let rest = candidates_above(tour, cities, pairs, threshold, upto - 1);
        let pair = pairs[upto - 1];
        let gain = exchange_gain(tour, cities, pair.0 as int, pair.1 as int);
        if gain > threshold {
            rest.push(CandidateSwap { i: pair.0, j: pair.1, delta: gain as i64 })
        } else {
            rest
        }
    }
}

/// The keys that rank `candidates` by what they save, the largest saving
/// first and, among equal savings, the earlier candidate first.
pub open spec fn gain_keys(candidates: Seq<CandidateSwap>) -> Seq<Ranked> {
    Seq::new(
        candidates.len(),
        |k: int| Ranked { key: (-candidates[k].delta) as i128, index: k as usize },
    )
}

/// The candidates that a ranking of their keys names, in its order.
pub open spec fn in_rank_order(ranking: Seq<Ranked>, candidates: Seq<CandidateSwap>) -> Seq<
    CandidateSwap,
> {
    Seq::new(ranking.len(), |k: int| candidates[ranking[k].index as int])
}

/// `candidates` ranked by what they save.
pub open spec fn ranked_by_gain(candidates: Seq<CandidateSwap>) -> Seq<CandidateSwap> {
    in_rank_order(ranking_of(gain_keys(candidates)), candidates)
}

/// The scan meets exchanges only, and every exchange whose first position
/// is at most `rows`.
pub proof fn lemma_scan_rows(len: int, rows: int)
    requires
        0 <= rows <= len - 2,
        len <= usize::MAX,
    ensures
        forall|k: int|
            0 <= k < scan_rows(len, rows).len() ==> is_exchange(
                len,
                (#[trigger] scan_rows(len, rows)[k]).0 as int,
                scan_rows(len, rows)[k].1 as int,
            ),
        forall|i: int, j: int|
            is_exchange(len, i, j) && i <= rows ==> scan_rows(len, rows).contains(
                (i as usize, j as usize),
            ),
    decreases rows,
{
    if rows > 0 {
        lemma_scan_rows(len, rows - 1);
        let before = scan_rows(len, rows - 1);
        let row = scan_row(rows, len);
        let all = scan_rows(len, rows);
        assert forall|k: int| 0 <= k < all.len() implies is_exchange(
            len,
            (#[trigger] all[k]).0 as int,
            all[k].1 as int,
        ) by {
            if k < before.len() {
                assert(all[k] == before[k]);
            } else {
                assert(all[k] == row[k - before.len()]);
            }
        }
        assert forall|i: int, j: int| is_exchange(len, i, j) && i <= rows implies all.contains(
            (i as usize, j as usize),
        ) by {
            if i < rows {
                assert(before.contains((i as usize, j as usize)));
                let at = choose|at: int|
                    0 <= at < before.len() && before[at] == (i as usize, j as usize);
                assert(all[at] == before[at]);
            } else {
                assert(row[j - i - 1] == (i as usize, j as usize));
                assert(all[before.len() + j - i - 1] == row[j - i - 1]);
            }
        }
    }
}

/// Every candidate is an exchange of its pairs that saves what it says and
/// more than the threshold.
pub proof fn lemma_candidates_above(
    tour: Seq<usize>,
    cities: Seq<City>,
    pairs: Seq<(usize, usize)>,
    threshold: int,
    upto: int,
)
    requires
        0 <= upto <= pairs.len(),
        -0x8000_0000_0000_0000 <= threshold,
        forall|k: int|
            0 <= k < pairs.len() ==> is_exchange(
                tour.len() as int,
                (#[trigger] pairs[k]).0 as int,
                pairs[k].1 as int,
            ),
    ensures
        candidates_above(tour, cities, pairs, threshold, upto).len() <= upto,
        forall|k: int|
            0 <= k < candidates_above(tour, cities, pairs, threshold, upto).len() ==> {
                let c = #[trigger] candidates_above(tour, cities, pairs, threshold, upto)[k];
                &&& is_placed(c, tour.len() as int)
                &&& c.delta == exchange_gain(tour, cities, c.i as int, c.j as int)
                &&& c.delta > threshold
            },
        forall|k: int|
            0 <= k < upto && exchange_gain(
                tour,
                cities,
                (#[trigger] pairs[k]).0 as int,
                pairs[k].1 as int,
            ) > threshold ==> candidates_above(tour, cities, pairs, threshold, upto).len() > 0,
    decreases upto,
{
    if upto > 0 {
        lemma_candidates_above(tour, cities, pairs, threshold, upto - 1);
        let rest = candidates_above(tour, cities, pairs, threshold, upto - 1);
        let all = candidates_above(tour, cities, pairs, threshold, upto);
        let pair = pairs[upto - 1];
        let gain = exchange_gain(tour, cities, pair.0 as int, pair.1 as int);
        lemma_exchange_gain_bound(tour, cities, pair.0 as int, pair.1 as int);
        assert forall|k: int| 0 <= k < all.len() implies {
            let c = #[trigger] all[k];
            &&& is_placed(c, tour.len() as int)
            &&& c.delta == exchange_gain(tour, cities, c.i as int, c.j as int)
            &&& c.delta > threshold
        } by {
            if k < rest.len() {
                assert(all[k] == rest[k]);
            }
        }
    }
}

/// Every exchange on a tour of `len` positions, in the order of the scan.
pub fn all_exchanges(len: usize) -> (pairs: Vec<(usize, usize)>)
    ensures
        pairs@ == scan_order(len as int),
        forall|k: int|
            0 <= k < pairs@.len() ==> is_exchange(
                len as int,
                (#[trigger] pairs@[k]).0 as int,
                pairs@[k].1 as int,
            ),
        forall|i: int, j: int|
            is_exchange(len as int, i, j) ==> pairs@.contains((i as usize, j as usize)),
{
    let mut pairs: Vec<(usize, usize)> = Vec::new();
    if len < 3 {
        return pairs;
    }
    let mut i: usize = 1;
    while i < len - 1
        invariant
            1 <= i <= len - 1,
            pairs@ == scan_rows(len as int, i - 1),
        decreases len - i,
    {
        let mut j: usize = i + 1;
        let ghost before = pairs@;
        while j < len
            invariant
                i < j <= len,
                1 <= i < len - 1,
                pairs@ == before + scan_row(i as int, len as int).subrange(0, j - i - 1),
            decreases len - j,
        {
            pairs.push((i, j));
            j += 1;
            assert(pairs@ =~= before + scan_row(i as int, len as int).subrange(0, j - i - 1));
        }
        assert(scan_row(i as int, len as int).subrange(0, len - i - 1) =~= scan_row(
            i as int,
            len as int,
        ));
        i += 1;
    }
    proof {
        lemma_scan_rows(len as int, len - 2);
    }
    pairs
}

/// Evaluates the exchanges of `pairs` on `tour`, all at once, and keeps
/// those that save more than `threshold`, in the order of `pairs`.
pub fn improving_candidates(
    tour: &Vec<usize>,
    cities: &[City],
    pairs: &Vec<(usize, usize)>,
    threshold: i64,
) -> (candidates: Vec<CandidateSwap>)
    requires
        visits_within(tour@, cities@.len()),
        forall|k: int|
            0 <= k < pairs@.len() ==> is_exchange(
                tour@.len() as int,
                (#[trigger] pairs@[k]).0 as int,
                pairs@[k].1 as int,
            ),
    ensures
        candidates@ == candidates_above(
            tour@,
            cities@,
            pairs@,
            threshold as int,
            pairs@.len() as int,
        ),
        forall|k: int|
            0 <= k < candidates@.len() ==> {
                let c = #[trigger] candidates@[k];
                &&& is_placed(c, tour@.len() as int)
                &&& c.delta == exchange_gain(tour@, cities@, c.i as int, c.j as int)
                &&& c.delta > threshold
            },
        forall|k: int|
            0 <= k < pairs@.len() && gain_of_pair(tour@, cities@, #[trigger] pairs@[k]) > threshold
                ==> candidates@.len() > 0,
{
    let gains: Vec<i64> = parallel_map(
        pairs,
        |pair: (usize, usize)| -> (gain: i64)
            requires
                is_exchange_pair(tour@.len() as int, pair),
            ensures
                gain == gain_of_pair(tour@, cities@, pair),
            { evaluate_exchange(tour.as_slice(), cities, pair.0, pair.1) }
    );
    let mut candidates: Vec<CandidateSwap> = Vec::new();
    let mut k: usize = 0;
    while k < pairs.len()
        invariant
            k <= pairs@.len(),
            gains@.len() == pairs@.len(),
            forall|q: int|
                0 <= q < pairs@.len() ==> #[trigger] gains@[q] == exchange_gain(
                    tour@,
                    cities@,
                    pairs@[q].0 as int,
                    pairs@[q].1 as int,
                ),
            candidates@ == candidates_above(tour@, cities@, pairs@, threshold as int, k as int),
        decreases pairs@.len() - k,
    {
        let gain: i64 = gains[k];
        if gain > threshold {
            let pair: (usize, usize) = pairs[k];
            candidates.push(CandidateSwap { i: pair.0, j: pair.1, delta: gain });
        }
        k += 1;
    }
    proof {
        lemma_candidates_above(tour@, cities@, pairs@, threshold as int, pairs@.len() as int);
    }
    candidates
}

/// Ranks `candidates` by what they save: the largest saving first and,
/// among equal savings, the earlier candidate first.
pub fn rank_candidates(candidates: &Vec<CandidateSwap>) -> (ranked: Vec<CandidateSwap>)
    ensures
        ranked@ == ranked_by_gain(candidates@),
        ranked@.len() == candidates@.len(),
        forall|a: int, b: int|
            0 <= a < b < ranked@.len() ==> (#[trigger] ranked@[a]).delta >= (
            #[trigger] ranked@[b]).delta,
        forall|k: int| 0 <= k < ranked@.len() ==> candidates@.contains(#[trigger] ranked@[k]),
{
    let mut keys: Vec<Ranked> = Vec::new();
    let mut k: usize = 0;
    while k < candidates.len()
        invariant
            k <= candidates@.len(),
            keys@ == gain_keys(candidates@).subrange(0, k as int),
        decreases candidates@.len() - k,
    {
        let c: CandidateSwap = candidates[k];
        keys.push(Ranked { key: -(c.delta as i128), index: k });
        k += 1;
        assert(keys@ =~= gain_keys(candidates@).subrange(0, k as int));
    }
    assert(keys@ =~= gain_keys(candidates@));
    let ranking: Vec<Ranked> = rank_entries(&keys);
    proof {
        assert forall|q: int| 0 <= q < ranking@.len() implies {
            &&& (#[trigger] ranking@[q]).index < candidates@.len()
            &&& ranking@[q].key == -candidates@[ranking@[q].index as int].delta
        } by {
            assert(ranking@.contains(ranking@[q]));
            lemma_ranking_same_entries(ranking@, keys@, ranking@[q]);
            let at = choose|at: int| 0 <= at < keys@.len() && keys@[at] == ranking@[q];
            assert(keys@[at].index == at);
        }
    }
    let mut ranked: Vec<CandidateSwap> = Vec::new();
    let mut r: usize = 0;
    while r < ranking.len()
        invariant
            r <= ranking@.len(),
            ranking@.len() == candidates@.len(),
            forall|q: int|
                0 <= q < ranking@.len() ==> (#[trigger] ranking@[q]).index < candidates@.len(),
            ranked@ == in_rank_order(ranking@, candidates@).subrange(0, r as int),
        decreases ranking@.len() - r,
    {
        let entry: Ranked = ranking[r];
        ranked.push(candidates[entry.index]);
        r += 1;
        assert(ranked@ =~= in_rank_order(ranking@, candidates@).subrange(0, r as int));
    }
    assert(ranked@ =~= in_rank_order(ranking@, candidates@));
    proof {
        assert forall|a: int, b: int| 0 <= a < b < ranked@.len() implies (
        #[trigger] ranked@[a]).delta >= (#[trigger] ranked@[b]).delta by {
            assert(ranks_no_later(ranking@[a], ranking@[b]));
        }
    }
    ranked
}

} // verus!
