//! Closed tours over a list of cities: what makes one valid, what it costs,
//! and the one move that 2-opt makes, the reversal of a segment.

use crate::geometry::{
    distance, distance_bound, euclidean_distance, lemma_distance_bound, lemma_distance_symmetric,
    City,
};
use vstd::prelude::*;

verus! {

/// Every entry of `tour` names one of `n` cities.
pub open spec fn visits_within(tour: Seq<usize>, n: nat) -> bool {
    forall|k: int| 0 <= k < tour.len() ==> #[trigger] tour[k] < n
}

/// `tour` visits each of `n` cities exactly once.
pub open spec fn is_permutation(tour: Seq<usize>, n: nat) -> bool {
    &&& tour.len() == n
    &&& visits_within(tour, n)
    &&& tour.no_duplicates()
}

/// The position after `k` on a closed tour of `len` positions.
pub open spec fn next_position(k: int, len: int) -> int {
    if k + 1 >= len {
        0
    } else {
        k + 1
    }
}

/// The length of the leg that leaves position `k`.
pub open spec fn leg(tour: Seq<usize>, cities: Seq<City>, k: int) -> nat {
    distance(cities[tour[k] as int], cities[tour[next_position(k, tour.len() as int)] as int])
}

/// The sum of the legs that leave the positions from `lo` up to, not
/// including, `hi`.
pub open spec fn legs_cost(tour: Seq<usize>, cities: Seq<City>, lo: int, hi: int) -> nat
    decreases hi - lo,
{
    if lo >= hi {
        0
    } else {
        legs_cost(tour, cities, lo, hi - 1) + leg(tour, cities, hi - 1)
    }
}

/// The cost of the closed tour: every leg between neighbours, and the leg
/// from the last city back to the first.
pub open spec fn total_distance(tour: Seq<usize>, cities: Seq<City>) -> nat {
    legs_cost(tour, cities, 0, tour.len() as int)
}

/// `tour` with the positions `i` to `j`, both included, in reverse order.
pub open spec fn reversed_segment(tour: Seq<usize>, i: int, j: int) -> Seq<usize> {
    Seq::new(
        tour.len(),
        |k: int|
            if i <= k <= j {
                tour[i + j - k]
            } else {
                tour[k]
            },
    )
}

/// `(i, j)` names an exchange: the legs into position `i` and out of
/// position `j` are replaced.
pub open spec fn is_exchange(len: int, i: int, j: int) -> bool {
    1 <= i < j < len
}

/// What the exchange `(i, j)` saves: the two legs it removes, less the two
/// it puts in their place. Positive when the exchange shortens the tour.
pub open spec fn exchange_gain(tour: Seq<usize>, cities: Seq<City>, i: int, j: int) -> int {
    let a = cities[tour[i - 1] as int];
    let b = cities[tour[i] as int];
    let c = cities[tour[j] as int];
    let d = cities[tour[next_position(j, tour.len() as int)] as int];
    (distance(a, b) + distance(c, d)) - (distance(a, c) + distance(b, d))
}

/// A range of legs can be cut in two.
pub proof fn lemma_legs_split(tour: Seq<usize>, cities: Seq<City>, lo: int, mid: int, hi: int)
    requires
        lo <= mid <= hi,
    ensures
        legs_cost(tour, cities, lo, hi) == legs_cost(tour, cities, lo, mid) + legs_cost(
            tour,
            cities,
            mid,
            hi,
        ),
    decreases hi - mid,
{
    if mid < hi {
        lemma_legs_split(tour, cities, lo, mid, hi - 1);
    }
}

/// Two tours whose legs agree on a range cost the same there.
pub proof fn lemma_legs_same(
    tour: Seq<usize>,
    other: Seq<usize>,
    cities: Seq<City>,
    lo: int,
    hi: int,
)
    requires
        forall|k: int| lo <= k < hi ==> leg(other, cities, k) == leg(tour, cities, k),
    ensures
        legs_cost(other, cities, lo, hi) == legs_cost(tour, cities, lo, hi),
    decreases hi - lo,
{
    if lo < hi {
        lemma_legs_same(tour, other, cities, lo, hi - 1);
    }
}

/// A tour whose legs on a range are those of another in reverse order costs
/// the same there.
pub proof fn lemma_legs_mirrored(
    tour: Seq<usize>,
    other: Seq<usize>,
    cities: Seq<City>,
    lo: int,
    hi: int,
)
    requires
        forall|k: int| lo <= k < hi ==> leg(other, cities, k) == leg(tour, cities, lo + hi - 1 - k),
    ensures
        legs_cost(other, cities, lo, hi) == legs_cost(tour, cities, lo, hi),
    decreases hi - lo,
{
    if lo < hi {
        // other's last leg is tour's first; the rest mirror the legs after it.
        assert(leg(other, cities, hi - 1) == leg(tour, cities, lo));
        lemma_legs_shifted_mirror(tour, other, cities, lo, hi - 1, lo + hi - 1);
        lemma_legs_split(tour, cities, lo, lo + 1, hi);
        assert(legs_cost(tour, cities, lo, lo + 1) == leg(tour, cities, lo)) by {
            assert(legs_cost(tour, cities, lo, lo) == 0);
        }
    }
}

/// The legs of `other` from `lo` to `hi` are those of `tour` mirrored about
/// `pivot`: they cost what the legs of `tour` from `pivot - hi + 1` to
/// `pivot - lo + 1` cost.
pub proof fn lemma_legs_shifted_mirror(
    tour: Seq<usize>,
    other: Seq<usize>,
    cities: Seq<City>,
    lo: int,
    hi: int,
    pivot: int,
)
    requires
        lo <= hi,
        forall|k: int| lo <= k < hi ==> leg(other, cities, k) == leg(tour, cities, pivot - k),
    ensures
        legs_cost(other, cities, lo, hi) == legs_cost(
            tour,
            cities,
            pivot - hi + 1,
            pivot - lo + 1,
        ),
    decreases hi - lo,
{
    if lo < hi {
        lemma_legs_shifted_mirror(tour, other, cities, lo, hi - 1, pivot);
        lemma_legs_split(tour, cities, pivot - hi + 1, pivot - hi + 2, pivot - lo + 1);
        assert(legs_cost(tour, cities, pivot - hi + 1, pivot - hi + 2) == leg(
            tour,
            cities,
            pivot - hi + 1,
        )) by {
            assert(legs_cost(tour, cities, pivot - hi + 1, pivot - hi + 1) == 0);
        }
    }
}

/// The legs of a range cost less than `distance_bound()` each.
pub proof fn lemma_legs_bound(tour: Seq<usize>, cities: Seq<City>, lo: int, hi: int)
    requires
        lo <= hi,
    ensures
        legs_cost(tour, cities, lo, hi) <= (hi - lo) * (distance_bound() - 1),
    decreases hi - lo,
{
    if lo < hi {
        lemma_legs_bound(tour, cities, lo, hi - 1);
        lemma_distance_bound(
            cities[tour[hi - 1] as int],
            cities[tour[next_position(hi - 1, tour.len() as int)] as int],
        );
        assert((hi - lo) * (distance_bound() - 1) == (hi - 1 - lo) * (distance_bound() - 1) + (
        distance_bound() - 1)) by (nonlinear_arith);
    }
}

/// Reversing a segment is worth exactly the gain of its exchange: the tour
/// gets shorter by `exchange_gain`.
pub proof fn lemma_reversal_cost(tour: Seq<usize>, cities: Seq<City>, i: int, j: int)
    requires
        is_exchange(tour.len() as int, i, j),
    ensures
        total_distance(reversed_segment(tour, i, j), cities) == total_distance(tour, cities)
            - exchange_gain(tour, cities, i, j),
{
    let n = tour.len() as int;
    let after = reversed_segment(tour, i, j);
    assert(after.len() == n);
    // Legs before the segment, but for the one that enters it, are untouched.
    assert forall|k: int| 0 <= k < i - 1 implies leg(after, cities, k) == leg(tour, cities, k) by {
        assert(after[k] == tour[k]);
        assert(after[k + 1] == tour[k + 1]);
    }
    lemma_legs_same(tour, after, cities, 0, i - 1);
    // Legs inside the segment are walked the other way round.
    assert forall|k: int| i <= k < j implies leg(after, cities, k) == leg(
        tour,
        cities,
        i + j - 1 - k,
    ) by {
        assert(after[k] == tour[i + j - k]);
        assert(after[k + 1] == tour[i + j - k - 1]);
        lemma_distance_symmetric(
            cities[tour[i + j - k] as int],
            cities[tour[i + j - k - 1] as int],
        );
    }
    lemma_legs_mirrored(tour, after, cities, i, j);
    // Legs after the segment are untouched.
    assert forall|k: int| j + 1 <= k < n implies leg(after, cities, k) == leg(tour, cities, k) by {
        assert(after[k] == tour[k]);
        let nk = next_position(k, n);
        assert(after[nk] == tour[nk]);
    }
    lemma_legs_same(tour, after, cities, j + 1, n);
    // The two legs at the ends of the segment are the ones exchanged.
    assert(after[i - 1] == tour[i - 1]);
    assert(after[i] == tour[j]);
    assert(after[j] == tour[i]);
    let nj = next_position(j, n);
    assert(after[nj] == tour[nj]);
    assert(leg(after, cities, i - 1) == distance(
        cities[tour[i - 1] as int],
        cities[tour[j] as int],
    ));
    assert(leg(after, cities, j) == distance(cities[tour[i] as int], cities[tour[nj] as int]));
    lemma_legs_split(tour, cities, 0, i - 1, n);
    lemma_legs_split(tour, cities, i - 1, i, n);
    lemma_legs_split(tour, cities, i, j, n);
    lemma_legs_split(tour, cities, j, j + 1, n);
    lemma_legs_split(after, cities, 0, i - 1, n);
    lemma_legs_split(after, cities, i - 1, i, n);
    lemma_legs_split(after, cities, i, j, n);
    lemma_legs_split(after, cities, j, j + 1, n);
    assert(legs_cost(tour, cities, i - 1, i) == leg(tour, cities, i - 1)) by {
        assert(legs_cost(tour, cities, i - 1, i - 1) == 0);
    }
    assert(legs_cost(tour, cities, j, j + 1) == leg(tour, cities, j)) by {
        assert(legs_cost(tour, cities, j, j) == 0);
    }
    assert(legs_cost(after, cities, i - 1, i) == leg(after, cities, i - 1)) by {
        assert(legs_cost(after, cities, i - 1, i - 1) == 0);
    }
    assert(legs_cost(after, cities, j, j + 1) == leg(after, cities, j)) by {
        assert(legs_cost(after, cities, j, j) == 0);
    }
}

/// A reversal visits the same cities, each as often as before.
pub proof fn lemma_reversal_keeps_cities(tour: Seq<usize>, i: int, j: int)
    requires
        0 <= i <= j < tour.len(),
    ensures
        reversed_segment(tour, i, j).to_multiset() == tour.to_multiset(),
{
    let head = tour.subrange(0, i);
    let middle = tour.subrange(i, j + 1);
    let tail = tour.subrange(j + 1, tour.len() as int);
    assert(tour =~= head + middle + tail);
    assert(reversed_segment(tour, i, j) =~= head + middle.reverse() + tail);
    middle.lemma_reverse_to_multiset();
    vstd::seq_lib::lemma_multiset_commutative(head, middle);
    vstd::seq_lib::lemma_multiset_commutative(head, middle.reverse());
    vstd::seq_lib::lemma_multiset_commutative(head + middle, tail);
    vstd::seq_lib::lemma_multiset_commutative(head + middle.reverse(), tail);
}

/// A rearrangement of a permutation is a permutation.
pub proof fn lemma_rearranged_permutation(tour: Seq<usize>, other: Seq<usize>, n: nat)
    requires
        is_permutation(tour, n),
        other.to_multiset() == tour.to_multiset(),
    ensures
        is_permutation(other, n),
{
    broadcast use vstd::seq_lib::to_multiset_len, vstd::seq_lib::to_multiset_contains;

    assert(other.len() == other.to_multiset().len());
    assert(tour.len() == tour.to_multiset().len());
    lemma_rearranged_within(tour, other, n);
    tour.lemma_multiset_has_no_duplicates();
    other.lemma_multiset_has_no_duplicates_conv();
}

/// A rearrangement of a tour over `n` cities is a tour over `n` cities.
pub proof fn lemma_rearranged_within(tour: Seq<usize>, other: Seq<usize>, n: nat)
    requires
        visits_within(tour, n),
        other.to_multiset() == tour.to_multiset(),
    ensures
        visits_within(other, n),
{
    broadcast use vstd::seq_lib::to_multiset_contains;

    assert forall|k: int| 0 <= k < other.len() implies #[trigger] other[k] < n by {
        assert(other.contains(other[k]));
        assert(tour.to_multiset().count(other[k]) > 0);
        assert(tour.contains(other[k]));
        let at = choose|at: int| 0 <= at < tour.len() && tour[at] == other[k];
        assert(tour[at] < n);
    }
}

/// A permutation of `n` cities leaves none out.
pub proof fn lemma_permutation_visits_all(tour: Seq<usize>, n: nat, city: usize)
    requires
        is_permutation(tour, n),
        city < n,
    ensures
        tour.contains(city),
{
    broadcast use vstd::set::group_set_axioms;

    let visited = tour.to_set();
    let m: nat = if n <= usize::MAX + 1 {
        n
    } else {
        (usize::MAX + 1) as nat
    };
    let all = Set::new(|c: usize| c < m);
    tour.unique_seq_to_set();
    lemma_cities_set_len(m);
    assert(visited.subset_of(all)) by {
        assert forall|c: usize| visited.contains(c) implies all.contains(c) by {
            let at = choose|at: int| 0 <= at < tour.len() && tour[at] == c;
            assert(tour[at] < n);
        }
    }
    vstd::set_lib::lemma_len_subset(visited, all);
    vstd::set_lib::lemma_subset_equality(visited, all);
    assert(all.contains(city));
}

/// A permutation has no more cities than there are city numbers.
pub proof fn lemma_permutation_fits(tour: Seq<usize>, n: nat)
    requires
        is_permutation(tour, n),
    ensures
        n <= usize::MAX + 1,
{
    broadcast use vstd::set::group_set_axioms;

    let visited = tour.to_set();
    let all = Set::new(|c: usize| c < (usize::MAX + 1) as nat);
    tour.unique_seq_to_set();
    lemma_cities_set_len((usize::MAX + 1) as nat);
    assert(visited.subset_of(all));
    vstd::set_lib::lemma_len_subset(visited, all);
}

/// There are `n` city numbers below `n`.
pub proof fn lemma_cities_set_len(n: nat)
    requires
        n <= usize::MAX + 1,
    ensures
        Set::new(|c: usize| c < n).finite(),
        Set::new(|c: usize| c < n).len() == n,
    decreases n,
{
    broadcast use vstd::set::group_set_axioms;

    let all = Set::new(|c: usize| c < n);
    if n == 0 {
        assert(all =~= Set::<usize>::empty());
    } else {
        let fewer = Set::new(|c: usize| c < (n - 1) as nat);
        lemma_cities_set_len((n - 1) as nat);
        assert(all =~= fewer.insert((n - 1) as usize));
    }
}


/// The cost of the closed tour `tour` over `cities`.
pub fn compute_total_distance(tour: &[usize], cities: &[City]) -> (total: u128)
    requires
        visits_within(tour@, cities@.len()),
    ensures
        total == total_distance(tour@, cities@),
{
    let n: usize = tour.len();
    let mut total: u128 = 0;
    let mut k: usize = 0;
    while k < n
        invariant
            k <= n,
            n == tour@.len(),
            visits_within(tour@, cities@.len()),
            total == legs_cost(tour@, cities@, 0, k as int),
        decreases n - k,
    {
        let next: usize = if k + 1 >= n {
            0
        } else {
            k + 1
        };
        let d: u64 = euclidean_distance(&cities[tour[k]], &cities[tour[next]]);
        proof {
            lemma_legs_bound(tour@, cities@, 0, k as int);
            assert(k * (distance_bound() - 1) <= 0xffff_ffff_ffff_ffff * 0x1_ffff_ffff)
                by (nonlinear_arith)
                requires
                    0 <= k <= 0xffff_ffff_ffff_ffff,
                    distance_bound() - 1 == 0x1_ffff_ffff,
            ;
        }
        total = total + d as u128;
        k += 1;
    }
    total
}

/// What the exchange `(i, j)` would save on `tour`.
pub fn evaluate_exchange(tour: &[usize], cities: &[City], i: usize, j: usize) -> (gain: i64)
    requires
        is_exchange(tour@.len() as int, i as int, j as int),
        visits_within(tour@, cities@.len()),
    ensures
        gain == exchange_gain(tour@, cities@, i as int, j as int),
{
    let n: usize = tour.len();
    let after: usize = if j + 1 >= n {
        0
    } else {
        j + 1
    };
    let a: &City = &cities[tour[i - 1]];
    let b: &City = &cities[tour[i]];
    let c: &City = &cities[tour[j]];
    let d: &City = &cities[tour[after]];
    let removed: u64 = euclidean_distance(a, b) + euclidean_distance(c, d);
    let added: u64 = euclidean_distance(a, c) + euclidean_distance(b, d);
    removed as i64 - added as i64
}

/// Reverses the positions `i` to `j` of `tour`, both included.
pub fn reverse_segment(tour: &mut Vec<usize>, i: usize, j: usize)
    requires
        i <= j < old(tour)@.len(),
    ensures
        final(tour)@ == reversed_segment(old(tour)@, i as int, j as int),
        final(tour)@.len() == old(tour)@.len(),
        final(tour)@.to_multiset() == old(tour)@.to_multiset(),
        forall|n: nat| is_permutation(old(tour)@, n) ==> is_permutation(final(tour)@, n),
{
    let mut lo: usize = i;
    let mut hi: usize = j;
    while lo < hi
        invariant
            i <= lo,
            hi <= j,
            lo + hi == i + j,
            lo <= hi + 1,
            j < tour@.len(),
            tour@.len() == old(tour)@.len(),
            forall|k: int|
                0 <= k < tour@.len() && !(lo <= k <= hi) ==> tour@[k] == reversed_segment(
                    old(tour)@,
                    i as int,
                    j as int,
                )[k],
            forall|k: int| lo <= k <= hi ==> tour@[k] == old(tour)@[k],
        decreases hi + 1 - lo,
    {
        let front: usize = tour[lo];
        let back: usize = tour[hi];
        tour.set(lo, back);
        tour.set(hi, front);
        lo += 1;
        hi -= 1;
    }
    assert(tour@ =~= reversed_segment(old(tour)@, i as int, j as int));
    proof {
        lemma_reversal_keeps_cities(old(tour)@, i as int, j as int);
        assert forall|n: nat| is_permutation(old(tour)@, n) implies is_permutation(tour@, n) by {
            lemma_rearranged_permutation(old(tour)@, tour@, n);
        }
    }
}

/// The tour that visits the cities in the order of their numbers.
pub fn identity_tour(n: usize) -> (tour: Vec<usize>)
    ensures
        tour@ == Seq::new(n as nat, |k: int| k as usize),
        is_permutation(tour@, n as nat),
{
    let mut tour: Vec<usize> = Vec::new();
    let mut k: usize = 0;
    while k < n
        invariant
            k <= n,
            tour@ == Seq::new(k as nat, |p: int| p as usize),
        decreases n - k,
    {
        tour.push(k);
        k += 1;
        assert(tour@ =~= Seq::new(k as nat, |p: int| p as usize));
    }
    tour
}


/// What an exchange saves lies well inside the range of an `i64`.
pub proof fn lemma_exchange_gain_bound(tour: Seq<usize>, cities: Seq<City>, i: int, j: int)
    ensures
        -0x4_0000_0000 < exchange_gain(tour, cities, i, j) < 0x4_0000_0000,
{
    let a = cities[tour[i - 1] as int];
    let b = cities[tour[i] as int];
    let c = cities[tour[j] as int];
    let d = cities[tour[next_position(j, tour.len() as int)] as int];
    lemma_distance_bound(a, b);
    lemma_distance_bound(c, d);
    lemma_distance_bound(a, c);
    lemma_distance_bound(b, d);
}


/// Tells whether every entry of `tour` names one of `n` cities.
pub fn has_cities_within(tour: &[usize], n: usize) -> (within: bool)
    ensures
        within == visits_within(tour@, n as nat),
{
    let mut k: usize = 0;
    while k < tour.len()
        invariant
            k <= tour@.len(),
            forall|q: int| 0 <= q < k ==> #[trigger] tour@[q] < n,
        decreases tour@.len() - k,
    {
        if tour[k] >= n {
            return false;
        }
        k += 1;
    }
    true
}

/// Tells whether `tour` visits each of `n` cities exactly once.
pub fn is_valid_tour(tour: &[usize], n: usize) -> (valid: bool)
    ensures
        valid == is_permutation(tour@, n as nat),
{
    if tour.len() != n {
        return false;
    }
    let mut seen: Vec<bool> = Vec::new();
    let mut c: usize = 0;
    while c < n
        invariant
            c <= n,
            seen@.len() == c,
            forall|q: int| 0 <= q < c ==> !seen@[q],
        decreases n - c,
    {
        seen.push(false);
        c += 1;
    }
    let mut k: usize = 0;
    while k < n
        invariant
            k <= n,
            n == tour@.len(),
            seen@.len() == n,
            forall|q: int| 0 <= q < k ==> #[trigger] tour@[q] < n,
            forall|a: int, b: int| 0 <= a < b < k ==> tour@[a] != tour@[b],
            forall|c: int|
                0 <= c < n ==> (#[trigger] seen@[c] <==> exists|q: int|
                    0 <= q < k && #[trigger] tour@[q] == c),
        decreases n - k,
    {
        let city: usize = tour[k];
        if city >= n {
            return false;
        }
        if seen[city] {
            proof {
                let q = choose|q: int| 0 <= q < k && #[trigger] tour@[q] == city;
                assert(tour@[q] == tour@[k as int]);
            }
            return false;
        }
        let ghost flags = seen@;
        seen.set(city, true);
        proof {
            assert forall|a: int, b: int| 0 <= a < b < k + 1 implies tour@[a] != tour@[b] by {
                if b == k && tour@[a] == city {
                    assert(flags[city as int]);
                }
            }
            assert forall|c: int| 0 <= c < n implies (#[trigger] seen@[c] <==> exists|q: int|
                0 <= q < k + 1 && #[trigger] tour@[q] == c) by {
                if c == city {
                    assert(tour@[k as int] == c);
                } else {
                    assert(seen@[c] == flags[c]);
                    if flags[c] {
                        let q = choose|q: int| 0 <= q < k && #[trigger] tour@[q] == c;
                        assert(0 <= q < k + 1 && tour@[q] == c);
                    }
                }
            }
        }
        k += 1;
    }
    true
}

} // verus!
