//! Seed tours for a search: a random permutation, a greedy walk to the
//! nearest city not yet visited, and a greedy insertion of each city where
//! it costs least.

use crate::geometry::{distance, euclidean_distance, City};
use crate::random::{shuffle_entries, thread_generator};
use crate::tour::{
    identity_tour, is_permutation, lemma_cities_set_len, lemma_rearranged_permutation,
    visits_within,
};
use rand::rngs::ThreadRng;
use vstd::prelude::*;

verus! {

/// How the workers of a multi-restart search build their seed tours.
#[derive(Clone, Copy, Debug, PartialEq, Eq, Structural)]
pub enum SeedingPolicy {
    /// Every worker starts from a random permutation.
    Random,
    /// Every worker flips a coin between a random permutation and a walk
    /// to the nearest city from a random start.
    NearestNeighbor,
    /// Every worker flips a coin between a random permutation and the
    /// cheapest insertion of the cities in a random order.
    CheapestInsertion,
}

/// Shuffles a tour in place.
pub fn shuffle_tour(tour: &mut Vec<usize>)
    ensures
        final(tour)@.len() == old(tour)@.len(),
        final(tour)@.to_multiset() == old(tour)@.to_multiset(),
        forall|n: nat| is_permutation(old(tour)@, n) ==> is_permutation(final(tour)@, n),
{
    let mut rng: ThreadRng = thread_generator();
    shuffle_with(tour, &mut rng);
}

/// Shuffles a tour in place with draws from `rng`.
pub(crate) fn shuffle_with(tour: &mut Vec<usize>, rng: &mut ThreadRng)
    ensures
        final(tour)@.len() == old(tour)@.len(),
        final(tour)@.to_multiset() == old(tour)@.to_multiset(),
        forall|n: nat| is_permutation(old(tour)@, n) ==> is_permutation(final(tour)@, n),
{
    shuffle_entries(rng, tour);
    proof {
        vstd::seq_lib::to_multiset_len(tour@);
        vstd::seq_lib::to_multiset_len(old(tour)@);
        assert forall|n: nat| is_permutation(old(tour)@, n) implies is_permutation(tour@, n) by {
            lemma_rearranged_permutation(old(tour)@, tour@, n);
        }
    }
}

/// A random tour of `n` cities.
pub(crate) fn random_tour(n: usize, rng: &mut ThreadRng) -> (tour: Vec<usize>)
    ensures
        is_permutation(tour@, n as nat),
{
    let mut tour: Vec<usize> = identity_tour(n);
    shuffle_with(&mut tour, rng);
    tour
}

/// A route of fewer than `n` different cities leaves one of the `n` out.
pub proof fn lemma_some_city_left(route: Seq<usize>, n: nat)
    requires
        route.no_duplicates(),
        route.len() < n <= usize::MAX + 1,
    ensures
        exists|city: usize| city < n && !route.contains(city),
{
    broadcast use vstd::set::group_set_axioms;

    if forall|city: usize| city < n ==> route.contains(city) {
        let all = Set::new(|c: usize| c < n);
        lemma_cities_set_len(n);
        route.unique_seq_to_set();
        assert(all.subset_of(route.to_set()));
        vstd::set_lib::lemma_len_subset(all, route.to_set());
    }
}

/// Position `k` of `route` holds the nearest city that the route has not
/// visited before, and of several equally near the one with the smallest
/// number.
pub open spec fn is_nearest_unvisited(route: Seq<usize>, cities: Seq<City>, k: int) -> bool {
    forall|city: usize|
        city < cities.len() && !route.subrange(0, k).contains(city) ==> {
            let from = cities[route[k - 1] as int];
            &&& distance(from, cities[route[k] as int]) <= distance(from, #[trigger] cities[city as int])
            &&& city < route[k] ==> distance(from, cities[route[k] as int]) < distance(
                from,
                cities[city as int],
            )
        }
}

/// `route` is the walk from `start` that goes to the nearest unvisited
/// city at every step.
pub open spec fn is_nearest_neighbor_walk(route: Seq<usize>, cities: Seq<City>, start: usize) -> bool {
    &&& is_permutation(route, cities.len())
    &&& route[0] == start
    &&& forall|k: int| 1 <= k < route.len() ==> is_nearest_unvisited(route, cities, k)
}

/// The walk over all of `cities` that starts at `start` and goes to the
/// nearest unvisited city at every step.
pub fn nearest_neighbor_tour(start: usize, cities: &[City]) -> (route: Vec<usize>)
    requires
        start < cities@.len(),
    ensures
        is_nearest_neighbor_walk(route@, cities@, start),
{
    let n: usize = cities.len();
    let mut visited: Vec<bool> = Vec::new();
    let mut c: usize = 0;
    while c < n
        invariant
            c <= n,
            visited@.len() == c,
            forall|q: int| 0 <= q < c ==> !visited@[q],
        decreases n - c,
    {
        visited.push(false);
        c += 1;
    }
    let mut route: Vec<usize> = Vec::new();
    route.push(start);
    visited.set(start, true);
    let mut prev: usize = start;
    assert(route@ =~= seq![start]);
    assert forall|q: int| 0 <= q < n implies (#[trigger] visited@[q] <==> route@.contains(
        q as usize,
    )) by {
        if q == start {
            assert(route@[0] == start);
        }
    }
    while route.len() < n
        invariant
            n == cities@.len(),
            1 <= route@.len() <= n,
            visited@.len() == n,
            route@[0] == start,
            prev == route@[route@.len() - 1],
            visits_within(route@, n as nat),
            route@.no_duplicates(),
            forall|q: int| 0 <= q < n ==> (#[trigger] visited@[q] <==> route@.contains(q as usize)),
            forall|k: int| 1 <= k < route@.len() ==> is_nearest_unvisited(route@, cities@, k),
        decreases n - route@.len(),
    {
        let mut nearest: Option<usize> = None;
        let mut nearest_d: u64 = 0;
        let mut city: usize = 0;
        while city < n
            invariant
                city <= n,
                n == cities@.len(),
                prev < n,
                visited@.len() == n,
                match nearest {
                    None => forall|q: int| 0 <= q < city ==> visited@[q],
                    Some(pick) => {
                        &&& pick < city
                        &&& !visited@[pick as int]
                        &&& nearest_d == distance(cities@[prev as int], cities@[pick as int])
                        &&& forall|q: int|
                            0 <= q < city && !visited@[q] ==> {
                                &&& nearest_d <= distance(
                                    cities@[prev as int],
                                    #[trigger] cities@[q],
                                )
                                &&& q < pick ==> nearest_d < distance(
                                    cities@[prev as int],
                                    cities@[q],
                                )
                            }
                    },
                },
            decreases n - city,
        {
            if !visited[city] {
                let d: u64 = euclidean_distance(&cities[prev], &cities[city]);
                match nearest {
                    None => {
                        nearest = Some(city);
                        nearest_d = d;
                    },
                    Some(_) => {
                        if d < nearest_d {
                            nearest = Some(city);
                            nearest_d = d;
                        }
                    },
                }
            }
            city += 1;
        }
        proof {
            lemma_some_city_left(route@, n as nat);
            let left = choose|left: usize| left < n && !route@.contains(left);
            assert(!visited@[left as int]);
        }
        match nearest {
            None => {
                // A city is left, so the scan has found one.
                assert(false);
            },
            Some(pick) => {
                let ghost before = route@;
                let ghost flags = visited@;
                route.push(pick);
                visited.set(pick, true);
                prev = pick;
                proof {
                    let k = before.len() as int;
                    assert(route@.subrange(0, k) =~= before);
                    assert(!before.contains(pick));
                    assert(route@.no_duplicates()) by {
                        assert forall|a: int, b: int| 0 <= a < b < route@.len() implies route@[a]
                            != route@[b] by {
                            if b == k {
                                assert(before[a] == route@[a]);
                                assert(before.contains(before[a]));
                            } else {
                                assert(before[a] == route@[a] && before[b] == route@[b]);
                            }
                        }
                    }
                    assert forall|q: int| 0 <= q < n implies (#[trigger] visited@[q]
                        <==> route@.contains(q as usize)) by {
                        if q == pick {
                            assert(route@[k] == pick);
                        } else {
                            assert(visited@[q] == flags[q]);
                            if before.contains(q as usize) {
                                let at = choose|at: int|
                                    0 <= at < before.len() && before[at] == q as usize;
                                assert(route@[at] == q as usize);
                            }
                            if route@.contains(q as usize) {
                                let at = choose|at: int|
                                    0 <= at < route@.len() && route@[at] == q as usize;
                                assert(before[at] == q as usize);
                            }
                        }
                    }
                    assert forall|j: int| 1 <= j < route@.len() implies is_nearest_unvisited(
                        route@,
                        cities@,
                        j,
                    ) by {
                        if j < k {
                            assert(is_nearest_unvisited(before, cities@, j));
                            assert(route@.subrange(0, j) =~= before.subrange(0, j));
                            assert(route@[j - 1] == before[j - 1] && route@[j] == before[j]);
                        } else {
                            assert forall|other: usize|
                                other < cities@.len() && !route@.subrange(0, j).contains(
                                    other,
                                ) implies {
                                let from = cities@[route@[j - 1] as int];
                                &&& distance(from, cities@[route@[j] as int]) <= distance(
                                    from,
                                    #[trigger] cities@[other as int],
                                )
                                &&& other < route@[j] ==> distance(from, cities@[route@[j] as int])
                                    < distance(from, cities@[other as int])
                            } by {
                                assert(!flags[other as int]);
                            }
                        }
                    }
                }
            },
        }
    }
    route
}


/// What it adds to the length of the open route to put `city` in at
/// position `pos`.
pub open spec fn insertion_cost(route: Seq<usize>, cities: Seq<City>, city: usize, pos: int) -> int {
    if route.len() == 0 {
        0
    } else if pos <= 0 {
        distance(cities[city as int], cities[route[0] as int]) as int
    } else if pos >= route.len() {
        distance(cities[route[route.len() - 1] as int], cities[city as int]) as int
    } else {
        distance(cities[route[pos - 1] as int], cities[city as int]) + distance(
            cities[city as int],
            cities[route[pos] as int],
        ) - distance(cities[route[pos - 1] as int], cities[route[pos] as int])
    }
}

/// `pos` is where `city` goes into `route` at the least cost, and of
/// several such positions the first.
pub open spec fn is_cheapest_position(
    route: Seq<usize>,
    cities: Seq<City>,
    city: usize,
    pos: int,
) -> bool {
    &&& 0 <= pos <= route.len()
    &&& forall|q: int|
        0 <= q <= route.len() ==> {
            &&& insertion_cost(route, cities, city, pos) <= #[trigger] insertion_cost(
                route,
                cities,
                city,
                q,
            )
            &&& q < pos ==> insertion_cost(route, cities, city, pos) < insertion_cost(
                route,
                cities,
                city,
                q,
            )
        }
}

/// Where `city` goes into `route` at the least cost.
pub open spec fn cheapest_position(route: Seq<usize>, cities: Seq<City>, city: usize) -> int {
    choose|pos: int| is_cheapest_position(route, cities, city, pos)
}

/// The route built from the first `seeds` entries of `order` by putting in
/// each further entry, up to entry `upto`, where it costs least.
pub open spec fn with_insertions(order: Seq<usize>, seeds: int, cities: Seq<City>, upto: int) -> Seq<
    usize,
>
    decreases upto,
{
    if upto <= seeds || upto <= 0 {
        order.subrange(0, seeds)
    } else {
        let route = with_insertions(order, seeds, cities, upto - 1);
        route.insert(cheapest_position(route, cities, order[upto - 1]), order[upto - 1])
    }
}

/// Only one position is the cheapest.
pub proof fn lemma_cheapest_position_unique(
    route: Seq<usize>,
    cities: Seq<City>,
    city: usize,
    first: int,
    second: int,
)
    requires
        is_cheapest_position(route, cities, city, first),
        is_cheapest_position(route, cities, city, second),
    ensures
        first == second,
{
    if first < second {
        assert(insertion_cost(route, cities, city, second) < insertion_cost(
            route,
            cities,
            city,
            first,
        ));
    } else if second < first {
        assert(insertion_cost(route, cities, city, first) < insertion_cost(
            route,
            cities,
            city,
            second,
        ));
    }
}

/// Finds where `city` goes into `route` at the least cost.
pub fn find_cheapest_position(route: &Vec<usize>, cities: &[City], city: usize) -> (pos: usize)
    requires
        visits_within(route@, cities@.len()),
        city < cities@.len(),
    ensures
        is_cheapest_position(route@, cities@, city, pos as int),
        pos == cheapest_position(route@, cities@, city),
{
    let len: usize = route.len();
    if len == 0 {
        proof {
            assert(is_cheapest_position(route@, cities@, city, 0));
            lemma_cheapest_position_unique(
                route@,
                cities@,
                city,
                0,
                cheapest_position(route@, cities@, city),
            );
        }
        return 0;
    }
    let mut best: usize = 0;
    let mut lowest: i64 = euclidean_distance(&cities[city], &cities[route[0]]) as i64;
    let mut q: usize = 1;
    while q < len
        invariant
            1 <= q <= len,
            len == route@.len(),
            visits_within(route@, cities@.len()),
            city < cities@.len(),
            best < q,
            lowest == insertion_cost(route@, cities@, city, best as int),
            forall|r: int|
                0 <= r < q ==> {
                    &&& lowest <= #[trigger] insertion_cost(route@, cities@, city, r)
                    &&& r < best ==> lowest < insertion_cost(route@, cities@, city, r)
                },
        decreases len - q,
    {
        let before: &City = &cities[route[q - 1]];
        let after: &City = &cities[route[q]];
        let there: &City = &cities[city];
        let cost: i64 = euclidean_distance(before, there) as i64 + euclidean_distance(
            there,
            after,
        ) as i64 - euclidean_distance(before, after) as i64;
        if cost < lowest {
            lowest = cost;
            best = q;
        }
        q += 1;
    }
    let at_end: i64 = euclidean_distance(&cities[route[len - 1]], &cities[city]) as i64;
    if at_end < lowest {
        lowest = at_end;
        best = len;
    }
    proof {
        assert(is_cheapest_position(route@, cities@, city, best as int));
        lemma_cheapest_position_unique(
            route@,
            cities@,
            city,
            best as int,
            cheapest_position(route@, cities@, city),
        );
    }
    best
}

/// Putting cities in one by one keeps the cities of the order.
pub proof fn lemma_insertions_keep_cities(
    order: Seq<usize>,
    seeds: int,
    cities: Seq<City>,
    upto: int,
    route: Seq<usize>,
)
    requires
        0 <= seeds <= upto <= order.len(),
        route.to_multiset() == order.subrange(0, upto).to_multiset(),
        0 <= upto < order.len(),
    ensures
        forall|pos: int|
            0 <= pos <= route.len() ==> (#[trigger] route.insert(pos, order[upto])).to_multiset()
                == order.subrange(0, upto + 1).to_multiset(),
{
    assert forall|pos: int| 0 <= pos <= route.len() implies (#[trigger] route.insert(
        pos,
        order[upto],
    )).to_multiset() == order.subrange(0, upto + 1).to_multiset() by {
        vstd::seq_lib::to_multiset_insert(route, pos, order[upto]);
        assert(order.subrange(0, upto + 1) =~= order.subrange(0, upto).push(order[upto]));
        vstd::seq_lib::to_multiset_build(order.subrange(0, upto), order[upto]);
    }
}

/// Builds a route from the first `seeds` entries of `order` and puts each
/// further entry in where it adds least to the length of the route.
pub fn cheapest_insertion_tour(order: &[usize], seeds: usize, cities: &[City]) -> (route: Vec<usize>)
    requires
        visits_within(order@, cities@.len()),
        seeds <= order@.len(),
    ensures
        route@ == with_insertions(order@, seeds as int, cities@, order@.len() as int),
        route@.len() == order@.len(),
        route@.to_multiset() == order@.to_multiset(),
        is_permutation(order@, cities@.len()) ==> is_permutation(route@, cities@.len()),
{
    let mut route: Vec<usize> = Vec::new();
    let mut k: usize = 0;
    while k < seeds
        invariant
            k <= seeds <= order@.len(),
            route@ == order@.subrange(0, k as int),
        decreases seeds - k,
    {
        route.push(order[k]);
        k += 1;
        assert(route@ =~= order@.subrange(0, k as int));
    }
    while k < order.len()
        invariant
            seeds <= k <= order@.len(),
            visits_within(order@, cities@.len()),
            route@ == with_insertions(order@, seeds as int, cities@, k as int),
            route@.len() == k,
            route@.to_multiset() == order@.subrange(0, k as int).to_multiset(),
        decreases order@.len() - k,
    {
        let city: usize = order[k];
        proof {
            crate::tour::lemma_rearranged_within(
                order@.subrange(0, k as int),
                route@,
                cities@.len(),
            );
            lemma_insertions_keep_cities(order@, seeds as int, cities@, k as int, route@);
        }
        let pos: usize = find_cheapest_position(&route, cities, city);
        route.insert(pos, city);
        k += 1;
    }
    proof {
        assert(order@.subrange(0, order@.len() as int) =~= order@);
        if is_permutation(order@, cities@.len()) {
            lemma_rearranged_permutation(order@, route@, cities@.len());
        }
    }
    route
}

/// A part in this many of the cities seeds a cheapest-insertion route.
pub const SEED_SHARE: usize = 100;

/// `route` is the seed tour that `policy` asks for when the coin, the
/// random order and the random start have come out as given: the random
/// order itself where the policy is random or the coin says so, and else
/// the walk to the nearest city from the start, or the cheapest insertion
/// of the cities in the random order.
pub open spec fn is_seed_from(
    route: Seq<usize>,
    policy: SeedingPolicy,
    coin: bool,
    order: Seq<usize>,
    start: usize,
    cities: Seq<City>,
) -> bool {
    match policy {
        SeedingPolicy::Random => route == order,
        SeedingPolicy::NearestNeighbor => if coin {
            route == order
        } else {
            is_nearest_neighbor_walk(route, cities, start)
        },
        SeedingPolicy::CheapestInsertion => if coin {
            route == order
        } else {
            route == with_insertions(
                order,
                cities.len() as int / SEED_SHARE as int,
                cities,
                order.len() as int,
            )
        },
    }
}

/// Builds the seed tour that `policy` asks for from a coin, a random order
/// of the cities and a random start.
pub fn build_seed(policy: SeedingPolicy, coin: bool, order: Vec<usize>, start: usize, cities: &[City]) -> (route:
    Vec<usize>)
    requires
        is_permutation(order@, cities@.len()),
        start < cities@.len(),
    ensures
        is_seed_from(route@, policy, coin, order@, start, cities@),
        is_permutation(route@, cities@.len()),
{
    match policy {
        SeedingPolicy::Random => order,
        SeedingPolicy::NearestNeighbor => {
            if coin {
                order
            } else {
                nearest_neighbor_tour(start, cities)
            }
        },
        SeedingPolicy::CheapestInsertion => {
            if coin {
                order
            } else {
                cheapest_insertion_tour(order.as_slice(), cities.len() / SEED_SHARE, cities)
            }
        },
    }
}

} // verus!
