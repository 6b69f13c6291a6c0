//! Random cities to search on.

use crate::geometry::City;
use crate::random::{random_below, seeded_below, seeded_generator, thread_generator};
use rand::rngs::{StdRng, ThreadRng};
use vstd::prelude::*;

verus! {

/// The side of the square that seeded cities are drawn in: a thousand
/// units of a thousand grid steps.
pub const FIELD_SIDE: usize = 1_000_000;

/// The side of the square that unseeded cities are drawn in: a hundred
/// units of a thousand grid steps.
pub const SMALL_FIELD_SIDE: usize = 100_000;

/// Every city lies in the square from 0 up to, not including, `side`.
pub open spec fn lie_within(cities: Seq<City>, side: int) -> bool {
    forall|k: int|
        0 <= k < cities.len() ==> 0 <= (#[trigger] cities[k]).x < side && 0 <= cities[k].y < side
}

/// Draws `n` cities in the square of side `FIELD_SIDE` from a generator
/// made of `seed`.
pub fn generate_cities(n: usize, seed: u64) -> (cities: Vec<City>)
    ensures
        cities@.len() == n,
        lie_within(cities@, FIELD_SIDE as int),
{
    let mut rng: StdRng = seeded_generator(seed);
    let mut cities: Vec<City> = Vec::new();
    let mut k: usize = 0;
    while k < n
        invariant
            k <= n,
            cities@.len() == k,
            lie_within(cities@, FIELD_SIDE as int),
        decreases n - k,
    {
        let x: usize = seeded_below(&mut rng, FIELD_SIDE);
        let y: usize = seeded_below(&mut rng, FIELD_SIDE);
        cities.push(City { x: x as i32, y: y as i32 });
        k += 1;
    }
    cities
}

/// Draws `n` cities in the square of side `SMALL_FIELD_SIDE` from the
/// generator of the calling thread.
pub fn generate_random_cities(n: usize) -> (cities: Vec<City>)
    ensures
        cities@.len() == n,
        lie_within(cities@, SMALL_FIELD_SIDE as int),
{
    let mut rng: ThreadRng = thread_generator();
    let mut cities: Vec<City> = Vec::new();
    let mut k: usize = 0;
    while k < n
        invariant
            k <= n,
            cities@.len() == k,
            lie_within(cities@, SMALL_FIELD_SIDE as int),
        decreases n - k,
    {
        let x: usize = random_below(&mut rng, SMALL_FIELD_SIDE);
        let y: usize = random_below(&mut rng, SMALL_FIELD_SIDE);
        cities.push(City { x: x as i32, y: y as i32 });
        k += 1;
    }
    cities
}

} // verus!
