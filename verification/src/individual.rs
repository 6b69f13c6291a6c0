//! An individual of the population: a tour with the cost it was measured
//! at. The shorter the tour, the fitter the individual.

use crate::geometry::City;
use crate::tour::{compute_total_distance, is_permutation, total_distance, visits_within};
use vstd::prelude::*;

verus! {

/// A tour and its cost.
#[derive(Clone, Debug)]
pub struct Individual {
    pub tour: Vec<usize>,
    /// The cost of `tour`, as measured when the individual was made.
    pub length: u128,
}

impl Individual {
    /// The individual is a tour of all of `cities`, and holds what that
    /// tour costs.
    pub open spec fn describes(&self, cities: Seq<City>) -> bool {
        &&& is_permutation(self.tour@, cities.len())
        &&& self.length == total_distance(self.tour@, cities)
    }

    /// Measures `tour` and makes an individual of it.
    pub fn new(tour: Vec<usize>, cities: &[City]) -> (made: Individual)
        requires
            visits_within(tour@, cities@.len()),
        ensures
            made.tour@ == tour@,
            made.length == total_distance(tour@, cities@),
            is_permutation(tour@, cities@.len()) ==> made.describes(cities@),
    {
        let length: u128 = compute_total_distance(tour.as_slice(), cities);
        Individual { tour, length }
    }

    /// The cost of the tour.
    pub fn distance(&self) -> (d: u128)
        ensures
            d == self.length,
    {
        self.length
    }

    /// Tells whether this individual is at least as fit as `other`: its
    /// tour is no longer.
    pub fn is_as_fit_as(&self, other: &Individual) -> (fit: bool)
        ensures
            fit == (self.length <= other.length),
    {
        self.length <= other.length
    }

    /// A copy of the individual.
    pub fn duplicate(&self) -> (copy: Individual)
        ensures
            copy.tour@ == self.tour@,
            copy.length == self.length,
    {
        let tour: Vec<usize> = self.tour.clone();
        assert(tour@ =~= self.tour@);
        Individual { tour, length: self.length }
    }
}

} // verus!
