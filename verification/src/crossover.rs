//! Order crossover: a child keeps a segment of its first parent where it
//! stands, and takes the other cities in the order of its second parent.

use crate::random::{random_below, thread_generator};
use crate::tour::{
    is_permutation, lemma_cities_set_len, lemma_permutation_fits, lemma_permutation_visits_all,
    lemma_rearranged_permutation, visits_within,
};
use rand::rngs::ThreadRng;
use vstd::prelude::*;
use vstd::seq_lib::lemma_multiset_commutative;

verus! {

/// The positions `start` to `end` of the first parent, both included.
pub open spec fn kept_segment(parent1: Seq<usize>, start: int, end: int) -> Seq<usize> {
    parent1.subrange(start, end + 1)
}

/// The test that a city is not in `segment`.
pub open spec fn outside_of(segment: Seq<usize>) -> spec_fn(usize) -> bool {
    |city: usize| !segment.contains(city)
}

/// The cities of the second parent that the kept segment leaves out, in the
/// order of the second parent.
pub open spec fn fill_order(parent1: Seq<usize>, parent2: Seq<usize>, start: int, end: int) -> Seq<
    usize,
> {
    parent2.filter(outside_of(kept_segment(parent1, start, end)))
}

/// The child of order crossover with the cut `[start, end]`: the segment of
/// the first parent at its own positions, and around it, from the first
/// position on, the other cities in the order of the second parent.
pub open spec fn crossover_child(parent1: Seq<usize>, parent2: Seq<usize>, start: int, end: int) -> Seq<
    usize,
> {
    let fill = fill_order(parent1, parent2, start, end);
    fill.subrange(0, start) + kept_segment(parent1, start, end) + fill.subrange(
        start,
        fill.len() as int,
    )
}

/// What passes a filter of a sequence without duplicates has none.
pub proof fn lemma_filter_keeps_distinct(s: Seq<usize>, pred: spec_fn(usize) -> bool)
    requires
        s.no_duplicates(),
    ensures
        s.filter(pred).no_duplicates(),
    decreases s.len(),
{
    reveal(Seq::filter);
    if s.len() > 0 {
        let rest = s.drop_last();
        lemma_filter_keeps_distinct(rest, pred);
        if pred(s.last()) {
            let kept = rest.filter(pred);
            assert forall|a: int, b: int| 0 <= a < b < kept.len() + 1 implies kept.push(s.last())[a]
                != kept.push(s.last())[b] by {
                if b == kept.len() {
                    if kept[a] == s.last() {
                        assert(kept.contains(s.last()));
                        rest.lemma_filter_contains_rev(pred, s.last());
                        let at = choose|at: int| 0 <= at < rest.len() && rest[at] == s.last();
                        assert(s[at] == s[s.len() - 1]);
                    }
                }
            }
        }
    }
}

/// The fill has as many cities as the segment leaves open, and segment and
/// fill together are a permutation.
pub proof fn lemma_fill_order(parent1: Seq<usize>, parent2: Seq<usize>, start: int, end: int)
    requires
        is_permutation(parent1, parent1.len()),
        is_permutation(parent2, parent1.len()),
        0 <= start <= end < parent1.len(),
    ensures
        fill_order(parent1, parent2, start, end).len() == parent1.len() - (end - start + 1),
        is_permutation(
            kept_segment(parent1, start, end) + fill_order(parent1, parent2, start, end),
            parent1.len(),
        ),
{
    broadcast use vstd::set::group_set_axioms;

    let n = parent1.len();
    let segment = kept_segment(parent1, start, end);
    let pred = outside_of(segment);
    let fill = fill_order(parent1, parent2, start, end);
    let both = segment + fill;
    lemma_filter_keeps_distinct(parent2, pred);
    assert(segment.no_duplicates()) by {
        assert forall|a: int, b: int| 0 <= a < b < segment.len() implies segment[a] != segment[b] by {
            assert(segment[a] == parent1[start + a]);
            assert(segment[b] == parent1[start + b]);
        }
    }
    assert forall|a: int, b: int| 0 <= a < segment.len() && 0 <= b < fill.len() implies segment[a]
        != fill[b] by {
        parent2.lemma_filter_pred(pred, b);
        assert(segment.contains(segment[a]));
    }
    vstd::seq_lib::lemma_no_dup_in_concat(segment, fill);
    assert(visits_within(both, n)) by {
        assert forall|k: int| 0 <= k < both.len() implies #[trigger] both[k] < n by {
            if k < segment.len() {
                assert(both[k] == parent1[start + k]);
            } else {
                let c = fill[k - segment.len()];
                assert(fill.contains(c));
                parent2.lemma_filter_contains_rev(pred, c);
                let at = choose|at: int| 0 <= at < parent2.len() && parent2[at] == c;
                assert(parent2[at] < n);
            }
        }
    }
    // Every city is in the segment or in the fill, so both together hold
    // as many as there are cities.
    let all = Set::new(|c: usize| c < n);
    lemma_permutation_fits(parent1, n);
    lemma_cities_set_len(n);
    both.unique_seq_to_set();
    assert(both.to_set() =~= all) by {
        assert forall|c: usize| all.contains(c) implies both.to_set().contains(c) by {
            if segment.contains(c) {
                let at = choose|at: int| 0 <= at < segment.len() && segment[at] == c;
                assert(both[at] == c);
            } else {
                lemma_permutation_visits_all(parent2, n, c);
                let at = choose|at: int| 0 <= at < parent2.len() && parent2[at] == c;
                assert(pred(parent2[at]));
                parent2.lemma_filter_contains(pred, at);
                let f = choose|f: int| 0 <= f < fill.len() && fill[f] == c;
                assert(both[segment.len() + f] == c);
            }
        }
        assert forall|c: usize| both.to_set().contains(c) implies all.contains(c) by {
            let at = choose|at: int| 0 <= at < both.len() && both[at] == c;
            assert(both[at] < n);
        }
    }
}

/// The child of order crossover is a permutation that holds the segment of
/// its first parent at the segment's own positions.
pub proof fn lemma_crossover_child(parent1: Seq<usize>, parent2: Seq<usize>, start: int, end: int)
    requires
        is_permutation(parent1, parent1.len()),
        is_permutation(parent2, parent1.len()),
        0 <= start <= end < parent1.len(),
    ensures
        is_permutation(crossover_child(parent1, parent2, start, end), parent1.len()),
        forall|k: int|
            start <= k <= end ==> crossover_child(parent1, parent2, start, end)[k] == parent1[k],
        crossover_child(parent1, parent2, start, end).subrange(start, end + 1)
            == parent1.subrange(start, end + 1),
{
    let segment = kept_segment(parent1, start, end);
    let fill = fill_order(parent1, parent2, start, end);
    let child = crossover_child(parent1, parent2, start, end);
    lemma_fill_order(parent1, parent2, start, end);
    let head = fill.subrange(0, start);
    let tail = fill.subrange(start, fill.len() as int);
    assert(fill =~= head + tail);
    lemma_multiset_commutative(head, segment);
    lemma_multiset_commutative(head + segment, tail);
    lemma_multiset_commutative(head, tail);
    lemma_multiset_commutative(segment, fill);
    assert(child.to_multiset() =~= (segment + fill).to_multiset());
    lemma_rearranged_permutation(segment + fill, child, parent1.len());
    assert forall|k: int| start <= k <= end implies child[k] == parent1[k] by {
        assert(child[k] == segment[k - start]);
    }
    assert(child.subrange(start, end + 1) =~= parent1.subrange(start, end + 1));
}

/// Order crossover of two parents with the cut `[start, end]`.
pub fn order_crossover_at(parent1: &[usize], parent2: &[usize], start: usize, end: usize) -> (child:
    Vec<usize>)
    requires
        is_permutation(parent1@, parent1@.len()),
        is_permutation(parent2@, parent1@.len()),
        start <= end < parent1@.len(),
    ensures
        child@ == crossover_child(parent1@, parent2@, start as int, end as int),
        is_permutation(child@, parent1@.len()),
        forall|k: int| start <= k <= end ==> child@[k] == parent1@[k],
{
    let n: usize = parent1.len();
    let ghost segment = kept_segment(parent1@, start as int, end as int);
    let ghost pred = outside_of(segment);
    let mut in_segment: Vec<bool> = Vec::new();
    let mut c: usize = 0;
    while c < n
        invariant
            c <= n,
            in_segment@.len() == c,
            forall|q: int| 0 <= q < c ==> !in_segment@[q],
        decreases n - c,
    {
        in_segment.push(false);
        c += 1;
    }
    let mut k: usize = start;
    while k <= end
        invariant
            start <= k <= end + 1,
            end < n,
            n == parent1@.len(),
            is_permutation(parent1@, n as nat),
            in_segment@.len() == n,
            forall|q: int|
                0 <= q < n ==> (#[trigger] in_segment@[q] <==> parent1@.subrange(
                    start as int,
                    k as int,
                ).contains(q as usize)),
        decreases end + 1 - k,
    {
        let city: usize = parent1[k];
        let ghost before = parent1@.subrange(start as int, k as int);
        let ghost flags = in_segment@;
        in_segment.set(city, true);
        k += 1;
        proof {
            let now = parent1@.subrange(start as int, k as int);
            assert(now =~= before.push(city));
            assert forall|q: int| 0 <= q < n implies (#[trigger] in_segment@[q] <==> now.contains(
                q as usize,
            )) by {
                if q == city {
                    assert(now[now.len() - 1] == city);
                } else {
                    assert(in_segment@[q] == flags[q]);
                    if before.contains(q as usize) {
                        let at = choose|at: int| 0 <= at < before.len() && before[at] == q as usize;
                        assert(now[at] == q as usize);
                    }
                    if now.contains(q as usize) {
                        let at = choose|at: int| 0 <= at < now.len() && now[at] == q as usize;
                        assert(at < before.len());
                        assert(before[at] == q as usize);
                    }
                }
            }
        }
    }
    assert(parent1@.subrange(start as int, k as int) == segment);
    let mut fill: Vec<usize> = Vec::new();
    let mut p: usize = 0;
    proof {
        reveal(Seq::filter);
        assert(parent2@.subrange(0, 0).filter(pred) =~= fill@);
    }
    while p < n
        invariant
            p <= n,
            n == parent2@.len(),
            is_permutation(parent2@, n as nat),
            in_segment@.len() == n,
            forall|q: int|
                0 <= q < n ==> (#[trigger] in_segment@[q] <==> segment.contains(q as usize)),
            pred == outside_of(segment),
            fill@ == parent2@.subrange(0, p as int).filter(pred),
        decreases n - p,
    {
        let city: usize = parent2[p];
        proof {
            let before = parent2@.subrange(0, p as int);
            assert(parent2@.subrange(0, p + 1) =~= before.push(city));
            before.lemma_filter_push(city, pred);
            assert(in_segment@[city as int] <==> segment.contains(city));
        }
        if !in_segment[city] {
            fill.push(city);
        }
        p += 1;
    }
    proof {
        assert(parent2@.subrange(0, n as int) =~= parent2@);
        lemma_fill_order(parent1@, parent2@, start as int, end as int);
        lemma_crossover_child(parent1@, parent2@, start as int, end as int);
    }
    let mut child: Vec<usize> = Vec::new();
    let mut a: usize = 0;
    while a < start
        invariant
            a <= start <= fill@.len(),
            child@ == fill@.subrange(0, a as int),
        decreases start - a,
    {
        child.push(fill[a]);
        a += 1;
        assert(child@ =~= fill@.subrange(0, a as int));
    }
    let mut b: usize = start;
    while b <= end
        invariant
            start <= b <= end + 1,
            end < parent1@.len(),
            child@ == fill@.subrange(0, start as int) + parent1@.subrange(start as int, b as int),
        decreases end + 1 - b,
    {
        child.push(parent1[b]);
        b += 1;
        assert(child@ =~= fill@.subrange(0, start as int) + parent1@.subrange(
            start as int,
            b as int,
        ));
    }
    let mut f: usize = start;
    while f < fill.len()
        invariant
            start <= f <= fill@.len(),
            child@ == fill@.subrange(0, start as int) + segment + fill@.subrange(
                start as int,
                f as int,
            ),
        decreases fill@.len() - f,
    {
        child.push(fill[f]);
        f += 1;
        assert(child@ =~= fill@.subrange(0, start as int) + segment + fill@.subrange(
            start as int,
            f as int,
        ));
    }
    child
}

/// Order crossover of two parents with a cut drawn at random: two positions
/// are drawn, and the smaller is where the kept segment starts.
pub fn order_crossover(parent1: &[usize], parent2: &[usize]) -> (child: Vec<usize>)
    requires
        is_permutation(parent1@, parent1@.len()),
        is_permutation(parent2@, parent1@.len()),
    ensures
        is_permutation(child@, parent1@.len()),
        parent1@.len() > 0 ==> exists|start: int, end: int|
            0 <= start <= end < parent1@.len() && child@ == crossover_child(
                parent1@,
                parent2@,
                start,
                end,
            ),
{
    let mut rng: ThreadRng = thread_generator();
    order_crossover_with(parent1, parent2, &mut rng)
}

/// Order crossover with a cut drawn from `rng`.
pub(crate) fn order_crossover_with(parent1: &[usize], parent2: &[usize], rng: &mut ThreadRng) -> (child:
    Vec<usize>)
    requires
        is_permutation(parent1@, parent1@.len()),
        is_permutation(parent2@, parent1@.len()),
    ensures
        is_permutation(child@, parent1@.len()),
        parent1@.len() > 0 ==> exists|start: int, end: int|
            0 <= start <= end < parent1@.len() && child@ == crossover_child(
                parent1@,
                parent2@,
                start,
                end,
            ),
{
    let n: usize = parent1.len();
    if n == 0 {
        return Vec::new();
    }
    let first: usize = random_below(rng, n);
    let second: usize = random_below(rng, n);
    let (start, end): (usize, usize) = if first <= second {
        (first, second)
    } else {
        (second, first)
    };
    order_crossover_at(parent1, parent2, start, end)
}

} // verus!
