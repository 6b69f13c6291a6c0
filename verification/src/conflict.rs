//! Exchanges that can be made together: which candidates share a position
//! at the ends of their legs, the greedy choice of candidates that share
//! none, and the application of a choice to a tour.

use crate::tour::{
    is_exchange, lemma_reversal_keeps_cities, next_position, reverse_segment, reversed_segment,
};
use vstd::prelude::*;

verus! {

/// A proposed exchange of the legs into position `i` and out of position
/// `j`, with what it saves.
#[derive(Clone, Copy, Debug, PartialEq, Eq, Structural)]
pub struct CandidateSwap {
    pub i: usize,
    pub j: usize,
    pub delta: i64,
}

/// `c` is an exchange on a tour of `len` positions.
pub open spec fn is_placed(c: CandidateSwap, len: int) -> bool {
    is_exchange(len, c.i as int, c.j as int)
}

/// `p` is one of the four positions at the ends of the two legs that `c`
/// exchanges.
pub open spec fn touches(c: CandidateSwap, len: int, p: int) -> bool {
    p == c.i - 1 || p == c.i || p == c.j || p == next_position(c.j as int, len)
}

/// Two candidates share a position at the ends of their legs.
pub open spec fn in_conflict(a: CandidateSwap, b: CandidateSwap, len: int) -> bool {
    exists|p: int| touches(a, len, p) && #[trigger] touches(b, len, p)
}

/// No two candidates of `chosen` share a position.
pub open spec fn is_conflict_free(chosen: Seq<CandidateSwap>, len: int) -> bool {
    forall|a: int, b: int|
        0 <= a < b < chosen.len() ==> !in_conflict(#[trigger] chosen[a], #[trigger] chosen[b], len)
}

/// Some candidate of `chosen` shares a position with `c`.
pub open spec fn is_blocked(c: CandidateSwap, chosen: Seq<CandidateSwap>, len: int) -> bool {
    exists|k: int| 0 <= k < chosen.len() && in_conflict(#[trigger] chosen[k], c, len)
}

/// The greedy choice among the first `upto` candidates of `ranked`: each in
/// turn is taken unless `limit` candidates are taken already or one that was
/// taken shares a position with it.
pub open spec fn greedy_selection(
    ranked: Seq<CandidateSwap>,
    len: int,
    limit: nat,
    upto: int,
) -> Seq<CandidateSwap>
    decreases upto,
{
    if upto <= 0 {
        Seq::empty()
    } else {
        let chosen = greedy_selection(ranked, len, limit, upto - 1);
        let c = ranked[upto - 1];
        if chosen.len() < limit && !is_blocked(c, chosen, len) {
            chosen.push(c)
        } else {
            chosen
        }
    }
}

/// `tour` after the first `upto` exchanges of `chosen`, made one after the
/// other.
pub open spec fn with_exchanges(tour: Seq<usize>, chosen: Seq<CandidateSwap>, upto: int) -> Seq<
    usize,
>
    decreases upto,
{
    if upto <= 0 {
        tour
    } else {
        reversed_segment(
            with_exchanges(tour, chosen, upto - 1),
            chosen[upto - 1].i as int,
            chosen[upto - 1].j as int,
        )
    }
}

/// The greedy choice takes candidates of the ranking only, and none that
/// share a position.
pub proof fn lemma_greedy_selection(ranked: Seq<CandidateSwap>, len: int, limit: nat, upto: int)
    requires
        0 <= upto <= ranked.len(),
    ensures
        is_conflict_free(greedy_selection(ranked, len, limit, upto), len),
        greedy_selection(ranked, len, limit, upto).len() <= limit,
        greedy_selection(ranked, len, limit, upto).len() <= upto,
        forall|k: int|
            0 <= k < greedy_selection(ranked, len, limit, upto).len() ==> ranked.contains(
                #[trigger] greedy_selection(ranked, len, limit, upto)[k],
            ),
    decreases upto,
{
    if upto > 0 {
        lemma_greedy_selection(ranked, len, limit, upto - 1);
        let chosen = greedy_selection(ranked, len, limit, upto - 1);
        let c = ranked[upto - 1];
        let next = greedy_selection(ranked, len, limit, upto);
        assert(ranked.contains(c));
        if chosen.len() < limit && !is_blocked(c, chosen, len) {
            assert forall|a: int, b: int| 0 <= a < b < next.len() implies !in_conflict(
                #[trigger] next[a],
                #[trigger] next[b],
                len,
            ) by {
                if b == chosen.len() {
                    assert(next[a] == chosen[a]);
                } else {
                    assert(next[a] == chosen[a]);
                    assert(next[b] == chosen[b]);
                }
            }
            assert forall|k: int| 0 <= k < next.len() implies ranked.contains(#[trigger] next[k]) by {
                if k < chosen.len() {
                    assert(next[k] == chosen[k]);
                }
            }
        }
    }
}

/// With room for one candidate at least, the greedy choice takes the first.
pub proof fn lemma_greedy_takes_first(ranked: Seq<CandidateSwap>, len: int, limit: nat, upto: int)
    requires
        1 <= upto <= ranked.len(),
        limit > 0,
    ensures
        greedy_selection(ranked, len, limit, upto).len() > 0,
    decreases upto,
{
    if upto == 1 {
        assert(greedy_selection(ranked, len, limit, 0).len() == 0);
        assert(!is_blocked(ranked[0], greedy_selection(ranked, len, limit, 0), len));
    } else {
        lemma_greedy_takes_first(ranked, len, limit, upto - 1);
    }
}

/// A candidate that the greedy choice passed over was passed over for a
/// reason: the limit was reached, or a candidate taken before it shares a
/// position with it.
pub proof fn lemma_greedy_is_maximal(
    ranked: Seq<CandidateSwap>,
    len: int,
    limit: nat,
    upto: int,
    k: int,
)
    requires
        0 <= k < upto <= ranked.len(),
    ensures
        greedy_selection(ranked, len, limit, upto).contains(ranked[k]) || greedy_selection(
            ranked,
            len,
            limit,
            upto,
        ).len() >= limit || is_blocked(ranked[k], greedy_selection(ranked, len, limit, upto), len),
    decreases upto,
{
    let chosen = greedy_selection(ranked, len, limit, upto - 1);
    let next = greedy_selection(ranked, len, limit, upto);
    let c = ranked[upto - 1];
    if k == upto - 1 {
        if chosen.len() < limit && !is_blocked(c, chosen, len) {
            assert(next[chosen.len() as int] == c);
        } else if chosen.len() < limit {
            assert(next == chosen);
        }
    } else {
        lemma_greedy_is_maximal(ranked, len, limit, upto - 1, k);
        if chosen.len() < limit && !is_blocked(c, chosen, len) {
            if chosen.contains(ranked[k]) {
                let at = choose|at: int| 0 <= at < chosen.len() && chosen[at] == ranked[k];
                assert(next[at] == ranked[k]);
            } else if is_blocked(ranked[k], chosen, len) {
                let at = choose|at: int|
                    0 <= at < chosen.len() && in_conflict(#[trigger] chosen[at], ranked[k], len);
                assert(next[at] == chosen[at]);
            }
        }
    }
}

/// Exchanges made one after the other keep the cities of the tour.
pub proof fn lemma_exchanges_keep_cities(tour: Seq<usize>, chosen: Seq<CandidateSwap>, upto: int)
    requires
        0 <= upto <= chosen.len(),
        forall|k: int| 0 <= k < chosen.len() ==> is_placed(#[trigger] chosen[k], tour.len() as int),
    ensures
        with_exchanges(tour, chosen, upto).len() == tour.len(),
        with_exchanges(tour, chosen, upto).to_multiset() == tour.to_multiset(),
    decreases upto,
{
    if upto > 0 {
        lemma_exchanges_keep_cities(tour, chosen, upto - 1);
        let c = chosen[upto - 1];
        assert(is_placed(c, tour.len() as int));
        lemma_reversal_keeps_cities(with_exchanges(tour, chosen, upto - 1), c.i as int, c.j as int);
    }
}

/// Chooses greedily among `ranked`, in its order, candidates that share no
/// position, `limit` of them at most.
pub fn select_conflict_free(ranked: &Vec<CandidateSwap>, len: usize, limit: usize) -> (chosen: Vec<
    CandidateSwap,
>)
    requires
        forall|k: int| 0 <= k < ranked@.len() ==> is_placed(#[trigger] ranked@[k], len as int),
    ensures
        chosen@ == greedy_selection(ranked@, len as int, limit as nat, ranked@.len() as int),
        is_conflict_free(chosen@, len as int),
        chosen@.len() <= limit,
        forall|k: int| 0 <= k < chosen@.len() ==> ranked@.contains(#[trigger] chosen@[k]),
        forall|k: int| 0 <= k < chosen@.len() ==> is_placed(#[trigger] chosen@[k], len as int),
{
    let mut used: Vec<bool> = Vec::new();
    let mut p: usize = 0;
    while p < len
        invariant
            p <= len,
            used@.len() == p,
            forall|q: int| 0 <= q < p ==> !used@[q],
        decreases len - p,
    {
        used.push(false);
        p += 1;
    }
    let mut chosen: Vec<CandidateSwap> = Vec::new();
    let mut k: usize = 0;
    while k < ranked.len()
        invariant
            k <= ranked@.len(),
            used@.len() == len,
            forall|q: int| 0 <= q < ranked@.len() ==> is_placed(#[trigger] ranked@[q], len as int),
            chosen@ == greedy_selection(ranked@, len as int, limit as nat, k as int),
            forall|q: int|
                0 <= q < len ==> (#[trigger] used@[q] <==> exists|s: int|
                    0 <= s < chosen@.len() && touches(#[trigger] chosen@[s], len as int, q)),
        decreases ranked@.len() - k,
    {
        let c: CandidateSwap = ranked[k];
        assert(is_placed(c, len as int));
        let after: usize = if c.j + 1 >= len {
            0
        } else {
            c.j + 1
        };
        let taken: bool = used[c.i - 1] || used[c.i] || used[c.j] || used[after];
        proof {
            if taken {
                let q: int = if used@[c.i - 1] {
                    c.i - 1
                } else if used@[c.i as int] {
                    c.i as int
                } else if used@[c.j as int] {
                    c.j as int
                } else {
                    after as int
                };
                assert(used@[q]);
                let s = choose|s: int|
                    0 <= s < chosen@.len() && touches(#[trigger] chosen@[s], len as int, q);
                assert(touches(c, len as int, q));
                assert(in_conflict(chosen@[s], c, len as int));
                assert(is_blocked(c, chosen@, len as int));
            } else {
                if is_blocked(c, chosen@, len as int) {
                    let s = choose|s: int|
                        0 <= s < chosen@.len() && in_conflict(#[trigger] chosen@[s], c, len as int);
                    let q = choose|q: int|
                        touches(chosen@[s], len as int, q) && #[trigger] touches(c, len as int, q);
                    assert(0 <= q < len);
                    assert(used@[q]);
                }
            }
        }
        if chosen.len() < limit && !taken {
            let ghost before = chosen@;
            let ghost used_before = used@;
            chosen.push(c);
            used.set(c.i - 1, true);
            used.set(c.i, true);
            used.set(c.j, true);
            used.set(after, true);
            proof {
                assert forall|q: int| 0 <= q < len implies (#[trigger] used@[q] <==> exists|s: int|
                    0 <= s < chosen@.len() && touches(#[trigger] chosen@[s], len as int, q)) by {
                    if touches(c, len as int, q) {
                        assert(chosen@[before.len() as int] == c);
                    } else {
                        assert(used@[q] == used_before[q]);
                        if used_before[q] {
                            let s = choose|s: int|
                                0 <= s < before.len() && touches(#[trigger] before[s], len as int, q);
                            assert(chosen@[s] == before[s]);
                        }
                        if exists|s: int|
                            0 <= s < chosen@.len() && touches(#[trigger] chosen@[s], len as int, q) {
                            let s = choose|s: int|
                                0 <= s < chosen@.len() && touches(
                                    #[trigger] chosen@[s],
                                    len as int,
                                    q,
                                );
                            assert(s < before.len());
                            assert(chosen@[s] == before[s]);
                        }
                    }
                }
            }
        }
        k += 1;
    }
    proof {
        lemma_greedy_selection(ranked@, len as int, limit as nat, ranked@.len() as int);
        assert forall|q: int| 0 <= q < chosen@.len() implies is_placed(
            #[trigger] chosen@[q],
            len as int,
        ) by {
            assert(ranked@.contains(chosen@[q]));
            let at = choose|at: int| 0 <= at < ranked@.len() && ranked@[at] == chosen@[q];
            assert(is_placed(ranked@[at], len as int));
        }
    }
    chosen
}

/// Makes the exchanges of `chosen` on `tour`, one after the other.
pub fn apply_exchanges(tour: &mut Vec<usize>, chosen: &Vec<CandidateSwap>)
    requires
        forall|k: int|
            0 <= k < chosen@.len() ==> is_placed(#[trigger] chosen@[k], old(tour)@.len() as int),
    ensures
        final(tour)@ == with_exchanges(old(tour)@, chosen@, chosen@.len() as int),
        final(tour)@.len() == old(tour)@.len(),
        final(tour)@.to_multiset() == old(tour)@.to_multiset(),
{
    let mut k: usize = 0;
    while k < chosen.len()
        invariant
            k <= chosen@.len(),
            tour@.len() == old(tour)@.len(),
            forall|q: int|
                0 <= q < chosen@.len() ==> is_placed(#[trigger] chosen@[q], old(tour)@.len() as int),
            tour@ == with_exchanges(old(tour)@, chosen@, k as int),
        decreases chosen@.len() - k,
    {
        let c: CandidateSwap = chosen[k];
        assert(is_placed(c, old(tour)@.len() as int));
        reverse_segment(tour, c.i, c.j);
        k += 1;
    }
    proof {
        lemma_exchanges_keep_cities(old(tour)@, chosen@, chosen@.len() as int);
    }
}

} // verus!
