//! Which edge servers may be handed to a client, and in what order.
//!
//! A server is a candidate when it is available, its load is within the
//! limit, and its distance from the client is known. The ranking lists the
//! candidates nearest first; where two are equally far, the one that stands
//! earlier in the pool comes first.

use vstd::prelude::*;
use std::collections::HashMap;
use crate::health::HealthState;
use crate::registry::{distinct_addresses, views, EdgeServer, EdgeView};

verus! {

broadcast use vstd::std_specs::hash::group_hash_axioms;

/// Whether the server at place `i` of the pool may be handed out.
pub open spec fn is_candidate(
    pool: Seq<EdgeView>,
    health: Seq<HealthState>,
    distances: Map<u32, u64>,
    i: int,
) -> bool {
    &&& 0 <= i < pool.len()
    &&& i < health.len()
    &&& health[i].eligible()
    &&& distances.contains_key(pool[i].address)
}

/// How far the server at place `i` is from the client.
pub open spec fn distance_at(pool: Seq<EdgeView>, distances: Map<u32, u64>, i: int) -> u64 {
    distances[pool[i].address]
}

/// The entry that the ranking holds for the server at place `i`.
pub open spec fn entry_at(pool: Seq<EdgeView>, distances: Map<u32, u64>, i: int) -> (u64, u32) {
    (distance_at(pool, distances, i), pool[i].address)
}

/// Whether the server at place `i` is a candidate than which none is nearer.
pub open spec fn is_nearest_candidate(
    pool: Seq<EdgeView>,
    health: Seq<HealthState>,
    distances: Map<u32, u64>,
    i: int,
) -> bool {
    &&& is_candidate(pool, health, distances, i)
    &&& forall|j: int| #[trigger]
        is_candidate(pool, health, distances, j) ==> distance_at(pool, distances, i) <= distance_at(
            pool,
            distances,
            j,
        )
}

/// Whether `entry` is the entry of some candidate.
pub open spec fn is_candidate_entry(
    entry: (u64, u32),
    pool: Seq<EdgeView>,
    health: Seq<HealthState>,
    distances: Map<u32, u64>,
) -> bool {
    exists|i: int| #[trigger] is_candidate(pool, health, distances, i) && entry == entry_at(pool, distances, i)
}

/// Whether place `i` comes before place `j`: it is nearer, or as far and
/// earlier in the pool.
pub open spec fn ranks_before(pool: Seq<EdgeView>, distances: Map<u32, u64>, i: int, j: int) -> bool {
    distance_at(pool, distances, i) < distance_at(pool, distances, j) || (distance_at(
        pool,
        distances,
        i,
    ) == distance_at(pool, distances, j) && i < j)
}

/// `places` lists exactly the candidates among the first `upto` places of the
/// pool, each before all that it ranks before.
pub open spec fn is_order(
    places: Seq<int>,
    pool: Seq<EdgeView>,
    health: Seq<HealthState>,
    distances: Map<u32, u64>,
    upto: int,
) -> bool {
    &&& forall|p: int|
        0 <= p < places.len() ==> is_candidate(pool, health, distances, #[trigger] places[p])
            && places[p] < upto
    &&& forall|i: int|
        0 <= i < upto && #[trigger] is_candidate(pool, health, distances, i) ==> places.contains(i)
    &&& forall|p: int, q: int|
        0 <= p < q < places.len() ==> ranks_before(
            pool,
            distances,
            #[trigger] places[p],
            #[trigger] places[q],
        )
}

/// No entry is nearer than one before it.
pub open spec fn nearest_first(ranked: Seq<(u64, u32)>) -> bool {
    forall|p: int, q: int| 0 <= p < q < ranked.len() ==> (#[trigger] ranked[p]).0 <= (#[trigger] ranked[q]).0
}

/// The entries of the servers at `places`, in that order.
pub open spec fn entries(places: Seq<int>, pool: Seq<EdgeView>, distances: Map<u32, u64>) -> Seq<
    (u64, u32),
> {
    Seq::new(places.len(), |p: int| entry_at(pool, distances, places[p]))
}

/// `ranked` is the ranking of the pool: the entries of all its candidates in
/// their order.
pub open spec fn is_ranking(
    ranked: Seq<(u64, u32)>,
    pool: Seq<EdgeView>,
    health: Seq<HealthState>,
    distances: Map<u32, u64>,
) -> bool {
    exists|places: Seq<int>| #[trigger]
        is_order(places, pool, health, distances, pool.len() as int) && ranked == entries(
            places,
            pool,
            distances,
        )
}

/// The ranking of the pool.
pub open spec fn ranking_of(pool: Seq<EdgeView>, health: Seq<HealthState>, distances: Map<u32, u64>) -> Seq<
    (u64, u32),
> {
    choose|ranked: Seq<(u64, u32)>| is_ranking(ranked, pool, health, distances)
}

/// An order of the first `upto` places is one of the first `upto + 1` where
/// the next server is no candidate.
proof fn lemma_order_skips(
    places: Seq<int>,
    pool: Seq<EdgeView>,
    health: Seq<HealthState>,
    distances: Map<u32, u64>,
    upto: int,
)
    requires
        is_order(places, pool, health, distances, upto),
        !is_candidate(pool, health, distances, upto),
    ensures
        is_order(places, pool, health, distances, upto + 1),
{
}

/// Putting a new candidate behind all that are as near or nearer, and before
/// all that are farther, keeps the order.
proof fn lemma_order_grows(
    places: Seq<int>,
    pool: Seq<EdgeView>,
    health: Seq<HealthState>,
    distances: Map<u32, u64>,
    upto: int,
    at: int,
)
    requires
        is_order(places, pool, health, distances, upto),
        is_candidate(pool, health, distances, upto),
        0 <= at <= places.len(),
        forall|p: int|
            0 <= p < at ==> distance_at(pool, distances, #[trigger] places[p]) <= distance_at(
                pool,
                distances,
                upto,
            ),
        forall|p: int|
            at <= p < places.len() ==> distance_at(pool, distances, #[trigger] places[p])
                > distance_at(pool, distances, upto),
    ensures
        is_order(places.insert(at, upto), pool, health, distances, upto + 1),
        entries(places.insert(at, upto), pool, distances) == entries(places, pool, distances).insert(
            at,
            entry_at(pool, distances, upto),
        ),
{
    let grown = places.insert(at, upto);
    places.insert_ensures(at, upto);
    assert forall|p: int| 0 <= p < grown.len() implies is_candidate(
        pool,
        health,
        distances,
        #[trigger] grown[p],
    ) && grown[p] < upto + 1 by {
        if p < at {
            assert(grown[p] == places[p]);
        } else if p > at {
            assert(grown[p] == places[p - 1]);
        }
    }
    assert forall|i: int|
        0 <= i < upto + 1 && #[trigger] is_candidate(pool, health, distances, i) implies grown.contains(
        i,
    ) by {
        if i == upto {
            assert(grown[at] == i);
        } else {
            assert(places.contains(i));
            let p = choose|p: int| 0 <= p < places.len() && places[p] == i;
            if p < at {
                assert(grown[p] == i);
            } else {
                assert(grown[p + 1] == i);
            }
        }
    }
    assert forall|p: int, q: int| 0 <= p < q < grown.len() implies ranks_before(
        pool,
        distances,
        #[trigger] grown[p],
        #[trigger] grown[q],
    ) by {
        if q < at {
            assert(grown[p] == places[p] && grown[q] == places[q]);
        } else if q == at {
            assert(grown[p] == places[p]);
            assert(places[p] < upto);
        } else if p < at {
            assert(grown[p] == places[p] && grown[q] == places[q - 1]);
        } else if p == at {
            assert(grown[q] == places[q - 1]);
        } else {
            assert(grown[p] == places[p - 1] && grown[q] == places[q - 1]);
        }
    }
    let before = entries(places, pool, distances);
    before.insert_ensures(at, entry_at(pool, distances, upto));
    assert(entries(grown, pool, distances) =~= before.insert(at, entry_at(pool, distances, upto))) by {
        assert forall|p: int| 0 <= p < grown.len() implies entries(grown, pool, distances)[p]
            == before.insert(at, entry_at(pool, distances, upto))[p] by {
            if p < at {
                assert(grown[p] == places[p]);
            } else if p > at {
                assert(grown[p] == places[p - 1]);
                assert(before.insert(at, entry_at(pool, distances, upto))[(p - 1) + 1] == before[p - 1]);
            }
        }
    }
}

/// Two orders of the same places are the same sequence.
pub proof fn lemma_order_is_unique(
    a: Seq<int>,
    b: Seq<int>,
    pool: Seq<EdgeView>,
    health: Seq<HealthState>,
    distances: Map<u32, u64>,
    upto: int,
)
    requires
        is_order(a, pool, health, distances, upto),
        is_order(b, pool, health, distances, upto),
    ensures
        a == b,
{
    lemma_increasing_unique(a, b, pool, distances);
}

/// Two sequences that hold the same places, each before all that it ranks
/// before, are equal.
proof fn lemma_increasing_unique(a: Seq<int>, b: Seq<int>, pool: Seq<EdgeView>, distances: Map<u32, u64>)
    requires
        forall|p: int, q: int|
            0 <= p < q < a.len() ==> ranks_before(pool, distances, #[trigger] a[p], #[trigger] a[q]),
        forall|p: int, q: int|
            0 <= p < q < b.len() ==> ranks_before(pool, distances, #[trigger] b[p], #[trigger] b[q]),
        forall|i: int| a.contains(i) <==> b.contains(i),
    ensures
        a == b,
    decreases a.len(),
{
    if a.len() == 0 {
        if b.len() > 0 {
            assert(b.contains(b[0]));
            assert(a.contains(b[0]));
        }
        assert(a =~= b);
    } else {
        let top = a.last();
        assert(a.contains(top));
        assert(b.contains(top));
        let q = choose|q: int| 0 <= q < b.len() && b[q] == top;
        if q < b.len() - 1 {
            let other = b.last();
            assert(ranks_before(pool, distances, b[q], b[b.len() - 1]));
            assert(b.contains(other));
            assert(a.contains(other));
            let p = choose|p: int| 0 <= p < a.len() && a[p] == other;
            if p < a.len() - 1 {
                assert(ranks_before(pool, distances, a[p], a[a.len() - 1]));
            }
            assert(false);
        }
        let a0 = a.drop_last();
        let b0 = b.drop_last();
        assert forall|i: int| a0.contains(i) <==> b0.contains(i) by {
            if a0.contains(i) {
                let p = choose|p: int| 0 <= p < a0.len() && a0[p] == i;
                assert(a[p] == i);
                assert(ranks_before(pool, distances, a[p], a[a.len() - 1]));
                assert(a.contains(i));
                assert(b.contains(i));
                let r = choose|r: int| 0 <= r < b.len() && b[r] == i;
                assert(r < b.len() - 1);
                assert(b0[r] == i);
            }
            if b0.contains(i) {
                let r = choose|r: int| 0 <= r < b0.len() && b0[r] == i;
                assert(b[r] == i);
                assert(ranks_before(pool, distances, b[r], b[b.len() - 1]));
                assert(b.contains(i));
                assert(a.contains(i));
                let p = choose|p: int| 0 <= p < a.len() && a[p] == i;
                assert(p < a.len() - 1);
                assert(a0[p] == i);
            }
        }
        assert forall|p: int, q: int| 0 <= p < q < a0.len() implies ranks_before(
            pool,
            distances,
            #[trigger] a0[p],
            #[trigger] a0[q],
        ) by {
            assert(a0[p] == a[p] && a0[q] == a[q]);
        }
        assert forall|p: int, q: int| 0 <= p < q < b0.len() implies ranks_before(
            pool,
            distances,
            #[trigger] b0[p],
            #[trigger] b0[q],
        ) by {
            assert(b0[p] == b[p] && b0[q] == b[q]);
        }
        lemma_increasing_unique(a0, b0, pool, distances);
        assert(a =~= a0.push(top));
        assert(b =~= b0.push(top));
    }
}

/// A pool has one ranking only.
pub proof fn lemma_ranking_is_unique(
    first: Seq<(u64, u32)>,
    second: Seq<(u64, u32)>,
    pool: Seq<EdgeView>,
    health: Seq<HealthState>,
    distances: Map<u32, u64>,
)
    requires
        is_ranking(first, pool, health, distances),
        is_ranking(second, pool, health, distances),
    ensures
        first == second,
{
    let a = choose|places: Seq<int>| #[trigger]
        is_order(places, pool, health, distances, pool.len() as int) && first == entries(
            places,
            pool,
            distances,
        );
    let b = choose|places: Seq<int>| #[trigger]
        is_order(places, pool, health, distances, pool.len() as int) && second == entries(
            places,
            pool,
            distances,
        );
    lemma_order_is_unique(a, b, pool, health, distances, pool.len() as int);
}

/// A ranking of the pool is the ranking of the pool.
pub proof fn lemma_ranking_of(
    ranked: Seq<(u64, u32)>,
    pool: Seq<EdgeView>,
    health: Seq<HealthState>,
    distances: Map<u32, u64>,
)
    requires
        is_ranking(ranked, pool, health, distances),
    ensures
        ranked == ranking_of(pool, health, distances),
{
    lemma_ranking_is_unique(ranked, ranking_of(pool, health, distances), pool, health, distances);
}

/// A pool without candidates has the empty ranking, and no other pool has.
pub proof fn lemma_empty_ranking(pool: Seq<EdgeView>, health: Seq<HealthState>, distances: Map<u32, u64>)
    ensures
        (forall|i: int| !is_candidate(pool, health, distances, i)) ==> is_ranking(
            Seq::empty(),
            pool,
            health,
            distances,
        ),
        is_ranking(Seq::empty(), pool, health, distances) ==> forall|i: int|
            !is_candidate(pool, health, distances, i),
{
    let none = Seq::<int>::empty();
    if forall|i: int| !is_candidate(pool, health, distances, i) {
        assert(is_order(none, pool, health, distances, pool.len() as int));
        assert(entries(none, pool, distances) =~= Seq::<(u64, u32)>::empty());
    }
    if is_ranking(Seq::empty(), pool, health, distances) {
        lemma_ranking_holds_the_candidates(Seq::empty(), pool, health, distances);
        assert forall|i: int| !is_candidate(pool, health, distances, i) by {
            if is_candidate(pool, health, distances, i) {
                assert(Seq::<(u64, u32)>::empty().contains(entry_at(pool, distances, i)));
            }
        }
    }
}

/// What a ranking holds: the entry of every candidate and nothing else, in
/// order of distance; and, where no two servers share an address, no server
/// that is no candidate and no address twice.
pub proof fn lemma_ranking_holds_the_candidates(
    ranked: Seq<(u64, u32)>,
    pool: Seq<EdgeView>,
    health: Seq<HealthState>,
    distances: Map<u32, u64>,
)
    requires
        is_ranking(ranked, pool, health, distances),
    ensures
        forall|i: int| #[trigger]
            is_candidate(pool, health, distances, i) ==> ranked.contains(entry_at(pool, distances, i)),
        forall|p: int|
            0 <= p < ranked.len() ==> is_candidate_entry(#[trigger] ranked[p], pool, health, distances),
        nearest_first(ranked),
        distinct_addresses(pool) ==> forall|i: int, p: int|
            0 <= i < pool.len() && !is_candidate(pool, health, distances, i) && 0 <= p < ranked.len()
                ==> (#[trigger] ranked[p]).1 != (#[trigger] pool[i]).address,
        distinct_addresses(pool) ==> forall|p: int, q: int|
            0 <= p < q < ranked.len() ==> (#[trigger] ranked[p]).1 != (#[trigger] ranked[q]).1,
{
    let places = choose|places: Seq<int>| #[trigger]
        is_order(places, pool, health, distances, pool.len() as int) && ranked == entries(
            places,
            pool,
            distances,
        );
    assert forall|i: int| #[trigger] is_candidate(pool, health, distances, i) implies ranked.contains(
        entry_at(pool, distances, i),
    ) by {
        assert(places.contains(i));
        let p = choose|p: int| 0 <= p < places.len() && places[p] == i;
        assert(ranked[p] == entry_at(pool, distances, i));
    }
    assert forall|p: int| 0 <= p < ranked.len() implies is_candidate_entry(
        #[trigger] ranked[p],
        pool,
        health,
        distances,
    ) by {
        assert(is_candidate(pool, health, distances, places[p]));
    }
    assert forall|p: int, q: int| 0 <= p < q < ranked.len() implies (#[trigger] ranked[p]).0 <= (
    #[trigger] ranked[q]).0 by {
        assert(ranks_before(pool, distances, places[p], places[q]));
    }
    if distinct_addresses(pool) {
        assert forall|i: int, p: int|
            0 <= i < pool.len() && !is_candidate(pool, health, distances, i) && 0 <= p
                < ranked.len() implies (#[trigger] ranked[p]).1 != (#[trigger] pool[i]).address by {
            let j = places[p];
            assert(is_candidate(pool, health, distances, j));
            if i < j {
                assert(pool[i].address != pool[j].address);
            } else if j < i {
                assert(pool[j].address != pool[i].address);
            }
        }
        assert forall|p: int, q: int| 0 <= p < q < ranked.len() implies (#[trigger] ranked[p]).1 != (
        #[trigger] ranked[q]).1 by {
            let i = places[p];
            let j = places[q];
            assert(is_candidate(pool, health, distances, i));
            assert(is_candidate(pool, health, distances, j));
            assert(ranks_before(pool, distances, i, j));
            if i < j {
                assert(pool[i].address != pool[j].address);
            } else if j < i {
                assert(pool[j].address != pool[i].address);
            }
        }
    }
}

/// Where an entry of this distance goes: behind all that are as near or
/// nearer.
fn insertion_point(ranked: &Vec<(u64, u32)>, distance: u64) -> (at: usize)
    requires
        nearest_first(ranked@),
    ensures
        at <= ranked.len(),
        forall|p: int| 0 <= p < at ==> (#[trigger] ranked[p]).0 <= distance,
        forall|p: int| at <= p < ranked.len() ==> (#[trigger] ranked[p]).0 > distance,
{
    let mut at: usize = 0;
    while at < ranked.len() && ranked[at].0 <= distance
        invariant
            at <= ranked.len(),
            forall|p: int| 0 <= p < at ==> (#[trigger] ranked[p]).0 <= distance,
        decreases ranked.len() - at,
    {
        at += 1;
    }
    proof {
        assert forall|p: int| at <= p < ranked.len() implies (#[trigger] ranked[p]).0 > distance by {
            if p > at {
                assert(ranked[at as int].0 <= ranked[p].0);
            }
        }
    }
    at
}

/// Ranks the pool for one client, whose distances from the servers are given
/// by address.
pub fn rank(pool: &Vec<EdgeServer>, health: &Vec<HealthState>, distances: &HashMap<u32, u64>) -> (ranked:
    Vec<(u64, u32)>)
    ensures
        is_ranking(ranked@, views(pool@), health@, distances@),
        ranked@ == ranking_of(views(pool@), health@, distances@),
        forall|i: int| #[trigger]
            is_candidate(views(pool@), health@, distances@, i) ==> ranked@.contains(
                entry_at(views(pool@), distances@, i),
            ),
        forall|p: int|
            0 <= p < ranked.len() ==> is_candidate_entry(#[trigger] ranked[p], views(pool@), health@, distances@),
        nearest_first(ranked@),
        distinct_addresses(views(pool@)) ==> forall|i: int, p: int|
            0 <= i < pool.len() && !is_candidate(views(pool@), health@, distances@, i) && 0 <= p
                < ranked.len() ==> (#[trigger] ranked[p]).1 != (#[trigger] views(pool@)[i]).address,
{
    let mut ranked: Vec<(u64, u32)> = Vec::new();
    let ghost mut places: Seq<int> = Seq::empty();
    let mut next: usize = 0;
    while next < pool.len()
        invariant
            next <= pool.len(),
            is_order(places, views(pool@), health@, distances@, next as int),
            ranked@ == entries(places, views(pool@), distances@),
        decreases pool.len() - next,
    {
        let mut placed = false;
        if next < health.len() && health[next].is_eligible() {
            let address = pool[next].address;
            match distances.get(&address) {
                Some(distance) => {
                    proof {
                        assert forall|p: int, q: int| 0 <= p < q < ranked.len() implies (
                        #[trigger] ranked[p]).0 <= (#[trigger] ranked[q]).0 by {
                            assert(ranks_before(views(pool@), distances@, places[p], places[q]));
                        }
                    }
                    let at = insertion_point(&ranked, *distance);
                    proof {
                        assert(is_candidate(views(pool@), health@, distances@, next as int));
                        assert forall|p: int| 0 <= p < at implies distance_at(
                            views(pool@),
                            distances@,
                            #[trigger] places[p],
                        ) <= distance_at(views(pool@), distances@, next as int) by {
                            assert(ranked[p].0 == distance_at(views(pool@), distances@, places[p]));
                        }
                        assert forall|p: int| at <= p < places.len() implies distance_at(
                            views(pool@),
                            distances@,
                            #[trigger] places[p],
                        ) > distance_at(views(pool@), distances@, next as int) by {
                            assert(ranked[p].0 == distance_at(views(pool@), distances@, places[p]));
                        }
                        lemma_order_grows(places, views(pool@), health@, distances@, next as int, at as int);
                        places = places.insert(at as int, next as int);
                    }
                    ranked.insert(at, (*distance, address));
                    placed = true;
                },
                None => {},
            }
        }
        proof {
            if !placed {
                lemma_order_skips(places, views(pool@), health@, distances@, next as int);
            }
        }
        next += 1;
    }
    proof {
        assert(views(pool@).len() == pool.len());
        lemma_ranking_holds_the_candidates(ranked@, views(pool@), health@, distances@);
        lemma_ranking_of(ranked@, views(pool@), health@, distances@);
    }
    ranked
}

} // verus!
