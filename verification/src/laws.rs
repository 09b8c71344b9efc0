//! What holds of the engine as a whole, proved from the definitions that its
//! functions' contracts use.

use vstd::prelude::*;
use crate::geo::{located, step_after, GeoPoint, GeoService, LookupStep};
use crate::health::{HealthState, ProbeOutcome, LOAD_LIMIT};
use crate::message::{answer_to, QueryView};
use crate::ranking::{
    entry_at, is_candidate, is_candidate_entry, is_ranking, lemma_empty_ranking, lemma_ranking_holds_the_candidates,
    lemma_ranking_of, nearest_first, ranking_of,
};
use crate::registry::{covers, distances_by_address, distinct_addresses, lemma_place_of, EdgeView};
use crate::server::{fallback_name, resolve_begins, resolved, response_to, ResolveStep, FALLBACK_ADDRESS};

verus! {

/// Every server of the pool has its health, and `distances` holds a distance
/// for each server and for nothing else: as every map in the cache does.
pub open spec fn fully_known(pool: Seq<EdgeView>, health: Seq<HealthState>, distances: Map<u32, u64>) -> bool {
    &&& health.len() == pool.len()
    &&& covers(pool, distances)
}

/// The map made of distances in the order of the pool holds, for each server
/// of the pool, the distance at its place, and holds nothing else.
pub proof fn law_measured_map_holds_each_distance(pool: Seq<EdgeView>, distances: Seq<u64>)
    requires
        distinct_addresses(pool),
        distances.len() == pool.len(),
    ensures
        covers(pool, distances_by_address(pool, distances)),
        forall|i: int|
            0 <= i < pool.len() ==> distances_by_address(pool, distances).contains_key(
                (#[trigger] pool[i]).address,
            ) && distances_by_address(pool, distances)[pool[i].address] == distances[i],
{
    assert forall|i: int| 0 <= i < pool.len() implies distances_by_address(pool, distances).contains_key(
        (#[trigger] pool[i]).address,
    ) && distances_by_address(pool, distances)[pool[i].address] == distances[i] by {
        lemma_place_of(pool, i);
    }
}

/// Whether the ranking names this address.
pub open spec fn names(ranked: Seq<(u64, u32)>, address: u32) -> bool {
    exists|p: int| 0 <= p < ranked.len() && (#[trigger] ranked[p]).1 == address
}

/// Where every server's distance is known, the ranking names exactly the
/// servers that are available and loaded within the limit, each with its
/// distance, and no entry is nearer than one before it.
pub proof fn law_ranking_is_the_eligible_by_distance(
    ranked: Seq<(u64, u32)>,
    pool: Seq<EdgeView>,
    health: Seq<HealthState>,
    distances: Map<u32, u64>,
)
    requires
        distinct_addresses(pool),
        fully_known(pool, health, distances),
        is_ranking(ranked, pool, health, distances),
    ensures
        forall|i: int|
            0 <= i < pool.len() ==> (health[i].eligible() <==> names(ranked, (#[trigger] pool[i]).address)),
        forall|i: int|
            0 <= i < pool.len() && health[i].eligible() ==> ranked.contains(
                (distances[(#[trigger] pool[i]).address], pool[i].address),
            ),
        forall|p: int|
            0 <= p < ranked.len() ==> is_candidate_entry(#[trigger] ranked[p], pool, health, distances),
        nearest_first(ranked),
{
    lemma_ranking_holds_the_candidates(ranked, pool, health, distances);
    assert forall|i: int| 0 <= i < pool.len() implies distances.contains_key((#[trigger] pool[i]).address) by {
        lemma_place_of(pool, i);
    }
    assert forall|i: int| 0 <= i < pool.len() implies (health[i].eligible() <==> names(
        ranked,
        (#[trigger] pool[i]).address,
    )) by {
        if health[i].eligible() {
            assert(is_candidate(pool, health, distances, i));
            assert(ranked.contains(entry_at(pool, distances, i)));
            let p = choose|p: int| 0 <= p < ranked.len() && ranked[p] == entry_at(pool, distances, i);
            assert(ranked[p].1 == pool[i].address);
        } else {
            assert(!is_candidate(pool, health, distances, i));
            if names(ranked, pool[i].address) {
                let p = choose|p: int| 0 <= p < ranked.len() && (#[trigger] ranked[p]).1 == pool[i].address;
                assert(ranked[p].1 != pool[i].address);
            }
        }
    }
    assert forall|i: int| 0 <= i < pool.len() && health[i].eligible() implies ranked.contains(
        (distances[(#[trigger] pool[i]).address], pool[i].address),
    ) by {
        assert(is_candidate(pool, health, distances, i));
        assert(ranked.contains(entry_at(pool, distances, i)));
    }
}

/// A server that is unavailable, or loaded beyond the limit, is named by no
/// ranking, however near it is.
pub proof fn law_excluded_whatever_the_distance(
    ranked: Seq<(u64, u32)>,
    pool: Seq<EdgeView>,
    health: Seq<HealthState>,
    distances: Map<u32, u64>,
    i: int,
)
    requires
        distinct_addresses(pool),
        health.len() == pool.len(),
        is_ranking(ranked, pool, health, distances),
        0 <= i < pool.len(),
        !health[i].available || health[i].load > LOAD_LIMIT,
    ensures
        !names(ranked, pool[i].address),
{
    lemma_ranking_holds_the_candidates(ranked, pool, health, distances);
    assert(!is_candidate(pool, health, distances, i));
    if names(ranked, pool[i].address) {
        let p = choose|p: int| 0 <= p < ranked.len() && (#[trigger] ranked[p]).1 == pool[i].address;
        assert(ranked[p].1 != pool[i].address);
    }
}

/// Resolving a client a second time gives the map of the first time and
/// leaves the cache as the first time left it, whatever measuring would give
/// now: the second time nothing is looked up, measured or stored.
pub proof fn law_resolve_is_idempotent(
    cache: Map<u64, Map<u32, u64>>,
    client: u64,
    measured: Map<u32, u64>,
    measured_later: Map<u32, u64>,
)
    ensures
        resolve_begins(resolved(cache, client, measured).1, client) == ResolveStep::Cached,
        resolved(resolved(cache, client, measured).1, client, measured_later).0 == resolved(
            cache,
            client,
            measured,
        ).0,
        resolved(resolved(cache, client, measured).1, client, measured_later).1 == resolved(
            cache,
            client,
            measured,
        ).1,
{
}

/// Where no server of the pool is available and loaded within the limit, the
/// answer names the fallback address, whatever the distances are.
pub proof fn law_all_excluded_gives_the_fallback(
    query: QueryView,
    pool: Seq<EdgeView>,
    health: Seq<HealthState>,
    distances: Map<u32, u64>,
)
    requires
        forall|i: int| 0 <= i < pool.len() && i < health.len() ==> !(#[trigger] health[i]).eligible(),
    ensures
        ranking_of(pool, health, distances) == Seq::<(u64, u32)>::empty(),
        response_to(query, pool, ranking_of(pool, health, distances)) == answer_to(
            query,
            fallback_name(),
            FALLBACK_ADDRESS,
        ),
{
    assert forall|i: int| !is_candidate(pool, health, distances, i) by {
        if 0 <= i < pool.len() && i < health.len() {
            assert(!health[i].eligible());
        }
    }
    lemma_empty_ranking(pool, health, distances);
    lemma_ranking_of(Seq::empty(), pool, health, distances);
}

/// A probe whose answer is no number leaves the load as it was and the server
/// available.
pub proof fn law_unreadable_probe_keeps_the_load(before: HealthState)
    ensures
        before.after(ProbeOutcome::Unreadable).load == before.load,
        before.after(ProbeOutcome::Unreadable).available,
{
}

/// A probe that is not answered leaves the load as it was and the server out
/// of every ranking.
pub proof fn law_unreachable_server_is_excluded(before: HealthState)
    ensures
        before.after(ProbeOutcome::Unreachable).load == before.load,
        !before.after(ProbeOutcome::Unreachable).eligible(),
{
}

/// A search that follows `step_after` from the first step on ends at
/// `located`, and asks the second service only where the first has failed.
pub proof fn law_search_ends_at_located(first: Option<GeoPoint>, second: Option<GeoPoint>, fallback: GeoPoint)
    ensures
        first is Some ==> step_after(GeoService::IpApi, first, fallback) == LookupStep::Settled(
            located(first, second, fallback),
        ),
        first is None ==> step_after(GeoService::IpApi, first, fallback) == LookupStep::Ask(
            GeoService::FreeGeoIp,
        ) && step_after(GeoService::FreeGeoIp, second, fallback) == LookupStep::Settled(
            located(first, second, fallback),
        ),
{
}

} // verus!
