//! The service's state and the decisions it takes: which health a probe
//! leaves behind, whether a client's distances are known, which servers a
//! client may be sent to, and what is answered.
//!
//! Nothing here waits or sends. The caller probes, looks places up, measures
//! distances and moves datagrams, and hands what it got to these functions.

use vstd::prelude::*;
use vstd::string::*;
use vstd::utf8::{encode_utf8, is_ascii_chars, is_ascii_chars_encode_utf8};
use std::collections::HashMap;
use crate::geo::{next_lookup, step_after, GeoPoint, GeoService, LookupStep};
use crate::health::{HealthState, ProbeOutcome};
use crate::message::{
    address_record_of, answer_to, bytes_of, is_domain_name_text, lemma_label_fits, names_a_domain,
    query_in, read_query, write_answer, Query, QueryView, ANSWER_TTL,
};
use crate::ranking::{
    distance_at, entry_at, is_candidate, is_candidate_entry, is_nearest_candidate, is_ranking, nearest_first,
    rank, ranking_of,
};
use crate::registry::{
    all_named, covers, distances_by_address, distinct_addresses, find_place, holds_addresses_of,
    lemma_place_of, lemma_standard_pool_distinct, lemma_standard_pool_named,
    lemma_with_server_addresses, loads_reset, place_of, standard_pool, standard_server, views, with_server,
    with_servers, EdgeServer, EdgeView, STANDARD_POOL_SIZE,
};

verus! {

broadcast use vstd::std_specs::hash::group_hash_axioms;

/// The address that is handed out when no edge server may be: 3.129.217.143.
pub const FALLBACK_ADDRESS: u32 = 0x0381_D98F;

/// The name that goes with `FALLBACK_ADDRESS`.
pub open spec fn fallback_name() -> Seq<char> {
    "ec2-3-129-217-143.us-east-2.compute.amazonaws.com"@
}

/// The fallback's name writes a domain name.
pub proof fn lemma_fallback_named()
    ensures
        names_a_domain(fallback_name()),
{
    reveal_strlit("ec2-3-129-217-143.us-east-2.compute.amazonaws.com");
    let name = fallback_name();
    assert(is_ascii_chars(name));
    is_ascii_chars_encode_utf8(name);
    let bytes = encode_utf8(name);
    assert forall|j: int| 0 <= j < 49 && j != 17 && j != 27 && j != 35 && j != 45 implies bytes[j]
        != 46u8 by {
        assert(name[j] as u8 == bytes[j]);
    }
    assert(bytes[17] == 46u8 && bytes[27] == 46u8 && bytes[35] == 46u8 && bytes[45] == 46u8) by {
        assert(name[17] as u8 == bytes[17]);
        assert(name[27] as u8 == bytes[27]);
        assert(name[35] as u8 == bytes[35]);
        assert(name[45] as u8 == bytes[45]);
    }
    lemma_label_fits(bytes, 46, 49);
    lemma_label_fits(bytes, 36, 45);
    lemma_label_fits(bytes, 28, 35);
    lemma_label_fits(bytes, 18, 27);
    lemma_label_fits(bytes, 0, 17);
    assert(bytes.skip(0) =~= bytes);
}

/// Where the service itself stands. A client that no service can place counts
/// as standing here.
pub open spec fn home_location() -> GeoPoint {
    GeoPoint { latitude: 40_822_900, longitude: -74_459_200i32 }
}

/// The address that is asked for a server's load.
pub open spec fn usage_url_of(domain: Seq<char>, port: Seq<char>) -> Seq<char> {
    "http://"@ + domain + ":"@ + port + "/api/getUsage"@
}

/// What is to happen next while a client's distances are being resolved.
#[derive(Clone, Copy, Debug, PartialEq, Eq, Structural)]
pub enum ResolveStep {
    /// The distances are in the cache: nothing is left to do.
    Cached,
    /// Ask this service where the client is.
    Locate(GeoService),
    /// Measure from this point to every edge server, and store the result.
    Measure(GeoPoint),
}

/// The first step for a client: none where its distances are cached, else
/// the first service.
pub open spec fn resolve_begins(cache: Map<u64, Map<u32, u64>>, client: u64) -> ResolveStep {
    if cache.contains_key(client) {
        ResolveStep::Cached
    } else {
        ResolveStep::Locate(GeoService::IpApi)
    }
}

/// The step after a service's answer: to measure from the place it found, to
/// ask the next service, or to measure from `home` where there is none left.
pub open spec fn resolve_goes_on(asked: GeoService, found: Option<GeoPoint>, home: GeoPoint) -> ResolveStep {
    match step_after(asked, found, home) {
        LookupStep::Ask(service) => ResolveStep::Locate(service),
        LookupStep::Settled(place) => ResolveStep::Measure(place),
    }
}

/// A whole resolution as one step: the map that the client gets and the cache
/// that is left, where `measured` is what measuring would give. A client in
/// the cache gets its map from there and nothing is measured or stored.
pub open spec fn resolved(cache: Map<u64, Map<u32, u64>>, client: u64, measured: Map<u32, u64>) -> (
    Map<u32, u64>,
    Map<u64, Map<u32, u64>>,
) {
    match resolve_begins(cache, client) {
        ResolveStep::Cached => (cache[client], cache),
        _ => (measured, cache.insert(client, measured)),
    }
}

/// The answer to `query` that names the server with this address, if the pool
/// has one.
pub open spec fn named_answer(query: QueryView, pool: Seq<EdgeView>, address: u32) -> Option<Seq<u8>> {
    match place_of(pool, address) {
        Some(i) => answer_to(query, pool[i].domain_name, address),
        None => None,
    }
}

/// The answer to `query` for a client with this ranking: the first server of
/// the ranking, or the fallback where the ranking is empty.
pub open spec fn response_to(query: QueryView, pool: Seq<EdgeView>, ranked: Seq<(u64, u32)>) -> Option<Seq<u8>> {
    if ranked.len() == 0 {
        answer_to(query, fallback_name(), FALLBACK_ADDRESS)
    } else {
        named_answer(query, pool, ranked[0].1)
    }
}

/// The state of the service.
pub struct DnsServer {
    cdn_server: Vec<EdgeServer>,
    health: Vec<HealthState>,
    dns_port: String,
    client_distance_cache: HashMap<u64, HashMap<u32, u64>>,
    location: GeoPoint,
}

impl DnsServer {
    /// The pool of edge servers.
    pub closed spec fn pool(&self) -> Seq<EdgeView> {
        views(self.cdn_server@)
    }

    /// The health of each server, in the order of the pool.
    pub closed spec fn health(&self) -> Seq<HealthState> {
        self.health@
    }

    /// The port on which the service listens and on which it probes.
    pub closed spec fn port(&self) -> Seq<char> {
        self.dns_port@
    }

    /// For each client that has been resolved, its distance from each edge
    /// server by the server's address.
    pub closed spec fn cache(&self) -> Map<u64, Map<u32, u64>> {
        self.client_distance_cache@.map_values(|distances: HashMap<u32, u64>| distances@)
    }

    /// Where the service itself stands.
    pub closed spec fn home(&self) -> GeoPoint {
        self.location
    }

    /// Every server has its health and goes by a domain name, no two servers
    /// share an address, and every map in the cache holds a distance for each
    /// server of the pool and for nothing else. Every function that returns a
    /// `DnsServer` or changes one sees to this.
    pub open spec fn wf(&self) -> bool {
        &&& self.health().len() == self.pool().len()
        &&& distinct_addresses(self.pool())
        &&& all_named(self.pool())
        &&& forall|client: u64| #[trigger]
            self.cache().contains_key(client) ==> covers(self.pool(), self.cache()[client])
    }

    /// A service for this port, with an empty pool and an empty cache.
    pub fn new(port: &str) -> (server: DnsServer)
        ensures
            server.wf(),
            server.pool() == Seq::<EdgeView>::empty(),
            server.health() == Seq::<HealthState>::empty(),
            server.cache() == Map::<u64, Map<u32, u64>>::empty(),
            server.port() == port@,
            server.home() == home_location(),
    {
        let server = DnsServer {
            cdn_server: Vec::new(),
            health: Vec::new(),
            dns_port: port.to_owned(),
            client_distance_cache: HashMap::new(),
            location: GeoPoint { latitude: 40_822_900, longitude: -74_459_200 },
        };
        proof {
            assert(server.pool() =~= Seq::<EdgeView>::empty());
            assert(server.cache() =~= Map::<u64, Map<u32, u64>>::empty());
        }
        server
    }

    /// Registers one edge server, and says whether it did: a server whose
    /// name writes no domain name is not taken in, and nothing changes. Where
    /// the address of a server that is taken in is new to the pool, what was
    /// measured against the pool as it was no longer fits it, and the cache is
    /// emptied; where the pool holds the address, the cache stays.
    pub fn register(&mut self, server: EdgeServer) -> (registered: bool)
        requires
            old(self).wf(),
        ensures
            final(self).wf(),
            registered == names_a_domain(server@.domain_name),
            final(self).pool() == with_server(old(self).pool(), old(self).health(), server@).0,
            final(self).health() == with_server(old(self).pool(), old(self).health(), server@).1,
            final(self).cache() == (if registered && place_of(old(self).pool(), server.address) is None {
                Map::<u64, Map<u32, u64>>::empty()
            } else {
                old(self).cache()
            }),
            final(self).port() == old(self).port(),
            final(self).home() == old(self).home(),
    {
        let ghost before = self.pool();
        let ghost health_before = self.health();
        let ghost entry = server@;
        if !is_domain_name_text(server.domain_name.as_str()) {
            return false;
        }
        match find_place(&self.cdn_server, server.address) {
            Some(i) => {
                let known = self.health[i];
                self.cdn_server.set(i, server);
                self.health.set(i, HealthState { available: known.available, load: 0 });
                proof {
                    assert(self.pool() =~= before.update(i as int, entry));
                    assert(self.cache() == old(self).cache());
                    assert forall|a: int, b: int| 0 <= a < b < self.pool().len() implies (
                    #[trigger] self.pool()[a]).address != (#[trigger] self.pool()[b]).address by {
                        assert(before[a].address != before[b].address);
                    }
                    assert forall|j: int| 0 <= j < self.pool().len() implies names_a_domain(
                        (#[trigger] self.pool()[j]).domain_name,
                    ) by {
                        if j != i {
                            assert(self.pool()[j] == before[j]);
                        }
                    }
                    assert forall|client: u64| #[trigger] self.cache().contains_key(client) implies covers(
                        self.pool(),
                        self.cache()[client],
                    ) by {
                        assert(covers(before, self.cache()[client]));
                        assert forall|address: u32|
                            self.cache()[client].contains_key(address) <==> place_of(self.pool(), address)
                                is Some by {
                            lemma_with_server_addresses(before, health_before, entry, address);
                        }
                    }
                }
            },
            None => {
                self.client_distance_cache.clear();
                self.cdn_server.push(server);
                self.health.push(HealthState::new());
                proof {
                    assert(self.cache() =~= Map::<u64, Map<u32, u64>>::empty());
                    assert(self.pool() =~= before.push(entry));
                    assert forall|a: int, b: int| 0 <= a < b < self.pool().len() implies (
                    #[trigger] self.pool()[a]).address != (#[trigger] self.pool()[b]).address by {
                        if b < before.len() {
                            assert(before[a].address != before[b].address);
                        } else {
                            assert(before[a].address != entry.address);
                        }
                    }
                    assert forall|j: int| 0 <= j < self.pool().len() implies names_a_domain(
                        (#[trigger] self.pool()[j]).domain_name,
                    ) by {
                        if j < before.len() {
                            assert(self.pool()[j] == before[j]);
                        }
                    }
                }
            },
        }
        true
    }

    /// Registers the servers of the standard pool, the first of them first.
    /// On a service whose pool is empty this leaves the standard pool, every
    /// server of it available and idle. On a service whose pool is the
    /// standard pool, as after an earlier call, pool and cache stay as they
    /// are, and so does what is known of availability; the loads start again
    /// at nothing. The cache stays wherever the pool holds every address of
    /// the standard pool already; else it is emptied.
    pub fn init_cdn_geolocation(&mut self)
        requires
            old(self).wf(),
        ensures
            final(self).wf(),
            final(self).pool() == with_servers(old(self).pool(), old(self).health(), standard_pool()).0,
            final(self).health() == with_servers(old(self).pool(), old(self).health(), standard_pool()).1,
            old(self).pool().len() == 0 ==> final(self).pool() == standard_pool() && final(self).health()
                == Seq::new(STANDARD_POOL_SIZE as nat, |i: int| HealthState::initial()),
            final(self).cache() == (if holds_addresses_of(old(self).pool(), standard_pool()) {
                old(self).cache()
            } else {
                Map::<u64, Map<u32, u64>>::empty()
            }),
            old(self).pool() == standard_pool() ==> final(self).pool() == standard_pool()
                && final(self).cache() == old(self).cache() && final(self).health() == loads_reset(
                old(self).health(),
                STANDARD_POOL_SIZE as int,
            ),
            final(self).port() == old(self).port(),
            final(self).home() == old(self).home(),
    {
        let ghost pool0 = self.pool();
        let ghost health0 = self.health();
        let ghost cache0 = self.cache();
        let ghost standard = standard_pool();
        let mut place: usize = 0;
        proof {
            lemma_standard_pool_distinct();
            lemma_standard_pool_named();
            assert(health0 =~= loads_reset(health0, 0));
            assert(standard.take(0) =~= Seq::<EdgeView>::empty());
            if pool0.len() == 0 {
                assert(self.health() =~= Seq::new(0nat, |i: int| HealthState::initial()));
            }
        }
        while place < STANDARD_POOL_SIZE
            invariant
                place <= STANDARD_POOL_SIZE,
                standard == standard_pool(),
                standard.len() == STANDARD_POOL_SIZE,
                distinct_addresses(standard),
                all_named(standard),
                self.wf(),
                self.pool() == with_servers(pool0, health0, standard.take(place as int)).0,
                self.health() == with_servers(pool0, health0, standard.take(place as int)).1,
                pool0.len() == 0 ==> self.pool() == standard.take(place as int) && self.health() == Seq::new(
                    place as nat,
                    |i: int| HealthState::initial(),
                ),
                pool0 == standard ==> self.pool() == standard && self.health() == loads_reset(
                    health0,
                    place as int,
                ),
                forall|address: u32| #[trigger]
                    place_of(self.pool(), address) is Some <==> (place_of(pool0, address) is Some
                        || place_of(standard.take(place as int), address) is Some),
                self.cache() == (if holds_addresses_of(pool0, standard.take(place as int)) {
                    cache0
                } else {
                    Map::<u64, Map<u32, u64>>::empty()
                }),
                self.port() == old(self).port(),
                self.home() == old(self).home(),
            decreases STANDARD_POOL_SIZE - place,
        {
            let ghost pool_before = self.pool();
            let ghost health_before = self.health();
            let ghost done = standard.take(place as int);
            let ghost upto = standard.take(place + 1);
            let ghost next = standard[place as int];
            match standard_server(place) {
                Some(server) => {
                    self.register(server);
                },
                None => {},
            }
            proof {
                assert(names_a_domain(next.domain_name));
                assert(upto.drop_last() =~= done);
                assert(upto.last() == next);
                assert forall|j: int| 0 <= j < done.len() implies (#[trigger] done[j]).address
                    != next.address by {
                    assert(standard[j].address != standard[place as int].address);
                }
                assert(place_of(done, next.address) is None);
                assert(upto =~= done.push(next));
                assert forall|address: u32| #[trigger]
                    place_of(self.pool(), address) is Some <==> (place_of(pool0, address) is Some
                        || place_of(upto, address) is Some) by {
                    lemma_with_server_addresses(pool_before, health_before, next, address);
                    lemma_with_server_addresses(done, Seq::<HealthState>::empty(), next, address);
                }
                assert(place_of(pool_before, next.address) is Some <==> place_of(pool0, next.address) is Some);
                if holds_addresses_of(pool0, upto) {
                    assert(upto[place as int] == next);
                    assert forall|i: int| 0 <= i < done.len() implies place_of(
                        pool0,
                        (#[trigger] done[i]).address,
                    ) is Some by {
                        assert(upto[i] == done[i]);
                    }
                }
                if holds_addresses_of(pool0, done) && place_of(pool0, next.address) is Some {
                    assert forall|i: int| 0 <= i < upto.len() implies place_of(
                        pool0,
                        (#[trigger] upto[i]).address,
                    ) is Some by {
                        if i < place {
                            assert(upto[i] == done[i]);
                        }
                    }
                }
                if pool0.len() == 0 {
                    assert(self.pool() =~= upto);
                    assert(self.health() =~= Seq::new((place + 1) as nat, |i: int| HealthState::initial()));
                }
                if pool0 == standard {
                    lemma_place_of(standard, place as int);
                    assert(self.pool() =~= standard);
                    assert(self.health() =~= loads_reset(health0, place + 1));
                }
            }
            place += 1;
        }
        proof {
            assert(standard.take(STANDARD_POOL_SIZE as int) =~= standard);
            if pool0 == standard {
                assert forall|i: int| 0 <= i < standard.len() implies place_of(
                    pool0,
                    (#[trigger] standard[i]).address,
                ) is Some by {
                    lemma_place_of(pool0, i);
                }
            }
        }
    }

    /// How many edge servers the pool holds.
    pub fn edge_count(&self) -> (count: usize)
        ensures
            count == self.pool().len(),
    {
        self.cdn_server.len()
    }

    /// The edge server at one place of the pool.
    pub fn edge(&self, place: usize) -> (server: Option<&EdgeServer>)
        ensures
            match server {
                Some(s) => place < self.pool().len() && s@ == self.pool()[place as int],
                None => place >= self.pool().len(),
            },
    {
        if place < self.cdn_server.len() {
            Some(&self.cdn_server[place])
        } else {
            None
        }
    }

    /// What is known of the health of the server with this address.
    pub fn health_of(&self, address: u32) -> (state: Option<HealthState>)
        requires
            self.wf(),
        ensures
            match place_of(self.pool(), address) {
                Some(i) => state == Some(self.health()[i]),
                None => state is None,
            },
    {
        match find_place(&self.cdn_server, address) {
            Some(i) => Some(self.health[i]),
            None => None,
        }
    }

    /// The port on which the service listens and on which it probes.
    pub fn dns_port(&self) -> (port: &str)
        ensures
            port@ == self.port(),
    {
        self.dns_port.as_str()
    }

    /// Where the service itself stands.
    pub fn location(&self) -> (place: GeoPoint)
        ensures
            place == self.home(),
    {
        self.location
    }

    /// The address that is asked for the load of the server `domain`, on
    /// `port`.
    pub fn usage_url(domain: &str, port: &str) -> (url: String)
        ensures
            url@ == usage_url_of(domain@, port@),
    {
        let mut url = String::from_str("http://");
        url.append(domain);
        url.append(":");
        url.append(port);
        url.append("/api/getUsage");
        url
    }

    /// Takes note of how a probe of the server with this address ended. Says
    /// whether the pool has such a server; where it has none, nothing changes.
    pub fn record_probe(&mut self, address: u32, outcome: ProbeOutcome) -> (known: bool)
        requires
            old(self).wf(),
        ensures
            final(self).wf(),
            final(self).pool() == old(self).pool(),
            final(self).cache() == old(self).cache(),
            final(self).port() == old(self).port(),
            final(self).home() == old(self).home(),
            match place_of(old(self).pool(), address) {
                Some(i) => known && final(self).health() == old(self).health().update(
                    i,
                    old(self).health()[i].after(outcome),
                ),
                None => !known && final(self).health() == old(self).health(),
            },
            outcome == ProbeOutcome::Unreadable ==> forall|i: int|
                place_of(old(self).pool(), address) == Some(i) ==> (#[trigger] final(self).health()[i]).load
                    == old(self).health()[i].load && final(self).health()[i].available,
    {
        match find_place(&self.cdn_server, address) {
            Some(i) => {
                let next = self.health[i].apply(outcome);
                self.health.set(i, next);
                proof {
                    assert(self.pool() == old(self).pool());
                    assert(self.cache() == old(self).cache());
                }
                true
            },
            None => false,
        }
    }

    /// The first step of resolving a client's distances.
    pub fn begin_resolve(&self, client: u64) -> (step: ResolveStep)
        ensures
            step == resolve_begins(self.cache(), client),
    {
        if self.client_distance_cache.contains_key(&client) {
            ResolveStep::Cached
        } else {
            ResolveStep::Locate(GeoService::IpApi)
        }
    }

    /// The step that follows the answer `found` of the service `asked`.
    pub fn after_lookup(&self, asked: GeoService, found: Option<GeoPoint>) -> (step: ResolveStep)
        ensures
            step == resolve_goes_on(asked, found, self.home()),
    {
        match next_lookup(asked, found, self.location) {
            LookupStep::Ask(service) => ResolveStep::Locate(service),
            LookupStep::Settled(place) => ResolveStep::Measure(place),
        }
    }

    /// The map that gives each server of the pool, by its address, the
    /// distance at its place in `distances`. `None` where `distances` has not
    /// one entry for each server.
    pub fn distance_map(&self, distances: &Vec<u64>) -> (map: Option<HashMap<u32, u64>>)
        requires
            self.wf(),
        ensures
            match map {
                Some(by_address) => distances.len() == self.pool().len() && by_address@
                    == distances_by_address(self.pool(), distances@) && covers(self.pool(), by_address@),
                None => distances.len() != self.pool().len(),
            },
    {
        if distances.len() != self.cdn_server.len() {
            return None;
        }
        let ghost pool = self.pool();
        let mut by_address: HashMap<u32, u64> = HashMap::new();
        let mut place: usize = 0;
        while place < self.cdn_server.len()
            invariant
                place <= self.cdn_server.len(),
                distances.len() == self.cdn_server.len(),
                pool == self.pool(),
                distinct_addresses(pool),
                forall|address: u32|
                    by_address@.contains_key(address) <==> exists|j: int|
                        0 <= j < place && (#[trigger] pool[j]).address == address,
                forall|j: int| 0 <= j < place ==> by_address@[(#[trigger] pool[j]).address] == distances[j],
            decreases self.cdn_server.len() - place,
        {
            let address = self.cdn_server[place].address;
            proof {
                assert(pool[place as int].address == address);
                assert forall|j: int| 0 <= j < place implies (#[trigger] pool[j]).address != address by {
                    assert(pool[j].address != pool[place as int].address);
                }
            }
            by_address.insert(address, distances[place]);
            place += 1;
        }
        proof {
            let wanted = distances_by_address(pool, distances@);
            assert forall|address: u32| by_address@.contains_key(address) <==> wanted.contains_key(
                address,
            ) by {
                if place_of(pool, address) is Some {
                    let i = place_of(pool, address).unwrap();
                    assert(pool[i].address == address);
                }
            }
            assert forall|address: u32| by_address@.contains_key(address) implies by_address@[address]
                == wanted[address] by {
                let i = place_of(pool, address).unwrap();
                assert(pool[i].address == address);
            }
            assert(by_address@ =~= wanted);
        }
        Some(by_address)
    }

    /// Stores the distances that were measured for a client, given in the
    /// order of the pool, in place of any that were stored for it. Says
    /// whether it did: where `distances` has not one entry for each server,
    /// nothing is stored.
    pub fn finish_resolve(&mut self, client: u64, distances: &Vec<u64>) -> (stored: bool)
        requires
            old(self).wf(),
        ensures
            final(self).wf(),
            stored == (distances.len() == old(self).pool().len()),
            stored ==> final(self).cache() == old(self).cache().insert(
                client,
                distances_by_address(old(self).pool(), distances@),
            ),
            !stored ==> final(self).cache() == old(self).cache(),
            final(self).pool() == old(self).pool(),
            final(self).health() == old(self).health(),
            final(self).port() == old(self).port(),
            final(self).home() == old(self).home(),
    {
        match self.distance_map(distances) {
            Some(by_address) => {
                let ghost measured = by_address@;
                self.client_distance_cache.insert(client, by_address);
                proof {
                    assert(self.cache() =~= old(self).cache().insert(client, measured));
                }
                true
            },
            None => false,
        }
    }

    /// The distances that are stored for a client: one for each server of the
    /// pool, by its address.
    pub fn cached_distances(&self, client: u64) -> (distances: Option<&HashMap<u32, u64>>)
        requires
            self.wf(),
        ensures
            match distances {
                Some(found) => self.cache().contains_key(client) && found@ == self.cache()[client]
                    && covers(self.pool(), found@),
                None => !self.cache().contains_key(client),
            },
    {
        self.client_distance_cache.get(&client)
    }

    /// Ranks the edge servers for a client with these distances: those that
    /// are available, loaded within the limit and of known distance, nearest
    /// first, and of two that are equally far the one earlier in the pool.
    pub fn get_sorted_cdn_servers(&self, distances: &HashMap<u32, u64>) -> (ranked: Vec<(u64, u32)>)
        requires
            self.wf(),
        ensures
            is_ranking(ranked@, self.pool(), self.health(), distances@),
            ranked@ == ranking_of(self.pool(), self.health(), distances@),
            forall|i: int| #[trigger]
                is_candidate(self.pool(), self.health(), distances@, i) ==> ranked@.contains(
                    entry_at(self.pool(), distances@, i),
                ),
            forall|p: int|
                0 <= p < ranked.len() ==> is_candidate_entry(
                    #[trigger] ranked[p],
                    self.pool(),
                    self.health(),
                    distances@,
                ),
            nearest_first(ranked@),
            forall|i: int, p: int|
                0 <= i < self.pool().len() && !is_candidate(self.pool(), self.health(), distances@, i)
                    && 0 <= p < ranked.len() ==> (#[trigger] ranked[p]).1 != (
                #[trigger] self.pool()[i]).address,
    {
        rank(&self.cdn_server, &self.health, distances)
    }

    /// The answer to `query` that names the edge server with this address, in
    /// its wire form. `None` where the pool has no such server, and where the
    /// encoder gives none: the record for a server of the pool there always
    /// is.
    pub fn generate_response(&self, query: &Query, closest_cdn_server: u32) -> (message: Option<Vec<u8>>)
        requires
            self.wf(),
        ensures
            bytes_of(message) == named_answer(query@, self.pool(), closest_cdn_server),
            forall|i: int|
                place_of(self.pool(), closest_cdn_server) == Some(i) ==> address_record_of(
                    (#[trigger] self.pool()[i]).domain_name,
                    ANSWER_TTL,
                    closest_cdn_server,
                ) is Some,
    {
        match find_place(&self.cdn_server, closest_cdn_server) {
            Some(i) => write_answer(query, self.cdn_server[i].domain_name.as_str(), closest_cdn_server),
            None => None,
        }
    }

    /// The answer to `query` that names a server outside the pool, in its wire
    /// form. `None` where the encoder gives none.
    pub fn generate_response_when_all_cdnservers_down(
        &self,
        query: &Query,
        address: u32,
        domain_name: &str,
    ) -> (message: Option<Vec<u8>>)
        ensures
            bytes_of(message) == answer_to(query@, domain_name@, address),
            address_record_of(domain_name@, ANSWER_TTL, address) is Some <==> names_a_domain(domain_name@),
    {
        write_answer(query, domain_name, address)
    }

    /// The answer to `query` for a client with this ranking: it names the
    /// first server of the ranking, or the fallback where the ranking is
    /// empty.
    pub fn answer_ranked(&self, query: &Query, ranked: &Vec<(u64, u32)>) -> (message: Option<Vec<u8>>)
        requires
            self.wf(),
        ensures
            bytes_of(message) == response_to(query@, self.pool(), ranked@),
            ranked.len() == 0 ==> address_record_of(fallback_name(), ANSWER_TTL, FALLBACK_ADDRESS) is Some,
            ranked.len() > 0 ==> forall|i: int|
                place_of(self.pool(), ranked[0].1) == Some(i) ==> address_record_of(
                    (#[trigger] self.pool()[i]).domain_name,
                    ANSWER_TTL,
                    ranked[0].1,
                ) is Some,
    {
        proof {
            lemma_fallback_named();
        }
        if ranked.len() == 0 {
            self.generate_response_when_all_cdnservers_down(
                query,
                FALLBACK_ADDRESS,
                "ec2-3-129-217-143.us-east-2.compute.amazonaws.com",
            )
        } else {
            self.generate_response(query, ranked[0].1)
        }
    }

    /// The answer to `query` for a client with these distances. Where no
    /// server is a candidate it names the fallback; else it names a candidate
    /// than which none is nearer.
    pub fn answer_query(&self, query: &Query, distances: &HashMap<u32, u64>) -> (message: Option<Vec<u8>>)
        requires
            self.wf(),
        ensures
            bytes_of(message) == response_to(
                query@,
                self.pool(),
                ranking_of(self.pool(), self.health(), distances@),
            ),
            (forall|i: int| !is_candidate(self.pool(), self.health(), distances@, i)) ==> bytes_of(message)
                == answer_to(query@, fallback_name(), FALLBACK_ADDRESS) && address_record_of(
                fallback_name(),
                ANSWER_TTL,
                FALLBACK_ADDRESS,
            ) is Some,
            (exists|i: int| is_candidate(self.pool(), self.health(), distances@, i)) ==> exists|i: int| #[trigger]
                is_nearest_candidate(self.pool(), self.health(), distances@, i) && bytes_of(message)
                    == answer_to(query@, self.pool()[i].domain_name, self.pool()[i].address)
                    && address_record_of(self.pool()[i].domain_name, ANSWER_TTL, self.pool()[i].address)
                    is Some,
    {
        let ranked = self.get_sorted_cdn_servers(distances);
        let message = self.answer_ranked(query, &ranked);
        proof {
            let pool = self.pool();
            let health = self.health();
            if ranked.len() == 0 {
                assert forall|i: int| !is_candidate(pool, health, distances@, i) by {
                    if is_candidate(pool, health, distances@, i) {
                        assert(ranked@.contains(entry_at(pool, distances@, i)));
                    }
                }
            } else {
                assert(is_candidate_entry(ranked[0], pool, health, distances@));
                let i = choose|i: int| #[trigger]
                    is_candidate(pool, health, distances@, i) && ranked[0] == entry_at(pool, distances@, i);
                lemma_place_of(pool, i);
                assert forall|j: int| #[trigger] is_candidate(pool, health, distances@, j) implies distance_at(
                    pool,
                    distances@,
                    i,
                ) <= distance_at(pool, distances@, j) by {
                    assert(ranked@.contains(entry_at(pool, distances@, j)));
                    let p = choose|p: int| 0 <= p < ranked.len() && ranked[p] == entry_at(pool, distances@, j);
                    if p > 0 {
                        assert(ranked[0].0 <= ranked[p].0);
                    }
                }
                assert(is_nearest_candidate(pool, health, distances@, i));
                assert(address_record_of(pool[i].domain_name, ANSWER_TTL, pool[i].address) is Some);
            }
        }
        message
    }

    /// Decodes a datagram that came from `source`. Gives the source and the
    /// query, or `None` where the datagram holds no query.
    pub fn get_question_domain_name(&self, datagram: &[u8], source: &str) -> (received: Option<
        (String, Query),
    >)
        ensures
            match query_in(datagram@) {
                Some(query) => received matches Some(pair) && pair.0@ == source@ && pair.1@ == query,
                None => received is None,
            },
    {
        match read_query(datagram) {
            Some(query) => Some((source.to_owned(), query)),
            None => None,
        }
    }
}

} // verus!
