use bytes::Bytes;
use dns_message_parser::question::{QClass, QType, Question};
use dns_message_parser::rr::{A, RR};
use dns_message_parser::{Dns, Flags, Opcode, RCode};
use dns_server::address::{client_key, ipv4};
use dns_server::geo::{GeoPoint, GeoService};
use dns_server::health::{HealthState, ProbeOutcome};
use dns_server::registry::EdgeServer;
use dns_server::server::{DnsServer, ResolveStep, FALLBACK_ADDRESS};
use geoutils::Location;
use std::collections::HashMap;

const FALLBACK_NAME: &str = "ec2-3-129-217-143.us-east-2.compute.amazonaws.com";

fn question(name: &str) -> Question {
    Question { domain_name: name.parse().unwrap(), q_class: QClass::IN, q_type: QType::A }
}

fn datagram(id: u16, name: &str) -> Vec<u8> {
    let flags = Flags {
        qr: false,
        opcode: Opcode::Query,
        aa: false,
        tc: false,
        rd: true,
        ra: false,
        ad: false,
        cd: false,
        rcode: RCode::NoError,
    };
    let dns = Dns {
        id,
        flags,
        questions: vec![question(name)],
        answers: Vec::new(),
        authorities: Vec::new(),
        additionals: Vec::new(),
    };
    dns.encode().unwrap().to_vec()
}

fn degrees(point: GeoPoint) -> Location {
    Location::new(point.latitude as f64 / 1e6, point.longitude as f64 / 1e6)
}

fn millimetres(from: GeoPoint, to: GeoPoint) -> u64 {
    (degrees(from).distance_to(&degrees(to)).unwrap().meters() * 1000.0).round() as u64
}

fn measure_in_pool_order(server: &DnsServer, from: GeoPoint) -> Vec<u64> {
    let mut distances = Vec::new();
    for place in 0..server.edge_count() {
        distances.push(millimetres(from, server.edge(place).unwrap().geolocation));
    }
    distances
}

fn measure(server: &DnsServer, from: GeoPoint) -> HashMap<u32, u64> {
    server.distance_map(&measure_in_pool_order(server, from)).unwrap()
}

fn two_servers() -> DnsServer {
    let mut server = DnsServer::new("5353");
    server.register(EdgeServer {
        address: ipv4(10, 0, 0, 1),
        domain_name: "a.edge.example".to_string(),
        geolocation: GeoPoint { latitude: 0, longitude: 0 },
    });
    server.register(EdgeServer {
        address: ipv4(10, 0, 0, 2),
        domain_name: "b.edge.example".to_string(),
        geolocation: GeoPoint { latitude: 0, longitude: 10_000_000 },
    });
    server
}

fn the_answer(message: Option<Vec<u8>>) -> (Dns, A) {
    let dns = Dns::decode(Bytes::from(message.unwrap())).unwrap();
    assert_eq!(dns.answers.len(), 1);
    let record = match &dns.answers[0] {
        RR::A(a) => a.clone(),
        other => panic!("not an address record: {}", other),
    };
    (dns, record)
}

#[test]
fn a_new_service_has_no_servers() {
    let server = DnsServer::new("20310");
    assert_eq!(server.edge_count(), 0);
    assert!(server.edge(0).is_none());
    assert_eq!(server.dns_port(), "20310");
    assert_eq!(server.location(), GeoPoint { latitude: 40_822_900, longitude: -74_459_200 });
    assert_eq!(server.begin_resolve(1), ResolveStep::Locate(GeoService::IpApi));
    assert!(server.cached_distances(1).is_none());
}

#[test]
fn init_sets_up_the_standard_pool() {
    let mut server = DnsServer::new("20310");
    server.init_cdn_geolocation();
    assert_eq!(server.edge_count(), 7);
    let expected = [
        (ipv4(45, 33, 55, 171), "cdn-http3.khoury.northeastern.edu", 37_562_500, -122_000_400),
        (ipv4(170, 187, 142, 220), "cdn-http4.khoury.northeastern.edu", 33_748_500, -84_387_100),
        (ipv4(213, 168, 249, 157), "cdn-http7.khoury.northeastern.edu", 51_507_400, -119_600),
        (ipv4(139, 162, 82, 207), "cdn-http11.khoury.northeastern.edu", 35_689_300, 139_689_900),
        (ipv4(45, 79, 124, 209), "cdn-http14.khoury.northeastern.edu", 19_074_800, 72_885_600),
        (ipv4(192, 53, 123, 145), "cdn-http15.khoury.northeastern.edu", 43_709_000, -79_405_700),
        (ipv4(192, 46, 221, 203), "cdn-http16.khoury.northeastern.edu", -33_871_500, 151_200_600),
    ];
    for (place, (address, name, latitude, longitude)) in expected.iter().enumerate() {
        let edge = server.edge(place).unwrap();
        assert_eq!(edge.address, *address);
        assert_eq!(edge.domain_name, *name);
        assert_eq!(edge.geolocation, GeoPoint { latitude: *latitude, longitude: *longitude });
        assert_eq!(server.health_of(*address), Some(HealthState { available: true, load: 0 }));
    }
    assert!(server.edge(7).is_none());
    assert_eq!(server.health_of(ipv4(1, 1, 1, 1)), None);
}

#[test]
fn init_again_keeps_the_pool_and_starts_the_loads_anew() {
    let mut server = DnsServer::new("20310");
    server.init_cdn_geolocation();
    let first = ipv4(45, 33, 55, 171);
    let second = ipv4(170, 187, 142, 220);
    assert!(server.record_probe(first, ProbeOutcome::Reading(50_000)));
    assert!(server.record_probe(first, ProbeOutcome::Unreachable));
    assert!(server.record_probe(second, ProbeOutcome::Reading(70_000)));
    server.init_cdn_geolocation();
    assert_eq!(server.edge_count(), 7);
    assert_eq!(server.edge(0).unwrap().address, first);
    assert_eq!(server.health_of(first), Some(HealthState { available: false, load: 0 }));
    assert_eq!(server.health_of(second), Some(HealthState { available: true, load: 0 }));
}

#[test]
fn register_appends_a_new_address_and_replaces_a_known_one() {
    let mut server = two_servers();
    assert_eq!(server.edge_count(), 2);
    assert!(server.record_probe(ipv4(10, 0, 0, 1), ProbeOutcome::Reading(33_000)));
    assert!(server.record_probe(ipv4(10, 0, 0, 1), ProbeOutcome::Unreachable));
    server.register(EdgeServer {
        address: ipv4(10, 0, 0, 1),
        domain_name: "moved.edge.example".to_string(),
        geolocation: GeoPoint { latitude: 5, longitude: 6 },
    });
    assert_eq!(server.edge_count(), 2);
    let edge = server.edge(0).unwrap();
    assert_eq!(edge.address, ipv4(10, 0, 0, 1));
    assert_eq!(edge.domain_name, "moved.edge.example");
    assert_eq!(edge.geolocation, GeoPoint { latitude: 5, longitude: 6 });
    assert_eq!(server.health_of(ipv4(10, 0, 0, 1)), Some(HealthState { available: false, load: 0 }));
    assert_eq!(server.edge(1).unwrap().domain_name, "b.edge.example");
    server.register(EdgeServer {
        address: ipv4(10, 0, 0, 3),
        domain_name: "c.edge.example".to_string(),
        geolocation: GeoPoint { latitude: 0, longitude: 0 },
    });
    assert_eq!(server.edge_count(), 3);
    assert_eq!(server.edge(2).unwrap().address, ipv4(10, 0, 0, 3));
    assert_eq!(server.health_of(ipv4(10, 0, 0, 3)), Some(HealthState { available: true, load: 0 }));
}

#[test]
fn a_probe_changes_the_health_of_its_server_only() {
    let mut server = two_servers();
    let a = ipv4(10, 0, 0, 1);
    let b = ipv4(10, 0, 0, 2);
    assert!(server.record_probe(a, ProbeOutcome::Reading(42_000)));
    assert_eq!(server.health_of(a), Some(HealthState { available: true, load: 42_000 }));
    assert_eq!(server.health_of(b), Some(HealthState { available: true, load: 0 }));
    assert!(server.record_probe(b, ProbeOutcome::Unreachable));
    assert_eq!(server.health_of(a), Some(HealthState { available: true, load: 42_000 }));
    assert_eq!(server.health_of(b), Some(HealthState { available: false, load: 0 }));
}

#[test]
fn an_unreadable_probe_keeps_the_last_load() {
    let mut server = two_servers();
    let a = ipv4(10, 0, 0, 1);
    assert!(server.record_probe(a, ProbeOutcome::Reading(61_500)));
    assert!(server.record_probe(a, ProbeOutcome::Unreadable));
    assert_eq!(server.health_of(a), Some(HealthState { available: true, load: 61_500 }));
    assert!(server.record_probe(a, ProbeOutcome::Unreachable));
    assert!(server.record_probe(a, ProbeOutcome::Unreadable));
    assert_eq!(server.health_of(a), Some(HealthState { available: true, load: 61_500 }));
}

#[test]
fn a_probe_of_an_unknown_address_changes_nothing() {
    let mut server = two_servers();
    assert!(!server.record_probe(ipv4(10, 9, 9, 9), ProbeOutcome::Unreachable));
    assert_eq!(server.health_of(ipv4(10, 0, 0, 1)), Some(HealthState { available: true, load: 0 }));
    assert_eq!(server.health_of(ipv4(10, 0, 0, 2)), Some(HealthState { available: true, load: 0 }));
    assert_eq!(server.health_of(ipv4(10, 9, 9, 9)), None);
}

#[test]
fn resolving_asks_both_services_before_it_falls_back() {
    let server = two_servers();
    let place = GeoPoint { latitude: 0, longitude: 1_000_000 };
    assert_eq!(server.begin_resolve(7), ResolveStep::Locate(GeoService::IpApi));
    assert_eq!(server.after_lookup(GeoService::IpApi, Some(place)), ResolveStep::Measure(place));
    assert_eq!(server.after_lookup(GeoService::IpApi, None), ResolveStep::Locate(GeoService::FreeGeoIp));
    assert_eq!(server.after_lookup(GeoService::FreeGeoIp, Some(place)), ResolveStep::Measure(place));
    assert_eq!(
        server.after_lookup(GeoService::FreeGeoIp, None),
        ResolveStep::Measure(GeoPoint { latitude: 40_822_900, longitude: -74_459_200 })
    );
}

#[test]
fn the_distance_map_holds_one_distance_for_each_server() {
    let server = two_servers();
    assert_eq!(
        server.distance_map(&vec![111, 222]),
        Some(HashMap::from([(ipv4(10, 0, 0, 1), 111u64), (ipv4(10, 0, 0, 2), 222)]))
    );
    assert_eq!(server.distance_map(&vec![]), None);
    assert_eq!(server.distance_map(&vec![111]), None);
    assert_eq!(server.distance_map(&vec![111, 222, 333]), None);
    assert_eq!(DnsServer::new("53").distance_map(&vec![]), Some(HashMap::new()));
}

#[test]
fn resolving_twice_gives_the_same_map() {
    let mut server = two_servers();
    let client = client_key(b"198.51.100.7:40000");
    assert_eq!(server.begin_resolve(client), ResolveStep::Locate(GeoService::IpApi));
    let measured = measure_in_pool_order(&server, GeoPoint { latitude: 0, longitude: 1_000_000 });
    assert!(server.finish_resolve(client, &measured));
    assert_eq!(server.begin_resolve(client), ResolveStep::Cached);
    let first = server.cached_distances(client).unwrap().clone();
    assert_eq!(server.begin_resolve(client), ResolveStep::Cached);
    let second = server.cached_distances(client).unwrap().clone();
    assert_eq!(
        first,
        HashMap::from([(ipv4(10, 0, 0, 1), measured[0]), (ipv4(10, 0, 0, 2), measured[1])])
    );
    assert_eq!(second, first);
    assert_eq!(server.begin_resolve(client + 1), ResolveStep::Locate(GeoService::IpApi));
    assert!(server.cached_distances(client + 1).is_none());
}

#[test]
fn storing_again_takes_the_place_of_what_was_stored() {
    let mut server = two_servers();
    let a = ipv4(10, 0, 0, 1);
    let b = ipv4(10, 0, 0, 2);
    assert!(server.finish_resolve(5, &vec![10, 11]));
    assert!(server.finish_resolve(6, &vec![30, 31]));
    assert!(server.finish_resolve(5, &vec![20, 40]));
    assert_eq!(server.cached_distances(5), Some(&HashMap::from([(a, 20u64), (b, 40)])));
    assert_eq!(server.cached_distances(6), Some(&HashMap::from([(a, 30u64), (b, 31)])));
}

#[test]
fn distances_that_do_not_fit_the_pool_are_not_stored() {
    let mut server = two_servers();
    assert!(!server.finish_resolve(5, &vec![]));
    assert!(!server.finish_resolve(5, &vec![1]));
    assert!(!server.finish_resolve(5, &vec![1, 2, 3]));
    assert!(server.cached_distances(5).is_none());
    assert_eq!(server.begin_resolve(5), ResolveStep::Locate(GeoService::IpApi));
    assert!(server.finish_resolve(5, &vec![1, 2]));
    assert!(!server.finish_resolve(5, &vec![7]));
    assert_eq!(
        server.cached_distances(5),
        Some(&HashMap::from([(ipv4(10, 0, 0, 1), 1u64), (ipv4(10, 0, 0, 2), 2)]))
    );
}

#[test]
fn registering_a_server_empties_the_cache() {
    let mut server = two_servers();
    assert!(server.finish_resolve(5, &vec![1, 2]));
    server.register(EdgeServer {
        address: ipv4(10, 0, 0, 3),
        domain_name: "c.edge.example".to_string(),
        geolocation: GeoPoint { latitude: 0, longitude: 0 },
    });
    assert!(server.cached_distances(5).is_none());
    assert!(!server.finish_resolve(5, &vec![1, 2]));
    assert!(server.finish_resolve(5, &vec![1, 2, 3]));
    server.init_cdn_geolocation();
    assert!(server.cached_distances(5).is_none());
    assert_eq!(server.edge_count(), 10);
}

#[test]
fn setting_up_again_keeps_a_resolved_client() {
    let mut server = DnsServer::new("20310");
    server.init_cdn_geolocation();
    let first = ipv4(45, 33, 55, 171);
    assert!(server.finish_resolve(9, &vec![7, 6, 5, 4, 3, 2, 1]));
    assert!(server.record_probe(first, ProbeOutcome::Reading(40_000)));
    assert!(server.record_probe(first, ProbeOutcome::Unreachable));
    let stored = server.cached_distances(9).unwrap().clone();
    server.init_cdn_geolocation();
    assert_eq!(server.begin_resolve(9), ResolveStep::Cached);
    assert_eq!(server.cached_distances(9), Some(&stored));
    assert_eq!(stored[&first], 7);
    assert_eq!(stored[&ipv4(192, 46, 221, 203)], 1);
    assert_eq!(server.edge_count(), 7);
    assert_eq!(server.edge(0).unwrap().address, first);
    assert_eq!(server.health_of(first), Some(HealthState { available: false, load: 0 }));
    assert_eq!(server.dns_port(), "20310");
}

#[test]
fn registering_a_known_address_keeps_the_cache() {
    let mut server = two_servers();
    assert!(server.finish_resolve(5, &vec![1, 2]));
    assert!(server.register(EdgeServer {
        address: ipv4(10, 0, 0, 2),
        domain_name: "other.edge.example".to_string(),
        geolocation: GeoPoint { latitude: 1, longitude: 1 },
    }));
    assert_eq!(
        server.cached_distances(5),
        Some(&HashMap::from([(ipv4(10, 0, 0, 1), 1u64), (ipv4(10, 0, 0, 2), 2)]))
    );
    assert_eq!(server.edge(1).unwrap().domain_name, "other.edge.example");
}

#[test]
fn a_server_without_a_domain_name_is_not_registered() {
    let mut server = two_servers();
    assert!(server.finish_resolve(5, &vec![1, 2]));
    for name in ["", ".", "a..b", ".a", "edge.example.."] {
        assert!(!server.register(EdgeServer {
            address: ipv4(10, 0, 0, 3),
            domain_name: name.to_string(),
            geolocation: GeoPoint { latitude: 0, longitude: 0 },
        }));
        assert!(!server.register(EdgeServer {
            address: ipv4(10, 0, 0, 1),
            domain_name: name.to_string(),
            geolocation: GeoPoint { latitude: 0, longitude: 0 },
        }));
    }
    assert!(!server.register(EdgeServer {
        address: ipv4(10, 0, 0, 3),
        domain_name: "x".repeat(64),
        geolocation: GeoPoint { latitude: 0, longitude: 0 },
    }));
    assert_eq!(server.edge_count(), 2);
    assert_eq!(server.edge(0).unwrap().domain_name, "a.edge.example");
    assert_eq!(server.health_of(ipv4(10, 0, 0, 3)), None);
    assert!(server.cached_distances(5).is_some());
    assert!(server.register(EdgeServer {
        address: ipv4(10, 0, 0, 3),
        domain_name: "c.edge.example.".to_string(),
        geolocation: GeoPoint { latitude: 0, longitude: 0 },
    }));
    assert_eq!(server.edge_count(), 3);
    let query = dns_server::message::read_query(&datagram(91, "www.example.org")).unwrap();
    let (_, record) = the_answer(server.generate_response(&query, ipv4(10, 0, 0, 3)));
    assert_eq!(record.domain_name, "c.edge.example".parse().unwrap());
}

#[test]
fn a_resolved_client_of_a_healthy_pool_is_never_sent_to_the_fallback() {
    let mut server = DnsServer::new("20310");
    server.init_cdn_geolocation();
    let home = server.location();
    let measured = measure_in_pool_order(&server, home);
    assert!(!server.finish_resolve(9, &Vec::new()));
    assert!(server.finish_resolve(9, &measured));
    let distances = server.cached_distances(9).unwrap();
    assert_eq!(distances.len(), 7);
    assert_eq!(server.get_sorted_cdn_servers(distances).len(), 7);
    let query = dns_server::message::read_query(&datagram(90, "www.example.org")).unwrap();
    let (_, record) = the_answer(server.answer_query(&query, distances));
    assert_eq!(record.ipv4_addr.octets(), [192, 53, 123, 145]);
}

#[test]
fn the_nearer_server_is_ranked_first() {
    let server = two_servers();
    let distances = measure(&server, GeoPoint { latitude: 0, longitude: 1_000_000 });
    let to_a = distances[&ipv4(10, 0, 0, 1)];
    let to_b = distances[&ipv4(10, 0, 0, 2)];
    assert!(to_a < to_b);
    assert_eq!(
        server.get_sorted_cdn_servers(&distances),
        vec![(to_a, ipv4(10, 0, 0, 1)), (to_b, ipv4(10, 0, 0, 2))]
    );
    let query = dns_server::message::read_query(&datagram(77, "www.example.org")).unwrap();
    let (dns, record) = the_answer(server.answer_query(&query, &distances));
    assert_eq!(dns.id, 77);
    assert_eq!(dns.questions, vec![question("www.example.org")]);
    assert_eq!(record.domain_name, "a.edge.example".parse().unwrap());
    assert_eq!(record.ipv4_addr.octets(), [10, 0, 0, 1]);
    assert_eq!(record.ttl, 0);
}

#[test]
fn an_unavailable_server_is_not_ranked() {
    let mut server = two_servers();
    let distances = measure(&server, GeoPoint { latitude: 0, longitude: 1_000_000 });
    assert!(server.record_probe(ipv4(10, 0, 0, 1), ProbeOutcome::Unreachable));
    let to_b = distances[&ipv4(10, 0, 0, 2)];
    assert_eq!(server.get_sorted_cdn_servers(&distances), vec![(to_b, ipv4(10, 0, 0, 2))]);
    let query = dns_server::message::read_query(&datagram(78, "www.example.org")).unwrap();
    let (_, record) = the_answer(server.answer_query(&query, &distances));
    assert_eq!(record.domain_name, "b.edge.example".parse().unwrap());
    assert_eq!(record.ipv4_addr.octets(), [10, 0, 0, 2]);
    assert_eq!(record.ttl, 0);
}

#[test]
fn an_overloaded_server_is_not_ranked() {
    let mut server = two_servers();
    let distances = measure(&server, GeoPoint { latitude: 0, longitude: 1_000_000 });
    assert!(server.record_probe(ipv4(10, 0, 0, 1), ProbeOutcome::Reading(90_001)));
    let to_a = distances[&ipv4(10, 0, 0, 1)];
    let to_b = distances[&ipv4(10, 0, 0, 2)];
    assert_eq!(server.get_sorted_cdn_servers(&distances), vec![(to_b, ipv4(10, 0, 0, 2))]);
    assert!(server.record_probe(ipv4(10, 0, 0, 1), ProbeOutcome::Reading(90_000)));
    assert_eq!(
        server.get_sorted_cdn_servers(&distances),
        vec![(to_a, ipv4(10, 0, 0, 1)), (to_b, ipv4(10, 0, 0, 2))]
    );
}

#[test]
fn the_fallback_is_answered_where_both_are_unavailable() {
    let mut server = two_servers();
    let distances = measure(&server, GeoPoint { latitude: 0, longitude: 1_000_000 });
    assert!(server.record_probe(ipv4(10, 0, 0, 1), ProbeOutcome::Unreachable));
    assert!(server.record_probe(ipv4(10, 0, 0, 2), ProbeOutcome::Unreachable));
    assert_eq!(server.get_sorted_cdn_servers(&distances), vec![]);
    let query = dns_server::message::read_query(&datagram(79, "www.example.org")).unwrap();
    let (dns, record) = the_answer(server.answer_query(&query, &distances));
    assert_eq!(dns.id, 79);
    assert_eq!(dns.questions, vec![question("www.example.org")]);
    assert_eq!(record.domain_name, FALLBACK_NAME.parse().unwrap());
    assert_eq!(record.ipv4_addr.octets(), [3, 129, 217, 143]);
    assert_eq!(record.ttl, 0);
    assert!(dns.authorities.is_empty() && dns.additionals.is_empty());
}

#[test]
fn the_fallback_is_answered_where_all_of_the_standard_pool_are_excluded() {
    let mut server = DnsServer::new("20310");
    server.init_cdn_geolocation();
    let distances = measure(&server, server.location());
    assert_eq!(server.get_sorted_cdn_servers(&distances).len(), 7);
    for place in 0..server.edge_count() {
        let address = server.edge(place).unwrap().address;
        let outcome = if place % 2 == 0 { ProbeOutcome::Unreachable } else { ProbeOutcome::Reading(95_000) };
        assert!(server.record_probe(address, outcome));
    }
    assert_eq!(FALLBACK_ADDRESS, ipv4(3, 129, 217, 143));
    let query = dns_server::message::read_query(&datagram(80, "www.example.org")).unwrap();
    let (_, record) = the_answer(server.answer_query(&query, &distances));
    assert_eq!(record.domain_name, FALLBACK_NAME.parse().unwrap());
    assert_eq!(record.ipv4_addr.octets(), [3, 129, 217, 143]);
    assert_eq!(record.ttl, 0);
}

#[test]
fn the_fallback_is_answered_by_an_empty_service() {
    let server = DnsServer::new("20310");
    let query = dns_server::message::read_query(&datagram(81, "www.example.org")).unwrap();
    let (_, record) = the_answer(server.answer_query(&query, &HashMap::new()));
    assert_eq!(record.ipv4_addr.octets(), [3, 129, 217, 143]);
    let (_, again) = the_answer(server.answer_ranked(&query, &Vec::new()));
    assert_eq!(again.ipv4_addr.octets(), [3, 129, 217, 143]);
}

#[test]
fn the_standard_pool_sends_a_client_at_home_to_the_nearest_server() {
    let mut server = DnsServer::new("20310");
    server.init_cdn_geolocation();
    let distances = measure(&server, server.location());
    let ranked = server.get_sorted_cdn_servers(&distances);
    assert_eq!(ranked.len(), 7);
    assert_eq!(ranked[0].1, ipv4(192, 53, 123, 145));
    assert_eq!(ranked[6].1, ipv4(192, 46, 221, 203));
    for pair in ranked.windows(2) {
        assert!(pair[0].0 <= pair[1].0);
    }
    let query = dns_server::message::read_query(&datagram(82, "www.example.org")).unwrap();
    let (_, record) = the_answer(server.answer_query(&query, &distances));
    assert_eq!(record.domain_name, "cdn-http15.khoury.northeastern.edu".parse().unwrap());
    assert_eq!(record.ipv4_addr.octets(), [192, 53, 123, 145]);
}

#[test]
fn a_datagram_that_is_no_query_leaves_the_service_answering() {
    let server = two_servers();
    let distances = measure(&server, GeoPoint { latitude: 0, longitude: 9_000_000 });
    let mut broken = datagram(83, "www.example.org");
    broken.truncate(20);
    assert!(server.get_question_domain_name(&broken, "198.51.100.7:40000").is_none());
    assert!(server.get_question_domain_name(&[0xFF; 40], "198.51.100.7:40000").is_none());
    let (source, query) =
        server.get_question_domain_name(&datagram(84, "www.example.org"), "198.51.100.7:40001").unwrap();
    assert_eq!(source, "198.51.100.7:40001");
    assert_eq!(query.id, 84);
    assert_eq!(client_key(source.as_bytes()), 0xC633_6407);
    let (dns, record) = the_answer(server.answer_query(&query, &distances));
    assert_eq!(dns.id, 84);
    assert_eq!(record.domain_name, "b.edge.example".parse().unwrap());
    assert_eq!(record.ipv4_addr.octets(), [10, 0, 0, 2]);
}

#[test]
fn generate_response_names_the_server_with_the_address() {
    let server = two_servers();
    let query = dns_server::message::read_query(&datagram(85, "www.example.org")).unwrap();
    let (dns, record) = the_answer(server.generate_response(&query, ipv4(10, 0, 0, 2)));
    assert_eq!(dns.id, 85);
    assert!(dns.flags.qr && dns.flags.rd && !dns.flags.aa && !dns.flags.tc && !dns.flags.ra);
    assert_eq!(dns.flags.opcode, Opcode::Query);
    assert_eq!(dns.flags.rcode, RCode::NoError);
    assert_eq!(record.domain_name, "b.edge.example".parse().unwrap());
    assert_eq!(record.ipv4_addr.octets(), [10, 0, 0, 2]);
    assert_eq!(record.ttl, 0);
    assert!(server.generate_response(&query, ipv4(10, 0, 0, 3)).is_none());
}

#[test]
fn generate_response_when_all_are_down_names_what_it_is_given() {
    let server = two_servers();
    let query = dns_server::message::read_query(&datagram(86, "www.example.org")).unwrap();
    let (dns, record) = the_answer(server.generate_response_when_all_cdnservers_down(
        &query,
        ipv4(203, 0, 113, 9),
        "spare.example",
    ));
    assert_eq!(dns.id, 86);
    assert_eq!(record.domain_name, "spare.example".parse().unwrap());
    assert_eq!(record.ipv4_addr.octets(), [203, 0, 113, 9]);
    assert_eq!(record.ttl, 0);
}

#[test]
fn the_usage_url_names_server_and_port() {
    assert_eq!(
        DnsServer::usage_url("cdn-http3.khoury.northeastern.edu", "20310"),
        "http://cdn-http3.khoury.northeastern.edu:20310/api/getUsage"
    );
    assert_eq!(DnsServer::usage_url("", ""), "http://:/api/getUsage");
}
