//! The pool of edge servers: set up when the service starts, read ever after.

use vstd::prelude::*;
use vstd::utf8::{encode_utf8, is_ascii_chars, is_ascii_chars_encode_utf8};
use crate::address::{ipv4, quad};
use crate::geo::GeoPoint;
use crate::health::HealthState;
use crate::message::{lemma_label_fits, names_a_domain};

verus! {

/// One edge server. Nothing of it changes once the pool is set up.
pub struct EdgeServer {
    /// Its IPv4 address, first field highest.
    pub address: u32,
    /// The name under which it is handed out and probed.
    pub domain_name: String,
    /// Where it stands.
    pub geolocation: GeoPoint,
}

/// An edge server as contracts speak of it.
pub struct EdgeView {
    pub address: u32,
    pub domain_name: Seq<char>,
    pub geolocation: GeoPoint,
}

impl View for EdgeServer {
    type V = EdgeView;

    open spec fn view(&self) -> EdgeView {
        EdgeView { address: self.address, domain_name: self.domain_name@, geolocation: self.geolocation }
    }
}

/// The servers of a pool as contracts speak of them.
pub open spec fn views(pool: Seq<EdgeServer>) -> Seq<EdgeView> {
    pool.map_values(|server: EdgeServer| server@)
}

/// No two servers of the pool share an address.
pub open spec fn distinct_addresses(pool: Seq<EdgeView>) -> bool {
    forall|i: int, j: int|
        0 <= i < j < pool.len() ==> (#[trigger] pool[i]).address != (#[trigger] pool[j]).address
}

/// The place in the pool of a server with this address, if there is one.
pub open spec fn place_of(pool: Seq<EdgeView>, address: u32) -> Option<int> {
    if exists|i: int| 0 <= i < pool.len() && (#[trigger] pool[i]).address == address {
        Some(choose|i: int| 0 <= i < pool.len() && (#[trigger] pool[i]).address == address)
    } else {
        None
    }
}

/// In a pool without shared addresses, a server's place is the place of its
/// address.
pub proof fn lemma_place_of(pool: Seq<EdgeView>, i: int)
    requires
        distinct_addresses(pool),
        0 <= i < pool.len(),
    ensures
        place_of(pool, pool[i].address) == Some(i),
{
    let address = pool[i].address;
    let chosen = choose|j: int| 0 <= j < pool.len() && (#[trigger] pool[j]).address == address;
    if chosen < i {
        assert(pool[chosen].address != pool[i].address);
    } else if chosen > i {
        assert(pool[i].address != pool[chosen].address);
    }
}

/// The map that gives each server of the pool, by its address, the distance
/// at its place in `distances`.
pub open spec fn distances_by_address(pool: Seq<EdgeView>, distances: Seq<u64>) -> Map<u32, u64> {
    Map::new(
        |address: u32| place_of(pool, address) is Some,
        |address: u32| distances[place_of(pool, address).unwrap()],
    )
}

/// `distances` holds a distance for the address of each server of the pool,
/// and for no other address.
pub open spec fn covers(pool: Seq<EdgeView>, distances: Map<u32, u64>) -> bool {
    forall|address: u32| distances.contains_key(address) <==> place_of(pool, address) is Some
}

/// The health of the servers once the loads of the first `upto` of them have
/// been set to nothing. What is known of availability stays.
pub open spec fn loads_reset(health: Seq<HealthState>, upto: int) -> Seq<HealthState> {
    Seq::new(
        health.len(),
        |i: int|
            if i < upto {
                HealthState { available: health[i].available, load: 0 }
            } else {
                health[i]
            },
    )
}

/// Every server of the pool goes by a text that writes a domain name.
pub open spec fn all_named(pool: Seq<EdgeView>) -> bool {
    forall|i: int| 0 <= i < pool.len() ==> names_a_domain((#[trigger] pool[i]).domain_name)
}

/// The pool and the health of its servers once `server` has been registered.
/// A server whose name writes no domain name is not taken in. One whose
/// address is new goes to the end, available and idle. One whose address is
/// known takes the place of the server that had it: the load there starts
/// again at nothing, and what is known of its availability stays.
pub open spec fn with_server(pool: Seq<EdgeView>, health: Seq<HealthState>, server: EdgeView) -> (
    Seq<EdgeView>,
    Seq<HealthState>,
) {
    if !names_a_domain(server.domain_name) {
        (pool, health)
    } else {
        match place_of(pool, server.address) {
            Some(i) => (
                pool.update(i, server),
                health.update(i, HealthState { available: health[i].available, load: 0 }),
            ),
            None => (pool.push(server), health.push(HealthState::initial())),
        }
    }
}

/// Registering a server that is taken in adds its address to those that the
/// pool holds, and no other.
pub proof fn lemma_with_server_addresses(
    pool: Seq<EdgeView>,
    health: Seq<HealthState>,
    server: EdgeView,
    address: u32,
)
    ensures
        place_of(with_server(pool, health, server).0, address) is Some <==> (place_of(pool, address) is Some
            || (names_a_domain(server.domain_name) && address == server.address)),
{
    let next = with_server(pool, health, server).0;
    if !names_a_domain(server.domain_name) {
        return ;
    }
    match place_of(pool, server.address) {
        Some(i) => {
            assert(next =~= pool.update(i, server));
            if place_of(next, address) is Some {
                let j = place_of(next, address).unwrap();
                if j != i {
                    assert(pool[j].address == address);
                }
            }
            if place_of(pool, address) is Some {
                let j = place_of(pool, address).unwrap();
                if j != i {
                    assert(next[j].address == address);
                } else {
                    assert(next[i].address == address);
                }
            }
            if address == server.address {
                assert(next[i].address == address);
            }
        },
        None => {
            assert(next =~= pool.push(server));
            if place_of(next, address) is Some {
                let j = place_of(next, address).unwrap();
                if j < pool.len() {
                    assert(pool[j].address == address);
                }
            }
            if place_of(pool, address) is Some {
                let j = place_of(pool, address).unwrap();
                assert(next[j].address == address);
            }
            if address == server.address {
                assert(next[pool.len() as int].address == address);
            }
        },
    }
}

/// Whether the pool holds the address of each of `servers`.
pub open spec fn holds_addresses_of(pool: Seq<EdgeView>, servers: Seq<EdgeView>) -> bool {
    forall|i: int| 0 <= i < servers.len() ==> place_of(pool, (#[trigger] servers[i]).address) is Some
}

/// The pool and the health of its servers once each of `servers` has been
/// registered, the first of them first.
pub open spec fn with_servers(pool: Seq<EdgeView>, health: Seq<HealthState>, servers: Seq<EdgeView>) -> (
    Seq<EdgeView>,
    Seq<HealthState>,
)
    decreases servers.len(),
{
    if servers.len() == 0 {
        (pool, health)
    } else {
        let before = with_servers(pool, health, servers.drop_last());
        with_server(before.0, before.1, servers.last())
    }
}

/// How many servers the standard pool holds.
pub const STANDARD_POOL_SIZE: usize = 7;

/// The edge servers that the service is set up with.
pub open spec fn standard_pool() -> Seq<EdgeView> {
    seq![
        EdgeView {
            address: quad(45, 33, 55, 171),
            domain_name: "cdn-http3.khoury.northeastern.edu"@,
            geolocation: GeoPoint { latitude: 37_562_500, longitude: -122_000_400i32 },
        },
        EdgeView {
            address: quad(170, 187, 142, 220),
            domain_name: "cdn-http4.khoury.northeastern.edu"@,
            geolocation: GeoPoint { latitude: 33_748_500, longitude: -84_387_100i32 },
        },
        EdgeView {
            address: quad(213, 168, 249, 157),
            domain_name: "cdn-http7.khoury.northeastern.edu"@,
            geolocation: GeoPoint { latitude: 51_507_400, longitude: -119_600i32 },
        },
        EdgeView {
            address: quad(139, 162, 82, 207),
            domain_name: "cdn-http11.khoury.northeastern.edu"@,
            geolocation: GeoPoint { latitude: 35_689_300, longitude: 139_689_900 },
        },
        EdgeView {
            address: quad(45, 79, 124, 209),
            domain_name: "cdn-http14.khoury.northeastern.edu"@,
            geolocation: GeoPoint { latitude: 19_074_800, longitude: 72_885_600 },
        },
        EdgeView {
            address: quad(192, 53, 123, 145),
            domain_name: "cdn-http15.khoury.northeastern.edu"@,
            geolocation: GeoPoint { latitude: 43_709_000, longitude: -79_405_700i32 },
        },
        EdgeView {
            address: quad(192, 46, 221, 203),
            domain_name: "cdn-http16.khoury.northeastern.edu"@,
            geolocation: GeoPoint { latitude: -33_871_500i32, longitude: 151_200_600 },
        },
    ]
}

/// No two servers of the standard pool share an address.
pub proof fn lemma_standard_pool_distinct()
    ensures
        standard_pool().len() == STANDARD_POOL_SIZE,
        distinct_addresses(standard_pool()),
{
}

/// A text of ASCII characters in four parts of 1 to 63 characters, with a `.`
/// at `first`, `second` and `third` and nowhere else, writes a domain name.
pub proof fn lemma_four_labels(name: Seq<char>, first: int, second: int, third: int)
    requires
        is_ascii_chars(name),
        name.len() <= 254,
        1 <= first <= 63,
        1 <= second - first - 1 <= 63,
        1 <= third - second - 1 <= 63,
        1 <= name.len() - third - 1 <= 63,
        name[first] == '.' && name[second] == '.' && name[third] == '.',
        forall|j: int|
            0 <= j < name.len() && j != first && j != second && j != third ==> name[j] != '.',
    ensures
        names_a_domain(name),
{
    is_ascii_chars_encode_utf8(name);
    let bytes = encode_utf8(name);
    let n = bytes.len() as int;
    assert forall|j: int| 0 <= j < n && j != first && j != second && j != third implies bytes[j]
        != 46u8 by {
        assert(name[j] as u8 == bytes[j]);
    }
    assert(bytes[first] == 46u8 && bytes[second] == 46u8 && bytes[third] == 46u8) by {
        assert(name[first] as u8 == bytes[first]);
        assert(name[second] as u8 == bytes[second]);
        assert(name[third] as u8 == bytes[third]);
    }
    lemma_label_fits(bytes, third + 1, n);
    lemma_label_fits(bytes, second + 1, third);
    lemma_label_fits(bytes, first + 1, second);
    lemma_label_fits(bytes, 0, first);
    assert(bytes.skip(0) =~= bytes);
}

/// Every server of the standard pool goes by a text that writes a domain
/// name.
pub proof fn lemma_standard_pool_named()
    ensures
        all_named(standard_pool()),
{
    reveal_strlit("cdn-http3.khoury.northeastern.edu");
    reveal_strlit("cdn-http4.khoury.northeastern.edu");
    reveal_strlit("cdn-http7.khoury.northeastern.edu");
    reveal_strlit("cdn-http11.khoury.northeastern.edu");
    reveal_strlit("cdn-http14.khoury.northeastern.edu");
    reveal_strlit("cdn-http15.khoury.northeastern.edu");
    reveal_strlit("cdn-http16.khoury.northeastern.edu");
    lemma_four_labels("cdn-http3.khoury.northeastern.edu"@, 9, 16, 29);
    lemma_four_labels("cdn-http4.khoury.northeastern.edu"@, 9, 16, 29);
    lemma_four_labels("cdn-http7.khoury.northeastern.edu"@, 9, 16, 29);
    lemma_four_labels("cdn-http11.khoury.northeastern.edu"@, 10, 17, 30);
    lemma_four_labels("cdn-http14.khoury.northeastern.edu"@, 10, 17, 30);
    lemma_four_labels("cdn-http15.khoury.northeastern.edu"@, 10, 17, 30);
    lemma_four_labels("cdn-http16.khoury.northeastern.edu"@, 10, 17, 30);
}

/// The server at one place of the standard pool; `None` past its end.
pub fn standard_server(place: usize) -> (server: Option<EdgeServer>)
    ensures
        match server {
            Some(s) => place < STANDARD_POOL_SIZE && s@ == standard_pool()[place as int],
            None => place >= STANDARD_POOL_SIZE,
        },
{
    if place == 0 {
        Some(
            EdgeServer {
                address: ipv4(45, 33, 55, 171),
                domain_name: "cdn-http3.khoury.northeastern.edu".to_owned(),
                geolocation: GeoPoint { latitude: 37_562_500, longitude: -122_000_400 },
            },
        )
    } else if place == 1 {
        Some(
            EdgeServer {
                address: ipv4(170, 187, 142, 220),
                domain_name: "cdn-http4.khoury.northeastern.edu".to_owned(),
                geolocation: GeoPoint { latitude: 33_748_500, longitude: -84_387_100 },
            },
        )
    } else if place == 2 {
        Some(
            EdgeServer {
                address: ipv4(213, 168, 249, 157),
                domain_name: "cdn-http7.khoury.northeastern.edu".to_owned(),
                geolocation: GeoPoint { latitude: 51_507_400, longitude: -119_600 },
            },
        )
    } else if place == 3 {
        Some(
            EdgeServer {
                address: ipv4(139, 162, 82, 207),
                domain_name: "cdn-http11.khoury.northeastern.edu".to_owned(),
                geolocation: GeoPoint { latitude: 35_689_300, longitude: 139_689_900 },
            },
        )
    } else if place == 4 {
        Some(
            EdgeServer {
                address: ipv4(45, 79, 124, 209),
                domain_name: "cdn-http14.khoury.northeastern.edu".to_owned(),
                geolocation: GeoPoint { latitude: 19_074_800, longitude: 72_885_600 },
            },
        )
    } else if place == 5 {
        Some(
            EdgeServer {
                address: ipv4(192, 53, 123, 145),
                domain_name: "cdn-http15.khoury.northeastern.edu".to_owned(),
                geolocation: GeoPoint { latitude: 43_709_000, longitude: -79_405_700 },
            },
        )
    } else if place == 6 {
        Some(
            EdgeServer {
                address: ipv4(192, 46, 221, 203),
                domain_name: "cdn-http16.khoury.northeastern.edu".to_owned(),
                geolocation: GeoPoint { latitude: -33_871_500, longitude: 151_200_600 },
            },
        )
    } else {
        None
    }
}

/// Looks an address up in the pool.
pub fn find_place(pool: &Vec<EdgeServer>, address: u32) -> (place: Option<usize>)
    ensures
        match place {
            Some(i) => i < pool.len() && pool[i as int].address == address,
            None => forall|i: int| 0 <= i < pool.len() ==> (#[trigger] pool[i]).address != address,
        },
        match place {
            Some(i) => place_of(views(pool@), address) is Some,
            None => place_of(views(pool@), address) is None,
        },
        distinct_addresses(views(pool@)) ==> match place {
            Some(i) => place_of(views(pool@), address) == Some(i as int),
            None => true,
        },
{
    let mut i: usize = 0;
    while i < pool.len()
        invariant
            i <= pool.len(),
            forall|j: int| 0 <= j < i ==> (#[trigger] pool[j]).address != address,
        decreases pool.len() - i,
    {
        if pool[i].address == address {
            proof {
                assert(views(pool@)[i as int].address == address);
                if distinct_addresses(views(pool@)) {
                    lemma_place_of(views(pool@), i as int);
                }
            }
            return Some(i);
        }
        i += 1;
    }
    proof {
        assert forall|j: int| 0 <= j < views(pool@).len() implies (#[trigger] views(pool@)[j]).address
            != address by {
            assert(pool[j].address != address);
        }
    }
    None
}

} // verus!
