//! Places on the globe, and the order in which a client's place is sought.

use vstd::prelude::*;

verus! {

/// A point on the globe. Both coordinates count millionths of a degree, north
/// and east being positive.
#[derive(Clone, Copy, Debug, PartialEq, Eq, Structural)]
pub struct GeoPoint {
    pub latitude: i32,
    pub longitude: i32,
}

/// The two geolocation services, in the order in which they are asked.
#[derive(Clone, Copy, Debug, PartialEq, Eq, Structural)]
pub enum GeoService {
    /// The service asked first.
    IpApi,
    /// The service asked where the first has failed.
    FreeGeoIp,
}

/// What is to happen next while a client is being located.
#[derive(Clone, Copy, Debug, PartialEq, Eq, Structural)]
pub enum LookupStep {
    /// Ask this service for the client's place.
    Ask(GeoService),
    /// The search has ended: the client counts as being at this point.
    Settled(GeoPoint),
}

/// The step that follows the answer `found` of the service `asked`. A place
/// that was found settles the search; failure of the first service leads to
/// the second, failure of the second to `fallback`.
pub open spec fn step_after(asked: GeoService, found: Option<GeoPoint>, fallback: GeoPoint) -> LookupStep {
    match found {
        Some(place) => LookupStep::Settled(place),
        None => match asked {
            GeoService::IpApi => LookupStep::Ask(GeoService::FreeGeoIp),
            GeoService::FreeGeoIp => LookupStep::Settled(fallback),
        },
    }
}

/// Where a client counts as being, given what each service would answer: the
/// first answer that is a place, else `fallback`.
pub open spec fn located(first: Option<GeoPoint>, second: Option<GeoPoint>, fallback: GeoPoint) -> GeoPoint {
    match first {
        Some(place) => place,
        None => match second {
            Some(place) => place,
            None => fallback,
        },
    }
}

/// The step that follows one service's answer.
pub fn next_lookup(asked: GeoService, found: Option<GeoPoint>, fallback: GeoPoint) -> (step: LookupStep)
    ensures
        step == step_after(asked, found, fallback),
{
    match found {
        Some(place) => LookupStep::Settled(place),
        None => match asked {
            GeoService::IpApi => LookupStep::Ask(GeoService::FreeGeoIp),
            GeoService::FreeGeoIp => LookupStep::Settled(fallback),
        },
    }
}

} // verus!
