//! Decision engine of a GeoDNS load balancer: it answers an address query
//! with the healthy edge server that lies closest to the client.

pub mod address;
pub mod geo;
pub mod health;
pub mod laws;
pub mod message;
pub mod ranking;
pub mod registry;
pub mod server;
