//! Verified core of an IP address management (IPAM) library.
//!
//! The library hands out unique IP addresses (with their gateways) from
//! administrator-declared address ranges and reclaims them on release.
//! Addresses are held as plain machine integers, subnets as an address plus a
//! prefix length, so every rule of the allocator is stated and proved over
//! ordinary arithmetic.

pub mod allocator;
pub mod ip;
pub mod memstore;
pub mod range;
pub mod rangeiter;
pub mod rangeset;
pub mod store;
pub mod subnet;
