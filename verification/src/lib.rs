//! A verified core of a single-node, multi-tenant embedded document-database
//! engine: storage registries, a key/value store with TTL expiration, view
//! maintenance scheduling, a pub/sub relay, a page codec, and the wire
//! protocol used by the networked client.
#![allow(unused_imports)]

pub mod client;
pub mod codec;
pub mod database;
pub mod error;
pub mod expiration;
pub mod kv;
pub mod pubsub;
pub mod storage;
pub mod views;
pub mod wire;
