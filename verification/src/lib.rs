//! An mDNS resolver/responder core: a DNS wire-format codec (RFC 1035
//! with EDNS(0), including name-compression pointers) and the decision
//! engine of a multicast-UDP query/response endpoint. Every function here
//! is verified; the sockets, threads and timers live outside the crate and
//! only carry out what the engine decides.

pub mod conn;
pub mod errors;
pub mod packer;
pub mod message;
pub mod name;
pub mod rdata;
pub mod resource;
pub mod types;
