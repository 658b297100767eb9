//! A minimal DNS codec: builds A-record queries in wire format and parses
//! response buffers into IPv4 addresses.

pub mod query;
pub mod response;
