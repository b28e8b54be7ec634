//! The core of a gateway that stands between applications and AI providers.
//!
//! A [`session`] takes one request from its first byte to its record: it decides what the
//! gateway does next by what has happened so far. The other modules hold what it decides by.
pub mod accounts;
pub mod balance;
pub mod buckets;
pub mod bytes;
pub mod chunks;
pub mod digest;
pub mod encoding;
pub mod gzip;
pub mod http;
pub mod json;
pub mod laws;
pub mod metrics;
pub mod number;
pub mod payments;
pub mod pricing;
pub mod prompt;
pub mod response;
pub mod retry;
pub mod session;
pub mod stats;
pub mod text;
pub mod usage;
