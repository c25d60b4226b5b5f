//! Feature extraction for detecting DNS tunnelling.
//!
//! Raw query-log lines are decoded ([`parse_log`]), the query names are
//! validated and split into a primary domain and a label payload
//! ([`parse_dns`]), and per-domain sliding windows over the payloads yield the
//! counts behind every feature ([`feature_extraction`]).

pub mod ascii;
pub mod feature_extraction;
pub mod parse_dns;
pub mod parse_log;
pub mod shared_interface;
