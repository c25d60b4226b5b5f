//! The records that pass from the preprocessing of a log to the extraction
//! of features.

use vstd::prelude::*;

use crate::parse_dns::DnsPayload;

verus! {

/// One query of a log: its number in the log, the time at which it was seen,
/// and its payload. The time is a whole number of ticks of a clock that all
/// records of a run share.
#[derive(Debug, Clone, PartialEq, Eq)]
pub struct LogRecord {
    pub id: usize,
    pub ts: i64,
    pub payload: DnsPayload,
}

/// What preprocessing knows of a primary domain: its number, the length of
/// its name, and how many records it has.
#[derive(Debug, Clone, Copy, PartialEq, Eq)]
pub struct PrimaryDomainStats {
    pub id: u32,
    pub length: u8,
    pub count: usize,
}

/// A record with the number of the primary domain that it belongs to.
pub type SerializedLogEntry = (u32, LogRecord);

} // verus!
