use vstd::prelude::*;

verus! {

/// One request of a web server's access log, as carried alongside a transaction
/// into the replicated log.
#[derive(Clone, Debug, Default, PartialOrd, PartialEq, Eq, Hash)]
pub struct AccessLogEntry {
    pub ip: String,
    pub day: u8,
    pub month: String,
    pub year: u16,
    pub time: String,
    pub offset: i16,
    pub method: String,
    pub url: String,
    pub protocol: String,
    pub status_code: u16,
    pub response_size: u16,
}

} // verus!
