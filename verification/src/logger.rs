use vstd::prelude::*;

verus! {

/// One structured access record, emitted for each completed (or aborted)
/// request cycle. The sink that formats and stores records is an external
/// collaborator; the engine only fills the fields.
pub struct LogRecord {
    pub timestamp_ms: u64,
    pub remote: Vec<u8>,
    pub method: Vec<u8>,
    pub path: Vec<u8>,
    pub status: u16,
    pub bytes_sent: usize,
    pub duration_ms: u64,
}

/// Builds the access record for one finished cycle, field for field.
pub fn access_record(
    timestamp_ms: u64,
    remote: Vec<u8>,
    method: Vec<u8>,
    path: Vec<u8>,
    status: u16,
    bytes_sent: usize,
    duration_ms: u64,
) -> (r: LogRecord)
    ensures
        r.timestamp_ms == timestamp_ms,
        r.remote@ == remote@,
        r.method@ == method@,
        r.path@ == path@,
        r.status == status,
        r.bytes_sent == bytes_sent,
        r.duration_ms == duration_ms,
{
    LogRecord { timestamp_ms, remote, method, path, status, bytes_sent, duration_ms }
}

} // verus!
