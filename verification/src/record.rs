//! The record model: one structured unit of access-log data.
//!
//! The transport layer hands the relay an externally defined structured
//! message.  The fields the relay's logic reads are held here as plain
//! values: byte strings for the textual fields and an integer for the
//! status code.  The boundary code converts the wire message into this
//! type before any core function sees it.

use vstd::prelude::*;

verus! {

/// One request/response event inside a record: the request path and the
/// response status code.
#[derive(Debug, Clone, PartialEq, Eq)]
pub struct LogEntry {
    pub path: Vec<u8>,
    pub status: u64,
}

/// Mathematical model of a `LogEntry`.
pub ghost struct EntryModel {
    pub path: Seq<u8>,
    pub status: u64,
}

impl View for LogEntry {
    type V = EntryModel;

    open spec fn view(&self) -> EntryModel {
        EntryModel { path: self.path@, status: self.status }
    }
}

/// One structured unit of access-log data received on a session, immutable
/// once received.
#[derive(Debug, Clone, PartialEq, Eq)]
pub struct LogRecord {
    pub log_name: Vec<u8>,
    pub node_id: Vec<u8>,
    pub entries: Vec<LogEntry>,
}

/// Mathematical model of a `LogRecord`.
pub ghost struct RecordModel {
    pub log_name: Seq<u8>,
    pub node_id: Seq<u8>,
    pub entries: Seq<EntryModel>,
}

impl View for LogRecord {
    type V = RecordModel;

    open spec fn view(&self) -> RecordModel {
        RecordModel {
            log_name: self.log_name@,
            node_id: self.node_id@,
            entries: self.entries@.map_values(|e: LogEntry| e@),
        }
    }
}

} // verus!
