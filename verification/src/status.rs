//! A point-in-time snapshot of the reader thread's connection/logging
//! state, shared so that both the reader thread (writer) and
//! CLI/MCP callers (readers) can access it without going through the
//! command channel.

use crate::clock::{instant_now, span_between, whole_seconds};
use crate::text::copied;
use std::time::Instant;
use vstd::prelude::*;

verus! {

#[derive(Debug)]
pub struct ReaderStatus {
    pub connected: bool,
    /// True while the port has been released on request and auto-reconnect is off.
    pub closed: bool,
    pub port: String,
    pub baud: u32,
    pub file_log_path: Option<String>,
    pub stats_file_path: Option<String>,
    pub last_error: Option<String>,
    pub started_at: Instant,
}

/// What a status says.
pub struct StatusView {
    pub connected: bool,
    pub closed: bool,
    pub port: Seq<char>,
    pub baud: u32,
    pub file_log_path: Option<Seq<char>>,
    pub stats_file_path: Option<Seq<char>>,
    pub last_error: Option<Seq<char>>,
    pub started_at: Instant,
}

/// For how many whole seconds the reader that shows this status has been running at `now`.
pub open spec fn uptime_of(status: StatusView, now: Instant) -> nat {
    crate::clock::nanos(crate::clock::between(status.started_at, now)) / 1_000_000_000
}

impl View for ReaderStatus {
    type V = StatusView;

    open spec fn view(&self) -> StatusView {
        StatusView {
            connected: self.connected,
            closed: self.closed,
            port: self.port@,
            baud: self.baud,
            file_log_path: crate::text::opt_text(self.file_log_path),
            stats_file_path: crate::text::opt_text(self.stats_file_path),
            last_error: crate::text::opt_text(self.last_error),
            started_at: self.started_at,
        }
    }
}

impl Clone for ReaderStatus {
    fn clone(&self) -> (copy: Self)
        ensures
            copy@ == self@,
    {
        ReaderStatus {
            connected: self.connected,
            closed: self.closed,
            port: self.port.clone(),
            baud: self.baud,
            file_log_path: copied(&self.file_log_path),
            stats_file_path: copied(&self.stats_file_path),
            last_error: copied(&self.last_error),
            started_at: self.started_at,
        }
    }
}

impl ReaderStatus {
    pub fn new(port: String, baud: u32) -> (status: Self)
        ensures
            status@ == (StatusView {
                connected: false,
                closed: false,
                port: port@,
                baud,
                file_log_path: None,
                stats_file_path: None,
                last_error: None,
                started_at: status.started_at,
            }),
    {
        ReaderStatus {
            connected: false,
            closed: false,
            port,
            baud,
            file_log_path: None,
            stats_file_path: None,
            last_error: None,
            started_at: instant_now(),
        }
    }

    /// How long the reader has been running at `now`, in whole seconds.
    pub fn uptime_at(&self, now: &Instant) -> (seconds: u64)
        ensures
            seconds == uptime_of(self@, *now),
    {
        let gone_by = span_between(&self.started_at, now);
        whole_seconds(&gone_by)
    }

    /// How long the reader has been running, in whole seconds. What time it is is up to the
    /// machine's clock.
    pub fn uptime_seconds(&self) -> (seconds: u64)
        ensures
            exists|now: Instant| seconds == #[trigger] uptime_of(self@, now),
    {
        let now = instant_now();
        self.uptime_at(&now)
    }
}

/// The running time is told in whole seconds: as many as have gone by in full, and no more.
pub proof fn uptime_counts_full_seconds(status: StatusView, now: Instant)
    ensures
        ({
            let gone_by = crate::clock::nanos(crate::clock::between(status.started_at, now));
            &&& uptime_of(status, now) * 1_000_000_000 <= gone_by
            &&& gone_by < (uptime_of(status, now) + 1) * 1_000_000_000
        }),
{
}

/// A status says what its fields say.
pub proof fn a_status_says_what_its_fields_say(status: ReaderStatus)
    ensures
        status@.connected == status.connected,
        status@.closed == status.closed,
        status@.port == status.port@,
        status@.baud == status.baud,
        status@.file_log_path is Some <==> status.file_log_path is Some,
        status.file_log_path matches Some(path) ==> status@.file_log_path == Some(path@),
        status@.stats_file_path is Some <==> status.stats_file_path is Some,
        status.stats_file_path matches Some(path) ==> status@.stats_file_path == Some(path@),
        status@.last_error is Some <==> status.last_error is Some,
        status.last_error matches Some(e) ==> status@.last_error == Some(e@),
        status@.started_at == status.started_at,
{
}

} // verus!
