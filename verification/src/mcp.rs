//! The tools of the MCP server: how a request is read, what a tool's work amounts to, and
//! what is replied.

use crate::filelog::{FileLogInfo, FileLogSummary};
use crate::logbuf::{LogEntry, RingBuffer};
#[allow(unused_imports)]
use crate::logbuf::{LogEntryView, RingView};
use crate::paths::display;
use crate::pattern::{compile, error_text, is_match};
use crate::serial::ResetOutcome;
use crate::status::ReaderStatus;
#[allow(unused_imports)]
use crate::status::StatusView;
use crate::text::{contains_text, copied, joined, same_text};
use regex::Regex;
use std::path::PathBuf;
use vstd::prelude::*;

verus! {

/// Why a tool could not do what it was asked.
#[derive(Debug)]
pub enum ToolError {
    /// The request itself is at fault.
    InvalidParams(String),
}

/// The request is at fault, for this reason.
pub open spec fn is_invalid(e: ToolError, why: Seq<char>) -> bool {
    e matches ToolError::InvalidParams(message) && message@ == why
}

/// The text that Rust's `Debug` shows for `text`: in quotes, with escapes.
pub uninterp spec fn quoted(text: Seq<char>) -> Seq<char>;

/// `str`'s `Debug`: `text` in quotes, with escapes, under the name `quoted`.
#[verifier::external_body]
fn quote(text: &str) -> (shown: String)
    ensures
        shown@ == quoted(text@),
{
    format!("{text:?}")
}

/// What `reset` replies.
#[derive(Debug, Clone, Copy, PartialEq, Eq, Structural)]
pub struct ResetResult {
    pub confirmed: bool,
    pub attempts: u32,
    pub bytes_seen: usize,
}

/// What `reset` replies when the reset came to this outcome.
pub fn reset_reply(outcome: &ResetOutcome) -> (reply: ResetResult)
    ensures
        reply == (ResetResult {
            confirmed: outcome.confirmed,
            attempts: outcome.attempts,
            bytes_seen: outcome.bytes_seen,
        }),
{
    ResetResult {
        confirmed: outcome.confirmed,
        attempts: outcome.attempts,
        bytes_seen: outcome.bytes_seen,
    }
}

/// What `power` can bring about.
#[derive(Debug, Clone, Copy, PartialEq, Eq, Structural)]
pub enum PowerState {
    On,
    Off,
}

/// What `power` replies.
#[derive(Debug)]
pub struct PowerResult {
    pub state: String,
    pub confirmed: bool,
}

/// Reads the state that `power` was asked for: "on" or "off".
pub fn power_state(state: &str) -> (wanted: Result<PowerState, ToolError>)
    ensures
        if state@ == "on"@ {
            wanted == Ok::<PowerState, ToolError>(PowerState::On)
        } else if state@ == "off"@ {
            wanted == Ok::<PowerState, ToolError>(PowerState::Off)
        } else {
            wanted matches Err(e) && is_invalid(
                e,
                "state must be \"on\" or \"off\", got "@ + quoted(state@),
            )
        },
{
    if same_text(state, "on") {
        Ok(PowerState::On)
    } else if same_text(state, "off") {
        Ok(PowerState::Off)
    } else {
        Err(
            ToolError::InvalidParams(
                joined("state must be \"on\" or \"off\", got ", quote(state).as_str()),
            ),
        )
    }
}

/// What `power` replies when the board was reset to power it on.
pub fn power_on_reply(outcome: &ResetOutcome) -> (reply: PowerResult)
    ensures
        reply.state@ == "on"@,
        reply.confirmed == outcome.confirmed,
{
    PowerResult { state: "on".to_string(), confirmed: outcome.confirmed }
}

/// What `power` replies when the board is held in power-off.
pub fn power_off_reply() -> (reply: PowerResult)
    ensures
        reply.state@ == "off"@,
        reply.confirmed,
{
    PowerResult { state: "off".to_string(), confirmed: true }
}

/// What `close` replies.
#[derive(Debug, Clone, Copy, PartialEq, Eq, Structural)]
pub struct CloseResult {
    pub closed: bool,
}

/// What `close` replies when the port has been let go.
pub fn close_reply() -> (reply: CloseResult)
    ensures
        reply.closed,
{
    CloseResult { closed: true }
}

/// What `open` replies.
#[derive(Debug)]
pub struct OpenResult {
    pub connected: bool,
    pub error: Option<String>,
}

/// What `open` replies: a failed attempt is no error of the tool, for reconnecting goes on.
pub fn open_reply(opened: Result<(), String>) -> (reply: OpenResult)
    ensures
        match opened {
            Ok(_) => reply.connected && reply.error is None,
            Err(why) => !reply.connected && reply.error == Some(why),
        },
{
    match opened {
        Ok(()) => OpenResult { connected: true, error: None },
        Err(why) => OpenResult { connected: false, error: Some(why) },
    }
}

/// What `read_logs` was asked for.
#[derive(Debug)]
pub struct ReadLogsParams {
    /// Number of most recent lines to return (ignored if since_seq is set). Defaults to 200.
    pub lines: Option<usize>,
    /// Return only entries with seq strictly greater than this value.
    pub since_seq: Option<u64>,
    /// Only include lines matching this pattern (substring, or regex if `regex` is true).
    pub search: Option<String>,
    /// Treat `search` as a regular expression instead of a plain substring.
    pub regex: Option<bool>,
}

/// How many lines `read_logs` returns where nothing is given.
pub const DEFAULT_READ_LINES: usize = 200;

/// What `read_logs` replies.
#[derive(Debug)]
pub struct ReadLogsResult {
    pub entries: Vec<LogEntry>,
    pub newest_seq: Option<u64>,
    pub total_buffered: usize,
    pub truncated: bool,
}

/// The entries in which `pattern` stands.
pub open spec fn containing(entries: Seq<LogEntryView>, pattern: Seq<char>) -> Seq<LogEntryView> {
    entries.filter(|e: LogEntryView| crate::text::has_text(e.text, pattern))
}

/// The entries that `re` matches.
pub open spec fn matching(entries: Seq<LogEntryView>, re: Regex) -> Seq<LogEntryView> {
    entries.filter(|e: LogEntryView| crate::pattern::regex_matches(re, e.text))
}

/// Keeps the entries in which `pattern` stands.
pub fn keep_containing(entries: Vec<LogEntry>, pattern: &str) -> (kept: Vec<LogEntry>)
    ensures
        crate::logbuf::entry_views(kept@) == containing(
            crate::logbuf::entry_views(entries@),
            pattern@,
        ),
{
    let ghost views = crate::logbuf::entry_views(entries@);
    let ghost keep = |e: LogEntryView| crate::text::has_text(e.text, pattern@);
    let mut kept: Vec<LogEntry> = Vec::new();
    let mut i: usize = 0;
    proof {
        reveal(Seq::filter);
        assert(views.take(0) =~= Seq::empty());
        assert(crate::logbuf::entry_views(kept@) =~= views.take(0).filter(keep));
    }
    while i < entries.len()
        invariant
            i <= entries.len(),
            views == crate::logbuf::entry_views(entries@),
            keep == (|e: LogEntryView| crate::text::has_text(e.text, pattern@)),
            crate::logbuf::entry_views(kept@) == views.take(i as int).filter(keep),
        decreases entries.len() - i,
    {
        let ghost before = crate::logbuf::entry_views(kept@);
        proof {
            crate::logbuf::lemma_filter_take(views, keep, i as int);
        }
        if contains_text(entries[i].text.as_str(), pattern) {
            kept.push(entries[i].clone());
            assert(crate::logbuf::entry_views(kept@) =~= before.push(views[i as int]));
        }
        i += 1;
    }
    assert(views.take(entries@.len() as int) =~= views);
    kept
}

/// Keeps the entries that `re` matches.
pub fn keep_matching(entries: Vec<LogEntry>, re: &Regex) -> (kept: Vec<LogEntry>)
    ensures
        crate::logbuf::entry_views(kept@) == matching(crate::logbuf::entry_views(entries@), *re),
{
    let ghost views = crate::logbuf::entry_views(entries@);
    let ghost keep = |e: LogEntryView| crate::pattern::regex_matches(*re, e.text);
    let mut kept: Vec<LogEntry> = Vec::new();
    let mut i: usize = 0;
    proof {
        reveal(Seq::filter);
        assert(views.take(0) =~= Seq::empty());
        assert(crate::logbuf::entry_views(kept@) =~= views.take(0).filter(keep));
    }
    while i < entries.len()
        invariant
            i <= entries.len(),
            views == crate::logbuf::entry_views(entries@),
            keep == (|e: LogEntryView| crate::pattern::regex_matches(*re, e.text)),
            crate::logbuf::entry_views(kept@) == views.take(i as int).filter(keep),
        decreases entries.len() - i,
    {
        let ghost before = crate::logbuf::entry_views(kept@);
        proof {
            crate::logbuf::lemma_filter_take(views, keep, i as int);
        }
        if is_match(re, entries[i].text.as_str()) {
            kept.push(entries[i].clone());
            assert(crate::logbuf::entry_views(kept@) =~= before.push(views[i as int]));
        }
        i += 1;
    }
    assert(views.take(entries@.len() as int) =~= views);
    kept
}

/// `kept` is what a search by regular expression leaves of `entries`, given what compiling
/// the pattern came to.
pub open spec fn is_regex_search(
    entries: Seq<LogEntryView>,
    compiled: Result<Regex, regex::Error>,
    kept: Result<Vec<LogEntry>, ToolError>,
) -> bool {
    match compiled {
        Ok(re) => kept matches Ok(kept) && crate::logbuf::entry_views(kept@) == matching(
            entries,
            re,
        ),
        Err(why) => kept matches Err(e) && is_invalid(
            e,
            "invalid regex: "@ + crate::pattern::regex_error_text(why),
        ),
    }
}

/// `kept` is what a search leaves of `entries`: all where there is nothing to search for,
/// else the entries that the text stands in, or that it matches as a regular expression.
pub open spec fn is_search(
    entries: Seq<LogEntryView>,
    search: Option<Seq<char>>,
    regex: bool,
    kept: Result<Vec<LogEntry>, ToolError>,
) -> bool {
    match search {
        None => kept matches Ok(kept) && crate::logbuf::entry_views(kept@) == entries,
        Some(pattern) => if regex {
            is_regex_search(entries, crate::pattern::regex_of(pattern), kept)
        } else {
            kept matches Ok(kept) && crate::logbuf::entry_views(kept@) == containing(
                entries,
                pattern,
            )
        },
    }
}

/// A search by regular expression, given what compiling the pattern came to.
pub fn filter_by_regex(entries: Vec<LogEntry>, compiled: Result<Regex, regex::Error>) -> (kept:
    Result<Vec<LogEntry>, ToolError>)
    ensures
        is_regex_search(crate::logbuf::entry_views(entries@), compiled, kept),
{
    match compiled {
        Ok(re) => Ok(keep_matching(entries, &re)),
        Err(why) => Err(
            ToolError::InvalidParams(joined("invalid regex: ", error_text(&why).as_str())),
        ),
    }
}

/// Filters entries by plain substring or by regular expression.
pub fn filter_entries(entries: Vec<LogEntry>, search: Option<&str>, regex: bool) -> (kept: Result<
    Vec<LogEntry>,
    ToolError,
>)
    ensures
        is_search(
            crate::logbuf::entry_views(entries@),
            match search {
                Some(pattern) => Some(pattern@),
                None => None,
            },
            regex,
            kept,
        ),
{
    match search {
        None => Ok(entries),
        Some(pattern) => if regex {
            filter_by_regex(entries, compile(pattern))
        } else {
            Ok(keep_containing(entries, pattern))
        },
    }
}

/// The entries that `read_logs` looks at: those after a number, where one is given, else the
/// latest.
pub open spec fn looked_at(log: RingView, params: ReadLogsParams) -> Seq<LogEntryView> {
    match params.since_seq {
        Some(seq) => log.after(seq),
        None => log.latest(
            match params.lines {
                Some(n) => n as nat,
                None => DEFAULT_READ_LINES as nat,
            },
        ),
    }
}

/// Reads buffered log lines, optionally filtering by substring or regex.
pub fn read_logs(log: &RingBuffer, params: &ReadLogsParams) -> (reply: Result<
    ReadLogsResult,
    ToolError,
>)
    requires
        log.wf(),
    ensures
        is_search(
            looked_at(log@, *params),
            crate::text::opt_text(params.search),
            params.regex == Some(true),
            match reply {
                Ok(result) => Ok(result.entries),
                Err(e) => Err(e),
            },
        ),
        reply matches Ok(result) ==> {
            &&& result.newest_seq == (if log@.entries.len() == 0 {
                None
            } else {
                Some(log@.entries.last().seq)
            })
            &&& result.total_buffered == log@.entries.len()
            &&& result.truncated == (match params.since_seq {
                Some(seq) => log@.has_gap_after(seq),
                None => false,
            })
        },
{
    let entries = match params.since_seq {
        Some(seq) => log.since(seq),
        None => {
            let n: usize = match params.lines {
                Some(n) => n,
                None => DEFAULT_READ_LINES,
            };
            log.tail(n)
        },
    };
    let truncated = match params.since_seq {
        Some(seq) => log.is_truncated(seq),
        None => false,
    };
    let search = match &params.search {
        Some(pattern) => Some(pattern.as_str()),
        None => None,
    };
    let regex = match params.regex {
        Some(regex) => regex,
        None => false,
    };
    match filter_entries(entries, search, regex) {
        Ok(entries) => Ok(
            ReadLogsResult {
                entries,
                newest_seq: log.newest_seq(),
                total_buffered: log.len(),
                truncated,
            },
        ),
        Err(e) => Err(e),
    }
}

/// What `status` replies.
#[derive(Debug)]
pub struct StatusResult {
    pub connected: bool,
    /// True while the port has been intentionally released via `close` and
    /// not yet reopened via `open`.
    pub closed: bool,
    pub port: String,
    pub baud: u32,
    pub buffered_lines: usize,
    pub file_logging: bool,
    pub file_log_path: Option<String>,
    pub last_error: Option<String>,
    pub uptime_seconds: u64,
}

/// `reply` is the report on a reader that shows this status and this log.
pub open spec fn is_report(status: StatusView, log: RingView, reply: StatusResult) -> bool {
    &&& reply.connected == status.connected
    &&& reply.closed == status.closed
    &&& reply.port@ == status.port
    &&& reply.baud == status.baud
    &&& reply.buffered_lines == log.entries.len()
    &&& reply.file_logging == (status.file_log_path is Some)
    &&& crate::text::opt_text(reply.file_log_path) == status.file_log_path
    &&& crate::text::opt_text(reply.last_error) == status.last_error
}

/// The report on a reader that has been running for so many seconds.
pub fn status_after(status: &ReaderStatus, log: &RingBuffer, uptime_seconds: u64) -> (reply:
    StatusResult)
    ensures
        is_report(status@, log@, reply),
        reply.uptime_seconds == uptime_seconds,
{
    StatusResult {
        connected: status.connected,
        closed: status.closed,
        port: status.port.clone(),
        baud: status.baud,
        buffered_lines: log.len(),
        file_logging: status.file_log_path.is_some(),
        file_log_path: copied(&status.file_log_path),
        last_error: copied(&status.last_error),
        uptime_seconds,
    }
}

/// The current connection and logging status. What time it is, by which the reader's running
/// time is told, is up to the machine's clock.
pub fn status(shown: &ReaderStatus, log: &RingBuffer) -> (reply: StatusResult)
    ensures
        is_report(shown@, log@, reply),
        exists|now: std::time::Instant|
            reply.uptime_seconds == #[trigger] crate::status::uptime_of(shown@, now),
{
    let uptime_seconds: u64 = shown.uptime_seconds();
    status_after(shown, log, uptime_seconds)
}

/// What `file_log` was asked for.
#[derive(Debug)]
pub struct FileLogParams {
    /// "start" or "stop"
    pub action: String,
    /// Required for "start": where to write the session log.
    pub path: Option<PathBuf>,
    /// For "start": append to an existing file instead of truncating it. Defaults to false.
    pub append: Option<bool>,
}

/// What `file_log` has to do.
#[derive(Debug)]
pub enum FileLogAction {
    Start { path: PathBuf, append: bool },
    Stop,
}

/// Reads what `file_log` was asked for.
pub fn file_log_action(params: FileLogParams) -> (action: Result<FileLogAction, ToolError>)
    ensures
        if params.action@ == "start"@ {
            match params.path {
                Some(path) => action == Ok::<FileLogAction, ToolError>(
                    FileLogAction::Start { path, append: params.append == Some(true) },
                ),
                None => action matches Err(e) && is_invalid(
                    e,
                    "path is required to start file logging"@,
                ),
            }
        } else if params.action@ == "stop"@ {
            action == Ok::<FileLogAction, ToolError>(FileLogAction::Stop)
        } else {
            action matches Err(e) && is_invalid(
                e,
                "action must be \"start\" or \"stop\", got "@ + quoted(params.action@),
            )
        },
{
    if same_text(params.action.as_str(), "start") {
        let append = match params.append {
            Some(append) => append,
            None => false,
        };
        match params.path {
            Some(path) => Ok(FileLogAction::Start { path, append }),
            None => Err(
                ToolError::InvalidParams("path is required to start file logging".to_string()),
            ),
        }
    } else if same_text(params.action.as_str(), "stop") {
        Ok(FileLogAction::Stop)
    } else {
        Err(
            ToolError::InvalidParams(
                joined(
                    "action must be \"start\" or \"stop\", got ",
                    quote(params.action.as_str()).as_str(),
                ),
            ),
        )
    }
}

/// What `file_log` replies.
#[derive(Debug)]
pub struct FileLogResult {
    pub path: String,
    pub stats_path: String,
    pub lines_written: Option<usize>,
}

/// What `file_log` replies when a log has been started.
pub fn started_reply(info: &FileLogInfo) -> (reply: FileLogResult)
    ensures
        reply.path@ == crate::paths::display_of(info.path),
        reply.stats_path@ == crate::paths::display_of(info.stats_path),
        reply.lines_written is None,
{
    FileLogResult {
        path: display(&info.path),
        stats_path: display(&info.stats_path),
        lines_written: None,
    }
}

/// What `file_log` replies when a log has been stopped.
pub fn stopped_reply(summary: &FileLogSummary) -> (reply: FileLogResult)
    ensures
        reply.path@ == crate::paths::display_of(summary.path),
        reply.stats_path@ == crate::paths::display_of(summary.stats_path),
        reply.lines_written == Some(summary.lines_written),
{
    FileLogResult {
        path: display(&summary.path),
        stats_path: display(&summary.stats_path),
        lines_written: Some(summary.lines_written),
    }
}

/// What `clear_logs` replies.
#[derive(Debug, Clone, Copy, PartialEq, Eq, Structural)]
pub struct ClearLogsResult {
    pub cleared_lines: usize,
}

/// Clears the in-memory log ring buffer.
pub fn clear_logs(log: &mut RingBuffer) -> (reply: ClearLogsResult)
    ensures
        final(log).wf(),
        final(log)@ == old(log)@.cleared(),
        reply.cleared_lines == old(log)@.entries.len(),
{
    let cleared_lines: usize = log.clear();
    ClearLogsResult { cleared_lines }
}

/// A client that asks for everything after the newest number it has seen, and is told that
/// nothing was truncated, gets every line pushed since, in order.
pub proof fn polling_client_misses_nothing(
    log: RingView,
    lines: Seq<Seq<char>>,
    at: Seq<std::time::SystemTime>,
    params: ReadLogsParams,
    seen: u64,
)
    requires
        log.wf(),
        at.len() == lines.len(),
        log.next_seq + lines.len() <= u64::MAX,
        seen + 1 == log.next_seq,
        params.since_seq == Some(seen),
        !log.pushed_all(lines, at).has_gap_after(seen),
    ensures
        looked_at(log.pushed_all(lines, at), params) == crate::logbuf::numbered(
            log.next_seq as int,
            lines,
            at,
        ),
{
    crate::logbuf::polling_yields_every_line_pushed_since(log, lines, at, seen);
}

/// A request at fault is answered with the reason, word for word.
pub proof fn a_fault_is_answered_with_the_reason(message: String, why: Seq<char>)
    ensures
        is_invalid(ToolError::InvalidParams(message), why) <==> message@ == why,
{
}

/// A search by text keeps an entry exactly if its text is made of something, the text searched
/// for, and something more; it keeps the entries in order and leaves them as they are.
pub proof fn search_keeps_the_entries_that_hold_the_text(
    entries: Seq<LogEntryView>,
    e: LogEntryView,
    pattern: Seq<char>,
)
    ensures
        containing(Seq::empty(), pattern) == Seq::<LogEntryView>::empty(),
        (exists|before: Seq<char>, after: Seq<char>|
            e.text == #[trigger] (before + pattern + after)) ==> containing(
            entries.push(e),
            pattern,
        ) == containing(entries, pattern).push(e),
        !(exists|before: Seq<char>, after: Seq<char>|
            e.text == #[trigger] (before + pattern + after)) ==> containing(
            entries.push(e),
            pattern,
        ) == containing(entries, pattern),
{
    reveal(Seq::filter);
    crate::text::text_stands_where_it_can_be_cut_out(e.text, pattern);
    assert(entries.push(e).drop_last() =~= entries);
    assert(containing(Seq::empty(), pattern) =~= Seq::empty());
}

/// A search by regular expression keeps an entry exactly if the expression matches its text; it
/// keeps the entries in order and leaves them as they are.
pub proof fn search_keeps_the_entries_that_match(
    entries: Seq<LogEntryView>,
    e: LogEntryView,
    re: Regex,
)
    ensures
        matching(Seq::empty(), re) == Seq::<LogEntryView>::empty(),
        crate::pattern::regex_matches(re, e.text) ==> matching(entries.push(e), re) == matching(
            entries,
            re,
        ).push(e),
        !crate::pattern::regex_matches(re, e.text) ==> matching(entries.push(e), re) == matching(
            entries,
            re,
        ),
{
    reveal(Seq::filter);
    assert(entries.push(e).drop_last() =~= entries);
    assert(matching(Seq::empty(), re) =~= Seq::empty());
}

/// A search without a text keeps everything; one by text never fails; one by regular expression
/// fails exactly if the expression does not compile, and says why.
pub proof fn a_search_fails_only_on_a_bad_expression(
    entries: Seq<LogEntryView>,
    pattern: Seq<char>,
    regex: bool,
    kept: Result<Vec<LogEntry>, ToolError>,
)
    ensures
        is_search(entries, None, regex, kept) <==> (kept matches Ok(all)
            && crate::logbuf::entry_views(all@) == entries),
        is_search(entries, Some(pattern), false, kept) <==> (kept matches Ok(found)
            && crate::logbuf::entry_views(found@) == containing(entries, pattern)),
        is_search(entries, Some(pattern), true, kept) <==> match crate::pattern::regex_of(
            pattern,
        ) {
            Ok(re) => kept matches Ok(found) && crate::logbuf::entry_views(found@) == matching(
                entries,
                re,
            ),
            Err(why) => kept matches Err(e) && is_invalid(
                e,
                "invalid regex: "@ + crate::pattern::regex_error_text(why),
            ),
        },
{
}

/// Read with a number, the log gives every buffered entry with a higher number and no other,
/// in order, however many lines were asked for. Read without one, it gives the last lines
/// pushed, in order: as many as asked for, two hundred where nothing was asked for, or all
/// where there are fewer.
pub proof fn read_logs_looks_at_the_right_lines(log: RingView, params: ReadLogsParams)
    requires
        log.wf(),
    ensures
        ({
            let got = looked_at(log, params);
            let left = log.entries.len() - got.len();
            let asked: nat = match params.lines {
                Some(n) => n as nat,
                None => 200,
            };
            &&& 0 <= left
            &&& forall|i: int| 0 <= i < got.len() ==> #[trigger] got[i] == log.entries[left + i]
            &&& forall|i: int|
                0 <= i < got.len() ==> (#[trigger] got[i]).seq == log.next_seq - got.len() + i
            &&& params.since_seq matches Some(seq) ==> forall|i: int|
                0 <= i < log.entries.len() ==> ((#[trigger] log.entries[i]).seq > seq <==> i
                    >= left)
            &&& params.since_seq is None ==> got.len() == (if asked <= log.entries.len() {
                asked
            } else {
                log.entries.len()
            })
        }),
{
    match params.since_seq {
        Some(seq) => {
            crate::logbuf::what_comes_after_has_higher_numbers(log, seq);
        },
        None => {
            let asked: nat = match params.lines {
                Some(n) => n as nat,
                None => 200,
            };
            crate::logbuf::the_latest_are_the_last_pushed(log, asked);
        },
    }
}

/// The report on a reader repeats what its status says, counts the buffered lines, and says
/// that a log is under way exactly if one is shown.
pub proof fn a_report_repeats_the_status(status: StatusView, log: RingView, reply: StatusResult)
    requires
        is_report(status, log, reply),
    ensures
        reply.connected == status.connected,
        reply.closed == status.closed,
        reply.port@ == status.port,
        reply.baud == status.baud,
        reply.buffered_lines == log.entries.len(),
        reply.file_logging <==> status.file_log_path is Some,
        status.file_log_path is Some <==> reply.file_log_path is Some,
        reply.file_log_path matches Some(path) ==> status.file_log_path == Some(path@),
        status.last_error is Some <==> reply.last_error is Some,
        reply.last_error matches Some(e) ==> status.last_error == Some(e@),
{
}

} // verus!
