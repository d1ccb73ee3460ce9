//! The subcommands: their arguments, and what the `console`, `on`, `off`, `reset` and
//! `watch` loops decide from turn to turn.

use crate::clock::span_of_millis;
use crate::logbuf::{LogEntry, RingBuffer};
#[allow(unused_imports)]
use crate::logbuf::{LogEntryView, RingView};
use crate::pattern::{compile, error_text, is_match};
use crate::reader::{ReaderConfig, ResetOptions};
use crate::status::ReaderStatus;
use crate::text::joined;
use regex::Regex;
use std::path::PathBuf;
use vstd::prelude::*;

verus! {

/// What was asked for on the command line.
#[derive(Debug)]
pub struct Cli {
    pub command: Command,
}

#[derive(Debug)]
pub enum Command {
    /// Reset the board (unless told not to) and stream its serial console
    Console(ConsoleArgs),
    /// Reset the board and stream its serial console
    On(ConsoleArgs),
    /// Hold the board in reset/power-off and exit
    Off(PortArgs),
    /// Reset the board and stream its serial console (same as `On`)
    Reset(ConsoleArgs),
    /// Reset the board, watch its console for a pass/fail pattern, and exit
    /// with a matching status code (for CI/on-device test runners)
    Watch(WatchArgs),
    /// Start the MCP server (stdio transport)
    Mcp(McpArgs),
}

/// Which port, at which speed, and how much to tell.
#[derive(Debug)]
pub struct PortArgs {
    pub port: String,
    pub baud: u32,
    pub verbose: u8,
}

/// Two values say the same of the port.
pub open spec fn same_port(a: PortArgs, b: PortArgs) -> bool {
    a.port@ == b.port@ && a.baud == b.baud && a.verbose == b.verbose
}

impl Clone for PortArgs {
    fn clone(&self) -> (copy: Self)
        ensures
            same_port(copy, *self),
    {
        PortArgs { port: self.port.clone(), baud: self.baud, verbose: self.verbose }
    }
}

/// How a reset is carried out.
#[derive(Debug, Clone, Copy)]
pub struct ResetTuning {
    pub reset_retries: u32,
    pub reset_timeout_ms: u64,
    pub reset_pulse_ms: u64,
}

#[derive(Debug)]
pub struct ConsoleArgs {
    pub port: PortArgs,
    pub reset: ResetTuning,
    /// Persist the session to this file (a companion `*.stats.*` file
    /// captures any `/* ... */` system-stat packets separately)
    pub log_path: Option<PathBuf>,
    /// Seconds to log before exiting (-1 = run until Ctrl-C)
    pub log_time: i64,
    /// Do not print board output to the console
    pub no_console: bool,
    /// Do not reset the board before streaming
    pub no_reboot: bool,
}

impl Clone for ConsoleArgs {
    fn clone(&self) -> (copy: Self)
        ensures
            same_port(copy.port, self.port),
            copy.reset == self.reset,
            copy.log_path == self.log_path,
            copy.log_time == self.log_time,
            copy.no_console == self.no_console,
            copy.no_reboot == self.no_reboot,
    {
        ConsoleArgs {
            port: self.port.clone(),
            reset: self.reset,
            log_path: copied_path(&self.log_path),
            log_time: self.log_time,
            no_console: self.no_console,
            no_reboot: self.no_reboot,
        }
    }
}

#[derive(Debug)]
pub struct WatchArgs {
    pub port: PortArgs,
    pub reset: ResetTuning,
    /// Exit 0 the moment a line matches this regex
    pub pass_pattern: String,
    /// Exit with the fail status the moment a line matches this regex
    pub fail_pattern: String,
    /// Seconds to wait for a match before exiting with the timeout status
    pub timeout: u64,
    /// Do not reset the board before watching
    pub no_reboot: bool,
    /// Do not print board output to the console while watching
    pub no_console: bool,
}

impl Clone for WatchArgs {
    fn clone(&self) -> (copy: Self)
        ensures
            same_port(copy.port, self.port),
            copy.reset == self.reset,
            copy.pass_pattern@ == self.pass_pattern@,
            copy.fail_pattern@ == self.fail_pattern@,
            copy.timeout == self.timeout,
            copy.no_reboot == self.no_reboot,
            copy.no_console == self.no_console,
    {
        WatchArgs {
            port: self.port.clone(),
            reset: self.reset,
            pass_pattern: self.pass_pattern.clone(),
            fail_pattern: self.fail_pattern.clone(),
            timeout: self.timeout,
            no_reboot: self.no_reboot,
            no_console: self.no_console,
        }
    }
}

#[derive(Debug)]
pub struct McpArgs {
    pub port: PortArgs,
    pub reset: ResetTuning,
    /// Optionally start file logging immediately when the server connects
    pub log_path: Option<PathBuf>,
    pub ring_buffer_lines: usize,
    pub ring_buffer_bytes: usize,
}

impl Clone for McpArgs {
    fn clone(&self) -> (copy: Self)
        ensures
            same_port(copy.port, self.port),
            copy.reset == self.reset,
            copy.log_path == self.log_path,
            copy.ring_buffer_lines == self.ring_buffer_lines,
            copy.ring_buffer_bytes == self.ring_buffer_bytes,
    {
        McpArgs {
            port: self.port.clone(),
            reset: self.reset,
            log_path: copied_path(&self.log_path),
            ring_buffer_lines: self.ring_buffer_lines,
            ring_buffer_bytes: self.ring_buffer_bytes,
        }
    }
}

/// A copy of an optional path.
fn copied_path(path: &Option<PathBuf>) -> (copy: Option<PathBuf>)
    ensures
        copy == *path,
{
    match path {
        Some(path) => Some(path.clone()),
        None => None,
    }
}

/// The speed where none is given.
pub const DEFAULT_BAUD: u32 = 115_200;

/// How many pulses a reset tries where nothing is given.
pub const DEFAULT_RESET_RETRIES: u32 = 5;

/// How long a reset waits for the board, in milliseconds, where nothing is given.
pub const DEFAULT_RESET_TIMEOUT_MS: u64 = 2000;

/// How long a reset holds the board, in milliseconds, where nothing is given.
pub const DEFAULT_RESET_PULSE_MS: u64 = 100;

/// How long to stream where nothing is given: until interrupted.
pub const DEFAULT_LOG_TIME: i64 = -1;

/// How long to watch, in seconds, where nothing is given.
pub const DEFAULT_WATCH_TIMEOUT: u64 = 30;

/// How many lines the server buffers where nothing is given.
pub const DEFAULT_RING_BUFFER_LINES: usize = 2000;

/// How many bytes the server buffers where nothing is given.
pub const DEFAULT_RING_BUFFER_BYTES: usize = 2 * 1024 * 1024;

/// How long to wait for the port to open, in seconds.
pub const CONNECT_TIMEOUT_SECS: u64 = 5;

/// How long to wait between two looks at the log, in milliseconds.
pub const POLL_PAUSE_MS: u64 = 50;

/// Exit code used when the pass pattern matches first.
pub const WATCH_EXIT_PASSED: i32 = 0;

/// Exit code used when the fail pattern matches before the pass pattern.
pub const WATCH_EXIT_FAILED: i32 = 1;

/// Exit code used when the timeout elapses with no pattern match.
pub const WATCH_EXIT_TIMED_OUT: i32 = 2;

impl Command {
    /// How often more output was asked for.
    pub fn verbose(&self) -> (verbose: u8)
        ensures
            verbose == (match *self {
                Command::Console(a) => a.port.verbose,
                Command::On(a) => a.port.verbose,
                Command::Off(a) => a.verbose,
                Command::Reset(a) => a.port.verbose,
                Command::Watch(a) => a.port.verbose,
                Command::Mcp(a) => a.port.verbose,
            }),
    {
        match self {
            Command::Console(a) => a.port.verbose,
            Command::On(a) => a.port.verbose,
            Command::Off(a) => a.verbose,
            Command::Reset(a) => a.port.verbose,
            Command::Watch(a) => a.port.verbose,
            Command::Mcp(a) => a.port.verbose,
        }
    }
}

/// The level of diagnostics that so much verbosity asks for.
pub fn default_level(verbose: u8) -> (level: &'static str)
    ensures
        level@ == (if verbose == 0 {
            "warn"@
        } else if verbose == 1 {
            "info"@
        } else if verbose == 2 {
            "debug"@
        } else {
            "trace"@
        }),
{
    if verbose == 0 {
        "warn"
    } else if verbose == 1 {
        "info"
    } else if verbose == 2 {
        "debug"
    } else {
        "trace"
    }
}

/// The options say what the tuning asks for.
pub open spec fn opts_of(tuning: ResetTuning, opts: ResetOptions) -> bool {
    &&& crate::clock::nanos(opts.pulse) == tuning.reset_pulse_ms * 1_000_000
    &&& crate::clock::nanos(opts.confirm_timeout) == tuning.reset_timeout_ms * 1_000_000
    &&& opts.max_retries == tuning.reset_retries
}

impl ResetTuning {
    pub fn to_opts(&self) -> (opts: ResetOptions)
        ensures
            opts_of(*self, opts),
    {
        ResetOptions {
            pulse: span_of_millis(self.reset_pulse_ms),
            confirm_timeout: span_of_millis(self.reset_timeout_ms),
            max_retries: self.reset_retries,
        }
    }
}

/// The parts of a reader's set-up that no argument sets are those of the default.
pub open spec fn has_default_pace(config: ReaderConfig) -> bool {
    &&& crate::clock::nanos(config.read_timeout) == 500 * 1_000_000
    &&& crate::clock::nanos(config.reconnect_backoff) == 3000 * 1_000_000
}

/// How the reader is set up for `console`, `on`, `reset` and `watch`.
pub fn stream_config(port: &PortArgs, reset: &ResetTuning) -> (config: ReaderConfig)
    ensures
        config.port@ == port.port@,
        config.baud == port.baud,
        opts_of(*reset, config.reset_opts),
        config.max_lines == DEFAULT_RING_BUFFER_LINES,
        config.max_bytes == DEFAULT_RING_BUFFER_BYTES,
        has_default_pace(config),
{
    let defaults = ReaderConfig::default();
    ReaderConfig {
        port: port.port.clone(),
        baud: port.baud,
        reset_opts: reset.to_opts(),
        read_timeout: defaults.read_timeout,
        max_lines: defaults.max_lines,
        max_bytes: defaults.max_bytes,
        reconnect_backoff: defaults.reconnect_backoff,
    }
}

/// How the reader is set up for `off`.
pub fn off_config(port: &PortArgs) -> (config: ReaderConfig)
    ensures
        config.port@ == port.port@,
        config.baud == port.baud,
        crate::clock::nanos(config.reset_opts.pulse) == 100 * 1_000_000,
        crate::clock::nanos(config.reset_opts.confirm_timeout) == 2000 * 1_000_000,
        config.reset_opts.max_retries == 5,
        config.max_lines == DEFAULT_RING_BUFFER_LINES,
        config.max_bytes == DEFAULT_RING_BUFFER_BYTES,
        has_default_pace(config),
{
    let defaults = ReaderConfig::default();
    ReaderConfig {
        port: port.port.clone(),
        baud: port.baud,
        reset_opts: defaults.reset_opts,
        read_timeout: defaults.read_timeout,
        max_lines: defaults.max_lines,
        max_bytes: defaults.max_bytes,
        reconnect_backoff: defaults.reconnect_backoff,
    }
}

/// How the reader is set up for `mcp`.
pub fn mcp_config(args: &McpArgs) -> (config: ReaderConfig)
    ensures
        config.port@ == args.port.port@,
        config.baud == args.port.baud,
        opts_of(args.reset, config.reset_opts),
        config.max_lines == args.ring_buffer_lines,
        config.max_bytes == args.ring_buffer_bytes,
        has_default_pace(config),
{
    let defaults = ReaderConfig::default();
    ReaderConfig {
        port: args.port.port.clone(),
        baud: args.port.baud,
        reset_opts: args.reset.to_opts(),
        read_timeout: defaults.read_timeout,
        max_lines: args.ring_buffer_lines,
        max_bytes: args.ring_buffer_bytes,
        reconnect_backoff: defaults.reconnect_backoff,
    }
}

/// What waiting for the port comes to.
#[derive(Debug)]
pub enum Connection {
    /// The port is open.
    Ready,
    /// Not yet: look again.
    Wait,
    /// It took too long; the text says what went wrong.
    GaveUp(String),
}

/// One look at whether the port has been opened.
pub fn connection(status: &ReaderStatus, deadline_passed: bool) -> (connection: Connection)
    ensures
        if status@.connected {
            connection is Ready
        } else if deadline_passed {
            connection matches Connection::GaveUp(why) && why@ == "timed out waiting to connect: "@
                + (match status@.last_error {
                Some(e) => e,
                None => "unknown error"@,
            })
        } else {
            connection is Wait
        },
{
    if status.connected {
        return Connection::Ready;
    }
    if deadline_passed {
        let why = match &status.last_error {
            Some(e) => e.as_str(),
            None => "unknown error",
        };
        return Connection::GaveUp(joined("timed out waiting to connect: ", why));
    }
    Connection::Wait
}

/// Whether a subcommand resets the board before it streams.
pub fn resets_first(reset_capable: bool, no_reboot: bool) -> (resets: bool)
    ensures
        resets == (reset_capable && !no_reboot),
{
    reset_capable && !no_reboot
}

/// For how many seconds to stream: no limit where the argument is negative.
pub fn stream_limit(log_time: i64) -> (limit: Option<u64>)
    ensures
        limit == (if log_time >= 0 {
            Some(log_time as u64)
        } else {
            None
        }),
{
    if log_time >= 0 {
        Some(log_time as u64)
    } else {
        None
    }
}

/// What `off` tells the user once the board is held.
pub fn off_notice(port: &str) -> (notice: String)
    ensures
        notice@ == port@ + ": held in power-off (RTS asserted, DTR clear)"@,
{
    joined(port, ": held in power-off (RTS asserted, DTR clear)")
}

/// The entries that a caller who has seen up to `last_seq`, or nothing, has not seen.
pub open spec fn unseen_of(log: RingView, last_seq: Option<u64>) -> Seq<LogEntryView> {
    match last_seq {
        Some(seq) => log.after(seq),
        None => log.entries,
    }
}

/// The higher of two numbers, where there are two.
pub open spec fn higher(a: Option<u64>, b: Option<u64>) -> Option<u64> {
    match (a, b) {
        (Some(x), Some(y)) => if x >= y {
            a
        } else {
            b
        },
        (Some(_), None) => a,
        (None, _) => b,
    }
}

/// The highest number of these entries, if there are any.
pub open spec fn newest_of(entries: Seq<LogEntryView>) -> Option<u64>
    decreases entries.len(),
{
    if entries.len() == 0 {
        None
    } else {
        higher(newest_of(entries.drop_last()), Some(entries.last().seq))
    }
}

/// Up to where a caller has seen the log once it has seen these entries too.
pub open spec fn seen_up_to(
    last_seq: Option<u64>,
    entries: Seq<LogEntryView>,
) -> Option<u64> {
    match newest_of(entries) {
        Some(seq) => Some(seq),
        None => last_seq,
    }
}

/// It is the highest number: no entry has a higher one, and one has it.
proof fn lemma_newest(entries: Seq<LogEntryView>)
    ensures
        newest_of(entries) is None <==> entries.len() == 0,
        newest_of(entries) matches Some(newest) ==> {
            &&& forall|i: int| 0 <= i < entries.len() ==> (#[trigger] entries[i]).seq <= newest
            &&& exists|i: int| 0 <= i < entries.len() && (#[trigger] entries[i]).seq == newest
        },
    decreases entries.len(),
{
    if entries.len() > 0 {
        let front = entries.drop_last();
        lemma_newest(front);
        let newest = newest_of(entries)->0;
        let last = entries.len() - 1;
        assert forall|i: int| 0 <= i < entries.len() implies (#[trigger] entries[i]).seq
            <= newest by {
            if i < last {
                assert(front[i] == entries[i]);
            }
        }
        if newest_of(front) == Some(newest) {
            let i = choose|i: int| 0 <= i < front.len() && (#[trigger] front[i]).seq == newest;
            assert(entries[i].seq == newest);
        } else {
            assert(entries[last].seq == newest);
        }
    }
}

/// The higher of two numbers, where there are two.
fn higher_of(a: Option<u64>, b: u64) -> (c: u64)
    ensures
        Some(c) == higher(a, Some(b)),
{
    match a {
        Some(a) => if a >= b {
            a
        } else {
            b
        },
        None => b,
    }
}

/// The highest number of these entries, if there are any.
fn newest_among(entries: &Vec<LogEntry>) -> (newest: Option<u64>)
    ensures
        newest == newest_of(crate::logbuf::entry_views(entries@)),
{
    let ghost views = crate::logbuf::entry_views(entries@);
    let mut newest: Option<u64> = None;
    let mut i: usize = 0;
    while i < entries.len()
        invariant
            i <= entries.len(),
            views == crate::logbuf::entry_views(entries@),
            newest == newest_of(views.take(i as int)),
        decreases entries.len() - i,
    {
        proof {
            assert(views.take(i + 1).drop_last() =~= views.take(i as int));
            assert(views.take(i + 1).last() == entries@[i as int]@);
        }
        newest = Some(higher_of(newest, entries[i].seq));
        i += 1;
    }
    assert(views.take(entries@.len() as int) =~= views);
    newest
}

/// What each of these entries reads.
pub open spec fn texts_of(entries: Seq<LogEntryView>) -> Seq<Seq<char>> {
    entries.map_values(|e: LogEntryView| e.text)
}

/// The entries that a caller who has seen up to `last_seq`, or nothing, has not seen.
pub fn unseen(log: &RingBuffer, last_seq: Option<u64>) -> (entries: Vec<LogEntry>)
    ensures
        crate::logbuf::entry_views(entries@) == unseen_of(log@, last_seq),
{
    match last_seq {
        Some(seq) => log.since(seq),
        None => {
            let all: usize = log.len();
            log.tail(all)
        },
    }
}

/// What these entries read, to be printed; nothing where printing is off.
fn to_print(entries: &Vec<LogEntry>, no_console: bool) -> (lines: Vec<String>)
    ensures
        crate::lineread::texts(lines@) == printed(
            crate::logbuf::entry_views(entries@),
            no_console,
        ),
{
    let mut lines: Vec<String> = Vec::new();
    assert(crate::lineread::texts(lines@) =~= Seq::empty());
    if no_console {
        return lines;
    }
    let ghost views = crate::logbuf::entry_views(entries@);
    let mut i: usize = 0;
    while i < entries.len()
        invariant
            i <= entries.len(),
            views == crate::logbuf::entry_views(entries@),
            crate::lineread::texts(lines@) == texts_of(views).take(i as int),
        decreases entries.len() - i,
    {
        let ghost before = crate::lineread::texts(lines@);
        lines.push(entries[i].text.clone());
        assert(crate::lineread::texts(lines@) =~= before.push(views[i as int].text));
        assert(before.push(views[i as int].text) =~= texts_of(views).take(i + 1));
        i += 1;
    }
    assert(texts_of(views).take(entries.len() as int) =~= texts_of(views));
    lines
}

/// What of these entries is printed.
pub open spec fn printed(entries: Seq<LogEntryView>, no_console: bool) -> Seq<Seq<char>> {
    if no_console {
        Seq::empty()
    } else {
        texts_of(entries)
    }
}

/// What to do in one turn of the console loop.
#[derive(Debug)]
pub enum ConsoleStep {
    /// It is over.
    Stop,
    /// Print these lines.
    Show(Vec<String>),
}

/// The loop that streams the console.
pub struct ConsoleLoop {
    pub no_console: bool,
    pub last_seq: Option<u64>,
}

impl ConsoleLoop {
    pub fn new(no_console: bool) -> (console: Self)
        ensures
            console.no_console == no_console,
            console.last_seq is None,
    {
        ConsoleLoop { no_console, last_seq: None }
    }

    /// One turn: what came into the log since the last one is to be printed, unless the
    /// user or the clock put an end to it.
    pub fn turn(&mut self, running: bool, deadline_passed: bool, log: &RingBuffer) -> (step:
        ConsoleStep)
        ensures
            final(self).no_console == old(self).no_console,
            if !running || deadline_passed {
                &&& step is Stop
                &&& final(self).last_seq == old(self).last_seq
            } else {
                let entries = unseen_of(log@, old(self).last_seq);
                &&& step matches ConsoleStep::Show(lines) && crate::lineread::texts(lines@)
                    == printed(entries, old(self).no_console)
                &&& final(self).last_seq == seen_up_to(old(self).last_seq, entries)
            },
    {
        if !running || deadline_passed {
            return ConsoleStep::Stop;
        }
        let entries = unseen(log, self.last_seq);
        match newest_among(&entries) {
            Some(seq) => {
                self.last_seq = Some(seq);
            },
            None => {},
        }
        ConsoleStep::Show(to_print(&entries, self.no_console))
    }
}

/// Result of scanning a batch of log lines for `watch`'s pass/fail patterns.
#[derive(Debug, PartialEq, Eq, Structural)]
pub enum ScanOutcome {
    /// A pattern matched; `seq` is the sequence number of the matching line
    /// (later lines in the same batch are not scanned).
    Matched { exit_code: i32, seq: u64 },
    /// Nothing matched; `newest_seq` is the highest sequence number seen in
    /// this batch, if any, for the caller to advance its polling cursor.
    NoMatch { newest_seq: Option<u64> },
}

/// The exit code that a line calls for, if any: fail takes priority when both patterns
/// match it.
pub open spec fn verdict(text: Seq<char>, pass_re: Regex, fail_re: Regex) -> Option<i32> {
    if crate::pattern::regex_matches(fail_re, text) {
        Some(WATCH_EXIT_FAILED)
    } else if crate::pattern::regex_matches(pass_re, text) {
        Some(WATCH_EXIT_PASSED)
    } else {
        None
    }
}

/// What scanning these entries comes to: the first line that calls for an exit code
/// decides.
pub open spec fn scan_of(
    entries: Seq<LogEntryView>,
    pass_re: Regex,
    fail_re: Regex,
) -> ScanOutcome
    decreases entries.len(),
{
    if entries.len() == 0 {
        ScanOutcome::NoMatch { newest_seq: None }
    } else {
        match scan_of(entries.drop_last(), pass_re, fail_re) {
            ScanOutcome::Matched { exit_code, seq } => ScanOutcome::Matched { exit_code, seq },
            ScanOutcome::NoMatch { .. } => match verdict(entries.last().text, pass_re, fail_re) {
                Some(exit_code) => ScanOutcome::Matched { exit_code, seq: entries.last().seq },
                None => ScanOutcome::NoMatch { newest_seq: newest_of(entries) },
            },
        }
    }
}

/// Scans `entries` in order, returning as soon as `fail_re` or `pass_re`
/// matches a line (fail takes priority when both match the same line).
pub fn scan_for_match(entries: &[LogEntry], pass_re: &Regex, fail_re: &Regex) -> (outcome:
    ScanOutcome)
    ensures
        outcome == scan_of(crate::logbuf::entry_views(entries@), *pass_re, *fail_re),
{
    let ghost views = crate::logbuf::entry_views(entries@);
    let mut newest_seq: Option<u64> = None;
    let mut i: usize = 0;
    while i < entries.len()
        invariant
            i <= entries.len(),
            views == crate::logbuf::entry_views(entries@),
            newest_seq == newest_of(views.take(i as int)),
            scan_of(views.take(i as int), *pass_re, *fail_re) == (ScanOutcome::NoMatch {
                newest_seq,
            }),
        decreases entries.len() - i,
    {
        let entry = &entries[i];
        proof {
            assert(views.take(i + 1).drop_last() =~= views.take(i as int));
            assert(views.take(i + 1).last() == entry@);
        }
        newest_seq = Some(higher_of(newest_seq, entry.seq));
        if is_match(fail_re, entry.text.as_str()) {
            proof {
                lemma_match_stays(views, *pass_re, *fail_re, i + 1);
            }
            return ScanOutcome::Matched { exit_code: WATCH_EXIT_FAILED, seq: entry.seq };
        }
        if is_match(pass_re, entry.text.as_str()) {
            proof {
                lemma_match_stays(views, *pass_re, *fail_re, i + 1);
            }
            return ScanOutcome::Matched { exit_code: WATCH_EXIT_PASSED, seq: entry.seq };
        }
        i += 1;
    }
    assert(views.take(entries@.len() as int) =~= views);
    ScanOutcome::NoMatch { newest_seq }
}

/// A match among the first entries is what the scan comes to.
proof fn lemma_match_stays(entries: Seq<LogEntryView>, pass_re: Regex, fail_re: Regex, k: int)
    requires
        0 <= k <= entries.len(),
        scan_of(entries.take(k), pass_re, fail_re) is Matched,
    ensures
        scan_of(entries, pass_re, fail_re) == scan_of(entries.take(k), pass_re, fail_re),
    decreases entries.len(),
{
    if k == entries.len() {
        assert(entries.take(k) =~= entries);
    } else {
        assert(entries.drop_last().take(k) =~= entries.take(k));
        lemma_match_stays(entries.drop_last(), pass_re, fail_re, k);
    }
}

/// What a pattern's failure to compile tells the user.
pub open spec fn bad_pattern(flag: Seq<char>, e: regex::Error) -> Seq<char> {
    "invalid "@ + flag + ": "@ + crate::pattern::regex_error_text(e)
}

fn bad_pattern_message(flag: &str, e: &regex::Error) -> (message: String)
    ensures
        message@ == bad_pattern(flag@, *e),
{
    let start = joined(joined("invalid ", flag).as_str(), ": ");
    joined(start.as_str(), error_text(e).as_str())
}

/// The two patterns of `watch`, where both could be compiled; else what to tell the user of
/// the first that could not.
pub open spec fn patterns_of(
    pass: Result<Regex, regex::Error>,
    fail: Result<Regex, regex::Error>,
    patterns: Result<(Regex, Regex), String>,
) -> bool {
    match pass {
        Err(e) => patterns matches Err(message) && message@ == bad_pattern("--pass-pattern"@, e),
        Ok(pass_re) => match fail {
            Err(e) => patterns matches Err(message) && message@ == bad_pattern(
                "--fail-pattern"@,
                e,
            ),
            Ok(fail_re) => patterns == Ok::<(Regex, Regex), String>((pass_re, fail_re)),
        },
    }
}

/// The two patterns of `watch`, given what compiling each came to.
pub fn checked_patterns(pass: Result<Regex, regex::Error>, fail: Result<Regex, regex::Error>) -> (
patterns: Result<(Regex, Regex), String>)
    ensures
        patterns_of(pass, fail, patterns),
{
    match pass {
        Err(e) => Err(bad_pattern_message("--pass-pattern", &e)),
        Ok(pass_re) => match fail {
            Err(e) => Err(bad_pattern_message("--fail-pattern", &e)),
            Ok(fail_re) => Ok((pass_re, fail_re)),
        },
    }
}

/// Compiles the two patterns of `watch`.
pub fn compile_patterns(args: &WatchArgs) -> (patterns: Result<(Regex, Regex), String>)
    ensures
        patterns_of(
            crate::pattern::regex_of(args.pass_pattern@),
            crate::pattern::regex_of(args.fail_pattern@),
            patterns,
        ),
{
    checked_patterns(compile(args.pass_pattern.as_str()), compile(args.fail_pattern.as_str()))
}

/// What to do in one turn of the watch loop.
#[derive(Debug)]
pub struct WatchStep {
    /// Print these lines.
    pub lines: Vec<String>,
    /// And exit with this code, if there is one.
    pub exit_code: Option<i32>,
}

/// The loop that watches for a pass or a fail.
pub struct WatchLoop {
    pub pass_re: Regex,
    pub fail_re: Regex,
    pub no_console: bool,
    pub last_seq: Option<u64>,
}

impl WatchLoop {
    pub fn new(pass_re: Regex, fail_re: Regex, no_console: bool) -> (watch: Self)
        ensures
            watch.pass_re == pass_re,
            watch.fail_re == fail_re,
            watch.no_console == no_console,
            watch.last_seq is None,
    {
        WatchLoop { pass_re, fail_re, no_console, last_seq: None }
    }

    /// One turn: what came into the log since the last one is to be printed, and scanned for
    /// a line that decides. Where the user or the clock put an end to it, the watch ends
    /// undecided.
    pub fn turn(&mut self, running: bool, deadline_passed: bool, log: &RingBuffer) -> (step:
        WatchStep)
        ensures
            final(self).pass_re == old(self).pass_re,
            final(self).fail_re == old(self).fail_re,
            final(self).no_console == old(self).no_console,
            if !running || deadline_passed {
                &&& step.lines@.len() == 0
                &&& step.exit_code == Some(WATCH_EXIT_TIMED_OUT)
                &&& final(self).last_seq == old(self).last_seq
            } else {
                let entries = unseen_of(log@, old(self).last_seq);
                &&& crate::lineread::texts(step.lines@) == printed(entries, old(self).no_console)
                &&& match scan_of(entries, old(self).pass_re, old(self).fail_re) {
                    ScanOutcome::Matched { exit_code, .. } => {
                        &&& step.exit_code == Some(exit_code)
                        &&& final(self).last_seq == old(self).last_seq
                    },
                    ScanOutcome::NoMatch { .. } => {
                        &&& step.exit_code is None
                        &&& final(self).last_seq == seen_up_to(old(self).last_seq, entries)
                    },
                }
            },
    {
        if !running || deadline_passed {
            return WatchStep { lines: Vec::new(), exit_code: Some(WATCH_EXIT_TIMED_OUT) };
        }
        let entries = unseen(log, self.last_seq);
        let lines = to_print(&entries, self.no_console);
        match scan_for_match(entries.as_slice(), &self.pass_re, &self.fail_re) {
            ScanOutcome::Matched { exit_code, .. } => {
                WatchStep { lines, exit_code: Some(exit_code) }
            },
            ScanOutcome::NoMatch { newest_seq } => {
                match newest_seq {
                    Some(seq) => {
                        self.last_seq = Some(seq);
                    },
                    None => {},
                }
                WatchStep { lines, exit_code: None }
            },
        }
    }
}

/// The first line that matches a pattern decides: a scan that found a match found it at the
/// first line that calls for an exit code, which is the pass code or the fail code; one that
/// found none has seen that no line does, and reports the highest number it saw.
pub proof fn first_deciding_line_decides(
    entries: Seq<LogEntryView>,
    pass_re: Regex,
    fail_re: Regex,
)
    ensures
        match scan_of(entries, pass_re, fail_re) {
            ScanOutcome::Matched { exit_code, seq } => {
                &&& exit_code == WATCH_EXIT_PASSED || exit_code == WATCH_EXIT_FAILED
                &&& exists|i: int|
                    #![trigger entries[i]]
                    {
                        &&& 0 <= i < entries.len()
                        &&& entries[i].seq == seq
                        &&& verdict(entries[i].text, pass_re, fail_re) == Some(exit_code)
                        &&& forall|j: int|
                            0 <= j < i ==> verdict(#[trigger] entries[j].text, pass_re, fail_re)
                                is None
                    }
            },
            ScanOutcome::NoMatch { newest_seq } => {
                &&& newest_seq is None <==> entries.len() == 0
                &&& newest_seq matches Some(newest) ==> {
                    &&& forall|j: int|
                        0 <= j < entries.len() ==> (#[trigger] entries[j]).seq <= newest
                    &&& exists|j: int|
                        0 <= j < entries.len() && (#[trigger] entries[j]).seq == newest
                }
                &&& forall|j: int|
                    0 <= j < entries.len() ==> verdict(#[trigger] entries[j].text, pass_re, fail_re)
                        is None
            },
        },
    decreases entries.len(),
{
    lemma_newest(entries);
    if entries.len() > 0 {
        let front = entries.drop_last();
        first_deciding_line_decides(front, pass_re, fail_re);
        match scan_of(front, pass_re, fail_re) {
            ScanOutcome::Matched { exit_code, seq } => {
                let i = choose|i: int|
                    #![trigger front[i]]
                    {
                        &&& 0 <= i < front.len()
                        &&& front[i].seq == seq
                        &&& verdict(front[i].text, pass_re, fail_re) == Some(exit_code)
                        &&& forall|j: int|
                            0 <= j < i ==> verdict(#[trigger] front[j].text, pass_re, fail_re)
                                is None
                    };
                assert(entries[i] == front[i]);
                assert forall|j: int| 0 <= j < i implies verdict(
                    #[trigger] entries[j].text,
                    pass_re,
                    fail_re,
                ) is None by {
                    assert(front[j].text == entries[j].text);
                }
            },
            ScanOutcome::NoMatch { .. } => {
                let last = entries.len() - 1;
                assert forall|j: int| 0 <= j < last implies verdict(
                    #[trigger] entries[j].text,
                    pass_re,
                    fail_re,
                ) is None by {
                    assert(front[j].text == entries[j].text);
                }
                assert(entries[last] == entries.last());
            },
        }
    }
}

proof fn lemma_newest_of_both(first: Seq<LogEntryView>, second: Seq<LogEntryView>)
    ensures
        newest_of(first + second) == higher(newest_of(first), newest_of(second)),
    decreases second.len(),
{
    if second.len() == 0 {
        assert(first + second =~= first);
    } else {
        lemma_newest_of_both(first, second.drop_last());
        assert((first + second).drop_last() =~= first + second.drop_last());
        assert((first + second).last() == second.last());
    }
}

/// Where a batch ends makes no difference: scanning `first` and, if nothing in it decides,
/// `second` comes to what scanning both as one batch does.
pub proof fn batches_make_no_difference(
    first: Seq<LogEntryView>,
    second: Seq<LogEntryView>,
    pass_re: Regex,
    fail_re: Regex,
)
    ensures
        scan_of(first + second, pass_re, fail_re) == (match scan_of(first, pass_re, fail_re) {
            ScanOutcome::Matched { exit_code, seq } => ScanOutcome::Matched { exit_code, seq },
            ScanOutcome::NoMatch { newest_seq } => match scan_of(second, pass_re, fail_re) {
                ScanOutcome::Matched { exit_code, seq } => ScanOutcome::Matched {
                    exit_code,
                    seq,
                },
                ScanOutcome::NoMatch { .. } => ScanOutcome::NoMatch {
                    newest_seq: higher(newest_seq, newest_of(second)),
                },
            },
        }),
    decreases second.len(),
{
    if second.len() == 0 {
        assert(first + second =~= first);
    } else {
        batches_make_no_difference(first, second.drop_last(), pass_re, fail_re);
        lemma_newest_of_both(first, second);
        assert((first + second).drop_last() =~= first + second.drop_last());
        assert((first + second).last() == second.last());
    }
}

/// The exit code that the first of these batches to hold a deciding line calls for.
pub open spec fn first_exit(
    batches: Seq<Seq<LogEntryView>>,
    pass_re: Regex,
    fail_re: Regex,
) -> Option<i32>
    decreases batches.len(),
{
    if batches.len() == 0 {
        None
    } else {
        match first_exit(batches.drop_last(), pass_re, fail_re) {
            Some(exit_code) => Some(exit_code),
            None => match scan_of(batches.last(), pass_re, fail_re) {
                ScanOutcome::Matched { exit_code, .. } => Some(exit_code),
                ScanOutcome::NoMatch { .. } => None,
            },
        }
    }
}

/// However the lines are spread over the turns of a watch, it exits with the code that the
/// first deciding line of all calls for, and goes on while there is none.
pub proof fn watch_exits_by_the_first_deciding_line(
    batches: Seq<Seq<LogEntryView>>,
    pass_re: Regex,
    fail_re: Regex,
)
    ensures
        first_exit(batches, pass_re, fail_re) == (match scan_of(
            batches.flatten(),
            pass_re,
            fail_re,
        ) {
            ScanOutcome::Matched { exit_code, .. } => Some(exit_code),
            ScanOutcome::NoMatch { .. } => None,
        }),
    decreases batches.len(),
{
    if batches.len() == 0 {
        assert(batches.flatten() =~= Seq::empty());
    } else {
        let front = batches.drop_last();
        watch_exits_by_the_first_deciding_line(front, pass_re, fail_re);
        batches_make_no_difference(front.flatten(), batches.last(), pass_re, fail_re);
        assert(batches =~= front.push(batches.last()));
        front.lemma_flatten_push(batches.last());
    }
}

/// From turn to turn each line is seen once: a loop that has seen all there was sees in its
/// next turn exactly the lines pushed since, in order, and has then seen all there is,
/// unless the buffer reports a gap.
pub proof fn each_line_is_seen_once(
    log: RingView,
    lines: Seq<Seq<char>>,
    at: Seq<std::time::SystemTime>,
    last_seq: u64,
)
    requires
        log.wf(),
        at.len() == lines.len(),
        log.next_seq + lines.len() <= u64::MAX,
        last_seq + 1 == log.next_seq,
        !log.pushed_all(lines, at).has_gap_after(last_seq),
    ensures
        ({
            let after = log.pushed_all(lines, at);
            let entries = unseen_of(after, Some(last_seq));
            &&& texts_of(entries) == lines
            &&& seen_up_to(Some(last_seq), entries) == Some((after.next_seq - 1) as u64)
        }),
{
    crate::logbuf::pushing_lines_keeps_the_latest(log, lines, at);
    crate::logbuf::polling_yields_every_line_pushed_since(log, lines, at, last_seq);
    let entries = unseen_of(log.pushed_all(lines, at), Some(last_seq));
    assert(texts_of(entries) =~= lines);
    lemma_newest(entries);
    if entries.len() > 0 {
        assert(entries[entries.len() - 1].seq == log.next_seq + lines.len() - 1);
    }
}

/// The first turn of a loop sees all that is buffered.
pub proof fn first_turn_sees_all(log: RingView)
    requires
        log.wf(),
    ensures
        unseen_of(log, None) == log.entries,
        log.entries.len() > 0 ==> seen_up_to(None, log.entries) == Some((log.next_seq - 1) as u64),
{
    lemma_newest(log.entries);
    if log.entries.len() > 0 {
        assert(log.entries[log.entries.len() - 1].seq == log.next_seq - 1);
    }
}

/// What a line calls for is settled by the two patterns alone: the fail code whenever the fail
/// pattern matches, the pass code whenever the pass pattern does and the fail pattern does
/// not, and nothing exactly when neither matches.
pub proof fn a_line_calls_for_what_it_matches(text: Seq<char>, pass_re: Regex, fail_re: Regex)
    ensures
        crate::pattern::regex_matches(fail_re, text) ==> verdict(text, pass_re, fail_re) == Some(
            1i32,
        ),
        crate::pattern::regex_matches(pass_re, text) && !crate::pattern::regex_matches(
            fail_re,
            text,
        ) ==> verdict(text, pass_re, fail_re) == Some(0i32),
        verdict(text, pass_re, fail_re) is None <==> !crate::pattern::regex_matches(pass_re, text)
            && !crate::pattern::regex_matches(fail_re, text),
{
}

/// The first line that either pattern matches decides, by its number and by the pattern: a
/// scan with a match names a line that matches, with code 1 where the fail pattern does and
/// else 0, and no line before it matches either pattern. A scan without a match has seen that
/// no line matches either.
pub proof fn first_matching_line_decides(
    entries: Seq<LogEntryView>,
    pass_re: Regex,
    fail_re: Regex,
)
    ensures
        match scan_of(entries, pass_re, fail_re) {
            ScanOutcome::Matched { exit_code, seq } => exists|i: int|
                #![trigger entries[i]]
                {
                    &&& 0 <= i < entries.len()
                    &&& entries[i].seq == seq
                    &&& exit_code == 0 || exit_code == 1
                    &&& exit_code == 1 <==> crate::pattern::regex_matches(fail_re, entries[i].text)
                    &&& exit_code == 0 ==> crate::pattern::regex_matches(pass_re, entries[i].text)
                    &&& forall|j: int|
                        0 <= j < i ==> !crate::pattern::regex_matches(
                            pass_re,
                            #[trigger] entries[j].text,
                        ) && !crate::pattern::regex_matches(fail_re, entries[j].text)
                },
            ScanOutcome::NoMatch { .. } => forall|j: int|
                0 <= j < entries.len() ==> !crate::pattern::regex_matches(
                    pass_re,
                    #[trigger] entries[j].text,
                ) && !crate::pattern::regex_matches(fail_re, entries[j].text),
        },
{
    first_deciding_line_decides(entries, pass_re, fail_re);
    match scan_of(entries, pass_re, fail_re) {
        ScanOutcome::Matched { exit_code, seq } => {
            let i = choose|i: int|
                #![trigger entries[i]]
                {
                    &&& 0 <= i < entries.len()
                    &&& entries[i].seq == seq
                    &&& verdict(entries[i].text, pass_re, fail_re) == Some(exit_code)
                    &&& forall|j: int|
                        0 <= j < i ==> verdict(#[trigger] entries[j].text, pass_re, fail_re)
                            is None
                };
            a_line_calls_for_what_it_matches(entries[i].text, pass_re, fail_re);
            assert forall|j: int| 0 <= j < i implies !crate::pattern::regex_matches(
                pass_re,
                #[trigger] entries[j].text,
            ) && !crate::pattern::regex_matches(fail_re, entries[j].text) by {
                assert(verdict(entries[j].text, pass_re, fail_re) is None);
                a_line_calls_for_what_it_matches(entries[j].text, pass_re, fail_re);
            }
        },
        ScanOutcome::NoMatch { .. } => {
            assert forall|j: int| 0 <= j < entries.len() implies !crate::pattern::regex_matches(
                pass_re,
                #[trigger] entries[j].text,
            ) && !crate::pattern::regex_matches(fail_re, entries[j].text) by {
                assert(verdict(entries[j].text, pass_re, fail_re) is None);
                a_line_calls_for_what_it_matches(entries[j].text, pass_re, fail_re);
            }
        },
    }
}

/// A watch that is shown a line that matches, in whichever turn, ends in that turn: as long as
/// it goes on, no line that it was shown matches either pattern, and the code that it ends with
/// is that of the first line that does.
pub proof fn a_watch_goes_on_only_while_nothing_matches(
    batches: Seq<Seq<LogEntryView>>,
    pass_re: Regex,
    fail_re: Regex,
    b: int,
    i: int,
)
    requires
        0 <= b < batches.len(),
        0 <= i < batches[b].len(),
        first_exit(batches, pass_re, fail_re) is None,
    ensures
        !crate::pattern::regex_matches(pass_re, batches[b][i].text),
        !crate::pattern::regex_matches(fail_re, batches[b][i].text),
    decreases batches.len(),
{
    if b == batches.len() - 1 {
        first_matching_line_decides(batches.last(), pass_re, fail_re);
        assert(batches.last()[i].text == batches[b][i].text);
    } else {
        a_watch_goes_on_only_while_nothing_matches(batches.drop_last(), pass_re, fail_re, b, i);
    }
}

/// The codes and limits that the subcommands promise.
pub proof fn promised_numbers()
    ensures
        WATCH_EXIT_PASSED == 0,
        WATCH_EXIT_FAILED == 1,
        WATCH_EXIT_TIMED_OUT == 2,
        DEFAULT_BAUD == 115_200,
        DEFAULT_RESET_RETRIES == 5,
        DEFAULT_RESET_TIMEOUT_MS == 2000,
        DEFAULT_RESET_PULSE_MS == 100,
        DEFAULT_LOG_TIME == -1,
        DEFAULT_WATCH_TIMEOUT == 30,
        DEFAULT_RING_BUFFER_LINES == 2000,
        DEFAULT_RING_BUFFER_BYTES == 2_097_152,
        CONNECT_TIMEOUT_SECS == 5,
        POLL_PAUSE_MS == 50,
{
}

/// A caller that has seen nothing sees all that is buffered; one that has seen up to a number
/// sees every entry with a higher number, and no other, in order.
pub proof fn what_was_not_seen_is_seen(log: RingView, seq: u64)
    requires
        log.wf(),
    ensures
        unseen_of(log, None) == log.entries,
        ({
            let entries = unseen_of(log, Some(seq));
            let left = log.entries.len() - entries.len();
            &&& 0 <= left
            &&& forall|i: int|
                0 <= i < entries.len() ==> #[trigger] entries[i] == log.entries[left + i]
            &&& forall|i: int|
                0 <= i < log.entries.len() ==> ((#[trigger] log.entries[i]).seq > seq <==> i
                    >= left)
        }),
{
    crate::logbuf::what_comes_after_has_higher_numbers(log, seq);
}

/// The cursor moves to the highest number seen, and stays where nothing was.
pub proof fn the_cursor_moves_to_the_highest_number(
    last_seq: Option<u64>,
    entries: Seq<LogEntryView>,
)
    ensures
        entries.len() == 0 ==> seen_up_to(last_seq, entries) == last_seq,
        entries.len() > 0 ==> (seen_up_to(last_seq, entries) matches Some(newest) && {
            &&& forall|i: int| 0 <= i < entries.len() ==> (#[trigger] entries[i]).seq <= newest
            &&& exists|i: int| 0 <= i < entries.len() && (#[trigger] entries[i]).seq == newest
        }),
{
    lemma_newest(entries);
}

/// Every entry is printed whole, in order, unless printing is off: then nothing is.
pub proof fn every_entry_is_printed_whole(entries: Seq<LogEntryView>)
    ensures
        printed(entries, true).len() == 0,
        printed(entries, false).len() == entries.len(),
        forall|i: int|
            0 <= i < entries.len() ==> #[trigger] printed(entries, false)[i] == entries[i].text,
{
}

/// Reset options say what the tuning asks for, in milliseconds and attempts.
pub proof fn options_say_what_was_asked_for(tuning: ResetTuning, opts: ResetOptions)
    ensures
        opts_of(tuning, opts) <==> {
            &&& crate::clock::nanos(opts.pulse) == tuning.reset_pulse_ms * 1_000_000
            &&& crate::clock::nanos(opts.confirm_timeout) == tuning.reset_timeout_ms * 1_000_000
            &&& opts.max_retries == tuning.reset_retries
        },
{
}

/// A reader's default pace is half a second to a read and three seconds between attempts.
pub proof fn default_pace_in_numbers(config: ReaderConfig)
    ensures
        has_default_pace(config) <==> crate::clock::nanos(config.read_timeout) == 500_000_000
            && crate::clock::nanos(config.reconnect_backoff) == 3_000_000_000,
{
}

/// Two patterns that both compile come back as they are, the pass pattern first. Where one does
/// not, what is told is which it was, the pass pattern before the fail pattern, and why.
pub proof fn bad_patterns_are_named(
    pass: Result<Regex, regex::Error>,
    fail: Result<Regex, regex::Error>,
    patterns: Result<(Regex, Regex), String>,
)
    requires
        patterns_of(pass, fail, patterns),
    ensures
        pass is Ok && fail is Ok ==> patterns == Ok::<(Regex, Regex), String>(
            (pass->Ok_0, fail->Ok_0),
        ),
        pass matches Err(e) ==> (patterns matches Err(message) && message@
            == "invalid "@ + "--pass-pattern"@ + ": "@ + crate::pattern::regex_error_text(e)),
        pass is Ok && fail is Err ==> (patterns matches Err(message) && message@
            == "invalid "@ + "--fail-pattern"@ + ": "@ + crate::pattern::regex_error_text(
            fail->Err_0,
        )),
{
}

/// Copied port arguments name the same port, at the same speed, with the same verbosity.
pub proof fn copied_port_arguments_are_the_same(a: PortArgs, b: PortArgs)
    ensures
        same_port(a, b) <==> a.port@ == b.port@ && a.baud == b.baud && a.verbose == b.verbose,
{
}

} // verus!
