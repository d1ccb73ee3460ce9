//! The reader that is the sole owner of the open serial port. It
//! continuously reads lines into a shared ring buffer (and optional file
//! log), while servicing reset/power/file-log commands sent by the CLI or
//! MCP server, so there is never more than one thing touching the port's
//! RTS/DTR lines or read half at once.
//!
//! What stands here decides; the thread that runs it does what is decided (opens and
//! reads the port, writes the files, sleeps) and tells it what came of it.

use crate::clock::{nanos_of, span_between, span_of_millis};
use crate::error::{IoError, IoErrorKind};
use crate::filelog::{ClosedFileLog, FileLog, FileLogPlan, FileWrite};
pub use crate::filelog::{FileLogInfo, FileLogSummary};
#[allow(unused_imports)]
use crate::filelog::{FileWriteView, LogFile};
use crate::lineread::LineSplitter;
use crate::logbuf::RingBuffer;
use crate::paths::display;
use crate::serial::{power_off, power_on, reset_sequence, ResetPort};
#[allow(unused_imports)]
use crate::serial::PortCall;
pub use crate::serial::{ResetOptions, ResetOutcome};
use crate::stats::StatsExtractor;
use crate::status::ReaderStatus;
#[allow(unused_imports)]
use crate::status::StatusView;
use std::path::PathBuf;
use std::time::{Duration, Instant, SystemTime};
use vstd::prelude::*;

verus! {

/// How a reader is set up.
#[derive(Debug)]
pub struct ReaderConfig {
    pub port: String,
    pub baud: u32,
    pub read_timeout: Duration,
    pub reset_opts: ResetOptions,
    pub max_lines: usize,
    pub max_bytes: usize,
    pub reconnect_backoff: Duration,
}

impl Default for ReaderConfig {
    fn default() -> (config: Self)
        ensures
            config.port@ == "/dev/ttyUSB0"@,
            config.baud == 115_200,
            crate::clock::nanos(config.read_timeout) == 500 * 1_000_000,
            crate::clock::nanos(config.reset_opts.pulse) == 100 * 1_000_000,
            crate::clock::nanos(config.reset_opts.confirm_timeout) == 2000 * 1_000_000,
            config.reset_opts.max_retries == 5,
            config.max_lines == 2000,
            config.max_bytes == 2 * 1024 * 1024,
            crate::clock::nanos(config.reconnect_backoff) == 3000 * 1_000_000,
    {
        ReaderConfig {
            port: "/dev/ttyUSB0".to_string(),
            baud: 115_200,
            read_timeout: span_of_millis(500),
            reset_opts: ResetOptions::default(),
            max_lines: 2000,
            max_bytes: 2 * 1024 * 1024,
            reconnect_backoff: span_of_millis(3000),
        }
    }
}

impl Clone for ReaderConfig {
    fn clone(&self) -> (copy: Self)
        ensures
            copy.port@ == self.port@,
            copy.baud == self.baud,
            copy.read_timeout == self.read_timeout,
            copy.reset_opts == self.reset_opts,
            copy.max_lines == self.max_lines,
            copy.max_bytes == self.max_bytes,
            copy.reconnect_backoff == self.reconnect_backoff,
    {
        ReaderConfig {
            port: self.port.clone(),
            baud: self.baud,
            read_timeout: self.read_timeout,
            reset_opts: self.reset_opts,
            max_lines: self.max_lines,
            max_bytes: self.max_bytes,
            reconnect_backoff: self.reconnect_backoff,
        }
    }
}

/// What a reader can be asked to do.
#[derive(Debug)]
pub enum ReaderCommand {
    Reset,
    PowerOn,
    PowerOff,
    /// Release the port so another process can open it, and do not reconnect until asked.
    Close,
    /// Allow reconnecting again, and try to open the port at once.
    Open,
    StartFileLog { path: PathBuf, append: bool },
    StopFileLog,
    Shutdown,
}

/// What has to be done about a command.
#[derive(Debug)]
pub enum CommandStep {
    /// Reset the board through the open port, and reply with what came of it.
    Reset,
    /// Power the board on through the open port, and reply with what came of it.
    PowerOn,
    /// Power the board off through the open port, and reply with what came of it.
    PowerOff,
    /// Let go of the port, if there is one, and reply that it is done.
    ReleasePort,
    /// Try to open the port, hand what came of it to `try_open`, and reply what that says.
    OpenPort,
    /// Open these files, hand what came of it to `start_file_log`, and reply what that says.
    OpenFiles(FileLogPlan),
    /// Finish these files, and reply with the summary.
    CloseFiles(ClosedFileLog),
    /// Reply that it is done.
    Done,
    /// Reply with this failure.
    Refuse(IoError),
    /// Finish these files, if any, and stop.
    Exit(Option<ClosedFileLog>),
}

/// What to do when no command is waiting.
#[derive(Debug, Clone, Copy, PartialEq, Eq, Structural)]
pub enum IdleStep {
    /// Wait a little.
    Pause,
    /// Try to open the port, and hand what came of it to `try_open`.
    OpenPort,
    /// Read from the port, and hand what came of it to `on_read`.
    Read,
}

/// What to do about what a read brought.
#[derive(Debug)]
pub enum ReadStep {
    /// Nothing came: wait a little.
    Pause,
    /// Add these texts to the files of the log, in order.
    Write(Vec<FileWrite>),
    /// Let go of the port.
    ReleasePort,
}

/// How long to wait when there is no port to read, in milliseconds.
pub const NO_PORT_PAUSE_MS: u64 = 20;

/// How long to wait when a read brought nothing, in milliseconds.
pub const NO_DATA_PAUSE_MS: u64 = 1;

/// The state of a reader.
pub struct LoopView {
    pub port_open: bool,
    /// The bytes that wait for their line end.
    pub pending: Seq<u8>,
    pub file_log: Option<FileLog>,
}

/// The text that shows where the log's main file stands.
pub open spec fn shown_log_path(file_log: Option<FileLog>) -> Option<Seq<char>> {
    match file_log {
        Some(log) => Some(crate::paths::display_of(log.log_path)),
        None => None,
    }
}

/// The text that shows where the log's stats file stands.
pub open spec fn shown_stats_path(file_log: Option<FileLog>) -> Option<Seq<char>> {
    match file_log {
        Some(log) => Some(crate::paths::display_of(log.stats_path)),
        None => None,
    }
}

/// A reader and the status that it shows agree: it shows itself connected exactly while
/// it holds the port, closed only while it does not, and the files of its log. And no
/// complete line is waiting.
pub open spec fn in_step(reader: LoopView, status: StatusView) -> bool {
    &&& status.connected == reader.port_open
    &&& status.closed ==> !reader.port_open
    &&& status.file_log_path == shown_log_path(reader.file_log)
    &&& status.stats_file_path == shown_stats_path(reader.file_log)
    &&& !crate::lineread::has_newline(reader.pending)
}

/// The failure of a command that needs the port while it is not open.
pub open spec fn is_not_connected(e: IoError) -> bool {
    e.kind == IoErrorKind::NotConnected && e.message@ == "serial port not open"@
}

fn not_connected() -> (e: IoError)
    ensures
        is_not_connected(e),
{
    IoError::new(IoErrorKind::NotConnected, "serial port not open")
}

/// The failure of stopping a log that was not started.
pub open spec fn is_no_file_log(e: IoError) -> bool {
    e.kind == IoErrorKind::NotFound && e.message@ == "no active file log"@
}

/// What a command that drives the open port's lines comes to.
pub open spec fn needs_port(open: bool, allowed: CommandStep, step: CommandStep) -> bool {
    if open {
        step == allowed
    } else {
        step matches CommandStep::Refuse(e) && is_not_connected(e)
    }
}

/// What a log comes to when it is stopped.
pub open spec fn closed_log(log: FileLog) -> ClosedFileLog {
    ClosedFileLog {
        summary: crate::filelog::FileLogSummary {
            path: log.log_path,
            stats_path: log.stats_path,
            lines_written: log.lines_written,
        },
        remove_stats_file: log.stats_lines_written == 0 && log.stats_was_empty,
    }
}

/// The status of a reader that has been told to let go of its port.
pub open spec fn status_closed(status: StatusView) -> StatusView {
    StatusView { connected: false, closed: true, last_error: None, ..status }
}

/// The status of a reader that tried to open its port.
pub open spec fn status_tried(status: StatusView, opened: Result<(), IoError>) -> StatusView {
    match opened {
        Ok(_) => StatusView { connected: true, closed: false, last_error: None, ..status },
        Err(e) => StatusView {
            connected: false,
            closed: false,
            last_error: Some(e.message@),
            ..status
        },
    }
}

/// The status of a reader that lost its port.
pub open spec fn status_lost(status: StatusView, e: IoError) -> StatusView {
    StatusView { connected: false, last_error: Some(e.message@), ..status }
}

/// What to do when no command is waiting: read where there is a port; else try to open it,
/// unless it was closed on request or the last attempt was too recent.
pub open spec fn idle_step(port_open: bool, closed: bool, backoff_over: bool) -> IdleStep {
    if port_open {
        IdleStep::Read
    } else if !closed && backoff_over {
        IdleStep::OpenPort
    } else {
        IdleStep::Pause
    }
}

/// Whether the port may be tried: it has not been tried yet, or the last attempt is at least
/// `backoff` ago.
pub fn may_try(since_attempt: Option<&Duration>, backoff: &Duration) -> (over: bool)
    ensures
        over == (match since_attempt {
            None => true,
            Some(gone_by) => crate::clock::nanos(*gone_by) >= crate::clock::nanos(*backoff),
        }),
{
    match since_attempt {
        None => true,
        Some(gone_by) => nanos_of(gone_by) >= nanos_of(backoff),
    }
}

/// Whether the port may be tried at `now`, when it was last tried at `last`.
pub open spec fn may_try_after(last: Option<Instant>, now: Instant, backoff: Duration) -> bool {
    match last {
        None => true,
        Some(at) => crate::clock::nanos(crate::clock::between(at, now)) >= crate::clock::nanos(
            backoff,
        ),
    }
}

/// When the port was last tried, so that it is not tried again too soon.
#[derive(Debug)]
pub struct ReconnectPace {
    last_attempt: Option<Instant>,
}

/// When the port was last tried, if it was.
impl View for ReconnectPace {
    type V = Option<Instant>;

    closed spec fn view(&self) -> Option<Instant> {
        self.last_attempt
    }
}

impl ReconnectPace {
    /// The port has not been tried yet.
    pub fn new() -> (pace: Self)
        ensures
            pace@ is None,
    {
        ReconnectPace { last_attempt: None }
    }

    /// Every attempt counts, whether it was asked for or came by itself.
    pub fn tried(&mut self, now: Instant)
        ensures
            final(self)@ == Some(now),
    {
        self.last_attempt = Some(now);
    }

    /// Whether the port may be tried at `now`: it has not been tried yet, or the last attempt
    /// is at least `backoff` ago.
    pub fn may_try_at(&self, now: &Instant, backoff: &Duration) -> (over: bool)
        ensures
            over == may_try_after(self@, *now, *backoff),
    {
        match self.last_attempt {
            None => may_try(None, backoff),
            Some(at) => {
                let gone_by = span_between(&at, now);
                may_try(Some(&gone_by), backoff)
            },
        }
    }
}

/// What driving the port's lines came to.
#[derive(Debug)]
pub enum Driven {
    /// The board was reset or powered on, with this outcome.
    Outcome(Result<ResetOutcome, IoError>),
    /// The board was powered off, or that failed.
    Held(Result<(), IoError>),
    /// The step does not concern the port's lines.
    Nothing,
}

/// `driven` is what the calls that a step makes on the port come to.
pub open spec fn is_driven(
    step: CommandStep,
    opts: ResetOptions,
    calls: Seq<PortCall>,
    driven: Driven,
) -> bool {
    match step {
        CommandStep::Reset => driven matches Driven::Outcome(result) && crate::serial::is_reset(
            opts,
            calls,
            result,
        ),
        CommandStep::PowerOn => driven matches Driven::Outcome(result) && crate::serial::is_reset(
            opts,
            calls,
            result,
        ),
        CommandStep::PowerOff => driven matches Driven::Held(result) && crate::serial::carried_out(
            crate::serial::power_off_calls(),
            calls,
            result,
        ),
        _ => driven is Nothing && calls.len() == 0,
    }
}

/// Does to the port's lines what a step asks for: resets the board, powers it on, or powers
/// it off.
pub fn drive<P: ResetPort + ?Sized>(step: &CommandStep, port: &mut P, opts: ResetOptions) -> (
driven: Driven)
    ensures
        exists|calls: Seq<PortCall>|
            final(port).calls() == old(port).calls() + calls && #[trigger] is_driven(
                *step,
                opts,
                calls,
                driven,
            ),
{
    let ghost before = port.calls();
    match step {
        CommandStep::Reset => {
            let result = reset_sequence(port, opts);
            let ghost calls = choose|calls: Seq<PortCall>|
                port.calls() == before + calls && #[trigger] crate::serial::is_reset(
                    opts,
                    calls,
                    result,
                );
            assert(is_driven(*step, opts, calls, Driven::Outcome(result)));
            Driven::Outcome(result)
        },
        CommandStep::PowerOn => {
            let result = power_on(port, opts);
            let ghost calls = choose|calls: Seq<PortCall>|
                port.calls() == before + calls && #[trigger] crate::serial::is_reset(
                    opts,
                    calls,
                    result,
                );
            assert(is_driven(*step, opts, calls, Driven::Outcome(result)));
            Driven::Outcome(result)
        },
        CommandStep::PowerOff => {
            let result = power_off(port);
            let ghost calls = choose|calls: Seq<PortCall>|
                port.calls() == before + calls && #[trigger] crate::serial::carried_out(
                    crate::serial::power_off_calls(),
                    calls,
                    result,
                );
            assert(is_driven(*step, opts, calls, Driven::Held(result)));
            Driven::Held(result)
        },
        _ => {
            proof {
                let calls = Seq::<PortCall>::empty();
                assert(before + calls =~= before);
                assert(is_driven(*step, opts, calls, Driven::Nothing));
            }
            Driven::Nothing
        },
    }
}

/// The lines that are no stat packets, in order.
pub open spec fn ordinary(lines: Seq<Seq<char>>) -> Seq<Seq<char>> {
    lines.filter(|line: Seq<char>| crate::stats::stat_of(line) is None)
}

/// The lines that are stat packets, in order.
pub open spec fn packets(lines: Seq<Seq<char>>) -> Seq<Seq<char>> {
    lines.filter(|line: Seq<char>| crate::stats::stat_of(line) is Some)
}

/// What is written for a line: the packet to the stats file, where the line holds one,
/// else the line to the main file.
pub open spec fn write_for(line: Seq<char>) -> FileWriteView {
    match crate::stats::stat_of(line) {
        Some(stat) => FileWriteView {
            file: LogFile::Stats,
            text: crate::filelog::as_line(stat),
        },
        None => FileWriteView { file: LogFile::Main, text: crate::filelog::as_line(line) },
    }
}

/// What is written for these lines while a log is under way.
pub open spec fn writes_for(lines: Seq<Seq<char>>) -> Seq<FileWriteView> {
    lines.map_values(|line: Seq<char>| write_for(line))
}

/// What each of these writes says.
pub open spec fn write_views(writes: Seq<FileWrite>) -> Seq<FileWriteView> {
    writes.map_values(|w: FileWrite| w@)
}

/// A log once these lines have been written to it.
pub open spec fn log_after(file_log: Option<FileLog>, lines: Seq<Seq<char>>) -> Option<FileLog> {
    match file_log {
        Some(log) => Some(
            FileLog {
                lines_written: (log.lines_written + ordinary(lines).len()) as usize,
                stats_lines_written: (log.stats_lines_written + packets(lines).len()) as usize,
                ..log
            },
        ),
        None => None,
    }
}

/// The counters have room for `n` more lines.
pub open spec fn has_room_for(reader: LoopView, log: crate::logbuf::RingView, n: nat) -> bool {
    &&& log.next_seq + n <= u64::MAX
    &&& match reader.file_log {
        Some(file_log) => {
            &&& file_log.lines_written + n <= usize::MAX
            &&& file_log.stats_lines_written + n <= usize::MAX
        },
        None => true,
    }
}

/// A reader of one serial port.
pub struct ReaderLoop {
    port_open: bool,
    splitter: LineSplitter,
    stats: StatsExtractor,
    file_log: Option<FileLog>,
}

impl View for ReaderLoop {
    type V = LoopView;

    closed spec fn view(&self) -> LoopView {
        LoopView { port_open: self.port_open, pending: self.splitter@, file_log: self.file_log }
    }
}

impl ReaderLoop {
    /// A reader that has done nothing yet, with its ring buffer and its status.
    pub fn start(config: &ReaderConfig) -> (started: (Self, RingBuffer, ReaderStatus))
        ensures
            started.0@ == (LoopView {
                port_open: false,
                pending: Seq::empty(),
                file_log: None,
            }),
            started.1.wf(),
            started.1@ == (crate::logbuf::RingView {
                entries: Seq::empty(),
                next_seq: 0,
                max_lines: config.max_lines,
                max_bytes: config.max_bytes,
            }),
            started.2@.port == config.port@,
            started.2@.baud == config.baud,
            started.2@.last_error is None,
            !started.2@.connected,
            !started.2@.closed,
            in_step(started.0@, started.2@),
    {
        let reader = ReaderLoop {
            port_open: false,
            splitter: LineSplitter::new(),
            stats: StatsExtractor::new(),
            file_log: None,
        };
        let log = RingBuffer::new(config.max_lines, config.max_bytes);
        let status = ReaderStatus::new(config.port.clone(), config.baud);
        (reader, log, status)
    }

    /// What has to be done about a command. Closing takes effect on the state at once;
    /// opening and starting a log do when `try_open` and `start_file_log` are told what
    /// came of them.
    pub fn on_command(&mut self, command: ReaderCommand, status: &mut ReaderStatus) -> (step:
        CommandStep)
        requires
            in_step(old(self)@, old(status)@),
        ensures
            command !is Shutdown ==> in_step(final(self)@, final(status)@),
            command !is Shutdown && command !is Open ==> steps_without_open(
                ReaderState { reader: old(self)@, status: old(status)@ },
                ReaderState { reader: final(self)@, status: final(status)@ },
            ),
            match command {
                ReaderCommand::Reset => {
                    &&& final(self)@ == old(self)@
                    &&& final(status)@ == old(status)@
                    &&& needs_port(old(self)@.port_open, CommandStep::Reset, step)
                },
                ReaderCommand::PowerOn => {
                    &&& final(self)@ == old(self)@
                    &&& final(status)@ == old(status)@
                    &&& needs_port(old(self)@.port_open, CommandStep::PowerOn, step)
                },
                ReaderCommand::PowerOff => {
                    &&& final(self)@ == old(self)@
                    &&& final(status)@ == old(status)@
                    &&& needs_port(old(self)@.port_open, CommandStep::PowerOff, step)
                },
                ReaderCommand::Close => {
                    &&& final(self)@ == (LoopView { port_open: false, ..old(self)@ })
                    &&& final(status)@ == status_closed(old(status)@)
                    &&& step is ReleasePort
                },
                ReaderCommand::Open => {
                    &&& final(self)@ == old(self)@
                    &&& final(status)@ == old(status)@
                    &&& if old(self)@.port_open {
                        step is Done
                    } else {
                        step is OpenPort
                    }
                },
                ReaderCommand::StartFileLog { path, append } => {
                    &&& final(self)@ == old(self)@
                    &&& final(status)@ == old(status)@
                    &&& step == CommandStep::OpenFiles(
                        FileLogPlan {
                            path,
                            log_flags: crate::filelog::OpenFlags {
                                create: true,
                                write: true,
                                append,
                                truncate: !append,
                            },
                            stats_path: crate::paths::stats_path_of(path),
                            stats_flags: crate::filelog::OpenFlags {
                                create: true,
                                write: false,
                                append: true,
                                truncate: false,
                            },
                        },
                    )
                },
                ReaderCommand::StopFileLog => {
                    &&& final(self)@ == (LoopView { file_log: None, ..old(self)@ })
                    &&& final(status)@ == (StatusView {
                        file_log_path: None,
                        stats_file_path: None,
                        ..old(status)@
                    })
                    &&& match old(self)@.file_log {
                        Some(log) => step == CommandStep::CloseFiles(closed_log(log)),
                        None => step matches CommandStep::Refuse(e) && is_no_file_log(e),
                    }
                },
                ReaderCommand::Shutdown => {
                    &&& final(self)@ == (LoopView { file_log: None, ..old(self)@ })
                    &&& final(status)@ == old(status)@
                    &&& step == CommandStep::Exit(
                        match old(self)@.file_log {
                            Some(log) => Some(closed_log(log)),
                            None => None,
                        },
                    )
                },
            },
    {
        match command {
            ReaderCommand::Shutdown => {
                let closed = match self.file_log.take() {
                    Some(log) => Some(log.close()),
                    None => None,
                };
                CommandStep::Exit(closed)
            },
            ReaderCommand::Reset => {
                if self.port_open {
                    CommandStep::Reset
                } else {
                    CommandStep::Refuse(not_connected())
                }
            },
            ReaderCommand::PowerOn => {
                if self.port_open {
                    CommandStep::PowerOn
                } else {
                    CommandStep::Refuse(not_connected())
                }
            },
            ReaderCommand::PowerOff => {
                if self.port_open {
                    CommandStep::PowerOff
                } else {
                    CommandStep::Refuse(not_connected())
                }
            },
            ReaderCommand::Close => {
                self.port_open = false;
                status.connected = false;
                status.closed = true;
                status.last_error = None;
                CommandStep::ReleasePort
            },
            ReaderCommand::Open => {
                if self.port_open {
                    // already connected (Open with no prior Close): just
                    // clear the latch, no need to reopen anything.
                    status.closed = false;
                    CommandStep::Done
                } else {
                    CommandStep::OpenPort
                }
            },
            ReaderCommand::StartFileLog { path, append } => CommandStep::OpenFiles(
                FileLog::plan(path, append),
            ),
            ReaderCommand::StopFileLog => {
                match self.file_log.take() {
                    Some(log) => {
                        status.file_log_path = None;
                        status.stats_file_path = None;
                        CommandStep::CloseFiles(log.close())
                    },
                    None => CommandStep::Refuse(
                        IoError::new(IoErrorKind::NotFound, "no active file log"),
                    ),
                }
            },
        }
    }

    /// Takes in what came of one attempt to open the port, and returns what to reply.
    /// Shared by the auto-reconnect loop and the `Open` command.
    pub fn try_open(&mut self, status: &mut ReaderStatus, opened: Result<(), IoError>) -> (reply:
        Result<(), IoError>)
        requires
            in_step(old(self)@, old(status)@),
            !old(self)@.port_open,
        ensures
            in_step(final(self)@, final(status)@),
            final(self)@ == (LoopView { port_open: opened is Ok, ..old(self)@ }),
            final(status)@ == status_tried(old(status)@, opened),
            crate::serial::failure_of(reply) == crate::serial::failure_of(opened),
            idle_step(old(self)@.port_open, old(status)@.closed, true) == IdleStep::OpenPort
                ==> steps_without_open(
                ReaderState { reader: old(self)@, status: old(status)@ },
                ReaderState { reader: final(self)@, status: final(status)@ },
            ),
    {
        match opened {
            Ok(()) => {
                self.port_open = true;
                status.connected = true;
                status.closed = false;
                status.last_error = None;
                Ok(())
            },
            Err(e) => {
                status.connected = false;
                status.closed = false;
                status.last_error = Some(e.message.clone());
                Err(e)
            },
        }
    }

    /// Takes in what came of opening the files of a log, and returns what to reply. Where it
    /// succeeded, `opened` says whether the stats file held nothing yet.
    pub fn start_file_log(
        &mut self,
        status: &mut ReaderStatus,
        plan: FileLogPlan,
        opened: Result<bool, IoError>,
    ) -> (reply: Result<FileLogInfo, IoError>)
        requires
            in_step(old(self)@, old(status)@),
        ensures
            in_step(final(self)@, final(status)@),
            steps_without_open(
                ReaderState { reader: old(self)@, status: old(status)@ },
                ReaderState { reader: final(self)@, status: final(status)@ },
            ),
            match opened {
                Ok(stats_was_empty) => {
                    let log = Some(
                        FileLog {
                            log_path: plan.path,
                            stats_path: plan.stats_path,
                            stats_was_empty,
                            lines_written: 0,
                            stats_lines_written: 0,
                        },
                    );
                    &&& final(self)@ == (LoopView { file_log: log, ..old(self)@ })
                    &&& final(status)@ == (StatusView {
                        file_log_path: shown_log_path(log),
                        stats_file_path: shown_stats_path(log),
                        ..old(status)@
                    })
                    &&& reply == Ok::<FileLogInfo, IoError>(
                        FileLogInfo { path: plan.path, stats_path: plan.stats_path },
                    )
                },
                Err(e) => {
                    &&& final(self)@ == old(self)@
                    &&& final(status)@ == old(status)@
                    &&& reply == Err::<FileLogInfo, IoError>(e)
                },
            },
    {
        match opened {
            Ok(stats_was_empty) => {
                let log = FileLog::open(plan, stats_was_empty);
                let info = FileLogInfo {
                    path: log.log_path.clone(),
                    stats_path: log.stats_path.clone(),
                };
                status.file_log_path = Some(display(&info.path));
                status.stats_file_path = Some(display(&info.stats_path));
                self.file_log = Some(log);
                Ok(info)
            },
            Err(e) => Err(e),
        }
    }

    /// What to do when no command is waiting. `backoff_over` says whether the last attempt
    /// to open the port is long enough ago for another.
    pub fn idle(&self, status: &ReaderStatus, backoff_over: bool) -> (step: IdleStep)
        ensures
            step == idle_step(self@.port_open, status@.closed, backoff_over),
    {
        if self.port_open {
            return IdleStep::Read;
        }
        if status.closed {
            return IdleStep::Pause;
        }
        if backoff_over {
            IdleStep::OpenPort
        } else {
            IdleStep::Pause
        }
    }

    /// Whether the counters of lines have room for what `n` bytes can bring.
    pub fn has_room(&self, log: &RingBuffer, n: usize) -> (room: bool)
        ensures
            room == has_room_for(self@, log@, n as nat),
    {
        if log.next_seq() > u64::MAX - n as u64 {
            return false;
        }
        match &self.file_log {
            Some(file_log) => file_log.lines_written <= usize::MAX - n
                && file_log.stats_lines_written <= usize::MAX - n,
            None => true,
        }
    }

    /// Takes in what a read brought.
    pub fn on_read(
        &mut self,
        status: &mut ReaderStatus,
        log: &mut RingBuffer,
        read: Result<&[u8], IoError>,
    ) -> (step: ReadStep)
        requires
            in_step(old(self)@, old(status)@),
            old(log).wf(),
            read matches Ok(bytes) ==> has_room_for(old(self)@, old(log)@, bytes@.len()),
        ensures
            in_step(final(self)@, final(status)@),
            final(log).wf(),
            old(self)@.port_open ==> steps_without_open(
                ReaderState { reader: old(self)@, status: old(status)@ },
                ReaderState { reader: final(self)@, status: final(status)@ },
            ),
            match read {
                Ok(bytes) => {
                    let lines = lines_of(old(self)@.pending, bytes@);
                    &&& final(status)@ == old(status)@
                    &&& final(self)@ == (LoopView {
                        pending: crate::lineread::partial_line(old(self)@.pending + bytes@),
                        file_log: log_after(old(self)@.file_log, lines),
                        ..old(self)@
                    })
                    &&& exists|at: Seq<SystemTime>|
                        at.len() == ordinary(lines).len() && final(log)@ == #[trigger] old(
                            log,
                        )@.pushed_all(ordinary(lines), at)
                    &&& if bytes@.len() == 0 {
                        step is Pause
                    } else {
                        step matches ReadStep::Write(writes) && write_views(writes@) == (
                        if old(self)@.file_log is Some {
                            writes_for(lines)
                        } else {
                            Seq::empty()
                        })
                    }
                },
                Err(e) => {
                    &&& final(log)@ == old(log)@
                    &&& if e.kind == IoErrorKind::TimedOut {
                        &&& final(self)@ == old(self)@
                        &&& final(status)@ == old(status)@
                        &&& step is Pause
                    } else {
                        &&& final(self)@ == (LoopView { port_open: false, ..old(self)@ })
                        &&& final(status)@ == status_lost(old(status)@, e)
                        &&& step is ReleasePort
                    }
                },
            },
    {
        match read {
            Ok(bytes) => {
                let ghost lines = lines_of(self@.pending, bytes@);
                proof {
                    lemma_few_lines(self@.pending, bytes@);
                }
                if bytes.len() == 0 {
                    proof {
                        assert(self@.pending + bytes@ =~= self@.pending);
                        crate::lineread::lemma_no_newline_no_lines(self@.pending);
                        assert(ordinary(lines) =~= Seq::empty()) by {
                            reveal(Seq::filter);
                        }
                        assert(packets(lines) =~= Seq::empty()) by {
                            reveal(Seq::filter);
                        }
                        assert(log@ == log@.pushed_all(ordinary(lines), Seq::empty()));
                        assert(log_after(self@.file_log, lines) == self@.file_log);
                    }
                    return ReadStep::Pause;
                }
                let writes = self.on_lines(bytes, log);
                ReadStep::Write(writes)
            },
            Err(e) => {
                if e.kind == IoErrorKind::TimedOut {
                    return ReadStep::Pause;
                }
                status.connected = false;
                status.last_error = Some(e.message);
                self.port_open = false;
                ReadStep::ReleasePort
            },
        }
    }

    /// Takes in bytes: each line that they complete is a stat packet, which goes to the
    /// stats file, or an ordinary line, which goes to the ring buffer and the main file.
    /// Returns what to add to the files, which is nothing where no log is under way.
    fn on_lines(&mut self, bytes: &[u8], log: &mut RingBuffer) -> (writes: Vec<FileWrite>)
        requires
            old(log).wf(),
            has_room_for(
                old(self)@,
                old(log)@,
                lines_of(old(self)@.pending, bytes@).len(),
            ),
        ensures
            final(log).wf(),
            ({
                let lines = lines_of(old(self)@.pending, bytes@);
                &&& final(self)@ == (LoopView {
                    pending: crate::lineread::partial_line(old(self)@.pending + bytes@),
                    file_log: log_after(old(self)@.file_log, lines),
                    ..old(self)@
                })
                &&& exists|at: Seq<SystemTime>|
                    at.len() == ordinary(lines).len() && final(log)@ == #[trigger] old(
                        log,
                    )@.pushed_all(ordinary(lines), at)
                &&& write_views(writes@) == (if old(self)@.file_log is Some {
                    writes_for(lines)
                } else {
                    Seq::empty()
                })
            }),
    {
        let ghost lines = lines_of(self@.pending, bytes@);
        let ghost pending = crate::lineread::partial_line(self@.pending + bytes@);
        let fed = self.splitter.feed(bytes);
        let mut writes: Vec<FileWrite> = Vec::new();
        let mut i: usize = 0;
        let ghost mut at: Seq<SystemTime> = Seq::empty();
        proof {
            reveal(Seq::filter);
            assert(lines.take(0) =~= Seq::empty());
            assert(ordinary(lines.take(0)) =~= Seq::empty());
            assert(packets(lines.take(0)) =~= Seq::empty());
            assert(log_after(self@.file_log, lines.take(0)) == self@.file_log);
            assert(writes_for(lines.take(0)) =~= Seq::empty());
            assert(write_views(writes@) =~= Seq::empty());
            assert(lines.len() == fed.len());
        }
        while i < fed.len()
            invariant
                i <= fed.len(),
                fed.len() == lines.len(),
                crate::lineread::texts(fed@) == lines,
                log.wf(),
                self@.pending == pending,
                self@.port_open == old(self)@.port_open,
                self@.file_log == log_after(old(self)@.file_log, lines.take(i as int)),
                has_room_for(old(self)@, old(log)@, lines.len()),
                ordinary(lines.take(i as int)).len() <= i,
                packets(lines.take(i as int)).len() <= i,
                at.len() == ordinary(lines.take(i as int)).len(),
                log@.next_seq == old(log)@.next_seq + at.len(),
                log@ == old(log)@.pushed_all(ordinary(lines.take(i as int)), at),
                write_views(writes@) == (if old(self)@.file_log is Some {
                    writes_for(lines.take(i as int))
                } else {
                    Seq::empty()
                }),
            decreases fed.len() - i,
        {
            let line = &fed[i];
            let ghost text = line@;
            let ghost done = lines.take(i as int);
            let ghost views = write_views(writes@);
            proof {
                assert(text == lines[i as int]);
                lemma_one_more_line(lines, i as int);
            }
            match self.stats.feed_line(line.as_str()) {
                Some(stat) => {
                    match self.file_log.take() {
                        Some(mut file_log) => {
                            let write = file_log.write_stat(stat.as_str());
                            self.file_log = Some(file_log);
                            writes.push(write);
                            assert(write_views(writes@) =~= views.push(write_for(text)));
                        },
                        None => {},
                    }
                },
                None => {
                    let ghost before = log@;
                    let ghost lines_before = ordinary(done);
                    log.push(line.clone());
                    proof {
                        let now = choose|now: SystemTime|
                            log@ == #[trigger] before.pushed(text, now);
                        assert(lines_before.push(text).drop_last() =~= lines_before);
                        assert(at.push(now).drop_last() =~= at);
                        at = at.push(now);
                    }
                    match self.file_log.take() {
                        Some(mut file_log) => {
                            let write = file_log.write_line(line.as_str());
                            self.file_log = Some(file_log);
                            writes.push(write);
                            assert(write_views(writes@) =~= views.push(write_for(text)));
                        },
                        None => {},
                    }
                },
            }
            i += 1;
        }
        assert(lines.take(fed.len() as int) =~= lines);
        writes
    }
}

/// The lines that `bytes` complete, when `pending` was waiting.
pub open spec fn lines_of(pending: Seq<u8>, bytes: Seq<u8>) -> Seq<Seq<char>> {
    crate::lineread::line_texts(crate::lineread::complete_lines(pending + bytes))
}

/// Bytes complete no more lines than there are of them.
proof fn lemma_few_lines(pending: Seq<u8>, bytes: Seq<u8>)
    requires
        !crate::lineread::has_newline(pending),
    ensures
        lines_of(pending, bytes).len() <= bytes.len(),
        !crate::lineread::has_newline(crate::lineread::partial_line(pending + bytes)),
{
    crate::lineread::splitting_keeps_every_byte(pending + bytes);
    crate::lineread::lemma_few_lines(pending, bytes);
}

proof fn lemma_one_more_line(lines: Seq<Seq<char>>, i: int)
    requires
        0 <= i < lines.len(),
    ensures
        ordinary(lines.take(i + 1)) == (if crate::stats::stat_of(lines[i]) is None {
            ordinary(lines.take(i)).push(lines[i])
        } else {
            ordinary(lines.take(i))
        }),
        packets(lines.take(i + 1)) == (if crate::stats::stat_of(lines[i]) is Some {
            packets(lines.take(i)).push(lines[i])
        } else {
            packets(lines.take(i))
        }),
        writes_for(lines.take(i + 1)) == writes_for(lines.take(i)).push(write_for(lines[i])),
{
    crate::logbuf::lemma_filter_take(
        lines,
        |line: Seq<char>| crate::stats::stat_of(line) is None,
        i,
    );
    crate::logbuf::lemma_filter_take(
        lines,
        |line: Seq<char>| crate::stats::stat_of(line) is Some,
        i,
    );
    assert(writes_for(lines.take(i + 1)) =~= writes_for(lines.take(i)).push(write_for(lines[i])));
}

/// A reader and the status that it shows.
pub struct ReaderState {
    pub reader: LoopView,
    pub status: StatusView,
}

/// `after` is what a reader can come to from `before` in one step, other than on the
/// command `Open`.
pub open spec fn steps_without_open(before: ReaderState, after: ReaderState) -> bool {
    // a command that leaves the state alone, or a pause
    ||| after == before
    // the command to close
    ||| after == ReaderState {
        reader: LoopView { port_open: false, ..before.reader },
        status: status_closed(before.status),
    }
    // starting or stopping a file log
    ||| {
        &&& after.reader == (LoopView { file_log: after.reader.file_log, ..before.reader })
        &&& after.status == (StatusView {
            file_log_path: after.status.file_log_path,
            stats_file_path: after.status.stats_file_path,
            ..before.status
        })
    }
    // trying to reconnect
    ||| exists|backoff_over: bool, opened: Result<(), IoError>|
        #![trigger idle_step(before.reader.port_open, before.status.closed, backoff_over), status_tried(before.status, opened)]
        {
            &&& idle_step(before.reader.port_open, before.status.closed, backoff_over)
                == IdleStep::OpenPort
            &&& after.reader == (LoopView { port_open: opened is Ok, ..before.reader })
            &&& after.status == status_tried(before.status, opened)
        }
    // reading
    ||| {
        &&& before.reader.port_open
        &&& after.reader == (LoopView {
            pending: after.reader.pending,
            file_log: after.reader.file_log,
            ..before.reader
        })
        &&& after.status == before.status
    }
    // losing the port
    ||| {
        &&& before.reader.port_open
        &&& after.reader == (LoopView { port_open: false, ..before.reader })
        &&& exists|e: IoError| after.status == #[trigger] status_lost(before.status, e)
    }
}

/// Once closed, the port stays released, is not tried again, and no command that needs it is
/// carried out, until `Open` is asked for: whatever else happens in between, in however many
/// steps.
pub proof fn closed_until_open(states: Seq<ReaderState>, backoff_over: bool)
    requires
        states.len() > 0,
        states[0].status.closed,
        in_step(states[0].reader, states[0].status),
        forall|i: int|
            #![trigger states[i]]
            0 <= i < states.len() - 1 ==> steps_without_open(states[i], states[i + 1]),
    ensures
        states.last().status.closed,
        !states.last().reader.port_open,
        idle_step(
            states.last().reader.port_open,
            states.last().status.closed,
            backoff_over,
        ) == IdleStep::Pause,
        forall|allowed: CommandStep, step: CommandStep| #[trigger]
            needs_port(states.last().reader.port_open, allowed, step) ==> step is Refuse,
    decreases states.len(),
{
    if states.len() > 1 {
        let front = states.drop_last();
        assert forall|i: int| #![trigger front[i]] 0 <= i < front.len() - 1 implies steps_without_open(
            front[i],
            front[i + 1],
        ) by {
            assert(front[i] == states[i] && front[i + 1] == states[i + 1]);
        }
        closed_until_open(front, backoff_over);
        let i = states.len() - 2;
        assert(front.last() == states[i]);
        assert(steps_without_open(states[i], states[i + 1]));
    }
}

/// The command to close lets go of the port, whatever went before. From then on, in every
/// state until `Open` is asked for, the port stays released, is not tried, and no command that
/// needs it is carried out.
pub proof fn close_releases_until_open(
    before: ReaderState,
    states: Seq<ReaderState>,
    i: int,
    backoff_over: bool,
)
    requires
        in_step(before.reader, before.status),
        states.len() > 0,
        states[0] == (ReaderState {
            reader: LoopView { port_open: false, ..before.reader },
            status: status_closed(before.status),
        }),
        forall|j: int|
            #![trigger states[j]]
            0 <= j < states.len() - 1 ==> steps_without_open(states[j], states[j + 1]),
        0 <= i < states.len(),
    ensures
        !states[0].status.connected,
        states[0].status.closed,
        states[0].status.last_error is None,
        states[i].status.closed,
        !states[i].reader.port_open,
        idle_step(states[i].reader.port_open, states[i].status.closed, backoff_over)
            == IdleStep::Pause,
        forall|allowed: CommandStep, step: CommandStep| #[trigger]
            needs_port(states[i].reader.port_open, allowed, step) ==> step is Refuse,
{
    let until = states.take(i + 1);
    assert forall|j: int| #![trigger until[j]] 0 <= j < until.len() - 1 implies steps_without_open(
        until[j],
        until[j + 1],
    ) by {
        assert(until[j] == states[j] && until[j + 1] == states[j + 1]);
    }
    closed_until_open(until, backoff_over);
    assert(until.last() == states[i]);
}

/// Asking to open ends a close whether or not the attempt succeeds: the port is read if it
/// did, and tried again as soon as the backoff is over if it did not. The status shows what
/// went wrong, or that nothing did.
pub proof fn open_resumes_reconnecting(status: StatusView, opened: Result<(), IoError>)
    ensures
        !status_tried(status, opened).closed,
        status_tried(status, opened).connected == (opened is Ok),
        status_tried(status, opened).last_error == (match opened {
            Ok(_) => None,
            Err(e) => Some(e.message@),
        }),
        idle_step(opened is Ok, status_tried(status, opened).closed, true) == (if opened is Ok {
            IdleStep::Read
        } else {
            IdleStep::OpenPort
        }),
{
}

/// Every line is an ordinary line or a packet, and none is both.
pub proof fn every_line_goes_to_one_place(lines: Seq<Seq<char>>)
    ensures
        ordinary(lines).len() + packets(lines).len() == lines.len(),
        forall|i: int|
            #![trigger lines[i]]
            0 <= i < lines.len() ==> (ordinary(lines).contains(lines[i]) <==> !packets(
                lines,
            ).contains(lines[i])),
{
    broadcast use vstd::seq_lib::group_filter_ensures;

    lemma_partition(lines);
    let is_ordinary = |line: Seq<char>| crate::stats::stat_of(line) is None;
    let is_packet = |line: Seq<char>| crate::stats::stat_of(line) is Some;
    assert forall|i: int| #![trigger lines[i]] 0 <= i < lines.len() implies (ordinary(
        lines,
    ).contains(lines[i]) <==> !packets(lines).contains(lines[i])) by {
        if is_packet(lines[i]) {
            assert(lines.filter(is_packet).contains(lines[i]));
            if ordinary(lines).contains(lines[i]) {
                let k = choose|k: int|
                    0 <= k < ordinary(lines).len() && ordinary(lines)[k] == lines[i];
                assert(is_ordinary(lines.filter(is_ordinary)[k]));
            }
        } else {
            assert(lines.filter(is_ordinary).contains(lines[i]));
            if packets(lines).contains(lines[i]) {
                let k = choose|k: int|
                    0 <= k < packets(lines).len() && packets(lines)[k] == lines[i];
                assert(is_packet(lines.filter(is_packet)[k]));
            }
        }
    }
}

proof fn lemma_partition(lines: Seq<Seq<char>>)
    ensures
        ordinary(lines).len() + packets(lines).len() == lines.len(),
    decreases lines.len(),
{
    reveal(Seq::filter);
    if lines.len() > 0 {
        lemma_partition(lines.drop_last());
    }
}

/// These texts, each as a line, one after the other.
pub open spec fn as_lines(texts: Seq<Seq<char>>) -> Seq<char>
    decreases texts.len(),
{
    if texts.len() == 0 {
        Seq::empty()
    } else {
        as_lines(texts.drop_last()) + crate::filelog::as_line(texts.last())
    }
}

/// What these writes add to one of the files.
pub open spec fn added_to(file: LogFile, writes: Seq<FileWriteView>) -> Seq<char>
    decreases writes.len(),
{
    if writes.len() == 0 {
        Seq::empty()
    } else {
        added_to(file, writes.drop_last()) + (if writes.last().file == file {
            writes.last().text
        } else {
            Seq::empty()
        })
    }
}

/// What the packets among these lines hold.
pub open spec fn packet_texts(lines: Seq<Seq<char>>) -> Seq<Seq<char>> {
    packets(lines).map_values(|line: Seq<char>| crate::stats::stat_of(line)->0)
}

/// The main file gets the ordinary lines, the stats file what the packets hold, each as
/// lines in the order in which they came.
pub proof fn files_get_their_lines(lines: Seq<Seq<char>>)
    ensures
        added_to(LogFile::Main, writes_for(lines)) == as_lines(ordinary(lines)),
        added_to(LogFile::Stats, writes_for(lines)) == as_lines(packet_texts(lines)),
    decreases lines.len(),
{
    reveal(Seq::filter);
    if lines.len() > 0 {
        let front = lines.drop_last();
        let line = lines.last();
        files_get_their_lines(front);
        assert(writes_for(lines).drop_last() =~= writes_for(front));
        assert(writes_for(lines).last() == write_for(line));
        if crate::stats::stat_of(line) is None {
            assert(ordinary(lines).drop_last() =~= ordinary(front));
            assert(packets(lines) == packets(front));
            assert(added_to(LogFile::Stats, writes_for(lines)) =~= added_to(
                LogFile::Stats,
                writes_for(front),
            ));
        } else {
            assert(ordinary(lines) == ordinary(front));
            assert(packets(lines) == packets(front).push(line));
            assert(packet_texts(lines).drop_last() =~= packet_texts(front));
            assert(packet_texts(lines).last() == crate::stats::stat_of(line)->0);
            assert(added_to(LogFile::Main, writes_for(lines)) =~= added_to(
                LogFile::Main,
                writes_for(front),
            ));
        }
    } else {
        assert(packet_texts(lines) =~= Seq::empty());
        assert(writes_for(lines) =~= Seq::empty());
    }
}

/// A log counts on from read to read: what it holds after two batches of lines is what it
/// would hold after both as one.
pub proof fn counts_add_up(
    file_log: Option<FileLog>,
    first: Seq<Seq<char>>,
    second: Seq<Seq<char>>,
)
    requires
        file_log matches Some(log) ==> log.lines_written + first.len() + second.len() <= usize::MAX
            && log.stats_lines_written + first.len() + second.len() <= usize::MAX,
    ensures
        log_after(log_after(file_log, first), second) == log_after(file_log, first + second),
{
    broadcast use vstd::seq_lib::group_filter_ensures;

    let is_ordinary = |line: Seq<char>| crate::stats::stat_of(line) is None;
    let is_packet = |line: Seq<char>| crate::stats::stat_of(line) is Some;
    Seq::filter_distributes_over_add(first, second, is_ordinary);
    Seq::filter_distributes_over_add(first, second, is_packet);
    assert(ordinary(first).len() <= first.len() && ordinary(second).len() <= second.len());
    assert(packets(first).len() <= first.len() && packets(second).len() <= second.len());
}

/// A log that is stopped reports how many ordinary lines came since it was started, and has
/// its stats file removed exactly if the file is empty: it held nothing when the log was
/// started, and no packet came since.
pub proof fn stopping_reports_what_came(started: FileLog, lines: Seq<Seq<char>>)
    requires
        started.lines_written == 0,
        started.stats_lines_written == 0,
        lines.len() <= usize::MAX,
    ensures
        closed_log(log_after(Some(started), lines)->0).summary.lines_written == ordinary(
            lines,
        ).len(),
        closed_log(log_after(Some(started), lines)->0).summary.path == started.log_path,
        closed_log(log_after(Some(started), lines)->0).summary.stats_path == started.stats_path,
        closed_log(log_after(Some(started), lines)->0).remove_stats_file <==> (
        started.stats_was_empty && forall|i: int|
            0 <= i < lines.len() ==> crate::stats::stat_of(#[trigger] lines[i]) is None),
{
    broadcast use vstd::seq_lib::group_filter_ensures;

    lemma_partition(lines);
    let is_packet = |line: Seq<char>| crate::stats::stat_of(line) is Some;
    assert(packets(lines) == lines.filter(is_packet));
    if packets(lines).len() > 0 {
        let line = packets(lines)[0];
        assert(is_packet(lines.filter(is_packet)[0]));
        lemma_filter_source(lines, is_packet, 0);
    } else {
        assert forall|i: int| 0 <= i < lines.len() implies crate::stats::stat_of(
            #[trigger] lines[i],
        ) is None by {
            if is_packet(lines[i]) {
                assert(lines.filter(is_packet).contains(lines[i]));
            }
        }
    }
}

/// What a filter keeps was there before.
proof fn lemma_filter_source<A>(s: Seq<A>, keep: spec_fn(A) -> bool, k: int)
    requires
        0 <= k < s.filter(keep).len(),
    ensures
        exists|i: int| 0 <= i < s.len() && #[trigger] s[i] == s.filter(keep)[k],
    decreases s.len(),
{
    reveal(Seq::filter);
    if s.len() > 0 {
        let front = s.drop_last();
        if k < front.filter(keep).len() {
            lemma_filter_source(front, keep, k);
            let i = choose|i: int| 0 <= i < front.len() && #[trigger] front[i] == front.filter(
                keep,
            )[k];
            assert(s[i] == s.filter(keep)[k]);
        } else {
            assert(s[s.len() - 1] == s.filter(keep)[k]);
        }
    }
}

/// The bytes that wait for their line end once these reads have been taken in.
pub open spec fn pending_after(pending: Seq<u8>, reads: Seq<Seq<u8>>) -> Seq<u8>
    decreases reads.len(),
{
    if reads.len() == 0 {
        pending
    } else {
        crate::lineread::partial_line(pending_after(pending, reads.drop_last()) + reads.last())
    }
}

/// The ring buffer once these reads have been taken in: each pushes its own ordinary lines,
/// at its own times.
pub open spec fn buffered_after(
    log: crate::logbuf::RingView,
    pending: Seq<u8>,
    reads: Seq<Seq<u8>>,
    at: Seq<Seq<SystemTime>>,
) -> crate::logbuf::RingView
    decreases reads.len(),
{
    if reads.len() == 0 {
        log
    } else {
        let front = reads.drop_last();
        buffered_after(log, pending, front, at.drop_last()).pushed_all(
            ordinary(lines_of(pending_after(pending, front), reads.last())),
            at.last(),
        )
    }
}

/// What these reads write while a log is under way: each writes its own lines.
pub open spec fn writes_after(pending: Seq<u8>, reads: Seq<Seq<u8>>) -> Seq<FileWriteView>
    decreases reads.len(),
{
    if reads.len() == 0 {
        Seq::empty()
    } else {
        let front = reads.drop_last();
        writes_after(pending, front) + writes_for(
            lines_of(pending_after(pending, front), reads.last()),
        )
    }
}

/// The log files' state once these reads have been taken in.
pub open spec fn file_log_after(
    file_log: Option<FileLog>,
    pending: Seq<u8>,
    reads: Seq<Seq<u8>>,
) -> Option<FileLog>
    decreases reads.len(),
{
    if reads.len() == 0 {
        file_log
    } else {
        let front = reads.drop_last();
        log_after(
            file_log_after(file_log, pending, front),
            lines_of(pending_after(pending, front), reads.last()),
        )
    }
}

/// Each read has a time for each ordinary line that it completes.
pub open spec fn times_fit(pending: Seq<u8>, reads: Seq<Seq<u8>>, at: Seq<Seq<SystemTime>>) -> bool
    decreases reads.len(),
{
    &&& at.len() == reads.len()
    &&& reads.len() > 0 ==> {
        let front = reads.drop_last();
        &&& times_fit(pending, front, at.drop_last())
        &&& at.last().len() == ordinary(
            lines_of(pending_after(pending, front), reads.last()),
        ).len()
    }
}

/// Two reads route their lines as one read of both would: the lines are the same, the ring
/// buffer gets the same ordinary lines, and the files the same texts.
pub proof fn two_reads_route_as_one(
    log: crate::logbuf::RingView,
    pending: Seq<u8>,
    a: Seq<u8>,
    b: Seq<u8>,
    at_a: Seq<SystemTime>,
    at_b: Seq<SystemTime>,
)
    requires
        at_a.len() == ordinary(lines_of(pending, a)).len(),
        at_b.len() == ordinary(
            lines_of(crate::lineread::partial_line(pending + a), b),
        ).len(),
    ensures
        ({
            let first = lines_of(pending, a);
            let second = lines_of(crate::lineread::partial_line(pending + a), b);
            let both = lines_of(pending, a + b);
            &&& first + second == both
            &&& log.pushed_all(ordinary(first), at_a).pushed_all(ordinary(second), at_b)
                == log.pushed_all(ordinary(both), at_a + at_b)
            &&& writes_for(first) + writes_for(second) == writes_for(both)
            &&& ordinary(both).len() == (at_a + at_b).len()
            &&& crate::lineread::partial_line(crate::lineread::partial_line(pending + a) + b)
                == crate::lineread::partial_line(pending + (a + b))
        }),
{
    let first = lines_of(pending, a);
    let second = lines_of(crate::lineread::partial_line(pending + a), b);
    crate::lineread::feeding_in_pieces_changes_nothing(pending, a, b);
    let is_ordinary = |line: Seq<char>| crate::stats::stat_of(line) is None;
    Seq::filter_distributes_over_add(first, second, is_ordinary);
    crate::logbuf::lemma_pushed_in_batches(log, ordinary(first), at_a, ordinary(second), at_b);
    assert(writes_for(first) + writes_for(second) =~= writes_for(first + second));
}

/// A whole run of reads routes its lines as one read of all its bytes would: each complete
/// line, in order, is pushed once and written to the main file, or, where it is a packet, not
/// pushed and its content written to the stats file; nothing else is pushed or written. The
/// counts of the log come out the same, too.
pub proof fn a_run_of_reads_routes_as_one(
    log: crate::logbuf::RingView,
    file_log: Option<FileLog>,
    pending: Seq<u8>,
    reads: Seq<Seq<u8>>,
    at: Seq<Seq<SystemTime>>,
)
    requires
        !crate::lineread::has_newline(pending),
        times_fit(pending, reads, at),
        file_log matches Some(started) ==> {
            &&& started.lines_written + lines_of(pending, reads.flatten()).len() <= usize::MAX
            &&& started.stats_lines_written + lines_of(pending, reads.flatten()).len()
                <= usize::MAX
        },
    ensures
        ({
            let lines = lines_of(pending, reads.flatten());
            &&& ordinary(lines).len() == at.flatten().len()
            &&& buffered_after(log, pending, reads, at) == log.pushed_all(
                ordinary(lines),
                at.flatten(),
            )
            &&& writes_after(pending, reads) == writes_for(lines)
            &&& file_log_after(file_log, pending, reads) == log_after(file_log, lines)
            &&& pending_after(pending, reads) == crate::lineread::partial_line(
                pending + reads.flatten(),
            )
        }),
    decreases reads.len(),
{
    let lines = lines_of(pending, reads.flatten());
    if reads.len() == 0 {
        reveal(Seq::filter);
        assert(reads.flatten() =~= Seq::empty());
        assert(at.flatten() =~= Seq::empty());
        assert(pending + reads.flatten() =~= pending);
        crate::lineread::lemma_no_newline_no_lines(pending);
        assert(lines =~= Seq::empty());
        assert(ordinary(lines) =~= Seq::empty());
        assert(packets(lines) =~= Seq::empty());
        assert(writes_for(lines) =~= Seq::empty());
        assert(log_after(file_log, lines) == file_log);
    } else {
        let front = reads.drop_last();
        let bytes = front.flatten();
        let first = lines_of(pending, bytes);
        let second = lines_of(crate::lineread::partial_line(pending + bytes), reads.last());
        assert(reads =~= front.push(reads.last()));
        front.lemma_flatten_push(reads.last());
        assert(at =~= at.drop_last().push(at.last()));
        at.drop_last().lemma_flatten_push(at.last());
        crate::lineread::feeding_in_pieces_changes_nothing(pending, bytes, reads.last());
        assert(lines == first + second);
        a_run_of_reads_routes_as_one(log, file_log, pending, front, at.drop_last());
        two_reads_route_as_one(
            log,
            pending,
            bytes,
            reads.last(),
            at.drop_last().flatten(),
            at.last(),
        );
        counts_add_up(file_log, first, second);
    }
}

/// One turn in which a reader may try to open its port.
pub enum PaceTurn {
    /// No command is waiting.
    Idle { now: Instant, port_open: bool, closed: bool },
    /// The command to open was given while the port was not.
    AskedToOpen { now: Instant },
}

/// When a turn takes place.
pub open spec fn time_of(turn: PaceTurn) -> Instant {
    match turn {
        PaceTurn::Idle { now, .. } => now,
        PaceTurn::AskedToOpen { now } => now,
    }
}

/// Whether the port is tried in this turn, when it was last tried at `last`.
pub open spec fn tries_in(last: Option<Instant>, turn: PaceTurn, backoff: Duration) -> bool {
    match turn {
        PaceTurn::Idle { now, port_open, closed } => idle_step(
            port_open,
            closed,
            may_try_after(last, now, backoff),
        ) == IdleStep::OpenPort,
        PaceTurn::AskedToOpen { .. } => true,
    }
}

/// When the port was last tried, once these turns are over. Before them it was not.
pub open spec fn last_tried(turns: Seq<PaceTurn>, backoff: Duration) -> Option<Instant>
    decreases turns.len(),
{
    if turns.len() == 0 {
        None
    } else {
        let last = last_tried(turns.drop_last(), backoff);
        if tries_in(last, turns.last(), backoff) {
            Some(time_of(turns.last()))
        } else {
            last
        }
    }
}

/// Whether the port is tried in turn `i`.
pub open spec fn tries_at(turns: Seq<PaceTurn>, backoff: Duration, i: int) -> bool {
    tries_in(last_tried(turns.take(i), backoff), turns[i], backoff)
}

/// Automatic attempts keep their distance: between an automatic attempt and the attempt before
/// it, automatic or asked for, at least the backoff goes by.
pub proof fn automatic_attempts_keep_their_distance(
    turns: Seq<PaceTurn>,
    backoff: Duration,
    i: int,
    j: int,
)
    requires
        0 <= i < j < turns.len(),
        tries_at(turns, backoff, i),
        tries_at(turns, backoff, j),
        turns[j] is Idle,
        forall|k: int| i < k < j ==> !#[trigger] tries_at(turns, backoff, k),
    ensures
        crate::clock::nanos(crate::clock::between(time_of(turns[i]), time_of(turns[j])))
            >= crate::clock::nanos(backoff),
{
    lemma_last_tried(turns, backoff, i, j);
}

/// A port that is not held and was not closed on request is tried at once where it has not
/// been tried yet, and else exactly as soon as the backoff since the last attempt is over: no
/// further asking is needed.
pub proof fn lost_port_is_tried_again(
    turns: Seq<PaceTurn>,
    backoff: Duration,
    now: Instant,
)
    ensures
        ({
            let again = turns.push(PaceTurn::Idle { now, port_open: false, closed: false });
            let n = turns.len() as int;
            &&& (forall|k: int| 0 <= k < n ==> !#[trigger] tries_at(turns, backoff, k))
                ==> tries_at(again, backoff, n)
            &&& forall|i: int|
                0 <= i < n && #[trigger] tries_at(turns, backoff, i) && (forall|k: int|
                    i < k < n ==> !#[trigger] tries_at(turns, backoff, k)) ==> (tries_at(
                    again,
                    backoff,
                    n,
                ) <==> crate::clock::nanos(crate::clock::between(time_of(turns[i]), now))
                    >= crate::clock::nanos(backoff))
        }),
{
    let again = turns.push(PaceTurn::Idle { now, port_open: false, closed: false });
    let n = turns.len() as int;
    assert(again.take(n) =~= turns);
    assert(turns.take(n) =~= turns);
    if forall|k: int| 0 <= k < n ==> !#[trigger] tries_at(turns, backoff, k) {
        lemma_never_tried(turns, backoff, n);
    }
    assert forall|i: int|
        0 <= i < n && #[trigger] tries_at(turns, backoff, i) && (forall|k: int|
            i < k < n ==> !#[trigger] tries_at(turns, backoff, k)) implies (tries_at(
        again,
        backoff,
        n,
    ) <==> crate::clock::nanos(crate::clock::between(time_of(turns[i]), now))
        >= crate::clock::nanos(backoff)) by {
        lemma_last_tried(turns, backoff, i, n);
    }
}

proof fn lemma_last_tried(turns: Seq<PaceTurn>, backoff: Duration, i: int, j: int)
    requires
        0 <= i < j <= turns.len(),
        tries_at(turns, backoff, i),
        forall|k: int| i < k < j ==> !#[trigger] tries_at(turns, backoff, k),
    ensures
        last_tried(turns.take(j), backoff) == Some(time_of(turns[i])),
    decreases j - i,
{
    let k = j - 1;
    assert(turns.take(j).drop_last() =~= turns.take(k));
    assert(turns.take(j).last() == turns[k]);
    if i < k {
        lemma_last_tried(turns, backoff, i, k);
        assert(!tries_at(turns, backoff, k));
    }
}

proof fn lemma_never_tried(turns: Seq<PaceTurn>, backoff: Duration, j: int)
    requires
        0 <= j <= turns.len(),
        forall|k: int| 0 <= k < j ==> !#[trigger] tries_at(turns, backoff, k),
    ensures
        last_tried(turns.take(j), backoff) is None,
    decreases j,
{
    if j > 0 {
        let k = j - 1;
        assert(turns.take(j).drop_last() =~= turns.take(k));
        assert(turns.take(j).last() == turns[k]);
        lemma_never_tried(turns, backoff, k);
        assert(!tries_at(turns, backoff, k));
    }
}

/// What is written for a line is all of it, and one line feed: the line itself to the main file
/// where it is no packet, and what the packet holds to the stats file where it is one.
pub proof fn a_line_is_written_whole_to_its_file(line: Seq<char>)
    ensures
        write_for(line).file == (if crate::stats::stat_of(line) is None {
            LogFile::Main
        } else {
            LogFile::Stats
        }),
        ({
            let shown = match crate::stats::stat_of(line) {
                None => line,
                Some(inner) => inner,
            };
            &&& write_for(line).text.len() == shown.len() + 1
            &&& write_for(line).text.take(shown.len() as int) == shown
            &&& write_for(line).text.last() == '\n'
        }),
{
    match crate::stats::stat_of(line) {
        None => crate::filelog::a_text_is_written_whole(line),
        Some(inner) => crate::filelog::a_text_is_written_whole(inner),
    }
}

/// Each line has one write, in the order of the lines.
pub proof fn each_line_has_one_write(lines: Seq<Seq<char>>)
    ensures
        writes_for(lines).len() == lines.len(),
        forall|i: int|
            0 <= i < lines.len() ==> #[trigger] writes_for(lines)[i] == write_for(lines[i]),
{
}

/// Writes read as what they say, one by one.
pub proof fn writes_read_as_they_are(writes: Seq<FileWrite>)
    ensures
        write_views(writes).len() == writes.len(),
        forall|i: int|
            #![trigger write_views(writes)[i]]
            0 <= i < writes.len() ==> {
                &&& write_views(writes)[i].file == writes[i].file
                &&& write_views(writes)[i].text == writes[i].text@
            },
{
}

/// A line that comes in is an ordinary line or a packet, and stays whole: it is added to the
/// end of the one or the other, and the other stays as it was.
pub proof fn a_line_is_sorted_by_whether_it_is_a_packet(lines: Seq<Seq<char>>, line: Seq<char>)
    ensures
        ordinary(Seq::empty()) == Seq::<Seq<char>>::empty(),
        packets(Seq::empty()) == Seq::<Seq<char>>::empty(),
        crate::stats::stat_of(line) is None ==> ordinary(lines.push(line)) == ordinary(lines).push(
            line,
        ) && packets(lines.push(line)) == packets(lines),
        crate::stats::stat_of(line) is Some ==> packets(lines.push(line)) == packets(lines).push(
            line,
        ) && ordinary(lines.push(line)) == ordinary(lines),
{
    reveal(Seq::filter);
    assert(lines.push(line).drop_last() =~= lines);
    assert(ordinary(Seq::empty()) =~= Seq::empty());
    assert(packets(Seq::empty()) =~= Seq::empty());
}

/// A file to which lines are written one after the other holds each of them whole, where the
/// lines before it end, and a line feed after it, and nothing else.
pub proof fn a_file_holds_its_lines_whole(texts: Seq<Seq<char>>, i: int)
    requires
        0 <= i < texts.len(),
    ensures
        ({
            let file = as_lines(texts);
            let start = as_lines(texts.take(i)).len() as int;
            let end = start + texts[i].len();
            &&& 0 <= start <= end < file.len()
            &&& file.subrange(start, end) == texts[i]
            &&& file[end] == '\n'
            &&& as_lines(texts.take(i + 1)).len() == end + 1
            &&& texts.take(texts.len() as int) == texts
            &&& as_lines(Seq::empty()).len() == 0
        }),
    decreases texts.len(),
{
    let front = texts.drop_last();
    let last = texts.last();
    crate::filelog::a_text_is_written_whole(last);
    assert(texts.take(texts.len() as int) =~= texts);
    let line = crate::filelog::as_line(last);
    if i == texts.len() - 1 {
        assert(texts.take(i) =~= front);
        let start = as_lines(front).len() as int;
        assert(as_lines(texts).subrange(start, start + last.len()) =~= line.take(
            last.len() as int,
        ));
        assert(texts.take(i + 1) =~= texts);
    } else {
        a_file_holds_its_lines_whole(front, i);
        assert(front.take(i) =~= texts.take(i));
        assert(front.take(i + 1) =~= texts.take(i + 1));
        let start = as_lines(texts.take(i)).len() as int;
        let end = start + texts[i].len();
        assert(as_lines(texts).subrange(start, end) =~= as_lines(front).subrange(start, end));
    }
}

/// A log file that is read back line by line gives the lines that were written to it.
pub proof fn a_log_file_reads_back_as_its_lines(texts: Seq<Seq<char>>)
    requires
        forall|i: int, k: int|
            0 <= i < texts.len() && 0 <= k < texts[i].len() ==> #[trigger] texts[i][k] != '\n',
        forall|i: int|
            0 <= i < texts.len() && #[trigger] texts[i].len() > 0 ==> texts[i].last() != '\r',
    ensures
        crate::lineread::line_texts(
            crate::lineread::complete_lines(vstd::utf8::encode_utf8(as_lines(texts))),
        ) == texts,
    decreases texts.len(),
{
    let bytes = vstd::utf8::encode_utf8(as_lines(texts));
    if texts.len() == 0 {
        assert(as_lines(texts) =~= Seq::empty());
        crate::lineread::a_line_feed_ends_a_line(Seq::empty());
        assert(bytes =~= Seq::empty());
        crate::lineread::a_line_reads_as_its_bytes(Seq::empty(), Seq::empty());
        assert(crate::lineread::line_texts(crate::lineread::complete_lines(bytes)) =~= texts);
    } else {
        let front = texts.drop_last();
        let last = texts.last();
        assert forall|i: int, k: int|
            0 <= i < front.len() && 0 <= k < front[i].len() implies #[trigger] front[i][k]
            != '\n' by {
            assert(front[i] == texts[i]);
            assert(texts[i][k] != '\n');
        }
        assert forall|i: int|
            0 <= i < front.len() && #[trigger] front[i].len() > 0 implies front[i].last()
            != '\r' by {
            assert(front[i] == texts[i]);
            assert(texts[i].len() > 0);
        }
        a_log_file_reads_back_as_its_lines(front);
        lemma_last_line_reads_back(front, last);
        assert(front.push(last) =~= texts);
    }
}

proof fn lemma_last_line_reads_back(front: Seq<Seq<char>>, last: Seq<char>)
    requires
        crate::lineread::line_texts(
            crate::lineread::complete_lines(vstd::utf8::encode_utf8(as_lines(front))),
        ) == front,
        forall|k: int| 0 <= k < last.len() ==> #[trigger] last[k] != '\n',
        last.len() > 0 ==> last.last() != '\r',
    ensures
        crate::lineread::line_texts(
            crate::lineread::complete_lines(
                vstd::utf8::encode_utf8(as_lines(front.push(last))),
            ),
        ) == front.push(last),
{
    let whole = as_lines(front.push(last));
    let head = as_lines(front);
    assert(front.push(last).drop_last() =~= front);
    reveal_strlit("\n");
    assert(whole =~= head + (last + seq!['\n']));
    crate::lineread::lemma_encode_both(head, last + seq!['\n']);
    crate::lineread::lemma_encode_both(last, seq!['\n']);
    crate::lineread::lemma_encode_line_feed();
    let a = vstd::utf8::encode_utf8(head);
    let b = vstd::utf8::encode_utf8(last).push(10u8);
    assert(vstd::utf8::encode_utf8(last + seq!['\n']) =~= b);
    assert(vstd::utf8::encode_utf8(whole) == a + b);
    crate::lineread::a_sent_text_comes_back_whole(last);
    if front.len() > 0 {
        let head_front = as_lines(front.drop_last()) + front.last();
        assert(head =~= head_front + seq!['\n']);
        crate::lineread::lemma_encode_both(head_front, seq!['\n']);
        let c = vstd::utf8::encode_utf8(head_front);
        assert(a =~= c.push(10u8));
        crate::lineread::lines_stand_for_themselves(c, b);
    } else {
        assert(head =~= Seq::empty());
        assert(a =~= Seq::empty());
        crate::lineread::a_line_feed_ends_a_line(Seq::empty());
        assert(a + b =~= b);
        assert(crate::lineread::complete_lines(a) + crate::lineread::complete_lines(b)
            =~= crate::lineread::complete_lines(b));
    }
    let left = crate::lineread::complete_lines(a);
    let right = crate::lineread::complete_lines(b);
    assert(crate::lineread::line_texts(left + right) =~= crate::lineread::line_texts(left)
        + crate::lineread::line_texts(right));
    assert(front + seq![last] =~= front.push(last));
}

/// What writes add to a file is the texts that go there, in order, and nothing else.
pub proof fn a_write_is_added_at_the_end(
    file: LogFile,
    writes: Seq<FileWriteView>,
    write: FileWriteView,
)
    ensures
        added_to(file, Seq::empty()) == Seq::<char>::empty(),
        added_to(file, writes.push(write)) == (if write.file == file {
            added_to(file, writes) + write.text
        } else {
            added_to(file, writes)
        }),
{
    assert(writes.push(write).drop_last() =~= writes);
    assert(added_to(file, writes) + Seq::empty() =~= added_to(file, writes));
}

/// A text that a board sends with a line feed after it is one line to a reader that had nothing
/// waiting, and it is that text, however long it is.
pub proof fn a_sent_text_is_one_line(text: Seq<char>)
    requires
        forall|i: int| 0 <= i < text.len() ==> #[trigger] text[i] != '\n',
        text.len() > 0 ==> text.last() != '\r',
    ensures
        lines_of(Seq::empty(), vstd::utf8::encode_utf8(text).push(10u8)) == seq![text],
{
    crate::lineread::a_sent_text_comes_back_whole(text);
    let bytes = vstd::utf8::encode_utf8(text).push(10u8);
    assert(Seq::<u8>::empty() + bytes =~= bytes);
}

/// The lines of a read are those of the bytes that waited and the bytes that came, as one, and
/// they read as the splitter reads them.
pub proof fn waiting_bytes_come_first(pending: Seq<u8>, bytes: Seq<u8>)
    ensures
        lines_of(pending, bytes) == lines_of(Seq::empty(), pending + bytes),
        lines_of(pending, bytes) == crate::lineread::line_texts(
            crate::lineread::complete_lines(pending + bytes),
        ),
{
    assert(Seq::<u8>::empty() + (pending + bytes) =~= pending + bytes);
}

/// A log counts the lines that went to each of its files, and stays otherwise as it was. There
/// is none where none was started.
pub proof fn a_log_counts_its_lines(log: FileLog, lines: Seq<Seq<char>>)
    requires
        log.lines_written + lines.len() <= usize::MAX,
        log.stats_lines_written + lines.len() <= usize::MAX,
    ensures
        log_after(None, lines) is None,
        log_after(Some(log), lines) matches Some(after) && {
            &&& after.lines_written == log.lines_written + ordinary(lines).len()
            &&& after.stats_lines_written == log.stats_lines_written + packets(lines).len()
            &&& after.log_path == log.log_path
            &&& after.stats_path == log.stats_path
            &&& after.stats_was_empty == log.stats_was_empty
        },
{
    lemma_partition(lines);
}

/// A log that is stopped reports where its files stand and how many lines went to the main one.
/// Its stats file is removed exactly if it is empty.
pub proof fn a_stopped_log_reports_itself(log: FileLog)
    ensures
        closed_log(log).summary.path == log.log_path,
        closed_log(log).summary.stats_path == log.stats_path,
        closed_log(log).summary.lines_written == log.lines_written,
        closed_log(log).remove_stats_file <==> log.stats_lines_written == 0 && log.stats_was_empty,
{
}

/// A log shows the paths of its own two files, and no log shows none.
pub proof fn a_log_shows_its_own_files(log: FileLog)
    ensures
        shown_log_path(Some(log)) == Some(crate::paths::display_of(log.log_path)),
        shown_stats_path(Some(log)) == Some(crate::paths::display_of(log.stats_path)),
        shown_log_path(None) is None,
        shown_stats_path(None) is None,
{
}

/// A reader in step shows itself connected exactly while it holds the port, never closed while
/// it does, and the files of its log while there is one; no whole line is waiting in it.
pub proof fn a_reader_in_step_shows_what_is_so(reader: LoopView, status: StatusView)
    ensures
        in_step(reader, status) <==> {
            &&& status.connected == reader.port_open
            &&& !(status.closed && reader.port_open)
            &&& status.file_log_path == (match reader.file_log {
                Some(log) => Some(crate::paths::display_of(log.log_path)),
                None => None,
            })
            &&& status.stats_file_path == (match reader.file_log {
                Some(log) => Some(crate::paths::display_of(log.stats_path)),
                None => None,
            })
            &&& forall|i: int|
                0 <= i < reader.pending.len() ==> #[trigger] reader.pending[i] != 10u8
        },
{
    assert(crate::lineread::has_newline(reader.pending) <==> exists|i: int|
        0 <= i < reader.pending.len() && #[trigger] reader.pending[i] == 10u8);
}

/// Closing, trying to open and losing the port change what the status says of the connection,
/// and nothing else of it.
pub proof fn the_status_changes_in_the_connection_only(
    status: StatusView,
    opened: Result<(), IoError>,
    e: IoError,
)
    ensures
        ({
            let closed = status_closed(status);
            let tried = status_tried(status, opened);
            let lost = status_lost(status, e);
            &&& !closed.connected && closed.closed && closed.last_error is None
            &&& !tried.closed && (tried.connected <==> opened is Ok)
            &&& opened is Ok ==> tried.last_error is None
            &&& opened matches Err(why) ==> tried.last_error == Some(why.message@)
            &&& !lost.connected && lost.last_error == Some(e.message@)
            &&& lost.closed == status.closed
            &&& closed.port == status.port && tried.port == status.port && lost.port
                == status.port
            &&& closed.baud == status.baud && tried.baud == status.baud && lost.baud
                == status.baud
            &&& closed.file_log_path == status.file_log_path && tried.file_log_path
                == status.file_log_path && lost.file_log_path == status.file_log_path
            &&& closed.stats_file_path == status.stats_file_path && tried.stats_file_path
                == status.stats_file_path && lost.stats_file_path == status.stats_file_path
            &&& closed.started_at == status.started_at && tried.started_at == status.started_at
                && lost.started_at == status.started_at
        }),
{
}

/// A reader with nothing else to do reads the port while it holds it, and tries to open it only
/// while it does not, was not told to let go of it, and has waited long enough.
pub proof fn an_idle_reader_reads_or_reconnects(port_open: bool, closed: bool, over: bool)
    ensures
        idle_step(port_open, closed, over) == IdleStep::Read <==> port_open,
        idle_step(port_open, closed, over) == IdleStep::OpenPort <==> !port_open && !closed && over,
        idle_step(port_open, closed, over) == IdleStep::Pause <==> !port_open && (closed || !over),
{
}

/// A command that needs the port is carried out while it is open, and else refused, with the
/// reason. So is stopping a log that is not there.
pub proof fn refusals_say_why(allowed: CommandStep, step: CommandStep, e: IoError)
    ensures
        needs_port(true, allowed, step) <==> step == allowed,
        needs_port(false, allowed, step) <==> (step matches CommandStep::Refuse(why) && why.kind
            == IoErrorKind::NotConnected && why.message@ == "serial port not open"@),
        is_no_file_log(e) <==> e.kind == IoErrorKind::NotFound && e.message@
            == "no active file log"@,
{
}

/// A reader has room for lines exactly while none of its counters would run over.
pub proof fn room_is_what_the_counters_have(
    reader: LoopView,
    log: crate::logbuf::RingView,
    n: nat,
)
    ensures
        has_room_for(reader, log, n) <==> log.next_seq + n <= u64::MAX && (
        reader.file_log matches Some(file_log) ==> file_log.lines_written + n <= usize::MAX
            && file_log.stats_lines_written + n <= usize::MAX),
{
}

/// How long a reader waits, in milliseconds, before it looks again: for a port, and for bytes.
pub proof fn promised_pauses()
    ensures
        NO_PORT_PAUSE_MS == 20,
        NO_DATA_PAUSE_MS == 1,
{
}

/// The port may be tried where it never was, and else from the moment on at which the backoff
/// has gone by since the last attempt.
pub proof fn the_backoff_is_waited_for(at: Instant, now: Instant, backoff: Duration)
    ensures
        may_try_after(None, now, backoff),
        may_try_after(Some(at), now, backoff) <==> crate::clock::nanos(
            crate::clock::between(at, now),
        ) >= crate::clock::nanos(backoff),
{
}

/// Each step does to the port what it is called: a reset and a powering on reset the board and
/// report how that went, powering off holds it, and any other step leaves the port alone.
pub proof fn steps_do_what_they_are_called(
    step: CommandStep,
    opts: ResetOptions,
    calls: Seq<PortCall>,
    driven: Driven,
)
    requires
        is_driven(step, opts, calls, driven),
    ensures
        step is Reset || step is PowerOn ==> (driven matches Driven::Outcome(result)
            && crate::serial::is_reset(opts, calls, result)),
        step is PowerOff ==> (driven matches Driven::Held(result) && crate::serial::carried_out(
            crate::serial::power_off_calls(),
            calls,
            result,
        )),
        !(step is Reset || step is PowerOn || step is PowerOff) ==> calls.len() == 0 && driven
            is Nothing,
{
}

} // verus!
