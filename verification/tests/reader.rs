use esp_monitor::error::{IoError, IoErrorKind};
use esp_monitor::filelog::{
    ClosedFileLog, FileLog, FileLogInfo, FileLogSummary, FileWrite, LogFile,
};
use esp_monitor::logbuf::RingBuffer;
use esp_monitor::paths::{stats_file_name, stats_path_for};
use esp_monitor::reader::{
    drive, may_try, CommandStep, Driven, IdleStep, ReadStep, ReaderCommand, ReaderConfig,
    ReaderLoop, ReconnectPace, ResetOptions, ResetOutcome,
};
use esp_monitor::serial::ResetPort;
use esp_monitor::status::ReaderStatus;
use std::cell::RefCell;
use std::collections::VecDeque;
use std::path::PathBuf;
use std::rc::Rc;
use std::time::{Duration, Instant};

type Opener = Box<dyn FnMut() -> Result<Box<dyn ResetPort>, IoError>>;

/// The two files of a log, in memory.
#[derive(Default)]
struct Files {
    main: String,
    stats: Option<String>,
}

impl Files {
    /// Opens both files, and says whether the stats file held nothing.
    fn open(&mut self, append: bool) -> bool {
        if !append {
            self.main.clear();
        }
        self.stats.get_or_insert_with(String::new).is_empty()
    }

    fn write(&mut self, w: FileWrite) {
        match w.file {
            LogFile::Main => self.main.push_str(&w.text),
            LogFile::Stats => self.stats.as_mut().unwrap().push_str(&w.text),
        }
    }

    fn close(&mut self, closed: ClosedFileLog) -> FileLogSummary {
        if closed.remove_stats_file {
            self.stats = None;
        }
        closed.summary
    }
}

/// Does what the reader decides, turn by turn, with fake ports and files.
struct Handle {
    reader: ReaderLoop,
    log: RingBuffer,
    status: ReaderStatus,
    port: Option<Box<dyn ResetPort>>,
    opener: Opener,
    opts: ResetOptions,
    backoff: Duration,
    pace: ReconnectPace,
    now: Instant,
    files: Files,
    stopped: bool,
}

impl Handle {
    fn new(config: ReaderConfig, opener: Opener) -> Self {
        let (reader, log, status) = ReaderLoop::start(&config);
        Self {
            reader,
            log,
            status,
            port: None,
            opener,
            opts: config.reset_opts,
            backoff: config.reconnect_backoff,
            pace: ReconnectPace::new(),
            now: Instant::now(),
            files: Files::default(),
            stopped: false,
        }
    }

    fn open_port(&mut self) -> Result<(), IoError> {
        self.pace.tried(self.now);
        let opened = match (self.opener)() {
            Ok(p) => {
                self.port = Some(p);
                Ok(())
            }
            Err(e) => Err(e),
        };
        self.reader.try_open(&mut self.status, opened)
    }

    /// One turn of the loop with no command waiting, one millisecond after the last.
    fn turn(&mut self) {
        self.now += Duration::from_millis(1);
        let over = self.pace.may_try_at(&self.now, &self.backoff);
        match self.reader.idle(&self.status, over) {
            IdleStep::Pause => {}
            IdleStep::OpenPort => {
                let _ = self.open_port();
            }
            IdleStep::Read => {
                let mut buf = [0u8; 4096];
                let read = self.port.as_mut().unwrap().read(&mut buf);
                let read = read.map(|n| &buf[..n]);
                assert!(self.reader.has_room(&self.log, 4096));
                match self.reader.on_read(&mut self.status, &mut self.log, read) {
                    ReadStep::Pause => {}
                    ReadStep::ReleasePort => self.port = None,
                    ReadStep::Write(writes) => {
                        for w in writes {
                            self.files.write(w);
                        }
                    }
                }
            }
        }
    }

    fn turns(&mut self, n: usize) {
        for _ in 0..n {
            self.turn();
        }
    }

    fn step(&mut self, command: ReaderCommand) -> CommandStep {
        self.reader.on_command(command, &mut self.status)
    }

    /// What a command that drives the port's lines comes to.
    fn drive(&mut self, command: ReaderCommand) -> Result<Driven, IoError> {
        match self.step(command) {
            CommandStep::Refuse(e) => Err(e),
            step => Ok(drive(&step, self.port.as_mut().unwrap().as_mut(), self.opts)),
        }
    }

    fn reset(&mut self) -> Result<ResetOutcome, IoError> {
        match self.drive(ReaderCommand::Reset)? {
            Driven::Outcome(result) => result,
            other => panic!("{other:?}"),
        }
    }

    fn power_on(&mut self) -> Result<ResetOutcome, IoError> {
        match self.drive(ReaderCommand::PowerOn)? {
            Driven::Outcome(result) => result,
            other => panic!("{other:?}"),
        }
    }

    fn power_off(&mut self) -> Result<(), IoError> {
        match self.drive(ReaderCommand::PowerOff)? {
            Driven::Held(result) => result,
            other => panic!("{other:?}"),
        }
    }

    fn close(&mut self) -> Result<(), IoError> {
        match self.step(ReaderCommand::Close) {
            CommandStep::ReleasePort => {
                self.port = None;
                Ok(())
            }
            other => panic!("{other:?}"),
        }
    }

    fn open(&mut self) -> Result<(), IoError> {
        match self.step(ReaderCommand::Open) {
            CommandStep::Done => Ok(()),
            CommandStep::OpenPort => self.open_port(),
            other => panic!("{other:?}"),
        }
    }

    fn start_file_log(&mut self, path: PathBuf, append: bool) -> Result<FileLogInfo, IoError> {
        match self.step(ReaderCommand::StartFileLog { path, append }) {
            CommandStep::OpenFiles(plan) => {
                let stats_was_empty = self.files.open(plan.log_flags.append);
                self.reader
                    .start_file_log(&mut self.status, plan, Ok(stats_was_empty))
            }
            other => panic!("{other:?}"),
        }
    }

    fn stop_file_log(&mut self) -> Result<FileLogSummary, IoError> {
        match self.step(ReaderCommand::StopFileLog) {
            CommandStep::CloseFiles(closed) => Ok(self.files.close(closed)),
            CommandStep::Refuse(e) => Err(e),
            other => panic!("{other:?}"),
        }
    }

    fn shutdown(&mut self) {
        if self.stopped {
            return;
        }
        match self.step(ReaderCommand::Shutdown) {
            CommandStep::Exit(closed) => {
                if let Some(closed) = closed {
                    self.files.close(closed);
                }
                self.stopped = true;
            }
            other => panic!("{other:?}"),
        }
    }
}

fn wait_until_connected(handle: &mut Handle) {
    for _ in 0..200 {
        if handle.status.connected {
            return;
        }
        handle.turn();
    }
    panic!("reader never connected");
}

fn fast_config() -> ReaderConfig {
    ReaderConfig {
        reconnect_backoff: Duration::from_millis(5),
        reset_opts: ResetOptions {
            pulse: Duration::from_millis(1),
            confirm_timeout: Duration::from_millis(50),
            max_retries: 3,
        },
        ..ReaderConfig::default()
    }
}

// -- stats_path_for --

#[test]
fn stats_path_inserts_before_extension() {
    assert_eq!(
        stats_path_for(&PathBuf::from("/tmp/session.log")),
        PathBuf::from("/tmp/session.stats.log")
    );
}

#[test]
fn stats_path_handles_no_extension() {
    assert_eq!(
        stats_path_for(&PathBuf::from("/tmp/session")),
        PathBuf::from("/tmp/session.stats")
    );
}

#[test]
fn stats_path_of_odd_names() {
    assert_eq!(
        stats_path_for(&PathBuf::from("a.b.c")),
        PathBuf::from("a.b.stats.c")
    );
    assert_eq!(
        stats_path_for(&PathBuf::from("/tmp/.hidden")),
        PathBuf::from("/tmp/.hidden.stats")
    );
    assert_eq!(stats_file_name(None, None), ".stats");
    assert_eq!(stats_file_name(Some("s"), Some("log")), "s.stats.log");
}

// -- FileLog --

#[test]
fn file_log_writes_lines_and_stats_separately() {
    let mut files = Files::default();
    let plan = FileLog::plan(PathBuf::from("session.log"), false);
    let stats_was_empty = files.open(plan.log_flags.append);
    let mut fl = FileLog::open(plan, stats_was_empty);
    files.write(fl.write_line("boot line 1"));
    files.write(fl.write_stat(" heap=100 "));
    files.write(fl.write_line("boot line 2"));
    let summary = files.close(fl.close());

    assert_eq!(summary.lines_written, 2);
    assert_eq!(files.main, "boot line 1\nboot line 2\n");
    assert_eq!(files.stats.as_deref(), Some(" heap=100 \n"));
}

#[test]
fn file_log_removes_empty_stats_file_on_close() {
    let mut files = Files::default();
    let plan = FileLog::plan(PathBuf::from("session.log"), false);
    let stats_was_empty = files.open(plan.log_flags.append);
    let mut fl = FileLog::open(plan, stats_was_empty);
    files.write(fl.write_line("just a log line"));
    let summary = files.close(fl.close());

    assert_eq!(summary.lines_written, 1);
    assert_eq!(files.main, "just a log line\n");
    assert!(
        files.stats.is_none(),
        "stats file should be removed when no stats were written"
    );
}

#[test]
fn file_log_append_preserves_existing_content() {
    let mut files = Files::default();
    let plan = FileLog::plan(PathBuf::from("session.log"), false);
    let stats_was_empty = files.open(plan.log_flags.append);
    files.write(FileLog::open(plan, stats_was_empty).write_line("first"));
    let plan = FileLog::plan(PathBuf::from("session.log"), true);
    let stats_was_empty = files.open(plan.log_flags.append);
    let mut fl = FileLog::open(plan, stats_was_empty);
    files.write(fl.write_line("second"));
    files.close(fl.close());

    assert_eq!(files.main, "first\nsecond\n");
}

#[test]
fn file_log_keeps_the_stats_of_an_earlier_session() {
    let mut files = Files {
        main: String::new(),
        stats: Some("old\n".to_string()),
    };
    let plan = FileLog::plan(PathBuf::from("session.log"), true);
    let stats_was_empty = files.open(plan.log_flags.append);
    let mut fl = FileLog::open(plan, stats_was_empty);
    files.write(fl.write_line("x"));
    files.close(fl.close());

    assert_eq!(files.main, "x\n");
    assert_eq!(files.stats.as_deref(), Some("old\n"));
}

#[test]
fn file_log_plan_says_how_to_open() {
    let plan = FileLog::plan(PathBuf::from("/tmp/s.log"), false);
    assert!(plan.log_flags.create && plan.log_flags.write);
    assert!(plan.log_flags.truncate && !plan.log_flags.append);
    assert!(plan.stats_flags.create && plan.stats_flags.append && !plan.stats_flags.truncate);
    assert_eq!(plan.stats_path, PathBuf::from("/tmp/s.stats.log"));
    let plan = FileLog::plan(PathBuf::from("/tmp/s.log"), true);
    assert!(!plan.log_flags.truncate && plan.log_flags.append);
}

// -- reader loop --

/// Always returns a scripted list of lines then times out forever.
struct FiniteScriptPort {
    lines: VecDeque<Vec<u8>>,
    then: IoErrorKind,
}

impl FiniteScriptPort {
    fn new(lines: Vec<Vec<u8>>) -> Self {
        Self {
            lines: lines.into(),
            then: IoErrorKind::TimedOut,
        }
    }
}

impl ResetPort for FiniteScriptPort {
    fn read(&mut self, buf: &mut [u8]) -> Result<usize, IoError> {
        match self.lines.pop_front() {
            Some(data) => {
                let n = data.len().min(buf.len());
                buf[..n].copy_from_slice(&data[..n]);
                Ok(n)
            }
            None => Err(IoError::new(self.then, "exhausted")),
        }
    }
    fn write_request_to_send(&mut self, _level: bool) -> Result<(), IoError> {
        Ok(())
    }
    fn write_data_terminal_ready(&mut self, _level: bool) -> Result<(), IoError> {
        Ok(())
    }
    fn pause(&mut self, _span: Duration) {}
    fn set_deadline(&mut self, _span: Duration) {}
    fn deadline_passed(&mut self) -> bool {
        false
    }
}

fn opener_for(port: impl ResetPort + 'static) -> Opener {
    let mut slot = Some(port);
    Box::new(move || {
        slot.take()
            .map(|p| Box::new(p) as Box<dyn ResetPort>)
            .ok_or_else(|| IoError::new(IoErrorKind::NotConnected, "already opened"))
    })
}

fn log_texts(handle: &Handle) -> Vec<String> {
    handle.log.tail(10).into_iter().map(|e| e.text).collect()
}

#[test]
fn connects_and_buffers_read_lines() {
    let port = FiniteScriptPort::new(vec![b"hello\n".to_vec(), b"world\n".to_vec()]);
    let mut handle = Handle::new(fast_config(), opener_for(port));
    wait_until_connected(&mut handle);
    handle.turns(100);
    assert_eq!(log_texts(&handle), vec!["hello", "world"]);

    handle.shutdown();
}

#[test]
fn reconnects_after_initial_open_failure() {
    let mut attempt = 0;
    let opener = Box::new(move || -> Result<Box<dyn ResetPort>, IoError> {
        attempt += 1;
        if attempt == 1 {
            Err(IoError::new(IoErrorKind::NotFound, "no such device"))
        } else {
            Ok(Box::new(FiniteScriptPort::new(vec![])))
        }
    });
    let mut handle = Handle::new(fast_config(), opener);
    handle.turn();
    assert!(!handle.status.connected);
    assert_eq!(handle.status.last_error.as_deref(), Some("no such device"));
    wait_until_connected(&mut handle);
    assert!(handle.status.last_error.is_none());

    handle.shutdown();
}

/// A port whose read() only yields data after a reset pulse has been
/// observed.
struct ResetTriggeredPort {
    toggles: Rc<RefCell<Vec<(&'static str, bool)>>>,
    reset_seen: bool,
    replied: bool,
    deadline: Instant,
}

impl ResetTriggeredPort {
    fn new(toggles: Rc<RefCell<Vec<(&'static str, bool)>>>) -> Self {
        Self {
            toggles,
            reset_seen: false,
            replied: false,
            deadline: Instant::now(),
        }
    }
}

impl ResetPort for ResetTriggeredPort {
    fn read(&mut self, buf: &mut [u8]) -> Result<usize, IoError> {
        if self.reset_seen && !self.replied {
            self.replied = true;
            let data = b"boot\n";
            let n = data.len().min(buf.len());
            buf[..n].copy_from_slice(data);
            return Ok(n);
        }
        Err(IoError::new(IoErrorKind::TimedOut, "waiting for reset"))
    }
    fn write_request_to_send(&mut self, level: bool) -> Result<(), IoError> {
        self.toggles.borrow_mut().push(("rts", level));
        // Only a completed reset pulse (RTS asserted, then released)
        // should wake the board.
        if !level {
            self.reset_seen = true;
        }
        Ok(())
    }
    fn write_data_terminal_ready(&mut self, level: bool) -> Result<(), IoError> {
        self.toggles.borrow_mut().push(("dtr", level));
        Ok(())
    }
    fn pause(&mut self, _span: Duration) {}
    fn set_deadline(&mut self, span: Duration) {
        self.deadline = Instant::now() + span;
    }
    fn deadline_passed(&mut self) -> bool {
        Instant::now() >= self.deadline
    }
}

#[test]
fn reset_command_pulses_lines_and_confirms() {
    let toggles = Rc::new(RefCell::new(Vec::new()));
    let port = ResetTriggeredPort::new(toggles.clone());
    let mut handle = Handle::new(fast_config(), opener_for(port));
    wait_until_connected(&mut handle);

    let outcome = handle.reset().unwrap();
    assert!(outcome.confirmed);
    assert_eq!(outcome.attempts, 1);

    let recorded = toggles.borrow().clone();
    assert!(recorded.contains(&("rts", true)));
    assert!(recorded.contains(&("rts", false)));
    assert!(recorded.contains(&("dtr", false)));

    handle.shutdown();
}

#[test]
fn power_off_and_power_on_round_trip() {
    let toggles = Rc::new(RefCell::new(Vec::new()));
    let port = ResetTriggeredPort::new(toggles.clone());
    let mut handle = Handle::new(fast_config(), opener_for(port));
    wait_until_connected(&mut handle);

    handle.power_off().unwrap();
    assert_eq!(
        toggles.borrow().as_slice(),
        &[("rts", true), ("dtr", false)]
    );
    handle.turns(5);

    let outcome = handle.power_on().unwrap();
    assert!(outcome.confirmed);

    handle.shutdown();
}

#[test]
fn commands_fail_cleanly_when_never_connected() {
    let opener = Box::new(|| -> Result<Box<dyn ResetPort>, IoError> {
        Err(IoError::new(IoErrorKind::NotFound, "never plugged in"))
    });
    let config = ReaderConfig {
        reconnect_backoff: Duration::from_secs(60),
        ..fast_config()
    };
    let mut handle = Handle::new(config, opener);
    handle.turns(20);

    assert!(!handle.status.connected);
    let err = handle.reset().unwrap_err();
    assert_eq!(err.kind, IoErrorKind::NotConnected);
    assert_eq!(err.message, "serial port not open");
    assert!(handle.power_on().is_err());
    assert!(handle.power_off().is_err());

    handle.shutdown();
}

fn counting_opener(opens: &Rc<RefCell<u32>>) -> Opener {
    let opens = opens.clone();
    Box::new(move || {
        *opens.borrow_mut() += 1;
        Ok(Box::new(FiniteScriptPort::new(vec![])))
    })
}

#[test]
fn close_releases_port_and_suppresses_auto_reconnect() {
    let opens = Rc::new(RefCell::new(0u32));
    let mut handle = Handle::new(fast_config(), counting_opener(&opens));
    wait_until_connected(&mut handle);
    assert_eq!(*opens.borrow(), 1);

    handle.close().unwrap();
    assert!(!handle.status.connected);
    assert!(handle.status.closed);

    // Give the reader loop several backoff windows to (incorrectly)
    // reconnect if the `closed` latch weren't respected.
    handle.turns(50);
    assert_eq!(
        *opens.borrow(),
        1,
        "closed port must not be auto-reopened"
    );
    assert!(handle.port.is_none());

    handle.shutdown();
}

#[test]
fn open_after_close_reconnects() {
    let opens = Rc::new(RefCell::new(0u32));
    let mut handle = Handle::new(fast_config(), counting_opener(&opens));
    wait_until_connected(&mut handle);

    handle.close().unwrap();
    assert!(!handle.status.connected);

    handle.open().unwrap();
    assert!(handle.status.connected);
    assert!(!handle.status.closed);
    assert_eq!(*opens.borrow(), 2);

    handle.shutdown();
}

#[test]
fn open_without_prior_close_is_a_harmless_noop() {
    // `opener_for` only has one port in its slot: if `open` tried to
    // reopen an already-connected port, this would fail.
    let mut handle = Handle::new(fast_config(), opener_for(FiniteScriptPort::new(vec![])));
    wait_until_connected(&mut handle);

    assert!(handle.open().is_ok());
    assert!(handle.status.connected);
    assert!(!handle.status.closed);

    handle.shutdown();
}

#[test]
fn failed_open_after_close_resumes_reconnecting() {
    let fails = Rc::new(RefCell::new(0u32));
    let left = fails.clone();
    let opener = Box::new(move || -> Result<Box<dyn ResetPort>, IoError> {
        if *left.borrow() > 0 {
            *left.borrow_mut() -= 1;
            return Err(IoError::new(IoErrorKind::Other, "busy"));
        }
        Ok(Box::new(FiniteScriptPort::new(vec![])))
    });
    let mut handle = Handle::new(fast_config(), opener);
    wait_until_connected(&mut handle);
    handle.close().unwrap();

    *fails.borrow_mut() = 2;
    assert_eq!(handle.open().unwrap_err().message, "busy");
    assert!(!handle.status.closed && !handle.status.connected);
    assert_eq!(handle.status.last_error.as_deref(), Some("busy"));
    handle.turns(4);
    assert!(!handle.status.connected);
    wait_until_connected(&mut handle);
    assert!(handle.status.last_error.is_none());
}

#[test]
fn file_log_start_stop_round_trip_through_reader_handle() {
    let mut handle = Handle::new(fast_config(), opener_for(FiniteScriptPort::new(vec![])));
    wait_until_connected(&mut handle);

    let path = PathBuf::from("/tmp/live-session.log");
    let info = handle.start_file_log(path.clone(), false).unwrap();
    assert_eq!(info.path, path);
    assert_eq!(
        handle.status.file_log_path.as_deref(),
        Some(path.display().to_string().as_str())
    );

    let summary = handle.stop_file_log().unwrap();
    assert_eq!(summary.path, path);
    assert_eq!(summary.lines_written, 0);
    assert!(handle.files.stats.is_none());
    assert!(handle.status.file_log_path.is_none());

    // stopping again with nothing active is a clean error, not a panic
    let err = handle.stop_file_log().unwrap_err();
    assert_eq!(err.kind, IoErrorKind::NotFound);
    assert_eq!(err.message, "no active file log");

    handle.shutdown();
}

#[test]
fn shutdown_is_idempotent() {
    let mut handle = Handle::new(fast_config(), opener_for(FiniteScriptPort::new(vec![])));
    handle.shutdown();
    handle.shutdown(); // must not hang or panic
}

#[test]
fn packets_go_to_the_stats_file_and_not_to_the_buffer() {
    let port = FiniteScriptPort::new(vec![
        b"boot\r\n/* heap=1 */\nrea".to_vec(),
        b"".to_vec(),
        b"dy\n".to_vec(),
    ]);
    let mut handle = Handle::new(fast_config(), opener_for(port));
    handle
        .start_file_log(PathBuf::from("s.log"), false)
        .unwrap();
    handle.turns(10);

    assert_eq!(log_texts(&handle), vec!["boot", "ready"]);
    assert_eq!(handle.files.main, "boot\nready\n");
    assert_eq!(handle.files.stats.as_deref(), Some(" heap=1 \n"));
    let summary = handle.stop_file_log().unwrap();
    assert_eq!(summary.lines_written, 2);
    assert!(handle.files.stats.is_some());
}

#[test]
fn how_the_bytes_are_cut_into_reads_makes_no_difference() {
    let bytes = b"boot\r\n/* heap=1 */\nready\n/* heap=2 */\npart";
    for size in [1, 2, 3, 7, bytes.len()] {
        let reads = bytes.chunks(size).map(|c| c.to_vec()).collect();
        let mut handle = Handle::new(fast_config(), opener_for(FiniteScriptPort::new(reads)));
        handle
            .start_file_log(PathBuf::from("s.log"), false)
            .unwrap();
        handle.turns(bytes.len() + 2);
        assert_eq!(log_texts(&handle), vec!["boot", "ready"]);
        assert_eq!(handle.files.main, "boot\nready\n");
        assert_eq!(handle.files.stats.as_deref(), Some(" heap=1 \n heap=2 \n"));
        assert_eq!(handle.stop_file_log().unwrap().lines_written, 2);
    }
}

#[test]
fn stopping_keeps_a_stats_file_that_was_not_empty() {
    let port = FiniteScriptPort::new(vec![b"x\n".to_vec()]);
    let mut handle = Handle::new(fast_config(), opener_for(port));
    handle.files.stats = Some(" heap=0 \n".to_string());
    handle
        .start_file_log(PathBuf::from("s.log"), true)
        .unwrap();
    handle.turns(5);
    assert_eq!(handle.stop_file_log().unwrap().lines_written, 1);
    assert_eq!(handle.files.stats.as_deref(), Some(" heap=0 \n"));
}

#[test]
fn without_a_file_log_packets_are_dropped() {
    let port = FiniteScriptPort::new(vec![b"/* heap=1 */\nx\n".to_vec()]);
    let mut handle = Handle::new(fast_config(), opener_for(port));
    handle.turns(5);
    assert_eq!(log_texts(&handle), vec!["x"]);
    assert_eq!(handle.files.main, "");
}

#[test]
fn failed_file_open_leaves_the_log_as_it_was() {
    let mut handle = Handle::new(fast_config(), opener_for(FiniteScriptPort::new(vec![])));
    let plan = FileLog::plan(PathBuf::from("/no/such/dir/s.log"), false);
    let failed = Err(IoError::new(IoErrorKind::NotFound, "no such directory"));
    let reply = handle
        .reader
        .start_file_log(&mut handle.status, plan, failed);
    assert_eq!(reply.unwrap_err().message, "no such directory");
    assert!(handle.status.file_log_path.is_none());
    assert!(handle.stop_file_log().is_err());
}

#[test]
fn lost_port_is_reported_and_tried_again() {
    let mut port = FiniteScriptPort::new(vec![b"x\n".to_vec()]);
    port.then = IoErrorKind::BrokenPipe;
    let mut handle = Handle::new(fast_config(), opener_for(port));
    handle.turns(3);
    assert!(!handle.status.connected && !handle.status.closed);
    assert_eq!(handle.status.last_error.as_deref(), Some("exhausted"));
    assert!(handle.port.is_none());
    handle.turns(10);
    assert_eq!(handle.status.last_error.as_deref(), Some("already opened"));
}

#[test]
fn shutdown_finishes_an_active_file_log() {
    let port = FiniteScriptPort::new(vec![b"x\n".to_vec()]);
    let mut handle = Handle::new(fast_config(), opener_for(port));
    handle
        .start_file_log(PathBuf::from("s.log"), false)
        .unwrap();
    handle.turns(5);
    handle.shutdown();
    assert_eq!(handle.files.main, "x\n");
    assert!(handle.files.stats.is_none());
}

#[test]
fn backoff_counts_from_the_last_attempt() {
    let backoff = Duration::from_secs(3);
    assert!(may_try(None, &backoff));
    assert!(!may_try(Some(&Duration::ZERO), &backoff));
    assert!(!may_try(Some(&Duration::from_millis(2999)), &backoff));
    assert!(may_try(Some(&backoff), &backoff));
}

#[test]
fn every_attempt_restarts_the_backoff() {
    let backoff = Duration::from_secs(3);
    let start = Instant::now();
    let mut pace = ReconnectPace::new();
    assert!(pace.may_try_at(&start, &backoff));
    pace.tried(start);
    assert!(!pace.may_try_at(&(start + Duration::from_millis(2999)), &backoff));
    let second = start + backoff;
    assert!(pace.may_try_at(&second, &backoff));
    pace.tried(second);
    assert!(!pace.may_try_at(&(start + Duration::from_secs(5)), &backoff));
    assert!(pace.may_try_at(&(start + Duration::from_secs(6)), &backoff));
}

#[test]
fn automatic_attempts_come_one_backoff_apart() {
    let opens = Rc::new(RefCell::new(0u32));
    let counter = opens.clone();
    let opener: Opener = Box::new(move || {
        *counter.borrow_mut() += 1;
        Err(IoError::new(IoErrorKind::NotFound, "no board"))
    });
    let mut handle = Handle::new(fast_config(), opener);
    handle.turn();
    assert_eq!(*opens.borrow(), 1, "the first attempt comes at once");
    handle.turns(4);
    assert_eq!(*opens.borrow(), 1);
    handle.turn();
    assert_eq!(*opens.borrow(), 2);
    handle.turns(3);
    assert!(handle.open().is_err());
    assert_eq!(*opens.borrow(), 3, "an attempt that is asked for comes at once");
    handle.turns(4);
    assert_eq!(*opens.borrow(), 3, "and counts as the last one");
    handle.turn();
    assert_eq!(*opens.borrow(), 4);
}

#[test]
fn steps_that_do_not_concern_the_lines_leave_the_port_alone() {
    let toggles = Rc::new(RefCell::new(Vec::new()));
    let mut port = ResetTriggeredPort::new(toggles.clone());
    let driven = drive(&CommandStep::Done, &mut port, fast_config().reset_opts);
    assert!(matches!(driven, Driven::Nothing));
    assert!(toggles.borrow().is_empty());
    let driven = drive(&CommandStep::PowerOff, &mut port, fast_config().reset_opts);
    assert!(matches!(driven, Driven::Held(Ok(()))));
    assert_eq!(*toggles.borrow(), vec![("rts", true), ("dtr", false)]);
}

#[test]
fn default_config_is_the_documented_one() {
    let c = ReaderConfig::default();
    assert_eq!(c.port, "/dev/ttyUSB0");
    assert_eq!(c.baud, 115_200);
    assert_eq!(c.read_timeout, Duration::from_millis(500));
    assert_eq!((c.max_lines, c.max_bytes), (2000, 2 * 1024 * 1024));
    assert_eq!(c.reconnect_backoff, Duration::from_secs(3));
}

#[test]
fn copied_config_says_the_same() {
    let c = fast_config();
    let copy = c.clone();
    assert_eq!((copy.port, copy.baud), (c.port, c.baud));
    assert_eq!(copy.reconnect_backoff, Duration::from_millis(5));
    assert_eq!(copy.reset_opts.max_retries, 3);
}
