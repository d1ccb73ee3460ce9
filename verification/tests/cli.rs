use esp_monitor::cli::{
    checked_patterns, compile_patterns, connection, default_level, mcp_config, off_config,
    off_notice, resets_first, scan_for_match, stream_config, stream_limit, unseen, Cli, Command,
    Connection, ConsoleArgs, ConsoleLoop, ConsoleStep, McpArgs, PortArgs, ResetTuning,
    ScanOutcome, WatchArgs, WatchLoop, DEFAULT_BAUD, DEFAULT_LOG_TIME, DEFAULT_RESET_PULSE_MS,
    DEFAULT_RESET_RETRIES, DEFAULT_RESET_TIMEOUT_MS, DEFAULT_RING_BUFFER_BYTES,
    DEFAULT_RING_BUFFER_LINES, DEFAULT_WATCH_TIMEOUT, WATCH_EXIT_FAILED, WATCH_EXIT_PASSED,
    WATCH_EXIT_TIMED_OUT,
};
use esp_monitor::logbuf::{LogEntry, RingBuffer};
use esp_monitor::status::ReaderStatus;
use regex::Regex;
use std::path::PathBuf;
use std::time::{Duration, SystemTime};

fn port_args(verbose: u8) -> PortArgs {
    PortArgs {
        port: "/dev/ttyACM0".to_string(),
        baud: 9600,
        verbose,
    }
}

fn tuning() -> ResetTuning {
    ResetTuning {
        reset_retries: 7,
        reset_timeout_ms: 1234,
        reset_pulse_ms: 56,
    }
}

fn watch_args(pass: &str, fail: &str, verbose: u8) -> WatchArgs {
    WatchArgs {
        port: port_args(verbose),
        reset: tuning(),
        pass_pattern: pass.to_string(),
        fail_pattern: fail.to_string(),
        timeout: 30,
        no_reboot: false,
        no_console: false,
    }
}

fn entry(seq: u64, text: &str) -> LogEntry {
    LogEntry {
        seq,
        text: text.to_string(),
        at: SystemTime::now(),
    }
}

// -- scan_for_match --

#[test]
fn scan_returns_no_match_on_empty_entries() {
    let pass = Regex::new("ok").unwrap();
    let fail = Regex::new("FAILED").unwrap();
    assert_eq!(
        scan_for_match(&[], &pass, &fail),
        ScanOutcome::NoMatch { newest_seq: None }
    );
}

#[test]
fn scan_reports_newest_seq_when_nothing_matches() {
    let pass = Regex::new("ok").unwrap();
    let fail = Regex::new("FAILED").unwrap();
    let entries = vec![entry(0, "booting"), entry(1, "still running")];
    assert_eq!(
        scan_for_match(&entries, &pass, &fail),
        ScanOutcome::NoMatch {
            newest_seq: Some(1)
        }
    );
}

#[test]
fn scan_reports_the_highest_seq_whatever_the_order() {
    let pass = Regex::new("ok").unwrap();
    let fail = Regex::new("FAILED").unwrap();
    let entries = vec![entry(5, "booting"), entry(3, "still running")];
    assert_eq!(
        scan_for_match(&entries, &pass, &fail),
        ScanOutcome::NoMatch {
            newest_seq: Some(5)
        }
    );
}

#[test]
fn scan_matches_pass_pattern() {
    let pass = Regex::new("test result: ok").unwrap();
    let fail = Regex::new("test result: FAILED").unwrap();
    let entries = vec![entry(0, "booting"), entry(1, "test result: ok. 3 passed")];
    assert_eq!(
        scan_for_match(&entries, &pass, &fail),
        ScanOutcome::Matched {
            exit_code: 0,
            seq: 1
        }
    );
}

#[test]
fn scan_matches_fail_pattern() {
    let pass = Regex::new("test result: ok").unwrap();
    let fail = Regex::new("test result: FAILED").unwrap();
    let entries = vec![
        entry(0, "booting"),
        entry(1, "test result: FAILED. 1 failed"),
    ];
    assert_eq!(
        scan_for_match(&entries, &pass, &fail),
        ScanOutcome::Matched {
            exit_code: WATCH_EXIT_FAILED,
            seq: 1
        }
    );
}

#[test]
fn scan_stops_at_first_matching_line_ignoring_later_entries() {
    let pass = Regex::new("test result: ok").unwrap();
    let fail = Regex::new("test result: FAILED").unwrap();
    let entries = vec![
        entry(0, "test result: ok. 1 passed"),
        entry(1, "test result: FAILED. would be seen if we kept scanning"),
    ];
    assert_eq!(
        scan_for_match(&entries, &pass, &fail),
        ScanOutcome::Matched {
            exit_code: 0,
            seq: 0
        }
    );
}

#[test]
fn scan_prefers_fail_over_pass_on_the_same_line() {
    // A line matching both patterns (e.g. overlapping regexes) should be
    // treated as a failure, not a pass — fail-fast is the safer default
    // for a CI gate.
    let pass = Regex::new("test result").unwrap();
    let fail = Regex::new("test result: FAILED").unwrap();
    let entries = vec![entry(0, "test result: FAILED")];
    assert_eq!(
        scan_for_match(&entries, &pass, &fail),
        ScanOutcome::Matched {
            exit_code: WATCH_EXIT_FAILED,
            seq: 0
        }
    );
}

// -- ResetTuning::to_opts --

#[test]
fn reset_tuning_converts_to_reset_options() {
    let tuning = ResetTuning {
        reset_retries: 7,
        reset_timeout_ms: 1234,
        reset_pulse_ms: 56,
    };
    let opts = tuning.to_opts();
    assert_eq!(opts.max_retries, 7);
    assert_eq!(opts.confirm_timeout, Duration::from_millis(1234));
    assert_eq!(opts.pulse, Duration::from_millis(56));
}

// -- Command::verbose --

#[test]
fn watch_command_verbose_reads_through_port_args() {
    let cli = Cli {
        command: Command::Watch(watch_args("ok", "FAILED", 2)),
    };
    assert_eq!(cli.command.verbose(), 2);
}

// -- run_watch: fails fast on bad input without touching hardware --

#[test]
fn run_watch_rejects_invalid_pass_pattern() {
    let args = WatchArgs {
        port: PortArgs {
            port: "/dev/null-not-a-real-port".to_string(),
            baud: 115_200,
            verbose: 0,
        },
        reset: ResetTuning {
            reset_retries: 1,
            reset_timeout_ms: 1,
            reset_pulse_ms: 1,
        },
        pass_pattern: "(unclosed".to_string(),
        fail_pattern: "FAILED".to_string(),
        timeout: 1,
        no_reboot: true,
        no_console: true,
    };
    let err = compile_patterns(&args).unwrap_err();
    assert!(err.to_string().contains("invalid --pass-pattern"));
}

#[test]
fn run_watch_rejects_invalid_fail_pattern() {
    let args = WatchArgs {
        port: PortArgs {
            port: "/dev/null-not-a-real-port".to_string(),
            baud: 115_200,
            verbose: 0,
        },
        reset: ResetTuning {
            reset_retries: 1,
            reset_timeout_ms: 1,
            reset_pulse_ms: 1,
        },
        pass_pattern: "ok".to_string(),
        fail_pattern: "(unclosed".to_string(),
        timeout: 1,
        no_reboot: true,
        no_console: true,
    };
    let err = compile_patterns(&args).unwrap_err();
    assert!(err.to_string().contains("invalid --fail-pattern"));
}

#[test]
fn pass_pattern_is_reported_first_when_both_are_bad() {
    let err = compile_patterns(&watch_args("(a", "(b", 0)).unwrap_err();
    assert!(err.starts_with("invalid --pass-pattern: "));
    assert!(err.contains("unclosed group"));
}

#[test]
fn good_patterns_come_back_in_order() {
    let (pass, fail) = compile_patterns(&watch_args("ok$", "^bad", 0)).unwrap();
    assert!(pass.is_match("all ok") && !pass.is_match("ok then"));
    assert!(fail.is_match("bad day") && !fail.is_match("not bad"));
    assert!(checked_patterns(Regex::new("x"), Regex::new("y")).is_ok());
}

#[test]
fn every_command_reads_its_own_verbosity() {
    let console = || ConsoleArgs {
        port: port_args(3),
        reset: tuning(),
        log_path: None,
        log_time: DEFAULT_LOG_TIME,
        no_console: false,
        no_reboot: false,
    };
    let mcp = McpArgs {
        port: port_args(1),
        reset: tuning(),
        log_path: None,
        ring_buffer_lines: 5,
        ring_buffer_bytes: 6,
    };
    assert_eq!(Command::Console(console()).verbose(), 3);
    assert_eq!(Command::On(console()).verbose(), 3);
    assert_eq!(Command::Reset(console()).verbose(), 3);
    assert_eq!(Command::Off(port_args(4)).verbose(), 4);
    assert_eq!(Command::Mcp(mcp).verbose(), 1);
}

#[test]
fn verbosity_picks_the_level() {
    assert_eq!(default_level(0), "warn");
    assert_eq!(default_level(1), "info");
    assert_eq!(default_level(2), "debug");
    assert_eq!(default_level(3), "trace");
    assert_eq!(default_level(255), "trace");
}

#[test]
fn configs_take_what_the_arguments_say() {
    let c = stream_config(&port_args(0), &tuning());
    assert_eq!(c.port, "/dev/ttyACM0");
    assert_eq!(c.baud, 9600);
    assert_eq!(c.reset_opts.max_retries, 7);
    assert_eq!(c.read_timeout, Duration::from_millis(500));
    assert_eq!(c.reconnect_backoff, Duration::from_secs(3));
    assert_eq!((c.max_lines, c.max_bytes), (2000, 2097152));

    let c = off_config(&port_args(0));
    assert_eq!(c.baud, 9600);
    assert_eq!(c.reset_opts.max_retries, 5);

    let c = mcp_config(&McpArgs {
        port: port_args(1),
        reset: tuning(),
        log_path: None,
        ring_buffer_lines: 5,
        ring_buffer_bytes: 6,
    });
    assert_eq!((c.max_lines, c.max_bytes), (5, 6));
    assert_eq!(c.reset_opts.pulse, Duration::from_millis(56));
}

#[test]
fn waiting_for_the_port() {
    let mut status = ReaderStatus::new("/dev/x".to_string(), 1);
    assert!(matches!(connection(&status, false), Connection::Wait));
    match connection(&status, true) {
        Connection::GaveUp(why) => assert_eq!(why, "timed out waiting to connect: unknown error"),
        _ => panic!("expected to give up"),
    }
    status.last_error = Some("no such device".to_string());
    match connection(&status, true) {
        Connection::GaveUp(why) => assert_eq!(why, "timed out waiting to connect: no such device"),
        _ => panic!("expected to give up"),
    }
    status.connected = true;
    assert!(matches!(connection(&status, true), Connection::Ready));
}

#[test]
fn small_rules_of_the_subcommands() {
    assert!(resets_first(true, false));
    assert!(!resets_first(true, true));
    assert!(!resets_first(false, false));
    assert_eq!(stream_limit(DEFAULT_LOG_TIME), None);
    assert_eq!(stream_limit(0), Some(0));
    assert_eq!(stream_limit(90), Some(90));
    assert_eq!(
        off_notice("/dev/x"),
        "/dev/x: held in power-off (RTS asserted, DTR clear)"
    );
}

fn shown(step: ConsoleStep) -> Vec<String> {
    match step {
        ConsoleStep::Show(lines) => lines,
        ConsoleStep::Stop => panic!("expected lines"),
    }
}

#[test]
fn console_shows_each_line_once() {
    let mut log = RingBuffer::new(10, 1000);
    let mut console = ConsoleLoop::new(false);
    assert!(shown(console.turn(true, false, &log)).is_empty());
    log.push("a".to_string());
    log.push("b".to_string());
    assert_eq!(shown(console.turn(true, false, &log)), vec!["a", "b"]);
    assert!(shown(console.turn(true, false, &log)).is_empty());
    log.push("c".to_string());
    assert_eq!(unseen(&log, console.last_seq).len(), 1);
    assert_eq!(shown(console.turn(true, false, &log)), vec!["c"]);
    assert!(matches!(console.turn(true, true, &log), ConsoleStep::Stop));
    assert!(matches!(console.turn(false, false, &log), ConsoleStep::Stop));
}

#[test]
fn silent_console_still_moves_on() {
    let mut log = RingBuffer::new(10, 1000);
    log.push("a".to_string());
    let mut console = ConsoleLoop::new(true);
    assert!(shown(console.turn(true, false, &log)).is_empty());
    assert_eq!(console.last_seq, Some(0));
}

#[test]
fn watch_goes_on_until_a_line_decides() {
    let mut log = RingBuffer::new(10, 1000);
    let mut watch = WatchLoop::new(
        Regex::new("ok").unwrap(),
        Regex::new("FAILED").unwrap(),
        false,
    );
    log.push("booting".to_string());
    let step = watch.turn(true, false, &log);
    assert_eq!(step.lines, vec!["booting"]);
    assert_eq!(step.exit_code, None);
    log.push("ok".to_string());
    log.push("FAILED".to_string());
    let step = watch.turn(true, false, &log);
    assert_eq!(step.lines, vec!["ok", "FAILED"]);
    assert_eq!(step.exit_code, Some(WATCH_EXIT_PASSED));
}

#[test]
fn watch_times_out_undecided() {
    let mut log = RingBuffer::new(10, 1000);
    log.push("ok".to_string());
    let mut watch = WatchLoop::new(Regex::new("ok").unwrap(), Regex::new("no").unwrap(), true);
    assert_eq!(
        watch.turn(true, true, &log).exit_code,
        Some(WATCH_EXIT_TIMED_OUT)
    );
    assert_eq!(
        watch.turn(false, false, &log).exit_code,
        Some(WATCH_EXIT_TIMED_OUT)
    );
    let step = watch.turn(true, false, &log);
    assert!(step.lines.is_empty());
    assert_eq!(step.exit_code, Some(0));
}

#[test]
fn copied_arguments_say_the_same() {
    let watch = watch_args("ok", "FAILED", 2).clone();
    assert_eq!((watch.pass_pattern.as_str(), watch.fail_pattern.as_str()), ("ok", "FAILED"));
    assert_eq!((watch.timeout, watch.port.verbose), (30, 2));
    let console = ConsoleArgs {
        port: port_args(1),
        reset: tuning(),
        log_path: Some(PathBuf::from("s.log")),
        log_time: 4,
        no_console: true,
        no_reboot: false,
    };
    let copy = console.clone();
    assert_eq!(copy.log_path, console.log_path);
    assert_eq!((copy.log_time, copy.no_console, copy.no_reboot), (4, true, false));
    let mcp = McpArgs {
        port: port_args(0),
        reset: tuning(),
        log_path: None,
        ring_buffer_lines: 3,
        ring_buffer_bytes: 4,
    };
    let copy = mcp.clone();
    assert_eq!(copy.port.port, "/dev/ttyACM0");
    assert_eq!((copy.ring_buffer_lines, copy.ring_buffer_bytes), (3, 4));
    assert!(copy.log_path.is_none());
}

#[test]
fn defaults_are_the_documented_ones() {
    assert_eq!(DEFAULT_BAUD, 115_200);
    assert_eq!(DEFAULT_WATCH_TIMEOUT, 30);
    assert_eq!(DEFAULT_LOG_TIME, -1);
    assert_eq!(DEFAULT_RESET_PULSE_MS, 100);
    assert_eq!(DEFAULT_RESET_TIMEOUT_MS, 2000);
    assert_eq!(DEFAULT_RESET_RETRIES, 5);
    assert_eq!(DEFAULT_RING_BUFFER_LINES, 2000);
    assert_eq!(DEFAULT_RING_BUFFER_BYTES, 2_097_152);
}
