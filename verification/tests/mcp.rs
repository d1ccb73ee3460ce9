use esp_monitor::filelog::{FileLogInfo, FileLogSummary};
use esp_monitor::logbuf::RingBuffer;
use esp_monitor::mcp::{
    clear_logs, close_reply, file_log_action, filter_by_regex, filter_entries, open_reply,
    power_off_reply, power_on_reply, power_state, read_logs, reset_reply, started_reply, status,
    status_after, stopped_reply, FileLogAction, FileLogParams, PowerState, ReadLogsParams,
    ReadLogsResult, ToolError,
};
use esp_monitor::serial::ResetOutcome;
use esp_monitor::status::ReaderStatus;
use regex::Regex;
use std::path::PathBuf;
use std::time::Duration;

fn filled(n: usize) -> RingBuffer {
    let mut log = RingBuffer::new(1000, 100_000);
    for i in 0..n {
        log.push(format!("line {i}"));
    }
    log
}

fn params() -> ReadLogsParams {
    ReadLogsParams {
        lines: None,
        since_seq: None,
        search: None,
        regex: None,
    }
}

fn texts(reply: ReadLogsResult) -> Vec<String> {
    reply.entries.into_iter().map(|e| e.text).collect()
}

fn message(e: ToolError) -> String {
    match e {
        ToolError::InvalidParams(m) => m,
    }
}

#[test]
fn read_logs_returns_the_latest_two_hundred_by_default() {
    let reply = read_logs(&filled(300), &params()).unwrap();
    assert_eq!(reply.entries.len(), 200);
    assert_eq!(reply.entries[0].seq, 100);
    assert_eq!(reply.newest_seq, Some(299));
    assert_eq!(reply.total_buffered, 300);
    assert!(!reply.truncated);
}

#[test]
fn read_logs_honours_lines_and_since_seq() {
    let log = filled(5);
    let p = ReadLogsParams {
        lines: Some(2),
        ..params()
    };
    assert_eq!(texts(read_logs(&log, &p).unwrap()), vec!["line 3", "line 4"]);
    let p = ReadLogsParams {
        lines: Some(1),
        since_seq: Some(1),
        ..params()
    };
    assert_eq!(
        texts(read_logs(&log, &p).unwrap()),
        vec!["line 2", "line 3", "line 4"]
    );
}

#[test]
fn read_logs_reports_truncated_history() {
    let mut log = RingBuffer::new(2, 1000);
    for text in ["a", "b", "c", "d"] {
        log.push(text.to_string());
    }
    let since = |seq| ReadLogsParams {
        since_seq: Some(seq),
        ..params()
    };
    assert!(read_logs(&log, &since(0)).unwrap().truncated);
    assert!(!read_logs(&log, &since(1)).unwrap().truncated);
    assert!(!read_logs(&log, &params()).unwrap().truncated);
}

#[test]
fn read_logs_of_an_empty_buffer() {
    let reply = read_logs(&filled(0), &params()).unwrap();
    assert!(reply.entries.is_empty());
    assert_eq!(reply.newest_seq, None);
    assert_eq!(reply.total_buffered, 0);
}

#[test]
fn read_logs_searches_by_substring_and_by_regex() {
    let mut log = filled(0);
    for text in ["wifi up", "heap=10", "wifi.down", "HEAP=20"] {
        log.push(text.to_string());
    }
    let search = |pattern: &str, regex| ReadLogsParams {
        search: Some(pattern.to_string()),
        regex,
        ..params()
    };
    assert_eq!(
        texts(read_logs(&log, &search("wifi.", None)).unwrap()),
        vec!["wifi.down"]
    );
    assert_eq!(
        texts(read_logs(&log, &search("wifi.", Some(false))).unwrap()),
        vec!["wifi.down"]
    );
    assert_eq!(
        texts(read_logs(&log, &search("wifi.", Some(true))).unwrap()),
        vec!["wifi up", "wifi.down"]
    );
    assert_eq!(
        texts(read_logs(&log, &search("(?i)^heap=\\d+$", Some(true))).unwrap()),
        vec!["heap=10", "HEAP=20"]
    );
    assert_eq!(
        texts(read_logs(&log, &search("", None)).unwrap()).len(),
        4
    );
}

#[test]
fn bad_regex_is_an_invalid_parameter() {
    let p = ReadLogsParams {
        search: Some("(unclosed".to_string()),
        regex: Some(true),
        ..params()
    };
    let m = message(read_logs(&filled(1), &p).unwrap_err());
    assert!(m.starts_with("invalid regex: "));
    assert!(m.contains("unclosed group"));
    // as plain text the same pattern is fine
    let p = ReadLogsParams {
        regex: None,
        ..p
    };
    assert!(read_logs(&filled(1), &p).unwrap().entries.is_empty());
}

#[test]
fn filtering_without_a_search_keeps_everything() {
    let entries = filled(3).tail(3);
    assert_eq!(filter_entries(entries, None, true).unwrap().len(), 3);
    let entries = filled(3).tail(3);
    let kept = filter_by_regex(entries, Regex::new("[02]")).unwrap();
    assert_eq!(kept.len(), 2);
}

#[test]
fn power_reads_its_state() {
    assert_eq!(power_state("on").unwrap(), PowerState::On);
    assert_eq!(power_state("off").unwrap(), PowerState::Off);
    assert_eq!(
        message(power_state("O\"n").unwrap_err()),
        "state must be \"on\" or \"off\", got \"O\\\"n\""
    );
    assert!(power_state("on ").is_err());
}

#[test]
fn replies_repeat_the_outcome() {
    let outcome = ResetOutcome {
        confirmed: false,
        attempts: 3,
        bytes_seen: 9,
    };
    let reply = reset_reply(&outcome);
    assert_eq!(
        (reply.confirmed, reply.attempts, reply.bytes_seen),
        (false, 3, 9)
    );
    let reply = power_on_reply(&outcome);
    assert_eq!((reply.state.as_str(), reply.confirmed), ("on", false));
    let reply = power_off_reply();
    assert_eq!((reply.state.as_str(), reply.confirmed), ("off", true));
    assert!(close_reply().closed);
    let reply = open_reply(Ok(()));
    assert!(reply.connected && reply.error.is_none());
    let reply = open_reply(Err("busy".to_string()));
    assert!(!reply.connected);
    assert_eq!(reply.error.as_deref(), Some("busy"));
}

#[test]
fn status_reports_reader_and_log() {
    let mut st = ReaderStatus::new("/dev/ttyUSB0".to_string(), 115_200);
    st.closed = true;
    st.file_log_path = Some("/tmp/x.log".to_string());
    st.last_error = Some("gone".to_string());
    let reply = status_after(&st, &filled(4), 77);
    assert!(!reply.connected && reply.closed && reply.file_logging);
    assert_eq!(reply.port, "/dev/ttyUSB0");
    assert_eq!(reply.baud, 115_200);
    assert_eq!(reply.buffered_lines, 4);
    assert_eq!(reply.file_log_path.as_deref(), Some("/tmp/x.log"));
    assert_eq!(reply.last_error.as_deref(), Some("gone"));
    assert_eq!(reply.uptime_seconds, 77);

    let reply = status(&ReaderStatus::new("p".to_string(), 1), &filled(0));
    assert!(!reply.file_logging);
    assert!(reply.uptime_seconds < 60);
}

fn file_log(action: &str, path: Option<&str>, append: Option<bool>) -> FileLogParams {
    FileLogParams {
        action: action.to_string(),
        path: path.map(PathBuf::from),
        append,
    }
}

#[test]
fn file_log_reads_its_action() {
    match file_log_action(file_log("start", Some("/tmp/a.log"), None)).unwrap() {
        FileLogAction::Start { path, append } => {
            assert_eq!(path, PathBuf::from("/tmp/a.log"));
            assert!(!append);
        }
        FileLogAction::Stop => panic!("expected a start"),
    }
    match file_log_action(file_log("start", Some("/tmp/a.log"), Some(true))).unwrap() {
        FileLogAction::Start { append, .. } => assert!(append),
        FileLogAction::Stop => panic!("expected a start"),
    }
    assert!(matches!(
        file_log_action(file_log("stop", None, None)).unwrap(),
        FileLogAction::Stop
    ));
    assert_eq!(
        message(file_log_action(file_log("start", None, None)).unwrap_err()),
        "path is required to start file logging"
    );
    assert_eq!(
        message(file_log_action(file_log("pause", None, None)).unwrap_err()),
        "action must be \"start\" or \"stop\", got \"pause\""
    );
}

#[test]
fn file_log_replies_show_paths() {
    let info = FileLogInfo {
        path: PathBuf::from("/tmp/a.log"),
        stats_path: PathBuf::from("/tmp/a.stats.log"),
    };
    let reply = started_reply(&info);
    assert_eq!(reply.path, "/tmp/a.log");
    assert_eq!(reply.stats_path, "/tmp/a.stats.log");
    assert_eq!(reply.lines_written, None);
    let summary = FileLogSummary {
        path: info.path,
        stats_path: info.stats_path,
        lines_written: 12,
    };
    assert_eq!(stopped_reply(&summary).lines_written, Some(12));
}

#[test]
fn clear_logs_reports_how_many_went() {
    let mut log = filled(3);
    assert_eq!(clear_logs(&mut log).cleared_lines, 3);
    assert!(log.is_empty());
    assert_eq!(log.push("next".to_string()), 3);
}

#[test]
fn uptime_counts_whole_seconds_from_the_start() {
    let status = ReaderStatus::new("/dev/x".to_string(), 9600);
    let start = status.started_at;
    assert_eq!(status.uptime_at(&start), 0);
    assert_eq!(status.uptime_at(&(start + Duration::from_millis(1999))), 1);
    assert_eq!(status.uptime_at(&(start + Duration::from_secs(90))), 90);
    let later = ReaderStatus {
        started_at: start + Duration::from_secs(5),
        ..status
    };
    assert_eq!(later.uptime_at(&start), 0);
}
