use esp_monitor::error::{IoError, IoErrorKind};
use esp_monitor::serial::{
    advise, explain_open_error, power_off, power_on, reset_sequence, OpenError, OpenErrorKind,
    ResetOptions, ResetPort,
};
use std::collections::VecDeque;
use std::time::{Duration, Instant};

/// A fake port whose read() replies are scripted per pulse attempt, and
/// which records every RTS/DTR toggle for assertions.
struct FakePort {
    replies: VecDeque<Result<Vec<u8>, IoError>>,
    toggles: Vec<(&'static str, bool)>,
    pauses: Vec<Duration>,
    fail_toggle: Option<usize>,
    deadline: Instant,
    looks_before_deadline: Option<usize>,
}

impl FakePort {
    fn new(replies: Vec<Result<Vec<u8>, IoError>>) -> Self {
        Self {
            replies: replies.into(),
            toggles: Vec::new(),
            pauses: Vec::new(),
            fail_toggle: None,
            deadline: Instant::now(),
            looks_before_deadline: None,
        }
    }

    fn toggle(&mut self, line: &'static str, level: bool) -> Result<(), IoError> {
        if self.fail_toggle == Some(self.toggles.len()) {
            return Err(IoError::new(IoErrorKind::BrokenPipe, "line gone"));
        }
        self.toggles.push((line, level));
        Ok(())
    }
}

impl ResetPort for FakePort {
    fn read(&mut self, buf: &mut [u8]) -> Result<usize, IoError> {
        match self.replies.pop_front() {
            Some(Ok(data)) => {
                let n = data.len().min(buf.len());
                buf[..n].copy_from_slice(&data[..n]);
                Ok(n)
            }
            Some(Err(e)) => Err(e),
            None => Err(IoError::new(IoErrorKind::TimedOut, "no more scripted replies")),
        }
    }

    fn write_request_to_send(&mut self, level: bool) -> Result<(), IoError> {
        self.toggle("rts", level)
    }

    fn write_data_terminal_ready(&mut self, level: bool) -> Result<(), IoError> {
        self.toggle("dtr", level)
    }

    fn pause(&mut self, span: Duration) {
        self.pauses.push(span);
    }

    fn set_deadline(&mut self, span: Duration) {
        self.deadline = Instant::now() + span;
    }

    fn deadline_passed(&mut self) -> bool {
        match self.looks_before_deadline.as_mut() {
            Some(0) => true,
            Some(left) => {
                *left -= 1;
                false
            }
            None => Instant::now() >= self.deadline,
        }
    }
}

fn fast_opts() -> ResetOptions {
    ResetOptions {
        pulse: Duration::from_millis(1),
        confirm_timeout: Duration::from_millis(20),
        max_retries: 3,
    }
}

#[test]
fn reset_confirms_on_first_response() {
    let mut port = FakePort::new(vec![Ok(b"boot\n".to_vec())]);
    let outcome = reset_sequence(&mut port, fast_opts()).unwrap();
    assert!(outcome.confirmed);
    assert_eq!(outcome.attempts, 1);
    assert_eq!(outcome.bytes_seen, 5);
    assert_eq!(
        port.toggles,
        vec![("rts", true), ("dtr", false), ("rts", false), ("dtr", false)]
    );
}

#[test]
fn reset_retries_until_data_arrives() {
    let mut port = FakePort::new(vec![
        Err(IoError::new(IoErrorKind::TimedOut, "t")),
        Err(IoError::new(IoErrorKind::TimedOut, "t")),
        Ok(b"ok\n".to_vec()),
    ]);
    let outcome = reset_sequence(&mut port, fast_opts()).unwrap();
    assert!(outcome.confirmed);
    assert_eq!(outcome.attempts, 3);
}

#[test]
fn reset_gives_up_after_max_retries() {
    let mut port = FakePort::new(vec![
        Err(IoError::new(IoErrorKind::TimedOut, "t")),
        Err(IoError::new(IoErrorKind::TimedOut, "t")),
        Err(IoError::new(IoErrorKind::TimedOut, "t")),
    ]);
    let outcome = reset_sequence(&mut port, fast_opts()).unwrap();
    assert!(!outcome.confirmed);
    assert_eq!(outcome.attempts, 3);
    assert_eq!(outcome.bytes_seen, 0);
}

#[test]
fn reset_propagates_non_timeout_errors() {
    let mut port = FakePort::new(vec![Err(IoError::new(IoErrorKind::BrokenPipe, "gone"))]);
    let err = reset_sequence(&mut port, fast_opts()).unwrap_err();
    assert_eq!(err.kind, IoErrorKind::BrokenPipe);
}

#[test]
fn power_off_holds_rts_high_dtr_low() {
    let mut port = FakePort::new(vec![]);
    power_off(&mut port).unwrap();
    assert_eq!(port.toggles, vec![("rts", true), ("dtr", false)]);
}

#[test]
fn reset_pauses_for_the_pulse_between_taking_hold_and_release() {
    let mut port = FakePort::new(vec![Ok(b"x".to_vec())]);
    reset_sequence(&mut port, fast_opts()).unwrap();
    assert_eq!(port.pauses, vec![Duration::from_millis(1)]);
}

#[test]
fn reset_leaves_the_board_alone_when_no_attempt_is_allowed() {
    let mut port = FakePort::new(vec![]);
    let opts = ResetOptions {
        max_retries: 0,
        ..fast_opts()
    };
    let outcome = reset_sequence(&mut port, opts).unwrap();
    assert!(!outcome.confirmed);
    assert_eq!((outcome.attempts, outcome.bytes_seen), (0, 0));
    assert!(port.toggles.is_empty());
    assert!(port.pauses.is_empty());
}

#[test]
fn reset_with_one_attempt_allowed_pulses_once() {
    let mut port = FakePort::new(vec![]);
    let opts = ResetOptions {
        max_retries: 1,
        ..fast_opts()
    };
    let outcome = reset_sequence(&mut port, opts).unwrap();
    assert!(!outcome.confirmed);
    assert_eq!(outcome.attempts, 1);
    assert_eq!(port.toggles.len(), 4);
}

#[test]
fn powering_on_does_what_a_reset_does() {
    let script = || {
        FakePort::new(vec![
            Err(IoError::new(IoErrorKind::TimedOut, "t")),
            Ok(vec![]),
            Ok(b"up".to_vec()),
        ])
    };
    let (mut a, mut b) = (script(), script());
    a.looks_before_deadline = Some(10);
    b.looks_before_deadline = Some(10);
    let reset = reset_sequence(&mut a, fast_opts()).unwrap();
    let powered = power_on(&mut b, fast_opts()).unwrap();
    assert_eq!(reset, powered);
    assert_eq!((reset.confirmed, reset.attempts, reset.bytes_seen), (true, 2, 2));
    assert_eq!(a.toggles, b.toggles);
    assert_eq!(a.pauses, b.pauses);
}

#[test]
fn reset_reads_on_past_empty_reads() {
    let mut port = FakePort::new(vec![Ok(vec![]), Ok(vec![]), Ok(b"up".to_vec())]);
    port.looks_before_deadline = Some(10);
    let outcome = reset_sequence(&mut port, fast_opts()).unwrap();
    assert!(outcome.confirmed);
    assert_eq!(outcome.attempts, 1);
    assert_eq!(outcome.bytes_seen, 2);
}

#[test]
fn reset_stops_reading_at_the_deadline() {
    let mut port = FakePort::new(vec![Ok(vec![]), Ok(vec![]), Ok(b"late".to_vec())]);
    port.looks_before_deadline = Some(2);
    let outcome = reset_sequence(&mut port, fast_opts()).unwrap();
    assert!(!outcome.confirmed);
    assert_eq!(outcome.attempts, 3);
    assert_eq!(port.replies.len(), 1);
}

#[test]
fn reset_stops_at_a_line_that_cannot_be_set() {
    let mut port = FakePort::new(vec![Ok(b"x".to_vec())]);
    port.fail_toggle = Some(2);
    let err = reset_sequence(&mut port, fast_opts()).unwrap_err();
    assert_eq!(err.kind, IoErrorKind::BrokenPipe);
    assert_eq!(err.message, "line gone");
    assert_eq!(port.toggles, vec![("rts", true), ("dtr", false)]);
    assert_eq!(port.replies.len(), 1);
}

#[test]
fn power_off_reports_a_line_that_cannot_be_set() {
    let mut port = FakePort::new(vec![]);
    port.fail_toggle = Some(1);
    assert!(power_off(&mut port).is_err());
    assert_eq!(port.toggles, vec![("rts", true)]);
}

#[test]
fn power_on_pulses_like_a_reset() {
    let mut port = FakePort::new(vec![Ok(b"boot".to_vec())]);
    let outcome = power_on(&mut port, fast_opts()).unwrap();
    assert!(outcome.confirmed);
    assert_eq!(outcome.bytes_seen, 4);
    assert_eq!(
        port.toggles,
        vec![("rts", true), ("dtr", false), ("rts", false), ("dtr", false)]
    );
}

#[test]
fn default_reset_options_are_documented_ones() {
    let opts = ResetOptions::default();
    assert_eq!(opts.pulse, Duration::from_millis(100));
    assert_eq!(opts.confirm_timeout, Duration::from_millis(2000));
    assert_eq!(opts.max_retries, 5);
}

fn open_error(kind: OpenErrorKind, message: &str) -> OpenError {
    OpenError {
        kind,
        message: message.to_string(),
    }
}

#[test]
fn permission_denied_points_to_the_group() {
    let e = explain_open_error("/dev/x", &open_error(OpenErrorKind::Io, "Permission denied"));
    assert_eq!(e.context, "opening serial port");
    assert_eq!(
        e.cause,
        "failed to open /dev/x: permission denied \u{2014} is your user in the `dialout` group? (`sudo usermod -aG dialout $USER`, then log out/in)"
    );
}

#[test]
fn missing_device_is_told_by_kind_or_message() {
    let expected = "failed to open /dev/x: no such device \u{2014} is the board plugged in? (`ls /dev/ttyUSB*` / `dmesg | tail`)";
    for e in [
        open_error(OpenErrorKind::NoDevice, "whatever"),
        open_error(OpenErrorKind::Io, "No such file or directory"),
        open_error(OpenErrorKind::Unknown, "Port Not Found"),
    ] {
        assert_eq!(explain_open_error("/dev/x", &e).cause, expected);
    }
}

#[test]
fn busy_port_points_to_lsof() {
    let expected = "/dev/x is busy \u{2014} is another esp-monitor, screen, minicom, or IDE serial monitor already attached? (`lsof /dev/x`)";
    for message in ["Device or resource BUSY", "Resource temporarily unavailable"] {
        let e = open_error(OpenErrorKind::Io, message);
        assert_eq!(explain_open_error("/dev/x", &e).cause, expected);
    }
}

#[test]
fn other_open_errors_keep_their_message() {
    let e = open_error(OpenErrorKind::InvalidInput, "Bad Baud");
    assert_eq!(explain_open_error("/dev/x", &e).cause, "failed to open /dev/x: Bad Baud");
    assert_eq!(
        advise("/dev/x", OpenErrorKind::Io, "Kept As Is", "kept as is"),
        "failed to open /dev/x: Kept As Is"
    );
}

#[test]
fn shown_failure_names_the_port_and_what_to_do() {
    let e = open_error(OpenErrorKind::Unknown, "Permission denied");
    let shown = explain_open_error("/dev/ttyUSB0", &e).shown();
    assert_eq!(
        shown,
        "opening serial port: failed to open /dev/ttyUSB0: permission denied — is your user in \
         the `dialout` group? (`sudo usermod -aG dialout $USER`, then log out/in)"
    );
    let e = open_error(OpenErrorKind::NoDevice, "gone");
    let shown = explain_open_error("/dev/x", &e).shown();
    assert!(shown.contains("/dev/x: no such device"));
    let e = open_error(OpenErrorKind::Io, "Device or resource busy");
    assert!(explain_open_error("/dev/x", &e).shown().contains("/dev/x is busy"));
}
