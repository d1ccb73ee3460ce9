//! Drives the RTS/DTR lines of an ESP8266/ESP32 dev board to reset it or hold
//! it in power-off, using the well-known auto-reset technique also used by
//! tools like esptool.py.

use crate::clock::span_of_millis;
use crate::error::{IoError, IoErrorKind};
use crate::text::{contains_text, joined};
#[allow(unused_imports)]
use crate::text::{has_text, occurs_at};
use std::time::Duration;
use vstd::prelude::*;
#[allow(unused_imports)]
use vstd::string::StringExecFns;

verus! {

/// One call on a port and what came back.
pub enum PortCall {
    RequestToSend { level: bool, failure: Option<IoError> },
    DataTerminalReady { level: bool, failure: Option<IoError> },
    Pause { span: Duration },
    SetDeadline { span: Duration },
    DeadlinePassed { passed: bool },
    Read { limit: nat, result: Result<usize, IoError> },
}

/// What went wrong, if anything did.
pub open spec fn failure_of(result: Result<(), IoError>) -> Option<IoError> {
    match result {
        Ok(_) => None,
        Err(e) => Some(e),
    }
}

/// The minimal serial-port surface reset/power logic needs, so that it can be
/// driven without hardware. What its methods return is up to the implementation;
/// `calls` stands for the record of the calls made on it.
pub trait ResetPort {
    /// The calls made on this port so far, in order, each with what came back. Where an
    /// implementation does not say how it keeps this record, it is some function of the
    /// port that nothing more is known of.
    open spec fn calls(&self) -> Seq<PortCall> {
        vstd::pervasive::arbitrary::<spec_fn(&Self) -> Seq<PortCall>>()(self)
    }

    /// Reads bytes into `buf`, waiting for the port's own read timeout at most. Returns
    /// how many came, or a failure, which is `TimedOut` where none came in time.
    fn read(&mut self, buf: &mut [u8]) -> (result: Result<usize, IoError>)
        ensures
            final(self).calls() == old(self).calls().push(
                PortCall::Read { limit: old(buf)@.len(), result },
            ),
            final(buf)@.len() == old(buf)@.len(),
    ;

    /// Sets the RTS line.
    fn write_request_to_send(&mut self, level: bool) -> (result: Result<(), IoError>)
        ensures
            final(self).calls() == old(self).calls().push(
                PortCall::RequestToSend { level, failure: failure_of(result) },
            ),
    ;

    /// Sets the DTR line.
    fn write_data_terminal_ready(&mut self, level: bool) -> (result: Result<(), IoError>)
        ensures
            final(self).calls() == old(self).calls().push(
                PortCall::DataTerminalReady { level, failure: failure_of(result) },
            ),
    ;

    /// Lets `span` go by with the lines as they are.
    fn pause(&mut self, span: Duration)
        ensures
            final(self).calls() == old(self).calls().push(PortCall::Pause { span }),
    ;

    /// Sets a deadline: `span` from now.
    fn set_deadline(&mut self, span: Duration)
        ensures
            final(self).calls() == old(self).calls().push(PortCall::SetDeadline { span }),
    ;

    /// Whether the deadline that was set last is over.
    fn deadline_passed(&mut self) -> (passed: bool)
        ensures
            final(self).calls() == old(self).calls().push(PortCall::DeadlinePassed { passed }),
    ;
}

#[derive(Debug, Clone, Copy)]
pub struct ResetOptions {
    /// How long to hold RTS asserted before releasing it, in the reset pulse.
    pub pulse: Duration,
    /// How long to wait for the board to send bytes back before retrying.
    pub confirm_timeout: Duration,
    /// Maximum number of pulse attempts before giving up.
    pub max_retries: u32,
}

impl Default for ResetOptions {
    fn default() -> (opts: Self)
        ensures
            crate::clock::nanos(opts.pulse) == 100 * 1_000_000,
            crate::clock::nanos(opts.confirm_timeout) == 2000 * 1_000_000,
            opts.max_retries == 5,
    {
        ResetOptions {
            pulse: span_of_millis(100),
            confirm_timeout: span_of_millis(2000),
            max_retries: 5,
        }
    }
}

#[derive(Debug, Clone, Copy, PartialEq, Eq, Structural)]
pub struct ResetOutcome {
    pub confirmed: bool,
    pub attempts: u32,
    pub bytes_seen: usize,
}

/// The calls that hold the board in power-off: RTS asserted, DTR clear.
pub open spec fn power_off_calls() -> Seq<PortCall> {
    seq![
        PortCall::RequestToSend { level: true, failure: None },
        PortCall::DataTerminalReady { level: false, failure: None },
    ]
}

/// The calls of one reset pulse: the board is held in power-off for `span` and let go.
pub open spec fn pulse_calls(span: Duration) -> Seq<PortCall> {
    power_off_calls() + seq![
        PortCall::Pause { span },
        PortCall::RequestToSend { level: false, failure: None },
        PortCall::DataTerminalReady { level: false, failure: None },
    ]
}

/// `done` is `planned` up to a call that failed with `e`; nothing was called after it.
pub open spec fn stopped_at_failure(
    planned: Seq<PortCall>,
    done: Seq<PortCall>,
    e: IoError,
) -> bool {
    &&& 0 < done.len() <= planned.len()
    &&& done.drop_last() == planned.take(done.len() - 1)
    &&& match planned[done.len() - 1] {
        PortCall::RequestToSend { level, .. } => done.last() == (PortCall::RequestToSend {
            level,
            failure: Some(e),
        }),
        PortCall::DataTerminalReady { level, .. } => done.last() == (PortCall::DataTerminalReady {
            level,
            failure: Some(e),
        }),
        _ => false,
    }
}

/// `result` is what the calls `done` say of the plan: success where all of it was done,
/// else the failure that stopped it.
pub open spec fn carried_out(
    planned: Seq<PortCall>,
    done: Seq<PortCall>,
    result: Result<(), IoError>,
) -> bool {
    match result {
        Ok(_) => done == planned,
        Err(e) => stopped_at_failure(planned, done, e),
    }
}

/// Holds the board in reset/power-off: RTS asserted, DTR clear, held
/// indefinitely (the caller keeps the port open to keep the chip off).
pub fn power_off<P: ResetPort + ?Sized>(port: &mut P) -> (result: Result<(), IoError>)
    ensures
        exists|done: Seq<PortCall>|
            final(port).calls() == old(port).calls() + done && #[trigger] carried_out(
                power_off_calls(),
                done,
                result,
            ),
{
    let ghost before = port.calls();
    let ghost planned = power_off_calls();
    match port.write_request_to_send(true) {
        Ok(()) => {},
        Err(e) => {
            proof {
                let done = seq![PortCall::RequestToSend { level: true, failure: Some(e) }];
                assert(port.calls() =~= before + done);
                assert(done.drop_last() =~= planned.take(0));
                assert(carried_out(planned, done, Err(e)));
            }
            return Err(e);
        },
    }
    match port.write_data_terminal_ready(false) {
        Ok(()) => {},
        Err(e) => {
            proof {
                let done = seq![
                    planned[0],
                    PortCall::DataTerminalReady { level: false, failure: Some(e) },
                ];
                assert(port.calls() =~= before + done);
                assert(done.drop_last() =~= planned.take(1));
                assert(carried_out(planned, done, Err(e)));
            }
            return Err(e);
        },
    }
    assert(port.calls() =~= before + planned);
    assert(carried_out(planned, planned, Ok(())));
    Ok(())
}

/// One reset pulse.
fn pulse_reset<P: ResetPort + ?Sized>(port: &mut P, pulse: Duration) -> (result: Result<
    (),
    IoError,
>)
    ensures
        exists|done: Seq<PortCall>|
            final(port).calls() == old(port).calls() + done && #[trigger] carried_out(
                pulse_calls(pulse),
                done,
                result,
            ),
{
    let ghost before = port.calls();
    let ghost planned = pulse_calls(pulse);
    match power_off(port) {
        Ok(()) => {},
        Err(e) => {
            proof {
                let done = choose|done: Seq<PortCall>|
                    port.calls() == before + done && #[trigger] carried_out(
                        power_off_calls(),
                        done,
                        Err(e),
                    );
                assert(power_off_calls().take(done.len() - 1) =~= planned.take(done.len() - 1));
                assert(carried_out(planned, done, Err(e)));
            }
            return Err(e);
        },
    }
    port.pause(pulse);
    match port.write_request_to_send(false) {
        Ok(()) => {},
        Err(e) => {
            proof {
                let done = planned.take(3).push(
                    PortCall::RequestToSend { level: false, failure: Some(e) },
                );
                assert(port.calls() =~= before + done);
                assert(done.drop_last() =~= planned.take(3));
                assert(carried_out(planned, done, Err(e)));
            }
            return Err(e);
        },
    }
    match port.write_data_terminal_ready(false) {
        Ok(()) => {},
        Err(e) => {
            proof {
                let done = planned.take(4).push(
                    PortCall::DataTerminalReady { level: false, failure: Some(e) },
                );
                assert(port.calls() =~= before + done);
                assert(done.drop_last() =~= planned.take(4));
                assert(carried_out(planned, done, Err(e)));
            }
            return Err(e);
        },
    }
    assert(port.calls() =~= before + planned);
    assert(carried_out(planned, planned, Ok(())));
    Ok(())
}

/// How many bytes a read asks for while a reset waits for the board's answer.
pub const ANSWER_BUFFER: usize = 256;

/// A read that brought nothing yet.
pub open spec fn is_empty_read(call: PortCall) -> bool {
    call matches PortCall::Read { limit, result: Ok(0) } && limit == ANSWER_BUFFER
}

/// A read that ran into the port's own timeout.
pub open spec fn is_timed_out_read(call: PortCall) -> bool {
    call matches PortCall::Read { limit, result: Err(e) } && limit == ANSWER_BUFFER && e.kind
        == IoErrorKind::TimedOut
}

/// The calls of a wait in which nothing has come yet: turn by turn a look at the deadline,
/// which was not over, and a read, which brought nothing.
pub open spec fn nothing_yet(calls: Seq<PortCall>) -> bool {
    &&& calls.len() % 2 == 0
    &&& forall|i: int|
        #![trigger calls[i]]
        0 <= i < calls.len() ==> if i % 2 == 0 {
            calls[i] == (PortCall::DeadlinePassed { passed: false })
        } else {
            is_empty_read(calls[i])
        }
}

/// How many reads in a row may bring nothing before a wait is given up, deadline or not.
pub const MAX_EMPTY_READS: u64 = u64::MAX;

/// The calls of a wait in which nothing has come yet, and that goes on.
pub open spec fn still_waiting(calls: Seq<PortCall>) -> bool {
    nothing_yet(calls) && calls.len() < 2 * MAX_EMPTY_READS
}

/// The calls of a wait that ended with `read`: nothing came before it, and the deadline was
/// not over.
pub open spec fn ended_by_read(calls: Seq<PortCall>, read: PortCall) -> bool {
    &&& calls.len() >= 2
    &&& still_waiting(calls.take(calls.len() - 2))
    &&& calls[calls.len() - 2] == (PortCall::DeadlinePassed { passed: false })
    &&& calls.last() == read
}

/// The calls of a wait of at most `span` that the board did not answer: the deadline was
/// over, or a read ran into the port's own timeout, before anything came.
pub open spec fn is_silence(span: Duration, calls: Seq<PortCall>) -> bool {
    let turns = calls.skip(1);
    &&& calls.len() > 0
    &&& calls[0] == (PortCall::SetDeadline { span })
    &&& {
        ||| turns.len() > 0 && still_waiting(turns.drop_last()) && turns.last() == (
        PortCall::DeadlinePassed { passed: true })
        ||| turns.len() > 0 && is_timed_out_read(turns.last()) && ended_by_read(
            turns,
            turns.last(),
        )
        ||| nothing_yet(turns) && turns.len() == 2 * MAX_EMPTY_READS
    }
}

/// The calls of a wait of at most `span` that the board answered with `n` bytes.
pub open spec fn is_answer(span: Duration, calls: Seq<PortCall>, n: usize) -> bool {
    &&& calls.len() > 0
    &&& calls[0] == (PortCall::SetDeadline { span })
    &&& n > 0
    &&& ended_by_read(
        calls.skip(1),
        PortCall::Read { limit: ANSWER_BUFFER as nat, result: Ok(n) },
    )
}

/// The calls of a wait of at most `span` that broke off with `e`, which is no timeout.
pub open spec fn is_broken_off(span: Duration, calls: Seq<PortCall>, e: IoError) -> bool {
    &&& calls.len() > 0
    &&& calls[0] == (PortCall::SetDeadline { span })
    &&& e.kind != IoErrorKind::TimedOut
    &&& ended_by_read(
        calls.skip(1),
        PortCall::Read { limit: ANSWER_BUFFER as nat, result: Err(e) },
    )
}

/// `result` is what the calls of a wait say: the number of bytes that answered, none
/// where the board kept silent, or the failure that broke the wait off.
pub open spec fn waited(
    span: Duration,
    calls: Seq<PortCall>,
    result: Result<Option<usize>, IoError>,
) -> bool {
    match result {
        Ok(None) => is_silence(span, calls),
        Ok(Some(n)) => is_answer(span, calls, n),
        Err(e) => is_broken_off(span, calls, e),
    }
}

/// Waits up to `timeout` for the board to send bytes.
fn await_answer<P: ResetPort + ?Sized>(port: &mut P, timeout: Duration) -> (result: Result<
    Option<usize>,
    IoError,
>)
    ensures
        exists|calls: Seq<PortCall>|
            final(port).calls() == old(port).calls() + calls && #[trigger] waited(
                timeout,
                calls,
                result,
            ),
{
    let mut buf: [u8; ANSWER_BUFFER] = [0; ANSWER_BUFFER];
    let ghost before = port.calls();
    port.set_deadline(timeout);
    let ghost set = PortCall::SetDeadline { span: timeout };
    let ghost mut turns: Seq<PortCall> = Seq::empty();
    assert(before.push(set) =~= before + (seq![set] + turns));
    let mut empty_reads: u64 = 0;
    while empty_reads < MAX_EMPTY_READS
        invariant
            before == old(port).calls(),
            set == (PortCall::SetDeadline { span: timeout }),
            port.calls() == before + (seq![set] + turns),
            nothing_yet(turns),
            turns.len() == 2 * empty_reads,
            buf@.len() == ANSWER_BUFFER,
        decreases MAX_EMPTY_READS - empty_reads,
    {
        if port.deadline_passed() {
            proof {
                let look = PortCall::DeadlinePassed { passed: true };
                let calls = seq![set] + turns.push(look);
                assert(port.calls() =~= before + calls);
                assert(calls.skip(1) =~= turns.push(look));
                assert(turns.push(look).drop_last() =~= turns);
                assert(waited(timeout, calls, Ok(None)));
            }
            return Ok(None);
        }
        let result = port.read(&mut buf);
        let ghost look = PortCall::DeadlinePassed { passed: false };
        let ghost read = PortCall::Read { limit: ANSWER_BUFFER as nat, result };
        let ghost more = turns.push(look).push(read);
        let ghost calls = seq![set] + more;
        proof {
            assert(port.calls() =~= before + calls);
            assert(calls.skip(1) =~= more);
            assert(more.take(more.len() - 2) =~= turns);
            assert(ended_by_read(more, read));
        }
        match result {
            Ok(n) => {
                if n > 0 {
                    assert(waited(timeout, calls, Ok(Some(n))));
                    return Ok(Some(n));
                }
                empty_reads += 1;
                proof {
                    turns = more;
                }
            },
            Err(e) => {
                if e.kind == IoErrorKind::TimedOut {
                    assert(waited(timeout, calls, Ok(None)));
                    return Ok(None);
                }
                assert(waited(timeout, calls, Err(e)));
                return Err(e);
            },
        }
    }
    proof {
        let calls = seq![set] + turns;
        assert(calls.skip(1) =~= turns);
        assert(waited(timeout, calls, Ok(None)));
    }
    Ok(None)
}

/// The calls of one attempt at a reset that the board did not answer.
pub open spec fn is_unanswered_attempt(opts: ResetOptions, calls: Seq<PortCall>) -> bool {
    let pulse = pulse_calls(opts.pulse);
    &&& calls.len() >= pulse.len()
    &&& calls.take(pulse.len() as int) == pulse
    &&& is_silence(opts.confirm_timeout, calls.skip(pulse.len() as int))
}

/// The calls of `n` attempts at a reset, none of which the board answered.
pub open spec fn are_unanswered_attempts(opts: ResetOptions, calls: Seq<PortCall>, n: nat) -> bool
    decreases n,
{
    if n == 0 {
        calls.len() == 0
    } else {
        exists|k: int|
            0 <= k <= calls.len() && are_unanswered_attempts(
                opts,
                #[trigger] calls.take(k),
                (n - 1) as nat,
            ) && is_unanswered_attempt(opts, calls.skip(k))
    }
}

/// How many attempts a reset makes at most: as many as the options say.
pub open spec fn attempt_limit(opts: ResetOptions) -> nat {
    opts.max_retries as nat
}

/// The last attempt, after `n` unanswered ones, ended the reset with `result`.
pub open spec fn ends_reset(
    opts: ResetOptions,
    n: nat,
    calls: Seq<PortCall>,
    result: Result<ResetOutcome, IoError>,
) -> bool {
    let pulse = pulse_calls(opts.pulse);
    let wait = calls.skip(pulse.len() as int);
    let pulsed = calls.len() >= pulse.len() && calls.take(pulse.len() as int) == pulse;
    match result {
        Ok(outcome) => {
            &&& pulsed
            &&& outcome.attempts == n + 1
            &&& if outcome.confirmed {
                is_answer(opts.confirm_timeout, wait, outcome.bytes_seen)
            } else {
                &&& is_silence(opts.confirm_timeout, wait)
                &&& outcome.bytes_seen == 0
                &&& n + 1 == attempt_limit(opts)
            }
        },
        Err(e) => stopped_at_failure(pulse, calls, e) || pulsed && is_broken_off(
            opts.confirm_timeout,
            wait,
            e,
        ),
    }
}

/// The calls of a reset that ended with `result`: some attempts that the board did not
/// answer, fewer than the limit, and one that ended it. Where no attempt is allowed, the
/// board is left alone and the reset goes unconfirmed.
pub open spec fn is_reset(
    opts: ResetOptions,
    calls: Seq<PortCall>,
    result: Result<ResetOutcome, IoError>,
) -> bool {
    if attempt_limit(opts) == 0 {
        calls.len() == 0 && result == Ok::<ResetOutcome, IoError>(
            ResetOutcome { confirmed: false, attempts: 0, bytes_seen: 0 },
        )
    } else {
        exists|n: nat, k: int|
            n < attempt_limit(opts) && 0 <= k <= calls.len() && #[trigger] are_unanswered_attempts(
                opts,
                calls.take(k),
                n,
            ) && ends_reset(opts, n, calls.skip(k), result)
    }
}

/// Pulses RTS/DTR to reset the board, retrying the pulse until bytes come
/// back from the board (confirming it rebooted) or `max_retries` is hit.
/// Where `max_retries` is zero, no pulse is sent.
pub fn reset_sequence<P: ResetPort + ?Sized>(port: &mut P, opts: ResetOptions) -> (result: Result<
    ResetOutcome,
    IoError,
>)
    ensures
        exists|calls: Seq<PortCall>|
            final(port).calls() == old(port).calls() + calls && #[trigger] is_reset(
                opts,
                calls,
                result,
            ),
{
    let ghost before = port.calls();
    let ghost pulse = pulse_calls(opts.pulse);
    let ghost mut calls: Seq<PortCall> = Seq::empty();
    assert(before + calls =~= before);
    if opts.max_retries == 0 {
        let outcome = ResetOutcome { confirmed: false, attempts: 0, bytes_seen: 0 };
        assert(is_reset(opts, calls, Ok(outcome)));
        return Ok(outcome);
    }
    let mut attempts: u32 = 0;
    loop
        invariant
            before == old(port).calls(),
            pulse == pulse_calls(opts.pulse),
            port.calls() == before + calls,
            are_unanswered_attempts(opts, calls, attempts as nat),
            attempts < attempt_limit(opts),
        decreases attempt_limit(opts) - attempts,
    {
        let ghost n = attempts as nat;
        attempts = attempts + 1;
        let pulsed = pulse_reset(port, opts.pulse);
        let ghost done = choose|done: Seq<PortCall>|
            port.calls() == before + calls + done && #[trigger] carried_out(pulse, done, pulsed);
        match pulsed {
            Ok(()) => {},
            Err(e) => {
                proof {
                    lemma_reset_ends(opts, calls, n, done, Err(e));
                    assert(before + calls + done =~= before + (calls + done));
                }
                return Err(e);
            },
        }
        let ghost after_pulse = port.calls();
        let answer = await_answer(port, opts.confirm_timeout);
        let ghost reads = choose|reads: Seq<PortCall>|
            port.calls() == after_pulse + reads && #[trigger] waited(
                opts.confirm_timeout,
                reads,
                answer,
            );
        let ghost attempt = pulse + reads;
        proof {
            assert(attempt.take(pulse.len() as int) =~= pulse);
            assert(attempt.skip(pulse.len() as int) =~= reads);
            assert(after_pulse + reads =~= before + (calls + attempt));
        }
        match answer {
            Ok(Some(n_bytes)) => {
                let outcome = ResetOutcome { confirmed: true, attempts, bytes_seen: n_bytes };
                proof {
                    lemma_reset_ends(opts, calls, n, attempt, Ok(outcome));
                }
                return Ok(outcome);
            },
            Ok(None) => {
                if attempts >= opts.max_retries {
                    let outcome = ResetOutcome { confirmed: false, attempts, bytes_seen: 0 };
                    proof {
                        lemma_reset_ends(opts, calls, n, attempt, Ok(outcome));
                    }
                    return Ok(outcome);
                }
            },
            Err(e) => {
                proof {
                    lemma_reset_ends(opts, calls, n, attempt, Err(e));
                }
                return Err(e);
            },
        }
        proof {
            let all = calls + attempt;
            assert(all.take(calls.len() as int) =~= calls);
            assert(all.skip(calls.len() as int) =~= attempt);
            calls = all;
        }
    }
}

proof fn lemma_reset_ends(
    opts: ResetOptions,
    calls: Seq<PortCall>,
    n: nat,
    last: Seq<PortCall>,
    result: Result<ResetOutcome, IoError>,
)
    requires
        n < attempt_limit(opts),
        are_unanswered_attempts(opts, calls, n),
        ends_reset(opts, n, last, result),
    ensures
        is_reset(opts, calls + last, result),
{
    let all = calls + last;
    assert(all.take(calls.len() as int) =~= calls);
    assert(all.skip(calls.len() as int) =~= last);
}

/// Powering on is the same pulse as a reset.
pub fn power_on<P: ResetPort + ?Sized>(port: &mut P, opts: ResetOptions) -> (result: Result<
    ResetOutcome,
    IoError,
>)
    ensures
        exists|calls: Seq<PortCall>|
            final(port).calls() == old(port).calls() + calls && #[trigger] is_reset(
                opts,
                calls,
                result,
            ),
{
    reset_sequence(port, opts)
}

/// A reset reports a number of attempts within its limit. Confirmed means that bytes came;
/// unconfirmed means that none came and that every attempt was used up.
pub proof fn outcome_agrees_with_the_limit(
    opts: ResetOptions,
    calls: Seq<PortCall>,
    outcome: ResetOutcome,
)
    requires
        is_reset(opts, calls, Ok(outcome)),
    ensures
        outcome.attempts <= attempt_limit(opts),
        attempt_limit(opts) > 0 ==> outcome.attempts > 0,
        outcome.confirmed <==> outcome.bytes_seen > 0,
        !outcome.confirmed ==> outcome.attempts == attempt_limit(opts),
{
}

/// How many bytes a call brought.
pub open spec fn brought(call: PortCall) -> nat {
    match call {
        PortCall::Read { result: Ok(n), .. } => n as nat,
        _ => 0,
    }
}

/// How many bytes these calls brought.
pub open spec fn bytes_in(calls: Seq<PortCall>) -> nat
    decreases calls.len(),
{
    if calls.len() == 0 {
        0
    } else {
        bytes_in(calls.drop_last()) + brought(calls.last())
    }
}

/// Whether a call took hold of the board: it asserted RTS.
pub open spec fn takes_hold(call: PortCall) -> bool {
    call == (PortCall::RequestToSend { level: true, failure: None })
}

/// How many times these calls took hold of the board.
pub open spec fn pulses_in(calls: Seq<PortCall>) -> nat
    decreases calls.len(),
{
    if calls.len() == 0 {
        0
    } else {
        pulses_in(calls.drop_last()) + (if takes_hold(calls.last()) {
            1nat
        } else {
            0
        })
    }
}

/// What a reset reports is what happened: as many attempts as pulses were sent, and as many
/// bytes as came.
pub proof fn outcome_counts_what_happened(
    opts: ResetOptions,
    calls: Seq<PortCall>,
    outcome: ResetOutcome,
)
    requires
        is_reset(opts, calls, Ok(outcome)),
    ensures
        outcome.attempts == pulses_in(calls),
        outcome.bytes_seen == bytes_in(calls),
{
    if attempt_limit(opts) > 0 {
        let pulse = pulse_calls(opts.pulse);
        let (n, k) = choose|n: nat, k: int|
            n < attempt_limit(opts) && 0 <= k <= calls.len() && #[trigger] are_unanswered_attempts(
                opts,
                calls.take(k),
                n,
            ) && ends_reset(opts, n, calls.skip(k), Ok(outcome));
        let last = calls.skip(k);
        let wait = last.skip(pulse.len() as int);
        assert(calls =~= calls.take(k) + last);
        assert(last =~= pulse + wait);
        lemma_counts_of_unanswered(opts, calls.take(k), n);
        lemma_counts_of_wait(opts.confirm_timeout, wait, outcome.bytes_seen);
        lemma_counts_of_pulse(opts.pulse);
        lemma_counts_add(pulse, wait);
        lemma_counts_add(calls.take(k), last);
    }
}

proof fn lemma_counts_add(a: Seq<PortCall>, b: Seq<PortCall>)
    ensures
        pulses_in(a + b) == pulses_in(a) + pulses_in(b),
        bytes_in(a + b) == bytes_in(a) + bytes_in(b),
    decreases b.len(),
{
    if b.len() == 0 {
        assert(a + b =~= a);
    } else {
        lemma_counts_add(a, b.drop_last());
        assert((a + b).drop_last() =~= a + b.drop_last());
        assert((a + b).last() == b.last());
    }
}

proof fn lemma_counts_of_pulse(span: Duration)
    ensures
        pulses_in(pulse_calls(span)) == 1,
        bytes_in(pulse_calls(span)) == 0,
{
    reveal_with_fuel(pulses_in, 6);
    reveal_with_fuel(bytes_in, 6);
    let p = pulse_calls(span);
    assert(p.drop_last() =~= p.take(4));
    assert(p.take(4).drop_last() =~= p.take(3));
    assert(p.take(3).drop_last() =~= p.take(2));
    assert(p.take(2).drop_last() =~= p.take(1));
    assert(p.take(1).drop_last() =~= p.take(0));
}

/// Calls that brought nothing and did not take hold of the board add nothing.
proof fn lemma_counts_of_nothing(calls: Seq<PortCall>)
    requires
        forall|i: int|
            0 <= i < calls.len() ==> !takes_hold(#[trigger] calls[i]) && brought(calls[i]) == 0,
    ensures
        pulses_in(calls) == 0,
        bytes_in(calls) == 0,
    decreases calls.len(),
{
    if calls.len() > 0 {
        let front = calls.drop_last();
        assert forall|i: int| 0 <= i < front.len() implies !takes_hold(#[trigger] front[i])
            && brought(front[i]) == 0 by {
            assert(front[i] == calls[i]);
        }
        lemma_counts_of_nothing(front);
        assert(!takes_hold(calls[calls.len() - 1]));
    }
}

proof fn lemma_counts_of_wait(span: Duration, calls: Seq<PortCall>, n: usize)
    ensures
        is_silence(span, calls) ==> pulses_in(calls) == 0 && bytes_in(calls) == 0,
        is_answer(span, calls, n) ==> pulses_in(calls) == 0 && bytes_in(calls) == n,
{
    let turns = calls.skip(1);
    if is_silence(span, calls) || is_answer(span, calls, n) {
        let front = calls.drop_last();
        assert forall|i: int| 0 <= i < front.len() implies !takes_hold(#[trigger] front[i])
            && brought(front[i]) == 0 by {
            if i > 0 {
                let j = i - 1;
                assert(front[i] == turns[j]);
                assert(turns.drop_last()[j] == turns[j]);
                if j < turns.len() - 2 {
                    assert(turns.take(turns.len() - 2)[j] == turns[j]);
                }
            }
        }
        lemma_counts_of_nothing(front);
        assert(calls.last() == turns.last());
        assert(turns[turns.len() - 1] == turns.last());
    }
}

proof fn lemma_counts_of_unanswered(opts: ResetOptions, calls: Seq<PortCall>, n: nat)
    requires
        are_unanswered_attempts(opts, calls, n),
    ensures
        pulses_in(calls) == n,
        bytes_in(calls) == 0,
    decreases n,
{
    if n > 0 {
        let k = choose|k: int|
            0 <= k <= calls.len() && are_unanswered_attempts(
                opts,
                #[trigger] calls.take(k),
                (n - 1) as nat,
            ) && is_unanswered_attempt(opts, calls.skip(k));
        let pulse = pulse_calls(opts.pulse);
        let last = calls.skip(k);
        let wait = last.skip(pulse.len() as int);
        lemma_counts_of_unanswered(opts, calls.take(k), (n - 1) as nat);
        lemma_counts_of_wait(opts.confirm_timeout, wait, 0);
        lemma_counts_of_pulse(opts.pulse);
        assert(last =~= pulse + wait);
        assert(calls =~= calls.take(k) + last);
        lemma_counts_add(pulse, wait);
        lemma_counts_add(calls.take(k), last);
    }
}

/// The level that these calls leave the RTS line at, where they set it.
pub open spec fn rts_after(calls: Seq<PortCall>) -> Option<bool>
    decreases calls.len(),
{
    if calls.len() == 0 {
        None
    } else {
        match calls.last() {
            PortCall::RequestToSend { level, failure: None } => Some(level),
            _ => rts_after(calls.drop_last()),
        }
    }
}

/// The level that these calls leave the DTR line at, where they set it.
pub open spec fn dtr_after(calls: Seq<PortCall>) -> Option<bool>
    decreases calls.len(),
{
    if calls.len() == 0 {
        None
    } else {
        match calls.last() {
            PortCall::DataTerminalReady { level, failure: None } => Some(level),
            _ => dtr_after(calls.drop_last()),
        }
    }
}

/// Powering off leaves RTS asserted and DTR clear.
pub proof fn power_off_holds_the_board(calls: Seq<PortCall>)
    requires
        carried_out(power_off_calls(), calls, Ok(())),
    ensures
        rts_after(calls) == Some(true),
        dtr_after(calls) == Some(false),
{
    reveal_with_fuel(rts_after, 3);
    reveal_with_fuel(dtr_after, 3);
    assert(calls.drop_last() =~= seq![calls[0]]);
}

/// A reset that comes to an end after at least one attempt, confirmed or not, leaves the
/// board released: RTS and DTR are both clear. One that was allowed no attempt moved neither
/// line.
pub proof fn reset_releases_the_board(
    opts: ResetOptions,
    calls: Seq<PortCall>,
    outcome: ResetOutcome,
)
    requires
        is_reset(opts, calls, Ok(outcome)),
    ensures
        outcome.attempts > 0 ==> rts_after(calls) == Some(false) && dtr_after(calls) == Some(false),
        outcome.attempts == 0 ==> rts_after(calls) is None && dtr_after(calls) is None,
{
    if attempt_limit(opts) > 0 {
        let pulse = pulse_calls(opts.pulse);
        let (n, k) = choose|n: nat, k: int|
            n < attempt_limit(opts) && 0 <= k <= calls.len() && #[trigger] are_unanswered_attempts(
                opts,
                calls.take(k),
                n,
            ) && ends_reset(opts, n, calls.skip(k), Ok(outcome));
        let last = calls.skip(k);
        let wait = last.skip(pulse.len() as int);
        let earlier = calls.take(k);
        assert(calls =~= (earlier + pulse) + wait) by {
            assert(last =~= pulse + wait);
            assert(calls =~= earlier + last);
        }
        lemma_released_after_wait(opts, earlier, wait, outcome.bytes_seen);
    }
}

proof fn lemma_released_after_wait(
    opts: ResetOptions,
    earlier: Seq<PortCall>,
    wait: Seq<PortCall>,
    n: usize,
)
    requires
        is_silence(opts.confirm_timeout, wait) || is_answer(opts.confirm_timeout, wait, n),
    ensures
        rts_after((earlier + pulse_calls(opts.pulse)) + wait) == Some(false),
        dtr_after((earlier + pulse_calls(opts.pulse)) + wait) == Some(false),
{
    lemma_waiting_moves_no_line(opts.confirm_timeout, wait, n);
    lemma_unmoved(earlier + pulse_calls(opts.pulse), wait);
    lemma_released_after_pulse(earlier, opts.pulse);
}

proof fn lemma_released_after_pulse(earlier: Seq<PortCall>, span: Duration)
    ensures
        rts_after(earlier + pulse_calls(span)) == Some(false),
        dtr_after(earlier + pulse_calls(span)) == Some(false),
{
    let all = earlier + pulse_calls(span);
    let front = all.drop_last();
    assert(all.last() == (PortCall::DataTerminalReady { level: false, failure: None }));
    assert(front.last() == (PortCall::RequestToSend { level: false, failure: None }));
    assert(rts_after(front) == Some(false));
}

/// A call that sets neither line.
spec fn moves_no_line(call: PortCall) -> bool {
    call !is RequestToSend && call !is DataTerminalReady
}

proof fn lemma_waiting_moves_no_line(span: Duration, calls: Seq<PortCall>, n: usize)
    requires
        is_silence(span, calls) || is_answer(span, calls, n),
    ensures
        forall|i: int| 0 <= i < calls.len() ==> moves_no_line(#[trigger] calls[i]),
{
    let turns = calls.skip(1);
    assert forall|i: int| 0 <= i < calls.len() implies moves_no_line(#[trigger] calls[i]) by {
        if i > 0 {
            let j = i - 1;
            assert(calls[i] == turns[j]);
            if j < turns.len() - 1 {
                assert(turns.drop_last()[j] == turns[j]);
            }
            if j < turns.len() - 2 {
                assert(turns.take(turns.len() - 2)[j] == turns[j]);
            }
        }
    }
}

proof fn lemma_unmoved(calls: Seq<PortCall>, more: Seq<PortCall>)
    requires
        forall|i: int| 0 <= i < more.len() ==> moves_no_line(#[trigger] more[i]),
    ensures
        rts_after(calls + more) == rts_after(calls),
        dtr_after(calls + more) == dtr_after(calls),
    decreases more.len(),
{
    if more.len() == 0 {
        assert(calls + more =~= calls);
    } else {
        let front = more.drop_last();
        assert forall|i: int| 0 <= i < front.len() implies moves_no_line(#[trigger] front[i]) by {
            assert(front[i] == more[i]);
        }
        lemma_unmoved(calls, front);
        assert((calls + more).drop_last() =~= calls + front);
        assert(moves_no_line(more[more.len() - 1]));
        assert((calls + more).last() == more[more.len() - 1]);
    }
}

/// Where a reset stands: what it has to ask of the port next, or what it came to. `n` counts
/// the attempts that went unanswered.
pub enum ResetPhase {
    /// The first `k` calls of the pulse have been made.
    Pulsing { n: nat, k: int },
    /// The pulse is over, and the deadline has to be set.
    Arming { n: nat },
    /// The deadline has to be looked at; so many reads have brought nothing.
    Looking { n: nat, empty: nat },
    /// The port has to be read; so many reads have brought nothing.
    Reading { n: nat, empty: nat },
    /// It is over.
    Ended(Result<ResetOutcome, IoError>),
}

/// What was asked of the port, whatever came back: the call with the answer that a port gives
/// to which nothing happens.
pub open spec fn question(call: PortCall) -> PortCall {
    match call {
        PortCall::RequestToSend { level, .. } => PortCall::RequestToSend { level, failure: None },
        PortCall::DataTerminalReady { level, .. } => PortCall::DataTerminalReady {
            level,
            failure: None,
        },
        PortCall::Pause { span } => PortCall::Pause { span },
        PortCall::SetDeadline { span } => PortCall::SetDeadline { span },
        PortCall::DeadlinePassed { .. } => PortCall::DeadlinePassed { passed: false },
        PortCall::Read { limit, .. } => PortCall::Read { limit, result: Ok(0) },
    }
}

/// What a reset asks next.
pub open spec fn asked_in(opts: ResetOptions, phase: ResetPhase) -> Option<PortCall> {
    match phase {
        ResetPhase::Pulsing { k, .. } => Some(pulse_calls(opts.pulse)[k]),
        ResetPhase::Arming { .. } => Some(PortCall::SetDeadline { span: opts.confirm_timeout }),
        ResetPhase::Looking { .. } => Some(PortCall::DeadlinePassed { passed: false }),
        ResetPhase::Reading { .. } => Some(
            PortCall::Read { limit: ANSWER_BUFFER as nat, result: Ok(0) },
        ),
        ResetPhase::Ended(_) => None,
    }
}

/// Where a reset stands once attempt `n` has gone unanswered.
pub open spec fn unanswered(opts: ResetOptions, n: nat) -> ResetPhase {
    if n + 1 == attempt_limit(opts) {
        ResetPhase::Ended(
            Ok(ResetOutcome { confirmed: false, attempts: (n + 1) as u32, bytes_seen: 0 }),
        )
    } else {
        ResetPhase::Pulsing { n: n + 1, k: 0 }
    }
}

/// Where a reset stands once this call has been made.
pub open spec fn next_phase(opts: ResetOptions, phase: ResetPhase, call: PortCall) -> ResetPhase {
    match phase {
        ResetPhase::Pulsing { n, k } => match call {
            PortCall::RequestToSend { failure: Some(e), .. } => ResetPhase::Ended(Err(e)),
            PortCall::DataTerminalReady { failure: Some(e), .. } => ResetPhase::Ended(Err(e)),
            _ => if k + 1 == pulse_calls(opts.pulse).len() {
                ResetPhase::Arming { n }
            } else {
                ResetPhase::Pulsing { n, k: k + 1 }
            },
        },
        ResetPhase::Arming { n } => ResetPhase::Looking { n, empty: 0 },
        ResetPhase::Looking { n, empty } => if call == (PortCall::DeadlinePassed { passed: true }) {
            unanswered(opts, n)
        } else {
            ResetPhase::Reading { n, empty }
        },
        ResetPhase::Reading { n, empty } => match call {
            PortCall::Read { result: Ok(got), .. } => if got > 0 {
                ResetPhase::Ended(
                    Ok(ResetOutcome { confirmed: true, attempts: (n + 1) as u32, bytes_seen: got }),
                )
            } else if empty + 1 == MAX_EMPTY_READS {
                unanswered(opts, n)
            } else {
                ResetPhase::Looking { n, empty: empty + 1 }
            },
            PortCall::Read { result: Err(e), .. } => if e.kind == IoErrorKind::TimedOut {
                unanswered(opts, n)
            } else {
                ResetPhase::Ended(Err(e))
            },
            _ => phase,
        },
        ResetPhase::Ended(_) => phase,
    }
}

/// Where a reset that stood at `from` stands once these calls have been made.
pub open spec fn phase_after(
    opts: ResetOptions,
    from: ResetPhase,
    calls: Seq<PortCall>,
) -> ResetPhase
    decreases calls.len(),
{
    if calls.len() == 0 {
        from
    } else {
        next_phase(opts, phase_after(opts, from, calls.drop_last()), calls.last())
    }
}

/// Each of these calls asks what a reset that stood at `from` has to ask at that point.
pub open spec fn asks_in_turn(opts: ResetOptions, from: ResetPhase, calls: Seq<PortCall>) -> bool
    decreases calls.len(),
{
    calls.len() > 0 ==> {
        &&& asks_in_turn(opts, from, calls.drop_last())
        &&& asked_in(opts, phase_after(opts, from, calls.drop_last())) == Some(
            question(calls.last()),
        )
    }
}

/// Where a reset stands before its first call.
pub open spec fn first_phase(opts: ResetOptions) -> ResetPhase {
    if attempt_limit(opts) == 0 {
        ResetPhase::Ended(Ok(ResetOutcome { confirmed: false, attempts: 0, bytes_seen: 0 }))
    } else {
        ResetPhase::Pulsing { n: 0, k: 0 }
    }
}

/// A reset goes its way step by step: what it asks of the port is settled by what came back
/// before, and so are its end and its result.
pub proof fn reset_is_settled_by_the_answers(
    opts: ResetOptions,
    calls: Seq<PortCall>,
    result: Result<ResetOutcome, IoError>,
)
    requires
        is_reset(opts, calls, result),
    ensures
        asks_in_turn(opts, first_phase(opts), calls),
        phase_after(opts, first_phase(opts), calls) == ResetPhase::Ended(result),
{
    if attempt_limit(opts) > 0 {
        let (n, k) = choose|n: nat, k: int|
            n < attempt_limit(opts) && 0 <= k <= calls.len() && #[trigger] are_unanswered_attempts(
                opts,
                calls.take(k),
                n,
            ) && ends_reset(opts, n, calls.skip(k), result);
        assert(calls =~= calls.take(k) + calls.skip(k));
        lemma_phase_of_unanswered(opts, calls.take(k), n);
        lemma_phase_of_last_attempt(opts, n, calls.skip(k), result);
        lemma_phase_of_both(opts, first_phase(opts), calls.take(k), calls.skip(k));
    }
}

/// What a record of calls says settles what the reset, or the powering on, reports.
pub proof fn one_record_allows_one_result(
    opts: ResetOptions,
    calls: Seq<PortCall>,
    a: Result<ResetOutcome, IoError>,
    b: Result<ResetOutcome, IoError>,
)
    requires
        is_reset(opts, calls, a),
        is_reset(opts, calls, b),
    ensures
        a == b,
{
    reset_is_settled_by_the_answers(opts, calls, a);
    reset_is_settled_by_the_answers(opts, calls, b);
    assert(ResetPhase::Ended(a)->0 == ResetPhase::Ended(b)->0);
}

/// These calls came back as `answer` says: it tells, from what was called before and what is
/// asked, the call with what comes back.
pub open spec fn answered_by(
    answer: spec_fn(Seq<PortCall>, PortCall) -> PortCall,
    calls: Seq<PortCall>,
) -> bool {
    forall|i: int|
        0 <= i < calls.len() ==> #[trigger] calls[i] == answer(calls.take(i), question(calls[i]))
}

/// Powering on and resetting are the same: on ports that answer alike, either makes the same
/// calls in the same order and reports the same.
pub proof fn ports_that_answer_alike_fare_alike(
    opts: ResetOptions,
    answer: spec_fn(Seq<PortCall>, PortCall) -> PortCall,
    calls_a: Seq<PortCall>,
    a: Result<ResetOutcome, IoError>,
    calls_b: Seq<PortCall>,
    b: Result<ResetOutcome, IoError>,
)
    requires
        is_reset(opts, calls_a, a),
        is_reset(opts, calls_b, b),
        answered_by(answer, calls_a),
        answered_by(answer, calls_b),
    ensures
        calls_a == calls_b,
        a == b,
{
    reset_is_settled_by_the_answers(opts, calls_a, a);
    reset_is_settled_by_the_answers(opts, calls_b, b);
    let from = first_phase(opts);
    if calls_a.len() <= calls_b.len() {
        lemma_same_calls(opts, from, answer, calls_a, calls_b, calls_a.len() as int);
        lemma_no_calls_after_the_end(opts, from, calls_a, calls_b);
    } else {
        lemma_same_calls(opts, from, answer, calls_a, calls_b, calls_b.len() as int);
        lemma_no_calls_after_the_end(opts, from, calls_b, calls_a);
    }
    one_record_allows_one_result(opts, calls_a, a, b);
}

/// The calls up to any point ask in turn, too.
proof fn lemma_asks_in_turn_until(
    opts: ResetOptions,
    from: ResetPhase,
    calls: Seq<PortCall>,
    i: int,
)
    requires
        asks_in_turn(opts, from, calls),
        0 <= i < calls.len(),
    ensures
        asks_in_turn(opts, from, calls.take(i)),
        asked_in(opts, phase_after(opts, from, calls.take(i))) == Some(question(calls[i])),
    decreases calls.len(),
{
    if i == calls.len() - 1 {
        assert(calls.take(i) =~= calls.drop_last());
    } else {
        lemma_asks_in_turn_until(opts, from, calls.drop_last(), i);
        assert(calls.drop_last().take(i) =~= calls.take(i));
    }
}

proof fn lemma_same_calls(
    opts: ResetOptions,
    from: ResetPhase,
    answer: spec_fn(Seq<PortCall>, PortCall) -> PortCall,
    a: Seq<PortCall>,
    b: Seq<PortCall>,
    i: int,
)
    requires
        asks_in_turn(opts, from, a),
        asks_in_turn(opts, from, b),
        answered_by(answer, a),
        answered_by(answer, b),
        0 <= i <= a.len(),
        i <= b.len(),
    ensures
        a.take(i) == b.take(i),
    decreases i,
{
    if i == 0 {
        assert(a.take(0) =~= b.take(0));
    } else {
        let j = i - 1;
        lemma_same_calls(opts, from, answer, a, b, j);
        lemma_asks_in_turn_until(opts, from, a, j);
        lemma_asks_in_turn_until(opts, from, b, j);
        assert(a[j] == b[j]);
        assert(a.take(i) =~= a.take(j).push(a[j]));
        assert(b.take(i) =~= b.take(j).push(b[j]));
    }
}

proof fn lemma_no_calls_after_the_end(
    opts: ResetOptions,
    from: ResetPhase,
    a: Seq<PortCall>,
    b: Seq<PortCall>,
)
    requires
        a.len() <= b.len(),
        a.take(a.len() as int) == b.take(a.len() as int),
        phase_after(opts, from, a) is Ended,
        asks_in_turn(opts, from, b),
    ensures
        a == b,
{
    assert(a.take(a.len() as int) =~= a);
    if a.len() < b.len() {
        lemma_asks_in_turn_until(opts, from, b, a.len() as int);
    } else {
        assert(b.take(a.len() as int) =~= b);
    }
}

proof fn lemma_phase_of_both(
    opts: ResetOptions,
    from: ResetPhase,
    a: Seq<PortCall>,
    b: Seq<PortCall>,
)
    requires
        asks_in_turn(opts, from, a),
        asks_in_turn(opts, phase_after(opts, from, a), b),
    ensures
        asks_in_turn(opts, from, a + b),
        phase_after(opts, from, a + b) == phase_after(opts, phase_after(opts, from, a), b),
    decreases b.len(),
{
    if b.len() == 0 {
        assert(a + b =~= a);
    } else {
        lemma_phase_of_both(opts, from, a, b.drop_last());
        assert((a + b).drop_last() =~= a + b.drop_last());
        assert((a + b).last() == b.last());
    }
}

proof fn lemma_phase_of_one_more(
    opts: ResetOptions,
    from: ResetPhase,
    calls: Seq<PortCall>,
    call: PortCall,
)
    requires
        asks_in_turn(opts, from, calls),
        asked_in(opts, phase_after(opts, from, calls)) == Some(question(call)),
    ensures
        asks_in_turn(opts, from, calls.push(call)),
        phase_after(opts, from, calls.push(call)) == next_phase(
            opts,
            phase_after(opts, from, calls),
            call,
        ),
{
    assert(calls.push(call).drop_last() =~= calls);
    assert(calls.push(call).last() == call);
}

proof fn lemma_phase_of_pulse(opts: ResetOptions, n: nat, k: int)
    requires
        0 <= k <= 5,
    ensures
        ({
            let from = ResetPhase::Pulsing { n, k: 0 };
            let calls = pulse_calls(opts.pulse).take(k);
            &&& asks_in_turn(opts, from, calls)
            &&& phase_after(opts, from, calls) == (if k == 5 {
                ResetPhase::Arming { n }
            } else {
                ResetPhase::Pulsing { n, k }
            })
        }),
    decreases k,
{
    if k > 0 {
        let from = ResetPhase::Pulsing { n, k: 0 };
        let pulse = pulse_calls(opts.pulse);
        lemma_phase_of_pulse(opts, n, k - 1);
        assert(pulse.take(k) =~= pulse.take(k - 1).push(pulse[k - 1]));
        lemma_phase_of_one_more(opts, from, pulse.take(k - 1), pulse[k - 1]);
    }
}

proof fn lemma_phase_of_failed_pulse(
    opts: ResetOptions,
    n: nat,
    calls: Seq<PortCall>,
    e: IoError,
)
    requires
        stopped_at_failure(pulse_calls(opts.pulse), calls, e),
    ensures
        asks_in_turn(opts, ResetPhase::Pulsing { n, k: 0 }, calls),
        phase_after(opts, ResetPhase::Pulsing { n, k: 0 }, calls) == ResetPhase::Ended(Err(e)),
{
    lemma_phase_of_pulse(opts, n, calls.len() - 1);
    lemma_phase_of_one_more(
        opts,
        ResetPhase::Pulsing { n, k: 0 },
        calls.drop_last(),
        calls.last(),
    );
    assert(calls.drop_last().push(calls.last()) =~= calls);
}

proof fn lemma_phase_of_turns(opts: ResetOptions, n: nat, turns: Seq<PortCall>)
    requires
        nothing_yet(turns),
        turns.len() <= 2 * MAX_EMPTY_READS,
    ensures
        ({
            let from = ResetPhase::Looking { n, empty: 0 };
            &&& asks_in_turn(opts, from, turns)
            &&& phase_after(opts, from, turns) == (if turns.len() == 2 * MAX_EMPTY_READS {
                unanswered(opts, n)
            } else {
                ResetPhase::Looking { n, empty: (turns.len() / 2) as nat }
            })
        }),
    decreases turns.len(),
{
    if turns.len() > 0 {
        let from = ResetPhase::Looking { n, empty: 0 };
        let i = turns.len() - 2;
        let front = turns.take(i);
        assert forall|j: int|
            #![trigger front[j]]
            0 <= j < front.len() implies if j % 2 == 0 {
            front[j] == (PortCall::DeadlinePassed { passed: false })
        } else {
            is_empty_read(front[j])
        } by {
            assert(front[j] == turns[j]);
        }
        lemma_phase_of_turns(opts, n, front);
        assert(turns[i] == (PortCall::DeadlinePassed { passed: false }));
        assert(is_empty_read(turns[i + 1]));
        lemma_phase_of_one_more(opts, from, front, turns[i]);
        lemma_phase_of_one_more(opts, from, front.push(turns[i]), turns[i + 1]);
        assert(front.push(turns[i]).push(turns[i + 1]) =~= turns);
    }
}

proof fn lemma_phase_of_ended_turns(
    opts: ResetOptions,
    n: nat,
    turns: Seq<PortCall>,
    read: PortCall,
)
    requires
        ended_by_read(turns, read),
        read matches PortCall::Read { limit, .. } && limit == ANSWER_BUFFER,
    ensures
        ({
            let from = ResetPhase::Looking { n, empty: 0 };
            let empty = ((turns.len() - 2) / 2) as nat;
            &&& asks_in_turn(opts, from, turns)
            &&& phase_after(opts, from, turns) == next_phase(
                opts,
                ResetPhase::Reading { n, empty },
                read,
            )
        }),
{
    let from = ResetPhase::Looking { n, empty: 0 };
    let i = turns.len() - 2;
    let front = turns.take(i);
    lemma_phase_of_turns(opts, n, front);
    lemma_phase_of_one_more(opts, from, front, turns[i]);
    lemma_phase_of_one_more(opts, from, front.push(turns[i]), read);
    assert(front.push(turns[i]).push(read) =~= turns);
}

proof fn lemma_phase_of_wait(
    opts: ResetOptions,
    n: nat,
    calls: Seq<PortCall>,
    got: usize,
    e: IoError,
)
    ensures
        ({
            let from = ResetPhase::Arming { n };
            let silence = is_silence(opts.confirm_timeout, calls);
            let answer = is_answer(opts.confirm_timeout, calls, got);
            let broken_off = is_broken_off(opts.confirm_timeout, calls, e);
            &&& silence || answer || broken_off ==> asks_in_turn(opts, from, calls)
            &&& silence ==> phase_after(opts, from, calls) == unanswered(opts, n)
            &&& answer ==> phase_after(opts, from, calls) == ResetPhase::Ended(
                Ok(ResetOutcome { confirmed: true, attempts: (n + 1) as u32, bytes_seen: got }),
            )
            &&& broken_off ==> phase_after(opts, from, calls) == ResetPhase::Ended(Err(e))
        }),
{
    let silence = is_silence(opts.confirm_timeout, calls);
    let answer = is_answer(opts.confirm_timeout, calls, got);
    let broken_off = is_broken_off(opts.confirm_timeout, calls, e);
    if silence || answer || broken_off {
        let from = ResetPhase::Arming { n };
        let looking = ResetPhase::Looking { n, empty: 0 };
        let set = PortCall::SetDeadline { span: opts.confirm_timeout };
        let turns = calls.skip(1);
        lemma_phase_of_one_more(opts, from, Seq::empty(), set);
        assert(Seq::empty().push(set) =~= seq![set]);
        assert(calls =~= seq![set] + turns);
        if turns.len() > 0 && still_waiting(turns.drop_last()) && turns.last() == (
        PortCall::DeadlinePassed { passed: true }) {
            lemma_phase_of_turns(opts, n, turns.drop_last());
            lemma_phase_of_one_more(opts, looking, turns.drop_last(), turns.last());
            assert(turns.drop_last().push(turns.last()) =~= turns);
        } else if turns.len() > 0 && ended_by_read(turns, turns.last()) && turns.last() is Read
            && turns.last()->limit == ANSWER_BUFFER {
            lemma_phase_of_ended_turns(opts, n, turns, turns.last());
        } else {
            lemma_phase_of_turns(opts, n, turns);
        }
        lemma_phase_of_both(opts, from, seq![set], turns);
    }
}

proof fn lemma_phase_of_last_attempt(
    opts: ResetOptions,
    n: nat,
    calls: Seq<PortCall>,
    result: Result<ResetOutcome, IoError>,
)
    requires
        n < attempt_limit(opts),
        ends_reset(opts, n, calls, result),
    ensures
        asks_in_turn(opts, ResetPhase::Pulsing { n, k: 0 }, calls),
        phase_after(opts, ResetPhase::Pulsing { n, k: 0 }, calls) == ResetPhase::Ended(result),
{
    let from = ResetPhase::Pulsing { n, k: 0 };
    let pulse = pulse_calls(opts.pulse);
    let wait = calls.skip(pulse.len() as int);
    lemma_phase_of_pulse(opts, n, 5);
    assert(pulse.take(5) =~= pulse);
    match result {
        Ok(outcome) => {
            assert(calls =~= pulse + wait);
            lemma_phase_of_wait(opts, n, wait, outcome.bytes_seen, arbitrary());
            lemma_phase_of_both(opts, from, pulse, wait);
        },
        Err(e) => {
            if stopped_at_failure(pulse, calls, e) {
                lemma_phase_of_failed_pulse(opts, n, calls, e);
            } else {
                assert(calls =~= pulse + wait);
                lemma_phase_of_wait(opts, n, wait, 0, e);
                lemma_phase_of_both(opts, from, pulse, wait);
            }
        },
    }
}

proof fn lemma_phase_of_unanswered_attempt(opts: ResetOptions, n: nat, calls: Seq<PortCall>)
    requires
        is_unanswered_attempt(opts, calls),
    ensures
        asks_in_turn(opts, ResetPhase::Pulsing { n, k: 0 }, calls),
        phase_after(opts, ResetPhase::Pulsing { n, k: 0 }, calls) == unanswered(opts, n),
{
    let pulse = pulse_calls(opts.pulse);
    let wait = calls.skip(pulse.len() as int);
    assert(calls =~= pulse + wait);
    lemma_phase_of_pulse(opts, n, 5);
    assert(pulse.take(5) =~= pulse);
    lemma_phase_of_wait(opts, n, wait, 0, arbitrary());
    lemma_phase_of_both(opts, ResetPhase::Pulsing { n, k: 0 }, pulse, wait);
}

proof fn lemma_phase_of_unanswered(opts: ResetOptions, calls: Seq<PortCall>, n: nat)
    requires
        are_unanswered_attempts(opts, calls, n),
        n < attempt_limit(opts),
    ensures
        asks_in_turn(opts, first_phase(opts), calls),
        phase_after(opts, first_phase(opts), calls) == (ResetPhase::Pulsing { n, k: 0 }),
    decreases n,
{
    if n > 0 {
        let m = (n - 1) as nat;
        let k = choose|k: int|
            0 <= k <= calls.len() && are_unanswered_attempts(
                opts,
                #[trigger] calls.take(k),
                (n - 1) as nat,
            ) && is_unanswered_attempt(opts, calls.skip(k));
        assert(calls =~= calls.take(k) + calls.skip(k));
        lemma_phase_of_unanswered(opts, calls.take(k), m);
        lemma_phase_of_unanswered_attempt(opts, m, calls.skip(k));
        lemma_phase_of_both(opts, first_phase(opts), calls.take(k), calls.skip(k));
    }
}

/// Where a reset stands at any of its calls: it asks what it has to, and the phase before
/// leads there.
proof fn lemma_phase_at(opts: ResetOptions, calls: Seq<PortCall>, i: int)
    requires
        asks_in_turn(opts, first_phase(opts), calls),
        0 <= i <= calls.len(),
    ensures
        ({
            let from = first_phase(opts);
            let phase = phase_after(opts, from, calls.take(i));
            &&& i == 0 ==> phase == from
            &&& i > 0 ==> {
                let before = phase_after(opts, from, calls.take(i - 1));
                &&& phase == next_phase(opts, before, calls[i - 1])
                &&& asked_in(opts, before) == Some(question(calls[i - 1]))
            }
            &&& i < calls.len() ==> asked_in(opts, phase) == Some(question(calls[i]))
            &&& phase matches ResetPhase::Pulsing { k, .. } ==> 0 <= k < 5
            &&& phase matches ResetPhase::Looking { empty, .. } ==> 2 * empty + 1 <= i
            &&& phase matches ResetPhase::Reading { empty, .. } ==> 2 * empty + 2 <= i
        }),
    decreases i,
{
    let from = first_phase(opts);
    if i > 0 {
        lemma_phase_at(opts, calls, i - 1);
        lemma_asks_in_turn_until(opts, from, calls, i - 1);
        assert(calls.take(i).drop_last() =~= calls.take(i - 1));
        assert(calls.take(i).last() == calls[i - 1]);
    }
    if i < calls.len() {
        lemma_asks_in_turn_until(opts, from, calls, i);
    }
}

/// The calls of a reset that led to a place in the pulse are those of the pulse up to there.
proof fn lemma_pulse_so_far(opts: ResetOptions, calls: Seq<PortCall>, i: int)
    requires
        asks_in_turn(opts, first_phase(opts), calls),
        0 <= i <= calls.len(),
    ensures
        phase_after(opts, first_phase(opts), calls.take(i)) matches ResetPhase::Pulsing { k, .. }
            ==> k <= i && forall|j: int|
            0 <= j < k ==> #[trigger] calls[i - k + j] == pulse_calls(opts.pulse)[j],
        phase_after(opts, first_phase(opts), calls.take(i)) is Arming ==> 5 <= i && forall|j: int|
            0 <= j < 5 ==> #[trigger] calls[i - 5 + j] == pulse_calls(opts.pulse)[j],
    decreases i,
{
    lemma_phase_at(opts, calls, i);
    if i > 0 {
        lemma_phase_at(opts, calls, i - 1);
        lemma_pulse_so_far(opts, calls, i - 1);
        let phase = phase_after(opts, first_phase(opts), calls.take(i));
        let before = phase_after(opts, first_phase(opts), calls.take(i - 1));
        let pulse = pulse_calls(opts.pulse);
        if phase is Arming {
            assert forall|j: int| 0 <= j < 5 implies #[trigger] calls[i - 5 + j] == pulse[j] by {
                if j < 4 {
                    assert(calls[(i - 1) - 4 + j] == pulse[j]);
                }
            }
        } else if phase is Pulsing && phase->Pulsing_k > 0 {
            let k = phase->Pulsing_k;
            assert forall|j: int| 0 <= j < k implies #[trigger] calls[i - k + j] == pulse[j] by {
                if j < k - 1 {
                    assert(calls[(i - 1) - (k - 1) + j] == pulse[j]);
                }
            }
        }
    }
}

/// The board is held for the pulse: every call that lets RTS go comes right after a pause of
/// the pulse's width, and RTS had been asserted, and DTR cleared, right before that pause.
/// Whenever RTS was asserted, that pause and the release follow, unless the port fails first.
pub proof fn board_is_held_for_the_pulse(
    opts: ResetOptions,
    calls: Seq<PortCall>,
    result: Result<ResetOutcome, IoError>,
    i: int,
)
    requires
        is_reset(opts, calls, result),
        0 <= i < calls.len(),
    ensures
        calls[i] matches PortCall::RequestToSend { level, .. } && !level ==> {
            &&& i >= 3
            &&& calls[i - 3] == (PortCall::RequestToSend { level: true, failure: None })
            &&& calls[i - 2] == (PortCall::DataTerminalReady { level: false, failure: None })
            &&& calls[i - 1] == (PortCall::Pause { span: opts.pulse })
        },
        calls[i] == (PortCall::RequestToSend { level: true, failure: None }) && result is Ok ==> {
            &&& i + 4 < calls.len()
            &&& calls[i + 1] == (PortCall::DataTerminalReady { level: false, failure: None })
            &&& calls[i + 2] == (PortCall::Pause { span: opts.pulse })
            &&& calls[i + 3] == (PortCall::RequestToSend { level: false, failure: None })
            &&& calls[i + 4] == (PortCall::DataTerminalReady { level: false, failure: None })
        },
        calls[i] matches PortCall::Pause { span } ==> {
            &&& span == opts.pulse
            &&& i >= 2
            &&& calls[i - 2] == (PortCall::RequestToSend { level: true, failure: None })
            &&& calls[i - 1] == (PortCall::DataTerminalReady { level: false, failure: None })
        },
{
    reset_is_settled_by_the_answers(opts, calls, result);
    lemma_release_follows_hold(opts, calls, i);
    lemma_hold_is_followed_through(opts, calls, result, i);
}

proof fn lemma_release_follows_hold(opts: ResetOptions, calls: Seq<PortCall>, i: int)
    requires
        asks_in_turn(opts, first_phase(opts), calls),
        0 <= i < calls.len(),
    ensures
        calls[i] matches PortCall::RequestToSend { level, .. } && !level ==> {
            &&& i >= 3
            &&& calls[i - 3] == (PortCall::RequestToSend { level: true, failure: None })
            &&& calls[i - 2] == (PortCall::DataTerminalReady { level: false, failure: None })
            &&& calls[i - 1] == (PortCall::Pause { span: opts.pulse })
        },
        calls[i] matches PortCall::Pause { span } ==> {
            &&& span == opts.pulse
            &&& i >= 2
            &&& calls[i - 2] == (PortCall::RequestToSend { level: true, failure: None })
            &&& calls[i - 1] == (PortCall::DataTerminalReady { level: false, failure: None })
        },
{
    let pulse = pulse_calls(opts.pulse);
    lemma_phase_at(opts, calls, i);
    lemma_pulse_so_far(opts, calls, i);
    let phase = phase_after(opts, first_phase(opts), calls.take(i));
    if phase is Pulsing {
        let k = phase->Pulsing_k;
        assert(question(calls[i]) == pulse[k]);
        if k == 3 {
            assert(calls[i - k + 0] == pulse[0]);
            assert(calls[i - k + 1] == pulse[1]);
            assert(calls[i - k + 2] == pulse[2]);
        }
        if k == 2 {
            assert(calls[i - k + 0] == pulse[0]);
            assert(calls[i - k + 1] == pulse[1]);
        }
    }
}

proof fn lemma_hold_is_followed_through(
    opts: ResetOptions,
    calls: Seq<PortCall>,
    result: Result<ResetOutcome, IoError>,
    i: int,
)
    requires
        asks_in_turn(opts, first_phase(opts), calls),
        phase_after(opts, first_phase(opts), calls) == ResetPhase::Ended(result),
        0 <= i < calls.len(),
    ensures
        calls[i] == (PortCall::RequestToSend { level: true, failure: None }) && result is Ok ==> {
            &&& i + 4 < calls.len()
            &&& calls[i + 1] == (PortCall::DataTerminalReady { level: false, failure: None })
            &&& calls[i + 2] == (PortCall::Pause { span: opts.pulse })
            &&& calls[i + 3] == (PortCall::RequestToSend { level: false, failure: None })
            &&& calls[i + 4] == (PortCall::DataTerminalReady { level: false, failure: None })
        },
{
    if calls[i] == (PortCall::RequestToSend { level: true, failure: None }) && result is Ok {
        lemma_phase_at(opts, calls, i);
        lemma_pulse_goes_on(opts, calls, result, i + 1);
        lemma_pulse_goes_on(opts, calls, result, i + 2);
        lemma_pulse_goes_on(opts, calls, result, i + 3);
        lemma_pulse_goes_on(opts, calls, result, i + 4);
        lemma_pulse_goes_on(opts, calls, result, i + 5);
    }
}

/// A pulse that a reset has begun goes on to its end, unless the port fails.
proof fn lemma_pulse_goes_on(
    opts: ResetOptions,
    calls: Seq<PortCall>,
    result: Result<ResetOutcome, IoError>,
    i: int,
)
    requires
        asks_in_turn(opts, first_phase(opts), calls),
        phase_after(opts, first_phase(opts), calls) == ResetPhase::Ended(result),
        result is Ok,
        0 < i <= calls.len(),
        phase_after(opts, first_phase(opts), calls.take(i - 1)) is Pulsing,
    ensures
        ({
            let phase = phase_after(opts, first_phase(opts), calls.take(i - 1));
            let next = phase_after(opts, first_phase(opts), calls.take(i));
            &&& i < calls.len()
            &&& calls[i - 1] == pulse_calls(opts.pulse)[phase->Pulsing_k]
            &&& phase->Pulsing_k < 4 ==> next == (ResetPhase::Pulsing {
                n: phase->Pulsing_n,
                k: phase->Pulsing_k + 1,
            })
        }),
{
    lemma_phase_at(opts, calls, i - 1);
    lemma_phase_at(opts, calls, i);
    let from = first_phase(opts);
    let next = phase_after(opts, from, calls.take(i));
    assert(calls.take(calls.len() as int) =~= calls);
    if next is Ended {
        lemma_stays_ended(opts, calls, i);
    }
}

/// Once a reset is over, no call follows.
proof fn lemma_stays_ended(opts: ResetOptions, calls: Seq<PortCall>, i: int)
    requires
        asks_in_turn(opts, first_phase(opts), calls),
        0 <= i <= calls.len(),
        phase_after(opts, first_phase(opts), calls.take(i)) is Ended,
    ensures
        i == calls.len(),
{
    lemma_phase_at(opts, calls, i);
}

/// Every call of a reset has its place: an attempt takes hold of the board first, at the start
/// or once the wait before came to nothing; DTR is only ever cleared, right after a call on
/// RTS; the deadline is the timeout's and is set right after the release; it is looked at
/// first of all and again after each read that brought nothing; and a read comes right after
/// a look that found time left.
pub proof fn calls_of_a_reset_have_their_place(
    opts: ResetOptions,
    calls: Seq<PortCall>,
    result: Result<ResetOutcome, IoError>,
    i: int,
)
    requires
        is_reset(opts, calls, result),
        0 <= i < calls.len(),
    ensures
        i == 0 ==> (calls[i] matches PortCall::RequestToSend { level, .. } && level),
        i > 0 ==> match calls[i] {
            PortCall::RequestToSend { level, .. } => level ==> match calls[i - 1] {
                PortCall::DeadlinePassed { passed } => passed,
                PortCall::Read { result: Ok(got), .. } => got == 0,
                PortCall::Read { result: Err(e), .. } => e.kind == IoErrorKind::TimedOut,
                _ => false,
            },
            PortCall::DataTerminalReady { level, .. } => {
                &&& !level
                &&& calls[i - 1] matches PortCall::RequestToSend { failure, .. }
                &&& failure is None
            },
            PortCall::Pause { .. } => true,
            PortCall::SetDeadline { span } => {
                &&& span == opts.confirm_timeout
                &&& i >= 2
                &&& calls[i - 2] == (PortCall::RequestToSend { level: false, failure: None })
                &&& calls[i - 1] == (PortCall::DataTerminalReady { level: false, failure: None })
            },
            PortCall::DeadlinePassed { .. } => match calls[i - 1] {
                PortCall::SetDeadline { .. } => true,
                PortCall::Read { result: Ok(got), .. } => got == 0,
                _ => false,
            },
            PortCall::Read { limit, .. } => {
                &&& limit == 256
                &&& calls[i - 1] == (PortCall::DeadlinePassed { passed: false })
            },
        },
{
    reset_is_settled_by_the_answers(opts, calls, result);
    lemma_phase_at(opts, calls, i);
    lemma_pulse_so_far(opts, calls, i);
    let phase = phase_after(opts, first_phase(opts), calls.take(i));
    if phase is Arming {
        assert(calls[i - 5 + 3] == pulse_calls(opts.pulse)[3]);
        assert(calls[i - 5 + 4] == pulse_calls(opts.pulse)[4]);
    }
    if i > 0 {
        lemma_phase_at(opts, calls, i - 1);
    }
}

/// What comes back decides how a reset goes on. A failure of the port ends it with that
/// failure, and bytes end it with a confirmation that counts them; nothing is called after
/// either. After anything else it goes on, but for a wait that came to nothing when no attempt
/// is left: that ends it unconfirmed. A read that brings nothing does not end a wait: the
/// deadline is looked at again, as often as a machine can count.
pub proof fn answers_decide_how_a_reset_goes_on(
    opts: ResetOptions,
    calls: Seq<PortCall>,
    result: Result<ResetOutcome, IoError>,
    i: int,
)
    requires
        is_reset(opts, calls, result),
        0 <= i < calls.len(),
        calls.len() <= u64::MAX,
    ensures
        ({
            let last = i == calls.len() - 1;
            let spent = last && (result matches Ok(outcome) && !outcome.confirmed
                && outcome.attempts == opts.max_retries && outcome.bytes_seen == 0);
            let again = !last && (calls[i + 1] matches PortCall::RequestToSend { level, .. }
                && level);
            match calls[i] {
                PortCall::RequestToSend { failure: Some(e), .. } => last && result
                    == Err::<ResetOutcome, IoError>(e),
                PortCall::DataTerminalReady { failure: Some(e), .. } => last && result
                    == Err::<ResetOutcome, IoError>(e),
                PortCall::DeadlinePassed { passed } => if passed {
                    spent || again
                } else {
                    !last && calls[i + 1] is Read
                },
                PortCall::Read { result: Ok(got), .. } => if got > 0 {
                    last && (result matches Ok(outcome) && outcome.confirmed
                        && outcome.bytes_seen == got)
                } else {
                    !last && calls[i + 1] is DeadlinePassed
                },
                PortCall::Read { result: Err(e), .. } => if e.kind == IoErrorKind::TimedOut {
                    spent || again
                } else {
                    last && result == Err::<ResetOutcome, IoError>(e)
                },
                _ => !last,
            }
        }),
{
    reset_is_settled_by_the_answers(opts, calls, result);
    lemma_answers_decide(opts, calls, result, i);
}

proof fn lemma_answers_decide(
    opts: ResetOptions,
    calls: Seq<PortCall>,
    result: Result<ResetOutcome, IoError>,
    i: int,
)
    requires
        asks_in_turn(opts, first_phase(opts), calls),
        phase_after(opts, first_phase(opts), calls) == ResetPhase::Ended(result),
        0 <= i < calls.len(),
        calls.len() <= u64::MAX,
    ensures
        ({
            let last = i == calls.len() - 1;
            let spent = last && (result matches Ok(outcome) && !outcome.confirmed
                && outcome.attempts == opts.max_retries && outcome.bytes_seen == 0);
            let again = !last && (calls[i + 1] matches PortCall::RequestToSend { level, .. }
                && level);
            match calls[i] {
                PortCall::RequestToSend { failure: Some(e), .. } => last && result
                    == Err::<ResetOutcome, IoError>(e),
                PortCall::DataTerminalReady { failure: Some(e), .. } => last && result
                    == Err::<ResetOutcome, IoError>(e),
                PortCall::DeadlinePassed { passed } => if passed {
                    spent || again
                } else {
                    !last && calls[i + 1] is Read
                },
                PortCall::Read { result: Ok(got), .. } => if got > 0 {
                    last && (result matches Ok(outcome) && outcome.confirmed
                        && outcome.bytes_seen == got)
                } else {
                    !last && calls[i + 1] is DeadlinePassed
                },
                PortCall::Read { result: Err(e), .. } => if e.kind == IoErrorKind::TimedOut {
                    spent || again
                } else {
                    last && result == Err::<ResetOutcome, IoError>(e)
                },
                _ => !last,
            }
        }),
{
    lemma_phase_at(opts, calls, i);
    lemma_phase_at(opts, calls, i + 1);
    assert(calls.take(calls.len() as int) =~= calls);
    let next = phase_after(opts, first_phase(opts), calls.take(i + 1));
    if next is Ended {
        lemma_stays_ended(opts, calls, i + 1);
    }
}

/// A reset that is allowed no attempt touches nothing and reports that nothing happened.
pub proof fn no_attempt_allowed_means_none_made(
    opts: ResetOptions,
    calls: Seq<PortCall>,
    result: Result<ResetOutcome, IoError>,
)
    requires
        is_reset(opts, calls, result),
    ensures
        opts.max_retries == 0 <==> calls.len() == 0,
        opts.max_retries == 0 ==> result == Ok::<ResetOutcome, IoError>(
            ResetOutcome { confirmed: false, attempts: 0, bytes_seen: 0 },
        ),
        result matches Ok(outcome) ==> outcome.attempts <= opts.max_retries,
{
    reset_is_settled_by_the_answers(opts, calls, result);
}

/// Powering off asserts RTS and then clears DTR, and does nothing else. Where a call fails,
/// nothing comes after it, and its failure is what is reported.
pub proof fn powering_off_is_two_calls(calls: Seq<PortCall>, result: Result<(), IoError>)
    requires
        carried_out(power_off_calls(), calls, result),
    ensures
        match result {
            Ok(_) => {
                &&& calls.len() == 2
                &&& calls[0] == (PortCall::RequestToSend { level: true, failure: None })
                &&& calls[1] == (PortCall::DataTerminalReady { level: false, failure: None })
            },
            Err(e) => {
                ||| calls.len() == 1 && calls[0] == (PortCall::RequestToSend {
                    level: true,
                    failure: Some(e),
                })
                ||| calls.len() == 2 && calls[0] == (PortCall::RequestToSend {
                    level: true,
                    failure: None,
                }) && calls[1] == (PortCall::DataTerminalReady { level: false, failure: Some(e) })
            },
        },
{
    if result is Err && calls.len() == 2 {
        assert(calls.drop_last()[0] == power_off_calls().take(1)[0]);
    }
}

/// A result's failure is the error it holds, if it holds one.
pub proof fn a_failure_is_the_error(e: IoError)
    ensures
        failure_of(Ok(())) is None,
        failure_of(Err(e)) == Some(e),
{
}

/// What kind of failure the serial driver reports when it opens a port.
#[derive(Debug, Clone, Copy, PartialEq, Eq, Structural)]
pub enum OpenErrorKind {
    NoDevice,
    InvalidInput,
    Unknown,
    Io,
}

/// A failure to open a port, as the serial driver reports it.
#[derive(Debug)]
pub struct OpenError {
    pub kind: OpenErrorKind,
    pub message: String,
}

/// A failure to open a port, put so that the user can act on it.
#[derive(Debug)]
pub struct ExplainedError {
    /// What was being done.
    pub context: String,
    /// What went wrong, and what to do about it.
    pub cause: String,
}

impl ExplainedError {
    /// The text that shows the failure: what was being done, what went wrong, and what to do
    /// about it.
    pub fn shown(&self) -> (text: String)
        ensures
            text@ == self.context@ + ": "@ + self.cause@,
    {
        joined(joined(self.context.as_str(), ": ").as_str(), self.cause.as_str())
    }
}

/// The advice for a failure to open `path`, told by its message: `lower` is the message
/// in lower case.
pub open spec fn open_advice(
    path: Seq<char>,
    kind: OpenErrorKind,
    message: Seq<char>,
    lower: Seq<char>,
) -> Seq<char> {
    if has_text(lower, "permission denied"@) {
        "failed to open "@ + path
            + ": permission denied — is your user in the `dialout` group? (`sudo usermod -aG dialout $USER`, then log out/in)"@
    } else if kind == OpenErrorKind::NoDevice || has_text(lower, "no such file"@)
        || has_text(lower, "not found"@) {
        "failed to open "@ + path
            + ": no such device — is the board plugged in? (`ls /dev/ttyUSB*` / `dmesg | tail`)"@
    } else if has_text(lower, "busy"@) || has_text(
        lower,
        "resource temporarily unavailable"@,
    ) {
        path
            + " is busy — is another esp-monitor, screen, minicom, or IDE serial monitor already attached? (`lsof "@
            + path + "`)"@
    } else {
        "failed to open "@ + path + ": "@ + message
    }
}

/// The text that `str::to_lowercase` makes of `text`.
pub uninterp spec fn lowercase(text: Seq<char>) -> Seq<char>;

/// `str::to_lowercase`: the lowercase equivalent of `text`, under the name `lowercase`.
#[verifier::external_body]
fn to_lower(text: &str) -> (lower: String)
    ensures
        lower@ == lowercase(text@),
{
    text.to_lowercase()
}

/// Puts a failure to open `path` so that the user can act on it, for the common failure
/// modes (permission denied, missing device, port busy).
pub fn explain_open_error(path: &str, e: &OpenError) -> (explained: ExplainedError)
    ensures
        explained.context@ == "opening serial port"@,
        explained.cause@ == open_advice(path@, e.kind, e.message@, lowercase(e.message@)),
{
    let lower = to_lower(e.message.as_str());
    let cause = advise(path, e.kind, e.message.as_str(), lower.as_str());
    ExplainedError { context: "opening serial port".to_string(), cause }
}

/// The advice for a failure to open `path` whose message is `message`, and `lower` in
/// lower case.
pub fn advise(path: &str, kind: OpenErrorKind, message: &str, lower: &str) -> (advice: String)
    ensures
        advice@ == open_advice(path@, kind, message@, lower@),
{
    let mut advice = String::new();
    if contains_text(lower, "permission denied") {
        advice.append("failed to open ");
        advice.append(path);
        advice.append(
            ": permission denied — is your user in the `dialout` group? (`sudo usermod -aG dialout $USER`, then log out/in)",
        );
        assert(advice@ =~= open_advice(path@, kind, message@, lower@));
    } else if kind == OpenErrorKind::NoDevice || contains_text(lower, "no such file")
        || contains_text(lower, "not found") {
        advice.append("failed to open ");
        advice.append(path);
        advice.append(
            ": no such device — is the board plugged in? (`ls /dev/ttyUSB*` / `dmesg | tail`)",
        );
        assert(advice@ =~= open_advice(path@, kind, message@, lower@));
    } else if contains_text(lower, "busy") || contains_text(
        lower,
        "resource temporarily unavailable",
    ) {
        advice.append(path);
        advice.append(
            " is busy — is another esp-monitor, screen, minicom, or IDE serial monitor already attached? (`lsof ",
        );
        advice.append(path);
        advice.append("`)");
        assert(advice@ =~= open_advice(path@, kind, message@, lower@));
    } else {
        advice.append("failed to open ");
        advice.append(path);
        advice.append(": ");
        advice.append(message);
        assert(advice@ =~= open_advice(path@, kind, message@, lower@));
    }
    advice
}

/// The text that a failure to open `path` is shown as: what was being done, and the advice.
pub open spec fn shown_failure(
    path: Seq<char>,
    kind: OpenErrorKind,
    message: Seq<char>,
    lower: Seq<char>,
) -> Seq<char> {
    "opening serial port"@ + ": "@ + open_advice(path, kind, message, lower)
}

/// A failure to open a port is shown so that the user can act on it: the text names the port,
/// and tells a missing permission from a missing device, a busy port, and a failure that only
/// the driver's own message tells of.
pub proof fn shown_failure_can_be_acted_on(
    path: Seq<char>,
    kind: OpenErrorKind,
    message: Seq<char>,
    lower: Seq<char>,
)
    ensures
        ({
            let shown = shown_failure(path, kind, message, lower);
            let denied = has_text(lower, "permission denied"@);
            let missing = kind == OpenErrorKind::NoDevice || has_text(lower, "no such file"@)
                || has_text(lower, "not found"@);
            let busy = has_text(lower, "busy"@) || has_text(
                lower,
                "resource temporarily unavailable"@,
            );
            &&& has_text(shown, path)
            &&& denied ==> has_text(shown, "permission denied"@) && has_text(
                shown,
                "`dialout` group"@,
            )
            &&& !denied && missing ==> has_text(shown, "no such device"@)
            &&& !denied && !missing && busy ==> has_text(shown, "is busy"@)
            &&& !denied && !missing && !busy ==> has_text(shown, message)
        }),
{
    let start = "opening serial port"@ + ": "@;
    let shown = shown_failure(path, kind, message, lower);
    let opening = start + "failed to open "@;
    if has_text(lower, "permission denied"@) {
        let rest =
            ": permission denied — is your user in the `dialout` group? (`sudo usermod -aG dialout $USER`, then log out/in)"@;
        assert(shown =~= opening + path + rest);
        lemma_text_between(opening, path, rest);
        reveal_strlit(
            ": permission denied — is your user in the `dialout` group? (`sudo usermod -aG dialout $USER`, then log out/in)",
        );
        reveal_strlit("permission denied");
        reveal_strlit("`dialout` group");
        assert(rest.subrange(2, 19) =~= "permission denied"@);
        assert(rest.subrange(42, 57) =~= "`dialout` group"@);
        lemma_text_within(opening + path, rest, "permission denied"@, 2);
        lemma_text_within(opening + path, rest, "`dialout` group"@, 42);
    } else if kind == OpenErrorKind::NoDevice || has_text(lower, "no such file"@) || has_text(
        lower,
        "not found"@,
    ) {
        let rest =
            ": no such device — is the board plugged in? (`ls /dev/ttyUSB*` / `dmesg | tail`)"@;
        assert(shown =~= opening + path + rest);
        lemma_text_between(opening, path, rest);
        reveal_strlit(
            ": no such device — is the board plugged in? (`ls /dev/ttyUSB*` / `dmesg | tail`)",
        );
        reveal_strlit("no such device");
        assert(rest.subrange(2, 16) =~= "no such device"@);
        lemma_text_within(opening + path, rest, "no such device"@, 2);
    } else if has_text(lower, "busy"@) || has_text(lower, "resource temporarily unavailable"@) {
        let rest =
            " is busy — is another esp-monitor, screen, minicom, or IDE serial monitor already attached? (`lsof "@;
        let end = path + "`)"@;
        assert(shown =~= start + path + (rest + end));
        lemma_text_between(start, path, rest + end);
        reveal_strlit(
            " is busy — is another esp-monitor, screen, minicom, or IDE serial monitor already attached? (`lsof ",
        );
        reveal_strlit("is busy");
        assert((rest + end).subrange(1, 8) =~= "is busy"@);
        lemma_text_within(start + path, rest + end, "is busy"@, 1);
    } else {
        assert(shown =~= opening + path + (": "@ + message));
        lemma_text_between(opening, path, ": "@ + message);
        assert(shown =~= opening + path + ": "@ + message + Seq::empty());
        lemma_text_between(opening + path + ": "@, message, Seq::empty());
    }
}

proof fn lemma_text_between(before: Seq<char>, text: Seq<char>, after: Seq<char>)
    ensures
        has_text(before + text + after, text),
{
    let at = before.len() as int;
    assert((before + text + after).subrange(at, at + text.len()) =~= text);
    assert(occurs_at(before + text + after, text, at));
}

proof fn lemma_text_within(before: Seq<char>, rest: Seq<char>, text: Seq<char>, i: int)
    requires
        occurs_at(rest, text, i),
    ensures
        has_text(before + rest, text),
{
    let at = before.len() + i;
    assert((before + rest).subrange(at, at + text.len()) =~= rest.subrange(i, i + text.len()));
    assert(occurs_at(before + rest, text, at));
}

/// The advice for each failure, word for word: it names the port whole, and the driver's
/// message whole where there is nothing better to say. Case by case, the first that applies
/// wins: a missing permission, a missing device, a busy port, and anything else.
pub proof fn advice_word_for_word(
    path: Seq<char>,
    kind: OpenErrorKind,
    message: Seq<char>,
    lower: Seq<char>,
)
    ensures
        ({
            let advice = open_advice(path, kind, message, lower);
            let denied = has_text(lower, "permission denied"@);
            let missing = kind == OpenErrorKind::NoDevice || has_text(lower, "no such file"@)
                || has_text(lower, "not found"@);
            let busy = has_text(lower, "busy"@) || has_text(
                lower,
                "resource temporarily unavailable"@,
            );
            &&& denied ==> advice == "failed to open "@ + path
                + ": permission denied — is your user in the `dialout` group? (`sudo usermod -aG dialout $USER`, then log out/in)"@
            &&& !denied && missing ==> advice == "failed to open "@ + path
                + ": no such device — is the board plugged in? (`ls /dev/ttyUSB*` / `dmesg | tail`)"@
            &&& !denied && !missing && busy ==> advice == path
                + " is busy — is another esp-monitor, screen, minicom, or IDE serial monitor already attached? (`lsof "@
                + path + "`)"@
            &&& !denied && !missing && !busy ==> advice == "failed to open "@ + path + ": "@
                + message
        }),
{
}

} // verus!
