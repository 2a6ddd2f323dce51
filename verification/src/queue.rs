//! The mail queue: identifiers, outcomes of sending, and the decisions
//! that take a mail from the queue to its destination or its removal.

use vstd::prelude::*;
use vstd::utf8::encode_utf8;
use std::sync::Arc;
use crate::text::Text;

verus! {

/// The identifier of a mail in the queue.
#[derive(Clone, Debug)]
pub struct QueueId(pub Arc<String>);

impl QueueId {
    /// The identifier spelled `s`.
    pub fn new<S: Text>(s: S) -> (r: QueueId)
        ensures
            encode_utf8((*r.0)@) == s.text_bytes(),
    {
        QueueId(Arc::new(s.text_to_string()))
    }
}

/// A mail whose sending is over, waiting to be cleaned up from the queue.
pub trait PendingCleanupMail {
    fn id(&self) -> QueueId;
}

/// How sending a mail failed, from the queue's point of view.
#[derive(Clone, Copy, Debug, PartialEq, Eq, Structural)]
pub enum TransportFailure {
    Local,
    NetworkTransient,
    MailTransient,
    MailboxTransient,
    MailSystemTransient,
    MailPermanent,
    MailboxPermanent,
    MailSystemPermanent,
}

/// An instant: seconds and nanoseconds since the Unix epoch.
#[derive(Clone, Copy, Debug, PartialEq, Eq)]
pub struct Instant {
    pub secs: i64,
    pub nanos: u32,
}

/// A length of time: seconds and nanoseconds.
#[derive(Clone, Copy, Debug, PartialEq, Eq)]
pub struct Interval {
    pub secs: u64,
    pub nanos: u32,
}

/// When a mail is to be tried next, and when it was tried last.
#[derive(Clone, Copy, Debug, PartialEq, Eq)]
pub struct ScheduleInfo {
    pub at: Instant,
    pub last_attempt: Option<Instant>,
}

/// An instant in nanoseconds since the epoch.
pub open spec fn instant_nanos(t: Instant) -> int {
    t.secs * 1_000_000_000 + t.nanos
}

/// An interval in nanoseconds.
pub open spec fn interval_nanos(d: Interval) -> int {
    d.secs * 1_000_000_000 + d.nanos
}

/// The longest interval a `chrono` time delta holds: `i64::MAX`
/// milliseconds, in nanoseconds.
pub open spec fn max_delta_nanos() -> int {
    9_223_372_036_854_775_807int * 1_000_000int
}

/// The interval used in place of one too long for `chrono`: four hours.
pub open spec fn fallback_interval() -> Interval {
    Interval { secs: 14400, nanos: 0 }
}

/// The interval a retry is scheduled after: the configuration's, unless
/// it is too long to add to an instant.
pub open spec fn retry_interval(d: Interval) -> Interval {
    if interval_nanos(d) <= max_delta_nanos() {
        d
    } else {
        fallback_interval()
    }
}

/// Adding the retry interval after `d` to `t` stays within the instants
/// this model holds.
pub open spec fn schedule_fits(t: Instant, d: Interval) -> bool {
    &&& t.nanos < 1_000_000_000
    &&& d.nanos < 1_000_000_000
    &&& t.secs + retry_interval(d).secs + 1 <= i64::MAX
}

/// `chrono::Duration::from_std` (chrono 0.4): whether the interval fits a
/// `chrono` time delta. Claim, from its source and documentation: it
/// fails exactly when the interval is longer than `TimeDelta::MAX`,
/// `i64::MAX` milliseconds.
#[verifier::external_body]
fn chrono_delta_fits(d: Interval) -> (r: bool)
    requires
        d.nanos < 1_000_000_000,
    ensures
        r == (interval_nanos(d) <= max_delta_nanos()),
{
    chrono::Duration::from_std(std::time::Duration::new(d.secs, d.nanos)).is_ok()
}

/// The schedule of the next attempt, when the attempt at `this_attempt`
/// failed and the configuration asks to try again after `next`: at
/// `this_attempt` plus the interval, with `this_attempt` as the last
/// attempt. An interval too long for `chrono` is replaced by four hours,
/// which the second result reports, to be logged.
pub fn next_schedule(this_attempt: Instant, next: Interval) -> (r: (ScheduleInfo, bool))
    requires
        schedule_fits(this_attempt, next),
    ensures
        r.1 == (interval_nanos(next) > max_delta_nanos()),
        instant_nanos(r.0.at) == instant_nanos(this_attempt) + interval_nanos(retry_interval(next)),
        r.0.at.nanos < 1_000_000_000,
        r.0.last_attempt == Some(this_attempt),
{
    let fits = chrono_delta_fits(next);
    let used = if fits {
        next
    } else {
        Interval { secs: 14400, nanos: 0 }
    };
    assert(used == retry_interval(next));
    let total_nanos: u32 = this_attempt.nanos + used.nanos;
    let (carry, nanos): (i64, u32) = if total_nanos >= 1_000_000_000 {
        (1, total_nanos - 1_000_000_000)
    } else {
        (0, total_nanos)
    };
    let secs: i64 = this_attempt.secs + used.secs as i64 + carry;
    let at = Instant { secs, nanos };
    assert(instant_nanos(at) == instant_nanos(this_attempt) + interval_nanos(used)) by (nonlinear_arith)
        requires
            at.secs == this_attempt.secs + used.secs + carry,
            at.nanos + carry * 1_000_000_000 == this_attempt.nanos + used.nanos,
    ;
    (ScheduleInfo { at, last_attempt: Some(this_attempt) }, !fits)
}

/// The instant `d` after `t` by the retry interval, in normal form.
pub open spec fn next_attempt(t: Instant, d: Interval) -> Instant {
    let total = t.nanos + retry_interval(d).nanos;
    if total >= 1_000_000_000 {
        Instant { secs: (t.secs + retry_interval(d).secs + 1) as i64, nanos: (total - 1_000_000_000) as u32 }
    } else {
        Instant { secs: (t.secs + retry_interval(d).secs) as i64, nanos: total as u32 }
    }
}

/// The normal form of an instant is unique: `next_schedule` gives
/// `next_attempt`.
proof fn lemma_next_attempt(t: Instant, d: Interval, at: Instant)
    requires
        schedule_fits(t, d),
        at.nanos < 1_000_000_000,
        instant_nanos(at) == instant_nanos(t) + interval_nanos(retry_interval(d)),
    ensures
        at == next_attempt(t, d),
{
    let n = next_attempt(t, d);
    assert(instant_nanos(n) == instant_nanos(t) + interval_nanos(retry_interval(d))) by (nonlinear_arith)
        requires
            t.nanos < 1_000_000_000,
            retry_interval(d).nanos < 1_000_000_000,
            n == next_attempt(t, d),
            t.secs + retry_interval(d).secs + 1 <= i64::MAX,
            t.secs >= i64::MIN,
    {
    }
    assert(at.secs == n.secs && at.nanos == n.nanos) by (nonlinear_arith)
        requires
            at.nanos < 1_000_000_000,
            n.nanos < 1_000_000_000,
            at.secs * 1_000_000_000 + at.nanos == n.secs * 1_000_000_000 + n.nanos,
    ;
}

/// Where a mail of the queue stands: which outcome the queue awaits.
#[derive(Clone, Copy, Debug, PartialEq, Eq, Structural)]
pub enum MailStage {
    /// Waiting for the time of the next attempt.
    Scheduled,
    /// Being moved to in-flight.
    Starting,
    /// Its metadata and contents being read.
    Reading,
    /// Being sent to its destination.
    Sending,
    /// Being marked as sent.
    Finishing,
    /// Being put back in the queue after a failed attempt.
    Cancelling,
    /// Waiting for the configuration to say whether to try again.
    Deciding,
    /// Its next attempt being recorded.
    Rescheduling,
    /// Being taken out of the queue.
    Dropping,
    /// Its remains being removed.
    CleaningUp,
    /// Found in-flight at startup, left to any other sender for a while.
    RecoveryWait,
    /// Found in-flight at startup, being put back in the queue.
    RecoveryCancelling,
    /// A vanishing being logged.
    Logging,
    /// Nothing more to do.
    Over,
}

/// What the queue must do next with a mail. Storage operations are
/// retried until they succeed.
#[derive(Clone, Copy, Debug, PartialEq, Eq)]
pub enum QueueAction {
    /// Wait until the time of the mail's next attempt.
    WaitForSchedule,
    /// Move the mail to in-flight.
    StartSending,
    /// Read the in-flight mail's metadata and contents.
    ReadInflight,
    /// Find the destination, connect to it and send the mail.
    Transport,
    /// Mark the in-flight mail as sent.
    MarkSent,
    /// Put the in-flight mail back in the queue.
    CancelSending,
    /// Ask the configuration when to try again, if ever.
    AskNextInterval,
    /// Record the schedule of the next attempt; log the interval first
    /// when it was too long and four hours were used instead.
    Reschedule { schedule: ScheduleInfo, too_long: Option<Interval> },
    /// Take the mail out of the queue.
    DropMail,
    /// Remove what is left of the mail.
    Cleanup,
    /// Wait long enough for any other sender of an in-flight mail to be done.
    WaitInflightCheck,
    /// Log that the queued mail vanished.
    LogQueuedVanished,
    /// Log that the in-flight mail vanished.
    LogInflightVanished,
    /// Log that the mail vanished before its cleanup.
    LogPendingCleanupVanished,
    /// Stop: the mail is done with.
    Stop,
}

/// What came of the last action.
#[derive(Clone, Copy, Debug, PartialEq, Eq)]
pub enum QueueEvent {
    /// A wait, a read, a reschedule or a log is over.
    Done,
    /// The storage found the mail (`true`) or it had vanished (`false`).
    Found(bool),
    /// What the transport made of the attempt.
    Sent(Result<(), TransportFailure>),
    /// The configuration's answer, asked at the given instant: try again
    /// after the interval, or give up.
    NextInterval(Instant, Option<Interval>),
}

/// Whether the event is the kind of outcome the stage awaits.
pub open spec fn queue_event_fits(stage: MailStage, ev: QueueEvent) -> bool {
    match stage {
        MailStage::Scheduled | MailStage::Reading | MailStage::Rescheduling | MailStage::RecoveryWait
        | MailStage::Logging => ev is Done,
        MailStage::Starting | MailStage::Finishing | MailStage::Cancelling | MailStage::Dropping
        | MailStage::CleaningUp | MailStage::RecoveryCancelling => ev is Found,
        MailStage::Sending => ev is Sent,
        MailStage::Deciding => ev is NextInterval,
        MailStage::Over => false,
    }
}

/// Log a vanishing, then stop.
pub open spec fn vanished(log: QueueAction) -> (MailStage, QueueAction) {
    (MailStage::Logging, log)
}

/// The next stage and action of a mail, from the outcome of the last
/// action. A mail that vanished from the storage is logged and left; a
/// failed attempt puts it back in the queue and asks when to try again;
/// giving up drops it, and a dropped or sent mail is cleaned up.
pub open spec fn queue_next(stage: MailStage, ev: QueueEvent) -> (MailStage, QueueAction) {
    match (stage, ev) {
        (MailStage::Scheduled, _) => (MailStage::Starting, QueueAction::StartSending),
        (MailStage::Starting, QueueEvent::Found(true)) => (MailStage::Reading, QueueAction::ReadInflight),
        (MailStage::Starting, _) => vanished(QueueAction::LogQueuedVanished),
        (MailStage::Reading, _) => (MailStage::Sending, QueueAction::Transport),
        (MailStage::Sending, QueueEvent::Sent(Ok(()))) => (MailStage::Finishing, QueueAction::MarkSent),
        (MailStage::Sending, _) => (MailStage::Cancelling, QueueAction::CancelSending),
        (MailStage::Finishing, QueueEvent::Found(true)) => (MailStage::CleaningUp, QueueAction::Cleanup),
        (MailStage::Finishing, _) => vanished(QueueAction::LogQueuedVanished),
        (MailStage::Cancelling, QueueEvent::Found(true)) => (MailStage::Deciding, QueueAction::AskNextInterval),
        (MailStage::Cancelling, _) => vanished(QueueAction::LogInflightVanished),
        (MailStage::Deciding, QueueEvent::NextInterval(now, Some(d))) => (
            MailStage::Rescheduling,
            QueueAction::Reschedule {
                schedule: ScheduleInfo {
                    at: next_attempt(now, d),
                    last_attempt: Some(now),
                },
                too_long: if interval_nanos(d) > max_delta_nanos() {
                    Some(d)
                } else {
                    None
                },
            },
        ),
        (MailStage::Deciding, _) => (MailStage::Dropping, QueueAction::DropMail),
        (MailStage::Rescheduling, _) => (MailStage::Scheduled, QueueAction::WaitForSchedule),
        (MailStage::Dropping, QueueEvent::Found(true)) => (MailStage::CleaningUp, QueueAction::Cleanup),
        (MailStage::Dropping, _) => vanished(QueueAction::LogQueuedVanished),
        (MailStage::CleaningUp, QueueEvent::Found(true)) => (MailStage::Over, QueueAction::Stop),
        (MailStage::CleaningUp, _) => vanished(QueueAction::LogPendingCleanupVanished),
        (MailStage::RecoveryWait, _) => (MailStage::RecoveryCancelling, QueueAction::CancelSending),
        (MailStage::RecoveryCancelling, QueueEvent::Found(true)) => (MailStage::Scheduled, QueueAction::WaitForSchedule),
        (MailStage::RecoveryCancelling, _) => (MailStage::Over, QueueAction::Stop),
        (MailStage::Logging, _) => (MailStage::Over, QueueAction::Stop),
        (MailStage::Over, _) => (MailStage::Over, QueueAction::Stop),
    }
}

/// A mail just queued, or back in the queue: wait for its time.
pub fn queued_mail_start() -> (r: (MailStage, QueueAction))
    ensures
        r == (MailStage::Scheduled, QueueAction::WaitForSchedule),
{
    (MailStage::Scheduled, QueueAction::WaitForSchedule)
}

/// A mail found in-flight at startup: wait, then take it back.
pub fn inflight_mail_start() -> (r: (MailStage, QueueAction))
    ensures
        r == (MailStage::RecoveryWait, QueueAction::WaitInflightCheck),
{
    (MailStage::RecoveryWait, QueueAction::WaitInflightCheck)
}

/// A mail found waiting for its cleanup at startup: clean it up.
pub fn pending_cleanup_start() -> (r: (MailStage, QueueAction))
    ensures
        r == (MailStage::CleaningUp, QueueAction::Cleanup),
{
    (MailStage::CleaningUp, QueueAction::Cleanup)
}

/// The next step of a mail in the queue.
pub fn queue_step(stage: MailStage, ev: QueueEvent) -> (r: (MailStage, QueueAction))
    requires
        queue_event_fits(stage, ev),
        ev matches QueueEvent::NextInterval(now, Some(d)) ==> schedule_fits(now, d),
    ensures
        r == queue_next(stage, ev),
{
    match stage {
        MailStage::Scheduled => (MailStage::Starting, QueueAction::StartSending),
        MailStage::Starting => match ev {
            QueueEvent::Found(true) => (MailStage::Reading, QueueAction::ReadInflight),
            _ => (MailStage::Logging, QueueAction::LogQueuedVanished),
        },
        MailStage::Reading => (MailStage::Sending, QueueAction::Transport),
        MailStage::Sending => match ev {
            QueueEvent::Sent(Ok(())) => (MailStage::Finishing, QueueAction::MarkSent),
            _ => (MailStage::Cancelling, QueueAction::CancelSending),
        },
        MailStage::Finishing => match ev {
            QueueEvent::Found(true) => (MailStage::CleaningUp, QueueAction::Cleanup),
            _ => (MailStage::Logging, QueueAction::LogQueuedVanished),
        },
        MailStage::Cancelling => match ev {
            QueueEvent::Found(true) => (MailStage::Deciding, QueueAction::AskNextInterval),
            _ => (MailStage::Logging, QueueAction::LogInflightVanished),
        },
        MailStage::Deciding => match ev {
            QueueEvent::NextInterval(now, Some(d)) => {
                let (schedule, too_long) = next_schedule(now, d);
                proof {
                    lemma_next_attempt(now, d, schedule.at);
                }
                let too_long = if too_long {
                    Some(d)
                } else {
                    None
                };
                (MailStage::Rescheduling, QueueAction::Reschedule { schedule, too_long })
            },
            _ => (MailStage::Dropping, QueueAction::DropMail),
        },
        MailStage::Rescheduling => (MailStage::Scheduled, QueueAction::WaitForSchedule),
        MailStage::Dropping => match ev {
            QueueEvent::Found(true) => (MailStage::CleaningUp, QueueAction::Cleanup),
            _ => (MailStage::Logging, QueueAction::LogQueuedVanished),
        },
        MailStage::CleaningUp => match ev {
            QueueEvent::Found(true) => (MailStage::Over, QueueAction::Stop),
            _ => (MailStage::Logging, QueueAction::LogPendingCleanupVanished),
        },
        MailStage::RecoveryWait => (MailStage::RecoveryCancelling, QueueAction::CancelSending),
        MailStage::RecoveryCancelling => match ev {
            QueueEvent::Found(true) => (MailStage::Scheduled, QueueAction::WaitForSchedule),
            _ => (MailStage::Over, QueueAction::Stop),
        },
        MailStage::Logging => (MailStage::Over, QueueAction::Stop),
        MailStage::Over => (MailStage::Over, QueueAction::Stop),
    }
}

/// Whatever the outcomes, a mail that is not over is never left without
/// something to do, and it is over exactly when told to stop.
pub proof fn lemma_queue_stops_only_when_over(stage: MailStage, ev: QueueEvent)
    ensures
        (queue_next(stage, ev).1 == QueueAction::Stop) == (queue_next(stage, ev).0 == MailStage::Over),
{
}

/// A mail is only dropped when the configuration gave up on it, and only
/// cleaned up once it was sent or dropped (or found waiting for it).
pub proof fn lemma_queue_drops_only_on_giving_up(stage: MailStage, ev: QueueEvent)
    requires
        queue_event_fits(stage, ev),
    ensures
        queue_next(stage, ev).1 == QueueAction::DropMail ==> stage == MailStage::Deciding
            && ev matches QueueEvent::NextInterval(_, None),
        queue_next(stage, ev).1 == QueueAction::Cleanup ==> ev == QueueEvent::Found(true) && (stage
            == MailStage::Finishing || stage == MailStage::Dropping),
        queue_next(stage, ev).1 == QueueAction::MarkSent ==> stage == MailStage::Sending && ev matches QueueEvent::Sent(Ok(_)),
{
}

} // verus!
