use kannader::queue::QueueAction::{
    AskNextInterval, CancelSending, Cleanup, DropMail, LogInflightVanished, LogPendingCleanupVanished,
    LogQueuedVanished, MarkSent, ReadInflight, StartSending, Stop, Transport,
    WaitForSchedule, WaitInflightCheck,
};
use kannader::queue::{next_schedule, Instant, Interval, ScheduleInfo};
use kannader::queue::{
    inflight_mail_start, pending_cleanup_start, queue_step, queued_mail_start, MailStage,
    QueueAction, QueueEvent, QueueId, TransportFailure,
};

/// Runs a mail through the queue with the given outcomes, and returns the
/// actions taken.
fn run(start: (MailStage, QueueAction), outcomes: &[QueueEvent]) -> Vec<QueueAction> {
    let (mut stage, mut action) = start;
    let mut actions = vec![action];
    for ev in outcomes {
        let (s, a) = queue_step(stage, *ev);
        stage = s;
        action = a;
        actions.push(action);
    }
    assert_eq!(action == QueueAction::Stop, stage == MailStage::Over);
    actions
}

#[test]
fn mail_sent_at_first_attempt() {
    let actions = run(queued_mail_start(), &[
        QueueEvent::Done,
        QueueEvent::Found(true),
        QueueEvent::Done,
        QueueEvent::Sent(Ok(())),
        QueueEvent::Found(true),
        QueueEvent::Found(true),
    ]);
    assert_eq!(actions, vec![
        WaitForSchedule,
        StartSending,
        ReadInflight,
        Transport,
        MarkSent,
        Cleanup,
        Stop
    ]);
}

#[test]
fn mail_retried_then_dropped() {
    let actions = run(queued_mail_start(), &[
        QueueEvent::Done,
        QueueEvent::Found(true),
        QueueEvent::Done,
        QueueEvent::Sent(Err(TransportFailure::NetworkTransient)),
        QueueEvent::Found(true),
        QueueEvent::NextInterval(Instant { secs: 1000, nanos: 0 }, Some(Interval { secs: 60, nanos: 0 })),
        QueueEvent::Done,
        QueueEvent::Done,
        QueueEvent::Found(true),
        QueueEvent::Done,
        QueueEvent::Sent(Err(TransportFailure::MailboxPermanent)),
        QueueEvent::Found(true),
        QueueEvent::NextInterval(Instant { secs: 2000, nanos: 0 }, None),
        QueueEvent::Found(true),
        QueueEvent::Found(true),
    ]);
    assert_eq!(actions, vec![
        WaitForSchedule,
        StartSending,
        ReadInflight,
        Transport,
        CancelSending,
        AskNextInterval,
        QueueAction::Reschedule {
            schedule: ScheduleInfo {
                at: Instant { secs: 1060, nanos: 0 },
                last_attempt: Some(Instant { secs: 1000, nanos: 0 }),
            },
            too_long: None,
        },
        WaitForSchedule,
        StartSending,
        ReadInflight,
        Transport,
        CancelSending,
        AskNextInterval,
        DropMail,
        Cleanup,
        Stop
    ]);
}

#[test]
fn vanished_mails_are_logged() {
    assert_eq!(
        run(queued_mail_start(), &[QueueEvent::Done, QueueEvent::Found(false), QueueEvent::Done]),
        vec![WaitForSchedule, StartSending, LogQueuedVanished, Stop]
    );
    assert_eq!(
        run((MailStage::Cancelling, CancelSending), &[QueueEvent::Found(false), QueueEvent::Done]),
        vec![CancelSending, LogInflightVanished, Stop]
    );
    assert_eq!(
        run(pending_cleanup_start(), &[QueueEvent::Found(false), QueueEvent::Done]),
        vec![Cleanup, LogPendingCleanupVanished, Stop]
    );
}

#[test]
fn inflight_mails_found_at_startup() {
    // Still there after the wait: it goes back to the queue.
    assert_eq!(
        run(inflight_mail_start(), &[QueueEvent::Done, QueueEvent::Found(true), QueueEvent::Done]),
        vec![WaitInflightCheck, CancelSending, WaitForSchedule, StartSending]
    );
    // Gone: another sender had it; nothing is logged.
    assert_eq!(
        run(inflight_mail_start(), &[QueueEvent::Done, QueueEvent::Found(false)]),
        vec![WaitInflightCheck, CancelSending, Stop]
    );
}

#[test]
fn queue_id_from_text() {
    let id = QueueId::new("0123-abcd");
    assert_eq!(id.0.as_str(), "0123-abcd");
}

#[test]
fn retry_schedules() {
    let now = Instant { secs: 1_600_000_000, nanos: 900_000_000 };
    let (s, too_long) = next_schedule(now, Interval { secs: 30, nanos: 200_000_000 });
    assert!(!too_long);
    assert_eq!(s.at, Instant { secs: 1_600_000_031, nanos: 100_000_000 });
    assert_eq!(s.last_attempt, Some(now));
    // Longer than chrono holds: four hours instead, to be logged.
    let (s, too_long) = next_schedule(now, Interval { secs: u64::MAX / 2, nanos: 0 });
    assert!(too_long);
    assert_eq!(s.at, Instant { secs: 1_600_014_400, nanos: 900_000_000 });
    // The longest that fits: i64::MAX milliseconds.
    let max = Interval { secs: 9_223_372_036_854_775, nanos: 807_000_000 };
    let (_, too_long) = next_schedule(Instant { secs: 0, nanos: 0 }, max);
    assert!(!too_long);
    let (_, too_long) = next_schedule(Instant { secs: 0, nanos: 0 }, Interval { secs: max.secs, nanos: 807_000_001 });
    assert!(too_long);
}
