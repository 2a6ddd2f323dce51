use kannader::misc::{Email, Hostname, Localpart};
use kannader::queue::{Instant, ScheduleInfo};
use kannader::server::{mail_accepted, mail_destinations};

fn addr(local: &str, host: &str) -> Email<String> {
    Email {
        localpart: Localpart::Ascii { raw: local.to_string() },
        hostname: Some(Hostname::AsciiDomain { raw: host.to_string() }),
    }
}

#[test]
fn mail_is_accepted_only_when_finished_and_committed() {
    assert!(mail_accepted(true, true));
    assert!(!mail_accepted(true, false));
    assert!(!mail_accepted(false, true));
    assert!(!mail_accepted(false, false));
}

#[test]
fn mail_destinations_one_per_recipient() {
    let now = Instant { secs: 1_600_000_000, nanos: 5 };
    let from = Some(addr("alice", "a.example"));
    let to = vec![addr("bob", "b.example"), addr("carol", "c.example")];
    let v = mail_destinations(&from, &to, now);
    assert_eq!(v.len(), 2);
    for (k, (f, t, sched)) in v.iter().enumerate() {
        assert_eq!(f, &from);
        assert_eq!(t, &to[k]);
        assert_eq!(*sched, ScheduleInfo { at: now, last_attempt: None });
    }
    let none = mail_destinations(&None, &Vec::new(), now);
    assert!(none.is_empty());
}
