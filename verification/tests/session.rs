use kannader::client::TransportError;
use kannader::command::{Command, Parameters};
use kannader::misc::{Email, Hostname, Localpart, MaybeUtf8};
use kannader::reply::{EnhancedReplyCode, Reply, ReplyCode};
use kannader::session::{
    after_mx_attempt, mx_candidates, MxLookup, MxNext, connect_start, connect_step, connect_target, destination_host, mx_groups, ConnectTarget, send_start, send_step, ClientAction, ClientEvent, ClientSetup,
    ConnectStage, ReplyWait, SendStage,
};

fn reply(code: &[u8; 3], ecode: Option<&[u8]>, lines: &[&str]) -> Reply<String> {
    Reply {
        code: ReplyCode(*code),
        ecode: ecode.map(|e| EnhancedReplyCode::parse(e).unwrap().1),
        text: lines.iter().map(|l| MaybeUtf8::Ascii(l.to_string())).collect(),
    }
}

fn setup(can: bool, must: bool) -> ClientSetup {
    ClientSetup {
        ehlo_hostname: Hostname::AsciiDomain { raw: "mx.example.org".to_string() },
        can_do_tls: can,
        must_do_tls: must,
    }
}

fn ok() -> ClientEvent {
    ClientEvent::Done(Ok(()))
}

fn replied(r: Reply<String>) -> ClientEvent {
    ClientEvent::Replied(Ok(r))
}

fn is_ehlo(a: &ClientAction) -> bool {
    matches!(a, ClientAction::Send(Command::Ehlo { hostname: Hostname::AsciiDomain { raw } }) if raw == "mx.example.org")
}

#[test]
fn connect_with_starttls() {
    let s = setup(true, false);
    let (st, a) = connect_start();
    assert_eq!(st, ConnectStage::Banner);
    assert!(matches!(a, ClientAction::ReadReply(ReplyWait::Banner)));
    let (st, a) = connect_step(&s, st, replied(reply(b"220", None, &["hi"])));
    assert!(is_ehlo(&a));
    let (st, a) = connect_step(&s, st, ok());
    assert!(matches!(a, ClientAction::ReadReply(ReplyWait::Ehlo)));
    let (st, a) = connect_step(&s, st, replied(reply(b"250", None, &["mx", "STARTTLS"])));
    assert!(matches!(a, ClientAction::SendStarttls));
    let (st, a) = connect_step(&s, st, ok());
    assert!(matches!(a, ClientAction::ReadReply(ReplyWait::Starttls)));
    let (st, a) = connect_step(&s, st, replied(reply(b"220", None, &["go"])));
    assert!(matches!(a, ClientAction::NegotiateTls));
    let (st, a) = connect_step(&s, st, ok());
    assert!(is_ehlo(&a));
    let (st, a) = connect_step(&s, st, ok());
    let (st, a2) = connect_step(&s, st, replied(reply(b"250", None, &["mx", "STARTTLS"])));
    assert!(matches!(a, ClientAction::ReadReply(ReplyWait::Ehlo)));
    assert!(matches!(a2, ClientAction::Finish(Ok(()))));
    assert_eq!(st, ConnectStage::Over);
}

#[test]
fn connect_without_tls() {
    // The server does not offer STARTTLS.
    let s = setup(true, false);
    let (st, _) = connect_start();
    let (st, _) = connect_step(&s, st, replied(reply(b"220", None, &["hi"])));
    let (st, _) = connect_step(&s, st, ok());
    let (_, a) = connect_step(&s, st, replied(reply(b"250", None, &["mx"])));
    assert!(matches!(a, ClientAction::Finish(Ok(()))));
    // TLS is a must.
    let s = setup(true, true);
    let (st, _) = connect_start();
    let (st, _) = connect_step(&s, st, replied(reply(b"220", None, &["hi"])));
    let (st, _) = connect_step(&s, st, ok());
    let (_, a) = connect_step(&s, st, replied(reply(b"250", None, &["mx"])));
    assert!(matches!(a, ClientAction::Finish(Err(TransportError::CannotDoTls))));
    // Offered, but the client cannot do it.
    let s = setup(false, false);
    let (st, _) = connect_start();
    let (st, _) = connect_step(&s, st, replied(reply(b"220", None, &["hi"])));
    let (st, _) = connect_step(&s, st, ok());
    let (_, a) = connect_step(&s, st, replied(reply(b"250", None, &["mx", "starttls"])));
    assert!(matches!(a, ClientAction::Finish(Ok(()))));
    // STARTTLS refused: on without TLS.
    let s = setup(true, false);
    let (_, a) = connect_step(&s, ConnectStage::StarttlsRead, replied(reply(b"454", None, &["no"])));
    assert!(matches!(a, ClientAction::Finish(Ok(()))));
}

#[test]
fn connect_failures() {
    let s = setup(true, false);
    let (_, a) = connect_step(&s, ConnectStage::Banner, replied(reply(b"554", None, &["go away"])));
    assert!(matches!(a, ClientAction::Finish(Err(TransportError::PermanentMail(_)))));
    let (st, a) =
        connect_step(&s, ConnectStage::Banner, ClientEvent::Replied(Err(TransportError::ConnectionAborted)));
    assert_eq!(st, ConnectStage::Over);
    assert!(matches!(a, ClientAction::Finish(Err(TransportError::ConnectionAborted))));
    let (_, a) = connect_step(
        &s,
        ConnectStage::Tls,
        ClientEvent::Done(Err(TransportError::NegotiatingTls("handshake".to_string()))),
    );
    assert!(matches!(a, ClientAction::Finish(Err(TransportError::NegotiatingTls(_)))));
}

#[test]
fn send_a_mail() {
    let from = Email {
        localpart: Localpart::Ascii { raw: "a".to_string() },
        hostname: Some(Hostname::AsciiDomain { raw: "b.org".to_string() }),
    };
    let to = Email { localpart: Localpart::Ascii { raw: "postmaster".to_string() }, hostname: None };
    let (st, a) = send_start(Some(from.clone()));
    assert_eq!(st, SendStage::MailSent);
    match a {
        ClientAction::Send(c) => {
            assert_eq!(c, Command::Mail { path: None, email: Some(from), params: Parameters(vec![]) })
        },
        _ => panic!("expected MAIL"),
    }
    let (st, a) = send_step(&to, st, ok());
    assert!(matches!(a, ClientAction::ReadReply(ReplyWait::Mail)));
    let (st, a) = send_step(&to, st, replied(reply(b"250", None, &["ok"])));
    match a {
        ClientAction::Send(c) => {
            assert_eq!(c, Command::Rcpt { path: None, email: to.clone(), params: Parameters(vec![]) })
        },
        _ => panic!("expected RCPT"),
    }
    let (st, a) = send_step(&to, st, ok());
    assert!(matches!(a, ClientAction::ReadReply(ReplyWait::Rcpt)));
    let (st, a) = send_step(&to, st, replied(reply(b"250", None, &["ok"])));
    assert!(matches!(a, ClientAction::Send(Command::Data)));
    let (st, a) = send_step(&to, st, ok());
    assert!(matches!(a, ClientAction::ReadReply(ReplyWait::DataInit)));
    let (st, a) = send_step(&to, st, replied(reply(b"354", None, &["go"])));
    assert!(matches!(a, ClientAction::SendBody));
    let (st, a) = send_step(&to, st, ok());
    assert!(matches!(a, ClientAction::ReadReply(ReplyWait::DataEnd)));
    let (st, a) = send_step(&to, st, replied(reply(b"250", None, &["queued"])));
    assert!(matches!(a, ClientAction::Finish(Ok(()))));
    assert_eq!(st, SendStage::Over);
}

#[test]
fn send_refusals() {
    let to = Email { localpart: Localpart::Ascii { raw: "x".to_string() }, hostname: None };
    let (st, a) = send_step(&to, SendStage::RcptRead, replied(reply(b"550", Some(b"5.2.1"), &["no"])));
    assert_eq!(st, SendStage::Over);
    assert!(matches!(a, ClientAction::Finish(Err(TransportError::PermanentMailbox(_)))));
    // DATA awaits 354: a 250 there is unexpected.
    let (_, a) = send_step(&to, SendStage::DataRead, replied(reply(b"250", None, &["ok"])));
    assert!(matches!(a, ClientAction::Finish(Err(TransportError::UnexpectedReplyCode(_)))));
    let (_, a) = send_step(&to, SendStage::BodySent, ClientEvent::Done(Err(TransportError::TimedOutSendingData)));
    assert!(matches!(a, ClientAction::Finish(Err(TransportError::TimedOutSendingData))));
}

#[test]
fn mx_records_by_preference() {
    let records: Vec<(u16, String)> = vec![
        (20, "b.example.org".to_string()),
        (10, "a1.example.org".to_string()),
        (30, "c.example.org".to_string()),
        (10, "a2.example.org".to_string()),
        (20, "b2.example.org".to_string()),
    ];
    let groups = mx_groups(&records);
    assert_eq!(
        groups,
        vec![
            (10, vec!["a1.example.org".to_string(), "a2.example.org".to_string()]),
            (20, vec!["b.example.org".to_string(), "b2.example.org".to_string()]),
            (30, vec!["c.example.org".to_string()]),
        ]
    );
    assert!(mx_groups(&vec![]).is_empty());
    assert_eq!(mx_groups(&vec![(65535, "z".to_string()), (0, "y".to_string())]), vec![
        (0, vec!["y".to_string()]),
        (65535, vec!["z".to_string()]),
    ]);
}

#[test]
fn destinations_and_targets() {
    let to = Email { localpart: Localpart::Ascii { raw: "postmaster".to_string() }, hostname: None };
    let h = destination_host(&to);
    assert!(h.deep_equal(&Hostname::AsciiDomain { raw: "localhost".to_string() }));
    let to = Email {
        localpart: Localpart::Ascii { raw: "a".to_string() },
        hostname: Some(Hostname::Utf8Domain { raw: "é.fr".to_string(), punycode: "xn--9ca.fr".to_string() }),
    };
    let h = destination_host(&to);
    match connect_target(&h) {
        ConnectTarget::Mx(n) => assert_eq!(n, "xn--9ca.fr"),
        x => panic!("Unexpected result: {:?}", x),
    }
    match connect_target(&Hostname::Ipv4 { raw: "[1.2.3.4]".to_string(), ip: [1, 2, 3, 4] }) {
        ConnectTarget::Ipv4(ip) => assert_eq!(ip, [1, 2, 3, 4]),
        x => panic!("Unexpected result: {:?}", x),
    }
    match connect_target(&Hostname::AsciiDomain { raw: "example.org".to_string() }) {
        ConnectTarget::Mx(n) => assert_eq!(n, "example.org"),
        x => panic!("Unexpected result: {:?}", x),
    }
}

#[test]
fn mx_candidates_and_attempts() {
    let d = "example.org".to_string();
    match mx_candidates(&d, MxLookup::NoRecords) {
        Ok(g) => assert_eq!(g, vec![(0, vec![d.clone()])]),
        Err(e) => panic!("Unexpected result: {:?}", e),
    }
    match mx_candidates(&d, MxLookup::Failed("timeout".to_string())) {
        Err(TransportError::DnsMx(dom, e)) => {
            assert_eq!(dom, d);
            assert_eq!(e, "timeout");
        },
        x => panic!("Unexpected result: {:?}", x),
    }
    let recs = vec![(20, "b".to_string()), (10, "a".to_string())];
    match mx_candidates(&d, MxLookup::Records(recs)) {
        Ok(g) => assert_eq!(g, vec![(10, vec!["a".to_string()]), (20, vec!["b".to_string()])]),
        Err(e) => panic!("Unexpected result: {:?}", e),
    }
    assert!(matches!(after_mx_attempt(None, Ok(()), true), MxNext::Connected));
    match after_mx_attempt(None, Err(TransportError::ConnectionAborted), true) {
        MxNext::TryNext(TransportError::ConnectionAborted) => {},
        x => panic!("Unexpected result: {:?}", x),
    }
    match after_mx_attempt(Some(TransportError::CannotDoTls), Err(TransportError::ConnectionAborted), false) {
        MxNext::GiveUp(TransportError::CannotDoTls) => {},
        x => panic!("Unexpected result: {:?}", x),
    }
}
