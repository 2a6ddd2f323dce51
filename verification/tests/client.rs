use kannader::client::{
    ehlo_offers_starttls, read_reply_step, verify_reply, ReadReplyStep, TransportError,
    TransportErrorSeverity, MINIMUM_FREE_BUFSPACE,
};
use kannader::misc::MaybeUtf8;
use kannader::queue::{QueueId, TransportFailure};
use kannader::reply::{EnhancedReplyCode, Reply, ReplyCode, ReplyCodeKind};
use kannader::sendable::{QuitCommand, RsetCommand, Sendable};
use kannader::server::{parse_dirs, transport_error_client_to_queue, InvalidDirSyntax};

fn reply(code: &[u8; 3], ecode: Option<&[u8]>, lines: &[&str]) -> Reply<String> {
    Reply {
        code: ReplyCode(*code),
        ecode: ecode.map(|e| EnhancedReplyCode::parse(e).unwrap().1),
        text: lines.iter().map(|l| MaybeUtf8::Ascii(l.to_string())).collect(),
    }
}

#[test]
fn mod_valid_build() {
    let mut v = Vec::new();
    QuitCommand::new().send_to(&mut v).unwrap();
    assert_eq!(v, b"QUIT\r\n");
}

#[test]
fn mod_valid_send_to() {
    let mut v = Vec::new();
    RsetCommand::new().send_to(&mut v).unwrap();
    assert_eq!(v, b"RSET\r\n");
}

#[test]
fn sendable_appends() {
    let mut v = b"x".to_vec();
    Sendable::send_to(&QuitCommand::new(), &mut v).unwrap();
    Sendable::send_to(&RsetCommand::new().take_ownership(), &mut v).unwrap();
    assert_eq!(v, b"xQUIT\r\nRSET\r\n");
}

#[test]
fn verify_reply_verdicts() {
    assert!(verify_reply(reply(b"250", None, &["ok"]), ReplyCodeKind::PositiveCompletion).is_ok());
    assert!(verify_reply(reply(b"354", None, &["go"]), ReplyCodeKind::PositiveIntermediate).is_ok());
    match verify_reply(reply(b"450", Some(b"4.2.1"), &["busy"]), ReplyCodeKind::PositiveCompletion) {
        Err(TransportError::TransientMailbox(r)) => assert_eq!(r.code, ReplyCode(*b"450")),
        x => panic!("Unexpected result: {:?}", x),
    }
    match verify_reply(reply(b"550", Some(b"5.1.1"), &["no"]), ReplyCodeKind::PositiveCompletion) {
        Err(TransportError::PermanentMail(_)) => {},
        x => panic!("Unexpected result: {:?}", x),
    }
    match verify_reply(reply(b"552", Some(b"5.2.2"), &["full"]), ReplyCodeKind::PositiveCompletion) {
        Err(TransportError::PermanentMailbox(_)) => {},
        x => panic!("Unexpected result: {:?}", x),
    }
    match verify_reply(reply(b"452", Some(b"4.3.1"), &["full"]), ReplyCodeKind::PositiveCompletion) {
        Err(TransportError::TransientMailSystem(_)) => {},
        x => panic!("Unexpected result: {:?}", x),
    }
    match verify_reply(reply(b"554", Some(b"5.3.4"), &["big"]), ReplyCodeKind::PositiveCompletion) {
        Err(TransportError::PermanentMailSystem(_)) => {},
        x => panic!("Unexpected result: {:?}", x),
    }
    match verify_reply(reply(b"421", None, &["bye"]), ReplyCodeKind::PositiveCompletion) {
        Err(TransportError::TransientMail(_)) => {},
        x => panic!("Unexpected result: {:?}", x),
    }
    match verify_reply(reply(b"250", None, &["ok"]), ReplyCodeKind::PositiveIntermediate) {
        Err(TransportError::UnexpectedReplyCode(_)) => {},
        x => panic!("Unexpected result: {:?}", x),
    }
}

#[test]
fn severities_and_queue_failures() {
    let e = TransportError::DnsMx("example.org".to_string(), "timeout".to_string());
    assert_eq!(e.severity(), TransportErrorSeverity::NetworkTransient);
    assert_eq!(transport_error_client_to_queue(e, "resolving"), TransportFailure::NetworkTransient);
    let e = TransportError::ReadingMail("disk".to_string());
    assert_eq!(e.severity(), TransportErrorSeverity::Local);
    assert_eq!(transport_error_client_to_queue(e, "reading"), TransportFailure::Local);
    let e = TransportError::SyntaxError("garbage".to_string());
    assert_eq!(transport_error_client_to_queue(e, "x"), TransportFailure::MailSystemTransient);
    let e = TransportError::PermanentMailbox(reply(b"550", Some(b"5.1.1"), &["no"]));
    assert_eq!(e.severity(), TransportErrorSeverity::MailboxPermanent);
    assert_eq!(transport_error_client_to_queue(e, "x"), TransportFailure::MailboxPermanent);
    let e = TransportError::TransientMail(reply(b"451", None, &["later"]));
    assert_eq!(transport_error_client_to_queue(e, "x"), TransportFailure::MailTransient);
    assert_eq!(TransportError::CannotDoTls.severity(), TransportErrorSeverity::NetworkTransient);
    assert_eq!(
        TransportError::HostToTrustDns("h".to_string(), "e".to_string()).severity(),
        TransportErrorSeverity::Local
    );
}

#[test]
fn ehlo_starttls() {
    assert!(ehlo_offers_starttls(&reply(b"250", None, &["mx.example.org", "PIPELINING", "starttls"])));
    assert!(ehlo_offers_starttls(&reply(b"250", None, &["mx", "STARTTLS"])));
    assert!(!ehlo_offers_starttls(&reply(b"250", None, &["mx", "STARTTLSX", "8BITMIME"])));
    assert!(!ehlo_offers_starttls(&reply(b"250", None, &["mx"])));
}

#[test]
fn read_reply_steps() {
    // A whole reply, and what follows it.
    let mut buf = vec![0u8; 300];
    let inp = b"250 ok\r\nextra";
    buf[10..10 + inp.len()].copy_from_slice(inp);
    match read_reply_step(&mut buf, 10, 10 + inp.len()) {
        ReadReplyStep::Reply { reply, start } => {
            assert_eq!(reply.code, ReplyCode(*b"250"));
            assert_eq!(start, 18);
        },
        _ => panic!("expected a reply"),
    }
    // Not yet complete, with room left: read more in place.
    let mut buf = vec![0u8; 300];
    buf[5..10].copy_from_slice(b"250 o");
    match read_reply_step(&mut buf, 5, 10) {
        ReadReplyStep::ReadMore { start, end } => assert_eq!((start, end), (5, 10)),
        _ => panic!("expected to read more"),
    }
    // Not yet complete, little room left: the bytes move to the start.
    let n = 200;
    let mut buf = vec![0u8; n];
    let s = n - MINIMUM_FREE_BUFSPACE + 10;
    buf[s..s + 5].copy_from_slice(b"250 o");
    match read_reply_step(&mut buf, s, s + 5) {
        ReadReplyStep::ReadMore { start, end } => {
            assert_eq!((start, end), (0, 5));
            assert_eq!(&buf[..5], b"250 o");
        },
        _ => panic!("expected to read more"),
    }
    // The buffer is full and the reply is not over.
    let mut buf = b"250 aaaaaaaa".to_vec();
    match read_reply_step(&mut buf, 0, 12) {
        ReadReplyStep::TooLong(t) => assert_eq!(t, "250 aaaaaaaa".to_string()),
        _ => panic!("expected too long"),
    }
    // Not a reply.
    let mut buf = b"hello\r\n".to_vec();
    match read_reply_step(&mut buf, 0, 7) {
        ReadReplyStep::SyntaxError(t) => assert_eq!(t, "hello\r\n".to_string()),
        _ => panic!("expected a syntax error"),
    }
}

#[test]
fn dirs_argument() {
    assert_eq!(parse_dirs("/guest::/host"), Ok(("/guest".to_string(), "/host".to_string())));
    assert_eq!(parse_dirs("::"), Ok((String::new(), String::new())));
    assert_eq!(parse_dirs("/guest:/host"), Err(InvalidDirSyntax));
    assert_eq!(parse_dirs("a::b::c"), Err(InvalidDirSyntax));
    assert_eq!(parse_dirs("é::ü"), Ok(("é".to_string(), "ü".to_string())));
}

#[test]
fn queue_id_spelling() {
    let id = QueueId::new("abc-123");
    assert_eq!(*id.0, "abc-123".to_string());
    let id2 = QueueId::new(String::from("x"));
    assert_eq!(id2.0.as_str(), "x");
}
