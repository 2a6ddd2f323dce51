use kannader::misc::{show_bytes, MaybeUtf8};
use kannader::reply::{
    EnhancedReplyCode, EnhancedReplyCodeClass, EnhancedReplyCodeSubject, Reply, ReplyCode,
    ReplyCodeCategory, ReplyCodeKind, ReplyLine,
};

fn flat(it: std::vec::IntoIter<Vec<u8>>) -> Vec<u8> {
    it.flat_map(|s| s.into_iter()).collect()
}

#[test]
fn reply_code_valid() {
    let tests: &[(&[u8], [u8; 3])] = &[(b"523", *b"523"), (b"234", *b"234")];
    for (inp, out) in tests {
        println!("Test: {:?}", show_bytes(inp));
        let r = ReplyCode::parse(inp);
        println!("Result: {:?}", r);
        match r {
            Ok((rest, res)) => {
                assert_eq!(rest, b"");
                assert_eq!(res, ReplyCode(*out));
            },
            x => panic!("Unexpected result: {:?}", x),
        }
    }
}

#[test]
fn reply_code_incomplete() {
    let tests: &[&[u8]] = &[b"3", b"43"];
    for inp in tests {
        let r = ReplyCode::parse(inp);
        println!("{:?}:  {:?}", show_bytes(inp), r);
        assert!(r.unwrap_err().is_incomplete());
    }
}

#[test]
fn reply_code_invalid() {
    let tests: &[&[u8]] = &[b"foo", b"123", b"648"];
    for inp in tests {
        let r = ReplyCode::parse(inp);
        assert!(!r.unwrap_err().is_incomplete());
    }
}

#[test]
fn extended_reply_code_valid() {
    let tests: &[(&[u8], (EnhancedReplyCodeClass, u16, u16))] = &[
        (b"2.1.23", (EnhancedReplyCodeClass::Success, 1, 23)),
        (b"5.243.567", (EnhancedReplyCodeClass::PermanentFailure, 243, 567)),
    ];
    for (inp, (class, raw_subject, raw_detail)) in tests.iter().cloned() {
        println!("Test: {:?}", show_bytes(inp));
        let r = EnhancedReplyCode::parse(inp);
        println!("Result: {:?}", r);
        match r {
            Ok((rest, res)) => {
                assert_eq!(rest, b"");
                assert_eq!(
                    res,
                    EnhancedReplyCode {
                        raw: std::str::from_utf8(inp).unwrap().to_string(),
                        class,
                        raw_subject,
                        raw_detail,
                    }
                );
            },
            x => panic!("Unexpected result: {:?}", x),
        }
    }
}

#[test]
fn extended_reply_code_incomplete() {
    let tests: &[&[u8]] = &[b"4.", b"5.23"];
    for inp in tests {
        let r = EnhancedReplyCode::parse(inp);
        println!("{:?}:  {:?}", show_bytes(inp), r);
        assert!(r.unwrap_err().is_incomplete());
    }
}

#[test]
fn extended_reply_code_invalid() {
    let tests: &[&[u8]] = &[b"foo", b"3.5.1", b"1.1000.2"];
    for inp in tests {
        let r = EnhancedReplyCode::parse(inp);
        assert!(!r.unwrap_err().is_incomplete());
    }
}

#[test]
fn reply_line_valid() {
    let tests: Vec<(&[u8], ReplyLine<String>)> = vec![
        (b"250 All is well\r\n", ReplyLine {
            code: ReplyCode(*b"250"),
            last: true,
            ecode: None,
            text: MaybeUtf8::Ascii("All is well".to_string()),
        }),
        (b"450-Temporary\r\n", ReplyLine {
            code: ReplyCode(*b"450"),
            last: false,
            ecode: None,
            text: MaybeUtf8::Ascii("Temporary".to_string()),
        }),
        (b"354 Please do start input now\r\n", ReplyLine {
            code: ReplyCode(*b"354"),
            last: true,
            ecode: None,
            text: MaybeUtf8::Ascii("Please do start input now".to_string()),
        }),
        (b"550 5.1.1 Mailbox does not exist\r\n", ReplyLine {
            code: ReplyCode(*b"550"),
            last: true,
            ecode: Some(EnhancedReplyCode::parse(b"5.1.1").unwrap().1),
            text: MaybeUtf8::Ascii("Mailbox does not exist".to_string()),
        }),
    ];
    for (inp, out) in tests.iter().cloned() {
        println!("Test: {:?}", show_bytes(inp));
        let r = ReplyLine::parse(inp);
        println!("Result: {:?}", r);
        match r {
            Ok((rest, res)) => {
                assert_eq!(rest, b"");
                assert_eq!(res, out);
            },
            x => panic!("Unexpected result: {:?}", x),
        }
    }
}

#[test]
fn reply_line_build() {
    let tests: Vec<(ReplyLine<&str>, &[u8])> = vec![
        (
            ReplyLine {
                code: ReplyCode::SERVICE_READY(),
                last: false,
                ecode: None,
                text: MaybeUtf8::Ascii("hello world!"),
            },
            b"220-hello world!\r\n",
        ),
        (
            ReplyLine {
                code: ReplyCode::COMMAND_UNIMPLEMENTED(),
                last: true,
                ecode: None,
                text: MaybeUtf8::Ascii("test"),
            },
            b"502 test\r\n",
        ),
        (
            ReplyLine {
                code: ReplyCode::MAILBOX_UNAVAILABLE(),
                last: true,
                ecode: Some(EnhancedReplyCode::PERMANENT_BAD_DEST_MAILBOX()),
                text: MaybeUtf8::Utf8("mélbox does not exist"),
            },
            "550 5.1.1 mélbox does not exist\r\n".as_bytes(),
        ),
        (
            ReplyLine {
                code: ReplyCode::USER_NOT_LOCAL(),
                last: false,
                ecode: Some(EnhancedReplyCode::PERMANENT_DELIVERY_NOT_AUTHORIZED()),
                text: MaybeUtf8::Ascii("Forwarding is disabled"),
            },
            "551-5.7.1 Forwarding is disabled\r\n".as_bytes(),
        ),
    ];
    for (inp, out) in tests {
        println!("Test: {:?}", inp);
        let res = flat(inp.as_io_slices());
        println!("Result  : {:?}", show_bytes(&res));
        println!("Expected: {:?}", show_bytes(out));
        assert_eq!(&res, out);
    }
}

#[test]
fn reply_code_kinds_and_categories() {
    let c = ReplyCode(*b"354");
    assert_eq!(c.kind(), ReplyCodeKind::PositiveIntermediate);
    assert_eq!(c.category(), ReplyCodeCategory::ReceiverStatus);
    assert_eq!(c.code(), 354);
    assert_eq!(ReplyCode(*b"421").kind(), ReplyCodeKind::TransientNegative);
    assert_eq!(ReplyCode(*b"421").category(), ReplyCodeCategory::Connection);
    assert_eq!(ReplyCode(*b"432").category(), ReplyCodeCategory::Unspecified);
    assert_eq!(ReplyCode(*b"502").kind(), ReplyCodeKind::PermanentNegative);
    assert_eq!(ReplyCode(*b"502").category(), ReplyCodeCategory::Syntax);
    assert_eq!(ReplyCode(*b"211").category(), ReplyCodeCategory::Information);
    assert_eq!(ReplyCode(*b"250").kind(), ReplyCodeKind::PositiveCompletion);
    assert_eq!(ReplyCode::SERVICE_READY().code(), 220);
    assert_eq!(flat(ReplyCode::SERVICE_READY().as_io_slices()), b"220".to_vec());
}

#[test]
fn enhanced_code_subject_and_wire_form() {
    let c = EnhancedReplyCode::PERMANENT_BAD_DEST_MAILBOX();
    assert_eq!(c.subject(), EnhancedReplyCodeSubject::Addressing);
    assert_eq!(flat(c.as_io_slices()), b"5.1.1".to_vec());
    let owned = c.to_owned();
    assert_eq!(owned.raw, "5.1.1".to_string());
    assert_eq!(owned.class, EnhancedReplyCodeClass::PermanentFailure);
    let (_, parsed) = EnhancedReplyCode::parse(b"4.7.0 x").unwrap();
    assert_eq!(parsed.subject(), EnhancedReplyCodeSubject::Policy);
    assert_eq!(parsed.class, EnhancedReplyCodeClass::PersistentTransient);
    let (_, other) = EnhancedReplyCode::parse(b"2.9.3").unwrap();
    assert_eq!(other.subject(), EnhancedReplyCodeSubject::Undefined);
}

#[test]
fn reply_parse_multiline() {
    let inp: &[u8] = b"250-mx.example.org\r\n250-PIPELINING\r\n250 STARTTLS\r\nnext";
    let (rest, reply) = Reply::parse(inp).unwrap();
    assert_eq!(rest, b"next");
    assert_eq!(reply.code, ReplyCode(*b"250"));
    assert_eq!(reply.ecode, None);
    assert_eq!(
        reply.text,
        vec![
            MaybeUtf8::Ascii("mx.example.org".to_string()),
            MaybeUtf8::Ascii("PIPELINING".to_string()),
            MaybeUtf8::Ascii("STARTTLS".to_string()),
        ]
    );
    // Not complete until the last line comes.
    assert!(Reply::parse(b"250-mx.example.org\r\n250-PIPE").unwrap_err().is_incomplete());
    // The code of the reply is that of its last line.
    let (_, mixed) = Reply::parse(b"250-a\r\n251 b\r\n").unwrap();
    assert_eq!(mixed.code, ReplyCode(*b"251"));
    // A line that is neither continued nor last is refused.
    assert!(!Reply::parse(b"250-a\r\n25x b\r\n").unwrap_err().is_incomplete());
}

#[test]
fn reply_parse_with_enhanced_code() {
    let inp: &[u8] = b"550-5.1.1 No such\r\n550 5.1.1 mailbox\r\n";
    let (rest, reply) = Reply::parse(inp).unwrap();
    assert_eq!(rest, b"");
    assert_eq!(reply.code, ReplyCode::MAILBOX_UNAVAILABLE());
    assert_eq!(reply.ecode.as_ref().unwrap().raw, "5.1.1".to_string());
    assert_eq!(
        reply.text,
        vec![MaybeUtf8::Ascii("No such".to_string()), MaybeUtf8::Ascii("mailbox".to_string())]
    );
    // Printing it back gives the same bytes.
    assert_eq!(flat(reply.as_io_slices()), inp.to_vec());
    assert_eq!(reply.to_string(), String::from_utf8(inp.to_vec()).unwrap());
}

#[test]
fn reply_build_and_owned() {
    let r: Reply<&str> = Reply {
        code: ReplyCode::SERVICE_READY(),
        ecode: None,
        text: vec![MaybeUtf8::Ascii("first"), MaybeUtf8::Utf8("sécond")],
    };
    let mut out = b"pre ".to_vec();
    r.write_to(&mut out);
    assert_eq!(out, "pre 220-first\r\n220 sécond\r\n".as_bytes().to_vec());
    assert_eq!(r.to_string(), "220-first\r\n220 sécond\r\n".to_string());
    let owned = r.into_owned();
    assert_eq!(owned.text[1], MaybeUtf8::Utf8("sécond".to_string()));
    assert_eq!(flat(owned.as_io_slices()), "220-first\r\n220 sécond\r\n".as_bytes().to_vec());
}

#[test]
fn reply_written_parses_back() {
    let inputs: &[&[u8]] = &[
        b"250-mx.example.org greets you\r\n250-PIPELINING\r\n250 2.0.0 OK\r\n",
        b"550 5.1.1 no such user\r\n",
        b"220\r\n",
        b"250-first line\r\n250 h\xc3\xa9llo\r\n",
        b"421 4.4.2\r\n",
    ];
    for inp in inputs {
        let (_, r) = Reply::parse(inp).unwrap();
        let mut w = Vec::new();
        r.write_to(&mut w);
        w.extend_from_slice(b"QUIT\r\n");
        let (rest, back) = Reply::parse(&w).unwrap();
        assert_eq!(rest, b"QUIT\r\n");
        assert_eq!(back, r);
    }
}

#[test]
fn reply_text_that_looks_like_enhanced_code_is_not_kept() {
    // with no enhanced code on the last line, a text of an earlier line
    // that starts with one is read back as that line's enhanced code
    let (_, r) = Reply::parse(b"250-2.0.0 2.0.0 a\r\n250 b\r\n").unwrap();
    assert_eq!(r.ecode, None);
    let mut w = Vec::new();
    r.write_to(&mut w);
    assert_eq!(w, b"250-2.0.0 a\r\n250 b\r\n".to_vec());
    let (_, back) = Reply::parse(&w).unwrap();
    assert_ne!(back, r);
}
