use kannader::misc::{
    email_with_path, next_crlf, show_bytes, unbracketed_email_with_path, Email, Hostname, Localpart,
    MaybeUtf8, NextCrLfState, Path,
};

fn ascii(raw: &str) -> Hostname<String> {
    Hostname::AsciiDomain { raw: raw.to_string() }
}

#[test]
fn next_crlf_works() {
    let tests: &[(&[u8], NextCrLfState, Option<usize>, NextCrLfState)] = &[
        (b"hello world", NextCrLfState::Start, None, NextCrLfState::Start),
        (b"hello world\r", NextCrLfState::Start, None, NextCrLfState::CrPassed),
        (b"hello world\r\n", NextCrLfState::Start, Some(12), NextCrLfState::Start),
        (b"\nhello world", NextCrLfState::CrPassed, Some(0), NextCrLfState::CrPassed),
        (b"\r\nhello world", NextCrLfState::CrPassed, Some(1), NextCrLfState::CrPassed),
    ];
    for (inp, st, out, endst) in tests {
        let mut st = *st;
        println!("Start: {:?}, input: {:?}", st, show_bytes(inp));
        let res = next_crlf(inp, &mut st);
        println!("Got     : {:?} / {:?}", res, st);
        assert_eq!(res, *out);
        assert_eq!(st, *endst);
    }
}

#[test]
fn next_crlf_across_buffers() {
    // The `\r` ends the first buffer, the `\n` starts the second.
    let mut st = NextCrLfState::Start;
    assert_eq!(next_crlf(b"hello\r", &mut st), None);
    assert_eq!(st, NextCrLfState::CrPassed);
    assert_eq!(next_crlf(b"\nworld", &mut st), Some(0));
    let mut st2 = NextCrLfState::Start;
    assert_eq!(next_crlf(b"hello\r\nworld", &mut st2), Some(6));
    // Nothing in either buffer.
    let mut st = NextCrLfState::Start;
    assert_eq!(next_crlf(b"abc", &mut st), None);
    assert_eq!(next_crlf(b"", &mut st), None);
    assert_eq!(st, NextCrLfState::Start);
}

#[test]
fn hostname_valid() {
    let tests: &[(&[u8], &[u8], Hostname<String>)] = &[
        (b"foo--bar>", b"", ascii("foo--bar")),
        (b"foo.bar.baz>", b"", ascii("foo.bar.baz")),
        (b"1.2.3.4>", b"", ascii("1.2.3.4")),
        (
            b"[123.255.37.2]>",
            b"",
            Hostname::Ipv4 { raw: "[123.255.37.2]".to_string(), ip: [123, 255, 37, 2] },
        ),
        (
            b"[IPv6:0::ffff:8.7.6.5]>",
            b"",
            Hostname::Ipv6 {
                raw: "[IPv6:0::ffff:8.7.6.5]".to_string(),
                ip: [0, 0, 0, 0, 0, 0xffff, 0x0807, 0x0605],
            },
        ),
        (
            "élégance.fr>".as_bytes(),
            b"",
            Hostname::Utf8Domain {
                raw: "élégance.fr".to_string(),
                punycode: "xn--lgance-9uab.fr".into(),
            },
        ),
        (
            "papier-maché.fr>".as_bytes(),
            b"",
            Hostname::Utf8Domain {
                raw: "papier-maché.fr".to_string(),
                punycode: "xn--papier-mach-lbb.fr".into(),
            },
        ),
    ];
    for (inp, rem, out) in tests {
        let parsed = Hostname::parse_until(inp, 0, b">");
        println!("\nTest: {:?}\nParse result: {:?}\nExpected: {:?}", show_bytes(inp), parsed, out);
        match parsed {
            Ok((j, host)) => {
                assert_eq!(inp[j], b'>');
                assert!(&inp[j + 1..] == *rem && host.deep_equal(out));
            },
            x => panic!("Unexpected result: {:?}", x),
        }
    }
}

#[test]
fn hostname_incomplete() {
    let tests: &[&[u8]] = &[b"[1.2", b"[IPv6:0::"];
    for inp in tests {
        let r = Hostname::parse_until(inp, 0, b">");
        println!("{:?}:  {:?}", show_bytes(inp), r);
        assert!(r.unwrap_err().is_incomplete());
    }
}

#[test]
fn hostname_invalid() {
    let tests: &[&[u8]] = &[b"-foo.bar>", b"\xFF>", "élégance.-fr>".as_bytes()];
    for inp in tests {
        let r = Hostname::parse_until(inp, 0, b">");
        println!("{:?}: {:?}", show_bytes(inp), r);
        assert!(!r.unwrap_err().is_incomplete());
    }
}

#[test]
fn hostname_address_literals() {
    // An IPv4 literal that does not read as an address is not a hostname.
    assert!(!Hostname::parse_until(b"[1.2.3.256]>", 0, b">").unwrap_err().is_incomplete());
    assert!(!Hostname::parse_until(b"[01.2.3.4]>", 0, b">").unwrap_err().is_incomplete());
    assert!(!Hostname::parse_until(b"[1.2.3]>", 0, b">").unwrap_err().is_incomplete());
    match Hostname::parse_until(b"[IPv6:1:2:3:4:5:6:7:8]>", 0, b">") {
        Ok((_, Hostname::Ipv6 { ip, .. })) => assert_eq!(ip, [1, 2, 3, 4, 5, 6, 7, 8]),
        x => panic!("Unexpected result: {:?}", x),
    }
    match Hostname::parse_until(b"[IPv6:::]>", 0, b">") {
        Ok((_, Hostname::Ipv6 { ip, .. })) => assert_eq!(ip, [0; 8]),
        x => panic!("Unexpected result: {:?}", x),
    }
    match Hostname::parse_until(b"[IPv6:1::2]>", 0, b">") {
        Ok((_, Hostname::Ipv6 { ip, .. })) => assert_eq!(ip, [1, 0, 0, 0, 0, 0, 0, 2]),
        x => panic!("Unexpected result: {:?}", x),
    }
    assert!(Hostname::parse_until(b"[IPv6:1:2:3:4:5:6:7:8:9]>", 0, b">").is_err());
    assert!(Hostname::parse_until(b"[IPv6:12345::]>", 0, b">").is_err());
    // A dash may not end a label; the ASCII form then stops short.
    assert!(Hostname::parse_until(b"foo->", 0, b">").is_err());
    // At the end of the input, more could come.
    assert!(Hostname::parse_until(b"foo.bar", 0, b">").unwrap_err().is_incomplete());
}

#[test]
fn hostname_equality_is_by_text() {
    let a = Hostname::Utf8Domain { raw: "exámple.org".to_string(), punycode: "foo".to_string() };
    let b = Hostname::Utf8Domain { raw: "exámple.org".to_string(), punycode: "bar".to_string() };
    assert_eq!(a, b);
    assert_ne!(ascii("a.b"), ascii("a.c"));
    let h = Hostname::AsciiDomain { raw: "foo.bar" };
    assert!(h.to_owned().deep_equal(&ascii("foo.bar")));
    assert_eq!(*ascii("x.y").raw(), "x.y".to_string());
    let bytes: Vec<u8> = ascii("x.y").as_io_slices().flatten().collect();
    assert_eq!(bytes, b"x.y");
}

#[test]
fn localpart_valid() {
    let tests: &[(&[u8], &[u8], Localpart<&str>)] = &[
        (b"helloooo@", b"", Localpart::Ascii { raw: "helloooo" }),
        (b"test.ing>", b"", Localpart::Ascii { raw: "test.ing" }),
        (br#""hello"@"#, b"", Localpart::QuotedAscii { raw: r#""hello""# }),
        (
            br#""hello world. This |$ a g#eat place to experiment !">"#,
            b"",
            Localpart::QuotedAscii { raw: r#""hello world. This |$ a g#eat place to experiment !""# },
        ),
        (
            br#""\"escapes\", useless like h\ere, except for quotes and backslashes\\"@"#,
            b"",
            Localpart::QuotedAscii {
                raw: r#""\"escapes\", useless like h\ere, except for quotes and backslashes\\""#,
            },
        ),
    ];
    for (inp, rem, out) in tests {
        println!("Test: {:?}", show_bytes(inp));
        let r = Localpart::parse_until(inp, 0, b"@>");
        println!("Result: {:?}", r);
        match r {
            Ok((j, res)) if (inp[j] == b'@' || inp[j] == b'>') && &inp[j + 1..] == *rem
                && res == out.to_owned() => (),
            x => panic!("Unexpected result: {:?}", x),
        }
    }
}

#[test]
fn localpart_utf8() {
    match Localpart::parse_until("tést@".as_bytes(), 0, b"@>") {
        Ok((j, l)) => {
            assert_eq!(j, 5);
            assert_eq!(l, Localpart::Utf8 { raw: "tést".to_string() });
        },
        x => panic!("Unexpected result: {:?}", x),
    }
    match Localpart::parse_until("\"é\\\"t\"@".as_bytes(), 0, b"@>") {
        Ok((_, l)) => {
            assert_eq!(l, Localpart::QuotedUtf8 { raw: "\"é\\\"t\"".to_string() });
            assert_eq!(l.unquote(), MaybeUtf8::Utf8("é\"t".to_string()));
        },
        x => panic!("Unexpected result: {:?}", x),
    }
    // An unfinished quoted string can still be finished.
    assert!(Localpart::parse_until(b"\"abc", 0, b"@>").unwrap_err().is_incomplete());
    // Half of a two-byte character at the end of the input: what reads
    // as a localpart, `t`, is not followed by a terminator.
    assert!(!Localpart::parse_until(&[b't', 0xc3], 0, b"@>").unwrap_err().is_incomplete());
}

#[test]
fn localpart_invalid() {
    let tests: &[&[u8]] = &[br#"""@"#, br#""""@"#, b"\r@"];
    for inp in tests {
        let r = Localpart::parse_until(inp, 0, b"@>");
        assert!(!r.unwrap_err().is_incomplete());
    }
}

#[test]
fn localpart_unquoting() {
    let tests: &[(&[u8], MaybeUtf8<&str>)] = &[
        (b"t+e-s.t_i+n-g@foo.bar.baz ", MaybeUtf8::Ascii("t+e-s.t_i+n-g")),
        (br#""quoted\"example"@example.org "#, MaybeUtf8::Ascii(r#"quoted"example"#)),
        (br#""escaped\\exa\mple"@example.org "#, MaybeUtf8::Ascii(r#"escaped\example"#)),
    ];
    for (inp, out) in tests {
        println!("Test: {:?}", show_bytes(inp));
        let res = Email::parse_until(inp, 0, b" ", b" @").unwrap().1;
        println!("Result: {:?}", res);
        assert_eq!(res.localpart.unquote(), out.to_owned());
    }
}

#[test]
fn email_valid() {
    let tests: &[(&[u8], &[u8], Email<&str>)] = &[
        (b"t+e-s.t_i+n-g@foo.bar.baz>", b"", Email {
            localpart: Localpart::Ascii { raw: "t+e-s.t_i+n-g" },
            hostname: Some(Hostname::AsciiDomain { raw: "foo.bar.baz" }),
        }),
        (br#""quoted\"example"@example.org>"#, b"", Email {
            localpart: Localpart::QuotedAscii { raw: r#""quoted\"example""# },
            hostname: Some(Hostname::AsciiDomain { raw: "example.org" }),
        }),
        (b"postmaster>", b"", Email { localpart: Localpart::Ascii { raw: "postmaster" }, hostname: None }),
        (b"test>", b"", Email { localpart: Localpart::Ascii { raw: "test" }, hostname: None }),
        (r#""quoted\"example"@exámple.org>"#.as_bytes(), b"", Email {
            localpart: Localpart::QuotedAscii { raw: r#""quoted\"example""# },
            hostname: Some(Hostname::Utf8Domain { raw: "exámple.org", punycode: "foo".into() }),
        }),
        ("tést>".as_bytes(), b"", Email { localpart: Localpart::Utf8 { raw: "tést" }, hostname: None }),
    ];
    for (inp, rem, out) in tests {
        println!("Test: {:?}", show_bytes(inp));
        let r = Email::parse_until(inp, 0, b">", b">@");
        println!("Result: {:?}", r);
        match r {
            Ok((j, res)) if inp[j] == b'>' && &inp[j + 1..] == *rem && res == out.clone().to_owned() => (),
            x => panic!("Unexpected result: {:?}", x),
        }
    }
}

#[test]
fn email_invalid() {
    let tests: &[&[u8]] = &[b"@foo.bar"];
    for inp in tests {
        let r = Email::parse_until(inp, 0, b">", b">@");
        assert!(!r.unwrap_err().is_incomplete());
    }
}

#[test]
fn email_bracketed_and_wire_form() {
    let e = Email::parse_bracketed(b"<foo@bar.baz>").unwrap();
    assert_eq!(e, Email { localpart: Localpart::Ascii { raw: "foo".to_string() }, hostname: Some(ascii("bar.baz")) });
    let wire: Vec<u8> = e.as_io_slices().flatten().collect();
    assert_eq!(wire, b"foo@bar.baz");
    // Trailing bytes after the closing bracket.
    assert!(!Email::parse_bracketed(b"<foo@bar.baz>x").unwrap_err().is_incomplete());
    assert!(Email::parse_bracketed(b"<foo@bar.baz").unwrap_err().is_incomplete());
}

#[test]
fn unbracketed_email_with_path_valid() {
    let tests: &[(&[u8], &[u8], (Option<Path<String>>, Email<String>))] = &[
        (
            b"@foo.bar,@baz.quux:test@example.org>",
            b">",
            (
                Some(Path { domains: vec![ascii("foo.bar"), ascii("baz.quux")] }),
                Email { localpart: Localpart::Ascii { raw: "test".to_string() }, hostname: Some(ascii("example.org")) },
            ),
        ),
        (
            b"foo.bar@baz.quux>",
            b">",
            (None, Email { localpart: Localpart::Ascii { raw: "foo.bar".to_string() }, hostname: Some(ascii("baz.quux")) }),
        ),
    ];
    for (inp, rem, out) in tests {
        println!("Test: {:?}", show_bytes(inp));
        match unbracketed_email_with_path(inp, 0, b">", b">@") {
            Ok((j, res)) if &inp[j..] == *rem && res == *out => (),
            x => panic!("Unexpected result: {:?}", x),
        }
    }
}

#[test]
fn email_with_path_valid() {
    let route = || Some(Path { domains: vec![ascii("foo.bar"), ascii("baz.quux")] });
    let tests: &[(&[u8], (Option<Path<String>>, Email<String>))] = &[
        (
            b"@foo.bar,@baz.quux:test@example.org ",
            (route(), Email { localpart: Localpart::Ascii { raw: "test".to_string() }, hostname: Some(ascii("example.org")) }),
        ),
        (
            b"<@foo.bar,@baz.quux:test@example.org> ",
            (route(), Email { localpart: Localpart::Ascii { raw: "test".to_string() }, hostname: Some(ascii("example.org")) }),
        ),
        (
            b"<foo@bar.baz> ",
            (None, Email { localpart: Localpart::Ascii { raw: "foo".to_string() }, hostname: Some(ascii("bar.baz")) }),
        ),
        (
            b"foo@bar.baz ",
            (None, Email { localpart: Localpart::Ascii { raw: "foo".to_string() }, hostname: Some(ascii("bar.baz")) }),
        ),
        (b"foobar ", (None, Email { localpart: Localpart::Ascii { raw: "foobar".to_string() }, hostname: None })),
    ];
    for (inp, out) in tests {
        println!("Test: {:?}", show_bytes(inp));
        let r = email_with_path(inp, 0, b" ", b" @", b" >", b" @>");
        println!("Result: {:?}", r);
        match r {
            Ok((j, res)) if &inp[j..] == b" " && res == *out => (),
            x => panic!("Unexpected result: {:?}", x),
        }
    }
}

#[test]
fn path_wire_form() {
    let p = Path { domains: vec![ascii("one"), ascii("two")] };
    let wire: Vec<u8> = p.as_io_slices().flatten().collect();
    assert_eq!(wire, b"@one,@two");
    match Path::parse_until(b"@one,@two:", 0, b":,") {
        Ok((j, q)) => {
            assert_eq!(j, 9);
            assert_eq!(q, p);
        },
        x => panic!("Unexpected result: {:?}", x),
    }
}

#[test]
fn maybe_utf8_and_show_bytes() {
    assert_eq!(MaybeUtf8::from_text("abc".to_string()), MaybeUtf8::Ascii("abc".to_string()));
    assert_eq!(MaybeUtf8::from_text("é".to_string()), MaybeUtf8::Utf8("é".to_string()));
    assert_eq!(MaybeUtf8::from_text("abc"), MaybeUtf8::Ascii("abc"));
    assert_eq!(MaybeUtf8::from_text("é"), MaybeUtf8::Utf8("é"));
    assert_eq!(MaybeUtf8::Utf8("é").to_owned(), MaybeUtf8::Utf8("é".to_string()));
    assert_eq!(show_bytes(b"hello"), "hello");
    assert_eq!(show_bytes(&[0xff, 1, 200]), "[255, 1, 200]");
    assert_eq!(show_bytes(&[0u8; 129]), "{too long}");
}

#[test]
fn unquoting_drops_quotes_and_escapes() {
    assert_eq!(kannader::misc::unquoted(&"\"a\\\\b\\\"c\""), "a\\b\"c");
    assert_eq!(kannader::misc::unquoted(&""), "");
    assert_eq!(Localpart::QuotedAscii { raw: "\"x y\"" }.unquote(), MaybeUtf8::Ascii("x y".to_string()));
    assert_eq!(Localpart::Ascii { raw: "plain" }.unquote(), MaybeUtf8::Ascii("plain".to_string()));
}

#[test]
fn hostname_deep_equality() {
    let a = Hostname::Ipv4 { raw: "[1.2.3.4]".to_string(), ip: [1, 2, 3, 4] };
    let b = Hostname::Ipv4 { raw: "[1.2.3.4]".to_string(), ip: [1, 2, 3, 5] };
    // `==` looks at the text only; `deep_equal` at every part.
    assert!(a == b);
    assert!(!a.deep_equal(&b));
    assert!(a.deep_equal(&a.clone()));
    let c = Hostname::Utf8Domain { raw: "é.fr".to_string(), punycode: "xn--9ca.fr".to_string() };
    let d = Hostname::Utf8Domain { raw: "é.fr".to_string(), punycode: "other".to_string() };
    assert!(!c.deep_equal(&d));
    assert!(c.deep_equal(&c.clone()));
    let e = Hostname::Ipv6 { raw: "[IPv6:::1]".to_string(), ip: [0, 0, 0, 0, 0, 0, 0, 1] };
    let f = Hostname::Ipv6 { raw: "[IPv6:::1]".to_string(), ip: [0, 0, 0, 0, 0, 0, 0, 2] };
    assert!(!e.deep_equal(&f));
    assert!(!e.deep_equal(&ascii("[IPv6:::1]")));
}

#[test]
fn hostname_written_parses_back() {
    let inputs: &[&[u8]] = &[
        b"mx.example.org ",
        b"[127.0.0.1]\r",
        b"[IPv6:::1]\t",
        b"\xc3\xa9xample.org ",
    ];
    for inp in inputs {
        let (_, h) = Hostname::parse_until(inp, 0, b" \t\r").unwrap();
        let mut w: Vec<u8> = h.as_io_slices().flat_map(|s| s.into_iter()).collect();
        w.push(b'\r');
        w.extend_from_slice(b"rest");
        let (end, back) = Hostname::parse_until(&w, 0, b" \t\r").unwrap();
        assert_eq!(end, w.len() - 5);
        assert_eq!(back, h);
        match (&back, &h) {
            (Hostname::Utf8Domain { punycode: a, .. }, Hostname::Utf8Domain { punycode: b, .. }) => {
                assert_eq!(a, b)
            }
            _ => {}
        }
    }
}

#[test]
fn overlong_utf8_domain_is_refused() {
    // a label of thousands of non-ASCII characters would overflow the
    // punycode encoder: the parser refuses it before handing it over
    let mut inp: Vec<u8> = Vec::new();
    for _ in 0..3855 {
        inp.extend_from_slice("\u{a1}".as_bytes());
    }
    inp.extend_from_slice("\u{10ff92}".as_bytes());
    inp.push(b' ');
    assert!(Hostname::parse_until(&inp, 0, b" ").is_err());
    let long: Vec<u8> = "\u{e9}".repeat(321).into_bytes().into_iter().chain(b" ".iter().copied()).collect();
    assert!(Hostname::parse_until(&long, 0, b" ").is_err());
    let ok: Vec<u8> = "\u{e9}".repeat(20).into_bytes().into_iter().chain(b" ".iter().copied()).collect();
    assert!(Hostname::parse_until(&ok, 0, b" ").is_ok());
}
