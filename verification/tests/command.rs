use kannader::command::{Command, ParameterName, Parameters};
use kannader::misc::{show_bytes, Email, Hostname, Localpart, MaybeUtf8, Path};

fn s(x: &str) -> String {
    x.to_string()
}

fn host(raw: &str) -> Hostname<String> {
    Hostname::AsciiDomain { raw: s(raw) }
}

fn email(local: &str, h: Option<&str>) -> Email<String> {
    Email { localpart: Localpart::Ascii { raw: s(local) }, hostname: h.map(host) }
}

fn param(k: &str, v: Option<&str>) -> (ParameterName<String>, Option<MaybeUtf8<String>>) {
    (ParameterName::Other(s(k)), v.map(|v| MaybeUtf8::Ascii(s(v))))
}

fn flat(it: std::vec::IntoIter<Vec<u8>>) -> Vec<u8> {
    it.flat_map(|s| s.into_iter()).collect()
}

#[test]
fn parameters_valid() {
    let tests: Vec<(&[u8], Parameters<String>)> = vec![
        (b" key=value\r\n", Parameters(vec![param("key", Some("value"))])),
        (
            b"\tkey=value\tkey2=value2\r\n",
            Parameters(vec![param("key", Some("value")), param("key2", Some("value2"))]),
        ),
        (
            b" KeY2=V4\"l\\u@e.z\t0tterkeyz=very_muchWh4t3ver\r\n",
            Parameters(vec![
                param("KeY2", Some("V4\"l\\u@e.z")),
                param("0tterkeyz", Some("very_muchWh4t3ver")),
            ]),
        ),
        (b" NoValueKey\r\n", Parameters(vec![param("NoValueKey", None)])),
        (b" A B\r\n", Parameters(vec![param("A", None), param("B", None)])),
        (
            b" A=B C D=SP\r\n",
            Parameters(vec![param("A", Some("B")), param("C", None), param("D", Some("SP"))]),
        ),
    ];
    for (inp, out) in tests {
        println!("Test: {:?}", show_bytes(inp));
        let r = Parameters::parse_until(inp, 0, b" \t\r\n");
        println!("Result: {:?}", r);
        match r {
            Ok((j, res)) if &inp[j..] == b"\r\n" && res == out => (),
            x => panic!("Unexpected result: {:?}", x),
        }
    }
}

#[test]
fn command_valid() {
    let tests: Vec<(&[u8], Command<String>)> = vec![
        (b"DATA \t  \t \r\n", Command::Data),
        (b"daTa\r\n", Command::Data),
        (b"eHlO \t hello.world \t \r\n", Command::Ehlo { hostname: host("hello.world") }),
        (b"EHLO hello.world\r\n", Command::Ehlo { hostname: host("hello.world") }),
        (b"EXpN \t hello.world \t \r\n", Command::Expn {
            name: MaybeUtf8::Ascii(s("\t hello.world \t ")),
        }),
        (b"hElO\t hello.world \t \r\n", Command::Helo { hostname: host("hello.world") }),
        (b"HELO hello.world\r\n", Command::Helo { hostname: host("hello.world") }),
        (b"help \t hello.world \t \r\n", Command::Help {
            subject: MaybeUtf8::Ascii(s("\t hello.world \t ")),
        }),
        (b"HELP\r\n", Command::Help { subject: MaybeUtf8::Ascii(s("")) }),
        (b"hElP \r\n", Command::Help { subject: MaybeUtf8::Ascii(s("")) }),
        (b"Mail FROM:<@one,@two:foo@bar.baz>\r\n", Command::Mail {
            path: Some(Path { domains: vec![host("one"), host("two")] }),
            email: Some(email("foo", Some("bar.baz"))),
            params: Parameters(vec![]),
        }),
        (b"MaiL FrOm: quux@example.net  \t \r\n", Command::Mail {
            path: None,
            email: Some(email("quux", Some("example.net"))),
            params: Parameters(vec![]),
        }),
        (b"MaiL FrOm: quux@example.net\r\n", Command::Mail {
            path: None,
            email: Some(email("quux", Some("example.net"))),
            params: Parameters(vec![]),
        }),
        (b"mail FROM:<>\r\n", Command::Mail { path: None, email: None, params: Parameters(vec![]) }),
        (b"MAIL FROM:<> hello=world foo\r\n", Command::Mail {
            path: None,
            email: None,
            params: Parameters(vec![param("hello", Some("world")), param("foo", None)]),
        }),
        (b"NOOP \t hello.world \t \r\n", Command::Noop {
            string: MaybeUtf8::Ascii(s("\t hello.world \t ")),
        }),
        (b"nOoP\r\n", Command::Noop { string: MaybeUtf8::Ascii(s("")) }),
        (b"noop \r\n", Command::Noop { string: MaybeUtf8::Ascii(s("")) }),
        (b"QUIT \t  \t \r\n", Command::Quit),
        (b"quit\r\n", Command::Quit),
        (b"RCPT TO:<@one,@two:foo@bar.baz>\r\n", Command::Rcpt {
            path: Some(Path { domains: vec![host("one"), host("two")] }),
            email: email("foo", Some("bar.baz")),
            params: Parameters(vec![]),
        }),
        (b"Rcpt tO: quux@example.net  \t \r\n", Command::Rcpt {
            path: None,
            email: email("quux", Some("example.net")),
            params: Parameters(vec![]),
        }),
        (b"rcpt TO:<Postmaster>\r\n", Command::Rcpt {
            path: None,
            email: email("Postmaster", None),
            params: Parameters(vec![]),
        }),
        (b"RcPt TO: \t poStmaster\r\n", Command::Rcpt {
            path: None,
            email: email("poStmaster", None),
            params: Parameters(vec![]),
        }),
        (b"RSET \t  \t \r\n", Command::Rset),
        (b"rSet\r\n", Command::Rset),
        (b"VrFY \t hello.world \t \r\n", Command::Vrfy {
            name: MaybeUtf8::Ascii(s("\t hello.world \t ")),
        }),
    ];
    for (inp, out) in tests {
        println!("Test: {:?}", show_bytes(inp));
        let r = Command::parse(inp);
        println!("Result: {:?}", r);
        match r {
            Ok((rest, res)) => {
                assert_eq!(rest, b"");
                assert_eq!(res, out);
            },
            x => panic!("Unexpected result: {:?}", x),
        }
    }
}

#[test]
fn command_incomplete() {
    let tests: &[&[u8]] = &[b"MAIL FROM:<foo@bar.com", b"mail from:foo@bar.com"];
    for inp in tests {
        let r = Command::parse(inp);
        println!("{:?}:  {:?}", show_bytes(inp), r);
        assert!(r.unwrap_err().is_incomplete());
    }
}

#[test]
fn command_invalid() {
    let tests: &[&[u8]] = &[b"HELPfoo"];
    for inp in tests {
        let r = Command::parse(inp);
        println!("{:?}:  {:?}", show_bytes(inp), r);
        assert!(!r.unwrap_err().is_incomplete());
    }
}

#[test]
fn command_build() {
    let tests: Vec<(Command<&str>, &[u8])> = vec![
        (Command::Data, b"DATA\r\n"),
        (
            Command::Ehlo { hostname: Hostname::AsciiDomain { raw: "test.foo.bar" } },
            b"EHLO test.foo.bar\r\n",
        ),
        (Command::Expn { name: MaybeUtf8::Ascii("foobar") }, b"EXPN foobar\r\n"),
        (
            Command::Helo { hostname: Hostname::AsciiDomain { raw: "test.example.org" } },
            b"HELO test.example.org\r\n",
        ),
        (Command::Help { subject: MaybeUtf8::Ascii("topic") }, b"HELP topic\r\n"),
        (
            Command::Mail {
                path: None,
                email: Some(Email {
                    localpart: Localpart::Ascii { raw: "foo" },
                    hostname: Some(Hostname::AsciiDomain { raw: "bar.baz" }),
                }),
                params: Parameters(vec![]),
            },
            b"MAIL FROM:<foo@bar.baz>\r\n",
        ),
        (
            Command::Mail {
                path: Some(Path {
                    domains: vec![
                        Hostname::AsciiDomain { raw: "test" },
                        Hostname::AsciiDomain { raw: "foo.bar" },
                    ],
                }),
                email: Some(Email {
                    localpart: Localpart::Ascii { raw: "foo" },
                    hostname: Some(Hostname::AsciiDomain { raw: "bar.baz" }),
                }),
                params: Parameters(vec![]),
            },
            b"MAIL FROM:<@test,@foo.bar:foo@bar.baz>\r\n",
        ),
        (
            Command::Mail { path: None, email: None, params: Parameters(vec![]) },
            b"MAIL FROM:<>\r\n",
        ),
        (
            Command::Mail {
                path: None,
                email: Some(Email {
                    localpart: Localpart::Ascii { raw: "hello" },
                    hostname: Some(Hostname::AsciiDomain { raw: "world.example.org" }),
                }),
                params: Parameters(vec![
                    (ParameterName::Other("foo"), Some(MaybeUtf8::Ascii("bar"))),
                    (ParameterName::Other("baz"), None),
                    (ParameterName::Other("helloworld"), Some(MaybeUtf8::Ascii("bleh"))),
                ]),
            },
            b"MAIL FROM:<hello@world.example.org> foo=bar baz helloworld=bleh\r\n",
        ),
        (Command::Noop { string: MaybeUtf8::Ascii("useless string") }, b"NOOP useless string\r\n"),
        (Command::Quit, b"QUIT\r\n"),
        (
            Command::Rcpt {
                path: None,
                email: Email {
                    localpart: Localpart::Ascii { raw: "foo" },
                    hostname: Some(Hostname::AsciiDomain { raw: "bar.com" }),
                },
                params: Parameters(vec![]),
            },
            b"RCPT TO:<foo@bar.com>\r\n",
        ),
        (
            Command::Rcpt {
                path: None,
                email: Email { localpart: Localpart::Ascii { raw: "Postmaster" }, hostname: None },
                params: Parameters(vec![]),
            },
            b"RCPT TO:<Postmaster>\r\n",
        ),
        (Command::Rset, b"RSET\r\n"),
        (Command::Vrfy { name: MaybeUtf8::Ascii("postmaster") }, b"VRFY postmaster\r\n"),
    ];
    for (inp, out) in tests {
        println!("Test: {:?}", inp);
        let res = flat(inp.as_io_slices());
        println!("Result  : {:?}", show_bytes(&res));
        println!("Expected: {:?}", show_bytes(out));
        assert_eq!(&res, out);
    }
}

#[test]
fn command_parse_leaves_the_rest() {
    let (rest, c) = Command::parse(b"QUIT\r\nRSET\r\n").unwrap();
    assert_eq!(c, Command::Quit);
    assert_eq!(rest, b"RSET\r\n");
    assert!(Command::parse(b"").unwrap_err().is_incomplete());
    assert!(Command::parse(b"QUI").unwrap_err().is_incomplete());
    assert!(!Command::parse(b"FOO\r\n").unwrap_err().is_incomplete());
}

#[test]
fn command_utf8_arguments() {
    let (_, c) = Command::parse("EHLO élégance.fr\r\n".as_bytes()).unwrap();
    match c {
        Command::Ehlo { hostname: Hostname::Utf8Domain { raw, punycode } } => {
            assert_eq!(raw, s("élégance.fr"));
            assert_eq!(punycode, s("xn--lgance-9uab.fr"));
        },
        x => panic!("Unexpected result: {:?}", x),
    }
    let (_, c) = Command::parse("VRFY tést\r\n".as_bytes()).unwrap();
    assert_eq!(c, Command::Vrfy { name: MaybeUtf8::Utf8(s("tést")) });
}

#[test]
fn command_write_to_appends() {
    let c: Command<&str> = Command::Rset;
    let mut out = b"QUIT\r\n".to_vec();
    c.write_to(&mut out);
    assert_eq!(out, b"QUIT\r\nRSET\r\n".to_vec());
    let p: Parameters<&str> = Parameters(vec![(ParameterName::Other("SIZE"), Some(MaybeUtf8::Ascii("10")))]);
    assert_eq!(flat(p.as_io_slices()), b" SIZE=10".to_vec());
    assert_eq!(flat(ParameterName::Other("BODY").as_io_slices()), b"BODY".to_vec());
}

#[test]
fn simple_command_written_parses_back() {
    let inputs: &[&[u8]] = &[
        b"DATA\r\n",
        b"quit \r\n",
        b"RsEt\t\r\n",
        b"VRFY\tJohn Smith\r\n",
        b"EXPN list-\xc3\xa9t\xc3\xa9\r\n",
        b"HELP\r\n",
        b"help  mail\r\n",
        b"NOOP a\rb\r\n",
        b"EHLO\tmx.example.org \r\n",
        b"helo [127.0.0.1]\r\n",
        b"EHLO [IPv6:::1]\r\n",
        b"HELO \xc3\xa9xample.org\r\n",
    ];
    for inp in inputs {
        let (_, c) = Command::parse(inp).unwrap();
        let mut w = Vec::new();
        c.write_to(&mut w);
        w.extend_from_slice(b"MAIL");
        let (rest, back) = Command::parse(&w).unwrap();
        assert_eq!(rest, b"MAIL");
        assert_eq!(back, c);
    }
}

#[test]
fn address_command_written_parses_back() {
    let inputs: &[&[u8]] = &[
        b"MAIL FROM:<>\r\n",
        b"MAIL FROM:<foo@bar.example.org> SIZE=10 BODY=8BITMIME\r\n",
        b"mail from:<@a.example,@b.example:joe@c.example>\r\n",
        b"RCPT TO:<\"john doe\"@example.org>\r\n",
        b"RCPT TO:postmaster NOTIFY=NEVER\r\n",
    ];
    for inp in inputs {
        let (_, c) = Command::parse(inp).unwrap();
        let mut w = Vec::new();
        c.write_to(&mut w);
        let (rest, back) = Command::parse(&w).unwrap();
        assert_eq!(rest, b"");
        assert_eq!(back, c);
    }
}

#[test]
fn parameters_written_parse_back() {
    let inputs: &[&[u8]] = &[
        b" SIZE=10 BODY=8BITMIME\r\n",
        b"\tSMTPUTF8 RET=HDRS ENVID=x\xc3\xa9y\r\n",
        b" A-1 B=\r\n",
        b"\r\n",
    ];
    for inp in inputs {
        let (_, p) = Parameters::parse_until(inp, 0, b" \t\r").unwrap();
        let mut w = Vec::new();
        p.write_to(&mut w);
        let n = w.len();
        w.extend_from_slice(b"\r\nRSET");
        let (end, back) = Parameters::parse_until(&w, 0, b" \t\r").unwrap();
        assert_eq!(end, n);
        assert_eq!(back, p);
    }
}
