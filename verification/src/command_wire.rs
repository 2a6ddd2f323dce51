//! What the wire form of a command parses back to: the command that was
//! written.

use vstd::prelude::*;
use vstd::utf8::valid_utf8;
use crate::lex::{
    ParseError, tag_spec, tag_no_case_spec, ascii_lower, eq_no_case, crlf, find_crlf,
    lemma_find_crlf, take_until_crlf_spec, one_of_spec, sp_tab_spec, opt_sp_tab_spec, span,
    valid_end, lemma_span, lemma_span_utf8, lemma_span_utf8_valid, Class, class_has, CR, LF, SP,
};
use crate::misc::{MaybeUtf8, maybe_utf8_of};
use crate::text::lemma_ascii_valid_utf8;
use crate::command::{
    CommandView, Verb, verb_word, verb_order, command_alt, command_from, command_spec,
    command_bytes, bare_cmd_spec, hello_cmd_spec, text_cmd_spec, opt_text_cmd_spec, mail_cmd_spec,
    rcpt_cmd_spec, text_arg, blank_or_cr,
};
use crate::misc::{HostnameView, hostname_spec, hostname_ascii_re, hostname_ascii_value, then_terminate, domain_scan};
use crate::host_local::lemma_hostname_local;

verus! {

broadcast use vstd::seq::group_seq_axioms;

/// Where a verb stands in the order in which the grammar tries the verbs.
pub open spec fn verb_index(v: Verb) -> int {
    match v {
        Verb::Data => 0,
        Verb::Ehlo => 1,
        Verb::Expn => 2,
        Verb::Helo => 3,
        Verb::Help => 4,
        Verb::MailFrom => 5,
        Verb::Noop => 6,
        Verb::Quit => 7,
        Verb::RcptTo => 8,
        Verb::Rset => 9,
        Verb::Vrfy => 10,
    }
}

/// The first of the first four bytes at which the words of two verbs differ.
spec fn first_diff(v: Verb, w: Verb) -> int {
    if verb_word(v)[0] != verb_word(w)[0] {
        0
    } else if verb_word(v)[1] != verb_word(w)[1] {
        1
    } else if verb_word(v)[2] != verb_word(w)[2] {
        2
    } else {
        3
    }
}

/// Two verbs differ, up to case, within their first four bytes.
proof fn lemma_verbs_differ(v: Verb, w: Verb)
    requires
        v != w,
    ensures
        0 <= first_diff(v, w) < 4,
        verb_word(v).len() >= 4,
        verb_word(w).len() >= 4,
        ascii_lower(verb_word(v)[first_diff(v, w)]) != ascii_lower(verb_word(w)[first_diff(v, w)]),
        verb_order()[verb_index(v)] == v,
{
}

/// A verb whose word differs from the input at some byte is not matched.
proof fn lemma_verb_mismatch(s: Seq<u8>, i: int, v: Verb, q: int)
    requires
        0 <= i,
        0 <= q < verb_word(v).len(),
        i + q < s.len(),
        ascii_lower(s[i + q]) != ascii_lower(verb_word(v)[q]),
    ensures
        tag_no_case_spec(s, i, verb_word(v)) == Err::<int, ParseError>(ParseError::Invalid),
{
    let t = verb_word(v);
    if s.len() - i >= t.len() {
        assert(s.subrange(i, i + t.len())[q] == s[i + q]);
        assert(!eq_no_case(s.subrange(i, i + t.len()), t));
    } else {
        assert(s.subrange(i, s.len() as int)[q] == s[i + q]);
        assert(t.subrange(0, s.len() - i)[q] == t[q]);
        assert(!eq_no_case(s.subrange(i, s.len() as int), t.subrange(0, s.len() - i)));
    }
}

/// A verb that is the input's own is matched.
pub(crate) proof fn lemma_verb_match(s: Seq<u8>, i: int, v: Verb)
    requires
        0 <= i,
        i + verb_word(v).len() <= s.len(),
        s.subrange(i, i + verb_word(v).len()) == verb_word(v),
    ensures
        tag_no_case_spec(s, i, verb_word(v)) == Ok::<int, ParseError>(i + verb_word(v).len()),
{
}

/// An alternative whose verb is not matched fails as invalid.
proof fn lemma_alt_invalid(s: Seq<u8>, i: int, v: Verb)
    requires
        tag_no_case_spec(s, i, verb_word(v)) == Err::<int, ParseError>(ParseError::Invalid),
    ensures
        command_alt(s, i, v) == Err::<(int, CommandView), ParseError>(ParseError::Invalid),
{
    reveal(bare_cmd_spec);
    reveal(hello_cmd_spec);
    reveal(text_cmd_spec);
    reveal(opt_text_cmd_spec);
    reveal(mail_cmd_spec);
    reveal(rcpt_cmd_spec);
}

/// Alternatives that fail as invalid are passed over.
proof fn lemma_from_skip(s: Seq<u8>, i: int, n: nat, m: nat)
    requires
        n <= m <= 11,
        forall|k: int|
            n <= k < m ==> command_alt(s, i, #[trigger] verb_order()[k]) == Err::<
                (int, CommandView),
                ParseError,
            >(ParseError::Invalid),
    ensures
        command_from(s, i, n) == command_from(s, i, m),
    decreases m - n,
{
    if n < m {
        lemma_from_skip(s, i, n + 1, m);
    }
}

/// On input that starts with the word of `w`, the alternatives tried
/// before `w` fail as invalid, and the grammar's outcome is that of `w`.
proof fn lemma_first_alt(s: Seq<u8>, w: Verb)
    requires
        verb_word(w).len() <= s.len(),
        s.subrange(0, verb_word(w).len() as int) == verb_word(w),
    ensures
        command_spec(s, 0) == command_from(s, 0, verb_index(w) as nat),
{
    assert forall|k: int| 0 <= k < verb_index(w) implies command_alt(
        s,
        0,
        #[trigger] verb_order()[k],
    ) == Err::<(int, CommandView), ParseError>(ParseError::Invalid) by {
        let v = verb_order()[k];
        assert(v != w);
        lemma_verbs_differ(v, w);
        let q = first_diff(v, w);
        assert(s[q] == s.subrange(0, verb_word(w).len() as int)[q]);
        lemma_verb_mismatch(s, 0, v, q);
        lemma_alt_invalid(s, 0, v);
    }
    lemma_from_skip(s, 0, 0, verb_index(w) as nat);
}

/// A command's text as the grammar gives it: valid UTF-8 with no `\r\n`
/// in it, tagged ASCII exactly when all of it is.
pub open spec fn cmd_text_ok(t: MaybeUtf8<Seq<u8>>) -> bool {
    &&& valid_utf8(t.bytes())
    &&& t == maybe_utf8_of(t.bytes())
    &&& forall|q: int|
        0 <= q && q + 1 < t.bytes().len() ==> !(t.bytes()[q] == CR && #[trigger] t.bytes()[q + 1] == LF)
}

/// A command made of a verb and at most a text (`DATA`, `QUIT`, `RSET`,
/// `EXPN`, `VRFY`, `HELP`, `NOOP`), with such a text.
pub open spec fn text_command(c: CommandView) -> bool {
    match c {
        CommandView::Data => true,
        CommandView::Quit => true,
        CommandView::Rset => true,
        CommandView::Expn { name } => cmd_text_ok(name),
        CommandView::Vrfy { name } => cmd_text_ok(name),
        CommandView::Help { subject } => cmd_text_ok(subject),
        CommandView::Noop { string } => cmd_text_ok(string),
        _ => false,
    }
}

/// The verb of a command.
pub open spec fn verb_of(c: CommandView) -> Verb {
    match c {
        CommandView::Data => Verb::Data,
        CommandView::Ehlo { .. } => Verb::Ehlo,
        CommandView::Expn { .. } => Verb::Expn,
        CommandView::Helo { .. } => Verb::Helo,
        CommandView::Help { .. } => Verb::Help,
        CommandView::Mail { .. } => Verb::MailFrom,
        CommandView::Noop { .. } => Verb::Noop,
        CommandView::Quit => Verb::Quit,
        CommandView::Rcpt { .. } => Verb::RcptTo,
        CommandView::Rset => Verb::Rset,
        CommandView::Vrfy { .. } => Verb::Vrfy,
    }
}

/// The text of a command, empty for one that has none.
pub open spec fn text_of(c: CommandView) -> MaybeUtf8<Seq<u8>> {
    match c {
        CommandView::Expn { name } => name,
        CommandView::Vrfy { name } => name,
        CommandView::Help { subject } => subject,
        CommandView::Noop { string } => string,
        _ => MaybeUtf8::Ascii(Seq::empty()),
    }
}

/// The first `\r\n` from `k` on is the one that follows a text with none in it.
proof fn lemma_find_crlf_after(s: Seq<u8>, k: int, x: Seq<u8>)
    requires
        0 <= k,
        k + x.len() + 2 <= s.len(),
        s.subrange(k, k + x.len()) == x,
        s[k + x.len()] == CR,
        s[k + x.len() + 1] == LF,
        forall|q: int| 0 <= q && q + 1 < x.len() ==> !(x[q] == CR && #[trigger] x[q + 1] == LF),
    ensures
        find_crlf(s, k) == Some(k + x.len()),
{
    let l = x.len() as int;
    lemma_find_crlf(s, k);
    assert forall|q: int| k <= q < k + l implies !(s[q] == CR && #[trigger] s[q + 1] == LF) by {
        assert(s[q] == s.subrange(k, k + l)[q - k]);
        if q + 1 < k + l {
            assert(s[q + 1] == s.subrange(k, k + l)[q - k + 1]);
            assert(x[q - k + 1] == x[(q - k) + 1]);
        }
    }
    match find_crlf(s, k) {
        Some(p) => {
            if p > k + l {
                assert(s[k + l] == CR && s[k + l + 1] == LF);
                assert(false);
            }
        },
        None => {
            assert(s[k + l] == CR && s[(k + l) + 1] == LF);
            assert(false);
        },
    }
}

/// The written form of a command made of a verb and at most a text is
/// read back as that command by the alternative of its verb.
#[verifier::rlimit(100)]
#[verifier::spinoff_prover]
proof fn lemma_text_alt(c: CommandView, rest: Seq<u8>)
    requires
        text_command(c),
    ensures
        command_alt(command_bytes(c) + rest, 0, verb_of(c)) == Ok::<(int, CommandView), ParseError>(
            (command_bytes(c).len() as int, c),
        ),
{
    reveal(bare_cmd_spec);
    reveal(text_cmd_spec);
    reveal(opt_text_cmd_spec);
    let v = verb_of(c);
    let w = command_bytes(c);
    let s = w + rest;
    lemma_verbs_differ(v, if v == Verb::Data { Verb::Quit } else { Verb::Data });
    assert(verb_word(v).len() == 4);
    assert(s.subrange(0, 4) =~= verb_word(v));
    lemma_verb_match(s, 0, v);
    match c {
        CommandView::Data | CommandView::Quit | CommandView::Rset => {
            assert(w =~= verb_word(v) + crlf());
            assert(s[4] == CR);
            assert(s.subrange(4, 6) =~= crlf());
        },
        _ => {
            let t = text_of(c);
            let x = t.bytes();
            assert(w =~= verb_word(v) + seq![SP] + x + crlf());
            assert(s[4] == SP);
            assert(seq![SP, 9u8].contains(SP)) by {
                assert(seq![SP, 9u8][0] == SP);
            }
            let l = x.len() as int;
            assert(s.subrange(5, 5 + l) =~= x);
            assert(s[5 + l] == w[5 + l]);
            assert(s[5 + l + 1] == w[5 + l + 1]);
            lemma_find_crlf_after(s, 5, x);
        },
    }
}

/// Writing a command other than `MAIL` and `RCPT` (with the text or the
/// hostname such a command has when it is read) and parsing what was
/// written gives the command back, and the parse ends where the command
/// ends, whatever follows it.
#[verifier::rlimit(100)]
#[verifier::spinoff_prover]
pub proof fn lemma_simple_command_parse(c: CommandView, rest: Seq<u8>)
    requires
        simple_command(c),
    ensures
        command_spec(command_bytes(c) + rest, 0) == Ok::<(int, CommandView), ParseError>(
            (command_bytes(c).len() as int, c),
        ),
{
    if text_command(c) {
        lemma_text_alt(c, rest);
    } else {
        lemma_hello_alt(c, rest);
    }
    lemma_alt_decides(c, rest);
}

/// The alternative of a command's own verb decides how its written form is read.
proof fn lemma_alt_decides(c: CommandView, rest: Seq<u8>)
    requires
        simple_command(c),
    ensures
        command_spec(command_bytes(c) + rest, 0) == command_from(
            command_bytes(c) + rest,
            0,
            verb_index(verb_of(c)) as nat,
        ),
{
    let v = verb_of(c);
    let s = command_bytes(c) + rest;
    lemma_verbs_differ(v, if v == Verb::Data { Verb::Quit } else { Verb::Data });
    assert(verb_word(v).len() == 4);
    assert(command_bytes(c).subrange(0, 4) =~= verb_word(v));
    assert(s.subrange(0, verb_word(v).len() as int) =~= verb_word(v));
    lemma_first_alt(s, v);
}

/// A text that the grammar reads up to the first `\r\n` is a command's text.
proof fn lemma_text_arg_parsed(s: Seq<u8>, k2: int)
    requires
        0 <= k2,
        take_until_crlf_spec(s, k2) is Ok,
        text_arg(s, k2, take_until_crlf_spec(s, k2)->Ok_0) is Ok,
    ensures
        cmd_text_ok(text_arg(s, k2, take_until_crlf_spec(s, k2)->Ok_0)->Ok_0.1),
{
    let p = take_until_crlf_spec(s, k2)->Ok_0;
    lemma_find_crlf(s, k2);
    let x = s.subrange(k2, p);
    assert forall|q: int| 0 <= q && q + 1 < x.len() implies !(x[q] == CR && #[trigger] x[q + 1] == LF) by {
        assert(x[q] == s[k2 + q]);
        assert(x[q + 1] == s[k2 + q + 1]);
    }
}

/// What an alternative reads is a command of its verb, and a command made
/// of a verb and at most a text comes with such a text.
#[verifier::rlimit(100)]
#[verifier::spinoff_prover]
proof fn lemma_alt_parsed(s: Seq<u8>, i: int, v: Verb)
    requires
        0 <= i,
        command_alt(s, i, v) is Ok,
    ensures
        verb_of(command_alt(s, i, v)->Ok_0.1) == v,
        simple_command_verb(v) ==> simple_command(command_alt(s, i, v)->Ok_0.1),
{
    reveal(bare_cmd_spec);
    reveal(hello_cmd_spec);
    reveal(text_cmd_spec);
    reveal(opt_text_cmd_spec);
    reveal(mail_cmd_spec);
    reveal(rcpt_cmd_spec);
    let k = i + verb_word(v).len();
    match v {
        Verb::Expn | Verb::Vrfy => {
            let k2 = one_of_spec(s, k, seq![SP, 9u8])->Ok_0;
            lemma_text_arg_parsed(s, k2);
        },
        Verb::Help | Verb::Noop => {
            if one_of_spec(s, k, seq![SP, 9u8]) is Ok {
                let k2 = one_of_spec(s, k, seq![SP, 9u8])->Ok_0;
                lemma_text_arg_parsed(s, k2);
            } else {
                lemma_ascii_valid_utf8(Seq::<u8>::empty());
                assert(maybe_utf8_of(Seq::<u8>::empty()) == MaybeUtf8::Ascii(Seq::<u8>::empty()));
            }
        },
        Verb::Ehlo | Verb::Helo => {
            let k2 = sp_tab_spec(s, k)->Ok_0;
            lemma_span(Class::SpTab, s, k);
            lemma_hello_parsed(s, k2);
        },
        _ => {},
    }
}

/// A hostname read at `k2` in a command is one that its own bytes are read as.
#[verifier::rlimit(100)]
#[verifier::spinoff_prover]
proof fn lemma_hello_parsed(s: Seq<u8>, k2: int)
    requires
        0 <= k2,
        hostname_spec(s, k2, blank_or_cr()) is Ok,
    ensures
        hostname_reads_as_itself(hostname_spec(s, k2, blank_or_cr())->Ok_0.1),
{
    let term = blank_or_cr();
    let (k3, h) = hostname_spec(s, k2, term)->Ok_0;
    lemma_hostname_parsed(s, k2, term);
    let raw = h.raw_bytes();
    let l = raw.len() as int;
    let s1 = raw + seq![CR];
    assert(crate::host_local::stop_byte(s[k3])) by {
        let q = choose|q: int| 0 <= q < term.len() && term[q] == s[k3];
        assert(q == 0 || q == 1 || q == 2);
    }
    assert(s1.subrange(0, l) =~= raw);
    assert(s1[l] == CR);
    assert(term[2] == CR);
    assert forall|q: int| 0 <= q < term.len() implies crate::host_local::stop_byte(#[trigger] term[q]) by {
        assert(q == 0 || q == 1 || q == 2);
    }
    lemma_hostname_local(s, k2, s1, 0, k3, term, term, h);
}

/// What the grammar reads from the `n`-th alternative on is what one of them reads.
proof fn lemma_from_parsed(s: Seq<u8>, i: int, n: nat)
    requires
        command_from(s, i, n) is Ok,
    ensures
        exists|m: int|
            n <= m < 11 && command_alt(s, i, #[trigger] verb_order()[m]) == command_from(s, i, n),
    decreases 11 - n,
{
    if n < 11 {
        match command_alt(s, i, verb_order()[n as int]) {
            Err(ParseError::Invalid) => {
                lemma_from_parsed(s, i, n + 1);
                let m = choose|m: int|
                    n + 1 <= m < 11 && command_alt(s, i, #[trigger] verb_order()[m]) == command_from(
                        s,
                        i,
                        n + 1,
                    );
                assert(n <= m < 11 && command_alt(s, i, verb_order()[m]) == command_from(s, i, n));
            },
            _ => {
                assert(command_alt(s, i, verb_order()[n as int]) == command_from(s, i, n));
            },
        }
    }
}

/// Parsing a command, writing it and parsing what was written gives the
/// same command, and the parse ends where the written command ends,
/// whatever follows it.
#[verifier::rlimit(100)]
#[verifier::spinoff_prover]
pub proof fn lemma_command_round_trip(b: Seq<u8>, rest: Seq<u8>)
    requires
        command_spec(b, 0) is Ok,
    ensures
        ({
            let c = command_spec(b, 0)->Ok_0.1;
            command_spec(command_bytes(c) + rest, 0) == Ok::<(int, CommandView), ParseError>(
                (command_bytes(c).len() as int, c),
            )
        }),
{
    let c = command_spec(b, 0)->Ok_0.1;
    lemma_from_parsed(b, 0, 0);
    let m = choose|m: int| 0 <= m < 11 && command_alt(b, 0, #[trigger] verb_order()[m]) == command_from(b, 0, 0);
    let v = verb_order()[m];
    lemma_alt_parsed(b, 0, v);
    if simple_command_verb(v) {
        lemma_simple_command_parse(c, rest);
    } else {
        let w = command_bytes(c) + rest;
        if v == Verb::MailFrom {
            crate::mail_wire::lemma_mail_round(b, rest);
        } else {
            crate::mail_wire::lemma_rcpt_round(b, rest);
        }
        lemma_verbs_differ(v, Verb::Data);
        assert(w.subrange(0, verb_word(v).len() as int) =~= verb_word(v));
        lemma_first_alt(w, v);
    }
}


/// A hostname that its own bytes, followed by `\r`, are read as.
pub open spec fn hostname_reads_as_itself(h: HostnameView) -> bool {
    hostname_spec(h.raw_bytes() + seq![CR], 0, blank_or_cr()) == Ok::<(int, HostnameView), ParseError>(
        (h.raw_bytes().len() as int, h),
    )
}

/// What the hostname grammar reads is the hostname's own bytes, followed
/// by one of `term`, and starts with neither a blank nor `\r`.
pub(crate) proof fn lemma_hostname_parsed(s: Seq<u8>, i: int, term: Seq<u8>)
    requires
        0 <= i,
        hostname_spec(s, i, term) is Ok,
    ensures
        ({
            let (j, h) = hostname_spec(s, i, term)->Ok_0;
            &&& i < j < s.len()
            &&& h.raw_bytes() == s.subrange(i, j)
            &&& term.contains(s[j])
            &&& !class_has(Class::SpTab, s[i])
            &&& s[i] != CR
        }),
{
    let (j, h) = hostname_spec(s, i, term)->Ok_0;
    let ascii = match then_terminate(hostname_ascii_re(s, i), s, term) {
        Ok(j) => match hostname_ascii_value(s, i, j) {
            Some(h) => Ok((j, h)),
            None => Err(ParseError::Invalid),
        },
        Err(e) => Err(e),
    };
    if ascii is Ok {
        let j0 = hostname_ascii_re(s, i)->Ok_0;
        assert(j0 == j);
        assert(one_of_spec(s, j, term) is Ok);
        if s[i] != 91u8 {
            // a domain starts with a letter or a digit
            assert(domain_scan(s, i, 0, None) is Ok);
            assert(i < s.len());
            if !crate::lex::is_alnum(s[i]) {
                assert(domain_scan(s, i, 0, None) == Err::<int, ParseError>(ParseError::Invalid));
            }
            crate::misc::lemma_domain_scan(s, i, i, 0, None);
        } else {
            if s[i + 1] == 73 {
                lemma_span(Class::V6Char, s, i + 6);
            } else {
                lemma_span(Class::V4Char, s, i + 1);
            }
        }
        assert(i < j < s.len());
    } else {
        lemma_span_utf8_valid(Class::HostChar, s, i);
        lemma_span_utf8(Class::HostChar, s, i, valid_end(s, i));
        assert(one_of_spec(s, j, term) is Ok);
    }
}

/// The hostname of an `EHLO` or `HELO` command.
pub open spec fn hostname_of(c: CommandView) -> HostnameView {
    match c {
        CommandView::Ehlo { hostname } => hostname,
        CommandView::Helo { hostname } => hostname,
        _ => arbitrary(),
    }
}

/// How each part of a written `EHLO` or `HELO` command is read.
#[verifier::rlimit(100)]
#[verifier::spinoff_prover]
proof fn lemma_hello_parts(c: CommandView, rest: Seq<u8>)
    requires
        hello_command(c),
    ensures
        ({
            let s = command_bytes(c) + rest;
            let h = hostname_of(c);
            let l = h.raw_bytes().len() as int;
            &&& command_bytes(c).len() == 7 + l
            &&& tag_no_case_spec(s, 0, verb_word(verb_of(c))) == Ok::<int, ParseError>(4)
            &&& sp_tab_spec(s, 4) == Ok::<int, ParseError>(5)
            &&& hostname_spec(s, 5, blank_or_cr()) == Ok::<(int, HostnameView), ParseError>((5 + l, h))
            &&& opt_sp_tab_spec(s, 5 + l) == Ok::<int, ParseError>(5 + l)
            &&& tag_spec(s, 5 + l, crlf()) == Ok::<int, ParseError>(7 + l)
        }),
{
    let v = verb_of(c);
    let h = hostname_of(c);
    let raw = h.raw_bytes();
    let l = raw.len() as int;
    let w = command_bytes(c);
    let s = w + rest;
    let s1 = raw + seq![CR];
    lemma_verbs_differ(v, Verb::Data);
    assert(verb_word(v).len() == 4);
    assert(w =~= verb_word(v) + seq![SP] + raw + crlf());
    assert(s.subrange(0, 4) =~= verb_word(v));
    lemma_verb_match(s, 0, v);
    lemma_hostname_parsed(s1, 0, blank_or_cr());
    assert(s1[0] == raw[0]);
    assert(s[5] == raw[0]);
    assert(s[4] == SP);
    assert(sp_tab_spec(s, 4) == Ok::<int, ParseError>(5)) by {
        lemma_span(Class::SpTab, s, 4);
        lemma_span(Class::SpTab, s, 5);
        assert(span(Class::SpTab, s, 5) == 5);
        assert(span(Class::SpTab, s, 4) == span(Class::SpTab, s, 5));
    }
    assert(s.subrange(5, 5 + l) =~= raw);
    assert(s[5 + l] == CR);
    assert(s[5 + l + 1] == LF);
    assert(s1.subrange(0, l) =~= raw);
    assert(blank_or_cr()[2] == CR);
    assert forall|q: int| 0 <= q < blank_or_cr().len() implies crate::host_local::stop_byte(
        #[trigger] blank_or_cr()[q],
    ) by {
        assert(q == 0 || q == 1 || q == 2);
    }
    lemma_hostname_local(s1, 0, s, 5, l, blank_or_cr(), blank_or_cr(), h);
    assert(opt_sp_tab_spec(s, 5 + l) == Ok::<int, ParseError>(5 + l)) by {
        lemma_span(Class::SpTab, s, 5 + l);
    }
    assert(s.subrange(5 + l, 5 + l + 2) =~= crlf());
}

/// The written form of `EHLO` or `HELO` with a hostname that its own bytes
/// are read as is read back by the alternative of its verb.
proof fn lemma_hello_alt(c: CommandView, rest: Seq<u8>)
    requires
        hello_command(c),
    ensures
        command_alt(command_bytes(c) + rest, 0, verb_of(c)) == Ok::<(int, CommandView), ParseError>(
            (command_bytes(c).len() as int, c),
        ),
{
    reveal(hello_cmd_spec);
    lemma_hello_parts(c, rest);
}

/// A command other than `MAIL` and `RCPT`, with the text or the hostname
/// such a command has when it is read.
pub open spec fn simple_command(c: CommandView) -> bool {
    text_command(c) || hello_command(c)
}

/// `EHLO` or `HELO` with a hostname that its own bytes are read as.
pub open spec fn hello_command(c: CommandView) -> bool {
    match c {
        CommandView::Ehlo { hostname } => hostname_reads_as_itself(hostname),
        CommandView::Helo { hostname } => hostname_reads_as_itself(hostname),
        _ => false,
    }
}

/// The verbs of the commands other than `MAIL` and `RCPT`.
pub open spec fn simple_command_verb(v: Verb) -> bool {
    v != Verb::MailFrom && v != Verb::RcptTo
}

} // verus!
