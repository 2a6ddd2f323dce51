//! What the wire form of a `MAIL` or `RCPT` command that was read parses
//! back to: the same command.

use vstd::prelude::*;
use crate::lex::{
    ParseError, Class, tag_spec, tag_no_case_spec, opt_sp_tab_spec, crlf, lemma_span, LT, GT, AT, COLON,
    CR, LF, SP, TAB,
};
use crate::misc::{
    MaybeUtf8, EmailView, PathView, email_spec, email_bytes, path_spec, path_bytes, unbracketed_spec,
    email_with_path_spec,
};
use crate::command::{
    cmd_address_spec, address_bytes, blank_or_cr, params_tail_spec, params_bytes, mail_cmd_spec,
    rcpt_cmd_spec, CommandView, Verb, verb_word, command_bytes, command_alt,
};
use crate::param_wire::{params_term_ok, lemma_params_parsed, lemma_params_at};
use crate::command_wire::lemma_verb_match;
use crate::host_local::{agree, stop_byte};
use crate::addr_wire::{
    addr_term_ok, bracket_term, bracket_term_at, route_term, lemma_addr_terms, lemma_path_local,
    lemma_email_local, lemma_email_parsed,
};

verus! {

broadcast use vstd::seq::group_seq_axioms;

/// A source route that was read ends after where it starts.
proof fn lemma_path_end(b: Seq<u8>, i: int)
    requires
        0 <= i,
        path_spec(b, i, route_term()) is Ok,
    ensures
        i < path_spec(b, i, route_term())->Ok_0.0,
{
    crate::addr_wire::lemma_path_parts(b, i);
    crate::command_wire::lemma_hostname_parsed(b, i + 1, route_term());
}

/// How an address with its optional source route, bare, was read: the
/// route, if any, up to a `:`, then the address from `r`.
#[verifier::rlimit(100)]
#[verifier::spinoff_prover]
proof fn lemma_unbracketed_parts(b: Seq<u8>, i: int, t: Seq<u8>, ta: Seq<u8>) -> (r: int)
    requires
        0 <= i,
        unbracketed_spec(b, i, t, ta) is Ok,
    ensures
        ({
            let (k3, (p, em)) = unbracketed_spec(b, i, t, ta)->Ok_0;
            &&& i <= r
            &&& email_spec(b, r, t, ta) == Ok::<(int, EmailView), ParseError>((k3, em))
            &&& (p matches Some(pv) ==> i < r && r - 1 < b.len() && path_spec(b, i, route_term())
                == Ok::<(int, PathView), ParseError>((r - 1, pv)) && b[r - 1] == COLON)
        }),
{
    if path_spec(b, i, route_term()) is Ok && tag_spec(b, path_spec(b, i, route_term())->Ok_0.0, seq![COLON]) is Ok {
        let kp = path_spec(b, i, route_term())->Ok_0.0;
        lemma_path_end(b, i);
        assert(b.len() - kp >= 1);
        assert(b.subrange(kp, kp + 1)[0] == b[kp]);
        kp + 1
    } else {
        i
    }
}

/// How an address with its optional source route was read: between `<`
/// and `>` (`r.1`) from `r.0`, or bare from `r.0`.
#[verifier::rlimit(100)]
#[verifier::spinoff_prover]
proof fn lemma_address_cases(b: Seq<u8>, k2: int) -> (r: (int, bool))
    requires
        0 <= k2,
        cmd_address_spec(b, k2) is Ok,
    ensures
        r.1 ==> unbracketed_spec(b, r.0, bracket_term(), bracket_term_at()) is Ok && r.0 == k2 + 1
            && cmd_address_spec(b, k2)->Ok_0.1 == unbracketed_spec(b, r.0, bracket_term(), bracket_term_at())->Ok_0.1
            && cmd_address_spec(b, k2)->Ok_0.0 == unbracketed_spec(b, r.0, bracket_term(), bracket_term_at())->Ok_0.0 + 1
            && cmd_address_spec(b, k2)->Ok_0.0 <= b.len(),
        !r.1 ==> unbracketed_spec(b, r.0, blank_or_cr(), blank_or_cr().push(AT)) is Ok && r.0 == k2
            && cmd_address_spec(b, k2)->Ok_0.1 == unbracketed_spec(b, r.0, blank_or_cr(), blank_or_cr().push(AT))->Ok_0.1
            && cmd_address_spec(b, k2)->Ok_0.0 == unbracketed_spec(b, r.0, blank_or_cr(), blank_or_cr().push(AT))->Ok_0.0,
{
    reveal(email_with_path_spec);
    if tag_spec(b, k2, seq![LT]) is Ok && unbracketed_spec(b, k2 + 1, bracket_term(), bracket_term_at()) is Ok
        && tag_spec(b, unbracketed_spec(b, k2 + 1, bracket_term(), bracket_term_at())->Ok_0.0, seq![GT]) is Ok {
        (k2 + 1, true)
    } else {
        (k2, false)
    }
}

/// Where the parts of an address that was read stand: its source route
/// from `r.0` up to the `:` before `r.1` if it has one, and the address from
/// `r.1` up to `r.2`, read with the terminators `r.3` and `r.4`.
#[verifier::rlimit(100)]
#[verifier::spinoff_prover]
proof fn lemma_address_parsed(b: Seq<u8>, k2: int) -> (r: (int, int, int, Seq<u8>, Seq<u8>))
    requires
        0 <= k2,
        cmd_address_spec(b, k2) is Ok,
    ensures
        ({
            let (k3, (p, em)) = cmd_address_spec(b, k2)->Ok_0;
            let (ps, y, e, t, ta) = r;
            &&& addr_term_ok(t)
            &&& addr_term_ok(ta)
            &&& 0 <= y
            &&& email_spec(b, y, t, ta) == Ok::<(int, EmailView), ParseError>((e, em))
            &&& (p matches Some(pv) ==> 0 <= ps < y && y - 1 < b.len() && path_spec(b, ps, route_term())
                == Ok::<(int, PathView), ParseError>((y - 1, pv)) && b[y - 1] == COLON)
        }),
{
    lemma_addr_terms();
    let (i, br) = lemma_address_cases(b, k2);
    let (t, ta) = if br {
        (bracket_term(), bracket_term_at())
    } else {
        (blank_or_cr(), blank_or_cr().push(AT))
    };
    let y = lemma_unbracketed_parts(b, i, t, ta);
    let e = email_spec(b, y, t, ta)->Ok_0.0;
    (i, y, e, t, ta)
}

/// A bare address with its optional source route, read from its parts.
#[verifier::rlimit(100)]
#[verifier::spinoff_prover]
proof fn lemma_unbracketed_build(
    w: Seq<u8>,
    i: int,
    t: Seq<u8>,
    ta: Seq<u8>,
    k: int,
    p: Option<PathView>,
    e: int,
    em: EmailView,
)
    requires
        0 <= i,
        p matches Some(pv) ==> path_spec(w, i, route_term()) == Ok::<(int, PathView), ParseError>(
            (k - 1, pv),
        ) && 0 <= k - 1 < w.len() && w[k - 1] == COLON,
        p is None ==> path_spec(w, i, route_term()) == Err::<(int, PathView), ParseError>(
            ParseError::Invalid,
        ) && k == i,
        email_spec(w, k, t, ta) == Ok::<(int, EmailView), ParseError>((e, em)),
    ensures
        unbracketed_spec(w, i, t, ta) == Ok::<(int, (Option<PathView>, EmailView)), ParseError>(
            (e, (p, em)),
        ),
{
    match p {
        Some(pv) => {
            assert(w.subrange(k - 1, k) =~= seq![COLON]);
        },
        None => {},
    }
}

/// An address between `<` and `>`, read from its parts.
proof fn lemma_bracketed_build(w: Seq<u8>, pos: int, e: int, p: Option<PathView>, em: EmailView)
    requires
        0 <= pos < w.len(),
        w[pos] == LT,
        unbracketed_spec(w, pos + 1, bracket_term(), bracket_term_at()) == Ok::<
            (int, (Option<PathView>, EmailView)),
            ParseError,
        >((e, (p, em))),
        0 <= e < w.len(),
        w[e] == GT,
    ensures
        cmd_address_spec(w, pos) == Ok::<(int, (Option<PathView>, EmailView)), ParseError>(
            (e + 1, (p, em)),
        ),
{
    reveal(email_with_path_spec);
    assert(w.subrange(pos, pos + 1) =~= seq![LT]);
    assert(w.subrange(e, e + 1) =~= seq![GT]);
}

/// A source route that starts with neither `@` is not read.
proof fn lemma_no_path(w: Seq<u8>, i: int)
    requires
        0 <= i < w.len(),
        w[i] != AT,
    ensures
        path_spec(w, i, route_term()) == Err::<(int, PathView), ParseError>(ParseError::Invalid),
{
    assert(w.subrange(i, i + 1)[0] != crate::misc::at_sign()[0]);
}

/// The bytes of the wire form of an address, with its source route.
proof fn lemma_address_layout(w: Seq<u8>, pos: int, p: Option<PathView>, em: EmailView)
    requires
        0 <= pos,
        pos + address_bytes(p, Some(em)).len() <= w.len(),
        w.subrange(pos, pos + address_bytes(p, Some(em)).len()) == address_bytes(p, Some(em)),
    ensures
        ({
            let pl: int = match p {
                Some(pv) => path_bytes(pv).len() + 1int,
                None => 0,
            };
            let k = pos + 1 + pl;
            let eb = email_bytes(em);
            &&& address_bytes(p, Some(em)).len() == 2 + pl + eb.len()
            &&& w[pos] == LT
            &&& (p matches Some(pv) ==> w.subrange(pos + 1, pos + 1 + path_bytes(pv).len()) == path_bytes(pv)
                && w[pos + 1 + path_bytes(pv).len()] == COLON)
            &&& w.subrange(k, k + eb.len()) == eb
            &&& w[k + eb.len()] == GT
        }),
{
    let ab = address_bytes(p, Some(em));
    let eb = email_bytes(em);
    assert forall|q: int| 0 <= q < ab.len() implies #[trigger] w[pos + q] == ab[q] by {
        assert(w[pos + q] == w.subrange(pos, pos + ab.len())[q]);
    }
    let pl: int = match p {
        Some(pv) => path_bytes(pv).len() + 1int,
        None => 0,
    };
    let k = pos + 1 + pl;
    assert(ab =~= seq![LT] + match p {
        Some(pv) => path_bytes(pv) + seq![COLON],
        None => Seq::<u8>::empty(),
    } + eb + seq![GT]);
    assert(w[pos + 0] == ab[0]);
    match p {
        Some(pv) => {
            let pb = path_bytes(pv);
            let pbl = pb.len() as int;
            assert(w.subrange(pos + 1, pos + 1 + pbl) =~= pb) by {
                assert forall|q: int| 0 <= q < pbl implies w.subrange(pos + 1, pos + 1 + pbl)[q] == pb[q] by {
                    assert(w[pos + (1 + q)] == ab[1 + q]);
                }
            }
            assert(w[pos + (1 + pbl)] == ab[1 + pbl]);
        },
        None => {},
    }
    assert(w.subrange(k, k + eb.len()) =~= eb) by {
        assert forall|q: int| 0 <= q < eb.len() implies w.subrange(k, k + eb.len())[q] == eb[q] by {
            assert(w[pos + (1 + pl + q)] == ab[1 + pl + q]);
        }
    }
    assert(w[pos + (1 + pl + eb.len())] == ab[1 + pl + eb.len()]);
}

/// The source route of an address that was read, written at `pos + 1`, is
/// read back there, or, with none, nothing is read there as one.
#[verifier::rlimit(100)]
#[verifier::spinoff_prover]
proof fn lemma_address_path_part(
    w: Seq<u8>,
    pos: int,
    p: Option<PathView>,
    em: EmailView,
    b: Seq<u8>,
    ps: int,
    y: int,
    e: int,
    t: Seq<u8>,
    ta: Seq<u8>,
)
    requires
        0 <= pos,
        addr_term_ok(t),
        addr_term_ok(ta),
        0 <= y,
        email_spec(b, y, t, ta) == Ok::<(int, EmailView), ParseError>((e, em)),
        p matches Some(pv) ==> 0 <= ps < y && y - 1 < b.len() && path_spec(b, ps, route_term()) == Ok::<
            (int, PathView),
            ParseError,
        >((y - 1, pv)) && b[y - 1] == COLON,
        pos + address_bytes(p, Some(em)).len() <= w.len(),
        w.subrange(pos, pos + address_bytes(p, Some(em)).len()) == address_bytes(p, Some(em)),
    ensures
        p matches Some(pv) ==> path_spec(w, pos + 1, route_term()) == Ok::<(int, PathView), ParseError>(
            (pos + 1 + path_bytes(pv).len(), pv),
        ),
        p is None ==> path_spec(w, pos + 1, route_term()) == Err::<(int, PathView), ParseError>(
            ParseError::Invalid,
        ),
{
    lemma_address_layout(w, pos, p, em);
    lemma_email_parsed(b, y, t, ta);
    match p {
        Some(pv) => {
            assert(agree(b, ps, b, ps, y - 1)) by {
                assert(stop_byte(b[y - 1]));
            }
            lemma_path_local(b, ps, b, ps, y - 1);
            assert(agree(b, ps, w, pos + 1, y - 1));
            lemma_path_local(b, ps, w, pos + 1, y - 1);
        },
        None => {
            let eb = email_bytes(em);
            assert(w[pos + 1] == b[y]) by {
                assert(w[pos + 1] == w.subrange(pos + 1, pos + 1 + eb.len())[0]);
                assert(eb[0] == b.subrange(y, e)[0]);
            }
            lemma_no_path(w, pos + 1);
        },
    }
}

/// The address that was read, written after its source route, is read back there.
#[verifier::rlimit(100)]
#[verifier::spinoff_prover]
proof fn lemma_address_email_part(
    w: Seq<u8>,
    pos: int,
    p: Option<PathView>,
    em: EmailView,
    b: Seq<u8>,
    y: int,
    e: int,
    t: Seq<u8>,
    ta: Seq<u8>,
)
    requires
        0 <= pos,
        addr_term_ok(t),
        addr_term_ok(ta),
        0 <= y,
        email_spec(b, y, t, ta) == Ok::<(int, EmailView), ParseError>((e, em)),
        pos + address_bytes(p, Some(em)).len() <= w.len(),
        w.subrange(pos, pos + address_bytes(p, Some(em)).len()) == address_bytes(p, Some(em)),
    ensures
        ({
            let pl: int = match p {
                Some(pv) => path_bytes(pv).len() + 1int,
                None => 0,
            };
            let k = pos + 1 + pl;
            email_spec(w, k, bracket_term(), bracket_term_at()) == Ok::<(int, EmailView), ParseError>(
                (k + email_bytes(em).len(), em),
            )
        }),
{
    lemma_address_layout(w, pos, p, em);
    lemma_email_parsed(b, y, t, ta);
    lemma_addr_terms();
    let pl: int = match p {
        Some(pv) => path_bytes(pv).len() + 1int,
        None => 0,
    };
    let k = pos + 1 + pl;
    assert(agree(b, y, w, k, e));
    lemma_email_local(b, y, w, k, e, t, ta, bracket_term(), bracket_term_at(), em);
}

/// The wire form of an address that was read, with its source route,
/// is read back as them where it stands.
#[verifier::rlimit(100)]
#[verifier::spinoff_prover]
proof fn lemma_address_reparse(
    w: Seq<u8>,
    pos: int,
    p: Option<PathView>,
    em: EmailView,
    b: Seq<u8>,
    ps: int,
    y: int,
    e: int,
    t: Seq<u8>,
    ta: Seq<u8>,
)
    requires
        0 <= pos,
        addr_term_ok(t),
        addr_term_ok(ta),
        0 <= y,
        email_spec(b, y, t, ta) == Ok::<(int, EmailView), ParseError>((e, em)),
        p matches Some(pv) ==> 0 <= ps < y && y - 1 < b.len() && path_spec(b, ps, route_term()) == Ok::<
            (int, PathView),
            ParseError,
        >((y - 1, pv)) && b[y - 1] == COLON,
        pos + address_bytes(p, Some(em)).len() <= w.len(),
        w.subrange(pos, pos + address_bytes(p, Some(em)).len()) == address_bytes(p, Some(em)),
    ensures
        cmd_address_spec(w, pos) == Ok::<(int, (Option<PathView>, EmailView)), ParseError>(
            (pos + address_bytes(p, Some(em)).len(), (p, em)),
        ),
{
    lemma_address_layout(w, pos, p, em);
    lemma_address_path_part(w, pos, p, em, b, ps, y, e, t, ta);
    lemma_address_email_part(w, pos, p, em, b, y, e, t, ta);
    let pl: int = match p {
        Some(pv) => path_bytes(pv).len() + 1int,
        None => 0,
    };
    let k = pos + 1 + pl;
    let eb = email_bytes(em);
    lemma_unbracketed_build(w, pos + 1, bracket_term(), bracket_term_at(), k, p, k + eb.len(), em);
    lemma_bracketed_build(w, pos, k + eb.len(), p, em);
}

/// Blanks and `\r` end parameters.
proof fn lemma_blank_term()
    ensures
        params_term_ok(blank_or_cr()),
{
    let t = blank_or_cr();
    assert(t[0] == SP && t[1] == TAB && t[2] == CR);
    assert forall|q: int| 0 <= q < t.len() implies crate::host_local::blank_byte(#[trigger] t[q]) by {
        assert(q == 0 || q == 1 || q == 2);
    }
}

/// Parameters that were read at the end of a command are read back
/// from their wire form, followed by `\r\n`, where it stands.
proof fn lemma_tail_reparse(w: Seq<u8>, o: int, b: Seq<u8>, k3: int)
    requires
        0 <= k3 <= b.len(),
        params_tail_spec(b, k3) is Ok,
        0 <= o,
        o + params_bytes(params_tail_spec(b, k3)->Ok_0.1).len() + 2 <= w.len(),
        w.subrange(o, o + params_bytes(params_tail_spec(b, k3)->Ok_0.1).len() + 2) == params_bytes(
            params_tail_spec(b, k3)->Ok_0.1,
        ) + crlf(),
    ensures
        params_tail_spec(w, o) == Ok::<(int, Seq<(Seq<u8>, Option<MaybeUtf8<Seq<u8>>>)>), ParseError>(
            (
                o + params_bytes(params_tail_spec(b, k3)->Ok_0.1).len() + 2,
                params_tail_spec(b, k3)->Ok_0.1,
            ),
        ),
{
    let ps = params_tail_spec(b, k3)->Ok_0.1;
    let pb = params_bytes(ps);
    let l = pb.len() as int;
    lemma_blank_term();
    lemma_params_parsed(b, k3, blank_or_cr());
    assert(w.subrange(o, o + l) =~= pb) by {
        assert forall|q: int| 0 <= q < l implies w.subrange(o, o + l)[q] == pb[q] by {
            assert(w[o + q] == w.subrange(o, o + l + 2)[q]);
        }
    }
    assert(w[o + l] == CR) by {
        assert(w[o + l] == w.subrange(o, o + l + 2)[l]);
    }
    assert(w[o + l + 1] == LF) by {
        assert(w[o + l + 1] == w.subrange(o, o + l + 2)[l + 1]);
    }
    lemma_params_at(w, o, ps, blank_or_cr());
    assert(opt_sp_tab_spec(w, o + l) == Ok::<int, ParseError>(o + l)) by {
        lemma_span(Class::SpTab, w, o + l);
    }
    assert(w.subrange(o + l, o + l + 2) =~= crlf());
}

/// What the start of `MAIL` or `RCPT` reads: the verb, then no blanks in
/// its wire form.
proof fn lemma_verb_start(w: Seq<u8>, v: Verb)
    requires
        verb_word(v).len() < w.len(),
        w.subrange(0, verb_word(v).len() as int) == verb_word(v),
        w[verb_word(v).len() as int] == LT,
    ensures
        tag_no_case_spec(w, 0, verb_word(v)) == Ok::<int, ParseError>(verb_word(v).len() as int),
        opt_sp_tab_spec(w, verb_word(v).len() as int) == Ok::<int, ParseError>(verb_word(v).len() as int),
{
    lemma_verb_match(w, 0, v);
    lemma_span(Class::SpTab, w, verb_word(v).len() as int);
}

/// How `MAIL` was read: its verb, blanks up to `r.0`, `<>` or an address
/// up to `r.1`, then its parameters.
#[verifier::rlimit(100)]
#[verifier::spinoff_prover]
proof fn lemma_mail_parts(b: Seq<u8>) -> (r: (int, int))
    requires
        mail_cmd_spec(b, 0) is Ok,
    ensures
        ({
            let (k2, k3) = r;
            let c = mail_cmd_spec(b, 0)->Ok_0.1;
            &&& 0 <= k2
            &&& 0 <= k3 <= b.len()
            &&& c matches CommandView::Mail { path, email, params } && (email is None ==> path is None
                && k3 == k2 + 2) && (email matches Some(em) ==> cmd_address_spec(b, k2) == Ok::<
                (int, (Option<PathView>, EmailView)),
                ParseError,
            >((k3, (path, em)))) && params_tail_spec(b, k3) is Ok && params == params_tail_spec(
                b,
                k3,
            )->Ok_0.1
        }),
{
    reveal(mail_cmd_spec);
    assert(verb_word(Verb::MailFrom).len() == 10);
    let k2 = opt_sp_tab_spec(b, 10)->Ok_0;
    lemma_span(Class::SpTab, b, 10);
    let addr = match tag_spec(b, k2, seq![LT, GT]) {
        Ok(k3) => Ok((k3, None)),
        Err(ParseError::Incomplete) => Err(ParseError::Incomplete),
        Err(ParseError::Invalid) => match cmd_address_spec(b, k2) {
            Ok((k3, a)) => Ok((k3, Some(a))),
            Err(e) => Err(e),
        },
    };
    let k3 = addr->Ok_0.0;
    if tag_spec(b, k2, seq![LT, GT]) is Err {
        lemma_address_end(b, k2);
    }
    (k2, k3)
}

/// An address that was read ends within the input.
proof fn lemma_address_end(b: Seq<u8>, k2: int)
    requires
        0 <= k2,
        cmd_address_spec(b, k2) is Ok,
    ensures
        k2 < cmd_address_spec(b, k2)->Ok_0.0 <= b.len(),
{
    reveal(email_with_path_spec);
    lemma_addr_terms();
    let (i, br) = lemma_address_cases(b, k2);
    let (t, ta) = if br {
        (bracket_term(), bracket_term_at())
    } else {
        (blank_or_cr(), blank_or_cr().push(AT))
    };
    let y = lemma_unbracketed_parts(b, i, t, ta);
    lemma_email_parsed(b, y, t, ta);
}

/// `MAIL`, read from its parts.
proof fn lemma_mail_build(w: Seq<u8>, k3: int, end: int, c: CommandView)
    requires
        tag_no_case_spec(w, 0, verb_word(Verb::MailFrom)) == Ok::<int, ParseError>(10),
        opt_sp_tab_spec(w, 10) == Ok::<int, ParseError>(10),
        c matches CommandView::Mail { path, email, params } && (email is None ==> path is None
            && tag_spec(w, 10, seq![LT, GT]) == Ok::<int, ParseError>(12) && k3 == 12) && (email matches Some(
            em,
        ) ==> tag_spec(w, 10, seq![LT, GT]) == Err::<int, ParseError>(ParseError::Invalid)
            && cmd_address_spec(w, 10) == Ok::<(int, (Option<PathView>, EmailView)), ParseError>(
            (k3, (path, em)),
        )) && params_tail_spec(w, k3) == Ok::<
            (int, Seq<(Seq<u8>, Option<MaybeUtf8<Seq<u8>>>)>),
            ParseError,
        >((end, params)),
    ensures
        mail_cmd_spec(w, 0) == Ok::<(int, CommandView), ParseError>((end, c)),
{
    reveal(mail_cmd_spec);
    assert(verb_word(Verb::MailFrom).len() == 10);
}

/// `RCPT`, read from its parts.
proof fn lemma_rcpt_build(w: Seq<u8>, k3: int, end: int, c: CommandView)
    requires
        tag_no_case_spec(w, 0, verb_word(Verb::RcptTo)) == Ok::<int, ParseError>(8),
        opt_sp_tab_spec(w, 8) == Ok::<int, ParseError>(8),
        c matches CommandView::Rcpt { path, email, params } && cmd_address_spec(w, 8) == Ok::<
            (int, (Option<PathView>, EmailView)),
            ParseError,
        >((k3, (path, email))) && params_tail_spec(w, k3) == Ok::<
            (int, Seq<(Seq<u8>, Option<MaybeUtf8<Seq<u8>>>)>),
            ParseError,
        >((end, params)),
    ensures
        rcpt_cmd_spec(w, 0) == Ok::<(int, CommandView), ParseError>((end, c)),
{
    reveal(rcpt_cmd_spec);
    assert(verb_word(Verb::RcptTo).len() == 8);
}

/// How `RCPT` was read: its verb, blanks up to `r.0`, an address up to
/// `r.1`, then its parameters.
#[verifier::rlimit(100)]
#[verifier::spinoff_prover]
proof fn lemma_rcpt_parts(b: Seq<u8>) -> (r: (int, int))
    requires
        rcpt_cmd_spec(b, 0) is Ok,
    ensures
        ({
            let (k2, k3) = r;
            let c = rcpt_cmd_spec(b, 0)->Ok_0.1;
            &&& 0 <= k2
            &&& 0 <= k3 <= b.len()
            &&& c matches CommandView::Rcpt { path, email, params } && cmd_address_spec(b, k2) == Ok::<
                (int, (Option<PathView>, EmailView)),
                ParseError,
            >((k3, (path, email))) && params_tail_spec(b, k3) is Ok && params == params_tail_spec(
                b,
                k3,
            )->Ok_0.1
        }),
{
    reveal(rcpt_cmd_spec);
    assert(verb_word(Verb::RcptTo).len() == 8);
    let k2 = opt_sp_tab_spec(b, 8)->Ok_0;
    lemma_span(Class::SpTab, b, 8);
    lemma_address_end(b, k2);
    let k3 = cmd_address_spec(b, k2)->Ok_0.0;
    let c = rcpt_cmd_spec(b, 0)->Ok_0.1;
    assert(0 <= k2);
    assert(0 <= k3 <= b.len());
    assert(c is Rcpt);
    assert(params_tail_spec(b, k3) is Ok);
    assert(c->Rcpt_params == params_tail_spec(b, k3)->Ok_0.1);
    assert(cmd_address_spec(b, k2) == Ok::<(int, (Option<PathView>, EmailView)), ParseError>((k3, (c->Rcpt_path, c->Rcpt_email))));
    (k2, k3)
}

/// The byte after `<` in the wire form of an address that was read is not `>`.
#[verifier::rlimit(100)]
#[verifier::spinoff_prover]
proof fn lemma_address_second(b: Seq<u8>, k2: int, p: Option<PathView>, em: EmailView)
    requires
        0 <= k2,
        cmd_address_spec(b, k2) is Ok,
        cmd_address_spec(b, k2)->Ok_0.1 == (p, em),
    ensures
        address_bytes(p, Some(em)).len() >= 2,
        address_bytes(p, Some(em))[1] != GT,
{
    let (ps, y, e, t, ta) = lemma_address_parsed(b, k2);
    lemma_email_parsed(b, y, t, ta);
    let eb = email_bytes(em);
    match p {
        Some(pv) => {
            crate::addr_wire::lemma_path_parts(b, ps);
            crate::addr_wire::lemma_path_bytes_front(pv.domains, pv.domains.len());
            assert(address_bytes(p, Some(em)) =~= seq![LT] + path_bytes(pv) + seq![COLON] + eb + seq![GT]);
            assert(address_bytes(p, Some(em))[1] == path_bytes(pv)[0]);
        },
        None => {
            assert(address_bytes(p, Some(em)) =~= seq![LT] + eb + seq![GT]);
            assert(eb[0] == b.subrange(y, e)[0]);
        },
    }
}

/// The written form of a `MAIL` command that was read is read back as it
/// by the alternative of its verb, whatever follows it.
#[verifier::rlimit(100)]
#[verifier::spinoff_prover]
pub(crate) proof fn lemma_mail_round(b: Seq<u8>, rest: Seq<u8>)
    requires
        mail_cmd_spec(b, 0) is Ok,
    ensures
        ({
            let c = mail_cmd_spec(b, 0)->Ok_0.1;
            command_alt(command_bytes(c) + rest, 0, Verb::MailFrom) == Ok::<(int, CommandView), ParseError>(
                (command_bytes(c).len() as int, c),
            )
        }),
{
    let c = mail_cmd_spec(b, 0)->Ok_0.1;
    let (k2, k3) = lemma_mail_parts(b);
    let path = c->Mail_path;
    let email = c->Mail_email;
    let params = c->Mail_params;
    let vw = verb_word(Verb::MailFrom);
    assert(vw.len() == 10);
    let ab = address_bytes(path, email);
    let pb = params_bytes(params);
    let w = command_bytes(c) + rest;
    assert(command_bytes(c) == vw + ab + pb + crlf());
    let o: int = 10 + ab.len() as int;
    assert(w.subrange(0, 10) =~= vw);
    assert(ab[0] == LT);
    assert(w[10] == ab[0]);
    lemma_verb_start(w, Verb::MailFrom);
    assert(w.subrange(10, o) =~= ab);
    assert(w.subrange(o, o + pb.len() + 2int) =~= pb + crlf());
    lemma_tail_reparse(w, o, b, k3);
    match email {
        None => {
            assert(ab =~= seq![LT, GT]);
            assert(w.subrange(10, 12) =~= seq![LT, GT]);
        },
        Some(em) => {
            let (ps, y, e, t, ta) = lemma_address_parsed(b, k2);
            lemma_address_reparse(w, 10, path, em, b, ps, y, e, t, ta);
            lemma_address_second(b, k2, path, em);
            assert(w[11] == ab[1]);
            assert(w.subrange(10, 12)[1] != seq![LT, GT][1]);
        },
    }
    lemma_mail_build(w, o, o + pb.len() + 2int, c);
}

/// The written form of an `RCPT` command that was read is read back as it
/// by the alternative of its verb, whatever follows it.
#[verifier::rlimit(100)]
#[verifier::spinoff_prover]
pub(crate) proof fn lemma_rcpt_round(b: Seq<u8>, rest: Seq<u8>)
    requires
        rcpt_cmd_spec(b, 0) is Ok,
    ensures
        ({
            let c = rcpt_cmd_spec(b, 0)->Ok_0.1;
            command_alt(command_bytes(c) + rest, 0, Verb::RcptTo) == Ok::<(int, CommandView), ParseError>(
                (command_bytes(c).len() as int, c),
            )
        }),
{
    let c = rcpt_cmd_spec(b, 0)->Ok_0.1;
    let (k2, k3) = lemma_rcpt_parts(b);
    let path = c->Rcpt_path;
    let em = c->Rcpt_email;
    let params = c->Rcpt_params;
    let vw = verb_word(Verb::RcptTo);
    assert(vw.len() == 8);
    let ab = address_bytes(path, Some(em));
    let pb = params_bytes(params);
    let w = command_bytes(c) + rest;
    assert(command_bytes(c) == vw + ab + pb + crlf());
    let o: int = 8 + ab.len() as int;
    assert(w.subrange(0, 8) =~= vw);
    assert(ab[0] == LT);
    assert(w[8] == ab[0]);
    lemma_verb_start(w, Verb::RcptTo);
    assert(w.subrange(8, o) =~= ab);
    assert(w.subrange(o, o + pb.len() + 2int) =~= pb + crlf());
    lemma_tail_reparse(w, o, b, k3);
    let (ps, y, e, t, ta) = lemma_address_parsed(b, k2);
    lemma_address_reparse(w, 8, path, em, b, ps, y, e, t, ta);
    lemma_rcpt_build(w, o, o + pb.len() + 2int, c);
}

} // verus!
