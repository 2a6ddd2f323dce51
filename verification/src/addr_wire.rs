//! Local parts, addresses and source routes are read from their own bytes:
//! what their wire form parses back to.

use vstd::prelude::*;
use vstd::utf8::valid_utf8;
use crate::lex::{
    ParseError, Class, class_has, span, valid_end, terminate_spec, is_printable,
    lemma_span, lemma_span_utf8, lemma_span_utf8_valid, lemma_max_valid_prefix_exists, tag_spec,
    DQUOTE, BACKSLASH, GT, AT, COMMA, COLON,
};
use crate::text::{is_max_valid_prefix, utf8_valid_len, lemma_valid_utf8_cut_at_ascii};
use crate::misc::{
    Localpart, localpart_spec, localpart_ascii_re, localpart_utf8_re, quoted_ascii_scan,
    quoted_utf8_scan, then_terminate, EmailView, HostnameView, email_spec, email_bytes, at_sign,
    hostname_spec, PathView, path_spec, path_item, path_rest, path_bytes, path_bytes_upto,
};
use crate::command::blank_or_cr;
use crate::command_wire::lemma_hostname_parsed;
use crate::host_local::{
    stop_byte, agree, lemma_agree_at, lemma_agree_sub, lemma_span_local, lemma_utf8_token_local,
    lemma_not_in_term, lemma_hostname_local,
};

verus! {

broadcast use vstd::seq::group_seq_axioms;

/// A quoted string that was read ends after where it starts.
proof fn lemma_qascii_after(s: Seq<u8>, k: int, any: bool)
    requires
        quoted_ascii_scan(s, k, any) is Ok,
    ensures
        quoted_ascii_scan(s, k, any)->Ok_0 > k,
    decreases s.len() - k,
{
    if 0 <= k < s.len() && s[k] != DQUOTE {
        if s[k] == BACKSLASH {
            lemma_qascii_after(s, k + 2, true);
        } else {
            lemma_qascii_after(s, k + 1, true);
        }
    }
}

proof fn lemma_qutf8_after(s: Seq<u8>, k: int, v: int, any: bool)
    requires
        quoted_utf8_scan(s, k, v, any) is Ok,
    ensures
        k < quoted_utf8_scan(s, k, v, any)->Ok_0 <= v,
    decreases s.len() - k,
{
    if 0 <= k < v && k < s.len() && s[k] != DQUOTE {
        if s[k] == BACKSLASH {
            lemma_qutf8_after(s, k + 2, v, true);
        } else {
            lemma_qutf8_after(s, k + 1, v, true);
        }
    }
}

/// A quoted ASCII string that closes before the agreed bytes end is read
/// the same from the same bytes.
proof fn lemma_qascii_local(s1: Seq<u8>, i1: int, s2: Seq<u8>, i2: int, e: int, k: int, any: bool)
    requires
        agree(s1, i1, s2, i2, e),
        i1 <= k < e,
        quoted_ascii_scan(s1, k, any) == Ok::<int, ParseError>(e),
    ensures
        quoted_ascii_scan(s2, k + (i2 - i1), any) == Ok::<int, ParseError>(e + (i2 - i1)),
    decreases e - k,
{
    lemma_agree_at(s1, i1, s2, i2, e, k);
    if s1[k] != DQUOTE {
        if s1[k] == BACKSLASH {
            lemma_qascii_after(s1, k + 2, true);
            lemma_agree_at(s1, i1, s2, i2, e, k + 1);
            lemma_qascii_local(s1, i1, s2, i2, e, k + 2, true);
        } else {
            lemma_qascii_after(s1, k + 1, true);
            lemma_qascii_local(s1, i1, s2, i2, e, k + 1, true);
        }
    }
}

/// Where a quoted UTF-8 string closes before the agreed bytes end, the
/// quoted ASCII reading of the same bytes gives the same outcome in both,
/// and closes at the same place if it closes.
proof fn lemma_qascii_of_utf8_local(
    s1: Seq<u8>,
    i1: int,
    s2: Seq<u8>,
    i2: int,
    e: int,
    k: int,
    v: int,
    any: bool,
)
    requires
        agree(s1, i1, s2, i2, e),
        i1 <= k < e,
        quoted_utf8_scan(s1, k, v, any) == Ok::<int, ParseError>(e),
    ensures
        quoted_ascii_scan(s2, k + (i2 - i1), any) == (match quoted_ascii_scan(s1, k, any) {
            Ok(m) => Ok::<int, ParseError>(m + (i2 - i1)),
            Err(x) => Err(x),
        }),
        quoted_ascii_scan(s1, k, any) is Ok ==> quoted_ascii_scan(s1, k, any) == Ok::<int, ParseError>(e),
        quoted_ascii_scan(s1, k, any) is Err ==> quoted_ascii_scan(s1, k, any) == Err::<int, ParseError>(
            ParseError::Invalid,
        ),
    decreases e - k,
{
    lemma_agree_at(s1, i1, s2, i2, e, k);
    if s1[k] != DQUOTE {
        if s1[k] == BACKSLASH {
            lemma_qutf8_after(s1, k + 2, v, true);
            lemma_agree_at(s1, i1, s2, i2, e, k + 1);
            if is_printable(s1[k + 1]) {
                lemma_qascii_of_utf8_local(s1, i1, s2, i2, e, k + 2, v, true);
            }
        } else if is_printable(s1[k]) {
            lemma_qutf8_after(s1, k + 1, v, true);
            lemma_qascii_of_utf8_local(s1, i1, s2, i2, e, k + 1, v, true);
        }
    }
}

/// A quoted UTF-8 string that closes before the agreed bytes end is read
/// the same from the same bytes, where the valid UTF-8 reaches its end.
proof fn lemma_qutf8_local(
    s1: Seq<u8>,
    i1: int,
    s2: Seq<u8>,
    i2: int,
    e: int,
    k: int,
    v1: int,
    v2: int,
    any: bool,
)
    requires
        agree(s1, i1, s2, i2, e),
        i1 <= k < e,
        e + (i2 - i1) <= v2,
        quoted_utf8_scan(s1, k, v1, any) == Ok::<int, ParseError>(e),
    ensures
        quoted_utf8_scan(s2, k + (i2 - i1), v2, any) == Ok::<int, ParseError>(e + (i2 - i1)),
    decreases e - k,
{
    lemma_agree_at(s1, i1, s2, i2, e, k);
    if s1[k] != DQUOTE {
        if s1[k] == BACKSLASH {
            lemma_qutf8_after(s1, k + 2, v1, true);
            lemma_agree_at(s1, i1, s2, i2, e, k + 1);
            lemma_qutf8_local(s1, i1, s2, i2, e, k + 2, v1, v2, true);
        } else {
            lemma_qutf8_after(s1, k + 1, v1, true);
            lemma_qutf8_local(s1, i1, s2, i2, e, k + 1, v1, v2, true);
        }
    }
}

/// Where the bytes from `i1` up to `e` are valid UTF-8 in `s1`, they are in
/// `s2` too, and the valid UTF-8 there reaches at least as far.
proof fn lemma_valid_end_local(s1: Seq<u8>, i1: int, s2: Seq<u8>, i2: int, e: int)
    requires
        agree(s1, i1, s2, i2, e),
        valid_utf8(s1.subrange(i1, e)),
    ensures
        valid_end(s2, i2) >= e + (i2 - i1),
{
    let d = i2 - i1;
    lemma_agree_sub(s1, i1, s2, i2, e, i1, e);
    let rest = s2.subrange(i2, s2.len() as int);
    lemma_max_valid_prefix_exists(rest);
    let n = utf8_valid_len(rest);
    assert(is_max_valid_prefix(rest, n));
    assert(rest.subrange(0, e - i1) =~= s2.subrange(i2, e + d));
}

/// A local part read with the terminator `term1`, followed at its new
/// place by one of `term2` (made of bytes that may end it), is read the
/// same from the same bytes there.
#[verifier::rlimit(100)]
#[verifier::spinoff_prover]
pub(crate) proof fn lemma_localpart_local(
    s1: Seq<u8>,
    i1: int,
    s2: Seq<u8>,
    i2: int,
    e: int,
    term1: Seq<u8>,
    term2: Seq<u8>,
    lp: Localpart<Seq<u8>>,
)
    requires
        agree(s1, i1, s2, i2, e),
        !class_has(Class::Atext, s1[e]),
        !class_has(Class::Atext, s2[i2 + (e - i1)]),
        forall|q: int| 0 <= q < term2.len() ==> stop_byte(#[trigger] term2[q]),
        term2.contains(s2[i2 + (e - i1)]),
        localpart_spec(s1, i1, term1) == Ok::<(int, Localpart<Seq<u8>>), ParseError>((e, lp)),
    ensures
        localpart_spec(s2, i2, term2) == Ok::<(int, Localpart<Seq<u8>>), ParseError>(
            (e + (i2 - i1), lp),
        ),
{
    let d = i2 - i1;
    let c = Class::Atext;
    assert(i1 < e) by {
        if i1 == e {
            if then_terminate(localpart_ascii_re(s1, i1), s1, term1) is Ok {
                if s1[i1] == DQUOTE {
                    lemma_qascii_after(s1, i1 + 1, false);
                } else {
                    lemma_span(c, s1, i1);
                }
            } else {
                if s1[i1] == DQUOTE {
                    lemma_qutf8_after(s1, i1 + 1, valid_end(s1, i1), false);
                } else {
                    lemma_span_utf8_valid(c, s1, i1);
                }
            }
        }
    }
    lemma_agree_at(s1, i1, s2, i2, e, i1);
    lemma_agree_sub(s1, i1, s2, i2, e, i1, e);
    assert(term1.contains(s1[e])) by {
        if localpart_spec(s1, i1, term1) is Ok {
        }
    }
    assert(terminate_spec(s2, e + d, term2) == Ok::<int, ParseError>(e + d));
    let ascii1 = then_terminate(localpart_ascii_re(s1, i1), s1, term1);
    if ascii1 is Ok {
        if s1[i1] == DQUOTE {
            lemma_qascii_after(s1, i1 + 1, false);
            lemma_qascii_local(s1, i1, s2, i2, e, i1 + 1, false);
        } else {
            lemma_span_local(c, s1, i1, s2, i2, e, i1);
        }
    } else {
        assert(ascii1 == Err::<int, ParseError>(ParseError::Invalid));
        assert(localpart_utf8_re(s1, i1) == Ok::<int, ParseError>(e));
        if s1[i1] == DQUOTE {
            let v1 = valid_end(s1, i1);
            lemma_qutf8_after(s1, i1 + 1, v1, false);
            lemma_qascii_of_utf8_local(s1, i1, s2, i2, e, i1 + 1, v1, false);
            // the valid UTF-8 reaches the closing quote
            let x1 = s1.subrange(i1, s1.len() as int);
            lemma_max_valid_prefix_exists(x1);
            assert(is_max_valid_prefix(x1, utf8_valid_len(x1)));
            let y = x1.subrange(0, v1 - i1);
            if e - i1 < y.len() {
                assert(y[e - i1] == s1[e]);
            }
            lemma_valid_utf8_cut_at_ascii(y, e - i1);
            assert(y.subrange(0, e - i1) =~= s1.subrange(i1, e));
            lemma_valid_end_local(s1, i1, s2, i2, e);
            lemma_qutf8_local(s1, i1, s2, i2, e, i1 + 1, v1, valid_end(s2, i2), false);
        } else {
            lemma_span_local(c, s1, i1, s2, i2, e, i1);
            lemma_span_utf8_valid(c, s1, i1);
            lemma_span_utf8(c, s1, i1, valid_end(s1, i1));
            let m = span(c, s1, i1);
            lemma_span(c, s1, i1);
            if m > i1 {
                if m == e {
                    assert(false);
                }
                lemma_agree_at(s1, i1, s2, i2, e, m);
                assert(s1[m] >= 0x80);
                lemma_not_in_term(s1[m], term2);
            }
            lemma_utf8_token_local(c, s1, i1, s2, i2, e);
        }
    }
}

/// A terminator made of bytes that may end a local part or a hostname, none
/// of which may stand inside a dot-string.
pub open spec fn addr_term_ok(t: Seq<u8>) -> bool {
    forall|q: int| 0 <= q < t.len() ==> stop_byte(#[trigger] t[q]) && !class_has(Class::Atext, t[q])
}

/// What ends an address inside `<` and `>`: a blank, `\r` or `>`.
pub open spec fn bracket_term() -> Seq<u8> {
    blank_or_cr().push(GT)
}

/// What ends the local part of an address inside `<` and `>`: a blank,
/// `\r`, `@` or `>`.
pub open spec fn bracket_term_at() -> Seq<u8> {
    blank_or_cr().push(AT).push(GT)
}

/// The terminators of an address, inside brackets or bare, are such terminators.
pub(crate) proof fn lemma_addr_terms()
    ensures
        addr_term_ok(blank_or_cr()),
        addr_term_ok(blank_or_cr().push(AT)),
        addr_term_ok(bracket_term()),
        addr_term_ok(bracket_term_at()),
        bracket_term().contains(GT),
        bracket_term_at().contains(GT),
        bracket_term_at().contains(AT),
{
    assert(bracket_term()[3] == GT);
    assert(bracket_term_at()[4] == GT);
    assert(bracket_term_at()[3] == AT);
    assert forall|q: int| 0 <= q < bracket_term_at().len() implies stop_byte(#[trigger] bracket_term_at()[q])
        && !class_has(Class::Atext, bracket_term_at()[q]) by {
        assert(q == 0 || q == 1 || q == 2 || q == 3 || q == 4);
    }
    assert forall|q: int| 0 <= q < bracket_term().len() implies stop_byte(#[trigger] bracket_term()[q])
        && !class_has(Class::Atext, bracket_term()[q]) by {
        assert(q == 0 || q == 1 || q == 2 || q == 3);
    }
    assert forall|q: int| 0 <= q < blank_or_cr().push(AT).len() implies stop_byte(
        #[trigger] blank_or_cr().push(AT)[q],
    ) && !class_has(Class::Atext, blank_or_cr().push(AT)[q]) by {
        assert(q == 0 || q == 1 || q == 2 || q == 3);
    }
    assert forall|q: int| 0 <= q < blank_or_cr().len() implies stop_byte(#[trigger] blank_or_cr()[q])
        && !class_has(Class::Atext, blank_or_cr()[q]) by {
        assert(q == 0 || q == 1 || q == 2);
    }
}

/// A local part that was read is its own bytes, followed by one of `term`.
proof fn lemma_localpart_parsed(s: Seq<u8>, i: int, term: Seq<u8>)
    requires
        0 <= i,
        localpart_spec(s, i, term) is Ok,
    ensures
        ({
            let (j, lp) = localpart_spec(s, i, term)->Ok_0;
            &&& i <= j < s.len()
            &&& lp.raw_bytes() == s.subrange(i, j)
            &&& term.contains(s[j])
        }),
{
    let (j, lp) = localpart_spec(s, i, term)->Ok_0;
    if then_terminate(localpart_ascii_re(s, i), s, term) is Ok {
        if s[i] == DQUOTE {
            lemma_qascii_after(s, i + 1, false);
        } else {
            lemma_span(Class::Atext, s, i);
        }
    } else {
        if s[i] == DQUOTE {
            lemma_qutf8_after(s, i + 1, valid_end(s, i), false);
        } else {
            lemma_span_utf8_valid(Class::Atext, s, i);
        }
    }
}

/// How an address is read: its local part, then `@` and its hostname if it has one.
proof fn lemma_email_parts(s: Seq<u8>, k: int, t: Seq<u8>, ta: Seq<u8>)
    requires
        email_spec(s, k, t, ta) is Ok,
    ensures
        ({
            let (e, em) = email_spec(s, k, t, ta)->Ok_0;
            let (j, lp) = localpart_spec(s, k, ta)->Ok_0;
            &&& localpart_spec(s, k, ta) is Ok
            &&& em.localpart == lp
            &&& (em.hostname matches Some(h) ==> tag_spec(s, j, at_sign()) == Ok::<int, ParseError>(j + 1)
                && hostname_spec(s, j + 1, t) == Ok::<(int, HostnameView), ParseError>((e, h)))
            &&& (em.hostname is None ==> e == j)
        }),
{
}

/// The first byte of a local part that was read is not `@`, `<` or `>`.
proof fn lemma_localpart_first(s: Seq<u8>, i: int, term: Seq<u8>)
    requires
        0 <= i,
        localpart_spec(s, i, term) is Ok,
    ensures
        i < localpart_spec(s, i, term)->Ok_0.0,
        s[i] != AT && s[i] != GT && s[i] != crate::lex::LT,
{
    if then_terminate(localpart_ascii_re(s, i), s, term) is Ok {
        if s[i] == DQUOTE {
            lemma_qascii_after(s, i + 1, false);
        } else {
            lemma_span(Class::Atext, s, i);
        }
    } else {
        if s[i] == DQUOTE {
            lemma_qutf8_after(s, i + 1, valid_end(s, i), false);
        } else {
            lemma_span_utf8_valid(Class::Atext, s, i);
            lemma_span_utf8(Class::Atext, s, i, valid_end(s, i));
        }
    }
}

/// An address that was read is its own bytes, it starts with neither `@`
/// nor `>`, and a byte that may end it follows it.
#[verifier::rlimit(100)]
#[verifier::spinoff_prover]
pub(crate) proof fn lemma_email_parsed(s: Seq<u8>, k: int, t: Seq<u8>, ta: Seq<u8>)
    requires
        0 <= k,
        addr_term_ok(t),
        addr_term_ok(ta),
        email_spec(s, k, t, ta) is Ok,
    ensures
        ({
            let (e, em) = email_spec(s, k, t, ta)->Ok_0;
            &&& k < e < s.len()
            &&& email_bytes(em) == s.subrange(k, e)
            &&& stop_byte(s[e])
            &&& s[k] != AT
            &&& s[k] != GT
        }),
{
    let (e, em) = email_spec(s, k, t, ta)->Ok_0;
    lemma_email_parts(s, k, t, ta);
    let (j, lp) = localpart_spec(s, k, ta)->Ok_0;
    lemma_localpart_parsed(s, k, ta);
    lemma_localpart_first(s, k, ta);
    let q0 = choose|q: int| 0 <= q < ta.len() && ta[q] == s[j];
    assert(stop_byte(s[j]));
    match em.hostname {
        Some(h) => {
            assert(s[j] == AT) by {
                assert(s.subrange(j, j + 1)[0] == s[j]);
            }
            lemma_hostname_parsed(s, j + 1, t);
            let qe = choose|q: int| 0 <= q < t.len() && t[q] == s[e];
            assert(email_bytes(em) =~= s.subrange(k, e)) by {
                assert(s.subrange(k, e) =~= s.subrange(k, j) + seq![AT] + s.subrange(j + 1, e));
            }
        },
        None => {},
    }
}

/// An address read with the terminators `t1` and `ta1`, followed at its
/// new place by `>`, is read the same from the same bytes there with the
/// terminators `t2` and `ta2`, which hold `>`.
#[verifier::rlimit(100)]
#[verifier::spinoff_prover]
pub(crate) proof fn lemma_email_local(
    s1: Seq<u8>,
    k1: int,
    s2: Seq<u8>,
    k2: int,
    e: int,
    t1: Seq<u8>,
    ta1: Seq<u8>,
    t2: Seq<u8>,
    ta2: Seq<u8>,
    em: EmailView,
)
    requires
        0 <= k1,
        addr_term_ok(t1),
        addr_term_ok(ta1),
        addr_term_ok(t2),
        addr_term_ok(ta2),
        t2.contains(GT),
        ta2.contains(GT),
        ta2.contains(AT),
        email_spec(s1, k1, t1, ta1) == Ok::<(int, EmailView), ParseError>((e, em)),
        agree(s1, k1, s2, k2, e),
        s2[k2 + (e - k1)] == GT,
    ensures
        email_spec(s2, k2, t2, ta2) == Ok::<(int, EmailView), ParseError>((e + (k2 - k1), em)),
        email_bytes(em) == s1.subrange(k1, e),
{
    let d = k2 - k1;
    lemma_email_parts(s1, k1, t1, ta1);
    let (j, lp) = localpart_spec(s1, k1, ta1)->Ok_0;
    lemma_localpart_parsed(s1, k1, ta1);
    let q0 = choose|q: int| 0 <= q < ta1.len() && ta1[q] == s1[j];
    assert(stop_byte(s1[j]) && !class_has(Class::Atext, s1[j]));
    let qg = choose|q: int| 0 <= q < ta2.len() && ta2[q] == GT;
    assert(!class_has(Class::Atext, GT));
    match em.hostname {
        Some(h) => {
            assert(s1[j] == AT) by {
                assert(s1.subrange(j, j + 1)[0] == s1[j]);
            }
            lemma_hostname_parsed(s1, j + 1, t1);
            lemma_agree_at(s1, k1, s2, k2, e, j);
            assert(agree(s1, k1, s2, k2, j)) by {
                lemma_agree_sub(s1, k1, s2, k2, e, k1, j);
            }
            let qa = choose|q: int| 0 <= q < ta2.len() && ta2[q] == AT;
            lemma_localpart_local(s1, k1, s2, k2, j, ta1, ta2, lp);
            assert(tag_spec(s2, j + d, at_sign()) == Ok::<int, ParseError>(j + d + 1)) by {
                assert(s2.subrange(j + d, j + d + 1) =~= at_sign());
            }
            let qe = choose|q: int| 0 <= q < t1.len() && t1[q] == s1[e];
            assert(stop_byte(s1[e]));
            assert(agree(s1, j + 1, s2, j + 1 + d, e)) by {
                lemma_agree_sub(s1, k1, s2, k2, e, j + 1, e);
            }
            let qt = choose|q: int| 0 <= q < t2.len() && t2[q] == GT;
            lemma_hostname_local(s1, j + 1, s2, j + 1 + d, e, t1, t2, h);
            lemma_agree_sub(s1, k1, s2, k2, e, k1, e);
            assert(email_bytes(em) =~= s1.subrange(k1, e)) by {
                assert(s1.subrange(k1, e) =~= s1.subrange(k1, j) + seq![AT] + s1.subrange(j + 1, e));
            }
        },
        None => {
            lemma_localpart_local(s1, k1, s2, k2, e, ta1, ta2, lp);
            assert(tag_spec(s2, e + d, at_sign()) == Err::<int, ParseError>(ParseError::Invalid)) by {
                assert(s2.subrange(e + d, e + d + 1)[0] != at_sign()[0]);
            }
        },
    }
}

/// What ends a hostname of a source route: `:` or `,`.
pub open spec fn route_term() -> Seq<u8> {
    seq![COLON, COMMA]
}

/// The bytes agreed up to `e` are agreed up to `b`, where a byte that may
/// end a hostname stands at `b`.
proof fn lemma_agree_narrow(s1: Seq<u8>, i1: int, s2: Seq<u8>, i2: int, e: int, a: int, b: int)
    requires
        agree(s1, i1, s2, i2, e),
        i1 <= a <= b <= e,
        stop_byte(s1[b]),
    ensures
        agree(s1, a, s2, a + (i2 - i1), b),
{
    lemma_agree_sub(s1, i1, s2, i2, e, a, b);
    if b < e {
        lemma_agree_at(s1, i1, s2, i2, e, b);
    }
}

/// The wire form of the items of a source route after the first: `,@` and
/// a hostname each.
pub open spec fn route_rest_bytes(hs: Seq<HostnameView>) -> Seq<u8>
    decreases hs.len(),
{
    if hs.len() == 0 {
        Seq::empty()
    } else {
        seq![COMMA, AT] + hs[0].raw_bytes() + route_rest_bytes(hs.drop_first())
    }
}

proof fn lemma_route_rest_push(hs: Seq<HostnameView>, h: HostnameView)
    ensures
        route_rest_bytes(hs.push(h)) == route_rest_bytes(hs) + seq![COMMA, AT] + h.raw_bytes(),
    decreases hs.len(),
{
    if hs.len() == 0 {
        assert(hs.push(h).drop_first() =~= Seq::<HostnameView>::empty());
        assert(route_rest_bytes(Seq::<HostnameView>::empty()) == Seq::<u8>::empty());
        assert(route_rest_bytes(hs.push(h)) =~= seq![COMMA, AT] + h.raw_bytes());
    } else {
        assert(hs.push(h).drop_first() =~= hs.drop_first().push(h));
        lemma_route_rest_push(hs.drop_first(), h);
        assert(route_rest_bytes(hs.push(h)) =~= route_rest_bytes(hs) + seq![COMMA, AT] + h.raw_bytes());
    }
}

/// The wire form of a source route is `@`, its first hostname, then `,@`
/// and a hostname for each of the others.
pub(crate) proof fn lemma_path_bytes_front(d: Seq<HostnameView>, n: nat)
    requires
        1 <= n <= d.len(),
    ensures
        path_bytes_upto(d, n) == at_sign() + d[0].raw_bytes() + route_rest_bytes(d.subrange(1, n as int)),
    decreases n,
{
    if n == 1 {
        assert(path_bytes_upto(d, 0) == Seq::<u8>::empty());
        assert(d.subrange(1, 1) =~= Seq::<HostnameView>::empty());
        assert(path_bytes_upto(d, 1) =~= at_sign() + d[0].raw_bytes());
    } else {
        lemma_path_bytes_front(d, (n - 1) as nat);
        lemma_route_rest_push(d.subrange(1, n - 1), d[n - 1]);
        assert(d.subrange(1, n - 1).push(d[n - 1]) =~= d.subrange(1, n as int));
        assert(path_bytes_upto(d, n) =~= at_sign() + d[0].raw_bytes() + route_rest_bytes(
            d.subrange(1, n as int),
        ));
    }
}

proof fn lemma_path_rest_after(s: Seq<u8>, m: int, t: Seq<u8>)
    requires
        path_rest(s, m, t) is Ok,
    ensures
        path_rest(s, m, t)->Ok_0.0 >= m,
    decreases s.len() - m,
{
    if tag_spec(s, m, seq![COMMA]) is Ok {
        let k1 = tag_spec(s, m, seq![COMMA])->Ok_0;
        if path_item(s, k1, t) is Ok {
            let k2 = path_item(s, k1, t)->Ok_0.0;
            if m < k2 <= s.len() {
                lemma_path_rest_after(s, k2, t);
            }
        }
    }
}

/// The items after the first of a source route at `m`.
#[verifier::opaque]
pub open spec fn route_rest(s: Seq<u8>, m: int) -> Result<(int, Seq<HostnameView>), ParseError> {
    path_rest(s, m, route_term())
}

/// How the items after the first of a source route are read where they
/// do not end at once: `,`, `@`, a hostname, then the rest.
proof fn lemma_path_rest_parts(s: Seq<u8>, m: int)
    requires
        0 <= m,
        route_rest(s, m) is Ok,
        route_rest(s, m)->Ok_0.0 != m,
    ensures
        m + 1 < s.len(),
        s[m] == COMMA,
        s[m + 1] == AT,
        hostname_spec(s, m + 2, route_term()) is Ok,
        m < hostname_spec(s, m + 2, route_term())->Ok_0.0 <= s.len(),
        route_rest(s, hostname_spec(s, m + 2, route_term())->Ok_0.0) is Ok,
        route_rest(s, m)->Ok_0.0 == route_rest(s, hostname_spec(s, m + 2, route_term())->Ok_0.0)->Ok_0.0,
        route_rest(s, m)->Ok_0.1 == seq![hostname_spec(s, m + 2, route_term())->Ok_0.1] + route_rest(
            s,
            hostname_spec(s, m + 2, route_term())->Ok_0.0,
        )->Ok_0.1,
        route_rest(s, hostname_spec(s, m + 2, route_term())->Ok_0.0)->Ok_0.0 >= hostname_spec(
            s,
            m + 2,
            route_term(),
        )->Ok_0.0,
{
    reveal(route_rest);
    assert(s.subrange(m, m + 1)[0] == s[m]);
    assert(s.subrange(m + 1, m + 2)[0] == s[m + 1]);
    lemma_path_rest_after(s, hostname_spec(s, m + 2, route_term())->Ok_0.0, route_term());
}

/// The items after the first of a source route, read from their parts.
proof fn lemma_path_rest_build(s: Seq<u8>, m: int, k2: int, h: HostnameView)
    requires
        0 <= m,
        m + 1 < s.len(),
        s[m] == COMMA,
        s[m + 1] == AT,
        hostname_spec(s, m + 2, route_term()) == Ok::<(int, HostnameView), ParseError>((k2, h)),
        m < k2 <= s.len(),
        route_rest(s, k2) is Ok,
    ensures
        route_rest(s, m) == Ok::<(int, Seq<HostnameView>), ParseError>(
            (route_rest(s, k2)->Ok_0.0, seq![h] + route_rest(s, k2)->Ok_0.1),
        ),
{
    reveal(route_rest);
    assert(s.subrange(m, m + 1) =~= seq![COMMA]);
    assert(s.subrange(m + 1, m + 2) =~= at_sign());
}

/// At `:` the items after the first of a source route end.
proof fn lemma_path_rest_end(s: Seq<u8>, m: int)
    requires
        0 <= m < s.len(),
        s[m] == COLON,
    ensures
        route_rest(s, m) == Ok::<(int, Seq<HostnameView>), ParseError>((m, Seq::empty())),
{
    reveal(route_rest);
    assert(s.subrange(m, m + 1)[0] == COLON);
}

proof fn lemma_route_term()
    ensures
        forall|q: int| 0 <= q < route_term().len() ==> stop_byte(#[trigger] route_term()[q]),
        route_term().contains(COLON),
        route_term().contains(COMMA),
        forall|b: u8| route_term().contains(b) ==> b == COLON || b == COMMA,
{
    let t = route_term();
    assert(t[0] == COLON && t[1] == COMMA);
    assert forall|q: int| 0 <= q < t.len() implies stop_byte(#[trigger] t[q]) by {
        assert(q == 0 || q == 1);
    }
    assert forall|b: u8| t.contains(b) implies b == COLON || b == COMMA by {
        let q = choose|q: int| 0 <= q < t.len() && t[q] == b;
        assert(q == 0 || q == 1);
    }
}

/// A hostname of a source route, at `a` and ended at `k2` by `:` or `,`
/// within the agreed bytes, is read the same from the same bytes.
#[verifier::rlimit(100)]
#[verifier::spinoff_prover]
proof fn lemma_route_host_local(s1: Seq<u8>, i1: int, s2: Seq<u8>, i2: int, e: int, a: int)
    requires
        agree(s1, i1, s2, i2, e),
        s1[e] == COLON,
        s2[i2 + (e - i1)] == COLON,
        i1 <= a,
        hostname_spec(s1, a, route_term()) is Ok,
        hostname_spec(s1, a, route_term())->Ok_0.0 <= e,
    ensures
        hostname_spec(s2, a + (i2 - i1), route_term()) == Ok::<(int, HostnameView), ParseError>(
            (
                hostname_spec(s1, a, route_term())->Ok_0.0 + (i2 - i1),
                hostname_spec(s1, a, route_term())->Ok_0.1,
            ),
        ),
        s1.subrange(a, hostname_spec(s1, a, route_term())->Ok_0.0) == hostname_spec(
            s1,
            a,
            route_term(),
        )->Ok_0.1.raw_bytes(),
        a < hostname_spec(s1, a, route_term())->Ok_0.0,
{
    let t = route_term();
    let d = i2 - i1;
    let (k2, h) = hostname_spec(s1, a, t)->Ok_0;
    lemma_hostname_parsed(s1, a, t);
    lemma_route_term();
    assert(stop_byte(s1[k2]));
    lemma_agree_narrow(s1, i1, s2, i2, e, a, k2);
    if k2 < e {
        lemma_agree_at(s1, i1, s2, i2, e, k2);
    }
    lemma_hostname_local(s1, a, s2, a + d, k2, t, t, h);
}

/// The items after the first of a source route that ends at `:` are read
/// the same from the same bytes, and are those bytes.
#[verifier::rlimit(100)]
#[verifier::spinoff_prover]
proof fn lemma_path_rest_local(s1: Seq<u8>, i1: int, s2: Seq<u8>, i2: int, e: int, m: int)
    requires
        agree(s1, i1, s2, i2, e),
        s1[e] == COLON,
        s2[i2 + (e - i1)] == COLON,
        i1 <= m <= e,
        route_rest(s1, m) is Ok,
        route_rest(s1, m)->Ok_0.0 == e,
    ensures
        route_rest(s2, m + (i2 - i1)) == Ok::<(int, Seq<HostnameView>), ParseError>(
            (e + (i2 - i1), route_rest(s1, m)->Ok_0.1),
        ),
        route_rest_bytes(route_rest(s1, m)->Ok_0.1) == s1.subrange(m, e),
    decreases e - m,
{
    let d = i2 - i1;
    if m == e {
        lemma_path_rest_end(s1, m);
        lemma_path_rest_end(s2, m + d);
        assert(s1.subrange(m, e) =~= Seq::<u8>::empty());
    } else {
        lemma_path_rest_parts(s1, m);
        let (k2, h) = hostname_spec(s1, m + 2, route_term())->Ok_0;
        lemma_agree_at(s1, i1, s2, i2, e, m);
        lemma_agree_at(s1, i1, s2, i2, e, m + 1);
        lemma_route_host_local(s1, i1, s2, i2, e, m + 2);
        lemma_path_rest_local(s1, i1, s2, i2, e, k2);
        lemma_path_rest_build(s2, m + d, k2 + d, h);
        let rest = route_rest(s1, k2)->Ok_0.1;
        assert((seq![h] + rest).drop_first() =~= rest);
        assert(s1.subrange(m, e) =~= seq![COMMA, AT] + s1.subrange(m + 2, k2) + s1.subrange(k2, e));
    }
}

/// How a source route is read: `@`, a hostname, then the other items.
pub(crate) proof fn lemma_path_parts(s: Seq<u8>, i: int)
    requires
        0 <= i,
        path_spec(s, i, route_term()) is Ok,
    ensures
        i < s.len(),
        s[i] == AT,
        hostname_spec(s, i + 1, route_term()) is Ok,
        route_rest(s, hostname_spec(s, i + 1, route_term())->Ok_0.0) is Ok,
        route_rest(s, hostname_spec(s, i + 1, route_term())->Ok_0.0)->Ok_0.0 == path_spec(
            s,
            i,
            route_term(),
        )->Ok_0.0,
        path_spec(s, i, route_term())->Ok_0.1.domains == seq![
            hostname_spec(s, i + 1, route_term())->Ok_0.1,
        ] + route_rest(s, hostname_spec(s, i + 1, route_term())->Ok_0.0)->Ok_0.1,
        route_rest(s, hostname_spec(s, i + 1, route_term())->Ok_0.0)->Ok_0.0 >= hostname_spec(
            s,
            i + 1,
            route_term(),
        )->Ok_0.0,
{
    reveal(route_rest);
    assert(s.subrange(i, i + 1)[0] == s[i]);
    lemma_path_rest_after(s, hostname_spec(s, i + 1, route_term())->Ok_0.0, route_term());
}

/// A source route, read from its parts.
proof fn lemma_path_build(s: Seq<u8>, i: int, k1: int, h: HostnameView)
    requires
        0 <= i < s.len(),
        s[i] == AT,
        hostname_spec(s, i + 1, route_term()) == Ok::<(int, HostnameView), ParseError>((k1, h)),
        route_rest(s, k1) is Ok,
    ensures
        path_spec(s, i, route_term()) == Ok::<(int, PathView), ParseError>(
            (route_rest(s, k1)->Ok_0.0, PathView { domains: seq![h] + route_rest(s, k1)->Ok_0.1 }),
        ),
{
    reveal(route_rest);
    assert(s.subrange(i, i + 1) =~= at_sign());
}

/// A source route that ends at `:` is read the same from the same bytes,
/// and is those bytes.
#[verifier::rlimit(100)]
#[verifier::spinoff_prover]
pub(crate) proof fn lemma_path_local(s1: Seq<u8>, i1: int, s2: Seq<u8>, i2: int, e: int)
    requires
        agree(s1, i1, s2, i2, e),
        s1[e] == COLON,
        s2[i2 + (e - i1)] == COLON,
        path_spec(s1, i1, route_term()) is Ok,
        path_spec(s1, i1, route_term())->Ok_0.0 == e,
    ensures
        path_spec(s2, i2, route_term()) == Ok::<(int, PathView), ParseError>(
            (e + (i2 - i1), path_spec(s1, i1, route_term())->Ok_0.1),
        ),
        path_bytes(path_spec(s1, i1, route_term())->Ok_0.1) == s1.subrange(i1, e),
{
    let d = i2 - i1;
    let p = path_spec(s1, i1, route_term())->Ok_0.1;
    lemma_path_parts(s1, i1);
    let (k1, h) = hostname_spec(s1, i1 + 1, route_term())->Ok_0;
    lemma_agree_at(s1, i1, s2, i2, e, i1);
    lemma_route_host_local(s1, i1, s2, i2, e, i1 + 1);
    lemma_path_rest_local(s1, i1, s2, i2, e, k1);
    lemma_path_build(s2, i2, k1 + d, h);
    let hs = route_rest(s1, k1)->Ok_0.1;
    lemma_path_bytes_front(p.domains, p.domains.len());
    assert(p.domains.subrange(1, p.domains.len() as int) =~= hs);
    assert(s1.subrange(i1, e) =~= at_sign() + s1.subrange(i1 + 1, k1) + s1.subrange(k1, e));
}

} // verus!
