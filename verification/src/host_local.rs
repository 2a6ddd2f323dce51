//! A hostname is read from its own bytes: the hostname grammar reads
//! nothing past the byte that ends the hostname, so the same bytes read
//! anywhere else give the same hostname.

use vstd::prelude::*;
use crate::lex::{
    ParseError, Class, class_has, span, span_utf8, valid_end, utf8_token, tag_spec, terminate_spec,
    is_alnum, lemma_span_utf8, lemma_span_utf8_valid, lemma_max_valid_prefix_exists, SP, TAB, CR,
    DASH, DOT, LBRACKET, RBRACKET, GT, COMMA, COLON, AT,
};
use crate::text::{is_max_valid_prefix, utf8_valid_len};
use crate::misc::{
    HostnameView, domain_scan, literal_scan, ipv6_tag, hostname_ascii_re, hostname_ascii_value,
    hostname_spec, then_terminate,
};

verus! {

broadcast use vstd::seq::group_seq_axioms;

/// A space, a tab or `\r`.
pub open spec fn blank_byte(b: u8) -> bool {
    b == SP || b == TAB || b == CR
}

/// A byte that may end a hostname or a local part: a blank, `\r`, `>`,
/// `,`, `:` or `@`.
pub open spec fn stop_byte(b: u8) -> bool {
    blank_byte(b) || b == GT || b == COMMA || b == COLON || b == AT
}

/// `s1[i1..e]` and `s2` from `i2` on hold the same bytes, and in both a
/// byte that may end a hostname follows them.
pub open spec fn agree(s1: Seq<u8>, i1: int, s2: Seq<u8>, i2: int, e: int) -> bool {
    &&& 0 <= i1 <= e < s1.len()
    &&& 0 <= i2
    &&& i2 + (e - i1) < s2.len()
    &&& s1.subrange(i1, e) == s2.subrange(i2, i2 + (e - i1))
    &&& stop_byte(s1[e])
    &&& stop_byte(s2[i2 + (e - i1)])
}

/// A position read at one place, moved by `d`.
pub open spec fn shift_res(r: Result<int, ParseError>, d: int) -> Result<int, ParseError> {
    match r {
        Ok(m) => Ok(m + d),
        Err(e) => Err(e),
    }
}

/// A position, if any, moved by `d`.
pub open spec fn shift_opt(o: Option<int>, d: int) -> Option<int> {
    match o {
        Some(m) => Some(m + d),
        None => None,
    }
}

/// One agreed byte.
pub(crate) proof fn lemma_agree_at(s1: Seq<u8>, i1: int, s2: Seq<u8>, i2: int, e: int, k: int)
    requires
        agree(s1, i1, s2, i2, e),
        i1 <= k < e,
    ensures
        s1[k] == s2[k + (i2 - i1)],
{
    assert(s1[k] == s1.subrange(i1, e)[k - i1]);
    assert(s2[k + (i2 - i1)] == s2.subrange(i2, i2 + (e - i1))[k - i1]);
}

/// The domain scan stops at the byte that ends the hostname at the latest,
/// and reads the same from the same bytes.
proof fn lemma_domain_scan_local(
    s1: Seq<u8>,
    i1: int,
    s2: Seq<u8>,
    i2: int,
    e: int,
    k: int,
    st: int,
    last: Option<int>,
)
    requires
        agree(s1, i1, s2, i2, e),
        i1 <= k <= e,
        last matches Some(m) ==> i1 <= m <= k,
    ensures
        domain_scan(s2, k + (i2 - i1), st, shift_opt(last, i2 - i1)) == shift_res(
            domain_scan(s1, k, st, last),
            i2 - i1,
        ),
        domain_scan(s1, k, st, last) matches Ok(m) ==> i1 <= m <= e,
    decreases e - k,
{
    let d = i2 - i1;
    if k < e {
        lemma_agree_at(s1, i1, s2, i2, e, k);
    }
    let b = s1[k];
    if k < e && (is_alnum(b) || (b == DASH && st != 0) || (b == DOT && st == 1)) {
        let next = if is_alnum(b) {
            1int
        } else if b == DASH && st != 0 {
            2int
        } else {
            0int
        };
        let nl = if next == 1 { Some(k + 1) } else { last };
        lemma_domain_scan_local(s1, i1, s2, i2, e, k + 1, next, nl);
        assert(shift_opt(nl, d) == (if next == 1 { Some(k + d + 1) } else { shift_opt(last, d) }));
    }
}

/// A run of a class that holds no byte ending a hostname is read the same
/// from the same bytes.
pub(crate) proof fn lemma_span_local(c: Class, s1: Seq<u8>, i1: int, s2: Seq<u8>, i2: int, e: int, k: int)
    requires
        agree(s1, i1, s2, i2, e),
        !class_has(c, s1[e]),
        !class_has(c, s2[e + (i2 - i1)]),
        i1 <= k <= e,
    ensures
        span(c, s2, k + (i2 - i1)) == span(c, s1, k) + (i2 - i1),
        span(c, s1, k) <= e,
    decreases e - k,
{
    if k < e {
        lemma_agree_at(s1, i1, s2, i2, e, k);
    }
    if k < e && class_has(c, s1[k]) {
        lemma_span_local(c, s1, i1, s2, i2, e, k + 1);
    }
}

/// The same bytes spell the same tag.
proof fn lemma_tag_local(s1: Seq<u8>, i1: int, s2: Seq<u8>, i2: int, e: int, k: int, t: Seq<u8>)
    requires
        agree(s1, i1, s2, i2, e),
        i1 <= k,
        k + t.len() <= e,
        tag_spec(s1, k, t) == Ok::<int, ParseError>(k + t.len()),
    ensures
        tag_spec(s2, k + (i2 - i1), t) == Ok::<int, ParseError>(k + (i2 - i1) + t.len()),
{
    let d = i2 - i1;
    assert forall|q: int| 0 <= q < t.len() implies s2.subrange(k + d, k + d + t.len())[q] == t[q] by {
        lemma_agree_at(s1, i1, s2, i2, e, k + q);
        assert(s1.subrange(k, k + t.len())[q] == s1[k + q]);
    }
    assert(s2.subrange(k + d, k + d + t.len()) =~= t);
}

/// A run of a class that a byte of the agreed ones, outside the class,
/// ends is read the same from the same bytes.
proof fn lemma_span_local_upto(c: Class, s1: Seq<u8>, i1: int, s2: Seq<u8>, i2: int, e: int, k: int, b: int)
    requires
        agree(s1, i1, s2, i2, e),
        i1 <= k <= b < e,
        !class_has(c, s1[b]),
    ensures
        span(c, s2, k + (i2 - i1)) == span(c, s1, k) + (i2 - i1),
        span(c, s1, k) <= b,
    decreases b - k,
{
    lemma_agree_at(s1, i1, s2, i2, e, k);
    if k < b && class_has(c, s1[k]) {
        lemma_span_local_upto(c, s1, i1, s2, i2, e, k + 1, b);
    }
}

/// A bracketed literal that ends right before the byte ending the
/// hostname is read the same from the same bytes.
proof fn lemma_literal_local(c: Class, s1: Seq<u8>, i1: int, s2: Seq<u8>, i2: int, e: int, k: int)
    requires
        agree(s1, i1, s2, i2, e),
        !class_has(c, RBRACKET),
        i1 <= k <= e,
        literal_scan(c, s1, k) == Ok::<int, ParseError>(e),
    ensures
        literal_scan(c, s2, k + (i2 - i1)) == Ok::<int, ParseError>(e + (i2 - i1)),
        k < e - 1,
{
    let j = span(c, s1, k);
    crate::lex::lemma_span(c, s1, k);
    assert(j == e - 1 && k < j && s1[j] == RBRACKET);
    lemma_span_local_upto(c, s1, i1, s2, i2, e, k, e - 1);
    lemma_agree_at(s1, i1, s2, i2, e, j);
}

/// A UTF-8 token of a class that holds no byte ending a hostname, and that
/// ends at such a byte, is read the same from the same bytes.
pub(crate) proof fn lemma_utf8_token_local(c: Class, s1: Seq<u8>, i1: int, s2: Seq<u8>, i2: int, e: int)
    requires
        agree(s1, i1, s2, i2, e),
        !class_has(c, s1[e]),
        !class_has(c, s2[e + (i2 - i1)]),
        utf8_token(c, s1, i1) == Ok::<int, ParseError>(e),
    ensures
        utf8_token(c, s2, i2) == Ok::<int, ParseError>(e + (i2 - i1)),
{
    let d = i2 - i1;
    let v1 = valid_end(s1, i1);
    lemma_span_utf8_valid(c, s1, i1);
    lemma_span_utf8(c, s1, i1, v1);
    let x = s1.subrange(i1, e);
    assert(s2.subrange(i2, e + d) =~= x) by {
        assert forall|q: int| 0 <= q < e - i1 implies s2.subrange(i2, e + d)[q] == x[q] by {
            lemma_agree_at(s1, i1, s2, i2, e, i1 + q);
        }
    }
    let rest = s2.subrange(i2, s2.len() as int);
    lemma_max_valid_prefix_exists(rest);
    let n = utf8_valid_len(rest);
    assert(is_max_valid_prefix(rest, n));
    assert(rest.subrange(0, e - i1) =~= x);
    assert(n >= e - i1);
    let v2 = valid_end(s2, i2);
    lemma_span_utf8(c, s2, i2, v2);
    let r2 = span_utf8(c, s2, i2, v2);
    if r2 < e + d {
        lemma_agree_at(s1, i1, s2, i2, e, r2 - d);
        assert(false);
    }
    if r2 > e + d {
        assert(false);
    }
}

/// A piece of the agreed bytes is the same piece in both.
pub(crate) proof fn lemma_agree_sub(s1: Seq<u8>, i1: int, s2: Seq<u8>, i2: int, e: int, a: int, b: int)
    requires
        agree(s1, i1, s2, i2, e),
        i1 <= a <= b <= e,
    ensures
        s2.subrange(a + (i2 - i1), b + (i2 - i1)) == s1.subrange(a, b),
{
    let d = i2 - i1;
    assert forall|q: int| 0 <= q < b - a implies s2.subrange(a + d, b + d)[q] == s1.subrange(a, b)[q] by {
        lemma_agree_at(s1, i1, s2, i2, e, a + q);
    }
    assert(s2.subrange(a + d, b + d) =~= s1.subrange(a, b));
}

/// The byte ending the hostname is one of `term` in both.
pub(crate) proof fn lemma_terminate_local(s1: Seq<u8>, i1: int, s2: Seq<u8>, i2: int, e: int, m: int, term: Seq<u8>)
    requires
        agree(s1, i1, s2, i2, e),
        i1 <= m <= e,
        m == e ==> term.contains(s1[e]) && term.contains(s2[e + (i2 - i1)]),
    ensures
        terminate_spec(s2, m + (i2 - i1), term) == shift_res(terminate_spec(s1, m, term), i2 - i1),
{
    if m < e {
        lemma_agree_at(s1, i1, s2, i2, e, m);
    }
}

/// The ASCII reading of a hostname that ends at `e` is the same from the same bytes.
proof fn lemma_ascii_local(s1: Seq<u8>, i1: int, s2: Seq<u8>, i2: int, e: int)
    requires
        agree(s1, i1, s2, i2, e),
        hostname_ascii_re(s1, i1) == Ok::<int, ParseError>(e),
    ensures
        hostname_ascii_re(s2, i2) == Ok::<int, ParseError>(e + (i2 - i1)),
        hostname_ascii_value(s2, i2, e + (i2 - i1)) == hostname_ascii_value(s1, i1, e),
{
    let d = i2 - i1;
    if i1 < e {
        lemma_agree_at(s1, i1, s2, i2, e, i1);
    }
    lemma_agree_sub(s1, i1, s2, i2, e, i1, e);
    if s1[i1] == LBRACKET {
        lemma_agree_at(s1, i1, s2, i2, e, i1 + 1);
        if s1[i1 + 1] == 73 {
            let k = i1 + 6;
            lemma_tag_local(s1, i1, s2, i2, e, i1 + 1, ipv6_tag());
            lemma_literal_local(Class::V6Char, s1, i1, s2, i2, e, k);
            lemma_agree_sub(s1, i1, s2, i2, e, k, e - 1);
        } else {
            lemma_literal_local(Class::V4Char, s1, i1, s2, i2, e, i1 + 1);
            lemma_agree_sub(s1, i1, s2, i2, e, i1 + 1, e - 1);
        }
    } else {
        lemma_domain_scan_local(s1, i1, s2, i2, e, i1, 0, None);
    }
}

/// A byte that may not end a hostname is in no terminator made of such bytes.
pub(crate) proof fn lemma_not_in_term(b: u8, term: Seq<u8>)
    requires
        !stop_byte(b),
        forall|q: int| 0 <= q < term.len() ==> stop_byte(#[trigger] term[q]),
    ensures
        !term.contains(b),
{
    if term.contains(b) {
        let q = choose|q: int| 0 <= q < term.len() && term[q] == b;
        assert(stop_byte(term[q]));
    }
}

/// A hostname read with the terminator `term1`, followed at its new place
/// by one of `term2` (made of bytes that may end a hostname), is read the
/// same from the same bytes there.
#[verifier::rlimit(100)]
#[verifier::spinoff_prover]
pub(crate) proof fn lemma_hostname_local(
    s1: Seq<u8>,
    i1: int,
    s2: Seq<u8>,
    i2: int,
    e: int,
    term1: Seq<u8>,
    term2: Seq<u8>,
    h: HostnameView,
)
    requires
        agree(s1, i1, s2, i2, e),
        forall|q: int| 0 <= q < term2.len() ==> stop_byte(#[trigger] term2[q]),
        term2.contains(s2[i2 + (e - i1)]),
        hostname_spec(s1, i1, term1) == Ok::<(int, HostnameView), ParseError>((e, h)),
    ensures
        hostname_spec(s2, i2, term2) == Ok::<(int, HostnameView), ParseError>((e + (i2 - i1), h)),
{
    let d = i2 - i1;
    if i1 < e {
        lemma_agree_at(s1, i1, s2, i2, e, i1);
    }
    lemma_agree_sub(s1, i1, s2, i2, e, i1, e);
    assert(term1.contains(s1[e])) by {
        if hostname_spec(s1, i1, term1) is Ok {
        }
    }
    assert(terminate_spec(s2, e + d, term2) == Ok::<int, ParseError>(e + d));
    let ascii1 = match then_terminate(hostname_ascii_re(s1, i1), s1, term1) {
        Ok(j) => match hostname_ascii_value(s1, i1, j) {
            Some(h) => Ok((j, h)),
            None => Err(ParseError::Invalid),
        },
        Err(e) => Err(e),
    };
    if ascii1 is Ok {
        assert(hostname_ascii_re(s1, i1) == Ok::<int, ParseError>(e));
        lemma_ascii_local(s1, i1, s2, i2, e);
    } else {
        assert(utf8_token(Class::HostChar, s1, i1) == Ok::<int, ParseError>(e));
        lemma_span_utf8_valid(Class::HostChar, s1, i1);
        lemma_span_utf8(Class::HostChar, s1, i1, valid_end(s1, i1));
        assert(s1[i1] != LBRACKET);
        lemma_domain_scan_local(s1, i1, s2, i2, e, i1, 0, None);
        match domain_scan(s1, i1, 0, None) {
            Ok(m) => {
                crate::misc::lemma_domain_scan(s1, i1, i1, 0, None);
                if m == e {
                    assert(terminate_spec(s1, e, term1) is Ok);
                    assert(false);
                }
                lemma_agree_at(s1, i1, s2, i2, e, m);
                assert(s1[m] >= 0x80 || class_has(Class::HostChar, s1[m]));
                lemma_not_in_term(s1[m], term2);
            },
            Err(_) => {},
        }
        lemma_utf8_token_local(Class::HostChar, s1, i1, s2, i2, e);
    }
}

/// A hostname that was read, written on its own and followed by any byte
/// of `term`, is read back as the same hostname, where `term` holds only
/// blanks and `\r`.
pub proof fn lemma_hostname_round_trip(s: Seq<u8>, i: int, term: Seq<u8>, t: u8, rest: Seq<u8>)
    requires
        0 <= i,
        hostname_spec(s, i, term) is Ok,
        forall|q: int| 0 <= q < term.len() ==> stop_byte(#[trigger] term[q]),
        term.contains(t),
    ensures
        ({
            let h = hostname_spec(s, i, term)->Ok_0.1;
            hostname_spec(h.raw_bytes() + seq![t] + rest, 0, term) == Ok::<(int, HostnameView), ParseError>(
                (h.raw_bytes().len() as int, h),
            )
        }),
{
    let (j, h) = hostname_spec(s, i, term)->Ok_0;
    let raw = h.raw_bytes();
    let l = raw.len() as int;
    let s2 = raw + seq![t] + rest;
    let ascii = match then_terminate(hostname_ascii_re(s, i), s, term) {
        Ok(j) => match hostname_ascii_value(s, i, j) {
            Some(h) => Ok((j, h)),
            None => Err(ParseError::Invalid),
        },
        Err(e) => Err(e),
    };
    // what was read: the hostname's own bytes, then a byte of `term`
    assert(terminate_spec(s, j, term) is Ok);
    assert(i <= j < s.len() && raw == s.subrange(i, j)) by {
        if ascii is Ok {
            if s[i] != LBRACKET {
                crate::misc::lemma_domain_scan(s, i, i, 0, None);
            } else if s[i + 1] == 73 {
                crate::lex::lemma_span(Class::V6Char, s, i + 6);
            } else {
                crate::lex::lemma_span(Class::V4Char, s, i + 1);
            }
        } else {
            lemma_span_utf8_valid(Class::HostChar, s, i);
        }
    }
    assert(stop_byte(s[j])) by {
        let q = choose|q: int| 0 <= q < term.len() && term[q] == s[j];
    }
    assert(stop_byte(t)) by {
        let q = choose|q: int| 0 <= q < term.len() && term[q] == t;
    }
    assert(s2.subrange(0, l) =~= raw);
    assert(s2[l] == t);
    lemma_hostname_local(s, i, s2, 0, j, term, term, h);
}

} // verus!
