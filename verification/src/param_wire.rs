//! What the wire form of `MAIL` and `RCPT` parameters parses back to: the
//! parameters that were written.

use vstd::prelude::*;
use crate::lex::{
    ParseError, Class, class_has, span, utf8_token, tag_spec, sp_tab_spec,
    is_alnum, lemma_span, lemma_span_utf8_valid, one_of_spec, SP, CR, EQUALS,
};
use crate::misc::{MaybeUtf8, then_terminate};
use crate::command::{
    param_name_spec, param_value_ascii_re, param_value_spec, opt_param_value, param_item, params_spec,
    params_bytes_upto, params_bytes,
};
use crate::host_local::{
    blank_byte, agree, lemma_agree_at, lemma_agree_sub, lemma_span_local, lemma_terminate_local,
    lemma_utf8_token_local,
};

verus! {

broadcast use vstd::seq::group_seq_axioms;

/// A parameter value, ended by one of the bytes of `term`, is read the same
/// from the same bytes wherever they stand.
#[verifier::rlimit(100)]
#[verifier::spinoff_prover]
proof fn lemma_param_value_local(
    s1: Seq<u8>,
    k1: int,
    s2: Seq<u8>,
    k2: int,
    e: int,
    term: Seq<u8>,
    v: MaybeUtf8<Seq<u8>>,
)
    requires
        agree(s1, k1, s2, k2, e),
        blank_byte(s1[e]),
        blank_byte(s2[k2 + (e - k1)]),
        term.contains(s2[k2 + (e - k1)]),
        param_value_spec(s1, k1, term) == Ok::<(int, MaybeUtf8<Seq<u8>>), ParseError>((e, v)),
    ensures
        param_value_spec(s2, k2, term) == Ok::<(int, MaybeUtf8<Seq<u8>>), ParseError>(
            (e + (k2 - k1), v),
        ),
{
    let d = k2 - k1;
    let c = Class::ParamValue;
    if k1 < e {
        lemma_agree_at(s1, k1, s2, k2, e, k1);
    }
    lemma_agree_sub(s1, k1, s2, k2, e, k1, e);
    assert(term.contains(s1[e])) by {
        if param_value_spec(s1, k1, term) is Ok {
        }
    }
    lemma_terminate_local(s1, k1, s2, k2, e, e, term);
    lemma_span_local(c, s1, k1, s2, k2, e, k1);
    let m = span(c, s1, k1);
    if then_terminate(param_value_ascii_re(s1, k1), s1, term) is Ok {
        assert(m == e);
    } else {
        assert(utf8_token(c, s1, k1) == Ok::<int, ParseError>(e));
        if m > k1 {
            lemma_terminate_local(s1, k1, s2, k2, e, m, term);
        }
        lemma_utf8_token_local(c, s1, k1, s2, k2, e);
    }
}

/// A parameter name: a letter or digit, then letters, digits and dashes.
pub open spec fn param_name_ok(name: Seq<u8>) -> bool {
    &&& name.len() > 0
    &&& is_alnum(name[0])
    &&& forall|q: int| 0 <= q < name.len() ==> class_has(Class::AlnumDash, #[trigger] name[q])
}

/// A parameter value that its own bytes, followed by `\r`, are read as.
pub open spec fn value_reads_as_itself(v: MaybeUtf8<Seq<u8>>, term: Seq<u8>) -> bool {
    param_value_spec(v.bytes() + seq![CR], 0, term) == Ok::<(int, MaybeUtf8<Seq<u8>>), ParseError>(
        (v.bytes().len() as int, v),
    )
}

/// A parameter as the grammar reads it: such a name, and such a value if any.
pub open spec fn param_ok(p: (Seq<u8>, Option<MaybeUtf8<Seq<u8>>>), term: Seq<u8>) -> bool {
    &&& param_name_ok(p.0)
    &&& (p.1 matches Some(v) ==> value_reads_as_itself(v, term))
}

/// The wire form of one parameter.
pub open spec fn param_bytes(p: (Seq<u8>, Option<MaybeUtf8<Seq<u8>>>)) -> Seq<u8> {
    seq![SP] + p.0 + match p.1 {
        Some(v) => seq![EQUALS] + v.bytes(),
        None => Seq::empty(),
    }
}

/// `term` holds `\r` and a space, and nothing but blanks and `\r`.
pub open spec fn params_term_ok(term: Seq<u8>) -> bool {
    &&& term.contains(CR)
    &&& term.contains(SP)
    &&& forall|q: int| 0 <= q < term.len() ==> blank_byte(#[trigger] term[q])
}

/// A written parameter, followed by a space or `\r`, is read back as itself.
#[verifier::rlimit(100)]
#[verifier::spinoff_prover]
proof fn lemma_param_reparse(s: Seq<u8>, k: int, p: (Seq<u8>, Option<MaybeUtf8<Seq<u8>>>), term: Seq<u8>)
    requires
        param_ok(p, term),
        params_term_ok(term),
        0 <= k,
        k + param_bytes(p).len() < s.len(),
        s.subrange(k, k + param_bytes(p).len()) == param_bytes(p),
        s[k + param_bytes(p).len()] == SP || s[k + param_bytes(p).len()] == CR,
    ensures
        param_item(s, k, term) == Ok::<(int, (Seq<u8>, Option<MaybeUtf8<Seq<u8>>>)), ParseError>(
            (k + param_bytes(p).len(), p),
        ),
{
    let pb = param_bytes(p);
    let name = p.0;
    let ln = name.len() as int;
    let n = k + 1 + ln;
    let end = k + pb.len();
    assert forall|q: int| 0 <= q < pb.len() implies #[trigger] s[k + q] == pb[q] by {
        assert(s[k + q] == s.subrange(k, k + pb.len())[q]);
    }
    assert(s[k] == SP) by {
        assert(s[k + 0] == pb[0]);
    }
    assert forall|q: int| 0 <= q < ln implies #[trigger] s[k + 1 + q] == name[q] by {
        assert(s[k + (1 + q)] == pb[1 + q]);
    }
    // the blank before the name
    assert(sp_tab_spec(s, k) == Ok::<int, ParseError>(k + 1)) by {
        lemma_span(Class::SpTab, s, k);
        assert(s[k + 1] == name[0]);
        assert(span(Class::SpTab, s, k + 1) == k + 1);
    }
    // the name
    assert(s[n] == EQUALS || s[n] == SP || s[n] == CR) by {
        if n < end {
            assert(s[k + (1 + ln)] == pb[1 + ln]);
        }
    }
    assert(span(Class::AlnumDash, s, k + 2) == n) by {
        lemma_span(Class::AlnumDash, s, k + 2);
        let r = span(Class::AlnumDash, s, k + 2);
        if r < n {
            assert(s[k + 1 + (r - k - 1)] == name[r - k - 1]);
        }
    }
    assert(param_name_spec(s, k + 1) == Ok::<int, ParseError>(n)) by {
        assert(s[k + 1 + 0] == name[0]);
    }
    assert(s.subrange(k + 1, n) =~= name) by {
        assert forall|q: int| 0 <= q < ln implies s.subrange(k + 1, n)[q] == name[q] by {
            assert(s[k + (1 + q)] == pb[1 + q]);
        }
    }
    assert(s.subrange(n, n + 1) =~= seq![s[n]]);
    match p.1 {
        Some(v) => {
            let x = v.bytes();
            let lv = x.len() as int;
            assert(pb =~= seq![SP] + name + seq![EQUALS] + x);
            assert(s[n] == EQUALS) by {
                assert(s[k + (1 + ln)] == pb[1 + ln]);
            }
            let s1 = x + seq![CR];
            assert(s1.subrange(0, lv) =~= s.subrange(n + 1, n + 1 + lv)) by {
                assert forall|q: int| 0 <= q < lv implies s1.subrange(0, lv)[q] == s.subrange(n + 1, n + 1 + lv)[q] by {
                    assert(s[k + (2 + ln + q)] == pb[2 + ln + q]);
                }
            }
            assert(term.contains(s[n + 1 + lv])) by {
                assert(s[n + 1 + lv] == s[end]);
            }
            assert(blank_byte(s[n + 1 + lv])) by {
                assert(s[n + 1 + lv] == s[end]);
            }
            assert(blank_byte(s1[lv]));
            lemma_param_value_local(s1, 0, s, n + 1, lv, term, v);
            assert(tag_spec(s, n, seq![EQUALS]) == Ok::<int, ParseError>(n + 1));
            assert(opt_param_value(s, n, term) == Ok::<(int, Option<MaybeUtf8<Seq<u8>>>), ParseError>(
                (end, Some(v)),
            ));
        },
        None => {
            assert(pb =~= seq![SP] + name);
            assert(n == end);
            assert(seq![s[n]][0] != seq![EQUALS][0]);
            assert(tag_spec(s, n, seq![EQUALS]) == Err::<int, ParseError>(ParseError::Invalid));
            assert(opt_param_value(s, n, term) == Ok::<(int, Option<MaybeUtf8<Seq<u8>>>), ParseError>(
                (n, None),
            ));
        },
    }
}

/// The first `m` written parameters begin the first `l` of them, and each
/// one adds its own wire form.
proof fn lemma_params_upto(ps: Seq<(Seq<u8>, Option<MaybeUtf8<Seq<u8>>>)>, m: nat, l: nat)
    requires
        m <= l,
    ensures
        params_bytes_upto(ps, m).len() <= params_bytes_upto(ps, l).len(),
        params_bytes_upto(ps, l).subrange(0, params_bytes_upto(ps, m).len() as int) == params_bytes_upto(
            ps,
            m,
        ),
        m < l ==> params_bytes_upto(ps, m + 1) == params_bytes_upto(ps, m) + param_bytes(
            ps[m as int],
        ),
    decreases l,
{
    if m < l {
        lemma_params_upto(ps, m, (l - 1) as nat);
        let a = params_bytes_upto(ps, m);
        let b = params_bytes_upto(ps, (l - 1) as nat);
        let c = params_bytes_upto(ps, l);
        assert(c =~= b + param_bytes(ps[l - 1]));
        assert(c.subrange(0, a.len() as int) =~= b.subrange(0, a.len() as int));
        assert(params_bytes_upto(ps, m + 1) =~= a + param_bytes(ps[m as int]));
    } else {
        let c = params_bytes_upto(ps, l);
        assert(c.subrange(0, c.len() as int) =~= c);
    }
}

/// From the `n`-th on, written parameters followed by `\r` are read back.
proof fn lemma_params_reparse_from(
    s: Seq<u8>,
    o: int,
    ps: Seq<(Seq<u8>, Option<MaybeUtf8<Seq<u8>>>)>,
    term: Seq<u8>,
    n: nat,
)
    requires
        0 <= o,
        n <= ps.len(),
        params_term_ok(term),
        forall|q: int| 0 <= q < ps.len() ==> param_ok(#[trigger] ps[q], term),
        o + params_bytes_upto(ps, ps.len()).len() < s.len(),
        s.subrange(o, o + params_bytes_upto(ps, ps.len()).len()) == params_bytes_upto(ps, ps.len()),
        s[o + params_bytes_upto(ps, ps.len()).len()] == CR,
    ensures
        params_spec(s, o + params_bytes_upto(ps, n).len(), term) == Ok::<
            (int, Seq<(Seq<u8>, Option<MaybeUtf8<Seq<u8>>>)>),
            ParseError,
        >((o + params_bytes_upto(ps, ps.len()).len(), ps.subrange(n as int, ps.len() as int))),
    decreases ps.len() - n,
{
    let l = ps.len();
    let w = params_bytes_upto(ps, l);
    let off = o + params_bytes_upto(ps, n).len();
    lemma_params_upto(ps, n, l);
    if n == l {
        assert(sp_tab_spec(s, off) == Err::<int, ParseError>(ParseError::Invalid)) by {
            lemma_span(Class::SpTab, s, off);
        }
        assert(ps.subrange(n as int, l as int) =~= Seq::<(Seq<u8>, Option<MaybeUtf8<Seq<u8>>>)>::empty());
    } else {
        let p = ps[n as int];
        let pb = param_bytes(p);
        let b = params_bytes_upto(ps, n + 1);
        lemma_params_upto(ps, n + 1, l);
        let off2 = o + b.len();
        assert(off2 == off + pb.len());
        assert(s.subrange(off, off2) =~= pb) by {
            assert forall|q: int| 0 <= q < pb.len() implies s.subrange(off, off2)[q] == pb[q] by {
                let r = off - o + q;
                assert(s[o + r] == s.subrange(o, o + w.len())[r]);
                assert(w[r] == w.subrange(0, b.len() as int)[r]);
                assert(b[r] == pb[q]);
            }
        }
        assert(s[off2] == SP || s[off2] == CR) by {
            if n + 1 < l {
                lemma_params_upto(ps, n + 2, l);
                let c = params_bytes_upto(ps, n + 2);
                let r = b.len() as int;
                assert(c == b + param_bytes(ps[n + 1int]));
                assert(s[o + r] == s.subrange(o, o + w.len())[r]);
                assert(w[r] == w.subrange(0, c.len() as int)[r]);
                assert(c[r] == param_bytes(ps[n + 1int])[0]);
            }
        }
        lemma_param_reparse(s, off, p, term);
        lemma_params_reparse_from(s, o, ps, term, n + 1);
        assert(ps.subrange(n as int, l as int) =~= seq![p] + ps.subrange(n + 1int, l as int));
    }
}

/// Parameters as the grammar reads them, written at `o` and followed by
/// `\r`, are read back there.
pub(crate) proof fn lemma_params_at(
    s: Seq<u8>,
    o: int,
    ps: Seq<(Seq<u8>, Option<MaybeUtf8<Seq<u8>>>)>,
    term: Seq<u8>,
)
    requires
        0 <= o,
        params_term_ok(term),
        forall|q: int| 0 <= q < ps.len() ==> param_ok(#[trigger] ps[q], term),
        o + params_bytes(ps).len() < s.len(),
        s.subrange(o, o + params_bytes(ps).len()) == params_bytes(ps),
        s[o + params_bytes(ps).len()] == CR,
    ensures
        params_spec(s, o, term) == Ok::<(int, Seq<(Seq<u8>, Option<MaybeUtf8<Seq<u8>>>)>), ParseError>(
            (o + params_bytes(ps).len(), ps),
        ),
{
    lemma_params_reparse_from(s, o, ps, term, 0);
    assert(params_bytes_upto(ps, 0).len() == 0);
    assert(ps.subrange(0, ps.len() as int) =~= ps);
}

/// Writing parameters as the grammar reads them, followed by `\r`, and
/// parsing what was written gives the parameters back, and the parse ends
/// where they end, whatever follows.
pub proof fn lemma_params_bytes_parse(
    ps: Seq<(Seq<u8>, Option<MaybeUtf8<Seq<u8>>>)>,
    term: Seq<u8>,
    rest: Seq<u8>,
)
    requires
        params_term_ok(term),
        forall|q: int| 0 <= q < ps.len() ==> param_ok(#[trigger] ps[q], term),
    ensures
        params_spec(params_bytes(ps) + seq![CR] + rest, 0, term) == Ok::<
            (int, Seq<(Seq<u8>, Option<MaybeUtf8<Seq<u8>>>)>),
            ParseError,
        >((params_bytes(ps).len() as int, ps)),
{
    let w = params_bytes(ps);
    let s = w + seq![CR] + rest;
    assert(s.subrange(0, w.len() as int) =~= w);
    assert(s[w.len() as int] == CR);
    lemma_params_at(s, 0, ps, term);
}

/// A parameter that was read is one the grammar reads back from its wire form.
proof fn lemma_param_parsed(s: Seq<u8>, k: int, term: Seq<u8>)
    requires
        0 <= k <= s.len(),
        params_term_ok(term),
        param_item(s, k, term) is Ok,
    ensures
        k < param_item(s, k, term)->Ok_0.0 <= s.len(),
        param_ok(param_item(s, k, term)->Ok_0.1, term),
{
    let j = sp_tab_spec(s, k)->Ok_0;
    lemma_span(Class::SpTab, s, k);
    let n = param_name_spec(s, j)->Ok_0;
    lemma_span(Class::AlnumDash, s, j + 1);
    let name = s.subrange(j, n);
    assert forall|q: int| 0 <= q < name.len() implies class_has(Class::AlnumDash, #[trigger] name[q]) by {
        assert(name[q] == s[j + q]);
    }
    assert(name[0] == s[j]);
    if tag_spec(s, n, seq![EQUALS]) is Ok {
        let n1 = n + 1;
        assert(s.subrange(n, n + 1)[0] == s[n]);
        if param_value_spec(s, n1, term) is Ok {
            let (e, v) = param_value_spec(s, n1, term)->Ok_0;
            let x = v.bytes();
            assert(one_of_spec(s, e, term) is Ok);
            assert(n1 <= e && x == s.subrange(n1, e)) by {
                if then_terminate(param_value_ascii_re(s, n1), s, term) is Ok {
                    lemma_span(Class::ParamValue, s, n1);
                } else {
                    lemma_span_utf8_valid(Class::ParamValue, s, n1);
                }
            }
            assert(blank_byte(s[e])) by {
                let q = choose|q: int| 0 <= q < term.len() && term[q] == s[e];
            }
            let s1 = x + seq![CR];
            assert(s1.subrange(0, x.len() as int) =~= x);
            assert(s1[x.len() as int] == CR);
            lemma_param_value_local(s, n1, s1, 0, e, term, v);
        }
    }
}

/// Every parameter that was read is one the grammar reads back from its wire form.
pub(crate) proof fn lemma_params_parsed(s: Seq<u8>, k: int, term: Seq<u8>)
    requires
        0 <= k <= s.len(),
        params_term_ok(term),
        params_spec(s, k, term) is Ok,
    ensures
        forall|q: int|
            0 <= q < params_spec(s, k, term)->Ok_0.1.len() ==> param_ok(
                #[trigger] params_spec(s, k, term)->Ok_0.1[q],
                term,
            ),
    decreases s.len() - k,
{
    if param_item(s, k, term) is Ok {
        let (k2, item) = param_item(s, k, term)->Ok_0;
        lemma_param_parsed(s, k, term);
        lemma_params_parsed(s, k2, term);
        let rest = params_spec(s, k2, term)->Ok_0.1;
        let ps = params_spec(s, k, term)->Ok_0.1;
        assert(ps =~= seq![item] + rest);
        assert forall|q: int| 0 <= q < ps.len() implies param_ok(#[trigger] ps[q], term) by {
            if q > 0 {
                assert(ps[q] == rest[q - 1]);
            }
        }
    }
}

/// Parsing parameters, writing them, and parsing what was written followed
/// by `\r` gives the same parameters, whatever follows, where `term`
/// holds a space and `\r` and nothing but blanks and `\r`.
pub proof fn lemma_params_round_trip(b: Seq<u8>, k: int, term: Seq<u8>, rest: Seq<u8>)
    requires
        0 <= k <= b.len(),
        params_term_ok(term),
        params_spec(b, k, term) is Ok,
    ensures
        ({
            let ps = params_spec(b, k, term)->Ok_0.1;
            params_spec(params_bytes(ps) + seq![CR] + rest, 0, term) == Ok::<
                (int, Seq<(Seq<u8>, Option<MaybeUtf8<Seq<u8>>>)>),
                ParseError,
            >((params_bytes(ps).len() as int, ps))
        }),
{
    lemma_params_parsed(b, k, term);
    lemma_params_bytes_parse(params_spec(b, k, term)->Ok_0.1, term, rest);
}

} // verus!
