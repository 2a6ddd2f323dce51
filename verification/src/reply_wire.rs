//! What a reply's wire form parses back to: the reply that was written.

use vstd::prelude::*;
use vstd::utf8::valid_utf8;
use crate::lex::{
    ParseError, Class, class_has, span, span_utf8, valid_end, tag_spec, crlf, lemma_span,
    lemma_span_utf8, lemma_span_utf8_valid, lemma_max_valid_prefix_exists, SP, DASH, DOT, CR, LF,
};
use crate::text::is_max_valid_prefix;
use crate::misc::MaybeUtf8;
use crate::reply::{
    ReplyCode, EnhancedReplyCode, ReplyLine, ReplyView, is_digit, reply_code_spec, code_at,
    digit_run3, enhanced_code_spec, enhanced_code_value, last_marker_spec, opt_ecode_spec,
    reply_text_spec, reply_line_spec, line_bytes, dash_peek_spec, reply_lines_spec, reply_of,
    reply_spec, reply_bytes_upto, reply_bytes,
};

verus! {

broadcast use {vstd::seq::group_seq_axioms, vstd::array::group_array_axioms};

/// A reply code: a digit from 2 to 5, then two digits.
pub open spec fn code_ok(code: ReplyCode) -> bool {
    &&& 50 <= code.0@[0] <= 53
    &&& is_digit(code.0@[1])
    &&& is_digit(code.0@[2])
}

/// The code at `i` is read back from the code's own bytes.
proof fn lemma_code_reparse(s: Seq<u8>, i: int, code: ReplyCode)
    requires
        code_ok(code),
        0 <= i,
        i + 3 <= s.len(),
        s.subrange(i, i + 3) == code.0@,
    ensures
        reply_code_spec(s, i) == Ok::<int, ParseError>(i + 3),
        code_at(s, i) == code,
{
    assert(s[i] == s.subrange(i, i + 3)[0]);
    assert(s[i + 1] == s.subrange(i, i + 3)[1]);
    assert(s[i + 2] == s.subrange(i, i + 3)[2]);
    assert(code_at(s, i).0 =~= code.0);
}

/// A code that was read is a reply code.
proof fn lemma_code_parsed(s: Seq<u8>, i: int)
    requires
        0 <= i,
        reply_code_spec(s, i) is Ok,
    ensures
        code_ok(code_at(s, i)),
        code_at(s, i).0@ == s.subrange(i, i + 3),
{
    assert(code_at(s, i).0@ =~= s.subrange(i, i + 3));
}

/// `x` has the shape of an enhanced status code: a class digit (2, 4 or
/// 5), a dot, one to three digits, a dot, then one to three digits that end `x`.
pub open spec fn ecode_shaped(x: Seq<u8>) -> bool {
    let p = 2 + digit_run3(x, 2);
    &&& x.len() >= 5
    &&& (x[0] == 50 || x[0] == 52 || x[0] == 53)
    &&& x[1] == DOT
    &&& digit_run3(x, 2) > 0
    &&& p < x.len()
    &&& x[p] == DOT
    &&& digit_run3(x, p + 1) > 0
    &&& x.len() == p + 1 + digit_run3(x, p + 1)
}

/// An enhanced code whose class, subject and detail are those its raw form spells.
pub open spec fn ecode_ok(c: EnhancedReplyCode<Seq<u8>>) -> bool {
    ecode_shaped(c.raw) && c == enhanced_code_value(c.raw, 0, c.raw.len() as int)
}

/// `x` starts with an enhanced status code followed by a space or by its end.
pub open spec fn starts_with_ecode(x: Seq<u8>) -> bool {
    exists|n: int|
        0 < n <= x.len() && ecode_shaped(#[trigger] x.subrange(0, n)) && (n == x.len() || x[n] == SP)
}

/// Counting digits in `s` from `j + k` gives what it gives in `x` from `k`,
/// where `x` stands at `j` in `s` and is followed there by a non-digit.
proof fn lemma_digit_run3_shift(x: Seq<u8>, s: Seq<u8>, j: int, k: int)
    requires
        0 <= j,
        0 <= k <= x.len(),
        j + x.len() < s.len(),
        s.subrange(j, j + x.len()) == x,
        !is_digit(s[j + x.len()]),
    ensures
        digit_run3(s, j + k) == digit_run3(x, k),
{
    if k < x.len() {
        assert(s[j + k] == s.subrange(j, j + x.len())[k]);
    }
    if k + 1 < x.len() {
        assert(s[j + k + 1] == s.subrange(j, j + x.len())[k + 1]);
    }
    if k + 2 < x.len() {
        assert(s[j + k + 2] == s.subrange(j, j + x.len())[k + 2]);
    }
}

/// A shaped raw code that stands at `j`, followed by a space or a line end,
/// is read there whole, with the value it spells.
proof fn lemma_ecode_reparse(s: Seq<u8>, j: int, x: Seq<u8>)
    requires
        ecode_shaped(x),
        0 <= j,
        j + x.len() < s.len(),
        s.subrange(j, j + x.len()) == x,
        s[j + x.len()] == SP || s[j + x.len()] == CR,
    ensures
        enhanced_code_spec(s, j) == Ok::<int, ParseError>(j + x.len()),
        enhanced_code_value(s, j, j + x.len()) == enhanced_code_value(x, 0, x.len() as int),
{
    let n1 = digit_run3(x, 2);
    let p = 2 + n1;
    lemma_digit_run3_shift(x, s, j, 2);
    lemma_digit_run3_shift(x, s, j, p + 1);
    assert(s[j] == x[0]);
    assert(s[j + 1] == x[1]);
    assert(s[j + p] == x[p]);
    let a = enhanced_code_value(s, j, j + x.len());
    let b = enhanced_code_value(x, 0, x.len() as int);
    assert(s.subrange(j + 2, j + p) =~= x.subrange(2, p));
    assert(s.subrange(j + p + 1, j + x.len()) =~= x.subrange(p + 1, x.len() as int));
    assert(x.subrange(0, x.len() as int) =~= x);
    assert(a.raw =~= b.raw);
}

/// What `enhanced_code_spec` reads, when a non-digit follows it, is shaped,
/// and its value is the one its raw form spells.
proof fn lemma_ecode_parsed(s: Seq<u8>, j: int)
    requires
        0 <= j,
        enhanced_code_spec(s, j) is Ok,
        enhanced_code_spec(s, j)->Ok_0 < s.len(),
        !is_digit(s[enhanced_code_spec(s, j)->Ok_0]),
    ensures
        ecode_shaped(s.subrange(j, enhanced_code_spec(s, j)->Ok_0)),
        ecode_ok(enhanced_code_value(s, j, enhanced_code_spec(s, j)->Ok_0)),
{
    let e = enhanced_code_spec(s, j)->Ok_0;
    let x = s.subrange(j, e);
    let n1 = digit_run3(s, j + 2);
    let p = j + 2 + n1;
    assert(j + x.len() == e);
    lemma_digit_run3_shift(x, s, j, 2);
    lemma_digit_run3_shift(x, s, j, p + 1 - j);
    assert(x[0] == s[j]);
    assert(x[1] == s[j + 1]);
    assert(x[p - j] == s[p]);
    assert(ecode_shaped(x));
    let a = enhanced_code_value(s, j, e);
    let b = enhanced_code_value(x, 0, x.len() as int);
    assert(s.subrange(j + 2, p) =~= x.subrange(2, p - j));
    assert(s.subrange(p + 1, e) =~= x.subrange(p - j + 1, x.len() as int));
    assert(x.subrange(0, x.len() as int) =~= x);
    assert(a.raw =~= x);
    assert(a == b);
}

/// A shaped code at `j` followed by a space is taken as the line's enhanced code.
proof fn lemma_opt_ecode_some(s: Seq<u8>, j: int, c: EnhancedReplyCode<Seq<u8>>)
    requires
        ecode_ok(c),
        0 <= j,
        j + c.raw.len() < s.len(),
        s.subrange(j, j + c.raw.len()) == c.raw,
        s[j + c.raw.len()] == SP,
    ensures
        opt_ecode_spec(s, j) == Ok::<(int, Option<int>), ParseError>(
            (j + c.raw.len() + 1, Some(j + c.raw.len())),
        ),
        enhanced_code_value(s, j, j + c.raw.len()) == c,
{
    let e = j + c.raw.len();
    lemma_ecode_reparse(s, j, c.raw);
    assert(s.subrange(e, e + 1) =~= seq![SP]);
}

/// Text that does not start with an enhanced code, followed by `\r\n`,
/// carries no enhanced code.
proof fn lemma_opt_ecode_none(s: Seq<u8>, j: int, x: Seq<u8>)
    requires
        !starts_with_ecode(x),
        forall|q: int| 0 <= q < x.len() ==> #[trigger] x[q] != CR,
        0 <= j,
        j + x.len() + 2 <= s.len(),
        s.subrange(j, j + x.len()) == x,
        s[j + x.len()] == CR,
        s[j + x.len() + 1] == LF,
    ensures
        opt_ecode_spec(s, j) == Ok::<(int, Option<int>), ParseError>((j, None)),
{
    let l = x.len() as int;
    assert forall|q: int| 0 <= q < l implies #[trigger] s[j + q] == x[q] && s[j + q] != CR by {
        assert(s[j + q] == s.subrange(j, j + l)[q]);
    }
    match enhanced_code_spec(s, j) {
        Ok(e) => {
            assert(j + 2 < e <= j + l) by {
                if e > j + l {
                    let n1 = digit_run3(s, j + 2);
                    let p = j + 2 + n1;
                    assert(s[j + l] == CR);
                }
            }
            assert(s.subrange(e, e + 1) =~= seq![s[e]]);
            assert(s.subrange(e, e + 2) =~= seq![s[e], s[e + 1]]);
            if s[e] == SP || s[e] == CR {
                lemma_ecode_parsed(s, j);
                assert(s.subrange(j, e) =~= x.subrange(0, e - j));
                if s[e] == SP {
                    if e == j + l {
                        assert(false);
                    }
                    assert(x[e - j] == SP);
                } else {
                    if e < j + l {
                        assert(false);
                    }
                }
                assert(!starts_with_ecode(x));
                assert(false);
            }
        },
        Err(_) => {},
    }
}

/// A reply text as the parser gives it: ASCII text of `[\t -~]`, or valid
/// UTF-8 whose ASCII bytes are of that class and that holds a byte that is not.
pub open spec fn reply_text_ok(t: MaybeUtf8<Seq<u8>>) -> bool {
    match t {
        MaybeUtf8::Ascii(x) => forall|k: int| 0 <= k < x.len() ==> class_has(Class::ReplyText, #[trigger] x[k]),
        MaybeUtf8::Utf8(x) => {
            &&& valid_utf8(x)
            &&& forall|k: int| 0 <= k < x.len() ==> #[trigger] x[k] >= 0x80 || class_has(Class::ReplyText, x[k])
            &&& exists|k: int| 0 <= k < x.len() && !class_has(Class::ReplyText, #[trigger] x[k])
        },
    }
}

/// A run of class bytes at `k` that a byte outside the class ends is what `span` finds.
proof fn lemma_span_exact(c: Class, s: Seq<u8>, k: int, m: int)
    requires
        0 <= k <= m < s.len(),
        forall|q: int| k <= q < m ==> class_has(c, #[trigger] s[q]),
        !class_has(c, s[m]),
    ensures
        span(c, s, k) == m,
{
    lemma_span(c, s, k);
    let r = span(c, s, k);
    if r < m {
        assert(class_has(c, s[r]));
    } else if r > m {
        assert(class_has(c, s[m]));
    }
}

/// A reply text followed by `\r\n` is read back as itself.
#[verifier::rlimit(100)]
#[verifier::spinoff_prover]
proof fn lemma_text_reparse(s: Seq<u8>, k: int, t: MaybeUtf8<Seq<u8>>)
    requires
        reply_text_ok(t),
        0 <= k,
        k + t.bytes().len() + 2 <= s.len(),
        s.subrange(k, k + t.bytes().len()) == t.bytes(),
        s[k + t.bytes().len()] == CR,
        s[k + t.bytes().len() + 1] == LF,
    ensures
        reply_text_spec(s, k) == Ok::<(int, MaybeUtf8<Seq<u8>>), ParseError>(
            (k + t.bytes().len() + 2, t),
        ),
{
    let x = t.bytes();
    let l = x.len() as int;
    assert forall|q: int| 0 <= q < l implies #[trigger] s[k + q] == x[q] by {
        assert(s[k + q] == s.subrange(k, k + l)[q]);
    }
    assert(s.subrange(k + l, k + l + 2) =~= crlf());
    match t {
        MaybeUtf8::Ascii(_) => {
            assert forall|q: int| k <= q < k + l implies class_has(Class::ReplyText, #[trigger] s[q]) by {
                assert(s[k + (q - k)] == x[q - k]);
            }
            lemma_span_exact(Class::ReplyText, s, k, k + l);
            assert(s.subrange(k, k + l) =~= x);
        },
        MaybeUtf8::Utf8(_) => {
            let q0 = choose|q: int| 0 <= q < l && !class_has(Class::ReplyText, #[trigger] x[q]);
            assert(s[k + q0] == x[q0]);
            lemma_span(Class::ReplyText, s, k);
            let m = span(Class::ReplyText, s, k);
            assert(m <= k + q0);
            assert(s[m] >= 0x80) by {
                assert(s[k + (m - k)] == x[m - k]);
            }
            assert(s.subrange(m, m + 2) =~= seq![s[m], s[m + 1]]);
            // the valid UTF-8 at `k` reaches past the text
            let rest = s.subrange(k, s.len() as int);
            lemma_max_valid_prefix_exists(rest);
            let n = crate::text::utf8_valid_len(rest);
            assert(is_max_valid_prefix(rest, n));
            assert(rest.subrange(0, l) =~= x);
            assert(n >= l);
            let v = valid_end(s, k);
            lemma_span_utf8(Class::ReplyText, s, k, v);
            let e = span_utf8(Class::ReplyText, s, k, v);
            if e < k + l {
                assert(s[k + (e - k)] == x[e - k]);
                assert(false);
            }
            if e > k + l {
                assert(s[k + l] == CR);
                assert(false);
            }
            assert(s.subrange(k, k + l) =~= x);
        },
    }
}

/// What the text parser reads is a reply text, followed by `\r\n`.
proof fn lemma_text_parsed(s: Seq<u8>, k: int)
    requires
        0 <= k <= s.len(),
        reply_text_spec(s, k) is Ok,
    ensures
        ({
            let (e, t) = reply_text_spec(s, k)->Ok_0;
            &&& reply_text_ok(t)
            &&& e == k + t.bytes().len() + 2
            &&& e <= s.len()
            &&& s.subrange(k, k + t.bytes().len()) == t.bytes()
            &&& s[e - 2] == CR
            &&& s[e - 1] == LF
        }),
{
    let m = span(Class::ReplyText, s, k);
    lemma_span(Class::ReplyText, s, k);
    match tag_spec(s, m, crlf()) {
        Ok(e) => {
            assert(s.subrange(m, m + 2)[0] == s[m]);
            assert(s.subrange(m, m + 2)[1] == s[m + 1]);
        },
        _ => {
            lemma_span_utf8_valid(Class::ReplyText, s, k);
            let v = valid_end(s, k);
            let t = span_utf8(Class::ReplyText, s, k, v);
            let x = s.subrange(k, t);
            assert(s.subrange(t, t + 2)[0] == s[t]);
            assert(s.subrange(t, t + 2)[1] == s[t + 1]);
            lemma_span_utf8(Class::ReplyText, s, k, v);
            assert forall|q: int| 0 <= q < x.len() implies #[trigger] x[q] >= 0x80 || class_has(
                Class::ReplyText,
                x[q],
            ) by {
                assert(x[q] == s[k + q]);
            }
            if forall|q: int| 0 <= q < x.len() ==> class_has(Class::ReplyText, #[trigger] x[q]) {
                assert forall|q: int| k <= q < t implies class_has(Class::ReplyText, #[trigger] s[q]) by {
                    assert(x[q - k] == s[q]);
                }
                lemma_span_exact(Class::ReplyText, s, k, t);
                assert(false);
            }
        },
    }
}

/// A piece of `w`, where `w` stands at `i` in `s`, is the same piece of `s`.
proof fn lemma_piece(s: Seq<u8>, i: int, w: Seq<u8>, a: int, b: int)
    requires
        0 <= i,
        0 <= a <= b <= w.len(),
        i + w.len() <= s.len(),
        s.subrange(i, i + w.len()) == w,
    ensures
        s.subrange(i + a, i + b) == w.subrange(a, b),
{
    assert forall|q: int| 0 <= q < b - a implies s.subrange(i + a, i + b)[q] == w.subrange(a, b)[q] by {
        assert(s[i + a + q] == s.subrange(i, i + w.len())[a + q]);
    }
    assert(s.subrange(i + a, i + b) =~= w.subrange(a, b));
}

/// The fields of a reply line, as a line written with them needs them to
/// be read back: a reply code, a reply text, an enhanced code with the
/// value it spells, and, with no enhanced code, a text that does not
/// start with one.
pub open spec fn line_fields_ok(
    code: ReplyCode,
    ecode: Option<EnhancedReplyCode<Seq<u8>>>,
    t: MaybeUtf8<Seq<u8>>,
) -> bool {
    &&& code_ok(code)
    &&& reply_text_ok(t)
    &&& match ecode {
        Some(c) => ecode_ok(c),
        None => !starts_with_ecode(t.bytes()),
    }
}

/// Where the parts of a written reply line stand.
proof fn lemma_line_layout(
    s: Seq<u8>,
    i: int,
    code: ReplyCode,
    last: bool,
    ecode: Option<EnhancedReplyCode<Seq<u8>>>,
    x: Seq<u8>,
)
    requires
        0 <= i,
        i + line_bytes(code, last, ecode, x).len() <= s.len(),
        s.subrange(i, i + line_bytes(code, last, ecode, x).len()) == line_bytes(code, last, ecode, x),
    ensures
        ({
            let el = match ecode {
                Some(c) => c.raw.len() + 1,
                None => 0,
            };
            let j3 = i + 4 + el;
            &&& line_bytes(code, last, ecode, x).len() == 4 + el + x.len() + 2
            &&& s.subrange(i, i + 3) == code.0@
            &&& s[i + 3] == (if last { SP } else { DASH })
            &&& (ecode matches Some(c) ==> s.subrange(i + 4, i + 4 + c.raw.len()) == c.raw && s[i + 4
                + c.raw.len()] == SP)
            &&& s.subrange(j3, j3 + x.len()) == x
            &&& s[j3 + x.len()] == CR
            &&& s[j3 + x.len() + 1] == LF
        }),
{
    let lb = line_bytes(code, last, ecode, x);
    let eb = match ecode {
        Some(c) => c.raw + seq![SP],
        None => Seq::<u8>::empty(),
    };
    let mk: u8 = if last { SP } else { DASH };
    assert(code.0@.len() == 3);
    assert(lb =~= code.0@ + seq![mk] + eb + x + crlf());
    let el = eb.len() as int;
    lemma_piece(s, i, lb, 0, 3);
    assert(lb.subrange(0, 3) =~= code.0@);
    assert(s[i + 3] == s.subrange(i, i + lb.len())[3]);
    let j3 = i + 4 + el;
    assert(x =~= lb.subrange(4 + el, 4 + el + x.len()));
    lemma_piece(s, i, lb, 4 + el, 4 + el + x.len());
    assert(s[j3 + x.len()] == s.subrange(i, i + lb.len())[4 + el + x.len()]);
    assert(s[j3 + x.len() + 1] == s.subrange(i, i + lb.len())[4 + el + x.len() + 1]);
    match ecode {
        Some(c) => {
            let rl = c.raw.len() as int;
            assert(c.raw =~= lb.subrange(4, 4 + rl));
            lemma_piece(s, i, lb, 4, 4 + rl);
            assert(s[i + 4 + rl] == s.subrange(i, i + lb.len())[4 + rl]);
        },
        None => {},
    }
}

/// A written reply line is read back as the line that was written.
#[verifier::rlimit(100)]
#[verifier::spinoff_prover]
proof fn lemma_line_reparse(
    s: Seq<u8>,
    i: int,
    code: ReplyCode,
    last: bool,
    ecode: Option<EnhancedReplyCode<Seq<u8>>>,
    t: MaybeUtf8<Seq<u8>>,
)
    requires
        line_fields_ok(code, ecode, t),
        0 <= i,
        i + line_bytes(code, last, ecode, t.bytes()).len() <= s.len(),
        s.subrange(i, i + line_bytes(code, last, ecode, t.bytes()).len()) == line_bytes(
            code,
            last,
            ecode,
            t.bytes(),
        ),
    ensures
        reply_line_spec(s, i) == Ok::<(int, ReplyLine<Seq<u8>>), ParseError>(
            (
                i + line_bytes(code, last, ecode, t.bytes()).len(),
                ReplyLine { code, last, ecode, text: t },
            ),
        ),
        dash_peek_spec(s, i) == (if last {
            Err::<(), ParseError>(ParseError::Invalid)
        } else {
            Ok::<(), ParseError>(())
        }),
{
    let x = t.bytes();
    lemma_line_layout(s, i, code, last, ecode, x);
    let el = match ecode {
        Some(c) => c.raw.len() + 1,
        None => 0,
    };
    let j2 = i + 4;
    let j3 = j2 + el;
    lemma_code_reparse(s, i, code);
    let mk: u8 = if last { SP } else { DASH };
    assert(last_marker_spec(s, i + 3) == Ok::<(int, bool), ParseError>((j2, last))) by {
        assert(s.subrange(i + 3, i + 4) =~= seq![mk]);
        assert(s.len() - (i + 3) >= 1);
        if last {
            assert(s.subrange(i + 3, i + 4)[0] != seq![DASH][0]);
            assert(s.subrange(i + 3, i + 4) =~= seq![SP]);
        } else {
            assert(s.subrange(i + 3, i + 4) =~= seq![DASH]);
        }
    }
    assert forall|q: int| 0 <= q < x.len() implies #[trigger] x[q] != CR by {
        match t {
            MaybeUtf8::Ascii(_) => {},
            MaybeUtf8::Utf8(_) => {},
        }
    }
    match ecode {
        Some(c) => {
            lemma_opt_ecode_some(s, j2, c);
        },
        None => {
            lemma_opt_ecode_none(s, j2, x);
        },
    }
    lemma_text_reparse(s, j3, t);
}

/// The lines that the wire form of a reply holds from line `n` on.
pub open spec fn written_lines(
    code: ReplyCode,
    ecode: Option<EnhancedReplyCode<Seq<u8>>>,
    texts: Seq<MaybeUtf8<Seq<u8>>>,
    n: int,
) -> Seq<ReplyLine<Seq<u8>>> {
    Seq::new(
        (texts.len() - n) as nat,
        |k: int| ReplyLine { code, last: n + k == texts.len() - 1, ecode, text: texts[n + k] },
    )
}

/// The first `m` written lines begin the first `l` of them.
proof fn lemma_upto_prefix(
    code: ReplyCode,
    ecode: Option<EnhancedReplyCode<Seq<u8>>>,
    texts: Seq<MaybeUtf8<Seq<u8>>>,
    m: nat,
    l: nat,
)
    requires
        m <= l,
    ensures
        reply_bytes_upto(code, ecode, texts, m).len() <= reply_bytes_upto(code, ecode, texts, l).len(),
        reply_bytes_upto(code, ecode, texts, l).subrange(
            0,
            reply_bytes_upto(code, ecode, texts, m).len() as int,
        ) == reply_bytes_upto(code, ecode, texts, m),
    decreases l,
{
    if m < l {
        lemma_upto_prefix(code, ecode, texts, m, (l - 1) as nat);
        let a = reply_bytes_upto(code, ecode, texts, m);
        let b = reply_bytes_upto(code, ecode, texts, (l - 1) as nat);
        let c = reply_bytes_upto(code, ecode, texts, l);
        assert(c.subrange(0, a.len() as int) =~= b.subrange(0, a.len() as int));
    } else {
        let c = reply_bytes_upto(code, ecode, texts, l);
        assert(c.subrange(0, c.len() as int) =~= c);
    }
}

/// From line `n` on, the wire form of a reply is read back line by line.
#[verifier::rlimit(100)]
#[verifier::spinoff_prover]
proof fn lemma_lines_reparse(
    s: Seq<u8>,
    code: ReplyCode,
    ecode: Option<EnhancedReplyCode<Seq<u8>>>,
    texts: Seq<MaybeUtf8<Seq<u8>>>,
    n: nat,
)
    requires
        n < texts.len(),
        forall|k: int| 0 <= k < texts.len() ==> line_fields_ok(code, ecode, #[trigger] texts[k]),
        reply_bytes_upto(code, ecode, texts, texts.len()).len() <= s.len(),
        s.subrange(0, reply_bytes_upto(code, ecode, texts, texts.len()).len() as int)
            == reply_bytes_upto(code, ecode, texts, texts.len()),
    ensures
        reply_lines_spec(s, reply_bytes_upto(code, ecode, texts, n).len() as int) == Ok::<
            (int, Seq<ReplyLine<Seq<u8>>>),
            ParseError,
        >(
            (
                reply_bytes_upto(code, ecode, texts, texts.len()).len() as int,
                written_lines(code, ecode, texts, n as int),
            ),
        ),
    decreases texts.len() - n,
{
    let l = texts.len();
    let w = reply_bytes_upto(code, ecode, texts, l);
    let a = reply_bytes_upto(code, ecode, texts, n);
    let b = reply_bytes_upto(code, ecode, texts, n + 1);
    let last = n == l - 1;
    let lb = line_bytes(code, last, ecode, texts[n as int].bytes());
    let off = a.len() as int;
    assert(b == a + lb);
    lemma_upto_prefix(code, ecode, texts, n + 1, l);
    assert(s.subrange(0, b.len() as int) =~= b) by {
        assert(s.subrange(0, b.len() as int) =~= w.subrange(0, b.len() as int));
    }
    lemma_piece(s, 0, b, off, off + lb.len());
    assert(b.subrange(off, off + lb.len()) =~= lb);
    lemma_line_reparse(s, off, code, last, ecode, texts[n as int]);
    let line = ReplyLine { code, last, ecode, text: texts[n as int] };
    if last {
        assert(written_lines(code, ecode, texts, n as int) =~= seq![line]);
    } else {
        lemma_lines_reparse(s, code, ecode, texts, n + 1);
        assert(written_lines(code, ecode, texts, n as int) =~= seq![line] + written_lines(
            code,
            ecode,
            texts,
            n + 1int,
        ));
    }
}

/// A reply whose fields can be written and read back: at least one line,
/// and a reply code, an enhanced code and line texts as `line_fields_ok` has them.
pub open spec fn reply_fields_ok(r: ReplyView) -> bool {
    &&& r.text.len() > 0
    &&& forall|k: int| 0 <= k < r.text.len() ==> line_fields_ok(r.code, r.ecode, #[trigger] r.text[k])
}

/// Writing a reply and parsing what was written gives the reply back, and
/// the parse ends where the written reply ends, whatever follows it.
pub proof fn lemma_reply_bytes_parse(r: ReplyView, rest: Seq<u8>)
    requires
        reply_fields_ok(r),
    ensures
        reply_spec(reply_bytes(r) + rest, 0) == Ok::<(int, ReplyView), ParseError>(
            (reply_bytes(r).len() as int, r),
        ),
{
    let w = reply_bytes(r);
    let s = w + rest;
    assert(s.subrange(0, w.len() as int) =~= w);
    lemma_lines_reparse(s, r.code, r.ecode, r.text, 0);
    let ls = written_lines(r.code, r.ecode, r.text, 0);
    assert(reply_bytes_upto(r.code, r.ecode, r.text, 0).len() == 0);
    let back = reply_of(ls);
    assert(back.text =~= r.text);
    assert(back == r);
}

/// A line that was read has the fields of a line that can be written.
proof fn lemma_line_parsed(s: Seq<u8>, i: int)
    requires
        0 <= i <= s.len(),
        reply_line_spec(s, i) is Ok,
    ensures
        ({
            let l = reply_line_spec(s, i)->Ok_0.1;
            &&& code_ok(l.code)
            &&& reply_text_ok(l.text)
            &&& (l.ecode matches Some(c) ==> ecode_ok(c))
        }),
{
    lemma_code_parsed(s, i);
    let j1 = i + 3;
    let (j2, last) = last_marker_spec(s, j1)->Ok_0;
    assert(j1 <= j2 <= s.len()) by {
        if tag_spec(s, j1, seq![DASH]) is Ok || tag_spec(s, j1, seq![SP]) is Ok {
        }
    }
    let (j3, oe) = opt_ecode_spec(s, j2)->Ok_0;
    match oe {
        Some(e) => {
            assert(e < s.len() && (s[e] == SP || s[e] == CR)) by {
                if tag_spec(s, e, seq![SP]) is Ok {
                    assert(s.subrange(e, e + 1)[0] == s[e]);
                } else {
                    assert(s.subrange(e, e + 2)[0] == s[e]);
                }
            }
            lemma_ecode_parsed(s, j2);
        },
        None => {},
    }
    assert(j2 <= j3 <= s.len()) by {
        match oe {
            Some(e) => {
                if tag_spec(s, e, seq![SP]) is Ok {
                }
            },
            None => {},
        }
    }
    lemma_text_parsed(s, j3);
}

/// The fields of a line that was read.
pub open spec fn line_read_ok(l: ReplyLine<Seq<u8>>) -> bool {
    &&& code_ok(l.code)
    &&& reply_text_ok(l.text)
    &&& (l.ecode matches Some(c) ==> ecode_ok(c))
}

/// Every line of a reply that was read has the fields of a line that can be written.
proof fn lemma_lines_parsed(s: Seq<u8>, i: int)
    requires
        0 <= i <= s.len(),
        reply_lines_spec(s, i) is Ok,
    ensures
        reply_lines_spec(s, i)->Ok_0.1.len() >= 1,
        forall|k: int|
            0 <= k < reply_lines_spec(s, i)->Ok_0.1.len() ==> line_read_ok(
                #[trigger] reply_lines_spec(s, i)->Ok_0.1[k],
            ),
    decreases s.len() - i,
{
    let step = match dash_peek_spec(s, i) {
        Ok(_) => reply_line_spec(s, i),
        Err(e) => Err(e),
    };
    match step {
        Ok((j, l)) => {
            lemma_line_parsed(s, i);
            lemma_lines_parsed(s, j);
            let rest = reply_lines_spec(s, j)->Ok_0.1;
            let ls = reply_lines_spec(s, i)->Ok_0.1;
            assert(ls =~= seq![l] + rest);
            assert forall|k: int| 0 <= k < ls.len() implies line_read_ok(#[trigger] ls[k]) by {
                if k > 0 {
                    assert(ls[k] == rest[k - 1]);
                }
            }
        },
        _ => {
            lemma_line_parsed(s, i);
        },
    }
}

/// Parsing a reply, writing it and parsing what was written gives the same
/// reply, whatever follows it, unless the reply has no enhanced code and
/// one of its line texts starts with one (the written line would then
/// carry that code in front of its text, and it would be read as the
/// line's enhanced code).
pub proof fn lemma_reply_round_trip(b: Seq<u8>, rest: Seq<u8>)
    requires
        reply_spec(b, 0) is Ok,
        reply_spec(b, 0)->Ok_0.1.ecode is Some || forall|k: int|
            0 <= k < reply_spec(b, 0)->Ok_0.1.text.len() ==> !starts_with_ecode(
                (#[trigger] reply_spec(b, 0)->Ok_0.1.text[k]).bytes(),
            ),
    ensures
        ({
            let r = reply_spec(b, 0)->Ok_0.1;
            reply_spec(reply_bytes(r) + rest, 0) == Ok::<(int, ReplyView), ParseError>(
                (reply_bytes(r).len() as int, r),
            )
        }),
{
    let r = reply_spec(b, 0)->Ok_0.1;
    let ls = reply_lines_spec(b, 0)->Ok_0.1;
    lemma_lines_parsed(b, 0);
    assert(r == reply_of(ls));
    let lastl = ls[ls.len() - 1];
    assert(line_read_ok(lastl));
    assert forall|k: int| 0 <= k < r.text.len() implies line_fields_ok(
        r.code,
        r.ecode,
        #[trigger] r.text[k],
    ) by {
        assert(line_read_ok(ls[k]));
        assert(r.text[k] == ls[k].text);
    }
    lemma_reply_bytes_parse(r, rest);
}

} // verus!
