//! Lexical layer of the SMTP grammar: byte classes, longest-match token
//! scanners and the streaming primitives (`tag`, `one_of`, ...) that the
//! command and reply grammars are built from.
//!
//! Every parser works on a whole buffer `s` and a start index `i`, and
//! answers either `Ok(j)` (the token is `s[i..j]`), `Incomplete` (more input
//! could still make it succeed) or `Invalid`.

use vstd::prelude::*;
use vstd::utf8::*;
use crate::text::{is_max_valid_prefix, utf8_valid_len, utf8_partial, utf8_partial_exec, utf8_valid_end, lemma_valid_utf8_cut_at_ascii};

verus! {

broadcast use vstd::seq::group_seq_axioms;

/// Why parsing stopped.
#[derive(Clone, Copy, Debug, PartialEq, Eq, Structural)]
pub enum ParseError {
    /// The input ends before the parser could decide: more bytes are needed.
    Incomplete,
    /// The input cannot be parsed, whatever comes after it.
    Invalid,
}

impl ParseError {
    /// `true` iff more input could still make parsing succeed.
    pub fn is_incomplete(&self) -> (r: bool)
        ensures
            r == (*self == ParseError::Incomplete),
    {
        match self {
            ParseError::Incomplete => true,
            ParseError::Invalid => false,
        }
    }
}

pub const TAB: u8 = 9;
pub const LF: u8 = 10;
pub const CR: u8 = 13;
pub const SP: u8 = 32;
pub const DQUOTE: u8 = 34;
pub const DASH: u8 = 45;
pub const DOT: u8 = 46;
pub const COLON: u8 = 58;
pub const LT: u8 = 60;
pub const EQUALS: u8 = 61;
pub const GT: u8 = 62;
pub const AT: u8 = 64;
pub const LBRACKET: u8 = 91;
pub const BACKSLASH: u8 = 92;
pub const RBRACKET: u8 = 93;
pub const COMMA: u8 = 44;

pub open spec fn is_digit(b: u8) -> bool {
    48 <= b <= 57
}

pub open spec fn is_alpha(b: u8) -> bool {
    (65 <= b <= 90) || (97 <= b <= 122)
}

/// `[[:alnum:]]`
pub open spec fn is_alnum(b: u8) -> bool {
    is_digit(b) || is_alpha(b)
}

/// `[[:xdigit:]]`
pub open spec fn is_xdigit(b: u8) -> bool {
    is_digit(b) || (65 <= b <= 70) || (97 <= b <= 102)
}

/// ASCII and not `[[:cntrl:]]`: 0x20 to 0x7e.
pub open spec fn is_printable(b: u8) -> bool {
    0x20 <= b <= 0x7e
}

/// The byte classes used by the grammar.
#[derive(Clone, Copy, Debug, PartialEq, Eq, Structural)]
pub enum Class {
    /// `[ \t]`
    SpTab,
    /// `[0-9]`
    Digit,
    /// `[[:alnum:]]`
    Alnum,
    /// `[-[:alnum:]]`
    AlnumDash,
    /// `[\t -~]`, the ASCII part of reply text
    ReplyText,
    /// `[[:ascii:]&&[^= [:cntrl:]]]`, the ASCII part of a parameter value
    ParamValue,
    /// `[-.[:alnum:]]`, the ASCII part of a UTF-8 hostname
    HostChar,
    /// `[a-zA-Z0-9!#$%&'*+-/=?^_`{|}~]`, the ASCII part of a dot-string
    /// localpart (note that the range `+-/` holds `,` and `.`)
    Atext,
    /// `[.0-9]`, inside a bracketed IPv4 literal
    V4Char,
    /// `[:.[:xdigit:]]`, inside a bracketed IPv6 literal
    V6Char,
    /// `[[:xdigit:]]`
    Xdigit,
}

pub open spec fn class_has(c: Class, b: u8) -> bool {
    match c {
        Class::SpTab => b == SP || b == TAB,
        Class::Digit => is_digit(b),
        Class::Alnum => is_alnum(b),
        Class::AlnumDash => is_alnum(b) || b == DASH,
        Class::ReplyText => b == TAB || is_printable(b),
        Class::ParamValue => 0x21 <= b <= 0x7e && b != EQUALS,
        Class::HostChar => is_alnum(b) || b == DASH || b == DOT,
        Class::Atext => is_alnum(b) || b == 33 || (35 <= b <= 39) || b == 42 || (43 <= b <= 47)
            || b == EQUALS || b == 63 || (94 <= b <= 96) || (123 <= b <= 126),
        Class::V4Char => is_digit(b) || b == DOT,
        Class::V6Char => is_xdigit(b) || b == COLON || b == DOT,
        Class::Xdigit => is_xdigit(b),
    }
}

pub fn class_has_exec(c: Class, b: u8) -> (r: bool)
    ensures
        r == class_has(c, b),
{
    let digit = 48 <= b && b <= 57;
    let alpha = (65 <= b && b <= 90) || (97 <= b && b <= 122);
    match c {
        Class::SpTab => b == SP || b == TAB,
        Class::Digit => digit,
        Class::Alnum => digit || alpha,
        Class::AlnumDash => digit || alpha || b == DASH,
        Class::ReplyText => b == TAB || (0x20 <= b && b <= 0x7e),
        Class::ParamValue => 0x21 <= b && b <= 0x7e && b != EQUALS,
        Class::HostChar => digit || alpha || b == DASH || b == DOT,
        Class::Atext => digit || alpha || b == 33 || (35 <= b && b <= 39) || b == 42 || (43 <= b
            && b <= 47) || b == EQUALS || b == 63 || (94 <= b && b <= 96) || (123 <= b && b <= 126),
        Class::V4Char => digit || b == DOT,
        Class::V6Char => digit || (65 <= b && b <= 70) || (97 <= b && b <= 102) || b == COLON
            || b == DOT,
        Class::Xdigit => digit || (65 <= b && b <= 70) || (97 <= b && b <= 102),
    }
}

/// End of the run of bytes of class `c` that starts at `i`.
pub open spec fn span(c: Class, s: Seq<u8>, i: int) -> int
    decreases s.len() - i,
{
    if 0 <= i < s.len() && class_has(c, s[i]) {
        span(c, s, i + 1)
    } else {
        i
    }
}

pub proof fn lemma_span(c: Class, s: Seq<u8>, i: int)
    requires
        0 <= i <= s.len(),
    ensures
        i <= span(c, s, i) <= s.len(),
        forall|k: int| i <= k < span(c, s, i) ==> class_has(c, #[trigger] s[k]),
        span(c, s, i) < s.len() ==> !class_has(c, s[span(c, s, i)]),
    decreases s.len() - i,
{
    if i < s.len() && class_has(c, s[i]) {
        lemma_span(c, s, i + 1);
    }
}

pub fn span_exec(c: Class, buf: &[u8], i: usize) -> (r: usize)
    requires
        i <= buf@.len(),
    ensures
        r == span(c, buf@, i as int),
        i <= r <= buf@.len(),
{
    let mut j = i;
    while j < buf.len() && class_has_exec(c, buf[j])
        invariant
            i <= j <= buf@.len(),
            span(c, buf@, j as int) == span(c, buf@, i as int),
        decreases buf@.len() - j,
    {
        j = j + 1;
    }
    proof {
        lemma_span(c, buf@, i as int);
    }
    j
}

/// End of the run that starts at `i` and stops at `v`, of bytes that are
/// either of class `c` or not ASCII (`[c[:^ascii:]]` inside valid UTF-8 that
/// ends at `v`).
pub open spec fn span_utf8(c: Class, s: Seq<u8>, i: int, v: int) -> int
    decreases v - i,
{
    if 0 <= i < v && i < s.len() && (s[i] >= 0x80 || class_has(c, s[i])) {
        span_utf8(c, s, i + 1, v)
    } else {
        i
    }
}

pub proof fn lemma_span_utf8(c: Class, s: Seq<u8>, i: int, v: int)
    requires
        0 <= i <= v <= s.len(),
    ensures
        i <= span_utf8(c, s, i, v) <= v,
        forall|k: int|
            i <= k < span_utf8(c, s, i, v) ==> (s[k] >= 0x80 || class_has(c, #[trigger] s[k])),
        span_utf8(c, s, i, v) < v ==> s[span_utf8(c, s, i, v)] < 0x80 && !class_has(
            c,
            s[span_utf8(c, s, i, v)],
        ),
    decreases v - i,
{
    if i < v && (s[i] >= 0x80 || class_has(c, s[i])) {
        lemma_span_utf8(c, s, i + 1, v);
    }
}

/// Where the valid UTF-8 that starts at `i` ends.
pub open spec fn valid_end(s: Seq<u8>, i: int) -> int {
    i + utf8_valid_len(s.subrange(i, s.len() as int))
}

/// Result of the longest match of `( c | [[:^ascii:]] )+` at `i`, as a
/// DFA that stops at the first byte that cannot continue the match.
pub open spec fn utf8_token(c: Class, s: Seq<u8>, i: int) -> Result<int, ParseError> {
    let v = valid_end(s, i);
    let j = span_utf8(c, s, i, v);
    if j > i {
        Ok(j)
    } else if i >= s.len() {
        Err(ParseError::Incomplete)
    } else if j < v {
        Err(ParseError::Invalid)
    } else if utf8_partial(s.subrange(i, s.len() as int)) {
        Err(ParseError::Incomplete)
    } else {
        Err(ParseError::Invalid)
    }
}

/// The run computed by `span_utf8` up to the end of the valid UTF-8 is valid UTF-8.
pub proof fn lemma_span_utf8_valid(c: Class, s: Seq<u8>, i: int)
    requires
        0 <= i <= s.len(),
    ensures
        i <= span_utf8(c, s, i, valid_end(s, i)) <= valid_end(s, i) <= s.len(),
        valid_utf8(s.subrange(i, span_utf8(c, s, i, valid_end(s, i)))),
        forall|k: int|
            i <= k < span_utf8(c, s, i, valid_end(s, i)) && s[k] < 0x80 ==> class_has(
                c,
                #[trigger] s[k],
            ),
{
    let x = s.subrange(i, s.len() as int);
    let n = utf8_valid_len(x);
    lemma_max_valid_prefix_exists(x);
    assert(is_max_valid_prefix(x, n));
    let v = i + n;
    lemma_span_utf8(c, s, i, v);
    let j = span_utf8(c, s, i, v);
    let y = x.subrange(0, n);
    assert(valid_utf8(y));
    if j < v {
        assert(y[j - i] == s[j]);
    }
    lemma_valid_utf8_cut_at_ascii(y, j - i);
    assert(y.subrange(0, j - i) =~= s.subrange(i, j));
}

/// Tokens matched by `utf8_token` are valid UTF-8.
pub proof fn lemma_utf8_token_valid(c: Class, s: Seq<u8>, i: int)
    requires
        0 <= i <= s.len(),
        utf8_token(c, s, i) is Ok,
    ensures
        i < utf8_token(c, s, i)->Ok_0 <= s.len(),
        valid_utf8(s.subrange(i, utf8_token(c, s, i)->Ok_0)),
        forall|k: int|
            i <= k < utf8_token(c, s, i)->Ok_0 && s[k] < 0x80 ==> class_has(c, #[trigger] s[k]),
{
    lemma_span_utf8_valid(c, s, i);
}

/// The longest valid UTF-8 prefix always exists (the empty prefix is valid).
pub proof fn lemma_max_valid_prefix_exists(x: Seq<u8>)
    ensures
        exists|m: int| is_max_valid_prefix(x, m),
    decreases x.len(),
{
    lemma_max_valid_prefix_exists_from(x, x.len() as int);
}

proof fn lemma_max_valid_prefix_exists_from(x: Seq<u8>, k: int)
    requires
        0 <= k <= x.len(),
        forall|m: int| k < m <= x.len() ==> !valid_utf8(#[trigger] x.subrange(0, m)),
    ensures
        exists|m: int| is_max_valid_prefix(x, m),
    decreases k,
{
    if valid_utf8(x.subrange(0, k)) {
        assert(is_max_valid_prefix(x, k));
    } else {
        assert(k > 0) by {
            if k == 0 {
                assert(x.subrange(0, 0).len() == 0);
            }
        }
        lemma_max_valid_prefix_exists_from(x, k - 1);
    }
}

/// `span_utf8(c, buf, i, valid_end(buf, i))`
pub fn span_utf8_exec(c: Class, buf: &[u8], i: usize) -> (r: (usize, usize))
    requires
        i <= buf@.len(),
    ensures
        r.1 == valid_end(buf@, i as int),
        r.0 == span_utf8(c, buf@, i as int, r.1 as int),
        i <= r.0 <= r.1 <= buf@.len(),
{
    let v = utf8_valid_end(buf, i);
    let mut j = i;
    while j < v && (buf[j] >= 0x80 || class_has_exec(c, buf[j]))
        invariant
            i <= j <= v <= buf@.len(),
            span_utf8(c, buf@, j as int, v as int) == span_utf8(c, buf@, i as int, v as int),
        decreases v - j,
    {
        j = j + 1;
    }
    proof {
        lemma_span_utf8(c, buf@, i as int, v as int);
    }
    (j, v)
}

pub fn utf8_token_exec(c: Class, buf: &[u8], i: usize) -> (r: Result<usize, ParseError>)
    requires
        i <= buf@.len(),
    ensures
        match r {
            Ok(j) => utf8_token(c, buf@, i as int) == Ok::<int, ParseError>(j as int) && i < j
                <= buf@.len(),
            Err(e) => utf8_token(c, buf@, i as int) == Err::<int, ParseError>(e),
        },
{
    let (j, v) = span_utf8_exec(c, buf, i);
    if j > i {
        Ok(j)
    } else if i >= buf.len() {
        Err(ParseError::Incomplete)
    } else if j < v {
        Err(ParseError::Invalid)
    } else if utf8_partial_exec(buf, i) {
        Err(ParseError::Incomplete)
    } else {
        Err(ParseError::Invalid)
    }
}

/// The bytes of an iterator made of a single chunk of bytes.
pub open spec fn chunk_of(it: std::vec::IntoIter<Vec<u8>>) -> Seq<u8> {
    let elts = vstd::std_specs::vec::into_iter_elts(it);
    if elts.len() == 1 {
        elts[0]@
    } else {
        Seq::empty()
    }
}

/// Wraps bytes as an iterator of a single chunk (what `as_io_slices` gives
/// out for the wire form of a value).
pub fn single_chunk(v: Vec<u8>) -> (r: std::vec::IntoIter<Vec<u8>>)
    ensures
        vstd::std_specs::vec::into_iter_elts(r).len() == 1,
        chunk_of(r) == v@,
{
    let ghost b = v@;
    let mut chunks: Vec<Vec<u8>> = Vec::new();
    chunks.push(v);
    assert(chunks@[0]@ == b);
    chunks.into_iter()
}

/// Streaming `tag(t)`: `t` itself, or `Incomplete` when the input is a
/// strict prefix of `t`.
pub open spec fn tag_spec(s: Seq<u8>, i: int, t: Seq<u8>) -> Result<int, ParseError> {
    if s.len() - i >= t.len() {
        if s.subrange(i, i + t.len()) == t {
            Ok(i + t.len())
        } else {
            Err(ParseError::Invalid)
        }
    } else if s.subrange(i, s.len() as int) == t.subrange(0, s.len() - i) {
        Err(ParseError::Incomplete)
    } else {
        Err(ParseError::Invalid)
    }
}

/// ASCII lower-casing.
pub open spec fn ascii_lower(b: u8) -> u8 {
    if 65 <= b <= 90 {
        (b + 32) as u8
    } else {
        b
    }
}

/// Byte-by-byte equality of `a` and `b` up to ASCII case.
pub open spec fn eq_no_case(a: Seq<u8>, b: Seq<u8>) -> bool {
    a.len() == b.len() && forall|k: int| 0 <= k < a.len() ==> ascii_lower(#[trigger] a[k])
        == ascii_lower(b[k])
}

/// Streaming `tag_no_case(t)`.
pub open spec fn tag_no_case_spec(s: Seq<u8>, i: int, t: Seq<u8>) -> Result<int, ParseError> {
    if s.len() - i >= t.len() {
        if eq_no_case(s.subrange(i, i + t.len()), t) {
            Ok(i + t.len())
        } else {
            Err(ParseError::Invalid)
        }
    } else if eq_no_case(s.subrange(i, s.len() as int), t.subrange(0, s.len() - i)) {
        Err(ParseError::Incomplete)
    } else {
        Err(ParseError::Invalid)
    }
}

fn ascii_lower_exec(b: u8) -> (r: u8)
    ensures
        r == ascii_lower(b),
{
    if 65 <= b && b <= 90 {
        b + 32
    } else {
        b
    }
}

/// Shared implementation of `tag` and `tag_no_case`.
fn tag_impl(buf: &[u8], i: usize, t: &[u8], no_case: bool) -> (r: Result<usize, ParseError>)
    requires
        i <= buf@.len(),
    ensures
        match r {
            Ok(j) => j == i + t@.len() && j <= buf@.len(),
            Err(_) => true,
        },
        no_case ==> match r {
            Ok(j) => tag_no_case_spec(buf@, i as int, t@) == Ok::<int, ParseError>(j as int),
            Err(e) => tag_no_case_spec(buf@, i as int, t@) == Err::<int, ParseError>(e),
        },
        !no_case ==> match r {
            Ok(j) => tag_spec(buf@, i as int, t@) == Ok::<int, ParseError>(j as int),
            Err(e) => tag_spec(buf@, i as int, t@) == Err::<int, ParseError>(e),
        },
{
    let n = buf.len();
    let avail = n - i;
    let m = if avail < t.len() {
        avail
    } else {
        t.len()
    };
    let mut k: usize = 0;
    while k < m
        invariant
            m <= avail,
            m <= t@.len(),
            avail == buf@.len() - i,
            i + avail == buf@.len(),
            n == buf@.len(),
            i <= buf@.len(),
            k <= m,
            forall|q: int|
                0 <= q < k ==> if no_case {
                    ascii_lower(#[trigger] buf@[i + q]) == ascii_lower(t@[q])
                } else {
                    buf@[i + q] == t@[q]
                },
        decreases m - k,
    {
        assert(i + k < n);
        let a = buf[i + k];
        let b = t[k];
        let same = if no_case {
            ascii_lower_exec(a) == ascii_lower_exec(b)
        } else {
            a == b
        };
        if !same {
            proof {
                if avail >= t.len() {
                    let x = buf@.subrange(i as int, i + t@.len());
                    assert(x[k as int] == a);
                    if !no_case {
                        assert(x != t@);
                    }
                } else {
                    let x = buf@.subrange(i as int, buf@.len() as int);
                    let y = t@.subrange(0, avail as int);
                    assert(x[k as int] == a);
                    assert(y[k as int] == b);
                    if !no_case {
                        assert(x != y);
                    }
                }
            }
            return Err(ParseError::Invalid);
        }
        k = k + 1;
    }
    if avail >= t.len() {
        proof {
            let x = buf@.subrange(i as int, i + t@.len());
            if no_case {
                assert forall|q: int| 0 <= q < x.len() implies ascii_lower(#[trigger] x[q])
                    == ascii_lower(t@[q]) by {
                    assert(x[q] == buf@[i + q]);
                }
            } else {
                assert(x =~= t@) by {
                    assert forall|q: int| 0 <= q < x.len() implies #[trigger] x[q] == t@[q] by {
                        assert(x[q] == buf@[i + q]);
                    }
                }
            }
        }
        Ok(i + t.len())
    } else {
        proof {
            let x = buf@.subrange(i as int, buf@.len() as int);
            let y = t@.subrange(0, avail as int);
            if no_case {
                assert forall|q: int| 0 <= q < x.len() implies ascii_lower(#[trigger] x[q])
                    == ascii_lower(y[q]) by {
                    assert(x[q] == buf@[i + q]);
                }
            } else {
                assert(x =~= y) by {
                    assert forall|q: int| 0 <= q < x.len() implies #[trigger] x[q] == y[q] by {
                        assert(x[q] == buf@[i + q]);
                    }
                }
            }
        }
        Err(ParseError::Incomplete)
    }
}

pub fn tag_exec(buf: &[u8], i: usize, t: &[u8]) -> (r: Result<usize, ParseError>)
    requires
        i <= buf@.len(),
    ensures
        match r {
            Ok(j) => tag_spec(buf@, i as int, t@) == Ok::<int, ParseError>(j as int) && j <= buf@.len(),
            Err(e) => tag_spec(buf@, i as int, t@) == Err::<int, ParseError>(e),
        },
{
    tag_impl(buf, i, t, false)
}

pub fn tag_no_case_exec(buf: &[u8], i: usize, t: &[u8]) -> (r: Result<usize, ParseError>)
    requires
        i <= buf@.len(),
    ensures
        match r {
            Ok(j) => tag_no_case_spec(buf@, i as int, t@) == Ok::<int, ParseError>(j as int) && j
                <= buf@.len(),
            Err(e) => tag_no_case_spec(buf@, i as int, t@) == Err::<int, ParseError>(e),
        },
{
    tag_impl(buf, i, t, true)
}

/// Streaming `one_of(set)`.
pub open spec fn one_of_spec(s: Seq<u8>, i: int, set: Seq<u8>) -> Result<int, ParseError> {
    if i >= s.len() {
        Err(ParseError::Incomplete)
    } else if set.contains(s[i]) {
        Ok(i + 1)
    } else {
        Err(ParseError::Invalid)
    }
}

/// Whether the two byte strings are equal.
pub fn bytes_eq(a: &[u8], b: &[u8]) -> (r: bool)
    ensures
        r == (a@ == b@),
{
    if a.len() != b.len() {
        return false;
    }
    let mut k: usize = 0;
    while k < a.len()
        invariant
            a@.len() == b@.len(),
            k <= a@.len(),
            forall|q: int| 0 <= q < k ==> a@[q] == b@[q],
        decreases a@.len() - k,
    {
        if a[k] != b[k] {
            return false;
        }
        k = k + 1;
    }
    assert(a@ =~= b@);
    true
}

pub fn contains_byte(set: &[u8], b: u8) -> (r: bool)
    ensures
        r == set@.contains(b),
{
    let mut k: usize = 0;
    while k < set.len()
        invariant
            k <= set@.len(),
            forall|q: int| 0 <= q < k ==> set@[q] != b,
        decreases set@.len() - k,
    {
        if set[k] == b {
            assert(set@[k as int] == b);
            return true;
        }
        k = k + 1;
    }
    false
}

pub fn one_of_exec(buf: &[u8], i: usize, set: &[u8]) -> (r: Result<usize, ParseError>)
    requires
        i <= buf@.len(),
    ensures
        match r {
            Ok(j) => one_of_spec(buf@, i as int, set@) == Ok::<int, ParseError>(j as int) && j
                <= buf@.len(),
            Err(e) => one_of_spec(buf@, i as int, set@) == Err::<int, ParseError>(e),
        },
{
    if i >= buf.len() {
        Err(ParseError::Incomplete)
    } else if contains_byte(set, buf[i]) {
        Ok(i + 1)
    } else {
        Err(ParseError::Invalid)
    }
}

/// `peek(one_of(term))`: the next byte must be one of `term`; nothing is consumed.
pub open spec fn terminate_spec(s: Seq<u8>, i: int, term: Seq<u8>) -> Result<int, ParseError> {
    match one_of_spec(s, i, term) {
        Ok(_) => Ok(i),
        Err(e) => Err(e),
    }
}

/// Streaming `is_a(" \t")`: at least one space or tab, and the run must be
/// followed by another byte.
pub open spec fn sp_tab_spec(s: Seq<u8>, i: int) -> Result<int, ParseError> {
    let j = span(Class::SpTab, s, i);
    if j >= s.len() {
        Err(ParseError::Incomplete)
    } else if j == i {
        Err(ParseError::Invalid)
    } else {
        Ok(j)
    }
}

/// `opt(is_a(" \t"))`.
pub open spec fn opt_sp_tab_spec(s: Seq<u8>, i: int) -> Result<int, ParseError> {
    match sp_tab_spec(s, i) {
        Err(ParseError::Invalid) => Ok(i),
        r => r,
    }
}

pub fn sp_tab_exec(buf: &[u8], i: usize) -> (r: Result<usize, ParseError>)
    requires
        i <= buf@.len(),
    ensures
        match r {
            Ok(j) => sp_tab_spec(buf@, i as int) == Ok::<int, ParseError>(j as int) && i <= j
                <= buf@.len(),
            Err(e) => sp_tab_spec(buf@, i as int) == Err::<int, ParseError>(e),
        },
{
    let j = span_exec(Class::SpTab, buf, i);
    if j >= buf.len() {
        Err(ParseError::Incomplete)
    } else if j == i {
        Err(ParseError::Invalid)
    } else {
        Ok(j)
    }
}

pub fn opt_sp_tab_exec(buf: &[u8], i: usize) -> (r: Result<usize, ParseError>)
    requires
        i <= buf@.len(),
    ensures
        match r {
            Ok(j) => opt_sp_tab_spec(buf@, i as int) == Ok::<int, ParseError>(j as int) && i <= j
                <= buf@.len(),
            Err(e) => opt_sp_tab_spec(buf@, i as int) == Err::<int, ParseError>(e),
        },
{
    match sp_tab_exec(buf, i) {
        Err(ParseError::Invalid) => Ok(i),
        r => r,
    }
}

/// `\r\n`
pub open spec fn crlf() -> Seq<u8> {
    seq![CR, LF]
}

/// `s[..j]` ends a line: its last two bytes are `\r\n`.
pub open spec fn ends_line_at(s: Seq<u8>, j: int) -> bool {
    2 <= j <= s.len() && s[j - 2] == CR && s[j - 1] == LF
}

pub proof fn lemma_tag_crlf_ends_line(s: Seq<u8>, k: int)
    requires
        0 <= k,
        tag_spec(s, k, crlf()) is Ok,
    ensures
        tag_spec(s, k, crlf()) == Ok::<int, ParseError>(k + 2),
        ends_line_at(s, k + 2),
{
    assert(s.subrange(k, k + 2)[0] == s[k]);
    assert(s.subrange(k, k + 2)[1] == s[k + 1]);
}

/// First index `p >= i` where `\r\n` starts, if any.
pub open spec fn find_crlf(s: Seq<u8>, i: int) -> Option<int>
    decreases s.len() - i,
{
    if i < 0 || i + 1 >= s.len() {
        None
    } else if s[i] == CR && s[i + 1] == LF {
        Some(i)
    } else {
        find_crlf(s, i + 1)
    }
}

/// Streaming `take_until("\r\n")`.
pub open spec fn take_until_crlf_spec(s: Seq<u8>, i: int) -> Result<int, ParseError> {
    match find_crlf(s, i) {
        Some(p) => Ok(p),
        None => Err(ParseError::Incomplete),
    }
}

pub proof fn lemma_find_crlf(s: Seq<u8>, i: int)
    requires
        0 <= i,
    ensures
        find_crlf(s, i) matches Some(p) ==> i <= p && p + 1 < s.len() && s[p] == CR && s[p + 1]
            == LF && forall|q: int| i <= q < p ==> !(s[q] == CR && #[trigger] s[q + 1] == LF),
        find_crlf(s, i) is None ==> forall|q: int|
            i <= q && q + 1 < s.len() ==> !(s[q] == CR && #[trigger] s[q + 1] == LF),
    decreases s.len() - i,
{
    if i + 1 < s.len() && !(s[i] == CR && s[i + 1] == LF) {
        lemma_find_crlf(s, i + 1);
    }
}

pub fn take_until_crlf_exec(buf: &[u8], i: usize) -> (r: Result<usize, ParseError>)
    requires
        i <= buf@.len(),
    ensures
        match r {
            Ok(j) => take_until_crlf_spec(buf@, i as int) == Ok::<int, ParseError>(j as int) && i
                <= j && j + 2 <= buf@.len(),
            Err(e) => take_until_crlf_spec(buf@, i as int) == Err::<int, ParseError>(e),
        },
{
    let mut p = i;
    while buf.len() > 0 && p < buf.len() - 1
        invariant
            i <= p <= buf@.len(),
            find_crlf(buf@, p as int) == find_crlf(buf@, i as int),
        decreases buf@.len() - p,
    {
        if buf[p] == CR && buf[p + 1] == LF {
            return Ok(p);
        }
        p = p + 1;
    }
    Err(ParseError::Incomplete)
}

} // verus!
