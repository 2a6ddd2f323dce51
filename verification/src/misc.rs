//! The pieces of commands: texts that may be UTF-8, hostnames (domains and
//! address literals), local parts, addresses and source routes, with their
//! grammar and wire form; and the search for a line end across buffers.

use vstd::prelude::*;
use vstd::utf8::{valid_utf8, encode_utf8, decode_utf8};
use crate::text::{Text, string_of, utf8_partial, utf8_partial_exec, utf8_valid_end, lemma_ascii_valid_utf8};
use crate::lex::{
    chunk_of, single_chunk, bytes_eq, ParseError, Class, span, span_exec, lemma_span, utf8_token, utf8_token_exec,
    lemma_utf8_token_valid, valid_end, find_crlf, lemma_find_crlf, terminate_spec, one_of_spec,
    one_of_exec, is_printable, is_alnum, class_has, tag_spec, tag_exec, CR, LF, DQUOTE, BACKSLASH,
    DASH, DOT, COLON, LBRACKET, RBRACKET, AT, LT, GT, COMMA, SP,
};
use crate::ip::{ipv4_value, ipv6_value, parse_ipv4, parse_ipv6};
use vstd::std_specs::cmp::{PartialEqSpec, PartialEqSpecImpl};

verus! {

/// Text that is known to be ASCII, or that may hold any UTF-8.
#[derive(Clone, Copy, Debug, Eq, PartialEq)]
pub enum MaybeUtf8<S = String> {
    Ascii(S),
    Utf8(S),
}

impl<S: Text> View for MaybeUtf8<S> {
    type V = MaybeUtf8<Seq<u8>>;

    open spec fn view(&self) -> MaybeUtf8<Seq<u8>> {
        match self {
            MaybeUtf8::Ascii(s) => MaybeUtf8::Ascii(s.text_bytes()),
            MaybeUtf8::Utf8(s) => MaybeUtf8::Utf8(s.text_bytes()),
        }
    }
}

impl MaybeUtf8<Seq<u8>> {
    /// The bytes of the text, whichever the variant.
    pub open spec fn bytes(self) -> Seq<u8> {
        match self {
            MaybeUtf8::Ascii(s) => s,
            MaybeUtf8::Utf8(s) => s,
        }
    }
}

impl<'a> MaybeUtf8<&'a str> {
    /// Copies the borrowed text into an owned `String`.
    pub fn to_owned(&self) -> (r: MaybeUtf8<String>)
        ensures
            r@ == self@,
    {
        match self {
            MaybeUtf8::Ascii(s) => MaybeUtf8::Ascii((*s).to_owned()),
            MaybeUtf8::Utf8(s) => MaybeUtf8::Utf8((*s).to_owned()),
        }
    }
}

/// Text tagged by whether it is all ASCII.
pub open spec fn maybe_utf8_of(b: Seq<u8>) -> MaybeUtf8<Seq<u8>> {
    if forall|k: int| 0 <= k < b.len() ==> #[trigger] b[k] < 0x80 {
        MaybeUtf8::Ascii(b)
    } else {
        MaybeUtf8::Utf8(b)
    }
}

impl<S: Text> MaybeUtf8<S> {
    /// Tags `s` as ASCII when it is, as UTF-8 otherwise.
    pub fn from_text(s: S) -> (r: MaybeUtf8<S>)
        ensures
            r@ == maybe_utf8_of(s.text_bytes()),
    {
        let b = s.text_as_bytes();
        let n = b.len();
        let mut k: usize = 0;
        while k < n
            invariant
                n == b@.len(),
                b@ == s.text_bytes(),
                k <= n,
                forall|q: int| 0 <= q < k ==> #[trigger] b@[q] < 0x80,
            decreases n - k,
        {
            if b[k] >= 0x80 {
                return MaybeUtf8::Utf8(s);
            }
            k = k + 1;
        }
        MaybeUtf8::Ascii(s)
    }
}

impl<S: Text> MaybeUtf8<S> {
    /// The bytes of the text.
    pub fn as_bytes(&self) -> (r: &[u8])
        ensures
            r@ == self@.bytes(),
    {
        match self {
            MaybeUtf8::Ascii(s) => s.text_as_bytes(),
            MaybeUtf8::Utf8(s) => s.text_as_bytes(),
        }
    }

    /// Appends the text to `out`.
    pub fn write_to(&self, out: &mut Vec<u8>)
        ensures
            final(out)@ == old(out)@ + self@.bytes(),
    {
        out.extend_from_slice(self.as_bytes());
    }

    /// The text as the byte chunks to send on the wire (a single chunk).
    pub fn as_io_slices(&self) -> (r: std::vec::IntoIter<Vec<u8>>)
        ensures
            chunk_of(r) == self@.bytes(),
    {
        let mut v: Vec<u8> = Vec::new();
        self.write_to(&mut v);
        single_chunk(v)
    }
}

/// Where a search for `\r\n` stands between two buffers.
#[derive(Clone, Copy, Debug, Eq, PartialEq, Structural)]
pub enum NextCrLfState {
    Start,
    CrPassed,
}

/// The index of the `\n` of the first `\r\n` in `s` (which may straddle
/// from the previous buffer, as `st` tells), and the state for the next
/// buffer.
pub open spec fn next_crlf_spec(s: Seq<u8>, st: NextCrLfState) -> (Option<int>, NextCrLfState) {
    if s.len() == 0 {
        (None, st)
    } else if st == NextCrLfState::CrPassed && s[0] == LF {
        (Some(0), st)
    } else {
        match find_crlf(s, 0) {
            Some(p) => (Some(p + 1), st),
            None => (None, if s[s.len() - 1] == CR {
                NextCrLfState::CrPassed
            } else {
                NextCrLfState::Start
            }),
        }
    }
}

/// Where the first `\r\n` of `buf` starts.
fn first_crlf(buf: &[u8]) -> (r: Option<usize>)
    ensures
        match r {
            Some(p) => find_crlf(buf@, 0) == Some(p as int) && p + 1 < buf@.len(),
            None => find_crlf(buf@, 0) is None,
        },
{
    let n = buf.len();
    if n == 0 {
        return None;
    }
    let mut p: usize = 0;
    while p < n - 1
        invariant
            n == buf@.len(),
            n > 0,
            p <= buf@.len(),
            find_crlf(buf@, p as int) == find_crlf(buf@, 0),
        decreases buf@.len() - p,
    {
        if buf[p] == CR && buf[p + 1] == LF {
            assert(find_crlf(buf@, p as int) == Some(p as int));
            return Some(p);
        }
        p = p + 1;
    }
    None
}

/// Returns the index of the `\n` in the first `\r\n` of `buf`, or `None`
/// if there was none yet. `state` carries over between buffers: the first
/// call passes `NextCrLfState::Start`, and the next ones (until a `\r\n`
/// is found) keep passing the same.
pub fn next_crlf(buf: &[u8], state: &mut NextCrLfState) -> (r: Option<usize>)
    ensures
        (match r {
            Some(p) => Some(p as int),
            None => None,
        }, *final(state)) == next_crlf_spec(buf@, *old(state)),
        r matches Some(p) ==> p < buf@.len() && buf@[p as int] == LF,
{
    if buf.len() == 0 {
        return None;
    }
    if *state == NextCrLfState::CrPassed && buf[0] == LF {
        return Some(0);
    }
    let n = buf.len();
    match first_crlf(buf) {
        Some(p) => {
            proof {
                lemma_find_crlf(buf@, 0);
            }
            return Some(p + 1);
        },
        None => {},
    }
    *state = if buf[n - 1] == CR {
        NextCrLfState::CrPassed
    } else {
        NextCrLfState::Start
    };
    None
}

/// A quoted string whose content starts at `k`, in ASCII: printable bytes
/// other than `\` and `"`, or `\` and a printable byte; `any` once the
/// content is not empty.
pub open spec fn quoted_ascii_scan(s: Seq<u8>, k: int, any: bool) -> Result<int, ParseError>
    decreases s.len() - k,
{
    if k < 0 || k >= s.len() {
        Err(ParseError::Incomplete)
    } else if s[k] == DQUOTE {
        if any {
            Ok(k + 1)
        } else {
            Err(ParseError::Invalid)
        }
    } else if s[k] == BACKSLASH {
        if k + 1 >= s.len() {
            Err(ParseError::Incomplete)
        } else if is_printable(s[k + 1]) {
            quoted_ascii_scan(s, k + 2, true)
        } else {
            Err(ParseError::Invalid)
        }
    } else if is_printable(s[k]) {
        quoted_ascii_scan(s, k + 1, true)
    } else {
        Err(ParseError::Invalid)
    }
}

/// Where bytes run out before the end of a token: at the end of the input,
/// or at a UTF-8 sequence that more input could still complete, the token
/// may still come; anywhere else it cannot.
pub open spec fn stuck_at(s: Seq<u8>, k: int) -> ParseError {
    if k >= s.len() {
        ParseError::Incomplete
    } else if utf8_partial(s.subrange(k, s.len() as int)) {
        ParseError::Incomplete
    } else {
        ParseError::Invalid
    }
}

/// A quoted string whose content starts at `k`, in UTF-8 that is valid up
/// to `v`: any character other than `\`, `"` and the ASCII controls, or `\`
/// and any character but an ASCII control.
pub open spec fn quoted_utf8_scan(s: Seq<u8>, k: int, v: int, any: bool) -> Result<int, ParseError>
    decreases s.len() - k,
{
    if k < 0 || k >= v || k >= s.len() {
        Err(stuck_at(s, k))
    } else if s[k] == DQUOTE {
        if any {
            Ok(k + 1)
        } else {
            Err(ParseError::Invalid)
        }
    } else if s[k] == BACKSLASH {
        if k + 1 >= v || k + 1 >= s.len() {
            Err(stuck_at(s, k + 1))
        } else if s[k + 1] >= 0x80 || is_printable(s[k + 1]) {
            quoted_utf8_scan(s, k + 2, v, true)
        } else {
            Err(ParseError::Invalid)
        }
    } else if s[k] >= 0x80 || is_printable(s[k]) {
        quoted_utf8_scan(s, k + 1, v, true)
    } else {
        Err(ParseError::Invalid)
    }
}

/// The ASCII form of a local part at `i`: a quoted string or a dot-string.
pub open spec fn localpart_ascii_re(s: Seq<u8>, i: int) -> Result<int, ParseError> {
    if i >= s.len() {
        Err(ParseError::Incomplete)
    } else if s[i] == DQUOTE {
        quoted_ascii_scan(s, i + 1, false)
    } else if span(Class::Atext, s, i) > i {
        Ok(span(Class::Atext, s, i))
    } else {
        Err(ParseError::Invalid)
    }
}

/// The UTF-8 form of a local part at `i`.
pub open spec fn localpart_utf8_re(s: Seq<u8>, i: int) -> Result<int, ParseError> {
    if i >= s.len() {
        Err(ParseError::Incomplete)
    } else if s[i] == DQUOTE {
        quoted_utf8_scan(s, i + 1, valid_end(s, i), false)
    } else {
        utf8_token(Class::Atext, s, i)
    }
}

/// A token at `i` that must be followed by one of the bytes of `term`.
pub open spec fn then_terminate(r: Result<int, ParseError>, s: Seq<u8>, term: Seq<u8>) -> Result<int, ParseError> {
    match r {
        Ok(j) => match terminate_spec(s, j, term) {
            Ok(_) => Ok(j),
            Err(e) => Err(e),
        },
        Err(e) => Err(e),
    }
}

/// The local part of an address.
#[derive(Clone, Copy, Debug, Eq, PartialEq)]
pub enum Localpart<S = String> {
    Ascii { raw: S },
    QuotedAscii { raw: S },
    Utf8 { raw: S },
    QuotedUtf8 { raw: S },
}

impl<S: Text> View for Localpart<S> {
    type V = Localpart<Seq<u8>>;

    open spec fn view(&self) -> Localpart<Seq<u8>> {
        match self {
            Localpart::Ascii { raw } => Localpart::Ascii { raw: raw.text_bytes() },
            Localpart::QuotedAscii { raw } => Localpart::QuotedAscii { raw: raw.text_bytes() },
            Localpart::Utf8 { raw } => Localpart::Utf8 { raw: raw.text_bytes() },
            Localpart::QuotedUtf8 { raw } => Localpart::QuotedUtf8 { raw: raw.text_bytes() },
        }
    }
}

impl Localpart<Seq<u8>> {
    /// The text of the local part, as written.
    pub open spec fn raw_bytes(self) -> Seq<u8> {
        match self {
            Localpart::Ascii { raw } => raw,
            Localpart::QuotedAscii { raw } => raw,
            Localpart::Utf8 { raw } => raw,
            Localpart::QuotedUtf8 { raw } => raw,
        }
    }
}

/// A local part at `i`, followed by one of the bytes of `term`: in ASCII
/// if it can be, else in UTF-8.
pub open spec fn localpart_spec(s: Seq<u8>, i: int, term: Seq<u8>) -> Result<(int, Localpart<Seq<u8>>), ParseError> {
    match then_terminate(localpart_ascii_re(s, i), s, term) {
        Ok(j) => Ok(
            (
                j,
                if s[i] == DQUOTE {
                    Localpart::QuotedAscii { raw: s.subrange(i, j) }
                } else {
                    Localpart::Ascii { raw: s.subrange(i, j) }
                },
            ),
        ),
        Err(ParseError::Incomplete) => Err(ParseError::Incomplete),
        Err(ParseError::Invalid) => match then_terminate(localpart_utf8_re(s, i), s, term) {
            Ok(j) => Ok(
                (
                    j,
                    if s[i] == DQUOTE {
                        Localpart::QuotedUtf8 { raw: s.subrange(i, j) }
                    } else {
                        Localpart::Utf8 { raw: s.subrange(i, j) }
                    },
                ),
            ),
            Err(e) => Err(e),
        },
    }
}

fn quoted_ascii_exec(buf: &[u8], k0: usize) -> (r: Result<usize, ParseError>)
    requires
        k0 <= buf@.len(),
    ensures
        match r {
            Ok(j) => quoted_ascii_scan(buf@, k0 as int, false) == Ok::<int, ParseError>(j as int)
                && k0 < j <= buf@.len() && forall|q: int| k0 <= q < j ==> #[trigger] buf@[q] < 0x80,
            Err(e) => quoted_ascii_scan(buf@, k0 as int, false) == Err::<int, ParseError>(e),
        },
{
    let n = buf.len();
    let mut k = k0;
    let mut any = false;
    loop
        invariant
            n == buf@.len(),
            k0 <= k <= n,
            quoted_ascii_scan(buf@, k as int, any) == quoted_ascii_scan(buf@, k0 as int, false),
            forall|q: int| k0 <= q < k ==> #[trigger] buf@[q] < 0x80,
        decreases n - k,
    {
        if k >= n {
            return Err(ParseError::Incomplete);
        }
        let b = buf[k];
        if b == DQUOTE {
            if any {
                return Ok(k + 1);
            } else {
                return Err(ParseError::Invalid);
            }
        } else if b == BACKSLASH {
            if k + 1 >= n {
                return Err(ParseError::Incomplete);
            }
            let c = buf[k + 1];
            if 0x20 <= c && c <= 0x7e {
                k = k + 2;
                any = true;
            } else {
                return Err(ParseError::Invalid);
            }
        } else if 0x20 <= b && b <= 0x7e {
            k = k + 1;
            any = true;
        } else {
            return Err(ParseError::Invalid);
        }
    }
}

fn stuck_at_exec(buf: &[u8], k: usize) -> (r: ParseError)
    requires
        k <= buf@.len(),
    ensures
        r == stuck_at(buf@, k as int),
{
    if k >= buf.len() {
        ParseError::Incomplete
    } else if utf8_partial_exec(buf, k) {
        ParseError::Incomplete
    } else {
        ParseError::Invalid
    }
}

fn quoted_utf8_exec(buf: &[u8], k0: usize, v: usize) -> (r: Result<usize, ParseError>)
    requires
        k0 <= buf@.len(),
        v <= buf@.len(),
    ensures
        match r {
            Ok(j) => quoted_utf8_scan(buf@, k0 as int, v as int, false) == Ok::<int, ParseError>(
                j as int,
            ) && k0 < j <= v,
            Err(e) => quoted_utf8_scan(buf@, k0 as int, v as int, false) == Err::<int, ParseError>(e),
        },
{
    let n = buf.len();
    let mut k = k0;
    let mut any = false;
    loop
        invariant
            n == buf@.len(),
            k0 <= k,
            v <= n,
            quoted_utf8_scan(buf@, k as int, v as int, any) == quoted_utf8_scan(
                buf@,
                k0 as int,
                v as int,
                false,
            ),
        decreases n - k,
    {
        if k >= v || k >= n {
            return Err(stuck_at_exec(buf, if k < n { k } else { n }));
        }
        let b = buf[k];
        if b == DQUOTE {
            if any {
                return Ok(k + 1);
            } else {
                return Err(ParseError::Invalid);
            }
        } else if b == BACKSLASH {
            if k + 1 >= v || k + 1 >= n {
                return Err(stuck_at_exec(buf, k + 1));
            }
            let c = buf[k + 1];
            if c >= 0x80 || (0x20 <= c && c <= 0x7e) {
                k = k + 2;
                any = true;
            } else {
                return Err(ParseError::Invalid);
            }
        } else if b >= 0x80 || (0x20 <= b && b <= 0x7e) {
            k = k + 1;
            any = true;
        } else {
            return Err(ParseError::Invalid);
        }
    }
}

pub(crate) fn then_terminate_exec(r: Result<usize, ParseError>, buf: &[u8], term: &[u8]) -> (o: Result<usize, ParseError>)
    requires
        r matches Ok(j) ==> j <= buf@.len(),
    ensures
        o == match r {
            Ok(j) => match then_terminate(Ok::<int, ParseError>(j as int), buf@, term@) {
                Ok(k) => Ok::<usize, ParseError>(k as usize),
                Err(e) => Err(e),
            },
            Err(e) => Err::<usize, ParseError>(e),
        },
        o matches Ok(j) ==> r == Ok::<usize, ParseError>(j),
{
    match r {
        Ok(j) => match one_of_exec(buf, j, term) {
            Ok(_) => Ok(j),
            Err(e) => Err(e),
        },
        Err(e) => Err(e),
    }
}

impl Localpart<String> {
    /// Parses a local part at `buf[i..]` that must be followed by one of the
    /// bytes of `term`.
    pub fn parse_until(buf: &[u8], i: usize, term: &[u8]) -> (r: Result<(usize, Localpart<String>), ParseError>)
        requires
            i <= buf@.len(),
        ensures
            match r {
                Ok((j, l)) => localpart_spec(buf@, i as int, term@) == Ok::<
                    (int, Localpart<Seq<u8>>),
                    ParseError,
                >((j as int, l@)) && i < j <= buf@.len(),
                Err(e) => localpart_spec(buf@, i as int, term@) == Err::<
                    (int, Localpart<Seq<u8>>),
                    ParseError,
                >(e),
            },
    {
        let n = buf.len();
        let ascii = if i >= n {
            Err(ParseError::Incomplete)
        } else if buf[i] == DQUOTE {
            quoted_ascii_exec(buf, i + 1)
        } else {
            let j = span_exec(Class::Atext, buf, i);
            if j > i {
                Ok(j)
            } else {
                Err(ParseError::Invalid)
            }
        };
        proof {
            if i < n && buf@[i as int] != DQUOTE {
                lemma_span(Class::Atext, buf@, i as int);
            }
        }
        match then_terminate_exec(ascii, buf, term) {
            Ok(j) => {
                proof {
                    if buf@[i as int] != DQUOTE {
                        lemma_span(Class::Atext, buf@, i as int);
                        assert forall|q: int| i <= q < j implies #[trigger] buf@[q] < 0x80 by {
                            assert(crate::lex::class_has(Class::Atext, buf@[q]));
                        }
                    }
                    let t = buf@.subrange(i as int, j as int);
                    assert forall|q: int| 0 <= q < t.len() implies #[trigger] t[q] < 0x80 by {
                        assert(t[q] == buf@[i + q]);
                    }
                    lemma_ascii_valid_utf8(t);
                }
                let raw = string_of(buf, i, j);
                if buf[i] == DQUOTE {
                    return Ok((j, Localpart::QuotedAscii { raw }));
                } else {
                    return Ok((j, Localpart::Ascii { raw }));
                }
            },
            Err(ParseError::Incomplete) => {
                return Err(ParseError::Incomplete);
            },
            Err(ParseError::Invalid) => {},
        }
        let utf8 = if buf[i] == DQUOTE {
            let v = utf8_valid_end(buf, i);
            quoted_utf8_exec(buf, i + 1, v)
        } else {
            utf8_token_exec(Class::Atext, buf, i)
        };
        match then_terminate_exec(utf8, buf, term) {
            Ok(j) => {
                proof {
                    if buf@[i as int] == DQUOTE {
                        lemma_quoted_utf8_valid(buf@, i as int);
                    } else {
                        lemma_utf8_token_valid(Class::Atext, buf@, i as int);
                    }
                }
                let raw = string_of(buf, i, j);
                if buf[i] == DQUOTE {
                    Ok((j, Localpart::QuotedUtf8 { raw }))
                } else {
                    Ok((j, Localpart::Utf8 { raw }))
                }
            },
            Err(e) => Err(e),
        }
    }
}

proof fn lemma_quoted_utf8_scan(s: Seq<u8>, k: int, v: int, any: bool)
    requires
        0 <= k,
        v <= s.len(),
    ensures
        quoted_utf8_scan(s, k, v, any) matches Ok(j) ==> k < j <= v && s[j - 1] == DQUOTE,
    decreases s.len() - k,
{
    if 0 <= k < v && k < s.len() && s[k] != DQUOTE {
        if s[k] == BACKSLASH {
            if k + 1 < v && k + 1 < s.len() {
                lemma_quoted_utf8_scan(s, k + 2, v, true);
            }
        } else {
            lemma_quoted_utf8_scan(s, k + 1, v, true);
        }
    }
}

/// A quoted UTF-8 local part is valid UTF-8.
proof fn lemma_quoted_utf8_valid(s: Seq<u8>, i: int)
    requires
        0 <= i < s.len(),
        s[i] == DQUOTE,
        quoted_utf8_scan(s, i + 1, valid_end(s, i), false) is Ok,
    ensures
        i + 1 < quoted_utf8_scan(s, i + 1, valid_end(s, i), false)->Ok_0 <= s.len(),
        valid_utf8(s.subrange(i, quoted_utf8_scan(s, i + 1, valid_end(s, i), false)->Ok_0)),
{
    let x = s.subrange(i, s.len() as int);
    let n = crate::text::utf8_valid_len(x);
    crate::lex::lemma_max_valid_prefix_exists(x);
    assert(crate::text::is_max_valid_prefix(x, n));
    let v = valid_end(s, i);
    lemma_quoted_utf8_scan(s, i + 1, v, false);
    let j = quoted_utf8_scan(s, i + 1, v, false)->Ok_0;
    let y = x.subrange(0, n);
    assert(valid_utf8(y));
    assert(y[j - 1 - i] == s[j - 1]);
    crate::text::lemma_valid_utf8_cut_at_ascii(y, j - 1 - i);
    let z = y.subrange(0, j - 1 - i);
    lemma_ascii_valid_utf8(seq![DQUOTE]);
    vstd::utf8::valid_utf8_concat(z, seq![DQUOTE]);
    assert(z + seq![DQUOTE] =~= s.subrange(i, j));
}

/// The content of a quoted string without its escaping: `\` keeps the byte
/// after it, and a `"` that is not escaped is dropped.
pub open spec fn unescape_quoted(b: Seq<u8>, esc: bool) -> Seq<u8>
    decreases b.len(),
{
    if b.len() == 0 {
        Seq::empty()
    } else if esc {
        seq![b[0]] + unescape_quoted(b.drop_first(), false)
    } else if b[0] == DQUOTE {
        unescape_quoted(b.drop_first(), false)
    } else if b[0] == BACKSLASH {
        unescape_quoted(b.drop_first(), true)
    } else {
        seq![b[0]] + unescape_quoted(b.drop_first(), false)
    }
}

/// A quoted text without its quotes and escaping: its first character
/// (the opening quote) is dropped, then the rest is unescaped.
pub open spec fn unquoted_bytes(b: Seq<u8>) -> Seq<u8> {
    if b.len() == 0 {
        Seq::empty()
    } else {
        unescape_quoted(vstd::utf8::pop_first_scalar(b), false)
    }
}

/// The local part with its quoting removed.
pub open spec fn unquote_spec(l: Localpart<Seq<u8>>) -> MaybeUtf8<Seq<u8>> {
    match l {
        Localpart::Ascii { raw } => MaybeUtf8::Ascii(raw),
        Localpart::Utf8 { raw } => MaybeUtf8::Utf8(raw),
        Localpart::QuotedAscii { raw } => MaybeUtf8::Ascii(unquoted_bytes(raw)),
        Localpart::QuotedUtf8 { raw } => MaybeUtf8::Utf8(unquoted_bytes(raw)),
    }
}

proof fn lemma_unescape_quoted_high(x: Seq<u8>, y: Seq<u8>)
    requires
        forall|k: int| 0 <= k < x.len() ==> #[trigger] x[k] >= 0x80,
    ensures
        unescape_quoted(x + y, false) == x + unescape_quoted(y, false),
    decreases x.len(),
{
    if x.len() == 0 {
        assert(x + y =~= y);
        assert(x + unescape_quoted(y, false) =~= unescape_quoted(y, false));
    } else {
        let x1 = x.drop_first();
        assert forall|k: int| 0 <= k < x1.len() implies #[trigger] x1[k] >= 0x80 by {
            assert(x1[k] == x[k + 1]);
        }
        lemma_unescape_quoted_high(x1, y);
        assert((x + y).drop_first() =~= x1 + y);
        assert((x + y)[0] == x[0]);
        assert(unescape_quoted(x + y, false) =~= x + unescape_quoted(y, false));
    }
}

/// Unescaping valid UTF-8 drops only ASCII bytes, so the result is valid
/// UTF-8.
proof fn lemma_unescape_quoted_valid(b: Seq<u8>, esc: bool)
    requires
        valid_utf8(b),
    ensures
        valid_utf8(unescape_quoted(b, esc)),
    decreases b.len(),
{
    if b.len() > 0 {
        let w = vstd::utf8::length_of_first_scalar(b);
        let rest = vstd::utf8::pop_first_scalar(b);
        assert(rest.len() < b.len());
        lemma_unescape_quoted_valid(rest, false);
        lemma_unescape_quoted_valid(rest, true);
        if w == 1 {
            assert(b.drop_first() =~= rest);
            lemma_ascii_valid_utf8(seq![b[0]]);
            vstd::utf8::valid_utf8_concat(seq![b[0]], unescape_quoted(rest, false));
        } else {
            let first = b.subrange(0, w);
            assert(vstd::utf8::is_char_boundary(b, w)) by {
                reveal_with_fuel(vstd::utf8::is_char_boundary, 2);
            }
            vstd::utf8::valid_utf8_split(b, w);
            let tail = first.drop_first();
            assert forall|k: int| 0 <= k < tail.len() implies #[trigger] tail[k] >= 0x80 by {
                assert(tail[k] == b[k + 1]);
            }
            lemma_unescape_quoted_high(tail, rest);
            assert(b.drop_first() =~= tail + rest);
            assert(b =~= first + rest);
            assert(unescape_quoted(b, esc) =~= first + unescape_quoted(rest, false));
            vstd::utf8::valid_utf8_concat(first, unescape_quoted(rest, false));
        }
    }
}

/// The text of a quoted local part, without its quotes and escaping.
pub fn unquoted<S: Text>(s: &S) -> (r: String)
    ensures
        r.text_bytes() == unquoted_bytes(s.text_bytes()),
{
    let b = s.text_as_bytes();
    let n = b.len();
    if n == 0 {
        let r = String::new();
        assert(encode_utf8(r@) =~= Seq::<u8>::empty()) by {
            assert(r@ =~= Seq::<char>::empty());
        }
        return r;
    }
    proof {
        s.lemma_text_valid();
    }
    let b0 = b[0];
    let w: usize = if b0 < 0x80 {
        1
    } else if b0 < 0xe0 {
        2
    } else if b0 < 0xf0 {
        3
    } else {
        4
    };
    assert(w == vstd::utf8::length_of_first_scalar(b@));
    let mut out: Vec<u8> = Vec::new();
    let mut k = w;
    let mut esc = false;
    let ghost target = unescape_quoted(b@.skip(w as int), false);
    assert(out@ + unescape_quoted(b@.skip(k as int), esc) =~= target);
    while k < n
        invariant
            n == b@.len(),
            w <= k <= n,
            out@ + unescape_quoted(b@.skip(k as int), esc) == target,
        decreases n - k,
    {
        let c = b[k];
        let ghost t = b@.skip(k as int);
        assert(t[0] == c);
        assert(t.drop_first() =~= b@.skip(k + 1));
        if esc {
            out.push(c);
            esc = false;
        } else if c == DQUOTE {
        } else if c == BACKSLASH {
            esc = true;
        } else {
            out.push(c);
        }
        k = k + 1;
    }
    assert(b@.skip(n as int) =~= Seq::<u8>::empty());
    assert(out@ =~= target);
    proof {
        lemma_unescape_quoted_valid(b@.skip(w as int), false);
        assert(out@.subrange(0, out@.len() as int) =~= out@);
    }
    string_of(out.as_slice(), 0, out.len())
}

impl<S: Text> Localpart<S> {
    /// The text of the local part, as written.
    pub fn raw(&self) -> (r: &S)
        ensures
            r.text_bytes() == self@.raw_bytes(),
    {
        match self {
            Localpart::Ascii { raw } => raw,
            Localpart::QuotedAscii { raw } => raw,
            Localpart::Utf8 { raw } => raw,
            Localpart::QuotedUtf8 { raw } => raw,
        }
    }

    /// The local part without its quoting.
    pub fn unquote(&self) -> (r: MaybeUtf8<String>)
        ensures
            r@ == unquote_spec(self@),
    {
        match self {
            Localpart::Ascii { raw } => MaybeUtf8::Ascii(raw.text_to_string()),
            Localpart::Utf8 { raw } => MaybeUtf8::Utf8(raw.text_to_string()),
            Localpart::QuotedAscii { raw } => MaybeUtf8::Ascii(unquoted(raw)),
            Localpart::QuotedUtf8 { raw } => MaybeUtf8::Utf8(unquoted(raw)),
        }
    }

    /// The wire form: the text as written.
    pub fn as_io_slices(&self) -> (r: std::vec::IntoIter<Vec<u8>>)
        ensures
            chunk_of(r) == self@.raw_bytes(),
    {
        let mut v: Vec<u8> = Vec::new();
        v.extend_from_slice(self.raw().text_as_bytes());
        single_chunk(v)
    }
}

impl<'a> Localpart<&'a str> {
    /// Copies the borrowed text into an owned `String`.
    pub fn to_owned(&self) -> (r: Localpart<String>)
        ensures
            r@ == self@,
    {
        match self {
            Localpart::Ascii { raw } => Localpart::Ascii { raw: (*raw).to_owned() },
            Localpart::Utf8 { raw } => Localpart::Utf8 { raw: (*raw).to_owned() },
            Localpart::QuotedAscii { raw } => Localpart::QuotedAscii { raw: (*raw).to_owned() },
            Localpart::QuotedUtf8 { raw } => Localpart::QuotedUtf8 { raw: (*raw).to_owned() },
        }
    }
}

/// The domain part of a hostname, as a DFA: `st` is `0` at the start of a
/// label, `1` after a letter or digit, `2` after a dash; `last` is where the
/// longest match so far ends.
pub open spec fn domain_scan(s: Seq<u8>, k: int, st: int, last: Option<int>) -> Result<int, ParseError>
    decreases s.len() - k,
{
    if k < 0 || k >= s.len() {
        match last {
            Some(m) => Ok(m),
            None => Err(ParseError::Incomplete),
        }
    } else {
        let b = s[k];
        let next = if is_alnum(b) {
            1int
        } else if b == DASH && st != 0 {
            2int
        } else if b == DOT && st == 1 {
            0int
        } else {
            -1int
        };
        if next < 0 {
            match last {
                Some(m) => Ok(m),
                None => Err(ParseError::Invalid),
            }
        } else {
            domain_scan(s, k + 1, next, if next == 1 { Some(k + 1) } else { last })
        }
    }
}

/// A bracketed address literal whose content, of class `c`, starts at `k`.
pub open spec fn literal_scan(c: Class, s: Seq<u8>, k: int) -> Result<int, ParseError> {
    let j = span(c, s, k);
    if j >= s.len() {
        Err(ParseError::Incomplete)
    } else if j == k {
        Err(ParseError::Invalid)
    } else if s[j] == RBRACKET {
        Ok(j + 1)
    } else {
        Err(ParseError::Invalid)
    }
}

/// `IPv6:`
pub open spec fn ipv6_tag() -> Seq<u8> {
    seq![73u8, 80u8, 118u8, 54u8, COLON]
}

/// The ASCII form of a hostname at `i`: `[IPv6:...]`, `[...]` (IPv4) or a
/// dotted domain of letters, digits and inner dashes.
pub open spec fn hostname_ascii_re(s: Seq<u8>, i: int) -> Result<int, ParseError> {
    if i >= s.len() {
        Err(ParseError::Incomplete)
    } else if s[i] == LBRACKET {
        if i + 1 >= s.len() {
            Err(ParseError::Incomplete)
        } else if s[i + 1] == 73 {
            match tag_spec(s, i + 1, ipv6_tag()) {
                Ok(k) => literal_scan(Class::V6Char, s, k),
                Err(e) => Err(e),
            }
        } else {
            literal_scan(Class::V4Char, s, i + 1)
        }
    } else {
        domain_scan(s, i, 0, None)
    }
}

/// `idna::Config::to_ascii` on a domain, with STD3 ASCII rules, DNS length
/// checks and hyphen checks on: the ASCII (punycode) form, or `None` where
/// it refuses the domain.
pub uninterp spec fn idna_to_ascii(domain: Seq<char>) -> Option<Seq<char>>;

/// The longest UTF-8 domain, in bytes, that is handed to IDNA.
///
/// `idna`'s punycode encoder adds to a `u32` counter before it checks it for
/// wrapping, and panics there on a label of about `u32::MAX / 0x110000`
/// characters or more. After UTS #46 mapping and normalization each byte
/// of a domain gives at most six characters (U+FDFA, three bytes, maps to
/// eighteen), so a domain of this many bytes stays well below that.
pub const MAX_UTF8_DOMAIN_LEN: usize = 640;

/// Calls `idna::Config::to_ascii`, with STD3 ASCII rules, DNS length checks
/// and hyphen checks on, on a domain short enough that it cannot make
/// `idna`'s punycode encoder panic. Claims only that its result is
/// `idna_to_ascii` of the domain (it is a function of the domain alone).
#[verifier::external_body]
fn idna_domain_to_ascii(domain: &str) -> (r: Option<String>)
    requires
        encode_utf8(domain@).len() <= MAX_UTF8_DOMAIN_LEN,
    ensures
        match r {
            Some(p) => idna_to_ascii(domain@) == Some(p@),
            None => idna_to_ascii(domain@) is None,
        },
{
    idna::Config::default().use_std3_ascii_rules(true).verify_dns_length(true).check_hyphens(
        true,
    ).to_ascii(domain).ok()
}

/// A hostname.
///
/// Two hostnames are equal when they are written the same.
#[derive(Clone, Debug, Eq)]
pub enum Hostname<S = String> {
    Utf8Domain { raw: S, punycode: String },
    AsciiDomain { raw: S },
    Ipv6 { raw: S, ip: [u16; 8] },
    Ipv4 { raw: S, ip: [u8; 4] },
}

/// The model of a hostname: its text as bytes, the punycode form of a UTF-8
/// domain, and the numbers of an address.
pub enum HostnameView {
    Utf8Domain { raw: Seq<u8>, punycode: Seq<char> },
    AsciiDomain { raw: Seq<u8> },
    Ipv6 { raw: Seq<u8>, ip: Seq<int> },
    Ipv4 { raw: Seq<u8>, ip: Seq<int> },
}

impl HostnameView {
    /// The text of the hostname, as written.
    pub open spec fn raw_bytes(self) -> Seq<u8> {
        match self {
            HostnameView::Utf8Domain { raw, .. } => raw,
            HostnameView::AsciiDomain { raw } => raw,
            HostnameView::Ipv6 { raw, .. } => raw,
            HostnameView::Ipv4 { raw, .. } => raw,
        }
    }
}

impl<S: Text> View for Hostname<S> {
    type V = HostnameView;

    open spec fn view(&self) -> HostnameView {
        match self {
            Hostname::Utf8Domain { raw, punycode } => HostnameView::Utf8Domain {
                raw: raw.text_bytes(),
                punycode: punycode@,
            },
            Hostname::AsciiDomain { raw } => HostnameView::AsciiDomain { raw: raw.text_bytes() },
            Hostname::Ipv6 { raw, ip } => HostnameView::Ipv6 {
                raw: raw.text_bytes(),
                ip: ip@.map_values(|x: u16| x as int),
            },
            Hostname::Ipv4 { raw, ip } => HostnameView::Ipv4 {
                raw: raw.text_bytes(),
                ip: ip@.map_values(|x: u8| x as int),
            },
        }
    }
}

/// What the ASCII form `s[i..j]` of a hostname is: a domain, or an address
/// literal whose address must read.
pub open spec fn hostname_ascii_value(s: Seq<u8>, i: int, j: int) -> Option<HostnameView> {
    let raw = s.subrange(i, j);
    if s[i] != LBRACKET {
        Some(HostnameView::AsciiDomain { raw })
    } else if s[i + 1] == 73 {
        match ipv6_value(s.subrange(i + 6, j - 1)) {
            Some(ip) => Some(HostnameView::Ipv6 { raw, ip }),
            None => None,
        }
    } else {
        match ipv4_value(s.subrange(i + 1, j - 1)) {
            Some(ip) => Some(HostnameView::Ipv4 { raw, ip }),
            None => None,
        }
    }
}

/// A hostname at `i`, followed by one of the bytes of `term`: in ASCII if
/// it can be, else a UTF-8 domain of at most `MAX_UTF8_DOMAIN_LEN` bytes
/// that IDNA accepts.
pub open spec fn hostname_spec(s: Seq<u8>, i: int, term: Seq<u8>) -> Result<(int, HostnameView), ParseError> {
    let ascii = match then_terminate(hostname_ascii_re(s, i), s, term) {
        Ok(j) => match hostname_ascii_value(s, i, j) {
            Some(h) => Ok((j, h)),
            None => Err(ParseError::Invalid),
        },
        Err(e) => Err(e),
    };
    match ascii {
        Err(ParseError::Invalid) => match then_terminate(utf8_token(Class::HostChar, s, i), s, term) {
            Ok(j) => if j - i > MAX_UTF8_DOMAIN_LEN {
                Err(ParseError::Invalid)
            } else {
                match idna_to_ascii(decode_utf8(s.subrange(i, j))) {
                    Some(p) => Ok((j, HostnameView::Utf8Domain { raw: s.subrange(i, j), punycode: p })),
                    None => Err(ParseError::Invalid),
                }
            },
            Err(e) => Err(e),
        },
        r => r,
    }
}

pub(crate) proof fn lemma_domain_scan(s: Seq<u8>, i0: int, k: int, st: int, last: Option<int>)
    requires
        0 <= i0 <= k,
        forall|q: int| i0 <= q < k && q < s.len() ==> #[trigger] s[q] < 0x80,
        last matches Some(m) ==> i0 < m <= k && m <= s.len(),
    ensures
        domain_scan(s, k, st, last) matches Ok(m) ==> i0 < m <= s.len() && forall|q: int|
            i0 <= q < m ==> #[trigger] s[q] < 0x80,
    decreases s.len() - k,
{
    if k < s.len() {
        let b = s[k];
        if is_alnum(b) || (b == DASH && st != 0) || (b == DOT && st == 1) {
            let next = if is_alnum(b) {
                1int
            } else if b == DASH && st != 0 {
                2int
            } else {
                0int
            };
            lemma_domain_scan(s, i0, k + 1, next, if next == 1 { Some(k + 1) } else { last });
        }
    }
}

fn domain_scan_exec(buf: &[u8], i: usize) -> (r: Result<usize, ParseError>)
    requires
        i <= buf@.len(),
    ensures
        match r {
            Ok(j) => domain_scan(buf@, i as int, 0, None) == Ok::<int, ParseError>(j as int),
            Err(e) => domain_scan(buf@, i as int, 0, None) == Err::<int, ParseError>(e),
        },
{
    let n = buf.len();
    let mut k = i;
    let mut st: u8 = 0;
    let mut last: Option<usize> = None;
    while k < n
        invariant
            n == buf@.len(),
            i <= k <= n,
            st <= 2,
            last matches Some(m) ==> m <= n,
            domain_scan(buf@, k as int, st as int, match last {
                Some(m) => Some(m as int),
                None => None,
            }) == domain_scan(buf@, i as int, 0, None),
        decreases n - k,
    {
        let b = buf[k];
        let alnum = (48 <= b && b <= 57) || (65 <= b && b <= 90) || (97 <= b && b <= 122);
        let next: u8 = if alnum {
            1
        } else if b == DASH && st != 0 {
            2
        } else if b == DOT && st == 1 {
            0
        } else {
            return match last {
                Some(m) => Ok(m),
                None => Err(ParseError::Invalid),
            };
        };
        st = next;
        if next == 1 {
            last = Some(k + 1);
        }
        k = k + 1;
    }
    match last {
        Some(m) => Ok(m),
        None => Err(ParseError::Incomplete),
    }
}

fn literal_scan_exec(c: Class, buf: &[u8], k: usize) -> (r: Result<usize, ParseError>)
    requires
        k <= buf@.len(),
    ensures
        match r {
            Ok(j) => literal_scan(c, buf@, k as int) == Ok::<int, ParseError>(j as int) && k + 2 <= j
                <= buf@.len() && buf@[j - 1] == RBRACKET && forall|q: int|
                k <= q < j - 1 ==> class_has(c, #[trigger] buf@[q]),
            Err(e) => literal_scan(c, buf@, k as int) == Err::<int, ParseError>(e),
        },
{
    let j = span_exec(c, buf, k);
    proof {
        lemma_span(c, buf@, k as int);
    }
    if j >= buf.len() {
        Err(ParseError::Incomplete)
    } else if j == k {
        Err(ParseError::Invalid)
    } else if buf[j] == RBRACKET {
        Ok(j + 1)
    } else {
        Err(ParseError::Invalid)
    }
}

fn hostname_ascii_exec(buf: &[u8], i: usize) -> (r: Result<usize, ParseError>)
    requires
        i <= buf@.len(),
    ensures
        match r {
            Ok(j) => hostname_ascii_re(buf@, i as int) == Ok::<int, ParseError>(j as int) && i < j
                <= buf@.len() && (forall|q: int| i <= q < j ==> #[trigger] buf@[q] < 0x80) && (buf@[i as int]
                == LBRACKET ==> if buf@[i + 1] == 73 {
                i + 8 <= j
            } else {
                i + 3 <= j
            }),
            Err(e) => hostname_ascii_re(buf@, i as int) == Err::<int, ParseError>(e),
        },
{
    let n = buf.len();
    if i >= n {
        return Err(ParseError::Incomplete);
    }
    if buf[i] == LBRACKET {
        if i + 1 >= n {
            return Err(ParseError::Incomplete);
        }
        if buf[i + 1] == 73 {
            let t: [u8; 5] = [73, 80, 118, 54, COLON];
            assert(t@ =~= ipv6_tag());
            match tag_exec(buf, i + 1, &t) {
                Ok(k) => {
                    let r = literal_scan_exec(Class::V6Char, buf, k);
                    proof {
                        if r is Ok {
                            assert forall|q: int| i <= q < r->Ok_0 implies #[trigger] buf@[q] < 0x80 by {
                                if q > i + 5 && q < r->Ok_0 - 1 {
                                    assert(class_has(Class::V6Char, buf@[q]));
                                } else if q >= i + 1 && q <= i + 5 {
                                    assert(buf@.subrange(i + 1, i + 6) == ipv6_tag());
                                    assert(buf@[q] == buf@.subrange(i + 1, i + 6)[q - i - 1]);
                                }
                            }
                        }
                    }
                    r
                },
                Err(e) => Err(e),
            }
        } else {
            let r = literal_scan_exec(Class::V4Char, buf, i + 1);
            proof {
                if r is Ok {
                    assert forall|q: int| i <= q < r->Ok_0 implies #[trigger] buf@[q] < 0x80 by {
                        if q > i && q < r->Ok_0 - 1 {
                            assert(class_has(Class::V4Char, buf@[q]));
                        }
                    }
                }
            }
            r
        }
    } else {
        proof {
            lemma_domain_scan(buf@, i as int, i as int, 0, None);
        }
        domain_scan_exec(buf, i)
    }
}

impl Hostname<String> {
    /// A UTF-8 domain `raw`, given what IDNA made of it: the hostname when
    /// IDNA accepted it.
    pub fn from_utf8_domain(raw: String, punycode: Option<String>) -> (r: Option<Hostname<String>>)
        ensures
            match punycode {
                Some(p) => r matches Some(h) && h@ == HostnameView::Utf8Domain { raw: raw.text_bytes(), punycode: p@ },
                None => r is None,
            },
    {
        match punycode {
            Some(p) => Some(Hostname::Utf8Domain { raw, punycode: p }),
            None => None,
        }
    }

    /// Parses a hostname at `buf[i..]` that must be followed by one of the
    /// bytes of `term`.
    pub fn parse_until(buf: &[u8], i: usize, term: &[u8]) -> (r: Result<(usize, Hostname<String>), ParseError>)
        requires
            i <= buf@.len(),
        ensures
            match r {
                Ok((j, h)) => hostname_spec(buf@, i as int, term@) == Ok::<(int, HostnameView), ParseError>(
                    (j as int, h@),
                ) && i < j <= buf@.len(),
                Err(e) => hostname_spec(buf@, i as int, term@) == Err::<(int, HostnameView), ParseError>(e),
            },
    {
        let ascii = hostname_ascii_exec(buf, i);
        match then_terminate_exec(ascii, buf, term) {
            Ok(j) => {
                proof {
                    let t = buf@.subrange(i as int, j as int);
                    assert forall|q: int| 0 <= q < t.len() implies #[trigger] t[q] < 0x80 by {
                        assert(t[q] == buf@[i + q]);
                    }
                    lemma_ascii_valid_utf8(t);
                }
                if buf[i] != LBRACKET {
                    let raw = string_of(buf, i, j);
                    return Ok((j, Hostname::AsciiDomain { raw }));
                } else if buf[i + 1] == 73 {
                    let inner = &buf[i + 6..j - 1];
                    assert(inner@ == buf@.subrange(i + 6, j - 1));
                    match parse_ipv6(inner) {
                        Some(ip) => {
                            let raw = string_of(buf, i, j);
                            return Ok((j, Hostname::Ipv6 { raw, ip }));
                        },
                        None => {},
                    }
                } else {
                    let inner = &buf[i + 1..j - 1];
                    assert(inner@ == buf@.subrange(i + 1, j - 1));
                    match parse_ipv4(inner) {
                        Some(ip) => {
                            let raw = string_of(buf, i, j);
                            return Ok((j, Hostname::Ipv4 { raw, ip }));
                        },
                        None => {},
                    }
                }
            },
            Err(ParseError::Incomplete) => {
                return Err(ParseError::Incomplete);
            },
            Err(ParseError::Invalid) => {},
        }
        let utf8 = utf8_token_exec(Class::HostChar, buf, i);
        match then_terminate_exec(utf8, buf, term) {
            Ok(j) => {
                proof {
                    lemma_utf8_token_valid(Class::HostChar, buf@, i as int);
                }
                if j - i > MAX_UTF8_DOMAIN_LEN {
                    return Err(ParseError::Invalid);
                }
                let raw = string_of(buf, i, j);
                proof {
                    vstd::utf8::encode_utf8_decode_utf8(raw@);
                }
                let punycode = idna_domain_to_ascii(raw.as_str());
                match Self::from_utf8_domain(raw, punycode) {
                    Some(h) => Ok((j, h)),
                    None => Err(ParseError::Invalid),
                }
            },
            Err(e) => Err(e),
        }
    }
}

impl<S: Text> Hostname<S> {
    /// Whether the two hostnames agree in every part: kind, text, punycode
    /// form and address (`==` compares their text alone).
    pub fn deep_equal(&self, o: &Hostname<S>) -> (r: bool)
        ensures
            r == (self@ == o@),
    {
        match (self, o) {
            (Hostname::Utf8Domain { raw, punycode }, Hostname::Utf8Domain { raw: raw2, punycode: punycode2 }) => {
                bytes_eq(raw.text_as_bytes(), raw2.text_as_bytes()) && *punycode == *punycode2
            },
            (Hostname::AsciiDomain { raw }, Hostname::AsciiDomain { raw: raw2 }) => {
                bytes_eq(raw.text_as_bytes(), raw2.text_as_bytes())
            },
            (Hostname::Ipv4 { raw, ip }, Hostname::Ipv4 { raw: raw2, ip: ip2 }) => {
                let same_ip = ip[0] == ip2[0] && ip[1] == ip2[1] && ip[2] == ip2[2] && ip[3] == ip2[3];
                proof {
                    let v = ip@.map_values(|x: u8| x as int);
                    let v2 = ip2@.map_values(|x: u8| x as int);
                    if same_ip {
                        assert(v =~= v2);
                    } else if v == v2 {
                        assert(v[0] == v2[0] && v[1] == v2[1] && v[2] == v2[2] && v[3] == v2[3]);
                    }
                }
                bytes_eq(raw.text_as_bytes(), raw2.text_as_bytes()) && same_ip
            },
            (Hostname::Ipv6 { raw, ip }, Hostname::Ipv6 { raw: raw2, ip: ip2 }) => {
                let mut same_ip = true;
                let mut k: usize = 0;
                while k < 8
                    invariant
                        k <= 8,
                        same_ip == (forall|q: int| 0 <= q < k ==> ip@[q] == ip2@[q]),
                    decreases 8 - k,
                {
                    if ip[k] != ip2[k] {
                        same_ip = false;
                    }
                    k = k + 1;
                }
                proof {
                    let v = ip@.map_values(|x: u16| x as int);
                    let v2 = ip2@.map_values(|x: u16| x as int);
                    if same_ip {
                        assert(v =~= v2);
                    } else if v == v2 {
                        assert forall|q: int| 0 <= q < 8 implies ip@[q] == ip2@[q] by {
                            assert(v[q] == v2[q]);
                        }
                    }
                }
                bytes_eq(raw.text_as_bytes(), raw2.text_as_bytes()) && same_ip
            },
            _ => false,
        }
    }

    /// The text of the hostname, as written.
    pub fn raw(&self) -> (r: &S)
        ensures
            r.text_bytes() == self@.raw_bytes(),
    {
        match self {
            Hostname::Utf8Domain { raw, .. } => raw,
            Hostname::AsciiDomain { raw } => raw,
            Hostname::Ipv4 { raw, .. } => raw,
            Hostname::Ipv6 { raw, .. } => raw,
        }
    }

    /// The wire form: the text as written.
    pub fn as_io_slices(&self) -> (r: std::vec::IntoIter<Vec<u8>>)
        ensures
            chunk_of(r) == self@.raw_bytes(),
    {
        let mut v: Vec<u8> = Vec::new();
        v.extend_from_slice(self.raw().text_as_bytes());
        single_chunk(v)
    }
}

impl<'a> Hostname<&'a str> {
    /// Copies the borrowed text into an owned `String`.
    pub fn to_owned(self) -> (r: Hostname<String>)
        ensures
            r@ == self@,
    {
        match self {
            Hostname::Utf8Domain { raw, punycode } => Hostname::Utf8Domain { raw: raw.to_owned(), punycode },
            Hostname::AsciiDomain { raw } => Hostname::AsciiDomain { raw: raw.to_owned() },
            Hostname::Ipv4 { raw, ip } => Hostname::Ipv4 { raw: raw.to_owned(), ip },
            Hostname::Ipv6 { raw, ip } => Hostname::Ipv6 { raw: raw.to_owned(), ip },
        }
    }
}

impl<S> Hostname<S> {
    /// The text of the hostname, as written.
    pub open spec fn raw_value(&self) -> S {
        match self {
            Hostname::Utf8Domain { raw, .. } => *raw,
            Hostname::AsciiDomain { raw } => *raw,
            Hostname::Ipv4 { raw, .. } => *raw,
            Hostname::Ipv6 { raw, .. } => *raw,
        }
    }

    fn raw_ref(&self) -> (r: &S)
        ensures
            *r == self.raw_value(),
    {
        match self {
            Hostname::Utf8Domain { raw, .. } => raw,
            Hostname::AsciiDomain { raw } => raw,
            Hostname::Ipv4 { raw, .. } => raw,
            Hostname::Ipv6 { raw, .. } => raw,
        }
    }
}

impl<S: PartialEq> PartialEq for Hostname<S> {
    fn eq(&self, o: &Hostname<S>) -> (r: bool) {
        self.raw_ref() == o.raw_ref()
    }
}

impl<S: PartialEq> PartialEqSpecImpl for Hostname<S> {
    open spec fn obeys_eq_spec() -> bool {
        <S as PartialEqSpec>::obeys_eq_spec()
    }

    open spec fn eq_spec(&self, other: &Hostname<S>) -> bool {
        self.raw_value().eq_spec(&other.raw_value())
    }
}

/// An address: a local part and, unless it is a bare local part (such as
/// `postmaster`), a hostname.
#[derive(Clone, Debug, Eq, PartialEq)]
pub struct Email<S = String> {
    pub localpart: Localpart<S>,
    pub hostname: Option<Hostname<S>>,
}

/// The model of an address.
pub struct EmailView {
    pub localpart: Localpart<Seq<u8>>,
    pub hostname: Option<HostnameView>,
}

pub open spec fn opt_hostname_view<S: Text>(h: Option<Hostname<S>>) -> Option<HostnameView> {
    match h {
        Some(x) => Some(x@),
        None => None,
    }
}

impl<S: Text> View for Email<S> {
    type V = EmailView;

    open spec fn view(&self) -> EmailView {
        EmailView { localpart: self.localpart@, hostname: opt_hostname_view(self.hostname) }
    }
}

/// `@`
pub open spec fn at_sign() -> Seq<u8> {
    seq![AT]
}

/// An address at `i`: a local part followed by one of `term_with_atsign`,
/// then `@` and a hostname followed by one of `term`, unless no hostname
/// reads there.
pub open spec fn email_spec(s: Seq<u8>, i: int, term: Seq<u8>, term_with_atsign: Seq<u8>) -> Result<
    (int, EmailView),
    ParseError,
> {
    match localpart_spec(s, i, term_with_atsign) {
        Err(e) => Err(e),
        Ok((j, lp)) => match tag_spec(s, j, at_sign()) {
            Ok(k) => match hostname_spec(s, k, term) {
                Ok((e, h)) => Ok((e, EmailView { localpart: lp, hostname: Some(h) })),
                Err(ParseError::Incomplete) => Err(ParseError::Incomplete),
                Err(ParseError::Invalid) => Ok((j, EmailView { localpart: lp, hostname: None })),
            },
            Err(ParseError::Incomplete) => Err(ParseError::Incomplete),
            Err(ParseError::Invalid) => Ok((j, EmailView { localpart: lp, hostname: None })),
        },
    }
}

/// `<`, an address followed by `>` (its local part by `@` or `>`), then
/// `>`, and nothing after.
pub open spec fn email_bracketed_spec(s: Seq<u8>) -> Result<EmailView, ParseError> {
    match tag_spec(s, 0, seq![LT]) {
        Err(e) => Err(e),
        Ok(k) => match email_spec(s, k, seq![GT], seq![AT, GT]) {
            Err(e) => Err(e),
            Ok((j, e)) => match tag_spec(s, j, seq![GT]) {
                Err(x) => Err(x),
                Ok(m) => if m == s.len() {
                    Ok(e)
                } else {
                    Err(ParseError::Invalid)
                },
            },
        },
    }
}

/// The wire form of an address.
pub open spec fn email_bytes(e: EmailView) -> Seq<u8> {
    e.localpart.raw_bytes() + match e.hostname {
        Some(h) => at_sign() + h.raw_bytes(),
        None => Seq::empty(),
    }
}

impl Email<String> {
    /// Parses an address at `buf[i..]`; `term_with_atsign` must be `term`
    /// with `@` added.
    pub fn parse_until(buf: &[u8], i: usize, term: &[u8], term_with_atsign: &[u8]) -> (r: Result<
        (usize, Email<String>),
        ParseError,
    >)
        requires
            i <= buf@.len(),
        ensures
            match r {
                Ok((j, e)) => email_spec(buf@, i as int, term@, term_with_atsign@) == Ok::<
                    (int, EmailView),
                    ParseError,
                >((j as int, e@)) && i < j <= buf@.len(),
                Err(x) => email_spec(buf@, i as int, term@, term_with_atsign@) == Err::<
                    (int, EmailView),
                    ParseError,
                >(x),
            },
    {
        let (j, localpart) = match Localpart::parse_until(buf, i, term_with_atsign) {
            Ok(x) => x,
            Err(e) => return Err(e),
        };
        let at: [u8; 1] = [AT];
        assert(at@ =~= at_sign());
        match tag_exec(buf, j, &at) {
            Ok(k) => match Hostname::parse_until(buf, k, term) {
                Ok((e, h)) => Ok((e, Email { localpart, hostname: Some(h) })),
                Err(ParseError::Incomplete) => Err(ParseError::Incomplete),
                Err(ParseError::Invalid) => Ok((j, Email { localpart, hostname: None })),
            },
            Err(ParseError::Incomplete) => Err(ParseError::Incomplete),
            Err(ParseError::Invalid) => Ok((j, Email { localpart, hostname: None })),
        }
    }

    /// Parses `<address>`, the whole of `buf`.
    pub fn parse_bracketed(buf: &[u8]) -> (r: Result<Email<String>, ParseError>)
        ensures
            match r {
                Ok(e) => email_bracketed_spec(buf@) == Ok::<EmailView, ParseError>(e@),
                Err(x) => email_bracketed_spec(buf@) == Err::<EmailView, ParseError>(x),
            },
    {
        let lt: [u8; 1] = [LT];
        let gt: [u8; 1] = [GT];
        let at_gt: [u8; 2] = [AT, GT];
        assert(lt@ =~= seq![LT]);
        assert(gt@ =~= seq![GT]);
        assert(at_gt@ =~= seq![AT, GT]);
        let k = match tag_exec(buf, 0, &lt) {
            Ok(k) => k,
            Err(e) => return Err(e),
        };
        let (j, e) = match Self::parse_until(buf, k, &gt, &at_gt) {
            Ok(x) => x,
            Err(x) => return Err(x),
        };
        match tag_exec(buf, j, &gt) {
            Err(x) => Err(x),
            Ok(m) => if m == buf.len() {
                Ok(e)
            } else {
                Err(ParseError::Invalid)
            },
        }
    }
}

impl<S: Text> Email<S> {
    /// Appends the wire form of the address to `out`.
    pub fn write_to(&self, out: &mut Vec<u8>)
        ensures
            final(out)@ == old(out)@ + email_bytes(self@),
    {
        out.extend_from_slice(self.localpart.raw().text_as_bytes());
        match &self.hostname {
            Some(h) => {
                let at: [u8; 1] = [AT];
                out.extend_from_slice(&at);
                out.extend_from_slice(h.raw().text_as_bytes());
            },
            None => {},
        }
        assert(final(out)@ =~= old(out)@ + email_bytes(self@));
    }

    /// The wire form of the address.
    pub fn as_io_slices(&self) -> (r: std::vec::IntoIter<Vec<u8>>)
        ensures
            chunk_of(r) == email_bytes(self@),
    {
        let mut v: Vec<u8> = Vec::new();
        self.write_to(&mut v);
        single_chunk(v)
    }
}

impl<'a> Email<&'a str> {
    /// Copies the borrowed texts into owned `String`s.
    pub fn to_owned(self) -> (r: Email<String>)
        ensures
            r@ == self@,
    {
        let hostname = match self.hostname {
            Some(h) => Some(h.to_owned()),
            None => None,
        };
        Email { localpart: self.localpart.to_owned(), hostname }
    }
}

/// A source route: the hostnames of `@one,@two:` in front of an address.
#[derive(Clone, Debug, Eq, PartialEq)]
pub struct Path<S = String> {
    pub domains: Vec<Hostname<S>>,
}

/// The model of a source route.
pub struct PathView {
    pub domains: Seq<HostnameView>,
}

impl<S: Text> View for Path<S> {
    type V = PathView;

    open spec fn view(&self) -> PathView {
        PathView { domains: self.domains@.map_values(|h: Hostname<S>| h@) }
    }
}

/// `@` and a hostname at `k`.
pub open spec fn path_item(s: Seq<u8>, k: int, term: Seq<u8>) -> Result<(int, HostnameView), ParseError> {
    match tag_spec(s, k, at_sign()) {
        Ok(k1) => hostname_spec(s, k1, term),
        Err(e) => Err(e),
    }
}

/// The items that follow the first one, each after a `,`.
pub open spec fn path_rest(s: Seq<u8>, k: int, term: Seq<u8>) -> Result<(int, Seq<HostnameView>), ParseError>
    decreases s.len() - k,
{
    match tag_spec(s, k, seq![COMMA]) {
        Err(ParseError::Invalid) => Ok((k, Seq::empty())),
        Err(ParseError::Incomplete) => Err(ParseError::Incomplete),
        Ok(k1) => match path_item(s, k1, term) {
            Err(ParseError::Invalid) => Ok((k, Seq::empty())),
            Err(ParseError::Incomplete) => Err(ParseError::Incomplete),
            Ok((k2, h)) => if k < k2 <= s.len() {
                match path_rest(s, k2, term) {
                    Ok((e, hs)) => Ok((e, seq![h] + hs)),
                    Err(x) => Err(x),
                }
            } else {
                Err(ParseError::Invalid)
            },
        },
    }
}

/// A source route at `i`: `@host` items separated by `,`, each hostname
/// followed by one of `term_with_comma`.
pub open spec fn path_spec(s: Seq<u8>, i: int, term_with_comma: Seq<u8>) -> Result<(int, PathView), ParseError> {
    match path_item(s, i, term_with_comma) {
        Err(e) => Err(e),
        Ok((k, h)) => match path_rest(s, k, term_with_comma) {
            Ok((e, hs)) => Ok((e, PathView { domains: seq![h] + hs })),
            Err(x) => Err(x),
        },
    }
}

/// The wire form of the first `n` hostnames of a source route.
pub open spec fn path_bytes_upto(domains: Seq<HostnameView>, n: nat) -> Seq<u8>
    decreases n,
{
    if n == 0 {
        Seq::empty()
    } else {
        path_bytes_upto(domains, (n - 1) as nat) + (if n == 1 {
            at_sign()
        } else {
            seq![COMMA, AT]
        }) + domains[n - 1].raw_bytes()
    }
}

/// The wire form of a source route: `@one,@two`.
pub open spec fn path_bytes(p: PathView) -> Seq<u8> {
    path_bytes_upto(p.domains, p.domains.len())
}

fn path_item_exec(buf: &[u8], k: usize, term: &[u8]) -> (r: Result<(usize, Hostname<String>), ParseError>)
    requires
        k <= buf@.len(),
    ensures
        match r {
            Ok((e, h)) => path_item(buf@, k as int, term@) == Ok::<(int, HostnameView), ParseError>(
                (e as int, h@),
            ) && k < e <= buf@.len(),
            Err(x) => path_item(buf@, k as int, term@) == Err::<(int, HostnameView), ParseError>(x),
        },
{
    let at: [u8; 1] = [AT];
    assert(at@ =~= at_sign());
    match tag_exec(buf, k, &at) {
        Ok(k1) => Hostname::parse_until(buf, k1, term),
        Err(e) => Err(e),
    }
}

impl Path<String> {
    /// Parses a source route at `buf[i..]`; `term_with_comma` must be the
    /// terminator with `,` added.
    pub fn parse_until(buf: &[u8], i: usize, term_with_comma: &[u8]) -> (r: Result<(usize, Path<String>), ParseError>)
        requires
            i <= buf@.len(),
        ensures
            match r {
                Ok((j, p)) => path_spec(buf@, i as int, term_with_comma@) == Ok::<(int, PathView), ParseError>(
                    (j as int, p@),
                ) && i < j <= buf@.len(),
                Err(e) => path_spec(buf@, i as int, term_with_comma@) == Err::<(int, PathView), ParseError>(e),
            },
    {
        let comma: [u8; 1] = [COMMA];
        assert(comma@ =~= seq![COMMA]);
        let (k0, h0) = match path_item_exec(buf, i, term_with_comma) {
            Ok(x) => x,
            Err(e) => return Err(e),
        };
        let ghost hv0 = h0@;
        let mut domains: Vec<Hostname<String>> = Vec::new();
        domains.push(h0);
        assert(domains@.map_values(|h: Hostname<String>| h@) =~= seq![hv0]);
        let mut k = k0;
        loop
            invariant
                i < k <= buf@.len(),
                domains@.len() > 0,
                comma@ == seq![COMMA],
                path_spec(buf@, i as int, term_with_comma@) == match path_rest(buf@, k as int, term_with_comma@) {
                    Ok((e, hs)) => Ok::<(int, PathView), ParseError>(
                        (e, PathView { domains: domains@.map_values(|h: Hostname<String>| h@) + hs }),
                    ),
                    Err(x) => Err(x),
                },
            decreases buf@.len() - k,
        {
            let ghost before = domains@;
            match tag_exec(buf, k, &comma) {
                Err(ParseError::Invalid) => {
                    let p = Path { domains };
                    assert(p@.domains + Seq::<HostnameView>::empty() =~= p@.domains);
                    return Ok((k, p));
                },
                Err(ParseError::Incomplete) => return Err(ParseError::Incomplete),
                Ok(k1) => match path_item_exec(buf, k1, term_with_comma) {
                    Err(ParseError::Invalid) => {
                        let p = Path { domains };
                        assert(p@.domains + Seq::<HostnameView>::empty() =~= p@.domains);
                        return Ok((k, p));
                    },
                    Err(ParseError::Incomplete) => return Err(ParseError::Incomplete),
                    Ok((k2, h)) => {
                        domains.push(h);
                        proof {
                            let rest = path_rest(buf@, k2 as int, term_with_comma@);
                            if let Ok((e, hs)) = rest {
                                assert(domains@.map_values(|x: Hostname<String>| x@) + hs =~= before.map_values(
                                    |x: Hostname<String>| x@,
                                ) + (seq![h@] + hs));
                            }
                        }
                        k = k2;
                    },
                },
            }
        }
    }
}

impl<S: Text> Path<S> {
    /// Appends the wire form of the source route to `out`.
    pub fn write_to(&self, out: &mut Vec<u8>)
        ensures
            final(out)@ == old(out)@ + path_bytes(self@),
    {
        let n = self.domains.len();
        let mut i: usize = 0;
        while i < n
            invariant
                n == self.domains@.len(),
                i <= n,
                out@ == old(out)@ + path_bytes_upto(self@.domains, i as nat),
            decreases n - i,
        {
            if i == 0 {
                let at: [u8; 1] = [AT];
                out.extend_from_slice(&at);
            } else {
                let sep: [u8; 2] = [COMMA, AT];
                out.extend_from_slice(&sep);
            }
            out.extend_from_slice(self.domains[i].raw().text_as_bytes());
            proof {
                assert(self@.domains[i as int] == self.domains@[i as int]@);
                assert(out@ =~= old(out)@ + path_bytes_upto(self@.domains, (i + 1) as nat));
            }
            i = i + 1;
        }
    }

    /// The wire form of the source route.
    pub fn as_io_slices(&self) -> (r: std::vec::IntoIter<Vec<u8>>)
        ensures
            chunk_of(r) == path_bytes(self@),
    {
        let mut v: Vec<u8> = Vec::new();
        self.write_to(&mut v);
        single_chunk(v)
    }
}

/// An optional source route, ended by `:`, then an address.
pub open spec fn unbracketed_spec(s: Seq<u8>, i: int, term: Seq<u8>, term_with_atsign: Seq<u8>) -> Result<
    (int, (Option<PathView>, EmailView)),
    ParseError,
> {
    let path = match path_spec(s, i, seq![COLON, COMMA]) {
        Ok((k, p)) => match tag_spec(s, k, seq![COLON]) {
            Ok(k1) => Ok((k1, Some(p))),
            Err(e) => Err(e),
        },
        Err(e) => Err(e),
    };
    let path = match path {
        Err(ParseError::Invalid) => Ok((i, None)),
        r => r,
    };
    match path {
        Err(e) => Err(e),
        Ok((k, p)) => match email_spec(s, k, term, term_with_atsign) {
            Ok((e, m)) => Ok((e, (p, m))),
            Err(x) => Err(x),
        },
    }
}

/// An address with its optional source route, between `<` and `>` or bare.
#[verifier::opaque]
pub open spec fn email_with_path_spec(
    s: Seq<u8>,
    i: int,
    term: Seq<u8>,
    term_with_atsign: Seq<u8>,
    term_with_bracket: Seq<u8>,
    term_with_bracket_atsign: Seq<u8>,
) -> Result<(int, (Option<PathView>, EmailView)), ParseError> {
    let bracketed = match tag_spec(s, i, seq![LT]) {
        Ok(k) => match unbracketed_spec(s, k, term_with_bracket, term_with_bracket_atsign) {
            Ok((j, v)) => match tag_spec(s, j, seq![GT]) {
                Ok(m) => Ok((m, v)),
                Err(e) => Err(e),
            },
            Err(e) => Err(e),
        },
        Err(e) => Err(e),
    };
    match bracketed {
        Err(ParseError::Invalid) => unbracketed_spec(s, i, term, term_with_atsign),
        r => r,
    }
}

pub open spec fn opt_path_view<S: Text>(p: Option<Path<S>>) -> Option<PathView> {
    match p {
        Some(x) => Some(x@),
        None => None,
    }
}

/// An optional source route, ended by `:`, then an address.
pub fn unbracketed_email_with_path(buf: &[u8], i: usize, term: &[u8], term_with_atsign: &[u8]) -> (r: Result<
    (usize, (Option<Path<String>>, Email<String>)),
    ParseError,
>)
    requires
        i <= buf@.len(),
    ensures
        match r {
            Ok((j, (p, e))) => unbracketed_spec(buf@, i as int, term@, term_with_atsign@) == Ok::<
                (int, (Option<PathView>, EmailView)),
                ParseError,
            >((j as int, (opt_path_view(p), e@))) && i < j <= buf@.len(),
            Err(x) => unbracketed_spec(buf@, i as int, term@, term_with_atsign@) == Err::<
                (int, (Option<PathView>, EmailView)),
                ParseError,
            >(x),
        },
{
    let colon_comma: [u8; 2] = [COLON, COMMA];
    let colon: [u8; 1] = [COLON];
    assert(colon_comma@ =~= seq![COLON, COMMA]);
    assert(colon@ =~= seq![COLON]);
    let path = match Path::parse_until(buf, i, &colon_comma) {
        Ok((k, p)) => match tag_exec(buf, k, &colon) {
            Ok(k1) => Ok((k1, Some(p))),
            Err(e) => Err(e),
        },
        Err(e) => Err(e),
    };
    let (k, p) = match path {
        Err(ParseError::Invalid) => (i, None),
        Err(ParseError::Incomplete) => return Err(ParseError::Incomplete),
        Ok(x) => x,
    };
    match Email::parse_until(buf, k, term, term_with_atsign) {
        Ok((e, m)) => Ok((e, (p, m))),
        Err(x) => Err(x),
    }
}

/// An address with its optional source route, between `<` and `>` or bare;
/// each `term*` is the terminator, with `@`, `>` or both added as named.
pub fn email_with_path(
    buf: &[u8],
    i: usize,
    term: &[u8],
    term_with_atsign: &[u8],
    term_with_bracket: &[u8],
    term_with_bracket_atsign: &[u8],
) -> (r: Result<(usize, (Option<Path<String>>, Email<String>)), ParseError>)
    requires
        i <= buf@.len(),
    ensures
        match r {
            Ok((j, (p, e))) => email_with_path_spec(
                buf@,
                i as int,
                term@,
                term_with_atsign@,
                term_with_bracket@,
                term_with_bracket_atsign@,
            ) == Ok::<(int, (Option<PathView>, EmailView)), ParseError>(
                (j as int, (opt_path_view(p), e@)),
            ) && i < j <= buf@.len(),
            Err(x) => email_with_path_spec(
                buf@,
                i as int,
                term@,
                term_with_atsign@,
                term_with_bracket@,
                term_with_bracket_atsign@,
            ) == Err::<(int, (Option<PathView>, EmailView)), ParseError>(x),
        },
{
    reveal(email_with_path_spec);
    let lt: [u8; 1] = [LT];
    let gt: [u8; 1] = [GT];
    assert(lt@ =~= seq![LT]);
    assert(gt@ =~= seq![GT]);
    let bracketed = match tag_exec(buf, i, &lt) {
        Ok(k) => match unbracketed_email_with_path(buf, k, term_with_bracket, term_with_bracket_atsign) {
            Ok((j, v)) => match tag_exec(buf, j, &gt) {
                Ok(m) => Ok((m, v)),
                Err(e) => Err(e),
            },
            Err(e) => Err(e),
        },
        Err(e) => Err(e),
    };
    match bracketed {
        Err(ParseError::Invalid) => unbracketed_email_with_path(buf, i, term, term_with_atsign),
        r => r,
    }
}

proof fn lemma_find_crlf_skip(s: Seq<u8>, k: int, m: int)
    requires
        0 <= k <= m,
        forall|q: int| k <= q < m ==> !(#[trigger] s[q] == CR && s[q + 1] == LF) || q + 1 >= s.len(),
    ensures
        find_crlf(s, k) == find_crlf(s, m),
    decreases m - k,
{
    if k < m {
        lemma_find_crlf_skip(s, k + 1, m);
    }
}

proof fn lemma_find_crlf_shift(a: Seq<u8>, b: Seq<u8>, k: int)
    requires
        0 <= k,
    ensures
        find_crlf(a + b, a.len() + k) == match find_crlf(b, k) {
            Some(p) => Some(a.len() + p),
            None => None::<int>,
        },
    decreases b.len() - k,
{
    let s = a + b;
    if k + 1 < b.len() {
        assert(s[a.len() + k] == b[k] && s[a.len() + k + 1] == b[k + 1]);
        lemma_find_crlf_shift(a, b, k + 1);
    }
}

/// Looking for `\r\n` buffer after buffer, carrying the state over, finds
/// it where it lies in the bytes of both buffers put together.
pub proof fn lemma_next_crlf_split(a: Seq<u8>, b: Seq<u8>, st: NextCrLfState)
    requires
        next_crlf_spec(a, st).0 is None,
    ensures
        ({
            let st1 = next_crlf_spec(a, st).1;
            match next_crlf_spec(b, st1).0 {
                Some(p) => next_crlf_spec(a + b, st).0 == Some(a.len() + p),
                None => next_crlf_spec(a + b, st).0 is None && next_crlf_spec(a + b, st).1
                    == next_crlf_spec(b, st1).1,
            }
        }),
{
    let st1 = next_crlf_spec(a, st).1;
    let s = a + b;
    if a.len() == 0 {
        assert(s =~= b);
    } else {
        lemma_find_crlf(a, 0);
        assert forall|q: int| 0 <= q < a.len() - 1 implies !(#[trigger] s[q] == CR && s[q + 1] == LF) || q + 1
            >= s.len() by {
            assert(s[q] == a[q] && s[q + 1] == a[q + 1]);
        }
        lemma_find_crlf_skip(s, 0, a.len() - 1);
        lemma_find_crlf_shift(a, b, 0);
        if b.len() > 0 {
            assert(s[a.len() - 1] == a[a.len() - 1] && s[a.len() as int] == b[0]);
            if a[a.len() - 1] == CR && b[0] == LF {
                assert(find_crlf(s, a.len() - 1) == Some(a.len() - 1));
            } else {
                assert(find_crlf(s, a.len() - 1) == find_crlf(s, a.len() as int));
            }
            assert(s[s.len() - 1] == b[b.len() - 1]);
        } else {
            assert(s =~= a);
        }
    }
}

/// How `show_bytes` renders bytes: as text when they are UTF-8 and few,
/// else as a list of numbers.
pub open spec fn decimal_bytes(v: u8) -> Seq<u8> {
    if v >= 100 {
        seq![(48 + v / 100) as u8, (48 + (v / 10) % 10) as u8, (48 + v % 10) as u8]
    } else if v >= 10 {
        seq![(48 + v / 10) as u8, (48 + v % 10) as u8]
    } else {
        seq![(48 + v) as u8]
    }
}

/// `[a, b, c]` for the first `n` bytes, without the closing bracket.
pub open spec fn list_prefix(b: Seq<u8>, n: nat) -> Seq<u8>
    decreases n,
{
    if n == 0 {
        seq![LBRACKET]
    } else {
        list_prefix(b, (n - 1) as nat) + (if n == 1 {
            Seq::empty()
        } else {
            seq![COMMA, SP]
        }) + decimal_bytes(b[n - 1])
    }
}

/// The text `show_bytes` gives for `b`.
pub open spec fn show_bytes_spec(b: Seq<u8>) -> Seq<u8> {
    if b.len() > 128 {
        seq![123u8, 116u8, 111u8, 111u8, 32u8, 108u8, 111u8, 110u8, 103u8, 125u8]
    } else if valid_utf8(b) {
        b
    } else {
        list_prefix(b, b.len()) + seq![RBRACKET]
    }
}

fn push_decimal(out: &mut Vec<u8>, v: u8)
    ensures
        final(out)@ == old(out)@ + decimal_bytes(v),
{
    if v >= 100 {
        out.push(48 + v / 100);
        out.push(48 + (v / 10) % 10);
        out.push(48 + v % 10);
    } else if v >= 10 {
        out.push(48 + v / 10);
        out.push(48 + v % 10);
    } else {
        out.push(48 + v);
    }
    assert(final(out)@ =~= old(out)@ + decimal_bytes(v));
}

/// Bytes as text for a message: the text itself when it is UTF-8, the list
/// of their values otherwise, and `{too long}` past 128 bytes.
pub fn show_bytes(b: &[u8]) -> (r: String)
    ensures
        r.text_bytes() == show_bytes_spec(b@),
{
    if b.len() > 128 {
        let t: [u8; 10] = [123, 116, 111, 111, 32, 108, 111, 110, 103, 125];
        proof {
            assert forall|k: int| 0 <= k < t@.len() implies #[trigger] t@[k] < 0x80 by {}
            lemma_ascii_valid_utf8(t@);
            assert(t@.subrange(0, 10) =~= t@);
        }
        return string_of(&t, 0, 10);
    }
    match crate::text::utf8_decode(b) {
        Ok(s) => s,
        Err(_) => {
            let mut out: Vec<u8> = Vec::new();
            out.push(LBRACKET);
            let n = b.len();
            let mut i: usize = 0;
            assert(out@ =~= list_prefix(b@, 0));
            while i < n
                invariant
                    n == b@.len(),
                    i <= n,
                    out@ == list_prefix(b@, i as nat),
                    forall|k: int| 0 <= k < out@.len() ==> #[trigger] out@[k] < 0x80,
                decreases n - i,
            {
                if i > 0 {
                    out.push(COMMA);
                    out.push(SP);
                }
                let ghost mid = out@;
                push_decimal(&mut out, b[i]);
                proof {
                    assert(out@ =~= list_prefix(b@, (i + 1) as nat));
                    assert forall|k: int| 0 <= k < out@.len() implies #[trigger] out@[k] < 0x80 by {
                        if k >= mid.len() {
                            assert(out@[k] == decimal_bytes(b@[i as int])[k - mid.len()]);
                        }
                    }
                }
                i = i + 1;
            }
            out.push(RBRACKET);
            proof {
                lemma_ascii_valid_utf8(out@);
                assert(out@.subrange(0, out@.len() as int) =~= out@);
            }
            string_of(out.as_slice(), 0, out.len())
        },
    }
}

} // verus!
