//! SMTP replies: reply codes, enhanced status codes (RFC 3463), reply lines
//! and multi-line replies, with their parsers and their wire form.

use vstd::prelude::*;
use vstd::utf8::valid_utf8;
use crate::lex::{
    ParseError, Class, span, span_exec, span_utf8, span_utf8_exec, valid_end, tag_spec, tag_exec,
    crlf, chunk_of, single_chunk, lemma_span, lemma_span_utf8_valid, ends_line_at,
    lemma_tag_crlf_ends_line, CR, LF, SP, DASH, DOT,
};
use crate::text::{Text, string_of, lemma_ascii_valid_utf8, utf8_lossy, lossy_utf8};
use vstd::utf8::encode_utf8;
use crate::misc::MaybeUtf8;

verus! {

broadcast use vstd::seq::group_seq_axioms;

#[derive(Clone, Copy, Debug, PartialEq, Eq, Structural)]
pub enum ReplyCodeKind {
    PositiveCompletion,
    PositiveIntermediate,
    TransientNegative,
    PermanentNegative,
}

#[derive(Clone, Copy, Debug, PartialEq, Eq, Structural)]
pub enum ReplyCodeCategory {
    Syntax,
    Information,
    Connection,
    ReceiverStatus,
    Unspecified,
}

/// A three-digit reply code, as its ASCII digits.
#[derive(Clone, Copy, Debug, PartialEq, Eq)]
pub struct ReplyCode(pub [u8; 3]);

/// The reply codes of RFC 5321.
#[allow(non_snake_case)]
impl ReplyCode {
    /// `211`
    pub fn SYSTEM_STATUS() -> (r: ReplyCode)
        ensures
            r.0@ == seq![50u8, 49u8, 49u8],
    {
        let r = ReplyCode([50, 49, 49]);
        assert(r.0@ =~= seq![50u8, 49u8, 49u8]);
        r
    }

    /// `214`
    pub fn HELP_MESSAGE() -> (r: ReplyCode)
        ensures
            r.0@ == seq![50u8, 49u8, 52u8],
    {
        let r = ReplyCode([50, 49, 52]);
        assert(r.0@ =~= seq![50u8, 49u8, 52u8]);
        r
    }

    /// `220`
    pub fn SERVICE_READY() -> (r: ReplyCode)
        ensures
            r.0@ == seq![50u8, 50u8, 48u8],
    {
        let r = ReplyCode([50, 50, 48]);
        assert(r.0@ =~= seq![50u8, 50u8, 48u8]);
        r
    }

    /// `221`
    pub fn CLOSING_CHANNEL() -> (r: ReplyCode)
        ensures
            r.0@ == seq![50u8, 50u8, 49u8],
    {
        let r = ReplyCode([50, 50, 49]);
        assert(r.0@ =~= seq![50u8, 50u8, 49u8]);
        r
    }

    /// `250`
    pub fn OKAY() -> (r: ReplyCode)
        ensures
            r.0@ == seq![50u8, 53u8, 48u8],
    {
        let r = ReplyCode([50, 53, 48]);
        assert(r.0@ =~= seq![50u8, 53u8, 48u8]);
        r
    }

    /// `251`
    pub fn USER_NOT_LOCAL_WILL_FORWARD() -> (r: ReplyCode)
        ensures
            r.0@ == seq![50u8, 53u8, 49u8],
    {
        let r = ReplyCode([50, 53, 49]);
        assert(r.0@ =~= seq![50u8, 53u8, 49u8]);
        r
    }

    /// `252`
    pub fn CANNOT_VRFY_BUT_PLEASE_TRY() -> (r: ReplyCode)
        ensures
            r.0@ == seq![50u8, 53u8, 50u8],
    {
        let r = ReplyCode([50, 53, 50]);
        assert(r.0@ =~= seq![50u8, 53u8, 50u8]);
        r
    }

    /// `354`
    pub fn START_MAIL_INPUT() -> (r: ReplyCode)
        ensures
            r.0@ == seq![51u8, 53u8, 52u8],
    {
        let r = ReplyCode([51, 53, 52]);
        assert(r.0@ =~= seq![51u8, 53u8, 52u8]);
        r
    }

    /// `421`
    pub fn SERVICE_NOT_AVAILABLE() -> (r: ReplyCode)
        ensures
            r.0@ == seq![52u8, 50u8, 49u8],
    {
        let r = ReplyCode([52, 50, 49]);
        assert(r.0@ =~= seq![52u8, 50u8, 49u8]);
        r
    }

    /// `450`
    pub fn MAILBOX_TEMPORARILY_UNAVAILABLE() -> (r: ReplyCode)
        ensures
            r.0@ == seq![52u8, 53u8, 48u8],
    {
        let r = ReplyCode([52, 53, 48]);
        assert(r.0@ =~= seq![52u8, 53u8, 48u8]);
        r
    }

    /// `451`
    pub fn LOCAL_ERROR() -> (r: ReplyCode)
        ensures
            r.0@ == seq![52u8, 53u8, 49u8],
    {
        let r = ReplyCode([52, 53, 49]);
        assert(r.0@ =~= seq![52u8, 53u8, 49u8]);
        r
    }

    /// `452`
    pub fn INSUFFICIENT_STORAGE() -> (r: ReplyCode)
        ensures
            r.0@ == seq![52u8, 53u8, 50u8],
    {
        let r = ReplyCode([52, 53, 50]);
        assert(r.0@ =~= seq![52u8, 53u8, 50u8]);
        r
    }

    /// `455`
    pub fn UNABLE_TO_ACCEPT_PARAMETERS() -> (r: ReplyCode)
        ensures
            r.0@ == seq![52u8, 53u8, 53u8],
    {
        let r = ReplyCode([52, 53, 53]);
        assert(r.0@ =~= seq![52u8, 53u8, 53u8]);
        r
    }

    /// `500`
    pub fn COMMAND_UNRECOGNIZED() -> (r: ReplyCode)
        ensures
            r.0@ == seq![53u8, 48u8, 48u8],
    {
        let r = ReplyCode([53, 48, 48]);
        assert(r.0@ =~= seq![53u8, 48u8, 48u8]);
        r
    }

    /// `501`
    pub fn SYNTAX_ERROR() -> (r: ReplyCode)
        ensures
            r.0@ == seq![53u8, 48u8, 49u8],
    {
        let r = ReplyCode([53, 48, 49]);
        assert(r.0@ =~= seq![53u8, 48u8, 49u8]);
        r
    }

    /// `502`
    pub fn COMMAND_UNIMPLEMENTED() -> (r: ReplyCode)
        ensures
            r.0@ == seq![53u8, 48u8, 50u8],
    {
        let r = ReplyCode([53, 48, 50]);
        assert(r.0@ =~= seq![53u8, 48u8, 50u8]);
        r
    }

    /// `503`
    pub fn BAD_SEQUENCE() -> (r: ReplyCode)
        ensures
            r.0@ == seq![53u8, 48u8, 51u8],
    {
        let r = ReplyCode([53, 48, 51]);
        assert(r.0@ =~= seq![53u8, 48u8, 51u8]);
        r
    }

    /// `504`
    pub fn PARAMETER_UNIMPLEMENTED() -> (r: ReplyCode)
        ensures
            r.0@ == seq![53u8, 48u8, 52u8],
    {
        let r = ReplyCode([53, 48, 52]);
        assert(r.0@ =~= seq![53u8, 48u8, 52u8]);
        r
    }

    /// `521`
    pub fn SERVER_DOES_NOT_ACCEPT_MAIL() -> (r: ReplyCode)
        ensures
            r.0@ == seq![53u8, 50u8, 49u8],
    {
        let r = ReplyCode([53, 50, 49]);
        assert(r.0@ =~= seq![53u8, 50u8, 49u8]);
        r
    }

    /// `550`
    pub fn MAILBOX_UNAVAILABLE() -> (r: ReplyCode)
        ensures
            r.0@ == seq![53u8, 53u8, 48u8],
    {
        let r = ReplyCode([53, 53, 48]);
        assert(r.0@ =~= seq![53u8, 53u8, 48u8]);
        r
    }

    /// `550`
    pub fn POLICY_REASON() -> (r: ReplyCode)
        ensures
            r.0@ == seq![53u8, 53u8, 48u8],
    {
        let r = ReplyCode([53, 53, 48]);
        assert(r.0@ =~= seq![53u8, 53u8, 48u8]);
        r
    }

    /// `551`
    pub fn USER_NOT_LOCAL() -> (r: ReplyCode)
        ensures
            r.0@ == seq![53u8, 53u8, 49u8],
    {
        let r = ReplyCode([53, 53, 49]);
        assert(r.0@ =~= seq![53u8, 53u8, 49u8]);
        r
    }

    /// `552`
    pub fn EXCEEDED_STORAGE() -> (r: ReplyCode)
        ensures
            r.0@ == seq![53u8, 53u8, 50u8],
    {
        let r = ReplyCode([53, 53, 50]);
        assert(r.0@ =~= seq![53u8, 53u8, 50u8]);
        r
    }

    /// `553`
    pub fn MAILBOX_NAME_INCORRECT() -> (r: ReplyCode)
        ensures
            r.0@ == seq![53u8, 53u8, 51u8],
    {
        let r = ReplyCode([53, 53, 51]);
        assert(r.0@ =~= seq![53u8, 53u8, 51u8]);
        r
    }

    /// `554`
    pub fn TRANSACTION_FAILED() -> (r: ReplyCode)
        ensures
            r.0@ == seq![53u8, 53u8, 52u8],
    {
        let r = ReplyCode([53, 53, 52]);
        assert(r.0@ =~= seq![53u8, 53u8, 52u8]);
        r
    }

    /// `555`
    pub fn MAIL_OR_RCPT_PARAMETER_UNIMPLEMENTED() -> (r: ReplyCode)
        ensures
            r.0@ == seq![53u8, 53u8, 53u8],
    {
        let r = ReplyCode([53, 53, 53]);
        assert(r.0@ =~= seq![53u8, 53u8, 53u8]);
        r
    }

    /// `556`
    pub fn DOMAIN_DOES_NOT_ACCEPT_MAIL() -> (r: ReplyCode)
        ensures
            r.0@ == seq![53u8, 53u8, 54u8],
    {
        let r = ReplyCode([53, 53, 54]);
        assert(r.0@ =~= seq![53u8, 53u8, 54u8]);
        r
    }

}

pub open spec fn is_digit(b: u8) -> bool {
    48 <= b <= 57
}

/// The regex `[2-5][0-9][0-9]` at `i`.
pub open spec fn reply_code_spec(s: Seq<u8>, i: int) -> Result<int, ParseError> {
    if i >= s.len() {
        Err(ParseError::Incomplete)
    } else if !(50 <= s[i] <= 53) {
        Err(ParseError::Invalid)
    } else if i + 1 >= s.len() {
        Err(ParseError::Incomplete)
    } else if !is_digit(s[i + 1]) {
        Err(ParseError::Invalid)
    } else if i + 2 >= s.len() {
        Err(ParseError::Incomplete)
    } else if !is_digit(s[i + 2]) {
        Err(ParseError::Invalid)
    } else {
        Ok(i + 3)
    }
}

/// What a reply code's first digit says.
pub open spec fn kind_of(first: u8) -> ReplyCodeKind {
    if first == 50 {
        ReplyCodeKind::PositiveCompletion
    } else if first == 51 {
        ReplyCodeKind::PositiveIntermediate
    } else if first == 52 {
        ReplyCodeKind::TransientNegative
    } else {
        ReplyCodeKind::PermanentNegative
    }
}

/// What a reply code's second digit says.
pub open spec fn category_of(second: u8) -> ReplyCodeCategory {
    if second == 48 {
        ReplyCodeCategory::Syntax
    } else if second == 49 {
        ReplyCodeCategory::Information
    } else if second == 50 {
        ReplyCodeCategory::Connection
    } else if second == 53 {
        ReplyCodeCategory::ReceiverStatus
    } else {
        ReplyCodeCategory::Unspecified
    }
}

impl ReplyCode {
    pub fn parse_at(buf: &[u8], i: usize) -> (r: Result<(usize, ReplyCode), ParseError>)
        requires
            i <= buf@.len(),
        ensures
            match r {
                Ok((j, c)) => reply_code_spec(buf@, i as int) == Ok::<int, ParseError>(j as int)
                    && j <= buf@.len() && c.0@ == buf@.subrange(i as int, j as int),
                Err(e) => reply_code_spec(buf@, i as int) == Err::<int, ParseError>(e),
            },
    {
        let n = buf.len();
        if i >= n {
            return Err(ParseError::Incomplete);
        }
        if !(50 <= buf[i] && buf[i] <= 53) {
            return Err(ParseError::Invalid);
        }
        if i + 1 >= n {
            return Err(ParseError::Incomplete);
        }
        if !(48 <= buf[i + 1] && buf[i + 1] <= 57) {
            return Err(ParseError::Invalid);
        }
        if i + 2 >= n {
            return Err(ParseError::Incomplete);
        }
        if !(48 <= buf[i + 2] && buf[i + 2] <= 57) {
            return Err(ParseError::Invalid);
        }
        let c = ReplyCode([buf[i], buf[i + 1], buf[i + 2]]);
        assert(c.0@ =~= buf@.subrange(i as int, i + 3));
        Ok((i + 3, c))
    }

    /// Parses a reply code at the start of `buf`, giving back the rest.
    pub fn parse(buf: &[u8]) -> (r: Result<(&[u8], ReplyCode), ParseError>)
        ensures
            match r {
                Ok((rest, c)) => reply_code_spec(buf@, 0) == Ok::<int, ParseError>(3) && rest@
                    == buf@.subrange(3, buf@.len() as int) && c.0@ == buf@.subrange(0, 3),
                Err(e) => reply_code_spec(buf@, 0) == Err::<int, ParseError>(e),
            },
    {
        match Self::parse_at(buf, 0) {
            Ok((j, c)) => Ok((&buf[j..buf.len()], c)),
            Err(e) => Err(e),
        }
    }

    /// The kind of reply, from the first digit; the code must start with a
    /// digit from 2 to 5.
    pub fn kind(&self) -> (r: ReplyCodeKind)
        requires
            50 <= self.0@[0] <= 53,
        ensures
            r == kind_of(self.0@[0]),
    {
        if self.0[0] == 50 {
            ReplyCodeKind::PositiveCompletion
        } else if self.0[0] == 51 {
            ReplyCodeKind::PositiveIntermediate
        } else if self.0[0] == 52 {
            ReplyCodeKind::TransientNegative
        } else {
            ReplyCodeKind::PermanentNegative
        }
    }

    /// The category of reply, from the second digit.
    pub fn category(&self) -> (r: ReplyCodeCategory)
        ensures
            r == category_of(self.0@[1]),
    {
        if self.0[1] == 48 {
            ReplyCodeCategory::Syntax
        } else if self.0[1] == 49 {
            ReplyCodeCategory::Information
        } else if self.0[1] == 50 {
            ReplyCodeCategory::Connection
        } else if self.0[1] == 53 {
            ReplyCodeCategory::ReceiverStatus
        } else {
            ReplyCodeCategory::Unspecified
        }
    }

    /// The numeric value of the code; the digits must not make it negative.
    pub fn code(&self) -> (r: u16)
        requires
            self.0@[0] * 100 + self.0@[1] * 10 + self.0@[2] >= 48 * 111,
        ensures
            r == self.0@[0] * 100 + self.0@[1] * 10 + self.0@[2] - 48 * 111,
    {
        let a = self.0[0] as u16;
        let b = self.0[1] as u16;
        let c = self.0[2] as u16;
        a * 100 + b * 10 + c - 48 * 111
    }

    /// The wire form of the code: its three digits.
    pub fn as_io_slices(&self) -> (r: std::vec::IntoIter<Vec<u8>>)
        ensures
            chunk_of(r) == self.0@,
    {
        let mut v: Vec<u8> = Vec::new();
        v.extend_from_slice(&self.0);
        single_chunk(v)
    }
}

#[derive(Copy, Clone, Debug, PartialEq, Eq, Structural)]
pub enum EnhancedReplyCodeClass {
    Success,
    PersistentTransient,
    PermanentFailure,
}

#[derive(Copy, Clone, Debug, PartialEq, Eq, Structural)]
pub enum EnhancedReplyCodeSubject {
    Undefined,
    Addressing,
    Mailbox,
    MailSystem,
    Network,
    MailDelivery,
    Content,
    Policy,
}

/// An enhanced status code `class.subject.detail` (RFC 3463).
#[derive(Clone, Debug, PartialEq, Eq)]
pub struct EnhancedReplyCode<S> {
    pub raw: S,
    pub class: EnhancedReplyCodeClass,
    pub raw_subject: u16,
    pub raw_detail: u16,
}

impl<S: Text> View for EnhancedReplyCode<S> {
    type V = EnhancedReplyCode<Seq<u8>>;

    open spec fn view(&self) -> EnhancedReplyCode<Seq<u8>> {
        EnhancedReplyCode {
            raw: self.raw.text_bytes(),
            class: self.class,
            raw_subject: self.raw_subject,
            raw_detail: self.raw_detail,
        }
    }
}

/// Number of digits (at most three) at `k`.
pub open spec fn digit_run3(s: Seq<u8>, k: int) -> int {
    if 0 <= k < s.len() && is_digit(s[k]) {
        if k + 1 < s.len() && is_digit(s[k + 1]) {
            if k + 2 < s.len() && is_digit(s[k + 2]) {
                3
            } else {
                2
            }
        } else {
            1
        }
    } else {
        0
    }
}

/// The regex `[245]\.[0-9]{1,3}\.[0-9]{1,3}` at `i` (longest match).
pub open spec fn enhanced_code_spec(s: Seq<u8>, i: int) -> Result<int, ParseError> {
    if i >= s.len() {
        Err(ParseError::Incomplete)
    } else if !(s[i] == 50 || s[i] == 52 || s[i] == 53) {
        Err(ParseError::Invalid)
    } else if i + 1 >= s.len() {
        Err(ParseError::Incomplete)
    } else if s[i + 1] != DOT {
        Err(ParseError::Invalid)
    } else {
        let p = i + 2 + digit_run3(s, i + 2);
        if p >= s.len() {
            Err(ParseError::Incomplete)
        } else if p == i + 2 || s[p] != DOT {
            Err(ParseError::Invalid)
        } else if digit_run3(s, p + 1) > 0 {
            Ok(p + 1 + digit_run3(s, p + 1))
        } else if p + 1 >= s.len() {
            Err(ParseError::Incomplete)
        } else {
            Err(ParseError::Invalid)
        }
    }
}

/// Decimal value of a string of ASCII digits.
pub open spec fn decimal(x: Seq<u8>) -> nat
    decreases x.len(),
{
    if x.len() == 0 {
        0
    } else {
        decimal(x.drop_last()) * 10 + (x.last() - 48) as nat
    }
}

pub open spec fn class_of(b: u8) -> EnhancedReplyCodeClass {
    if b == 50 {
        EnhancedReplyCodeClass::Success
    } else if b == 52 {
        EnhancedReplyCodeClass::PersistentTransient
    } else {
        EnhancedReplyCodeClass::PermanentFailure
    }
}

/// The enhanced code matched at `s[i..j]`.
pub open spec fn enhanced_code_value(s: Seq<u8>, i: int, j: int) -> EnhancedReplyCode<Seq<u8>> {
    let p = i + 2 + digit_run3(s, i + 2);
    EnhancedReplyCode {
        raw: s.subrange(i, j),
        class: class_of(s[i]),
        raw_subject: decimal(s.subrange(i + 2, p)) as u16,
        raw_detail: decimal(s.subrange(p + 1, j)) as u16,
    }
}

pub open spec fn subject_of(raw_subject: u16) -> EnhancedReplyCodeSubject {
    if raw_subject == 1 {
        EnhancedReplyCodeSubject::Addressing
    } else if raw_subject == 2 {
        EnhancedReplyCodeSubject::Mailbox
    } else if raw_subject == 3 {
        EnhancedReplyCodeSubject::MailSystem
    } else if raw_subject == 4 {
        EnhancedReplyCodeSubject::Network
    } else if raw_subject == 5 {
        EnhancedReplyCodeSubject::MailDelivery
    } else if raw_subject == 6 {
        EnhancedReplyCodeSubject::Content
    } else if raw_subject == 7 {
        EnhancedReplyCodeSubject::Policy
    } else {
        EnhancedReplyCodeSubject::Undefined
    }
}

fn digit_run3_exec(buf: &[u8], k: usize) -> (r: usize)
    requires
        k <= buf@.len(),
    ensures
        r == digit_run3(buf@, k as int),
        r <= 3,
        k + r <= buf@.len(),
        forall|q: int| k <= q < k + r ==> is_digit(#[trigger] buf@[q]),
{
    let n = buf.len();
    if k < n && 48 <= buf[k] && buf[k] <= 57 {
        if k + 1 < n && 48 <= buf[k + 1] && buf[k + 1] <= 57 {
            if k + 2 < n && 48 <= buf[k + 2] && buf[k + 2] <= 57 {
                3
            } else {
                2
            }
        } else {
            1
        }
    } else {
        0
    }
}

/// Decimal value of `buf[a..b]`, made of at most three digits.
fn decimal_exec(buf: &[u8], a: usize, b: usize) -> (r: u16)
    requires
        a <= b <= buf@.len(),
        b - a <= 3,
        forall|q: int| a <= q < b ==> is_digit(#[trigger] buf@[q]),
    ensures
        r as nat == decimal(buf@.subrange(a as int, b as int)),
        r < 1000,
{
    let mut v: u16 = 0;
    let mut k = a;
    assert(buf@.subrange(a as int, a as int).len() == 0);
    while k < b
        invariant
            a <= k <= b <= buf@.len(),
            b - a <= 3,
            forall|q: int| a <= q < b ==> is_digit(#[trigger] buf@[q]),
            v as nat == decimal(buf@.subrange(a as int, k as int)),
            k - a == 0 ==> v == 0,
            k - a == 1 ==> v < 10,
            k - a == 2 ==> v < 100,
            k - a == 3 ==> v < 1000,
        decreases b - k,
    {
        let d = buf[k] - 48;
        assert(is_digit(buf@[k as int]));
        assert(buf@.subrange(a as int, k + 1).drop_last() =~= buf@.subrange(a as int, k as int));
        v = v * 10 + d as u16;
        k = k + 1;
    }
    v
}

/// Ascii bytes of `buf[i..j]`.
proof fn lemma_ascii_range(s: Seq<u8>, i: int, j: int)
    requires
        0 <= i <= j <= s.len(),
        forall|q: int| i <= q < j ==> #[trigger] s[q] < 0x80,
    ensures
        valid_utf8(s.subrange(i, j)),
{
    let x = s.subrange(i, j);
    assert forall|q: int| 0 <= q < x.len() implies #[trigger] x[q] < 0x80 by {
        assert(x[q] == s[i + q]);
    }
    lemma_ascii_valid_utf8(x);
}

impl EnhancedReplyCode<String> {
    pub fn parse_at(buf: &[u8], i: usize) -> (r: Result<(usize, EnhancedReplyCode<String>), ParseError>)
        requires
            i <= buf@.len(),
        ensures
            match r {
                Ok((j, c)) => enhanced_code_spec(buf@, i as int) == Ok::<int, ParseError>(j as int)
                    && j <= buf@.len() && c@ == enhanced_code_value(buf@, i as int, j as int),
                Err(e) => enhanced_code_spec(buf@, i as int) == Err::<int, ParseError>(e),
            },
    {
        let n = buf.len();
        if i >= n {
            return Err(ParseError::Incomplete);
        }
        let c0 = buf[i];
        if !(c0 == 50 || c0 == 52 || c0 == 53) {
            return Err(ParseError::Invalid);
        }
        if i + 1 >= n {
            return Err(ParseError::Incomplete);
        }
        if buf[i + 1] != DOT {
            return Err(ParseError::Invalid);
        }
        let a = digit_run3_exec(buf, i + 2);
        let p = i + 2 + a;
        if p >= n {
            return Err(ParseError::Incomplete);
        }
        if p == i + 2 || buf[p] != DOT {
            return Err(ParseError::Invalid);
        }
        let b = digit_run3_exec(buf, p + 1);
        if b == 0 {
            if p + 1 >= n {
                return Err(ParseError::Incomplete);
            } else {
                return Err(ParseError::Invalid);
            }
        }
        let j = p + 1 + b;
        let subject = decimal_exec(buf, i + 2, p);
        let detail = decimal_exec(buf, p + 1, j);
        proof {
            assert forall|q: int| i <= q < j implies #[trigger] buf@[q] < 0x80 by {
                if q < p + 1 && q > i + 1 && q != p {
                    assert(is_digit(buf@[q]));
                } else if q > p {
                    assert(is_digit(buf@[q]));
                }
            }
            lemma_ascii_range(buf@, i as int, j as int);
        }
        let raw = string_of(buf, i, j);
        let class = if c0 == 50 {
            EnhancedReplyCodeClass::Success
        } else if c0 == 52 {
            EnhancedReplyCodeClass::PersistentTransient
        } else {
            EnhancedReplyCodeClass::PermanentFailure
        };
        Ok((j, EnhancedReplyCode { raw, class, raw_subject: subject, raw_detail: detail }))
    }

    /// Parses an enhanced status code at the start of `buf`, giving back the rest.
    pub fn parse(buf: &[u8]) -> (r: Result<(&[u8], EnhancedReplyCode<String>), ParseError>)
        ensures
            match r {
                Ok((rest, c)) => enhanced_code_spec(buf@, 0) is Ok && rest@ == buf@.subrange(
                    enhanced_code_spec(buf@, 0)->Ok_0,
                    buf@.len() as int,
                ) && c@ == enhanced_code_value(buf@, 0, enhanced_code_spec(buf@, 0)->Ok_0),
                Err(e) => enhanced_code_spec(buf@, 0) == Err::<int, ParseError>(e),
            },
    {
        match Self::parse_at(buf, 0) {
            Ok((j, c)) => Ok((&buf[j..buf.len()], c)),
            Err(e) => Err(e),
        }
    }
}

/// The enhanced status codes of RFC 3463 and its updates.
#[allow(non_snake_case)]
impl EnhancedReplyCode<&'static str> {
    /// `2.0.0`
    pub fn SUCCESS_UNDEFINED() -> (r: EnhancedReplyCode<&'static str>)
        ensures
            r.raw@ == seq!['2', '.', '0', '.', '0'],
            r.class == EnhancedReplyCodeClass::Success,
            r.raw_subject == 0,
            r.raw_detail == 0,
    {
        proof {
            reveal_strlit("2.0.0");
        }
        EnhancedReplyCode {
            raw: "2.0.0",
            class: EnhancedReplyCodeClass::Success,
            raw_subject: 0,
            raw_detail: 0,
        }
    }

    /// `4.0.0`
    pub fn TRANSIENT_UNDEFINED() -> (r: EnhancedReplyCode<&'static str>)
        ensures
            r.raw@ == seq!['4', '.', '0', '.', '0'],
            r.class == EnhancedReplyCodeClass::PersistentTransient,
            r.raw_subject == 0,
            r.raw_detail == 0,
    {
        proof {
            reveal_strlit("4.0.0");
        }
        EnhancedReplyCode {
            raw: "4.0.0",
            class: EnhancedReplyCodeClass::PersistentTransient,
            raw_subject: 0,
            raw_detail: 0,
        }
    }

    /// `5.0.0`
    pub fn PERMANENT_UNDEFINED() -> (r: EnhancedReplyCode<&'static str>)
        ensures
            r.raw@ == seq!['5', '.', '0', '.', '0'],
            r.class == EnhancedReplyCodeClass::PermanentFailure,
            r.raw_subject == 0,
            r.raw_detail == 0,
    {
        proof {
            reveal_strlit("5.0.0");
        }
        EnhancedReplyCode {
            raw: "5.0.0",
            class: EnhancedReplyCodeClass::PermanentFailure,
            raw_subject: 0,
            raw_detail: 0,
        }
    }

    /// `2.1.0`
    pub fn SUCCESS_ADDRESS_OTHER() -> (r: EnhancedReplyCode<&'static str>)
        ensures
            r.raw@ == seq!['2', '.', '1', '.', '0'],
            r.class == EnhancedReplyCodeClass::Success,
            r.raw_subject == 1,
            r.raw_detail == 0,
    {
        proof {
            reveal_strlit("2.1.0");
        }
        EnhancedReplyCode {
            raw: "2.1.0",
            class: EnhancedReplyCodeClass::Success,
            raw_subject: 1,
            raw_detail: 0,
        }
    }

    /// `4.1.0`
    pub fn TRANSIENT_ADDRESS_OTHER() -> (r: EnhancedReplyCode<&'static str>)
        ensures
            r.raw@ == seq!['4', '.', '1', '.', '0'],
            r.class == EnhancedReplyCodeClass::PersistentTransient,
            r.raw_subject == 1,
            r.raw_detail == 0,
    {
        proof {
            reveal_strlit("4.1.0");
        }
        EnhancedReplyCode {
            raw: "4.1.0",
            class: EnhancedReplyCodeClass::PersistentTransient,
            raw_subject: 1,
            raw_detail: 0,
        }
    }

    /// `5.1.0`
    pub fn PERMANENT_ADDRESS_OTHER() -> (r: EnhancedReplyCode<&'static str>)
        ensures
            r.raw@ == seq!['5', '.', '1', '.', '0'],
            r.class == EnhancedReplyCodeClass::PermanentFailure,
            r.raw_subject == 1,
            r.raw_detail == 0,
    {
        proof {
            reveal_strlit("5.1.0");
        }
        EnhancedReplyCode {
            raw: "5.1.0",
            class: EnhancedReplyCodeClass::PermanentFailure,
            raw_subject: 1,
            raw_detail: 0,
        }
    }

    /// `5.1.1`
    pub fn PERMANENT_BAD_DEST_MAILBOX() -> (r: EnhancedReplyCode<&'static str>)
        ensures
            r.raw@ == seq!['5', '.', '1', '.', '1'],
            r.class == EnhancedReplyCodeClass::PermanentFailure,
            r.raw_subject == 1,
            r.raw_detail == 1,
    {
        proof {
            reveal_strlit("5.1.1");
        }
        EnhancedReplyCode {
            raw: "5.1.1",
            class: EnhancedReplyCodeClass::PermanentFailure,
            raw_subject: 1,
            raw_detail: 1,
        }
    }

    /// `5.1.2`
    pub fn PERMANENT_BAD_DEST_SYSTEM() -> (r: EnhancedReplyCode<&'static str>)
        ensures
            r.raw@ == seq!['5', '.', '1', '.', '2'],
            r.class == EnhancedReplyCodeClass::PermanentFailure,
            r.raw_subject == 1,
            r.raw_detail == 2,
    {
        proof {
            reveal_strlit("5.1.2");
        }
        EnhancedReplyCode {
            raw: "5.1.2",
            class: EnhancedReplyCodeClass::PermanentFailure,
            raw_subject: 1,
            raw_detail: 2,
        }
    }

    /// `5.1.3`
    pub fn PERMANENT_BAD_DEST_MAILBOX_SYNTAX() -> (r: EnhancedReplyCode<&'static str>)
        ensures
            r.raw@ == seq!['5', '.', '1', '.', '3'],
            r.class == EnhancedReplyCodeClass::PermanentFailure,
            r.raw_subject == 1,
            r.raw_detail == 3,
    {
        proof {
            reveal_strlit("5.1.3");
        }
        EnhancedReplyCode {
            raw: "5.1.3",
            class: EnhancedReplyCodeClass::PermanentFailure,
            raw_subject: 1,
            raw_detail: 3,
        }
    }

    /// `2.1.4`
    pub fn SUCCESS_DEST_MAILBOX_AMBIGUOUS() -> (r: EnhancedReplyCode<&'static str>)
        ensures
            r.raw@ == seq!['2', '.', '1', '.', '4'],
            r.class == EnhancedReplyCodeClass::Success,
            r.raw_subject == 1,
            r.raw_detail == 4,
    {
        proof {
            reveal_strlit("2.1.4");
        }
        EnhancedReplyCode {
            raw: "2.1.4",
            class: EnhancedReplyCodeClass::Success,
            raw_subject: 1,
            raw_detail: 4,
        }
    }

    /// `4.1.4`
    pub fn TRANSIENT_DEST_MAILBOX_AMBIGUOUS() -> (r: EnhancedReplyCode<&'static str>)
        ensures
            r.raw@ == seq!['4', '.', '1', '.', '4'],
            r.class == EnhancedReplyCodeClass::PersistentTransient,
            r.raw_subject == 1,
            r.raw_detail == 4,
    {
        proof {
            reveal_strlit("4.1.4");
        }
        EnhancedReplyCode {
            raw: "4.1.4",
            class: EnhancedReplyCodeClass::PersistentTransient,
            raw_subject: 1,
            raw_detail: 4,
        }
    }

    /// `5.1.4`
    pub fn PERMANENT_DEST_MAILBOX_AMBIGUOUS() -> (r: EnhancedReplyCode<&'static str>)
        ensures
            r.raw@ == seq!['5', '.', '1', '.', '4'],
            r.class == EnhancedReplyCodeClass::PermanentFailure,
            r.raw_subject == 1,
            r.raw_detail == 4,
    {
        proof {
            reveal_strlit("5.1.4");
        }
        EnhancedReplyCode {
            raw: "5.1.4",
            class: EnhancedReplyCodeClass::PermanentFailure,
            raw_subject: 1,
            raw_detail: 4,
        }
    }

    /// `2.1.5`
    pub fn SUCCESS_DEST_VALID() -> (r: EnhancedReplyCode<&'static str>)
        ensures
            r.raw@ == seq!['2', '.', '1', '.', '5'],
            r.class == EnhancedReplyCodeClass::Success,
            r.raw_subject == 1,
            r.raw_detail == 5,
    {
        proof {
            reveal_strlit("2.1.5");
        }
        EnhancedReplyCode {
            raw: "2.1.5",
            class: EnhancedReplyCodeClass::Success,
            raw_subject: 1,
            raw_detail: 5,
        }
    }

    /// `5.1.6`
    pub fn PERMANENT_DEST_MAILBOX_HAS_MOVED() -> (r: EnhancedReplyCode<&'static str>)
        ensures
            r.raw@ == seq!['5', '.', '1', '.', '6'],
            r.class == EnhancedReplyCodeClass::PermanentFailure,
            r.raw_subject == 1,
            r.raw_detail == 6,
    {
        proof {
            reveal_strlit("5.1.6");
        }
        EnhancedReplyCode {
            raw: "5.1.6",
            class: EnhancedReplyCodeClass::PermanentFailure,
            raw_subject: 1,
            raw_detail: 6,
        }
    }

    /// `5.1.7`
    pub fn PERMANENT_BAD_SENDER_MAILBOX_SYNTAX() -> (r: EnhancedReplyCode<&'static str>)
        ensures
            r.raw@ == seq!['5', '.', '1', '.', '7'],
            r.class == EnhancedReplyCodeClass::PermanentFailure,
            r.raw_subject == 1,
            r.raw_detail == 7,
    {
        proof {
            reveal_strlit("5.1.7");
        }
        EnhancedReplyCode {
            raw: "5.1.7",
            class: EnhancedReplyCodeClass::PermanentFailure,
            raw_subject: 1,
            raw_detail: 7,
        }
    }

    /// `4.1.8`
    pub fn TRANSIENT_BAD_SENDER_SYSTEM() -> (r: EnhancedReplyCode<&'static str>)
        ensures
            r.raw@ == seq!['4', '.', '1', '.', '8'],
            r.class == EnhancedReplyCodeClass::PersistentTransient,
            r.raw_subject == 1,
            r.raw_detail == 8,
    {
        proof {
            reveal_strlit("4.1.8");
        }
        EnhancedReplyCode {
            raw: "4.1.8",
            class: EnhancedReplyCodeClass::PersistentTransient,
            raw_subject: 1,
            raw_detail: 8,
        }
    }

    /// `5.1.8`
    pub fn PERMANENT_BAD_SENDER_SYSTEM() -> (r: EnhancedReplyCode<&'static str>)
        ensures
            r.raw@ == seq!['5', '.', '1', '.', '8'],
            r.class == EnhancedReplyCodeClass::PermanentFailure,
            r.raw_subject == 1,
            r.raw_detail == 8,
    {
        proof {
            reveal_strlit("5.1.8");
        }
        EnhancedReplyCode {
            raw: "5.1.8",
            class: EnhancedReplyCodeClass::PermanentFailure,
            raw_subject: 1,
            raw_detail: 8,
        }
    }

    /// `2.1.9`
    pub fn SUCCESS_MESSAGE_RELAYED_TO_NON_COMPLIANT_MAILER() -> (r: EnhancedReplyCode<&'static str>)
        ensures
            r.raw@ == seq!['2', '.', '1', '.', '9'],
            r.class == EnhancedReplyCodeClass::Success,
            r.raw_subject == 1,
            r.raw_detail == 9,
    {
        proof {
            reveal_strlit("2.1.9");
        }
        EnhancedReplyCode {
            raw: "2.1.9",
            class: EnhancedReplyCodeClass::Success,
            raw_subject: 1,
            raw_detail: 9,
        }
    }

    /// `5.1.9`
    pub fn PERMANENT_MESSAGE_RELAYED_TO_NON_COMPLIANT_MAILER() -> (r: EnhancedReplyCode<&'static str>)
        ensures
            r.raw@ == seq!['5', '.', '1', '.', '9'],
            r.class == EnhancedReplyCodeClass::PermanentFailure,
            r.raw_subject == 1,
            r.raw_detail == 9,
    {
        proof {
            reveal_strlit("5.1.9");
        }
        EnhancedReplyCode {
            raw: "5.1.9",
            class: EnhancedReplyCodeClass::PermanentFailure,
            raw_subject: 1,
            raw_detail: 9,
        }
    }

    /// `5.1.10`
    pub fn PERMANENT_RECIPIENT_ADDRESS_HAS_NULL_MX() -> (r: EnhancedReplyCode<&'static str>)
        ensures
            r.raw@ == seq!['5', '.', '1', '.', '1', '0'],
            r.class == EnhancedReplyCodeClass::PermanentFailure,
            r.raw_subject == 1,
            r.raw_detail == 10,
    {
        proof {
            reveal_strlit("5.1.10");
        }
        EnhancedReplyCode {
            raw: "5.1.10",
            class: EnhancedReplyCodeClass::PermanentFailure,
            raw_subject: 1,
            raw_detail: 10,
        }
    }

    /// `2.2.0`
    pub fn SUCCESS_MAILBOX_OTHER() -> (r: EnhancedReplyCode<&'static str>)
        ensures
            r.raw@ == seq!['2', '.', '2', '.', '0'],
            r.class == EnhancedReplyCodeClass::Success,
            r.raw_subject == 2,
            r.raw_detail == 0,
    {
        proof {
            reveal_strlit("2.2.0");
        }
        EnhancedReplyCode {
            raw: "2.2.0",
            class: EnhancedReplyCodeClass::Success,
            raw_subject: 2,
            raw_detail: 0,
        }
    }

    /// `4.2.0`
    pub fn TRANSIENT_MAILBOX_OTHER() -> (r: EnhancedReplyCode<&'static str>)
        ensures
            r.raw@ == seq!['4', '.', '2', '.', '0'],
            r.class == EnhancedReplyCodeClass::PersistentTransient,
            r.raw_subject == 2,
            r.raw_detail == 0,
    {
        proof {
            reveal_strlit("4.2.0");
        }
        EnhancedReplyCode {
            raw: "4.2.0",
            class: EnhancedReplyCodeClass::PersistentTransient,
            raw_subject: 2,
            raw_detail: 0,
        }
    }

    /// `5.2.0`
    pub fn PERMANENT_MAILBOX_OTHER() -> (r: EnhancedReplyCode<&'static str>)
        ensures
            r.raw@ == seq!['5', '.', '2', '.', '0'],
            r.class == EnhancedReplyCodeClass::PermanentFailure,
            r.raw_subject == 2,
            r.raw_detail == 0,
    {
        proof {
            reveal_strlit("5.2.0");
        }
        EnhancedReplyCode {
            raw: "5.2.0",
            class: EnhancedReplyCodeClass::PermanentFailure,
            raw_subject: 2,
            raw_detail: 0,
        }
    }

    /// `4.2.1`
    pub fn TRANSIENT_MAILBOX_DISABLED() -> (r: EnhancedReplyCode<&'static str>)
        ensures
            r.raw@ == seq!['4', '.', '2', '.', '1'],
            r.class == EnhancedReplyCodeClass::PersistentTransient,
            r.raw_subject == 2,
            r.raw_detail == 1,
    {
        proof {
            reveal_strlit("4.2.1");
        }
        EnhancedReplyCode {
            raw: "4.2.1",
            class: EnhancedReplyCodeClass::PersistentTransient,
            raw_subject: 2,
            raw_detail: 1,
        }
    }

    /// `5.2.1`
    pub fn PERMANENT_MAILBOX_DISABLED() -> (r: EnhancedReplyCode<&'static str>)
        ensures
            r.raw@ == seq!['5', '.', '2', '.', '1'],
            r.class == EnhancedReplyCodeClass::PermanentFailure,
            r.raw_subject == 2,
            r.raw_detail == 1,
    {
        proof {
            reveal_strlit("5.2.1");
        }
        EnhancedReplyCode {
            raw: "5.2.1",
            class: EnhancedReplyCodeClass::PermanentFailure,
            raw_subject: 2,
            raw_detail: 1,
        }
    }

    /// `4.2.2`
    pub fn TRANSIENT_MAILBOX_FULL() -> (r: EnhancedReplyCode<&'static str>)
        ensures
            r.raw@ == seq!['4', '.', '2', '.', '2'],
            r.class == EnhancedReplyCodeClass::PersistentTransient,
            r.raw_subject == 2,
            r.raw_detail == 2,
    {
        proof {
            reveal_strlit("4.2.2");
        }
        EnhancedReplyCode {
            raw: "4.2.2",
            class: EnhancedReplyCodeClass::PersistentTransient,
            raw_subject: 2,
            raw_detail: 2,
        }
    }

    /// `5.2.3`
    pub fn PERMANENT_MESSAGE_TOO_LONG_FOR_MAILBOX() -> (r: EnhancedReplyCode<&'static str>)
        ensures
            r.raw@ == seq!['5', '.', '2', '.', '3'],
            r.class == EnhancedReplyCodeClass::PermanentFailure,
            r.raw_subject == 2,
            r.raw_detail == 3,
    {
        proof {
            reveal_strlit("5.2.3");
        }
        EnhancedReplyCode {
            raw: "5.2.3",
            class: EnhancedReplyCodeClass::PermanentFailure,
            raw_subject: 2,
            raw_detail: 3,
        }
    }

    /// `4.2.4`
    pub fn TRANSIENT_MAILING_LIST_EXPANSION_ISSUE() -> (r: EnhancedReplyCode<&'static str>)
        ensures
            r.raw@ == seq!['4', '.', '2', '.', '4'],
            r.class == EnhancedReplyCodeClass::PersistentTransient,
            r.raw_subject == 2,
            r.raw_detail == 4,
    {
        proof {
            reveal_strlit("4.2.4");
        }
        EnhancedReplyCode {
            raw: "4.2.4",
            class: EnhancedReplyCodeClass::PersistentTransient,
            raw_subject: 2,
            raw_detail: 4,
        }
    }

    /// `5.2.4`
    pub fn PERMANENT_MAILING_LIST_EXPANSION_ISSUE() -> (r: EnhancedReplyCode<&'static str>)
        ensures
            r.raw@ == seq!['5', '.', '2', '.', '4'],
            r.class == EnhancedReplyCodeClass::PermanentFailure,
            r.raw_subject == 2,
            r.raw_detail == 4,
    {
        proof {
            reveal_strlit("5.2.4");
        }
        EnhancedReplyCode {
            raw: "5.2.4",
            class: EnhancedReplyCodeClass::PermanentFailure,
            raw_subject: 2,
            raw_detail: 4,
        }
    }

    /// `2.3.0`
    pub fn SUCCESS_SYSTEM_OTHER() -> (r: EnhancedReplyCode<&'static str>)
        ensures
            r.raw@ == seq!['2', '.', '3', '.', '0'],
            r.class == EnhancedReplyCodeClass::Success,
            r.raw_subject == 3,
            r.raw_detail == 0,
    {
        proof {
            reveal_strlit("2.3.0");
        }
        EnhancedReplyCode {
            raw: "2.3.0",
            class: EnhancedReplyCodeClass::Success,
            raw_subject: 3,
            raw_detail: 0,
        }
    }

    /// `4.3.0`
    pub fn TRANSIENT_SYSTEM_OTHER() -> (r: EnhancedReplyCode<&'static str>)
        ensures
            r.raw@ == seq!['4', '.', '3', '.', '0'],
            r.class == EnhancedReplyCodeClass::PersistentTransient,
            r.raw_subject == 3,
            r.raw_detail == 0,
    {
        proof {
            reveal_strlit("4.3.0");
        }
        EnhancedReplyCode {
            raw: "4.3.0",
            class: EnhancedReplyCodeClass::PersistentTransient,
            raw_subject: 3,
            raw_detail: 0,
        }
    }

    /// `5.3.0`
    pub fn PERMANENT_SYSTEM_OTHER() -> (r: EnhancedReplyCode<&'static str>)
        ensures
            r.raw@ == seq!['5', '.', '3', '.', '0'],
            r.class == EnhancedReplyCodeClass::PermanentFailure,
            r.raw_subject == 3,
            r.raw_detail == 0,
    {
        proof {
            reveal_strlit("5.3.0");
        }
        EnhancedReplyCode {
            raw: "5.3.0",
            class: EnhancedReplyCodeClass::PermanentFailure,
            raw_subject: 3,
            raw_detail: 0,
        }
    }

    /// `4.3.1`
    pub fn TRANSIENT_SYSTEM_FULL() -> (r: EnhancedReplyCode<&'static str>)
        ensures
            r.raw@ == seq!['4', '.', '3', '.', '1'],
            r.class == EnhancedReplyCodeClass::PersistentTransient,
            r.raw_subject == 3,
            r.raw_detail == 1,
    {
        proof {
            reveal_strlit("4.3.1");
        }
        EnhancedReplyCode {
            raw: "4.3.1",
            class: EnhancedReplyCodeClass::PersistentTransient,
            raw_subject: 3,
            raw_detail: 1,
        }
    }

    /// `4.3.2`
    pub fn TRANSIENT_SYSTEM_NOT_ACCEPTING_MESSAGES() -> (r: EnhancedReplyCode<&'static str>)
        ensures
            r.raw@ == seq!['4', '.', '3', '.', '2'],
            r.class == EnhancedReplyCodeClass::PersistentTransient,
            r.raw_subject == 3,
            r.raw_detail == 2,
    {
        proof {
            reveal_strlit("4.3.2");
        }
        EnhancedReplyCode {
            raw: "4.3.2",
            class: EnhancedReplyCodeClass::PersistentTransient,
            raw_subject: 3,
            raw_detail: 2,
        }
    }

    /// `5.3.2`
    pub fn PERMANENT_SYSTEM_NOT_ACCEPTING_MESSAGES() -> (r: EnhancedReplyCode<&'static str>)
        ensures
            r.raw@ == seq!['5', '.', '3', '.', '2'],
            r.class == EnhancedReplyCodeClass::PermanentFailure,
            r.raw_subject == 3,
            r.raw_detail == 2,
    {
        proof {
            reveal_strlit("5.3.2");
        }
        EnhancedReplyCode {
            raw: "5.3.2",
            class: EnhancedReplyCodeClass::PermanentFailure,
            raw_subject: 3,
            raw_detail: 2,
        }
    }

    /// `4.3.3`
    pub fn TRANSIENT_SYSTEM_INCAPABLE_OF_FEATURE() -> (r: EnhancedReplyCode<&'static str>)
        ensures
            r.raw@ == seq!['4', '.', '3', '.', '3'],
            r.class == EnhancedReplyCodeClass::PersistentTransient,
            r.raw_subject == 3,
            r.raw_detail == 3,
    {
        proof {
            reveal_strlit("4.3.3");
        }
        EnhancedReplyCode {
            raw: "4.3.3",
            class: EnhancedReplyCodeClass::PersistentTransient,
            raw_subject: 3,
            raw_detail: 3,
        }
    }

    /// `5.3.3`
    pub fn PERMANENT_SYSTEM_INCAPABLE_OF_FEATURE() -> (r: EnhancedReplyCode<&'static str>)
        ensures
            r.raw@ == seq!['5', '.', '3', '.', '3'],
            r.class == EnhancedReplyCodeClass::PermanentFailure,
            r.raw_subject == 3,
            r.raw_detail == 3,
    {
        proof {
            reveal_strlit("5.3.3");
        }
        EnhancedReplyCode {
            raw: "5.3.3",
            class: EnhancedReplyCodeClass::PermanentFailure,
            raw_subject: 3,
            raw_detail: 3,
        }
    }

    /// `5.3.4`
    pub fn PERMANENT_MESSAGE_TOO_BIG() -> (r: EnhancedReplyCode<&'static str>)
        ensures
            r.raw@ == seq!['5', '.', '3', '.', '4'],
            r.class == EnhancedReplyCodeClass::PermanentFailure,
            r.raw_subject == 3,
            r.raw_detail == 4,
    {
        proof {
            reveal_strlit("5.3.4");
        }
        EnhancedReplyCode {
            raw: "5.3.4",
            class: EnhancedReplyCodeClass::PermanentFailure,
            raw_subject: 3,
            raw_detail: 4,
        }
    }

    /// `4.3.5`
    pub fn TRANSIENT_SYSTEM_INCORRECTLY_CONFIGURED() -> (r: EnhancedReplyCode<&'static str>)
        ensures
            r.raw@ == seq!['4', '.', '3', '.', '5'],
            r.class == EnhancedReplyCodeClass::PersistentTransient,
            r.raw_subject == 3,
            r.raw_detail == 5,
    {
        proof {
            reveal_strlit("4.3.5");
        }
        EnhancedReplyCode {
            raw: "4.3.5",
            class: EnhancedReplyCodeClass::PersistentTransient,
            raw_subject: 3,
            raw_detail: 5,
        }
    }

    /// `5.3.5`
    pub fn PERMANENT_SYSTEM_INCORRECTLY_CONFIGURED() -> (r: EnhancedReplyCode<&'static str>)
        ensures
            r.raw@ == seq!['5', '.', '3', '.', '5'],
            r.class == EnhancedReplyCodeClass::PermanentFailure,
            r.raw_subject == 3,
            r.raw_detail == 5,
    {
        proof {
            reveal_strlit("5.3.5");
        }
        EnhancedReplyCode {
            raw: "5.3.5",
            class: EnhancedReplyCodeClass::PermanentFailure,
            raw_subject: 3,
            raw_detail: 5,
        }
    }

    /// `2.3.6`
    pub fn SUCCESS_REQUESTED_PRIORITY_WAS_CHANGED() -> (r: EnhancedReplyCode<&'static str>)
        ensures
            r.raw@ == seq!['2', '.', '3', '.', '6'],
            r.class == EnhancedReplyCodeClass::Success,
            r.raw_subject == 3,
            r.raw_detail == 6,
    {
        proof {
            reveal_strlit("2.3.6");
        }
        EnhancedReplyCode {
            raw: "2.3.6",
            class: EnhancedReplyCodeClass::Success,
            raw_subject: 3,
            raw_detail: 6,
        }
    }

    /// `2.4.0`
    pub fn SUCCESS_NETWORK_OTHER() -> (r: EnhancedReplyCode<&'static str>)
        ensures
            r.raw@ == seq!['2', '.', '4', '.', '0'],
            r.class == EnhancedReplyCodeClass::Success,
            r.raw_subject == 4,
            r.raw_detail == 0,
    {
        proof {
            reveal_strlit("2.4.0");
        }
        EnhancedReplyCode {
            raw: "2.4.0",
            class: EnhancedReplyCodeClass::Success,
            raw_subject: 4,
            raw_detail: 0,
        }
    }

    /// `4.4.0`
    pub fn TRANSIENT_NETWORK_OTHER() -> (r: EnhancedReplyCode<&'static str>)
        ensures
            r.raw@ == seq!['4', '.', '4', '.', '0'],
            r.class == EnhancedReplyCodeClass::PersistentTransient,
            r.raw_subject == 4,
            r.raw_detail == 0,
    {
        proof {
            reveal_strlit("4.4.0");
        }
        EnhancedReplyCode {
            raw: "4.4.0",
            class: EnhancedReplyCodeClass::PersistentTransient,
            raw_subject: 4,
            raw_detail: 0,
        }
    }

    /// `5.4.0`
    pub fn PERMANENT_NETWORK_OTHER() -> (r: EnhancedReplyCode<&'static str>)
        ensures
            r.raw@ == seq!['5', '.', '4', '.', '0'],
            r.class == EnhancedReplyCodeClass::PermanentFailure,
            r.raw_subject == 4,
            r.raw_detail == 0,
    {
        proof {
            reveal_strlit("5.4.0");
        }
        EnhancedReplyCode {
            raw: "5.4.0",
            class: EnhancedReplyCodeClass::PermanentFailure,
            raw_subject: 4,
            raw_detail: 0,
        }
    }

    /// `4.4.1`
    pub fn TRANSIENT_NO_ANSWER_FROM_HOST() -> (r: EnhancedReplyCode<&'static str>)
        ensures
            r.raw@ == seq!['4', '.', '4', '.', '1'],
            r.class == EnhancedReplyCodeClass::PersistentTransient,
            r.raw_subject == 4,
            r.raw_detail == 1,
    {
        proof {
            reveal_strlit("4.4.1");
        }
        EnhancedReplyCode {
            raw: "4.4.1",
            class: EnhancedReplyCodeClass::PersistentTransient,
            raw_subject: 4,
            raw_detail: 1,
        }
    }

    /// `4.4.2`
    pub fn TRANSIENT_BAD_CONNECTION() -> (r: EnhancedReplyCode<&'static str>)
        ensures
            r.raw@ == seq!['4', '.', '4', '.', '2'],
            r.class == EnhancedReplyCodeClass::PersistentTransient,
            r.raw_subject == 4,
            r.raw_detail == 2,
    {
        proof {
            reveal_strlit("4.4.2");
        }
        EnhancedReplyCode {
            raw: "4.4.2",
            class: EnhancedReplyCodeClass::PersistentTransient,
            raw_subject: 4,
            raw_detail: 2,
        }
    }

    /// `4.4.3`
    pub fn TRANSIENT_DIRECTORY_SERVER_FAILURE() -> (r: EnhancedReplyCode<&'static str>)
        ensures
            r.raw@ == seq!['4', '.', '4', '.', '3'],
            r.class == EnhancedReplyCodeClass::PersistentTransient,
            r.raw_subject == 4,
            r.raw_detail == 3,
    {
        proof {
            reveal_strlit("4.4.3");
        }
        EnhancedReplyCode {
            raw: "4.4.3",
            class: EnhancedReplyCodeClass::PersistentTransient,
            raw_subject: 4,
            raw_detail: 3,
        }
    }

    /// `4.4.4`
    pub fn TRANSIENT_UNABLE_TO_ROUTE() -> (r: EnhancedReplyCode<&'static str>)
        ensures
            r.raw@ == seq!['4', '.', '4', '.', '4'],
            r.class == EnhancedReplyCodeClass::PersistentTransient,
            r.raw_subject == 4,
            r.raw_detail == 4,
    {
        proof {
            reveal_strlit("4.4.4");
        }
        EnhancedReplyCode {
            raw: "4.4.4",
            class: EnhancedReplyCodeClass::PersistentTransient,
            raw_subject: 4,
            raw_detail: 4,
        }
    }

    /// `5.4.4`
    pub fn PERMANENT_UNABLE_TO_ROUTE() -> (r: EnhancedReplyCode<&'static str>)
        ensures
            r.raw@ == seq!['5', '.', '4', '.', '4'],
            r.class == EnhancedReplyCodeClass::PermanentFailure,
            r.raw_subject == 4,
            r.raw_detail == 4,
    {
        proof {
            reveal_strlit("5.4.4");
        }
        EnhancedReplyCode {
            raw: "5.4.4",
            class: EnhancedReplyCodeClass::PermanentFailure,
            raw_subject: 4,
            raw_detail: 4,
        }
    }

    /// `4.4.5`
    pub fn TRANSIENT_SYSTEM_CONGESTION() -> (r: EnhancedReplyCode<&'static str>)
        ensures
            r.raw@ == seq!['4', '.', '4', '.', '5'],
            r.class == EnhancedReplyCodeClass::PersistentTransient,
            r.raw_subject == 4,
            r.raw_detail == 5,
    {
        proof {
            reveal_strlit("4.4.5");
        }
        EnhancedReplyCode {
            raw: "4.4.5",
            class: EnhancedReplyCodeClass::PersistentTransient,
            raw_subject: 4,
            raw_detail: 5,
        }
    }

    /// `4.4.6`
    pub fn TRANSIENT_ROUTING_LOOP_DETECTED() -> (r: EnhancedReplyCode<&'static str>)
        ensures
            r.raw@ == seq!['4', '.', '4', '.', '6'],
            r.class == EnhancedReplyCodeClass::PersistentTransient,
            r.raw_subject == 4,
            r.raw_detail == 6,
    {
        proof {
            reveal_strlit("4.4.6");
        }
        EnhancedReplyCode {
            raw: "4.4.6",
            class: EnhancedReplyCodeClass::PersistentTransient,
            raw_subject: 4,
            raw_detail: 6,
        }
    }

    /// `4.4.7`
    pub fn TRANSIENT_DELIVERY_TIME_EXPIRED() -> (r: EnhancedReplyCode<&'static str>)
        ensures
            r.raw@ == seq!['4', '.', '4', '.', '7'],
            r.class == EnhancedReplyCodeClass::PersistentTransient,
            r.raw_subject == 4,
            r.raw_detail == 7,
    {
        proof {
            reveal_strlit("4.4.7");
        }
        EnhancedReplyCode {
            raw: "4.4.7",
            class: EnhancedReplyCodeClass::PersistentTransient,
            raw_subject: 4,
            raw_detail: 7,
        }
    }

    /// `5.4.7`
    pub fn PERMANENT_DELIVERY_TIME_EXPIRED() -> (r: EnhancedReplyCode<&'static str>)
        ensures
            r.raw@ == seq!['5', '.', '4', '.', '7'],
            r.class == EnhancedReplyCodeClass::PermanentFailure,
            r.raw_subject == 4,
            r.raw_detail == 7,
    {
        proof {
            reveal_strlit("5.4.7");
        }
        EnhancedReplyCode {
            raw: "5.4.7",
            class: EnhancedReplyCodeClass::PermanentFailure,
            raw_subject: 4,
            raw_detail: 7,
        }
    }

    /// `2.5.0`
    pub fn SUCCESS_DELIVERY_OTHER() -> (r: EnhancedReplyCode<&'static str>)
        ensures
            r.raw@ == seq!['2', '.', '5', '.', '0'],
            r.class == EnhancedReplyCodeClass::Success,
            r.raw_subject == 5,
            r.raw_detail == 0,
    {
        proof {
            reveal_strlit("2.5.0");
        }
        EnhancedReplyCode {
            raw: "2.5.0",
            class: EnhancedReplyCodeClass::Success,
            raw_subject: 5,
            raw_detail: 0,
        }
    }

    /// `4.5.0`
    pub fn TRANSIENT_DELIVERY_OTHER() -> (r: EnhancedReplyCode<&'static str>)
        ensures
            r.raw@ == seq!['4', '.', '5', '.', '0'],
            r.class == EnhancedReplyCodeClass::PersistentTransient,
            r.raw_subject == 5,
            r.raw_detail == 0,
    {
        proof {
            reveal_strlit("4.5.0");
        }
        EnhancedReplyCode {
            raw: "4.5.0",
            class: EnhancedReplyCodeClass::PersistentTransient,
            raw_subject: 5,
            raw_detail: 0,
        }
    }

    /// `5.5.0`
    pub fn PERMANENT_DELIVERY_OTHER() -> (r: EnhancedReplyCode<&'static str>)
        ensures
            r.raw@ == seq!['5', '.', '5', '.', '0'],
            r.class == EnhancedReplyCodeClass::PermanentFailure,
            r.raw_subject == 5,
            r.raw_detail == 0,
    {
        proof {
            reveal_strlit("5.5.0");
        }
        EnhancedReplyCode {
            raw: "5.5.0",
            class: EnhancedReplyCodeClass::PermanentFailure,
            raw_subject: 5,
            raw_detail: 0,
        }
    }

    /// `5.5.1`
    pub fn PERMANENT_INVALID_COMMAND() -> (r: EnhancedReplyCode<&'static str>)
        ensures
            r.raw@ == seq!['5', '.', '5', '.', '1'],
            r.class == EnhancedReplyCodeClass::PermanentFailure,
            r.raw_subject == 5,
            r.raw_detail == 1,
    {
        proof {
            reveal_strlit("5.5.1");
        }
        EnhancedReplyCode {
            raw: "5.5.1",
            class: EnhancedReplyCodeClass::PermanentFailure,
            raw_subject: 5,
            raw_detail: 1,
        }
    }

    /// `5.5.2`
    pub fn PERMANENT_SYNTAX_ERROR() -> (r: EnhancedReplyCode<&'static str>)
        ensures
            r.raw@ == seq!['5', '.', '5', '.', '2'],
            r.class == EnhancedReplyCodeClass::PermanentFailure,
            r.raw_subject == 5,
            r.raw_detail == 2,
    {
        proof {
            reveal_strlit("5.5.2");
        }
        EnhancedReplyCode {
            raw: "5.5.2",
            class: EnhancedReplyCodeClass::PermanentFailure,
            raw_subject: 5,
            raw_detail: 2,
        }
    }

    /// `4.5.3`
    pub fn TRANSIENT_TOO_MANY_RECIPIENTS() -> (r: EnhancedReplyCode<&'static str>)
        ensures
            r.raw@ == seq!['4', '.', '5', '.', '3'],
            r.class == EnhancedReplyCodeClass::PersistentTransient,
            r.raw_subject == 5,
            r.raw_detail == 3,
    {
        proof {
            reveal_strlit("4.5.3");
        }
        EnhancedReplyCode {
            raw: "4.5.3",
            class: EnhancedReplyCodeClass::PersistentTransient,
            raw_subject: 5,
            raw_detail: 3,
        }
    }

    /// `5.5.3`
    pub fn PERMANENT_TOO_MANY_RECIPIENTS() -> (r: EnhancedReplyCode<&'static str>)
        ensures
            r.raw@ == seq!['5', '.', '5', '.', '3'],
            r.class == EnhancedReplyCodeClass::PermanentFailure,
            r.raw_subject == 5,
            r.raw_detail == 3,
    {
        proof {
            reveal_strlit("5.5.3");
        }
        EnhancedReplyCode {
            raw: "5.5.3",
            class: EnhancedReplyCodeClass::PermanentFailure,
            raw_subject: 5,
            raw_detail: 3,
        }
    }

    /// `5.5.4`
    pub fn PERMANENT_INVALID_COMMAND_ARGUMENTS() -> (r: EnhancedReplyCode<&'static str>)
        ensures
            r.raw@ == seq!['5', '.', '5', '.', '4'],
            r.class == EnhancedReplyCodeClass::PermanentFailure,
            r.raw_subject == 5,
            r.raw_detail == 4,
    {
        proof {
            reveal_strlit("5.5.4");
        }
        EnhancedReplyCode {
            raw: "5.5.4",
            class: EnhancedReplyCodeClass::PermanentFailure,
            raw_subject: 5,
            raw_detail: 4,
        }
    }

    /// `4.5.5`
    pub fn TRANSIENT_WRONG_PROTOCOL_VERSION() -> (r: EnhancedReplyCode<&'static str>)
        ensures
            r.raw@ == seq!['4', '.', '5', '.', '5'],
            r.class == EnhancedReplyCodeClass::PersistentTransient,
            r.raw_subject == 5,
            r.raw_detail == 5,
    {
        proof {
            reveal_strlit("4.5.5");
        }
        EnhancedReplyCode {
            raw: "4.5.5",
            class: EnhancedReplyCodeClass::PersistentTransient,
            raw_subject: 5,
            raw_detail: 5,
        }
    }

    /// `5.5.5`
    pub fn PERMANENT_WRONG_PROTOCOL_VERSION() -> (r: EnhancedReplyCode<&'static str>)
        ensures
            r.raw@ == seq!['5', '.', '5', '.', '5'],
            r.class == EnhancedReplyCodeClass::PermanentFailure,
            r.raw_subject == 5,
            r.raw_detail == 5,
    {
        proof {
            reveal_strlit("5.5.5");
        }
        EnhancedReplyCode {
            raw: "5.5.5",
            class: EnhancedReplyCodeClass::PermanentFailure,
            raw_subject: 5,
            raw_detail: 5,
        }
    }

    /// `4.5.6`
    pub fn TRANSIENT_AUTH_EXCHANGE_LINE_TOO_LONG() -> (r: EnhancedReplyCode<&'static str>)
        ensures
            r.raw@ == seq!['4', '.', '5', '.', '6'],
            r.class == EnhancedReplyCodeClass::PersistentTransient,
            r.raw_subject == 5,
            r.raw_detail == 6,
    {
        proof {
            reveal_strlit("4.5.6");
        }
        EnhancedReplyCode {
            raw: "4.5.6",
            class: EnhancedReplyCodeClass::PersistentTransient,
            raw_subject: 5,
            raw_detail: 6,
        }
    }

    /// `5.5.6`
    pub fn PERMANENT_AUTH_EXCHANGE_LINE_TOO_LONG() -> (r: EnhancedReplyCode<&'static str>)
        ensures
            r.raw@ == seq!['5', '.', '5', '.', '6'],
            r.class == EnhancedReplyCodeClass::PermanentFailure,
            r.raw_subject == 5,
            r.raw_detail == 6,
    {
        proof {
            reveal_strlit("5.5.6");
        }
        EnhancedReplyCode {
            raw: "5.5.6",
            class: EnhancedReplyCodeClass::PermanentFailure,
            raw_subject: 5,
            raw_detail: 6,
        }
    }

    /// `2.6.0`
    pub fn SUCCESS_CONTENT_OTHER() -> (r: EnhancedReplyCode<&'static str>)
        ensures
            r.raw@ == seq!['2', '.', '6', '.', '0'],
            r.class == EnhancedReplyCodeClass::Success,
            r.raw_subject == 6,
            r.raw_detail == 0,
    {
        proof {
            reveal_strlit("2.6.0");
        }
        EnhancedReplyCode {
            raw: "2.6.0",
            class: EnhancedReplyCodeClass::Success,
            raw_subject: 6,
            raw_detail: 0,
        }
    }

    /// `4.6.0`
    pub fn TRANSIENT_CONTENT_OTHER() -> (r: EnhancedReplyCode<&'static str>)
        ensures
            r.raw@ == seq!['4', '.', '6', '.', '0'],
            r.class == EnhancedReplyCodeClass::PersistentTransient,
            r.raw_subject == 6,
            r.raw_detail == 0,
    {
        proof {
            reveal_strlit("4.6.0");
        }
        EnhancedReplyCode {
            raw: "4.6.0",
            class: EnhancedReplyCodeClass::PersistentTransient,
            raw_subject: 6,
            raw_detail: 0,
        }
    }

    /// `5.6.0`
    pub fn PERMANENT_CONTENT_OTHER() -> (r: EnhancedReplyCode<&'static str>)
        ensures
            r.raw@ == seq!['5', '.', '6', '.', '0'],
            r.class == EnhancedReplyCodeClass::PermanentFailure,
            r.raw_subject == 6,
            r.raw_detail == 0,
    {
        proof {
            reveal_strlit("5.6.0");
        }
        EnhancedReplyCode {
            raw: "5.6.0",
            class: EnhancedReplyCodeClass::PermanentFailure,
            raw_subject: 6,
            raw_detail: 0,
        }
    }

    /// `5.6.1`
    pub fn PERMANENT_MEDIA_NOT_SUPPORTED() -> (r: EnhancedReplyCode<&'static str>)
        ensures
            r.raw@ == seq!['5', '.', '6', '.', '1'],
            r.class == EnhancedReplyCodeClass::PermanentFailure,
            r.raw_subject == 6,
            r.raw_detail == 1,
    {
        proof {
            reveal_strlit("5.6.1");
        }
        EnhancedReplyCode {
            raw: "5.6.1",
            class: EnhancedReplyCodeClass::PermanentFailure,
            raw_subject: 6,
            raw_detail: 1,
        }
    }

    /// `4.6.2`
    pub fn TRANSIENT_CONVERSION_REQUIRED_AND_PROHIBITED() -> (r: EnhancedReplyCode<&'static str>)
        ensures
            r.raw@ == seq!['4', '.', '6', '.', '2'],
            r.class == EnhancedReplyCodeClass::PersistentTransient,
            r.raw_subject == 6,
            r.raw_detail == 2,
    {
        proof {
            reveal_strlit("4.6.2");
        }
        EnhancedReplyCode {
            raw: "4.6.2",
            class: EnhancedReplyCodeClass::PersistentTransient,
            raw_subject: 6,
            raw_detail: 2,
        }
    }

    /// `5.6.2`
    pub fn PERMANENT_CONVERSION_REQUIRED_AND_PROHIBITED() -> (r: EnhancedReplyCode<&'static str>)
        ensures
            r.raw@ == seq!['5', '.', '6', '.', '2'],
            r.class == EnhancedReplyCodeClass::PermanentFailure,
            r.raw_subject == 6,
            r.raw_detail == 2,
    {
        proof {
            reveal_strlit("5.6.2");
        }
        EnhancedReplyCode {
            raw: "5.6.2",
            class: EnhancedReplyCodeClass::PermanentFailure,
            raw_subject: 6,
            raw_detail: 2,
        }
    }

    /// `4.6.3`
    pub fn TRANSIENT_CONVERSION_REQUIRED_BUT_NOT_SUPPORTED() -> (r: EnhancedReplyCode<&'static str>)
        ensures
            r.raw@ == seq!['4', '.', '6', '.', '3'],
            r.class == EnhancedReplyCodeClass::PersistentTransient,
            r.raw_subject == 6,
            r.raw_detail == 3,
    {
        proof {
            reveal_strlit("4.6.3");
        }
        EnhancedReplyCode {
            raw: "4.6.3",
            class: EnhancedReplyCodeClass::PersistentTransient,
            raw_subject: 6,
            raw_detail: 3,
        }
    }

    /// `5.6.3`
    pub fn PERMANENT_CONVERSION_REQUIRED_BUT_NOT_SUPPORTED() -> (r: EnhancedReplyCode<&'static str>)
        ensures
            r.raw@ == seq!['5', '.', '6', '.', '3'],
            r.class == EnhancedReplyCodeClass::PermanentFailure,
            r.raw_subject == 6,
            r.raw_detail == 3,
    {
        proof {
            reveal_strlit("5.6.3");
        }
        EnhancedReplyCode {
            raw: "5.6.3",
            class: EnhancedReplyCodeClass::PermanentFailure,
            raw_subject: 6,
            raw_detail: 3,
        }
    }

    /// `2.6.4`
    pub fn SUCCESS_CONVERSION_WITH_LOSS_PERFORMED() -> (r: EnhancedReplyCode<&'static str>)
        ensures
            r.raw@ == seq!['2', '.', '6', '.', '4'],
            r.class == EnhancedReplyCodeClass::Success,
            r.raw_subject == 6,
            r.raw_detail == 4,
    {
        proof {
            reveal_strlit("2.6.4");
        }
        EnhancedReplyCode {
            raw: "2.6.4",
            class: EnhancedReplyCodeClass::Success,
            raw_subject: 6,
            raw_detail: 4,
        }
    }

    /// `4.6.4`
    pub fn TRANSIENT_CONVERSION_WITH_LOSS_PERFORMED() -> (r: EnhancedReplyCode<&'static str>)
        ensures
            r.raw@ == seq!['4', '.', '6', '.', '4'],
            r.class == EnhancedReplyCodeClass::PersistentTransient,
            r.raw_subject == 6,
            r.raw_detail == 4,
    {
        proof {
            reveal_strlit("4.6.4");
        }
        EnhancedReplyCode {
            raw: "4.6.4",
            class: EnhancedReplyCodeClass::PersistentTransient,
            raw_subject: 6,
            raw_detail: 4,
        }
    }

    /// `5.6.4`
    pub fn PERMANENT_CONVERSION_WITH_LOSS_PERFORMED() -> (r: EnhancedReplyCode<&'static str>)
        ensures
            r.raw@ == seq!['5', '.', '6', '.', '4'],
            r.class == EnhancedReplyCodeClass::PermanentFailure,
            r.raw_subject == 6,
            r.raw_detail == 4,
    {
        proof {
            reveal_strlit("5.6.4");
        }
        EnhancedReplyCode {
            raw: "5.6.4",
            class: EnhancedReplyCodeClass::PermanentFailure,
            raw_subject: 6,
            raw_detail: 4,
        }
    }

    /// `4.6.5`
    pub fn TRANSIENT_CONVERSION_FAILED() -> (r: EnhancedReplyCode<&'static str>)
        ensures
            r.raw@ == seq!['4', '.', '6', '.', '5'],
            r.class == EnhancedReplyCodeClass::PersistentTransient,
            r.raw_subject == 6,
            r.raw_detail == 5,
    {
        proof {
            reveal_strlit("4.6.5");
        }
        EnhancedReplyCode {
            raw: "4.6.5",
            class: EnhancedReplyCodeClass::PersistentTransient,
            raw_subject: 6,
            raw_detail: 5,
        }
    }

    /// `5.6.5`
    pub fn PERMANENT_CONVERSION_FAILED() -> (r: EnhancedReplyCode<&'static str>)
        ensures
            r.raw@ == seq!['5', '.', '6', '.', '5'],
            r.class == EnhancedReplyCodeClass::PermanentFailure,
            r.raw_subject == 6,
            r.raw_detail == 5,
    {
        proof {
            reveal_strlit("5.6.5");
        }
        EnhancedReplyCode {
            raw: "5.6.5",
            class: EnhancedReplyCodeClass::PermanentFailure,
            raw_subject: 6,
            raw_detail: 5,
        }
    }

    /// `4.6.6`
    pub fn TRANSIENT_MESSAGE_CONTENT_NOT_AVAILABLE() -> (r: EnhancedReplyCode<&'static str>)
        ensures
            r.raw@ == seq!['4', '.', '6', '.', '6'],
            r.class == EnhancedReplyCodeClass::PersistentTransient,
            r.raw_subject == 6,
            r.raw_detail == 6,
    {
        proof {
            reveal_strlit("4.6.6");
        }
        EnhancedReplyCode {
            raw: "4.6.6",
            class: EnhancedReplyCodeClass::PersistentTransient,
            raw_subject: 6,
            raw_detail: 6,
        }
    }

    /// `5.6.6`
    pub fn PERMANENT_MESSAGE_CONTENT_NOT_AVAILABLE() -> (r: EnhancedReplyCode<&'static str>)
        ensures
            r.raw@ == seq!['5', '.', '6', '.', '6'],
            r.class == EnhancedReplyCodeClass::PermanentFailure,
            r.raw_subject == 6,
            r.raw_detail == 6,
    {
        proof {
            reveal_strlit("5.6.6");
        }
        EnhancedReplyCode {
            raw: "5.6.6",
            class: EnhancedReplyCodeClass::PermanentFailure,
            raw_subject: 6,
            raw_detail: 6,
        }
    }

    /// `5.6.7`
    pub fn PERMANENT_NON_ASCII_ADDRESSES_NOT_PERMITTED() -> (r: EnhancedReplyCode<&'static str>)
        ensures
            r.raw@ == seq!['5', '.', '6', '.', '7'],
            r.class == EnhancedReplyCodeClass::PermanentFailure,
            r.raw_subject == 6,
            r.raw_detail == 7,
    {
        proof {
            reveal_strlit("5.6.7");
        }
        EnhancedReplyCode {
            raw: "5.6.7",
            class: EnhancedReplyCodeClass::PermanentFailure,
            raw_subject: 6,
            raw_detail: 7,
        }
    }

    /// `2.6.8`
    pub fn SUCCESS_UTF8_WOULD_BE_REQUIRED() -> (r: EnhancedReplyCode<&'static str>)
        ensures
            r.raw@ == seq!['2', '.', '6', '.', '8'],
            r.class == EnhancedReplyCodeClass::Success,
            r.raw_subject == 6,
            r.raw_detail == 8,
    {
        proof {
            reveal_strlit("2.6.8");
        }
        EnhancedReplyCode {
            raw: "2.6.8",
            class: EnhancedReplyCodeClass::Success,
            raw_subject: 6,
            raw_detail: 8,
        }
    }

    /// `4.6.8`
    pub fn TRANSIENT_UTF8_WOULD_BE_REQUIRED() -> (r: EnhancedReplyCode<&'static str>)
        ensures
            r.raw@ == seq!['4', '.', '6', '.', '8'],
            r.class == EnhancedReplyCodeClass::PersistentTransient,
            r.raw_subject == 6,
            r.raw_detail == 8,
    {
        proof {
            reveal_strlit("4.6.8");
        }
        EnhancedReplyCode {
            raw: "4.6.8",
            class: EnhancedReplyCodeClass::PersistentTransient,
            raw_subject: 6,
            raw_detail: 8,
        }
    }

    /// `5.6.8`
    pub fn PERMANENT_UTF8_WOULD_BE_REQUIRED() -> (r: EnhancedReplyCode<&'static str>)
        ensures
            r.raw@ == seq!['5', '.', '6', '.', '8'],
            r.class == EnhancedReplyCodeClass::PermanentFailure,
            r.raw_subject == 6,
            r.raw_detail == 8,
    {
        proof {
            reveal_strlit("5.6.8");
        }
        EnhancedReplyCode {
            raw: "5.6.8",
            class: EnhancedReplyCodeClass::PermanentFailure,
            raw_subject: 6,
            raw_detail: 8,
        }
    }

    /// `5.6.9`
    pub fn PERMANENT_UTF8_MESSAGE_CANNOT_BE_TRANSMITTED() -> (r: EnhancedReplyCode<&'static str>)
        ensures
            r.raw@ == seq!['5', '.', '6', '.', '9'],
            r.class == EnhancedReplyCodeClass::PermanentFailure,
            r.raw_subject == 6,
            r.raw_detail == 9,
    {
        proof {
            reveal_strlit("5.6.9");
        }
        EnhancedReplyCode {
            raw: "5.6.9",
            class: EnhancedReplyCodeClass::PermanentFailure,
            raw_subject: 6,
            raw_detail: 9,
        }
    }

    /// `2.6.10`
    pub fn SUCCESS_UTF8_WOULD_BE_REQUIRED_BIS() -> (r: EnhancedReplyCode<&'static str>)
        ensures
            r.raw@ == seq!['2', '.', '6', '.', '1', '0'],
            r.class == EnhancedReplyCodeClass::Success,
            r.raw_subject == 6,
            r.raw_detail == 10,
    {
        proof {
            reveal_strlit("2.6.10");
        }
        EnhancedReplyCode {
            raw: "2.6.10",
            class: EnhancedReplyCodeClass::Success,
            raw_subject: 6,
            raw_detail: 10,
        }
    }

    /// `4.6.10`
    pub fn TRANSIENT_UTF8_WOULD_BE_REQUIRED_BIS() -> (r: EnhancedReplyCode<&'static str>)
        ensures
            r.raw@ == seq!['4', '.', '6', '.', '1', '0'],
            r.class == EnhancedReplyCodeClass::PersistentTransient,
            r.raw_subject == 6,
            r.raw_detail == 10,
    {
        proof {
            reveal_strlit("4.6.10");
        }
        EnhancedReplyCode {
            raw: "4.6.10",
            class: EnhancedReplyCodeClass::PersistentTransient,
            raw_subject: 6,
            raw_detail: 10,
        }
    }

    /// `5.6.10`
    pub fn PERMANENT_UTF8_WOULD_BE_REQUIRED_BIS() -> (r: EnhancedReplyCode<&'static str>)
        ensures
            r.raw@ == seq!['5', '.', '6', '.', '1', '0'],
            r.class == EnhancedReplyCodeClass::PermanentFailure,
            r.raw_subject == 6,
            r.raw_detail == 10,
    {
        proof {
            reveal_strlit("5.6.10");
        }
        EnhancedReplyCode {
            raw: "5.6.10",
            class: EnhancedReplyCodeClass::PermanentFailure,
            raw_subject: 6,
            raw_detail: 10,
        }
    }

    /// `2.7.0`
    pub fn SUCCESS_POLICY_OTHER() -> (r: EnhancedReplyCode<&'static str>)
        ensures
            r.raw@ == seq!['2', '.', '7', '.', '0'],
            r.class == EnhancedReplyCodeClass::Success,
            r.raw_subject == 7,
            r.raw_detail == 0,
    {
        proof {
            reveal_strlit("2.7.0");
        }
        EnhancedReplyCode {
            raw: "2.7.0",
            class: EnhancedReplyCodeClass::Success,
            raw_subject: 7,
            raw_detail: 0,
        }
    }

    /// `4.7.0`
    pub fn TRANSIENT_POLICY_OTHER() -> (r: EnhancedReplyCode<&'static str>)
        ensures
            r.raw@ == seq!['4', '.', '7', '.', '0'],
            r.class == EnhancedReplyCodeClass::PersistentTransient,
            r.raw_subject == 7,
            r.raw_detail == 0,
    {
        proof {
            reveal_strlit("4.7.0");
        }
        EnhancedReplyCode {
            raw: "4.7.0",
            class: EnhancedReplyCodeClass::PersistentTransient,
            raw_subject: 7,
            raw_detail: 0,
        }
    }

    /// `5.7.0`
    pub fn PERMANENT_POLICY_OTHER() -> (r: EnhancedReplyCode<&'static str>)
        ensures
            r.raw@ == seq!['5', '.', '7', '.', '0'],
            r.class == EnhancedReplyCodeClass::PermanentFailure,
            r.raw_subject == 7,
            r.raw_detail == 0,
    {
        proof {
            reveal_strlit("5.7.0");
        }
        EnhancedReplyCode {
            raw: "5.7.0",
            class: EnhancedReplyCodeClass::PermanentFailure,
            raw_subject: 7,
            raw_detail: 0,
        }
    }

    /// `5.7.1`
    pub fn PERMANENT_DELIVERY_NOT_AUTHORIZED() -> (r: EnhancedReplyCode<&'static str>)
        ensures
            r.raw@ == seq!['5', '.', '7', '.', '1'],
            r.class == EnhancedReplyCodeClass::PermanentFailure,
            r.raw_subject == 7,
            r.raw_detail == 1,
    {
        proof {
            reveal_strlit("5.7.1");
        }
        EnhancedReplyCode {
            raw: "5.7.1",
            class: EnhancedReplyCodeClass::PermanentFailure,
            raw_subject: 7,
            raw_detail: 1,
        }
    }

    /// `5.7.2`
    pub fn PERMANENT_MAILING_LIST_EXPANSION_PROHIBITED() -> (r: EnhancedReplyCode<&'static str>)
        ensures
            r.raw@ == seq!['5', '.', '7', '.', '2'],
            r.class == EnhancedReplyCodeClass::PermanentFailure,
            r.raw_subject == 7,
            r.raw_detail == 2,
    {
        proof {
            reveal_strlit("5.7.2");
        }
        EnhancedReplyCode {
            raw: "5.7.2",
            class: EnhancedReplyCodeClass::PermanentFailure,
            raw_subject: 7,
            raw_detail: 2,
        }
    }

    /// `5.7.3`
    pub fn PERMANENT_SECURITY_CONVERSION_REQUIRED_BUT_NOT_POSSIBLE() -> (r: EnhancedReplyCode<&'static str>)
        ensures
            r.raw@ == seq!['5', '.', '7', '.', '3'],
            r.class == EnhancedReplyCodeClass::PermanentFailure,
            r.raw_subject == 7,
            r.raw_detail == 3,
    {
        proof {
            reveal_strlit("5.7.3");
        }
        EnhancedReplyCode {
            raw: "5.7.3",
            class: EnhancedReplyCodeClass::PermanentFailure,
            raw_subject: 7,
            raw_detail: 3,
        }
    }

    /// `5.7.4`
    pub fn PERMANENT_SECURITY_FEATURES_NOT_SUPPORTED() -> (r: EnhancedReplyCode<&'static str>)
        ensures
            r.raw@ == seq!['5', '.', '7', '.', '4'],
            r.class == EnhancedReplyCodeClass::PermanentFailure,
            r.raw_subject == 7,
            r.raw_detail == 4,
    {
        proof {
            reveal_strlit("5.7.4");
        }
        EnhancedReplyCode {
            raw: "5.7.4",
            class: EnhancedReplyCodeClass::PermanentFailure,
            raw_subject: 7,
            raw_detail: 4,
        }
    }

    /// `4.7.5`
    pub fn TRANSIENT_CRYPTO_FAILURE() -> (r: EnhancedReplyCode<&'static str>)
        ensures
            r.raw@ == seq!['4', '.', '7', '.', '5'],
            r.class == EnhancedReplyCodeClass::PersistentTransient,
            r.raw_subject == 7,
            r.raw_detail == 5,
    {
        proof {
            reveal_strlit("4.7.5");
        }
        EnhancedReplyCode {
            raw: "4.7.5",
            class: EnhancedReplyCodeClass::PersistentTransient,
            raw_subject: 7,
            raw_detail: 5,
        }
    }

    /// `5.7.5`
    pub fn PERMANENT_CRYPTO_FAILURE() -> (r: EnhancedReplyCode<&'static str>)
        ensures
            r.raw@ == seq!['5', '.', '7', '.', '5'],
            r.class == EnhancedReplyCodeClass::PermanentFailure,
            r.raw_subject == 7,
            r.raw_detail == 5,
    {
        proof {
            reveal_strlit("5.7.5");
        }
        EnhancedReplyCode {
            raw: "5.7.5",
            class: EnhancedReplyCodeClass::PermanentFailure,
            raw_subject: 7,
            raw_detail: 5,
        }
    }

    /// `4.7.6`
    pub fn TRANSIENT_CRYPTO_ALGO_NOT_SUPPORTED() -> (r: EnhancedReplyCode<&'static str>)
        ensures
            r.raw@ == seq!['4', '.', '7', '.', '6'],
            r.class == EnhancedReplyCodeClass::PersistentTransient,
            r.raw_subject == 7,
            r.raw_detail == 6,
    {
        proof {
            reveal_strlit("4.7.6");
        }
        EnhancedReplyCode {
            raw: "4.7.6",
            class: EnhancedReplyCodeClass::PersistentTransient,
            raw_subject: 7,
            raw_detail: 6,
        }
    }

    /// `5.7.6`
    pub fn PERMANENT_CRYPTO_ALGO_NOT_SUPPORTED() -> (r: EnhancedReplyCode<&'static str>)
        ensures
            r.raw@ == seq!['5', '.', '7', '.', '6'],
            r.class == EnhancedReplyCodeClass::PermanentFailure,
            r.raw_subject == 7,
            r.raw_detail == 6,
    {
        proof {
            reveal_strlit("5.7.6");
        }
        EnhancedReplyCode {
            raw: "5.7.6",
            class: EnhancedReplyCodeClass::PermanentFailure,
            raw_subject: 7,
            raw_detail: 6,
        }
    }

    /// `2.7.7`
    pub fn SUCCESS_MESSAGE_INTEGRITY_FAILURE() -> (r: EnhancedReplyCode<&'static str>)
        ensures
            r.raw@ == seq!['2', '.', '7', '.', '7'],
            r.class == EnhancedReplyCodeClass::Success,
            r.raw_subject == 7,
            r.raw_detail == 7,
    {
        proof {
            reveal_strlit("2.7.7");
        }
        EnhancedReplyCode {
            raw: "2.7.7",
            class: EnhancedReplyCodeClass::Success,
            raw_subject: 7,
            raw_detail: 7,
        }
    }

    /// `4.7.7`
    pub fn TRANSIENT_MESSAGE_INTEGRITY_FAILURE() -> (r: EnhancedReplyCode<&'static str>)
        ensures
            r.raw@ == seq!['4', '.', '7', '.', '7'],
            r.class == EnhancedReplyCodeClass::PersistentTransient,
            r.raw_subject == 7,
            r.raw_detail == 7,
    {
        proof {
            reveal_strlit("4.7.7");
        }
        EnhancedReplyCode {
            raw: "4.7.7",
            class: EnhancedReplyCodeClass::PersistentTransient,
            raw_subject: 7,
            raw_detail: 7,
        }
    }

    /// `5.7.7`
    pub fn PERMANENT_MESSAGE_INTEGRITY_FAILURE() -> (r: EnhancedReplyCode<&'static str>)
        ensures
            r.raw@ == seq!['5', '.', '7', '.', '7'],
            r.class == EnhancedReplyCodeClass::PermanentFailure,
            r.raw_subject == 7,
            r.raw_detail == 7,
    {
        proof {
            reveal_strlit("5.7.7");
        }
        EnhancedReplyCode {
            raw: "5.7.7",
            class: EnhancedReplyCodeClass::PermanentFailure,
            raw_subject: 7,
            raw_detail: 7,
        }
    }

    /// `5.7.8`
    pub fn PERMANENT_AUTH_CREDENTIALS_INVALID() -> (r: EnhancedReplyCode<&'static str>)
        ensures
            r.raw@ == seq!['5', '.', '7', '.', '8'],
            r.class == EnhancedReplyCodeClass::PermanentFailure,
            r.raw_subject == 7,
            r.raw_detail == 8,
    {
        proof {
            reveal_strlit("5.7.8");
        }
        EnhancedReplyCode {
            raw: "5.7.8",
            class: EnhancedReplyCodeClass::PermanentFailure,
            raw_subject: 7,
            raw_detail: 8,
        }
    }

    /// `5.7.9`
    pub fn PERMANENT_AUTH_MECHANISM_TOO_WEAK() -> (r: EnhancedReplyCode<&'static str>)
        ensures
            r.raw@ == seq!['5', '.', '7', '.', '9'],
            r.class == EnhancedReplyCodeClass::PermanentFailure,
            r.raw_subject == 7,
            r.raw_detail == 9,
    {
        proof {
            reveal_strlit("5.7.9");
        }
        EnhancedReplyCode {
            raw: "5.7.9",
            class: EnhancedReplyCodeClass::PermanentFailure,
            raw_subject: 7,
            raw_detail: 9,
        }
    }

    /// `5.7.10`
    pub fn PERMANENT_ENCRYPTION_NEEDED() -> (r: EnhancedReplyCode<&'static str>)
        ensures
            r.raw@ == seq!['5', '.', '7', '.', '1', '0'],
            r.class == EnhancedReplyCodeClass::PermanentFailure,
            r.raw_subject == 7,
            r.raw_detail == 10,
    {
        proof {
            reveal_strlit("5.7.10");
        }
        EnhancedReplyCode {
            raw: "5.7.10",
            class: EnhancedReplyCodeClass::PermanentFailure,
            raw_subject: 7,
            raw_detail: 10,
        }
    }

    /// `5.7.11`
    pub fn PERMANENT_ENCRYPTION_REQUIRED_FOR_REQUESTED_AUTH_MECHANISM() -> (r: EnhancedReplyCode<&'static str>)
        ensures
            r.raw@ == seq!['5', '.', '7', '.', '1', '1'],
            r.class == EnhancedReplyCodeClass::PermanentFailure,
            r.raw_subject == 7,
            r.raw_detail == 11,
    {
        proof {
            reveal_strlit("5.7.11");
        }
        EnhancedReplyCode {
            raw: "5.7.11",
            class: EnhancedReplyCodeClass::PermanentFailure,
            raw_subject: 7,
            raw_detail: 11,
        }
    }

    /// `4.7.12`
    pub fn TRANSIENT_PASSWORD_TRANSITION_NEEDED() -> (r: EnhancedReplyCode<&'static str>)
        ensures
            r.raw@ == seq!['4', '.', '7', '.', '1', '2'],
            r.class == EnhancedReplyCodeClass::PersistentTransient,
            r.raw_subject == 7,
            r.raw_detail == 12,
    {
        proof {
            reveal_strlit("4.7.12");
        }
        EnhancedReplyCode {
            raw: "4.7.12",
            class: EnhancedReplyCodeClass::PersistentTransient,
            raw_subject: 7,
            raw_detail: 12,
        }
    }

    /// `5.7.13`
    pub fn PERMANENT_USER_ACCOUNT_DISABLED() -> (r: EnhancedReplyCode<&'static str>)
        ensures
            r.raw@ == seq!['5', '.', '7', '.', '1', '3'],
            r.class == EnhancedReplyCodeClass::PermanentFailure,
            r.raw_subject == 7,
            r.raw_detail == 13,
    {
        proof {
            reveal_strlit("5.7.13");
        }
        EnhancedReplyCode {
            raw: "5.7.13",
            class: EnhancedReplyCodeClass::PermanentFailure,
            raw_subject: 7,
            raw_detail: 13,
        }
    }

    /// `5.7.14`
    pub fn PERMANENT_TRUST_RELATIONSHIP_REQUIRED() -> (r: EnhancedReplyCode<&'static str>)
        ensures
            r.raw@ == seq!['5', '.', '7', '.', '1', '4'],
            r.class == EnhancedReplyCodeClass::PermanentFailure,
            r.raw_subject == 7,
            r.raw_detail == 14,
    {
        proof {
            reveal_strlit("5.7.14");
        }
        EnhancedReplyCode {
            raw: "5.7.14",
            class: EnhancedReplyCodeClass::PermanentFailure,
            raw_subject: 7,
            raw_detail: 14,
        }
    }

    /// `4.7.15`
    pub fn TRANSIENT_PRIORITY_TOO_LOW() -> (r: EnhancedReplyCode<&'static str>)
        ensures
            r.raw@ == seq!['4', '.', '7', '.', '1', '5'],
            r.class == EnhancedReplyCodeClass::PersistentTransient,
            r.raw_subject == 7,
            r.raw_detail == 15,
    {
        proof {
            reveal_strlit("4.7.15");
        }
        EnhancedReplyCode {
            raw: "4.7.15",
            class: EnhancedReplyCodeClass::PersistentTransient,
            raw_subject: 7,
            raw_detail: 15,
        }
    }

    /// `5.7.15`
    pub fn PERMANENT_PRIORITY_TOO_LOW() -> (r: EnhancedReplyCode<&'static str>)
        ensures
            r.raw@ == seq!['5', '.', '7', '.', '1', '5'],
            r.class == EnhancedReplyCodeClass::PermanentFailure,
            r.raw_subject == 7,
            r.raw_detail == 15,
    {
        proof {
            reveal_strlit("5.7.15");
        }
        EnhancedReplyCode {
            raw: "5.7.15",
            class: EnhancedReplyCodeClass::PermanentFailure,
            raw_subject: 7,
            raw_detail: 15,
        }
    }

    /// `4.7.16`
    pub fn TRANSIENT_MESSAGE_TOO_BIG_FOR_PRIORITY() -> (r: EnhancedReplyCode<&'static str>)
        ensures
            r.raw@ == seq!['4', '.', '7', '.', '1', '6'],
            r.class == EnhancedReplyCodeClass::PersistentTransient,
            r.raw_subject == 7,
            r.raw_detail == 16,
    {
        proof {
            reveal_strlit("4.7.16");
        }
        EnhancedReplyCode {
            raw: "4.7.16",
            class: EnhancedReplyCodeClass::PersistentTransient,
            raw_subject: 7,
            raw_detail: 16,
        }
    }

    /// `5.7.16`
    pub fn PERMANENT_MESSAGE_TOO_BIG_FOR_PRIORITY() -> (r: EnhancedReplyCode<&'static str>)
        ensures
            r.raw@ == seq!['5', '.', '7', '.', '1', '6'],
            r.class == EnhancedReplyCodeClass::PermanentFailure,
            r.raw_subject == 7,
            r.raw_detail == 16,
    {
        proof {
            reveal_strlit("5.7.16");
        }
        EnhancedReplyCode {
            raw: "5.7.16",
            class: EnhancedReplyCodeClass::PermanentFailure,
            raw_subject: 7,
            raw_detail: 16,
        }
    }

    /// `5.7.17`
    pub fn PERMANENT_MAILBOX_OWNER_HAS_CHANGED() -> (r: EnhancedReplyCode<&'static str>)
        ensures
            r.raw@ == seq!['5', '.', '7', '.', '1', '7'],
            r.class == EnhancedReplyCodeClass::PermanentFailure,
            r.raw_subject == 7,
            r.raw_detail == 17,
    {
        proof {
            reveal_strlit("5.7.17");
        }
        EnhancedReplyCode {
            raw: "5.7.17",
            class: EnhancedReplyCodeClass::PermanentFailure,
            raw_subject: 7,
            raw_detail: 17,
        }
    }

    /// `5.7.18`
    pub fn PERMANENT_DOMAIN_OWNER_HAS_CHANGED() -> (r: EnhancedReplyCode<&'static str>)
        ensures
            r.raw@ == seq!['5', '.', '7', '.', '1', '8'],
            r.class == EnhancedReplyCodeClass::PermanentFailure,
            r.raw_subject == 7,
            r.raw_detail == 18,
    {
        proof {
            reveal_strlit("5.7.18");
        }
        EnhancedReplyCode {
            raw: "5.7.18",
            class: EnhancedReplyCodeClass::PermanentFailure,
            raw_subject: 7,
            raw_detail: 18,
        }
    }

    /// `5.7.19`
    pub fn PERMANENT_RRVS_CANNOT_BE_COMPLETED() -> (r: EnhancedReplyCode<&'static str>)
        ensures
            r.raw@ == seq!['5', '.', '7', '.', '1', '9'],
            r.class == EnhancedReplyCodeClass::PermanentFailure,
            r.raw_subject == 7,
            r.raw_detail == 19,
    {
        proof {
            reveal_strlit("5.7.19");
        }
        EnhancedReplyCode {
            raw: "5.7.19",
            class: EnhancedReplyCodeClass::PermanentFailure,
            raw_subject: 7,
            raw_detail: 19,
        }
    }

    /// `5.7.20`
    pub fn PERMANENT_NO_PASSING_DKIM_SIGNATURE_FOUND() -> (r: EnhancedReplyCode<&'static str>)
        ensures
            r.raw@ == seq!['5', '.', '7', '.', '2', '0'],
            r.class == EnhancedReplyCodeClass::PermanentFailure,
            r.raw_subject == 7,
            r.raw_detail == 20,
    {
        proof {
            reveal_strlit("5.7.20");
        }
        EnhancedReplyCode {
            raw: "5.7.20",
            class: EnhancedReplyCodeClass::PermanentFailure,
            raw_subject: 7,
            raw_detail: 20,
        }
    }

    /// `5.7.21`
    pub fn PERMANENT_NO_ACCEPTABLE_DKIM_SIGNATURE_FOUND() -> (r: EnhancedReplyCode<&'static str>)
        ensures
            r.raw@ == seq!['5', '.', '7', '.', '2', '1'],
            r.class == EnhancedReplyCodeClass::PermanentFailure,
            r.raw_subject == 7,
            r.raw_detail == 21,
    {
        proof {
            reveal_strlit("5.7.21");
        }
        EnhancedReplyCode {
            raw: "5.7.21",
            class: EnhancedReplyCodeClass::PermanentFailure,
            raw_subject: 7,
            raw_detail: 21,
        }
    }

    /// `5.7.22`
    pub fn PERMANENT_NO_AUTHOR_MATCHED_DKIM_SIGNATURE_FOUND() -> (r: EnhancedReplyCode<&'static str>)
        ensures
            r.raw@ == seq!['5', '.', '7', '.', '2', '2'],
            r.class == EnhancedReplyCodeClass::PermanentFailure,
            r.raw_subject == 7,
            r.raw_detail == 22,
    {
        proof {
            reveal_strlit("5.7.22");
        }
        EnhancedReplyCode {
            raw: "5.7.22",
            class: EnhancedReplyCodeClass::PermanentFailure,
            raw_subject: 7,
            raw_detail: 22,
        }
    }

    /// `5.7.23`
    pub fn PERMANENT_SPF_VALIDATION_FAILED() -> (r: EnhancedReplyCode<&'static str>)
        ensures
            r.raw@ == seq!['5', '.', '7', '.', '2', '3'],
            r.class == EnhancedReplyCodeClass::PermanentFailure,
            r.raw_subject == 7,
            r.raw_detail == 23,
    {
        proof {
            reveal_strlit("5.7.23");
        }
        EnhancedReplyCode {
            raw: "5.7.23",
            class: EnhancedReplyCodeClass::PermanentFailure,
            raw_subject: 7,
            raw_detail: 23,
        }
    }

    /// `4.7.24`
    pub fn TRANSIENT_SPF_VALIDATION_ERROR() -> (r: EnhancedReplyCode<&'static str>)
        ensures
            r.raw@ == seq!['4', '.', '7', '.', '2', '4'],
            r.class == EnhancedReplyCodeClass::PersistentTransient,
            r.raw_subject == 7,
            r.raw_detail == 24,
    {
        proof {
            reveal_strlit("4.7.24");
        }
        EnhancedReplyCode {
            raw: "4.7.24",
            class: EnhancedReplyCodeClass::PersistentTransient,
            raw_subject: 7,
            raw_detail: 24,
        }
    }

    /// `5.7.24`
    pub fn PERMANENT_SPF_VALIDATION_ERROR() -> (r: EnhancedReplyCode<&'static str>)
        ensures
            r.raw@ == seq!['5', '.', '7', '.', '2', '4'],
            r.class == EnhancedReplyCodeClass::PermanentFailure,
            r.raw_subject == 7,
            r.raw_detail == 24,
    {
        proof {
            reveal_strlit("5.7.24");
        }
        EnhancedReplyCode {
            raw: "5.7.24",
            class: EnhancedReplyCodeClass::PermanentFailure,
            raw_subject: 7,
            raw_detail: 24,
        }
    }

    /// `5.7.25`
    pub fn PERMANENT_REVERSE_DNS_VALIDATION_FAILED() -> (r: EnhancedReplyCode<&'static str>)
        ensures
            r.raw@ == seq!['5', '.', '7', '.', '2', '5'],
            r.class == EnhancedReplyCodeClass::PermanentFailure,
            r.raw_subject == 7,
            r.raw_detail == 25,
    {
        proof {
            reveal_strlit("5.7.25");
        }
        EnhancedReplyCode {
            raw: "5.7.25",
            class: EnhancedReplyCodeClass::PermanentFailure,
            raw_subject: 7,
            raw_detail: 25,
        }
    }

    /// `5.7.26`
    pub fn PERMANENT_MULTIPLE_AUTH_CHECKS_FAILED() -> (r: EnhancedReplyCode<&'static str>)
        ensures
            r.raw@ == seq!['5', '.', '7', '.', '2', '6'],
            r.class == EnhancedReplyCodeClass::PermanentFailure,
            r.raw_subject == 7,
            r.raw_detail == 26,
    {
        proof {
            reveal_strlit("5.7.26");
        }
        EnhancedReplyCode {
            raw: "5.7.26",
            class: EnhancedReplyCodeClass::PermanentFailure,
            raw_subject: 7,
            raw_detail: 26,
        }
    }

    /// `5.7.27`
    pub fn PERMANENT_SENDER_ADDRESS_HAS_NULL_MX() -> (r: EnhancedReplyCode<&'static str>)
        ensures
            r.raw@ == seq!['5', '.', '7', '.', '2', '7'],
            r.class == EnhancedReplyCodeClass::PermanentFailure,
            r.raw_subject == 7,
            r.raw_detail == 27,
    {
        proof {
            reveal_strlit("5.7.27");
        }
        EnhancedReplyCode {
            raw: "5.7.27",
            class: EnhancedReplyCodeClass::PermanentFailure,
            raw_subject: 7,
            raw_detail: 27,
        }
    }

    /// `2.7.28`
    pub fn SUCCESS_MAIL_FLOOD_DETECTED() -> (r: EnhancedReplyCode<&'static str>)
        ensures
            r.raw@ == seq!['2', '.', '7', '.', '2', '8'],
            r.class == EnhancedReplyCodeClass::Success,
            r.raw_subject == 7,
            r.raw_detail == 28,
    {
        proof {
            reveal_strlit("2.7.28");
        }
        EnhancedReplyCode {
            raw: "2.7.28",
            class: EnhancedReplyCodeClass::Success,
            raw_subject: 7,
            raw_detail: 28,
        }
    }

    /// `4.7.28`
    pub fn TRANSIENT_MAIL_FLOOD_DETECTED() -> (r: EnhancedReplyCode<&'static str>)
        ensures
            r.raw@ == seq!['4', '.', '7', '.', '2', '8'],
            r.class == EnhancedReplyCodeClass::PersistentTransient,
            r.raw_subject == 7,
            r.raw_detail == 28,
    {
        proof {
            reveal_strlit("4.7.28");
        }
        EnhancedReplyCode {
            raw: "4.7.28",
            class: EnhancedReplyCodeClass::PersistentTransient,
            raw_subject: 7,
            raw_detail: 28,
        }
    }

    /// `5.7.28`
    pub fn PERMANENT_MAIL_FLOOD_DETECTED() -> (r: EnhancedReplyCode<&'static str>)
        ensures
            r.raw@ == seq!['5', '.', '7', '.', '2', '8'],
            r.class == EnhancedReplyCodeClass::PermanentFailure,
            r.raw_subject == 7,
            r.raw_detail == 28,
    {
        proof {
            reveal_strlit("5.7.28");
        }
        EnhancedReplyCode {
            raw: "5.7.28",
            class: EnhancedReplyCodeClass::PermanentFailure,
            raw_subject: 7,
            raw_detail: 28,
        }
    }

    /// `5.7.29`
    pub fn PERMANENT_ARC_VALIDATION_FAILURE() -> (r: EnhancedReplyCode<&'static str>)
        ensures
            r.raw@ == seq!['5', '.', '7', '.', '2', '9'],
            r.class == EnhancedReplyCodeClass::PermanentFailure,
            r.raw_subject == 7,
            r.raw_detail == 29,
    {
        proof {
            reveal_strlit("5.7.29");
        }
        EnhancedReplyCode {
            raw: "5.7.29",
            class: EnhancedReplyCodeClass::PermanentFailure,
            raw_subject: 7,
            raw_detail: 29,
        }
    }

    /// `5.7.30`
    pub fn PERMANENT_REQUIRETLS_SUPPORT_REQUIRED() -> (r: EnhancedReplyCode<&'static str>)
        ensures
            r.raw@ == seq!['5', '.', '7', '.', '3', '0'],
            r.class == EnhancedReplyCodeClass::PermanentFailure,
            r.raw_subject == 7,
            r.raw_detail == 30,
    {
        proof {
            reveal_strlit("5.7.30");
        }
        EnhancedReplyCode {
            raw: "5.7.30",
            class: EnhancedReplyCodeClass::PermanentFailure,
            raw_subject: 7,
            raw_detail: 30,
        }
    }

}

impl<S: Text> EnhancedReplyCode<S> {
    /// The subject of the code, from its second number.
    pub fn subject(&self) -> (r: EnhancedReplyCodeSubject)
        ensures
            r == subject_of(self.raw_subject),
    {
        if self.raw_subject == 1 {
            EnhancedReplyCodeSubject::Addressing
        } else if self.raw_subject == 2 {
            EnhancedReplyCodeSubject::Mailbox
        } else if self.raw_subject == 3 {
            EnhancedReplyCodeSubject::MailSystem
        } else if self.raw_subject == 4 {
            EnhancedReplyCodeSubject::Network
        } else if self.raw_subject == 5 {
            EnhancedReplyCodeSubject::MailDelivery
        } else if self.raw_subject == 6 {
            EnhancedReplyCodeSubject::Content
        } else if self.raw_subject == 7 {
            EnhancedReplyCodeSubject::Policy
        } else {
            EnhancedReplyCodeSubject::Undefined
        }
    }

    /// The same code, with its text held as an owned `String`.
    pub fn into(self) -> (r: EnhancedReplyCode<String>)
        ensures
            r@ == self@,
    {
        EnhancedReplyCode {
            raw: self.raw.text_to_string(),
            class: self.class,
            raw_subject: self.raw_subject,
            raw_detail: self.raw_detail,
        }
    }

    /// The wire form of the code: its raw text.
    pub fn as_io_slices(&self) -> (r: std::vec::IntoIter<Vec<u8>>)
        ensures
            chunk_of(r) == self@.raw,
    {
        let mut v: Vec<u8> = Vec::new();
        v.extend_from_slice(self.raw.text_as_bytes());
        single_chunk(v)
    }
}

impl<'a> EnhancedReplyCode<&'a str> {
    /// Copies the code into one that owns its text.
    pub fn to_owned(&self) -> (r: EnhancedReplyCode<String>)
        ensures
            r@ == self@,
    {
        EnhancedReplyCode {
            raw: self.raw.to_owned(),
            class: self.class,
            raw_subject: self.raw_subject,
            raw_detail: self.raw_detail,
        }
    }
}

} // verus!

verus! {

/// One line of a reply.
#[derive(Clone, Debug, PartialEq, Eq)]
pub struct ReplyLine<S> {
    pub code: ReplyCode,
    pub last: bool,
    pub ecode: Option<EnhancedReplyCode<S>>,
    pub text: MaybeUtf8<S>,
}

pub open spec fn ecode_view<S: Text>(e: Option<EnhancedReplyCode<S>>) -> Option<EnhancedReplyCode<Seq<u8>>> {
    match e {
        Some(c) => Some(c@),
        None => None,
    }
}

impl<S: Text> View for ReplyLine<S> {
    type V = ReplyLine<Seq<u8>>;

    open spec fn view(&self) -> ReplyLine<Seq<u8>> {
        ReplyLine { code: self.code, last: self.last, ecode: ecode_view(self.ecode), text: self.text@ }
    }
}

/// `alt((value(false, tag("-")), value(true, opt(tag(" ")))))` at `j`.
pub open spec fn last_marker_spec(s: Seq<u8>, j: int) -> Result<(int, bool), ParseError> {
    match tag_spec(s, j, seq![DASH]) {
        Ok(k) => Ok((k, false)),
        Err(ParseError::Incomplete) => Err(ParseError::Incomplete),
        Err(ParseError::Invalid) => match tag_spec(s, j, seq![SP]) {
            Ok(k) => Ok((k, true)),
            Err(ParseError::Incomplete) => Err(ParseError::Incomplete),
            Err(ParseError::Invalid) => Ok((j, true)),
        },
    }
}

/// `opt(terminated(EnhancedReplyCode::parse, alt((tag(" "), peek(tag("\r\n"))))))`
/// at `j`: `Some(e)` when an enhanced code spans `s[j..e]`.
pub open spec fn opt_ecode_spec(s: Seq<u8>, j: int) -> Result<(int, Option<int>), ParseError> {
    match enhanced_code_spec(s, j) {
        Err(ParseError::Incomplete) => Err(ParseError::Incomplete),
        Err(ParseError::Invalid) => Ok((j, None)),
        Ok(e) => match tag_spec(s, e, seq![SP]) {
            Ok(k) => Ok((k, Some(e))),
            Err(ParseError::Incomplete) => Err(ParseError::Incomplete),
            Err(ParseError::Invalid) => match tag_spec(s, e, crlf()) {
                Ok(_) => Ok((e, Some(e))),
                Err(ParseError::Incomplete) => Err(ParseError::Incomplete),
                Err(ParseError::Invalid) => Ok((j, None)),
            },
        },
    }
}

/// The reply text and its `\r\n`: `[\t -~]*` (ASCII), or else
/// `[\t -~[:^ascii:]]*` (UTF-8).
pub open spec fn reply_text_spec(s: Seq<u8>, k: int) -> Result<(int, MaybeUtf8<Seq<u8>>), ParseError> {
    let m = span(Class::ReplyText, s, k);
    match tag_spec(s, m, crlf()) {
        Ok(e) => Ok((e, MaybeUtf8::Ascii(s.subrange(k, m)))),
        Err(ParseError::Incomplete) => Err(ParseError::Incomplete),
        Err(ParseError::Invalid) => {
            let t = span_utf8(Class::ReplyText, s, k, valid_end(s, k));
            match tag_spec(s, t, crlf()) {
                Ok(e) => Ok((e, MaybeUtf8::Utf8(s.subrange(k, t)))),
                Err(x) => Err(x),
            }
        },
    }
}

/// The reply code whose digits are `s[i..i+3]`.
pub open spec fn code_at(s: Seq<u8>, i: int) -> ReplyCode {
    ReplyCode([s[i], s[i + 1], s[i + 2]])
}

/// One reply line at `i`: code, `-` or ` ` (or nothing) for the last-line
/// marker, an optional enhanced code, and the text up to `\r\n`.
pub open spec fn reply_line_spec(s: Seq<u8>, i: int) -> Result<(int, ReplyLine<Seq<u8>>), ParseError> {
    match reply_code_spec(s, i) {
        Err(e) => Err(e),
        Ok(j1) => match last_marker_spec(s, j1) {
            Err(e) => Err(e),
            Ok((j2, last)) => match opt_ecode_spec(s, j2) {
                Err(e) => Err(e),
                Ok((j3, oe)) => match reply_text_spec(s, j3) {
                    Err(e) => Err(e),
                    Ok((j4, text)) => Ok(
                        (
                            j4,
                            ReplyLine {
                                code: code_at(s, i),
                                last,
                                ecode: match oe {
                                    Some(e) => Some(enhanced_code_value(s, j2, e)),
                                    None => None,
                                },
                                text,
                            },
                        ),
                    ),
                },
            },
        },
    }
}

fn last_marker_exec(buf: &[u8], j: usize) -> (r: Result<(usize, bool), ParseError>)
    requires
        j <= buf@.len(),
    ensures
        match r {
            Ok((k, last)) => last_marker_spec(buf@, j as int) == Ok::<(int, bool), ParseError>(
                (k as int, last),
            ) && j <= k <= buf@.len(),
            Err(e) => last_marker_spec(buf@, j as int) == Err::<(int, bool), ParseError>(e),
        },
{
    let dash: [u8; 1] = [DASH];
    let sp: [u8; 1] = [SP];
    assert(dash@ =~= seq![DASH]);
    assert(sp@ =~= seq![SP]);
    match tag_exec(buf, j, &dash) {
        Ok(k) => Ok((k, false)),
        Err(ParseError::Incomplete) => Err(ParseError::Incomplete),
        Err(ParseError::Invalid) => match tag_exec(buf, j, &sp) {
            Ok(k) => Ok((k, true)),
            Err(ParseError::Incomplete) => Err(ParseError::Incomplete),
            Err(ParseError::Invalid) => Ok((j, true)),
        },
    }
}

fn crlf_bytes() -> (r: [u8; 2])
    ensures
        r@ == crlf(),
{
    let r: [u8; 2] = [CR, LF];
    assert(r@ =~= crlf());
    r
}

fn opt_ecode_exec(buf: &[u8], j: usize) -> (r: Result<(usize, Option<(usize, EnhancedReplyCode<String>)>), ParseError>)
    requires
        j <= buf@.len(),
    ensures
        match r {
            Ok((k, oe)) => j <= k <= buf@.len() && match oe {
                Some((e, c)) => opt_ecode_spec(buf@, j as int) == Ok::<(int, Option<int>), ParseError>(
                    (k as int, Some(e as int)),
                ) && c@ == enhanced_code_value(buf@, j as int, e as int),
                None => opt_ecode_spec(buf@, j as int) == Ok::<(int, Option<int>), ParseError>(
                    (k as int, None),
                ),
            },
            Err(x) => opt_ecode_spec(buf@, j as int) == Err::<(int, Option<int>), ParseError>(x),
        },
{
    let sp: [u8; 1] = [SP];
    assert(sp@ =~= seq![SP]);
    let nl = crlf_bytes();
    match EnhancedReplyCode::parse_at(buf, j) {
        Err(ParseError::Incomplete) => Err(ParseError::Incomplete),
        Err(ParseError::Invalid) => Ok((j, None)),
        Ok((e, c)) => match tag_exec(buf, e, &sp) {
            Ok(k) => Ok((k, Some((e, c)))),
            Err(ParseError::Incomplete) => Err(ParseError::Incomplete),
            Err(ParseError::Invalid) => match tag_exec(buf, e, &nl) {
                Ok(_) => Ok((e, Some((e, c)))),
                Err(ParseError::Incomplete) => Err(ParseError::Incomplete),
                Err(ParseError::Invalid) => Ok((j, None)),
            },
        },
    }
}

fn reply_text_exec(buf: &[u8], k: usize) -> (r: Result<(usize, MaybeUtf8<String>), ParseError>)
    requires
        k <= buf@.len(),
    ensures
        match r {
            Ok((e, t)) => reply_text_spec(buf@, k as int) == Ok::<(int, MaybeUtf8<Seq<u8>>), ParseError>(
                (e as int, t@),
            ) && k <= e <= buf@.len() && ends_line_at(buf@, e as int),
            Err(x) => reply_text_spec(buf@, k as int) == Err::<(int, MaybeUtf8<Seq<u8>>), ParseError>(x),
        },
{
    let nl = crlf_bytes();
    let m = span_exec(Class::ReplyText, buf, k);
    match tag_exec(buf, m, &nl) {
        Ok(e) => {
            proof {
                lemma_span(Class::ReplyText, buf@, k as int);
                lemma_ascii_range(buf@, k as int, m as int);
                lemma_tag_crlf_ends_line(buf@, m as int);
            }
            let t = string_of(buf, k, m);
            Ok((e, MaybeUtf8::Ascii(t)))
        },
        Err(ParseError::Incomplete) => Err(ParseError::Incomplete),
        Err(ParseError::Invalid) => {
            let (t, _v) = span_utf8_exec(Class::ReplyText, buf, k);
            match tag_exec(buf, t, &nl) {
                Ok(e) => {
                    proof {
                        lemma_span_utf8_valid(Class::ReplyText, buf@, k as int);
                        lemma_tag_crlf_ends_line(buf@, t as int);
                    }
                    let txt = string_of(buf, k, t);
                    Ok((e, MaybeUtf8::Utf8(txt)))
                },
                Err(x) => Err(x),
            }
        },
    }
}

impl ReplyLine<String> {
    pub fn parse_at(buf: &[u8], i: usize) -> (r: Result<(usize, ReplyLine<String>), ParseError>)
        requires
            i <= buf@.len(),
        ensures
            match r {
                Ok((j, l)) => reply_line_spec(buf@, i as int) == Ok::<(int, ReplyLine<Seq<u8>>), ParseError>(
                    (j as int, l@),
                ) && i < j <= buf@.len() && ends_line_at(buf@, j as int),
                Err(e) => reply_line_spec(buf@, i as int) == Err::<(int, ReplyLine<Seq<u8>>), ParseError>(e),
            },
    {
        let (j1, code) = match ReplyCode::parse_at(buf, i) {
            Ok(x) => x,
            Err(e) => return Err(e),
        };
        assert(code == code_at(buf@, i as int)) by {
            broadcast use vstd::array::group_array_axioms;
            assert(code.0 =~= code_at(buf@, i as int).0);
        }
        let (j2, last) = match last_marker_exec(buf, j1) {
            Ok(x) => x,
            Err(e) => return Err(e),
        };
        let (j3, oe) = match opt_ecode_exec(buf, j2) {
            Ok(x) => x,
            Err(e) => return Err(e),
        };
        let (j4, text) = match reply_text_exec(buf, j3) {
            Ok(x) => x,
            Err(e) => return Err(e),
        };
        let ecode = match oe {
            Some((_e, c)) => Some(c),
            None => None,
        };
        Ok((j4, ReplyLine { code, last, ecode, text }))
    }

    /// Parses one reply line at the start of `buf`, giving back the rest.
    pub fn parse(buf: &[u8]) -> (r: Result<(&[u8], ReplyLine<String>), ParseError>)
        ensures
            match r {
                Ok((rest, l)) => reply_line_spec(buf@, 0) is Ok && 0 < reply_line_spec(buf@, 0)->Ok_0.0 <= buf@.len() && rest@ == buf@.subrange(
                    reply_line_spec(buf@, 0)->Ok_0.0,
                    buf@.len() as int,
                ) && l@ == reply_line_spec(buf@, 0)->Ok_0.1 && ends_line_at(buf@, reply_line_spec(buf@, 0)->Ok_0.0),
                Err(e) => reply_line_spec(buf@, 0) == Err::<(int, ReplyLine<Seq<u8>>), ParseError>(e),
            },
    {
        match Self::parse_at(buf, 0) {
            Ok((j, l)) => Ok((&buf[j..buf.len()], l)),
            Err(e) => Err(e),
        }
    }
}

/// The wire form of a reply line.
pub open spec fn line_bytes(
    code: ReplyCode,
    last: bool,
    ecode: Option<EnhancedReplyCode<Seq<u8>>>,
    text: Seq<u8>,
) -> Seq<u8> {
    code.0@ + seq![if last { SP } else { DASH }] + match ecode {
        Some(c) => c.raw + seq![SP],
        None => Seq::empty(),
    } + text + crlf()
}

/// Appends the wire form of a reply line to `out`.
fn write_line<S: Text>(
    out: &mut Vec<u8>,
    code: &ReplyCode,
    last: bool,
    ecode: &Option<EnhancedReplyCode<S>>,
    text: &MaybeUtf8<S>,
)
    ensures
        final(out)@ == old(out)@ + line_bytes(*code, last, ecode_view(*ecode), text@.bytes()),
{
    out.extend_from_slice(&code.0);
    let marker: [u8; 1] = if last {
        [SP]
    } else {
        [DASH]
    };
    out.extend_from_slice(&marker);
    match ecode {
        Some(c) => {
            out.extend_from_slice(c.raw.text_as_bytes());
            let sp: [u8; 1] = [SP];
            out.extend_from_slice(&sp);
        },
        None => {},
    }
    out.extend_from_slice(text.as_bytes());
    let nl = crlf_bytes();
    out.extend_from_slice(&nl);
    assert(final(out)@ =~= old(out)@ + line_bytes(*code, last, ecode_view(*ecode), text@.bytes()));
}

impl<S: Text> ReplyLine<S> {
    /// The wire form of the line.
    pub fn as_io_slices(&self) -> (r: std::vec::IntoIter<Vec<u8>>)
        ensures
            chunk_of(r) == line_bytes(self.code, self.last, ecode_view(self.ecode), self.text@.bytes()),
    {
        let mut v: Vec<u8> = Vec::new();
        write_line(&mut v, &self.code, self.last, &self.ecode, &self.text);
        single_chunk(v)
    }
}

/// A whole reply: its code, its enhanced code, and one text per line.
#[derive(Clone, Debug, PartialEq, Eq)]
pub struct Reply<S> {
    pub code: ReplyCode,
    pub ecode: Option<EnhancedReplyCode<S>>,
    pub text: Vec<MaybeUtf8<S>>,
}

/// The model of a reply: the texts of its lines as byte strings.
pub struct ReplyView {
    pub code: ReplyCode,
    pub ecode: Option<EnhancedReplyCode<Seq<u8>>>,
    pub text: Seq<MaybeUtf8<Seq<u8>>>,
}

impl<S: Text> View for Reply<S> {
    type V = ReplyView;

    open spec fn view(&self) -> ReplyView {
        ReplyView {
            code: self.code,
            ecode: ecode_view(self.ecode),
            text: self.text@.map_values(|t: MaybeUtf8<S>| t@),
        }
    }
}

/// `peek(pair(take(3), tag("-")))` at `i`: a fourth byte that is `-`.
pub open spec fn dash_peek_spec(s: Seq<u8>, i: int) -> Result<(), ParseError> {
    if s.len() < i + 4 {
        Err(ParseError::Incomplete)
    } else if s[i + 3] == DASH {
        Ok(())
    } else {
        Err(ParseError::Invalid)
    }
}

/// The lines of a reply at `i`: as many lines as follow with a `-` after
/// their code, then one line that is the last.
pub open spec fn reply_lines_spec(s: Seq<u8>, i: int) -> Result<(int, Seq<ReplyLine<Seq<u8>>>), ParseError>
    decreases s.len() - i,
{
    let step = match dash_peek_spec(s, i) {
        Ok(_) => reply_line_spec(s, i),
        Err(e) => Err(e),
    };
    match step {
        Ok((j, l)) => if i < j <= s.len() {
            match reply_lines_spec(s, j) {
                Ok((k, ls)) => Ok((k, seq![l] + ls)),
                Err(e) => Err(e),
            }
        } else {
            Err(ParseError::Invalid)
        },
        Err(ParseError::Incomplete) => Err(ParseError::Incomplete),
        Err(ParseError::Invalid) => match reply_line_spec(s, i) {
            Ok((j, l)) => if l.last {
                Ok((j, seq![l]))
            } else {
                Err(ParseError::Invalid)
            },
            Err(e) => Err(e),
        },
    }
}

/// The reply made of parsed lines: code and enhanced code of the last
/// line, and the text of each line.
pub open spec fn reply_of(ls: Seq<ReplyLine<Seq<u8>>>) -> ReplyView {
    ReplyView {
        code: ls.last().code,
        ecode: ls.last().ecode,
        text: ls.map_values(|l: ReplyLine<Seq<u8>>| l.text),
    }
}

/// A reply at `i`, and where it ends.
pub open spec fn reply_spec(s: Seq<u8>, i: int) -> Result<(int, ReplyView), ParseError> {
    match reply_lines_spec(s, i) {
        Ok((k, ls)) => Ok((k, reply_of(ls))),
        Err(e) => Err(e),
    }
}

/// Lines `acc` already read, put in front of what the rest gives.
pub open spec fn prepend_lines(
    acc: Seq<ReplyLine<Seq<u8>>>,
    r: Result<(int, Seq<ReplyLine<Seq<u8>>>), ParseError>,
) -> Result<(int, Seq<ReplyLine<Seq<u8>>>), ParseError> {
    match r {
        Ok((k, ls)) => Ok((k, acc + ls)),
        Err(e) => Err(e),
    }
}

fn dash_peek_exec(buf: &[u8], i: usize) -> (r: Result<(), ParseError>)
    requires
        i <= buf@.len(),
    ensures
        r == dash_peek_spec(buf@, i as int),
{
    if buf.len() - i < 4 {
        Err(ParseError::Incomplete)
    } else if buf[i + 3] == DASH {
        Ok(())
    } else {
        Err(ParseError::Invalid)
    }
}

impl Reply<String> {
    pub fn parse_at(buf: &[u8], i: usize) -> (r: Result<(usize, Reply<String>), ParseError>)
        requires
            i <= buf@.len(),
        ensures
            match r {
                Ok((j, rep)) => reply_spec(buf@, i as int) == Ok::<(int, ReplyView), ParseError>(
                    (j as int, rep@),
                ) && i < j <= buf@.len() && ends_line_at(buf@, j as int),
                Err(e) => reply_spec(buf@, i as int) == Err::<(int, ReplyView), ParseError>(e),
            },
    {
        let n = buf.len();
        let mut p = i;
        let mut texts: Vec<MaybeUtf8<String>> = Vec::new();
        let ghost mut acc: Seq<ReplyLine<Seq<u8>>> = Seq::empty();
        loop
            invariant
                n == buf@.len(),
                i <= p <= n,
                acc.len() == texts@.len(),
                forall|k: int| 0 <= k < acc.len() ==> (#[trigger] texts@[k])@ == acc[k].text,
                acc.len() > 0 ==> i < p,
                reply_lines_spec(buf@, i as int) == prepend_lines(acc, reply_lines_spec(buf@, p as int)),
            decreases n - p,
        {
            let step = match dash_peek_exec(buf, p) {
                Ok(_) => ReplyLine::parse_at(buf, p),
                Err(e) => Err(e),
            };
            match step {
                Ok((j, l)) => {
                    proof {
                        let ls_rest = reply_lines_spec(buf@, j as int);
                        match ls_rest {
                            Ok((k, ls)) => {
                                assert(acc + (seq![l@] + ls) =~= acc.push(l@) + ls);
                            },
                            Err(_) => {},
                        }
                    }
                    texts.push(l.text);
                    proof {
                        acc = acc.push(l@);
                    }
                    p = j;
                },
                Err(ParseError::Incomplete) => return Err(ParseError::Incomplete),
                Err(ParseError::Invalid) => {
                    let (j, l) = match ReplyLine::parse_at(buf, p) {
                        Ok(x) => x,
                        Err(e) => return Err(e),
                    };
                    if !l.last {
                        return Err(ParseError::Invalid);
                    }
                    let ghost all = acc.push(l@);
                    proof {
                        assert(acc + seq![l@] =~= all);
                    }
                    texts.push(l.text);
                    let rep = Reply { code: l.code, ecode: l.ecode, text: texts };
                    proof {
                        assert(rep@.text =~= reply_of(all).text);
                    }
                    return Ok((j, rep));
                },
            }
        }
    }

    /// Parses a whole reply at the start of `buf`, giving back the rest.
    pub fn parse(buf: &[u8]) -> (r: Result<(&[u8], Reply<String>), ParseError>)
        ensures
            match r {
                Ok((rest, rep)) => reply_spec(buf@, 0) is Ok && 0 < reply_spec(buf@, 0)->Ok_0.0 <= buf@.len() && rest@ == buf@.subrange(
                    reply_spec(buf@, 0)->Ok_0.0,
                    buf@.len() as int,
                ) && rep@ == reply_spec(buf@, 0)->Ok_0.1 && ends_line_at(buf@, reply_spec(buf@, 0)->Ok_0.0),
                Err(e) => reply_spec(buf@, 0) == Err::<(int, ReplyView), ParseError>(e),
            },
    {
        match Self::parse_at(buf, 0) {
            Ok((j, rep)) => Ok((&buf[j..buf.len()], rep)),
            Err(e) => Err(e),
        }
    }
}

/// The wire form of the first `n` lines of a reply whose line texts are
/// `texts`; the line with the last text carries the last-line marker.
pub open spec fn reply_bytes_upto(
    code: ReplyCode,
    ecode: Option<EnhancedReplyCode<Seq<u8>>>,
    texts: Seq<MaybeUtf8<Seq<u8>>>,
    n: nat,
) -> Seq<u8>
    decreases n,
{
    if n == 0 {
        Seq::empty()
    } else {
        reply_bytes_upto(code, ecode, texts, (n - 1) as nat) + line_bytes(
            code,
            n - 1 == texts.len() - 1,
            ecode,
            texts[n - 1].bytes(),
        )
    }
}

/// The wire form of a reply.
pub open spec fn reply_bytes(r: ReplyView) -> Seq<u8> {
    reply_bytes_upto(r.code, r.ecode, r.text, r.text.len())
}

impl<S: Text> Reply<S> {
    /// Appends the wire form of the reply to `out`.
    pub fn write_to(&self, out: &mut Vec<u8>)
        requires
            self.text@.len() > 0,
        ensures
            final(out)@ == old(out)@ + reply_bytes(self@),
    {
        let n = self.text.len();
        let last_i = n - 1;
        let mut i: usize = 0;
        while i < n
            invariant
                n == self.text@.len(),
                last_i == n - 1,
                i <= n,
                out@ == old(out)@ + reply_bytes_upto(self@.code, self@.ecode, self@.text, i as nat),
            decreases n - i,
        {
            let ghost before = out@;
            write_line(out, &self.code, i == last_i, &self.ecode, &self.text[i]);
            proof {
                assert(self@.text[i as int] == self.text@[i as int]@);
                assert(out@ =~= old(out)@ + reply_bytes_upto(
                    self@.code,
                    self@.ecode,
                    self@.text,
                    (i + 1) as nat,
                ));
            }
            i = i + 1;
        }
    }

    /// The wire form of the reply.
    pub fn as_io_slices(&self) -> (r: std::vec::IntoIter<Vec<u8>>)
        requires
            self.text@.len() > 0,
        ensures
            chunk_of(r) == reply_bytes(self@),
    {
        let mut v: Vec<u8> = Vec::new();
        self.write_to(&mut v);
        single_chunk(v)
    }

    /// The wire form of the reply as a string; bytes that are not UTF-8
    /// (only a reply code built from such bytes has them) are replaced.
    pub fn to_string(&self) -> (r: String)
        requires
            self.text@.len() > 0,
        ensures
            r@ == lossy_utf8(reply_bytes(self@)),
            valid_utf8(reply_bytes(self@)) ==> encode_utf8(r@) == reply_bytes(self@),
    {
        let mut v: Vec<u8> = Vec::new();
        self.write_to(&mut v);
        utf8_lossy(&v)
    }
}

impl<'a> Reply<&'a str> {
    /// Copies the borrowed texts into owned `String`s.
    pub fn into_owned(self) -> (r: Reply<String>)
        ensures
            r@ == self@,
    {
        let ecode = match &self.ecode {
            Some(c) => Some(c.to_owned()),
            None => None,
        };
        let mut text: Vec<MaybeUtf8<String>> = Vec::new();
        let n = self.text.len();
        let mut i: usize = 0;
        while i < n
            invariant
                n == self.text@.len(),
                i <= n,
                text@.len() == i,
                forall|k: int| 0 <= k < i ==> (#[trigger] text@[k])@ == self.text@[k]@,
            decreases n - i,
        {
            text.push(self.text[i].to_owned());
            i = i + 1;
        }
        let r = Reply { code: self.code, ecode, text };
        assert(r@.text =~= self@.text);
        r
    }
}

} // verus!
