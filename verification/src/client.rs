//! The decisions of the SMTP client: what a failure means for the queue,
//! whether a reply is the one awaited, and what to do with the bytes read
//! so far while waiting for a reply.

use vstd::prelude::*;
use vstd::utf8::{valid_utf8, encode_utf8};
use crate::lex::{ParseError, eq_no_case};
use crate::reply::{
    Reply, ReplyView, ReplyCodeKind, reply_spec, kind_of, subject_of, EnhancedReplyCodeSubject,
};
use crate::text::{utf8_lossy, lossy_utf8};
use crate::data::shift_down;

verus! {

broadcast use vstd::seq::group_seq_axioms;

/// How bad a failure to send is.
#[derive(Clone, Copy, Debug, PartialEq, Eq, Structural)]
pub enum TransportErrorSeverity {
    Local,
    NetworkTransient,
    MailTransient,
    MailboxTransient,
    MailSystemTransient,
    MailPermanent,
    MailboxPermanent,
    MailSystemPermanent,
}

/// Why sending through SMTP failed. Failures of the resolver, of the
/// network and of TLS carry their description.
#[derive(Debug)]
pub enum TransportError {
    /// Retrieving the MX records of a domain.
    DnsMx(String, String),
    /// Turning a hostname into a name to resolve.
    HostToTrustDns(String, String),
    /// Retrieving the IP records of a name.
    DnsIp(String, String),
    /// Connecting to an address and port.
    Connecting(String, u16, String),
    ReceivingReplyBytes(String),
    TimedOutWaitingForReply,
    ConnectionAborted,
    /// A reply that does not fit in the buffer, as far as it was read.
    TooLongReply(String),
    /// Bytes that do not read as a reply.
    SyntaxError(String),
    TimedOutSendingCommand,
    SendingCommand(String),
    NegotiatingTls(String),
    CannotDoTls,
    TransientMail(Reply<String>),
    TransientMailbox(Reply<String>),
    TransientMailSystem(Reply<String>),
    PermanentMail(Reply<String>),
    PermanentMailbox(Reply<String>),
    PermanentMailSystem(Reply<String>),
    UnexpectedReplyCode(Reply<String>),
    TimedOutSendingData,
    SendingData(String),
    ReadingMail(String),
}

/// The severity of each failure.
pub open spec fn severity_of(e: TransportError) -> TransportErrorSeverity {
    match e {
        TransportError::DnsMx(..) => TransportErrorSeverity::NetworkTransient,
        TransportError::HostToTrustDns(..) => TransportErrorSeverity::Local,
        TransportError::DnsIp(..) => TransportErrorSeverity::NetworkTransient,
        TransportError::Connecting(..) => TransportErrorSeverity::NetworkTransient,
        TransportError::ReceivingReplyBytes(..) => TransportErrorSeverity::NetworkTransient,
        TransportError::TimedOutWaitingForReply => TransportErrorSeverity::NetworkTransient,
        TransportError::ConnectionAborted => TransportErrorSeverity::NetworkTransient,
        TransportError::TooLongReply(..) => TransportErrorSeverity::NetworkTransient,
        TransportError::SyntaxError(..) => TransportErrorSeverity::MailSystemTransient,
        TransportError::TimedOutSendingCommand => TransportErrorSeverity::NetworkTransient,
        TransportError::SendingCommand(..) => TransportErrorSeverity::NetworkTransient,
        TransportError::NegotiatingTls(..) => TransportErrorSeverity::NetworkTransient,
        TransportError::CannotDoTls => TransportErrorSeverity::NetworkTransient,
        TransportError::TransientMail(..) => TransportErrorSeverity::MailTransient,
        TransportError::TransientMailbox(..) => TransportErrorSeverity::MailboxTransient,
        TransportError::TransientMailSystem(..) => TransportErrorSeverity::MailSystemTransient,
        TransportError::PermanentMail(..) => TransportErrorSeverity::MailPermanent,
        TransportError::PermanentMailbox(..) => TransportErrorSeverity::MailboxPermanent,
        TransportError::PermanentMailSystem(..) => TransportErrorSeverity::MailSystemPermanent,
        TransportError::UnexpectedReplyCode(..) => TransportErrorSeverity::NetworkTransient,
        TransportError::TimedOutSendingData => TransportErrorSeverity::NetworkTransient,
        TransportError::SendingData(..) => TransportErrorSeverity::NetworkTransient,
        TransportError::ReadingMail(..) => TransportErrorSeverity::Local,
    }
}

impl TransportError {
    /// How bad the failure is.
    pub fn severity(&self) -> (r: TransportErrorSeverity)
        ensures
            r == severity_of(*self),
    {
        match self {
            TransportError::DnsMx(..) => TransportErrorSeverity::NetworkTransient,
            TransportError::HostToTrustDns(..) => TransportErrorSeverity::Local,
            TransportError::DnsIp(..) => TransportErrorSeverity::NetworkTransient,
            TransportError::Connecting(..) => TransportErrorSeverity::NetworkTransient,
            TransportError::ReceivingReplyBytes(..) => TransportErrorSeverity::NetworkTransient,
            TransportError::TimedOutWaitingForReply => TransportErrorSeverity::NetworkTransient,
            TransportError::ConnectionAborted => TransportErrorSeverity::NetworkTransient,
            TransportError::TooLongReply(..) => TransportErrorSeverity::NetworkTransient,
            TransportError::SyntaxError(..) => TransportErrorSeverity::MailSystemTransient,
            TransportError::TimedOutSendingCommand => TransportErrorSeverity::NetworkTransient,
            TransportError::SendingCommand(..) => TransportErrorSeverity::NetworkTransient,
            TransportError::NegotiatingTls(..) => TransportErrorSeverity::NetworkTransient,
            TransportError::CannotDoTls => TransportErrorSeverity::NetworkTransient,
            TransportError::TransientMail(..) => TransportErrorSeverity::MailTransient,
            TransportError::TransientMailbox(..) => TransportErrorSeverity::MailboxTransient,
            TransportError::TransientMailSystem(..) => TransportErrorSeverity::MailSystemTransient,
            TransportError::PermanentMail(..) => TransportErrorSeverity::MailPermanent,
            TransportError::PermanentMailbox(..) => TransportErrorSeverity::MailboxPermanent,
            TransportError::PermanentMailSystem(..) => TransportErrorSeverity::MailSystemPermanent,
            TransportError::UnexpectedReplyCode(..) => TransportErrorSeverity::NetworkTransient,
            TransportError::TimedOutSendingData => TransportErrorSeverity::NetworkTransient,
            TransportError::SendingData(..) => TransportErrorSeverity::NetworkTransient,
            TransportError::ReadingMail(..) => TransportErrorSeverity::Local,
        }
    }
}

/// What a reply means when a reply of kind `expected` was awaited.
#[derive(Clone, Copy, Debug, PartialEq, Eq, Structural)]
pub enum ReplyVerdict {
    Accepted,
    TransientMailbox,
    PermanentMailbox,
    TransientMailSystem,
    PermanentMailSystem,
    TransientMail,
    PermanentMail,
    Unexpected,
}

/// The verdict on a reply of kind `kind`, whose enhanced code (if any) has
/// subject `subject`.
pub open spec fn verdict(
    kind: ReplyCodeKind,
    subject: Option<EnhancedReplyCodeSubject>,
    expected: ReplyCodeKind,
) -> ReplyVerdict {
    if kind == expected {
        ReplyVerdict::Accepted
    } else if kind == ReplyCodeKind::TransientNegative && subject == Some(EnhancedReplyCodeSubject::Mailbox) {
        ReplyVerdict::TransientMailbox
    } else if kind == ReplyCodeKind::PermanentNegative && subject == Some(EnhancedReplyCodeSubject::Mailbox) {
        ReplyVerdict::PermanentMailbox
    } else if kind == ReplyCodeKind::TransientNegative && subject == Some(
        EnhancedReplyCodeSubject::MailSystem,
    ) {
        ReplyVerdict::TransientMailSystem
    } else if kind == ReplyCodeKind::PermanentNegative && subject == Some(
        EnhancedReplyCodeSubject::MailSystem,
    ) {
        ReplyVerdict::PermanentMailSystem
    } else if kind == ReplyCodeKind::TransientNegative {
        ReplyVerdict::TransientMail
    } else if kind == ReplyCodeKind::PermanentNegative {
        ReplyVerdict::PermanentMail
    } else {
        ReplyVerdict::Unexpected
    }
}

/// The verdict on the reply `r`.
pub open spec fn reply_verdict(r: Reply<String>, expected: ReplyCodeKind) -> ReplyVerdict {
    verdict(
        kind_of(r.code.0@[0]),
        match r.ecode {
            Some(e) => Some(subject_of(e.raw_subject)),
            None => None,
        },
        expected,
    )
}

/// The failure that carries the reply `r` for a verdict that refuses it.
pub open spec fn refusal(v: ReplyVerdict, r: Reply<String>) -> TransportError {
    match v {
        ReplyVerdict::TransientMailbox => TransportError::TransientMailbox(r),
        ReplyVerdict::PermanentMailbox => TransportError::PermanentMailbox(r),
        ReplyVerdict::TransientMailSystem => TransportError::TransientMailSystem(r),
        ReplyVerdict::PermanentMailSystem => TransportError::PermanentMailSystem(r),
        ReplyVerdict::TransientMail => TransportError::TransientMail(r),
        ReplyVerdict::PermanentMail => TransportError::PermanentMail(r),
        _ => TransportError::UnexpectedReplyCode(r),
    }
}

/// Checks that the reply `r` is of the kind awaited; else the failure, by
/// what the reply says of the mailbox, the mail system or the mail.
pub fn verify_reply(r: Reply<String>, expected: ReplyCodeKind) -> (res: Result<(), TransportError>)
    requires
        50 <= r.code.0@[0] <= 53,
    ensures
        match res {
            Ok(()) => reply_verdict(r, expected) == ReplyVerdict::Accepted,
            Err(e) => reply_verdict(r, expected) != ReplyVerdict::Accepted && e == refusal(
                reply_verdict(r, expected),
                r,
            ),
        },
{
    let k = r.code.kind();
    let subject = match &r.ecode {
        Some(e) => Some(e.subject()),
        None => None,
    };
    if k == expected {
        return Ok(());
    }
    match (k, subject) {
        (ReplyCodeKind::TransientNegative, Some(EnhancedReplyCodeSubject::Mailbox)) => Err(
            TransportError::TransientMailbox(r),
        ),
        (ReplyCodeKind::PermanentNegative, Some(EnhancedReplyCodeSubject::Mailbox)) => Err(
            TransportError::PermanentMailbox(r),
        ),
        (ReplyCodeKind::TransientNegative, Some(EnhancedReplyCodeSubject::MailSystem)) => Err(
            TransportError::TransientMailSystem(r),
        ),
        (ReplyCodeKind::PermanentNegative, Some(EnhancedReplyCodeSubject::MailSystem)) => Err(
            TransportError::PermanentMailSystem(r),
        ),
        (ReplyCodeKind::TransientNegative, _) => Err(TransportError::TransientMail(r)),
        (ReplyCodeKind::PermanentNegative, _) => Err(TransportError::PermanentMail(r)),
        (_, _) => Err(TransportError::UnexpectedReplyCode(r)),
    }
}

/// A severity that tells the queue never to try the mail again.
pub open spec fn is_permanent(s: TransportErrorSeverity) -> bool {
    s == TransportErrorSeverity::MailPermanent || s == TransportErrorSeverity::MailboxPermanent || s
        == TransportErrorSeverity::MailSystemPermanent
}

/// A failure that carries a reply refusing with a permanent (`5xx`) code.
pub open spec fn refused_for_good(e: TransportError) -> bool {
    e is PermanentMail || e is PermanentMailbox || e is PermanentMailSystem
}

/// A failure that carries a reply refusing with a transient (`4xx`) code.
pub open spec fn refused_for_now(e: TransportError) -> bool {
    e is TransientMail || e is TransientMailbox || e is TransientMailSystem
}

/// The failure `e` carries the reply `r` as the server's refusal.
pub open spec fn carries_refusal(e: TransportError, r: Reply<String>) -> bool {
    match e {
        TransportError::TransientMail(x) => x == r,
        TransportError::TransientMailbox(x) => x == r,
        TransportError::TransientMailSystem(x) => x == r,
        TransportError::PermanentMail(x) => x == r,
        TransportError::PermanentMailbox(x) => x == r,
        TransportError::PermanentMailSystem(x) => x == r,
        _ => false,
    }
}

/// A failure is permanent exactly when the server refused with a `5xx`
/// reply: such a failure is never retried, and every other one (a `4xx`
/// refusal, or a failure that carries no refusal) may be.
pub proof fn lemma_permanent_iff_refused_for_good(e: TransportError)
    ensures
        is_permanent(severity_of(e)) <==> refused_for_good(e),
        refused_for_now(e) ==> !is_permanent(severity_of(e)),
{
}

/// A reply that is not the one awaited makes a failure that carries it;
/// the failure is a permanent one when the reply's code starts with `5`,
/// and a transient one when it starts with `4`.
pub proof fn lemma_refusal_by_code(r: Reply<String>, expected: ReplyCodeKind)
    requires
        50 <= r.code.0@[0] <= 53,
        reply_verdict(r, expected) != ReplyVerdict::Accepted,
    ensures
        r.code.0@[0] == 53 ==> carries_refusal(refusal(reply_verdict(r, expected), r), r)
            && refused_for_good(refusal(reply_verdict(r, expected), r))
            && is_permanent(severity_of(refusal(reply_verdict(r, expected), r))),
        r.code.0@[0] == 52 ==> carries_refusal(refusal(reply_verdict(r, expected), r), r)
            && refused_for_now(refusal(reply_verdict(r, expected), r))
            && !is_permanent(severity_of(refusal(reply_verdict(r, expected), r))),
        (r.code.0@[0] == 50 || r.code.0@[0] == 51) ==> !is_permanent(
            severity_of(refusal(reply_verdict(r, expected), r)),
        ),
{
}

/// A refused reply's enhanced code decides what the failure is about: a
/// subject of `2` blames the mailbox, `3` the mail system, and any other
/// subject, or no enhanced code, the mail; a `5xx` code makes it
/// permanent and a `4xx` code transient.
pub proof fn lemma_refusal_scope_by_subject(r: Reply<String>, expected: ReplyCodeKind)
    requires
        r.code.0@[0] == 52 || r.code.0@[0] == 53,
        reply_verdict(r, expected) != ReplyVerdict::Accepted,
    ensures
        ({
            let s = severity_of(refusal(reply_verdict(r, expected), r));
            let permanent = r.code.0@[0] == 53;
            if r.ecode is Some && r.ecode->0.raw_subject == 2 {
                s == (if permanent {
                    TransportErrorSeverity::MailboxPermanent
                } else {
                    TransportErrorSeverity::MailboxTransient
                })
            } else if r.ecode is Some && r.ecode->0.raw_subject == 3 {
                s == (if permanent {
                    TransportErrorSeverity::MailSystemPermanent
                } else {
                    TransportErrorSeverity::MailSystemTransient
                })
            } else {
                s == (if permanent {
                    TransportErrorSeverity::MailPermanent
                } else {
                    TransportErrorSeverity::MailTransient
                })
            }
        }),
{
}

/// A reply is accepted exactly when its code is of the kind awaited.
pub proof fn lemma_accepted_iff_kind(r: Reply<String>, expected: ReplyCodeKind)
    requires
        50 <= r.code.0@[0] <= 53,
    ensures
        (reply_verdict(r, expected) == ReplyVerdict::Accepted) <==> (expected
            == ReplyCodeKind::PositiveCompletion && r.code.0@[0] == 50 || expected
            == ReplyCodeKind::PositiveIntermediate && r.code.0@[0] == 51 || expected
            == ReplyCodeKind::TransientNegative && r.code.0@[0] == 52 || expected
            == ReplyCodeKind::PermanentNegative && r.code.0@[0] == 53),
{
}

/// `STARTTLS`
pub open spec fn starttls_word() -> Seq<u8> {
    seq![83u8, 84u8, 65u8, 82u8, 84u8, 84u8, 76u8, 83u8]
}

/// Whether an `EHLO` reply offers `STARTTLS`: one of its lines is that
/// word, in any case.
pub fn ehlo_offers_starttls(reply: &Reply<String>) -> (r: bool)
    ensures
        r == exists|k: int| 0 <= k < reply@.text.len() && #[trigger] eq_no_case(reply@.text[k].bytes(), starttls_word()),
{
    let w: [u8; 8] = [83, 84, 65, 82, 84, 84, 76, 83];
    assert(w@ =~= starttls_word());
    let n = reply.text.len();
    let mut k: usize = 0;
    while k < n
        invariant
            n == reply.text@.len(),
            n == reply@.text.len(),
            w@ == starttls_word(),
            k <= n,
            forall|q: int| 0 <= q < k ==> !#[trigger] eq_no_case(reply@.text[q].bytes(), starttls_word()),
        decreases n - k,
    {
        let line = reply.text[k].as_bytes();
        assert(reply@.text[k as int] == reply.text@[k as int]@);
        if line.len() == 8 {
            match crate::lex::tag_no_case_exec(line, 0, &w) {
                Ok(_) => {
                    assert(line@.subrange(0, 8) =~= line@);
                    return true;
                },
                Err(_) => {
                    assert(line@.subrange(0, 8) =~= line@);
                },
            }
        }
        k = k + 1;
    }
    false
}

/// The room that must be free after the bytes read, before reading more.
pub const MINIMUM_FREE_BUFSPACE: usize = 128;

/// What to do with the bytes `buf[start..end]` read so far for a reply.
pub enum ReadReplyStep {
    /// A reply was read; the bytes left over start at `start`.
    Reply { reply: Reply<String>, start: usize },
    /// More bytes must be read into `buf[end..]`; the bytes read so far now
    /// lie at `buf[start..end]`.
    ReadMore { start: usize, end: usize },
    /// The reply does not fit in the buffer: its bytes so far.
    TooLong(String),
    /// The bytes do not read as a reply.
    SyntaxError(String),
}

/// Decides, from the bytes `buf[start..end]` read so far, whether a reply
/// is there, or more must be read (moving the bytes to the start of the
/// buffer when little room is left after them), or the reply cannot be
/// read.
pub fn read_reply_step(buf: &mut [u8], start: usize, end: usize) -> (r: ReadReplyStep)
    requires
        start <= end <= old(buf)@.len(),
    ensures
        final(buf)@.len() == old(buf)@.len(),
        ({
            let x = old(buf)@.subrange(start as int, end as int);
            match r {
                ReadReplyStep::Reply { reply, start: s } => reply_spec(x, 0) matches Ok((j, v)) && v
                    == reply@ && s == start + j && final(buf)@ == old(buf)@,
                ReadReplyStep::ReadMore { start: s, end: e } => reply_spec(x, 0) == Err::<
                    (int, ReplyView),
                    ParseError,
                >(ParseError::Incomplete) && s <= e < old(buf)@.len() && final(buf)@.subrange(
                    s as int,
                    e as int,
                ) == x && (if start != 0 && MINIMUM_FREE_BUFSPACE > old(buf)@.len() - end {
                    s == 0
                } else {
                    s == start && final(buf)@ == old(buf)@
                }),
                ReadReplyStep::TooLong(t) => reply_spec(x, 0) == Err::<(int, ReplyView), ParseError>(
                    ParseError::Incomplete,
                ) && (if start != 0 && MINIMUM_FREE_BUFSPACE > old(buf)@.len() - end {
                    end - start == old(buf)@.len()
                } else {
                    end == old(buf)@.len()
                }) && t@ == lossy_utf8(x) && (valid_utf8(x) ==> encode_utf8(t@) == x),
                ReadReplyStep::SyntaxError(t) => reply_spec(x, 0) == Err::<(int, ReplyView), ParseError>(
                    ParseError::Invalid,
                ) && t@ == lossy_utf8(x) && (valid_utf8(x) ==> encode_utf8(t@) == x),
            }
        }),
{
    let ghost x = buf@.subrange(start as int, end as int);
    let n = buf.len();
    let parsed = {
        let part = &buf[start..end];
        assert(part@ == x);
        match Reply::parse(part) {
            Ok((rest, reply)) => {
                assert(part@.len() == end - start);
                assert(rest@.len() <= part@.len());
                Ok((end - rest.len(), reply))
            },
            Err(e) => Err(e),
        }
    };
    match parsed {
        Ok((s, reply)) => ReadReplyStep::Reply { reply, start: s },
        Err(ParseError::Invalid) => {
            let t = utf8_lossy(&buf[start..end]);
            ReadReplyStep::SyntaxError(t)
        },
        Err(ParseError::Incomplete) => {
            let mut s = start;
            let mut e = end;
            if start != 0 && MINIMUM_FREE_BUFSPACE > n - end {
                shift_down(buf, start, 0, end - start);
                proof {
                    assert(buf@.subrange(0, (end - start) as int) =~= x);
                }
                s = 0;
                e = end - start;
            }
            if e == n {
                let t = utf8_lossy(&buf[s..e]);
                ReadReplyStep::TooLong(t)
            } else {
                ReadReplyStep::ReadMore { start: s, end: e }
            }
        },
    }
}

} // verus!
