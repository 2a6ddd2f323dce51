//! The configuration types of the mail server, and how its command line
//! and the client's failures are read.

use vstd::prelude::*;
use vstd::utf8::valid_utf8;
use crate::text::{Text, string_of, lemma_valid_utf8_cut_at_ascii};
use crate::lex::COLON;
use crate::client::{TransportError, TransportErrorSeverity, severity_of, refused_for_good};
use crate::queue::{TransportFailure, Instant, ScheduleInfo};
use crate::misc::{Email, Hostname, Localpart};
use crate::command::opt_email_view;

verus! {

broadcast use vstd::seq::group_seq_axioms;

/// The TLS implementation to use.
#[derive(Clone, Copy, Debug, PartialEq, Eq, Structural)]
pub enum TlsHandler {
    Rustls,
}

/// Where the queue keeps its mails.
#[derive(Clone, Debug)]
pub enum QueueStorage {
    /// In a directory of the filesystem.
    Fs(String),
}

/// What the server keeps with each queued mail.
#[derive(Clone, Copy, Debug, PartialEq, Eq, Structural)]
pub struct Meta;

/// The command line of the server.
#[derive(Clone, Debug)]
pub struct Opt {
    /// Path to the wasm configuration blob.
    pub wasm_blob: String,
    /// Path to the configuration of the wasm configuration blob.
    pub config: String,
    /// Directories to make available to the wasm configuration blob, as
    /// (guest, host) pairs.
    pub dirs: Vec<(String, String)>,
}

/// The queue's configuration.
pub struct QueueConfig(());

impl QueueConfig {
    pub fn new() -> (r: QueueConfig) {
        QueueConfig(())
    }
}

/// The first `::` in `b` at or after `k`.
pub open spec fn first_double_colon(b: Seq<u8>, k: int) -> Option<int>
    decreases b.len() - k,
{
    if k < 0 || k + 2 > b.len() {
        None
    } else if b[k] == COLON && b[k + 1] == COLON {
        Some(k)
    } else {
        first_double_colon(b, k + 1)
    }
}

/// `GUEST::HOST`: the text split at `::`, when it holds exactly one.
pub open spec fn dirs_spec(b: Seq<u8>) -> Option<(Seq<u8>, Seq<u8>)> {
    match first_double_colon(b, 0) {
        None => None,
        Some(p) => match first_double_colon(b, p + 2) {
            Some(_) => None,
            None => Some((b.subrange(0, p), b.subrange(p + 2, b.len() as int))),
        },
    }
}

/// A `--dir` argument that is not `GUEST::HOST`.
#[derive(Clone, Copy, Debug, PartialEq, Eq, Structural)]
pub struct InvalidDirSyntax;

proof fn lemma_first_double_colon(b: Seq<u8>, k: int)
    requires
        0 <= k,
    ensures
        first_double_colon(b, k) matches Some(p) ==> k <= p && p + 2 <= b.len() && b[p] == COLON && b[p
            + 1] == COLON,
    decreases b.len() - k,
{
    if k + 2 <= b.len() && !(b[k] == COLON && b[k + 1] == COLON) {
        lemma_first_double_colon(b, k + 1);
    }
}

fn find_double_colon(b: &[u8], k0: usize) -> (r: Option<usize>)
    requires
        k0 <= b@.len(),
    ensures
        match r {
            Some(p) => first_double_colon(b@, k0 as int) == Some(p as int),
            None => first_double_colon(b@, k0 as int) is None,
        },
{
    let n = b.len();
    let mut k = k0;
    while k < n && n - k >= 2
        invariant
            n == b@.len(),
            k0 <= k <= n,
            first_double_colon(b@, k as int) == first_double_colon(b@, k0 as int),
        decreases n - k,
    {
        if b[k] == COLON && b[k + 1] == COLON {
            return Some(k);
        }
        k = k + 1;
    }
    None
}

/// Reads a `--dir` argument, `GUEST_DIR::HOST_DIR`.
pub fn parse_dirs(s: &str) -> (r: Result<(String, String), InvalidDirSyntax>)
    ensures
        match r {
            Ok((g, h)) => dirs_spec(s.text_bytes()) == Some((g.text_bytes(), h.text_bytes())),
            Err(_) => dirs_spec(s.text_bytes()) is None,
        },
{
    let b = s.as_bytes();
    let n = b.len();
    proof {
        s.lemma_text_valid();
    }
    let p = match find_double_colon(b, 0) {
        Some(p) => p,
        None => return Err(InvalidDirSyntax),
    };
    proof {
        lemma_first_double_colon(b@, 0);
    }
    match find_double_colon(b, p + 2) {
        Some(_) => Err(InvalidDirSyntax),
        None => {
            proof {
                lemma_valid_utf8_cut_at_ascii(b@, p as int);
                assert(b@.subrange(0, p as int) == b@.subrange(0, p as int));
                vstd::utf8::is_char_boundary_iff_not_is_continuation_byte(b@, p + 1);
                vstd::utf8::valid_utf8_split(b@, p + 1);
                let c = b@.subrange(p + 1, n as int);
                assert(c[0] == COLON);
                assert(vstd::utf8::pop_first_scalar(c) =~= b@.subrange(p + 2, n as int));
            }
            let guest = string_of(b, 0, p);
            let host = string_of(b, p + 2, n);
            Ok((guest, host))
        },
    }
}

/// The queue's view of a failure of the given severity.
pub open spec fn failure_of(s: TransportErrorSeverity) -> TransportFailure {
    match s {
        TransportErrorSeverity::Local => TransportFailure::Local,
        TransportErrorSeverity::NetworkTransient => TransportFailure::NetworkTransient,
        TransportErrorSeverity::MailTransient => TransportFailure::MailTransient,
        TransportErrorSeverity::MailboxTransient => TransportFailure::MailboxTransient,
        TransportErrorSeverity::MailSystemTransient => TransportFailure::MailSystemTransient,
        TransportErrorSeverity::MailPermanent => TransportFailure::MailPermanent,
        TransportErrorSeverity::MailboxPermanent => TransportFailure::MailboxPermanent,
        TransportErrorSeverity::MailSystemPermanent => TransportFailure::MailSystemPermanent,
    }
}

/// What a failure of the SMTP client, met while doing what `_text` says,
/// means for the queue: its severity, carried over.
pub fn transport_error_client_to_queue(err: TransportError, _text: &str) -> (r: TransportFailure)
    ensures
        r == failure_of(severity_of(err)),
{
    match err.severity() {
        TransportErrorSeverity::Local => TransportFailure::Local,
        TransportErrorSeverity::NetworkTransient => TransportFailure::NetworkTransient,
        TransportErrorSeverity::MailTransient => TransportFailure::MailTransient,
        TransportErrorSeverity::MailboxTransient => TransportFailure::MailboxTransient,
        TransportErrorSeverity::MailSystemTransient => TransportFailure::MailSystemTransient,
        TransportErrorSeverity::MailPermanent => TransportFailure::MailPermanent,
        TransportErrorSeverity::MailboxPermanent => TransportFailure::MailboxPermanent,
        TransportErrorSeverity::MailSystemPermanent => TransportFailure::MailSystemPermanent,
    }
}

/// Whether the server accepts a mail: only when its data was read up to the
/// end marker and the queue took it; otherwise it answers with an internal
/// error.
pub fn mail_accepted(finished: bool, committed: bool) -> (accept: bool)
    ensures
        accept == (finished && committed),
{
    finished && committed
}

fn copy_localpart(l: &Localpart<String>) -> (r: Localpart<String>)
    ensures
        r@ == l@,
{
    match l {
        Localpart::Ascii { raw } => Localpart::Ascii { raw: raw.clone() },
        Localpart::QuotedAscii { raw } => Localpart::QuotedAscii { raw: raw.clone() },
        Localpart::Utf8 { raw } => Localpart::Utf8 { raw: raw.clone() },
        Localpart::QuotedUtf8 { raw } => Localpart::QuotedUtf8 { raw: raw.clone() },
    }
}

fn copy_hostname(h: &Hostname<String>) -> (r: Hostname<String>)
    ensures
        r@ == h@,
{
    match h {
        Hostname::Utf8Domain { raw, punycode } => Hostname::Utf8Domain {
            raw: raw.clone(),
            punycode: punycode.clone(),
        },
        Hostname::AsciiDomain { raw } => Hostname::AsciiDomain { raw: raw.clone() },
        Hostname::Ipv6 { raw, ip } => Hostname::Ipv6 { raw: raw.clone(), ip: *ip },
        Hostname::Ipv4 { raw, ip } => Hostname::Ipv4 { raw: raw.clone(), ip: *ip },
    }
}

fn copy_email(e: &Email<String>) -> (r: Email<String>)
    ensures
        r@ == e@,
{
    let hostname = match &e.hostname {
        Some(h) => Some(copy_hostname(h)),
        None => None,
    };
    Email { localpart: copy_localpart(&e.localpart), hostname }
}

fn copy_opt_email(e: &Option<Email<String>>) -> (r: Option<Email<String>>)
    ensures
        opt_email_view(r) == opt_email_view(*e),
{
    match e {
        Some(x) => Some(copy_email(x)),
        None => None,
    }
}

/// What the queue is handed for an accepted mail: for each recipient, in
/// order, the sender, that recipient, and a schedule that tries it at
/// `now`, with no attempt made yet.
pub fn mail_destinations(from: &Option<Email<String>>, to: &Vec<Email<String>>, now: Instant) -> (v: Vec<
    (Option<Email<String>>, Email<String>, ScheduleInfo),
>)
    ensures
        v@.len() == to@.len(),
        forall|i: int|
            0 <= i < v@.len() ==> opt_email_view((#[trigger] v@[i]).0) == opt_email_view(*from) && v@[i].1@
                == to@[i]@ && v@[i].2 == (ScheduleInfo { at: now, last_attempt: None }),
{
    let mut v: Vec<(Option<Email<String>>, Email<String>, ScheduleInfo)> = Vec::new();
    let mut i: usize = 0;
    while i < to.len()
        invariant
            i <= to@.len(),
            v@.len() == i,
            forall|k: int|
                0 <= k < i ==> opt_email_view((#[trigger] v@[k]).0) == opt_email_view(*from) && v@[k].1@
                    == to@[k]@ && v@[k].2 == (ScheduleInfo { at: now, last_attempt: None }),
        decreases to@.len() - i,
    {
        let item = (copy_opt_email(from), copy_email(&to[i]), ScheduleInfo { at: now, last_attempt: None });
        v.push(item);
        i = i + 1;
    }
    v
}

/// The queue gives up on a mail (a permanent failure) exactly when the
/// client's failure carries a `5xx` refusal from the server.
pub proof fn lemma_queue_gives_up_iff_refused_for_good(e: TransportError)
    ensures
        (failure_of(severity_of(e)) == TransportFailure::MailPermanent || failure_of(severity_of(e))
            == TransportFailure::MailboxPermanent || failure_of(severity_of(e))
            == TransportFailure::MailSystemPermanent) <==> refused_for_good(e),
{
}

} // verus!
