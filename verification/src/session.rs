//! The SMTP client's exchanges with a server, as decisions: from where an
//! exchange stands and what came of the last action, the next action.
//!
//! Opening a connection reads the banner, greets with `EHLO`, and upgrades
//! to TLS when the server offers it and the client can; sending a mail
//! goes `MAIL`, `RCPT`, `DATA`, the message, and waits for the final reply.
//! The caller performs each action (I/O, timeouts, TLS) and hands back its
//! outcome.

use vstd::prelude::*;
use crate::lex::eq_no_case;
use crate::text::{string_of, lemma_ascii_valid_utf8};
use crate::misc::{Email, Hostname, Localpart, EmailView, HostnameView};
use crate::command::{Command, CommandView, Parameters};
use crate::reply::{Reply, ReplyCodeKind};
use crate::client::{
    TransportError, ReplyVerdict, reply_verdict, refusal, verify_reply, ehlo_offers_starttls,
    starttls_word, lemma_accepted_iff_kind, lemma_refusal_by_code, carries_refusal, refused_for_good,
    refused_for_now, is_permanent, severity_of,
};

verus! {

/// What a reply is awaited for; each wait has its own timeout.
#[derive(Clone, Copy, Debug, PartialEq, Eq, Structural)]
pub enum ReplyWait {
    Banner,
    Ehlo,
    Starttls,
    Mail,
    Rcpt,
    DataInit,
    DataEnd,
}

/// What the client must do next on its connection.
#[derive(Debug)]
pub enum ClientAction {
    /// Read a reply, waiting as long as this wait allows.
    ReadReply(ReplyWait),
    /// Send this command.
    Send(Command<String>),
    /// Send `STARTTLS`.
    SendStarttls,
    /// Negotiate TLS over the connection.
    NegotiateTls,
    /// Copy the bytes of the mail, already escaped and closed, onto the
    /// connection.
    SendBody,
    /// The exchange is over, with this outcome.
    Finish(Result<(), TransportError>),
}

/// The model of an action: the command to send by its model.
pub enum ActionView {
    ReadReply(ReplyWait),
    Send(CommandView),
    SendStarttls,
    NegotiateTls,
    SendBody,
    Finish(Result<(), TransportError>),
}

impl View for ClientAction {
    type V = ActionView;

    open spec fn view(&self) -> ActionView {
        match self {
            ClientAction::ReadReply(w) => ActionView::ReadReply(*w),
            ClientAction::Send(c) => ActionView::Send(c@),
            ClientAction::SendStarttls => ActionView::SendStarttls,
            ClientAction::NegotiateTls => ActionView::NegotiateTls,
            ClientAction::SendBody => ActionView::SendBody,
            ClientAction::Finish(r) => ActionView::Finish(*r),
        }
    }
}

/// What came of the last action.
pub enum ClientEvent {
    /// A command, the TLS negotiation or the mail went out, or failed to.
    Done(Result<(), TransportError>),
    /// A reply was read, or reading one failed.
    Replied(Result<Reply<String>, TransportError>),
}

/// A reply whose code starts with a digit from `2` to `5`, as every
/// parsed reply does.
pub open spec fn event_ok(ev: ClientEvent) -> bool {
    ev matches ClientEvent::Replied(Ok(r)) ==> 50 <= r.code.0@[0] <= 53
}

/// What the client needs to open a connection.
pub struct ClientSetup {
    /// The name to greet the server with.
    pub ehlo_hostname: Hostname<String>,
    /// Whether TLS can be negotiated.
    pub can_do_tls: bool,
    /// Whether the connection must not go on without TLS.
    pub must_do_tls: bool,
}

/// Where the opening of a connection stands: which outcome it awaits.
#[derive(Clone, Copy, Debug, PartialEq, Eq, Structural)]
pub enum ConnectStage {
    Banner,
    EhloSent { after_tls: bool },
    EhloRead { after_tls: bool },
    StarttlsSent,
    StarttlsRead,
    Tls,
    Over,
}

/// Whether the event is the kind of outcome the stage awaits.
pub open spec fn connect_event_fits(stage: ConnectStage, ev: ClientEvent) -> bool {
    match stage {
        ConnectStage::Banner | ConnectStage::EhloRead { .. } | ConnectStage::StarttlsRead => ev is Replied,
        ConnectStage::EhloSent { .. } | ConnectStage::StarttlsSent | ConnectStage::Tls => ev is Done,
        ConnectStage::Over => false,
    }
}

/// The greeting with the setup's name.
pub open spec fn ehlo_view(setup: ClientSetup) -> ActionView {
    ActionView::Send(CommandView::Ehlo { hostname: setup.ehlo_hostname@ })
}

/// An `EHLO` reply offers `STARTTLS`.
pub open spec fn offers_starttls(r: Reply<String>) -> bool {
    exists|k: int| 0 <= k < r@.text.len() && #[trigger] eq_no_case(r@.text[k].bytes(), starttls_word())
}

/// How the opening ends without TLS: refused if TLS is a must.
pub open spec fn end_without_tls(setup: ClientSetup) -> (ConnectStage, ActionView) {
    if setup.must_do_tls {
        (ConnectStage::Over, ActionView::Finish(Err(TransportError::CannotDoTls)))
    } else {
        (ConnectStage::Over, ActionView::Finish(Ok(())))
    }
}

/// The end of an exchange on a failure.
pub open spec fn failed(e: TransportError) -> (ConnectStage, ActionView) {
    (ConnectStage::Over, ActionView::Finish(Err(e)))
}

/// The next stage and action of the opening of a connection.
pub open spec fn connect_next(setup: ClientSetup, stage: ConnectStage, ev: ClientEvent) -> (
    ConnectStage,
    ActionView,
) {
    match ev {
        ClientEvent::Done(Err(e)) => failed(e),
        ClientEvent::Replied(Err(e)) => failed(e),
        ClientEvent::Done(Ok(())) => match stage {
            ConnectStage::EhloSent { after_tls } => (
                ConnectStage::EhloRead { after_tls },
                ActionView::ReadReply(ReplyWait::Ehlo),
            ),
            ConnectStage::StarttlsSent => (ConnectStage::StarttlsRead, ActionView::ReadReply(ReplyWait::Starttls)),
            _ => (ConnectStage::EhloSent { after_tls: true }, ehlo_view(setup)),
        },
        ClientEvent::Replied(Ok(r)) => {
            let v = reply_verdict(r, ReplyCodeKind::PositiveCompletion);
            match stage {
                ConnectStage::Banner => if v == ReplyVerdict::Accepted {
                    (ConnectStage::EhloSent { after_tls: false }, ehlo_view(setup))
                } else {
                    failed(refusal(v, r))
                },
                ConnectStage::EhloRead { after_tls } => if v != ReplyVerdict::Accepted {
                    failed(refusal(v, r))
                } else if after_tls {
                    (ConnectStage::Over, ActionView::Finish(Ok(())))
                } else if offers_starttls(r) && setup.can_do_tls {
                    (ConnectStage::StarttlsSent, ActionView::SendStarttls)
                } else {
                    end_without_tls(setup)
                },
                _ => if v == ReplyVerdict::Accepted {
                    (ConnectStage::Tls, ActionView::NegotiateTls)
                } else {
                    end_without_tls(setup)
                },
            }
        },
    }
}

/// A copy of a hostname.
fn copy_hostname(h: &Hostname<String>) -> (r: Hostname<String>)
    ensures
        r@ == h@,
{
    match h {
        Hostname::Utf8Domain { raw, punycode } => Hostname::Utf8Domain { raw: raw.clone(), punycode: punycode.clone() },
        Hostname::AsciiDomain { raw } => Hostname::AsciiDomain { raw: raw.clone() },
        Hostname::Ipv6 { raw, ip } => Hostname::Ipv6 { raw: raw.clone(), ip: *ip },
        Hostname::Ipv4 { raw, ip } => Hostname::Ipv4 { raw: raw.clone(), ip: *ip },
    }
}

/// A copy of an address.
fn copy_email(e: &Email<String>) -> (r: Email<String>)
    ensures
        r@ == e@,
{
    let localpart = match &e.localpart {
        Localpart::Ascii { raw } => Localpart::Ascii { raw: raw.clone() },
        Localpart::QuotedAscii { raw } => Localpart::QuotedAscii { raw: raw.clone() },
        Localpart::Utf8 { raw } => Localpart::Utf8 { raw: raw.clone() },
        Localpart::QuotedUtf8 { raw } => Localpart::QuotedUtf8 { raw: raw.clone() },
    };
    let hostname = match &e.hostname {
        Some(h) => Some(copy_hostname(h)),
        None => None,
    };
    Email { localpart, hostname }
}

fn ehlo_action(setup: &ClientSetup) -> (r: ClientAction)
    ensures
        r@ == ehlo_view(*setup),
{
    ClientAction::Send(Command::Ehlo { hostname: copy_hostname(&setup.ehlo_hostname) })
}

fn end_without_tls_exec(setup: &ClientSetup) -> (r: (ConnectStage, ClientAction))
    ensures
        (r.0, r.1@) == end_without_tls(*setup),
{
    if setup.must_do_tls {
        (ConnectStage::Over, ClientAction::Finish(Err(TransportError::CannotDoTls)))
    } else {
        (ConnectStage::Over, ClientAction::Finish(Ok(())))
    }
}

/// The first step of opening a connection: read the server's banner.
pub fn connect_start() -> (r: (ConnectStage, ClientAction))
    ensures
        r.0 == ConnectStage::Banner,
        r.1@ == ActionView::ReadReply(ReplyWait::Banner),
{
    (ConnectStage::Banner, ClientAction::ReadReply(ReplyWait::Banner))
}

/// The next step of opening a connection, from the outcome `ev` of the
/// last action.
pub fn connect_step(setup: &ClientSetup, stage: ConnectStage, ev: ClientEvent) -> (r: (ConnectStage, ClientAction))
    requires
        connect_event_fits(stage, ev),
        event_ok(ev),
    ensures
        (r.0, r.1@) == connect_next(*setup, stage, ev),
{
    match ev {
        ClientEvent::Done(Err(e)) => (ConnectStage::Over, ClientAction::Finish(Err(e))),
        ClientEvent::Replied(Err(e)) => (ConnectStage::Over, ClientAction::Finish(Err(e))),
        ClientEvent::Done(Ok(())) => match stage {
            ConnectStage::EhloSent { after_tls } => (
                ConnectStage::EhloRead { after_tls },
                ClientAction::ReadReply(ReplyWait::Ehlo),
            ),
            ConnectStage::StarttlsSent => (ConnectStage::StarttlsRead, ClientAction::ReadReply(ReplyWait::Starttls)),
            _ => (ConnectStage::EhloSent { after_tls: true }, ehlo_action(setup)),
        },
        ClientEvent::Replied(Ok(r)) => {
            let ghost rg = r;
            match stage {
                ConnectStage::Banner => match verify_reply(r, ReplyCodeKind::PositiveCompletion) {
                    Ok(()) => (ConnectStage::EhloSent { after_tls: false }, ehlo_action(setup)),
                    Err(e) => (ConnectStage::Over, ClientAction::Finish(Err(e))),
                },
                ConnectStage::EhloRead { after_tls } => {
                    let tls = ehlo_offers_starttls(&r);
                    match verify_reply(r, ReplyCodeKind::PositiveCompletion) {
                        Err(e) => (ConnectStage::Over, ClientAction::Finish(Err(e))),
                        Ok(()) => if after_tls {
                            (ConnectStage::Over, ClientAction::Finish(Ok(())))
                        } else if tls && setup.can_do_tls {
                            (ConnectStage::StarttlsSent, ClientAction::SendStarttls)
                        } else {
                            end_without_tls_exec(setup)
                        },
                    }
                },
                _ => match verify_reply(r, ReplyCodeKind::PositiveCompletion) {
                    Ok(()) => (ConnectStage::Tls, ClientAction::NegotiateTls),
                    Err(_) => end_without_tls_exec(setup),
                },
            }
        },
    }
}

/// Where the sending of a mail stands: which outcome it awaits.
#[derive(Clone, Copy, Debug, PartialEq, Eq, Structural)]
pub enum SendStage {
    MailSent,
    MailRead,
    RcptSent,
    RcptRead,
    DataSent,
    DataRead,
    BodySent,
    EndRead,
    Over,
}

/// Whether the event is the kind of outcome the stage awaits.
pub open spec fn send_event_fits(stage: SendStage, ev: ClientEvent) -> bool {
    match stage {
        SendStage::MailSent | SendStage::RcptSent | SendStage::DataSent | SendStage::BodySent => ev is Done,
        SendStage::MailRead | SendStage::RcptRead | SendStage::DataRead | SendStage::EndRead => ev is Replied,
        SendStage::Over => false,
    }
}

/// `MAIL FROM:<from>`, with no source route and no parameters.
pub open spec fn mail_view(from: Option<EmailView>) -> ActionView {
    ActionView::Send(CommandView::Mail { path: None, email: from, params: Seq::empty() })
}

/// `RCPT TO:<to>`, with no source route and no parameters.
pub open spec fn rcpt_view(to: EmailView) -> ActionView {
    ActionView::Send(CommandView::Rcpt { path: None, email: to, params: Seq::empty() })
}

/// The end of sending on a failure.
pub open spec fn send_failed(e: TransportError) -> (SendStage, ActionView) {
    (SendStage::Over, ActionView::Finish(Err(e)))
}

/// After a reply awaited of kind `expected`: on to `next`, or the failure
/// that carries the reply.
pub open spec fn on_reply(r: Reply<String>, expected: ReplyCodeKind, next: (SendStage, ActionView)) -> (
    SendStage,
    ActionView,
) {
    let v = reply_verdict(r, expected);
    if v == ReplyVerdict::Accepted {
        next
    } else {
        send_failed(refusal(v, r))
    }
}

/// The next stage and action of sending a mail to `to`.
pub open spec fn send_next(to: EmailView, stage: SendStage, ev: ClientEvent) -> (SendStage, ActionView) {
    match ev {
        ClientEvent::Done(Err(e)) => send_failed(e),
        ClientEvent::Replied(Err(e)) => send_failed(e),
        ClientEvent::Done(Ok(())) => match stage {
            SendStage::MailSent => (SendStage::MailRead, ActionView::ReadReply(ReplyWait::Mail)),
            SendStage::RcptSent => (SendStage::RcptRead, ActionView::ReadReply(ReplyWait::Rcpt)),
            SendStage::DataSent => (SendStage::DataRead, ActionView::ReadReply(ReplyWait::DataInit)),
            _ => (SendStage::EndRead, ActionView::ReadReply(ReplyWait::DataEnd)),
        },
        ClientEvent::Replied(Ok(r)) => match stage {
            SendStage::MailRead => on_reply(r, ReplyCodeKind::PositiveCompletion, (SendStage::RcptSent, rcpt_view(to))),
            SendStage::RcptRead => on_reply(
                r,
                ReplyCodeKind::PositiveCompletion,
                (SendStage::DataSent, ActionView::Send(CommandView::Data)),
            ),
            SendStage::DataRead => on_reply(r, ReplyCodeKind::PositiveIntermediate, (SendStage::BodySent, ActionView::SendBody)),
            _ => on_reply(r, ReplyCodeKind::PositiveCompletion, (SendStage::Over, ActionView::Finish(Ok(())))),
        },
    }
}

/// The first step of sending a mail: `MAIL FROM`.
pub fn send_start(from: Option<Email<String>>) -> (r: (SendStage, ClientAction))
    ensures
        r.0 == SendStage::MailSent,
        r.1@ == mail_view(match from {
            Some(f) => Some(f@),
            None => None,
        }),
{
    let params: Parameters<String> = Parameters(Vec::new());
    assert(params@ =~= Seq::empty());
    let r = (SendStage::MailSent, ClientAction::Send(Command::Mail { path: None, email: from, params }));
    assert(r.1@ == mail_view(match from {
        Some(f) => Some(f@),
        None => None,
    }));
    r
}

fn accept_or_fail(
    r: Reply<String>,
    expected: ReplyCodeKind,
    next: (SendStage, ClientAction),
) -> (res: (SendStage, ClientAction))
    requires
        50 <= r.code.0@[0] <= 53,
    ensures
        (res.0, res.1@) == on_reply(r, expected, (next.0, next.1@)),
{
    match verify_reply(r, expected) {
        Ok(()) => next,
        Err(e) => (SendStage::Over, ClientAction::Finish(Err(e))),
    }
}

/// The next step of sending a mail to `to`, from the outcome `ev` of the
/// last action.
pub fn send_step(to: &Email<String>, stage: SendStage, ev: ClientEvent) -> (r: (SendStage, ClientAction))
    requires
        send_event_fits(stage, ev),
        event_ok(ev),
    ensures
        (r.0, r.1@) == send_next(to@, stage, ev),
{
    match ev {
        ClientEvent::Done(Err(e)) => (SendStage::Over, ClientAction::Finish(Err(e))),
        ClientEvent::Replied(Err(e)) => (SendStage::Over, ClientAction::Finish(Err(e))),
        ClientEvent::Done(Ok(())) => match stage {
            SendStage::MailSent => (SendStage::MailRead, ClientAction::ReadReply(ReplyWait::Mail)),
            SendStage::RcptSent => (SendStage::RcptRead, ClientAction::ReadReply(ReplyWait::Rcpt)),
            SendStage::DataSent => (SendStage::DataRead, ClientAction::ReadReply(ReplyWait::DataInit)),
            _ => (SendStage::EndRead, ClientAction::ReadReply(ReplyWait::DataEnd)),
        },
        ClientEvent::Replied(Ok(r)) => match stage {
            SendStage::MailRead => {
                let params: Parameters<String> = Parameters(Vec::new());
                assert(params@ =~= Seq::empty());
                let next = (
                    SendStage::RcptSent,
                    ClientAction::Send(Command::Rcpt { path: None, email: copy_email(to), params }),
                );
                assert(next.1@ == rcpt_view(to@));
                accept_or_fail(r, ReplyCodeKind::PositiveCompletion, next)
            },
            SendStage::RcptRead => accept_or_fail(
                r,
                ReplyCodeKind::PositiveCompletion,
                (SendStage::DataSent, ClientAction::Send(Command::Data)),
            ),
            SendStage::DataRead => accept_or_fail(
                r,
                ReplyCodeKind::PositiveIntermediate,
                (SendStage::BodySent, ClientAction::SendBody),
            ),
            _ => accept_or_fail(r, ReplyCodeKind::PositiveCompletion, (SendStage::Over, ClientAction::Finish(Ok(())))),
        },
    }
}

/// The exchanges of the records `(preference, exchange)` of `rs` with
/// preference `p`, in the order given.
pub open spec fn exchanges_with(rs: Seq<(u16, String)>, p: u16) -> Seq<String>
    decreases rs.len(),
{
    if rs.len() == 0 {
        Seq::empty()
    } else if rs.last().0 == p {
        exchanges_with(rs.drop_last(), p).push(rs.last().1)
    } else {
        exchanges_with(rs.drop_last(), p)
    }
}

/// Some record of `rs` has preference `p`.
pub open spec fn has_preference(rs: Seq<(u16, String)>, p: u16) -> bool {
    exists|k: int| 0 <= k < rs.len() && rs[k].0 == p
}

/// The exchanges of the records with preference `p`.
fn exchanges_of(records: &Vec<(u16, String)>, p: u16) -> (r: Vec<String>)
    ensures
        r@ == exchanges_with(records@, p),
{
    let n = records.len();
    let mut out: Vec<String> = Vec::new();
    let mut i: usize = 0;
    assert(records@.take(0) =~= Seq::<(u16, String)>::empty());
    while i < n
        invariant
            n == records@.len(),
            i <= n,
            out@ == exchanges_with(records@.take(i as int), p),
        decreases n - i,
    {
        assert(records@.take(i + 1).drop_last() =~= records@.take(i as int));
        if records[i].0 == p {
            out.push(records[i].1.clone());
        }
        i = i + 1;
    }
    assert(records@.take(n as int) =~= records@);
    out
}

/// The least preference of the records that is at least `floor`, if any.
fn least_preference_from(records: &Vec<(u16, String)>, floor: u32) -> (r: Option<u16>)
    ensures
        match r {
            Some(p) => floor <= p && has_preference(records@, p) && forall|k: int|
                0 <= k < records@.len() && floor <= #[trigger] records@[k].0 ==> p <= records@[k].0,
            None => forall|k: int| 0 <= k < records@.len() ==> #[trigger] records@[k].0 < floor,
        },
{
    let n = records.len();
    let mut best: Option<u16> = None;
    let mut i: usize = 0;
    while i < n
        invariant
            n == records@.len(),
            i <= n,
            match best {
                Some(p) => floor <= p && has_preference(records@, p) && forall|k: int|
                    0 <= k < i && floor <= #[trigger] records@[k].0 ==> p <= records@[k].0,
                None => forall|k: int| 0 <= k < i ==> #[trigger] records@[k].0 < floor,
            },
        decreases n - i,
    {
        let q = records[i].0;
        if floor <= q as u32 {
            match best {
                Some(p) => {
                    if q < p {
                        best = Some(q);
                    }
                },
                None => {
                    best = Some(q);
                },
            }
        }
        i = i + 1;
    }
    best
}

/// Some group of `groups` has preference `p`.
pub open spec fn has_group(groups: Seq<(u16, Vec<String>)>, p: u16) -> bool {
    exists|i: int| 0 <= i < groups.len() && groups[i].0 == p
}

/// Groups MX records `(preference, exchange)` by preference, most
/// preferred (lowest) first, each group keeping the order of its
/// exchanges: the order in which their hosts are to be tried.
pub fn mx_groups(records: &Vec<(u16, String)>) -> (r: Vec<(u16, Vec<String>)>)
    ensures
        forall|i: int, j: int| 0 <= i < j < r@.len() ==> r@[i].0 < r@[j].0,
        forall|i: int|
            0 <= i < r@.len() ==> has_preference(records@, #[trigger] r@[i].0) && r@[i].1@ == exchanges_with(
                records@,
                r@[i].0,
            ),
        forall|k: int| 0 <= k < records@.len() ==> has_group(r@, #[trigger] records@[k].0),
{
    let mut out: Vec<(u16, Vec<String>)> = Vec::new();
    let mut floor: u32 = 0;
    loop
        invariant
            floor <= 65536,
            forall|i: int, j: int| 0 <= i < j < out@.len() ==> out@[i].0 < out@[j].0,
            forall|i: int| 0 <= i < out@.len() ==> #[trigger] out@[i].0 < floor,
            forall|i: int|
                0 <= i < out@.len() ==> has_preference(records@, #[trigger] out@[i].0) && out@[i].1@
                    == exchanges_with(records@, out@[i].0),
            forall|k: int| 0 <= k < records@.len() && #[trigger] records@[k].0 < floor ==> has_group(out@, records@[k].0),
        decreases 65536 - floor,
    {
        match least_preference_from(records, floor) {
            None => {
                assert forall|k: int| 0 <= k < records@.len() implies has_group(out@, #[trigger] records@[k].0) by {
                    assert(records@[k].0 < floor);
                }
                return out;
            },
            Some(p) => {
                let names = exchanges_of(records, p);
                let ghost before = out@;
                out.push((p, names));
                proof {
                    assert(out@[before.len() as int].0 == p);
                    assert forall|k: int|
                        0 <= k < records@.len() && #[trigger] records@[k].0 < p + 1 implies has_group(
                            out@,
                            records@[k].0,
                        ) by {
                        if records@[k].0 < floor {
                            assert(has_group(before, records@[k].0));
                            let i = choose|i: int| 0 <= i < before.len() && before[i].0 == records@[k].0;
                            assert(out@[i] == before[i]);
                        } else {
                            assert(out@[before.len() as int].0 == records@[k].0);
                        }
                    }
                }
                floor = p as u32 + 1;
            },
        }
    }
}

/// `localhost`
pub open spec fn localhost_bytes() -> Seq<u8> {
    seq![108u8, 111u8, 99u8, 97u8, 108u8, 104u8, 111u8, 115u8, 116u8]
}

/// Where a mail to `to` goes: the host of the address, or `localhost`
/// for an address without one (such as `postmaster`).
pub fn destination_host(to: &Email<String>) -> (r: Hostname<String>)
    ensures
        r@ == match to.hostname {
            Some(h) => h@,
            None => HostnameView::AsciiDomain { raw: localhost_bytes() },
        },
{
    match &to.hostname {
        Some(h) => copy_hostname(h),
        None => {
            let b: [u8; 9] = [108, 111, 99, 97, 108, 104, 111, 115, 116];
            proof {
                assert(b@.subrange(0, 9) =~= b@);
                assert forall|q: int| 0 <= q < b@.len() implies #[trigger] b@[q] < 0x80 by {}
                lemma_ascii_valid_utf8(b@);
                assert(b@ =~= localhost_bytes());
            }
            Hostname::AsciiDomain { raw: string_of(&b, 0, 9) }
        },
    }
}

/// How to reach a host: at its address, or through the MX records of its
/// (ASCII) name.
#[derive(Debug)]
pub enum ConnectTarget {
    Ipv4([u8; 4]),
    Ipv6([u16; 8]),
    Mx(String),
}

/// How to reach `host`: an address literal directly, a domain through its
/// MX records, by its punycode form when it is not ASCII.
pub fn connect_target(host: &Hostname<String>) -> (r: ConnectTarget)
    ensures
        match (host, r) {
            (Hostname::Ipv4 { ip, .. }, ConnectTarget::Ipv4(a)) => a == ip,
            (Hostname::Ipv6 { ip, .. }, ConnectTarget::Ipv6(a)) => a == ip,
            (Hostname::AsciiDomain { raw }, ConnectTarget::Mx(n)) => n@ == raw@,
            (Hostname::Utf8Domain { punycode, .. }, ConnectTarget::Mx(n)) => n@ == punycode@,
            _ => false,
        },
{
    match host {
        Hostname::Ipv4 { ip, .. } => ConnectTarget::Ipv4(*ip),
        Hostname::Ipv6 { ip, .. } => ConnectTarget::Ipv6(*ip),
        Hostname::AsciiDomain { raw } => ConnectTarget::Mx(raw.clone()),
        Hostname::Utf8Domain { punycode, .. } => ConnectTarget::Mx(punycode.clone()),
    }
}

/// What the MX lookup of a domain gave.
pub enum MxLookup {
    /// The domain has no MX record.
    NoRecords,
    /// The lookup failed, for the reason given.
    Failed(String),
    /// The records found, `(preference, exchange)`.
    Records(Vec<(u16, String)>),
}

/// The hosts to try for a domain, group by group, most preferred first
/// (each group to be tried in a random order): the MX records grouped by
/// preference, or the domain itself when it has none; or the failure of
/// the lookup.
pub fn mx_candidates(domain: &String, lookup: MxLookup) -> (r: Result<Vec<(u16, Vec<String>)>, TransportError>)
    ensures
        match lookup {
            MxLookup::Failed(e) => r == Err::<Vec<(u16, Vec<String>)>, TransportError>(
                TransportError::DnsMx(*domain, e),
            ),
            MxLookup::NoRecords => r matches Ok(g) && g@.len() == 1 && g@[0].1@ == seq![*domain],
            MxLookup::Records(rs) => if rs@.len() == 0 {
                r matches Ok(g) && g@.len() == 1 && g@[0].1@ == seq![*domain]
            } else {
                r matches Ok(g) && (forall|i: int, j: int| 0 <= i < j < g@.len() ==> g@[i].0 < g@[j].0)
                    && (forall|i: int|
                    0 <= i < g@.len() ==> has_preference(rs@, #[trigger] g@[i].0) && g@[i].1@
                        == exchanges_with(rs@, g@[i].0)) && (forall|k: int|
                    0 <= k < rs@.len() ==> has_group(g@, #[trigger] rs@[k].0))
            },
        },
{
    match lookup {
        MxLookup::Failed(e) => Err(TransportError::DnsMx(domain.clone(), e)),
        MxLookup::NoRecords => {
            let r = vec![(0u16, vec![domain.clone()])];
            assert(r@[0].1@ =~= seq![*domain]);
            Ok(r)
        },
        MxLookup::Records(rs) => {
            if rs.len() == 0 {
                let r = vec![(0u16, vec![domain.clone()])];
                assert(r@[0].1@ =~= seq![*domain]);
                return Ok(r);
            }
            Ok(mx_groups(&rs))
        },
    }
}

/// What to do after trying one host of a domain.
#[derive(Debug)]
pub enum MxNext {
    /// The connection is open: stop trying.
    Connected,
    /// Try the next host, keeping the first failure met so far.
    TryNext(TransportError),
    /// No host is left: the domain fails with its first failure.
    GiveUp(TransportError),
}

/// After trying one host (`outcome`), with `first_error` the first failure
/// met so far and `more` whether hosts are left: a success ends the
/// tries; a failure is kept if it is the first, and the tries go on, or
/// end with the first failure when no host is left.
pub fn after_mx_attempt(first_error: Option<TransportError>, outcome: Result<(), TransportError>, more: bool) -> (r: MxNext)
    ensures
        match outcome {
            Ok(()) => r is Connected,
            Err(e) => {
                let f = match first_error {
                    Some(f0) => f0,
                    None => e,
                };
                if more {
                    r == MxNext::TryNext(f)
                } else {
                    r == MxNext::GiveUp(f)
                }
            },
        },
{
    match outcome {
        Ok(()) => MxNext::Connected,
        Err(e) => {
            let f = match first_error {
                Some(f0) => f0,
                None => e,
            };
            if more {
                MxNext::TryNext(f)
            } else {
                MxNext::GiveUp(f)
            }
        },
    }
}

/// The event is a reply read whose code starts with the digit `d`.
pub open spec fn replied_with(ev: ClientEvent, d: u8) -> bool {
    match ev {
        ClientEvent::Replied(Ok(r)) => r.code.0@[0] == d,
        _ => false,
    }
}

/// Sending a mail ends well only on the final reply to the message: the
/// exchange finishes with `Ok(())` exactly when, waiting for the reply
/// after the body, it reads one whose code starts with `2`.
pub proof fn lemma_send_ok_only_on_final_2xx(to: EmailView, stage: SendStage, ev: ClientEvent)
    requires
        send_event_fits(stage, ev),
        event_ok(ev),
    ensures
        send_next(to, stage, ev).1 == ActionView::Finish(Ok(())) <==> (stage == SendStage::EndRead
            && replied_with(ev, 50)),
        send_next(to, stage, ev).1 == ActionView::Finish(Ok(())) ==> send_next(to, stage, ev).0
            == SendStage::Over,
{
    match ev {
        ClientEvent::Replied(Ok(r)) => {
            lemma_accepted_iff_kind(r, ReplyCodeKind::PositiveCompletion);
            lemma_accepted_iff_kind(r, ReplyCodeKind::PositiveIntermediate);
        },
        _ => {},
    }
}

/// A reply that refuses, read at any step of sending a mail, ends the
/// exchange with a failure that carries that very reply, permanent for a
/// `5xx` code and transient for a `4xx` one; so does a `4xx` or `5xx`
/// final reply after the body.
pub proof fn lemma_send_refusal_ends_with_it(to: EmailView, stage: SendStage, r: Reply<String>)
    requires
        send_event_fits(stage, ClientEvent::Replied(Ok(r))),
        50 <= r.code.0@[0] <= 53,
        r.code.0@[0] == 52 || r.code.0@[0] == 53,
    ensures
        send_next(to, stage, ClientEvent::Replied(Ok(r))).0 == SendStage::Over,
        send_next(to, stage, ClientEvent::Replied(Ok(r))).1 matches ActionView::Finish(Err(e))
            && carries_refusal(e, r) && (r.code.0@[0] == 53 ==> refused_for_good(e) && is_permanent(
            severity_of(e),
        )) && (r.code.0@[0] == 52 ==> refused_for_now(e) && !is_permanent(severity_of(e))),
{
    let expected = if stage == SendStage::DataRead {
        ReplyCodeKind::PositiveIntermediate
    } else {
        ReplyCodeKind::PositiveCompletion
    };
    lemma_accepted_iff_kind(r, expected);
    lemma_refusal_by_code(r, expected);
}

/// A failure met while sending a mail ends the exchange with that failure.
pub proof fn lemma_send_failure_ends_with_it(to: EmailView, stage: SendStage, ev: ClientEvent)
    requires
        ev matches ClientEvent::Done(Err(_)) || ev matches ClientEvent::Replied(Err(_)),
    ensures
        send_next(to, stage, ev).0 == SendStage::Over,
        ev matches ClientEvent::Done(Err(e)) ==> send_next(to, stage, ev).1 == ActionView::Finish(Err(e)),
        ev matches ClientEvent::Replied(Err(e)) ==> send_next(to, stage, ev).1 == ActionView::Finish(Err(e)),
{
}

/// When TLS is a must, opening a connection ends well only after TLS was
/// negotiated: it finishes with `Ok(())` only on the reply to the `EHLO`
/// sent again after the TLS negotiation, and only when that reply's code
/// starts with `2`.
pub proof fn lemma_connect_ok_needs_tls(setup: ClientSetup, stage: ConnectStage, ev: ClientEvent)
    requires
        setup.must_do_tls,
        connect_event_fits(stage, ev),
        event_ok(ev),
        connect_next(setup, stage, ev).1 == ActionView::Finish(Ok(())),
    ensures
        stage == (ConnectStage::EhloRead { after_tls: true }),
        replied_with(ev, 50),
{
    match ev {
        ClientEvent::Replied(Ok(r)) => {
            lemma_accepted_iff_kind(r, ReplyCodeKind::PositiveCompletion);
        },
        _ => {},
    }
}

/// The `EHLO` after TLS is sent only once the TLS negotiation went
/// through.
pub proof fn lemma_ehlo_after_tls_follows_tls(setup: ClientSetup, stage: ConnectStage, ev: ClientEvent)
    requires
        connect_event_fits(stage, ev),
        connect_next(setup, stage, ev).0 == (ConnectStage::EhloSent { after_tls: true }),
    ensures
        stage == ConnectStage::Tls,
        ev matches ClientEvent::Done(Ok(())),
{
}

/// TLS is negotiated only after the server accepted `STARTTLS` with a `2xx`
/// reply, and `STARTTLS` is sent only when the client can do TLS.
pub proof fn lemma_tls_only_when_agreed(setup: ClientSetup, stage: ConnectStage, ev: ClientEvent)
    requires
        connect_event_fits(stage, ev),
        event_ok(ev),
    ensures
        connect_next(setup, stage, ev).1 is SendStarttls ==> setup.can_do_tls,
        connect_next(setup, stage, ev).1 is NegotiateTls ==> stage == ConnectStage::StarttlsRead
            && replied_with(ev, 50),
{
    match ev {
        ClientEvent::Replied(Ok(r)) => {
            lemma_accepted_iff_kind(r, ReplyCodeKind::PositiveCompletion);
        },
        _ => {},
    }
}

/// A greeting or an `EHLO` reply that refuses ends the opening with a
/// failure that carries that very reply, permanent for a `5xx` code and
/// transient for a `4xx` one.
pub proof fn lemma_connect_refusal_ends_with_it(setup: ClientSetup, stage: ConnectStage, r: Reply<String>)
    requires
        stage == ConnectStage::Banner || stage is EhloRead,
        r.code.0@[0] == 52 || r.code.0@[0] == 53,
    ensures
        connect_next(setup, stage, ClientEvent::Replied(Ok(r))).0 == ConnectStage::Over,
        connect_next(setup, stage, ClientEvent::Replied(Ok(r))).1 matches ActionView::Finish(Err(e))
            && carries_refusal(e, r) && (r.code.0@[0] == 53 ==> refused_for_good(e) && is_permanent(
            severity_of(e),
        )) && (r.code.0@[0] == 52 ==> refused_for_now(e) && !is_permanent(severity_of(e))),
{
    lemma_accepted_iff_kind(r, ReplyCodeKind::PositiveCompletion);
    lemma_refusal_by_code(r, ReplyCodeKind::PositiveCompletion);
}

/// A failure met while opening a connection ends the opening with that
/// failure.
pub proof fn lemma_connect_failure_ends_with_it(setup: ClientSetup, stage: ConnectStage, ev: ClientEvent)
    requires
        ev matches ClientEvent::Done(Err(_)) || ev matches ClientEvent::Replied(Err(_)),
    ensures
        connect_next(setup, stage, ev).0 == ConnectStage::Over,
        ev matches ClientEvent::Done(Err(e)) ==> connect_next(setup, stage, ev).1 == ActionView::Finish(Err(e)),
        ev matches ClientEvent::Replied(Err(e)) ==> connect_next(setup, stage, ev).1 == ActionView::Finish(Err(e)),
{
}

/// When TLS is a must and the server refuses `STARTTLS`, or its `EHLO`
/// reply does not let TLS start, the opening fails with `CannotDoTls`.
pub proof fn lemma_connect_without_tls_fails(setup: ClientSetup, stage: ConnectStage, r: Reply<String>)
    requires
        setup.must_do_tls,
        50 <= r.code.0@[0] <= 53,
        stage == ConnectStage::StarttlsRead && r.code.0@[0] != 50 || stage == (ConnectStage::EhloRead {
            after_tls: false,
        }) && r.code.0@[0] == 50 && !(offers_starttls(r) && setup.can_do_tls),
    ensures
        connect_next(setup, stage, ClientEvent::Replied(Ok(r))) == (
            ConnectStage::Over,
            ActionView::Finish(Err(TransportError::CannotDoTls)),
        ),
{
    lemma_accepted_iff_kind(r, ReplyCodeKind::PositiveCompletion);
}

} // verus!
