//! SMTP commands: their parameters, their grammar and their wire form.

use vstd::prelude::*;
use vstd::utf8::valid_utf8;
use crate::text::{Text, string_of, utf8_decode, lemma_ascii_valid_utf8};
use crate::lex::{
    ParseError, Class, span, span_exec, lemma_span, utf8_token, utf8_token_exec, lemma_utf8_token_valid,
    tag_spec, tag_exec, tag_no_case_spec, tag_no_case_exec, sp_tab_spec, sp_tab_exec, opt_sp_tab_spec,
    opt_sp_tab_exec, one_of_spec, one_of_exec, take_until_crlf_spec, take_until_crlf_exec, crlf, lemma_find_crlf,
    ends_line_at, lemma_tag_crlf_ends_line,
    chunk_of, single_chunk, class_has, is_alnum, CR, LF, SP, TAB, EQUALS, LT, GT, AT, COLON, COMMA,
};
use crate::misc::{
    MaybeUtf8, maybe_utf8_of, then_terminate, HostnameView, Hostname, hostname_spec, EmailView, Email,
    email_bytes, PathView, Path, path_bytes, email_with_path, email_with_path_spec, opt_path_view,
};

verus! {

broadcast use vstd::seq::group_seq_axioms;

/// The name of a `MAIL` or `RCPT` parameter.
#[derive(Clone, Copy, Debug, Eq, PartialEq)]
pub enum ParameterName<S> {
    Other(S),
}

impl<S: Text> View for ParameterName<S> {
    type V = Seq<u8>;

    open spec fn view(&self) -> Seq<u8> {
        match self {
            ParameterName::Other(s) => s.text_bytes(),
        }
    }
}

/// A parameter name at `i`: a letter or digit, then letters, digits and
/// dashes.
pub open spec fn param_name_spec(s: Seq<u8>, i: int) -> Result<int, ParseError> {
    if i >= s.len() {
        Err(ParseError::Incomplete)
    } else if !is_alnum(s[i]) {
        Err(ParseError::Invalid)
    } else {
        Ok(span(Class::AlnumDash, s, i + 1))
    }
}

impl ParameterName<String> {
    /// Parses a parameter name at `buf[i..]`.
    pub fn parse(buf: &[u8], i: usize) -> (r: Result<(usize, ParameterName<String>), ParseError>)
        requires
            i <= buf@.len(),
        ensures
            match r {
                Ok((j, p)) => param_name_spec(buf@, i as int) == Ok::<int, ParseError>(j as int) && p@
                    == buf@.subrange(i as int, j as int) && i < j <= buf@.len(),
                Err(e) => param_name_spec(buf@, i as int) == Err::<int, ParseError>(e),
            },
    {
        if i >= buf.len() {
            return Err(ParseError::Incomplete);
        }
        let b = buf[i];
        if !((48 <= b && b <= 57) || (65 <= b && b <= 90) || (97 <= b && b <= 122)) {
            return Err(ParseError::Invalid);
        }
        let j = span_exec(Class::AlnumDash, buf, i + 1);
        proof {
            lemma_span(Class::AlnumDash, buf@, i + 1);
            let t = buf@.subrange(i as int, j as int);
            assert forall|q: int| 0 <= q < t.len() implies #[trigger] t[q] < 0x80 by {
                assert(t[q] == buf@[i + q]);
                if q > 0 {
                    assert(class_has(Class::AlnumDash, buf@[i + q]));
                }
            }
            lemma_ascii_valid_utf8(t);
        }
        Ok((j, ParameterName::Other(string_of(buf, i, j))))
    }
}

impl<S: Text> ParameterName<S> {
    /// The wire form: the name.
    pub fn as_io_slices(&self) -> (r: std::vec::IntoIter<Vec<u8>>)
        ensures
            chunk_of(r) == self@,
    {
        let mut v: Vec<u8> = Vec::new();
        match self {
            ParameterName::Other(s) => v.extend_from_slice(s.text_as_bytes()),
        }
        single_chunk(v)
    }
}

/// The parameters of a `MAIL` or `RCPT` command, each with its optional
/// value; on the wire each comes after a space.
#[derive(Clone, Debug, Eq, PartialEq)]
pub struct Parameters<S>(pub Vec<(ParameterName<S>, Option<MaybeUtf8<S>>)>);

pub open spec fn opt_value_view<S: Text>(v: Option<MaybeUtf8<S>>) -> Option<MaybeUtf8<Seq<u8>>> {
    match v {
        Some(x) => Some(x@),
        None => None,
    }
}

impl<S: Text> View for Parameters<S> {
    type V = Seq<(Seq<u8>, Option<MaybeUtf8<Seq<u8>>>)>;

    open spec fn view(&self) -> Seq<(Seq<u8>, Option<MaybeUtf8<Seq<u8>>>)> {
        self.0@.map_values(|p: (ParameterName<S>, Option<MaybeUtf8<S>>)| (p.0@, opt_value_view(p.1)))
    }
}

/// The ASCII form of a parameter value at `k`.
pub open spec fn param_value_ascii_re(s: Seq<u8>, k: int) -> Result<int, ParseError> {
    if k >= s.len() {
        Err(ParseError::Incomplete)
    } else if span(Class::ParamValue, s, k) > k {
        Ok(span(Class::ParamValue, s, k))
    } else {
        Err(ParseError::Invalid)
    }
}

/// A parameter value at `k`, followed by one of `term`: ASCII if it can
/// be, else UTF-8.
pub open spec fn param_value_spec(s: Seq<u8>, k: int, term: Seq<u8>) -> Result<(int, MaybeUtf8<Seq<u8>>), ParseError> {
    match then_terminate(param_value_ascii_re(s, k), s, term) {
        Ok(j) => Ok((j, MaybeUtf8::Ascii(s.subrange(k, j)))),
        Err(ParseError::Incomplete) => Err(ParseError::Incomplete),
        Err(ParseError::Invalid) => match then_terminate(utf8_token(Class::ParamValue, s, k), s, term) {
            Ok(j) => Ok((j, MaybeUtf8::Utf8(s.subrange(k, j)))),
            Err(e) => Err(e),
        },
    }
}

/// `=` and a value at `n`, if they read there.
pub open spec fn opt_param_value(s: Seq<u8>, n: int, term: Seq<u8>) -> Result<(int, Option<MaybeUtf8<Seq<u8>>>), ParseError> {
    match tag_spec(s, n, seq![EQUALS]) {
        Err(ParseError::Incomplete) => Err(ParseError::Incomplete),
        Err(ParseError::Invalid) => Ok((n, None)),
        Ok(n1) => match param_value_spec(s, n1, term) {
            Ok((j, v)) => Ok((j, Some(v))),
            Err(ParseError::Incomplete) => Err(ParseError::Incomplete),
            Err(ParseError::Invalid) => Ok((n, None)),
        },
    }
}

/// Blanks, then a parameter at `k`.
pub open spec fn param_item(s: Seq<u8>, k: int, term: Seq<u8>) -> Result<(int, (Seq<u8>, Option<MaybeUtf8<Seq<u8>>>)), ParseError> {
    match sp_tab_spec(s, k) {
        Err(e) => Err(e),
        Ok(j) => match param_name_spec(s, j) {
            Err(e) => Err(e),
            Ok(n) => match opt_param_value(s, n, term) {
                Ok((e, v)) => Ok((e, (s.subrange(j, n), v))),
                Err(x) => Err(x),
            },
        },
    }
}

/// As many parameters as read at `k`.
pub open spec fn params_spec(s: Seq<u8>, k: int, term: Seq<u8>) -> Result<(int, Seq<(Seq<u8>, Option<MaybeUtf8<Seq<u8>>>)>), ParseError>
    decreases s.len() - k,
{
    match param_item(s, k, term) {
        Err(ParseError::Invalid) => Ok((k, Seq::empty())),
        Err(ParseError::Incomplete) => Err(ParseError::Incomplete),
        Ok((k2, item)) => if k < k2 <= s.len() {
            match params_spec(s, k2, term) {
                Ok((e, items)) => Ok((e, seq![item] + items)),
                Err(x) => Err(x),
            }
        } else {
            Err(ParseError::Invalid)
        },
    }
}

/// The wire form of the first `n` parameters.
pub open spec fn params_bytes_upto(ps: Seq<(Seq<u8>, Option<MaybeUtf8<Seq<u8>>>)>, n: nat) -> Seq<u8>
    decreases n,
{
    if n == 0 {
        Seq::empty()
    } else {
        let p = ps[n - 1];
        params_bytes_upto(ps, (n - 1) as nat) + seq![SP] + p.0 + match p.1 {
            Some(v) => seq![EQUALS] + v.bytes(),
            None => Seq::empty(),
        }
    }
}

/// The wire form of parameters: ` name` or ` name=value` each.
pub open spec fn params_bytes(ps: Seq<(Seq<u8>, Option<MaybeUtf8<Seq<u8>>>)>) -> Seq<u8> {
    params_bytes_upto(ps, ps.len())
}

fn param_value_exec(buf: &[u8], k: usize, term: &[u8]) -> (r: Result<(usize, MaybeUtf8<String>), ParseError>)
    requires
        k <= buf@.len(),
    ensures
        match r {
            Ok((j, v)) => param_value_spec(buf@, k as int, term@) == Ok::<(int, MaybeUtf8<Seq<u8>>), ParseError>(
                (j as int, v@),
            ) && k < j <= buf@.len(),
            Err(e) => param_value_spec(buf@, k as int, term@) == Err::<(int, MaybeUtf8<Seq<u8>>), ParseError>(e),
        },
{
    let ascii = if k >= buf.len() {
        Err(ParseError::Incomplete)
    } else {
        let j = span_exec(Class::ParamValue, buf, k);
        if j > k {
            Ok(j)
        } else {
            Err(ParseError::Invalid)
        }
    };
    match crate::misc::then_terminate_exec(ascii, buf, term) {
        Ok(j) => {
            proof {
                lemma_span(Class::ParamValue, buf@, k as int);
                let t = buf@.subrange(k as int, j as int);
                assert forall|q: int| 0 <= q < t.len() implies #[trigger] t[q] < 0x80 by {
                    assert(t[q] == buf@[k + q]);
                    assert(class_has(Class::ParamValue, buf@[k + q]));
                }
                lemma_ascii_valid_utf8(t);
            }
            return Ok((j, MaybeUtf8::Ascii(string_of(buf, k, j))));
        },
        Err(ParseError::Incomplete) => {
            return Err(ParseError::Incomplete);
        },
        Err(ParseError::Invalid) => {},
    }
    let utf8 = utf8_token_exec(Class::ParamValue, buf, k);
    match crate::misc::then_terminate_exec(utf8, buf, term) {
        Ok(j) => {
            proof {
                lemma_utf8_token_valid(Class::ParamValue, buf@, k as int);
            }
            Ok((j, MaybeUtf8::Utf8(string_of(buf, k, j))))
        },
        Err(e) => Err(e),
    }
}

fn param_item_exec(buf: &[u8], k: usize, term: &[u8]) -> (r: Result<
    (usize, (ParameterName<String>, Option<MaybeUtf8<String>>)),
    ParseError,
>)
    requires
        k <= buf@.len(),
    ensures
        match r {
            Ok((e, p)) => param_item(buf@, k as int, term@) == Ok::<
                (int, (Seq<u8>, Option<MaybeUtf8<Seq<u8>>>)),
                ParseError,
            >((e as int, (p.0@, opt_value_view(p.1)))) && k < e <= buf@.len(),
            Err(x) => param_item(buf@, k as int, term@) == Err::<
                (int, (Seq<u8>, Option<MaybeUtf8<Seq<u8>>>)),
                ParseError,
            >(x),
        },
{
    let j = match sp_tab_exec(buf, k) {
        Ok(j) => j,
        Err(e) => return Err(e),
    };
    let (n, name) = match ParameterName::parse(buf, j) {
        Ok(x) => x,
        Err(e) => return Err(e),
    };
    let eq: [u8; 1] = [EQUALS];
    assert(eq@ =~= seq![EQUALS]);
    match tag_exec(buf, n, &eq) {
        Err(ParseError::Incomplete) => Err(ParseError::Incomplete),
        Err(ParseError::Invalid) => Ok((n, (name, None))),
        Ok(n1) => match param_value_exec(buf, n1, term) {
            Ok((e, v)) => Ok((e, (name, Some(v)))),
            Err(ParseError::Incomplete) => Err(ParseError::Incomplete),
            Err(ParseError::Invalid) => Ok((n, (name, None))),
        },
    }
}

impl Parameters<String> {
    /// Parses parameters at `buf[i..]`; `term_with_sp_tab` must be the
    /// terminator with space and tab added.
    pub fn parse_until(buf: &[u8], i: usize, term_with_sp_tab: &[u8]) -> (r: Result<(usize, Parameters<String>), ParseError>)
        requires
            i <= buf@.len(),
        ensures
            match r {
                Ok((j, p)) => params_spec(buf@, i as int, term_with_sp_tab@) == Ok::<
                    (int, Seq<(Seq<u8>, Option<MaybeUtf8<Seq<u8>>>)>),
                    ParseError,
                >((j as int, p@)) && i <= j <= buf@.len(),
                Err(e) => params_spec(buf@, i as int, term_with_sp_tab@) == Err::<
                    (int, Seq<(Seq<u8>, Option<MaybeUtf8<Seq<u8>>>)>),
                    ParseError,
                >(e),
            },
    {
        let mut items: Vec<(ParameterName<String>, Option<MaybeUtf8<String>>)> = Vec::new();
        let mut k = i;
        loop
            invariant
                i <= k <= buf@.len(),
                params_spec(buf@, i as int, term_with_sp_tab@) == match params_spec(
                    buf@,
                    k as int,
                    term_with_sp_tab@,
                ) {
                    Ok((e, rest)) => Ok::<(int, Seq<(Seq<u8>, Option<MaybeUtf8<Seq<u8>>>)>), ParseError>(
                        (e, Parameters(items)@ + rest),
                    ),
                    Err(x) => Err(x),
                },
            decreases buf@.len() - k,
        {
            let ghost before = Parameters(items)@;
            match param_item_exec(buf, k, term_with_sp_tab) {
                Err(ParseError::Invalid) => {
                    let p = Parameters(items);
                    assert(p@ + Seq::<(Seq<u8>, Option<MaybeUtf8<Seq<u8>>>)>::empty() =~= p@);
                    return Ok((k, p));
                },
                Err(ParseError::Incomplete) => return Err(ParseError::Incomplete),
                Ok((k2, item)) => {
                    let ghost iv = (item.0@, opt_value_view(item.1));
                    items.push(item);
                    proof {
                        if let Ok((e, rest)) = params_spec(buf@, k2 as int, term_with_sp_tab@) {
                            assert(Parameters(items)@ + rest =~= before + (seq![iv] + rest));
                        }
                    }
                    k = k2;
                },
            }
        }
    }
}

impl<S: Text> Parameters<S> {
    /// Appends the wire form of the parameters to `out`.
    pub fn write_to(&self, out: &mut Vec<u8>)
        ensures
            final(out)@ == old(out)@ + params_bytes(self@),
    {
        let n = self.0.len();
        let mut i: usize = 0;
        while i < n
            invariant
                n == self.0@.len(),
                i <= n,
                out@ == old(out)@ + params_bytes_upto(self@, i as nat),
            decreases n - i,
        {
            let sp: [u8; 1] = [SP];
            out.extend_from_slice(&sp);
            let p = &self.0[i];
            match &p.0 {
                ParameterName::Other(name) => out.extend_from_slice(name.text_as_bytes()),
            }
            match &p.1 {
                Some(v) => {
                    let eq: [u8; 1] = [EQUALS];
                    out.extend_from_slice(&eq);
                    out.extend_from_slice(v.as_bytes());
                },
                None => {},
            }
            proof {
                assert(self@[i as int] == (self.0@[i as int].0@, opt_value_view(self.0@[i as int].1)));
                assert(out@ =~= old(out)@ + params_bytes_upto(self@, (i + 1) as nat));
            }
            i = i + 1;
        }
    }

    /// The wire form of the parameters.
    pub fn as_io_slices(&self) -> (r: std::vec::IntoIter<Vec<u8>>)
        ensures
            chunk_of(r) == params_bytes(self@),
    {
        let mut v: Vec<u8> = Vec::new();
        self.write_to(&mut v);
        single_chunk(v)
    }
}

/// The verbs of the commands.
#[derive(Clone, Copy, Debug, Eq, PartialEq, Structural)]
pub enum Verb {
    Data,
    Ehlo,
    Expn,
    Helo,
    Help,
    MailFrom,
    Noop,
    Quit,
    RcptTo,
    Rset,
    Vrfy,
}

/// The verb as written (upper case), with the `:` of `MAIL FROM:` and
/// `RCPT TO:`.
pub open spec fn verb_word(v: Verb) -> Seq<u8> {
    match v {
        Verb::Data => seq![68u8, 65u8, 84u8, 65u8],
        Verb::Ehlo => seq![69u8, 72u8, 76u8, 79u8],
        Verb::Expn => seq![69u8, 88u8, 80u8, 78u8],
        Verb::Helo => seq![72u8, 69u8, 76u8, 79u8],
        Verb::Help => seq![72u8, 69u8, 76u8, 80u8],
        Verb::MailFrom => seq![77u8, 65u8, 73u8, 76u8, 32u8, 70u8, 82u8, 79u8, 77u8, 58u8],
        Verb::Noop => seq![78u8, 79u8, 79u8, 80u8],
        Verb::Quit => seq![81u8, 85u8, 73u8, 84u8],
        Verb::RcptTo => seq![82u8, 67u8, 80u8, 84u8, 32u8, 84u8, 79u8, 58u8],
        Verb::Rset => seq![82u8, 83u8, 69u8, 84u8],
        Verb::Vrfy => seq![86u8, 82u8, 70u8, 89u8],
    }
}

fn verb_bytes(v: Verb) -> (r: Vec<u8>)
    ensures
        r@ == verb_word(v),
{
    let r = match v {
        Verb::Data => vec![68u8, 65u8, 84u8, 65u8],
        Verb::Ehlo => vec![69u8, 72u8, 76u8, 79u8],
        Verb::Expn => vec![69u8, 88u8, 80u8, 78u8],
        Verb::Helo => vec![72u8, 69u8, 76u8, 79u8],
        Verb::Help => vec![72u8, 69u8, 76u8, 80u8],
        Verb::MailFrom => vec![77u8, 65u8, 73u8, 76u8, 32u8, 70u8, 82u8, 79u8, 77u8, 58u8],
        Verb::Noop => vec![78u8, 79u8, 79u8, 80u8],
        Verb::Quit => vec![81u8, 85u8, 73u8, 84u8],
        Verb::RcptTo => vec![82u8, 67u8, 80u8, 84u8, 32u8, 84u8, 79u8, 58u8],
        Verb::Rset => vec![82u8, 83u8, 69u8, 84u8],
        Verb::Vrfy => vec![86u8, 82u8, 70u8, 89u8],
    };
    assert(r@ =~= verb_word(v));
    r
}

/// `[ \t\r]`: what may follow a hostname, an address or a parameter.
pub open spec fn blank_or_cr() -> Seq<u8> {
    seq![SP, TAB, CR]
}

/// A command with no argument: the verb, blanks, `\r\n`.
#[verifier::opaque]
pub open spec fn bare_cmd_spec(s: Seq<u8>, i: int, v: Verb) -> Result<int, ParseError> {
    match tag_no_case_spec(s, i, verb_word(v)) {
        Err(e) => Err(e),
        Ok(k) => match opt_sp_tab_spec(s, k) {
            Err(e) => Err(e),
            Ok(k2) => tag_spec(s, k2, crlf()),
        },
    }
}

/// `EHLO` or `HELO`: the verb, blanks, a hostname, blanks, `\r\n`.
#[verifier::opaque]
pub open spec fn hello_cmd_spec(s: Seq<u8>, i: int, v: Verb) -> Result<(int, HostnameView), ParseError> {
    match tag_no_case_spec(s, i, verb_word(v)) {
        Err(e) => Err(e),
        Ok(k) => match sp_tab_spec(s, k) {
            Err(e) => Err(e),
            Ok(k2) => match hostname_spec(s, k2, blank_or_cr()) {
                Err(e) => Err(e),
                Ok((k3, h)) => match opt_sp_tab_spec(s, k3) {
                    Err(e) => Err(e),
                    Ok(k4) => match tag_spec(s, k4, crlf()) {
                        Ok(k5) => Ok((k5, h)),
                        Err(e) => Err(e),
                    },
                },
            },
        },
    }
}

/// The text `s[k..p]` of a command, which must be UTF-8.
pub open spec fn text_arg(s: Seq<u8>, k: int, p: int) -> Result<(int, MaybeUtf8<Seq<u8>>), ParseError> {
    if valid_utf8(s.subrange(k, p)) {
        Ok((p + 2, maybe_utf8_of(s.subrange(k, p))))
    } else {
        Err(ParseError::Invalid)
    }
}

/// `EXPN` or `VRFY`: the verb, a blank, a text up to `\r\n`.
#[verifier::opaque]
pub open spec fn text_cmd_spec(s: Seq<u8>, i: int, v: Verb) -> Result<(int, MaybeUtf8<Seq<u8>>), ParseError> {
    match tag_no_case_spec(s, i, verb_word(v)) {
        Err(e) => Err(e),
        Ok(k) => match one_of_spec(s, k, seq![SP, TAB]) {
            Err(e) => Err(e),
            Ok(k2) => match take_until_crlf_spec(s, k2) {
                Err(e) => Err(e),
                Ok(p) => text_arg(s, k2, p),
            },
        },
    }
}

/// `HELP` or `NOOP`: the verb, then a blank and a text up to `\r\n`, or
/// `\r\n` at once.
#[verifier::opaque]
pub open spec fn opt_text_cmd_spec(s: Seq<u8>, i: int, v: Verb) -> Result<(int, MaybeUtf8<Seq<u8>>), ParseError> {
    match tag_no_case_spec(s, i, verb_word(v)) {
        Err(e) => Err(e),
        Ok(k) => match one_of_spec(s, k, seq![SP, TAB]) {
            Ok(k2) => match take_until_crlf_spec(s, k2) {
                Err(e) => Err(e),
                Ok(p) => text_arg(s, k2, p),
            },
            Err(ParseError::Incomplete) => Err(ParseError::Incomplete),
            Err(ParseError::Invalid) => match tag_spec(s, k, crlf()) {
                Ok(k3) => Ok((k3, MaybeUtf8::Ascii(Seq::empty()))),
                Err(e) => Err(e),
            },
        },
    }
}

/// The model of a command.
pub enum CommandView {
    Data,
    Ehlo { hostname: HostnameView },
    Expn { name: MaybeUtf8<Seq<u8>> },
    Helo { hostname: HostnameView },
    Help { subject: MaybeUtf8<Seq<u8>> },
    Mail { path: Option<PathView>, email: Option<EmailView>, params: Seq<(Seq<u8>, Option<MaybeUtf8<Seq<u8>>>)> },
    Noop { string: MaybeUtf8<Seq<u8>> },
    Quit,
    Rcpt { path: Option<PathView>, email: EmailView, params: Seq<(Seq<u8>, Option<MaybeUtf8<Seq<u8>>>)> },
    Rset,
    Vrfy { name: MaybeUtf8<Seq<u8>> },
}

/// The end of `MAIL` and `RCPT`: parameters, blanks, `\r\n`.
pub open spec fn params_tail_spec(s: Seq<u8>, k: int) -> Result<(int, Seq<(Seq<u8>, Option<MaybeUtf8<Seq<u8>>>)>), ParseError> {
    match params_spec(s, k, blank_or_cr()) {
        Err(e) => Err(e),
        Ok((k2, ps)) => match opt_sp_tab_spec(s, k2) {
            Err(e) => Err(e),
            Ok(k3) => match tag_spec(s, k3, crlf()) {
                Ok(k4) => Ok((k4, ps)),
                Err(e) => Err(e),
            },
        },
    }
}

/// An address with its optional route, ended by one of `[ \t\r]`.
pub open spec fn cmd_address_spec(s: Seq<u8>, k: int) -> Result<(int, (Option<PathView>, EmailView)), ParseError> {
    email_with_path_spec(
        s,
        k,
        blank_or_cr(),
        blank_or_cr().push(AT),
        blank_or_cr().push(GT),
        blank_or_cr().push(AT).push(GT),
    )
}

/// `MAIL FROM:`, blanks, `<>` or an address, then the parameters.
#[verifier::opaque]
pub open spec fn mail_cmd_spec(s: Seq<u8>, i: int) -> Result<(int, CommandView), ParseError> {
    match tag_no_case_spec(s, i, verb_word(Verb::MailFrom)) {
        Err(e) => Err(e),
        Ok(k) => match opt_sp_tab_spec(s, k) {
            Err(e) => Err(e),
            Ok(k2) => {
                let addr = match tag_spec(s, k2, seq![LT, GT]) {
                    Ok(k3) => Ok((k3, None)),
                    Err(ParseError::Incomplete) => Err(ParseError::Incomplete),
                    Err(ParseError::Invalid) => match cmd_address_spec(s, k2) {
                        Ok((k3, a)) => Ok((k3, Some(a))),
                        Err(e) => Err(e),
                    },
                };
                match addr {
                    Err(e) => Err(e),
                    Ok((k3, a)) => match params_tail_spec(s, k3) {
                        Err(e) => Err(e),
                        Ok((k4, ps)) => Ok(
                            (
                                k4,
                                match a {
                                    None => CommandView::Mail { path: None, email: None, params: ps },
                                    Some((p, e)) => CommandView::Mail { path: p, email: Some(e), params: ps },
                                },
                            ),
                        ),
                    },
                }
            },
        },
    }
}

/// `RCPT TO:`, blanks, an address, then the parameters.
#[verifier::opaque]
pub open spec fn rcpt_cmd_spec(s: Seq<u8>, i: int) -> Result<(int, CommandView), ParseError> {
    match tag_no_case_spec(s, i, verb_word(Verb::RcptTo)) {
        Err(e) => Err(e),
        Ok(k) => match opt_sp_tab_spec(s, k) {
            Err(e) => Err(e),
            Ok(k2) => match cmd_address_spec(s, k2) {
                Err(e) => Err(e),
                Ok((k3, (p, e))) => match params_tail_spec(s, k3) {
                    Err(x) => Err(x),
                    Ok((k4, ps)) => Ok((k4, CommandView::Rcpt { path: p, email: e, params: ps })),
                },
            },
        },
    }
}

/// The outcome of one alternative of the command grammar at `i`.
pub open spec fn command_alt(s: Seq<u8>, i: int, v: Verb) -> Result<(int, CommandView), ParseError> {
    match v {
        Verb::Data => match bare_cmd_spec(s, i, v) {
            Ok(j) => Ok((j, CommandView::Data)),
            Err(e) => Err(e),
        },
        Verb::Ehlo => match hello_cmd_spec(s, i, v) {
            Ok((j, h)) => Ok((j, CommandView::Ehlo { hostname: h })),
            Err(e) => Err(e),
        },
        Verb::Expn => match text_cmd_spec(s, i, v) {
            Ok((j, t)) => Ok((j, CommandView::Expn { name: t })),
            Err(e) => Err(e),
        },
        Verb::Helo => match hello_cmd_spec(s, i, v) {
            Ok((j, h)) => Ok((j, CommandView::Helo { hostname: h })),
            Err(e) => Err(e),
        },
        Verb::Help => match opt_text_cmd_spec(s, i, v) {
            Ok((j, t)) => Ok((j, CommandView::Help { subject: t })),
            Err(e) => Err(e),
        },
        Verb::MailFrom => mail_cmd_spec(s, i),
        Verb::Noop => match opt_text_cmd_spec(s, i, v) {
            Ok((j, t)) => Ok((j, CommandView::Noop { string: t })),
            Err(e) => Err(e),
        },
        Verb::Quit => match bare_cmd_spec(s, i, v) {
            Ok(j) => Ok((j, CommandView::Quit)),
            Err(e) => Err(e),
        },
        Verb::RcptTo => rcpt_cmd_spec(s, i),
        Verb::Rset => match bare_cmd_spec(s, i, v) {
            Ok(j) => Ok((j, CommandView::Rset)),
            Err(e) => Err(e),
        },
        Verb::Vrfy => match text_cmd_spec(s, i, v) {
            Ok((j, t)) => Ok((j, CommandView::Vrfy { name: t })),
            Err(e) => Err(e),
        },
    }
}

/// The verbs in the order the grammar tries them.
pub open spec fn verb_order() -> Seq<Verb> {
    seq![
        Verb::Data,
        Verb::Ehlo,
        Verb::Expn,
        Verb::Helo,
        Verb::Help,
        Verb::MailFrom,
        Verb::Noop,
        Verb::Quit,
        Verb::RcptTo,
        Verb::Rset,
        Verb::Vrfy,
    ]
}

/// The alternatives from the `n`-th on: the first that does not fail as
/// invalid decides.
pub open spec fn command_from(s: Seq<u8>, i: int, n: nat) -> Result<(int, CommandView), ParseError>
    decreases 11 - n,
{
    if n >= 11 {
        Err(ParseError::Invalid)
    } else {
        match command_alt(s, i, verb_order()[n as int]) {
            Err(ParseError::Invalid) => command_from(s, i, n + 1),
            r => r,
        }
    }
}

/// A command at `i`.
pub open spec fn command_spec(s: Seq<u8>, i: int) -> Result<(int, CommandView), ParseError> {
    command_from(s, i, 0)
}

/// An SMTP command.
#[derive(Clone, Debug, Eq, PartialEq)]
pub enum Command<S> {
    /// `DATA <CRLF>`
    Data,
    /// `EHLO <hostname> <CRLF>`
    Ehlo { hostname: Hostname<S> },
    /// `EXPN <name> <CRLF>`
    Expn { name: MaybeUtf8<S> },
    /// `HELO <hostname> <CRLF>`
    Helo { hostname: Hostname<S> },
    /// `HELP [<subject>] <CRLF>`
    Help { subject: MaybeUtf8<S> },
    /// `MAIL FROM:<@ONE,@TWO:JOE@THREE> [SP <mail-parameters>] <CRLF>`
    Mail { path: Option<Path<S>>, email: Option<Email<S>>, params: Parameters<S> },
    /// `NOOP [<string>] <CRLF>`
    Noop { string: MaybeUtf8<S> },
    /// `QUIT <CRLF>`
    Quit,
    /// `RCPT TO:<@ONE,@TWO:JOE@THREE> [SP <rcpt-parameters>] <CRLF>`
    Rcpt { path: Option<Path<S>>, email: Email<S>, params: Parameters<S> },
    /// `RSET <CRLF>`
    Rset,
    /// `VRFY <name> <CRLF>`
    Vrfy { name: MaybeUtf8<S> },
}

pub open spec fn opt_email_view<S: Text>(e: Option<Email<S>>) -> Option<EmailView> {
    match e {
        Some(x) => Some(x@),
        None => None,
    }
}

impl<S: Text> View for Command<S> {
    type V = CommandView;

    open spec fn view(&self) -> CommandView {
        match self {
            Command::Data => CommandView::Data,
            Command::Ehlo { hostname } => CommandView::Ehlo { hostname: hostname@ },
            Command::Expn { name } => CommandView::Expn { name: name@ },
            Command::Helo { hostname } => CommandView::Helo { hostname: hostname@ },
            Command::Help { subject } => CommandView::Help { subject: subject@ },
            Command::Mail { path, email, params } => CommandView::Mail {
                path: opt_path_view(*path),
                email: opt_email_view(*email),
                params: params@,
            },
            Command::Noop { string } => CommandView::Noop { string: string@ },
            Command::Quit => CommandView::Quit,
            Command::Rcpt { path, email, params } => CommandView::Rcpt {
                path: opt_path_view(*path),
                email: email@,
                params: params@,
            },
            Command::Rset => CommandView::Rset,
            Command::Vrfy { name } => CommandView::Vrfy { name: name@ },
        }
    }
}

fn crlf_arr() -> (r: [u8; 2])
    ensures
        r@ == crlf(),
{
    let r: [u8; 2] = [CR, LF];
    assert(r@ =~= crlf());
    r
}

fn blank_or_cr_arr() -> (r: [u8; 3])
    ensures
        r@ == blank_or_cr(),
{
    let r: [u8; 3] = [SP, TAB, CR];
    assert(r@ =~= blank_or_cr());
    r
}

proof fn lemma_until_crlf_ends_line(s: Seq<u8>, k: int)
    requires
        0 <= k,
        take_until_crlf_spec(s, k) is Ok,
    ensures
        ends_line_at(s, take_until_crlf_spec(s, k)->Ok_0 + 2),
{
    lemma_find_crlf(s, k);
}

fn bare_cmd_exec(buf: &[u8], i: usize, v: Verb) -> (r: Result<usize, ParseError>)
    requires
        i <= buf@.len(),
    ensures
        match r {
            Ok(j) => bare_cmd_spec(buf@, i as int, v) == Ok::<int, ParseError>(j as int) && i < j <= buf@.len()
                && ends_line_at(buf@, j as int),
            Err(e) => bare_cmd_spec(buf@, i as int, v) == Err::<int, ParseError>(e),
        },
{
    reveal(bare_cmd_spec);
    let w = verb_bytes(v);
    let nl = crlf_arr();
    let k = match tag_no_case_exec(buf, i, w.as_slice()) {
        Ok(k) => k,
        Err(e) => return Err(e),
    };
    let k2 = match opt_sp_tab_exec(buf, k) {
        Ok(k2) => k2,
        Err(e) => return Err(e),
    };
    let r = tag_exec(buf, k2, &nl);
    proof {
        if r is Ok {
            lemma_tag_crlf_ends_line(buf@, k2 as int);
        }
    }
    r
}

fn hello_cmd_exec(buf: &[u8], i: usize, v: Verb) -> (r: Result<(usize, Hostname<String>), ParseError>)
    requires
        i <= buf@.len(),
    ensures
        match r {
            Ok((j, h)) => hello_cmd_spec(buf@, i as int, v) == Ok::<(int, HostnameView), ParseError>(
                (j as int, h@),
            ) && i < j <= buf@.len() && ends_line_at(buf@, j as int),
            Err(e) => hello_cmd_spec(buf@, i as int, v) == Err::<(int, HostnameView), ParseError>(e),
        },
{
    reveal(hello_cmd_spec);
    let w = verb_bytes(v);
    let nl = crlf_arr();
    let term = blank_or_cr_arr();
    let k = match tag_no_case_exec(buf, i, w.as_slice()) {
        Ok(k) => k,
        Err(e) => return Err(e),
    };
    let k2 = match sp_tab_exec(buf, k) {
        Ok(k2) => k2,
        Err(e) => return Err(e),
    };
    let (k3, h) = match Hostname::parse_until(buf, k2, &term) {
        Ok(x) => x,
        Err(e) => return Err(e),
    };
    let k4 = match opt_sp_tab_exec(buf, k3) {
        Ok(k4) => k4,
        Err(e) => return Err(e),
    };
    match tag_exec(buf, k4, &nl) {
        Ok(k5) => {
            proof {
                lemma_tag_crlf_ends_line(buf@, k4 as int);
            }
            Ok((k5, h))
        },
        Err(e) => Err(e),
    }
}

fn text_arg_exec(buf: &[u8], k: usize, p: usize) -> (r: Result<(usize, MaybeUtf8<String>), ParseError>)
    requires
        k <= p,
        p + 2 <= buf@.len(),
    ensures
        match r {
            Ok((j, t)) => text_arg(buf@, k as int, p as int) == Ok::<(int, MaybeUtf8<Seq<u8>>), ParseError>(
                (j as int, t@),
            ) && j == p + 2,
            Err(e) => text_arg(buf@, k as int, p as int) == Err::<(int, MaybeUtf8<Seq<u8>>), ParseError>(e),
        },
{
    let n = buf.len();
    let part = &buf[k..p];
    assert(part@ == buf@.subrange(k as int, p as int));
    match utf8_decode(part) {
        Ok(s) => Ok((p + 2, MaybeUtf8::from_text(s))),
        Err(_) => Err(ParseError::Invalid),
    }
}

fn text_cmd_exec(buf: &[u8], i: usize, v: Verb) -> (r: Result<(usize, MaybeUtf8<String>), ParseError>)
    requires
        i <= buf@.len(),
    ensures
        match r {
            Ok((j, t)) => text_cmd_spec(buf@, i as int, v) == Ok::<(int, MaybeUtf8<Seq<u8>>), ParseError>(
                (j as int, t@),
            ) && i < j <= buf@.len() && ends_line_at(buf@, j as int),
            Err(e) => text_cmd_spec(buf@, i as int, v) == Err::<(int, MaybeUtf8<Seq<u8>>), ParseError>(e),
        },
{
    reveal(text_cmd_spec);
    let w = verb_bytes(v);
    let blanks: [u8; 2] = [SP, TAB];
    assert(blanks@ =~= seq![SP, TAB]);
    let k = match tag_no_case_exec(buf, i, w.as_slice()) {
        Ok(k) => k,
        Err(e) => return Err(e),
    };
    let k2 = match one_of_exec(buf, k, &blanks) {
        Ok(k2) => k2,
        Err(e) => return Err(e),
    };
    match take_until_crlf_exec(buf, k2) {
        Err(e) => Err(e),
        Ok(p) => {
            proof {
                lemma_until_crlf_ends_line(buf@, k2 as int);
            }
            text_arg_exec(buf, k2, p)
        },
    }
}

fn opt_text_cmd_exec(buf: &[u8], i: usize, v: Verb) -> (r: Result<(usize, MaybeUtf8<String>), ParseError>)
    requires
        i <= buf@.len(),
    ensures
        match r {
            Ok((j, t)) => opt_text_cmd_spec(buf@, i as int, v) == Ok::<(int, MaybeUtf8<Seq<u8>>), ParseError>(
                (j as int, t@),
            ) && i < j <= buf@.len() && ends_line_at(buf@, j as int),
            Err(e) => opt_text_cmd_spec(buf@, i as int, v) == Err::<(int, MaybeUtf8<Seq<u8>>), ParseError>(e),
        },
{
    reveal(opt_text_cmd_spec);
    let w = verb_bytes(v);
    let nl = crlf_arr();
    let blanks: [u8; 2] = [SP, TAB];
    assert(blanks@ =~= seq![SP, TAB]);
    let k = match tag_no_case_exec(buf, i, w.as_slice()) {
        Ok(k) => k,
        Err(e) => return Err(e),
    };
    match one_of_exec(buf, k, &blanks) {
        Ok(k2) => match take_until_crlf_exec(buf, k2) {
            Err(e) => Err(e),
            Ok(p) => {
                proof {
                    lemma_until_crlf_ends_line(buf@, k2 as int);
                }
                text_arg_exec(buf, k2, p)
            },
        },
        Err(ParseError::Incomplete) => Err(ParseError::Incomplete),
        Err(ParseError::Invalid) => match tag_exec(buf, k, &nl) {
            Ok(k3) => {
                proof {
                    lemma_tag_crlf_ends_line(buf@, k as int);
                }
                let e = String::new();
                assert(e@ =~= Seq::<char>::empty());
                assert(vstd::utf8::encode_utf8(e@) =~= Seq::<u8>::empty());
                Ok((k3, MaybeUtf8::Ascii(e)))
            },
            Err(e) => Err(e),
        },
    }
}

fn params_tail_exec(buf: &[u8], k: usize) -> (r: Result<(usize, Parameters<String>), ParseError>)
    requires
        k <= buf@.len(),
    ensures
        match r {
            Ok((j, ps)) => params_tail_spec(buf@, k as int) == Ok::<
                (int, Seq<(Seq<u8>, Option<MaybeUtf8<Seq<u8>>>)>),
                ParseError,
            >((j as int, ps@)) && k < j <= buf@.len() && ends_line_at(buf@, j as int),
            Err(e) => params_tail_spec(buf@, k as int) == Err::<
                (int, Seq<(Seq<u8>, Option<MaybeUtf8<Seq<u8>>>)>),
                ParseError,
            >(e),
        },
{
    let term = blank_or_cr_arr();
    let nl = crlf_arr();
    let (k2, ps) = match Parameters::parse_until(buf, k, &term) {
        Ok(x) => x,
        Err(e) => return Err(e),
    };
    let k3 = match opt_sp_tab_exec(buf, k2) {
        Ok(k3) => k3,
        Err(e) => return Err(e),
    };
    match tag_exec(buf, k3, &nl) {
        Ok(k4) => {
            proof {
                lemma_tag_crlf_ends_line(buf@, k3 as int);
            }
            Ok((k4, ps))
        },
        Err(e) => Err(e),
    }
}

fn cmd_address_exec(buf: &[u8], k: usize) -> (r: Result<(usize, (Option<Path<String>>, Email<String>)), ParseError>)
    requires
        k <= buf@.len(),
    ensures
        match r {
            Ok((j, (p, e))) => cmd_address_spec(buf@, k as int) == Ok::<
                (int, (Option<PathView>, EmailView)),
                ParseError,
            >((j as int, (opt_path_view(p), e@))) && k < j <= buf@.len(),
            Err(x) => cmd_address_spec(buf@, k as int) == Err::<
                (int, (Option<PathView>, EmailView)),
                ParseError,
            >(x),
        },
{
    let t: [u8; 3] = [SP, TAB, CR];
    let ta: [u8; 4] = [SP, TAB, CR, AT];
    let tb: [u8; 4] = [SP, TAB, CR, GT];
    let tba: [u8; 5] = [SP, TAB, CR, AT, GT];
    assert(t@ =~= blank_or_cr());
    assert(ta@ =~= blank_or_cr().push(AT));
    assert(tb@ =~= blank_or_cr().push(GT));
    assert(tba@ =~= blank_or_cr().push(AT).push(GT));
    email_with_path(buf, k, &t, &ta, &tb, &tba)
}

fn mail_cmd_exec(buf: &[u8], i: usize) -> (r: Result<(usize, Command<String>), ParseError>)
    requires
        i <= buf@.len(),
    ensures
        match r {
            Ok((j, c)) => mail_cmd_spec(buf@, i as int) == Ok::<(int, CommandView), ParseError>((j as int, c@))
                && i < j <= buf@.len() && ends_line_at(buf@, j as int),
            Err(e) => mail_cmd_spec(buf@, i as int) == Err::<(int, CommandView), ParseError>(e),
        },
{
    reveal(mail_cmd_spec);
    let w = verb_bytes(Verb::MailFrom);
    let k = match tag_no_case_exec(buf, i, w.as_slice()) {
        Ok(k) => k,
        Err(e) => return Err(e),
    };
    let k2 = match opt_sp_tab_exec(buf, k) {
        Ok(k2) => k2,
        Err(e) => return Err(e),
    };
    let empty: [u8; 2] = [LT, GT];
    assert(empty@ =~= seq![LT, GT]);
    let (k3, a) = match tag_exec(buf, k2, &empty) {
        Ok(k3) => (k3, None),
        Err(ParseError::Incomplete) => return Err(ParseError::Incomplete),
        Err(ParseError::Invalid) => match cmd_address_exec(buf, k2) {
            Ok((k3, a)) => (k3, Some(a)),
            Err(e) => return Err(e),
        },
    };
    let (k4, params) = match params_tail_exec(buf, k3) {
        Ok(x) => x,
        Err(e) => return Err(e),
    };
    match a {
        None => Ok((k4, Command::Mail { path: None, email: None, params })),
        Some((path, email)) => Ok((k4, Command::Mail { path, email: Some(email), params })),
    }
}

fn rcpt_cmd_exec(buf: &[u8], i: usize) -> (r: Result<(usize, Command<String>), ParseError>)
    requires
        i <= buf@.len(),
    ensures
        match r {
            Ok((j, c)) => rcpt_cmd_spec(buf@, i as int) == Ok::<(int, CommandView), ParseError>((j as int, c@))
                && i < j <= buf@.len() && ends_line_at(buf@, j as int),
            Err(e) => rcpt_cmd_spec(buf@, i as int) == Err::<(int, CommandView), ParseError>(e),
        },
{
    reveal(rcpt_cmd_spec);
    let w = verb_bytes(Verb::RcptTo);
    let k = match tag_no_case_exec(buf, i, w.as_slice()) {
        Ok(k) => k,
        Err(e) => return Err(e),
    };
    let k2 = match opt_sp_tab_exec(buf, k) {
        Ok(k2) => k2,
        Err(e) => return Err(e),
    };
    let (k3, (path, email)) = match cmd_address_exec(buf, k2) {
        Ok(x) => x,
        Err(e) => return Err(e),
    };
    match params_tail_exec(buf, k3) {
        Ok((k4, params)) => Ok((k4, Command::Rcpt { path, email, params })),
        Err(e) => Err(e),
    }
}

fn command_alt_exec(buf: &[u8], i: usize, v: Verb) -> (r: Result<(usize, Command<String>), ParseError>)
    requires
        i <= buf@.len(),
    ensures
        match r {
            Ok((j, c)) => command_alt(buf@, i as int, v) == Ok::<(int, CommandView), ParseError>(
                (j as int, c@),
            ) && i < j <= buf@.len() && ends_line_at(buf@, j as int),
            Err(e) => command_alt(buf@, i as int, v) == Err::<(int, CommandView), ParseError>(e),
        },
{
    match v {
        Verb::Data => match bare_cmd_exec(buf, i, v) {
            Ok(j) => Ok((j, Command::Data)),
            Err(e) => Err(e),
        },
        Verb::Ehlo => match hello_cmd_exec(buf, i, v) {
            Ok((j, h)) => Ok((j, Command::Ehlo { hostname: h })),
            Err(e) => Err(e),
        },
        Verb::Expn => match text_cmd_exec(buf, i, v) {
            Ok((j, t)) => Ok((j, Command::Expn { name: t })),
            Err(e) => Err(e),
        },
        Verb::Helo => match hello_cmd_exec(buf, i, v) {
            Ok((j, h)) => Ok((j, Command::Helo { hostname: h })),
            Err(e) => Err(e),
        },
        Verb::Help => match opt_text_cmd_exec(buf, i, v) {
            Ok((j, t)) => Ok((j, Command::Help { subject: t })),
            Err(e) => Err(e),
        },
        Verb::MailFrom => mail_cmd_exec(buf, i),
        Verb::Noop => match opt_text_cmd_exec(buf, i, v) {
            Ok((j, t)) => Ok((j, Command::Noop { string: t })),
            Err(e) => Err(e),
        },
        Verb::Quit => match bare_cmd_exec(buf, i, v) {
            Ok(j) => Ok((j, Command::Quit)),
            Err(e) => Err(e),
        },
        Verb::RcptTo => rcpt_cmd_exec(buf, i),
        Verb::Rset => match bare_cmd_exec(buf, i, v) {
            Ok(j) => Ok((j, Command::Rset)),
            Err(e) => Err(e),
        },
        Verb::Vrfy => match text_cmd_exec(buf, i, v) {
            Ok((j, t)) => Ok((j, Command::Vrfy { name: t })),
            Err(e) => Err(e),
        },
    }
}

impl Command<String> {
    /// Parses a command at `buf[i..]`.
    pub fn parse_at(buf: &[u8], i: usize) -> (r: Result<(usize, Command<String>), ParseError>)
        requires
            i <= buf@.len(),
        ensures
            match r {
                Ok((j, c)) => command_spec(buf@, i as int) == Ok::<(int, CommandView), ParseError>(
                    (j as int, c@),
                ) && i < j <= buf@.len() && ends_line_at(buf@, j as int),
                Err(e) => command_spec(buf@, i as int) == Err::<(int, CommandView), ParseError>(e),
            },
    {
        let verbs: [Verb; 11] = [
            Verb::Data,
            Verb::Ehlo,
            Verb::Expn,
            Verb::Helo,
            Verb::Help,
            Verb::MailFrom,
            Verb::Noop,
            Verb::Quit,
            Verb::RcptTo,
            Verb::Rset,
            Verb::Vrfy,
        ];
        assert(verbs@ =~= verb_order());
        let mut n: usize = 0;
        while n < 11
            invariant
                n <= 11,
                i <= buf@.len(),
                verbs@ == verb_order(),
                command_from(buf@, i as int, n as nat) == command_spec(buf@, i as int),
            decreases 11 - n,
        {
            match command_alt_exec(buf, i, verbs[n]) {
                Err(ParseError::Invalid) => {},
                r => {
                    return r;
                },
            }
            n = n + 1;
        }
        Err(ParseError::Invalid)
    }

    /// Parses a command at the start of `buf`, giving back the rest.
    pub fn parse(buf: &[u8]) -> (r: Result<(&[u8], Command<String>), ParseError>)
        ensures
            match r {
                Ok((rest, c)) => command_spec(buf@, 0) is Ok && 0 < command_spec(buf@, 0)->Ok_0.0 <= buf@.len() && rest@ == buf@.subrange(
                    command_spec(buf@, 0)->Ok_0.0,
                    buf@.len() as int,
                ) && c@ == command_spec(buf@, 0)->Ok_0.1 && ends_line_at(buf@, command_spec(buf@, 0)->Ok_0.0),
                Err(e) => command_spec(buf@, 0) == Err::<(int, CommandView), ParseError>(e),
            },
    {
        match Self::parse_at(buf, 0) {
            Ok((j, c)) => Ok((&buf[j..buf.len()], c)),
            Err(e) => Err(e),
        }
    }
}

/// The address part of `MAIL` and `RCPT` on the wire: `<`, the route and
/// `:` if any, the address if any, `>`.
pub open spec fn address_bytes(path: Option<PathView>, email: Option<EmailView>) -> Seq<u8> {
    seq![LT] + match path {
        Some(p) => path_bytes(p) + seq![COLON],
        None => Seq::empty(),
    } + match email {
        Some(e) => email_bytes(e),
        None => Seq::empty(),
    } + seq![GT]
}

/// The wire form of a command.
pub open spec fn command_bytes(c: CommandView) -> Seq<u8> {
    match c {
        CommandView::Data => verb_word(Verb::Data) + crlf(),
        CommandView::Ehlo { hostname } => verb_word(Verb::Ehlo) + seq![SP] + hostname.raw_bytes() + crlf(),
        CommandView::Expn { name } => verb_word(Verb::Expn) + seq![SP] + name.bytes() + crlf(),
        CommandView::Helo { hostname } => verb_word(Verb::Helo) + seq![SP] + hostname.raw_bytes() + crlf(),
        CommandView::Help { subject } => verb_word(Verb::Help) + seq![SP] + subject.bytes() + crlf(),
        CommandView::Mail { path, email, params } => verb_word(Verb::MailFrom) + address_bytes(path, email)
            + params_bytes(params) + crlf(),
        CommandView::Noop { string } => verb_word(Verb::Noop) + seq![SP] + string.bytes() + crlf(),
        CommandView::Quit => verb_word(Verb::Quit) + crlf(),
        CommandView::Rcpt { path, email, params } => verb_word(Verb::RcptTo) + address_bytes(
            path,
            Some(email),
        ) + params_bytes(params) + crlf(),
        CommandView::Rset => verb_word(Verb::Rset) + crlf(),
        CommandView::Vrfy { name } => verb_word(Verb::Vrfy) + seq![SP] + name.bytes() + crlf(),
    }
}

fn write_address<S: Text>(out: &mut Vec<u8>, path: &Option<Path<S>>, email: &Option<Email<S>>)
    ensures
        final(out)@ == old(out)@ + address_bytes(opt_path_view(*path), opt_email_view(*email)),
{
    let lt: [u8; 1] = [LT];
    out.extend_from_slice(&lt);
    match path {
        Some(p) => {
            p.write_to(out);
            let colon: [u8; 1] = [COLON];
            out.extend_from_slice(&colon);
        },
        None => {},
    }
    match email {
        Some(e) => e.write_to(out),
        None => {},
    }
    let gt: [u8; 1] = [GT];
    out.extend_from_slice(&gt);
    assert(final(out)@ =~= old(out)@ + address_bytes(opt_path_view(*path), opt_email_view(*email)));
}

fn write_word_arg(out: &mut Vec<u8>, v: Verb, arg: &[u8])
    ensures
        final(out)@ == old(out)@ + verb_word(v) + seq![SP] + arg@ + crlf(),
{
    let w = verb_bytes(v);
    out.extend_from_slice(w.as_slice());
    let sp: [u8; 1] = [SP];
    out.extend_from_slice(&sp);
    out.extend_from_slice(arg);
    let nl = crlf_arr();
    out.extend_from_slice(&nl);
    assert(final(out)@ =~= old(out)@ + verb_word(v) + seq![SP] + arg@ + crlf());
}

fn write_word(out: &mut Vec<u8>, v: Verb)
    ensures
        final(out)@ == old(out)@ + verb_word(v) + crlf(),
{
    let w = verb_bytes(v);
    out.extend_from_slice(w.as_slice());
    let nl = crlf_arr();
    out.extend_from_slice(&nl);
    assert(final(out)@ =~= old(out)@ + verb_word(v) + crlf());
}

impl<S: Text> Command<S> {
    /// Appends the wire form of the command to `out`.
    pub fn write_to(&self, out: &mut Vec<u8>)
        ensures
            final(out)@ == old(out)@ + command_bytes(self@),
    {
        match self {
            Command::Data => write_word(out, Verb::Data),
            Command::Ehlo { hostname } => write_word_arg(out, Verb::Ehlo, hostname.raw().text_as_bytes()),
            Command::Expn { name } => write_word_arg(out, Verb::Expn, name.as_bytes()),
            Command::Helo { hostname } => write_word_arg(out, Verb::Helo, hostname.raw().text_as_bytes()),
            Command::Help { subject } => write_word_arg(out, Verb::Help, subject.as_bytes()),
            Command::Mail { path, email, params } => {
                let w = verb_bytes(Verb::MailFrom);
                out.extend_from_slice(w.as_slice());
                write_address(out, path, email);
                params.write_to(out);
                let nl = crlf_arr();
                out.extend_from_slice(&nl);
                assert(final(out)@ =~= old(out)@ + command_bytes(self@));
            },
            Command::Noop { string } => write_word_arg(out, Verb::Noop, string.as_bytes()),
            Command::Quit => write_word(out, Verb::Quit),
            Command::Rcpt { path, email, params } => {
                let w = verb_bytes(Verb::RcptTo);
                out.extend_from_slice(w.as_slice());
                let lt: [u8; 1] = [LT];
                out.extend_from_slice(&lt);
                match path {
                    Some(p) => {
                        p.write_to(out);
                        let colon: [u8; 1] = [COLON];
                        out.extend_from_slice(&colon);
                    },
                    None => {},
                }
                email.write_to(out);
                let gt: [u8; 1] = [GT];
                out.extend_from_slice(&gt);
                params.write_to(out);
                let nl = crlf_arr();
                out.extend_from_slice(&nl);
                assert(final(out)@ =~= old(out)@ + command_bytes(self@));
            },
            Command::Rset => write_word(out, Verb::Rset),
            Command::Vrfy { name } => write_word_arg(out, Verb::Vrfy, name.as_bytes()),
        }
    }

    /// The wire form of the command.
    pub fn as_io_slices(&self) -> (r: std::vec::IntoIter<Vec<u8>>)
        ensures
            chunk_of(r) == command_bytes(self@),
    {
        let mut v: Vec<u8> = Vec::new();
        self.write_to(&mut v);
        single_chunk(v)
    }
}

} // verus!
