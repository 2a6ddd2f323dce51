//! The `DATA` stream.
//!
//! On its way out a message is dot-escaped: a `.` that starts a line is
//! doubled, and the stream ends with `.\r\n` at the start of a line. On its
//! way in, the reader hands the escaped stream through up to and including
//! that end marker, keeping what follows for later, and the unescaper
//! removes the escaping.

use vstd::prelude::*;
use crate::lex::{CR, LF, DOT, crlf};

verus! {

broadcast use vstd::seq::group_seq_axioms;

/// Where the escaping writer stands in the lines it has written.
#[derive(Clone, Copy, Debug, PartialEq, Eq, Structural)]
pub enum EscapingDataWriterState {
    Start,
    Cr,
    CrLf,
}

/// The state after one more byte `b`.
pub open spec fn esc_next(st: EscapingDataWriterState, b: u8) -> EscapingDataWriterState {
    if b == CR {
        EscapingDataWriterState::Cr
    } else if st == EscapingDataWriterState::Cr && b == LF {
        EscapingDataWriterState::CrLf
    } else {
        EscapingDataWriterState::Start
    }
}

/// The state after the bytes `d`.
pub open spec fn esc_after(st: EscapingDataWriterState, d: Seq<u8>) -> EscapingDataWriterState
    decreases d.len(),
{
    if d.len() == 0 {
        st
    } else {
        esc_after(esc_next(st, d[0]), d.drop_first())
    }
}

/// The escaped form of the bytes `d`, written from state `st`: a `.` at
/// the start of a line is doubled.
pub open spec fn escaped(st: EscapingDataWriterState, d: Seq<u8>) -> Seq<u8>
    decreases d.len(),
{
    if d.len() == 0 {
        Seq::empty()
    } else if st == EscapingDataWriterState::CrLf && d[0] == DOT {
        seq![DOT, DOT] + escaped(EscapingDataWriterState::Start, d.drop_first())
    } else {
        seq![d[0]] + escaped(esc_next(st, d[0]), d.drop_first())
    }
}

/// What closes the stream: `.\r\n` at the start of a line, else
/// `\r\n.\r\n`.
pub open spec fn end_marker(st: EscapingDataWriterState) -> Seq<u8> {
    if st == EscapingDataWriterState::CrLf {
        seq![DOT, CR, LF]
    } else {
        seq![CR, LF, DOT, CR, LF]
    }
}

/// The whole escaped stream of the message `d`.
pub open spec fn data_stream(d: Seq<u8>) -> Seq<u8> {
    escaped(EscapingDataWriterState::CrLf, d) + end_marker(esc_after(EscapingDataWriterState::CrLf, d))
}

/// The message is empty or its last line is complete.
pub open spec fn ends_line(d: Seq<u8>) -> bool {
    d.len() == 0 || (d.len() >= 2 && d[d.len() - 2] == CR && d[d.len() - 1] == LF)
}

/// The message carried by the escaped stream `x`, read from state `st`:
/// a `.` that starts a line is dropped, and `.\r\n` at the start of a
/// line ends the message.
pub open spec fn unescaped(st: EscapingDataWriterState, x: Seq<u8>) -> Seq<u8>
    decreases x.len(),
{
    if x.len() == 0 {
        Seq::empty()
    } else if st == EscapingDataWriterState::CrLf && x[0] == DOT {
        if x.len() >= 3 && x[1] == CR && x[2] == LF {
            Seq::empty()
        } else {
            unescaped(EscapingDataWriterState::Start, x.drop_first())
        }
    } else {
        seq![x[0]] + unescaped(esc_next(st, x[0]), x.drop_first())
    }
}

/// Escaping then unescaping gives the bytes back, whatever follows.
pub proof fn lemma_unescaped_escaped(st: EscapingDataWriterState, d: Seq<u8>, t: Seq<u8>)
    ensures
        unescaped(st, escaped(st, d) + t) == d + unescaped(esc_after(st, d), t),
    decreases d.len(),
{
    if d.len() == 0 {
        assert(escaped(st, d) + t =~= t);
        assert(d + unescaped(st, t) =~= unescaped(st, t));
    } else {
        let d1 = d.drop_first();
        if st == EscapingDataWriterState::CrLf && d[0] == DOT {
            let e1 = escaped(EscapingDataWriterState::Start, d1);
            let x = escaped(st, d) + t;
            assert(x =~= seq![DOT, DOT] + (e1 + t));
            assert(x.drop_first() =~= seq![DOT] + (e1 + t));
            assert(x.drop_first().drop_first() =~= e1 + t);
            lemma_unescaped_escaped(EscapingDataWriterState::Start, d1, t);
            assert(x[0] == DOT && x[1] == DOT);
            assert(unescaped(st, x) == unescaped(EscapingDataWriterState::Start, x.drop_first()));
            assert(unescaped(EscapingDataWriterState::Start, x.drop_first()) == seq![DOT]
                + unescaped(EscapingDataWriterState::Start, e1 + t));
            assert(d =~= seq![DOT] + d1);
            assert(unescaped(st, x) =~= d + unescaped(esc_after(st, d), t));
        } else {
            let n = esc_next(st, d[0]);
            let e1 = escaped(n, d1);
            let x = escaped(st, d) + t;
            assert(x =~= seq![d[0]] + (e1 + t));
            assert(x.drop_first() =~= e1 + t);
            lemma_unescaped_escaped(n, d1, t);
            assert(x[0] == d[0]);
            assert(unescaped(st, x) == seq![d[0]] + unescaped(n, e1 + t));
            assert(d =~= seq![d[0]] + d1);
            assert(unescaped(st, x) =~= d + unescaped(esc_after(st, d), t));
        }
    }
}

/// The state after `a + b` is the state after `b`, from the state after `a`.
pub proof fn lemma_esc_after_concat(st: EscapingDataWriterState, a: Seq<u8>, b: Seq<u8>)
    ensures
        esc_after(st, a + b) == esc_after(esc_after(st, a), b),
    decreases a.len(),
{
    if a.len() == 0 {
        assert(a + b =~= b);
    } else {
        assert((a + b).drop_first() =~= a.drop_first() + b);
        lemma_esc_after_concat(esc_next(st, a[0]), a.drop_first(), b);
    }
}

/// Escaping `a + b` is escaping `a`, then `b` from where `a` left off.
pub proof fn lemma_escaped_concat(st: EscapingDataWriterState, a: Seq<u8>, b: Seq<u8>)
    ensures
        escaped(st, a + b) == escaped(st, a) + escaped(esc_after(st, a), b),
    decreases a.len(),
{
    if a.len() == 0 {
        assert(a + b =~= b);
        assert(escaped(st, a) + escaped(st, b) =~= escaped(st, b));
    } else {
        assert((a + b).drop_first() =~= a.drop_first() + b);
        assert((a + b)[0] == a[0]);
        if st == EscapingDataWriterState::CrLf && a[0] == DOT {
            lemma_escaped_concat(EscapingDataWriterState::Start, a.drop_first(), b);
            assert(escaped(st, a + b) =~= escaped(st, a) + escaped(esc_after(st, a), b));
        } else {
            lemma_escaped_concat(esc_next(st, a[0]), a.drop_first(), b);
            assert(escaped(st, a + b) =~= escaped(st, a) + escaped(esc_after(st, a), b));
        }
    }
}

/// The state after a message is at the start of a line exactly when the
/// message is empty or ends with `\r\n`.
pub proof fn lemma_esc_after_ends_line(d: Seq<u8>)
    ensures
        (esc_after(EscapingDataWriterState::CrLf, d) == EscapingDataWriterState::CrLf) == ends_line(d),
        esc_after(EscapingDataWriterState::CrLf, d) == EscapingDataWriterState::CrLf && d.len() > 0
            ==> escaped(EscapingDataWriterState::CrLf, d) == escaped(
            EscapingDataWriterState::CrLf,
            d.take(d.len() - 2),
        ) + crlf(),
{
    let st0 = EscapingDataWriterState::CrLf;
    if d.len() >= 2 {
        let a = d.take(d.len() - 2);
        let b = d.skip(d.len() - 2);
        assert(d =~= a + b);
        lemma_esc_after_concat(st0, a, b);
        lemma_escaped_concat(st0, a, b);
        let sa = esc_after(st0, a);
        let b1 = b.drop_first();
        assert(b1.drop_first() =~= Seq::<u8>::empty());
        assert(b1[0] == b[1]);
        let s1 = esc_next(sa, b[0]);
        let s2 = esc_next(s1, b[1]);
        assert(esc_after(s2, b1.drop_first()) == s2);
        assert(esc_after(s1, b1) == s2);
        assert(esc_after(sa, b) == s2);
        assert(b[0] == d[d.len() - 2] && b[1] == d[d.len() - 1]);
        if b[0] == CR && b[1] == LF {
            assert(escaped(EscapingDataWriterState::CrLf, b1.drop_first()) =~= Seq::<u8>::empty());
            assert(escaped(EscapingDataWriterState::Cr, b1) =~= seq![LF]);
            assert(escaped(sa, b) =~= crlf());
        }
    } else if d.len() == 1 {
        assert(d.drop_first() =~= Seq::<u8>::empty());
        assert(esc_after(esc_next(st0, d[0]), d.drop_first()) == esc_next(st0, d[0]));
        assert(esc_after(st0, d) == esc_next(st0, d[0]));
    }
}

/// The escaped stream of a message carries the message back, followed by
/// `\r\n` when its last line was not complete.
pub proof fn lemma_data_round_trip(d: Seq<u8>)
    ensures
        unescaped(EscapingDataWriterState::CrLf, data_stream(d)) == d + (if ends_line(d) {
            Seq::<u8>::empty()
        } else {
            crlf()
        }),
{
    let st0 = EscapingDataWriterState::CrLf;
    let sa = esc_after(st0, d);
    lemma_unescaped_escaped(st0, d, end_marker(sa));
    lemma_esc_after_ends_line(d);
    if sa == EscapingDataWriterState::CrLf {
        assert(unescaped(sa, end_marker(sa)) =~= Seq::<u8>::empty());
        assert(d + Seq::<u8>::empty() =~= d);
    } else {
        let m = end_marker(sa);
        assert(m.drop_first() =~= seq![LF, DOT, CR, LF]);
        let m2 = m.drop_first().drop_first();
        assert(m2 =~= seq![DOT, CR, LF]);
        assert(unescaped(EscapingDataWriterState::CrLf, m2) =~= Seq::<u8>::empty());
        assert(unescaped(EscapingDataWriterState::Cr, m.drop_first()) =~= seq![LF]);
        assert(unescaped(sa, m) =~= crlf());
    }
}

/// Whatever follows the stream of a message, unescaping stops at its end
/// marker: the message comes back, followed by `\r\n` when its last line
/// was not complete.
pub proof fn lemma_data_round_trip_then_more(d: Seq<u8>, extra: Seq<u8>)
    ensures
        unescaped(EscapingDataWriterState::CrLf, data_stream(d) + extra) == d + (if ends_line(d) {
            Seq::<u8>::empty()
        } else {
            crlf()
        }),
{
    let st0 = EscapingDataWriterState::CrLf;
    let sa = esc_after(st0, d);
    let m = end_marker(sa);
    assert(data_stream(d) + extra =~= escaped(st0, d) + (m + extra));
    lemma_unescaped_escaped(st0, d, m + extra);
    lemma_esc_after_ends_line(d);
    let x = m + extra;
    if sa == EscapingDataWriterState::CrLf {
        assert(x[0] == DOT && x[1] == CR && x[2] == LF);
        assert(unescaped(sa, x) =~= Seq::<u8>::empty());
        assert(d + Seq::<u8>::empty() =~= d);
    } else {
        let x1 = x.drop_first();
        let x2 = x1.drop_first();
        assert(x[0] == CR && x1[0] == LF);
        assert(x2[0] == DOT && x2[1] == CR && x2[2] == LF);
        assert(unescaped(EscapingDataWriterState::CrLf, x2) =~= Seq::<u8>::empty());
        assert(unescaped(EscapingDataWriterState::Cr, x1) =~= seq![LF]);
        assert(unescaped(sa, x) =~= crlf());
    }
}

/// An unescaper fed, from the start of a line and in any pieces, the
/// stream of a message (and perhaps more after it) has written, once it
/// met the end marker, exactly the message, followed by `\r\n` when its
/// last line was not complete.
pub proof fn lemma_unescaper_gives_message(u: DataUnescaper, d: Seq<u8>, extra: Seq<u8>, more: Seq<u8>)
    requires
        u.unescape_consistent(),
        u.stream_starts_line(),
        u.has_ended(),
        u.consumed() + u.held_back() + more == data_stream(d) + extra,
    ensures
        u.output() == d + (if ends_line(d) {
            Seq::<u8>::empty()
        } else {
            crlf()
        }),
{
    lemma_data_round_trip_then_more(d, extra);
    assert(unescaped(u.stream_start(), u.consumed() + u.held_back() + more) == u.output() + u.pending(
        u.held_back() + more,
    ));
    assert(u.output() + Seq::<u8>::empty() =~= u.output());
}

/// The stream of a message is `.\r\n`, or ends with `\r\n.\r\n`.
pub proof fn lemma_data_stream_shape(d: Seq<u8>)
    ensures
        data_stream(d) == seq![DOT, CR, LF] || (data_stream(d).len() >= 5 && data_stream(d).skip(
            data_stream(d).len() - 5,
        ) == seq![CR, LF, DOT, CR, LF]),
{
    let st0 = EscapingDataWriterState::CrLf;
    let sa = esc_after(st0, d);
    let s = data_stream(d);
    lemma_esc_after_ends_line(d);
    if sa == EscapingDataWriterState::CrLf {
        if d.len() == 0 {
            assert(s =~= seq![DOT, CR, LF]);
        } else {
            let e = escaped(st0, d.take(d.len() - 2));
            assert(s =~= e + crlf() + seq![DOT, CR, LF]);
            assert(s.skip(s.len() - 5) =~= seq![CR, LF, DOT, CR, LF]);
        }
    } else {
        assert(s.skip(s.len() - 5) =~= seq![CR, LF, DOT, CR, LF]);
    }
}

/// In `e`, read from state `st`, every `.` that starts a line is followed
/// by another `.`.
pub open spec fn dots_doubled(st: EscapingDataWriterState, e: Seq<u8>) -> bool {
    forall|p: int|
        0 <= p < e.len() && #[trigger] esc_after(st, e.take(p)) == EscapingDataWriterState::CrLf && e[p]
            == DOT ==> p + 1 < e.len() && e[p + 1] == DOT
}

/// Escaped bytes double each dot that starts a line, and leave the writer
/// where the bytes themselves would.
proof fn lemma_escaped_doubles_dots(st: EscapingDataWriterState, d: Seq<u8>)
    ensures
        dots_doubled(st, escaped(st, d)),
        esc_after(st, escaped(st, d)) == esc_after(st, d),
    decreases d.len(),
{
    let e = escaped(st, d);
    if d.len() > 0 {
        let d1 = d.drop_first();
        if st == EscapingDataWriterState::CrLf && d[0] == DOT {
            let st1 = EscapingDataWriterState::Start;
            let e1 = escaped(st1, d1);
            lemma_escaped_doubles_dots(st1, d1);
            assert(e =~= seq![DOT, DOT] + e1);
            lemma_esc_after_concat(st, seq![DOT, DOT], e1);
            let two = seq![DOT, DOT];
            assert(two.drop_first() =~= seq![DOT]);
            assert(seq![DOT].drop_first() =~= Seq::<u8>::empty());
            assert(seq![DOT][0] == DOT);
            assert(esc_after(st1, Seq::<u8>::empty()) == st1);
            assert(esc_after(st1, seq![DOT]) == st1);
            assert(esc_after(st, two) == st1);
            assert forall|p: int|
                0 <= p < e.len() && #[trigger] esc_after(st, e.take(p)) == EscapingDataWriterState::CrLf
                    && e[p] == DOT implies p + 1 < e.len() && e[p + 1] == DOT by {
                if p == 1 {
                    assert(e.take(1) =~= seq![DOT]);
                    assert(seq![DOT].drop_first() =~= Seq::<u8>::empty());
                } else if p >= 2 {
                    assert(e.take(p) =~= two + e1.take(p - 2));
                    lemma_esc_after_concat(st, two, e1.take(p - 2));
                    assert(e[p] == e1[p - 2]);
                    assert(esc_after(st1, e1.take(p - 2)) == EscapingDataWriterState::CrLf);
                    assert(e[p + 1] == e1[p - 1]);
                }
            }
        } else {
            let st1 = esc_next(st, d[0]);
            let e1 = escaped(st1, d1);
            lemma_escaped_doubles_dots(st1, d1);
            let one = seq![d[0]];
            assert(e =~= one + e1);
            assert(one.drop_first() =~= Seq::<u8>::empty());
            assert(one[0] == d[0]);
            assert(esc_after(st1, Seq::<u8>::empty()) == st1);
            assert(esc_after(st, one) == st1);
            lemma_esc_after_concat(st, one, e1);
            assert forall|p: int|
                0 <= p < e.len() && #[trigger] esc_after(st, e.take(p)) == EscapingDataWriterState::CrLf
                    && e[p] == DOT implies p + 1 < e.len() && e[p + 1] == DOT by {
                if p == 0 {
                    assert(e.take(0) =~= Seq::<u8>::empty());
                } else {
                    assert(e.take(p) =~= one + e1.take(p - 1));
                    lemma_esc_after_concat(st, one, e1.take(p - 1));
                    assert(e[p] == e1[p - 1]);
                    assert(esc_after(st1, e1.take(p - 1)) == EscapingDataWriterState::CrLf);
                    assert(e[p + 1] == e1[p]);
                }
            }
        }
    }
}

/// After `\r\n`, whatever came before, a line starts.
proof fn lemma_esc_after_crlf(st: EscapingDataWriterState, a: Seq<u8>)
    requires
        a.len() >= 2,
        a[a.len() - 2] == CR,
        a[a.len() - 1] == LF,
    ensures
        esc_after(st, a) == EscapingDataWriterState::CrLf,
{
    let x = a.take(a.len() - 2);
    let y = a.skip(a.len() - 2);
    assert(a =~= x + y);
    lemma_esc_after_concat(st, x, y);
    let s1 = esc_after(st, x);
    assert(y[0] == CR && y[1] == LF);
    assert(y.drop_first() =~= seq![LF]);
    assert(seq![LF].drop_first() =~= Seq::<u8>::empty());
    assert(esc_after(esc_next(esc_next(s1, CR), LF), Seq::<u8>::empty()) == EscapingDataWriterState::CrLf);
    assert(esc_after(esc_next(s1, CR), seq![LF]) == EscapingDataWriterState::CrLf);
}

/// In the stream of a message, `\r\n.` followed by anything but a `.`
/// occurs only once: as the end-of-data marker that closes it.
pub proof fn lemma_data_stream_marker_only_at_end(d: Seq<u8>, k: int)
    requires
        0 <= k,
        k + 4 <= data_stream(d).len(),
        data_stream(d)[k] == CR,
        data_stream(d)[k + 1] == LF,
        data_stream(d)[k + 2] == DOT,
        data_stream(d)[k + 3] != DOT,
    ensures
        k == data_stream(d).len() - 5,
{
    let st0 = EscapingDataWriterState::CrLf;
    let e = escaped(st0, d);
    let sa = esc_after(st0, d);
    let m = end_marker(sa);
    let s = data_stream(d);
    lemma_escaped_doubles_dots(st0, d);
    assert(s =~= e + m);
    let p = k + 2;
    assert(s.take(p)[p - 2] == CR && s.take(p)[p - 1] == LF);
    lemma_esc_after_crlf(st0, s.take(p));
    if p < e.len() {
        assert(s.take(p) =~= e.take(p));
        assert(e[p] == DOT);
        assert(esc_after(st0, e.take(p)) == EscapingDataWriterState::CrLf);
        assert(e[p + 1] == s[k + 3]);
    } else if sa == EscapingDataWriterState::CrLf {
        assert(m =~= seq![DOT, CR, LF]);
        let el = e.len() as int;
        assert(s[el + 1] == CR);
    } else {
        assert(m =~= seq![CR, LF, DOT, CR, LF]);
        let el = e.len() as int;
        assert(s[el] == CR && s[el + 1] == LF && s[el + 3] == CR);
    }
}

/// Where the reader of an escaped stream stands.
#[derive(Clone, Copy, Debug, PartialEq, Eq, Structural)]
pub enum EscapedDataReaderState {
    Start,
    Cr,
    CrLf,
    CrLfDot,
    CrLfDotCr,
    End,
    Completed,
}

/// The reader's state after one more byte `b`.
pub open spec fn rd_next(st: EscapedDataReaderState, b: u8) -> EscapedDataReaderState {
    if st == EscapedDataReaderState::Cr && b == LF {
        EscapedDataReaderState::CrLf
    } else if st == EscapedDataReaderState::CrLf && b == DOT {
        EscapedDataReaderState::CrLfDot
    } else if st == EscapedDataReaderState::CrLfDot && b == CR {
        EscapedDataReaderState::CrLfDotCr
    } else if st == EscapedDataReaderState::CrLfDotCr && b == LF {
        EscapedDataReaderState::End
    } else if b == CR {
        EscapedDataReaderState::Cr
    } else {
        EscapedDataReaderState::Start
    }
}

/// Reading `x` from state `st`: how many bytes are taken (all of them, or
/// up to and including the end marker) and the state reached.
pub open spec fn rd_scan(st: EscapedDataReaderState, x: Seq<u8>) -> (int, EscapedDataReaderState)
    decreases x.len(),
{
    if x.len() == 0 {
        (0, st)
    } else {
        let n = rd_next(st, x[0]);
        if n == EscapedDataReaderState::End {
            (1, n)
        } else {
            let r = rd_scan(n, x.drop_first());
            (r.0 + 1, r.1)
        }
    }
}

/// The reader's state that matches a writer's state.
pub open spec fn reader_state_of(st: EscapingDataWriterState) -> EscapedDataReaderState {
    match st {
        EscapingDataWriterState::Start => EscapedDataReaderState::Start,
        EscapingDataWriterState::Cr => EscapedDataReaderState::Cr,
        EscapingDataWriterState::CrLf => EscapedDataReaderState::CrLf,
    }
}

proof fn lemma_rd_scan_escaped(st: EscapingDataWriterState, d: Seq<u8>, t: Seq<u8>)
    ensures
        ({
            let r = rd_scan(reader_state_of(esc_after(st, d)), t);
            rd_scan(reader_state_of(st), escaped(st, d) + t) == (escaped(st, d).len() + r.0, r.1)
        }),
    decreases d.len(),
{
    if d.len() == 0 {
        assert(escaped(st, d) + t =~= t);
    } else {
        let d1 = d.drop_first();
        let x = escaped(st, d) + t;
        if st == EscapingDataWriterState::CrLf && d[0] == DOT {
            let e1 = escaped(EscapingDataWriterState::Start, d1);
            assert(x =~= seq![DOT, DOT] + (e1 + t));
            assert(x.drop_first() =~= seq![DOT] + (e1 + t));
            assert(x.drop_first().drop_first() =~= e1 + t);
            lemma_rd_scan_escaped(EscapingDataWriterState::Start, d1, t);
            assert(rd_next(EscapedDataReaderState::CrLf, x[0]) == EscapedDataReaderState::CrLfDot);
            assert(rd_next(EscapedDataReaderState::CrLfDot, x.drop_first()[0])
                == EscapedDataReaderState::Start);
            let r1 = rd_scan(EscapedDataReaderState::Start, e1 + t);
            assert(rd_scan(EscapedDataReaderState::CrLfDot, x.drop_first()) == (r1.0 + 1, r1.1));
            assert(rd_scan(EscapedDataReaderState::CrLf, x) == (r1.0 + 2, r1.1));
            assert(escaped(st, d).len() == e1.len() + 2);
            assert(esc_after(st, d) == esc_after(EscapingDataWriterState::Start, d1));
        } else {
            let n = esc_next(st, d[0]);
            let e1 = escaped(n, d1);
            assert(x =~= seq![d[0]] + (e1 + t));
            assert(x.drop_first() =~= e1 + t);
            lemma_rd_scan_escaped(n, d1, t);
            assert(rd_next(reader_state_of(st), x[0]) == reader_state_of(n));
            let r1 = rd_scan(reader_state_of(n), e1 + t);
            assert(rd_scan(reader_state_of(st), x) == (r1.0 + 1, r1.1));
            assert(escaped(st, d).len() == e1.len() + 1);
            assert(esc_after(st, d) == esc_after(n, d1));
        }
    }
}

proof fn lemma_rd_scan_end_marker(st: EscapingDataWriterState, t: Seq<u8>)
    ensures
        rd_scan(reader_state_of(st), end_marker(st) + t) == (end_marker(st).len() as int, EscapedDataReaderState::End),
{
    let x = end_marker(st) + t;
    let x1 = x.drop_first();
    let x2 = x1.drop_first();
    let x3 = x2.drop_first();
    let x4 = x3.drop_first();
    if st == EscapingDataWriterState::CrLf {
        assert(x[0] == DOT && x1[0] == CR && x2[0] == LF);
        assert(rd_scan(EscapedDataReaderState::CrLfDotCr, x2) == (1int, EscapedDataReaderState::End));
        assert(rd_scan(EscapedDataReaderState::CrLfDot, x1) == (2int, EscapedDataReaderState::End));
    } else {
        assert(x[0] == CR && x1[0] == LF && x2[0] == DOT && x3[0] == CR && x4[0] == LF);
        assert(rd_scan(EscapedDataReaderState::CrLfDotCr, x4) == (1int, EscapedDataReaderState::End));
        assert(rd_scan(EscapedDataReaderState::CrLfDot, x3) == (2int, EscapedDataReaderState::End));
        assert(rd_scan(EscapedDataReaderState::CrLf, x2) == (3int, EscapedDataReaderState::End));
        assert(rd_scan(EscapedDataReaderState::Cr, x1) == (4int, EscapedDataReaderState::End));
    }
}

/// Reading the stream of a message, followed by anything, stops exactly
/// at the end of that stream: no end marker shows up before.
pub proof fn lemma_reader_stops_at_stream_end(d: Seq<u8>, extra: Seq<u8>)
    ensures
        rd_scan(EscapedDataReaderState::CrLf, data_stream(d) + extra) == (
            data_stream(d).len() as int,
            EscapedDataReaderState::End,
        ),
{
    let st0 = EscapingDataWriterState::CrLf;
    let sa = esc_after(st0, d);
    assert(data_stream(d) + extra =~= escaped(st0, d) + (end_marker(sa) + extra));
    lemma_rd_scan_escaped(st0, d, end_marker(sa) + extra);
    lemma_rd_scan_end_marker(sa, extra);
}

/// Reading `x` then `y` is reading `x + y`: the second read goes on from
/// where the first left off, unless the first met the end marker, which
/// no byte after it changes (from any state but the end itself).
pub proof fn lemma_rd_scan_concat(st: EscapedDataReaderState, x: Seq<u8>, y: Seq<u8>)
    requires
        st != EscapedDataReaderState::End,
    ensures
        rd_scan(st, x + y) == (if rd_scan(st, x).1 == EscapedDataReaderState::End {
            rd_scan(st, x)
        } else {
            let r = rd_scan(rd_scan(st, x).1, y);
            (x.len() + r.0, r.1)
        }),
    decreases x.len(),
{
    if x.len() == 0 {
        assert(x + y =~= y);
    } else {
        assert((x + y).drop_first() =~= x.drop_first() + y);
        assert((x + y)[0] == x[0]);
        let n = rd_next(st, x[0]);
        if n != EscapedDataReaderState::End {
            lemma_rd_scan_concat(n, x.drop_first(), y);
        }
    }
}

/// A dot that starts a line, at `d[j]`, when writing `d` from `st`.
pub open spec fn escape_at(st: EscapingDataWriterState, d: Seq<u8>, j: int) -> bool {
    esc_after(st, d.take(j)) == EscapingDataWriterState::CrLf && d[j] == DOT
}

/// Index of the first dot that starts a line in `d`, or `d.len()`.
pub open spec fn first_escape(st: EscapingDataWriterState, d: Seq<u8>) -> int
    decreases d.len(),
{
    if d.len() == 0 {
        0
    } else if st == EscapingDataWriterState::CrLf && d[0] == DOT {
        0
    } else {
        1 + first_escape(esc_next(st, d[0]), d.drop_first())
    }
}

/// The state after one more byte.
pub proof fn lemma_esc_after_push(st: EscapingDataWriterState, d: Seq<u8>, m: int)
    requires
        0 <= m < d.len(),
    ensures
        esc_after(st, d.take(m + 1)) == esc_next(esc_after(st, d.take(m)), d[m]),
{
    lemma_esc_after_concat(st, d.take(m), seq![d[m]]);
    assert(d.take(m + 1) =~= d.take(m) + seq![d[m]]);
    assert(seq![d[m]].drop_first() =~= Seq::<u8>::empty());
    let a = esc_after(st, d.take(m));
    assert(esc_after(a, seq![d[m]]) == esc_after(esc_next(a, d[m]), seq![d[m]].drop_first()));
}

proof fn lemma_first_escape_bound(st: EscapingDataWriterState, d: Seq<u8>)
    ensures
        0 <= first_escape(st, d) <= d.len(),
    decreases d.len(),
{
    if d.len() > 0 {
        lemma_first_escape_bound(esc_next(st, d[0]), d.drop_first());
    }
}

/// Up to the first escape, escaping copies the bytes through.
pub proof fn lemma_first_escape(st: EscapingDataWriterState, d: Seq<u8>, j: int)
    requires
        0 <= j <= first_escape(st, d),
    ensures
        first_escape(st, d) <= d.len(),
        j <= d.len(),
        escaped(st, d) == d.take(j) + escaped(esc_after(st, d.take(j)), d.skip(j)),
        j < first_escape(st, d) ==> !escape_at(st, d, j),
        j == first_escape(st, d) && j < d.len() ==> escape_at(st, d, j),
    decreases d.len(),
{
    lemma_first_escape_bound(st, d);
    if d.len() == 0 {
        assert(d.take(j) =~= d && d.skip(j) =~= d);
    } else if st == EscapingDataWriterState::CrLf && d[0] == DOT {
        assert(d.take(0) =~= Seq::<u8>::empty() && d.skip(0) =~= d);
        assert(esc_after(st, d.take(0)) == st);
        assert(escaped(st, d) =~= d.take(0) + escaped(esc_after(st, d.take(0)), d.skip(0)));
    } else {
        let n = esc_next(st, d[0]);
        let d1 = d.drop_first();
        if j == 0 {
            assert(d.take(0) =~= Seq::<u8>::empty() && d.skip(0) =~= d);
            assert(escaped(st, d) =~= d.take(0) + escaped(esc_after(st, d.take(0)), d.skip(0)));
            lemma_first_escape_bound(n, d1);
        } else {
            lemma_first_escape(n, d1, j - 1);
            assert(d.take(j).drop_first() =~= d1.take(j - 1));
            assert(d.skip(j) =~= d1.skip(j - 1));
            assert(d.take(j) =~= seq![d[0]] + d1.take(j - 1));
            assert(esc_after(st, d.take(j)) == esc_after(n, d1.take(j - 1)));
            assert(escaped(st, d) =~= d.take(j) + escaped(esc_after(st, d.take(j)), d.skip(j)));
            if j < d.len() {
                assert(d[j] == d1[j - 1]);
            }
        }
    }
}

/// Within a run of bytes from state `st` with no dot at a line start,
/// unescaping copies the bytes through.
pub proof fn lemma_unescaped_plain(st: EscapingDataWriterState, y: Seq<u8>, k: int)
    requires
        0 <= k <= y.len(),
        forall|m: int| 0 <= m < k ==> !escape_at(st, y, m),
    ensures
        unescaped(st, y) == y.take(k) + unescaped(esc_after(st, y.take(k)), y.skip(k)),
    decreases k,
{
    if k == 0 {
        assert(y.take(0) =~= Seq::<u8>::empty() && y.skip(0) =~= y);
    } else {
        let n = esc_next(st, y[0]);
        let y1 = y.drop_first();
        assert(y.take(0) =~= Seq::<u8>::empty());
        assert(!escape_at(st, y, 0));
        assert forall|m: int| 0 <= m < k - 1 implies !escape_at(n, y1, m) by {
            assert(!escape_at(st, y, m + 1));
            assert(y.take(m + 1).drop_first() =~= y1.take(m));
            assert(esc_after(st, y.take(m + 1)) == esc_after(n, y1.take(m)));
            assert(y[m + 1] == y1[m]);
        }
        lemma_unescaped_plain(n, y1, k - 1);
        assert(y.take(k).drop_first() =~= y1.take(k - 1));
        assert(esc_after(st, y.take(k)) == esc_after(n, y1.take(k - 1)));
        assert(y.skip(k) =~= y1.skip(k - 1));
        assert(y.take(k) =~= seq![y[0]] + y1.take(k - 1));
        assert(unescaped(st, y) =~= y.take(k) + unescaped(esc_after(st, y.take(k)), y.skip(k)));
    }
}

/// `\r\n.` at `s[p..p + 3]`.
pub open spec fn crlf_dot_at(s: Seq<u8>, p: int) -> bool {
    0 <= p && p + 3 <= s.len() && s[p] == CR && s[p + 1] == LF && s[p + 2] == DOT
}

/// Where unescaping stops when no `\r\n.` is left: before a final
/// `\r\n` or `\r`, which the next bytes may continue, else at the end.
pub open spec fn tail_stop(d: Seq<u8>) -> int {
    if d.len() >= 2 && d[d.len() - 2] == CR && d[d.len() - 1] == LF {
        d.len() - 2
    } else if d.len() >= 1 && d[d.len() - 1] == CR {
        d.len() - 1
    } else {
        d.len() as int
    }
}

/// Where one call of the unescaper, looking at `d` from `k` in the middle
/// of a line, stops (the first byte it leaves for the next call), and
/// whether it met the end of the message: at a `\r\n.` it stops, unless
/// two more bytes follow that tell an escaped dot (dropped, and it goes
/// on) from the end marker (taken whole).
pub open spec fn unescape_stop(d: Seq<u8>, k: int) -> (int, bool)
    decreases d.len() - k,
{
    if k < 0 || k + 3 > d.len() {
        (tail_stop(d), false)
    } else if crlf_dot_at(d, k) {
        if d.len() <= k + 4 {
            (k, false)
        } else if !(d[k + 3] == CR && d[k + 4] == LF) {
            unescape_stop(d, k + 3)
        } else {
            (k + 5, true)
        }
    } else {
        unescape_stop(d, k + 1)
    }
}

/// Where one call of the unescaper stops on `d`, and whether it met the
/// end of the message, `line_start` telling whether `d` starts a line.
pub open spec fn unescape_split(line_start: bool, d: Seq<u8>) -> (int, bool) {
    if line_start && d.len() <= 3 {
        (0, false)
    } else if line_start && d[0] == DOT && d[1] == CR && d[2] == LF {
        (3, true)
    } else if line_start && d[0] == DOT {
        unescape_stop(d, 1)
    } else {
        unescape_stop(d, 0)
    }
}

/// No `\r\n.` in `d[u..j]`: the stop from `u` is the stop from `j`.
proof fn lemma_unescape_stop_skip(d: Seq<u8>, u: int, j: int)
    requires
        0 <= u <= j,
        forall|q: int| u <= q < j ==> !crlf_dot_at(d, q),
    ensures
        unescape_stop(d, u) == unescape_stop(d, j),
    decreases j - u,
{
    if u < j && u + 3 <= d.len() {
        lemma_unescape_stop_skip(d, u + 1, j);
    }
}

/// No `\r\n.` from `u` on: the stop is that of the tail.
proof fn lemma_unescape_stop_none(d: Seq<u8>, u: int)
    requires
        0 <= u,
        forall|q: int| u <= q ==> !crlf_dot_at(d, q),
    ensures
        unescape_stop(d, u) == (tail_stop(d), false),
    decreases d.len() - u,
{
    if u + 3 <= d.len() {
        lemma_unescape_stop_none(d, u + 1);
    }
}

/// From the start of a line's middle, the state only depends on the last
/// two bytes.
pub proof fn lemma_start_state(y: Seq<u8>, m: int)
    requires
        0 <= m <= y.len(),
    ensures
        (esc_after(EscapingDataWriterState::Start, y.take(m)) == EscapingDataWriterState::CrLf) == (m
            >= 2 && y[m - 2] == CR && y[m - 1] == LF),
        (esc_after(EscapingDataWriterState::Start, y.take(m)) == EscapingDataWriterState::Cr) == (m >= 1
            && y[m - 1] == CR),
    decreases m,
{
    if m == 0 {
        assert(y.take(0) =~= Seq::<u8>::empty());
    } else {
        lemma_start_state(y, m - 1);
        lemma_esc_after_push(EscapingDataWriterState::Start, y, m - 1);
    }
}

/// Unescaping from the middle of a line, up to the first `\r\n.` that
/// starts before `k - 2`, copies the bytes through.
pub proof fn lemma_unescaped_start_run(y: Seq<u8>, k: int)
    requires
        0 <= k <= y.len(),
        forall|p: int| 0 <= p && p + 2 < k ==> !crlf_dot_at(y, p),
    ensures
        unescaped(EscapingDataWriterState::Start, y) == y.take(k) + unescaped(
            esc_after(EscapingDataWriterState::Start, y.take(k)),
            y.skip(k),
        ),
{
    assert forall|m: int| 0 <= m < k implies !escape_at(EscapingDataWriterState::Start, y, m) by {
        lemma_start_state(y, m);
        if m >= 2 {
            assert(!crlf_dot_at(y, m - 2));
        }
    }
    lemma_unescaped_plain(EscapingDataWriterState::Start, y, k);
}

/// Reading from the start of a line or from its middle only differs on a
/// leading dot; from after a `\r` or from the middle, only on a leading `\n`.
pub proof fn lemma_unescaped_same_start(x: Seq<u8>, st: EscapingDataWriterState)
    requires
        x.len() > 0 ==> (st == EscapingDataWriterState::CrLf ==> x[0] != DOT),
        x.len() > 0 ==> (st == EscapingDataWriterState::Cr ==> x[0] != LF),
    ensures
        unescaped(st, x) == unescaped(EscapingDataWriterState::Start, x),
{
    if x.len() > 0 {
        assert(esc_next(st, x[0]) == esc_next(EscapingDataWriterState::Start, x[0]));
    }
}

/// How many bytes of `d` the writer hands on at once from state `st`: up
/// to and including the first dot that starts a line, or all of them.
pub open spec fn write_len(st: EscapingDataWriterState, d: Seq<u8>) -> int {
    if first_escape(st, d) < d.len() {
        first_escape(st, d) + 1
    } else {
        d.len() as int
    }
}

proof fn lemma_first_escape_is(st: EscapingDataWriterState, d: Seq<u8>, i: int)
    requires
        0 <= i <= d.len(),
        forall|j: int| 0 <= j < i ==> !escape_at(st, d, j),
        i < d.len() ==> escape_at(st, d, i),
    ensures
        first_escape(st, d) == i,
{
    lemma_first_escape_bound(st, d);
    let f = first_escape(st, d);
    if f < i {
        lemma_first_escape(st, d, f);
    } else if f > i {
        lemma_first_escape(st, d, i);
    }
}

/// The writer's state after `data[..k]`.
fn esc_state_after(st: EscapingDataWriterState, data: &[u8], k: usize) -> (r: EscapingDataWriterState)
    requires
        k <= data@.len(),
    ensures
        r == esc_after(st, data@.take(k as int)),
{
    let mut cur = st;
    let mut i: usize = 0;
    assert(data@.take(0) =~= Seq::<u8>::empty());
    while i < k
        invariant
            k <= data@.len(),
            i <= k,
            cur == esc_after(st, data@.take(i as int)),
        decreases k - i,
    {
        proof {
            lemma_esc_after_push(st, data@, i as int);
        }
        let b = data[i];
        cur = if b == CR {
            EscapingDataWriterState::Cr
        } else if cur == EscapingDataWriterState::Cr && b == LF {
            EscapingDataWriterState::CrLf
        } else {
            EscapingDataWriterState::Start
        };
        i = i + 1;
    }
    cur
}

/// Escapes a message on its way into a `DATA` stream written to `write`:
/// the caller hands it the message bytes, it decides what goes to `write`.
pub struct EscapingDataWriter<W> {
    state: EscapingDataWriterState,
    write: W,
    wire: Ghost<Seq<u8>>,
    msg: Ghost<Seq<u8>>,
    dot_pending: Ghost<bool>,
}

/// Up to the first escape, escaping copies the bytes through.
proof fn lemma_escaped_plain_prefix(st: EscapingDataWriterState, d: Seq<u8>, s: int)
    requires
        0 <= s <= first_escape(st, d),
    ensures
        s <= d.len(),
        escaped(st, d.take(s)) == d.take(s),
{
    lemma_first_escape(st, d, s);
    assert(d =~= d.take(s) + d.skip(s));
    lemma_escaped_concat(st, d.take(s), d.skip(s));
    let a = escaped(st, d.take(s));
    let b = escaped(esc_after(st, d.take(s)), d.skip(s));
    assert(a + b == d.take(s) + b);
    assert(a =~= (a + b).take(a.len() as int));
    assert(d.take(s) =~= (d.take(s) + b).take(s));
}

/// After a dot, a line is no longer starting, whatever the state was.
proof fn lemma_esc_after_leading_dot(d: Seq<u8>)
    requires
        d.len() > 0,
        d[0] == DOT,
    ensures
        esc_after(EscapingDataWriterState::CrLf, d) == esc_after(EscapingDataWriterState::Start, d),
{
}

impl<W> EscapingDataWriter<W> {
    /// Where the writer stands in the lines written so far.
    pub closed spec fn esc_state(&self) -> EscapingDataWriterState {
        self.state
    }

    /// The underlying writer.
    pub closed spec fn inner(&self) -> W {
        self.write
    }

    /// All the bytes the underlying writer took so far.
    pub closed spec fn wire_so_far(&self) -> Seq<u8> {
        self.wire@
    }

    /// The message bytes counted as written so far.
    pub closed spec fn message_so_far(&self) -> Seq<u8> {
        self.msg@
    }

    /// A dot that starts a line went out once and must be offered again.
    pub closed spec fn dot_pending(&self) -> bool {
        self.dot_pending@
    }

    /// What went out is the escaped form of the message so far, and what
    /// comes next goes on from there: the bytes a sequence of writes puts
    /// on the wire are the escaping of the bytes they count as written.
    pub open spec fn writes_consistent(&self) -> bool {
        &&& forall|x: Seq<u8>|
            (self.dot_pending() ==> x.len() > 0 && x[0] == DOT) ==> #[trigger] escaped(
                EscapingDataWriterState::CrLf,
                self.message_so_far() + x,
            ) == self.wire_so_far() + escaped(self.esc_state(), x)
        &&& esc_after(EscapingDataWriterState::CrLf, self.message_so_far()) == (if self.dot_pending() {
            EscapingDataWriterState::CrLf
        } else {
            self.esc_state()
        })
        &&& self.dot_pending() ==> self.esc_state() == EscapingDataWriterState::Start
    }

    /// The underlying writer, to write to it.
    pub fn inner_mut(&mut self) -> (r: &mut W)
        ensures
            *r == old(self).inner(),
            final(self).inner() == *final(r),
            final(self).esc_state() == old(self).esc_state(),
            final(self).wire_so_far() == old(self).wire_so_far(),
            final(self).message_so_far() == old(self).message_so_far(),
            final(self).dot_pending() == old(self).dot_pending(),
    {
        &mut self.write
    }

    /// A writer at the start of the message.
    pub fn new(write: W) -> (r: Self)
        ensures
            r.esc_state() == EscapingDataWriterState::CrLf,
            r.inner() == write,
            r.wire_so_far() == Seq::<u8>::empty(),
            r.message_so_far() == Seq::<u8>::empty(),
            !r.dot_pending(),
            r.writes_consistent(),
    {
        let r = EscapingDataWriter {
            state: EscapingDataWriterState::CrLf,
            write,
            wire: Ghost(Seq::empty()),
            msg: Ghost(Seq::empty()),
            dot_pending: Ghost(false),
        };
        assert forall|x: Seq<u8>|
            (r.dot_pending() ==> x.len() > 0 && x[0] == DOT) implies #[trigger] escaped(
                EscapingDataWriterState::CrLf,
                r.message_so_far() + x,
            ) == r.wire_so_far() + escaped(r.esc_state(), x) by {
            assert(Seq::<u8>::empty() + x =~= x);
            assert(Seq::<u8>::empty() + escaped(EscapingDataWriterState::CrLf, x) =~= escaped(
                EscapingDataWriterState::CrLf,
                x,
            ));
        }
        r
    }

    /// How many bytes of `data` to hand to `write` now: up to and including
    /// the first dot that starts a line, or all of them.
    pub fn to_write(&self, data: &[u8]) -> (n: usize)
        ensures
            n == write_len(self.esc_state(), data@),
    {
        let n = data.len();
        let mut cur = self.state;
        let mut i: usize = 0;
        assert(data@.take(0) =~= Seq::<u8>::empty());
        while i < n
            invariant
                n == data@.len(),
                i <= n,
                cur == esc_after(self.state, data@.take(i as int)),
                forall|j: int| 0 <= j < i ==> !escape_at(self.state, data@, j),
            decreases n - i,
        {
            let b = data[i];
            if cur == EscapingDataWriterState::CrLf && b == DOT {
                proof {
                    lemma_first_escape_is(self.state, data@, i as int);
                }
                return i + 1;
            }
            proof {
                lemma_esc_after_push(self.state, data@, i as int);
            }
            cur = if b == CR {
                EscapingDataWriterState::Cr
            } else if cur == EscapingDataWriterState::Cr && b == LF {
                EscapingDataWriterState::CrLf
            } else {
                EscapingDataWriterState::Start
            };
            i = i + 1;
        }
        proof {
            lemma_first_escape_is(self.state, data@, n as int);
        }
        n
    }

    /// Records that `write` took `s` of the `n` bytes of `data` it was
    /// offered, and returns how many bytes of `data` now count as written.
    /// A dot that starts a line goes out twice: once when it is taken, once
    /// more with what follows, so it counts only the second time.
    pub fn record_written(&mut self, data: &[u8], n: usize, s: usize) -> (r: usize)
        requires
            n == write_len(old(self).esc_state(), data@),
            s <= n,
        ensures
            final(self).inner() == old(self).inner(),
            r <= s,
            data@.take(s as int) + escaped(final(self).esc_state(), data@.skip(r as int)) == escaped(
                old(self).esc_state(),
                data@,
            ),
            if s == n && first_escape(old(self).esc_state(), data@) < data@.len() {
                r + 1 == s && final(self).esc_state() == EscapingDataWriterState::Start
            } else {
                r == s && final(self).esc_state() == esc_after(old(self).esc_state(), data@.take(s as int))
            },
            final(self).wire_so_far() == old(self).wire_so_far() + data@.take(s as int),
            final(self).message_so_far() == old(self).message_so_far() + data@.take(r as int),
            final(self).dot_pending() == (r < s || (old(self).dot_pending() && s == 0)),
            old(self).writes_consistent() && (old(self).dot_pending() ==> data@.len() > 0 && data@[0]
                == DOT) ==> final(self).writes_consistent(),
    {
        let ghost st0 = self.state;
        let ghost d = data@;
        proof {
            lemma_first_escape_bound(st0, d);
        }
        if s == n && n > 0 {
            let before = esc_state_after(self.state, data, n - 1);
            if before == EscapingDataWriterState::CrLf && data[n - 1] == DOT {
                proof {
                    let f = first_escape(st0, d);
                    if f >= d.len() {
                        lemma_first_escape(st0, d, n - 1);
                    }
                    assert(f == n - 1);
                    lemma_first_escape(st0, d, f);
                    let rest = d.skip(f);
                    assert(rest[0] == DOT);
                    assert(rest.drop_first() =~= d.skip(n as int));
                    assert(escaped(EscapingDataWriterState::Start, rest) =~= seq![DOT] + escaped(
                        EscapingDataWriterState::Start,
                        d.skip(n as int),
                    ));
                    assert(escaped(EscapingDataWriterState::CrLf, rest) =~= seq![DOT, DOT] + escaped(
                        EscapingDataWriterState::Start,
                        d.skip(n as int),
                    ));
                    assert(d.take(n as int) =~= d.take(f) + seq![DOT]);
                    assert(d.take(s as int) + escaped(EscapingDataWriterState::Start, d.skip(f)) =~= escaped(
                        st0,
                        d,
                    ));
                }
                proof {
                    let f = (n - 1) as int;
                    lemma_escaped_plain_prefix(st0, d, f);
                    lemma_first_escape(st0, d, f);
                    if self.writes_consistent() && (self.dot_pending() ==> d.len() > 0 && d[0] == DOT) {
                        self.lemma_dot_step(d, f);
                    }
                }
                self.state = EscapingDataWriterState::Start;
                let ghost wire2 = self.wire@ + d.take(n as int);
                let ghost msg2 = self.msg@ + d.take(n - 1);
                self.wire = Ghost(wire2);
                self.msg = Ghost(msg2);
                self.dot_pending = Ghost(true);
                return n - 1;
            }
        }
        proof {
            let f = first_escape(st0, d);
            if f < d.len() && s as int > f {
                lemma_first_escape(st0, d, f);
                assert(s == n);
                assert(esc_after(st0, d.take(f)) == EscapingDataWriterState::CrLf && d[f] == DOT);
            }
            lemma_first_escape(st0, d, s as int);
        }
        proof {
            lemma_escaped_plain_prefix(st0, d, s as int);
            if self.writes_consistent() && (self.dot_pending() ==> d.len() > 0 && d[0] == DOT) {
                self.lemma_plain_step(d, s as int);
            }
        }
        self.state = esc_state_after(self.state, data, s);
        let ghost wire2 = self.wire@ + d.take(s as int);
        let ghost msg2 = self.msg@ + d.take(s as int);
        self.wire = Ghost(wire2);
        self.msg = Ghost(msg2);
        let ghost pend2 = self.dot_pending@ && s == 0;
        self.dot_pending = Ghost(pend2);
        s
    }

    /// Writing `d.take(s)`, with no escape in it, keeps the writes
    /// consistent.
    proof fn lemma_plain_step(&self, d: Seq<u8>, s: int)
        requires
            0 <= s <= d.len(),
            escaped(self.state, d.take(s)) == d.take(s),
            self.writes_consistent(),
            self.dot_pending() ==> d.len() > 0 && d[0] == DOT,
        ensures
            ({
                let st2 = esc_after(self.state, d.take(s));
                let pend2 = self.dot_pending() && s == 0;
                let msg2 = self.msg@ + d.take(s);
                let wire2 = self.wire@ + d.take(s);
                &&& forall|x: Seq<u8>|
                    (pend2 ==> x.len() > 0 && x[0] == DOT) ==> #[trigger] escaped(
                        EscapingDataWriterState::CrLf,
                        msg2 + x,
                    ) == wire2 + escaped(st2, x)
                &&& esc_after(EscapingDataWriterState::CrLf, msg2) == (if pend2 {
                    EscapingDataWriterState::CrLf
                } else {
                    st2
                })
                &&& pend2 ==> st2 == EscapingDataWriterState::Start
            }),
    {
        let t = d.take(s);
        let st2 = esc_after(self.state, t);
        let pend2 = self.dot_pending() && s == 0;
        let msg2 = self.msg@ + t;
        let wire2 = self.wire@ + t;
        assert forall|x: Seq<u8>| (pend2 ==> x.len() > 0 && x[0] == DOT) implies #[trigger] escaped(
            EscapingDataWriterState::CrLf,
            msg2 + x,
        ) == wire2 + escaped(st2, x) by {
            let y = t + x;
            if self.dot_pending() {
                if s > 0 {
                    assert(y[0] == t[0]);
                } else {
                    assert(y =~= x);
                }
            }
            assert(self.msg@ + y =~= msg2 + x);
            assert(escaped(EscapingDataWriterState::CrLf, self.msg@ + y) == self.wire@ + escaped(self.state, y));
            lemma_escaped_concat(self.state, t, x);
            assert(wire2 + escaped(st2, x) =~= self.wire@ + (t + escaped(st2, x)));
        }
        lemma_esc_after_concat(EscapingDataWriterState::CrLf, self.msg@, t);
        if self.dot_pending() && s > 0 {
            assert(t[0] == DOT);
            lemma_esc_after_leading_dot(t);
        }
        if s == 0 {
            assert(t =~= Seq::<u8>::empty());
            assert(msg2 =~= self.msg@);
        }
    }

    /// Writing `d.take(f + 1)`, whose last byte is a dot that starts a
    /// line, counts `d.take(f)` and leaves the dot to be offered again.
    proof fn lemma_dot_step(&self, d: Seq<u8>, f: int)
        requires
            0 <= f < d.len(),
            escaped(self.state, d.take(f)) == d.take(f),
            escape_at(self.state, d, f),
            self.writes_consistent(),
            self.dot_pending() ==> d.len() > 0 && d[0] == DOT,
        ensures
            ({
                let msg2 = self.msg@ + d.take(f);
                let wire2 = self.wire@ + d.take(f + 1);
                &&& forall|x: Seq<u8>|
                    (x.len() > 0 && x[0] == DOT) ==> #[trigger] escaped(EscapingDataWriterState::CrLf, msg2 + x)
                        == wire2 + escaped(EscapingDataWriterState::Start, x)
                &&& esc_after(EscapingDataWriterState::CrLf, msg2) == EscapingDataWriterState::CrLf
            }),
    {
        let t = d.take(f);
        let msg2 = self.msg@ + t;
        let wire2 = self.wire@ + d.take(f + 1);
        assert(d.take(f + 1) =~= t.push(DOT));
        if self.dot_pending() && f == 0 {
            assert(t =~= Seq::<u8>::empty());
            assert(esc_after(EscapingDataWriterState::Start, t) == EscapingDataWriterState::Start);
        }
        assert forall|x: Seq<u8>| (x.len() > 0 && x[0] == DOT) implies #[trigger] escaped(
            EscapingDataWriterState::CrLf,
            msg2 + x,
        ) == wire2 + escaped(EscapingDataWriterState::Start, x) by {
            let y = t + x;
            if self.dot_pending() {
                if f > 0 {
                    assert(y[0] == t[0]);
                } else {
                    assert(y =~= x);
                }
            }
            assert(self.msg@ + y =~= msg2 + x);
            lemma_escaped_concat(self.state, t, x);
            let x1 = x.drop_first();
            assert(escaped(EscapingDataWriterState::CrLf, x) == seq![DOT, DOT] + escaped(
                EscapingDataWriterState::Start,
                x1,
            ));
            assert(escaped(EscapingDataWriterState::Start, x) == seq![DOT] + escaped(
                EscapingDataWriterState::Start,
                x1,
            ));
            assert(wire2 + escaped(EscapingDataWriterState::Start, x) =~= self.wire@ + (t + escaped(
                EscapingDataWriterState::CrLf,
                x,
            )));
        }
        lemma_esc_after_concat(EscapingDataWriterState::CrLf, self.msg@, t);
        if self.dot_pending() && f > 0 {
            assert(t[0] == DOT);
            lemma_esc_after_leading_dot(t);
        }
    }

    /// What `write` must receive last, once the message is written.
    pub fn end_marker(&self) -> (r: Vec<u8>)
        ensures
            r@ == end_marker(self.esc_state()),
            self.writes_consistent() && !self.dot_pending() ==> self.wire_so_far() + r@ == data_stream(
                self.message_so_far(),
            ) && r@ == (if ends_line(self.message_so_far()) {
                seq![DOT, CR, LF]
            } else {
                seq![CR, LF, DOT, CR, LF]
            }),
    {
        proof {
            if self.writes_consistent() && !self.dot_pending() {
                let m = self.message_so_far();
                assert(m + Seq::<u8>::empty() =~= m);
                assert(escaped(EscapingDataWriterState::CrLf, m + Seq::<u8>::empty()) == self.wire_so_far()
                    + escaped(self.esc_state(), Seq::<u8>::empty()));
                assert(self.wire_so_far() + Seq::<u8>::empty() =~= self.wire_so_far());
                lemma_esc_after_ends_line(m);
            }
        }
        let r = match self.state {
            EscapingDataWriterState::CrLf => vec![DOT, CR, LF],
            _ => vec![CR, LF, DOT, CR, LF],
        };
        assert(r@ =~= end_marker(self.state));
        r
    }

    /// The underlying writer.
    pub fn into_inner(self) -> (w: W)
        ensures
            w == self.inner(),
    {
        self.write
    }
}

/// Moves `data[from..from + k]` down to `data[to..to + k]`.
pub(crate) fn shift_down(data: &mut [u8], from: usize, to: usize, k: usize)
    requires
        to <= from,
        from + k <= old(data)@.len(),
    ensures
        final(data)@.len() == old(data)@.len(),
        forall|p: int| 0 <= p < to ==> #[trigger] final(data)@[p] == old(data)@[p],
        forall|p: int| to <= p < to + k ==> #[trigger] final(data)@[p] == old(data)@[p - to + from],
        forall|p: int| to + k <= p < old(data)@.len() ==> #[trigger] final(data)@[p] == old(data)@[p],
{
    let ghost d0 = data@;
    let n = data.len();
    let mut t: usize = 0;
    while t < k
        invariant
            to <= from,
            from + k <= n,
            n == d0.len(),
            t <= k,
            data@.len() == d0.len(),
            forall|p: int| 0 <= p < to ==> #[trigger] data@[p] == d0[p],
            forall|p: int| to <= p < to + t ==> #[trigger] data@[p] == d0[p - to + from],
            forall|p: int| to + t <= p < d0.len() ==> #[trigger] data@[p] == d0[p],
        decreases k - t,
    {
        let b = data[from + t];
        data[to + t] = b;
        t = t + 1;
    }
}

/// The first `\r\n.` in `data` that starts at or after `u`.
fn find_crlf_dot(data: &[u8], u: usize) -> (r: Option<usize>)
    requires
        u <= data@.len(),
    ensures
        match r {
            Some(j) => u <= j && crlf_dot_at(data@, j as int) && forall|q: int|
                u <= q < j ==> !crlf_dot_at(data@, q),
            None => forall|q: int| u <= q ==> !crlf_dot_at(data@, q),
        },
{
    let n = data.len();
    let mut p = u;
    while p < n && n - p >= 3
        invariant
            n == data@.len(),
            u <= p <= n,
            forall|q: int| u <= q < p ==> !crlf_dot_at(data@, q),
        decreases n - p,
    {
        if data[p] == CR && data[p + 1] == LF && data[p + 2] == DOT {
            return Some(p);
        }
        p = p + 1;
    }
    None
}

/// One run of plain bytes `d0[u..u + k]`, moved down to `written`: what
/// was owed before is the run followed by what is owed after it.
proof fn lemma_unescape_run(
    st0: EscapingDataWriterState,
    d0: Seq<u8>,
    before: Seq<u8>,
    after: Seq<u8>,
    written: int,
    u: int,
    k: int,
)
    requires
        0 <= written <= u,
        0 <= k,
        u + k <= d0.len(),
        before.len() == d0.len(),
        after.len() == d0.len(),
        forall|p: int| u <= p < d0.len() ==> #[trigger] before[p] == d0[p],
        forall|p: int| 0 <= p < written ==> #[trigger] after[p] == before[p],
        forall|p: int| written <= p < written + k ==> #[trigger] after[p] == before[p - written + u],
        forall|q: int| u <= q && q + 2 < u + k ==> !crlf_dot_at(before, q),
        forall|rest: Seq<u8>|
            #[trigger] unescaped(st0, d0 + rest) == before.take(written) + unescaped(
                EscapingDataWriterState::Start,
                d0.skip(u) + rest,
            ),
    ensures
        forall|rest: Seq<u8>|
            #[trigger] unescaped(st0, d0 + rest) == after.take(written + k) + unescaped(
                esc_after(EscapingDataWriterState::Start, d0.subrange(u, u + k)),
                d0.skip(u + k) + rest,
            ),
{
    assert forall|rest: Seq<u8>|
        #[trigger] unescaped(st0, d0 + rest) == after.take(written + k) + unescaped(
            esc_after(EscapingDataWriterState::Start, d0.subrange(u, u + k)),
            d0.skip(u + k) + rest,
        ) by {
        let y = d0.skip(u) + rest;
        assert forall|p: int| 0 <= p && p + 2 < k implies !crlf_dot_at(y, p) by {
            assert(!crlf_dot_at(before, u + p));
            assert(y[p] == d0[u + p] && y[p + 1] == d0[u + p + 1] && y[p + 2] == d0[u + p + 2]);
        }
        lemma_unescaped_start_run(y, k);
        assert(y.take(k) =~= d0.subrange(u, u + k));
        assert(y.skip(k) =~= d0.skip(u + k) + rest);
        assert(after.take(written + k) =~= before.take(written) + d0.subrange(u, u + k));
    }
}

/// Run of plain bytes followed by a `\r`: the rest is read from a line's
/// middle.
proof fn lemma_run_then_cr(
    st0: EscapingDataWriterState,
    d0: Seq<u8>,
    before: Seq<u8>,
    after: Seq<u8>,
    written: int,
    u: int,
    k: int,
)
    requires
        0 <= written <= u,
        0 <= k,
        u + k < d0.len(),
        d0[u + k] == CR,
        before.len() == d0.len(),
        after.len() == d0.len(),
        forall|p: int| u <= p < d0.len() ==> #[trigger] before[p] == d0[p],
        forall|p: int| 0 <= p < written ==> #[trigger] after[p] == before[p],
        forall|p: int| written <= p < written + k ==> #[trigger] after[p] == before[p - written + u],
        forall|q: int| u <= q && q + 2 < u + k ==> !crlf_dot_at(before, q),
        forall|rest: Seq<u8>|
            #[trigger] unescaped(st0, d0 + rest) == before.take(written) + unescaped(
                EscapingDataWriterState::Start,
                d0.skip(u) + rest,
            ),
    ensures
        forall|rest: Seq<u8>|
            #[trigger] unescaped(st0, d0 + rest) == after.take(written + k) + unescaped(
                EscapingDataWriterState::Start,
                d0.skip(u + k) + rest,
            ),
{
    lemma_unescape_run(st0, d0, before, after, written, u, k);
    let sk = esc_after(EscapingDataWriterState::Start, d0.subrange(u, u + k));
    assert forall|rest: Seq<u8>|
        #[trigger] unescaped(st0, d0 + rest) == after.take(written + k) + unescaped(
            EscapingDataWriterState::Start,
            d0.skip(u + k) + rest,
        ) by {
        let z = d0.skip(u + k) + rest;
        assert(z[0] == CR);
        lemma_unescaped_same_start(z, sk);
        assert(unescaped(st0, d0 + rest) == after.take(written + k) + unescaped(sk, z));
    }
}

/// Run of plain bytes up to a `\r\n.` at `d0[u + k - 2..]`: the dot is
/// dropped, or the message ends there.
proof fn lemma_run_then_dot(
    st0: EscapingDataWriterState,
    d0: Seq<u8>,
    before: Seq<u8>,
    after: Seq<u8>,
    written: int,
    u: int,
    k: int,
)
    requires
        0 <= written <= u,
        2 <= k,
        u + k + 2 < d0.len(),
        d0[u + k - 2] == CR,
        d0[u + k - 1] == LF,
        d0[u + k] == DOT,
        before.len() == d0.len(),
        after.len() == d0.len(),
        forall|p: int| u <= p < d0.len() ==> #[trigger] before[p] == d0[p],
        forall|p: int| 0 <= p < written ==> #[trigger] after[p] == before[p],
        forall|p: int| written <= p < written + k ==> #[trigger] after[p] == before[p - written + u],
        forall|q: int| u <= q && q + 2 < u + k ==> !crlf_dot_at(before, q),
        forall|rest: Seq<u8>|
            #[trigger] unescaped(st0, d0 + rest) == before.take(written) + unescaped(
                EscapingDataWriterState::Start,
                d0.skip(u) + rest,
            ),
    ensures
        d0[u + k + 1] == CR && d0[u + k + 2] == LF ==> forall|rest: Seq<u8>|
            #[trigger] unescaped(st0, d0 + rest) == after.take(written + k),
        !(d0[u + k + 1] == CR && d0[u + k + 2] == LF) ==> forall|rest: Seq<u8>|
            #[trigger] unescaped(st0, d0 + rest) == after.take(written + k) + unescaped(
                EscapingDataWriterState::Start,
                d0.skip(u + k + 1) + rest,
            ),
{
    lemma_unescape_run(st0, d0, before, after, written, u, k);
    let seg = d0.subrange(u, u + k);
    lemma_start_state(seg, k);
    assert(seg.take(k) =~= seg);
    assert(seg[k - 2] == CR && seg[k - 1] == LF);
    assert forall|rest: Seq<u8>|
        #[trigger] unescaped(st0, d0 + rest) == after.take(written + k) + unescaped(
            EscapingDataWriterState::CrLf,
            d0.skip(u + k) + rest,
        ) by {
        assert(unescaped(st0, d0 + rest) == after.take(written + k) + unescaped(
            esc_after(EscapingDataWriterState::Start, seg),
            d0.skip(u + k) + rest,
        ));
    }
    if d0[u + k + 1] == CR && d0[u + k + 2] == LF {
        assert forall|rest: Seq<u8>| #[trigger] unescaped(st0, d0 + rest) == after.take(written + k) by {
            let z = d0.skip(u + k) + rest;
            assert(z[0] == DOT && z[1] == CR && z[2] == LF);
            assert(unescaped(EscapingDataWriterState::CrLf, z) =~= Seq::<u8>::empty());
            assert(after.take(written + k) + Seq::<u8>::empty() =~= after.take(written + k));
        }
    } else {
        assert forall|rest: Seq<u8>|
            #[trigger] unescaped(st0, d0 + rest) == after.take(written + k) + unescaped(
                EscapingDataWriterState::Start,
                d0.skip(u + k + 1) + rest,
            ) by {
            let z = d0.skip(u + k) + rest;
            assert(z[0] == DOT && z[1] == d0[u + k + 1] && z[2] == d0[u + k + 2]);
            assert(z.drop_first() =~= d0.skip(u + k + 1) + rest);
        }
    }
}

/// Run of plain bytes up to the end of the buffer, which does not end in
/// `\r` or `\r\n`: the next buffer is read from a line's middle.
proof fn lemma_run_to_end(
    st0: EscapingDataWriterState,
    d0: Seq<u8>,
    before: Seq<u8>,
    after: Seq<u8>,
    written: int,
    u: int,
)
    requires
        0 <= written <= u <= d0.len(),
        d0.len() >= 1 ==> d0[d0.len() - 1] != CR,
        d0.len() >= 2 ==> !(d0[d0.len() - 2] == CR && d0[d0.len() - 1] == LF),
        before.len() == d0.len(),
        after.len() == d0.len(),
        forall|p: int| u <= p < d0.len() ==> #[trigger] before[p] == d0[p],
        forall|p: int| 0 <= p < written ==> #[trigger] after[p] == before[p],
        forall|p: int| written <= p < written + (d0.len() - u) ==> #[trigger] after[p] == before[p - written + u],
        forall|q: int| u <= q && q + 2 < d0.len() ==> !crlf_dot_at(before, q),
        forall|rest: Seq<u8>|
            #[trigger] unescaped(st0, d0 + rest) == before.take(written) + unescaped(
                EscapingDataWriterState::Start,
                d0.skip(u) + rest,
            ),
    ensures
        forall|rest: Seq<u8>|
            #[trigger] unescaped(st0, d0 + rest) == after.take(written + (d0.len() - u)) + unescaped(
                EscapingDataWriterState::Start,
                d0.skip(d0.len() as int) + rest,
            ),
{
    let n = d0.len() as int;
    let k = n - u;
    lemma_unescape_run(st0, d0, before, after, written, u, k);
    let seg = d0.subrange(u, n);
    lemma_start_state(seg, k);
    assert(seg.take(k) =~= seg);
    if k >= 1 {
        assert(seg[k - 1] == d0[n - 1]);
    }
    if k >= 2 {
        assert(seg[k - 2] == d0[n - 2]);
    }
    assert forall|rest: Seq<u8>|
        #[trigger] unescaped(st0, d0 + rest) == after.take(written + k) + unescaped(
            EscapingDataWriterState::Start,
            d0.skip(n) + rest,
        ) by {
        assert(unescaped(st0, d0 + rest) == after.take(written + k) + unescaped(
            esc_after(EscapingDataWriterState::Start, seg),
            d0.skip(u + k) + rest,
        ));
    }
}

/// How many bytes `unescape` put back at the start of its buffer, and from
/// where on the buffer is left for the next call.
pub struct DataUnescapeRes {
    pub written: usize,
    pub unhandled_idx: usize,
}

/// Removes the escaping of a `DATA` stream, buffer after buffer.
///
/// One unescaper serves one stream: it remembers whether the next byte
/// starts a line.
pub struct DataUnescaper {
    is_preceded_by_crlf: bool,
    ended: Ghost<bool>,
    starts_line: Ghost<bool>,
    consumed: Ghost<Seq<u8>>,
    held: Ghost<Seq<u8>>,
    output: Ghost<Seq<u8>>,
}

impl DataUnescaper {
    /// The next byte starts a line.
    pub closed spec fn line_start(&self) -> bool {
        self.is_preceded_by_crlf
    }

    /// The end of the message has been met.
    pub closed spec fn has_ended(&self) -> bool {
        self.ended@
    }

    /// What the escaped bytes `x`, read next, still carry of the message.
    pub open spec fn pending(&self, x: Seq<u8>) -> Seq<u8> {
        if self.has_ended() {
            Seq::empty()
        } else if self.line_start() {
            unescaped(EscapingDataWriterState::CrLf, x)
        } else {
            unescaped(EscapingDataWriterState::Start, x)
        }
    }

    /// Whether the stream started at the start of a line.
    pub closed spec fn stream_starts_line(&self) -> bool {
        self.starts_line@
    }

    /// The escaped bytes taken for good so far, over all calls.
    pub closed spec fn consumed(&self) -> Seq<u8> {
        self.consumed@
    }

    /// The escaped bytes the last call left for the next one.
    pub closed spec fn held_back(&self) -> Seq<u8> {
        self.held@
    }

    /// The message bytes written so far, over all calls.
    pub closed spec fn output(&self) -> Seq<u8> {
        self.output@
    }

    /// The state the stream started in.
    pub open spec fn stream_start(&self) -> EscapingDataWriterState {
        if self.stream_starts_line() {
            EscapingDataWriterState::CrLf
        } else {
            EscapingDataWriterState::Start
        }
    }

    /// What was written so far, then what the held-back bytes and whatever
    /// follows them carry, is the message carried by the whole stream:
    /// across calls the unescaper gives the message out in order.
    pub open spec fn unescape_consistent(&self) -> bool {
        forall|rest: Seq<u8>|
            #[trigger] unescaped(self.stream_start(), self.consumed() + self.held_back() + rest) == self.output()
                + self.pending(self.held_back() + rest)
    }

    /// An unescaper for a stream; `is_preceded_by_crlf` says whether its
    /// first byte starts a line (the usual case).
    pub fn new(is_preceded_by_crlf: bool) -> (r: DataUnescaper)
        ensures
            r.line_start() == is_preceded_by_crlf,
            !r.has_ended(),
            r.stream_starts_line() == is_preceded_by_crlf,
            r.consumed() == Seq::<u8>::empty(),
            r.held_back() == Seq::<u8>::empty(),
            r.output() == Seq::<u8>::empty(),
            r.unescape_consistent(),
    {
        let r = DataUnescaper {
            is_preceded_by_crlf,
            ended: Ghost(false),
            starts_line: Ghost(is_preceded_by_crlf),
            consumed: Ghost(Seq::empty()),
            held: Ghost(Seq::empty()),
            output: Ghost(Seq::empty()),
        };
        assert forall|rest: Seq<u8>|
            #[trigger] unescaped(r.stream_start(), r.consumed() + r.held_back() + rest) == r.output() + r.pending(
                r.held_back() + rest,
            ) by {
            assert(Seq::<u8>::empty() + Seq::<u8>::empty() + rest =~= rest);
            assert(Seq::<u8>::empty() + rest =~= rest);
            assert(Seq::<u8>::empty() + r.pending(rest) =~= r.pending(rest));
        }
        r
    }

    /// Unescapes `data` in place: `data[..written]` is message, and
    /// `data[unhandled_idx..]` must come first in the next call, as what
    /// follows it decides what it is (at most 4 bytes, `\r\n.\r`, unless
    /// the end of the message was met).
    ///
    /// Across calls: when `data` starts with what the last call held back,
    /// and the end was not met before, what the calls wrote is, in order,
    /// the message the stream carries.
    pub fn unescape(&mut self, data: &mut [u8]) -> (r: DataUnescapeRes)
        ensures
            r.written <= r.unhandled_idx <= old(data)@.len(),
            final(data)@.len() == old(data)@.len(),
            final(data)@.skip(r.unhandled_idx as int) == old(data)@.skip(r.unhandled_idx as int),
            !old(self).has_ended() ==> forall|rest: Seq<u8>|
                #[trigger] old(self).pending(old(data)@ + rest) == final(data)@.take(r.written as int)
                    + final(self).pending(old(data)@.skip(r.unhandled_idx as int) + rest),
            old(data)@.len() <= r.unhandled_idx + 4 || final(self).has_ended(),
            r.unhandled_idx == unescape_split(old(self).line_start(), old(data)@).0,
            final(self).has_ended() == (old(self).has_ended() || unescape_split(
                old(self).line_start(),
                old(data)@,
            ).1),
            final(self).line_start() == (old(self).line_start() && (old(data)@.len() <= 3 || (old(data)@[0]
                == DOT && old(data)@[1] == CR && old(data)@[2] == LF))),
            final(self).stream_starts_line() == old(self).stream_starts_line(),
            final(self).consumed() == old(self).consumed() + old(data)@.take(r.unhandled_idx as int),
            final(self).held_back() == old(data)@.skip(r.unhandled_idx as int),
            final(self).output() == old(self).output() + final(data)@.take(r.written as int),
            old(self).unescape_consistent() && !old(self).has_ended() && old(self).held_back().len()
                <= old(data)@.len() && old(data)@.take(old(self).held_back().len() as int) == old(
                self,
            ).held_back() ==> final(self).unescape_consistent(),
    {
        let ghost d = data@;
        let ghost h = self.held@;
        let ghost c = self.consumed@;
        let ghost o = self.output@;
        let ghost before = *self;
        let r = self.unescape_once(data);
        let ghost u = r.unhandled_idx as int;
        let ghost out = data@.take(r.written as int);
        proof {
            if before.unescape_consistent() && !before.has_ended() && h.len() <= d.len() && d.take(
                h.len() as int,
            ) == h {
                assert forall|rest: Seq<u8>|
                    #[trigger] unescaped(before.stream_start(), (c + d.take(u)) + d.skip(u) + rest) == (o + out)
                        + self.pending(d.skip(u) + rest) by {
                    let d2 = d.skip(h.len() as int);
                    assert(d =~= h + d2);
                    assert((c + d.take(u)) + d.skip(u) + rest =~= c + h + (d2 + rest));
                    assert(h + (d2 + rest) =~= d + rest);
                    assert(unescaped(before.stream_start(), c + h + (d2 + rest)) == o + before.pending(h + (
                    d2 + rest)));
                    assert(before.pending(d + rest) == out + self.pending(d.skip(u) + rest));
                    assert(o + (out + self.pending(d.skip(u) + rest)) =~= (o + out) + self.pending(d.skip(u) + rest));
                }
            }
        }
        self.consumed = Ghost(c + d.take(u));
        self.held = Ghost(d.skip(u));
        self.output = Ghost(o + out);
        r
    }

    /// One call of `unescape`, before the bookkeeping of what all calls
    /// took and gave.
    fn unescape_once(&mut self, data: &mut [u8]) -> (r: DataUnescapeRes)
        ensures
            final(self).stream_starts_line() == old(self).stream_starts_line(),
            final(self).consumed() == old(self).consumed(),
            final(self).held_back() == old(self).held_back(),
            final(self).output() == old(self).output(),
            r.written <= r.unhandled_idx <= old(data)@.len(),
            final(data)@.len() == old(data)@.len(),
            final(data)@.skip(r.unhandled_idx as int) == old(data)@.skip(r.unhandled_idx as int),
            !old(self).has_ended() ==> forall|rest: Seq<u8>|
                #[trigger] old(self).pending(old(data)@ + rest) == final(data)@.take(r.written as int)
                    + final(self).pending(old(data)@.skip(r.unhandled_idx as int) + rest),
            old(data)@.len() <= r.unhandled_idx + 4 || final(self).has_ended(),
            r.unhandled_idx == unescape_split(old(self).line_start(), old(data)@).0,
            final(self).has_ended() == (old(self).has_ended() || unescape_split(
                old(self).line_start(),
                old(data)@,
            ).1),
            final(self).line_start() == (old(self).line_start() && (old(data)@.len() <= 3 || (old(data)@[0]
                == DOT && old(data)@[1] == CR && old(data)@[2] == LF))),
    {
        let ghost d0 = data@;
        let ghost st0 = if self.is_preceded_by_crlf {
            EscapingDataWriterState::CrLf
        } else {
            EscapingDataWriterState::Start
        };
        let n = data.len();
        if self.is_preceded_by_crlf {
            if n <= 3 {
                assert(d0.skip(0) =~= d0);
                assert(data@.take(0) =~= Seq::<u8>::empty());
                return DataUnescapeRes { written: 0, unhandled_idx: 0 };
            } else if data[0] == DOT && data[1] == CR && data[2] == LF {
                proof {
                    assert forall|rest: Seq<u8>| #[trigger] unescaped(st0, d0 + rest) == Seq::<u8>::empty() by {
                        let x = d0 + rest;
                        assert(x[0] == DOT && x[1] == CR && x[2] == LF);
                    }
                    assert(data@.take(0) =~= Seq::<u8>::empty());
                }
                self.ended = Ghost(true);
                return DataUnescapeRes { written: 0, unhandled_idx: 3 };
            }
        }
        let u: usize = if self.is_preceded_by_crlf && data[0] == DOT {
            1
        } else {
            0
        };
        proof {
            assert(data@.take(0) =~= Seq::<u8>::empty());
            assert forall|rest: Seq<u8>|
                #[trigger] unescaped(st0, d0 + rest) == data@.take(0) + unescaped(
                    EscapingDataWriterState::Start,
                    d0.skip(u as int) + rest,
                ) by {
                let x = d0 + rest;
                if u == 1 {
                    assert(x[0] == DOT && x[1] == d0[1] && x[2] == d0[2]);
                    assert(x.drop_first() =~= d0.skip(1) + rest);
                } else {
                    assert(d0.skip(0) =~= d0);
                    if n > 0 {
                        assert(x[0] == d0[0]);
                    }
                    lemma_unescaped_same_start(x, st0);
                }
            }
        }
        self.is_preceded_by_crlf = false;
        let (r, Ghost(ended_now)) = unescape_lines(data, 0, u, Ghost(d0), Ghost(st0));
        let ghost now = self.ended@ || ended_now;
        self.ended = Ghost(now);
        r
    }
}

/// The rest of `unescape`, from the middle of a line at `data[u]`, with
/// `data[..written]` already unescaped; also tells whether the message
/// ended.
#[verifier::rlimit(40)]
fn unescape_lines(
    data: &mut [u8],
    written: usize,
    u: usize,
    Ghost(d0): Ghost<Seq<u8>>,
    Ghost(st0): Ghost<EscapingDataWriterState>,
) -> (r: (DataUnescapeRes, Ghost<bool>))
    requires
        old(data)@.len() == d0.len(),
        written <= u <= d0.len(),
        u == 0 || u + 2 <= d0.len(),
        forall|p: int| u <= p < d0.len() ==> #[trigger] old(data)@[p] == d0[p],
        forall|rest: Seq<u8>|
            #[trigger] unescaped(st0, d0 + rest) == old(data)@.take(written as int) + unescaped(
                EscapingDataWriterState::Start,
                d0.skip(u as int) + rest,
            ),
    ensures
        written <= r.0.written <= r.0.unhandled_idx <= d0.len(),
        final(data)@.len() == d0.len(),
        final(data)@.skip(r.0.unhandled_idx as int) == d0.skip(r.0.unhandled_idx as int),
        r.1@ ==> forall|rest: Seq<u8>|
            #[trigger] unescaped(st0, d0 + rest) == final(data)@.take(r.0.written as int),
        !r.1@ ==> forall|rest: Seq<u8>|
            #[trigger] unescaped(st0, d0 + rest) == final(data)@.take(r.0.written as int) + unescaped(
                EscapingDataWriterState::Start,
                d0.skip(r.0.unhandled_idx as int) + rest,
            ),
        d0.len() <= r.0.unhandled_idx + 4 || r.1@,
        (r.0.unhandled_idx as int, r.1@) == unescape_stop(d0, u as int),
    decreases d0.len() - u,
{
    let n = data.len();
    let ghost before = data@;
    match find_crlf_dot(data, u) {
        Some(j) => {
            proof {
                assert forall|q: int| u <= q < j implies !crlf_dot_at(d0, q) by {
                    if crlf_dot_at(d0, q) {
                        assert(crlf_dot_at(data@, q));
                    }
                }
                lemma_unescape_stop_skip(d0, u as int, j as int);
                assert(data@[j as int] == d0[j as int] && data@[j + 1] == d0[j + 1] && data@[j + 2] == d0[j + 2]);
                assert(crlf_dot_at(d0, j as int));
            }
            if n - j <= 4 {
                let k = j - u;
                shift_down(data, u, written, k);
                proof {
                    lemma_run_then_cr(st0, d0, before, data@, written as int, u as int, k as int);
                    assert(data@.skip(j as int) =~= d0.skip(j as int));
                }
                (DataUnescapeRes { written: written + k, unhandled_idx: j }, Ghost(false))
            } else if !(data[j + 3] == CR && data[j + 4] == LF) {
                let k = j + 2 - u;
                shift_down(data, u, written, k);
                proof {
                    lemma_run_then_dot(st0, d0, before, data@, written as int, u as int, k as int);
                }
                unescape_lines(data, written + k, j + 3, Ghost(d0), Ghost(st0))
            } else {
                let k = j + 2 - u;
                shift_down(data, u, written, k);
                proof {
                    lemma_run_then_dot(st0, d0, before, data@, written as int, u as int, k as int);
                    assert(data@.skip(j + 5) =~= d0.skip(j + 5));
                }
                (DataUnescapeRes { written: written + k, unhandled_idx: j + 5 }, Ghost(true))
            }
        },
        None => {
            proof {
                assert forall|q: int| u <= q implies !crlf_dot_at(d0, q) by {
                    if crlf_dot_at(d0, q) {
                        assert(crlf_dot_at(data@, q));
                    }
                }
                lemma_unescape_stop_none(d0, u as int);
            }
            if n >= 2 && data[n - 2] == CR && data[n - 1] == LF {
                let k = n - 2 - u;
                shift_down(data, u, written, k);
                proof {
                    lemma_run_then_cr(st0, d0, before, data@, written as int, u as int, k as int);
                    assert(data@.skip(n - 2) =~= d0.skip(n - 2));
                }
                (DataUnescapeRes { written: written + k, unhandled_idx: n - 2 }, Ghost(false))
            } else if n >= 1 && data[n - 1] == CR {
                let k = n - 1 - u;
                shift_down(data, u, written, k);
                proof {
                    lemma_run_then_cr(st0, d0, before, data@, written as int, u as int, k as int);
                    assert(data@.skip(n - 1) =~= d0.skip(n - 1));
                }
                (DataUnescapeRes { written: written + k, unhandled_idx: n - 1 }, Ghost(false))
            } else {
                let k = n - u;
                shift_down(data, u, written, k);
                proof {
                    lemma_run_to_end(st0, d0, before, data@, written as int, u as int);
                    assert(data@.skip(n as int) =~= d0.skip(n as int));
                }
                (DataUnescapeRes { written: written + k, unhandled_idx: n }, Ghost(false))
            }
        },
    }
}

/// What a read asks of the caller, or what it gives.
#[derive(Clone, Copy, Debug, PartialEq, Eq, Structural)]
pub enum ReadStep {
    /// `n` bytes of the stream are in the buffer handed over (`0` once the
    /// stream is over, or when that buffer is empty).
    Ready(usize),
    /// The buffer must first be filled from the underlying reader; then
    /// `after_read` says what came of it.
    ReadInner,
    /// The underlying reader ended before the end of the stream.
    ConnectionAborted,
}

/// The buffer of a reader, and where in it lie the bytes received but not
/// yet handed on.
struct PendingBuf {
    buf: Vec<u8>,
    start: usize,
    end: usize,
}

impl PendingBuf {
    #[verifier::type_invariant]
    closed spec fn in_buf(&self) -> bool {
        self.start <= self.end <= self.buf@.len()
    }
}

/// Reads a `DATA` stream: hands its bytes through, escaped as they are, up
/// to and including the end-of-data marker, and keeps what follows the
/// marker in its buffer.
///
/// The bytes `buf[unhandled]` are read before those of `read`.
pub struct EscapedDataReader<R> {
    pending: PendingBuf,
    state: EscapedDataReaderState,
    read: R,
    handed: Ghost<Seq<u8>>,
    received: Ghost<Seq<u8>>,
}

/// The reading state, with a completed stream counted as ended.
pub open spec fn scan_state(st: EscapedDataReaderState) -> EscapedDataReaderState {
    if st == EscapedDataReaderState::Completed {
        EscapedDataReaderState::End
    } else {
        st
    }
}

/// Reading stops where the scan stops: the part of `x` it takes reads the
/// same.
proof fn lemma_rd_scan_prefix(st: EscapedDataReaderState, x: Seq<u8>)
    requires
        st != EscapedDataReaderState::End,
    ensures
        rd_scan(st, x.take(rd_scan(st, x).0)) == rd_scan(st, x),
    decreases x.len(),
{
    if x.len() > 0 {
        let n = rd_next(st, x[0]);
        if n == EscapedDataReaderState::End {
            let t = x.take(1);
            assert(t[0] == x[0]);
        } else {
            lemma_rd_scan_prefix(n, x.drop_first());
            let k = rd_scan(n, x.drop_first()).0;
            lemma_rd_scan_len(n, x.drop_first());
            let t = x.take(k + 1);
            assert(t[0] == x[0]);
            assert(t.drop_first() =~= x.drop_first().take(k));
        }
    } else {
        assert(x.take(0) =~= x);
    }
}

/// Reading never leads to the completed state.
proof fn lemma_rd_scan_not_completed(st: EscapedDataReaderState, x: Seq<u8>)
    requires
        st != EscapedDataReaderState::Completed,
    ensures
        rd_scan(st, x).1 != EscapedDataReaderState::Completed,
    decreases x.len(),
{
    if x.len() > 0 {
        let n = rd_next(st, x[0]);
        if n != EscapedDataReaderState::End {
            lemma_rd_scan_not_completed(n, x.drop_first());
        }
    }
}

/// A reader whose bytes handed out and kept come from what it received:
/// the reader hands out the received bytes in order, up to and including
/// the first end marker, and keeps the rest.
pub proof fn lemma_finished_reader_gives_stream(
    handed: Seq<u8>,
    kept: Seq<u8>,
    more: Seq<u8>,
    d: Seq<u8>,
    extra: Seq<u8>,
)
    requires
        rd_scan(EscapedDataReaderState::CrLf, handed) == (handed.len() as int, EscapedDataReaderState::End),
        handed + kept + more == data_stream(d) + extra,
    ensures
        handed == data_stream(d),
        kept + more == extra,
{
    let x = handed + kept + more;
    assert(x =~= handed + (kept + more));
    lemma_rd_scan_concat(EscapedDataReaderState::CrLf, handed, kept + more);
    lemma_reader_stops_at_stream_end(d, extra);
    let ds = data_stream(d);
    assert(handed =~= x.take(handed.len() as int));
    assert(ds =~= (ds + extra).take(ds.len() as int));
    assert((kept + more) =~= x.skip(handed.len() as int));
    assert(extra =~= (ds + extra).skip(ds.len() as int));
}

impl<R> EscapedDataReader<R> {
    /// Where the reader stands in the stream.
    pub closed spec fn rd_state(&self) -> EscapedDataReaderState {
        self.state
    }

    /// The bytes already received that come before those of the
    /// underlying reader.
    pub closed spec fn pending_input(&self) -> Seq<u8> {
        self.pending.buf@.subrange(self.pending.start as int, self.pending.end as int)
    }

    /// The buffer.
    pub closed spec fn buffer(&self) -> Seq<u8> {
        self.pending.buf@
    }

    /// Where the pending bytes stand in the buffer.
    pub closed spec fn unhandled_range(&self) -> (int, int) {
        (self.pending.start as int, self.pending.end as int)
    }

    /// The underlying reader.
    pub closed spec fn inner(&self) -> R {
        self.read
    }

    /// All the bytes handed out so far.
    pub closed spec fn handed_out(&self) -> Seq<u8> {
        self.handed@
    }

    /// All the bytes received so far: those held at the start, then those
    /// of the underlying reader.
    pub closed spec fn received(&self) -> Seq<u8> {
        self.received@
    }

    /// The reader has handed out the received bytes from their start, up
    /// to the first end marker once it met it, and keeps the rest: the
    /// stream read so far, and where the reader stands in it.
    pub open spec fn reads_consistent(&self) -> bool {
        &&& self.received() == self.handed_out() + self.pending_input()
        &&& rd_scan(EscapedDataReaderState::CrLf, self.handed_out()) == (
            self.handed_out().len() as int,
            scan_state(self.rd_state()),
        )
    }

    /// A reader at the start of the stream, whose first bytes are
    /// `buf[unhandled]`, then those of `read`.
    pub fn new(buf: Vec<u8>, unhandled: std::ops::Range<usize>, read: R) -> (r: Self)
        requires
            unhandled.start <= unhandled.end <= buf@.len(),
        ensures
            r.rd_state() == EscapedDataReaderState::CrLf,
            r.buffer() == buf@,
            r.unhandled_range() == (unhandled.start as int, unhandled.end as int),
            r.pending_input() == buf@.subrange(unhandled.start as int, unhandled.end as int),
            r.inner() == read,
            r.handed_out() == Seq::<u8>::empty(),
            r.received() == buf@.subrange(unhandled.start as int, unhandled.end as int),
            r.reads_consistent(),
    {
        let ghost first = buf@.subrange(unhandled.start as int, unhandled.end as int);
        let r = EscapedDataReader {
            pending: PendingBuf { buf, start: unhandled.start, end: unhandled.end },
            state: EscapedDataReaderState::CrLf,
            read,
            handed: Ghost(Seq::empty()),
            received: Ghost(first),
        };
        assert(Seq::<u8>::empty() + first =~= first);
        r
    }

    /// `true` iff the whole stream, end marker included, has been read.
    pub fn is_finished(&self) -> (r: bool)
        ensures
            r == (self.rd_state() == EscapedDataReaderState::End || self.rd_state()
                == EscapedDataReaderState::Completed),
    {
        self.state == EscapedDataReaderState::End || self.state == EscapedDataReaderState::Completed
    }

    /// Marks a finished stream as handled: the message went where it had
    /// to go, and what followed it can be handed on.
    pub fn complete(&mut self)
        requires
            old(self).rd_state() == EscapedDataReaderState::End || old(self).rd_state()
                == EscapedDataReaderState::Completed,
        ensures
            final(self).rd_state() == EscapedDataReaderState::Completed,
            final(self).buffer() == old(self).buffer(),
            final(self).unhandled_range() == old(self).unhandled_range(),
            final(self).pending_input() == old(self).pending_input(),
            final(self).inner() == old(self).inner(),
            final(self).handed_out() == old(self).handed_out(),
            final(self).received() == old(self).received(),
            old(self).reads_consistent() ==> final(self).reads_consistent(),
    {
        self.state = EscapedDataReaderState::Completed;
    }

    /// Where, in the buffer, lie the bytes that followed the stream, once
    /// it has been completed.
    pub fn get_unhandled(&self) -> (r: Option<std::ops::Range<usize>>)
        ensures
            match r {
                Some(range) => self.rd_state() == EscapedDataReaderState::Completed && (
                range.start as int, range.end as int) == self.unhandled_range() && range.start
                    <= range.end <= self.buffer().len(),
                None => self.rd_state() != EscapedDataReaderState::Completed,
            },
    {
        proof {
            use_type_invariant(&self.pending);
        }
        if self.state == EscapedDataReaderState::Completed {
            Some(self.pending.start..self.pending.end)
        } else {
            None
        }
    }

    /// The buffer.
    pub fn buf(&self) -> (r: &[u8])
        ensures
            r@ == self.buffer(),
    {
        self.pending.buf.as_slice()
    }

    /// The underlying reader, to read from it.
    pub fn inner_mut(&mut self) -> (r: &mut R)
        ensures
            *r == old(self).inner(),
            final(self).inner() == *final(r),
            final(self).rd_state() == old(self).rd_state(),
            final(self).buffer() == old(self).buffer(),
            final(self).unhandled_range() == old(self).unhandled_range(),
            final(self).handed_out() == old(self).handed_out(),
            final(self).received() == old(self).received(),
    {
        &mut self.read
    }

    /// Takes back the buffer and the underlying reader.
    pub fn into_parts(self) -> (r: (Vec<u8>, R))
        ensures
            r.0@ == self.buffer(),
            r.1 == self.inner(),
    {
        (self.pending.buf, self.read)
    }

    /// Looks for the end marker in `out[..raw]`, read from the stream.
    fn scan(&mut self, out: &[u8], raw: usize) -> (size: usize)
        requires
            raw <= out@.len(),
        ensures
            (size as int, final(self).rd_state()) == rd_scan(old(self).rd_state(), out@.take(raw as int)),
            final(self).buffer() == old(self).buffer(),
            final(self).unhandled_range() == old(self).unhandled_range(),
            final(self).pending_input() == old(self).pending_input(),
            final(self).inner() == old(self).inner(),
            final(self).handed_out() == old(self).handed_out(),
            final(self).received() == old(self).received(),
    {
        let (size, st) = scan_stream(self.state, out, raw);
        self.state = st;
        size
    }

    /// Starts a read into `out`: from the bytes already received, if any.
    pub fn read_step(&mut self, out: &mut [u8]) -> (r: ReadStep)
        ensures
            final(out)@.len() == old(out)@.len(),
            final(self).inner() == old(self).inner(),
            final(self).buffer() == old(self).buffer(),
            match r {
                ReadStep::Ready(n) => if old(self).rd_state() == EscapedDataReaderState::End || old(
                    self,
                ).rd_state() == EscapedDataReaderState::Completed {
                    n == 0 && final(self).rd_state() == old(self).rd_state()
                        && final(self).unhandled_range() == old(self).unhandled_range()
                } else {
                    let raw = if old(out)@.len() < old(self).pending_input().len() {
                        old(out)@.len()
                    } else {
                        old(self).pending_input().len()
                    };
                    let sc = rd_scan(old(self).rd_state(), old(self).pending_input().take(raw as int));
                    &&& old(self).pending_input().len() > 0
                    &&& final(out)@.take(raw as int) == old(self).pending_input().take(raw as int)
                    &&& n == sc.0
                    &&& final(self).rd_state() == sc.1
                    &&& final(self).pending_input() == old(self).pending_input().skip(n as int)
                    &&& final(self).unhandled_range() == (old(self).unhandled_range().0 + n, old(
                        self,
                    ).unhandled_range().1)
                    &&& final(self).handed_out() == old(self).handed_out() + final(out)@.take(n as int)
                },
                ReadStep::ReadInner => old(self).rd_state() != EscapedDataReaderState::End && old(
                    self,
                ).rd_state() != EscapedDataReaderState::Completed && old(self).pending_input().len() == 0
                    && final(self).rd_state() == old(self).rd_state()
                    && final(self).unhandled_range() == old(self).unhandled_range()
                    && final(self).pending_input().len() == 0
                    && final(self).handed_out() == old(self).handed_out(),
                ReadStep::ConnectionAborted => false,
            },
            final(self).received() == old(self).received(),
            r is Ready && (old(self).rd_state() == EscapedDataReaderState::End || old(self).rd_state()
                == EscapedDataReaderState::Completed) ==> final(self).handed_out() == old(self).handed_out(),
            old(self).reads_consistent() ==> final(self).reads_consistent(),
    {
        proof {
            use_type_invariant(&self.pending);
        }
        if self.is_finished() {
            return ReadStep::Ready(0);
        }
        let avail = self.pending.end - self.pending.start;
        if avail == 0 {
            return ReadStep::ReadInner;
        }
        let raw = if out.len() < avail {
            out.len()
        } else {
            avail
        };
        let start = self.pending.start;
        let ghost pend = self.pending_input();
        let mut t: usize = 0;
        while t < raw
            invariant
                raw <= out@.len(),
                raw <= avail,
                avail == self.pending.end - self.pending.start,
                start == self.pending.start,
                self.pending.start <= self.pending.end <= self.pending.buf@.len(),
                pend == self.pending.buf@.subrange(start as int, self.pending.end as int),
                t <= raw,
                out@.len() == old(out)@.len(),
                forall|p: int| 0 <= p < t ==> #[trigger] out@[p] == pend[p],
            decreases raw - t,
        {
            let b = self.pending.buf[start + t];
            out[t] = b;
            t = t + 1;
        }
        assert(out@.take(raw as int) =~= pend.take(raw as int));
        let size = self.scan(out, raw);
        proof {
            lemma_rd_scan_len(old(self).rd_state(), pend.take(raw as int));
            use_type_invariant(&self.pending);
        }
        self.pending.start = start + size;
        assert(self.pending_input() =~= pend.skip(size as int));
        let ghost x = out@.take(size as int);
        proof {
            let st0 = old(self).rd_state();
            let y = pend.take(raw as int);
            lemma_rd_scan_prefix(st0, y);
            lemma_rd_scan_not_completed(st0, y);
            assert(y.take(size as int) =~= x);
            if old(self).reads_consistent() {
                lemma_rd_scan_concat(EscapedDataReaderState::CrLf, old(self).handed_out(), x);
                assert(pend =~= x + pend.skip(size as int));
                assert(old(self).handed_out() + x + pend.skip(size as int) =~= old(self).handed_out() + pend);
            }
        }
        self.handed = Ghost(self.handed@ + x);
        ReadStep::Ready(size)
    }

    /// Ends a read into `out`, of which the underlying reader filled
    /// `out[..n]`.
    pub fn after_read(&mut self, out: &[u8], n: usize) -> (r: ReadStep)
        requires
            n <= out@.len(),
            old(self).rd_state() != EscapedDataReaderState::End,
            old(self).rd_state() != EscapedDataReaderState::Completed,
            old(self).pending_input().len() == 0,
        ensures
            final(self).inner() == old(self).inner(),
            match r {
                ReadStep::Ready(size) => {
                    let sc = rd_scan(old(self).rd_state(), out@.take(n as int));
                    &&& n > 0 || out@.len() == 0
                    &&& size == sc.0
                    &&& final(self).rd_state() == sc.1
                    &&& final(self).pending_input() == out@.subrange(size as int, n as int)
                    &&& n > 0 ==> final(self).unhandled_range() == (0int, n - size)
                    &&& n > 0 && n - size <= old(self).buffer().len() ==> final(self).buffer().len()
                        == old(self).buffer().len()
                    &&& final(self).handed_out() == old(self).handed_out() + out@.take(size as int)
                    &&& final(self).received() == old(self).received() + out@.take(n as int)
                },
                ReadStep::ReadInner => false,
                ReadStep::ConnectionAborted => n == 0 && out@.len() > 0 && final(self).rd_state()
                    == old(self).rd_state() && final(self).handed_out() == old(self).handed_out()
                    && final(self).received() == old(self).received(),
            },
            old(self).reads_consistent() ==> final(self).reads_consistent(),
    {
        if n == 0 {
            if out.len() == 0 {
                return ReadStep::Ready(0);
            } else {
                return ReadStep::ConnectionAborted;
            }
        }
        let size = self.scan(out, n);
        proof {
            lemma_rd_scan_len(old(self).rd_state(), out@.take(n as int));
        }
        let rem = n - size;
        let mut taken = PendingBuf { buf: Vec::new(), start: 0, end: 0 };
        std::mem::swap(&mut taken, &mut self.pending);
        let mut buf = taken.buf;
        let ghost len0 = buf@.len();
        let mut t: usize = 0;
        while t < rem
            invariant
                size + rem == n,
                n <= out@.len(),
                t <= rem,
                t <= buf@.len(),
                buf@.len() == if len0 < t { t as int } else { len0 as int },
                forall|p: int| 0 <= p < t ==> #[trigger] buf@[p] == out@[size + p],
            decreases rem - t,
        {
            let b = out[size + t];
            if t < buf.len() {
                buf.set(t, b);
            } else {
                buf.push(b);
            }
            t = t + 1;
        }
        self.pending = PendingBuf { buf, start: 0, end: rem };
        assert(self.pending_input() =~= out@.subrange(size as int, n as int));
        let ghost x = out@.take(size as int);
        let ghost all = out@.take(n as int);
        proof {
            let st0 = old(self).rd_state();
            lemma_rd_scan_prefix(st0, all);
            lemma_rd_scan_not_completed(st0, all);
            assert(all.take(size as int) =~= x);
            if old(self).reads_consistent() {
                lemma_rd_scan_concat(EscapedDataReaderState::CrLf, old(self).handed_out(), x);
                assert(old(self).received() =~= old(self).handed_out());
                assert(all =~= x + out@.subrange(size as int, n as int));
                assert(old(self).received() + all =~= old(self).handed_out() + x + out@.subrange(
                    size as int,
                    n as int,
                ));
            }
        }
        self.handed = Ghost(self.handed@ + x);
        self.received = Ghost(self.received@ + all);
        ReadStep::Ready(size)
    }
}

/// Reading takes at least one byte of a non-empty input, and at most all.
proof fn lemma_rd_scan_len(st: EscapedDataReaderState, x: Seq<u8>)
    ensures
        0 <= rd_scan(st, x).0 <= x.len(),
        x.len() > 0 ==> rd_scan(st, x).0 > 0,
        rd_scan(st, x).0 < x.len() ==> rd_scan(st, x).1 == EscapedDataReaderState::End,
    decreases x.len(),
{
    if x.len() > 0 {
        lemma_rd_scan_len(rd_next(st, x[0]), x.drop_first());
    }
}

/// Reads `out[..raw]` from state `st`: how many bytes are taken, and the
/// state reached.
fn scan_stream(st0: EscapedDataReaderState, out: &[u8], raw: usize) -> (r: (
    usize,
    EscapedDataReaderState,
))
    requires
        raw <= out@.len(),
    ensures
        (r.0 as int, r.1) == rd_scan(st0, out@.take(raw as int)),
{
    let ghost x = out@.take(raw as int);
    let mut st = st0;
    let mut i: usize = 0;
    assert(x.skip(0) =~= x);
    while i < raw
        invariant
            raw <= out@.len(),
            x == out@.take(raw as int),
            i <= raw,
            rd_scan(st0, x) == ({
                let r = rd_scan(st, x.skip(i as int));
                (r.0 + i, r.1)
            }),
        decreases raw - i,
    {
        let b = out[i];
        let next = if st == EscapedDataReaderState::Cr && b == LF {
            EscapedDataReaderState::CrLf
        } else if st == EscapedDataReaderState::CrLf && b == DOT {
            EscapedDataReaderState::CrLfDot
        } else if st == EscapedDataReaderState::CrLfDot && b == CR {
            EscapedDataReaderState::CrLfDotCr
        } else if st == EscapedDataReaderState::CrLfDotCr && b == LF {
            EscapedDataReaderState::End
        } else if b == CR {
            EscapedDataReaderState::Cr
        } else {
            EscapedDataReaderState::Start
        };
        proof {
            let xi = x.skip(i as int);
            assert(xi[0] == b);
            assert(xi.drop_first() =~= x.skip(i + 1));
            assert(rd_next(st, b) == next);
            if next == EscapedDataReaderState::End {
                assert(rd_scan(st, xi) == (1int, next));
            } else {
                let r1 = rd_scan(next, x.skip(i + 1));
                assert(rd_scan(st, xi) == (r1.0 + 1, r1.1));
            }
        }
        if next == EscapedDataReaderState::End {
            return (i + 1, next);
        }
        st = next;
        i = i + 1;
    }
    assert(x.skip(raw as int) =~= Seq::<u8>::empty());
    (raw, st)
}

} // verus!
