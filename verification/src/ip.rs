//! Textual IPv4 and IPv6 addresses, as the address literals of a hostname
//! hold them: the dotted-quad and the colon-hex forms, with `::` and an
//! embedded IPv4 tail for IPv6. Octets have at most three digits and no
//! leading zero; IPv6 groups have at most four hex digits.

use vstd::prelude::*;
use crate::lex::{Class, span, span_exec, lemma_span, is_digit, is_xdigit, DOT, COLON};

verus! {

broadcast use vstd::seq::group_seq_axioms;

/// Value of the decimal digits `s[k..e]`.
pub open spec fn dec_value(s: Seq<u8>, k: int, e: int) -> int
    decreases e - k,
{
    if e <= k {
        0
    } else {
        dec_value(s, k, e - 1) * 10 + (s[e - 1] - 48)
    }
}

/// Value of a hex digit.
pub open spec fn hex_digit(b: u8) -> int {
    if 48 <= b <= 57 {
        b - 48
    } else if 97 <= b <= 102 {
        b - 87
    } else {
        b - 55
    }
}

/// Value of the hex digits `s[k..e]`.
pub open spec fn hex_value(s: Seq<u8>, k: int, e: int) -> int
    decreases e - k,
{
    if e <= k {
        0
    } else {
        hex_value(s, k, e - 1) * 16 + hex_digit(s[e - 1])
    }
}

/// An octet at `k`: one to three digits, no leading zero unless it is
/// alone, at most 255; its end and value.
pub open spec fn octet_at(s: Seq<u8>, k: int) -> Option<(int, int)> {
    let e = span(Class::Digit, s, k);
    if e == k || e - k > 3 || (s[k] == 48 && e - k > 1) || dec_value(s, k, e) > 255 {
        None
    } else {
        Some((e, dec_value(s, k, e)))
    }
}

/// A separator `sep` first, unless this is the first item.
pub open spec fn sep_ok(s: Seq<u8>, k: int, first: bool, sep: u8) -> Option<int> {
    if first {
        Some(k)
    } else if 0 <= k < s.len() && s[k] == sep {
        Some(k + 1)
    } else {
        None
    }
}

/// The octets at `k` from the `n`-th on, each but the first preceded by a
/// dot: where they end, and their values.
pub open spec fn octets_at(s: Seq<u8>, k: int, n: nat) -> Option<(int, Seq<int>)>
    decreases 4 - n,
{
    if n >= 4 {
        Some((k, Seq::empty()))
    } else {
        match sep_ok(s, k, n == 0, DOT) {
            None => None,
            Some(k1) => match octet_at(s, k1) {
                None => None,
                Some((e, v)) => match octets_at(s, e, n + 1) {
                    None => None,
                    Some((e2, vs)) => Some((e2, seq![v] + vs)),
                },
            },
        }
    }
}

/// A dotted-quad IPv4 address at `k` (more may follow): its end and octets.
pub open spec fn ipv4_at(s: Seq<u8>, k: int) -> Option<(int, Seq<int>)> {
    octets_at(s, k, 0)
}

/// The address that the whole of `t` spells in dotted-quad form.
pub open spec fn ipv4_value(t: Seq<u8>) -> Option<Seq<int>> {
    match ipv4_at(t, 0) {
        Some((e, v)) => if e == t.len() {
            Some(v)
        } else {
            None
        },
        None => None,
    }
}

/// A group of one to four hex digits at `k`: its end and value.
pub open spec fn group_at(s: Seq<u8>, k: int) -> Option<(int, int)> {
    let e = span(Class::Xdigit, s, k);
    if e == k || e - k > 4 {
        None
    } else {
        Some((e, hex_value(s, k, e)))
    }
}

/// Up to `limit - i` more groups from the `i`-th on, each but the first
/// preceded by `:`; an IPv4 tail may stand for the last two. Where they
/// end, their values, and whether an IPv4 tail ended them.
pub open spec fn groups_at(s: Seq<u8>, k: int, i: nat, limit: nat) -> (int, Seq<int>, bool)
    decreases limit - i,
{
    if i >= limit {
        (k, Seq::empty(), false)
    } else {
        let v4 = if i + 1 < limit {
            match sep_ok(s, k, i == 0, COLON) {
                Some(k1) => ipv4_at(s, k1),
                None => None,
            }
        } else {
            None
        };
        match v4 {
            Some((e, o)) => (e, seq![o[0] * 256 + o[1], o[2] * 256 + o[3]], true),
            None => match sep_ok(s, k, i == 0, COLON) {
                None => (k, Seq::empty(), false),
                Some(k1) => match group_at(s, k1) {
                    None => (k, Seq::empty(), false),
                    Some((e, g)) => {
                        let r = groups_at(s, e, i + 1, limit);
                        (r.0, seq![g] + r.1, r.2)
                    },
                },
            },
        }
    }
}

/// The address that the whole of `t` spells in colon-hex form.
pub open spec fn ipv6_value(t: Seq<u8>) -> Option<Seq<int>> {
    let (e1, head, h4) = groups_at(t, 0, 0, 8);
    if head.len() >= 8 {
        if e1 == t.len() {
            Some(head)
        } else {
            None
        }
    } else if h4 {
        None
    } else if !(e1 + 2 <= t.len() && t[e1] == COLON && t[e1 + 1] == COLON) {
        None
    } else {
        let (e2, tail, _) = groups_at(t, e1 + 2, 0, (7 - head.len()) as nat);
        if e2 == t.len() {
            Some(head + Seq::new((8 - head.len() - tail.len()) as nat, |q: int| 0int) + tail)
        } else {
            None
        }
    }
}

fn octet_exec(buf: &[u8], k: usize) -> (r: Option<(usize, u8)>)
    requires
        k <= buf@.len(),
    ensures
        match r {
            Some((e, v)) => octet_at(buf@, k as int) == Some((e as int, v as int)) && k < e <= buf@.len(),
            None => octet_at(buf@, k as int) is None,
        },
{
    let e = span_exec(Class::Digit, buf, k);
    proof {
        lemma_span(Class::Digit, buf@, k as int);
    }
    if e == k || e - k > 3 || (buf[k] == 48 && e - k > 1) {
        return None;
    }
    let mut acc: u32 = 0;
    let mut j = k;
    while j < e
        invariant
            k <= j <= e,
            e - k <= 3,
            e <= buf@.len(),
            forall|q: int| k <= q < e ==> is_digit(#[trigger] buf@[q]),
            acc == dec_value(buf@, k as int, j as int),
            acc < 1000,
            j - k <= 2 ==> acc < 100,
            j - k <= 1 ==> acc < 10,
            j == k ==> acc == 0,
        decreases e - j,
    {
        assert(is_digit(buf@[j as int]));
        acc = acc * 10 + (buf[j] - 48) as u32;
        j = j + 1;
    }
    if acc > 255 {
        None
    } else {
        Some((e, acc as u8))
    }
}

fn ipv4_at_exec(buf: &[u8], k0: usize) -> (r: Option<(usize, [u8; 4])>)
    requires
        k0 <= buf@.len(),
    ensures
        match r {
            Some((e, a)) => ipv4_at(buf@, k0 as int) == Some(
                (e as int, a@.map_values(|x: u8| x as int)),
            ) && k0 < e <= buf@.len(),
            None => ipv4_at(buf@, k0 as int) is None,
        },
{
    let mut a: [u8; 4] = [0, 0, 0, 0];
    let mut k = k0;
    let mut n: usize = 0;
    while n < 4
        invariant
            n <= 4,
            k0 <= k <= buf@.len(),
            n > 0 ==> k0 < k,
            match octets_at(buf@, k0 as int, 0) {
                Some((e, vs)) => match octets_at(buf@, k as int, n as nat) {
                    Some((e2, vs2)) => e == e2 && vs == a@.take(n as int).map_values(|x: u8| x as int)
                        + vs2,
                    None => false,
                },
                None => octets_at(buf@, k as int, n as nat) is None,
            },
        decreases 4 - n,
    {
        let k1 = if n == 0 {
            k
        } else if k < buf.len() && buf[k] == DOT {
            k + 1
        } else {
            return None;
        };
        match octet_exec(buf, k1) {
            None => {
                return None;
            },
            Some((e, v)) => {
                let ghost before = a@;
                a[n] = v;
                proof {
                    assert(a@.take(n + 1).map_values(|x: u8| x as int) =~= before.take(n as int).map_values(
                        |x: u8| x as int,
                    ) + seq![v as int]);
                }
                k = e;
                n = n + 1;
            },
        }
    }
    assert(a@.take(4) =~= a@);
    Some((k, a))
}

fn group_exec(buf: &[u8], k: usize) -> (r: Option<(usize, u16)>)
    requires
        k <= buf@.len(),
    ensures
        match r {
            Some((e, v)) => group_at(buf@, k as int) == Some((e as int, v as int)) && k < e <= buf@.len(),
            None => group_at(buf@, k as int) is None,
        },
{
    let e = span_exec(Class::Xdigit, buf, k);
    proof {
        lemma_span(Class::Xdigit, buf@, k as int);
    }
    if e == k || e - k > 4 {
        return None;
    }
    let mut acc: u32 = 0;
    let mut j = k;
    while j < e
        invariant
            k <= j <= e,
            e - k <= 4,
            e <= buf@.len(),
            forall|q: int| k <= q < e ==> is_xdigit(#[trigger] buf@[q]),
            acc == hex_value(buf@, k as int, j as int),
            acc < 65536,
            j - k <= 3 ==> acc < 4096,
            j - k <= 2 ==> acc < 256,
            j - k <= 1 ==> acc < 16,
            j == k ==> acc == 0,
        decreases e - j,
    {
        let b = buf[j];
        assert(is_xdigit(buf@[j as int]));
        let d: u32 = if 48 <= b && b <= 57 {
            (b - 48) as u32
        } else if 97 <= b && b <= 102 {
            (b - 87) as u32
        } else {
            (b - 55) as u32
        };
        acc = acc * 16 + d;
        j = j + 1;
    }
    Some((e, acc as u16))
}

/// `groups_at` with its values.
fn groups_exec(buf: &[u8], k0: usize, limit: usize) -> (r: (usize, Vec<u16>, bool))
    requires
        k0 <= buf@.len(),
        limit <= 8,
    ensures
        groups_at(buf@, k0 as int, 0, limit as nat) == (
            r.0 as int,
            r.1@.map_values(|x: u16| x as int),
            r.2,
        ),
        k0 <= r.0 <= buf@.len(),
        r.1@.len() <= limit,
{
    let mut out: Vec<u16> = Vec::new();
    let mut k = k0;
    let mut i: usize = 0;
    while i < limit
        invariant
            i <= limit <= 8,
            out@.len() == i,
            k0 <= k <= buf@.len(),
            ({
                let whole = groups_at(buf@, k0 as int, 0, limit as nat);
                let rest = groups_at(buf@, k as int, i as nat, limit as nat);
                whole == (rest.0, out@.map_values(|x: u16| x as int) + rest.1, rest.2)
            }),
        decreases limit - i,
    {
        let ghost prev = out@;
        let sep = if i == 0 {
            Some(k)
        } else if k < buf.len() && buf[k] == COLON {
            Some(k + 1)
        } else {
            None
        };
        if i + 1 < limit {
            let v4 = match sep {
                Some(k1) => ipv4_at_exec(buf, k1),
                None => None,
            };
            match v4 {
                Some((e, o)) => {
                    let g1: u16 = (o[0] as u16) * 256 + (o[1] as u16);
                    let g2: u16 = (o[2] as u16) * 256 + (o[3] as u16);
                    out.push(g1);
                    out.push(g2);
                    proof {
                        let ov = o@.map_values(|x: u8| x as int);
                        assert(ov[0] == o[0] && ov[1] == o[1] && ov[2] == o[2] && ov[3] == o[3]);
                        assert(out@.map_values(|x: u16| x as int) =~= prev.map_values(|x: u16| x as int)
                            + seq![ov[0] * 256 + ov[1], ov[2] * 256 + ov[3]]);
                    }
                    return (e, out, true);
                },
                None => {},
            }
        }
        let g = match sep {
            Some(k1) => group_exec(buf, k1),
            None => None,
        };
        match g {
            None => {
                proof {
                    assert(out@.map_values(|x: u16| x as int) + Seq::<int>::empty() =~= out@.map_values(
                        |x: u16| x as int,
                    ));
                }
                return (k, out, false);
            },
            Some((e, v)) => {
                out.push(v);
                proof {
                    let rest = groups_at(buf@, e as int, (i + 1) as nat, limit as nat);
                    assert(out@.map_values(|x: u16| x as int) + rest.1 =~= prev.map_values(
                        |x: u16| x as int,
                    ) + (seq![v as int] + rest.1));
                }
                k = e;
                i = i + 1;
            },
        }
    }
    proof {
        assert(out@.map_values(|x: u16| x as int) + Seq::<int>::empty() =~= out@.map_values(
            |x: u16| x as int,
        ));
    }
    (k, out, false)
}

/// Reads the whole of `t` as a dotted-quad IPv4 address.
pub fn parse_ipv4(t: &[u8]) -> (r: Option<[u8; 4]>)
    ensures
        match r {
            Some(a) => ipv4_value(t@) == Some(a@.map_values(|x: u8| x as int)),
            None => ipv4_value(t@) is None,
        },
{
    match ipv4_at_exec(t, 0) {
        Some((e, a)) => if e == t.len() {
            Some(a)
        } else {
            None
        },
        None => None,
    }
}

/// Reads the whole of `t` as a colon-hex IPv6 address.
pub fn parse_ipv6(t: &[u8]) -> (r: Option<[u16; 8]>)
    ensures
        match r {
            Some(a) => ipv6_value(t@) == Some(a@.map_values(|x: u16| x as int)),
            None => ipv6_value(t@) is None,
        },
{
    let n = t.len();
    let (e1, head, h4) = groups_exec(t, 0, 8);
    let hn = head.len();
    let mut a: [u16; 8] = [0, 0, 0, 0, 0, 0, 0, 0];
    if hn >= 8 {
        if e1 != n {
            return None;
        }
        let mut q: usize = 0;
        while q < 8
            invariant
                q <= 8,
                head@.len() == 8,
                forall|p: int| 0 <= p < q ==> a@[p] == head@[p],
            decreases 8 - q,
        {
            a[q] = head[q];
            q = q + 1;
        }
        assert(a@.map_values(|x: u16| x as int) =~= head@.map_values(|x: u16| x as int));
        return Some(a);
    }
    if h4 {
        return None;
    }
    if !(n - e1 >= 2 && t[e1] == COLON && t[e1 + 1] == COLON) {
        return None;
    }
    let (e2, tail, _) = groups_exec(t, e1 + 2, 7 - hn);
    if e2 != n {
        return None;
    }
    let tn = tail.len();
    let mut q: usize = 0;
    while q < hn
        invariant
            q <= hn < 8,
            head@.len() == hn,
            forall|p: int| 0 <= p < q ==> a@[p] == head@[p],
            forall|p: int| q <= p < 8 ==> a@[p] == 0,
        decreases hn - q,
    {
        a[q] = head[q];
        q = q + 1;
    }
    let mut q: usize = 0;
    while q < tn
        invariant
            q <= tn,
            hn + tn <= 7,
            head@.len() == hn,
            tail@.len() == tn,
            forall|p: int| 0 <= p < hn ==> a@[p] == head@[p],
            forall|p: int| hn <= p < 8 - tn ==> a@[p] == 0,
            forall|p: int| 0 <= p < q ==> a@[8 - tn + p] == tail@[p],
        decreases tn - q,
    {
        a[8 - tn + q] = tail[q];
        q = q + 1;
    }
    proof {
        let hv = head@.map_values(|x: u16| x as int);
        let tv = tail@.map_values(|x: u16| x as int);
        let z = Seq::new((8 - hv.len() - tv.len()) as nat, |p: int| 0int);
        assert(a@.map_values(|x: u16| x as int) =~= hv + z + tv);
    }
    Some(a)
}

} // verus!
