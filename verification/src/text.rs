//! Text as UTF-8 bytes: what `String` and `&str` hold, decoding bytes into
//! strings, and the facts about UTF-8 that the grammars rely on.

use vstd::prelude::*;
use vstd::utf8::*;
use vstd::string::*;

verus! {

broadcast use vstd::seq::group_seq_axioms;

/// Text carried by the message types: either an owned `String` or a
/// borrowed `&str`.  Its model is the UTF-8 encoding of the text.
pub trait Text {
    /// The UTF-8 bytes of the text.
    spec fn text_bytes(&self) -> Seq<u8>;

    /// The UTF-8 bytes of the text.
    fn text_as_bytes(&self) -> (r: &[u8])
        ensures
            r@ == self.text_bytes(),
    ;

    /// An owned copy of the text.
    fn text_to_string(&self) -> (r: String)
        ensures
            vstd::utf8::encode_utf8(r@) == self.text_bytes(),
    ;

    /// The bytes of a text are valid UTF-8.
    proof fn lemma_text_valid(&self)
        ensures
            valid_utf8(self.text_bytes()),
    ;
}

impl Text for String {
    open spec fn text_bytes(&self) -> Seq<u8> {
        encode_utf8(self@)
    }

    fn text_as_bytes(&self) -> (r: &[u8]) {
        self.as_str().as_bytes()
    }

    fn text_to_string(&self) -> (r: String) {
        self.as_str().to_owned()
    }

    proof fn lemma_text_valid(&self) {
        encode_utf8_valid_utf8(self@);
    }
}

impl<'a> Text for &'a str {
    open spec fn text_bytes(&self) -> Seq<u8> {
        encode_utf8((*self)@)
    }

    fn text_as_bytes(&self) -> (r: &[u8]) {
        (*self).as_bytes()
    }

    fn text_to_string(&self) -> (r: String) {
        (*self).to_owned()
    }

    proof fn lemma_text_valid(&self) {
        encode_utf8_valid_utf8((*self)@);
    }
}

/// `n` is the length of the longest prefix of `x` that is valid UTF-8.
pub open spec fn is_max_valid_prefix(x: Seq<u8>, n: int) -> bool {
    &&& 0 <= n <= x.len()
    &&& valid_utf8(x.subrange(0, n))
    &&& forall|m: int| n < m <= x.len() ==> !valid_utf8(#[trigger] x.subrange(0, m))
}

/// Length of the longest prefix of `x` that is valid UTF-8.
pub open spec fn utf8_valid_len(x: Seq<u8>) -> int {
    choose|n: int| is_max_valid_prefix(x, n)
}

pub proof fn lemma_max_valid_prefix_unique(x: Seq<u8>, n: int)
    requires
        is_max_valid_prefix(x, n),
    ensures
        utf8_valid_len(x) == n,
{
    let c = utf8_valid_len(x);
    assert(is_max_valid_prefix(x, c));
    if c < n {
        assert(!valid_utf8(x.subrange(0, n)));
    } else if n < c {
        assert(!valid_utf8(x.subrange(0, c)));
    }
}

/// Decodes `bytes` as UTF-8 with `std::str::from_utf8`.
///
/// Claims of `from_utf8`, as its documentation states them: it succeeds
/// exactly on valid UTF-8 (vstd's `valid_utf8`), the string it returns is made
/// of the very bytes it was given, and on failure `Utf8Error::valid_up_to`
/// is the largest index up to which the input is valid UTF-8.
#[verifier::external_body]
pub(crate) fn utf8_decode(bytes: &[u8]) -> (res: Result<String, usize>)
    ensures
        res is Ok <==> valid_utf8(bytes@),
        res matches Ok(s) ==> encode_utf8(s@) == bytes@,
        res matches Err(n) ==> n < bytes@.len() && is_max_valid_prefix(bytes@, n as int),
{
    match std::str::from_utf8(bytes) {
        Ok(s) => Ok(s.to_owned()),
        Err(e) => Err(e.valid_up_to()),
    }
}

/// What `String::from_utf8_lossy` makes of `bytes`.
pub uninterp spec fn lossy_utf8(bytes: Seq<u8>) -> Seq<char>;

/// Decodes `bytes` with `String::from_utf8_lossy`.
///
/// Claims: its result is `lossy_utf8` of the bytes (a function of the
/// bytes alone), and on valid UTF-8 it is made of the very bytes it was
/// given (its documentation: invalid sequences are replaced, nothing else
/// is); which replacement stands for which invalid sequence is left to
/// the name.
#[verifier::external_body]
pub(crate) fn utf8_lossy(bytes: &[u8]) -> (r: String)
    ensures
        r@ == lossy_utf8(bytes@),
        valid_utf8(bytes@) ==> encode_utf8(r@) == bytes@,
{
    String::from_utf8_lossy(bytes).into_owned()
}

/// Bytes below 0x80 always form valid UTF-8.
pub proof fn lemma_ascii_valid_utf8(b: Seq<u8>)
    requires
        forall|k: int| 0 <= k < b.len() ==> #[trigger] b[k] < 0x80,
    ensures
        valid_utf8(b),
{
    assert(valid_utf8(b.subrange(0, 0)));
    assert forall|k: int| 0 <= 0 <= k < b.len() <= b.len() implies #[trigger] is_leading_byte_width_1(
        b[k],
    ) by {
        assert(b[k] < 0x80);
    }
    partial_valid_utf8_extend_ascii_block(b, 0, b.len() as int);
    assert(b.subrange(0, b.len() as int) =~= b);
}

/// Cutting valid UTF-8 right before an ASCII byte (or at its end) keeps it valid.
pub proof fn lemma_valid_utf8_cut_at_ascii(b: Seq<u8>, m: int)
    requires
        valid_utf8(b),
        0 <= m <= b.len(),
        m < b.len() ==> b[m] < 0x80,
    ensures
        valid_utf8(b.subrange(0, m)),
{
    if m == b.len() {
        assert(b.subrange(0, m) =~= b);
    } else {
        is_char_boundary_iff_not_is_continuation_byte(b, m);
        valid_utf8_split(b, m);
    }
}

/// Number of bytes of the UTF-8 encoding that starts with the leading
/// byte `b` (Unicode Table 3-7), or 0 for a byte that cannot start a
/// multi-byte sequence.
pub open spec fn utf8_width(b: u8) -> int {
    if 0xc2 <= b <= 0xdf {
        2
    } else if 0xe0 <= b <= 0xef {
        3
    } else if 0xf0 <= b <= 0xf4 {
        4
    } else {
        0
    }
}

/// Range allowed for the second byte after leading byte `b0` (Unicode Table 3-7).
pub open spec fn utf8_second_ok(b0: u8, b1: u8) -> bool {
    if b0 == 0xe0 {
        0xa0 <= b1 <= 0xbf
    } else if b0 == 0xed {
        0x80 <= b1 <= 0x9f
    } else if b0 == 0xf0 {
        0x90 <= b1 <= 0xbf
    } else if b0 == 0xf4 {
        0x80 <= b1 <= 0x8f
    } else {
        0x80 <= b1 <= 0xbf
    }
}

/// `x` is a non-empty proper prefix of a well-formed multi-byte UTF-8
/// sequence (Unicode Table 3-7): more input could still complete it.
pub open spec fn utf8_partial(x: Seq<u8>) -> bool {
    &&& 0 < x.len() < utf8_width(x[0])
    &&& x.len() >= 2 ==> utf8_second_ok(x[0], x[1])
    &&& x.len() >= 3 ==> 0x80 <= x[2] <= 0xbf
}

pub fn utf8_partial_exec(buf: &[u8], i: usize) -> (r: bool)
    requires
        i <= buf@.len(),
    ensures
        r == utf8_partial(buf@.subrange(i as int, buf@.len() as int)),
{
    let ghost x = buf@.subrange(i as int, buf@.len() as int);
    let n = buf.len() - i;
    if n == 0 {
        return false;
    }
    let b0 = buf[i];
    let w: usize = if 0xc2 <= b0 && b0 <= 0xdf {
        2
    } else if 0xe0 <= b0 && b0 <= 0xef {
        3
    } else if 0xf0 <= b0 && b0 <= 0xf4 {
        4
    } else {
        0
    };
    assert(x[0] == b0);
    if n >= w {
        return false;
    }
    if n >= 2 {
        let b1 = buf[i + 1];
        assert(x[1] == b1);
        let ok = if b0 == 0xe0 {
            0xa0 <= b1 && b1 <= 0xbf
        } else if b0 == 0xed {
            0x80 <= b1 && b1 <= 0x9f
        } else if b0 == 0xf0 {
            0x90 <= b1 && b1 <= 0xbf
        } else if b0 == 0xf4 {
            0x80 <= b1 && b1 <= 0x8f
        } else {
            0x80 <= b1 && b1 <= 0xbf
        };
        if !ok {
            return false;
        }
    }
    if n >= 3 {
        let b2 = buf[i + 2];
        assert(x[2] == b2);
        if !(0x80 <= b2 && b2 <= 0xbf) {
            return false;
        }
    }
    true
}

/// End (as an index into `buf`) of the longest valid UTF-8 prefix of `buf[i..]`.
pub fn utf8_valid_end(buf: &[u8], i: usize) -> (r: usize)
    requires
        i <= buf@.len(),
    ensures
        i <= r <= buf@.len(),
        r - i == utf8_valid_len(buf@.subrange(i as int, buf@.len() as int)),
{
    let rest = &buf[i..buf.len()];
    let ghost x = buf@.subrange(i as int, buf@.len() as int);
    assert(rest@ == x);
    match utf8_decode(rest) {
        Ok(_) => {
            proof {
                assert(x.subrange(0, x.len() as int) =~= x);
                assert(is_max_valid_prefix(x, x.len() as int));
                lemma_max_valid_prefix_unique(x, x.len() as int);
            }
            buf.len()
        },
        Err(n) => {
            proof {
                lemma_max_valid_prefix_unique(x, n as int);
            }
            i + n
        },
    }
}

/// Builds the `String` whose UTF-8 encoding is `buf[i..j]`, which must be
/// valid UTF-8.
pub fn string_of(buf: &[u8], i: usize, j: usize) -> (s: String)
    requires
        i <= j <= buf@.len(),
        valid_utf8(buf@.subrange(i as int, j as int)),
    ensures
        s.text_bytes() == buf@.subrange(i as int, j as int),
{
    let part = &buf[i..j];
    match utf8_decode(part) {
        Ok(s) => s,
        Err(_) => {
            assert(false);
            String::new()
        },
    }
}

} // verus!
