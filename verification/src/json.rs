//! JSON string literals in their compact form: a quotation mark, the content
//! with the mandatory escapes, a quotation mark.
//!
//! Writing goes through `serde_json`; reading is done here and accepts exactly
//! what is written.

use vstd::prelude::*;
use vstd::utf8::{encode_utf8, valid_utf8};

verus! {

/// `"`
pub const QUOTE: u8 = 0x22;

/// `\`
pub const BACKSLASH: u8 = 0x5c;

/// The lower-case hexadecimal digit that stands for `n`, for `n` below 16.
pub open spec fn hex_digit(n: int) -> u8 {
    if n < 10 {
        (0x30 + n) as u8
    } else {
        (0x57 + n) as u8
    }
}

/// The bytes that stand for the byte `b` inside a string literal.
///
/// The quotation mark, the backslash and the control characters are escaped:
/// by a two-byte escape where JSON has one, else by `\u00` and two hexadecimal
/// digits. Every other byte stands for itself.
pub open spec fn escape(b: u8) -> Seq<u8> {
    if b == QUOTE {
        seq![BACKSLASH, QUOTE]
    } else if b == BACKSLASH {
        seq![BACKSLASH, BACKSLASH]
    } else if b == 0x08 {
        seq![BACKSLASH, 0x62u8]
    } else if b == 0x09 {
        seq![BACKSLASH, 0x74u8]
    } else if b == 0x0a {
        seq![BACKSLASH, 0x6eu8]
    } else if b == 0x0c {
        seq![BACKSLASH, 0x66u8]
    } else if b == 0x0d {
        seq![BACKSLASH, 0x72u8]
    } else if b < 0x20 {
        seq![BACKSLASH, 0x75u8, 0x30u8, 0x30u8, hex_digit(b as int / 16), hex_digit(b as int % 16)]
    } else {
        seq![b]
    }
}

/// The escaped form of a byte string: the escapes of its bytes, in order.
pub open spec fn escaped(s: Seq<u8>) -> Seq<u8>
    decreases s.len(),
{
    if s.len() == 0 {
        Seq::empty()
    } else {
        escape(s[0]) + escaped(s.skip(1))
    }
}

/// The string literal for a byte string.
pub open spec fn quoted(s: Seq<u8>) -> Seq<u8> {
    seq![QUOTE] + escaped(s) + seq![QUOTE]
}

/// The byte that the escape at the head of `t` stands for, with the escape's
/// length; `None` where `t` does not begin with an escape of one byte.
spec fn unit(t: Seq<u8>) -> Option<(u8, int)> {
    if t.len() == 0 {
        None
    } else if t[0] == BACKSLASH {
        if t.len() < 2 {
            None
        } else if t[1] == QUOTE || t[1] == BACKSLASH {
            Some((t[1], 2))
        } else if t[1] == 0x62 {
            Some((0x08u8, 2))
        } else if t[1] == 0x74 {
            Some((0x09u8, 2))
        } else if t[1] == 0x6e {
            Some((0x0au8, 2))
        } else if t[1] == 0x66 {
            Some((0x0cu8, 2))
        } else if t[1] == 0x72 {
            Some((0x0du8, 2))
        } else if t[1] == 0x75 && t.len() >= 6 && t[2] == 0x30 && t[3] == 0x30 {
            match control_code(t[4], t[5]) {
                Some(b) => Some((b, 6)),
                None => None,
            }
        } else {
            None
        }
    } else if t[0] < 0x20 || t[0] == QUOTE {
        None
    } else {
        Some((t[0], 1))
    }
}

/// The control character written as the hexadecimal digits `hi` and `lo`, where
/// that is how it is escaped.
spec fn control_code(hi: u8, lo: u8) -> Option<u8> {
    if (hi == 0x30 || hi == 0x31) && (0x30 <= lo <= 0x39 || 0x61 <= lo <= 0x66) {
        let low: int = if lo <= 0x39 {
            lo - 0x30
        } else {
            lo - 0x57
        };
        let b: int = (hi - 0x30) * 16 + low;
        if b == 0x08 || b == 0x09 || b == 0x0a || b == 0x0c || b == 0x0d {
            None
        } else {
            Some(b as u8)
        }
    } else {
        None
    }
}

/// Reads the body of a string literal in `t` from index `i`, after `acc` has
/// been read: the content and the index behind the closing quotation mark.
spec fn scan(t: Seq<u8>, i: int, acc: Seq<u8>) -> Option<(Seq<u8>, int)>
    decreases t.len() - i,
{
    if i < 0 || i >= t.len() {
        None
    } else if t[i] == QUOTE {
        Some((acc, i + 1))
    } else {
        match unit(t.skip(i)) {
            Some((b, n)) => scan(t, i + n, acc.push(b)),
            None => None,
        }
    }
}

/// The string literal at the head of `t`: its content and its length; `None`
/// where none stands there. `lemma_literal_of_quoted` and
/// `lemma_quoted_of_literal` say that this is the inverse of `quoted`.
pub closed spec fn literal(t: Seq<u8>) -> Option<(Seq<u8>, int)> {
    if t.len() > 0 && t[0] == QUOTE {
        scan(t, 1, Seq::empty())
    } else {
        None
    }
}

/// An escape is one to six bytes long and does not begin with a quotation mark.
pub proof fn lemma_escape_shape(b: u8)
    ensures
        1 <= escape(b).len() <= 6,
        escape(b)[0] != QUOTE,
{
}

/// An escape at the head of `t` is read back as the byte it stands for.
proof fn lemma_unit_of_escape(b: u8, t: Seq<u8>)
    requires
        escape(b).is_prefix_of(t),
    ensures
        unit(t) == Some((b, escape(b).len() as int)),
{
    let e = escape(b);
    assert(forall|k: int| 0 <= k < e.len() ==> t[k] == e[k]) by {
        assert(e =~= t.subrange(0, e.len() as int));
        assert forall|k: int| 0 <= k < e.len() implies t[k] == e[k] by {
            assert(t.subrange(0, e.len() as int)[k] == t[k]);
        }
    }
    if b < 0x20 && b != 0x08 && b != 0x09 && b != 0x0a && b != 0x0c && b != 0x0d {
        assert(e.len() == 6);
        assert(t[4] == hex_digit(b as int / 16));
        assert(t[5] == hex_digit(b as int % 16));
        assert(control_code(t[4], t[5]) == Some(b));
    }
}

/// What `unit` reads at the head of `t` is an escape that stands there.
proof fn lemma_escape_of_unit(t: Seq<u8>)
    requires
        unit(t) is Some,
    ensures
        ({
            let (b, n) = unit(t)->0;
            &&& n == escape(b).len()
            &&& escape(b).is_prefix_of(t)
        }),
{
    let (b, n) = unit(t)->0;
    assert(escape(b) =~= t.subrange(0, n));
}

/// `scan` returns a content that extends `acc` and whose escaped form,
/// closed by a quotation mark, is what it read.
proof fn lemma_scan_sound(t: Seq<u8>, i: int, acc: Seq<u8>)
    requires
        scan(t, i, acc) is Some,
    ensures
        ({
            let (raw, end) = scan(t, i, acc)->0;
            &&& 0 <= i < end <= t.len()
            &&& acc.is_prefix_of(raw)
            &&& t.subrange(i, end) == escaped(raw.skip(acc.len() as int)) + seq![QUOTE]
        }),
    decreases t.len() - i,
{
    let (raw, end) = scan(t, i, acc)->0;
    if t[i] == QUOTE {
        assert(raw.skip(acc.len() as int) =~= Seq::<u8>::empty());
        assert(t.subrange(i, end) =~= escaped(Seq::<u8>::empty()) + seq![QUOTE]);
    } else {
        let (b, n) = unit(t.skip(i))->0;
        lemma_escape_of_unit(t.skip(i));
        lemma_escape_shape(b);
        lemma_scan_sound(t, i + n, acc.push(b));
        let rest = raw.skip(acc.len() as int);
        assert(acc.push(b) =~= raw.subrange(0, acc.len() as int + 1));
        assert(acc =~= raw.subrange(0, acc.len() as int));
        assert(rest.len() > 0 && rest[0] == b) by {
            assert(raw.subrange(0, acc.len() as int + 1)[acc.len() as int] == b);
        }
        assert(rest.skip(1) =~= raw.skip(acc.len() as int + 1));
        assert(escaped(rest) == escape(b) + escaped(rest.skip(1)));
        assert(escape(b) =~= t.skip(i).subrange(0, n));
        assert(t.subrange(i, end) =~= t.skip(i).subrange(0, n) + t.subrange(i + n, end));
        assert(t.subrange(i, end) =~= escaped(rest) + seq![QUOTE]);
    }
}

/// Where the escaped form of `x`, closed by a quotation mark, stands in `t` at
/// index `i`, `scan` reads `x`.
proof fn lemma_scan_complete(t: Seq<u8>, i: int, acc: Seq<u8>, x: Seq<u8>)
    requires
        0 <= i <= t.len(),
        (escaped(x) + seq![QUOTE]).is_prefix_of(t.skip(i)),
    ensures
        scan(t, i, acc) == Some((acc + x, i + escaped(x).len() + 1)),
    decreases x.len(),
{
    let body = escaped(x) + seq![QUOTE];
    assert(body =~= t.skip(i).subrange(0, body.len() as int));
    if x.len() == 0 {
        assert(t[i] == t.skip(i).subrange(0, body.len() as int)[0]);
        assert(acc + x =~= acc);
    } else {
        let e = escape(x[0]);
        lemma_escape_shape(x[0]);
        let tail = escaped(x.skip(1)) + seq![QUOTE];
        assert(body =~= e + tail);
        assert(t[i] == t.skip(i).subrange(0, body.len() as int)[0]);
        assert(t[i] == e[0]);
        assert(e =~= t.skip(i).subrange(0, e.len() as int));
        lemma_unit_of_escape(x[0], t.skip(i));
        assert(tail =~= t.skip(i + e.len()).subrange(0, tail.len() as int)) by {
            assert forall|k: int| 0 <= k < tail.len() implies tail[k] == t.skip(i + e.len())[k] by {
                assert(body[e.len() + k] == tail[k]);
                assert(t.skip(i).subrange(0, body.len() as int)[e.len() + k] == t[i + e.len() + k]);
            }
        }
        lemma_scan_complete(t, i + e.len(), acc.push(x[0]), x.skip(1));
        assert(acc.push(x[0]) + x.skip(1) =~= acc + x);
    }
}

/// A string literal at the head of `t` is read back as its content.
pub proof fn lemma_literal_of_quoted(s: Seq<u8>, t: Seq<u8>)
    requires
        quoted(s).is_prefix_of(t),
    ensures
        literal(t) == Some((s, quoted(s).len() as int)),
{
    let q = quoted(s);
    let body = escaped(s) + seq![QUOTE];
    assert(q =~= t.subrange(0, q.len() as int));
    assert(t[0] == t.subrange(0, q.len() as int)[0]);
    assert(body =~= t.skip(1).subrange(0, body.len() as int)) by {
        assert forall|k: int| 0 <= k < body.len() implies body[k] == t.skip(1)[k] by {
            assert(q[k + 1] == body[k]);
            assert(t.subrange(0, q.len() as int)[k + 1] == t[k + 1]);
        }
    }
    lemma_scan_complete(t, 1, Seq::empty(), s);
    assert(Seq::<u8>::empty() + s =~= s);
}

/// What `literal` reads at the head of `t` is a string literal that stands
/// there.
pub proof fn lemma_quoted_of_literal(t: Seq<u8>)
    requires
        literal(t) is Some,
    ensures
        ({
            let (s, n) = literal(t)->0;
            &&& 0 < n <= t.len()
            &&& n == quoted(s).len()
            &&& quoted(s).is_prefix_of(t)
        }),
{
    let (s, n) = literal(t)->0;
    lemma_scan_sound(t, 1, Seq::empty());
    assert(s.skip(0) =~= s);
    assert(t.subrange(0, n) =~= seq![QUOTE] + t.subrange(1, n));
    assert(quoted(s) =~= t.subrange(0, n));
}

/// A string literal is at least two bytes long and begins with a quotation
/// mark.
pub proof fn lemma_quoted_shape(s: Seq<u8>)
    ensures
        quoted(s).len() == escaped(s).len() + 2,
        quoted(s)[0] == QUOTE,
{
}

proof fn lemma_no_literal(t: Seq<u8>)
    requires
        literal(t) is None,
    ensures
        forall|s: Seq<u8>| !(#[trigger] quoted(s)).is_prefix_of(t),
{
    assert forall|s: Seq<u8>| !(#[trigger] quoted(s)).is_prefix_of(t) by {
        if quoted(s).is_prefix_of(t) {
            lemma_literal_of_quoted(s, t);
        }
    }
}

fn read_control_code(hi: u8, lo: u8) -> (r: Option<u8>)
    ensures
        r == control_code(hi, lo),
{
    if (hi == 0x30 || hi == 0x31) && ((0x30 <= lo && lo <= 0x39) || (0x61 <= lo && lo <= 0x66)) {
        let low: u8 = if lo <= 0x39 {
            lo - 0x30
        } else {
            lo - 0x57
        };
        let b: u8 = (hi - 0x30) * 16 + low;
        if b == 0x08 || b == 0x09 || b == 0x0a || b == 0x0c || b == 0x0d {
            None
        } else {
            Some(b)
        }
    } else {
        None
    }
}

fn read_unit(bytes: &[u8], i: usize) -> (r: Option<(u8, usize)>)
    requires
        i < bytes.len(),
    ensures
        match r {
            Some((b, n)) => unit(bytes@.skip(i as int)) == Some((b, n as int)) && 1 <= n && i + n
                <= bytes.len(),
            None => unit(bytes@.skip(i as int)) is None,
        },
{
    let c: u8 = bytes[i];
    if c == BACKSLASH {
        if bytes.len() - i < 2 {
            return None;
        }
        let d: u8 = bytes[i + 1];
        if d == QUOTE || d == BACKSLASH {
            Some((d, 2))
        } else if d == 0x62 {
            Some((0x08, 2))
        } else if d == 0x74 {
            Some((0x09, 2))
        } else if d == 0x6e {
            Some((0x0a, 2))
        } else if d == 0x66 {
            Some((0x0c, 2))
        } else if d == 0x72 {
            Some((0x0d, 2))
        } else if d == 0x75 && bytes.len() - i >= 6 && bytes[i + 2] == 0x30 && bytes[i + 3] == 0x30 {
            match read_control_code(bytes[i + 4], bytes[i + 5]) {
                Some(b) => Some((b, 6)),
                None => None,
            }
        } else {
            None
        }
    } else if c < 0x20 || c == QUOTE {
        None
    } else {
        Some((c, 1))
    }
}

/// Reads the string literal at the head of `bytes`: its content and its
/// length. `None` where no string literal stands there.
pub fn read_literal(bytes: &[u8]) -> (r: Option<(Vec<u8>, usize)>)
    ensures
        match r {
            Some((raw, n)) => n == quoted(raw@).len() && quoted(raw@).is_prefix_of(bytes@),
            None => forall|s: Seq<u8>| !(#[trigger] quoted(s)).is_prefix_of(bytes@),
        },
        literal(bytes@) == match r {
            Some((raw, n)) => Some((raw@, n as int)),
            None => None,
        },
{
    if bytes.len() == 0 || bytes[0] != QUOTE {
        proof {
            lemma_no_literal(bytes@);
        }
        return None;
    }
    let mut raw: Vec<u8> = Vec::new();
    let mut i: usize = 1;
    loop
        invariant
            1 <= i <= bytes.len(),
            literal(bytes@) == scan(bytes@, i as int, raw@),
        decreases bytes.len() - i,
    {
        if i >= bytes.len() {
            proof {
                lemma_no_literal(bytes@);
            }
            return None;
        }
        if bytes[i] == QUOTE {
            proof {
                lemma_quoted_of_literal(bytes@);
            }
            return Some((raw, i + 1));
        }
        match read_unit(bytes, i) {
            Some((b, n)) => {
                raw.push(b);
                i = i + n;
            },
            None => {
                proof {
                    lemma_no_literal(bytes@);
                }
                return None;
            },
        }
    }
}

/// Writes `s` as a JSON string literal, by `serde_json::to_vec`.
///
/// Trusted: the result is a quotation mark, the UTF-8 bytes of `s` with each
/// quotation mark, backslash and control character escaped as `escape` says,
/// and a quotation mark. Writing a string into a vector does not fail.
#[verifier::external_body]
pub(crate) fn write_string(s: &str) -> (out: Vec<u8>)
    ensures
        out@ == quoted(encode_utf8(s@)),
{
    serde_json::to_vec(s).unwrap_or_default()
}

/// Turns bytes into a string, by `String::from_utf8`.
///
/// Trusted: the call succeeds exactly on valid UTF-8, and the string it
/// returns is made of those bytes.
#[verifier::external_body]
pub(crate) fn string_from_utf8(bytes: Vec<u8>) -> (r: Option<String>)
    ensures
        r is Some <==> valid_utf8(bytes@),
        r matches Some(s) ==> encode_utf8(s@) == bytes@,
{
    match String::from_utf8(bytes) {
        Ok(s) => Some(s),
        Err(_) => None,
    }
}

} // verus!
