//! The record codec: one command of the log as a JSON object, and back.
//!
//! A record is the object `{"key":K,"value":V,"command_type":T}` in its
//! compact form, with the fields in this order: `K` is a string literal, `V` a
//! string literal or `null`, and `T` one of `"SET"`, `"RM"` and `"GET"`.
//! Records are self-delimiting: none is the beginning of another, so a log is
//! their plain concatenation.

use crate::error::DecodeError;
use crate::json::{
    lemma_literal_of_quoted, lemma_quoted_of_literal, lemma_quoted_shape, literal, quoted,
    read_literal, string_from_utf8, write_string,
};
use vstd::prelude::*;
use vstd::slice::slice_subrange;
use vstd::utf8::{
    decode_utf8, decode_utf8_encode_utf8, encode_utf8, encode_utf8_decode_utf8,
    encode_utf8_valid_utf8, valid_utf8,
};

verus! {

/// A command of the log.
#[derive(Debug, Clone, PartialEq, Eq)]
#[allow(inconsistent_fields)]
pub enum Command {
    /// `key` now maps to `value`.
    SET { key: String, value: String },
    /// `key` is no longer present.
    RM { key: String },
    /// A read of `key`. Old logs hold such records; they change nothing and
    /// none is written any more.
    GET { key: String, value: Option<String> },
}

/// A command as a mathematical value: its strings as sequences of characters.
#[allow(inconsistent_fields)]
pub enum Record {
    SET { key: Seq<char>, value: Seq<char> },
    RM { key: Seq<char> },
    GET { key: Seq<char>, value: Option<Seq<char>> },
}

impl View for Command {
    type V = Record;

    open spec fn view(&self) -> Record {
        match *self {
            Command::SET { key, value } => Record::SET { key: key@, value: value@ },
            Command::RM { key } => Record::RM { key: key@ },
            Command::GET { key, value } => Record::GET {
                key: key@,
                value: match value {
                    Some(v) => Some(v@),
                    None => None,
                },
            },
        }
    }
}

impl Record {
    /// The key that the record speaks of.
    pub open spec fn key(self) -> Seq<char> {
        match self {
            Record::SET { key, .. } => key,
            Record::RM { key } => key,
            Record::GET { key, .. } => key,
        }
    }

    /// The value that the record carries, if any.
    pub open spec fn value(self) -> Option<Seq<char>> {
        match self {
            Record::SET { value, .. } => Some(value),
            Record::RM { .. } => None,
            Record::GET { value, .. } => value,
        }
    }
}

/// `{"key":`
pub open spec fn key_field() -> Seq<u8> {
    seq![0x7bu8, 0x22u8, 0x6bu8, 0x65u8, 0x79u8, 0x22u8, 0x3au8]
}

/// `,"value":`
pub open spec fn value_field() -> Seq<u8> {
    seq![0x2cu8, 0x22u8, 0x76u8, 0x61u8, 0x6cu8, 0x75u8, 0x65u8, 0x22u8, 0x3au8]
}

/// `,"command_type":`
pub open spec fn type_field() -> Seq<u8> {
    seq![
        0x2cu8, 0x22u8, 0x63u8, 0x6fu8, 0x6du8, 0x6du8, 0x61u8, 0x6eu8, 0x64u8, 0x5fu8, 0x74u8,
        0x79u8, 0x70u8, 0x65u8, 0x22u8, 0x3au8,
    ]
}

/// `null`
pub open spec fn null() -> Seq<u8> {
    seq![0x6eu8, 0x75u8, 0x6cu8, 0x6cu8]
}

/// `"SET"}`
pub open spec fn set_tag() -> Seq<u8> {
    seq![0x22u8, 0x53u8, 0x45u8, 0x54u8, 0x22u8, 0x7du8]
}

/// `"RM"}`
pub open spec fn remove_tag() -> Seq<u8> {
    seq![0x22u8, 0x52u8, 0x4du8, 0x22u8, 0x7du8]
}

/// `"GET"}`
pub open spec fn get_tag() -> Seq<u8> {
    seq![0x22u8, 0x47u8, 0x45u8, 0x54u8, 0x22u8, 0x7du8]
}

/// The string literal for a text: its UTF-8 bytes, quoted.
pub open spec fn text(s: Seq<char>) -> Seq<u8> {
    quoted(encode_utf8(s))
}

/// The JSON for an optional text: a string literal or `null`.
pub open spec fn optional_text(v: Option<Seq<char>>) -> Seq<u8> {
    match v {
        Some(s) => text(s),
        None => null(),
    }
}

/// The end of a record: the name of its command and the closing brace.
pub open spec fn tag(r: Record) -> Seq<u8> {
    match r {
        Record::SET { .. } => set_tag(),
        Record::RM { .. } => remove_tag(),
        Record::GET { .. } => get_tag(),
    }
}

/// The bytes of a record.
pub open spec fn encoding(r: Record) -> Seq<u8> {
    key_field() + text(r.key()) + value_field() + optional_text(r.value()) + type_field() + tag(r)
}

/// What reading one record from the head of `t` gives: the record that stands
/// there, with its length. No bytes are the end of the stream; bytes that do
/// not begin with a record are malformed.
pub open spec fn decoding(t: Seq<u8>) -> Result<(Record, nat), DecodeError> {
    if t.len() == 0 {
        Err(DecodeError::EndOfStream)
    } else if exists|r: Record| (#[trigger] encoding(r)).is_prefix_of(t) {
        let r = choose|r: Record| (#[trigger] encoding(r)).is_prefix_of(t);
        Ok((r, encoding(r).len()))
    } else {
        Err(DecodeError::Malformed)
    }
}

/// The command names that a record can end in.
enum Tag {
    SET,
    RM,
    GET,
}

spec fn parse_tag(t: Seq<u8>) -> Option<(Tag, int)> {
    if set_tag().is_prefix_of(t) {
        Some((Tag::SET, 6))
    } else if remove_tag().is_prefix_of(t) {
        Some((Tag::RM, 5))
    } else if get_tag().is_prefix_of(t) {
        Some((Tag::GET, 6))
    } else {
        None
    }
}

spec fn parse_value(t: Seq<u8>) -> Option<(Option<Seq<u8>>, int)> {
    if null().is_prefix_of(t) {
        Some((None, 4))
    } else {
        match literal(t) {
            Some((raw, n)) => Some((Some(raw), n)),
            None => None,
        }
    }
}

spec fn chars(raw: Seq<u8>) -> Option<Seq<char>> {
    if valid_utf8(raw) {
        Some(decode_utf8(raw))
    } else {
        None
    }
}

spec fn optional_chars(raw: Option<Seq<u8>>) -> Option<Option<Seq<char>>> {
    match raw {
        None => Some(None),
        Some(b) => match chars(b) {
            Some(s) => Some(Some(s)),
            None => None,
        },
    }
}

spec fn assemble(tag: Tag, key: Seq<char>, value: Option<Seq<char>>) -> Option<Record> {
    match tag {
        Tag::SET => match value {
            Some(v) => Some(Record::SET { key, value: v }),
            None => None,
        },
        Tag::RM => match value {
            Some(_) => None,
            None => Some(Record::RM { key }),
        },
        Tag::GET => Some(Record::GET { key, value }),
    }
}

/// Reads a record field by field from the head of `t`.
spec fn parse(t: Seq<u8>) -> Option<(Record, int)> {
    if !key_field().is_prefix_of(t) {
        None
    } else {
        match literal(t.skip(7)) {
            None => None,
            Some((kraw, kn)) => {
                let p = 7 + kn;
                if !value_field().is_prefix_of(t.skip(p)) {
                    None
                } else {
                    match parse_value(t.skip(p + 9)) {
                        None => None,
                        Some((vraw, vn)) => {
                            let e = p + 9 + vn;
                            if !type_field().is_prefix_of(t.skip(e)) {
                                None
                            } else {
                                match parse_tag(t.skip(e + 16)) {
                                    None => None,
                                    Some((tag, tn)) => match (chars(kraw), optional_chars(vraw)) {
                                        (Some(key), Some(value)) => match assemble(
                                            tag,
                                            key,
                                            value,
                                        ) {
                                            Some(r) => Some((r, e + 16 + tn)),
                                            None => None,
                                        },
                                        _ => None,
                                    },
                                }
                            }
                        },
                    }
                }
            },
        }
    }
}

proof fn lemma_prefix_join(a: Seq<u8>, b: Seq<u8>, t: Seq<u8>)
    requires
        a.is_prefix_of(t),
        b.is_prefix_of(t.skip(a.len() as int)),
    ensures
        (a + b).is_prefix_of(t),
        (a + b).len() == a.len() + b.len(),
{
    assert(a =~= t.subrange(0, a.len() as int));
    assert(b =~= t.skip(a.len() as int).subrange(0, b.len() as int));
    assert(a + b =~= t.subrange(0, (a + b).len() as int));
}

proof fn lemma_prefix_split(a: Seq<u8>, b: Seq<u8>, t: Seq<u8>)
    requires
        (a + b).is_prefix_of(t),
    ensures
        a.is_prefix_of(t),
        b.is_prefix_of(t.skip(a.len() as int)),
{
    let ab = a + b;
    assert(ab =~= t.subrange(0, ab.len() as int));
    assert(a =~= t.subrange(0, a.len() as int)) by {
        assert forall|k: int| 0 <= k < a.len() implies a[k] == t[k] by {
            assert(ab[k] == a[k]);
            assert(t.subrange(0, ab.len() as int)[k] == t[k]);
        }
    }
    assert(b =~= t.skip(a.len() as int).subrange(0, b.len() as int)) by {
        assert forall|k: int| 0 <= k < b.len() implies b[k] == t[a.len() + k] by {
            assert(ab[a.len() + k] == b[k]);
            assert(t.subrange(0, ab.len() as int)[a.len() + k] == t[a.len() + k]);
        }
    }
}

/// What `parse` reads is a record that stands at the head of `t`.
proof fn lemma_encoding_of_parse(t: Seq<u8>)
    requires
        parse(t) is Some,
    ensures
        ({
            let (r, n) = parse(t)->0;
            &&& n == encoding(r).len()
            &&& encoding(r).is_prefix_of(t)
        }),
{
    broadcast use decode_utf8_encode_utf8;

    let (r, n) = parse(t)->0;
    let (kraw, kn) = literal(t.skip(7))->0;
    lemma_quoted_of_literal(t.skip(7));
    let p = 7 + kn;
    let (vraw, vn) = parse_value(t.skip(p + 9))->0;
    let e = p + 9 + vn;
    let (tg, tn) = parse_tag(t.skip(e + 16))->0;
    let key = chars(kraw)->0;
    let value = optional_chars(vraw)->0;
    assert(r.key() == key && r.value() == value);
    assert(text(key) == quoted(kraw));
    let a1 = key_field() + text(key);
    lemma_prefix_join(key_field(), text(key), t);
    let a2 = a1 + value_field();
    lemma_prefix_join(a1, value_field(), t);
    assert(optional_text(value).is_prefix_of(t.skip(p + 9)) && optional_text(value).len() == vn) by {
        if vraw is Some {
            lemma_quoted_of_literal(t.skip(p + 9));
        }
    }
    let a3 = a2 + optional_text(value);
    lemma_prefix_join(a2, optional_text(value), t);
    let a4 = a3 + type_field();
    lemma_prefix_join(a3, type_field(), t);
    lemma_prefix_join(a4, tag(r), t);
}

/// A record that stands at the head of `t` is what `parse` reads.
proof fn lemma_parse_of_encoding(r: Record, t: Seq<u8>)
    requires
        encoding(r).is_prefix_of(t),
    ensures
        parse(t) == Some((r, encoding(r).len() as int)),
{
    broadcast use encode_utf8_valid_utf8, encode_utf8_decode_utf8;

    let key = r.key();
    let value = r.value();
    let a1 = key_field() + text(key);
    let a2 = a1 + value_field();
    let a3 = a2 + optional_text(value);
    let a4 = a3 + type_field();
    lemma_prefix_split(a4, tag(r), t);
    lemma_prefix_split(a3, type_field(), t);
    lemma_prefix_split(a2, optional_text(value), t);
    lemma_prefix_split(a1, value_field(), t);
    lemma_prefix_split(key_field(), text(key), t);
    lemma_literal_of_quoted(encode_utf8(key), t.skip(7));
    let kn = text(key).len() as int;
    let p = 7 + kn;
    assert(a1.len() == p);
    assert(a2.len() == p + 9);
    let tv = t.skip(p + 9);
    match value {
        Some(v) => {
            lemma_quoted_shape(encode_utf8(v));
            assert(text(v) =~= tv.subrange(0, text(v).len() as int));
            assert(tv[0] == tv.subrange(0, text(v).len() as int)[0]);
            assert(!null().is_prefix_of(tv)) by {
                if null().is_prefix_of(tv) {
                    assert(null() =~= tv.subrange(0, 4));
                    assert(tv.subrange(0, 4)[0] == tv[0]);
                }
            }
            lemma_literal_of_quoted(encode_utf8(v), tv);
        },
        None => {},
    }
    let vn = optional_text(value).len() as int;
    let e = p + 9 + vn;
    assert(a3.len() == e);
    assert(a4.len() == e + 16);
    let tt = t.skip(e + 16);
    assert(tag(r) =~= tt.subrange(0, tag(r).len() as int));
    assert(tt[1] == tt.subrange(0, tag(r).len() as int)[1]);
    assert(set_tag().is_prefix_of(tt) ==> tt[1] == 0x53) by {
        if set_tag().is_prefix_of(tt) {
            assert(set_tag() =~= tt.subrange(0, 6));
            assert(tt.subrange(0, 6)[1] == tt[1]);
        }
    }
    assert(remove_tag().is_prefix_of(tt) ==> tt[1] == 0x52) by {
        if remove_tag().is_prefix_of(tt) {
            assert(remove_tag() =~= tt.subrange(0, 5));
            assert(tt.subrange(0, 5)[1] == tt[1]);
        }
    }
}

/// No record is the beginning of another: two records that stand at the head
/// of the same bytes are the same record.
pub proof fn lemma_encoding_unique(a: Record, b: Record, t: Seq<u8>)
    requires
        encoding(a).is_prefix_of(t),
        encoding(b).is_prefix_of(t),
    ensures
        a == b,
{
    lemma_parse_of_encoding(a, t);
    lemma_parse_of_encoding(b, t);
}

/// A record is at least 30 bytes long.
pub proof fn lemma_encoding_len(r: Record)
    ensures
        encoding(r).len() >= 30,
{
    lemma_quoted_shape(encode_utf8(r.key()));
}

/// Reading where a record stands gives that record and its length, whatever
/// follows it.
pub proof fn lemma_decoding_of_encoding(r: Record, rest: Seq<u8>)
    ensures
        decoding(encoding(r) + rest) == Ok::<(Record, nat), DecodeError>((r, encoding(r).len())),
{
    let t = encoding(r) + rest;
    lemma_encoding_len(r);
    assert(encoding(r) =~= t.subrange(0, encoding(r).len() as int));
    assert(encoding(r).is_prefix_of(t));
    let c = choose|c: Record| (#[trigger] encoding(c)).is_prefix_of(t);
    lemma_encoding_unique(r, c, t);
}

/// Codec round trip: reading the bytes of a record gives the record back, and
/// takes all of them.
pub proof fn lemma_round_trip(r: Record)
    ensures
        decoding(encoding(r)) == Ok::<(Record, nat), DecodeError>((r, encoding(r).len())),
{
    lemma_decoding_of_encoding(r, Seq::empty());
    assert(encoding(r) + Seq::<u8>::empty() =~= encoding(r));
}

/// What was read is what stands there: a successful reading returns a record
/// whose bytes are the head of the input.
pub proof fn lemma_encoding_of_decoding(t: Seq<u8>)
    requires
        decoding(t) is Ok,
    ensures
        ({
            let (r, n) = decoding(t)->Ok_0;
            &&& n == encoding(r).len()
            &&& 30 <= n <= t.len()
            &&& t.subrange(0, n as int) == encoding(r)
        }),
{
    let (r, n) = decoding(t)->Ok_0;
    lemma_encoding_len(r);
    assert(encoding(r) =~= t.subrange(0, n as int));
}

fn key_field_bytes() -> (v: Vec<u8>)
    ensures
        v@ == key_field(),
{
    let v: Vec<u8> = vec![0x7bu8, 0x22u8, 0x6bu8, 0x65u8, 0x79u8, 0x22u8, 0x3au8];
    assert(v@ =~= key_field());
    v
}

fn value_field_bytes() -> (v: Vec<u8>)
    ensures
        v@ == value_field(),
{
    let v: Vec<u8> = vec![0x2cu8, 0x22u8, 0x76u8, 0x61u8, 0x6cu8, 0x75u8, 0x65u8, 0x22u8, 0x3au8];
    assert(v@ =~= value_field());
    v
}

fn type_field_bytes() -> (v: Vec<u8>)
    ensures
        v@ == type_field(),
{
    let v: Vec<u8> = vec![
        0x2cu8, 0x22u8, 0x63u8, 0x6fu8, 0x6du8, 0x6du8, 0x61u8, 0x6eu8, 0x64u8, 0x5fu8, 0x74u8,
        0x79u8, 0x70u8, 0x65u8, 0x22u8, 0x3au8,
    ];
    assert(v@ =~= type_field());
    v
}

fn null_bytes() -> (v: Vec<u8>)
    ensures
        v@ == null(),
{
    let v: Vec<u8> = vec![0x6eu8, 0x75u8, 0x6cu8, 0x6cu8];
    assert(v@ =~= null());
    v
}

fn set_tag_bytes() -> (v: Vec<u8>)
    ensures
        v@ == set_tag(),
{
    let v: Vec<u8> = vec![0x22u8, 0x53u8, 0x45u8, 0x54u8, 0x22u8, 0x7du8];
    assert(v@ =~= set_tag());
    v
}

fn remove_tag_bytes() -> (v: Vec<u8>)
    ensures
        v@ == remove_tag(),
{
    let v: Vec<u8> = vec![0x22u8, 0x52u8, 0x4du8, 0x22u8, 0x7du8];
    assert(v@ =~= remove_tag());
    v
}

fn get_tag_bytes() -> (v: Vec<u8>)
    ensures
        v@ == get_tag(),
{
    let v: Vec<u8> = vec![0x22u8, 0x47u8, 0x45u8, 0x54u8, 0x22u8, 0x7du8];
    assert(v@ =~= get_tag());
    v
}

fn write_optional(value: &Option<String>) -> (out: Vec<u8>)
    ensures
        out@ == optional_text(
            match *value {
                Some(v) => Some(v@),
                None => None,
            },
        ),
{
    match value {
        Some(v) => write_string(v.as_str()),
        None => null_bytes(),
    }
}

/// Encodes a command: the bytes of its record.
pub fn encode(command: &Command) -> (out: Vec<u8>)
    ensures
        out@ == encoding(command@),
{
    let mut out = key_field_bytes();
    let mut key_text = match command {
        Command::SET { key, .. } => write_string(key.as_str()),
        Command::RM { key } => write_string(key.as_str()),
        Command::GET { key, .. } => write_string(key.as_str()),
    };
    out.append(&mut key_text);
    let mut field = value_field_bytes();
    out.append(&mut field);
    let mut value_text = match command {
        Command::SET { value, .. } => write_string(value.as_str()),
        Command::RM { .. } => null_bytes(),
        Command::GET { value, .. } => write_optional(value),
    };
    out.append(&mut value_text);
    let mut field = type_field_bytes();
    out.append(&mut field);
    let mut end = match command {
        Command::SET { .. } => set_tag_bytes(),
        Command::RM { .. } => remove_tag_bytes(),
        Command::GET { .. } => get_tag_bytes(),
    };
    out.append(&mut end);
    out
}

/// Whether `lit` stands in `bytes` at index `at`.
fn stands_at(bytes: &[u8], at: usize, lit: &Vec<u8>) -> (b: bool)
    requires
        at <= bytes.len(),
    ensures
        b == lit@.is_prefix_of(bytes@.skip(at as int)),
        b ==> at + lit.len() <= bytes.len(),
{
    let n: usize = lit.len();
    if bytes.len() - at < n {
        return false;
    }
    let mut k: usize = 0;
    while k < n
        invariant
            k <= n,
            n == lit.len(),
            at + n <= bytes.len(),
            forall|j: int| 0 <= j < k ==> lit@[j] == bytes@[at + j],
        decreases n - k,
    {
        if lit[k] != bytes[at + k] {
            proof {
                if lit@.is_prefix_of(bytes@.skip(at as int)) {
                    assert(lit@ =~= bytes@.skip(at as int).subrange(0, n as int));
                    assert(bytes@.skip(at as int).subrange(0, n as int)[k as int] == bytes@[at + k]);
                }
            }
            return false;
        }
        k = k + 1;
    }
    assert(lit@ =~= bytes@.skip(at as int).subrange(0, n as int));
    true
}

fn read_tag(bytes: &[u8], at: usize) -> (r: Option<(Tag, usize)>)
    requires
        at <= bytes.len(),
    ensures
        parse_tag(bytes@.skip(at as int)) == match r {
            Some((tag, n)) => Some((tag, n as int)),
            None => None,
        },
        r matches Some((_, n)) ==> at + n <= bytes.len(),
{
    if stands_at(bytes, at, &set_tag_bytes()) {
        Some((Tag::SET, 6))
    } else if stands_at(bytes, at, &remove_tag_bytes()) {
        Some((Tag::RM, 5))
    } else if stands_at(bytes, at, &get_tag_bytes()) {
        Some((Tag::GET, 6))
    } else {
        None
    }
}

fn read_value(bytes: &[u8], at: usize) -> (r: Option<(Option<Vec<u8>>, usize)>)
    requires
        at <= bytes.len(),
    ensures
        parse_value(bytes@.skip(at as int)) == match r {
            Some((Some(raw), n)) => Some((Some(raw@), n as int)),
            Some((None, n)) => Some((None, n as int)),
            None => None,
        },
        r matches Some((_, n)) ==> at + n <= bytes.len(),
{
    if stands_at(bytes, at, &null_bytes()) {
        Some((None, 4))
    } else {
        let rest = slice_subrange(bytes, at, bytes.len());
        assert(rest@ =~= bytes@.skip(at as int));
        match read_literal(rest) {
            Some((raw, n)) => Some((Some(raw), n)),
            None => None,
        }
    }
}

fn read_chars(raw: Vec<u8>) -> (r: Option<String>)
    ensures
        chars(raw@) == match r {
            Some(s) => Some(s@),
            None => None,
        },
{
    broadcast use encode_utf8_decode_utf8;

    string_from_utf8(raw)
}

fn read_optional_chars(raw: Option<Vec<u8>>) -> (r: Option<Option<String>>)
    ensures
        optional_chars(
            match raw {
                Some(b) => Some(b@),
                None => None,
            },
        ) == match r {
            Some(Some(s)) => Some(Some(s@)),
            Some(None) => Some(None),
            None => None,
        },
{
    match raw {
        None => Some(None),
        Some(b) => match read_chars(b) {
            Some(s) => Some(Some(s)),
            None => None,
        },
    }
}

fn build(tag: Tag, key: String, value: Option<String>) -> (r: Option<Command>)
    ensures
        assemble(
            tag,
            key@,
            match value {
                Some(v) => Some(v@),
                None => None,
            },
        ) == match r {
            Some(c) => Some(c@),
            None => None,
        },
{
    match tag {
        Tag::SET => match value {
            Some(v) => Some(Command::SET { key, value: v }),
            None => None,
        },
        Tag::RM => match value {
            Some(_) => None,
            None => Some(Command::RM { key }),
        },
        Tag::GET => Some(Command::GET { key, value }),
    }
}

fn read_record(bytes: &[u8]) -> (r: Option<(Command, usize)>)
    ensures
        parse(bytes@) == match r {
            Some((c, n)) => Some((c@, n as int)),
            None => None,
        },
        r matches Some((_, n)) ==> n <= bytes.len(),
{
    let len: usize = bytes.len();
    if !stands_at(bytes, 0, &key_field_bytes()) {
        assert(bytes@.skip(0) =~= bytes@);
        return None;
    }
    assert(bytes@.skip(0) =~= bytes@);
    let rest = slice_subrange(bytes, 7, len);
    assert(rest@ =~= bytes@.skip(7));
    let (kraw, kn) = match read_literal(rest) {
        Some(x) => x,
        None => {
            return None;
        },
    };
    let p: usize = 7 + kn;
    if !stands_at(bytes, p, &value_field_bytes()) {
        return None;
    }
    let (vraw, vn) = match read_value(bytes, p + 9) {
        Some(x) => x,
        None => {
            return None;
        },
    };
    let e: usize = p + 9 + vn;
    if !stands_at(bytes, e, &type_field_bytes()) {
        return None;
    }
    let (tag, tn) = match read_tag(bytes, e + 16) {
        Some(x) => x,
        None => {
            return None;
        },
    };
    let key = match read_chars(kraw) {
        Some(s) => s,
        None => {
            return None;
        },
    };
    let value = match read_optional_chars(vraw) {
        Some(v) => v,
        None => {
            return None;
        },
    };
    match build(tag, key, value) {
        Some(c) => Some((c, e + 16 + tn)),
        None => None,
    }
}

/// Decodes one command from the head of `bytes`, and says how many bytes it
/// took: the length of the one record that stands there.
///
/// Fails with `EndOfStream` where no bytes remain, and with `Malformed` where
/// the bytes do not begin with a record.
pub fn decode_one(bytes: &[u8]) -> (r: Result<(Command, usize), DecodeError>)
    ensures
        decoding(bytes@) == match r {
            Ok((c, n)) => Ok::<(Record, nat), DecodeError>((c@, n as nat)),
            Err(e) => Err(e),
        },
        r matches Ok((c, n)) ==> 0 < n <= bytes.len() && bytes@.subrange(0, n as int) == encoding(
            c@,
        ),
{
    if bytes.len() == 0 {
        return Err(DecodeError::EndOfStream);
    }
    match read_record(bytes) {
        Some((c, n)) => {
            proof {
                lemma_encoding_of_parse(bytes@);
                let d = choose|d: Record| (#[trigger] encoding(d)).is_prefix_of(bytes@);
                lemma_encoding_unique(c@, d, bytes@);
                lemma_encoding_of_decoding(bytes@);
            }
            Ok((c, n))
        },
        None => {
            proof {
                assert forall|d: Record| !(#[trigger] encoding(d)).is_prefix_of(bytes@) by {
                    if encoding(d).is_prefix_of(bytes@) {
                        lemma_parse_of_encoding(d, bytes@);
                    }
                }
            }
            Err(DecodeError::Malformed)
        },
    }
}

} // verus!
