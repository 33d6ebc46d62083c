//! The canonical byte encoding of values.
//!
//! A value is written as one tag byte followed by its payload:
//!
//! | tag | shape       | payload                                              |
//! |-----|-------------|------------------------------------------------------|
//! | 0   | `Int32`     | 4 bytes, two's complement, least significant first   |
//! | 1   | `UInt64`    | 8 bytes, least significant first                     |
//! | 2   | `ByteArray` | length as 8 bytes, least significant first; the bytes |
//! | 3   | `String`    | length as 8 bytes, least significant first; UTF-8     |
//! | 4   | `KeySet`    | number of keys as 8 bytes, least significant first;   |
//! |     |             | the byte forms of the keys, in ascending order        |
//!
//! Nothing may follow the payload. Every value has exactly one encoding and every
//! accepted byte string is the encoding of exactly one value, so stores that hold the
//! same values hold the same bytes.
use crate::error::Error;
use crate::key::{lemma_parse_key, parse_key, Key};
use crate::key_set::{ascending, ascending_keys, lemma_ascending_keys, KeySet};
use crate::value::{Value, ValueView};
use vstd::prelude::*;
use vstd::slice::{slice_subrange, slice_to_vec};
use vstd::utf8::{
    decode_utf8, decode_utf8_encode_utf8, encode_utf8, encode_utf8_decode_utf8,
    encode_utf8_valid_utf8, valid_utf8,
};

verus! {

pub const TAG_INT32: u8 = 0;

pub const TAG_UINT64: u8 = 1;

pub const TAG_BYTE_ARRAY: u8 = 2;

pub const TAG_STRING: u8 = 3;

pub const TAG_KEY_SET: u8 = 4;

/// 256 to the power `n`.
pub open spec fn pow256(n: nat) -> nat
    decreases n,
{
    if n == 0 {
        1
    } else {
        256 * pow256((n - 1) as nat)
    }
}

/// The `n` low bytes of `x`, least significant first.
pub open spec fn le_bytes(x: nat, n: nat) -> Seq<u8>
    decreases n,
{
    if n == 0 {
        Seq::empty()
    } else {
        seq![(x % 256) as u8] + le_bytes(x / 256, (n - 1) as nat)
    }
}

/// The number that the bytes `s` spell, least significant first.
pub open spec fn le_value(s: Seq<u8>) -> nat
    decreases s.len(),
{
    if s.len() == 0 {
        0
    } else {
        s[0] as nat + 256 * le_value(s.drop_first())
    }
}

/// The unsigned 32-bit pattern of `i` in two's complement.
pub open spec fn twos32(i: i32) -> nat {
    if i >= 0 {
        i as nat
    } else {
        (i + 0x1_0000_0000) as nat
    }
}

/// The signed number whose two's complement pattern is `n`.
pub open spec fn from_twos32(n: nat) -> i32 {
    if n < 0x8000_0000 {
        n as i32
    } else {
        (n - 0x1_0000_0000) as i32
    }
}

/// The byte forms of the keys, one after the other.
pub open spec fn flatten_keys(keys: Seq<Key>) -> Seq<u8>
    decreases keys.len(),
{
    if keys.len() == 0 {
        Seq::empty()
    } else {
        flatten_keys(keys.drop_last()) + keys.last().bytes()
    }
}

/// The keys whose byte forms, one after the other, make up `b`, if `b` is made up
/// of byte forms of keys.
pub open spec fn parse_keys(b: Seq<u8>) -> Option<Seq<Key>>
    decreases b.len(),
{
    if b.len() == 0 {
        Some(Seq::empty())
    } else if b.len() < 33 {
        None
    } else {
        match (
            parse_keys(b.subrange(0, b.len() - 33)),
            parse_key(b.subrange(b.len() - 33, b.len() as int)),
        ) {
            (Some(front), Some(k)) => Some(front.push(k)),
            _ => None,
        }
    }
}

/// The values that have an encoding: those whose payload length fits the 8-byte
/// length field, and, of the sets of keys, those whose keys can be listed in
/// ascending order, which are the finite ones. Every value held in memory is one of
/// them.
pub open spec fn encodable(v: ValueView) -> bool {
    match v {
        ValueView::Int32(_) => true,
        ValueView::UInt64(_) => true,
        ValueView::ByteArray(b) => b.len() < pow256(8),
        ValueView::String(s) => encode_utf8(s).len() < pow256(8),
        ValueView::KeySet(s) => {
            &&& ascending(ascending_keys(s))
            &&& ascending_keys(s).to_set() == s
            &&& ascending_keys(s).len() < pow256(8)
        },
    }
}

/// The encoding of a value.
pub open spec fn value_bytes(v: ValueView) -> Seq<u8> {
    match v {
        ValueView::Int32(i) => seq![TAG_INT32] + le_bytes(twos32(i), 4),
        ValueView::UInt64(u) => seq![TAG_UINT64] + le_bytes(u as nat, 8),
        ValueView::ByteArray(b) => seq![TAG_BYTE_ARRAY] + le_bytes(b.len(), 8) + b,
        ValueView::String(s) => seq![TAG_STRING] + le_bytes(encode_utf8(s).len(), 8)
            + encode_utf8(s),
        ValueView::KeySet(s) => seq![TAG_KEY_SET] + le_bytes(ascending_keys(s).len(), 8)
            + flatten_keys(ascending_keys(s)),
    }
}

/// The payload of a length-prefixed encoding, if `b` is one: the length field must
/// count exactly the bytes that follow it.
pub open spec fn framed_payload(b: Seq<u8>) -> Option<Seq<u8>> {
    if b.len() >= 9 && le_value(b.subrange(1, 9)) == b.len() - 9 {
        Some(b.subrange(9, b.len() as int))
    } else {
        None
    }
}

/// The value that the bytes `b` encode, if they encode one.
pub open spec fn parse_value(b: Seq<u8>) -> Option<ValueView> {
    if b.len() == 0 {
        None
    } else if b[0] == TAG_INT32 {
        if b.len() == 5 {
            Some(ValueView::Int32(from_twos32(le_value(b.subrange(1, 5)))))
        } else {
            None
        }
    } else if b[0] == TAG_UINT64 {
        if b.len() == 9 {
            Some(ValueView::UInt64(le_value(b.subrange(1, 9)) as u64))
        } else {
            None
        }
    } else if b[0] == TAG_BYTE_ARRAY {
        match framed_payload(b) {
            Some(payload) => Some(ValueView::ByteArray(payload)),
            None => None,
        }
    } else if b[0] == TAG_STRING {
        match framed_payload(b) {
            Some(payload) => if valid_utf8(payload) {
                Some(ValueView::String(decode_utf8(payload)))
            } else {
                None
            },
            None => None,
        }
    } else if b[0] == TAG_KEY_SET {
        if b.len() >= 9 {
            match parse_keys(b.subrange(9, b.len() as int)) {
                Some(keys) => if ascending(keys) && le_value(b.subrange(1, 9)) == keys.len() {
                    Some(ValueView::KeySet(keys.to_set()))
                } else {
                    None
                },
                None => None,
            }
        } else {
            None
        }
    } else {
        None
    }
}

/// The outcome of decoding `b`: the value it encodes, or a decode error.
pub open spec fn decode_outcome(b: Seq<u8>) -> Result<ValueView, Error> {
    match parse_value(b) {
        Some(v) => Ok(v),
        None => Err(Error::DecodeError),
    }
}

proof fn lemma_pow256_values()
    ensures
        pow256(0) == 1,
        pow256(1) == 0x100,
        pow256(2) == 0x1_0000,
        pow256(3) == 0x100_0000,
        pow256(4) == 0x1_0000_0000,
        pow256(5) == 0x100_0000_0000,
        pow256(6) == 0x1_0000_0000_0000,
        pow256(7) == 0x100_0000_0000_0000,
        pow256(8) == 0x1_0000_0000_0000_0000,
{
    reveal_with_fuel(pow256, 9);
}

proof fn lemma_le_bytes_len(x: nat, n: nat)
    ensures
        le_bytes(x, n).len() == n,
    decreases n,
{
    if n > 0 {
        lemma_le_bytes_len(x / 256, (n - 1) as nat);
    }
}

proof fn lemma_le_value_bound(s: Seq<u8>)
    ensures
        le_value(s) < pow256(s.len()),
    decreases s.len(),
{
    if s.len() > 0 {
        lemma_le_value_bound(s.drop_first());
    }
}

/// Reading back the `n` bytes written for `x` gives `x`, if `x` fits in `n` bytes.
proof fn lemma_le_round_trip(x: nat, n: nat)
    requires
        x < pow256(n),
    ensures
        le_value(le_bytes(x, n)) == x,
    decreases n,
{
    if n > 0 {
        let rest = le_bytes(x / 256, (n - 1) as nat);
        lemma_le_round_trip(x / 256, (n - 1) as nat);
        assert(le_bytes(x, n).drop_first() =~= rest);
        assert(le_bytes(x, n)[0] == (x % 256) as u8);
    }
}

/// Writing the number that `s` spells, in as many bytes as `s` has, gives `s` back.
proof fn lemma_le_canonical(s: Seq<u8>)
    ensures
        le_bytes(le_value(s), s.len()) == s,
    decreases s.len(),
{
    if s.len() > 0 {
        lemma_le_canonical(s.drop_first());
        let r = le_value(s.drop_first());
        let v = le_value(s);
        assert(v == s[0] as nat + 256 * r);
        assert(v % 256 == s[0] as nat);
        assert(v / 256 == r);
        assert(le_bytes(v, s.len()) =~= seq![s[0]] + le_bytes(r, (s.len() - 1) as nat));
        assert(seq![s[0]] + s.drop_first() =~= s);
    } else {
        assert(le_bytes(le_value(s), s.len()) =~= s);
    }
}

proof fn lemma_flatten_len(keys: Seq<Key>)
    ensures
        flatten_keys(keys).len() == 33 * keys.len(),
    decreases keys.len(),
{
    if keys.len() > 0 {
        lemma_flatten_len(keys.drop_last());
        crate::key::lemma_key_bytes_shape();
    }
}

/// Reading the byte forms of a list of keys gives the list back.
proof fn lemma_parse_flatten(keys: Seq<Key>)
    ensures
        parse_keys(flatten_keys(keys)) == Some(keys),
    decreases keys.len(),
{
    if keys.len() > 0 {
        let front = keys.drop_last();
        let b = flatten_keys(keys);
        lemma_flatten_len(keys);
        lemma_flatten_len(front);
        crate::key::lemma_key_bytes_shape();
        lemma_parse_flatten(front);
        lemma_parse_key(keys.last());
        assert(b.subrange(0, b.len() - 33) =~= flatten_keys(front));
        assert(b.subrange(b.len() - 33, b.len() as int) =~= keys.last().bytes());
        assert(front.push(keys.last()) =~= keys);
    }
}

/// Bytes that read as a list of keys are the byte forms of those keys.
proof fn lemma_flatten_parse(b: Seq<u8>, keys: Seq<Key>)
    requires
        parse_keys(b) == Some(keys),
    ensures
        flatten_keys(keys) == b,
        b.len() == 33 * keys.len(),
    decreases b.len(),
{
    if b.len() > 0 {
        let head = b.subrange(0, b.len() - 33);
        let tail = b.subrange(b.len() - 33, b.len() as int);
        let front = parse_keys(head)->0;
        let k = parse_key(tail)->0;
        lemma_flatten_parse(head, front);
        assert(k.bytes() == tail);
        assert(keys.drop_last() =~= front);
        assert(keys.last() == k);
        assert(head + tail =~= b);
    } else {
        assert(flatten_keys(keys) =~= b);
    }
}

/// The keys read from the first `n` byte forms of `b` are the first `n` keys read
/// from `b`.
proof fn lemma_parse_keys_prefix(b: Seq<u8>, n: int)
    requires
        parse_keys(b) is Some,
        0 <= n <= parse_keys(b)->0.len(),
    ensures
        33 * n <= b.len(),
        parse_keys(b.subrange(0, 33 * n)) == Some(parse_keys(b)->0.take(n)),
    decreases b.len(),
{
    let keys = parse_keys(b)->0;
    lemma_flatten_parse(b, keys);
    if n == keys.len() {
        assert(b.subrange(0, 33 * n) =~= b);
        assert(keys.take(n) =~= keys);
    } else {
        let head = b.subrange(0, b.len() - 33);
        lemma_flatten_parse(head, parse_keys(head)->0);
        lemma_parse_keys_prefix(head, n);
        assert(head.subrange(0, 33 * n) =~= b.subrange(0, 33 * n));
        assert(parse_keys(head)->0.take(n) =~= keys.take(n));
    }
}

/// **Round trip.** Decoding the encoding of a value gives that value back, with
/// nothing lost.
pub proof fn lemma_decode_encode(v: ValueView)
    requires
        encodable(v),
    ensures
        parse_value(value_bytes(v)) == Some(v),
        decode_outcome(value_bytes(v)) == Ok::<ValueView, Error>(v),
{
    lemma_pow256_values();
    let b = value_bytes(v);
    match v {
        ValueView::Int32(i) => {
            lemma_le_bytes_len(twos32(i), 4);
            lemma_le_round_trip(twos32(i), 4);
            assert(b.subrange(1, 5) =~= le_bytes(twos32(i), 4));
        },
        ValueView::UInt64(u) => {
            lemma_le_bytes_len(u as nat, 8);
            lemma_le_round_trip(u as nat, 8);
            assert(b.subrange(1, 9) =~= le_bytes(u as nat, 8));
        },
        ValueView::ByteArray(p) => {
            lemma_le_bytes_len(p.len(), 8);
            lemma_le_round_trip(p.len(), 8);
            assert(b.subrange(1, 9) =~= le_bytes(p.len(), 8));
            assert(b.subrange(9, b.len() as int) =~= p);
        },
        ValueView::String(s) => {
            let p = encode_utf8(s);
            lemma_le_bytes_len(p.len(), 8);
            lemma_le_round_trip(p.len(), 8);
            assert(b.subrange(1, 9) =~= le_bytes(p.len(), 8));
            assert(b.subrange(9, b.len() as int) =~= p);
            encode_utf8_valid_utf8(s);
            encode_utf8_decode_utf8(s);
        },
        ValueView::KeySet(s) => {
            let q = ascending_keys(s);
            lemma_le_bytes_len(q.len(), 8);
            lemma_le_round_trip(q.len(), 8);
            lemma_parse_flatten(q);
            assert(b.subrange(1, 9) =~= le_bytes(q.len(), 8));
            assert(b.subrange(9, b.len() as int) =~= flatten_keys(q));
        },
    }
}

/// **One encoding per value.** Bytes that decode to a value are the encoding of that
/// value: no value can be stored under two byte strings.
pub proof fn lemma_encode_decode(b: Seq<u8>, v: ValueView)
    requires
        parse_value(b) == Some(v),
    ensures
        value_bytes(v) == b,
        encodable(v),
{
    lemma_pow256_values();
    if b[0] == TAG_INT32 {
        let f = b.subrange(1, 5);
        lemma_le_canonical(f);
        lemma_le_value_bound(f);
        assert(twos32(from_twos32(le_value(f))) == le_value(f));
        assert(seq![TAG_INT32] + f =~= b);
    } else if b[0] == TAG_UINT64 {
        let f = b.subrange(1, 9);
        lemma_le_canonical(f);
        lemma_le_value_bound(f);
        assert(seq![TAG_UINT64] + f =~= b);
    } else if b[0] == TAG_BYTE_ARRAY {
        let f = b.subrange(1, 9);
        let p = b.subrange(9, b.len() as int);
        lemma_le_canonical(f);
        lemma_le_value_bound(f);
        assert(seq![TAG_BYTE_ARRAY] + f + p =~= b);
    } else if b[0] == TAG_STRING {
        let f = b.subrange(1, 9);
        let p = b.subrange(9, b.len() as int);
        lemma_le_canonical(f);
        lemma_le_value_bound(f);
        decode_utf8_encode_utf8(p);
        assert(seq![TAG_STRING] + f + p =~= b);
    } else {
        let f = b.subrange(1, 9);
        let p = b.subrange(9, b.len() as int);
        let q = parse_keys(p)->0;
        lemma_le_canonical(f);
        lemma_le_value_bound(f);
        lemma_flatten_parse(p, q);
        lemma_ascending_keys(q);
        assert(seq![TAG_KEY_SET] + f + p =~= b);
    }
}

/// **Distinct values, distinct bytes.** Two values with the same encoding are the
/// same value.
pub proof fn lemma_value_bytes_injective(v: ValueView, w: ValueView)
    requires
        encodable(v),
        encodable(w),
        value_bytes(v) == value_bytes(w),
    ensures
        v == w,
{
    lemma_decode_encode(v);
    lemma_decode_encode(w);
}

/// Appends the `n` low bytes of `x`, least significant first.
fn push_le(out: &mut Vec<u8>, x: u64, n: usize)
    requires
        n <= 8,
    ensures
        final(out)@ == old(out)@ + le_bytes(x as nat, n as nat),
{
    let mut rest: u64 = x;
    let mut i: usize = 0;
    while i < n
        invariant
            i <= n,
            out@ + le_bytes(rest as nat, (n - i) as nat) == old(out)@ + le_bytes(
                x as nat,
                n as nat,
            ),
        decreases n - i,
    {
        let ghost before = out@;
        let low: u8 = (rest % 256) as u8;
        out.push(low);
        proof {
            let tail = le_bytes((rest / 256) as nat, (n - i - 1) as nat);
            assert(le_bytes(rest as nat, (n - i) as nat) == seq![low] + tail);
            assert(before.push(low) + tail =~= before + (seq![low] + tail));
        }
        rest = rest / 256;
        i += 1;
    }
    assert(out@ + le_bytes(rest as nat, 0) =~= out@);
}

/// Reads the number spelled by the `n` bytes that start at `start`.
fn read_le(bytes: &[u8], start: usize, n: usize) -> (x: u64)
    requires
        n <= 8,
        start + n <= bytes@.len(),
    ensures
        x == le_value(bytes@.subrange(start as int, start + n)),
{
    let total = bytes.len();
    let mut acc: u64 = 0;
    let mut j: usize = n;
    while j > 0
        invariant
            j <= n <= 8,
            start + n <= bytes@.len(),
            total == bytes@.len(),
            acc == le_value(bytes@.subrange(start + j, start + n)),
        decreases j,
    {
        j -= 1;
        proof {
            let done = bytes@.subrange(start + j + 1, start + n);
            let next = bytes@.subrange(start + j, start + n);
            lemma_le_value_bound(done);
            lemma_pow256_values();
            assert(next.drop_first() =~= done);
            assert(next[0] == bytes@[start + j]);
            assert(pow256(done.len()) <= pow256(7)) by {
                reveal_with_fuel(pow256, 9);
            }
        }
        acc = acc * 256 + bytes[start + j] as u64;
    }
    acc
}

fn twos_of(i: i32) -> (u: u32)
    ensures
        u == twos32(i),
{
    if i >= 0 {
        i as u32
    } else {
        ((i - i32::MIN) as u32) + 0x8000_0000u32
    }
}

fn from_twos(u: u32) -> (i: i32)
    ensures
        i == from_twos32(u as nat),
{
    if u < 0x8000_0000u32 {
        u as i32
    } else {
        ((u - 0x8000_0000u32) as i32) + i32::MIN
    }
}

/// `String::from_utf8` of the standard library: the text whose UTF-8 form is
/// `bytes`, if `bytes` is well-formed UTF-8, and nothing otherwise. The text keeps
/// the bytes it was given.
#[verifier::external_body]
fn string_from_utf8(bytes: Vec<u8>) -> (text: Option<String>)
    ensures
        text is Some <==> valid_utf8(bytes@),
        text matches Some(s) ==> encode_utf8(s@) == bytes@,
{
    match String::from_utf8(bytes) {
        Ok(s) => Some(s),
        Err(_) => None,
    }
}

impl Value {
    /// Encodes the value.
    pub fn to_bytes(&self) -> (out: Vec<u8>)
        ensures
            out@ == value_bytes(self@),
            decode_outcome(out@) == Ok::<ValueView, Error>(self@),
    {
        let mut out: Vec<u8> = Vec::new();
        match self {
            Value::Int32(i) => {
                out.push(TAG_INT32);
                push_le(&mut out, twos_of(*i) as u64, 4);
            },
            Value::UInt64(u) => {
                out.push(TAG_UINT64);
                push_le(&mut out, *u, 8);
            },
            Value::ByteArray(b) => {
                out.push(TAG_BYTE_ARRAY);
                push_le(&mut out, b.len() as u64, 8);
                out.extend_from_slice(b.as_slice());
            },
            Value::String(s) => {
                let payload = s.as_str().as_bytes();
                out.push(TAG_STRING);
                push_le(&mut out, payload.len() as u64, 8);
                out.extend_from_slice(payload);
            },
            Value::KeySet(s) => {
                let n = s.len();
                out.push(TAG_KEY_SET);
                push_le(&mut out, n as u64, 8);
                let ghost head = out@;
                let mut i: usize = 0;
                while i < n
                    invariant
                        i <= n,
                        n == s.ordered().len(),
                        out@ == head + flatten_keys(s.ordered().take(i as int)),
                    decreases n - i,
                {
                    let key_bytes = s.key_at(i).to_bytes();
                    out.extend_from_slice(key_bytes.as_slice());
                    proof {
                        let done = s.ordered().take(i as int);
                        let next = s.ordered().take(i + 1);
                        assert(next.drop_last() =~= done);
                        assert(next.last() == s.ordered()[i as int]);
                        assert(head + flatten_keys(done) + next.last().bytes() =~= head
                            + flatten_keys(next));
                    }
                    i += 1;
                }
                assert(s.ordered().take(n as int) =~= s.ordered());
            },
        }
        proof {
            lemma_pow256_values();
            assert(out@ =~= value_bytes(self@));
            lemma_decode_encode(self@);
        }
        out
    }
}

/// Decodes a value.
///
/// Succeeds exactly on the byte strings that are the encoding of a value, and gives
/// that value; every other input is a decode error.
pub fn deserialize(bytes: &[u8]) -> (r: Result<Value, Error>)
    ensures
        crate::value::outcome_view(r) == decode_outcome(bytes@),
{
    let len = bytes.len();
    if len == 0 {
        return Err(Error::DecodeError);
    }
    let tag = bytes[0];
    if tag == TAG_INT32 {
        if len != 5 {
            return Err(Error::DecodeError);
        }
        let raw = read_le(bytes, 1, 4);
        proof {
            lemma_le_value_bound(bytes@.subrange(1, 5));
            lemma_pow256_values();
        }
        Ok(Value::Int32(from_twos(raw as u32)))
    } else if tag == TAG_UINT64 {
        if len != 9 {
            return Err(Error::DecodeError);
        }
        Ok(Value::UInt64(read_le(bytes, 1, 8)))
    } else if tag == TAG_BYTE_ARRAY || tag == TAG_STRING {
        if len < 9 {
            return Err(Error::DecodeError);
        }
        let count = read_le(bytes, 1, 8);
        if count != (len - 9) as u64 {
            return Err(Error::DecodeError);
        }
        let payload = slice_to_vec(slice_subrange(bytes, 9, len));
        if tag == TAG_BYTE_ARRAY {
            Ok(Value::ByteArray(payload))
        } else {
            match string_from_utf8(payload) {
                Some(s) => {
                    proof {
                        encode_utf8_decode_utf8(s@);
                    }
                    Ok(Value::String(s))
                },
                None => Err(Error::DecodeError),
            }
        }
    } else if tag == TAG_KEY_SET {
        if len < 9 {
            return Err(Error::DecodeError);
        }
        let count = read_le(bytes, 1, 8);
        match read_keys(slice_subrange(bytes, 9, len)) {
            Some(keys) => {
                if count != keys.len() as u64 {
                    return Err(Error::DecodeError);
                }
                match KeySet::from_ordered(keys) {
                    Some(s) => Ok(Value::KeySet(s)),
                    None => Err(Error::DecodeError),
                }
            },
            None => Err(Error::DecodeError),
        }
    } else {
        Err(Error::DecodeError)
    }
}

/// Reads the keys whose byte forms, one after the other, make up `bytes`.
fn read_keys(bytes: &[u8]) -> (r: Option<Vec<Key>>)
    ensures
        match r {
            Some(keys) => parse_keys(bytes@) == Some(keys@),
            None => parse_keys(bytes@) is None,
        },
{
    let len = bytes.len();
    if len % 33 != 0 {
        proof {
            if parse_keys(bytes@) is Some {
                lemma_flatten_parse(bytes@, parse_keys(bytes@)->0);
            }
        }
        return None;
    }
    let n = len / 33;
    let mut keys: Vec<Key> = Vec::new();
    let mut i: usize = 0;
    while i < n
        invariant
            i <= n,
            len == bytes@.len(),
            len == 33 * n,
            parse_keys(bytes@.subrange(0, 33 * i)) == Some(keys@),
        decreases n - i,
    {
        let chunk = slice_subrange(bytes, 33 * i, 33 * i + 33);
        let ghost head = bytes@.subrange(0, 33 * i);
        let ghost next = bytes@.subrange(0, 33 * (i + 1));
        proof {
            assert(next.subrange(0, next.len() - 33) =~= head);
            assert(next.subrange(next.len() - 33, next.len() as int) =~= chunk@);
        }
        match Key::from_bytes(chunk) {
            Some(k) => {
                keys.push(k);
            },
            None => {
                proof {
                    if parse_keys(bytes@) is Some {
                        let all = parse_keys(bytes@)->0;
                        lemma_flatten_parse(bytes@, all);
                        lemma_parse_keys_prefix(bytes@, i + 1);
                    }
                }
                return None;
            },
        }
        i += 1;
    }
    assert(bytes@.subrange(0, 33 * i) =~= bytes@);
    Some(keys)
}

} // verus!
