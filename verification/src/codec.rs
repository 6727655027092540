//! The byte layout of everything that travels: variable-length integers,
//! length-prefixed strings and lists, fields one after the other.
//!
//! A value is written by a spec function from the value to its bytes, and read
//! by a spec function from bytes to the value and what follows it. Reading what
//! was written gives the value back; reading also takes integers padded with
//! zero groups, as long as they fit the integer's width.

use crate::bytes;
use vstd::prelude::*;

verus! {

/// Seven bits per byte, low group first, the high bit set on all but the last.
pub open spec fn varint(n: nat) -> Seq<u8>
    decreases n,
{
    if n < 128 {
        seq![n as u8]
    } else {
        seq![(n % 128 + 128) as u8] + varint(n / 128)
    }
}

/// Reads a variable-length integer of at most `groups` bytes, whose last
/// possible byte is at most `top`.
pub open spec fn read_varint(b: Seq<u8>, groups: nat, top: u8) -> Option<(nat, Seq<u8>)>
    decreases groups,
{
    if groups == 0 || b.len() == 0 {
        None
    } else if b[0] < 128 {
        if groups == 1 && b[0] > top {
            None
        } else {
            Some((b[0] as nat, b.skip(1)))
        }
    } else {
        match read_varint(b.skip(1), (groups - 1) as nat, top) {
            Some((high, rest)) => Some(((b[0] - 128 + 128 * high) as nat, rest)),
            None => None,
        }
    }
}

/// Reads a 32-bit integer.
pub open spec fn read_u32(b: Seq<u8>) -> Option<(nat, Seq<u8>)> {
    read_varint(b, 5, 15)
}

/// Reads a 64-bit integer.
pub open spec fn read_u64(b: Seq<u8>) -> Option<(nat, Seq<u8>)> {
    read_varint(b, 10, 1)
}

/// Reads a length, which has the width of the machine's addresses.
pub open spec fn read_len(b: Seq<u8>) -> Option<(nat, Seq<u8>)> {
    if usize::BITS == 64 {
        read_u64(b)
    } else {
        read_u32(b)
    }
}

/// A length, then the bytes.
pub open spec fn blob(s: Seq<u8>) -> Seq<u8> {
    varint(s.len()) + s
}

/// Reads a length, then that many bytes.
pub open spec fn read_blob(b: Seq<u8>) -> Option<(Seq<u8>, Seq<u8>)> {
    match read_len(b) {
        Some((n, rest)) => if n <= rest.len() {
            Some((rest.take(n as int), rest.skip(n as int)))
        } else {
            None
        },
        None => None,
    }
}

/// A string: the length of its UTF-8 encoding, then the encoding.
pub open spec fn string(s: Seq<char>) -> Seq<u8> {
    blob(vstd::utf8::encode_utf8(s))
}

/// Reads a string, which must be valid UTF-8.
pub open spec fn read_string(b: Seq<u8>) -> Option<(Seq<char>, Seq<u8>)> {
    match read_blob(b) {
        Some((s, rest)) => if vstd::utf8::valid_utf8(s) {
            Some((vstd::utf8::decode_utf8(s), rest))
        } else {
            None
        },
        None => None,
    }
}

/// Reads `N` bytes.
pub open spec fn read_array<const N: usize>(b: Seq<u8>) -> Option<([u8; N], Seq<u8>)> {
    if b.len() < N {
        None
    } else {
        Some((bytes::array_of::<N>(b.take(N as int)), b.skip(N as int)))
    }
}

/// Zero or one.
pub open spec fn flag(on: bool) -> Seq<u8> {
    seq![if on { 1u8 } else { 0u8 }]
}

/// Reads a zero or a one.
pub open spec fn read_flag(b: Seq<u8>) -> Option<(bool, Seq<u8>)> {
    if b.len() == 0 || b[0] > 1 {
        None
    } else {
        Some((b[0] == 1, b.skip(1)))
    }
}

/// A signed number as an unsigned one, small values first.
pub open spec fn zigzag(n: int) -> nat {
    if n >= 0 {
        (2 * n) as nat
    } else {
        (-2 * n - 1) as nat
    }
}

/// Reads a signed 64-bit integer.
pub open spec fn read_i64(b: Seq<u8>) -> Option<(int, Seq<u8>)> {
    match read_u64(b) {
        Some((n, rest)) => Some((if n % 2 == 0 { n as int / 2 } else { -(n as int / 2) - 1 }, rest)),
        None => None,
    }
}

/// What follows an integer is shorter than what it was read from.
pub proof fn lemma_read_varint_shrinks(b: Seq<u8>, groups: nat, top: u8)
    ensures
        read_varint(b, groups, top) is Some ==> (read_varint(b, groups, top)->0).1.len() < b.len(),
    decreases groups,
{
    if groups > 0 && b.len() > 0 && b[0] >= 128 {
        lemma_read_varint_shrinks(b.skip(1), (groups - 1) as nat, top);
    }
}

/// The largest number that `groups` bytes can hold, with `top` in the last.
pub open spec fn capacity(groups: nat, top: u8) -> nat
    decreases groups,
{
    if groups <= 1 {
        (top + 1) as nat
    } else {
        128 * capacity((groups - 1) as nat, top)
    }
}

/// An integer that fits is read back, with what follows it untouched.
pub proof fn lemma_varint_roundtrip(n: nat, rest: Seq<u8>, groups: nat, top: u8)
    requires
        1 <= groups,
        top < 128,
        n < capacity(groups, top),
    ensures
        read_varint(varint(n) + rest, groups, top) == Some((n, rest)),
    decreases groups,
{
    let all = varint(n) + rest;
    if n < 128 {
        assert(all[0] == n as u8);
        assert(all.skip(1) =~= rest);
    } else {
        let high = n / 128;
        assert(all[0] == (n % 128 + 128) as u8);
        assert(all.skip(1) =~= varint(high) + rest);
        assert(groups > 1);
        lemma_varint_roundtrip(high, rest, (groups - 1) as nat, top);
        assert(n % 128 + 128 * (n / 128) == n);
    }
}

/// The capacities of the three widths.
pub proof fn lemma_capacities()
    ensures
        capacity(5, 15) == 0x1_0000_0000,
        capacity(10, 1) == 0x1_0000_0000_0000_0000,
{
    reveal_with_fuel(capacity, 11);
}

/// A 32-bit integer is read back.
pub proof fn lemma_u32_roundtrip(n: u32, rest: Seq<u8>)
    ensures
        read_u32(varint(n as nat) + rest) == Some((n as nat, rest)),
{
    lemma_capacities();
    lemma_varint_roundtrip(n as nat, rest, 5, 15);
}

/// A 64-bit integer is read back.
pub proof fn lemma_u64_roundtrip(n: u64, rest: Seq<u8>)
    ensures
        read_u64(varint(n as nat) + rest) == Some((n as nat, rest)),
{
    lemma_capacities();
    lemma_varint_roundtrip(n as nat, rest, 10, 1);
}

/// A length that a machine can hold is read back.
pub proof fn lemma_len_roundtrip(n: nat, rest: Seq<u8>)
    requires
        n <= usize::MAX,
    ensures
        read_len(varint(n) + rest) == Some((n, rest)),
{
    lemma_capacities();
    if usize::BITS == 64 {
        lemma_varint_roundtrip(n, rest, 10, 1);
    } else {
        lemma_varint_roundtrip(n, rest, 5, 15);
    }
}

/// A byte string is read back.
pub proof fn lemma_blob_roundtrip(s: Seq<u8>, rest: Seq<u8>)
    requires
        s.len() <= usize::MAX,
    ensures
        read_blob(blob(s) + rest) == Some((s, rest)),
{
    assert(blob(s) + rest =~= varint(s.len()) + (s + rest));
    lemma_len_roundtrip(s.len(), s + rest);
    assert((s + rest).take(s.len() as int) =~= s);
    assert((s + rest).skip(s.len() as int) =~= rest);
}

/// A string is read back.
pub proof fn lemma_string_roundtrip(s: Seq<char>, rest: Seq<u8>)
    requires
        vstd::utf8::encode_utf8(s).len() <= usize::MAX,
    ensures
        read_string(string(s) + rest) == Some((s, rest)),
{
    lemma_blob_roundtrip(vstd::utf8::encode_utf8(s), rest);
    vstd::utf8::encode_utf8_valid_utf8(s);
    vstd::utf8::encode_utf8_decode_utf8(s);
}

/// An array is read back.
pub proof fn lemma_array_roundtrip<const N: usize>(a: [u8; N], rest: Seq<u8>)
    ensures
        read_array::<N>(a@ + rest) == Some((a, rest)),
{
    assert((a@ + rest).take(N as int) =~= a@);
    assert((a@ + rest).skip(N as int) =~= rest);
    bytes::lemma_array_of(a);
}

/// A flag is read back.
pub proof fn lemma_flag_roundtrip(on: bool, rest: Seq<u8>)
    ensures
        read_flag(flag(on) + rest) == Some((on, rest)),
{
    assert((flag(on) + rest).skip(1) =~= rest);
}

/// A signed integer is read back.
pub proof fn lemma_i64_roundtrip(n: i64, rest: Seq<u8>)
    ensures
        read_i64(varint(zigzag(n as int)) + rest) == Some((n as int, rest)),
{
    lemma_u64_roundtrip(zigzag(n as int) as u64, rest);
}

/// `postcard::to_stdvec` on a 64-bit integer, which writes [`varint`].
#[verifier::external_body]
pub(crate) fn write_u64(n: u64) -> (r: Vec<u8>)
    ensures
        r@ == varint(n as nat),
{
    postcard::to_stdvec(&n).unwrap_or_default()
}

/// `postcard::to_stdvec` on a string, which writes [`string`].
#[verifier::external_body]
pub(crate) fn write_string(s: &str) -> (r: Vec<u8>)
    ensures
        r@ == string(s@),
{
    postcard::to_stdvec(s).unwrap_or_default()
}

/// `postcard::take_from_bytes` for a 32-bit integer, which is [`read_u32`].
#[verifier::external_body]
pub(crate) fn take_u32(b: &[u8]) -> (r: Option<(u32, &[u8])>)
    ensures
        r is Some <==> read_u32(b@) is Some,
        r is Some ==> read_u32(b@) == Some(((r->0).0 as nat, (r->0).1@)),
{
    postcard::take_from_bytes::<u32>(b).ok()
}

/// `postcard::take_from_bytes` for a 64-bit integer, which is [`read_u64`].
#[verifier::external_body]
pub(crate) fn take_u64(b: &[u8]) -> (r: Option<(u64, &[u8])>)
    ensures
        r is Some <==> read_u64(b@) is Some,
        r is Some ==> read_u64(b@) == Some(((r->0).0 as nat, (r->0).1@)),
{
    postcard::take_from_bytes::<u64>(b).ok()
}

/// Reads a length, as wide as the machine's: [`read_len`].
pub(crate) fn take_len(b: &[u8]) -> (r: Option<(usize, &[u8])>)
    ensures
        r is Some <==> read_len(b@) is Some,
        r is Some ==> read_len(b@) == Some(((r->0).0 as nat, (r->0).1@)),
{
    if usize::BITS == 64 {
        match take_u64(b) {
            Some((n, rest)) => Some((n as usize, rest)),
            None => None,
        }
    } else {
        match take_u32(b) {
            Some((n, rest)) => Some((n as usize, rest)),
            None => None,
        }
    }
}

/// `postcard::take_from_bytes` for a string, which is [`read_string`].
#[verifier::external_body]
pub(crate) fn take_string(b: &[u8]) -> (r: Option<(String, &[u8])>)
    ensures
        r is Some <==> read_string(b@) is Some,
        r is Some ==> read_string(b@) == Some(((r->0).0@, (r->0).1@)),
{
    postcard::take_from_bytes::<String>(b).ok()
}

/// Writes [`blob`].
pub(crate) fn write_blob(s: &[u8]) -> (r: Vec<u8>)
    ensures
        r@ == blob(s@),
{
    let mut out = write_u64(s.len() as u64);
    out.extend_from_slice(s);
    out
}

/// Reads [`read_blob`].
pub(crate) fn take_blob(b: &[u8]) -> (r: Option<(Vec<u8>, &[u8])>)
    ensures
        r is Some <==> read_blob(b@) is Some,
        r is Some ==> read_blob(b@) == Some(((r->0).0@, (r->0).1@)),
{
    match take_len(b) {
        Some((n, rest)) => {
            if n <= rest.len() {
                let (s, rest) = rest.split_at(n);
                Some((vstd::slice::slice_to_vec(s), rest))
            } else {
                None
            }
        },
        None => None,
    }
}

/// Reads [`read_array`].
pub(crate) fn take_array<const N: usize>(b: &[u8]) -> (r: Option<([u8; N], &[u8])>)
    ensures
        r is Some <==> read_array::<N>(b@) is Some,
        r is Some ==> read_array::<N>(b@) == Some(((r->0).0, (r->0).1@)),
{
    if b.len() < N {
        None
    } else {
        let (front, rest) = b.split_at(N);
        let a = bytes::array_from::<N>(front);
        assert(front@.subrange(0, N as int) =~= b@.take(N as int));
        Some((a, rest))
    }
}

/// Reads [`read_flag`].
pub(crate) fn take_flag(b: &[u8]) -> (r: Option<(bool, &[u8])>)
    ensures
        r is Some <==> read_flag(b@) is Some,
        r is Some ==> read_flag(b@) == Some(((r->0).0, (r->0).1@)),
{
    if b.len() == 0 || b[0] > 1 {
        None
    } else {
        let (_, rest) = b.split_at(1);
        Some((b[0] == 1, rest))
    }
}

/// Writes a signed integer.
pub(crate) fn write_i64(n: i64) -> (r: Vec<u8>)
    ensures
        r@ == varint(zigzag(n as int)),
{
    let u: u64 = if n >= 0 { 2 * (n as u64) } else { 2 * ((-(n + 1)) as u64) + 1 };
    write_u64(u)
}

/// Reads [`read_i64`].
pub(crate) fn take_i64(b: &[u8]) -> (r: Option<(i64, &[u8])>)
    ensures
        r is Some <==> read_i64(b@) is Some,
        r is Some ==> read_i64(b@) == Some(((r->0).0 as int, (r->0).1@)),
{
    match take_u64(b) {
        Some((n, rest)) => {
            let half: i64 = (n / 2) as i64;
            Some((if n % 2 == 0 { half } else { -half - 1 }, rest))
        },
        None => None,
    }
}

/// A flag is a zero or a one, and anything else is none.
pub proof fn law_flags_are_zero_or_one(b: u8, rest: Seq<u8>)
    ensures
        read_flag(seq![b] + rest) == (if b == 0 {
            Some((false, rest))
        } else if b == 1 {
            Some((true, rest))
        } else {
            None
        }),
        read_flag(Seq::empty()) is None,
        flag(true) == seq![1u8] && flag(false) == seq![0u8],
{
    assert((seq![b] + rest).skip(1) =~= rest);
}

/// An integer below a hundred and twenty-eight is a byte; a larger one is a byte with
/// its low seven bits and a mark, and then the rest of it.
pub proof fn law_integers_are_written_low_bits_first(n: nat, low: u8)
    requires
        low < 128,
    ensures
        varint(low as nat) == seq![low],
        n > 0 ==> varint(n * 128 + low as nat) == seq![(low + 128) as u8] + varint(n),
{
    if n > 0 {
        let m = n * 128 + low as nat;
        assert(m % 128 == low && m / 128 == n);
    }
}

} // verus!
