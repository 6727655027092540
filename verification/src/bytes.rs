//! Byte strings: fixed-size arrays, little-endian integers and hexadecimal.

use vstd::prelude::*;

verus! {

/// The array that holds exactly the bytes of `s`.
pub open spec fn array_of<const N: usize>(s: Seq<u8>) -> [u8; N] {
    choose|a: [u8; N]| a@ == s
}

/// An array is the one that holds its own bytes.
pub proof fn lemma_array_of<const N: usize>(a: [u8; N])
    ensures
        array_of::<N>(a@) == a,
{
    let b = array_of::<N>(a@);
    assert(exists|c: [u8; N]| c@ == a@);
    assert(b@ == a@);
    assert forall|i: int| 0 <= i < N implies a[i] == b[i] by {
        assert(a@[i] == b@[i]);
    }
    assert(a =~= b);
}

/// Two arrays with the same bytes are the same array.
pub proof fn lemma_array_eq<const N: usize>(a: [u8; N], b: [u8; N])
    requires
        a@ == b@,
    ensures
        a == b,
{
    lemma_array_of(a);
    lemma_array_of(b);
}

/// Copies the first `N` bytes of `s` into an array.
pub fn array_from<const N: usize>(s: &[u8]) -> (a: [u8; N])
    requires
        s@.len() >= N,
    ensures
        a@ == s@.subrange(0, N as int),
        a == array_of::<N>(s@.subrange(0, N as int)),
{
    let mut a: [u8; N] = vstd::array::array_fill_for_copy_types(0u8);
    let mut i: usize = 0;
    while i < N
        invariant
            i <= N,
            s@.len() >= N,
            a@.len() == N,
            forall|j: int| 0 <= j < i ==> a@[j] == s@[j],
        decreases N - i,
    {
        a[i] = s[i];
        i = i + 1;
    }
    assert(a@ =~= s@.subrange(0, N as int));
    proof {
        lemma_array_of(a);
    }
    a
}

/// Whether two keys are the same 32 bytes.
pub fn same32(a: &[u8; 32], b: &[u8; 32]) -> (r: bool)
    ensures
        r == (*a == *b),
{
    let mut i: usize = 0;
    while i < 32
        invariant
            i <= 32,
            forall|j: int| 0 <= j < i ==> a@[j] == b@[j],
        decreases 32 - i,
    {
        if a[i] != b[i] {
            assert(a@[i as int] != b@[i as int]);
            return false;
        }
        i = i + 1;
    }
    proof {
        assert(a@ =~= b@);
        lemma_array_eq(*a, *b);
    }
    true
}

/// Whether every byte of the array is zero.
pub open spec fn all_zero(a: Seq<u8>) -> bool {
    forall|i: int| 0 <= i < a.len() ==> a[i] == 0
}

/// Decides [`all_zero`].
pub fn is_zero(a: &[u8; 32]) -> (r: bool)
    ensures
        r == all_zero(a@),
{
    let mut i: usize = 0;
    while i < 32
        invariant
            i <= 32,
            forall|j: int| 0 <= j < i ==> a@[j] == 0,
        decreases 32 - i,
    {
        if a[i] != 0 {
            assert(a@[i as int] != 0);
            return false;
        }
        i = i + 1;
    }
    true
}

/// Bytes of `x`, least significant first.
pub open spec fn le64(x: u64) -> Seq<u8> {
    vstd::bytes::spec_u64_to_le_bytes(x)
}

/// The lower-case hexadecimal digit of a value below sixteen.
pub open spec fn hex_digit(n: int) -> char {
    if n < 10 {
        (('0' as int) + n) as char
    } else {
        (('a' as int) + n - 10) as char
    }
}

/// Two lower-case hexadecimal digits per byte, high half first.
pub open spec fn hex(s: Seq<u8>) -> Seq<char> {
    Seq::new(
        s.len() * 2,
        |i: int| if i % 2 == 0 { hex_digit(s[i / 2] as int / 16) } else { hex_digit(s[i / 2] as int % 16) },
    )
}

/// Whether a byte is a hexadecimal digit of either case.
pub open spec fn is_hex(b: u8) -> bool {
    48 <= b <= 57 || 65 <= b <= 70 || 97 <= b <= 102
}

/// The value of a hexadecimal digit of either case.
pub open spec fn hex_value(b: u8) -> int {
    if b <= 57 {
        b - 48
    } else if b <= 70 {
        b - 55
    } else {
        b - 87
    }
}

/// The bytes that hexadecimal digits stand for, two digits to a byte.
pub open spec fn unhex(s: Seq<u8>) -> Option<Seq<u8>> {
    if s.len() % 2 == 0 && s.all(|b: u8| is_hex(b)) {
        Some(
            Seq::new(
                s.len() / 2,
                |i: int| (16 * hex_value(s[2 * i]) + hex_value(s[2 * i + 1])) as u8,
            ),
        )
    } else {
        None
    }
}

/// `data_encoding::HEXLOWER_PERMISSIVE.decode`: [`unhex`].
#[verifier::external_body]
pub(crate) fn hex_decode(s: &[u8]) -> (r: Option<Vec<u8>>)
    ensures
        r is Some <==> unhex(s@) is Some,
        r is Some ==> unhex(s@) == Some(r->0@),
{
    data_encoding::HEXLOWER_PERMISSIVE.decode(s).ok()
}

/// `data_encoding::HEXLOWER.encode`: [`hex`].
#[verifier::external_body]
pub(crate) fn hex_encode(s: &[u8]) -> (r: String)
    ensures
        r@ == hex(s@),
{
    data_encoding::HEXLOWER.encode(s)
}

/// What was written in hexadecimal reads back as itself.
pub proof fn lemma_hex_roundtrip(s: Seq<u8>)
    ensures
        unhex(vstd::utf8::encode_utf8(hex(s))) == Some(s),
{
    let h = hex(s);
    assert forall|i: int| 0 <= i < h.len() implies 0 <= (#[trigger] h[i]) as u32 && (h[i] as u32) < 128 by {}
    assert(vstd::utf8::is_ascii_chars(h));
    vstd::utf8::is_ascii_chars_encode_utf8(h);
    let e = vstd::utf8::encode_utf8(h);
    assert forall|i: int| 0 <= i < e.len() implies is_hex(#[trigger] e[i]) && hex_value(e[i]) == (if i % 2 == 0 {
        s[i / 2] as int / 16
    } else {
        s[i / 2] as int % 16
    }) by {
        assert(e[i] == h[i] as u8);
    }
    assert(unhex(e)->0 =~= s) by {
        assert forall|i: int| 0 <= i < s.len() implies (#[trigger] unhex(e)->0[i]) == s[i] by {
            assert(is_hex(e[2 * i]));
            assert(is_hex(e[2 * i + 1]));
        }
    }
}

} // verus!
