//! Unsigned LEB128 for lengths and variant indices, in its minimal form only.
use crate::error::Error;
use vstd::prelude::*;

verus! {

/// The largest number of 7-bit groups that a 32-bit value needs.
pub const MAX_GROUPS: usize = 5;

/// `128` raised to `j`.
pub open spec fn pow128(j: nat) -> nat
    decreases j,
{
    if j == 0 {
        1
    } else {
        128 * pow128((j - 1) as nat)
    }
}

/// The minimal encoding of `v`: 7-bit groups, low first, the high bit set on
/// all but the last.
pub open spec fn uleb_encode(v: nat) -> Seq<u8>
    decreases v,
{
    if v < 128 {
        seq![v as u8]
    } else {
        seq![(v % 128 + 128) as u8] + uleb_encode(v / 128)
    }
}

/// Decoding of `s` from group `j` on, with `acc` the value of the groups
/// before it: the value and the number of bytes taken, or the failure.
pub open spec fn uleb_decode_from(s: Seq<u8>, j: nat, acc: nat) -> Result<(u32, nat), Error>
    decreases MAX_GROUPS - j,
{
    if j >= MAX_GROUPS {
        Err(Error::IntegerOverflowDuringUleb128Decoding)
    } else if j >= s.len() {
        Err(Error::Eof)
    } else {
        let b = s[j as int];
        let next = acc + (b % 128) as nat * pow128(j);
        if b < 128 {
            if j > 0 && b == 0 {
                Err(Error::NonCanonicalUleb128Encoding)
            } else if next > u32::MAX {
                Err(Error::IntegerOverflowDuringUleb128Decoding)
            } else {
                Ok((next as u32, j + 1))
            }
        } else {
            uleb_decode_from(s, j + 1, next)
        }
    }
}

/// Decoding of a 32-bit value at the start of `s`.
pub open spec fn uleb_decode(s: Seq<u8>) -> Result<(u32, nat), Error> {
    uleb_decode_from(s, 0, 0)
}

/// Appends the minimal encoding of `value` to `out`.
pub fn encode_uleb128(value: u32, out: &mut Vec<u8>)
    ensures
        final(out)@ == old(out)@ + uleb_encode(value as nat),
{
    let mut v: u32 = value;
    while v >= 128
        invariant
            old(out)@ + uleb_encode(value as nat) == out@ + uleb_encode(v as nat),
        decreases v,
    {
        let ghost before = out@;
        out.push((v % 128 + 128) as u8);
        assert(before + uleb_encode(v as nat) =~= out@ + uleb_encode((v / 128) as nat));
        v = v / 128;
    }
    let ghost before = out@;
    out.push(v as u8);
    assert(before + uleb_encode(v as nat) =~= out@);
}

/// Reads a 32-bit value at the start of `s`: the value and the number of bytes
/// taken.
pub fn decode_uleb128(s: &[u8]) -> (r: Result<(u32, usize), Error>)
    ensures
        match r {
            Ok((v, n)) => uleb_decode(s@) == Ok::<(u32, nat), Error>((v, n as nat)),
            Err(e) => uleb_decode(s@) == Err::<(u32, nat), Error>(e),
        },
{
    let mut acc: u64 = 0;
    let mut mult: u64 = 1;
    let mut j: usize = 0;
    while j < MAX_GROUPS
        invariant
            j <= MAX_GROUPS,
            mult == pow128(j as nat),
            acc < mult,
            mult <= 0x8_0000_0000,
            uleb_decode(s@) == uleb_decode_from(s@, j as nat, acc as nat),
        decreases MAX_GROUPS - j,
    {
        proof {
            lemma_pow128_mono(j as nat, 4);
            reveal_with_fuel(pow128, 5);
        }
        if j >= s.len() {
            return Err(Error::Eof);
        }
        let b = s[j];
        let digit = (b % 128) as u64;
        assert(digit * mult <= 127 * mult) by (nonlinear_arith)
            requires
                digit <= 127,
        ;
        let next = acc + digit * mult;
        if b < 128 {
            if j > 0 && b == 0 {
                return Err(Error::NonCanonicalUleb128Encoding);
            } else if next > u32::MAX as u64 {
                return Err(Error::IntegerOverflowDuringUleb128Decoding);
            } else {
                return Ok((next as u32, j + 1));
            }
        }
        acc = next;
        mult = mult * 128;
        j = j + 1;
    }
    Err(Error::IntegerOverflowDuringUleb128Decoding)
}

proof fn lemma_encode_len(v: nat, k: nat)
    requires
        1 <= k,
        v < pow128(k),
    ensures
        1 <= uleb_encode(v).len() <= k,
    decreases v,
{
    if v >= 128 {
        assert(k >= 2) by {
            if k == 1 {
                reveal_with_fuel(pow128, 2);
            }
        }
        let p = pow128((k - 1) as nat);
        assert(v / 128 < p) by (nonlinear_arith)
            requires
                v < 128 * p,
        ;
        lemma_encode_len(v / 128, (k - 1) as nat);
    }
}

proof fn lemma_decode_encoded(s: Seq<u8>, j: nat, acc: nat, v: nat)
    requires
        j + uleb_encode(v).len() <= MAX_GROUPS,
        j + uleb_encode(v).len() <= s.len(),
        s.subrange(j as int, j + uleb_encode(v).len() as int) == uleb_encode(v),
        acc < pow128(j),
        acc + v * pow128(j) <= u32::MAX,
        j > 0 ==> v > 0,
    ensures
        uleb_decode_from(s, j, acc) == Ok::<(u32, nat), Error>(
            ((acc + v * pow128(j)) as u32, j + uleb_encode(v).len()),
        ),
    decreases v,
{
    let p = pow128(j);
    let e = uleb_encode(v);
    assert(s[j as int] == e[0]) by {
        assert(s.subrange(j as int, j + e.len() as int)[0] == s[j as int]);
    }
    if v >= 128 {
        let d = v % 128;
        let q = v / 128;
        let next = acc + d * p;
        assert(next < 128 * p && next + q * (128 * p) == acc + v * p) by (nonlinear_arith)
            requires
                acc < p,
                d < 128,
                v == 128 * q + d,
                next == acc + d * p,
        ;
        assert(pow128(j + 1) == 128 * p);
        assert(s.subrange(j + 1 as int, j + 1 + uleb_encode(q).len() as int) =~= uleb_encode(q)) by {
            assert(s.subrange(j + 1 as int, j + 1 + uleb_encode(q).len() as int) =~= s.subrange(
                j as int,
                j + e.len() as int,
            ).subrange(1, e.len() as int));
        }
        lemma_decode_encoded(s, j + 1, next, q);
    }
}

/// Decoding the encoding of any 32-bit value, whatever follows it, gives the
/// value back and takes exactly the encoding's bytes.
pub proof fn lemma_uleb_round_trip(v: u32, rest: Seq<u8>)
    ensures
        uleb_decode(uleb_encode(v as nat) + rest) == Ok::<(u32, nat), Error>(
            (v, uleb_encode(v as nat).len()),
        ),
{
    reveal_with_fuel(pow128, 6);
    lemma_encode_len(v as nat, 5);
    let s = uleb_encode(v as nat) + rest;
    assert(s.subrange(0, uleb_encode(v as nat).len() as int) =~= uleb_encode(v as nat));
    lemma_decode_encoded(s, 0, 0, v as nat);
}

proof fn lemma_decoded_is_encoding(s: Seq<u8>, j: nat, acc: nat) -> (w: nat)
    requires
        uleb_decode_from(s, j, acc) is Ok,
        acc < pow128(j),
    ensures
        ({
            let (v, n) = uleb_decode_from(s, j, acc)->Ok_0;
            &&& v == acc + w * pow128(j)
            &&& j < n <= s.len()
            &&& s.subrange(j as int, n as int) == uleb_encode(w)
            &&& (j > 0 ==> w > 0)
        }),
    decreases MAX_GROUPS - j,
{
    let b = s[j as int];
    let p = pow128(j);
    let d = (b % 128) as nat;
    let next = acc + d * p;
    if b < 128 {
        assert(s.subrange(j as int, j + 1 as int) =~= seq![b]);
        b as nat
    } else {
        assert(next < 128 * p) by (nonlinear_arith)
            requires
                acc < p,
                d < 128,
                next == acc + d * p,
        ;
        assert(pow128(j + 1) == 128 * p);
        let w1 = lemma_decoded_is_encoding(s, j + 1, next);
        let w = d + 128 * w1;
        let (v, n) = uleb_decode_from(s, j, acc)->Ok_0;
        assert(v == acc + w * p) by (nonlinear_arith)
            requires
                v == next + w1 * (128 * p),
                next == acc + d * p,
                w == d + 128 * w1,
        ;
        assert(w % 128 == d && w / 128 == w1 && w >= 128) by (nonlinear_arith)
            requires
                w == d + 128 * w1,
                d < 128,
                w1 > 0,
        ;
        assert(s.subrange(j as int, n as int) =~= seq![b] + s.subrange(j + 1 as int, n as int));
        w
    }
}

/// An accepted encoding is the minimal one: the bytes that decoding takes are
/// exactly the encoding of the value it gives, so no other byte string decodes
/// to the same value.
pub proof fn lemma_uleb_canonical(s: Seq<u8>)
    requires
        uleb_decode(s) is Ok,
    ensures
        uleb_decode(s)->Ok_0.1 <= s.len(),
        s.subrange(0, uleb_decode(s)->Ok_0.1 as int) == uleb_encode(uleb_decode(s)->Ok_0.0 as nat),
{
    reveal_with_fuel(pow128, 1);
    lemma_decoded_is_encoding(s, 0, 0);
}

pub(crate) proof fn lemma_pow128_mono(i: nat, j: nat)
    requires
        i <= j,
    ensures
        1 <= pow128(i) <= pow128(j),
    decreases j,
{
    if j == 0 {
    } else if i == j {
        lemma_pow128_mono((j - 1) as nat, (j - 1) as nat);
    } else {
        lemma_pow128_mono(i, (j - 1) as nat);
    }
}

} // verus!
