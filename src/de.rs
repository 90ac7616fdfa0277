//! The decoder: reads each primitive and container boundary and refuses every
//! byte layout that is not the canonical one.
use crate::error::Error;
use crate::io::{Cursor, Read};
use crate::ser::{le_bytes, lex_lt, pow256, prefixed, twos, MAX_CONTAINER_DEPTH, MAX_SEQUENCE_LENGTH};
use crate::uleb128::{decode_uleb128, lemma_uleb_round_trip, uleb_decode, uleb_encode};
use vstd::prelude::*;
use vstd::string::{StringExecFns, StringSliceAdditionalSpecFns};
use vstd::utf8::{decode_utf8, encode_utf8, encode_utf8_decode_utf8, encode_utf8_valid_utf8, valid_utf8};

verus! {

/// The number whose little-endian bytes are `b`.
pub open spec fn le_value(b: Seq<u8>) -> nat
    decreases b.len(),
{
    if b.len() == 0 {
        0
    } else {
        b[0] as nat + 256 * le_value(b.drop_first())
    }
}

/// The signed number whose `w`-byte two's-complement form reads as `u`.
pub open spec fn from_twos(u: nat, w: nat) -> int {
    if 2 * u >= pow256(w) {
        u - pow256(w)
    } else {
        u as int
    }
}

/// A fixed-width little-endian number of `w` bytes at the start of `rest`.
pub open spec fn fixed_spec(rest: Seq<u8>, w: nat) -> Result<nat, Error> {
    if rest.len() < w {
        Err(Error::Eof)
    } else {
        Ok(le_value(rest.take(w as int)))
    }
}

/// A length at the start of `rest`, bounded by `max_len`: the length and the
/// bytes its prefix takes.
pub open spec fn len_spec(rest: Seq<u8>, max_len: nat) -> Result<(nat, nat), Error> {
    match uleb_decode(rest) {
        Err(e) => Err(e),
        Ok((v, n)) => if v > max_len {
            Err(Error::ExceededMaxLen(max_len as usize))
        } else {
            Ok((v as nat, n))
        },
    }
}

/// A length-prefixed byte string at the start of `rest`: its bytes and the
/// number of bytes taken in all.
pub open spec fn bytes_spec(rest: Seq<u8>, max_len: nat) -> Result<(Seq<u8>, nat), Error> {
    match len_spec(rest, max_len) {
        Err(e) => Err(e),
        Ok((v, n)) => if n + v > rest.len() {
            Err(Error::Eof)
        } else {
            Ok((rest.subrange(n as int, (n + v) as int), n + v))
        },
    }
}

/// A length-prefixed string at the start of `rest`: its UTF-8 bytes, which
/// must be well formed, and the number of bytes taken in all.
pub open spec fn str_spec(rest: Seq<u8>, max_len: nat) -> Result<(Seq<u8>, nat), Error> {
    match bytes_spec(rest, max_len) {
        Err(e) => Err(e),
        Ok((b, m)) => if valid_utf8(b) {
            Ok((b, m))
        } else {
            Err(Error::Utf8)
        },
    }
}


proof fn lemma_le_value_of_bytes(v: nat, w: nat)
    requires
        v < pow256(w),
    ensures
        le_bytes(v, w).len() == w,
        le_value(le_bytes(v, w)) == v,
    decreases w,
{
    if w > 0 {
        let p = pow256((w - 1) as nat);
        assert(v / 256 < p) by (nonlinear_arith)
            requires
                v < 256 * p,
        ;
        lemma_le_value_of_bytes(v / 256, (w - 1) as nat);
        assert(le_bytes(v, w).drop_first() =~= le_bytes(v / 256, (w - 1) as nat));
    } else {
        assert(v == 0);
    }
}

/// A fixed-width number decodes to itself: reading `w` bytes from its
/// encoding, whatever follows, gives it back.
pub proof fn lemma_fixed_round_trip(v: nat, w: nat, rest: Seq<u8>)
    requires
        v < pow256(w),
    ensures
        fixed_spec(le_bytes(v, w) + rest, w) == Ok::<nat, Error>(v),
{
    lemma_le_value_of_bytes(v, w);
    assert((le_bytes(v, w) + rest).take(w as int) =~= le_bytes(v, w));
}

/// A signed number that fits `w` bytes survives the two's-complement form.
pub proof fn lemma_signed_round_trip(v: int, w: nat)
    requires
        -pow256(w) <= 2 * v < pow256(w),
    ensures
        twos(v, w) < pow256(w),
        from_twos(twos(v, w), w) == v,
{
}

/// A byte string within the length bound decodes to itself, whatever follows.
pub proof fn lemma_bytes_round_trip(b: Seq<u8>, max_len: nat, rest: Seq<u8>)
    requires
        b.len() <= max_len <= u32::MAX,
    ensures
        bytes_spec(prefixed(b) + rest, max_len) == Ok::<(Seq<u8>, nat), Error>(
            (b, prefixed(b).len()),
        ),
{
    let s = prefixed(b) + rest;
    lemma_uleb_round_trip(b.len() as u32, b + rest);
    assert(s =~= uleb_encode(b.len()) + (b + rest));
    let n = uleb_encode(b.len()).len();
    assert(s.subrange(n as int, (n + b.len()) as int) =~= b);
}

/// A string within the length bound decodes to itself, whatever follows:
/// its bytes come back, and only this text has those bytes.
pub proof fn lemma_str_round_trip(t: Seq<char>, max_len: nat, rest: Seq<u8>)
    requires
        encode_utf8(t).len() <= max_len <= u32::MAX,
    ensures
        str_spec(prefixed(encode_utf8(t)) + rest, max_len) == Ok::<(Seq<u8>, nat), Error>(
            (encode_utf8(t), prefixed(encode_utf8(t)).len()),
        ),
        forall|u: Seq<char>| encode_utf8(u) == encode_utf8(t) ==> u == t,
{
    lemma_bytes_round_trip(encode_utf8(t), max_len, rest);
    encode_utf8_valid_utf8(t);
    assert forall|u: Seq<char>| encode_utf8(u) == encode_utf8(t) implies u == t by {
        encode_utf8_decode_utf8(u);
        encode_utf8_decode_utf8(t);
    }
}

/// Relies on `core::str::from_utf8`: it accepts exactly the well-formed UTF-8
/// byte strings, and the text it gives has those bytes.
#[verifier::external_body]
pub(crate) fn str_from_utf8<'a>(v: &'a [u8]) -> (r: Option<&'a str>)
    ensures
        r is Some <==> valid_utf8(v@),
        r matches Some(s) ==> s.spec_bytes() == v@,
{
    core::str::from_utf8(v).ok()
}

/// The order check on map keys: a key must come strictly after the one before
/// it, so that entries are in increasing order and no key repeats.
pub fn check_map_key(previous: Option<&[u8]>, key: &[u8]) -> (r: Result<(), Error>)
    ensures
        r is Ok <==> (previous matches Some(p) ==> lex_lt(p@, key@)),
        r is Err ==> r == Err::<(), Error>(Error::NonCanonicalMap),
{
    match previous {
        Some(p) => {
            if crate::ser::lex_less(p, key) {
                Ok(())
            } else {
                Err(Error::NonCanonicalMap)
            }
        },
        None => Ok(()),
    }
}

pub(crate) fn le_from(b: &[u8]) -> (r: u128)
    requires
        b@.len() <= 16,
    ensures
        r == le_value(b@),
{
    let mut acc: u128 = 0;
    let mut i: usize = b.len();
    proof {
        lemma_le_value_bound(b@);
        reveal_with_fuel(pow256, 17);
        assert(b@.skip(i as int) =~= Seq::<u8>::empty());
    }
    while i > 0
        invariant
            i <= b@.len(),
            b@.len() <= 16,
            acc == le_value(b@.skip(i as int)),
            acc < pow256((b@.len() - i) as nat),
            pow256((b@.len() - i) as nat) <= pow256(16),
            pow256(16) == 0x1_0000_0000_0000_0000_0000_0000_0000_0000,
        decreases i,
    {
        let ghost k = (b@.len() - i) as nat;
        proof {
            lemma_pow256_mono(k + 1, 16);
        }
        assert(b@.skip(i - 1).drop_first() =~= b@.skip(i as int));
        assert(pow256(k + 1) == 256 * pow256(k));
        let d = b[i - 1] as u128;
        assert(acc * 256 + d < 256 * pow256(k)) by (nonlinear_arith)
            requires
                acc < pow256(k),
                d < 256,
        ;
        acc = acc * 256 + d;
        i = i - 1;
    }
    assert(b@.skip(0) =~= b@);
    acc
}

pub(crate) proof fn lemma_le_value_bound(b: Seq<u8>)
    ensures
        le_value(b) < pow256(b.len()),
    decreases b.len(),
{
    if b.len() > 0 {
        lemma_le_value_bound(b.drop_first());
        let p = pow256((b.len() - 1) as nat);
        assert(b[0] as nat + 256 * le_value(b.drop_first()) < 256 * p) by (nonlinear_arith)
            requires
                le_value(b.drop_first()) < p,
                (b[0] as nat) < 256,
        ;
    }
}

pub(crate) proof fn lemma_pow256_mono(i: nat, j: nat)
    requires
        i <= j,
    ensures
        1 <= pow256(i) <= pow256(j),
    decreases j,
{
    if j == 0 {
    } else if i == j {
        lemma_pow256_mono((j - 1) as nat, (j - 1) as nat);
    } else {
        lemma_pow256_mono(i, (j - 1) as nat);
    }
}

/// A decoder over an in-memory input, with its nesting and length bounds.
pub struct Deserializer {
    input: Vec<u8>,
    pos: usize,
    depth: usize,
    max_depth: usize,
    max_len: u32,
}

impl Deserializer {
    pub closed spec fn wf(&self) -> bool {
        self.pos <= self.input@.len()
    }

    /// The input not read yet.
    pub closed spec fn rest(&self) -> Seq<u8> {
        self.input@.subrange(self.pos as int, self.input@.len() as int)
    }

    /// How many bytes have been read.
    pub closed spec fn consumed(&self) -> nat {
        self.pos as nat
    }

    /// The whole input.
    pub closed spec fn input(&self) -> Seq<u8> {
        self.input@
    }

    /// How many containers are open.
    pub closed spec fn depth(&self) -> nat {
        self.depth as nat
    }

    pub closed spec fn max_depth(&self) -> nat {
        self.max_depth as nat
    }

    pub closed spec fn max_len(&self) -> nat {
        self.max_len as nat
    }

    /// What every step keeps: the input, the bounds, and a position inside it.
    pub open spec fn step(&self, next: &Self) -> bool {
        &&& next.wf()
        &&& next.input() == self.input()
        &&& next.max_depth() == self.max_depth()
        &&& next.max_len() == self.max_len()
    }

    /// A decoder at the start of `input`; lengths travel as 32-bit numbers,
    /// which bounds `max_len`.
    pub fn new(input: Vec<u8>, max_depth: usize, max_len: usize) -> (r: Self)
        requires
            max_len <= u32::MAX,
        ensures
            r.wf(),
            r.input() == input@,
            r.rest() == input@,
            r.consumed() == 0,
            r.depth() == 0,
            r.max_depth() == max_depth,
            r.max_len() == max_len,
    {
        let r = Deserializer { input, pos: 0, depth: 0, max_depth, max_len: max_len as u32 };
        assert(r.rest() =~= input@);
        r
    }

    /// A decoder at the start of `input` with the default bounds.
    pub fn with_default_limits(input: Vec<u8>) -> (r: Self)
        ensures
            r.wf(),
            r.input() == input@,
            r.rest() == input@,
            r.consumed() == 0,
            r.depth() == 0,
            r.max_depth() == MAX_CONTAINER_DEPTH,
            r.max_len() == MAX_SEQUENCE_LENGTH,
    {
        Self::new(input, MAX_CONTAINER_DEPTH, MAX_SEQUENCE_LENGTH)
    }

    /// A decoder that streams from `source`: it reads from where the cursor
    /// stands and, through `into_cursor`, leaves the rest for the next reader.
    pub fn from_cursor(source: Cursor, max_depth: usize, max_len: usize) -> (r: Self)
        requires
            max_len <= u32::MAX,
        ensures
            r.wf(),
            r.rest() == source.pending(),
            r.depth() == 0,
            r.max_depth() == max_depth,
            r.max_len() == max_len,
    {
        let (input, pos) = source.into_parts();
        Deserializer { input, pos, depth: 0, max_depth, max_len: max_len as u32 }
    }

    /// The source back, with exactly the unread bytes still pending.
    pub fn into_cursor(self) -> (r: Cursor)
        requires
            self.wf(),
        ensures
            r.pending() == self.rest(),
    {
        Cursor::at(self.input, self.pos)
    }

    /// How many bytes have been read; a reader that streams leaves the rest
    /// for whoever reads next.
    pub fn position(&self) -> (r: usize)
        ensures
            r == self.consumed(),
    {
        self.pos
    }

    /// The check of a strict decode: the whole input must have been read.
    pub fn end(&self) -> (r: Result<(), Error>)
        requires
            self.wf(),
        ensures
            r is Ok <==> self.rest().len() == 0,
            r is Err ==> r == Err::<(), Error>(Error::RemainingInput),
    {
        if self.pos < self.input.len() {
            Err(Error::RemainingInput)
        } else {
            Ok(())
        }
    }

    /// The bytes read since position `start`, such as those of a map key.
    pub fn consumed_since(&self, start: usize) -> (r: Vec<u8>)
        requires
            self.wf(),
            start <= self.consumed(),
        ensures
            r@ == self.input().subrange(start as int, self.consumed() as int),
    {
        let mut r: Vec<u8> = Vec::new();
        let mut i: usize = start;
        while i < self.pos
            invariant
                start <= i <= self.pos,
                self.pos <= self.input@.len(),
                r@ == self.input@.subrange(start as int, i as int),
            decreases self.pos - i,
        {
            r.push(self.input[i]);
            assert(self.input@.subrange(start as int, i + 1) =~= r@);
            i = i + 1;
        }
        r
    }

    fn take_bytes(&mut self, n: usize) -> (r: Result<Vec<u8>, Error>)
        requires
            old(self).wf(),
        ensures
            old(self).step(final(self)),
            final(self).depth() == old(self).depth(),
            n > old(self).rest().len() ==> r == Err::<Vec<u8>, Error>(Error::Eof) && final(self).rest()
                == old(self).rest(),
            n <= old(self).rest().len() ==> (r matches Ok(v) && v@ == old(self).rest().take(n as int)
                && final(self).rest() == old(self).rest().skip(n as int)),
    {
        if n > self.input.len() - self.pos {
            return Err(Error::Eof);
        }
        let mut v: Vec<u8> = Vec::new();
        let start = self.pos;
        let mut i: usize = 0;
        while i < n
            invariant
                i <= n,
                start == self.pos,
                start + n <= self.input@.len(),
                self.input@.len() <= usize::MAX,
                v@ == self.input@.subrange(start as int, start + i),
            decreases n - i,
        {
            let b = self.input[start + i];
            v.push(b);
            assert(self.input@.subrange(start as int, start + i + 1) =~= v@);
            i = i + 1;
        }
        self.pos = start + n;
        assert(v@ =~= old(self).rest().take(n as int));
        assert(self.rest() =~= old(self).rest().skip(n as int));
        Ok(v)
    }

    fn read_byte(&mut self) -> (r: Result<u8, Error>)
        requires
            old(self).wf(),
        ensures
            old(self).step(final(self)),
            final(self).depth() == old(self).depth(),
            old(self).rest().len() == 0 ==> r == Err::<u8, Error>(Error::Eof) && final(self).rest()
                == old(self).rest(),
            old(self).rest().len() > 0 ==> r == Ok::<u8, Error>(old(self).rest()[0])
                && final(self).rest() == old(self).rest().skip(1),
    {
        if self.pos >= self.input.len() {
            return Err(Error::Eof);
        }
        let b = self.input[self.pos];
        self.pos = self.pos + 1;
        assert(self.rest() =~= old(self).rest().skip(1));
        Ok(b)
    }

    fn read_le(&mut self, w: usize) -> (r: Result<u128, Error>)
        requires
            old(self).wf(),
            w <= 16,
        ensures
            old(self).step(final(self)),
            final(self).depth() == old(self).depth(),
            match fixed_spec(old(self).rest(), w as nat) {
                Ok(v) => r == Ok::<u128, Error>(v as u128) && final(self).rest() == old(self).rest().skip(
                    w as int,
                ) && v < pow256(w as nat),
                Err(e) => r == Err::<u128, Error>(e) && final(self).rest() == old(self).rest(),
            },
    {
        match self.take_bytes(w) {
            Ok(v) => {
                proof {
                    lemma_le_value_bound(v@);
                }
                Ok(le_from(v.as_slice()))
            },
            Err(e) => Err(e),
        }
    }

    /// One byte, which must be `0` (false) or `1` (true).
    pub fn deserialize_bool(&mut self) -> (r: Result<bool, Error>)
        requires
            old(self).wf(),
        ensures
            old(self).step(final(self)),
            final(self).depth() == old(self).depth(),
            old(self).rest().len() == 0 ==> r == Err::<bool, Error>(Error::Eof),
            old(self).rest().len() > 0 && old(self).rest()[0] > 1 ==> r == Err::<bool, Error>(
                Error::ExpectedBoolean,
            ),
            old(self).rest().len() > 0 && old(self).rest()[0] <= 1 ==> r == Ok::<bool, Error>(
                old(self).rest()[0] == 1,
            ) && final(self).rest() == old(self).rest().skip(1),
    {
        match self.read_byte() {
            Ok(0) => Ok(false),
            Ok(1) => Ok(true),
            Ok(_) => Err(Error::ExpectedBoolean),
            Err(e) => Err(e),
        }
    }

    /// The presence byte of an option: `1` when a value follows, `0` when not.
    pub fn deserialize_option_tag(&mut self) -> (r: Result<bool, Error>)
        requires
            old(self).wf(),
        ensures
            old(self).step(final(self)),
            final(self).depth() == old(self).depth(),
            old(self).rest().len() == 0 ==> r == Err::<bool, Error>(Error::Eof),
            old(self).rest().len() > 0 && old(self).rest()[0] > 1 ==> r == Err::<bool, Error>(
                Error::ExpectedOption,
            ),
            old(self).rest().len() > 0 && old(self).rest()[0] <= 1 ==> r == Ok::<bool, Error>(
                old(self).rest()[0] == 1,
            ) && final(self).rest() == old(self).rest().skip(1),
    {
        match self.read_byte() {
            Ok(0) => Ok(false),
            Ok(1) => Ok(true),
            Ok(_) => Err(Error::ExpectedOption),
            Err(e) => Err(e),
        }
    }

    pub fn deserialize_u8(&mut self) -> (r: Result<u8, Error>)
        requires
            old(self).wf(),
        ensures
            old(self).step(final(self)),
            final(self).depth() == old(self).depth(),
            match fixed_spec(old(self).rest(), 1) {
                Ok(v) => r == Ok::<u8, Error>(v as u8) && final(self).rest() == old(self).rest().skip(1),
                Err(e) => r == Err::<u8, Error>(e) && final(self).rest() == old(self).rest(),
            },
    {
        proof {
            reveal_with_fuel(pow256, 2);
        }
        match self.read_le(1) {
            Ok(v) => Ok(v as u8),
            Err(e) => Err(e),
        }
    }

    pub fn deserialize_u16(&mut self) -> (r: Result<u16, Error>)
        requires
            old(self).wf(),
        ensures
            old(self).step(final(self)),
            final(self).depth() == old(self).depth(),
            match fixed_spec(old(self).rest(), 2) {
                Ok(v) => r == Ok::<u16, Error>(v as u16) && final(self).rest() == old(self).rest().skip(2),
                Err(e) => r == Err::<u16, Error>(e) && final(self).rest() == old(self).rest(),
            },
    {
        proof {
            reveal_with_fuel(pow256, 3);
        }
        match self.read_le(2) {
            Ok(v) => Ok(v as u16),
            Err(e) => Err(e),
        }
    }

    pub fn deserialize_u32(&mut self) -> (r: Result<u32, Error>)
        requires
            old(self).wf(),
        ensures
            old(self).step(final(self)),
            final(self).depth() == old(self).depth(),
            match fixed_spec(old(self).rest(), 4) {
                Ok(v) => r == Ok::<u32, Error>(v as u32) && final(self).rest() == old(self).rest().skip(4),
                Err(e) => r == Err::<u32, Error>(e) && final(self).rest() == old(self).rest(),
            },
    {
        proof {
            reveal_with_fuel(pow256, 5);
        }
        match self.read_le(4) {
            Ok(v) => Ok(v as u32),
            Err(e) => Err(e),
        }
    }

    pub fn deserialize_u64(&mut self) -> (r: Result<u64, Error>)
        requires
            old(self).wf(),
        ensures
            old(self).step(final(self)),
            final(self).depth() == old(self).depth(),
            match fixed_spec(old(self).rest(), 8) {
                Ok(v) => r == Ok::<u64, Error>(v as u64) && final(self).rest() == old(self).rest().skip(8),
                Err(e) => r == Err::<u64, Error>(e) && final(self).rest() == old(self).rest(),
            },
    {
        proof {
            reveal_with_fuel(pow256, 9);
        }
        match self.read_le(8) {
            Ok(v) => Ok(v as u64),
            Err(e) => Err(e),
        }
    }

    pub fn deserialize_u128(&mut self) -> (r: Result<u128, Error>)
        requires
            old(self).wf(),
        ensures
            old(self).step(final(self)),
            final(self).depth() == old(self).depth(),
            match fixed_spec(old(self).rest(), 16) {
                Ok(v) => r == Ok::<u128, Error>(v as u128) && final(self).rest() == old(self).rest().skip(16),
                Err(e) => r == Err::<u128, Error>(e) && final(self).rest() == old(self).rest(),
            },
    {
        proof {
            reveal_with_fuel(pow256, 17);
        }
        match self.read_le(16) {
            Ok(v) => Ok(v as u128),
            Err(e) => Err(e),
        }
    }

    pub fn deserialize_i8(&mut self) -> (r: Result<i8, Error>)
        requires
            old(self).wf(),
        ensures
            old(self).step(final(self)),
            final(self).depth() == old(self).depth(),
            match fixed_spec(old(self).rest(), 1) {
                Ok(v) => r == Ok::<i8, Error>(from_twos(v, 1) as i8) && final(self).rest() == old(
                    self,
                ).rest().skip(1),
                Err(e) => r == Err::<i8, Error>(e) && final(self).rest() == old(self).rest(),
            },
    {
        proof {
            reveal_with_fuel(pow256, 2);
        }
        match self.read_le(1) {
            Ok(u) => Ok(if u >= 0x80 { (u as i16 - 0x100) as i8 } else { u as i8 }),
            Err(e) => Err(e),
        }
    }

    pub fn deserialize_i16(&mut self) -> (r: Result<i16, Error>)
        requires
            old(self).wf(),
        ensures
            old(self).step(final(self)),
            final(self).depth() == old(self).depth(),
            match fixed_spec(old(self).rest(), 2) {
                Ok(v) => r == Ok::<i16, Error>(from_twos(v, 2) as i16) && final(self).rest() == old(
                    self,
                ).rest().skip(2),
                Err(e) => r == Err::<i16, Error>(e) && final(self).rest() == old(self).rest(),
            },
    {
        proof {
            reveal_with_fuel(pow256, 3);
        }
        match self.read_le(2) {
            Ok(u) => Ok(if u >= 0x8000 { (u as i32 - 0x1_0000) as i16 } else { u as i16 }),
            Err(e) => Err(e),
        }
    }

    pub fn deserialize_i32(&mut self) -> (r: Result<i32, Error>)
        requires
            old(self).wf(),
        ensures
            old(self).step(final(self)),
            final(self).depth() == old(self).depth(),
            match fixed_spec(old(self).rest(), 4) {
                Ok(v) => r == Ok::<i32, Error>(from_twos(v, 4) as i32) && final(self).rest() == old(
                    self,
                ).rest().skip(4),
                Err(e) => r == Err::<i32, Error>(e) && final(self).rest() == old(self).rest(),
            },
    {
        proof {
            reveal_with_fuel(pow256, 5);
        }
        match self.read_le(4) {
            Ok(u) => Ok(if u >= 0x8000_0000 { (u as i64 - 0x1_0000_0000) as i32 } else { u as i32 }),
            Err(e) => Err(e),
        }
    }

    pub fn deserialize_i64(&mut self) -> (r: Result<i64, Error>)
        requires
            old(self).wf(),
        ensures
            old(self).step(final(self)),
            final(self).depth() == old(self).depth(),
            match fixed_spec(old(self).rest(), 8) {
                Ok(v) => r == Ok::<i64, Error>(from_twos(v, 8) as i64) && final(self).rest() == old(
                    self,
                ).rest().skip(8),
                Err(e) => r == Err::<i64, Error>(e) && final(self).rest() == old(self).rest(),
            },
    {
        proof {
            reveal_with_fuel(pow256, 9);
        }
        match self.read_le(8) {
            Ok(u) => Ok(if u >= 0x8000_0000_0000_0000 { (u as i128 - 0x1_0000_0000_0000_0000) as i64 } else { u as i64 }),
            Err(e) => Err(e),
        }
    }

    pub fn deserialize_i128(&mut self) -> (r: Result<i128, Error>)
        requires
            old(self).wf(),
        ensures
            old(self).step(final(self)),
            final(self).depth() == old(self).depth(),
            match fixed_spec(old(self).rest(), 16) {
                Ok(v) => r == Ok::<i128, Error>(from_twos(v, 16) as i128) && final(self).rest() == old(
                    self,
                ).rest().skip(16),
                Err(e) => r == Err::<i128, Error>(e) && final(self).rest() == old(self).rest(),
            },
    {
        proof {
            reveal_with_fuel(pow256, 17);
        }
        match self.read_le(16) {
            Ok(u) => Ok(if u >= 0x8000_0000_0000_0000_0000_0000_0000_0000 { -((u128::MAX - u) as i128) - 1 } else { u as i128 }),
            Err(e) => Err(e),
        }
    }

    /// A length prefix, refused above the configured bound.
    pub fn deserialize_len(&mut self) -> (r: Result<usize, Error>)
        requires
            old(self).wf(),
        ensures
            old(self).step(final(self)),
            final(self).depth() == old(self).depth(),
            match len_spec(old(self).rest(), old(self).max_len()) {
                Ok((v, n)) => r == Ok::<usize, Error>(v as usize) && final(self).rest() == old(
                    self,
                ).rest().skip(n as int),
                Err(e) => r == Err::<usize, Error>(e),
            },
    {
        match self.read_uleb() {
            Ok(v) => {
                if v > self.max_len {
                    Err(Error::ExceededMaxLen(self.max_len as usize))
                } else {
                    Ok(v as usize)
                }
            },
            Err(e) => Err(e),
        }
    }

    fn read_uleb(&mut self) -> (r: Result<u32, Error>)
        requires
            old(self).wf(),
        ensures
            old(self).step(final(self)),
            final(self).depth() == old(self).depth(),
            match uleb_decode(old(self).rest()) {
                Ok((v, n)) => r == Ok::<u32, Error>(v) && final(self).rest() == old(self).rest().skip(
                    n as int,
                ) && n <= old(self).rest().len(),
                Err(e) => r == Err::<u32, Error>(e) && final(self).rest() == old(self).rest(),
            },
    {
        let total = self.input.len();
        let (_, tail) = self.input.as_slice().split_at(self.pos);
        assert(tail@ =~= old(self).rest());
        match decode_uleb128(tail) {
            Ok((v, n)) => {
                proof {
                    crate::uleb128::lemma_uleb_canonical(tail@);
                }
                self.pos = self.pos + n;
                assert(self.rest() =~= old(self).rest().skip(n as int));
                Ok(v)
            },
            Err(e) => Err(e),
        }
    }

    /// The index of an enum variant.
    pub fn deserialize_variant_index(&mut self) -> (r: Result<u32, Error>)
        requires
            old(self).wf(),
        ensures
            old(self).step(final(self)),
            final(self).depth() == old(self).depth(),
            match uleb_decode(old(self).rest()) {
                Ok((v, n)) => r == Ok::<u32, Error>(v) && final(self).rest() == old(self).rest().skip(
                    n as int,
                ),
                Err(e) => r == Err::<u32, Error>(e) && final(self).rest() == old(self).rest(),
            },
    {
        self.read_uleb()
    }

    /// A raw byte string: its length, then that many bytes.
    pub fn deserialize_bytes(&mut self) -> (r: Result<Vec<u8>, Error>)
        requires
            old(self).wf(),
        ensures
            old(self).step(final(self)),
            final(self).depth() == old(self).depth(),
            match bytes_spec(old(self).rest(), old(self).max_len()) {
                Ok((b, m)) => (r matches Ok(v) && v@ == b) && final(self).rest() == old(
                    self,
                ).rest().skip(m as int),
                Err(e) => r == Err::<Vec<u8>, Error>(e),
            },
    {
        let len = match self.deserialize_len() {
            Ok(len) => len,
            Err(e) => {
                return Err(e);
            },
        };
        let ghost mid = self.rest();
        let r = self.take_bytes(len);
        proof {
            let n = len_spec(old(self).rest(), old(self).max_len())->Ok_0.1;
            crate::uleb128::lemma_uleb_canonical(old(self).rest());
            if len <= mid.len() {
                assert(mid.take(len as int) =~= old(self).rest().subrange(n as int, (n + len) as int));
                assert(self.rest() =~= old(self).rest().skip((n + len) as int));
            }
        }
        r
    }

    /// A string: its length, then that many bytes of well-formed UTF-8.
    pub fn deserialize_str(&mut self) -> (r: Result<String, Error>)
        requires
            old(self).wf(),
        ensures
            old(self).step(final(self)),
            final(self).depth() == old(self).depth(),
            match str_spec(old(self).rest(), old(self).max_len()) {
                Ok((b, m)) => (r matches Ok(s) && encode_utf8(s@) == b) && final(self).rest() == old(
                    self,
                ).rest().skip(m as int),
                Err(e) => r == Err::<String, Error>(e),
            },
    {
        let b = match self.deserialize_bytes() {
            Ok(b) => b,
            Err(e) => {
                return Err(e);
            },
        };
        match str_from_utf8(b.as_slice()) {
            Some(s) => Ok(String::from_str(s)),
            None => Err(Error::Utf8),
        }
    }

    /// Opens a container of the named kind, refused when the nesting bound is
    /// reached.
    pub fn enter_container(&mut self, kind: &'static str) -> (r: Result<(), Error>)
        requires
            old(self).wf(),
        ensures
            old(self).step(final(self)),
            final(self).rest() == old(self).rest(),
            old(self).depth() >= old(self).max_depth() ==> r == Err::<(), Error>(
                Error::ExceededContainerDepthLimit(kind),
            ) && final(self).depth() == old(self).depth(),
            old(self).depth() < old(self).max_depth() ==> r is Ok && final(self).depth() == old(
                self,
            ).depth() + 1,
    {
        if self.depth >= self.max_depth {
            return Err(Error::ExceededContainerDepthLimit(kind));
        }
        self.depth = self.depth + 1;
        Ok(())
    }

    /// Closes the innermost open container.
    pub fn leave_container(&mut self)
        requires
            old(self).wf(),
            old(self).depth() > 0,
        ensures
            old(self).step(final(self)),
            final(self).rest() == old(self).rest(),
            final(self).depth() == old(self).depth() - 1,
    {
        self.depth = self.depth - 1;
    }
}

} // verus!
