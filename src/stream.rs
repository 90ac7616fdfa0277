//! A decoder that streams from any byte source, taking only the bytes each
//! value needs and leaving the rest pending in the source.
use crate::de::{bytes_spec, fixed_spec, from_twos, le_from, len_spec, lemma_le_value_bound, str_spec};
use crate::error::Error;
use crate::io::Read;
use crate::ser::{pow256, MAX_CONTAINER_DEPTH, MAX_SEQUENCE_LENGTH};
use crate::uleb128::{lemma_pow128_mono, pow128, uleb_decode, uleb_decode_from, MAX_GROUPS};
use vstd::prelude::*;
use vstd::string::{StringExecFns, StringSliceAdditionalSpecFns};
use vstd::utf8::encode_utf8;

verus! {

/// A boolean or presence byte at the start of `rest`, with `bad` for any byte
/// but `0` and `1`: the value and the one byte it takes.
pub open spec fn flag_spec(rest: Seq<u8>, bad: Error) -> Result<(bool, nat), Error> {
    if rest.len() == 0 {
        Err(Error::Eof)
    } else if rest[0] > 1 {
        Err(bad)
    } else {
        Ok((rest[0] == 1, 1))
    }
}

/// A fixed-width number of `w` bytes with the number of bytes it takes.
pub open spec fn fixed_taken(rest: Seq<u8>, w: nat) -> Result<(nat, nat), Error> {
    match fixed_spec(rest, w) {
        Ok(v) => Ok((v, w)),
        Err(e) => Err(e),
    }
}

/// A decoder that reads from `source` through `read_exact`.
pub struct StreamDeserializer<R: Read> {
    source: R,
    depth: usize,
    max_depth: usize,
    max_len: u32,
}

impl<R: Read> StreamDeserializer<R> {
    /// The bytes the source has yet to hand out.
    pub closed spec fn rest(&self) -> Seq<u8> {
        self.source.pending()
    }

    /// Whether every read of the source succeeds.
    pub closed spec fn reliable(&self) -> bool {
        self.source.reliable()
    }

    /// The source itself.
    pub closed spec fn source(&self) -> R {
        self.source
    }

    /// How many containers are open.
    pub closed spec fn depth(&self) -> nat {
        self.depth as nat
    }

    pub closed spec fn max_depth(&self) -> nat {
        self.max_depth as nat
    }

    pub closed spec fn max_len(&self) -> nat {
        self.max_len as nat
    }

    /// What every read keeps: the bounds, the depth, and whether the source is
    /// reliable.
    pub open spec fn keeps(&self, next: &Self) -> bool {
        &&& next.reliable() == self.reliable()
        &&& next.depth() == self.depth()
        &&& next.max_depth() == self.max_depth()
        &&& next.max_len() == self.max_len()
    }

    /// A decoder over `source`; lengths travel as 32-bit numbers, which bounds
    /// `max_len`.
    pub fn new(source: R, max_depth: usize, max_len: usize) -> (r: Self)
        requires
            max_len <= u32::MAX,
        ensures
            r.source() == source,
            r.rest() == source.pending(),
            r.reliable() == source.reliable(),
            r.depth() == 0,
            r.max_depth() == max_depth,
            r.max_len() == max_len,
    {
        StreamDeserializer { source, depth: 0, max_depth, max_len: max_len as u32 }
    }

    /// A decoder over `source` with the default bounds.
    pub fn with_default_limits(source: R) -> (r: Self)
        ensures
            r.source() == source,
            r.rest() == source.pending(),
            r.reliable() == source.reliable(),
            r.depth() == 0,
            r.max_depth() == MAX_CONTAINER_DEPTH,
            r.max_len() == MAX_SEQUENCE_LENGTH,
    {
        Self::new(source, MAX_CONTAINER_DEPTH, MAX_SEQUENCE_LENGTH)
    }

    /// The source back, with the unread bytes still pending in it.
    pub fn into_inner(self) -> (r: R)
        ensures
            r == self.source(),
            r.pending() == self.rest(),
    {
        self.source
    }

    fn read_buf(&mut self, n: usize) -> (r: Result<Vec<u8>, Error>)
        ensures
            old(self).keeps(final(self)),
            r matches Ok(v) ==> n <= old(self).rest().len() && v@ == old(self).rest().take(n as int)
                && final(self).rest() == old(self).rest().skip(n as int),
            n > old(self).rest().len() ==> r is Err,
            old(self).reliable() ==> (r is Ok <==> n <= old(self).rest().len()),
            old(self).reliable() && r is Err ==> r == Err::<Vec<u8>, Error>(Error::Eof),
    {
        let mut v: Vec<u8> = Vec::new();
        let mut i: usize = 0;
        while i < n
            invariant
                i <= n,
                v@.len() == i,
            decreases n - i,
        {
            v.push(0);
            i = i + 1;
        }
        match self.source.read_exact(v.as_mut_slice()) {
            Ok(()) => Ok(v),
            Err(e) => Err(Error::from_io(&e)),
        }
    }

    fn read_byte(&mut self) -> (r: Result<u8, Error>)
        ensures
            old(self).keeps(final(self)),
            r matches Ok(b) ==> old(self).rest().len() > 0 && b == old(self).rest()[0]
                && final(self).rest() == old(self).rest().skip(1),
            old(self).rest().len() == 0 ==> r is Err,
            old(self).reliable() ==> (r is Ok <==> old(self).rest().len() > 0),
            old(self).reliable() && r is Err ==> r == Err::<u8, Error>(Error::Eof),
    {
        match self.read_buf(1) {
            Ok(v) => Ok(v[0]),
            Err(e) => Err(e),
        }
    }

    /// One byte, which must be `0` (false) or `1` (true).
    pub fn deserialize_bool(&mut self) -> (r: Result<bool, Error>)
        ensures
            old(self).keeps(final(self)),
            match flag_spec(old(self).rest(), Error::ExpectedBoolean) {
                Ok((x, m)) => (r is Ok ==> r == Ok::<bool, Error>(x) && final(self).rest() == old(
                    self,
                ).rest().skip(m as int)) && (old(self).reliable() ==> r is Ok),
                Err(e) => r is Err && (old(self).reliable() ==> r == Err::<bool, Error>(e)),
            },
    {
        match self.read_byte() {
            Ok(0) => Ok(false),
            Ok(1) => Ok(true),
            Ok(_) => Err(Error::ExpectedBoolean),
            Err(e) => Err(e),
        }
    }

    /// The presence byte of an option: `1` when a value follows, `0` when not.
    pub fn deserialize_option_tag(&mut self) -> (r: Result<bool, Error>)
        ensures
            old(self).keeps(final(self)),
            match flag_spec(old(self).rest(), Error::ExpectedOption) {
                Ok((x, m)) => (r is Ok ==> r == Ok::<bool, Error>(x) && final(self).rest() == old(
                    self,
                ).rest().skip(m as int)) && (old(self).reliable() ==> r is Ok),
                Err(e) => r is Err && (old(self).reliable() ==> r == Err::<bool, Error>(e)),
            },
    {
        match self.read_byte() {
            Ok(0) => Ok(false),
            Ok(1) => Ok(true),
            Ok(_) => Err(Error::ExpectedOption),
            Err(e) => Err(e),
        }
    }

    fn read_le(&mut self, w: usize) -> (r: Result<u128, Error>)
        requires
            w <= 16,
        ensures
            old(self).keeps(final(self)),
            fixed_taken(old(self).rest(), w as nat) matches Ok((x, _)) ==> x < pow256(w as nat),
            match fixed_taken(old(self).rest(), w as nat) {
                Ok((x, m)) => (r is Ok ==> r == Ok::<u128, Error>(x as u128) && final(self).rest() == old(
                    self,
                ).rest().skip(m as int)) && (old(self).reliable() ==> r is Ok),
                Err(e) => r is Err && (old(self).reliable() ==> r == Err::<u128, Error>(e)),
            },
    {
        proof {
            if w <= old(self).rest().len() {
                lemma_le_value_bound(old(self).rest().take(w as int));
            }
        }
        match self.read_buf(w) {
            Ok(v) => {
                proof {
                    lemma_le_value_bound(v@);
                    crate::de::lemma_pow256_mono(w as nat, 16);
                    reveal_with_fuel(pow256, 17);
                }
                Ok(le_from(v.as_slice()))
            },
            Err(e) => Err(e),
        }
    }

    pub fn deserialize_u8(&mut self) -> (r: Result<u8, Error>)
        ensures
            old(self).keeps(final(self)),
            match fixed_taken(old(self).rest(), 1) {
                Ok((x, m)) => (r is Ok ==> r == Ok::<u8, Error>(x as u8) && final(self).rest() == old(
                    self,
                ).rest().skip(m as int)) && (old(self).reliable() ==> r is Ok),
                Err(e) => r is Err && (old(self).reliable() ==> r == Err::<u8, Error>(e)),
            },
    {
        proof {
            reveal_with_fuel(pow256, 2);
        }
        match self.read_le(1) {
            Ok(v) => Ok(v as u8),
            Err(e) => Err(e),
        }
    }

    pub fn deserialize_u16(&mut self) -> (r: Result<u16, Error>)
        ensures
            old(self).keeps(final(self)),
            match fixed_taken(old(self).rest(), 2) {
                Ok((x, m)) => (r is Ok ==> r == Ok::<u16, Error>(x as u16) && final(self).rest() == old(
                    self,
                ).rest().skip(m as int)) && (old(self).reliable() ==> r is Ok),
                Err(e) => r is Err && (old(self).reliable() ==> r == Err::<u16, Error>(e)),
            },
    {
        proof {
            reveal_with_fuel(pow256, 3);
        }
        match self.read_le(2) {
            Ok(v) => Ok(v as u16),
            Err(e) => Err(e),
        }
    }

    pub fn deserialize_u32(&mut self) -> (r: Result<u32, Error>)
        ensures
            old(self).keeps(final(self)),
            match fixed_taken(old(self).rest(), 4) {
                Ok((x, m)) => (r is Ok ==> r == Ok::<u32, Error>(x as u32) && final(self).rest() == old(
                    self,
                ).rest().skip(m as int)) && (old(self).reliable() ==> r is Ok),
                Err(e) => r is Err && (old(self).reliable() ==> r == Err::<u32, Error>(e)),
            },
    {
        proof {
            reveal_with_fuel(pow256, 5);
        }
        match self.read_le(4) {
            Ok(v) => Ok(v as u32),
            Err(e) => Err(e),
        }
    }

    pub fn deserialize_u64(&mut self) -> (r: Result<u64, Error>)
        ensures
            old(self).keeps(final(self)),
            match fixed_taken(old(self).rest(), 8) {
                Ok((x, m)) => (r is Ok ==> r == Ok::<u64, Error>(x as u64) && final(self).rest() == old(
                    self,
                ).rest().skip(m as int)) && (old(self).reliable() ==> r is Ok),
                Err(e) => r is Err && (old(self).reliable() ==> r == Err::<u64, Error>(e)),
            },
    {
        proof {
            reveal_with_fuel(pow256, 9);
        }
        match self.read_le(8) {
            Ok(v) => Ok(v as u64),
            Err(e) => Err(e),
        }
    }

    pub fn deserialize_u128(&mut self) -> (r: Result<u128, Error>)
        ensures
            old(self).keeps(final(self)),
            match fixed_taken(old(self).rest(), 16) {
                Ok((x, m)) => (r is Ok ==> r == Ok::<u128, Error>(x as u128) && final(self).rest() == old(
                    self,
                ).rest().skip(m as int)) && (old(self).reliable() ==> r is Ok),
                Err(e) => r is Err && (old(self).reliable() ==> r == Err::<u128, Error>(e)),
            },
    {
        proof {
            reveal_with_fuel(pow256, 17);
        }
        match self.read_le(16) {
            Ok(v) => Ok(v as u128),
            Err(e) => Err(e),
        }
    }

    pub fn deserialize_i8(&mut self) -> (r: Result<i8, Error>)
        ensures
            old(self).keeps(final(self)),
            match fixed_taken(old(self).rest(), 1) {
                Ok((x, m)) => (r is Ok ==> r == Ok::<i8, Error>(from_twos(x, 1) as i8) && final(self).rest() == old(
                    self,
                ).rest().skip(m as int)) && (old(self).reliable() ==> r is Ok),
                Err(e) => r is Err && (old(self).reliable() ==> r == Err::<i8, Error>(e)),
            },
    {
        proof {
            reveal_with_fuel(pow256, 2);
        }
        match self.read_le(1) {
            Ok(u) => Ok(if u >= 0x80 { (u as i16 - 0x100) as i8 } else { u as i8 }),
            Err(e) => Err(e),
        }
    }

    pub fn deserialize_i16(&mut self) -> (r: Result<i16, Error>)
        ensures
            old(self).keeps(final(self)),
            match fixed_taken(old(self).rest(), 2) {
                Ok((x, m)) => (r is Ok ==> r == Ok::<i16, Error>(from_twos(x, 2) as i16) && final(self).rest() == old(
                    self,
                ).rest().skip(m as int)) && (old(self).reliable() ==> r is Ok),
                Err(e) => r is Err && (old(self).reliable() ==> r == Err::<i16, Error>(e)),
            },
    {
        proof {
            reveal_with_fuel(pow256, 3);
        }
        match self.read_le(2) {
            Ok(u) => Ok(if u >= 0x8000 { (u as i32 - 0x1_0000) as i16 } else { u as i16 }),
            Err(e) => Err(e),
        }
    }

    pub fn deserialize_i32(&mut self) -> (r: Result<i32, Error>)
        ensures
            old(self).keeps(final(self)),
            match fixed_taken(old(self).rest(), 4) {
                Ok((x, m)) => (r is Ok ==> r == Ok::<i32, Error>(from_twos(x, 4) as i32) && final(self).rest() == old(
                    self,
                ).rest().skip(m as int)) && (old(self).reliable() ==> r is Ok),
                Err(e) => r is Err && (old(self).reliable() ==> r == Err::<i32, Error>(e)),
            },
    {
        proof {
            reveal_with_fuel(pow256, 5);
        }
        match self.read_le(4) {
            Ok(u) => Ok(if u >= 0x8000_0000 { (u as i64 - 0x1_0000_0000) as i32 } else { u as i32 }),
            Err(e) => Err(e),
        }
    }

    pub fn deserialize_i64(&mut self) -> (r: Result<i64, Error>)
        ensures
            old(self).keeps(final(self)),
            match fixed_taken(old(self).rest(), 8) {
                Ok((x, m)) => (r is Ok ==> r == Ok::<i64, Error>(from_twos(x, 8) as i64) && final(self).rest() == old(
                    self,
                ).rest().skip(m as int)) && (old(self).reliable() ==> r is Ok),
                Err(e) => r is Err && (old(self).reliable() ==> r == Err::<i64, Error>(e)),
            },
    {
        proof {
            reveal_with_fuel(pow256, 9);
        }
        match self.read_le(8) {
            Ok(u) => Ok(if u >= 0x8000_0000_0000_0000 { (u as i128 - 0x1_0000_0000_0000_0000) as i64 } else { u as i64 }),
            Err(e) => Err(e),
        }
    }

    pub fn deserialize_i128(&mut self) -> (r: Result<i128, Error>)
        ensures
            old(self).keeps(final(self)),
            match fixed_taken(old(self).rest(), 16) {
                Ok((x, m)) => (r is Ok ==> r == Ok::<i128, Error>(from_twos(x, 16) as i128) && final(self).rest() == old(
                    self,
                ).rest().skip(m as int)) && (old(self).reliable() ==> r is Ok),
                Err(e) => r is Err && (old(self).reliable() ==> r == Err::<i128, Error>(e)),
            },
    {
        proof {
            reveal_with_fuel(pow256, 17);
        }
        match self.read_le(16) {
            Ok(u) => Ok(if u >= 0x8000_0000_0000_0000_0000_0000_0000_0000 { -((u128::MAX - u) as i128) - 1 } else { u as i128 }),
            Err(e) => Err(e),
        }
    }

    fn read_uleb(&mut self) -> (r: Result<u32, Error>)
        ensures
            old(self).keeps(final(self)),
            match uleb_decode(old(self).rest()) {
                Ok((x, m)) => (r is Ok ==> r == Ok::<u32, Error>(x) && final(self).rest() == old(
                    self,
                ).rest().skip(m as int)) && (old(self).reliable() ==> r is Ok),
                Err(e) => r is Err && (old(self).reliable() ==> r == Err::<u32, Error>(e)),
            },
    {
        let ghost s = self.rest();
        let mut acc: u64 = 0;
        let mut mult: u64 = 1;
        let mut j: usize = 0;
        while j < MAX_GROUPS
            invariant
                old(self).keeps(self),
                s == old(self).rest(),
                j <= MAX_GROUPS,
                j <= s.len(),
                self.rest() == s.skip(j as int),
                mult == pow128(j as nat),
                acc < mult,
                mult <= 0x8_0000_0000,
                uleb_decode(s) == uleb_decode_from(s, j as nat, acc as nat),
            decreases MAX_GROUPS - j,
        {
            proof {
                lemma_pow128_mono(j as nat, 4);
                reveal_with_fuel(pow128, 5);
            }
            let ghost before = self.rest();
            let b = match self.read_byte() {
                Ok(b) => b,
                Err(e) => {
                    return Err(e);
                },
            };
            assert(b == s[j as int]);
            assert(self.rest() =~= s.skip(j + 1));
            let digit = (b % 128) as u64;
            assert(digit * mult <= 127 * mult) by (nonlinear_arith)
                requires
                    digit <= 127,
            ;
            let next = acc + digit * mult;
            if b < 128 {
                if j > 0 && b == 0 {
                    return Err(Error::NonCanonicalUleb128Encoding);
                } else if next > u32::MAX as u64 {
                    return Err(Error::IntegerOverflowDuringUleb128Decoding);
                } else {
                    return Ok(next as u32);
                }
            }
            acc = next;
            mult = mult * 128;
            j = j + 1;
        }
        Err(Error::IntegerOverflowDuringUleb128Decoding)
    }

    /// The index of an enum variant.
    pub fn deserialize_variant_index(&mut self) -> (r: Result<u32, Error>)
        ensures
            old(self).keeps(final(self)),
            match uleb_decode(old(self).rest()) {
                Ok((x, m)) => (r is Ok ==> r == Ok::<u32, Error>(x) && final(self).rest() == old(
                    self,
                ).rest().skip(m as int)) && (old(self).reliable() ==> r is Ok),
                Err(e) => r is Err && (old(self).reliable() ==> r == Err::<u32, Error>(e)),
            },
    {
        self.read_uleb()
    }

    /// A length prefix, refused above the configured bound.
    pub fn deserialize_len(&mut self) -> (r: Result<usize, Error>)
        ensures
            old(self).keeps(final(self)),
            match len_spec(old(self).rest(), old(self).max_len()) {
                Ok((x, m)) => (r is Ok ==> r == Ok::<usize, Error>(x as usize) && final(self).rest() == old(
                    self,
                ).rest().skip(m as int)) && (old(self).reliable() ==> r is Ok),
                Err(e) => r is Err && (old(self).reliable() ==> r == Err::<usize, Error>(e)),
            },
    {
        match self.read_uleb() {
            Ok(v) => {
                if v > self.max_len {
                    Err(Error::ExceededMaxLen(self.max_len as usize))
                } else {
                    Ok(v as usize)
                }
            },
            Err(e) => Err(e),
        }
    }

    /// A raw byte string: its length, then that many bytes.
    pub fn deserialize_bytes(&mut self) -> (r: Result<Vec<u8>, Error>)
        ensures
            old(self).keeps(final(self)),
            match bytes_spec(old(self).rest(), old(self).max_len()) {
                Ok((b, m)) => (r matches Ok(v) ==> (v@ == b && final(self).rest() == old(
                    self,
                ).rest().skip(m as int))) && (old(self).reliable() ==> r is Ok),
                Err(e) => r is Err && (old(self).reliable() ==> r == Err::<Vec<u8>, Error>(e)),
            },
    {
        let len = match self.deserialize_len() {
            Ok(len) => len,
            Err(e) => {
                return Err(e);
            },
        };
        let ghost mid = self.rest();
        let r = self.read_buf(len);
        proof {
            crate::uleb128::lemma_uleb_canonical(old(self).rest());
            let n = len_spec(old(self).rest(), old(self).max_len())->Ok_0.1;
            assert(mid =~= old(self).rest().skip(n as int));
            if len <= mid.len() {
                assert(mid.take(len as int) =~= old(self).rest().subrange(n as int, (n + len) as int));
                assert(mid.skip(len as int) =~= old(self).rest().skip((n + len) as int));
            }
        }
        r
    }

    /// A string: its length, then that many bytes of well-formed UTF-8.
    pub fn deserialize_str(&mut self) -> (r: Result<String, Error>)
        ensures
            old(self).keeps(final(self)),
            match str_spec(old(self).rest(), old(self).max_len()) {
                Ok((b, m)) => (r matches Ok(s) ==> (encode_utf8(s@) == b && final(self).rest() == old(
                    self,
                ).rest().skip(m as int))) && (old(self).reliable() ==> r is Ok),
                Err(e) => r is Err && (old(self).reliable() ==> r == Err::<String, Error>(e)),
            },
    {
        let b = match self.deserialize_bytes() {
            Ok(b) => b,
            Err(e) => {
                return Err(e);
            },
        };
        match crate::de::str_from_utf8(b.as_slice()) {
            Some(s) => Ok(String::from_str(s)),
            None => Err(Error::Utf8),
        }
    }

    /// Opens a container of the named kind, refused when the nesting bound is
    /// reached.
    pub fn enter_container(&mut self, kind: &'static str) -> (r: Result<(), Error>)
        ensures
            final(self).rest() == old(self).rest(),
            final(self).reliable() == old(self).reliable(),
            final(self).max_depth() == old(self).max_depth(),
            final(self).max_len() == old(self).max_len(),
            old(self).depth() >= old(self).max_depth() ==> r == Err::<(), Error>(
                Error::ExceededContainerDepthLimit(kind),
            ) && final(self).depth() == old(self).depth(),
            old(self).depth() < old(self).max_depth() ==> r is Ok && final(self).depth() == old(
                self,
            ).depth() + 1,
    {
        if self.depth >= self.max_depth {
            return Err(Error::ExceededContainerDepthLimit(kind));
        }
        self.depth = self.depth + 1;
        Ok(())
    }

    /// Closes the innermost open container.
    pub fn leave_container(&mut self)
        requires
            old(self).depth() > 0,
        ensures
            final(self).rest() == old(self).rest(),
            final(self).reliable() == old(self).reliable(),
            final(self).max_depth() == old(self).max_depth(),
            final(self).max_len() == old(self).max_len(),
            final(self).depth() == old(self).depth() - 1,
    {
        self.depth = self.depth - 1;
    }
}

} // verus!
