//! The encoder: writes each primitive and container boundary in its one
//! canonical form.
use crate::error::Error;
use crate::uleb128::{encode_uleb128, uleb_encode};
use vstd::prelude::*;
use vstd::string::StringSliceAdditionalSpecFns;

verus! {

/// The default bound on container nesting.
pub const MAX_CONTAINER_DEPTH: usize = 500;

/// The default bound on the length of a sequence, string or byte string.
pub const MAX_SEQUENCE_LENGTH: usize = 2147483647;

/// The `width` low bytes of `v`, least significant first.
pub open spec fn le_bytes(v: nat, width: nat) -> Seq<u8>
    decreases width,
{
    if width == 0 {
        Seq::empty()
    } else {
        seq![(v % 256) as u8] + le_bytes(v / 256, (width - 1) as nat)
    }
}

/// `256` raised to `w`.
pub open spec fn pow256(w: nat) -> nat
    decreases w,
{
    if w == 0 {
        1
    } else {
        256 * pow256((w - 1) as nat)
    }
}

/// The two's-complement reading of `v` in `w` bytes, as an unsigned number.
pub open spec fn twos(v: int, w: nat) -> nat {
    if v < 0 {
        (v + pow256(w)) as nat
    } else {
        v as nat
    }
}

/// A length prefix followed by the bytes themselves.
pub open spec fn prefixed(b: Seq<u8>) -> Seq<u8> {
    uleb_encode(b.len()) + b
}

/// Unsigned lexicographic order on byte strings; a proper prefix comes first.
pub open spec fn lex_lt(a: Seq<u8>, b: Seq<u8>) -> bool
    decreases a.len(),
{
    if a.len() == 0 {
        b.len() > 0
    } else if b.len() == 0 {
        false
    } else if a[0] != b[0] {
        a[0] < b[0]
    } else {
        lex_lt(a.drop_first(), b.drop_first())
    }
}

/// Map entries, each an encoded key and an encoded value, in the order given.
pub open spec fn entries_view(e: Seq<(Vec<u8>, Vec<u8>)>) -> Seq<(Seq<u8>, Seq<u8>)> {
    e.map_values(|p: (Vec<u8>, Vec<u8>)| (p.0@, p.1@))
}

/// Whether the keys never go down from one entry to the next.
pub open spec fn keys_sorted(e: Seq<(Seq<u8>, Seq<u8>)>) -> bool {
    forall|i: int, j: int| 0 <= i < j < e.len() ==> !lex_lt(#[trigger] e[j].0, #[trigger] e[i].0)
}

/// Whether `s` is a reordering of `e` in increasing order of key bytes.
pub open spec fn canonical_order(s: Seq<(Seq<u8>, Seq<u8>)>, e: Seq<(Seq<u8>, Seq<u8>)>) -> bool {
    &&& s.to_multiset() == e.to_multiset()
    &&& keys_sorted(s)
}

/// The entries written one after the other, key before value.
pub open spec fn flatten_entries(e: Seq<(Seq<u8>, Seq<u8>)>) -> Seq<u8>
    decreases e.len(),
{
    if e.len() == 0 {
        Seq::empty()
    } else {
        flatten_entries(e.drop_last()) + e.last().0 + e.last().1
    }
}

/// The order is transitive.
pub proof fn lemma_lex_lt_transitive(a: Seq<u8>, b: Seq<u8>, c: Seq<u8>)
    requires
        lex_lt(a, b),
        lex_lt(b, c),
    ensures
        lex_lt(a, c),
    decreases a.len(),
{
    if a.len() > 0 && b.len() > 0 && c.len() > 0 && a[0] == b[0] && b[0] == c[0] {
        lemma_lex_lt_transitive(a.drop_first(), b.drop_first(), c.drop_first());
    }
}

/// The order is total: of two different byte strings one comes first.
pub proof fn lemma_lex_lt_total(a: Seq<u8>, b: Seq<u8>)
    ensures
        a != b ==> lex_lt(a, b) || lex_lt(b, a),
        !(lex_lt(a, b) && lex_lt(b, a)),
        !lex_lt(a, a),
    decreases a.len(),
{
    if a.len() > 0 && b.len() > 0 && a[0] == b[0] {
        lemma_lex_lt_total(a.drop_first(), b.drop_first());
        if a.drop_first() == b.drop_first() {
            assert(a =~= seq![a[0]] + a.drop_first());
            assert(b =~= seq![b[0]] + b.drop_first());
        }
    } else if a.len() > 0 && b.len() > 0 {
    } else if a.len() == 0 && b.len() == 0 {
        assert(a =~= b);
    }
    if a.len() > 0 {
        lemma_lex_lt_total(a.drop_first(), a.drop_first());
    }
}

/// Whether no key occurs twice among the entries, as in any map.
pub open spec fn keys_distinct(e: Seq<(Seq<u8>, Seq<u8>)>) -> bool {
    forall|i: int, j: int| 0 <= i < j < e.len() ==> #[trigger] e[i].0 != #[trigger] e[j].0
}

/// Whether the keys go strictly up from one entry to the next.
pub open spec fn keys_increasing(e: Seq<(Seq<u8>, Seq<u8>)>) -> bool {
    forall|i: int, j: int| 0 <= i < j < e.len() ==> lex_lt(#[trigger] e[i].0, #[trigger] e[j].0)
}

proof fn lemma_canonical_order_increasing(s: Seq<(Seq<u8>, Seq<u8>)>, e: Seq<(Seq<u8>, Seq<u8>)>)
    requires
        canonical_order(s, e),
        keys_distinct(e),
    ensures
        keys_increasing(s),
        forall|x| s.contains(x) <==> e.contains(x),
        s.len() == e.len(),
{
    broadcast use vstd::seq_lib::group_to_multiset_ensures;

    assert(s.len() == e.len()) by {
        assert(s.to_multiset().len() == e.to_multiset().len());
    }
    assert forall|x| s.contains(x) <==> e.contains(x) by {
        assert(s.to_multiset().count(x) == e.to_multiset().count(x));
    }
    assert(e.no_duplicates()) by {
        assert forall|i: int, j: int| 0 <= i < e.len() && 0 <= j < e.len() && i != j implies e[i]
            != e[j] by {
            if i < j {
                assert(e[i].0 != e[j].0);
            } else {
                assert(e[j].0 != e[i].0);
            }
        }
    }
    e.unique_seq_to_set();
    assert(s.to_set() =~= e.to_set());
    s.lemma_no_dup_set_cardinality();
    assert forall|i: int, j: int| 0 <= i < j < s.len() implies lex_lt(
        #[trigger] s[i].0,
        #[trigger] s[j].0,
    ) by {
        assert(!lex_lt(s[j].0, s[i].0));
        lemma_lex_lt_total(s[i].0, s[j].0);
        if s[i].0 == s[j].0 {
            assert(e.contains(s[i]));
            assert(e.contains(s[j]));
            let a = choose|a: int| 0 <= a < e.len() && e[a] == s[i];
            let b = choose|b: int| 0 <= b < e.len() && e[b] == s[j];
            if a < b {
                assert(e[a].0 != e[b].0);
            } else if b < a {
                assert(e[b].0 != e[a].0);
            }
        }
    }
}

proof fn lemma_increasing_unique(a: Seq<(Seq<u8>, Seq<u8>)>, b: Seq<(Seq<u8>, Seq<u8>)>)
    requires
        keys_increasing(a),
        keys_increasing(b),
        forall|x| a.contains(x) <==> b.contains(x),
    ensures
        a == b,
    decreases a.len(),
{
    if a.len() == 0 {
        if b.len() > 0 {
            assert(b.contains(b[0]));
        }
        assert(a =~= b);
    } else {
        assert(a.contains(a[0]));
        assert(b.len() > 0);
        assert(b.contains(b[0]));
        let j = choose|j: int| 0 <= j < b.len() && b[j] == a[0];
        let i = choose|i: int| 0 <= i < a.len() && a[i] == b[0];
        if j > 0 {
            assert(lex_lt(b[0].0, b[j].0));
            if i == 0 {
                lemma_lex_lt_total(a[0].0, a[0].0);
            } else {
                assert(lex_lt(a[0].0, a[i].0));
                lemma_lex_lt_transitive(a[0].0, b[0].0, a[0].0);
                lemma_lex_lt_total(a[0].0, a[0].0);
            }
        }
        assert(a[0] == b[0]);
        let a1 = a.drop_first();
        let b1 = b.drop_first();
        assert forall|x| a1.contains(x) <==> b1.contains(x) by {
            if a1.contains(x) {
                let k = choose|k: int| 0 <= k < a1.len() && a1[k] == x;
                assert(lex_lt(a[0].0, a[k + 1].0));
                lemma_lex_lt_total(x.0, x.0);
                assert(b.contains(x));
                let m = choose|m: int| 0 <= m < b.len() && b[m] == x;
                assert(m != 0);
                assert(b1[m - 1] == x);
            }
            if b1.contains(x) {
                let k = choose|k: int| 0 <= k < b1.len() && b1[k] == x;
                assert(lex_lt(b[0].0, b[k + 1].0));
                lemma_lex_lt_total(x.0, x.0);
                assert(a.contains(x));
                let m = choose|m: int| 0 <= m < a.len() && a[m] == x;
                assert(m != 0);
                assert(a1[m - 1] == x);
            }
        }
        lemma_increasing_unique(a1, b1);
        assert(a =~= seq![a[0]] + a1);
        assert(b =~= seq![b[0]] + b1);
    }
}

/// Two maps with the same entries, whatever order they were given in, are
/// written in the same order, and so as the same bytes.
pub proof fn lemma_map_order_unique(
    e1: Seq<(Seq<u8>, Seq<u8>)>,
    e2: Seq<(Seq<u8>, Seq<u8>)>,
    s1: Seq<(Seq<u8>, Seq<u8>)>,
    s2: Seq<(Seq<u8>, Seq<u8>)>,
)
    requires
        keys_distinct(e1),
        keys_distinct(e2),
        forall|x| e1.contains(x) <==> e2.contains(x),
        canonical_order(s1, e1),
        canonical_order(s2, e2),
    ensures
        s1 == s2,
        uleb_encode(e1.len()) + flatten_entries(s1) == uleb_encode(e2.len()) + flatten_entries(s2),
{
    lemma_canonical_order_increasing(s1, e1);
    lemma_canonical_order_increasing(s2, e2);
    lemma_increasing_unique(s1, s2);
}

/// Whether `a` comes strictly before `b`.
pub fn lex_less(a: &[u8], b: &[u8]) -> (r: bool)
    ensures
        r == lex_lt(a@, b@),
{
    let mut i: usize = 0;
    assert(a@.skip(0) =~= a@);
    assert(b@.skip(0) =~= b@);
    while i < a.len() && i < b.len()
        invariant
            i <= a@.len(),
            i <= b@.len(),
            lex_lt(a@, b@) == lex_lt(a@.skip(i as int), b@.skip(i as int)),
        decreases a@.len() - i,
    {
        if a[i] != b[i] {
            return a[i] < b[i];
        }
        assert(a@.skip(i as int).drop_first() =~= a@.skip(i + 1));
        assert(b@.skip(i as int).drop_first() =~= b@.skip(i + 1));
        i = i + 1;
    }
    i < b.len()
}

/// An encoder into an in-memory buffer, with its nesting and length bounds.
pub struct Serializer {
    output: Vec<u8>,
    depth: usize,
    max_depth: usize,
    max_len: u32,
}

impl Serializer {
    /// The bytes written so far.
    pub closed spec fn bytes(&self) -> Seq<u8> {
        self.output@
    }

    /// How many containers are open.
    pub closed spec fn depth(&self) -> nat {
        self.depth as nat
    }

    pub closed spec fn max_depth(&self) -> nat {
        self.max_depth as nat
    }

    pub closed spec fn max_len(&self) -> nat {
        self.max_len as nat
    }

    /// A fresh encoder; lengths travel as 32-bit numbers, which bounds `max_len`.
    pub fn new(max_depth: usize, max_len: usize) -> (r: Self)
        requires
            max_len <= u32::MAX,
        ensures
            r.bytes() == Seq::<u8>::empty(),
            r.depth() == 0,
            r.max_depth() == max_depth,
            r.max_len() == max_len,
    {
        Serializer { output: Vec::new(), depth: 0, max_depth, max_len: max_len as u32 }
    }

    /// A fresh encoder with the default bounds.
    pub fn with_default_limits() -> (r: Self)
        ensures
            r.bytes() == Seq::<u8>::empty(),
            r.depth() == 0,
            r.max_depth() == MAX_CONTAINER_DEPTH,
            r.max_len() == MAX_SEQUENCE_LENGTH,
    {
        Self::new(MAX_CONTAINER_DEPTH, MAX_SEQUENCE_LENGTH)
    }

    /// The encoding written so far.
    pub fn into_bytes(self) -> (r: Vec<u8>)
        ensures
            r@ == self.bytes(),
    {
        self.output
    }

    /// Hands the encoding written so far to a byte sink.
    pub fn write_to<W: crate::io::Write>(self, sink: &mut W) -> (r: crate::io::Result<()>)
        ensures
            r is Ok ==> final(sink).written() == old(sink).written() + self.bytes(),
            old(sink).reliable() ==> r is Ok,
    {
        sink.write_all(self.output.as_slice())
    }

    fn push_bytes(&mut self, b: &[u8])
        ensures
            final(self).bytes() == old(self).bytes() + b@,
            final(self).depth() == old(self).depth(),
            final(self).max_depth() == old(self).max_depth(),
            final(self).max_len() == old(self).max_len(),
    {
        let mut i: usize = 0;
        while i < b.len()
            invariant
                i <= b@.len(),
                self.output@ == old(self).output@ + b@.subrange(0, i as int),
                self.depth == old(self).depth,
                self.max_depth == old(self).max_depth,
                self.max_len == old(self).max_len,
            decreases b@.len() - i,
        {
            self.output.push(b[i]);
            assert(b@.subrange(0, i + 1) =~= b@.subrange(0, i as int).push(b@[i as int]));
            i = i + 1;
        }
        assert(b@.subrange(0, i as int) =~= b@);
    }

    fn push_le(&mut self, v: u128, width: usize)
        ensures
            final(self).bytes() == old(self).bytes() + le_bytes(v as nat, width as nat),
            final(self).depth() == old(self).depth(),
            final(self).max_depth() == old(self).max_depth(),
            final(self).max_len() == old(self).max_len(),
    {
        let mut x: u128 = v;
        let mut i: usize = 0;
        while i < width
            invariant
                i <= width,
                old(self).output@ + le_bytes(v as nat, width as nat) == self.output@ + le_bytes(
                    x as nat,
                    (width - i) as nat,
                ),
                self.depth == old(self).depth,
                self.max_depth == old(self).max_depth,
                self.max_len == old(self).max_len,
            decreases width - i,
        {
            let ghost before = self.output@;
            self.output.push((x % 256) as u8);
            assert(before + le_bytes(x as nat, (width - i) as nat) =~= self.output@ + le_bytes(
                (x / 256) as nat,
                (width - i - 1) as nat,
            ));
            x = x / 256;
            i = i + 1;
        }
        assert(self.output@ + le_bytes(x as nat, 0) =~= self.output@);
    }

    /// One byte: `1` for true, `0` for false.
    pub fn serialize_bool(&mut self, v: bool)
        ensures
            final(self).bytes() == old(self).bytes() + seq![if v { 1u8 } else { 0u8 }],
            final(self).depth() == old(self).depth(),
    {
        self.output.push(if v { 1u8 } else { 0u8 });
    }

    pub fn serialize_u8(&mut self, v: u8)
        ensures
            final(self).bytes() == old(self).bytes() + le_bytes(v as nat, 1),
            final(self).depth() == old(self).depth(),
    {
        self.push_le(v as u128, 1);
    }

    pub fn serialize_u16(&mut self, v: u16)
        ensures
            final(self).bytes() == old(self).bytes() + le_bytes(v as nat, 2),
            final(self).depth() == old(self).depth(),
    {
        self.push_le(v as u128, 2);
    }

    pub fn serialize_u32(&mut self, v: u32)
        ensures
            final(self).bytes() == old(self).bytes() + le_bytes(v as nat, 4),
            final(self).depth() == old(self).depth(),
    {
        self.push_le(v as u128, 4);
    }

    pub fn serialize_u64(&mut self, v: u64)
        ensures
            final(self).bytes() == old(self).bytes() + le_bytes(v as nat, 8),
            final(self).depth() == old(self).depth(),
    {
        self.push_le(v as u128, 8);
    }

    pub fn serialize_u128(&mut self, v: u128)
        ensures
            final(self).bytes() == old(self).bytes() + le_bytes(v as nat, 16),
            final(self).depth() == old(self).depth(),
    {
        self.push_le(v, 16);
    }

    pub fn serialize_i8(&mut self, v: i8)
        ensures
            final(self).bytes() == old(self).bytes() + le_bytes(twos(v as int, 1), 1),
            final(self).depth() == old(self).depth(),
    {
        proof {
            reveal_with_fuel(pow256, 2);
        }
        let u: u128 = if v < 0 { (v as i16 + 256) as u128 } else { v as u128 };
        self.push_le(u, 1);
    }

    pub fn serialize_i16(&mut self, v: i16)
        ensures
            final(self).bytes() == old(self).bytes() + le_bytes(twos(v as int, 2), 2),
            final(self).depth() == old(self).depth(),
    {
        proof {
            reveal_with_fuel(pow256, 3);
        }
        let u: u128 = if v < 0 { (v as i32 + 0x1_0000) as u128 } else { v as u128 };
        self.push_le(u, 2);
    }

    pub fn serialize_i32(&mut self, v: i32)
        ensures
            final(self).bytes() == old(self).bytes() + le_bytes(twos(v as int, 4), 4),
            final(self).depth() == old(self).depth(),
    {
        proof {
            reveal_with_fuel(pow256, 5);
        }
        let u: u128 = if v < 0 { (v as i64 + 0x1_0000_0000) as u128 } else { v as u128 };
        self.push_le(u, 4);
    }

    pub fn serialize_i64(&mut self, v: i64)
        ensures
            final(self).bytes() == old(self).bytes() + le_bytes(twos(v as int, 8), 8),
            final(self).depth() == old(self).depth(),
    {
        proof {
            reveal_with_fuel(pow256, 9);
        }
        let u: u128 = if v < 0 { (v as i128 + 0x1_0000_0000_0000_0000) as u128 } else { v as u128 };
        self.push_le(u, 8);
    }

    pub fn serialize_i128(&mut self, v: i128)
        ensures
            final(self).bytes() == old(self).bytes() + le_bytes(twos(v as int, 16), 16),
            final(self).depth() == old(self).depth(),
    {
        proof {
            reveal_with_fuel(pow256, 17);
        }
        let u: u128 = if v < 0 { u128::MAX - (-(v + 1)) as u128 } else { v as u128 };
        self.push_le(u, 16);
    }

    /// A length prefix, refused above the configured bound.
    pub fn serialize_len(&mut self, len: usize) -> (r: Result<(), Error>)
        ensures
            final(self).depth() == old(self).depth(),
            final(self).max_depth() == old(self).max_depth(),
            final(self).max_len() == old(self).max_len(),
            len > old(self).max_len() ==> r == Err::<(), Error>(
                Error::ExceededMaxLen(old(self).max_len() as usize),
            ) && final(self).bytes() == old(self).bytes(),
            len <= old(self).max_len() ==> r is Ok && final(self).bytes() == old(self).bytes()
                + uleb_encode(len as nat),
    {
        if len > self.max_len as usize {
            return Err(Error::ExceededMaxLen(self.max_len as usize));
        }
        encode_uleb128(len as u32, &mut self.output);
        Ok(())
    }

    /// A raw byte string: its length, then the bytes.
    pub fn serialize_bytes(&mut self, v: &[u8]) -> (r: Result<(), Error>)
        ensures
            final(self).depth() == old(self).depth(),
            final(self).max_depth() == old(self).max_depth(),
            final(self).max_len() == old(self).max_len(),
            v@.len() > old(self).max_len() ==> r == Err::<(), Error>(
                Error::ExceededMaxLen(old(self).max_len() as usize),
            ) && final(self).bytes() == old(self).bytes(),
            v@.len() <= old(self).max_len() ==> r is Ok && final(self).bytes() == old(self).bytes()
                + prefixed(v@),
    {
        match self.serialize_len(v.len()) {
            Ok(()) => {},
            Err(e) => {
                return Err(e);
            },
        }
        self.push_bytes(v);
        assert(old(self).bytes() + uleb_encode(v@.len()) + v@ =~= old(self).bytes() + prefixed(v@));
        Ok(())
    }

    /// A string: the length of its UTF-8 form, then that form.
    pub fn serialize_str(&mut self, v: &str) -> (r: Result<(), Error>)
        ensures
            final(self).depth() == old(self).depth(),
            final(self).max_depth() == old(self).max_depth(),
            final(self).max_len() == old(self).max_len(),
            v.spec_bytes().len() > old(self).max_len() ==> r == Err::<(), Error>(
                Error::ExceededMaxLen(old(self).max_len() as usize),
            ) && final(self).bytes() == old(self).bytes(),
            v.spec_bytes().len() <= old(self).max_len() ==> r is Ok && final(self).bytes() == old(
                self,
            ).bytes() + prefixed(v.spec_bytes()),
    {
        self.serialize_bytes(v.as_bytes())
    }

    /// The presence byte of an option: `1` when a value follows, `0` when not.
    pub fn serialize_option_tag(&mut self, present: bool)
        ensures
            final(self).bytes() == old(self).bytes() + seq![if present { 1u8 } else { 0u8 }],
            final(self).depth() == old(self).depth(),
    {
        self.serialize_bool(present);
    }

    /// The index of an enum variant, ahead of its payload.
    pub fn serialize_variant_index(&mut self, index: u32)
        ensures
            final(self).bytes() == old(self).bytes() + uleb_encode(index as nat),
            final(self).depth() == old(self).depth(),
    {
        encode_uleb128(index, &mut self.output);
    }

    /// Opens a container of the named kind, refused when the nesting bound is
    /// reached.
    pub fn enter_container(&mut self, kind: &'static str) -> (r: Result<(), Error>)
        ensures
            final(self).bytes() == old(self).bytes(),
            final(self).max_depth() == old(self).max_depth(),
            final(self).max_len() == old(self).max_len(),
            old(self).depth() >= old(self).max_depth() ==> r == Err::<(), Error>(
                Error::ExceededContainerDepthLimit(kind),
            ) && final(self).depth() == old(self).depth(),
            old(self).depth() < old(self).max_depth() ==> r is Ok && final(self).depth() == old(
                self,
            ).depth() + 1,
    {
        if self.depth >= self.max_depth {
            return Err(Error::ExceededContainerDepthLimit(kind));
        }
        self.depth = self.depth + 1;
        Ok(())
    }

    /// Closes the innermost open container.
    pub fn leave_container(&mut self)
        requires
            old(self).depth() > 0,
        ensures
            final(self).bytes() == old(self).bytes(),
            final(self).max_depth() == old(self).max_depth(),
            final(self).max_len() == old(self).max_len(),
            final(self).depth() == old(self).depth() - 1,
    {
        self.depth = self.depth - 1;
    }

    /// A map, from its entries already encoded: the count, then the entries in
    /// increasing order of their key bytes.
    pub fn serialize_map(&mut self, entries: Vec<(Vec<u8>, Vec<u8>)>) -> (r: Result<(), Error>)
        ensures
            final(self).depth() == old(self).depth(),
            final(self).max_depth() == old(self).max_depth(),
            final(self).max_len() == old(self).max_len(),
            entries@.len() > old(self).max_len() ==> r == Err::<(), Error>(
                Error::ExceededMaxLen(old(self).max_len() as usize),
            ) && final(self).bytes() == old(self).bytes(),
            entries@.len() <= old(self).max_len() ==> r is Ok && exists|sorted|
                #![trigger canonical_order(sorted, entries_view(entries@))]
                canonical_order(sorted, entries_view(entries@)) && final(self).bytes() == old(
                    self,
                ).bytes() + uleb_encode(entries@.len()) + flatten_entries(sorted),
    {
        match self.serialize_len(entries.len()) {
            Ok(()) => {},
            Err(e) => {
                return Err(e);
            },
        }
        let ghost given = entries@;
        let sorted = sort_entries(entries);
        let ghost before = self.output@;
        let mut i: usize = 0;
        while i < sorted.len()
            invariant
                i <= sorted@.len(),
                self.output@ == before + flatten_entries(entries_view(sorted@).take(i as int)),
                self.depth == old(self).depth,
                self.max_depth == old(self).max_depth,
                self.max_len == old(self).max_len,
            decreases sorted@.len() - i,
        {
            self.push_bytes(sorted[i].0.as_slice());
            self.push_bytes(sorted[i].1.as_slice());
            assert(entries_view(sorted@).take(i + 1).drop_last() =~= entries_view(sorted@).take(
                i as int,
            ));
            i = i + 1;
        }
        assert(entries_view(sorted@).take(i as int) =~= entries_view(sorted@));
        assert(canonical_order(entries_view(sorted@), entries_view(given)));
        assert(entries_view(given).len() == given.len());
        Ok(())
    }
}

/// The entries reordered by increasing key bytes.
fn sort_entries(entries: Vec<(Vec<u8>, Vec<u8>)>) -> (r: Vec<(Vec<u8>, Vec<u8>)>)
    ensures
        r@.len() == entries@.len(),
        canonical_order(entries_view(r@), entries_view(entries@)),
{
    broadcast use vstd::seq_lib::group_to_multiset_ensures, vstd::seq_lib::to_multiset_insert;
    broadcast use vstd::multiset::group_multiset_axioms;

    let ghost orig = entries_view(entries@);
    let mut rest = entries;
    let mut sorted: Vec<(Vec<u8>, Vec<u8>)> = Vec::new();
    proof {
        let empty = entries_view(sorted@);
        assert(empty.to_multiset().len() == 0);
        assert(empty.to_multiset() =~= vstd::multiset::Multiset::empty()) by {
            assert forall|x| empty.to_multiset().count(x) == 0 by {
                assert(!empty.contains(x));
            }
        }
        assert(entries_view(rest@) =~= orig);
        assert(empty.to_multiset().add(orig.to_multiset()) =~= orig.to_multiset());
    }
    while rest.len() > 0
        invariant
            sorted@.len() + rest@.len() == orig.len(),
            keys_sorted(entries_view(sorted@)),
            entries_view(sorted@).to_multiset().add(entries_view(rest@).to_multiset())
                == orig.to_multiset(),
        decreases rest@.len(),
    {
        let ghost rest_before = entries_view(rest@);
        let ghost sorted_before = entries_view(sorted@);
        let e = rest.pop().unwrap();
        assert(rest_before =~= entries_view(rest@).push((e.0@, e.1@)));
        let mut k: usize = 0;
        while k < sorted.len() && !lex_less(e.0.as_slice(), sorted[k].0.as_slice())
            invariant
                k <= sorted@.len(),
                sorted_before == entries_view(sorted@),
                forall|j: int| 0 <= j < k ==> !lex_lt(e.0@, #[trigger] sorted@[j].0@),
            decreases sorted@.len() - k,
        {
            k = k + 1;
        }
        sorted.insert(k, e);
        let ghost now = entries_view(sorted@);
        assert(now =~= sorted_before.insert(k as int, (e.0@, e.1@)));
        assert forall|i: int, j: int| 0 <= i < j < now.len() implies !lex_lt(
            #[trigger] now[j].0,
            #[trigger] now[i].0,
        ) by {
            if j == k {
                assert(now[i] == sorted_before[i]);
            } else if i == k {
                assert(now[j] == sorted_before[j - 1]);
                if j - 1 > k {
                    assert(!lex_lt(sorted_before[j - 1].0, sorted_before[k as int].0));
                }
                assert(lex_lt(e.0@, sorted_before[k as int].0));
                lemma_lex_lt_total(sorted_before[j - 1].0, sorted_before[k as int].0);
                if lex_lt(now[j].0, e.0@) {
                    lemma_lex_lt_transitive(now[j].0, e.0@, sorted_before[k as int].0);
                }
            } else {
                let i0 = if i < k { i } else { i - 1 };
                let j0 = if j < k { j } else { j - 1 };
                assert(now[i] == sorted_before[i0]);
                assert(now[j] == sorted_before[j0]);
            }
        }
        proof {
            let ev = (e.0@, e.1@);
            let ra = entries_view(rest@);
            vstd::seq_lib::to_multiset_insert(sorted_before, k as int, ev);
            assert(now.to_multiset() == sorted_before.to_multiset().insert(ev));
            assert(rest_before =~= ra.push(ev));
            vstd::seq_lib::to_multiset_build(ra, ev);
            assert(rest_before.to_multiset() == ra.to_multiset().insert(ev));
            assert(now.to_multiset().add(ra.to_multiset()) =~= sorted_before.to_multiset().add(
                rest_before.to_multiset(),
            ));
        }
    }
    proof {
        let empty = entries_view(rest@);
        assert(empty.to_multiset() =~= vstd::multiset::Multiset::empty()) by {
            assert forall|x| empty.to_multiset().count(x) == 0 by {
                assert(!empty.contains(x));
            }
        }
        assert(entries_view(sorted@).to_multiset() =~= orig.to_multiset());
    }
    sorted
}

} // verus!
