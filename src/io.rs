//! Byte sinks and byte sources with full-transfer helpers.
use vstd::prelude::*;
use vstd::string::StringExecFns;

verus! {

/// What went wrong at the byte-transport layer.
#[derive(Clone, Copy, Debug, PartialEq, Eq, Structural)]
pub enum ErrorKind {
    UnexpectedEof,
    WriteZero,
    Other,
}

/// The name of a failure kind, as it appears in descriptions.
pub open spec fn kind_name(kind: ErrorKind) -> Seq<char> {
    match kind {
        ErrorKind::UnexpectedEof => "UnexpectedEof"@,
        ErrorKind::WriteZero => "WriteZero"@,
        ErrorKind::Other => "Other"@,
    }
}

/// The description of a transport failure: `IO Error <kind>: <message>`.
pub open spec fn describe(kind: ErrorKind, message: Seq<char>) -> Seq<char> {
    "IO Error "@ + kind_name(kind) + ": "@ + message
}

/// A transport failure: its kind and a message.
#[derive(Clone, Debug, PartialEq, Eq)]
pub struct Error {
    kind: ErrorKind,
    message: String,
}

impl Error {
    pub closed spec fn spec_kind(&self) -> ErrorKind {
        self.kind
    }

    pub closed spec fn spec_message(&self) -> Seq<char> {
        self.message@
    }

    pub fn new(kind: ErrorKind, message: &str) -> (r: Self)
        ensures
            r.spec_kind() == kind,
            r.spec_message() == message@,
    {
        Error { kind, message: message.to_string() }
    }

    pub fn kind(&self) -> (r: ErrorKind)
        ensures
            r == self.spec_kind(),
    {
        self.kind
    }

    /// The description of this failure.
    pub fn to_string(&self) -> (r: String)
        ensures
            r@ == describe(self.spec_kind(), self.spec_message()),
    {
        let mut r = String::from_str("IO Error ");
        let name = match self.kind {
            ErrorKind::UnexpectedEof => "UnexpectedEof",
            ErrorKind::WriteZero => "WriteZero",
            ErrorKind::Other => "Other",
        };
        r.append(name);
        r.append(": ");
        r.append(self.message.as_str());
        proof {
            reveal_strlit("IO Error ");
            reveal_strlit("UnexpectedEof");
            reveal_strlit("WriteZero");
            reveal_strlit("Other");
            reveal_strlit(": ");
        }
        r
    }

    pub fn message(&self) -> (r: &str)
        ensures
            r@ == self.spec_message(),
    {
        self.message.as_str()
    }
}

pub type Result<T> = core::result::Result<T, Error>;

/// A destination of bytes. `written` is everything accepted so far.
pub trait Write {
    spec fn written(&self) -> Seq<u8>;

    /// Whether `write` always accepts the whole buffer.
    spec fn reliable(&self) -> bool;

    /// Accepts a prefix of `buf` and says how long it was.
    fn write(&mut self, buf: &[u8]) -> (r: Result<usize>)
        ensures
            r matches Ok(n) ==> n <= buf@.len() && final(self).written() == old(self).written()
                + buf@.subrange(0, n as int),
            r is Err ==> final(self).written() == old(self).written(),
            final(self).reliable() == old(self).reliable(),
            old(self).reliable() ==> r == Ok::<usize, Error>(buf@.len() as usize),
    ;

    fn flush(&mut self) -> (r: Result<()>)
        ensures
            final(self).written() == old(self).written(),
            final(self).reliable() == old(self).reliable(),
            old(self).reliable() ==> r is Ok,
    ;

    /// Writes the whole of `buf`, or fails with `WriteZero` when the sink stalls.
    fn write_all(&mut self, buf: &[u8]) -> (r: Result<()>)
        ensures
            r is Ok ==> final(self).written() == old(self).written() + buf@,
            final(self).reliable() == old(self).reliable(),
            old(self).reliable() ==> r is Ok,
            buf@.len() == 0 ==> r is Ok && final(self).written() == old(self).written(),
    {
        let mut start: usize = 0;
        while start < buf.len()
            invariant
                start <= buf@.len(),
                self.written() == old(self).written() + buf@.subrange(0, start as int),
                self.reliable() == old(self).reliable(),
            decreases buf@.len() - start,
        {
            let (_, rest) = buf.split_at(start);
            match self.write(rest) {
                Ok(0) => {
                    return Err(Error::new(ErrorKind::WriteZero, "failed to write whole buffer"));
                },
                Ok(n) => {
                    assert(buf@.subrange(0, start + n) =~= buf@.subrange(0, start as int)
                        + rest@.subrange(0, n as int));
                    start = start + n;
                },
                Err(e) => {
                    return Err(e);
                },
            }
        }
        assert(buf@.subrange(0, start as int) =~= buf@);
        Ok(())
    }
}

impl Write for Vec<u8> {
    open spec fn written(&self) -> Seq<u8> {
        self@
    }

    open spec fn reliable(&self) -> bool {
        true
    }

    fn write(&mut self, buf: &[u8]) -> (r: Result<usize>) {
        let mut i: usize = 0;
        while i < buf.len()
            invariant
                i <= buf@.len(),
                self@ == old(self)@ + buf@.subrange(0, i as int),
            decreases buf@.len() - i,
        {
            self.push(buf[i]);
            assert(buf@.subrange(0, i + 1) =~= buf@.subrange(0, i as int) + seq![buf@[i as int]]);
            i = i + 1;
        }
        Ok(buf.len())
    }

    fn flush(&mut self) -> (r: Result<()>) {
        Ok(())
    }
}

/// A source of bytes. `pending` is everything it has yet to hand out.
pub trait Read {
    spec fn pending(&self) -> Seq<u8>;

    /// Whether `read` always succeeds on this source.
    spec fn reliable(&self) -> bool;

    /// Fills a prefix of `buf` with the next pending bytes and says how long it
    /// was; zero only when `buf` is empty or nothing is pending.
    fn read(&mut self, buf: &mut [u8]) -> (r: Result<usize>)
        ensures
            final(buf)@.len() == old(buf)@.len(),
            final(self).reliable() == old(self).reliable(),
            old(self).reliable() ==> r is Ok,
            r matches Ok(n) ==> {
                &&& n <= old(buf)@.len()
                &&& n <= old(self).pending().len()
                &&& final(buf)@ == old(self).pending().subrange(0, n as int) + old(buf)@.subrange(
                    n as int,
                    old(buf)@.len() as int,
                )
                &&& final(self).pending() == old(self).pending().subrange(
                    n as int,
                    old(self).pending().len() as int,
                )
                &&& (n == 0 ==> old(buf)@.len() == 0 || old(self).pending().len() == 0)
            },
    ;

    /// Fills the whole of `buf`, or fails with `UnexpectedEof` when the source
    /// runs dry first.
    fn read_exact(&mut self, buf: &mut [u8]) -> (r: Result<()>)
        ensures
            final(buf)@.len() == old(buf)@.len(),
            r is Ok ==> {
                &&& old(buf)@.len() <= old(self).pending().len()
                &&& final(buf)@ == old(self).pending().subrange(0, old(buf)@.len() as int)
                &&& final(self).pending() == old(self).pending().subrange(
                    old(buf)@.len() as int,
                    old(self).pending().len() as int,
                )
            },
            final(self).reliable() == old(self).reliable(),
            old(self).pending().len() < old(buf)@.len() ==> r is Err,
            old(self).reliable() ==> (r is Ok <==> old(buf)@.len() <= old(self).pending().len()),
            old(buf)@.len() == 0 ==> r is Ok,
            old(self).reliable() && r is Err ==> {
                &&& r->Err_0.spec_kind() == ErrorKind::UnexpectedEof
                &&& r->Err_0.spec_message() == "failed to fill whole buffer"@
                &&& final(buf)@ == old(self).pending() + old(buf)@.subrange(
                    old(self).pending().len() as int,
                    old(buf)@.len() as int,
                )
                &&& final(self).pending().len() == 0
            },
    {
        let ghost start_pending = self.pending();
        let mut filled: usize = 0;
        while filled < buf.len()
            invariant
                filled <= buf@.len(),
                buf@.len() == old(buf)@.len(),
                filled <= start_pending.len(),
                buf@.subrange(0, filled as int) == start_pending.subrange(0, filled as int),
                buf@.subrange(filled as int, buf@.len() as int) == old(buf)@.subrange(
                    filled as int,
                    old(buf)@.len() as int,
                ),
                self.pending() == start_pending.subrange(filled as int, start_pending.len() as int),
                self.reliable() == old(self).reliable(),
                start_pending == old(self).pending(),
            decreases buf@.len() - filled,
        {
            let ghost before = buf@;
            let res = {
                let (head, rest) = buf.split_at_mut(filled);
                let res = self.read(rest);
                proof {
                    assert(has_resolved(head));
                }
                res
            };
            let n = match res {
                Ok(n) => n,
                Err(e) => {
                    return Err(e);
                },
            };
            assert(buf@.subrange(0, filled as int) =~= before.subrange(0, filled as int));
            assert(buf@.subrange(filled + n, buf@.len() as int) =~= before.subrange(
                filled + n,
                before.len() as int,
            ));
            assert(buf@.subrange(filled + n, buf@.len() as int) =~= old(buf)@.subrange(
                filled + n,
                old(buf)@.len() as int,
            ));
            if n == 0 {
                assert(start_pending.len() == filled);
                assert(buf@.len() == old(buf)@.len());
                assert(filled < old(buf)@.len());
                assert(buf@ =~= start_pending + old(buf)@.subrange(
                    start_pending.len() as int,
                    old(buf)@.len() as int,
                ));
                return Err(Error::new(ErrorKind::UnexpectedEof, "failed to fill whole buffer"));
            }
            assert(buf@.subrange(0, filled + n) =~= start_pending.subrange(0, filled + n));
            assert(self.pending() =~= start_pending.subrange(filled + n, start_pending.len() as int));
            filled = filled + n;
        }
        assert(buf@ =~= start_pending.subrange(0, buf@.len() as int));
        Ok(())
    }
}

/// The smaller of two lengths.
pub open spec fn min_len(a: nat, b: nat) -> nat {
    if a < b {
        a
    } else {
        b
    }
}

/// An in-memory source: a buffer and a read position that never passes its end.
pub struct Cursor {
    data: Vec<u8>,
    pos: usize,
}

impl Cursor {
    #[verifier::type_invariant]
    spec fn wf(&self) -> bool {
        self.pos <= self.data@.len()
    }

    pub closed spec fn data(&self) -> Seq<u8> {
        self.data@
    }

    pub closed spec fn consumed(&self) -> nat {
        self.pos as nat
    }

    pub fn new(data: Vec<u8>) -> (r: Self)
        ensures
            r.data() == data@,
            r.consumed() == 0,
            r.pending() == data@,
    {
        let r = Cursor { data, pos: 0 };
        assert(r.pending() =~= data@);
        r
    }

    /// A cursor over `data` that has already consumed `pos` bytes.
    pub fn at(data: Vec<u8>, pos: usize) -> (r: Self)
        requires
            pos <= data@.len(),
        ensures
            r.data() == data@,
            r.consumed() == pos,
    {
        Cursor { data, pos }
    }

    /// The buffer and how much of it has been consumed.
    pub fn into_parts(self) -> (r: (Vec<u8>, usize))
        ensures
            r.0@ == self.data(),
            r.1 == self.consumed(),
            r.1 <= r.0@.len(),
    {
        proof {
            use_type_invariant(&self);
        }
        (self.data, self.pos)
    }

    /// How many bytes have been consumed.
    pub fn position(&self) -> (r: usize)
        ensures
            r == self.consumed(),
            r <= self.data().len(),
    {
        proof {
            use_type_invariant(self);
        }
        self.pos
    }
}

impl Read for Cursor {
    open spec fn pending(&self) -> Seq<u8> {
        self.data().subrange(self.consumed() as int, self.data().len() as int)
    }

    open spec fn reliable(&self) -> bool {
        true
    }

    fn read_exact(&mut self, buf: &mut [u8]) -> (r: Result<()>)
        ensures
            final(self).data() == old(self).data(),
            r is Ok ==> final(self).consumed() == old(self).consumed() + old(buf)@.len(),
            r is Err ==> final(self).consumed() == old(self).data().len(),
    {
        proof {
            use_type_invariant(&*self);
        }
        let len = buf.len();
        let n = match self.read(buf) {
            Ok(n) => n,
            Err(e) => {
                return Err(e);
            },
        };
        if n < len {
            assert(buf@ =~= old(self).pending() + old(buf)@.subrange(
                old(self).pending().len() as int,
                old(buf)@.len() as int,
            ));
            Err(Error::new(ErrorKind::UnexpectedEof, "failed to fill whole buffer"))
        } else {
            Ok(())
        }
    }

    fn read(&mut self, buf: &mut [u8]) -> (r: Result<usize>)
        ensures
            final(self).data() == old(self).data(),
            r == Ok::<usize, Error>(min_len(old(buf)@.len(), old(self).pending().len()) as usize),
            final(self).consumed() == old(self).consumed() + min_len(
                old(buf)@.len(),
                old(self).pending().len(),
            ),
    {
        proof {
            use_type_invariant(&*self);
        }
        let remaining = self.data.len() - self.pos;
        let n = if buf.len() < remaining { buf.len() } else { remaining };
        let start = self.pos;
        let mut i: usize = 0;
        while i < n
            invariant
                i <= n,
                n <= buf@.len(),
                start == self.pos,
                start + n <= self.data@.len(),
                self.data@.len() <= usize::MAX,
                self == old(self),
                buf@.len() == old(buf)@.len(),
                buf@ == self.data@.subrange(self.pos as int, self.pos + i) + old(buf)@.subrange(
                    i as int,
                    old(buf)@.len() as int,
                ),
            decreases n - i,
        {
            let b = self.data[start + i];
            buf[i] = b;
            assert(self.data@.subrange(self.pos as int, self.pos + i + 1) =~= self.data@.subrange(
                self.pos as int,
                self.pos + i,
            ).push(self.data@[self.pos + i]));
            i = i + 1;
        }
        let ghost start = self.pos as int;
        self.pos = self.pos + n;
        assert(old(self).pending().subrange(0, n as int) =~= self.data@.subrange(start, start + n));
        assert(self.pending() =~= old(self).pending().subrange(n as int, old(self).pending().len() as int));
        Ok(n)
    }
}

} // verus!
