use vstd::prelude::*;

verus! {

/// Kind of failure reported by a byte source or stream.
#[derive(Clone, Copy, Debug, PartialEq, Eq, Structural)]
pub enum IoError {
    /// The data ended before the requested bytes could be read.
    UnexpectedEof,
    /// An offset computation left the addressable range, or an operation was
    /// attempted in a state that does not allow it.
    InvalidInput,
    /// The operation was cancelled.
    Interrupted,
    /// Any other failure of the underlying storage.
    Other,
}

/// Zero bytes.
pub open spec fn zeros(n: nat) -> Seq<u8> {
    Seq::new(n, |i: int| 0u8)
}

/// `s` with `b` written at offset `at`. Writing past the end first extends
/// `s` with zero bytes, as a sparse file would.
pub open spec fn write_bytes(s: Seq<u8>, at: int, b: Seq<u8>) -> Seq<u8> {
    let grown = if at + b.len() > s.len() {
        s + zeros((at + b.len() - s.len()) as nat)
    } else {
        s
    };
    grown.subrange(0, at) + b + grown.subrange(at + b.len(), grown.len() as int)
}


/// Byte `i` of `write_bytes(s, at, b)`.
pub proof fn lemma_write_bytes_index(s: Seq<u8>, at: int, b: Seq<u8>)
    requires
        0 <= at,
    ensures
        write_bytes(s, at, b).len() == if at + b.len() > s.len() {
            at + b.len()
        } else {
            s.len() as int
        },
        forall|i: int|
            0 <= i < write_bytes(s, at, b).len() ==> #[trigger] write_bytes(s, at, b)[i] == if at <= i
                < at + b.len() {
                b[i - at]
            } else if i < s.len() {
                s[i]
            } else {
                0u8
            },
{
}

/// Two writes back to back are one write of both.
pub proof fn lemma_write_bytes_append(s: Seq<u8>, at: int, a: Seq<u8>, b: Seq<u8>)
    requires
        0 <= at,
    ensures
        write_bytes(write_bytes(s, at, a), at + a.len(), b) == write_bytes(s, at, a + b),
{
    let w1 = write_bytes(s, at, a);
    lemma_write_bytes_index(s, at, a);
    lemma_write_bytes_index(w1, at + a.len(), b);
    lemma_write_bytes_index(s, at, a + b);
    assert(write_bytes(w1, at + a.len(), b) =~= write_bytes(s, at, a + b));
}

/// Where a seek is measured from.
#[derive(Clone, Copy, Debug, PartialEq, Eq)]
pub enum SeekFrom {
    Start(u64),
    End(i64),
    Current(i64),
}

/// The offset that a seek to `pos` reaches from offset `cur` in a stream of
/// `size` bytes, or `None` when it leaves the range of `u64`.
pub open spec fn seek_target(pos: SeekFrom, cur: u64, size: u64) -> Option<u64> {
    match pos {
        SeekFrom::Start(o) => Some(o),
        SeekFrom::End(o) => if 0 <= size + o <= u64::MAX {
            Some((size + o) as u64)
        } else {
            None
        },
        SeekFrom::Current(o) => if 0 <= cur + o <= u64::MAX {
            Some((cur + o) as u64)
        } else {
            None
        },
    }
}

fn add_signed(base: u64, delta: i64) -> (r: Option<u64>)
    ensures
        r == (if 0 <= base + delta <= u64::MAX {
            Some((base + delta) as u64)
        } else {
            None::<u64>
        }),
{
    if delta >= 0 {
        let d = delta as u64;
        if d > u64::MAX - base {
            None
        } else {
            Some(base + d)
        }
    } else {
        let d: u64 = if delta == i64::MIN {
            0x8000_0000_0000_0000
        } else {
            (-delta) as u64
        };
        if d > base {
            None
        } else {
            Some(base - d)
        }
    }
}

/// Resolve a seek request against the current offset and the stream size.
pub fn resolve_seek(pos: SeekFrom, cur: u64, size: u64) -> (r: Option<u64>)
    ensures
        r == seek_target(pos, cur, size),
{
    match pos {
        SeekFrom::Start(o) => Some(o),
        SeekFrom::End(o) => add_signed(size, o),
        SeekFrom::Current(o) => add_signed(cur, o),
    }
}

/// A seekable, readable byte source with fixed contents. [`JoinedFile`]
/// implements it; for other implementations, what the methods promise is
/// assumed.
///
/// [`JoinedFile`]: crate::file::JoinedFile
pub trait Source {
    /// The bytes the source holds.
    closed spec fn content(&self) -> Seq<u8> {
        Seq::empty()
    }

    /// The offset of the next read.
    closed spec fn position(&self) -> nat {
        0
    }

    /// Internal consistency of the source.
    closed spec fn inv(&self) -> bool {
        true
    }

    /// Whether every operation succeeds.
    closed spec fn total(&self) -> bool {
        false
    }

    /// Move to absolute offset `pos`.
    fn seek_to(&mut self, pos: u64) -> (r: Result<(), IoError>)
        requires
            old(self).inv(),
        ensures
            final(self).inv(),
            final(self).content() == old(self).content(),
            final(self).total() == old(self).total(),
            old(self).total() ==> r is Ok,
            r is Ok ==> final(self).position() == pos,
    ;

    /// Read at most `len` bytes at the current offset and move past them. A
    /// read may return fewer bytes than asked for, but at least one when
    /// `len > 0` and the offset is before the end.
    fn read(&mut self, len: usize) -> (r: Result<Vec<u8>, IoError>)
        requires
            old(self).inv(),
        ensures
            final(self).inv(),
            final(self).content() == old(self).content(),
            final(self).total() == old(self).total(),
            old(self).total() ==> r is Ok,
            r matches Ok(v) ==> {
                &&& v@.len() <= len
                &&& len > 0 && old(self).position() < old(self).content().len() ==> v@.len() > 0
                &&& v@.len() > 0 ==> old(self).position() + v@.len() <= old(self).content().len() && v@
                    == old(self).content().subrange(
                    old(self).position() as int,
                    (old(self).position() + v@.len()) as int,
                )
                &&& final(self).position() == old(self).position() + v@.len()
            },
    ;

    /// The total size of the source; the offset is reset to the start.
    fn size(&mut self) -> (r: Result<u64, IoError>)
        requires
            old(self).inv(),
        ensures
            final(self).inv(),
            final(self).content() == old(self).content(),
            final(self).total() == old(self).total(),
            old(self).total() ==> r is Ok,
            r matches Ok(n) ==> n == old(self).content().len() && final(self).position() == 0,
    ;
}

/// An ordered set of pieces (files) of which at most one is open at a time.
/// Callers implement it for their storage; what the methods promise is
/// assumed of those implementations.
pub trait Pieces {
    /// The bytes of piece `i`.
    closed spec fn piece(&self, i: int) -> Seq<u8> {
        Seq::empty()
    }

    /// The number of pieces.
    closed spec fn count(&self) -> nat {
        0
    }

    /// The piece that is open, if any.
    closed spec fn opened(&self) -> Option<int> {
        None
    }

    /// Whether every operation succeeds and reads before a piece's end
    /// return at least one byte.
    closed spec fn total(&self) -> bool {
        false
    }

    fn num_pieces(&self) -> (r: usize)
        ensures
            r == self.count(),
    ;

    /// The length of piece `i`, found without reading its contents.
    fn piece_len(&mut self, i: usize) -> (r: Result<u64, IoError>)
        requires
            i < old(self).count(),
        ensures
            final(self).count() == old(self).count(),
            forall|k: int| #[trigger] final(self).piece(k) == old(self).piece(k),
            final(self).opened() == old(self).opened(),
            final(self).total() == old(self).total(),
            old(self).total() ==> r is Ok,
            r matches Ok(n) ==> n == old(self).piece(i as int).len(),
    ;

    /// Open piece `i`, closing the piece that was open.
    fn open_piece(&mut self, i: usize) -> (r: Result<(), IoError>)
        requires
            i < old(self).count(),
        ensures
            final(self).count() == old(self).count(),
            forall|k: int| #[trigger] final(self).piece(k) == old(self).piece(k),
            final(self).total() == old(self).total(),
            old(self).total() ==> r is Ok,
            r is Ok ==> final(self).opened() == Some(i as int),
            r is Err ==> final(self).opened() is None,
    ;

    /// Read at most `len` bytes at `offset` of the open piece.
    fn read_opened(&mut self, offset: u64, len: usize) -> (r: Result<Vec<u8>, IoError>)
        requires
            old(self).opened() is Some,
        ensures
            final(self).count() == old(self).count(),
            forall|k: int| #[trigger] final(self).piece(k) == old(self).piece(k),
            final(self).opened() == old(self).opened(),
            final(self).total() == old(self).total(),
            old(self).total() ==> r is Ok,
            r matches Ok(v) ==> {
                let p = old(self).piece(old(self).opened().unwrap());
                &&& old(self).total() && len > 0 && offset < p.len() ==> v@.len() > 0
                &&& v@.len() <= len
                &&& offset + v@.len() <= p.len()
                &&& v@ == p.subrange(offset as int, offset + v@.len())
            },
    ;
}

/// A readable and writable byte stream addressed by absolute offsets.
pub trait RandomAccess {
    /// The logical contents of the stream.
    spec fn bytes(&self) -> Seq<u8>;

    /// Internal consistency of the stream.
    spec fn wf(&self) -> bool;

    /// Whether every read within the contents and every write succeeds.
    spec fn total(&self) -> bool;

    /// Read exactly `len` bytes starting at `offset`.
    fn read_exact_at(&mut self, offset: u64, len: usize) -> (r: Result<Vec<u8>, IoError>)
        requires
            old(self).wf(),
        ensures
            final(self).wf(),
            final(self).total() == old(self).total(),
            old(self).total() && offset + len <= old(self).bytes().len() ==> r is Ok,
            old(self).total() && offset + len > old(self).bytes().len() ==> r == Err::<Vec<u8>, IoError>(
                IoError::UnexpectedEof,
            ),
            final(self).bytes() == old(self).bytes(),
            r matches Ok(v) ==> offset + len <= old(self).bytes().len() && v@ == old(self).bytes().subrange(offset as int, offset + len),
    ;

    /// Write all of `data` starting at `offset`.
    fn write_all_at(&mut self, offset: u64, data: &[u8]) -> (r: Result<(), IoError>)
        requires
            old(self).wf(),
        ensures
            final(self).wf(),
            old(self).total() && offset + data@.len() <= old(self).bytes().len() ==> r is Ok && final(self).total(),
            r is Ok ==> final(self).bytes() == if data@.len() == 0 {
                old(self).bytes()
            } else {
                write_bytes(old(self).bytes(), offset as int, data@)
            },
    ;
}

/// A stream held in memory. Every read within its contents and every write
/// within them succeeds.
pub struct MemStream {
    pub data: Vec<u8>,
}

impl RandomAccess for MemStream {
    open spec fn bytes(&self) -> Seq<u8> {
        self.data@
    }

    open spec fn wf(&self) -> bool {
        true
    }

    open spec fn total(&self) -> bool {
        true
    }

    fn read_exact_at(&mut self, offset: u64, len: usize) -> (r: Result<Vec<u8>, IoError>) {
        let n = self.data.len();
        if offset > n as u64 || len > n - offset as usize {
            return Err(IoError::UnexpectedEof);
        }
        let start = offset as usize;
        let mut v: Vec<u8> = Vec::new();
        let mut k: usize = 0;
        while k < len
            invariant
                n == self.data@.len(),
                start + len <= n,
                k <= len,
                v@ == self.data@.subrange(start as int, start + k),
            decreases len - k,
        {
            v.push(self.data[start + k]);
            k += 1;
            assert(v@ =~= self.data@.subrange(start as int, start + k));
        }
        Ok(v)
    }

    fn write_all_at(&mut self, offset: u64, data: &[u8]) -> (r: Result<(), IoError>) {
        let n = self.data.len();
        if offset > n as u64 || data.len() > n - offset as usize {
            return Err(IoError::InvalidInput);
        }
        let start = offset as usize;
        let ghost old_data = self.data@;
        let mut k: usize = 0;
        while k < data.len()
            invariant
                n == self.data@.len(),
                start + data@.len() <= n,
                k <= data@.len(),
                forall|j: int|
                    0 <= j < n ==> #[trigger] self.data@[j] == if start <= j < start + k {
                        data@[j - start]
                    } else {
                        old_data[j]
                    },
            decreases data@.len() - k,
        {
            self.data.set(start + k, data[k]);
            k += 1;
        }
        proof {
            if data@.len() > 0 {
                assert(self.data@ =~= write_bytes(old_data, offset as int, data@));
            } else {
                assert(self.data@ =~= old_data);
            }
        }
        Ok(())
    }
}

} // verus!
