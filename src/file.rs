use std::collections::HashMap;
use std::ops::Range;
use vstd::arithmetic::div_mod::{lemma_fundamental_div_mod, lemma_mod_pos_bound};
use vstd::prelude::*;

use crate::io::{resolve_seek, IoError, Pieces, RandomAccess, SeekFrom, Source};

verus! {

/// Block `b` covers `[b * bs, b * bs + bs)`: every offset in it has block
/// index `b` and in-block offset `i - b * bs`.
proof fn lemma_in_block(i: int, b: int, bs: int)
    requires
        0 < bs,
        0 <= b,
        b * bs <= i < b * bs + bs,
    ensures
        i / bs == b,
        i % bs == i - b * bs,
{
    vstd::arithmetic::div_mod::lemma_fundamental_div_mod_converse(i, bs, b, i - b * bs);
}

/// Offsets in `[lo * bs, (hi + 1) * bs)` have block indices in `[lo, hi]`.
proof fn lemma_blocks_between(i: int, bs: int, lo: int, hi: int)
    requires
        0 < bs,
        0 <= lo,
        lo * bs <= i < (hi + 1) * bs,
    ensures
        lo <= i / bs <= hi,
{
    lemma_fundamental_div_mod(i, bs);
    lemma_mod_pos_bound(i, bs);
    let q = i / bs;
    let r = i % bs;
    assert(lo <= q) by (nonlinear_arith)
        requires
            i == bs * q + r,
            0 <= r < bs,
            lo * bs <= i,
            0 < bs,
    ;
    assert(q <= hi) by (nonlinear_arith)
        requires
            i == bs * q + r,
            0 <= r,
            i < (hi + 1) * bs,
            0 < bs,
    ;
}

/// Offset `i` lies in block `b` exactly when `b * bs <= i < b * bs + bs`.
proof fn lemma_block_of(i: int, b: int, bs: int)
    requires
        0 < bs,
        0 <= b,
        0 <= i,
    ensures
        (i / bs == b) <==> (b * bs <= i < b * bs + bs),
{
    lemma_fundamental_div_mod(i, bs);
    lemma_mod_pos_bound(i, bs);
    let q = i / bs;
    let r = i % bs;
    if q == b {
        assert(b * bs <= i < b * bs + bs) by (nonlinear_arith)
            requires
                i == bs * q + r,
                0 <= r < bs,
                q == b,
        ;
    }
    if b * bs <= i < b * bs + bs {
        lemma_in_block(i, b, bs);
    }
}

fn zeroed(n: usize) -> (r: Vec<u8>)
    ensures
        r@ == crate::io::zeros(n as nat),
{
    let mut r: Vec<u8> = Vec::new();
    while r.len() < n
        invariant
            r@.len() <= n,
            r@ == crate::io::zeros(r@.len()),
        decreases n - r@.len(),
    {
        r.push(0);
        assert(r@ =~= crate::io::zeros(r@.len()));
    }
    r
}

/// An in-memory copy-on-write wrapper around a reader. Writes land in a map
/// of blocks and never reach the reader; writing past the reader's end is
/// allowed and leaves a zero-filled gap.
///
/// A single [`Self::read`] never crosses a boundary between blocks held in
/// memory and blocks read from the reader, so a read either succeeds fully or
/// changes nothing. Short reads are expected. [`Self::write`] never writes
/// short: it either writes everything or fails with the contents unchanged.
pub struct MemoryCowFile<R: Source> {
    reader: R,
    block_size: u32,
    blocks: HashMap<u64, Vec<u8>>,
    orig_size: u64,
    cur_size: u64,
    cur_offset: u64,
    need_seek: bool,
}

impl<R: Source> MemoryCowFile<R> {
    /// The byte at offset `i` as the overlay presents it.
    pub closed spec fn byte_at(&self, i: int) -> u8 {
        let bs = self.block_size as int;
        let b = (i / bs) as u64;
        if self.blocks@.contains_key(b) {
            self.blocks@[b]@[i % bs]
        } else if i < self.orig_size {
            self.reader.content()[i]
        } else {
            0
        }
    }

    /// The logical contents of the overlay.
    pub closed spec fn data(&self) -> Seq<u8> {
        Seq::new(self.cur_size as nat, |i: int| self.byte_at(i))
    }

    /// The current offset.
    pub closed spec fn offset(&self) -> nat {
        self.cur_offset as nat
    }

    /// The contents of the wrapped reader.
    pub closed spec fn underlying(&self) -> Seq<u8> {
        self.reader.content()
    }

    pub closed spec fn block_len(&self) -> nat {
        self.block_size as nat
    }

    /// Whether block `b` is served from memory: it was written to, or it lies
    /// past the end of the reader.
    pub closed spec fn is_cow(&self, b: int) -> bool {
        self.blocks@.contains_key(b as u64) || b * self.block_size >= self.orig_size
    }

    /// Whether every operation of the wrapped reader succeeds.
    pub closed spec fn reader_total(&self) -> bool {
        self.reader.total()
    }

    /// Whether block `c` is touched by a write of `n` bytes at the current
    /// offset.
    pub closed spec fn write_block(&self, c: u64, n: nat) -> bool {
        (self.cur_offset as int) / (self.block_size as int) <= c && c * self.block_size < self.cur_offset + n
    }

    /// Whether a write of `n` bytes at the current offset must first copy a
    /// block in from the reader: one it covers only partly, below the
    /// reader's end and not yet held in memory.
    pub closed spec fn write_needs_reader(&self, n: nat) -> bool {
        exists|c: u64|
            #[trigger] self.write_block(c, n) && !self.blocks@.contains_key(c) && c * self.block_size
                < self.orig_size && (c * self.block_size < self.cur_offset || c * self.block_size
                + self.block_size > self.cur_offset + n)
    }

    /// Whether a write of `n` bytes at the current offset touches a block,
    /// not yet held in memory, that ends past `u64::MAX`.
    pub closed spec fn write_end_overflows(&self, n: nat) -> bool {
        exists|c: u64|
            #[trigger] self.write_block(c, n) && !self.blocks@.contains_key(c) && c * self.block_size
                + self.block_size > u64::MAX
    }

    /// Whether the block holding byte `i` is served from memory.
    pub closed spec fn cow_at(&self, i: int) -> bool {
        self.is_cow(i / (self.block_size as int))
    }

    pub closed spec fn well_formed(&self) -> bool {
        &&& self.block_size > 0
        &&& self.reader.inv()
        &&& self.orig_size == self.reader.content().len()
        &&& self.orig_size <= self.cur_size
        &&& forall|b: u64| #[trigger]
            self.blocks@.contains_key(b) ==> self.blocks@[b]@.len() == self.block_size && b
                * self.block_size + self.block_size <= u64::MAX
        &&& forall|i: int| self.cur_size <= i <= u64::MAX ==> #[trigger] self.byte_at(i) == 0
        &&& !self.need_seek ==> self.reader.position() == self.cur_offset
    }

    /// Wrap `reader`, whose contents the overlay starts out equal to.
    pub fn new(reader: R, block_size: u32) -> (r: Result<Self, IoError>)
        requires
            reader.inv(),
            block_size != 0,
        ensures
            r matches Ok(f) ==> {
                &&& f.well_formed()
                &&& f.data() == reader.content()
                &&& f.underlying() == reader.content()
                &&& f.offset() == 0
                &&& f.block_len() == block_size
                &&& f.reader_total() == reader.total()
            },
            reader.total() ==> r is Ok,
    {
        let mut reader = reader;
        let size = match reader.size() {
            Ok(s) => s,
            Err(e) => return Err(e),
        };
        let f = MemoryCowFile {
            reader,
            block_size,
            blocks: HashMap::new(),
            orig_size: size,
            cur_size: size,
            cur_offset: 0,
            need_seek: false,
        };
        assert(f.data() =~= f.reader.content());
        Ok(f)
    }

    /// Moving the reader changes nothing that the overlay presents.
    proof fn lemma_reader_moved(a: &Self, b: &Self)
        requires
            a.well_formed(),
            b.blocks == a.blocks,
            b.block_size == a.block_size,
            b.orig_size == a.orig_size,
            b.cur_size == a.cur_size,
            b.reader.inv(),
            b.reader.content() == a.reader.content(),
            !b.need_seek ==> b.reader.position() == b.cur_offset,
        ensures
            b.well_formed(),
            b.data() == a.data(),
            forall|i: int| #[trigger] b.byte_at(i) == a.byte_at(i),
    {
        assert forall|i: int| #[trigger] b.byte_at(i) == a.byte_at(i) by {}
        assert(b.data() =~= a.data());
    }

    /// Whether block `block` is served from memory.
    pub fn is_cow_block(&self, block: u64) -> (r: bool)
        requires
            self.well_formed(),
            block <= (u64::MAX as int) / (self.block_len() as int),
        ensures
            r == self.is_cow(block as int),
    {
        let bs = self.block_size as u64;
        assert(block * bs <= u64::MAX) by (nonlinear_arith)
            requires
                block <= (u64::MAX as int) / (bs as int),
                bs > 0,
        ;
        self.blocks.contains_key(&block) || block * bs >= self.orig_size
    }

    /// The end of the read that starts at `off`: it stays within blocks of
    /// the same kind as the first one and ends at `limit` at the latest.
    fn region_end(&self, off: u64, limit: u64) -> (r: u64)
        requires
            self.well_formed(),
            off < limit,
        ensures
            off < r <= limit,
            forall|i: int|
                off <= i < r ==> #[trigger] self.cow_at(i) == self.cow_at((off as int)),
    {
        let bs = self.block_size as u64;
        let start_block = off / bs;
        proof {
            lemma_fundamental_div_mod(off as int, bs as int);
            lemma_mod_pos_bound(off as int, bs as int);
            assert(start_block * bs <= off) by (nonlinear_arith)
                requires
                    off == bs * start_block + off % bs,
                    0 <= off % bs,
            ;
            assert(start_block <= (u64::MAX as int) / (bs as int)) by (nonlinear_arith)
                requires
                    start_block * bs <= off <= u64::MAX,
                    bs > 0,
            ;
        }
        let first = self.is_cow_block(start_block);
        let mut blk = start_block;
        // Offset of the start of block `blk`.
        let mut blk_start = off - off % bs;
        assert(blk_start == start_block * bs);
        let mut end: u64 = if limit - blk_start <= bs {
            limit
        } else {
            blk_start + bs
        };
        while end < limit
            invariant
                bs == self.block_size,
                bs > 0,
                self.well_formed(),
                start_block == (off as int) / (bs as int),
                start_block <= blk,
                blk_start == blk * bs,
                start_block * bs <= off,
                off < end <= limit,
                end == limit || end == blk_start + bs,
                end <= blk_start + bs,
                first == self.is_cow(start_block as int),
                forall|b: int| start_block <= b <= blk ==> #[trigger] self.is_cow(b) == first,
            decreases limit - end,
        {
            assert(blk < u64::MAX && (blk + 1) * bs == blk * bs + bs) by (nonlinear_arith)
                requires
                    blk * bs + bs < limit <= u64::MAX,
                    blk_start == blk * bs,
                    end == blk_start + bs,
                    bs > 0,
            ;
            let next = blk + 1;
            assert(next <= (u64::MAX as int) / (bs as int)) by (nonlinear_arith)
                requires
                    next * bs == blk_start + bs,
                    next == blk + 1,
                    blk_start + bs == end,
                    end < limit,
                    bs > 0,
            ;
            if self.is_cow_block(next) != first {
                break;
            }
            blk = next;
            blk_start = end;
            end = if limit - blk_start <= bs {
                limit
            } else {
                blk_start + bs
            };
        }
        assert((blk + 1) * bs == blk * bs + bs) by (nonlinear_arith);
        assert forall|i: int| off <= i < end implies #[trigger] self.cow_at(i) == first by {
            lemma_blocks_between(i, bs as int, start_block as int, blk as int);
        }
        end
    }

    /// Read at most `len` bytes at the current offset.
    pub fn read(&mut self, len: usize) -> (r: Result<Vec<u8>, IoError>)
        requires
            old(self).well_formed(),
        ensures
            final(self).well_formed(),
            final(self).data() == old(self).data(),
            final(self).underlying() == old(self).underlying(),
            final(self).block_len() == old(self).block_len(),
            r matches Ok(v) ==> {
                &&& v@.len() <= len
                &&& v@.len() > 0 ==> old(self).offset() + v@.len() <= old(self).data().len() && v@
                    == old(self).data().subrange(
                    old(self).offset() as int,
                    (old(self).offset() + v@.len()) as int,
                )
                &&& final(self).offset() == old(self).offset() + v@.len()
                &&& forall|i: int|
                    old(self).offset() <= i < old(self).offset() + v@.len() ==> #[trigger] old(self).cow_at(i) == old(self).cow_at((old(self).offset() as int))
                &&& len > 0 && old(self).offset() < old(self).data().len() ==> v@.len() > 0
            },
            r is Err ==> final(self).offset() == old(self).offset(),
            len == 0 || old(self).offset() >= old(self).data().len() ==> (r matches Ok(v) && v@.len() == 0),
            old(self).cow_at(old(self).offset() as int) || old(self).offset() >= old(self).underlying().len()
                || old(self).reader_total() ==> r is Ok,
            final(self).reader_total() == old(self).reader_total(),
    {
        let off = self.cur_offset;
        if len == 0 || off >= self.cur_size {
            let v: Vec<u8> = Vec::new();
            return Ok(v);
        }
        let bs = self.block_size as u64;
        let remain: u64 = if self.cur_size - off < len as u64 {
            self.cur_size - off
        } else {
            len as u64
        };
        let end = self.region_end(off, off + remain);
        proof {
            vstd::arithmetic::div_mod::lemma_div_is_ordered(off as int, u64::MAX as int, bs as int);
        }
        let first = self.is_cow_block(off / bs);
        let ghost old_self = *self;

        if first {
            let mut v: Vec<u8> = Vec::new();
            let mut i = off;
            while i < end
                invariant
                    *self == old_self,
                    self.well_formed(),
                    bs == self.block_size,
                    off <= i <= end,
                    end <= self.cur_size,
                    forall|k: int| off <= k < end ==> #[trigger] self.cow_at(k),
                    v@ == self.data().subrange(off as int, i as int),
                decreases end - i,
            {
                let b = i / bs;
                let j = (i % bs) as usize;
                proof {
                    lemma_mod_pos_bound(i as int, bs as int);
                }
                let byte: u8 = match self.blocks.get(&b) {
                    Some(block) => block[j],
                    None => 0,
                };
                proof {
                    if !self.blocks@.contains_key(b) {
                        assert(self.cow_at((i as int)));
                        lemma_fundamental_div_mod(i as int, bs as int);
                        assert(b * bs <= i) by (nonlinear_arith)
                            requires
                                i == bs * b + i % bs,
                                0 <= i % bs,
                        ;
                    }
                }
                v.push(byte);
                i += 1;
                assert(v@ =~= self.data().subrange(off as int, i as int));
            }
            self.cur_offset = end;
            self.need_seek = true;
            proof {
                Self::lemma_reader_moved(&old_self, self);
            }
            Ok(v)
        } else if off >= self.orig_size {
            // The tail of the reader's last block, past its end.
            let mut v: Vec<u8> = Vec::new();
            let mut i = off;
            while i < end
                invariant
                    *self == old_self,
                    self.well_formed(),
                    bs == self.block_size,
                    self.orig_size <= off <= i <= end,
                    end <= self.cur_size,
                    forall|k: int| off <= k < end ==> !#[trigger] self.cow_at(k),
                    v@ == self.data().subrange(off as int, i as int),
                decreases end - i,
            {
                assert(!self.cow_at((i as int)));
                v.push(0);
                i += 1;
                assert(v@ =~= self.data().subrange(off as int, i as int));
            }
            self.cur_offset = end;
            self.need_seek = true;
            proof {
                Self::lemma_reader_moved(&old_self, self);
            }
            Ok(v)
        } else {
            // One sequential read from the reader.
            if self.need_seek {
                match self.reader.seek_to(off) {
                    Ok(()) => {},
                    Err(e) => {
                        proof {
                            Self::lemma_reader_moved(&old_self, self);
                        }
                        return Err(e);
                    },
                }
                self.need_seek = false;
            }
            let to_read: u64 = if self.orig_size - off < end - off {
                self.orig_size - off
            } else {
                end - off
            };
            self.need_seek = true;
            let v = match self.reader.read(to_read as usize) {
                Ok(v) => v,
                Err(e) => {
                    proof {
                        Self::lemma_reader_moved(&old_self, self);
                    }
                    return Err(e);
                },
            };
            self.cur_offset = off + v.len() as u64;
            self.need_seek = false;
            proof {
                assert forall|k: int| off <= k < off + v@.len() implies v@[k - off] == old_self.byte_at(k) by {
                    assert(!old_self.cow_at(k));
                }
                assert(v@ =~= old_self.data().subrange(off as int, off + v@.len()));
                Self::lemma_reader_moved(&old_self, self);
            }
            Ok(v)
        }
    }

    /// Bytes `[bstart, bstart + bs)` of the reader, zero past its end.
    fn load_block(&mut self, b: u64, bstart: u64) -> (r: Result<Vec<u8>, IoError>)
        requires
            old(self).well_formed(),
            old(self).need_seek,
            bstart == b * old(self).block_size,
            bstart < old(self).orig_size,
        ensures
            final(self).well_formed(),
            final(self).need_seek,
            final(self).blocks == old(self).blocks,
            final(self).block_size == old(self).block_size,
            final(self).orig_size == old(self).orig_size,
            final(self).cur_size == old(self).cur_size,
            final(self).cur_offset == old(self).cur_offset,
            final(self).reader.content() == old(self).reader.content(),
            final(self).reader.total() == old(self).reader.total(),
            old(self).reader.total() ==> r is Ok,
            final(self).data() == old(self).data(),
            forall|i: int| #[trigger] final(self).byte_at(i) == old(self).byte_at(i),
            r matches Ok(v) ==> {
                &&& v@.len() == old(self).block_size
                &&& forall|j: int|
                    0 <= j < v@.len() ==> #[trigger] v@[j] == if bstart + j < old(self).orig_size {
                        old(self).reader.content()[bstart + j]
                    } else {
                        0u8
                    }
            },
    {
        let ghost old_self = *self;
        let bs = self.block_size as usize;
        let want: usize = if self.orig_size - bstart < bs as u64 {
            (self.orig_size - bstart) as usize
        } else {
            bs
        };
        let mut v = zeroed(bs);
        match self.reader.seek_to(bstart) {
            Ok(()) => {},
            Err(e) => {
                proof {
                    Self::lemma_reader_moved(&old_self, self);
                }
                return Err(e);
            },
        }
        let mut got: usize = 0;
        while got < want
            invariant
                *old(self) == old_self,
                self.reader.inv(),
                self.reader.content() == old_self.reader.content(),
                self.reader.total() == old_self.reader.total(),
                self.reader.position() == bstart + got,
                self.blocks == old_self.blocks,
                self.block_size == old_self.block_size,
                self.orig_size == old_self.orig_size,
                self.cur_size == old_self.cur_size,
                self.cur_offset == old_self.cur_offset,
                self.need_seek,
                old_self.well_formed(),
                bs == self.block_size,
                want <= bs,
                bstart + want <= self.orig_size,
                want == bs || bstart + want == self.orig_size,
                got <= want,
                v@.len() == bs,
                forall|j: int|
                    0 <= j < bs ==> #[trigger] v@[j] == if j < got {
                        old_self.reader.content()[bstart + j]
                    } else {
                        0u8
                    },
            decreases want - got,
        {
            let chunk = match self.reader.read(want - got) {
                Ok(c) => c,
                Err(e) => {
                    proof {
                        Self::lemma_reader_moved(&old_self, self);
                    }
                    return Err(e);
                },
            };
            if chunk.len() == 0 {
                proof {
                    Self::lemma_reader_moved(&old_self, self);
                }
                return Err(IoError::UnexpectedEof);
            }
            let mut t: usize = 0;
            while t < chunk.len()
                invariant
                    got + chunk@.len() <= want <= bs,
                    v@.len() == bs,
                    t <= chunk@.len(),
                    bstart + got + chunk@.len() <= old_self.reader.content().len(),
                    chunk@ == old_self.reader.content().subrange(
                        bstart + got,
                        bstart + got + chunk@.len(),
                    ),
                    forall|j: int|
                        0 <= j < bs ==> #[trigger] v@[j] == if j < got + t {
                            old_self.reader.content()[bstart + j]
                        } else {
                            0u8
                        },
                decreases chunk@.len() - t,
            {
                v.set(got + t, chunk[t]);
                t += 1;
            }
            got = got + chunk.len();
        }
        proof {
            Self::lemma_reader_moved(&old_self, self);
        }
        Ok(v)
    }

    /// Write `buf[k..k + n]` at the current offset, which lies in block `b`
    /// starting at `bstart`, without leaving the block.
    fn patch_block(&mut self, b: u64, bstart: u64, buf: &[u8], k: usize, n: usize)
        requires
            old(self).well_formed(),
            old(self).need_seek,
            bstart == b * old(self).block_size,
            bstart <= old(self).cur_offset,
            old(self).cur_offset + n <= bstart + old(self).block_size,
            bstart + old(self).block_size <= u64::MAX,
            0 < n,
            k + n <= buf@.len(),
            !old(self).blocks@.contains_key(b) && bstart < old(self).orig_size ==> old(self).cur_offset == bstart && n == old(self).block_size,
        ensures
            final(self).well_formed(),
            final(self).need_seek,
            final(self).block_size == old(self).block_size,
            final(self).orig_size == old(self).orig_size,
            final(self).reader == old(self).reader,
            final(self).blocks@.dom() == old(self).blocks@.dom().insert(b),
            final(self).cur_offset == old(self).cur_offset + n,
            final(self).data() == crate::io::write_bytes(
                old(self).data(),
                old(self).cur_offset as int,
                buf@.subrange(k as int, k + n),
            ),
    {
        let ghost old_self = *self;
        let bs = self.block_size as u64;
        let boff = (self.cur_offset - bstart) as usize;
        let mut data = match self.blocks.remove(&b) {
            Some(d) => d,
            None => zeroed(bs as usize),
        };
        proof {
            if old_self.blocks@.contains_key(b) {
                assert(data@.len() == bs);
            }
        }
        let mut t: usize = 0;
        while t < n
            invariant
                data@.len() == bs,
                boff + n <= bs,
                k + n <= buf@.len(),
                t <= n,
                forall|j: int|
                    0 <= j < bs ==> #[trigger] data@[j] == if boff <= j < boff + t {
                        buf@[k + j - boff]
                    } else if old_self.blocks@.contains_key(b) {
                        old_self.blocks@[b]@[j]
                    } else {
                        0u8
                    },
            decreases n - t,
        {
            // Bound the lengths by usize::MAX.
            let _dl = data.len();
            let _bl = buf.len();
            data.set(boff + t, buf[k + t]);
            t += 1;
        }
        self.blocks.insert(b, data);
        self.cur_offset = self.cur_offset + n as u64;
        if self.cur_offset > self.cur_size {
            self.cur_size = self.cur_offset;
        }
        proof {
            let o = old_self.cur_offset as int;
            let w = buf@.subrange(k as int, k + n);
            let bsi = bs as int;
            crate::io::lemma_write_bytes_index(old_self.data(), o, w);
            assert forall|i: int| 0 <= i <= u64::MAX implies #[trigger] self.byte_at(i) == if o <= i < o + n {
                w[i - o]
            } else {
                old_self.byte_at(i)
            } by {
                lemma_block_of(i, b as int, bsi);
                if bstart <= i < bstart + bs {
                    lemma_in_block(i, b as int, bsi);
                }
            }
            assert forall|i: int| self.cur_size <= i <= u64::MAX implies #[trigger] self.byte_at(i) == 0 by {
                assert(old_self.byte_at(i) == 0);
            }
            assert forall|c: u64| #[trigger] self.blocks@.contains_key(c) implies self.blocks@[c]@.len()
                == self.block_size by {
                if c != b {
                    assert(old_self.blocks@.contains_key(c));
                }
            }
            assert forall|i: int| 0 <= i < self.cur_size implies #[trigger] self.data()[i]
                == crate::io::write_bytes(old_self.data(), o, w)[i] by {
                if !(o <= i < o + n) && i >= old_self.cur_size {
                    assert(old_self.byte_at(i) == 0);
                }
            }
            assert(self.data() =~= crate::io::write_bytes(old_self.data(), o, w));
            assert(self.blocks@.dom() =~= old_self.blocks@.dom().insert(b));
        }
    }

    /// Write all of `buf` at the current offset. Blocks that are only partly
    /// overwritten are first copied from the reader; if any of those reads
    /// fails, the contents are left unchanged.
    pub fn write(&mut self, buf: &[u8]) -> (r: Result<usize, IoError>)
        requires
            old(self).well_formed(),
        ensures
            final(self).well_formed(),
            final(self).underlying() == old(self).underlying(),
            final(self).block_len() == old(self).block_len(),
            r matches Ok(n) ==> {
                &&& n == buf@.len()
                &&& buf@.len() > 0 ==> final(self).data() == crate::io::write_bytes(
                    old(self).data(),
                    old(self).offset() as int,
                    buf@,
                )
                &&& buf@.len() == 0 ==> final(self).data() == old(self).data()
                &&& final(self).offset() == old(self).offset() + buf@.len()
                &&& buf@.len() > 0 ==> final(self).data().len() == if old(self).offset() + buf@.len() > old(self).data().len() {
                    old(self).offset() + buf@.len()
                } else {
                    old(self).data().len()
                }
                &&& final(self).underlying() == old(self).underlying()
            },
            r is Err ==> final(self).data() == old(self).data() && final(self).offset() == old(self).offset(),
            old(self).offset() + buf@.len() > u64::MAX ==> r == Err::<usize, IoError>(
                IoError::InvalidInput,
            ),
            buf@.len() == 0 ==> r == Ok::<usize, IoError>(0),
            buf@.len() > 0 && old(self).offset() + buf@.len() <= u64::MAX && !old(self).write_needs_reader(
                buf@.len(),
            ) ==> r == if old(self).write_end_overflows(buf@.len()) {
                Err::<usize, IoError>(IoError::InvalidInput)
            } else {
                Ok::<usize, IoError>(buf@.len() as usize)
            },
            buf@.len() > 0 && old(self).offset() + buf@.len() <= u64::MAX && r is Err ==> old(
                self,
            ).write_end_overflows(buf@.len()) || (old(self).write_needs_reader(buf@.len()) && !old(
                self,
            ).reader_total()),
            final(self).reader_total() == old(self).reader_total(),
    {
        if buf.len() == 0 {
            return Ok(0);
        }
        let ghost old_self = *self;
        self.need_seek = true;
        proof {
            Self::lemma_reader_moved(&old_self, self);
        }
        let bs = self.block_size as u64;
        let off = self.cur_offset;
        if buf.len() as u64 > u64::MAX - off {
            return Err(IoError::InvalidInput);
        }
        let end_offset = off + buf.len() as u64;
        let start_block = off / bs;
        proof {
            lemma_fundamental_div_mod(off as int, bs as int);
            lemma_mod_pos_bound(off as int, bs as int);
            assert(start_block * bs <= off) by (nonlinear_arith)
                requires
                    off == bs * start_block + off % bs,
                    0 <= off % bs,
            ;
        }
        let first_start = off - off % bs;
        assert(first_start == start_block * bs);

        // First pass: copy in every block that is only partly overwritten. A
        // failure here leaves the contents as they were.
        let mut b = start_block;
        let mut bstart = first_start;
        while bstart < end_offset
            invariant
                *old(self) == old_self,
                off == old_self.cur_offset,
                self.well_formed(),
                self.need_seek,
                self.data() == old_self.data(),
                self.cur_offset == off,
                self.cur_size == old_self.cur_size,
                self.block_size == old_self.block_size,
                self.orig_size == old_self.orig_size,
                self.reader.content() == old_self.reader.content(),
                bs == self.block_size,
                bs > 0,
                end_offset == off + buf@.len(),
                start_block <= b,
                bstart == b * bs,
                first_start == start_block * bs,
                first_start <= off,
                forall|c: u64|
                    start_block <= c < b ==> #[trigger] (c * bs) + bs <= u64::MAX,
                forall|c: u64|
                    start_block <= c < b && #[trigger] (c * bs) < self.orig_size && (c * bs < off || c
                        * bs + bs > end_offset) ==> self.blocks@.contains_key(c),
                forall|c: u64| b <= c ==> #[trigger] self.blocks@.contains_key(c) == old_self.blocks@.contains_key(c),
                self.reader.total() == old_self.reader.total(),
                start_block == (off as int) / (bs as int),
                buf@.len() > 0,
            decreases u64::MAX - bstart,
        {
            if !self.blocks.contains_key(&b) {
                assert(old_self.write_block(b, buf@.len()));
                if bstart > u64::MAX - bs {
                    assert(old_self.write_end_overflows(buf@.len()));
                    return Err(IoError::InvalidInput);
                }
                let bend = bstart + bs;
                if bstart < self.orig_size && (bstart < off || bend > end_offset) {
                    assert(old_self.write_needs_reader(buf@.len()));
                    let ghost before = *self;
                    let data = match self.load_block(b, bstart) {
                        Ok(d) => d,
                        Err(e) => return Err(e),
                    };
                    self.blocks.insert(b, data);
                    proof {
                        assert forall|i: int| 0 <= i <= u64::MAX implies #[trigger] self.byte_at(i) == before.byte_at(i) by {
                            lemma_block_of(i, b as int, bs as int);
                            if bstart <= i < bstart + bs {
                                lemma_in_block(i, b as int, bs as int);
                            }
                        }
                        assert(self.data() =~= before.data());
                        assert forall|c: u64| #[trigger] self.blocks@.contains_key(c) implies self.blocks@[c]@.len()
                            == self.block_size && c * self.block_size + self.block_size <= u64::MAX by {
                            if c != b {
                                assert(before.blocks@.contains_key(c));
                            }
                        }
                    }
                }
            } else {
                assert(self.blocks@.contains_key(b));
            }
            assert(bstart + bs <= u64::MAX);
            assert((b + 1) * bs == b * bs + bs && b < u64::MAX) by (nonlinear_arith)
                requires
                    bstart == b * bs,
                    bstart + bs <= u64::MAX,
                    bs > 0,
            ;
            b = b + 1;
            bstart = bstart + bs;
        }
        // Every block that starts before the write's end has been visited.
        proof {
            assert forall|c: u64| start_block <= c && #[trigger] (c * bs) < end_offset implies c < b by {
                if c >= b {
                    assert(c * bs >= b * bs) by (nonlinear_arith)
                        requires
                            c >= b,
                            bs > 0,
                    ;
                }
            }
            assert(!old_self.write_end_overflows(buf@.len())) by {
                assert forall|c: u64| #[trigger] old_self.write_block(c, buf@.len()) && !old_self.blocks@.contains_key(c)
                    implies c * old_self.block_size + old_self.block_size <= u64::MAX by {
                    assert(start_block <= c && c * bs < end_offset);
                    assert(c < b);
                }
            }
        }

        // Second pass: copy the caller's bytes in. Nothing here can fail.
        let mut k: usize = 0;
        let mut b = start_block;
        let mut bstart = first_start;
        while k < buf.len()
            invariant
                *old(self) == old_self,
                self.well_formed(),
                self.need_seek,
                self.block_size == old_self.block_size,
                self.orig_size == old_self.orig_size,
                self.reader.content() == old_self.reader.content(),
                self.reader.total() == old_self.reader.total(),
                bs == self.block_size,
                bs > 0,
                end_offset == off + buf@.len(),
                k <= buf@.len(),
                self.cur_offset == off + k,
                off == old_self.cur_offset,
                start_block <= b,
                bstart == b * bs,
                bstart <= self.cur_offset,
                k < buf@.len() ==> self.cur_offset < bstart + bs,
                k > 0 && k < buf@.len() ==> self.cur_offset == bstart,
                k == 0 ==> first_start == bstart,
                first_start <= off,
                off < first_start + bs,
                forall|c: u64|
                    start_block <= c && #[trigger] (c * bs) < end_offset ==> c * bs + bs <= u64::MAX,
                forall|c: u64|
                    start_block <= c && #[trigger] (c * bs) < end_offset && c * bs < self.orig_size && (c
                        * bs < off || c * bs + bs > end_offset) ==> self.blocks@.contains_key(c),
                k > 0 ==> self.data() == crate::io::write_bytes(old_self.data(), off as int, buf@.subrange(0, k as int)),
                k == 0 ==> self.data() == old_self.data(),
            decreases buf@.len() - k,
        {
            let boff = self.cur_offset - bstart;
            let n: usize = if bs - boff < (buf.len() - k) as u64 {
                (bs - boff) as usize
            } else {
                buf.len() - k
            };
            assert(bstart + bs <= u64::MAX);
            let ghost before = self.data();
            self.patch_block(b, bstart, buf, k, n);
            proof {
                if k > 0 {
                crate::io::lemma_write_bytes_append(
                    old_self.data(),
                    off as int,
                    buf@.subrange(0, k as int),
                    buf@.subrange(k as int, k + n),
                );
                assert(buf@.subrange(0, k as int) + buf@.subrange(k as int, k + n) =~= buf@.subrange(
                    0,
                    k + n,
                ));
                } else {
                    assert(buf@.subrange(0, n as int) =~= buf@.subrange(k as int, k + n));
                }
            }
            k = k + n;
            if k < buf.len() {
                assert((b + 1) * bs == b * bs + bs && b < u64::MAX) by (nonlinear_arith)
                    requires
                        bstart == b * bs,
                        bstart + bs <= u64::MAX,
                        bs > 0,
                ;
                b = b + 1;
                bstart = bstart + bs;
            }
        }
        assert(buf@.subrange(0, buf@.len() as int) =~= buf@);
        proof {
            crate::io::lemma_write_bytes_index(old_self.data(), off as int, buf@);
        }
        Ok(buf.len())
    }

    /// Move the offset; `End` is relative to the current size.
    pub fn seek(&mut self, pos: SeekFrom) -> (r: Result<u64, IoError>)
        requires
            old(self).well_formed(),
        ensures
            final(self).well_formed(),
            final(self).data() == old(self).data(),
            final(self).underlying() == old(self).underlying(),
            final(self).block_len() == old(self).block_len(),
            r matches Ok(o) ==> crate::io::seek_target(pos, old(self).offset() as u64, old(self).data().len() as u64) == Some(o) && final(self).offset() == o,
            r is Err ==> crate::io::seek_target(pos, old(self).offset() as u64, old(self).data().len() as u64) is None && final(self).offset() == old(self).offset(),
            r is Err ==> r == Err::<u64, IoError>(IoError::InvalidInput),
            crate::io::seek_target(pos, old(self).offset() as u64, old(self).data().len() as u64) is None ==> r is Err,
            final(self).reader_total() == old(self).reader_total(),
    {
        let ghost old_self = *self;
        match resolve_seek(pos, self.cur_offset, self.cur_size) {
            None => Err(IoError::InvalidInput),
            Some(o) => {
                if o != self.cur_offset {
                    self.cur_offset = o;
                    self.need_seek = true;
                }
                proof {
                    Self::lemma_reader_moved(&old_self, self);
                }
                Ok(o)
            },
        }
    }

    pub fn flush(&mut self) -> (r: Result<(), IoError>)
        ensures
            *final(self) == *old(self),
            r is Ok,
    {
        Ok(())
    }
}


impl<R: Source> RandomAccess for MemoryCowFile<R> {
    open spec fn bytes(&self) -> Seq<u8> {
        self.data()
    }

    open spec fn wf(&self) -> bool {
        self.well_formed()
    }

    /// The reader never fails, and no block of the contents ends past
    /// `u64::MAX`.
    closed spec fn total(&self) -> bool {
        self.reader_total() && self.cur_size + self.block_size <= u64::MAX
    }

    fn read_exact_at(&mut self, offset: u64, len: usize) -> (r: Result<Vec<u8>, IoError>) {
        match self.seek(SeekFrom::Start(offset)) {
            Ok(_) => {},
            Err(e) => return Err(e),
        }
        let ghost d = self.data();
        let mut v: Vec<u8> = Vec::new();
        while v.len() < len
            invariant
                old(self).data() == d,
                self.well_formed(),
                self.data() == d,
                v@.len() <= len,
                self.offset() == offset + v@.len(),
                offset + v@.len() <= d.len() || v@.len() == 0,
                v@ == d.subrange(offset as int, offset + v@.len()) || v@.len() == 0,
                self.reader_total() == old(self).reader_total(),
                self.cur_size == old(self).cur_size,
                self.block_size == old(self).block_size,
            decreases len - v@.len(),
        {
            let mut chunk = match self.read(len - v.len()) {
                Ok(c) => c,
                Err(e) => return Err(e),
            };
            if chunk.len() == 0 {
                return Err(IoError::UnexpectedEof);
            }
            let ghost prev = v@;
            v.append(&mut chunk);
            assert(v@ =~= d.subrange(offset as int, offset + v@.len()));
        }
        if len == 0 {
            if offset > self.cur_size {
                return Err(IoError::UnexpectedEof);
            }
            assert(v@ =~= d.subrange(offset as int, offset as int));
        }
        Ok(v)
    }

    fn write_all_at(&mut self, offset: u64, data: &[u8]) -> (r: Result<(), IoError>) {
        match self.seek(SeekFrom::Start(offset)) {
            Ok(_) => {},
            Err(e) => return Err(e),
        }
        proof {
            if old(self).total() && offset + data@.len() <= old(self).data().len() {
                let n = data@.len();
                assert(!self.write_end_overflows(n)) by {
                    assert forall|c: u64| #[trigger] self.write_block(c, n) && !self.blocks@.contains_key(c)
                        implies c * self.block_size + self.block_size <= u64::MAX by {
                        assert(c * self.block_size < self.cur_size);
                    }
                }
                if n > 0 {
                    crate::io::lemma_write_bytes_index(self.data(), offset as int, data@);
                }
            }
        }
        match self.write(data) {
            Ok(_) => Ok(()),
            Err(e) => Err(e),
        }
    }
}

/// After a write of `w` at `o`, the `|w|` bytes at `o` read back as `w`, and
/// every other byte of the earlier contents is unchanged.
pub proof fn lemma_write_then_read(before: Seq<u8>, o: int, w: Seq<u8>)
    requires
        0 <= o,
    ensures
        crate::io::write_bytes(before, o, w).subrange(o, o + w.len()) == w,
        forall|i: int|
            0 <= i < before.len() && !(o <= i < o + w.len()) ==> #[trigger] crate::io::write_bytes(
                before,
                o,
                w,
            )[i] == before[i],
{
    crate::io::lemma_write_bytes_index(before, o, w);
    assert(crate::io::write_bytes(before, o, w).subrange(o, o + w.len()) =~= w);
}

/// A write past the end grows the contents to the end of the write, and the
/// gap between the old end and the write reads as zeros.
pub proof fn lemma_sparse_extension(before: Seq<u8>, o: int, w: Seq<u8>)
    requires
        before.len() <= o,
        w.len() > 0,
    ensures
        crate::io::write_bytes(before, o, w).len() == o + w.len(),
        crate::io::write_bytes(before, o, w).len() > before.len(),
        forall|i: int| before.len() <= i < o ==> #[trigger] crate::io::write_bytes(before, o, w)[i] == 0,
{
    crate::io::lemma_write_bytes_index(before, o, w);
}

/// The pieces `0..n` laid end to end.
pub open spec fn joined<P: Pieces>(p: &P, n: nat) -> Seq<u8>
    decreases n,
{
    if n == 0 {
        Seq::empty()
    } else {
        joined(p, (n - 1) as nat) + p.piece(n - 1)
    }
}

/// Sum of the lengths of pieces `0..n`.
pub open spec fn pieces_len<P: Pieces>(p: &P, n: nat) -> nat
    decreases n,
{
    if n == 0 {
        0
    } else {
        pieces_len(p, (n - 1) as nat) + p.piece(n - 1).len()
    }
}

proof fn lemma_joined_len<P: Pieces>(p: &P, n: nat)
    ensures
        joined(p, n).len() == pieces_len(p, n),
    decreases n,
{
    if n > 0 {
        lemma_joined_len(p, (n - 1) as nat);
    }
}

proof fn lemma_joined_prefix<P: Pieces>(p: &P, a: nat, b: nat)
    requires
        a <= b,
    ensures
        joined(p, a).len() <= joined(p, b).len(),
        joined(p, b).subrange(0, joined(p, a).len() as int) == joined(p, a),
    decreases b,
{
    if a < b {
        lemma_joined_prefix(p, a, (b - 1) as nat);
        assert(joined(p, b).subrange(0, joined(p, a).len() as int) =~= joined(p, (b - 1) as nat).subrange(
            0,
            joined(p, a).len() as int,
        ));
    } else {
        assert(joined(p, b).subrange(0, joined(p, a).len() as int) =~= joined(p, a));
    }
}

/// Piece `k` sits at `[joined(k).len(), joined(k + 1).len())`.
proof fn lemma_joined_piece<P: Pieces>(p: &P, n: nat, k: nat)
    requires
        k < n,
    ensures
        joined(p, n).subrange(joined(p, k).len() as int, joined(p, k + 1).len() as int) == p.piece(
            k as int,
        ),
{
    lemma_joined_prefix(p, k + 1, n);
    let a = joined(p, k).len() as int;
    let b = joined(p, k + 1).len() as int;
    assert(joined(p, n).subrange(a, b) =~= joined(p, k + 1).subrange(a, b));
    assert(joined(p, k + 1).subrange(a, b) =~= p.piece(k as int));
}

/// Every offset before the end lies in some piece.
proof fn lemma_joined_cover<P: Pieces>(p: &P, n: nat, off: int)
    requires
        0 <= off < joined(p, n).len(),
    ensures
        exists|k: nat| k < n && joined(p, k).len() <= off < #[trigger] joined(p, k + 1).len(),
    decreases n,
{
    if off < joined(p, (n - 1) as nat).len() {
        lemma_joined_cover(p, (n - 1) as nat, off);
    } else {
        let k = (n - 1) as nat;
        assert(joined(p, k).len() <= off < joined(p, k + 1).len());
    }
}

/// The outcome of a read of `got` from a piece before its recorded end: no
/// bytes means the piece holds fewer bytes than it did when it was added.
pub fn piece_read_outcome(got: Vec<u8>) -> (r: Result<Vec<u8>, IoError>)
    ensures
        got@.len() == 0 ==> r == Err::<Vec<u8>, IoError>(IoError::UnexpectedEof),
        got@.len() > 0 ==> (r matches Ok(v) && v@ == got@),
{
    if got.len() == 0 {
        return Err(IoError::UnexpectedEof);
    }
    Ok(got)
}

/// A read-only view of a set of pieces as one stream.
///
/// The size of each piece is queried once, in [`Self::add_file`]. Pieces are
/// opened only when read from, and at most one is open at a time. A single
/// [`Self::read`] never crosses a piece boundary. If a piece ends before its
/// recorded size, [`Self::read`] fails.
pub struct JoinedFile<P: Pieces> {
    pieces: P,
    splits: Vec<Range<u64>>,
    cur_split: Option<usize>,
    cur_file: Option<usize>,
    cur_offset: u64,
}

impl<P: Pieces> JoinedFile<P> {
    /// The pieces that were added, laid end to end.
    pub closed spec fn content(&self) -> Seq<u8> {
        joined(&self.pieces, self.splits@.len())
    }

    /// The number of pieces added.
    pub closed spec fn added(&self) -> nat {
        self.splits@.len()
    }

    pub closed spec fn source(&self) -> P {
        self.pieces
    }

    pub closed spec fn offset(&self) -> nat {
        self.cur_offset as nat
    }

    pub closed spec fn contains(&self, k: int, off: int) -> bool {
        self.splits@[k].start <= off < self.splits@[k].end
    }

    pub closed spec fn well_formed(&self) -> bool {
        &&& self.splits@.len() <= self.pieces.count()
        &&& forall|k: int|
            0 <= k < self.splits@.len() ==> (#[trigger] self.splits@[k]).start == joined(
                &self.pieces,
                k as nat,
            ).len() && self.splits@[k].end == joined(&self.pieces, (k + 1) as nat).len()
        &&& match self.cur_split {
            Some(k) => k < self.splits@.len() && self.contains(k as int, self.cur_offset as int),
            None => self.cur_offset >= self.content().len(),
        }
        &&& self.cur_file matches Some(k) ==> self.pieces.opened() == Some(k as int)
        &&& self.content().len() <= u64::MAX
    }

    /// The view reads as pieces `0..added()` laid end to end, and its length
    /// is the sum of their lengths.
    pub proof fn lemma_concatenation(&self)
        ensures
            self.content() == joined(&self.source(), self.added()),
            self.content().len() == pieces_len(&self.source(), self.added()),
    {
        lemma_joined_len(&self.pieces, self.splits@.len());
    }

    /// An empty view over `pieces`; add them with [`Self::add_file`].
    pub fn new(pieces: P) -> (r: Self)
        ensures
            r.well_formed(),
            r.added() == 0,
            r.content() == Seq::<u8>::empty(),
            r.source() == pieces,
            r.offset() == 0,
    {
        JoinedFile { pieces, splits: Vec::new(), cur_split: None, cur_file: None, cur_offset: 0 }
    }

    /// The joined length of all added pieces.
    pub fn len(&self) -> (r: u64)
        requires
            self.well_formed(),
        ensures
            r == self.content().len(),
    {
        if self.splits.len() == 0 {
            assert(joined(&self.pieces, 0) =~= Seq::<u8>::empty());
            0
        } else {
            let ghost k: int = self.splits@.len() - 1;
            assert(self.splits@[k].end == joined(&self.pieces, (k + 1) as nat).len());
            assert((k + 1) as nat == self.splits@.len());
            self.splits[self.splits.len() - 1].end
        }
    }

    /// The byte range of each added piece within the joined view.
    pub fn splits(&self) -> (r: Vec<Range<u64>>)
        requires
            self.well_formed(),
        ensures
            r@.len() == self.added(),
            forall|k: int|
                0 <= k < r@.len() ==> (#[trigger] r@[k]).start == joined(&self.source(), k as nat).len()
                    && r@[k].end == joined(&self.source(), (k + 1) as nat).len(),
            r@.len() > 0 ==> r@.last().end == self.content().len(),
    {
        let mut r: Vec<Range<u64>> = Vec::new();
        let mut k: usize = 0;
        while k < self.splits.len()
            invariant
                self.well_formed(),
                k <= self.splits@.len(),
                r@.len() == k,
                forall|j: int| 0 <= j < k ==> #[trigger] r@[j] == self.splits@[j],
            decreases self.splits@.len() - k,
        {
            r.push(Range { start: self.splits[k].start, end: self.splits[k].end });
            k += 1;
        }
        proof {
            if r@.len() > 0 {
                let k: int = self.splits@.len() - 1;
            assert(self.splits@[k].end == joined(&self.pieces, (k + 1) as nat).len());
            assert((k + 1) as nat == self.splits@.len());
            }
        }
        r
    }

    /// Add the next piece. Its size is queried once and kept; this changes
    /// the total size of the view.
    pub fn add_file(&mut self) -> (r: Result<(), IoError>)
        requires
            old(self).well_formed(),
        ensures
            final(self).well_formed(),
            final(self).source().count() == old(self).source().count(),
            forall|k: int| #[trigger] final(self).source().piece(k) == old(self).source().piece(k),
            final(self).offset() == old(self).offset(),
            final(self).source().total() == old(self).source().total(),
            r is Ok ==> final(self).added() == old(self).added() + 1 && final(self).content() == old(self).content() + old(self).source().piece(old(self).added() as int),
            r is Err ==> final(self).added() == old(self).added() && final(self).content() == old(self).content(),
            old(self).added() >= old(self).source().count() ==> r == Err::<(), IoError>(IoError::InvalidInput),
            old(self).added() < old(self).source().count() && old(self).content().len() + old(self).source().piece(old(self).added() as int).len() > u64::MAX ==> r is Err,
            old(self).added() < old(self).source().count() && old(self).content().len() + old(self).source().piece(old(self).added() as int).len() <= u64::MAX && old(self).source().total()
                ==> r is Ok,
    {
        let i = self.splits.len();
        if i >= self.pieces.num_pieces() {
            return Err(IoError::InvalidInput);
        }
        let ghost old_self = *self;
        let res = self.pieces.piece_len(i);
        proof {
            self.lemma_pieces_same(&old_self);
        }
        let size = match res {
            Ok(s) => s,
            Err(e) => return Err(e),
        };
        let prev = self.len();
        if size > u64::MAX - prev {
            proof {
                lemma_joined_same(&old_self.pieces, &self.pieces, i as nat);
            }
            return Err(IoError::InvalidInput);
        }
        let end = prev + size;
        self.splits.push(Range { start: prev, end });
        if self.cur_split.is_none() && self.cur_offset < end {
            self.cur_split = Some(i);
        }
        proof {
            lemma_joined_same(&old_self.pieces, &self.pieces, i as nat);
            assert forall|k: int| 0 <= k < self.splits@.len() implies (#[trigger] self.splits@[k]).start
                == joined(&self.pieces, k as nat).len() && self.splits@[k].end == joined(
                &self.pieces,
                (k + 1) as nat,
            ).len() by {
                lemma_joined_same(&old_self.pieces, &self.pieces, k as nat);
                lemma_joined_same(&old_self.pieces, &self.pieces, (k + 1) as nat);
            }
            if let Some(k) = old_self.cur_split {
                assert(self.splits@[k as int] == old_self.splits@[k as int]);
            }
            lemma_joined_same(&old_self.pieces, &self.pieces, (i + 1) as nat);
        }
        Ok(())
    }

    /// The piece holding offset `off`, if any.
    fn locate(&self, off: u64) -> (r: Option<usize>)
        requires
            self.splits@.len() <= self.pieces.count(),
            forall|k: int|
                0 <= k < self.splits@.len() ==> (#[trigger] self.splits@[k]).start == joined(
                    &self.pieces,
                    k as nat,
                ).len() && self.splits@[k].end == joined(&self.pieces, (k + 1) as nat).len(),
        ensures
            r matches Some(k) ==> k < self.splits@.len() && self.contains(k as int, off as int),
            r is None ==> off >= self.content().len(),
    {
        let mut k: usize = 0;
        while k < self.splits.len()
            invariant
                k <= self.splits@.len(),
                forall|j: int| 0 <= j < k ==> !#[trigger] self.contains(j, off as int),
            decreases self.splits@.len() - k,
        {
            if self.splits[k].start <= off && off < self.splits[k].end {
                return Some(k);
            }
            k += 1;
        }
        proof {
            if off < self.content().len() {
                lemma_joined_cover(&self.pieces, self.splits@.len(), off as int);
                let j = choose|j: nat|
                    j < self.splits@.len() && joined(&self.pieces, j).len() <= off < #[trigger] joined(
                        &self.pieces,
                        j + 1,
                    ).len();
                assert(self.contains(j as int, off as int));
            }
        }
        None
    }

    /// Move to offset `pos`; offsets past the end are allowed.
    pub fn seek_to_offset(&mut self, pos: u64)
        requires
            old(self).well_formed(),
        ensures
            final(self).well_formed(),
            final(self).offset() == pos,
            final(self).content() == old(self).content(),
            final(self).source() == old(self).source(),
            final(self).added() == old(self).added(),
    {
        if self.cur_offset != pos {
            self.cur_offset = pos;
            self.cur_split = self.locate(pos);
        }
    }

    /// Move the offset; `End` is relative to the joined length.
    pub fn seek(&mut self, pos: SeekFrom) -> (r: Result<u64, IoError>)
        requires
            old(self).well_formed(),
        ensures
            final(self).well_formed(),
            final(self).content() == old(self).content(),
            final(self).source() == old(self).source(),
            final(self).added() == old(self).added(),
            r matches Ok(o) ==> crate::io::seek_target(pos, old(self).offset() as u64, old(self).content().len() as u64)
                == Some(o) && final(self).offset() == o,
            r is Err ==> crate::io::seek_target(pos, old(self).offset() as u64, old(self).content().len() as u64) is None
                && final(self).offset() == old(self).offset(),
            r is Err ==> r == Err::<u64, IoError>(IoError::InvalidInput),
            crate::io::seek_target(pos, old(self).offset() as u64, old(self).content().len() as u64) is None ==> r is Err,
    {
        let len = self.len();
        match resolve_seek(pos, self.cur_offset, len) {
            None => Err(IoError::InvalidInput),
            Some(o) => {
                self.seek_to_offset(o);
                Ok(o)
            },
        }
    }

    /// Read at most `len` bytes at the current offset, from one piece only.
    pub fn read(&mut self, len: usize) -> (r: Result<Vec<u8>, IoError>)
        requires
            old(self).well_formed(),
        ensures
            final(self).well_formed(),
            final(self).content() == old(self).content(),
            final(self).added() == old(self).added(),
            final(self).source().count() == old(self).source().count(),
            forall|k: int| #[trigger] final(self).source().piece(k) == old(self).source().piece(k),
            r matches Ok(v) ==> {
                &&& v@.len() <= len
                &&& v@.len() > 0 ==> old(self).offset() + v@.len() <= old(self).content().len() && v@
                    == old(self).content().subrange(
                    old(self).offset() as int,
                    (old(self).offset() + v@.len()) as int,
                )
                &&& final(self).offset() == old(self).offset() + v@.len()
                &&& len > 0 && old(self).offset() < old(self).content().len() ==> v@.len() > 0
                &&& v@.len() > 0 ==> exists|k: nat|
                    k < old(self).added() && joined(&old(self).source(), k).len() <= old(self).offset()
                        < joined(&old(self).source(), k + 1).len() && old(self).offset() + v@.len()
                        <= #[trigger] joined(&old(self).source(), k + 1).len()
            },
            len == 0 || old(self).offset() >= old(self).content().len() ==> (r matches Ok(v) && v@.len() == 0),
            old(self).source().total() ==> r is Ok,
            final(self).source().total() == old(self).source().total(),
            r is Err ==> final(self).offset() == old(self).offset(),
    {
        let ghost old_self = *self;
        if len == 0 {
            return Ok(Vec::new());
        }
        let k = match self.cur_split {
            None => return Ok(Vec::new()),
            Some(k) => k,
        };
        let start = self.splits[k].start;
        let end = self.splits[k].end;
        proof {
            lemma_joined_prefix(&self.pieces, (k + 1) as nat, self.splits@.len());
            assert(self.cur_offset < self.content().len());
        }
        if self.cur_file != Some(k) {
            self.cur_file = None;
            match self.pieces.open_piece(k) {
                Ok(()) => {},
                Err(e) => {
                    proof {
                        self.lemma_pieces_same(&old_self);
                    }
                    return Err(e);
                },
            }
            self.cur_file = Some(k);
        }
        let to_read: usize = if end - self.cur_offset < len as u64 {
            (end - self.cur_offset) as usize
        } else {
            len
        };
        let got = match self.pieces.read_opened(self.cur_offset - start, to_read) {
            Ok(v) => v,
            Err(e) => {
                proof {
                    self.lemma_pieces_same(&old_self);
                }
                return Err(e);
            },
        };
        let v = match piece_read_outcome(got) {
            Ok(v) => v,
            Err(e) => {
                proof {
                    self.lemma_pieces_same(&old_self);
                }
                return Err(e);
            },
        };
        proof {
            self.lemma_pieces_same(&old_self);
            lemma_joined_piece(&self.pieces, self.splits@.len(), k as nat);
            let c = self.content();
            let p = self.pieces.piece(k as int);
            let a = joined(&self.pieces, k as nat).len() as int;
            let b = joined(&self.pieces, (k + 1) as nat).len() as int;
            assert(self.splits@[k as int].start == a && self.splits@[k as int].end == b);
            lemma_joined_prefix(&self.pieces, (k + 1) as nat, self.splits@.len());
            lemma_joined_prefix(&self.pieces, k as nat, (k + 1) as nat);
            assert(c.subrange(a, b) == p);
            assert(p.len() == b - a);
            let o = self.cur_offset - start;
            assert(v@ == p.subrange(o, o + v@.len()));
            assert forall|j: int| 0 <= j < v@.len() implies v@[j] == c[self.cur_offset + j] by {
                assert(v@[j] == p[o + j]);
                assert(c.subrange(a, b)[o + j] == c[a + o + j]);
            }
            assert(v@ =~= c.subrange(self.cur_offset as int, self.cur_offset + v@.len()));
            lemma_joined_same(&old_self.pieces, &self.pieces, k as nat);
            lemma_joined_same(&old_self.pieces, &self.pieces, (k + 1) as nat);
            assert(joined(&old_self.source(), (k + 1) as nat).len() == b);
            assert(k < old_self.added() && joined(&old_self.source(), k as nat).len() <= old_self.offset()
                < joined(&old_self.source(), (k as nat) + 1).len() && old_self.offset() + v@.len() <= joined(
                &old_self.source(),
                (k as nat) + 1,
            ).len());
        }
        self.cur_offset = self.cur_offset + v.len() as u64;
        if self.cur_offset == end {
            self.cur_split = self.locate(self.cur_offset);
        }
        Ok(v)
    }

    proof fn lemma_pieces_same(&self, other: &Self)
        requires
            other.well_formed(),
            self.splits == other.splits,
            self.cur_split == other.cur_split,
            self.cur_offset == other.cur_offset,
            self.pieces.count() == other.pieces.count(),
            forall|k: int| #[trigger] self.pieces.piece(k) == other.pieces.piece(k),
            self.cur_file matches Some(k) ==> self.pieces.opened() == Some(k as int),
        ensures
            self.well_formed(),
            self.content() == other.content(),
    {
        lemma_joined_same(&other.pieces, &self.pieces, self.splits@.len());
        assert forall|k: int| 0 <= k < self.splits@.len() implies (#[trigger] self.splits@[k]).start
            == joined(&self.pieces, k as nat).len() && self.splits@[k].end == joined(
            &self.pieces,
            (k + 1) as nat,
        ).len() by {
            lemma_joined_same(&other.pieces, &self.pieces, k as nat);
            lemma_joined_same(&other.pieces, &self.pieces, (k + 1) as nat);
        }
    }

    /// Read everything from the current offset to the end.
    pub fn read_to_end(&mut self) -> (r: Result<Vec<u8>, IoError>)
        requires
            old(self).well_formed(),
        ensures
            final(self).well_formed(),
            final(self).content() == old(self).content(),
            r matches Ok(v) ==> v@ == if old(self).offset() < old(self).content().len() {
                old(self).content().subrange(old(self).offset() as int, old(self).content().len() as int)
            } else {
                Seq::<u8>::empty()
            },
            old(self).offset() >= old(self).content().len() ==> r is Ok,
            old(self).source().total() ==> r is Ok,
    {
        let ghost c = self.content();
        let start = self.cur_offset;
        let mut out: Vec<u8> = Vec::new();
        let total = self.len();
        if start >= total {
            return Ok(out);
        }
        while self.cur_offset < total
            invariant
                c == old(self).content(),
                start == old(self).offset(),
                self.well_formed(),
                self.content() == c,
                total == c.len(),
                start <= self.cur_offset <= total,
                out@ == c.subrange(start as int, self.cur_offset as int),
                self.source().total() == old(self).source().total(),
            decreases total - self.cur_offset,
        {
            let mut chunk = match self.read(65536) {
                Ok(v) => v,
                Err(e) => return Err(e),
            };
            out.append(&mut chunk);
            assert(out@ =~= c.subrange(start as int, self.cur_offset as int));
        }
        Ok(out)
    }
}

/// The joined contents depend only on the pieces' contents.
proof fn lemma_joined_same<P: Pieces>(a: &P, b: &P, n: nat)
    requires
        forall|k: int| #[trigger] b.piece(k) == a.piece(k),
    ensures
        joined(b, n) == joined(a, n),
    decreases n,
{
    if n > 0 {
        lemma_joined_same(a, b, (n - 1) as nat);
    }
}

impl<P: Pieces> Source for JoinedFile<P> {
    open spec fn content(&self) -> Seq<u8> {
        JoinedFile::content(self)
    }

    open spec fn position(&self) -> nat {
        self.offset()
    }

    open spec fn inv(&self) -> bool {
        self.well_formed()
    }

    open spec fn total(&self) -> bool {
        self.source().total()
    }

    fn seek_to(&mut self, pos: u64) -> (r: Result<(), IoError>) {
        self.seek_to_offset(pos);
        Ok(())
    }

    fn read(&mut self, len: usize) -> (r: Result<Vec<u8>, IoError>) {
        JoinedFile::read(self, len)
    }

    fn size(&mut self) -> (r: Result<u64, IoError>) {
        let n = self.len();
        self.seek_to_offset(0);
        Ok(n)
    }
}

} // verus!
