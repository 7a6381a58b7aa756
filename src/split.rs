use std::ops::Range;
use vstd::prelude::*;

use crate::io::{IoError, RandomAccess};

verus! {

/// Magic of a central directory header (`PK\x01\x02`), read little-endian.
pub const MAGIC_CD: u32 = 0x0201_4b50;
/// Magic of a local file header (`PK\x03\x04`).
pub const MAGIC_LOCAL: u32 = 0x0403_4b50;
/// Magic of the end of central directory record (`PK\x05\x06`).
pub const MAGIC_EOCD: u32 = 0x0605_4b50;
/// Magic of the zip64 end of central directory record (`PK\x06\x06`).
pub const MAGIC_EOCD64: u32 = 0x0606_4b50;
/// Magic of the zip64 end of central directory locator (`PK\x06\x07`).
pub const MAGIC_EOCD64_LOCATOR: u32 = 0x0706_4b50;
/// Magic at the start of the first split (`PK\x07\x08`), the same as the
/// optional data descriptor magic.
pub const MAGIC_SPLIT: u32 = 0x0807_4b50;

/// Largest EOCD search window: the longest comment, the EOCD itself and the
/// zip64 locator in front of it.
pub const SEARCH_WINDOW: u64 = 65535 + 22 + 20;

#[derive(Clone, Copy, Debug, PartialEq, Eq)]
pub enum Error {
    InvalidSplitMagic(u32),
    EocdNotFound,
    EocdTruncated,
    InvalidEocd64Magic(u32),
    CdTruncated(u64),
    InvalidCdMagic(u64, u32),
    CdExtraTruncated(u64),
    CdExtraSuffix,
    MissingDisk(usize),
    OutOfBounds(Field),
    Io(IoError),
}

/// Offset computation that left the representable range.
#[derive(Clone, Copy, Debug, PartialEq, Eq)]
pub enum Field {
    Cd32Offset,
    Eocd64Offset,
    Cd64Offset,
    CdSize,
    Entry32Offset,
    Entry64Offset,
}

/// Where the central directory lies, as read from an EOCD record.
#[derive(Clone, Copy, Debug, PartialEq, Eq)]
pub struct CdLocation {
    pub entries: u64,
    pub size: u64,
    pub offset: u64,
}

// ---------------------------------------------------------------------------
// Little-endian fields.

pub open spec fn le16(s: Seq<u8>, i: int) -> nat {
    s[i] as nat + 256 * (s[i + 1] as nat)
}

pub open spec fn le32(s: Seq<u8>, i: int) -> nat {
    le16(s, i) + 65536 * le16(s, i + 2)
}

pub open spec fn le64(s: Seq<u8>, i: int) -> nat {
    le32(s, i) + 0x1_0000_0000 * le32(s, i + 4)
}

#[verifier::opaque]
pub open spec fn le_bytes2(v: nat) -> Seq<u8> {
    seq![(v % 256) as u8, ((v / 256) % 256) as u8]
}

#[verifier::opaque]
pub open spec fn le_bytes4(v: nat) -> Seq<u8> {
    le_bytes2(v % 65536) + le_bytes2((v / 65536) % 65536)
}

#[verifier::opaque]
pub open spec fn le_bytes8(v: nat) -> Seq<u8> {
    le_bytes4(v % 0x1_0000_0000) + le_bytes4((v / 0x1_0000_0000) % 0x1_0000_0000)
}

/// `s` with the bytes at `at` replaced by `b`, inside the current length.
#[verifier::opaque]
pub open spec fn put(s: Seq<u8>, at: int, b: Seq<u8>) -> Seq<u8> {
    s.subrange(0, at) + b + s.subrange(at + b.len(), s.len() as int)
}

/// A disk-relative offset made file-absolute, or `None` on overflow.
pub open spec fn absolute(rs: Seq<Range<u64>>, disk: nat, offset: nat) -> Option<nat> {
    if rs[disk as int].start + offset <= u64::MAX {
        Some((rs[disk as int].start + offset) as nat)
    } else {
        None
    }
}

pub open spec fn clamp32(v: nat) -> nat {
    if v > u32::MAX {
        u32::MAX as nat
    } else {
        v
    }
}

// ---------------------------------------------------------------------------
// Records.

/// Central directory location in a legacy EOCD record, made absolute. The
/// disk where the central directory starts is the field at offset 6.
#[verifier::opaque]
pub open spec fn eocd_location(e: Seq<u8>, rs: Seq<Range<u64>>) -> Result<CdLocation, Error> {
    let disk = le16(e, 6);
    if disk >= rs.len() {
        Err(Error::MissingDisk(disk as usize))
    } else {
        match absolute(rs, disk, le32(e, 16)) {
            None => Err(Error::OutOfBounds(Field::Cd32Offset)),
            Some(off) => Ok(
                CdLocation {
                    entries: le16(e, 10) as u64,
                    size: le32(e, 12) as u64,
                    offset: off as u64,
                },
            ),
        }
    }
}

/// The legacy EOCD record rewritten for a single disk.
#[verifier::opaque]
pub open spec fn eocd_patched(e: Seq<u8>, loc: CdLocation) -> Seq<u8> {
    put(put(put(e, 4, crate::io::zeros(4)), 8, le_bytes2(loc.entries as nat)), 16, le_bytes4(clamp32(loc.offset as nat)))
}

/// Absolute offset of the zip64 EOCD named by a zip64 EOCD locator.
#[verifier::opaque]
pub open spec fn locator_target(l: Seq<u8>, rs: Seq<Range<u64>>) -> Result<u64, Error> {
    let disk = le32(l, 4);
    if disk >= rs.len() {
        Err(Error::MissingDisk(disk as usize))
    } else {
        match absolute(rs, disk, le64(l, 8)) {
            None => Err(Error::OutOfBounds(Field::Eocd64Offset)),
            Some(off) => Ok(off as u64),
        }
    }
}

/// The zip64 EOCD locator rewritten for a single disk.
#[verifier::opaque]
pub open spec fn locator_patched(l: Seq<u8>, target: u64) -> Seq<u8> {
    put(put(put(l, 4, crate::io::zeros(4)), 8, le_bytes8(target as nat)), 16, le_bytes4(1))
}

/// Central directory location in a zip64 EOCD record, made absolute.
#[verifier::opaque]
pub open spec fn eocd64_location(e: Seq<u8>, rs: Seq<Range<u64>>) -> Result<CdLocation, Error> {
    let disk = le32(e, 20);
    if le32(e, 0) != MAGIC_EOCD64 {
        Err(Error::InvalidEocd64Magic(le32(e, 0) as u32))
    } else if disk >= rs.len() {
        Err(Error::MissingDisk(disk as usize))
    } else {
        match absolute(rs, disk, le64(e, 48)) {
            None => Err(Error::OutOfBounds(Field::Cd64Offset)),
            Some(off) => Ok(
                CdLocation { entries: le64(e, 32) as u64, size: le64(e, 40) as u64, offset: off as u64 },
            ),
        }
    }
}

/// The zip64 EOCD record rewritten for a single disk.
#[verifier::opaque]
pub open spec fn eocd64_patched(e: Seq<u8>, loc: CdLocation) -> Seq<u8> {
    put(put(put(e, 16, crate::io::zeros(8)), 24, le_bytes8(loc.entries as nat)), 48, le_bytes8(loc.offset as nat))
}

/// The fixed part of the central directory entry at `pos` rewritten for a
/// single disk. Entries whose disk field is `0xFFFF` keep it: their real
/// values live in the zip64 extra field.
#[verifier::opaque]
pub open spec fn entry_header_fixed(cd: Seq<u8>, pos: int, rs: Seq<Range<u64>>) -> Result<Seq<u8>, Error> {
    let disk = le16(cd, pos + 34);
    if disk == 0xffff {
        Ok(cd)
    } else if disk >= rs.len() {
        Err(Error::MissingDisk(disk as usize))
    } else {
        match absolute(rs, disk, le32(cd, pos + 42)) {
            None => Err(Error::OutOfBounds(Field::Entry32Offset)),
            Some(off) => Ok(put(put(cd, pos + 34, crate::io::zeros(2)), pos + 42, le_bytes4(clamp32(off)))),
        }
    }
}

/// The extra-field blocks in `[p, end)` of entry number `idx` rewritten: each
/// zip64 block (tag 1) long enough to hold the local header offset and the
/// disk number gets an absolute offset and disk zero.
pub open spec fn extra_fixed(cd: Seq<u8>, p: int, end: int, idx: u64, rs: Seq<Range<u64>>) -> Result<Seq<u8>, Error>
    decreases end - p,
{
    if p >= end {
        Ok(cd)
    } else if end - p < 4 {
        Err(Error::CdExtraTruncated(idx))
    } else {
        let id = le16(cd, p);
        let size = le16(cd, p + 2);
        if end - (p + 4) < size {
            Err(Error::CdExtraTruncated(idx))
        } else if id == 1 && size >= 28 {
            let disk = le32(cd, p + 28);
            if disk >= rs.len() {
                Err(Error::MissingDisk(disk as usize))
            } else {
                match absolute(rs, disk, le64(cd, p + 20)) {
                    None => Err(Error::OutOfBounds(Field::Entry64Offset)),
                    Some(off) => extra_fixed(
                        put(put(cd, p + 20, le_bytes8(off)), p + 28, crate::io::zeros(4)),
                        p + 4 + size,
                        end,
                        idx,
                        rs,
                    ),
                }
            }
        } else {
            extra_fixed(cd, p + 4 + size, end, idx, rs)
        }
    }
}

/// Total length of the central directory entry at `pos`.
pub open spec fn entry_len(cd: Seq<u8>, pos: int) -> int {
    (46 + le16(cd, pos + 28) + le16(cd, pos + 30) + le16(cd, pos + 32)) as int
}

/// The central directory `cd` with entries `idx..n`, the first of them at
/// `pos`, rewritten for a single disk; the entries must fill `cd` exactly.
pub open spec fn entries_fixed(cd: Seq<u8>, pos: int, idx: nat, n: nat, rs: Seq<Range<u64>>) -> Result<Seq<u8>, Error>
    decreases n - idx,
{
    if idx >= n {
        if pos == cd.len() {
            Ok(cd)
        } else {
            Err(Error::CdExtraSuffix)
        }
    } else if cd.len() - pos < 46 {
        Err(Error::CdTruncated(idx as u64))
    } else if le32(cd, pos) != MAGIC_CD {
        Err(Error::InvalidCdMagic(idx as u64, le32(cd, pos) as u32))
    } else if pos + entry_len(cd, pos) > cd.len() {
        Err(Error::CdTruncated(idx as u64))
    } else {
        let extra = pos + 46 + le16(cd, pos + 28);
        match entry_header_fixed(cd, pos, rs) {
            Err(e) => Err(e),
            Ok(cd1) => match extra_fixed(cd1, extra, extra + le16(cd, pos + 30), idx as u64, rs) {
                Err(e) => Err(e),
                Ok(cd2) => entries_fixed(cd2, pos + entry_len(cd, pos), idx + 1, n, rs),
            },
        }
    }
}

/// The stream `d` after its central directory, found at `loc`, is fixed.
#[verifier::opaque]
pub open spec fn cd_repaired(d: Seq<u8>, loc: CdLocation, rs: Seq<Range<u64>>) -> Result<Seq<u8>, Error> {
    if loc.size > usize::MAX {
        Err(Error::OutOfBounds(Field::CdSize))
    } else if loc.offset + loc.size > d.len() {
        Err(Error::Io(IoError::UnexpectedEof))
    } else {
        let cd = d.subrange(loc.offset as int, loc.offset + loc.size);
        match entries_fixed(cd, 0, 0, loc.entries as nat, rs) {
            Err(e) => Err(e),
            Ok(fixed) => Ok(put(d, loc.offset as int, fixed)),
        }
    }
}

pub open spec fn is_eocd_at(w: Seq<u8>, i: int) -> bool {
    0 <= i && i + 4 <= w.len() && le32(w, i) == MAGIC_EOCD
}

pub open spec fn has_eocd(w: Seq<u8>) -> bool {
    exists|i: int| is_eocd_at(w, i)
}

/// First position of the EOCD magic in `w`.
pub open spec fn first_eocd(w: Seq<u8>) -> int {
    choose|i: int| is_eocd_at(w, i) && forall|j: int| 0 <= j < i ==> !is_eocd_at(w, j)
}

/// The stream after the zip64 records that precede the EOCD found at `p` in
/// window `w` are fixed, if there are any, with the central directory
/// location that holds from then on.
#[verifier::opaque]
pub open spec fn zip64_stage(
    d: Seq<u8>,
    w: Seq<u8>,
    p: int,
    eocd_off: int,
    loc: CdLocation,
    rs: Seq<Range<u64>>,
) -> Result<(Seq<u8>, CdLocation), Error> {
    if p >= 20 && le32(w, p - 20) == MAGIC_EOCD64_LOCATOR {
        let l = w.subrange(p - 20, p);
        match locator_target(l, rs) {
            Err(e) => Err(e),
            Ok(t) => {
                let d3 = put(d, eocd_off - 20, locator_patched(l, t));
                if t + 56 > d3.len() {
                    Err(Error::Io(IoError::UnexpectedEof))
                } else {
                    let e64 = d3.subrange(t as int, t + 56);
                    match eocd64_location(e64, rs) {
                        Err(e) => Err(e),
                        Ok(loc64) => Ok((put(d3, t as int, eocd64_patched(e64, loc64)), loc64)),
                    }
                }
            },
        }
    } else {
        Ok((d, loc))
    }
}

pub open spec fn zip64_repaired(
    d: Seq<u8>,
    w: Seq<u8>,
    p: int,
    eocd_off: int,
    loc: CdLocation,
    rs: Seq<Range<u64>>,
) -> Result<Seq<u8>, Error> {
    match zip64_stage(d, w, p, eocd_off, loc, rs) {
        Err(e) => Err(e),
        Ok((d4, loc4)) => cd_repaired(d4, loc4, rs),
    }
}

pub open spec fn window_len(size: nat) -> nat {
    if size < SEARCH_WINDOW {
        size
    } else {
        SEARCH_WINDOW as nat
    }
}

/// The stream after its legacy EOCD is found and fixed: the new contents,
/// the search window, the EOCD's position in the window and in the stream,
/// and the central directory location it gives.
#[verifier::opaque]
pub open spec fn eocd_stage(d: Seq<u8>, rs: Seq<Range<u64>>) -> Result<(Seq<u8>, Seq<u8>, int, int, CdLocation), Error> {
    let ws = window_len(d.len());
    let base = d.len() - ws;
    let w = d.subrange(base, d.len() as int);
    if !has_eocd(w) {
        Err(Error::EocdNotFound)
    } else {
        let p = first_eocd(w);
        if ws - p < 22 {
            Err(Error::EocdTruncated)
        } else {
            let e = w.subrange(p, ws as int);
            match eocd_location(e, rs) {
                Err(err) => Err(err),
                Ok(loc) => Ok((put(d, base + p, eocd_patched(e, loc)), w, p, base + p, loc)),
            }
        }
    }
}

/// A split archive whose marker has been wiped, with all records fixed.
pub open spec fn records_repaired(d: Seq<u8>, rs: Seq<Range<u64>>) -> Result<Seq<u8>, Error> {
    match eocd_stage(d, rs) {
        Err(e) => Err(e),
        Ok((d2, w, p, off, loc)) => zip64_repaired(d2, w, p, off, loc, rs),
    }
}

/// The first four bytes of `d` are zero, as after the split marker is wiped.
pub open spec fn starts_zeroed(d: Seq<u8>) -> bool {
    d.len() >= 4 && d[0] == 0 && d[1] == 0 && d[2] == 0 && d[3] == 0
}

/// An error that comes from walking the central directory.
pub open spec fn is_cd_walk_error(e: Error) -> bool {
    match e {
        Error::CdTruncated(_) | Error::InvalidCdMagic(_, _) | Error::CdExtraTruncated(_) | Error::CdExtraSuffix => true,
        Error::OutOfBounds(f) => f == Field::Entry32Offset || f == Field::Entry64Offset || f == Field::CdSize,
        _ => false,
    }
}

/// The stream just before its central directory is read: the marker wiped
/// and the EOCD records fixed. When the directory walk fails, this is what
/// the stream holds; the directory itself is not written back.
pub open spec fn cd_input(d1: Seq<u8>, rs: Seq<Range<u64>>) -> Seq<u8> {
    match eocd_stage(d1, rs) {
        Ok((d2, w, p, off, loc)) => match zip64_stage(d2, w, p, off, loc, rs) {
            Ok((d4, _)) => d4,
            Err(_) => d1,
        },
        Err(_) => d1,
    }
}

/// The stream `d`, the concatenation of the disks `rs` of a split archive,
/// rewritten into a single-disk archive. A stream that starts with a local
/// header is already unsplit and stays as it is.
pub open spec fn repair(d: Seq<u8>, rs: Seq<Range<u64>>) -> Result<Seq<u8>, Error> {
    if rs.len() == 0 {
        Err(Error::MissingDisk(0))
    } else if d.len() < 4 {
        Err(Error::Io(IoError::UnexpectedEof))
    } else if le32(d, 0) == MAGIC_LOCAL {
        Ok(d)
    } else if le32(d, 0) != MAGIC_SPLIT {
        Err(Error::InvalidSplitMagic(le32(d, 0) as u32))
    } else {
        records_repaired(put(d, 0, crate::io::zeros(4)), rs)
    }
}


// ---------------------------------------------------------------------------
// Executable helpers.

fn get_le16(b: &[u8], i: usize) -> (r: u16)
    requires
        i + 2 <= b@.len(),
    ensures
        r as nat == le16(b@, i as int),
{
    b[i] as u16 + 256 * (b[i + 1] as u16)
}

fn get_le32(b: &[u8], i: usize) -> (r: u32)
    requires
        i + 4 <= b@.len(),
    ensures
        r as nat == le32(b@, i as int),
{
    // Bounds the length by usize::MAX.
    let _n = b.len();
    get_le16(b, i) as u32 + 65536 * (get_le16(b, i + 2) as u32)
}

fn get_le64(b: &[u8], i: usize) -> (r: u64)
    requires
        i + 8 <= b@.len(),
    ensures
        r as nat == le64(b@, i as int),
{
    // Bounds the length by usize::MAX.
    let _n = b.len();
    get_le32(b, i) as u64 + 0x1_0000_0000 * (get_le32(b, i + 4) as u64)
}

fn le2_vec(v: u64) -> (r: Vec<u8>)
    ensures
        r@ == le_bytes2(v as nat),
        r@.len() == 2,
{
    reveal(le_bytes2);
    let r = vec![(v % 256) as u8, ((v / 256) % 256) as u8];
    assert(r@ =~= le_bytes2(v as nat));
    r
}

fn le4_vec(v: u64) -> (r: Vec<u8>)
    ensures
        r@ == le_bytes4(v as nat),
        r@.len() == 4,
{
    reveal(le_bytes4);
    let mut r = le2_vec(v % 65536);
    let mut hi = le2_vec((v / 65536) % 65536);
    r.append(&mut hi);
    r
}

fn le8_vec(v: u64) -> (r: Vec<u8>)
    ensures
        r@ == le_bytes8(v as nat),
        r@.len() == 8,
{
    reveal(le_bytes8);
    let mut r = le4_vec(v % 0x1_0000_0000);
    let mut hi = le4_vec(v / 0x1_0000_0000);
    assert((v / 0x1_0000_0000) as nat == ((v as nat / 0x1_0000_0000) % 0x1_0000_0000));
    r.append(&mut hi);
    r
}

fn set_bytes(b: &mut Vec<u8>, at: usize, src: &[u8])
    requires
        at + src@.len() <= old(b)@.len(),
    ensures
        final(b)@ == put(old(b)@, at as int, src@),
        final(b)@.len() == old(b)@.len(),
{
    // Bounds the length by usize::MAX.
    let _n = b.len();
    let mut k: usize = 0;
    while k < src.len()
        invariant
            at + src@.len() <= b@.len(),
            b@.len() == old(b)@.len(),
            k <= src@.len(),
            forall|j: int|
                0 <= j < b@.len() ==> b@[j] == (if at <= j < at + k {
                    src@[j - at]
                } else {
                    old(b)@[j]
                }),
        decreases src.len() - k,
    {
        // Bounds the length by usize::MAX.
        let _n = b.len();
        b.set(at + k, src[k]);
        k += 1;
    }
    reveal(put);
    assert(b@ =~= put(old(b)@, at as int, src@));
}

fn copy_range(b: &[u8], from: usize, to: usize) -> (r: Vec<u8>)
    requires
        from <= to <= b@.len(),
    ensures
        r@ == b@.subrange(from as int, to as int),
{
    let mut r: Vec<u8> = Vec::new();
    let mut k: usize = from;
    while k < to
        invariant
            from <= k <= to <= b@.len(),
            r@ == b@.subrange(from as int, k as int),
        decreases to - k,
    {
        r.push(b[k]);
        k += 1;
        assert(r@ =~= b@.subrange(from as int, k as int));
    }
    r
}

/// Make a disk-relative offset absolute.
fn to_absolute(rs: &[Range<u64>], disk: u64, offset: u64, field: Field) -> (r: Result<u64, Error>)
    ensures
        disk >= rs@.len() ==> r == Err::<u64, Error>(Error::MissingDisk(disk as usize)),
        disk < rs@.len() ==> r == match absolute(rs@, disk as nat, offset as nat) {
            None => Err::<u64, Error>(Error::OutOfBounds(field)),
            Some(o) => Ok(o as u64),
        },
{
    if disk >= rs.len() as u64 {
        return Err(Error::MissingDisk(disk as usize));
    }
    let start = rs[disk as usize].start;
    if offset > u64::MAX - start {
        Err(Error::OutOfBounds(field))
    } else {
        Ok(start + offset)
    }
}

fn fix_eocd(e: &mut Vec<u8>, rs: &[Range<u64>]) -> (r: Result<CdLocation, Error>)
    requires
        old(e)@.len() >= 22,
    ensures
        r == eocd_location(old(e)@, rs@),
        r matches Err(err) ==> !is_cd_walk_error(err),
        r matches Ok(loc) ==> final(e)@ == eocd_patched(old(e)@, loc),
        final(e)@.len() == old(e)@.len(),
{
    reveal(eocd_location);
    reveal(eocd_patched);
    let disk = get_le16(e.as_slice(), 6);
    let entries = get_le16(e.as_slice(), 10);
    let size = get_le32(e.as_slice(), 12);
    let doffset = get_le32(e.as_slice(), 16);
    let offset = match to_absolute(rs, disk as u64, doffset as u64, Field::Cd32Offset) {
        Ok(o) => o,
        Err(err) => return Err(err),
    };
    let clamped: u64 = if offset > u32::MAX as u64 {
        u32::MAX as u64
    } else {
        offset
    };
    let loc = CdLocation { entries: entries as u64, size: size as u64, offset };
    set_bytes(e, 4, le4_vec(0).as_slice());
    set_bytes(e, 8, le2_vec(entries as u64).as_slice());
    set_bytes(e, 16, le4_vec(clamped).as_slice());
    proof { lemma_zero_bytes(); }
    Ok(loc)
}

fn fix_locator(l: &mut Vec<u8>, rs: &[Range<u64>]) -> (r: Result<u64, Error>)
    requires
        old(l)@.len() == 20,
    ensures
        r == locator_target(old(l)@, rs@),
        r matches Err(err) ==> !is_cd_walk_error(err),
        r matches Ok(t) ==> final(l)@ == locator_patched(old(l)@, t),
        final(l)@.len() == old(l)@.len(),
{
    reveal(locator_target);
    reveal(locator_patched);
    let disk = get_le32(l.as_slice(), 4);
    let doffset = get_le64(l.as_slice(), 8);
    let target = match to_absolute(rs, disk as u64, doffset, Field::Eocd64Offset) {
        Ok(o) => o,
        Err(err) => return Err(err),
    };
    set_bytes(l, 4, le4_vec(0).as_slice());
    set_bytes(l, 8, le8_vec(target).as_slice());
    set_bytes(l, 16, le4_vec(1).as_slice());
    proof { lemma_zero_bytes(); }
    Ok(target)
}

fn fix_eocd64(e: &mut Vec<u8>, rs: &[Range<u64>]) -> (r: Result<CdLocation, Error>)
    requires
        old(e)@.len() == 56,
    ensures
        r == eocd64_location(old(e)@, rs@),
        r matches Err(err) ==> !is_cd_walk_error(err),
        r is Ok ==> le32(old(e)@, 0) == MAGIC_EOCD64,
        r matches Ok(loc) ==> final(e)@ == eocd64_patched(old(e)@, loc),
        final(e)@.len() == old(e)@.len(),
{
    reveal(eocd64_location);
    reveal(eocd64_patched);
    let magic = get_le32(e.as_slice(), 0);
    if magic != MAGIC_EOCD64 {
        return Err(Error::InvalidEocd64Magic(magic));
    }
    let disk = get_le32(e.as_slice(), 20);
    let entries = get_le64(e.as_slice(), 32);
    let size = get_le64(e.as_slice(), 40);
    let doffset = get_le64(e.as_slice(), 48);
    let offset = match to_absolute(rs, disk as u64, doffset, Field::Cd64Offset) {
        Ok(o) => o,
        Err(err) => return Err(err),
    };
    set_bytes(e, 16, le8_vec(0).as_slice());
    set_bytes(e, 24, le8_vec(entries).as_slice());
    set_bytes(e, 48, le8_vec(offset).as_slice());
    proof { lemma_zero_bytes(); }
    Ok(CdLocation { entries, size, offset })
}

/// Fix the extra-field blocks in `cd[p..end]` of entry number `idx`.
fn fix_extra(cd: &mut Vec<u8>, p: usize, end: usize, idx: u64, rs: &[Range<u64>]) -> (r: Result<(), Error>)
    requires
        p <= end <= old(cd)@.len(),
    ensures
        final(cd)@.len() == old(cd)@.len(),
        r is Ok ==> extra_fixed(old(cd)@, p as int, end as int, idx, rs@) == Ok::<Seq<u8>, Error>(final(cd)@),
        r matches Err(e) ==> extra_fixed(old(cd)@, p as int, end as int, idx, rs@) == Err::<Seq<u8>, Error>(e),
{
    let mut q = p;
    while q < end
        invariant
            p <= q <= end <= cd@.len(),
            cd@.len() == old(cd)@.len(),
            extra_fixed(old(cd)@, p as int, end as int, idx, rs@) == extra_fixed(cd@, q as int, end as int, idx, rs@),
        decreases end - q,
    {
        if end - q < 4 {
            return Err(Error::CdExtraTruncated(idx));
        }
        let id = get_le16(cd.as_slice(), q);
        let size = get_le16(cd.as_slice(), q + 2);
        if end - (q + 4) < size as usize {
            return Err(Error::CdExtraTruncated(idx));
        }
        if id == 1 && size >= 28 {
            let doffset = get_le64(cd.as_slice(), q + 20);
            let disk = get_le32(cd.as_slice(), q + 28);
            let offset = match to_absolute(rs, disk as u64, doffset, Field::Entry64Offset) {
                Ok(o) => o,
                Err(err) => return Err(err),
            };
            set_bytes(cd, q + 20, le8_vec(offset).as_slice());
            set_bytes(cd, q + 28, le4_vec(0).as_slice());
            proof { lemma_zero_bytes(); }
        }
        q = q + 4 + size as usize;
    }
    Ok(())
}

/// Fix the disk number and local header offset of the entry at `pos`.
fn fix_entry_header(cd: &mut Vec<u8>, pos: usize, rs: &[Range<u64>]) -> (r: Result<(), Error>)
    requires
        pos + 46 <= old(cd)@.len(),
    ensures
        final(cd)@.len() == old(cd)@.len(),
        r is Ok ==> entry_header_fixed(old(cd)@, pos as int, rs@) == Ok::<Seq<u8>, Error>(final(cd)@),
        r matches Err(e) ==> entry_header_fixed(old(cd)@, pos as int, rs@) == Err::<Seq<u8>, Error>(e),
{
    reveal(entry_header_fixed);
    // Bounds the length by usize::MAX.
    let _n = cd.len();
    let disk = get_le16(cd.as_slice(), pos + 34);
    if disk == 0xffff {
        return Ok(());
    }
    let doffset = get_le32(cd.as_slice(), pos + 42);
    let offset = match to_absolute(rs, disk as u64, doffset as u64, Field::Entry32Offset) {
        Ok(o) => o,
        Err(err) => return Err(err),
    };
    let clamped: u64 = if offset > u32::MAX as u64 {
        u32::MAX as u64
    } else {
        offset
    };
    set_bytes(cd, pos + 34, le2_vec(0).as_slice());
    set_bytes(cd, pos + 42, le4_vec(clamped).as_slice());
    proof { lemma_zero_bytes(); }
    Ok(())
}

/// Fix the `n` entries of the central directory `cd`.
fn fix_central_directory(cd: &mut Vec<u8>, n: u64, rs: &[Range<u64>]) -> (r: Result<(), Error>)
    ensures
        final(cd)@.len() == old(cd)@.len(),
        r is Ok ==> entries_fixed(old(cd)@, 0, 0, n as nat, rs@) == Ok::<Seq<u8>, Error>(final(cd)@),
        r matches Err(e) ==> entries_fixed(old(cd)@, 0, 0, n as nat, rs@) == Err::<Seq<u8>, Error>(e),
        r is Ok && old(cd)@.len() > 0 ==> old(cd)@.len() >= 4 && le32(old(cd)@, 0) == MAGIC_CD,
{
    let mut pos: usize = 0;
    let mut idx: u64 = 0;
    while idx < n
        invariant
            pos <= cd@.len(),
            idx <= n,
            cd@.len() == old(cd)@.len(),
            idx == 0 ==> pos == 0 && cd@ == old(cd)@,
            idx > 0 ==> old(cd)@.len() >= 4 && le32(old(cd)@, 0) == MAGIC_CD,
            entries_fixed(old(cd)@, 0, 0, n as nat, rs@) == entries_fixed(cd@, pos as int, idx as nat, n as nat, rs@),
        decreases n - idx,
    {
        if cd.len() - pos < 46 {
            return Err(Error::CdTruncated(idx));
        }
        let magic = get_le32(cd.as_slice(), pos);
        if magic != MAGIC_CD {
            return Err(Error::InvalidCdMagic(idx, magic));
        }
        let name_len = get_le16(cd.as_slice(), pos + 28) as usize;
        let extra_len = get_le16(cd.as_slice(), pos + 30) as usize;
        let comment_len = get_le16(cd.as_slice(), pos + 32) as usize;
        let entry_size = 46 + name_len + extra_len + comment_len;
        if entry_size > cd.len() - pos {
            return Err(Error::CdTruncated(idx));
        }
        match fix_entry_header(cd, pos, rs) {
            Ok(()) => {},
            Err(err) => return Err(err),
        }
        let extra = pos + 46 + name_len;
        match fix_extra(cd, extra, extra + extra_len, idx, rs) {
            Ok(()) => {},
            Err(err) => return Err(err),
        }
        pos = pos + entry_size;
        idx = idx + 1;
    }
    if pos != cd.len() {
        return Err(Error::CdExtraSuffix);
    }
    Ok(())
}

/// First position of the EOCD magic in `w`.
fn find_eocd(w: &[u8]) -> (r: Option<usize>)
    ensures
        r matches Some(p) ==> is_eocd_at(w@, p as int) && forall|j: int| 0 <= j < p ==> !is_eocd_at(w@, j),
        r is None ==> !has_eocd(w@),
{
    let mut i: usize = 0;
    while w.len() >= 4 && i <= w.len() - 4
        invariant
            forall|j: int| 0 <= j < i ==> !is_eocd_at(w@, j),
        decreases w.len() - i,
    {
        if get_le32(w, i) == MAGIC_EOCD {
            return Some(i);
        }
        i += 1;
    }
    assert forall|j: int| !is_eocd_at(w@, j) by {
        if 0 <= j < i {
        }
    }
    None
}

proof fn lemma_first_eocd(w: Seq<u8>, p: int)
    requires
        is_eocd_at(w, p),
        forall|j: int| 0 <= j < p ==> !is_eocd_at(w, j),
    ensures
        has_eocd(w),
        first_eocd(w) == p,
{
    assert(is_eocd_at(w, p) && forall|j: int| 0 <= j < p ==> !is_eocd_at(w, j));
    let q = first_eocd(w);
    assert(is_eocd_at(w, q) && forall|j: int| 0 <= j < q ==> !is_eocd_at(w, j));
    if q < p {
        assert(!is_eocd_at(w, q));
    }
    if p < q {
        assert(!is_eocd_at(w, p));
    }
}

proof fn lemma_write_in_place(s: Seq<u8>, at: int, b: Seq<u8>)
    requires
        0 <= at,
        at + b.len() <= s.len(),
    ensures
        (if b.len() == 0 {
            s
        } else {
            crate::io::write_bytes(s, at, b)
        }) == put(s, at, b),
        put(s, at, b).len() == s.len(),
{
    reveal(put);
    assert(b.len() == 0 ==> s =~= put(s, at, b));
}

proof fn lemma_zero_bytes()
    ensures
        crate::io::zeros(2) == le_bytes2(0),
        crate::io::zeros(4) == le_bytes4(0),
        crate::io::zeros(8) == le_bytes8(0),
{
    reveal(le_bytes2);
    reveal(le_bytes4);
    reveal(le_bytes8);
    assert(crate::io::zeros(2) =~= le_bytes2(0));
    assert(crate::io::zeros(4) =~= le_bytes4(0));
    assert(crate::io::zeros(8) =~= le_bytes8(0));
}

/// Fix the header offsets of a split zip that was naively concatenated, so
/// that the stream reads as a single-disk archive. `disk_ranges` holds the
/// byte range of each disk within the stream.
#[verifier::spinoff_prover]
#[verifier::rlimit(80)]
pub fn fix_offsets<F: RandomAccess>(file: &mut F, disk_ranges: &[Range<u64>]) -> (r: Result<(), Error>)
    requires
        old(file).wf(),
        disk_ranges@.len() > 0 ==> disk_ranges@.last().end == old(file).bytes().len(),
    ensures
        final(file).wf(),
        r is Ok ==> repair(old(file).bytes(), disk_ranges@) == Ok::<Seq<u8>, Error>(final(file).bytes()),
        r matches Err(e) ==> e is Io || repair(old(file).bytes(), disk_ranges@) == Err::<Seq<u8>, Error>(e),
        old(file).total() ==> (repair(old(file).bytes(), disk_ranges@) is Ok ==> r is Ok),
        old(file).total() ==> final(file).total(),
        old(file).total() ==> (r matches Err(e) ==> repair(old(file).bytes(), disk_ranges@) == Err::<Seq<u8>, Error>(e)),
        !(old(file).bytes().len() >= 4 && le32(old(file).bytes(), 0) == MAGIC_SPLIT) ==> final(file).bytes()
            == old(file).bytes(),
        r matches Err(e) && is_cd_walk_error(e) ==> final(file).bytes() == cd_input(
            put(old(file).bytes(), 0, crate::io::zeros(4)),
            disk_ranges@,
        ),
        r is Ok ==> !(final(file).bytes().len() >= 4 && le32(final(file).bytes(), 0) == MAGIC_SPLIT),
        r is Ok ==> final(file).bytes().len() == old(file).bytes().len(),
{
    if disk_ranges.len() == 0 {
        return Err(Error::MissingDisk(0));
    }
    let ghost d0 = file.bytes();
    let file_size = disk_ranges[disk_ranges.len() - 1].end;
    let magic = match file.read_exact_at(0, 4) {
        Ok(m) => m,
        Err(e) => return Err(Error::Io(e)),
    };
    let m = get_le32(magic.as_slice(), 0);
    assert(le32(magic@, 0) == le32(d0, 0));
    if m != MAGIC_SPLIT {
        if m == MAGIC_LOCAL {
            return Ok(());
        }
        return Err(Error::InvalidSplitMagic(m));
    }

    // Wipe out the split marker. Extra leading bytes are harmless as long as
    // they carry no meaning for zip readers.
    match file.write_all_at(0, le4_vec(0).as_slice()) {
        Ok(()) => {},
        Err(e) => return Err(Error::Io(e)),
    }
    proof {
        lemma_zero_bytes();
        lemma_write_in_place(d0, 0, crate::io::zeros(4));
        reveal(put);
        assert(starts_zeroed(put(d0, 0, crate::io::zeros(4))));
    }
    repair_records(file, file_size, disk_ranges)
}

/// Find, fix and write back the legacy EOCD.
#[verifier::spinoff_prover]
#[verifier::rlimit(80)]
fn repair_eocd<F: RandomAccess>(file: &mut F, file_size: u64, disk_ranges: &[Range<u64>]) -> (r: Result<(Vec<u8>, usize, u64, CdLocation), Error>)
    requires
        old(file).wf(),
        file_size == old(file).bytes().len(),
    ensures
        final(file).wf(),
        old(file).total() ==> final(file).total(),
        r matches Err(e) ==> !is_cd_walk_error(e),
        starts_zeroed(old(file).bytes()) && r is Ok ==> starts_zeroed(final(file).bytes()),
        r is Ok ==> final(file).bytes().len() == old(file).bytes().len(),
        r matches Ok((w, p, off, loc)) ==> forall|j: int|
            0 <= j < p ==> #[trigger] w@[j] == final(file).bytes()[off - p + j],
        r matches Ok((w, p, off, loc)) ==> eocd_stage(old(file).bytes(), disk_ranges@) == Ok::<(Seq<u8>, Seq<u8>, int, int, CdLocation), Error>((final(file).bytes(), w@, p as int, off as int, loc))
            && p <= w@.len() && p <= off <= final(file).bytes().len(),
        r matches Err(e) ==> e is Io || eocd_stage(old(file).bytes(), disk_ranges@) == Err::<(Seq<u8>, Seq<u8>, int, int, CdLocation), Error>(e),
        old(file).total() ==> (eocd_stage(old(file).bytes(), disk_ranges@) is Ok ==> r is Ok),
        old(file).total() ==> (r matches Err(e) ==> eocd_stage(old(file).bytes(), disk_ranges@) == Err::<(Seq<u8>, Seq<u8>, int, int, CdLocation), Error>(e)),
{
    reveal(eocd_stage);
    let ghost d1 = file.bytes();
    let ws: u64 = if file_size < SEARCH_WINDOW {
        file_size
    } else {
        SEARCH_WINDOW
    };
    let base = file_size - ws;
    let window = match file.read_exact_at(base, ws as usize) {
        Ok(w) => w,
        Err(e) => return Err(Error::Io(e)),
    };
    let p = match find_eocd(window.as_slice()) {
        Some(p) => p,
        None => return Err(Error::EocdNotFound),
    };
    proof {
        lemma_first_eocd(window@, p as int);
    }
    if window.len() - p < 22 {
        return Err(Error::EocdTruncated);
    }
    let eocd_foffset = base + p as u64;
    let mut eocd = copy_range(window.as_slice(), p, window.len());
    let loc = match fix_eocd(&mut eocd, disk_ranges) {
        Ok(l) => l,
        Err(err) => return Err(err),
    };
    match file.write_all_at(eocd_foffset, eocd.as_slice()) {
        Ok(()) => {},
        Err(e) => return Err(Error::Io(e)),
    }
    proof {
        lemma_write_in_place(d1, eocd_foffset as int, eocd@);
        reveal(put);
        if starts_zeroed(d1) {
            lemma_magic_first_byte(window@, p as int, MAGIC_EOCD);
            assert(window@[p as int] == d1[eocd_foffset as int]);
            lemma_put_keeps_prefix(d1, eocd_foffset as int, eocd@);
        }
        assert forall|j: int| 0 <= j < p implies #[trigger] window@[j] == file.bytes()[eocd_foffset - p + j] by {
            assert(window@[j] == d1[base + j]);
        }
    }
    Ok((window, p, eocd_foffset, loc))
}

/// Fix the records of a split archive whose marker has been wiped.
#[verifier::spinoff_prover]
#[verifier::rlimit(80)]
fn repair_records<F: RandomAccess>(file: &mut F, file_size: u64, disk_ranges: &[Range<u64>]) -> (r: Result<(), Error>)
    requires
        old(file).wf(),
        file_size == old(file).bytes().len(),
    ensures
        final(file).wf(),
        r matches Err(e) && is_cd_walk_error(e) ==> final(file).bytes() == cd_input(old(file).bytes(), disk_ranges@),
        old(file).total() ==> final(file).total(),
        starts_zeroed(old(file).bytes()) && r is Ok ==> starts_zeroed(final(file).bytes()),
        r is Ok ==> final(file).bytes().len() == old(file).bytes().len(),
        r is Ok ==> records_repaired(old(file).bytes(), disk_ranges@) == Ok::<Seq<u8>, Error>(final(file).bytes()),
        r matches Err(e) ==> e is Io || records_repaired(old(file).bytes(), disk_ranges@) == Err::<Seq<u8>, Error>(e),
        old(file).total() ==> (records_repaired(old(file).bytes(), disk_ranges@) is Ok ==> r is Ok),
        old(file).total() ==> (r matches Err(e) ==> records_repaired(old(file).bytes(), disk_ranges@) == Err::<Seq<u8>, Error>(e)),
{
    let (window, p, eocd_foffset, loc) = match repair_eocd(file, file_size, disk_ranges) {
        Ok(t) => t,
        Err(e) => return Err(e),
    };
    let cd_loc = match repair_zip64(file, window.as_slice(), p, eocd_foffset, loc, disk_ranges) {
        Ok(l) => l,
        Err(err) => return Err(err),
    };
    repair_cd(file, cd_loc, disk_ranges)
}

/// Fix the zip64 locator and zip64 EOCD in front of the EOCD at `p` in the
/// search window `w`, if there are any.
#[verifier::spinoff_prover]
#[verifier::rlimit(80)]
fn repair_zip64<F: RandomAccess>(
    file: &mut F,
    w: &[u8],
    p: usize,
    eocd_foffset: u64,
    loc: CdLocation,
    rs: &[Range<u64>],
) -> (r: Result<CdLocation, Error>)
    requires
        p <= w@.len(),
        p <= eocd_foffset <= old(file).bytes().len(),
        old(file).wf(),
        forall|j: int| 0 <= j < p ==> #[trigger] w@[j] == old(file).bytes()[eocd_foffset - p + j],
    ensures
        starts_zeroed(old(file).bytes()) && r is Ok ==> starts_zeroed(final(file).bytes()),
        r is Ok ==> final(file).bytes().len() == old(file).bytes().len(),
        final(file).wf(),
        r matches Ok(l) ==> zip64_stage(old(file).bytes(), w@, p as int, eocd_foffset as int, loc, rs@)
            == Ok::<(Seq<u8>, CdLocation), Error>((final(file).bytes(), l)),
        r matches Err(e) ==> e is Io || zip64_stage(old(file).bytes(), w@, p as int, eocd_foffset as int, loc, rs@)
            == Err::<(Seq<u8>, CdLocation), Error>(e),
        old(file).total() ==> (zip64_stage(old(file).bytes(), w@, p as int, eocd_foffset as int, loc, rs@) is Ok ==> r is Ok),
        old(file).total() ==> (r matches Err(e) ==> zip64_stage(old(file).bytes(), w@, p as int, eocd_foffset as int, loc, rs@) == Err::<(Seq<u8>, CdLocation), Error>(e)),
        old(file).total() ==> final(file).total(),
        r matches Err(e) ==> !is_cd_walk_error(e),
{
    reveal(zip64_stage);
    let ghost d2 = file.bytes();
    if !(p >= 20 && get_le32(w, p - 20) == MAGIC_EOCD64_LOCATOR) {
        return Ok(loc);
    }
    let mut locator = copy_range(w, p - 20, p);
    let target = match fix_locator(&mut locator, rs) {
        Ok(t) => t,
        Err(err) => return Err(err),
    };
    match file.write_all_at(eocd_foffset - 20, locator.as_slice()) {
        Ok(()) => {},
        Err(e) => return Err(Error::Io(e)),
    }
    proof {
        lemma_write_in_place(d2, eocd_foffset - 20, locator@);
        if starts_zeroed(d2) {
            lemma_magic_first_byte(w@, p - 20, MAGIC_EOCD64_LOCATOR);
            assert(w@[p - 20] == d2[eocd_foffset - 20]);
            lemma_put_keeps_prefix(d2, eocd_foffset - 20, locator@);
        }
    }
    let ghost d3 = file.bytes();
    let mut eocd64 = match file.read_exact_at(target, 56) {
        Ok(v) => v,
        Err(e) => return Err(Error::Io(e)),
    };
    let ghost x0 = eocd64@;
    let loc64 = match fix_eocd64(&mut eocd64, rs) {
        Ok(l) => l,
        Err(err) => return Err(err),
    };
    match file.write_all_at(target, eocd64.as_slice()) {
        Ok(()) => {},
        Err(e) => return Err(Error::Io(e)),
    }
    proof {
        lemma_write_in_place(d3, target as int, eocd64@);
        if starts_zeroed(d3) {
            lemma_magic_first_byte(x0, 0, MAGIC_EOCD64);
            assert(x0[0] == d3[target as int]);
            lemma_put_keeps_prefix(d3, target as int, eocd64@);
        }
    }
    Ok(loc64)
}

/// Read, fix and write back the central directory found at `loc`.
#[verifier::spinoff_prover]
#[verifier::rlimit(80)]
fn repair_cd<F: RandomAccess>(file: &mut F, loc: CdLocation, rs: &[Range<u64>]) -> (r: Result<(), Error>)
    requires
        old(file).wf(),
    ensures
        final(file).wf(),
        old(file).total() ==> final(file).total(),
        r matches Err(e) && !(e is Io) ==> final(file).bytes() == old(file).bytes(),
        starts_zeroed(old(file).bytes()) && r is Ok ==> starts_zeroed(final(file).bytes()),
        r is Ok ==> final(file).bytes().len() == old(file).bytes().len(),
        r is Ok ==> cd_repaired(old(file).bytes(), loc, rs@) == Ok::<Seq<u8>, Error>(final(file).bytes()),
        r matches Err(e) ==> e is Io || cd_repaired(old(file).bytes(), loc, rs@) == Err::<Seq<u8>, Error>(e),
        old(file).total() ==> (cd_repaired(old(file).bytes(), loc, rs@) is Ok ==> r is Ok),
        old(file).total() ==> (r matches Err(e) ==> cd_repaired(old(file).bytes(), loc, rs@) == Err::<Seq<u8>, Error>(e)),
{
    reveal(cd_repaired);
    let ghost d4 = file.bytes();
    if loc.size > usize::MAX as u64 {
        return Err(Error::OutOfBounds(Field::CdSize));
    }
    let mut cd = match file.read_exact_at(loc.offset, loc.size as usize) {
        Ok(v) => v,
        Err(e) => return Err(Error::Io(e)),
    };
    let ghost cd0 = cd@;
    match fix_central_directory(&mut cd, loc.entries, rs) {
        Ok(()) => {},
        Err(err) => return Err(err),
    }
    match file.write_all_at(loc.offset, cd.as_slice()) {
        Ok(()) => {},
        Err(e) => return Err(Error::Io(e)),
    }
    proof {
        lemma_write_in_place(d4, loc.offset as int, cd@);
        if starts_zeroed(d4) {
            if cd0.len() > 0 {
                lemma_magic_first_byte(cd0, 0, MAGIC_CD);
                assert(cd0[0] == d4[loc.offset as int]);
            }
            lemma_put_keeps_prefix(d4, loc.offset as int, cd@);
        }
    }
    Ok(())
}


/// A record magic starts with `P`, so none starts in a zeroed prefix.
proof fn lemma_magic_first_byte(s: Seq<u8>, i: int, m: u32)
    requires
        0 <= i,
        i + 4 <= s.len(),
        le32(s, i) == m,
        m % 256 == 0x50,
    ensures
        s[i] == 0x50,
{
    let x = le16(s, i + 2);
    assert(le32(s, i) == s[i] + 256 * (s[i + 1] + 256 * x));
}

proof fn lemma_put_keeps_prefix(d: Seq<u8>, at: int, b: Seq<u8>)
    requires
        starts_zeroed(d),
        0 <= at <= d.len(),
        b.len() == 0 || at >= 4,
    ensures
        starts_zeroed(put(d, at, b)),
{
    reveal(put);
    assert(put(d, at, b).subrange(0, 4) =~= d.subrange(0, 4));
}

/// Repairing a stream that already starts with a local header succeeds,
/// with any disk ranges, and leaves it as it is.
pub proof fn lemma_repair_idempotent(d: Seq<u8>, rs1: Seq<Range<u64>>, rs2: Seq<Range<u64>>)
    requires
        rs1.len() > 0,
        rs2.len() > 0,
        d.len() >= 4,
        le32(d, 0) == MAGIC_LOCAL,
    ensures
        repair(d, rs1) == Ok::<Seq<u8>, Error>(d),
        repair(d, rs2) == Ok::<Seq<u8>, Error>(d),
{
}


} // verus!
