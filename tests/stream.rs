use std::io::{Read, Seek};
use std::ops::Range;

use nudl::file::{JoinedFile, MemoryCowFile};
use nudl::io::{IoError, MemStream, Pieces, RandomAccess, SeekFrom, Source};
use nudl::split::{fix_offsets, Error};

/// Pieces held in memory.
struct MemPieces {
    pieces: Vec<Vec<u8>>,
    opened: Option<usize>,
    opens: usize,
}

impl MemPieces {
    fn new(pieces: Vec<Vec<u8>>) -> Self {
        MemPieces { pieces, opened: None, opens: 0 }
    }
}

impl Pieces for MemPieces {
    fn num_pieces(&self) -> usize {
        self.pieces.len()
    }

    fn piece_len(&mut self, i: usize) -> Result<u64, IoError> {
        Ok(self.pieces[i].len() as u64)
    }

    fn open_piece(&mut self, i: usize) -> Result<(), IoError> {
        self.opened = Some(i);
        self.opens += 1;
        Ok(())
    }

    fn read_opened(&mut self, offset: u64, len: usize) -> Result<Vec<u8>, IoError> {
        let p = &self.pieces[self.opened.unwrap()];
        let start = (offset as usize).min(p.len());
        let end = (start + len).min(p.len());
        Ok(p[start..end].to_vec())
    }
}

/// A source over one buffer.
struct MemSource {
    data: Vec<u8>,
    pos: u64,
}

impl Source for MemSource {
    fn seek_to(&mut self, pos: u64) -> Result<(), IoError> {
        self.pos = pos;
        Ok(())
    }

    fn read(&mut self, len: usize) -> Result<Vec<u8>, IoError> {
        let start = (self.pos as usize).min(self.data.len());
        let end = (start + len).min(self.data.len());
        self.pos += (end - start) as u64;
        Ok(self.data[start..end].to_vec())
    }

    fn size(&mut self) -> Result<u64, IoError> {
        self.pos = 0;
        Ok(self.data.len() as u64)
    }
}

/// `std::io` access to an overlay, for the zip reader.
struct Adapter<R: Source>(MemoryCowFile<R>);

fn io_error(e: IoError) -> std::io::Error {
    std::io::Error::new(std::io::ErrorKind::Other, format!("{e:?}"))
}

impl<R: Source> Read for Adapter<R> {
    fn read(&mut self, buf: &mut [u8]) -> std::io::Result<usize> {
        let v = self.0.read(buf.len()).map_err(io_error)?;
        buf[..v.len()].copy_from_slice(&v);
        Ok(v.len())
    }
}

impl<R: Source> Seek for Adapter<R> {
    fn seek(&mut self, pos: std::io::SeekFrom) -> std::io::Result<u64> {
        let pos = match pos {
            std::io::SeekFrom::Start(o) => SeekFrom::Start(o),
            std::io::SeekFrom::End(o) => SeekFrom::End(o),
            std::io::SeekFrom::Current(o) => SeekFrom::Current(o),
        };
        self.0.seek(pos).map_err(io_error)
    }
}

fn put16(v: &mut Vec<u8>, x: u16) {
    v.extend_from_slice(&x.to_le_bytes());
}

fn put32(v: &mut Vec<u8>, x: u32) {
    v.extend_from_slice(&x.to_le_bytes());
}

fn set16(v: &mut [u8], at: usize, x: u16) {
    v[at..at + 2].copy_from_slice(&x.to_le_bytes());
}

fn set32(v: &mut [u8], at: usize, x: u32) {
    v[at..at + 4].copy_from_slice(&x.to_le_bytes());
}

/// A split archive of stored entries, cut at `cuts` (offsets into the
/// concatenated stream, which starts with the split marker). Returns the
/// pieces.
fn split_zip(entries: &[(&str, &[u8])], cuts: &[usize]) -> Vec<Vec<u8>> {
    let mut out = vec![0x50, 0x4b, 0x07, 0x08];
    let mut locals = vec![];
    for (name, data) in entries {
        locals.push(out.len());
        put32(&mut out, 0x0403_4b50);
        put16(&mut out, 20);
        put16(&mut out, 0);
        put16(&mut out, 0);
        put32(&mut out, 0);
        put32(&mut out, crc32fast::hash(data));
        put32(&mut out, data.len() as u32);
        put32(&mut out, data.len() as u32);
        put16(&mut out, name.len() as u16);
        put16(&mut out, 0);
        out.extend_from_slice(name.as_bytes());
        out.extend_from_slice(data);
    }
    let cd_start = out.len();
    let mut cd_entries = vec![];
    for ((name, data), local) in entries.iter().zip(&locals) {
        cd_entries.push(out.len());
        put32(&mut out, 0x0201_4b50);
        put16(&mut out, 20);
        put16(&mut out, 20);
        put16(&mut out, 0);
        put16(&mut out, 0);
        put32(&mut out, 0);
        put32(&mut out, crc32fast::hash(data));
        put32(&mut out, data.len() as u32);
        put32(&mut out, data.len() as u32);
        put16(&mut out, name.len() as u16);
        put16(&mut out, 0);
        put16(&mut out, 0);
        put16(&mut out, 0);
        put16(&mut out, 0);
        put32(&mut out, 0);
        put32(&mut out, *local as u32);
        out.extend_from_slice(name.as_bytes());
    }
    let cd_size = out.len() - cd_start;
    let eocd = out.len();
    put32(&mut out, 0x0605_4b50);
    put16(&mut out, 0);
    put16(&mut out, 0);
    put16(&mut out, entries.len() as u16);
    put16(&mut out, entries.len() as u16);
    put32(&mut out, cd_size as u32);
    put32(&mut out, cd_start as u32);
    put16(&mut out, 0);

    // Make every offset relative to the disk that holds it.
    let mut bounds = vec![0];
    bounds.extend_from_slice(cuts);
    bounds.push(out.len());
    let disk_of = |a: usize| bounds.windows(2).position(|w| w[0] <= a && a < w[1]).unwrap();
    for (entry, local) in cd_entries.iter().zip(&locals) {
        let d = disk_of(*local);
        set16(&mut out, entry + 34, d as u16);
        set32(&mut out, entry + 42, (*local - bounds[d]) as u32);
    }
    let last = bounds.len() - 2;
    let cd_disk = disk_of(cd_start);
    set16(&mut out, eocd + 4, last as u16);
    set16(&mut out, eocd + 6, cd_disk as u16);
    set16(&mut out, eocd + 8, 0);
    set32(&mut out, eocd + 16, (cd_start - bounds[cd_disk]) as u32);

    bounds.windows(2).map(|w| out[w[0]..w[1]].to_vec()).collect()
}

fn joined(pieces: Vec<Vec<u8>>) -> JoinedFile<MemPieces> {
    let n = pieces.len();
    let mut j = JoinedFile::new(MemPieces::new(pieces));
    for _ in 0..n {
        j.add_file().unwrap();
    }
    j
}

fn repaired_entries(pieces: Vec<Vec<u8>>) -> Vec<(String, u32, Vec<u8>)> {
    let j = joined(pieces);
    let ranges: Vec<Range<u64>> = j.splits();
    let mut cow = MemoryCowFile::new(j, 4096).unwrap();
    if let Err(e) = fix_offsets(&mut cow, &ranges) {
        panic!("repair failed with ranges {ranges:?}: {e:?}");
    }
    cow.seek(SeekFrom::Start(0)).unwrap();
    let mut zip = zip::ZipArchive::new(Adapter(cow)).unwrap();
    let mut out = vec![];
    for i in 0..zip.len() {
        let mut e = zip.by_index(i).unwrap();
        let mut data = vec![];
        e.read_to_end(&mut data).unwrap();
        out.push((e.name().to_string(), e.crc32(), data));
    }
    out
}

fn sample_entries() -> Vec<(&'static str, Vec<u8>)> {
    vec![
        ("a.txt", b"hello, world".to_vec()),
        ("big.bin", (0..20000u32).map(|i| (i * 7 % 251) as u8).collect()),
        ("c.txt", b"third entry".to_vec()),
    ]
}

#[test]
fn split_repair_round_trip() {
    let owned = sample_entries();
    let entries: Vec<(&str, &[u8])> = owned.iter().map(|(n, d)| (*n, d.as_slice())).collect();
    for cuts in [vec![], vec![10], vec![100, 5000], vec![40, 20100, 20130], vec![20150]] {
        let pieces = split_zip(&entries, &cuts);
        let got = repaired_entries(pieces);
        assert_eq!(got.len(), owned.len(), "cuts {cuts:?}");
        for ((name, crc, data), (ename, edata)) in got.iter().zip(&owned) {
            assert_eq!(name, ename);
            assert_eq!(*crc, crc32fast::hash(edata));
            assert_eq!(data, edata);
        }
    }
}

#[test]
fn split_repair_rewrites_fields() {
    let owned = sample_entries();
    let entries: Vec<(&str, &[u8])> = owned.iter().map(|(n, d)| (*n, d.as_slice())).collect();
    let pieces = split_zip(&entries, &[100, 5000]);
    let whole: Vec<u8> = pieces.concat();
    let mut cow = MemoryCowFile::new(joined(pieces), 4096).unwrap();
    let ranges = vec![0..100u64, 100..5000, 5000..whole.len() as u64];
    fix_offsets(&mut cow, &ranges).unwrap();
    let fixed = cow.read_exact_at(0, whole.len()).unwrap();
    assert_eq!(&fixed[..4], &[0, 0, 0, 0]);
    let eocd = whole.len() - 22;
    assert_eq!(&fixed[eocd + 4..eocd + 8], &[0, 0, 0, 0]);
    assert_eq!(u16::from_le_bytes([fixed[eocd + 8], fixed[eocd + 9]]), 3);
}

#[test]
fn split_repair_single_disk_in_memory() {
    let owned = sample_entries();
    let entries: Vec<(&str, &[u8])> = owned.iter().map(|(n, d)| (*n, d.as_slice())).collect();
    let data = split_zip(&entries, &[]).concat();
    let len = data.len() as u64;
    let mut cow = MemoryCowFile::new(MemSource { data: data.clone(), pos: 0 }, 4096).unwrap();
    assert_eq!(fix_offsets(&mut cow, &[0..len]), Ok(()));
    let repaired = cow.read_exact_at(0, len as usize).unwrap();

    // The same repair on a stream held in memory.
    let mut stream = MemStream { data };
    assert_eq!(fix_offsets(&mut stream, &[0..len]), Ok(()));
    assert_eq!(stream.data, repaired);
    assert_eq!(&stream.data[..4], &[0, 0, 0, 0]);
}

#[test]
fn unsplit_zip_is_left_alone() {
    let mut data = vec![0x50, 0x4b, 0x03, 0x04];
    data.extend_from_slice(&[9u8; 60]);
    let mut cow = MemoryCowFile::new(MemSource { data: data.clone(), pos: 0 }, 16).unwrap();
    let ranges = vec![0..data.len() as u64];
    fix_offsets(&mut cow, &ranges).unwrap();
    fix_offsets(&mut cow, &ranges).unwrap();
    assert_eq!(cow.read_exact_at(0, data.len()).unwrap(), data);
}

#[test]
fn split_repair_errors() {
    let mut cow = MemoryCowFile::new(MemSource { data: vec![1, 2, 3, 4, 5], pos: 0 }, 16).unwrap();
    assert_eq!(fix_offsets(&mut cow, &[0..5]), Err(Error::InvalidSplitMagic(0x0403_0201)));
    let mut cow = MemoryCowFile::new(MemSource { data: vec![0x50, 0x4b, 7, 8, 0, 0], pos: 0 }, 16).unwrap();
    assert_eq!(fix_offsets(&mut cow, &[0..6]), Err(Error::EocdNotFound));
    assert_eq!(fix_offsets(&mut cow, &[]), Err(Error::MissingDisk(0)));

    let owned = sample_entries();
    let entries: Vec<(&str, &[u8])> = owned.iter().map(|(n, d)| (*n, d.as_slice())).collect();
    let pieces = split_zip(&entries, &[100, 5000]);
    let len = pieces.iter().map(|p| p.len()).sum::<usize>() as u64;
    let mut cow = MemoryCowFile::new(joined(pieces), 4096).unwrap();
    // Only one disk range for a three-disk archive.
    assert_eq!(fix_offsets(&mut cow, &[0..len]), Err(Error::MissingDisk(2)));
}

#[test]
fn joined_view_is_concatenation() {
    let pieces = vec![b"abc".to_vec(), vec![], b"defgh".to_vec(), b"i".to_vec()];
    let mut j = joined(pieces.clone());
    assert_eq!(j.len(), 9);
    assert_eq!(j.splits(), vec![0..3, 3..3, 3..8, 8..9]);
    assert_eq!(j.read_to_end().unwrap(), pieces.concat());
}

#[test]
fn joined_view_reads_stop_at_piece_end() {
    let mut j = joined(vec![b"abc".to_vec(), b"defgh".to_vec()]);
    j.seek(SeekFrom::Start(1)).unwrap();
    assert_eq!(j.read(10).unwrap(), b"bc".to_vec());
    assert_eq!(j.read(10).unwrap(), b"defgh".to_vec());
    assert_eq!(j.read(10).unwrap(), Vec::<u8>::new());
    assert_eq!(j.seek(SeekFrom::End(5)).unwrap(), 13);
    assert_eq!(j.read(10).unwrap(), Vec::<u8>::new());
    assert_eq!(j.seek(SeekFrom::Current(-20)), Err(IoError::InvalidInput));
}

#[test]
fn joined_view_reports_truncated_piece() {
    struct Short(MemPieces);
    impl Pieces for Short {
        fn num_pieces(&self) -> usize {
            self.0.num_pieces()
        }
        fn piece_len(&mut self, i: usize) -> Result<u64, IoError> {
            Ok(self.0.piece_len(i)? + 2)
        }
        fn open_piece(&mut self, i: usize) -> Result<(), IoError> {
            self.0.open_piece(i)
        }
        fn read_opened(&mut self, offset: u64, len: usize) -> Result<Vec<u8>, IoError> {
            self.0.read_opened(offset, len)
        }
    }
    let mut j = JoinedFile::new(Short(MemPieces::new(vec![b"abc".to_vec()])));
    j.add_file().unwrap();
    assert_eq!(j.read(10).unwrap(), b"abc".to_vec());
    assert_eq!(j.read(10), Err(IoError::UnexpectedEof));
}

fn overlay(data: &[u8], block: u32) -> MemoryCowFile<MemSource> {
    MemoryCowFile::new(MemSource { data: data.to_vec(), pos: 0 }, block).unwrap()
}

#[test]
fn overlay_passes_through() {
    let data: Vec<u8> = (0..100u8).collect();
    let mut cow = overlay(&data, 16);
    assert_eq!(cow.read_exact_at(0, 100).unwrap(), data);
    assert_eq!(cow.read_exact_at(37, 10).unwrap(), data[37..47].to_vec());
}

#[test]
fn overlay_write_then_read() {
    let data: Vec<u8> = (0..100u8).collect();
    let mut cow = overlay(&data, 16);
    cow.seek(SeekFrom::Start(10)).unwrap();
    assert_eq!(cow.write(&[0xaa; 30]).unwrap(), 30);
    let mut expected = data.clone();
    expected[10..40].copy_from_slice(&[0xaa; 30]);
    assert_eq!(cow.read_exact_at(0, 100).unwrap(), expected);
    assert_eq!(cow.read_exact_at(10, 30).unwrap(), vec![0xaa; 30]);
}

#[test]
fn overlay_sparse_extension() {
    let data: Vec<u8> = (1..=20u8).collect();
    let mut cow = overlay(&data, 8);
    cow.seek(SeekFrom::Start(50)).unwrap();
    cow.write(b"xyz").unwrap();
    assert_eq!(cow.seek(SeekFrom::End(0)).unwrap(), 53);
    let all = cow.read_exact_at(0, 53).unwrap();
    assert_eq!(&all[..20], &data[..]);
    assert!(all[20..50].iter().all(|b| *b == 0));
    assert_eq!(&all[50..], b"xyz");
}

#[test]
fn overlay_reads_do_not_cross_block_kinds() {
    let data = vec![5u8; 64];
    let mut cow = overlay(&data, 16);
    cow.seek(SeekFrom::Start(20)).unwrap();
    cow.write(&[1, 2]).unwrap();
    cow.seek(SeekFrom::Start(0)).unwrap();
    // Block 0 comes from the reader, block 1 from memory.
    assert_eq!(cow.read(64).unwrap().len(), 16);
    assert_eq!(cow.read(64).unwrap().len(), 16);
    assert_eq!(cow.read(64).unwrap(), vec![5u8; 32]);
    assert_eq!(cow.read(64).unwrap(), Vec::<u8>::new());
}

#[test]
fn overlay_leaves_reader_untouched() {
    let pieces = vec![b"0123456789".to_vec()];
    let mut cow = MemoryCowFile::new(joined(pieces.clone()), 4).unwrap();
    cow.write_all_at(2, b"ab").unwrap();
    assert_eq!(cow.read_exact_at(0, 10).unwrap(), b"01ab456789".to_vec());
    assert_eq!(pieces[0], b"0123456789".to_vec());
}


fn get16(v: &[u8], at: usize) -> u16 {
    u16::from_le_bytes([v[at], v[at + 1]])
}

fn get32(v: &[u8], at: usize) -> u32 {
    u32::from_le_bytes(v[at..at + 4].try_into().unwrap())
}

fn get64(v: &[u8], at: usize) -> u64 {
    u64::from_le_bytes(v[at..at + 8].try_into().unwrap())
}

#[test]
fn split_repair_zip64_records() {
    // Disk 0: marker and 60 bytes of filler; disk 1: central directory,
    // zip64 EOCD, locator and EOCD.
    let disk0_len = 64usize;
    let mut d1: Vec<u8> = vec![];
    // One central directory entry whose real values live in a zip64 extra
    // field.
    put32(&mut d1, 0x0201_4b50);
    d1.extend_from_slice(&[0u8; 24]);
    put16(&mut d1, 1); // name length
    put16(&mut d1, 32); // extra length
    put16(&mut d1, 0); // comment length
    put16(&mut d1, 0xffff); // disk number
    put16(&mut d1, 0);
    put32(&mut d1, 0);
    put32(&mut d1, 0xffff_ffff); // local header offset
    d1.push(b'x');
    put16(&mut d1, 1); // zip64 extra tag
    put16(&mut d1, 28);
    d1.extend_from_slice(&7u64.to_le_bytes()); // size
    d1.extend_from_slice(&7u64.to_le_bytes()); // compressed size
    d1.extend_from_slice(&4u64.to_le_bytes()); // local header offset on its disk
    put32(&mut d1, 0); // disk
    let cd_size = d1.len();
    let eocd64_rel = d1.len();
    put32(&mut d1, 0x0606_4b50);
    d1.extend_from_slice(&44u64.to_le_bytes());
    put16(&mut d1, 45);
    put16(&mut d1, 45);
    put32(&mut d1, 1); // this disk
    put32(&mut d1, 1); // disk where the central directory starts
    d1.extend_from_slice(&0u64.to_le_bytes()); // entries on this disk
    d1.extend_from_slice(&1u64.to_le_bytes()); // entries
    d1.extend_from_slice(&(cd_size as u64).to_le_bytes());
    d1.extend_from_slice(&0u64.to_le_bytes()); // offset on its disk
    let locator_rel = d1.len();
    put32(&mut d1, 0x0706_4b50);
    put32(&mut d1, 1);
    d1.extend_from_slice(&(eocd64_rel as u64).to_le_bytes());
    put32(&mut d1, 2);
    let eocd_rel = d1.len();
    put32(&mut d1, 0x0605_4b50);
    put16(&mut d1, 1);
    put16(&mut d1, 1);
    put16(&mut d1, 0xffff);
    put16(&mut d1, 0xffff);
    put32(&mut d1, 0xffff_ffff);
    put32(&mut d1, 0xffff_ffff);
    put16(&mut d1, 0);

    let mut d0 = vec![0x50, 0x4b, 0x07, 0x08];
    d0.resize(disk0_len, 0xee);
    let total = (disk0_len + d1.len()) as u64;
    let ranges = vec![0..disk0_len as u64, disk0_len as u64..total];
    let mut cow = MemoryCowFile::new(joined(vec![d0, d1]), 16).unwrap();
    fix_offsets(&mut cow, &ranges).unwrap();
    let out = cow.read_exact_at(0, total as usize).unwrap();
    let base = disk0_len;
    // Legacy EOCD: disks zero, the offset saturated to mark zip64.
    assert_eq!(get16(&out, base + eocd_rel + 4), 0);
    assert_eq!(get16(&out, base + eocd_rel + 6), 0);
    assert_eq!(get32(&out, base + eocd_rel + 16), u32::MAX);
    // Locator: disk zero, absolute offset of the zip64 EOCD, one disk.
    assert_eq!(get32(&out, base + locator_rel + 4), 0);
    assert_eq!(get64(&out, base + locator_rel + 8), (base + eocd64_rel) as u64);
    assert_eq!(get32(&out, base + locator_rel + 16), 1);
    // Zip64 EOCD: disks zero, all entries on this disk, absolute offset.
    assert_eq!(get32(&out, base + eocd64_rel + 16), 0);
    assert_eq!(get32(&out, base + eocd64_rel + 20), 0);
    assert_eq!(get64(&out, base + eocd64_rel + 24), 1);
    assert_eq!(get64(&out, base + eocd64_rel + 48), base as u64);
    // Central directory entry: the zip64 offset made absolute, disk zero;
    // the legacy disk field stays 0xFFFF.
    assert_eq!(get16(&out, base + 34), 0xffff);
    assert_eq!(get64(&out, base + 46 + 1 + 4 + 16), 4);
    assert_eq!(get32(&out, base + 46 + 1 + 4 + 24), 0);
}

#[test]
fn second_repair_pass_changes_nothing() {
    let owned = sample_entries();
    let entries: Vec<(&str, &[u8])> = owned.iter().map(|(n, d)| (*n, d.as_slice())).collect();
    let data = split_zip(&entries, &[]).concat();
    let len = data.len() as u64;
    let mut stream = MemStream { data };
    assert_eq!(fix_offsets(&mut stream, &[0..len]), Ok(()));
    let once = stream.data.clone();
    // The wiped marker is neither a split marker nor a local header.
    assert_eq!(fix_offsets(&mut stream, &[0..len]), Err(Error::InvalidSplitMagic(0)));
    assert_eq!(stream.data, once);
}

#[test]
fn overlay_write_and_seek_edges() {
    let mut cow = overlay(&[1, 2, 3], 4);
    assert_eq!(cow.write(&[]), Ok(0));
    assert_eq!(cow.seek(SeekFrom::Current(-1)), Err(IoError::InvalidInput));
    assert_eq!(cow.seek(SeekFrom::End(-4)), Err(IoError::InvalidInput));
    cow.seek(SeekFrom::Start(u64::MAX - 1)).unwrap();
    assert_eq!(cow.write(&[1, 2, 3]), Err(IoError::InvalidInput));
    // A read in the reader's last block, past its end, returns zeros.
    let mut cow = overlay(&[7; 5], 8);
    cow.seek(SeekFrom::Start(12)).unwrap();
    cow.write(&[9]).unwrap();
    cow.seek(SeekFrom::Start(5)).unwrap();
    assert_eq!(cow.read(10).unwrap(), vec![0, 0, 0]);
}

#[test]
fn joined_view_read_stays_in_one_piece() {
    let mut j = joined(vec![b"ab".to_vec(), b"cdef".to_vec()]);
    assert_eq!(j.read(0).unwrap(), Vec::<u8>::new());
    assert_eq!(j.read(100).unwrap(), b"ab".to_vec());
    j.seek(SeekFrom::Start(3)).unwrap();
    assert_eq!(j.read(100).unwrap(), b"def".to_vec());
}

#[test]
fn repair_keeps_length() {
    let owned = sample_entries();
    let entries: Vec<(&str, &[u8])> = owned.iter().map(|(n, d)| (*n, d.as_slice())).collect();
    let data = split_zip(&entries, &[]).concat();
    let len = data.len();
    let mut stream = MemStream { data };
    fix_offsets(&mut stream, &[0..len as u64]).unwrap();
    assert_eq!(stream.data.len(), len);
}
