use base64::engine::general_purpose::STANDARD;
use base64::Engine;
use vstd::prelude::*;
use vstd::string::*;

use crate::cli::{brand_code, Brand};
use crate::model::{Car, CarDownloadData, File};
use crate::crypto::{encrypt, CipherKey};
use crate::text::{decimal_string, parse_signed, parse_unsigned, str_eq, zero_padded_string};

verus! {

/// Whether `pat` occurs in `s` at `i`.
pub open spec fn occurs_at(s: Seq<char>, pat: Seq<char>, i: int) -> bool {
    0 <= i && i + pat.len() <= s.len() && s.subrange(i, i + pat.len()) == pat
}

pub open spec fn occurs(s: Seq<char>, pat: Seq<char>) -> bool {
    exists|i: int| occurs_at(s, pat, i)
}

/// The start of the last occurrence of `pat` in `s`.
pub open spec fn last_occurrence(s: Seq<char>, pat: Seq<char>) -> int {
    choose|i: int| occurs_at(s, pat, i) && forall|j: int| i < j ==> !occurs_at(s, pat, j)
}

pub open spec fn ends_with(s: Seq<char>, suffix: Seq<char>) -> bool {
    suffix.len() <= s.len() && s.subrange(s.len() - suffix.len(), s.len() as int) == suffix
}

/// Digits of the piece numbers in the legacy scheme: those of the count, but
/// at least three.
pub open spec fn legacy_digits(count: nat) -> nat {
    if crate::text::decimal(count).len() < 3 {
        3
    } else {
        crate::text::decimal(count).len()
    }
}

/// Prefix and suffix of the legacy scheme, where every piece name is the
/// prefix, the 1-based piece number and the suffix. The last name holds the
/// count; the first name is either the first piece's name or the prefix and
/// suffix with the number left out.
pub open spec fn legacy_parts(first: Seq<char>, last: Seq<char>, count: nat) -> Option<(Seq<char>, Seq<char>)> {
    let cs = crate::text::zero_padded(count, legacy_digits(count));
    if !occurs(last, cs) {
        None
    } else {
        let i = last_occurrence(last, cs);
        let prefix = last.subrange(0, i);
        let suffix = last.subrange(i + cs.len(), last.len() as int);
        if first == prefix + suffix || first == prefix + crate::text::zero_padded(1, legacy_digits(count))
            + suffix {
            Some((prefix, suffix))
        } else {
            None
        }
    }
}

pub open spec fn zip_ext() -> Seq<char> {
    seq!['.', 'z', 'i', 'p']
}

/// Extension of piece number `n` (1-based) in the Info-ZIP scheme.
pub open spec fn z_ext(n: nat) -> Seq<char> {
    seq!['.', 'z'] + crate::text::zero_padded(n, 2)
}

/// Base name of the Info-ZIP scheme. The server reports as "first" the
/// final `.zip` piece and as "last" the piece before it.
pub open spec fn standard_base(first: Seq<char>, last: Seq<char>, count: nat) -> Option<Seq<char>> {
    let ext = z_ext((count - 1) as nat);
    if ends_with(first, zip_ext()) && ends_with(last, ext) && first.subrange(
        0,
        first.len() - 4,
    ) == last.subrange(0, last.len() - ext.len()) {
        Some(first.subrange(0, first.len() - 4))
    } else {
        None
    }
}

/// The naming of the pieces of a file, with the text as sequences.
pub enum NamingView {
    NotZip,
    NotSplit(Seq<char>),
    Legacy(Seq<char>, Seq<char>, nat),
    Standard(Seq<char>, nat),
}

/// The naming scheme that the names reported as first and last and the
/// piece count select, if any does.
pub open spec fn naming_of(first: Seq<char>, last: Seq<char>, count: nat) -> Option<NamingView> {
    if count == 0 {
        Some(NamingView::NotZip)
    } else if count == 1 {
        if first == last {
            Some(NamingView::NotSplit(first))
        } else {
            None
        }
    } else {
        match legacy_parts(first, last, count) {
            Some((p, s)) => Some(NamingView::Legacy(p, s, legacy_digits(count))),
            None => match standard_base(first, last, count) {
                Some(b) => Some(NamingView::Standard(b, count)),
                None => None,
            },
        }
    }
}

/// Name of piece `index` (0-based).
pub open spec fn piece_name(n: NamingView, index: nat) -> Seq<char> {
    match n {
        NamingView::NotZip => Seq::empty(),
        NamingView::NotSplit(name) => name,
        NamingView::Legacy(p, s, d) => p + crate::text::zero_padded(index + 1, d) + s,
        NamingView::Standard(b, c) => if index + 1 == c {
            b + zip_ext()
        } else {
            b + z_ext(index + 1)
        },
    }
}

/// How the pieces of a split file are named.
#[derive(Clone, Debug)]
pub enum ZipNamingScheme {
    /// The file is downloaded as it is.
    NotZip,
    /// A single archive with the given name.
    NotSplit { name: String },
    /// `<prefix><number><suffix>`, numbered from 1 and zero-padded.
    Legacy { prefix: String, suffix: String, digits: u8 },
    /// `<base>.z01` ... and finally `<base>.zip`, as Info-ZIP names them.
    Standard { base_name: String, count: u32 },
}

/// Name of a piece of the protocol that failed to parse.
#[derive(Clone, Copy, Debug, PartialEq, Eq, Structural)]
pub enum WireField {
    SwVers,
    FileCrc,
    FileSize,
    ZipFileCnt,
    ZipFileSize,
    DownloadFileCnt,
    DownloadFileSize,
}

#[derive(Debug)]
pub enum Error {
    /// The download's start offset equals the file size.
    AlreadyComplete,
    /// Expected the first HTTP status, got the second.
    BadHttpResponse(u16, u16),
    /// The server answered with an error status.
    HttpStatus(u16),
    BadFieldLength(WireField, usize),
    BadFieldValue(WireField, String),
    UnknownZipNaming { first: String, last: String, count: u32 },
    Crypto(crate::crypto::Error),
    Model(crate::model::Error),
}

impl ZipNamingScheme {
    /// The scheme with its text as sequences.
    pub open spec fn view(&self) -> NamingView {
        match self {
            ZipNamingScheme::NotZip => NamingView::NotZip,
            ZipNamingScheme::NotSplit { name } => NamingView::NotSplit(name@),
            ZipNamingScheme::Legacy { prefix, suffix, digits } => NamingView::Legacy(
                prefix@,
                suffix@,
                *digits as nat,
            ),
            ZipNamingScheme::Standard { base_name, count } => NamingView::Standard(
                base_name@,
                *count as nat,
            ),
        }
    }

    /// Pick the naming scheme from the names the server reports as first and
    /// last and from the piece count. Anything ambiguous is an error.
    pub fn parse(first: &str, last: &str, count: u32) -> (r: Result<Self, Error>)
        ensures
            match naming_of(first@, last@, count as nat) {
                Some(v) => r matches Ok(z) && z.view() == v,
                None => r matches Err(Error::UnknownZipNaming { first: f, last: l, count: c })
                    && f@ == first@ && l@ == last@ && c == count,
            },
    {
        if count == 0 {
            return Ok(ZipNamingScheme::NotZip);
        } else if count == 1 {
            if str_eq(first, last) {
                return Ok(ZipNamingScheme::NotSplit { name: String::from_str(first) });
            }
        } else {
            if let Some((prefix, suffix, digits)) = parse_legacy(first, last, count) {
                return Ok(ZipNamingScheme::Legacy { prefix, suffix, digits });
            }
            if let Some(base_name) = parse_standard(first, last, count) {
                return Ok(ZipNamingScheme::Standard { base_name, count });
            }
        }
        Err(
            Error::UnknownZipNaming {
                first: String::from_str(first),
                last: String::from_str(last),
                count,
            },
        )
    }

    /// Name of piece `index` (0-based).
    pub fn name(&self, index: u32) -> (r: String)
        ensures
            r@ == piece_name(self.view(), index as nat),
    {
        match self {
            ZipNamingScheme::NotZip => String::new(),
            ZipNamingScheme::NotSplit { name } => name.clone(),
            ZipNamingScheme::Legacy { prefix, suffix, digits } => {
                let number = zero_padded_string(index as u64 + 1, *digits as usize);
                prefix.clone().concat(number.as_str()).concat(suffix.as_str())
            },
            ZipNamingScheme::Standard { base_name, count } => {
                proof {
                    reveal_strlit(".zip");
                    reveal_strlit(".z");
                }
                if index as u64 + 1 == *count as u64 {
                    base_name.clone().concat(".zip")
                } else {
                    let number = zero_padded_string(index as u64 + 1, 2);
                    base_name.clone().concat(".z").concat(number.as_str())
                }
            },
        }
    }
}


/// The legacy scheme's prefix, suffix and digit count, if it applies.
fn parse_legacy(first: &str, last: &str, count: u32) -> (r: Option<(String, String, u8)>)
    requires
        count >= 2,
    ensures
        match legacy_parts(first@, last@, count as nat) {
            Some((p, s)) => r matches Some((a, b, d)) && a@ == p && b@ == s && d == legacy_digits(
                count as nat,
            ),
            None => r is None,
        },
{
    let count_digits = decimal_string(count as u64).as_str().unicode_len();
    let digits: usize = if count_digits < 3 {
        3
    } else {
        count_digits
    };
    assert(crate::text::decimal(count as nat).len() <= 10) by {
        assert(pow10(10) == 10000000000) by {
            reveal_with_fuel(pow10, 11);
        }
        lemma_decimal_len(count as nat, 10);
    }
    let count_str = zero_padded_string(count as u64, digits);
    if let Some((prefix, suffix)) = rsplit_once(last, count_str.as_str()) {
        let joined = prefix.clone().concat(suffix.as_str());
        let first_piece = prefix.clone().concat(zero_padded_string(1, digits).as_str()).concat(
            suffix.as_str(),
        );
        if str_eq(first, joined.as_str()) || str_eq(first, first_piece.as_str()) {
            return Some((prefix, suffix, digits as u8));
        }
    }
    None
}

proof fn lemma_decimal_len(n: nat, k: nat)
    requires
        k >= 1,
        n < pow10(k),
    ensures
        crate::text::decimal(n).len() <= k,
    decreases n,
{
    if n >= 10 {
        if k == 1 {
            assert(pow10(1) == 10) by {
                reveal_with_fuel(pow10, 2);
            }
        }
        assert(n / 10 < pow10((k - 1) as nat)) by (nonlinear_arith)
            requires
                n < pow10(k),
                pow10(k) == 10 * pow10((k - 1) as nat),
        ;
        lemma_decimal_len(n / 10, (k - 1) as nat);
    }
}

pub open spec fn pow10(k: nat) -> nat
    decreases k,
{
    if k == 0 {
        1
    } else {
        10 * pow10((k - 1) as nat)
    }
}

/// The Info-ZIP scheme's base name, if it applies.
fn parse_standard(first: &str, last: &str, count: u32) -> (r: Option<String>)
    requires
        count >= 2,
    ensures
        match standard_base(first@, last@, count as nat) {
            Some(b) => r matches Some(a) && a@ == b,
            None => r is None,
        },
{
    proof {
        reveal_strlit(".z");
        reveal_strlit(".zip");
    }
    let last_ext = String::from_str(".z").concat(zero_padded_string((count - 1) as u64, 2).as_str());
    assert(".zip"@ =~= zip_ext());
    assert(last_ext@ =~= z_ext((count - 1) as nat));
    if let Some(base) = strip_suffix(first, ".zip") {
        if let Some(last_base) = strip_suffix(last, last_ext.as_str()) {
            if str_eq(base.as_str(), last_base.as_str()) {
                return Some(base);
            }
        }
    }
    None
}

/// Whether `pat` occurs in `s` at `i`.
fn occurs_at_exec(s: &str, pat: &str, i: usize) -> (r: bool)
    requires
        i + pat@.len() <= s@.len(),
    ensures
        r == occurs_at(s@, pat@, i as int),
{
    let n = pat.unicode_len();
    // Bounds the length by usize::MAX.
    let _sl = s.unicode_len();
    let mut k: usize = 0;
    while k < n
        invariant
            n == pat@.len(),
            i + n <= s@.len(),
            s@.len() <= usize::MAX,
            k <= n,
            forall|j: int| 0 <= j < k ==> s@[i + j] == pat@[j],
        decreases n - k,
    {
        if s.get_char(i + k) != pat.get_char(k) {
            assert(s@.subrange(i as int, i + n)[k as int] != pat@[k as int]);
            return false;
        }
        k += 1;
    }
    assert(s@.subrange(i as int, i + n) =~= pat@);
    true
}

proof fn lemma_last_occurrence(s: Seq<char>, pat: Seq<char>, i: int)
    requires
        occurs_at(s, pat, i),
        forall|j: int| i < j ==> !occurs_at(s, pat, j),
    ensures
        occurs(s, pat),
        last_occurrence(s, pat) == i,
{
    assert(occurs_at(s, pat, i) && forall|j: int| i < j ==> !occurs_at(s, pat, j));
    let q = last_occurrence(s, pat);
    assert(occurs_at(s, pat, q) && forall|j: int| q < j ==> !occurs_at(s, pat, j));
    if q < i {
        assert(!occurs_at(s, pat, i));
    }
    if i < q {
        assert(!occurs_at(s, pat, q));
    }
}

/// Split `s` around the last occurrence of `pat`.
fn rsplit_once(s: &str, pat: &str) -> (r: Option<(String, String)>)
    ensures
        match r {
            Some((a, b)) => occurs(s@, pat@) && a@ == s@.subrange(0, last_occurrence(s@, pat@))
                && b@ == s@.subrange(last_occurrence(s@, pat@) + pat@.len(), s@.len() as int),
            None => !occurs(s@, pat@),
        },
{
    let n = s.unicode_len();
    let m = pat.unicode_len();
    if m > n {
        proof {
            assert forall|j: int| !occurs_at(s@, pat@, j) by {}
        }
        return None;
    }
    if m == 0 {
        proof {
            assert(s@.subrange(n as int, n as int) =~= pat@);
            lemma_last_occurrence(s@, pat@, n as int);
            assert(s@.subrange(0, n as int) =~= s@);
        }
        return Some((String::from_str(s), String::new()));
    }
    let mut i: usize = n - m + 1;
    while i > 0
        invariant
            n == s@.len(),
            m == pat@.len(),
            m <= n,
            i <= n - m + 1,
            forall|j: int| i <= j ==> !occurs_at(s@, pat@, j),
        decreases i,
    {
        i -= 1;
        if occurs_at_exec(s, pat, i) {
            proof {
                lemma_last_occurrence(s@, pat@, i as int);
            }
            let a = String::from_str(s.substring_char(0, i));
            let b = String::from_str(s.substring_char(i + m, n));
            return Some((a, b));
        }
    }
    proof {
        assert forall|j: int| !occurs_at(s@, pat@, j) by {
            if 0 <= j {
                assert(i <= j);
            }
        }
    }
    None
}

/// `s` without `suffix`, if it ends with it.
fn strip_suffix(s: &str, suffix: &str) -> (r: Option<String>)
    ensures
        match r {
            Some(b) => ends_with(s@, suffix@) && b@ == s@.subrange(0, s@.len() - suffix@.len()),
            None => !ends_with(s@, suffix@),
        },
{
    let n = s.unicode_len();
    let m = suffix.unicode_len();
    if m > n {
        return None;
    }
    if occurs_at_exec(s, suffix, n - m) {
        Some(String::from_str(s.substring_char(0, n - m)))
    } else {
        None
    }
}


/// The value of a signed 32-bit decimal field.
pub open spec fn field_i32(s: Seq<char>) -> Option<int> {
    match crate::text::signed_text(s) {
        Some(v) => if i32::MIN <= v <= i32::MAX {
            Some(v)
        } else {
            None
        },
        None => None,
    }
}

/// The value of a signed 64-bit decimal field.
pub open spec fn field_i64(s: Seq<char>) -> Option<int> {
    match crate::text::signed_text(s) {
        Some(v) => if i64::MIN <= v <= i64::MAX {
            Some(v)
        } else {
            None
        },
        None => None,
    }
}

/// The value of an unsigned decimal field no larger than `max`.
pub open spec fn field_unsigned(s: Seq<char>, max: nat) -> Option<nat> {
    match crate::text::unsigned_text(s) {
        Some(v) => if v <= max {
            Some(v)
        } else {
            None
        },
        None => None,
    }
}

/// The low 32 bits of `v`, as a non-negative number.
pub open spec fn low32(v: int) -> nat {
    (v % 0x1_0000_0000) as nat
}

/// A size as sent by the server: older models report sizes that overflowed
/// a signed 32-bit integer, which are recovered from their low 32 bits.
pub open spec fn widened(v: int) -> nat {
    if v < 0 {
        low32(v)
    } else {
        v as nat
    }
}

/// Whether every field of `f` is valid.
pub open spec fn file_fields_ok(f: File) -> bool {
    &&& field_i32(f.file_crc@) is Some
    &&& field_i64(f.file_size@) is Some
    &&& field_unsigned(f.zip_file_cnt@, u32::MAX as nat) is Some
    &&& field_i64(f.zip_file_size@) is Some
    &&& naming_of(
        f.zip_file_first_name@,
        f.zip_file_last_name@,
        field_unsigned(f.zip_file_cnt@, u32::MAX as nat).unwrap(),
    ) is Some
}

/// Whether `info` holds what the valid file object `f` says.
pub open spec fn describes(info: FileInfo, f: File) -> bool {
    &&& info.crc32 == low32(field_i32(f.file_crc@).unwrap())
    &&& info.size == widened(field_i64(f.file_size@).unwrap())
    &&& info.split_count() == field_unsigned(f.zip_file_cnt@, u32::MAX as nat).unwrap()
    &&& info.split_size() == widened(field_i64(f.zip_file_size@).unwrap())
    &&& Some(info.naming()) == naming_of(
        f.zip_file_first_name@,
        f.zip_file_last_name@,
        info.split_count() as nat,
    )
    &&& info.name@ == f.file_name@
    &&& info.server_path@ == f.file_path@
    &&& info.version@ == f.version@
    &&& f.dest_path@.len() == 0 ==> info.directory is None
    &&& f.dest_path@.len() > 0 ==> (info.directory matches Some(d) && d@ == f.dest_path@)
}

/// The error for the first invalid field of `f`.
pub open spec fn file_error(e: Error, f: File) -> bool {
    if field_i32(f.file_crc@) is None {
        e matches Error::BadFieldValue(WireField::FileCrc, v) && v@ == f.file_crc@
    } else if field_i64(f.file_size@) is None {
        e matches Error::BadFieldValue(WireField::FileSize, v) && v@ == f.file_size@
    } else if field_unsigned(f.zip_file_cnt@, u32::MAX as nat) is None {
        e matches Error::BadFieldValue(WireField::ZipFileCnt, v) && v@ == f.zip_file_cnt@
    } else if field_i64(f.zip_file_size@) is None {
        e matches Error::BadFieldValue(WireField::ZipFileSize, v) && v@ == f.zip_file_size@
    } else {
        e matches Error::UnknownZipNaming { first, last, count } && first@ == f.zip_file_first_name@
            && last@ == f.zip_file_last_name@ && count == field_unsigned(
            f.zip_file_cnt@,
            u32::MAX as nat,
        ).unwrap()
    }
}

/// `dir/name`, or `name` alone without a directory.
pub open spec fn joined_path(directory: Option<String>, name: Seq<char>) -> Seq<char> {
    match directory {
        Some(d) => d@ + seq!['/'] + name,
        None => name,
    }
}

/// The low 32 bits of `v`.
fn to_low32(v: i64) -> (r: u64)
    ensures
        r == low32(v as int),
{
    let w: i128 = v as i128 + 0x1_0000_0000_0000_0000;
    let r = (w as u128 % 0x1_0000_0000) as u64;
    assert((v as int + 0x1_0000_0000_0000_0000) % 0x1_0000_0000 == (v as int) % 0x1_0000_0000) by {
        vstd::arithmetic::div_mod::lemma_mod_add_multiples_vanish(v as int, 0x1_0000_0000);
        assert(0x1_0000_0000_0000_0000int == 0x1_0000_0000 * 0x1_0000_0000);
        vstd::arithmetic::div_mod::lemma_mod_multiples_vanish(0x1_0000_0000, v as int, 0x1_0000_0000);
    }
    r
}

fn widen(v: i64) -> (r: u64)
    ensures
        r == widened(v as int),
{
    if v < 0 {
        to_low32(v)
    } else {
        v as u64
    }
}

/// Information about one firmware file.
#[derive(Debug)]
pub struct FileInfo {
    /// CRC-32 of the file after extraction.
    pub crc32: u32,
    /// Directory of the output file.
    pub directory: Option<String>,
    /// Name of the file after extraction.
    pub name: String,
    /// Size of the file after extraction.
    pub size: u64,
    /// Server-side directory holding the pieces.
    pub server_path: String,
    /// Version number of unknown meaning.
    pub version: String,
    /// Number of split zip pieces; zero when the file is not split.
    pub zip_count: u32,
    /// Total size of all pieces.
    pub zip_size: u64,
    /// Naming of the pieces.
    pub zip_naming: ZipNamingScheme,
}

impl FileInfo {
    pub open spec fn split_count(&self) -> u32 {
        self.zip_count
    }

    pub open spec fn split_size(&self) -> u64 {
        self.zip_size
    }

    pub open spec fn naming(&self) -> NamingView {
        self.zip_naming.view()
    }

    /// Number of downloads the file is made of.
    pub open spec fn count_spec(&self) -> nat {
        if self.split_count() == 0 {
            1
        } else {
            self.split_count() as nat
        }
    }

    /// Name of download `index`.
    pub open spec fn download_name_spec(&self, index: nat) -> Seq<char> {
        match self.naming() {
            NamingView::NotZip => self.name@,
            n => piece_name(n, index),
        }
    }

    /// Build from a file object of the API.
    pub fn from_file(file: &File) -> (r: Result<FileInfo, Error>)
        ensures
            r is Ok <==> file_fields_ok(*file),
            r matches Ok(info) ==> describes(info, *file),
            r matches Err(e) ==> file_error(e, *file),
    {
        let crc = match parse_signed(file.file_crc.as_str(), i32::MIN as i64, i32::MAX as i64) {
            Some(v) => v,
            None => return Err(Error::BadFieldValue(WireField::FileCrc, file.file_crc.clone())),
        };
        let size = match parse_signed(file.file_size.as_str(), i64::MIN, i64::MAX) {
            Some(v) => v,
            None => return Err(Error::BadFieldValue(WireField::FileSize, file.file_size.clone())),
        };
        let zip_count = match parse_unsigned(file.zip_file_cnt.as_str(), u32::MAX as u64) {
            Some(v) => v as u32,
            None => return Err(Error::BadFieldValue(WireField::ZipFileCnt, file.zip_file_cnt.clone())),
        };
        let zip_size = match parse_signed(file.zip_file_size.as_str(), i64::MIN, i64::MAX) {
            Some(v) => v,
            None => return Err(
                Error::BadFieldValue(WireField::ZipFileSize, file.zip_file_size.clone()),
            ),
        };
        let zip_naming = match ZipNamingScheme::parse(
            file.zip_file_first_name.as_str(),
            file.zip_file_last_name.as_str(),
            zip_count,
        ) {
            Ok(z) => z,
            Err(e) => return Err(e),
        };
        let directory = if file.dest_path.as_str().unicode_len() == 0 {
            None
        } else {
            Some(file.dest_path.clone())
        };
        Ok(
            FileInfo {
                crc32: to_low32(crc) as u32,
                directory,
                name: file.file_name.clone(),
                size: widen(size),
                server_path: file.file_path.clone(),
                version: file.version.clone(),
                zip_count,
                zip_size: widen(zip_size),
                zip_naming,
            },
        )
    }

    fn join_path(&self, name: &str) -> (r: String)
        ensures
            r@ == joined_path(self.directory, name@),
    {
        match &self.directory {
            Some(d) => {
                proof {
                    reveal_strlit("/");
                }
                assert("/"@ =~= seq!['/']);
                d.clone().concat("/").concat(name)
            },
            None => String::from_str(name),
        }
    }

    /// Output file path including the directory.
    pub fn path(&self) -> (r: String)
        ensures
            r@ == joined_path(self.directory, self.name@),
    {
        self.join_path(self.name.as_str())
    }

    /// Whether the file is made of split zip pieces.
    pub fn is_split(&self) -> (r: bool)
        ensures
            r == (self.split_count() > 0),
    {
        self.zip_count > 0
    }

    /// Number of downloads the file is made of.
    pub fn download_count(&self) -> (r: u32)
        ensures
            r == self.count_spec(),
    {
        if self.zip_count == 0 {
            1
        } else {
            self.zip_count
        }
    }

    /// File name of download `index`.
    pub fn download_name(&self, index: u32) -> (r: String)
        requires
            index < self.count_spec(),
        ensures
            r@ == self.download_name_spec(index as nat),
    {
        match &self.zip_naming {
            ZipNamingScheme::NotZip => self.name.clone(),
            z => z.name(index),
        }
    }

    /// Path of download `index` including the directory.
    pub fn download_path(&self, index: u32) -> (r: String)
        requires
            index < self.count_spec(),
        ensures
            r@ == joined_path(self.directory, self.download_name_spec(index as nat)),
    {
        let name = self.download_name(index);
        self.join_path(name.as_str())
    }

    /// URL-encoded server path of download `index`. Separators around the
    /// server directory are dropped: the server refuses doubled ones.
    pub fn download_remote_path(&self, index: u32) -> (r: String)
        requires
            index < self.count_spec(),
        ensures
            r@ == url_encoded(
                trim_slashes(self.server_path@) + seq!['/'] + self.download_name_spec(index as nat),
            ),
    {
        let directory = trim_matches_slash(self.server_path.as_str());
        let name = self.download_name(index);
        proof {
            reveal_strlit("/");
        }
        assert("/"@ =~= seq!['/']);
        let path = directory.concat("/").concat(name.as_str());
        url_encode(path.as_str())
    }

    /// Total size of the downloads.
    pub fn download_size(&self) -> (r: u64)
        ensures
            r == (if self.split_count() == 0 {
                self.size
            } else {
                self.split_size()
            }),
    {
        if self.zip_count == 0 {
            self.size
        } else {
            self.zip_size
        }
    }
}

/// `s` without leading and trailing `/`.
pub open spec fn trim_slashes(s: Seq<char>) -> Seq<char>
    decreases s.len(),
{
    if s.len() > 0 && s[0] == '/' {
        trim_slashes(s.drop_first())
    } else if s.len() > 0 && s.last() == '/' {
        trim_slashes(s.drop_last())
    } else {
        s
    }
}

fn trim_matches_slash(s: &str) -> (r: String)
    ensures
        r@ == trim_slashes(s@),
{
    let n = s.unicode_len();
    let mut a: usize = 0;
    let mut b: usize = n;
    assert(s@.subrange(0, n as int) =~= s@);
    while a < b && s.get_char(a) == '/'
        invariant
            n == s@.len(),
            a <= b == n,
            trim_slashes(s@) == trim_slashes(s@.subrange(a as int, b as int)),
        decreases b - a,
    {
        assert(s@.subrange(a as int, b as int).drop_first() =~= s@.subrange(a + 1, b as int));
        a += 1;
    }
    while a < b && s.get_char(b - 1) == '/'
        invariant
            n == s@.len(),
            a <= b <= n,
            a < b ==> s@[a as int] != '/',
            trim_slashes(s@) == trim_slashes(s@.subrange(a as int, b as int)),
        decreases b - a,
    {
        assert(s@.subrange(a as int, b as int).drop_last() =~= s@.subrange(a as int, b - 1));
        b -= 1;
    }
    String::from_str(s.substring_char(a, b))
}

/// Percent-encoding of the UTF-8 bytes of `s`, keeping ASCII letters, digits
/// and `-._~`.
pub uninterp spec fn url_encoded(s: Seq<char>) -> Seq<char>;

/// Relies on `urlencoding::encode`: its result depends on the text alone.
#[verifier::external_body]
fn url_encode(s: &str) -> (r: String)
    ensures
        r@ == url_encoded(s@),
{
    urlencoding::encode(s).into_owned()
}

/// Information about the firmware of a car.
#[derive(Debug)]
pub struct FirmwareInfo {
    /// Total size of all firmware files.
    pub size: u64,
    /// Base URL of all downloads.
    pub base_url: String,
    /// Version number of unknown meaning, such as `23Q2`.
    pub update_version: String,
    /// The firmware files.
    pub files: Vec<FileInfo>,
}

/// A count or size field, where an empty field means zero.
pub open spec fn defaulted(s: Seq<char>) -> Seq<char> {
    if s.len() == 0 {
        seq!['0']
    } else {
        s
    }
}

/// Whether the manifest `data` is valid.
pub open spec fn manifest_ok(data: CarDownloadData) -> bool {
    &&& field_unsigned(defaulted(data.environment.download_file_cnt@), usize::MAX as nat) is Some
    &&& field_unsigned(defaulted(data.environment.download_file_size@), u64::MAX as nat) is Some
    &&& forall|i: int| 0 <= i < data.files@.len() ==> #[trigger] file_fields_ok(data.files@[i])
}

impl FirmwareInfo {
    /// Build from the data of the `/car/download/<code>` endpoint. A file
    /// count that disagrees with the list of files is not an error: older
    /// models are known to report it wrongly.
    pub fn from_data(data: &CarDownloadData) -> (r: Result<FirmwareInfo, Error>)
        ensures
            r is Ok <==> manifest_ok(*data),
            r matches Ok(fw) ==> {
                &&& Some(fw.size as nat) == field_unsigned(
                    defaulted(data.environment.download_file_size@),
                    u64::MAX as nat,
                )
                &&& fw.base_url@ == data.environment.download_root_path@
                &&& fw.update_version@ == data.environment.update_version@
                &&& fw.files@.len() == data.files@.len()
                &&& forall|i: int| 0 <= i < fw.files@.len() ==> #[trigger] describes(fw.files@[i], data.files@[i])
            },
            r matches Err(e) ==> if field_unsigned(defaulted(data.environment.download_file_cnt@), usize::MAX as nat)
                is None {
                e matches Error::BadFieldValue(WireField::DownloadFileCnt, v) && v@ == defaulted(
                    data.environment.download_file_cnt@,
                )
            } else if field_unsigned(defaulted(data.environment.download_file_size@), u64::MAX as nat) is None {
                e matches Error::BadFieldValue(WireField::DownloadFileSize, v) && v@ == defaulted(
                    data.environment.download_file_size@,
                )
            } else {
                exists|j: int|
                    0 <= j < data.files@.len() && (forall|k: int| 0 <= k < j ==> #[trigger] file_fields_ok(data.files@[k]))
                        && !file_fields_ok(data.files@[j]) && #[trigger] file_error(e, data.files@[j])
            },
    {
        proof {
            reveal_strlit("0");
        }
        let env = &data.environment;
        let count_text = if env.download_file_cnt.as_str().unicode_len() == 0 {
            String::from_str("0")
        } else {
            env.download_file_cnt.clone()
        };
        let size_text = if env.download_file_size.as_str().unicode_len() == 0 {
            String::from_str("0")
        } else {
            env.download_file_size.clone()
        };
        assert(count_text@ =~= defaulted(env.download_file_cnt@));
        assert(size_text@ =~= defaulted(env.download_file_size@));
        if parse_unsigned(count_text.as_str(), usize::MAX as u64).is_none() {
            return Err(Error::BadFieldValue(WireField::DownloadFileCnt, count_text));
        }
        let size = match parse_unsigned(size_text.as_str(), u64::MAX) {
            Some(v) => v,
            None => return Err(Error::BadFieldValue(WireField::DownloadFileSize, size_text)),
        };
        let mut files: Vec<FileInfo> = Vec::new();
        let mut i: usize = 0;
        while i < data.files.len()
            invariant
                i <= data.files@.len(),
                files@.len() == i,
                field_unsigned(defaulted(data.environment.download_file_cnt@), usize::MAX as nat) is Some,
                field_unsigned(defaulted(data.environment.download_file_size@), u64::MAX as nat) is Some,
                forall|j: int| 0 <= j < i ==> #[trigger] file_fields_ok(data.files@[j]),
                forall|j: int| 0 <= j < i ==> #[trigger] describes(files@[j], data.files@[j]),
            decreases data.files@.len() - i,
        {
            match FileInfo::from_file(&data.files[i]) {
                Ok(info) => files.push(info),
                Err(e) => {
                    assert(file_error(e, data.files@[i as int]));
                    assert(0 <= i < data.files@.len() && (forall|k: int| 0 <= k < i ==> #[trigger] file_fields_ok(data.files@[k]))
                        && !file_fields_ok(data.files@[i as int]));
                    return Err(e);
                },
            }
            i += 1;
        }
        Ok(
            FirmwareInfo {
                size,
                base_url: env.download_root_path.clone(),
                update_version: env.update_version.clone(),
                files,
            },
        )
    }
}

/// The base URL of the API for a region: the EU endpoint serves EU, RU and
/// TR, the default one everything else.
pub open spec fn is_eu_family(region: Seq<char>) -> bool {
    region == seq!['E', 'U'] || region == seq!['R', 'U'] || region == seq!['T', 'R']
}

pub open spec fn default_base_url() -> Seq<char> {
    "https://api.map-care.com/api/v3"@
}

pub open spec fn eu_base_url() -> Seq<char> {
    "https://apieu.map-care.com/api/v3"@
}

/// Base URL of the API for a region.
pub fn base_url(region: &str) -> (r: &'static str)
    ensures
        is_eu_family(region@) ==> r@ == eu_base_url(),
        !is_eu_family(region@) ==> r@ == default_base_url(),
{
    proof {
        reveal_strlit("EU");
        reveal_strlit("RU");
        reveal_strlit("TR");
    }
    assert("EU"@ =~= seq!['E', 'U']);
    assert("RU"@ =~= seq!['R', 'U']);
    assert("TR"@ =~= seq!['T', 'R']);
    if str_eq(region, "EU") || str_eq(region, "RU") || str_eq(region, "TR") {
        "https://apieu.map-care.com/api/v3"
    } else {
        "https://api.map-care.com/api/v3"
    }
}

/// A brand, or the raw code of an unknown one.
#[derive(Debug)]
pub enum BrandInfo {
    Known(Brand),
    Unknown(String),
}

impl BrandInfo {
    /// The name shown to users: the brand's name, or the raw code.
    pub fn display_name(&self) -> (r: &str)
        ensures
            match self {
                BrandInfo::Known(b) => r@ == crate::cli::brand_name(*b),
                BrandInfo::Unknown(s) => r@ == s@,
            },
    {
        match self {
            BrandInfo::Known(b) => b.as_pretty_str(),
            BrandInfo::Unknown(s) => s.as_str(),
        }
    }
}

/// A car and its latest firmware.
#[derive(Debug)]
pub struct CarInfo {
    /// Two character brand code.
    pub brand: BrandInfo,
    /// Unique ID of the vehicle.
    pub id: String,
    /// Download code for the `/car/download/<code>` endpoint.
    pub code: String,
    /// Model name only.
    pub model: String,
    /// Marketing name including the model year and model name.
    pub name: String,
    /// Firmware version number.
    pub version: String,
    /// Unknown integer value.
    pub mcode: String,
}

impl CarInfo {
    /// Build from a car object of the API; its first firmware version is the
    /// car's.
    pub fn from_car(car: &Car) -> (r: Result<CarInfo, Error>)
        ensures
            car.sw_vers@.len() == 0 <==> r is Err,
            r matches Err(e) ==> e matches Error::BadFieldLength(WireField::SwVers, 0),
            r matches Ok(c) ==> {
                &&& c.id@ == car.dest_path@
                &&& c.code@ == car.download_code@
                &&& c.model@ == car.vcl_name@
                &&& c.name@ == car.dvc_name@
                &&& c.version@ == car.sw_vers@[0]@
                &&& c.mcode@ == car.mcode@
                &&& match c.brand {
                    BrandInfo::Known(b) => brand_code(b) == car.brand@,
                    BrandInfo::Unknown(s) => s@ == car.brand@,
                }
            },
    {
        if car.sw_vers.len() == 0 {
            return Err(Error::BadFieldLength(WireField::SwVers, 0));
        }
        let brand = match Brand::from_code(car.brand.as_str()) {
            Ok(b) => BrandInfo::Known(b),
            Err(s) => BrandInfo::Unknown(s),
        };
        Ok(
            CarInfo {
                brand,
                id: car.dest_path.clone(),
                code: car.download_code.clone(),
                model: car.vcl_name.clone(),
                name: car.dvc_name.clone(),
                version: car.sw_vers[0].clone(),
                mcode: car.mcode.clone(),
            },
        )
    }

    /// The brand code.
    pub fn brand(&self) -> (r: &str)
        ensures
            match self.brand {
                BrandInfo::Known(b) => r@ == brand_code(b),
                BrandInfo::Unknown(s) => r@ == s@,
            },
    {
        match &self.brand {
            BrandInfo::Known(b) => b.as_code_str(),
            BrandInfo::Unknown(s) => s.as_str(),
        }
    }
}

/// A region found by the service, and whether it has firmware for the brand.
#[derive(Debug)]
pub enum AutodetectedRegion {
    Valid(String),
    Invalid(String),
}

impl AutodetectedRegion {
    /// A detected region is valid when its platform list is not empty.
    pub fn from_platforms(region: String, platform_count: usize) -> (r: AutodetectedRegion)
        ensures
            platform_count == 0 ==> (r matches AutodetectedRegion::Invalid(s) && s@ == region@),
            platform_count > 0 ==> (r matches AutodetectedRegion::Valid(s) && s@ == region@),
    {
        if platform_count == 0 {
            AutodetectedRegion::Invalid(region)
        } else {
            AutodetectedRegion::Valid(region)
        }
    }
}

/// Options of the API client.
#[derive(Clone, Debug)]
pub struct NuClientBuilder {
    ignore_tls_validation: bool,
}

impl NuClientBuilder {
    pub closed spec fn ignores_tls(&self) -> bool {
        self.ignore_tls_validation
    }

    /// Default options: TLS certificates are validated.
    pub fn new() -> (r: Self)
        ensures
            !r.ignores_tls(),
    {
        NuClientBuilder { ignore_tls_validation: false }
    }

    /// Ignore TLS certificate validation of HTTPS requests.
    pub fn ignore_tls_validation(self, value: bool) -> (r: Self)
        ensures
            r.ignores_tls() == value,
    {
        NuClientBuilder { ignore_tls_validation: value }
    }

    pub fn ignores_tls_validation(&self) -> (r: bool)
        ensures
            r == self.ignores_tls(),
    {
        self.ignore_tls_validation
    }
}

pub const STATUS_PARTIAL_CONTENT: u16 = 206;
pub const STATUS_RANGE_NOT_SATISFIABLE: u16 = 416;

/// Whether a ranged download answered with `status` needs the file size from
/// a HEAD request to be judged.
pub fn needs_length_check(status: u16) -> (r: bool)
    ensures
        r == (status == STATUS_RANGE_NOT_SATISFIABLE),
{
    status == STATUS_RANGE_NOT_SATISFIABLE
}

/// The outcome of a ranged download from `start` that was answered with
/// `status`; `length` is the size a HEAD request reported, when one was made.
/// A range past the end of a file of exactly `start` bytes means the
/// download is already complete.
pub fn range_response(status: u16, length: Option<u64>, start: u64) -> (r: Result<(), Error>)
    ensures
        status == STATUS_RANGE_NOT_SATISFIABLE && length == Some(start) ==> r matches Err(
            Error::AlreadyComplete,
        ),
        !(status == STATUS_RANGE_NOT_SATISFIABLE && length == Some(start)) ==> {
            if 400 <= status < 600 {
                r matches Err(Error::HttpStatus(s)) && s == status
            } else if status != STATUS_PARTIAL_CONTENT {
                r matches Err(Error::BadHttpResponse(e, s)) && e == STATUS_PARTIAL_CONTENT && s == status
            } else {
                r is Ok
            }
        },
{
    if status == STATUS_RANGE_NOT_SATISFIABLE && length == Some(start) {
        return Err(Error::AlreadyComplete);
    }
    if 400 <= status && status < 600 {
        return Err(Error::HttpStatus(status));
    }
    if status != STATUS_PARTIAL_CONTENT {
        return Err(Error::BadHttpResponse(STATUS_PARTIAL_CONTENT, status));
    }
    Ok(())
}


/// A local wall-clock time with second precision.
#[derive(Clone, Copy, Debug, PartialEq, Eq, Structural)]
pub struct LocalDateTime {
    pub year: u16,
    pub month: u8,
    pub day: u8,
    pub hour: u8,
    pub minute: u8,
    pub second: u8,
}

/// `YYYYMMDDHHMMSS`.
pub open spec fn timestamp_text(t: LocalDateTime) -> Seq<char> {
    crate::text::zero_padded(t.year as nat, 4) + crate::text::zero_padded(t.month as nat, 2)
        + crate::text::zero_padded(t.day as nat, 2) + crate::text::zero_padded(t.hour as nat, 2)
        + crate::text::zero_padded(t.minute as nat, 2) + crate::text::zero_padded(t.second as nat, 2)
}

/// The bytes of a text of ASCII characters.
pub open spec fn ascii_bytes(s: Seq<char>) -> Seq<u8> {
    Seq::new(s.len(), |i: int| (s[i] as u32) as u8)
}

/// Standard base64 encoding of `b`, with padding.
pub uninterp spec fn base64_standard(b: Seq<u8>) -> Seq<char>;

/// Relies on base64's `STANDARD.encode`: its result depends on the bytes
/// alone, and with padding every started group of three bytes gives four
/// characters (`encoded_len`). Longer input would panic on the length.
#[verifier::external_body]
fn base64_encode(b: &[u8]) -> (r: String)
    requires
        4 * ((b@.len() + 2) / 3) <= usize::MAX,
    ensures
        r@ == base64_standard(b@),
        r@.len() == 4 * ((b@.len() + 2) / 3),
{
    STANDARD.encode(b)
}

fn ascii_bytes_of(s: &str) -> (r: Vec<u8>)
    ensures
        r@ == ascii_bytes(s@),
{
    let n = s.unicode_len();
    let mut r: Vec<u8> = Vec::new();
    let mut i: usize = 0;
    while i < n
        invariant
            n == s@.len(),
            i <= n,
            r@ == ascii_bytes(s@.subrange(0, i as int)),
        decreases n - i,
    {
        let c = s.get_char(i);
        r.push((c as u32) as u8);
        i += 1;
        assert(r@ =~= ascii_bytes(s@.subrange(0, i as int)));
    }
    assert(s@.subrange(0, n as int) =~= s@);
    r
}

/// The value of the `Authorization` header of the car list and manifest
/// requests: `Basic ` and the base64 of the encrypted timestamp.
pub open spec fn authorization_text(key: CipherKey, t: LocalDateTime) -> Seq<char> {
    seq!['B', 'a', 's', 'i', 'c', ' '] + base64_standard(
        crate::crypto::aes256_cbc_encrypted(key.key@, key.iv@, ascii_bytes(timestamp_text(t))),
    )
}

pub open spec fn t_year(t: LocalDateTime) -> nat {
    t.year as nat
}

proof fn lemma_padded_len(n: nat, w: nat)
    requires
        n <= u32::MAX,
        w <= 10,
    ensures
        crate::text::zero_padded(n, w).len() <= 10,
{
    assert(pow10(10) == 10000000000) by {
        reveal_with_fuel(pow10, 11);
    }
    lemma_decimal_len(n, 10);
}

/// The `Authorization` header for a given local time.
#[derive(Clone, Copy, Debug)]
pub struct Authorization(pub LocalDateTime);

impl Authorization {
    /// The header for the local time `timestamp`.
    pub fn with_timestamp(timestamp: LocalDateTime) -> (r: Self)
        ensures
            r.0 == timestamp,
    {
        Authorization(timestamp)
    }

    /// The timestamp as `YYYYMMDDHHMMSS`.
    pub fn timestamp_string(&self) -> (r: String)
        ensures
            r@ == timestamp_text(self.0),
    {
        let t = self.0;
        zero_padded_string(t.year as u64, 4).concat(zero_padded_string(t.month as u64, 2).as_str()).concat(
            zero_padded_string(t.day as u64, 2).as_str(),
        ).concat(zero_padded_string(t.hour as u64, 2).as_str()).concat(
            zero_padded_string(t.minute as u64, 2).as_str(),
        ).concat(zero_padded_string(t.second as u64, 2).as_str())
    }

    /// The header value.
    pub fn to_header(&self, key: &CipherKey) -> (r: String)
        ensures
            r@ == authorization_text(*key, self.0),
    {
        let text = self.timestamp_string();
        let bytes = ascii_bytes_of(text.as_str());
        proof {
            lemma_padded_len(t_year(self.0), 4);
            lemma_padded_len(self.0.month as nat, 2);
            lemma_padded_len(self.0.day as nat, 2);
            lemma_padded_len(self.0.hour as nat, 2);
            lemma_padded_len(self.0.minute as nat, 2);
            lemma_padded_len(self.0.second as nat, 2);
        }
        let encrypted = encrypt(key, bytes.as_slice());
        let encoded = base64_encode(encrypted.as_slice());
        proof {
            reveal_strlit("Basic ");
        }
        assert("Basic "@ =~= seq!['B', 'a', 's', 'i', 'c', ' ']);
        String::from_str("Basic ").concat(encoded.as_str())
    }
}

} // verus!
