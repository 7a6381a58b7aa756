use vstd::prelude::*;
use vstd::string::*;

use crate::text::{parse_unsigned, str_eq, unsigned_text};

verus! {

/// The largest download and post-processing concurrency accepted, the same
/// limit as aria2's, to avoid an unintentional denial of service.
pub const MAX_CONCURRENCY: u8 = 16;

/// Number of downloads and post-processing tasks that run at once.
#[derive(Clone, Copy, Debug, PartialEq, Eq, Structural)]
pub struct Concurrency(pub u8);

/// Why a concurrency value was refused.
#[derive(Clone, Copy, Debug, PartialEq, Eq, Structural)]
pub enum ConcurrencyError {
    /// Not a number from 0 to 255.
    Invalid,
    /// Zero.
    Zero,
    /// Above [`MAX_CONCURRENCY`].
    TooHigh,
}

impl Concurrency {
    /// Parse a concurrency from its decimal text.
    pub fn parse(s: &str) -> (r: Result<Concurrency, ConcurrencyError>)
        ensures
            match unsigned_text(s@) {
                None => r == Err::<Concurrency, ConcurrencyError>(ConcurrencyError::Invalid),
                Some(n) => if n > 255 {
                    r == Err::<Concurrency, ConcurrencyError>(ConcurrencyError::Invalid)
                } else if n == 0 {
                    r == Err::<Concurrency, ConcurrencyError>(ConcurrencyError::Zero)
                } else if n > MAX_CONCURRENCY {
                    r == Err::<Concurrency, ConcurrencyError>(ConcurrencyError::TooHigh)
                } else {
                    r == Ok::<Concurrency, ConcurrencyError>(Concurrency(n as u8))
                },
            },
    {
        match parse_unsigned(s, 255) {
            None => Err(ConcurrencyError::Invalid),
            Some(n) => {
                if n == 0 {
                    Err(ConcurrencyError::Zero)
                } else if n > MAX_CONCURRENCY as u64 {
                    Err(ConcurrencyError::TooHigh)
                } else {
                    Ok(Concurrency(n as u8))
                }
            },
        }
    }
}

#[derive(Clone, Copy, Debug, PartialEq, Eq, Structural)]
pub enum Brand {
    Hyundai,
    Kia,
    Genesis,
}

pub open spec fn brand_code(b: Brand) -> Seq<char> {
    match b {
        Brand::Hyundai => seq!['H', 'M'],
        Brand::Kia => seq!['K', 'M'],
        Brand::Genesis => seq!['G', 'N'],
    }
}

pub open spec fn brand_name(b: Brand) -> Seq<char> {
    match b {
        Brand::Hyundai => seq!['H', 'y', 'u', 'n', 'd', 'a', 'i'],
        Brand::Kia => seq!['K', 'i', 'a'],
        Brand::Genesis => seq!['G', 'e', 'n', 'e', 's', 'i', 's'],
    }
}

impl Brand {
    /// The two character code the API uses.
    pub fn as_code_str(&self) -> (r: &'static str)
        ensures
            r@ == brand_code(*self),
    {
        proof {
            reveal_strlit("HM");
            reveal_strlit("KM");
            reveal_strlit("GN");
        }
        let r = match self {
            Brand::Hyundai => "HM",
            Brand::Kia => "KM",
            Brand::Genesis => "GN",
        };
        assert(r@ =~= brand_code(*self));
        r
    }

    /// The brand's name for display.
    pub fn as_pretty_str(&self) -> (r: &'static str)
        ensures
            r@ == brand_name(*self),
    {
        proof {
            reveal_strlit("Hyundai");
            reveal_strlit("Kia");
            reveal_strlit("Genesis");
        }
        let r = match self {
            Brand::Hyundai => "Hyundai",
            Brand::Kia => "Kia",
            Brand::Genesis => "Genesis",
        };
        assert(r@ =~= brand_name(*self));
        r
    }

    /// The brand with code `s`, or `s` itself when no brand has that code.
    pub fn from_code(s: &str) -> (r: Result<Brand, String>)
        ensures
            r matches Ok(b) ==> brand_code(b) == s@,
            r matches Err(u) ==> u@ == s@ && s@ != brand_code(Brand::Hyundai) && s@ != brand_code(
                Brand::Kia,
            ) && s@ != brand_code(Brand::Genesis),
    {
        if str_eq(s, Brand::Hyundai.as_code_str()) {
            Ok(Brand::Hyundai)
        } else if str_eq(s, Brand::Kia.as_code_str()) {
            Ok(Brand::Kia)
        } else if str_eq(s, Brand::Genesis.as_code_str()) {
            Ok(Brand::Genesis)
        } else {
            Err(String::from_str(s))
        }
    }
}

/// Output format of the `list` command.
#[derive(Clone, Copy, Debug, PartialEq, Eq, Structural)]
pub enum OutputFormat {
    /// Columns with the model ID, name and firmware version.
    Text,
    /// Normalized data from the server.
    Json,
    /// Raw data from the server.
    JsonRaw,
}

impl OutputFormat {
    /// The name of the format on the command line.
    pub fn name(&self) -> (r: &'static str)
        ensures
            *self == OutputFormat::Text ==> r@ == seq!['t', 'e', 'x', 't'],
            *self == OutputFormat::Json ==> r@ == seq!['j', 's', 'o', 'n'],
            *self == OutputFormat::JsonRaw ==> r@ == seq!['j', 's', 'o', 'n', '-', 'r', 'a', 'w'],
    {
        proof {
            reveal_strlit("text");
            reveal_strlit("json");
            reveal_strlit("json-raw");
        }
        let r = match self {
            OutputFormat::Text => "text",
            OutputFormat::Json => "json",
            OutputFormat::JsonRaw => "json-raw",
        };
        proof {
            assert(*self == OutputFormat::Text ==> r@ =~= seq!['t', 'e', 'x', 't']);
            assert(*self == OutputFormat::Json ==> r@ =~= seq!['j', 's', 'o', 'n']);
            assert(*self == OutputFormat::JsonRaw ==> r@ =~= seq!['j', 's', 'o', 'n', '-', 'r', 'a', 'w']);
        }
        r
    }
}

/// Brand and region of the cars to query.
#[derive(Debug)]
pub struct FamilyGroup {
    /// Car brand.
    pub brand: Brand,
    /// Car region; autodetected when absent.
    pub region: Option<String>,
}

/// Arguments of the `list` command.
#[derive(Debug)]
pub struct ListCli {
    pub family: FamilyGroup,
    /// Data output format.
    pub output: OutputFormat,
}

/// Arguments of the `download` command.
#[derive(Debug)]
pub struct DownloadCli {
    pub family: FamilyGroup,
    /// Car model ID.
    pub model: String,
    /// Firmware version, to tell apart variants that share a model ID.
    pub fw_version: Option<String>,
    /// Output directory.
    pub output: String,
    /// Download and post-processing concurrency.
    pub concurrency: Concurrency,
    /// Maximum retries of a download.
    pub retries: u8,
    /// Keep the raw pieces after extraction.
    pub keep_raw: bool,
}

#[derive(Debug)]
pub enum Command {
    List(ListCli),
    Download(DownloadCli),
}

/// Arguments of the program.
#[derive(Debug)]
pub struct Cli {
    pub command: Command,
    /// Lowest log message severity to output.
    pub log_level: String,
    /// Ignore TLS certificate validation for HTTPS connections.
    pub ignore_tls_validation: bool,
}

} // verus!
