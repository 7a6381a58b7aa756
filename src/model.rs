use vstd::prelude::*;
use vstd::string::*;

use crate::text::{parse_unsigned, unsigned_text};

verus! {

#[derive(Debug)]
pub enum Error {
    /// The response carried an error code: the code and the message.
    BadResponse(String, String),
}

/// Response data for the `/region/status/<country code>` endpoint.
#[derive(Debug)]
pub struct RegionStatusData {
    /// Two character ISO country code.
    pub region: String,
    /// Unknown "Y"/"N" boolean value.
    pub service_yn: String,
}

/// Response data for the `/guid` endpoint.
#[derive(Debug)]
pub struct GuidData {
    /// GUID value. This is not a UUID, but a human-readable timestamp.
    pub guid: String,
}

/// Car object in the response data of the `/car/list` endpoint.
#[derive(Debug)]
pub struct Car {
    /// Two character brand code.
    pub brand: String,
    /// Destination folder name; unique, so it serves as the car's ID.
    pub dest_path: String,
    /// Download code for the `/car/download/<code>` endpoint.
    pub download_code: String,
    /// Marketing name including the model year and model name.
    pub dvc_name: String,
    pub eng_dvc_name: String,
    pub eng_vcl_name: String,
    /// Unknown integer value.
    pub mcode: String,
    /// Storage medium for firmware: `SD` or `USB`.
    pub media_type: String,
    /// Technical model name.
    pub model_names: Vec<String>,
    /// Code of the platform.
    pub platform_code: String,
    pub priority: String,
    pub regist_yn: String,
    pub service_yn: String,
    /// Glob patterns matching the firmware versions.
    pub sw_ver_idxs: Vec<String>,
    /// Firmware versions. More than one for some head units.
    pub sw_vers: Vec<String>,
    /// Marketing name including the model name only.
    pub vcl_name: String,
}

/// Platform object in the response data of the `/car/list` endpoint.
#[derive(Debug)]
pub struct Platform {
    pub map_img_name: String,
    pub platform_code: String,
    pub platform_img_name: String,
}

/// Response data for the `/car/list` endpoint.
#[derive(Debug)]
pub struct CarListData {
    pub cars: Vec<Car>,
    pub map_file_download_path: String,
    pub navi_file_download_path: String,
    pub platforms: Vec<Platform>,
    pub user_auth: String,
}

/// Environment object in the response data of the `/car/download/<code>`
/// endpoint.
#[derive(Debug)]
pub struct Environment {
    pub ag_zip_name_ext: String,
    pub common_prefix: String,
    pub dest_root_path: String,
    /// Number of firmware files after extraction.
    pub download_file_cnt: String,
    /// Total byte size of all firmware files.
    pub download_file_size: String,
    pub download_prefix: String,
    /// Base URL for all firmware file downloads.
    pub download_root_path: String,
    pub model_prefix: String,
    pub sums: String,
    /// Version number of unknown meaning, such as `23Q2`.
    pub update_version: String,
}

/// File object in the response data of the `/car/download/<code>` endpoint.
#[derive(Debug)]
pub struct File {
    /// Directory of the output file, or empty.
    pub dest_path: String,
    pub error: String,
    /// CRC-32 of the extracted file, as a signed 32-bit integer.
    pub file_crc: String,
    /// Name of the extracted file.
    pub file_name: String,
    /// Server-side directory holding the pieces.
    pub file_path: String,
    /// Size of the extracted file.
    pub file_size: String,
    pub version: String,
    /// Number of split zip pieces.
    pub zip_file_cnt: String,
    /// Name reported as the first piece.
    pub zip_file_first_name: String,
    /// Name reported as the last piece.
    pub zip_file_last_name: String,
    /// Total byte size of all pieces.
    pub zip_file_size: String,
}

/// Response data for the `/car/download/<code>` endpoint.
#[derive(Debug)]
pub struct CarDownloadData {
    pub environment: Environment,
    pub files: Vec<File>,
}

/// Envelope of every API response.
#[derive(Debug)]
pub struct ResponseData<D> {
    /// Request-specific data.
    pub data: D,
    /// Status code: four digits, `0000` on success.
    pub resp_code: String,
    /// Status message, present on success too.
    pub resp_msg: String,
}

/// Whether a response code reports success: it reads as the number zero.
pub open spec fn is_success_code(code: Seq<char>) -> bool {
    unsigned_text(code) == Some(0nat)
}

impl<D> ResponseData<D> {
    /// Fail unless the response code reports success.
    pub fn error_for_status(&self) -> (r: Result<(), Error>)
        ensures
            r is Ok <==> is_success_code(self.resp_code@),
            r matches Err(Error::BadResponse(c, m)) ==> c@ == self.resp_code@ && m@ == self.resp_msg@,
    {
        if let Some(code) = parse_unsigned(self.resp_code.as_str(), 0xffff) {
            if code == 0 {
                return Ok(());
            }
        }
        Err(Error::BadResponse(self.resp_code.clone(), self.resp_msg.clone()))
    }
}

/// Request data for the `/car/list` endpoint.
#[derive(Debug)]
pub struct CarListRequest {
    /// Two character car brand code.
    pub brand: String,
    /// GUID from the `/guid` endpoint.
    pub guid: String,
    /// Two character ISO country code.
    pub region: String,
    /// Encrypted user name; empty for anonymous downloads.
    pub user_id: String,
    /// Encrypted password; empty for anonymous downloads.
    pub user_pw: String,
    /// Always `U`.
    pub user_type: String,
}

impl CarListRequest {
    /// An anonymous request.
    pub fn anonymous(brand: &str, guid: &str, region: &str) -> (r: Self)
        ensures
            r.brand@ == brand@,
            r.guid@ == guid@,
            r.region@ == region@,
            r.user_id@.len() == 0,
            r.user_pw@.len() == 0,
            r.user_type@ == seq!['U'],
    {
        proof {
            reveal_strlit("U");
        }
        CarListRequest {
            brand: String::from_str(brand),
            guid: String::from_str(guid),
            region: String::from_str(region),
            user_id: String::new(),
            user_pw: String::new(),
            user_type: String::from_str("U"),
        }
    }
}

} // verus!
