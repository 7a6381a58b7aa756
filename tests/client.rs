use nudl::cli::{Brand, Concurrency, ConcurrencyError};
use nudl::client::{
    base_url, range_response, AutodetectedRegion, Authorization, CarInfo, Error, FileInfo, FirmwareInfo,
    LocalDateTime, NuClientBuilder, ZipNamingScheme,
};
use nudl::model::{Car, CarDownloadData, Environment, File, ResponseData};

fn file(first: &str, last: &str, count: &str) -> File {
    File {
        dest_path: String::new(),
        error: "0".to_string(),
        file_crc: "-1".to_string(),
        file_name: "data.tar".to_string(),
        file_path: "/path/to/".to_string(),
        file_size: "-2".to_string(),
        version: "7".to_string(),
        zip_file_cnt: count.to_string(),
        zip_file_first_name: first.to_string(),
        zip_file_last_name: last.to_string(),
        zip_file_size: "1000".to_string(),
    }
}

#[test]
fn naming_legacy() {
    let scheme = ZipNamingScheme::parse("foo001.bin", "foo003.bin", 3).unwrap();
    match &scheme {
        ZipNamingScheme::Legacy { prefix, suffix, digits } => {
            assert_eq!(prefix, "foo");
            assert_eq!(suffix, ".bin");
            assert_eq!(*digits, 3);
        }
        other => panic!("unexpected scheme: {other:?}"),
    }
    assert_eq!(scheme.name(0), "foo001.bin");
    assert_eq!(scheme.name(2), "foo003.bin");
}

#[test]
fn naming_standard() {
    let scheme = ZipNamingScheme::parse("pkg.zip", "pkg.z02", 3).unwrap();
    match &scheme {
        ZipNamingScheme::Standard { base_name, count } => {
            assert_eq!(base_name, "pkg");
            assert_eq!(*count, 3);
        }
        other => panic!("unexpected scheme: {other:?}"),
    }
    assert_eq!(scheme.name(0), "pkg.z01");
    assert_eq!(scheme.name(1), "pkg.z02");
    assert_eq!(scheme.name(2), "pkg.zip");
}

#[test]
fn naming_single_and_none() {
    assert!(matches!(ZipNamingScheme::parse("", "", 0), Ok(ZipNamingScheme::NotZip)));
    let single = ZipNamingScheme::parse("a.zip", "a.zip", 1).unwrap();
    assert_eq!(single.name(0), "a.zip");
    assert!(matches!(
        ZipNamingScheme::parse("a.zip", "b.zip", 1),
        Err(Error::UnknownZipNaming { count: 1, .. })
    ));
}

#[test]
fn naming_ambiguous_is_an_error() {
    match ZipNamingScheme::parse("x.bin", "y.bin", 4) {
        Err(Error::UnknownZipNaming { first, last, count }) => {
            assert_eq!(first, "x.bin");
            assert_eq!(last, "y.bin");
            assert_eq!(count, 4);
        }
        other => panic!("unexpected result: {other:?}"),
    }
}

#[test]
fn file_info_widens_negative_sizes() {
    let info = FileInfo::from_file(&file("pkg.zip", "pkg.z02", "3")).unwrap();
    assert_eq!(info.crc32, 0xffff_ffff);
    assert_eq!(info.size, 0xffff_fffe);
    assert_eq!(info.download_size(), 1000);
    assert!(info.is_split());
    assert_eq!(info.download_count(), 3);
    assert_eq!(info.download_name(2), "pkg.zip");
    assert_eq!(info.path(), "data.tar");
    assert_eq!(info.download_remote_path(0), "path%2Fto%2Fpkg.z01");
}

#[test]
fn file_info_not_split() {
    let info = FileInfo::from_file(&file("", "", "0")).unwrap();
    assert!(!info.is_split());
    assert_eq!(info.download_count(), 1);
    assert_eq!(info.download_name(0), "data.tar");
    assert_eq!(info.download_size(), 0xffff_fffe);
}

#[test]
fn file_info_directory() {
    let mut f = file("", "", "0");
    f.dest_path = "maps/eu".to_string();
    let info = FileInfo::from_file(&f).unwrap();
    assert_eq!(info.path(), "maps/eu/data.tar");
    assert_eq!(info.download_path(0), "maps/eu/data.tar");
}

#[test]
fn file_info_bad_fields() {
    let mut f = file("", "", "0");
    f.file_crc = "abc".to_string();
    assert!(matches!(FileInfo::from_file(&f), Err(Error::BadFieldValue(_, v)) if v == "abc"));
    let mut f = file("", "", "0");
    f.file_crc = "2147483648".to_string();
    assert!(FileInfo::from_file(&f).is_err());
    let mut f = file("", "", "x");
    f.zip_file_cnt = "-1".to_string();
    assert!(matches!(FileInfo::from_file(&f), Err(Error::BadFieldValue(_, v)) if v == "-1"));
}

fn environment(count: &str, size: &str) -> Environment {
    Environment {
        ag_zip_name_ext: String::new(),
        common_prefix: String::new(),
        dest_root_path: String::new(),
        download_file_cnt: count.to_string(),
        download_file_size: size.to_string(),
        download_prefix: String::new(),
        download_root_path: "https://example.invalid/fw".to_string(),
        model_prefix: String::new(),
        sums: String::new(),
        update_version: "23Q2".to_string(),
    }
}

#[test]
fn firmware_info_from_data() {
    let data = CarDownloadData {
        environment: environment("", ""),
        files: vec![file("pkg.zip", "pkg.z02", "3"), file("", "", "0")],
    };
    let fw = FirmwareInfo::from_data(&data).unwrap();
    assert_eq!(fw.size, 0);
    assert_eq!(fw.files.len(), 2);
    assert_eq!(fw.update_version, "23Q2");

    let data = CarDownloadData { environment: environment("2", "12345"), files: vec![] };
    assert_eq!(FirmwareInfo::from_data(&data).unwrap().size, 12345);

    let data = CarDownloadData { environment: environment("x", "1"), files: vec![] };
    assert!(FirmwareInfo::from_data(&data).is_err());
}

fn car(brand: &str, versions: Vec<&str>) -> Car {
    Car {
        brand: brand.to_string(),
        dest_path: "ID1".to_string(),
        download_code: "code".to_string(),
        dvc_name: "2024 Car".to_string(),
        eng_dvc_name: String::new(),
        eng_vcl_name: String::new(),
        mcode: "42".to_string(),
        media_type: "SD".to_string(),
        model_names: vec!["CAR".to_string()],
        platform_code: "P".to_string(),
        priority: "1".to_string(),
        regist_yn: "Y".to_string(),
        service_yn: "Y".to_string(),
        sw_ver_idxs: vec![],
        sw_vers: versions.into_iter().map(|s| s.to_string()).collect(),
        vcl_name: "Car".to_string(),
    }
}

#[test]
fn car_info_from_car() {
    let info = CarInfo::from_car(&car("KM", vec!["1.0", "2.0"])).unwrap();
    assert_eq!(info.brand(), "KM");
    assert_eq!(info.version, "1.0");
    assert_eq!(info.id, "ID1");
    let unknown = CarInfo::from_car(&car("ZZ", vec!["1.0"])).unwrap();
    assert_eq!(unknown.brand(), "ZZ");
    assert!(matches!(CarInfo::from_car(&car("HM", vec![])), Err(Error::BadFieldLength(_, 0))));
}

#[test]
fn brand_codes() {
    assert_eq!(Brand::Hyundai.as_code_str(), "HM");
    assert_eq!(Brand::Kia.as_pretty_str(), "Kia");
    assert_eq!(Brand::from_code("GN"), Ok(Brand::Genesis));
    assert_eq!(Brand::from_code("XX"), Err("XX".to_string()));
}

#[test]
fn concurrency_limits() {
    assert_eq!(Concurrency::parse("4"), Ok(Concurrency(4)));
    assert_eq!(Concurrency::parse("16"), Ok(Concurrency(16)));
    assert_eq!(Concurrency::parse("0"), Err(ConcurrencyError::Zero));
    assert_eq!(Concurrency::parse("17"), Err(ConcurrencyError::TooHigh));
    assert_eq!(Concurrency::parse("256"), Err(ConcurrencyError::Invalid));
    assert_eq!(Concurrency::parse("x"), Err(ConcurrencyError::Invalid));
}

#[test]
fn base_urls_by_region() {
    assert_eq!(base_url("EU"), "https://apieu.map-care.com/api/v3");
    assert_eq!(base_url("TR"), "https://apieu.map-care.com/api/v3");
    assert_eq!(base_url("US"), "https://api.map-care.com/api/v3");
}

#[test]
fn range_416_with_matching_length_is_complete() {
    assert!(matches!(range_response(416, Some(1000), 1000), Err(Error::AlreadyComplete)));
    assert!(matches!(range_response(416, Some(999), 1000), Err(Error::HttpStatus(416))));
    assert!(matches!(range_response(206, None, 1000), Ok(())));
    assert!(matches!(range_response(200, None, 0), Err(Error::BadHttpResponse(206, 200))));
}

#[test]
fn response_status_codes() {
    let ok = ResponseData { data: (), resp_code: "0000".to_string(), resp_msg: "OK".to_string() };
    assert!(ok.error_for_status().is_ok());
    let bad = ResponseData { data: (), resp_code: "0101".to_string(), resp_msg: "nope".to_string() };
    assert!(bad.error_for_status().is_err());
}

#[test]
fn region_validity() {
    assert!(matches!(AutodetectedRegion::from_platforms("US".to_string(), 0), AutodetectedRegion::Invalid(r) if r == "US"));
    assert!(matches!(AutodetectedRegion::from_platforms("US".to_string(), 2), AutodetectedRegion::Valid(r) if r == "US"));
    assert!(NuClientBuilder::new().ignore_tls_validation(true).ignores_tls_validation());
}

#[test]
fn authorization_timestamp_text() {
    let t = LocalDateTime { year: 2024, month: 1, day: 1, hour: 20, minute: 30, second: 40 };
    assert_eq!(Authorization::with_timestamp(t).timestamp_string(), "20240101203040");
}
