use base64::Engine;
use nudl::client::{BrandInfo, CarInfo, FileInfo, FirmwareInfo};
use nudl::cli::Brand;
use nudl::download::{
    after_attempt, check_archive, check_joined_size, cleanup_names, compute_initial_state, extract_name,
    finished_download_name, partial_name, verify_name, verify_outcome, version_file, AttemptAction,
    DownloadParams, FileState, PayloadCrc, PieceState, PlanError, PostProcessError, PostProcessParams,
    ScheduleError, Scheduler,
};
use nudl::model::File;
use nudl::select::{join, select_car, Selection, Selector};

fn file_info(name: &str, count: &str, first: &str, last: &str, dir: &str, size: &str, zsize: &str) -> FileInfo {
    FileInfo::from_file(&File {
        dest_path: dir.to_string(),
        error: "0".to_string(),
        file_crc: "-123".to_string(),
        file_name: name.to_string(),
        file_path: "srv".to_string(),
        file_size: size.to_string(),
        version: "3".to_string(),
        zip_file_cnt: count.to_string(),
        zip_file_first_name: first.to_string(),
        zip_file_last_name: last.to_string(),
        zip_file_size: zsize.to_string(),
    })
    .unwrap()
}

fn firmware(files: Vec<FileInfo>) -> FirmwareInfo {
    FirmwareInfo { size: 0, base_url: String::new(), update_version: "24Q1".to_string(), files }
}

fn piece(final_size: Option<u64>, verify_size: Option<u64>, partial_size: Option<u64>) -> PieceState {
    PieceState { final_size, verify_size, partial_size }
}

fn car() -> CarInfo {
    CarInfo {
        brand: BrandInfo::Known(Brand::Kia),
        id: "CAR_ID".to_string(),
        code: "c".to_string(),
        model: "M".to_string(),
        name: "2024 Car".to_string(),
        version: "V1".to_string(),
        mcode: "9".to_string(),
    }
}

#[test]
fn planner_resumes_partial_split() {
    let fw = firmware(vec![file_info("out.tar", "3", "pkg.zip", "pkg.z02", "", "500", "300000")]);
    let disk = vec![FileState {
        directory_missing: false,
        output_exists: false,
        pieces: vec![piece(None, None, None), piece(None, None, Some(131072)), piece(Some(100), None, None)],
    }];
    let st = compute_initial_state(&fw, &disk).unwrap();
    assert_eq!(
        st.dl_tasks,
        vec![
            DownloadParams { file_index: 0, download_index: 0, start_offset: 0 },
            DownloadParams { file_index: 0, download_index: 1, start_offset: 131072 },
        ]
    );
    assert!(st.pp_tasks.is_empty());
    assert_eq!(st.dl_bytes, 131072 + 100);
    assert_eq!(st.dl_remain, vec![2]);
}

#[test]
fn planner_classifies_files() {
    let fw = firmware(vec![
        file_info("a.bin", "0", "", "", "", "10", "0"),
        file_info("b.tar", "2", "b.zip", "b.z01", "", "40", "30"),
        file_info("c.bin", "0", "", "", "sub", "7", "0"),
        file_info("d.bin", "0", "", "", "", "5", "0"),
    ]);
    let disk = vec![
        // Verified-pending download.
        FileState { directory_missing: false, output_exists: false, pieces: vec![piece(None, Some(10), None)] },
        // Finished output of a split file.
        FileState {
            directory_missing: false,
            output_exists: true,
            pieces: vec![piece(None, None, None), piece(None, None, None)],
        },
        // Missing directory.
        FileState { directory_missing: true, output_exists: false, pieces: vec![piece(None, None, None)] },
        // Nothing yet.
        FileState { directory_missing: false, output_exists: false, pieces: vec![piece(None, None, None)] },
    ];
    let st = compute_initial_state(&fw, &disk).unwrap();
    assert_eq!(st.dl_bytes, 10 + 30);
    assert_eq!(st.pp_bytes, 40);
    assert_eq!(st.dl_remain, vec![0, 0, 1, 1]);
    assert_eq!(
        st.pp_tasks,
        vec![
            PostProcessParams { file_index: 0, clean_only: false },
            PostProcessParams { file_index: 1, clean_only: true },
        ]
    );
    assert_eq!(st.dl_tasks.len(), 2);
    assert_eq!(st.dl_remain.iter().map(|n| *n as usize).sum::<usize>(), st.dl_tasks.len());
}

#[test]
fn planner_reports_overflow() {
    let fw = firmware(vec![
        file_info("a.bin", "0", "", "", "", "10", "0"),
        file_info("b.bin", "0", "", "", "", "10", "0"),
    ]);
    let big = piece(Some(u64::MAX), None, None);
    let disk = vec![
        FileState { directory_missing: false, output_exists: false, pieces: vec![big] },
        FileState { directory_missing: false, output_exists: false, pieces: vec![piece(Some(1), None, None)] },
    ];
    assert_eq!(compute_initial_state(&fw, &disk).unwrap_err(), PlanError::SizeOverflow);
}

#[test]
fn scheduler_bounds_and_chains() {
    let fw = firmware(vec![file_info("out.tar", "3", "pkg.zip", "pkg.z02", "", "500", "300")]);
    let disk = vec![FileState {
        directory_missing: false,
        output_exists: false,
        pieces: vec![piece(None, None, None); 3],
    }];
    let st = compute_initial_state(&fw, &disk).unwrap();
    let mut s = Scheduler::new(st, 2);
    let a = s.next_download().unwrap();
    let b = s.next_download().unwrap();
    assert_eq!((a.download_index, b.download_index), (0, 1));
    assert_eq!(s.next_download(), None);
    assert_eq!(s.next_post_process(), None);
    s.download_finished(0).unwrap();
    assert_eq!(s.next_download().unwrap().download_index, 2);
    s.download_finished(0).unwrap();
    assert_eq!(s.next_post_process(), None);
    s.download_finished(0).unwrap();
    assert_eq!(s.download_finished(0), Err(ScheduleError::NotRunning));
    assert_eq!(s.next_post_process(), Some(PostProcessParams { file_index: 0, clean_only: false }));
    assert!(!s.is_done());
    s.post_process_finished().unwrap();
    assert!(s.is_done());
    assert_eq!(s.post_process_finished(), Err(ScheduleError::NotRunning));
}

#[test]
fn crc_gate_keeps_verify_file_on_mismatch() {
    let info = file_info("fw.bin", "0", "", "", "", "3", "0");
    let mut crc = PayloadCrc::new();
    crc.update(b"ab");
    crc.update(b"c");
    assert_eq!(crc.digest(), crc32fast::hash(b"abc"));
    assert_eq!(
        verify_outcome(&info, crc.digest()),
        Err(PostProcessError::CrcMismatch { expected: (-123i32) as u32, actual: crc32fast::hash(b"abc") })
    );
    let ok = verify_outcome(&info, (-123i32) as u32).unwrap();
    assert_eq!(ok, ("fw.bin.nudl_verify".to_string(), "fw.bin".to_string()));
}

#[test]
fn post_process_checks() {
    let info = file_info("out.tar", "2", "x.zip", "x.z01", "", "40", "30");
    assert_eq!(check_joined_size(&info, 30), Ok(()));
    assert_eq!(check_joined_size(&info, 29), Err(PostProcessError::SizeMismatch { expected: 30, actual: 29 }));
    assert_eq!(check_archive(&info, 2, 0), Err(PostProcessError::EntryCount(2)));
    assert!(check_archive(&info, 1, 5).is_err());
    assert_eq!(check_archive(&info, 1, (-123i32) as u32), Ok(()));
    assert_eq!(cleanup_names(&info, false), vec!["x.z01".to_string(), "x.zip".to_string()]);
    assert!(cleanup_names(&info, true).is_empty());
    assert_eq!(partial_name(&info, 1), "x.zip.nudl_download");
    assert_eq!(finished_download_name(&info, 0), "x.z01");
    assert_eq!(extract_name(&info), "out.tar.nudl_extract");
    let single = file_info("fw.bin", "0", "", "", "", "3", "0");
    assert_eq!(finished_download_name(&single, 0), "fw.bin.nudl_verify");
    assert_eq!(verify_name(&single), "fw.bin.nudl_verify");
}

#[test]
fn retry_decisions() {
    assert_eq!(after_attempt(0, 3, true), AttemptAction::Done);
    assert_eq!(after_attempt(0, 3, false), AttemptAction::Retry);
    assert_eq!(after_attempt(3, 3, false), AttemptAction::Fail);
}

#[test]
fn version_file_format() {
    let fw = firmware(vec![
        file_info("a.bin", "0", "", "", "maps/eu", "4294967295", "0"),
        file_info("b.bin", "0", "", "", "", "12", "0"),
    ]);
    assert_eq!(
        version_file(&car(), &fw),
        "+|24Q1|V1|KM|CAR_ID|9|1\nCAR_ID\\maps\\eu|a.bin|3|-123|4294967295|1\nCAR_ID|b.bin|3|-123|12|1\n"
    );
}

#[test]
fn selection() {
    let mut other = car();
    other.version = "V2".to_string();
    let cars = vec![car(), other];
    let by_model = vec![Selector::Model("CAR_ID".to_string())];
    assert!(matches!(select_car(&cars, &by_model), Selection::Ambiguous(v) if v == vec![0, 1]));
    let by_both = vec![Selector::Model("CAR_ID".to_string()), Selector::Version("V2".to_string())];
    assert!(matches!(select_car(&cars, &by_both), Selection::One(1)));
    let none = vec![Selector::Name("nope".to_string())];
    assert!(matches!(select_car(&cars, &none), Selection::NoMatch));
    let args: Vec<String> = Selector::all_for_car(&cars[0]).iter().map(|s| s.to_arg()).collect();
    assert_eq!(join(&args, " "), "-m CAR_ID -n \"2024 Car\" -v V1");
    assert_eq!(join(&vec![], ", "), "");
}

#[test]
fn car_table_layout() {
    let mut other = car();
    other.id = "LONGER_ID_1".to_string();
    other.name = "N".to_string();
    let table = nudl::select::car_table(&vec![car(), other]);
    assert_eq!(
        table,
        "MODEL       NAME       VERSION\nCAR_ID      \"2024 Car\" V1\nLONGER_ID_1 \"N\"        V1\n"
    );
    assert_eq!(nudl::select::car_table(&vec![]), "MODEL NAME   VERSION\n");
}

#[test]
fn encrypt_decrypt_round_trip() {
    let key = nudl::crypto::CipherKey { key: [7u8; 32], iv: [9u8; 16] };
    for msg in [&b""[..], b"Hello, world!", &[1u8; 16][..], &[2u8; 33][..]] {
        let c = nudl::crypto::encrypt(&key, msg);
        assert_eq!(c.len(), 16 * (msg.len() / 16 + 1));
        assert_eq!(nudl::crypto::decrypt(&key, &c).unwrap(), msg.to_vec());
    }
    assert_eq!(nudl::crypto::decrypt(&key, &[0]), Err(nudl::crypto::Error::CiphertextTooSmall));
}

#[test]
fn authorization_header_shape() {
    let key = nudl::crypto::CipherKey { key: [1u8; 32], iv: [2u8; 16] };
    let t = nudl::client::LocalDateTime { year: 2024, month: 1, day: 1, hour: 20, minute: 30, second: 40 };
    let header = nudl::client::Authorization::with_timestamp(t).to_header(&key);
    assert!(header.starts_with("Basic "));
    // Fourteen digits pad to one 16-byte block, which is 24 base64 characters.
    assert_eq!(header.len(), "Basic ".len() + 24);
    let encrypted = nudl::crypto::encrypt(&key, b"20240101203040");
    assert_eq!(&header["Basic ".len()..], base64::engine::general_purpose::STANDARD.encode(encrypted));
}

#[test]
fn post_process_dispatch() {
    let split = file_info("out.tar", "2", "x.zip", "x.z01", "", "40", "30");
    let single = file_info("fw.bin", "0", "", "", "", "3", "0");
    let s = nudl::download::post_process_steps(&split, false);
    assert!(s.extract && s.clean && !s.verify);
    let s = nudl::download::post_process_steps(&split, true);
    assert!(!s.extract && s.clean && !s.verify);
    let s = nudl::download::post_process_steps(&single, false);
    assert!(s.verify && !s.extract && !s.clean);
}

#[test]
fn speed_tracker_keeps_one_record_before_the_period() {
    let mut t = nudl::progress::SpeedTracker::new(1000);
    assert_eq!(t.span(), None);
    t.record_value(0, 5);
    assert_eq!(t.span(), None);
    t.record_value(100, 0);
    t.record_value(200, 500);
    assert_eq!(t.span(), Some((500, 100)));
    t.record_value(300, 1200);
    assert_eq!(t.span(), Some((1200, 200)));
    t.record_value(400, 2600);
    // Only the record at 1200 and the new one remain.
    assert_eq!(t.span(), Some((1400, 100)));
    t.reset();
    assert_eq!(t.span(), None);
}

#[test]
fn cancel_flag() {
    let flag = std::sync::atomic::AtomicBool::new(false);
    assert_eq!(nudl::download::check_cancel(&flag), Ok(()));
    flag.store(true, std::sync::atomic::Ordering::SeqCst);
    assert_eq!(nudl::download::check_cancel(&flag), Err(nudl::io::IoError::Interrupted));
}

#[test]
fn download_total_and_manifest_errors() {
    let fw = firmware(vec![
        file_info("a.bin", "0", "", "", "", "10", "0"),
        file_info("b.tar", "2", "b.zip", "b.z01", "", "40", "30"),
    ]);
    assert_eq!(nudl::download::total_download_size(&fw), Some(40));
    let data = nudl::model::CarDownloadData {
        environment: nudl::model::Environment {
            ag_zip_name_ext: String::new(),
            common_prefix: String::new(),
            dest_root_path: String::new(),
            download_file_cnt: "1".to_string(),
            download_file_size: "x".to_string(),
            download_prefix: String::new(),
            download_root_path: String::new(),
            model_prefix: String::new(),
            sums: String::new(),
            update_version: String::new(),
        },
        files: vec![],
    };
    assert!(matches!(
        FirmwareInfo::from_data(&data),
        Err(nudl::client::Error::BadFieldValue(nudl::client::WireField::DownloadFileSize, v)) if v == "x"
    ));
}

#[test]
fn small_decisions() {
    assert_eq!(nudl::download::cancel_outcome(false), Ok(()));
    assert_eq!(nudl::download::cancel_outcome(true), Err(nudl::io::IoError::Interrupted));
    assert_eq!(nudl::download::check_entry_count(1), Ok(()));
    assert_eq!(nudl::download::check_entry_count(3), Err(PostProcessError::EntryCount(3)));
    assert_eq!(nudl::file::piece_read_outcome(vec![]), Err(nudl::io::IoError::UnexpectedEof));
    assert_eq!(nudl::file::piece_read_outcome(vec![4, 5]), Ok(vec![4, 5]));
}
