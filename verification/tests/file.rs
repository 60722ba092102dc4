use chloedb::error::DBError;
use chloedb::file::{format_log_file_path, log_threshold_exceed, parse_file_id};

#[test]
fn check_log_threshold() {
    // test 1 KB greater than default 1 MB threshold
    let kb = 1024;
    let mb = kb * kb;
    assert!(!log_threshold_exceed(mb, kb as u32));
}

#[test]
fn threshold_is_strictly_greater() {
    assert!(!log_threshold_exceed(100, 100));
    assert!(log_threshold_exceed(100, 101));
    assert!(!log_threshold_exceed(100, 0));
}

#[test]
fn log_file_path_pads_to_four_digits() {
    assert_eq!(format_log_file_path("logs", 1), "logs/0001.log");
    assert_eq!(format_log_file_path("logs", 42), "logs/0042.log");
    assert_eq!(format_log_file_path("logs", 999), "logs/0999.log");
    assert_eq!(format_log_file_path("logs", 1000), "logs/1000.log");
}

#[test]
fn log_file_path_keeps_longer_numbers() {
    assert_eq!(format_log_file_path("logs", 12345), "logs/12345.log");
    assert_eq!(format_log_file_path("logs", 0), "logs/0000.log");
    assert_eq!(format_log_file_path("logs", u32::MAX), "logs/4294967295.log");
}

#[test]
fn log_file_path_separator() {
    assert_eq!(format_log_file_path("logs/", 3), "logs/0003.log");
    assert_eq!(format_log_file_path("", 3), "0003.log");
    assert_eq!(format_log_file_path("./a/b", 10), "./a/b/0010.log");
}

#[test]
fn log_file_path_matches_std_join() {
    for dir in ["logs", "logs/", "", "./x"] {
        for id in [0u32, 5, 77, 4321, 99999] {
            let expected = std::path::Path::new(dir).join(format!("{:04}.log", id));
            assert_eq!(std::path::PathBuf::from(format_log_file_path(dir, id)), expected);
        }
    }
}

#[test]
fn log_file_name_parses_back_to_its_id() {
    for id in [0u32, 1, 9, 10, 99, 100, 999, 1000, 65535, u32::MAX] {
        let path = std::path::PathBuf::from(format_log_file_path("dir", id));
        let stem = path.file_stem().unwrap().to_str().unwrap();
        assert_eq!(stem.parse::<u32>().unwrap(), id);
        assert_eq!(path.extension().unwrap(), "log");
    }
}

#[test]
fn parse_file_id_reads_like_std_parse() {
    for stem in [
        "0001", "1", "+7", "", "+", "12a", "a1", "-1", "-0", "4294967295", "4294967296",
        "00000000000000000000042", "99999999999", " 1", "1 ", "++1", "٣",
    ] {
        match (parse_file_id(stem), stem.parse::<u32>()) {
            (Ok(a), Ok(b)) => assert_eq!(a, b, "{}", stem),
            (Err(DBError::FailedParseFileId), Err(_)) => {}
            _ => panic!("differs from std on {:?}", stem),
        }
    }
}

#[test]
fn log_file_names_sort_by_id_up_to_9999() {
    let ids = [0u32, 1, 2, 9, 10, 11, 99, 100, 101, 999, 1000, 5000, 9998, 9999];
    for w in ids.windows(2) {
        let a = std::path::PathBuf::from(format_log_file_path("d", w[0]));
        let b = std::path::PathBuf::from(format_log_file_path("d", w[1]));
        assert!(a < b);
    }
    let big = std::path::PathBuf::from(format_log_file_path("d", 10000));
    let small = std::path::PathBuf::from(format_log_file_path("d", 9999));
    assert!(big < small);
}
