use imagesorter::folder::ImageInfo;
use imagesorter::folder::summarize_scan;
use imagesorter::metadata::parse_exif_datetime;
use imagesorter::metadata::read_creation_date;
use imagesorter::metadata::CaptureDate;
use imagesorter::scanner::is_supported_extension;
use imagesorter::sorter::dec_string;
use imagesorter::sorter::destination_subpath;
use imagesorter::sorter::pad2_string;
use imagesorter::sorter::renamed_filename;
use imagesorter::sorter::OperationResult;
use imagesorter::sorter::SortConfig;

#[test]
fn test_supported_extensions() {
    assert!(is_supported_extension("jpg"));
    assert!(is_supported_extension("png"));
    assert!(!is_supported_extension("txt"));
}

#[test]
fn test_supported_extensions_ignore_ascii_case() {
    assert!(is_supported_extension("JPG"));
    assert!(is_supported_extension("JpEg"));
    assert!(is_supported_extension("HEIC"));
    assert!(is_supported_extension("tiff"));
    assert!(!is_supported_extension("jpg "));
    assert!(!is_supported_extension(""));
    assert!(!is_supported_extension("mp4"));
}

#[test]
fn test_parse_exif_datetime_accepts_real_dates() {
    let d = parse_exif_datetime("2023:04:15 10:30:00").unwrap();
    assert_eq!(
        d,
        CaptureDate {
            year: 2023,
            month: 4,
            day: 15,
            hour: 10,
            minute: 30,
            second: 0
        }
    );
}

#[test]
fn test_parse_exif_datetime_rejects_malformed_input() {
    assert_eq!(parse_exif_datetime(""), None);
    assert_eq!(parse_exif_datetime("2023-04-15 10:30:00"), None);
    assert_eq!(parse_exif_datetime("2023:04:15 10:30:0"), None);
    assert_eq!(parse_exif_datetime("not a date at all!!"), None);
    assert_eq!(parse_exif_datetime("2023:13:01 10:30:00"), None);
    assert_eq!(parse_exif_datetime("2023:00:01 10:30:00"), None);
    assert_eq!(parse_exif_datetime("2023:04:31 10:30:00"), None);
    assert_eq!(parse_exif_datetime("2023:04:15 24:30:00"), None);
    assert_eq!(parse_exif_datetime("2023:04:15 10:60:00"), None);
    assert_eq!(parse_exif_datetime("2023:04:15 10:30:60"), None);
}

#[test]
fn test_parse_exif_datetime_knows_leap_years() {
    assert!(parse_exif_datetime("2024:02:29 00:00:00").is_some());
    assert_eq!(parse_exif_datetime("2023:02:29 00:00:00"), None);
    assert_eq!(parse_exif_datetime("1900:02:29 00:00:00"), None);
    assert!(parse_exif_datetime("2000:02:29 00:00:00").is_some());
}

#[test]
fn test_read_creation_date_prefers_original_then_falls_back() {
    let original = Some("2020:01:02 03:04:05".to_string());
    let digitized = Some("2021:06:07 08:09:10".to_string());
    let plain = Some("2022:11:12 13:14:15".to_string());
    let mtime = Some(CaptureDate {
        year: 2023,
        month: 9,
        day: 30,
        hour: 0,
        minute: 0,
        second: 0,
    });

    let picked = read_creation_date(&original, &digitized, &plain, mtime);
    assert_eq!(picked.unwrap().year, 2020);

    let picked = read_creation_date(&None, &digitized, &plain, mtime);
    assert_eq!(picked.unwrap().year, 2021);

    let broken = Some("garbage".to_string());
    let picked = read_creation_date(&broken, &None, &plain, mtime);
    assert_eq!(picked.unwrap().year, 2022);

    let picked = read_creation_date(&broken, &None, &None, mtime);
    assert_eq!(picked.unwrap().year, 2023);

    let picked = read_creation_date(&None, &None, &None, None);
    assert!(picked.is_none());
}

#[test]
fn test_destination_subpath_layouts() {
    let date = CaptureDate {
        year: 2024,
        month: 5,
        day: 7,
        hour: 12,
        minute: 0,
        second: 0,
    };
    let plain = SortConfig {
        use_day_folder: false,
        use_month_names: false,
    };
    assert_eq!(destination_subpath(&date, &plain), "2024/05");

    let named = SortConfig {
        use_day_folder: false,
        use_month_names: true,
    };
    assert_eq!(destination_subpath(&date, &named), "2024/05 - Mai");

    let daily = SortConfig {
        use_day_folder: true,
        use_month_names: true,
    };
    assert_eq!(destination_subpath(&date, &daily), "2024/05 - Mai/07");

    let december = CaptureDate {
        year: 1999,
        month: 12,
        day: 31,
        hour: 0,
        minute: 0,
        second: 0,
    };
    assert_eq!(destination_subpath(&december, &daily), "1999/12 - Desember/31");
}

#[test]
fn test_renamed_filename_suffixes_before_extension() {
    assert_eq!(renamed_filename("image", "jpg", 1), "image_1.jpg");
    assert_eq!(renamed_filename("image", "jpg", 12), "image_12.jpg");
    assert_eq!(renamed_filename("notes", "", 3), "notes_3");
}

#[test]
fn test_decimal_strings() {
    assert_eq!(dec_string(0), "0");
    assert_eq!(dec_string(7), "7");
    assert_eq!(dec_string(10), "10");
    assert_eq!(dec_string(2024), "2024");
    assert_eq!(dec_string(4294967295), "4294967295");
    assert_eq!(pad2_string(0), "00");
    assert_eq!(pad2_string(9), "09");
    assert_eq!(pad2_string(10), "10");
    assert_eq!(pad2_string(99), "99");
}

#[test]
fn test_operation_result_tallies() {
    let mut r = OperationResult::new();
    assert_eq!(r.processed, 0);
    assert_eq!(r.success, 0);
    assert_eq!(r.errors, 0);
    r.add_success();
    r.add_success();
    r.add_error("Fil finnes ikke: a.png".to_string());
    assert_eq!(r.success, 2);
    assert_eq!(r.errors, 1);
    assert_eq!(r.error_messages, vec!["Fil finnes ikke: a.png".to_string()]);
}

#[test]
fn test_summarize_scan_totals() {
    let images = vec![
        ImageInfo {
            path: "a.png".to_string(),
            filename: "a.png".to_string(),
            size_bytes: 100,
        },
        ImageInfo {
            path: "b.png".to_string(),
            filename: "b.png".to_string(),
            size_bytes: 250,
        },
    ];
    let summary = summarize_scan(images);
    assert_eq!(summary.image_count, 2);
    assert_eq!(summary.total_size_bytes, 350);
    assert_eq!(summary.images.len(), 2);

    let huge = vec![
        ImageInfo {
            path: "x".to_string(),
            filename: "x".to_string(),
            size_bytes: u64::MAX,
        },
        ImageInfo {
            path: "y".to_string(),
            filename: "y".to_string(),
            size_bytes: 1,
        },
    ];
    let summary = summarize_scan(huge);
    assert_eq!(summary.total_size_bytes, u64::MAX);
}
