//! Disk space checks and readable sizes.

use gut_loader::validator::disk::{
    check_disk_space, check_target_disk_space, df_available_kb, format_bytes, is_data_file_name,
    DfError,
};

#[test]
fn test_format_bytes() {
    assert_eq!(format_bytes(500), "500 B");
    assert_eq!(format_bytes(1024), "1.00 KB");
    assert_eq!(format_bytes(1048576), "1.00 MB");
    assert_eq!(format_bytes(1073741824), "1.00 GB");
}

#[test]
fn format_bytes_matches_float_rendering() {
    let kb = 1024u64;
    let mb = kb * 1024;
    let gb = mb * 1024;
    for b in [0u64, 1023, 1536, 1029, 5 * 1024 + 5, 1_500_000, 123_456_789, 5 * gb + 123_456_789, u64::MAX, (1u64 << 53) + 1] {
        let expected = if b >= gb {
            format!("{:.2} GB", b as f64 / gb as f64)
        } else if b >= mb {
            format!("{:.2} MB", b as f64 / mb as f64)
        } else if b >= kb {
            format!("{:.2} KB", b as f64 / kb as f64)
        } else {
            format!("{} B", b)
        };
        assert_eq!(format_bytes(b), expected, "{} bytes", b);
    }
}

#[test]
fn test_check_disk_space_passes() {
    let result = check_disk_space(Ok(1024), Ok(1 << 30));
    assert!(result.passed, "{}", result.message);
    assert_eq!(result.severity, "warning");
    assert_eq!(result.check_name, "磁盘空间(源)");
    assert_eq!(result.message, "磁盘空间充足: 可用 1.00 GB, 数据文件总大小 1.00 KB, 需要至少 2.00 KB");
}

#[test]
fn disk_space_shortage_and_failures() {
    let r = check_disk_space(Ok(1024), Ok(2047));
    assert!(!r.passed);
    assert!(r.message.starts_with("磁盘空间不足"));
    let r = check_disk_space(Err("denied".to_string()), Ok(1));
    assert_eq!(r.message, "计算数据文件大小失败: denied");
    let r = check_disk_space(Ok(1), Err("df failed".to_string()));
    assert_eq!(r.message, "获取磁盘可用空间失败: df failed");
}

#[test]
fn test_check_target_disk_space_passes() {
    let result = check_target_disk_space(Ok(2 << 30));
    assert!(result.passed, "{}", result.message);
    assert_eq!(result.severity, "warning");
    assert_eq!(result.message, "目标磁盘空间充足: 可用 2.00 GB, 最低要求 1GB");
    let low = check_target_disk_space(Ok((1 << 30) - 1));
    assert!(!low.passed);
}

#[test]
fn test_calculate_data_size() {
    assert!(is_data_file_name("user.20260421.000000.0000.dat.gz"));
    assert!(!is_data_file_name("user.20260421.000000.0000.flg"));
    assert!(!is_data_file_name(".dat.g"));
}

#[test]
fn test_get_available_space() {
    let linux = "Filesystem     1K-blocks    Used Available Use% Mounted on\n/dev/sda1      102400000 4000000  98400000   4% /\n";
    let space = df_available_kb(linux).unwrap() * 1024;
    assert!(space > 0);
    assert_eq!(space, 98_400_000 * 1024);
}

#[test]
fn df_output_errors() {
    assert!(matches!(df_available_kb("Filesystem only\n"), Err(DfError::TooFewLines)));
    assert!(matches!(df_available_kb("head\n/dev/sda 1 2\n"), Err(DfError::TooFewFields(f)) if f.len() == 3));
    assert!(matches!(df_available_kb("head\n/dev/sda 1 2 x 5%\n"), Err(DfError::BadNumber(v)) if v == "x"));
    assert_eq!(df_available_kb("h\r\na b c 42\r\n").unwrap(), 42);
}
