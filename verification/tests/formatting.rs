use del_files::confirm::is_confirmation;
use del_files::format::convert_bytes;

/// Zero bytes formats as exactly `"0 Bytes"`.
#[test]
fn zero_bytes() {
    assert_eq!(convert_bytes(0), "0 Bytes");
}

/// 1536 bytes is one and a half binary kilobytes.
#[test]
fn fifteen_hundred_bytes() {
    assert_eq!(convert_bytes(1536), "1.5 KB");
}

/// One binary megabyte exactly.
#[test]
fn one_megabyte() {
    assert_eq!(convert_bytes(1048576), "1.0 MB");
}

#[test]
fn small_counts_stay_in_bytes() {
    assert_eq!(convert_bytes(1), "1.0 Bytes");
    assert_eq!(convert_bytes(1023), "1023.0 Bytes");
}

#[test]
fn unit_boundaries() {
    assert_eq!(convert_bytes(1024), "1.0 KB");
    assert_eq!(convert_bytes(1073741824), "1.0 GB");
    assert_eq!(convert_bytes(1099511627776), "1.0 TB");
}

#[test]
fn rounding_to_one_decimal() {
    assert_eq!(convert_bytes(1590), "1.6 KB");
    assert_eq!(convert_bytes(1536 * 1024 * 1024 * 1024), "1.5 TB");
}

/// Counts past the table's last unit stay in terabytes.
#[test]
fn clamped_to_terabytes() {
    assert_eq!(convert_bytes(1099511627776 * 2048), "2048.0 TB");
}

/// `y` and `Y`, with or without surrounding whitespace, confirm.
#[test]
fn plain_yes_confirms() {
    assert!(is_confirmation("y"));
    assert!(is_confirmation("Y"));
    assert!(is_confirmation("y\n"));
    assert!(is_confirmation(" y "));
    assert!(is_confirmation("Y\r\n"));
}

/// Anything else declines, the empty answer and spelled-out words included.
#[test]
fn everything_else_declines() {
    assert!(!is_confirmation("n"));
    assert!(!is_confirmation(""));
    assert!(!is_confirmation("yes"));
    assert!(!is_confirmation("\n"));
    assert!(!is_confirmation("y y"));
    assert!(!is_confirmation("x"));
}
