//! Helpers of the command-line tools.

use gut_loader::cli::{format_thousands, parse_arg_str, parse_arg_usize, write_field};

fn args(v: &[&str]) -> Vec<String> {
    v.iter().map(|s| s.to_string()).collect()
}

#[test]
fn arguments() {
    let a = args(&["prog", "--rows", "500", "--output=/tmp/x", "--bad", "x1"]);
    assert_eq!(parse_arg_str(&a, "--output", "."), "/tmp/x");
    assert_eq!(parse_arg_str(&a, "--rows", "0"), "500");
    assert_eq!(parse_arg_str(&a, "--missing", "dflt"), "dflt");
    assert_eq!(parse_arg_usize(&a, "--rows", 1), 500);
    assert_eq!(parse_arg_usize(&a, "--bad", 7), 7);
    assert_eq!(parse_arg_usize(&a, "--missing", 9), 9);
    assert_eq!(parse_arg_str(&args(&["--rows"]), "--rows", "d"), "d");
}

#[test]
fn fixed_width_fields() {
    let mut buf = Vec::new();
    write_field(&mut buf, "ab", 4);
    write_field(&mut buf, "abcdef", 3);
    assert_eq!(buf, b"ab  abc".to_vec());
}

#[test]
fn thousands() {
    assert_eq!(format_thousands(0), "0");
    assert_eq!(format_thousands(999), "999");
    assert_eq!(format_thousands(1000), "1,000");
    assert_eq!(format_thousands(1234567), "1,234,567");
    assert_eq!(format_thousands(12345678), "12,345,678");
}
