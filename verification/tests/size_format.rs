use fontscan::format_file_size;

#[test]
fn test_file_size_formatting() {
    assert_eq!(format_file_size(0), "0 B");
    assert_eq!(format_file_size(512), "512 B");
    assert_eq!(format_file_size(1024), "1.00 KB");
    assert_eq!(format_file_size(1536), "1.50 KB");
    assert_eq!(format_file_size(1048576), "1.00 MB");
    assert_eq!(format_file_size(1073741824), "1.00 GB");
}

#[test]
fn test_file_size_terabytes() {
    assert_eq!(format_file_size(1099511627776), "1.00 TB");
    // The simplified scanner's renderer stops at gigabytes.
    assert_eq!(fontscan::scanner::format_file_size(1099511627776), "1024.00 GB");
}

#[test]
fn test_file_size_fraction_truncates() {
    // 1100 / 1024 = 1.07421..., shown with two decimal places.
    assert_eq!(format_file_size(1100), "1.07 KB");
}

#[test]
fn test_decimal_rendering() {
    assert_eq!(fontscan::text::u64_to_string(0), "0");
    assert_eq!(fontscan::text::u64_to_string(7), "7");
    assert_eq!(fontscan::text::u64_to_string(10), "10");
    assert_eq!(fontscan::text::u64_to_string(987654321), "987654321");
    assert_eq!(fontscan::text::u64_to_string(u64::MAX), "18446744073709551615");
}

#[test]
fn test_text_helpers() {
    assert_eq!(fontscan::text::base_name("/a/b/c.ttf"), "c.ttf");
    assert_eq!(fontscan::text::base_name("c.ttf"), "c.ttf");
    assert_eq!(fontscan::text::extension_of("a.ttf"), Some("ttf".to_string()));
    assert_eq!(fontscan::text::extension_of(".hidden"), None);
    assert_eq!(fontscan::text::extension_of(".d.ttf"), Some("ttf".to_string()));
    assert_eq!(fontscan::text::extension_of("noext"), None);
    assert_eq!(fontscan::text::extension_of("trailing."), Some(String::new()));
    assert!(fontscan::text::str_contains("font/woff2", "woff"));
    assert!(!fontscan::text::str_contains("font", "woff"));
    assert!(fontscan::text::str_contains("anything", ""));
    assert!(fontscan::text::str_le("abc", "abd"));
    assert!(fontscan::text::str_le("ab", "abc"));
    assert!(!fontscan::text::str_le("b", "abc"));
}
