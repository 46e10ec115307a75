use lethe::size::{is_power_of_two, parse_block_size, parse_bytes, SizeError};

#[test]
fn test_bytes_parser_good() {
    assert_eq!(parse_bytes("4000").unwrap(), 4000);
    assert_eq!(parse_bytes("13k").unwrap(), 13 * 1024);
    assert_eq!(parse_bytes("5M").unwrap(), 5 * 1024 * 1024);
    assert_eq!(parse_bytes("7g").unwrap(), 7 * 1024 * 1024 * 1024);
    assert_eq!(parse_bytes("11T").unwrap(), 11 * 1024 * 1024 * 1024 * 1024);
}

#[test]
fn test_bytes_parser_bad() {
    assert!(matches!(parse_bytes(""), Err(_)));
    assert!(matches!(parse_bytes("xxx"), Err(_)));
    assert!(matches!(parse_bytes("-128k"), Err(_)));
    assert!(matches!(parse_bytes("4096.000"), Err(_)));
}

#[test]
fn test_block_size_parser_good() {
    let k128 = 128 * 1024;
    let m2 = 2 * 1024 * 1024;

    assert_eq!(parse_block_size("4096").unwrap(), 4096);
    assert_eq!(parse_block_size("128k").unwrap(), k128);
    assert_eq!(parse_block_size("128K").unwrap(), k128);
    assert_eq!(parse_block_size("2m").unwrap(), m2);
    assert_eq!(parse_block_size("2M").unwrap(), m2);
}

#[test]
fn test_block_size_parser_bad() {
    assert!(matches!(parse_block_size("4095"), Err(_)));
    assert!(matches!(parse_block_size("13M"), Err(_)));
}

#[test]
fn bytes_with_spaces_and_b_suffix() {
    assert_eq!(parse_bytes("2 MB"), Ok(2 * 1024 * 1024));
    assert_eq!(parse_bytes("3  kb"), Ok(3 * 1024));
    assert_eq!(parse_bytes("1gB"), Ok(1024 * 1024 * 1024));
    assert_eq!(parse_bytes("0"), Ok(0));
    assert_eq!(parse_bytes("007"), Ok(7));
}

#[test]
fn bytes_malformed_inputs() {
    assert_eq!(parse_bytes(" 1"), Err(SizeError::Malformed));
    assert_eq!(parse_bytes("1 "), Ok(1));
    assert_eq!(parse_bytes("1b"), Err(SizeError::Malformed));
    assert_eq!(parse_bytes("1kbb"), Err(SizeError::Malformed));
    assert_eq!(parse_bytes("1x"), Err(SizeError::Malformed));
    assert_eq!(parse_bytes("k"), Err(SizeError::Malformed));
    assert_eq!(parse_bytes("99999999999999999999999x"), Err(SizeError::Malformed));
}

#[test]
fn bytes_too_large() {
    assert_eq!(parse_bytes("18446744073709551615"), Ok(u64::MAX));
    assert_eq!(parse_bytes("18446744073709551616"), Err(SizeError::TooLarge));
    assert_eq!(parse_bytes("16777216T"), Err(SizeError::TooLarge));
    assert_eq!(parse_bytes("16777215T"), Ok(16777215 * 1024 * 1024 * 1024 * 1024));
}

#[test]
fn block_size_errors_by_kind() {
    assert_eq!(parse_block_size("4095"), Err(SizeError::NotPowerOfTwo));
    assert_eq!(parse_block_size("0"), Err(SizeError::NotPowerOfTwo));
    assert_eq!(parse_block_size("1"), Ok(1));
    assert_eq!(parse_block_size("x"), Err(SizeError::Malformed));
    assert_eq!(parse_block_size("99999999999999999999"), Err(SizeError::TooLarge));
    assert_eq!(parse_block_size("8T"), Ok(8 * 1024 * 1024 * 1024 * 1024));
}

#[test]
fn powers_of_two() {
    assert!(is_power_of_two(1));
    assert!(is_power_of_two(4096));
    assert!(is_power_of_two(1 << 63));
    assert!(!is_power_of_two(0));
    assert!(!is_power_of_two(3));
    assert!(!is_power_of_two(13 * 1024 * 1024));
}
