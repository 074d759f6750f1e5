use mkdisk::size;
use mkdisk::size::SizeError;

#[test]
fn parse_size() {
    assert_eq!(size::parse_size("1mib"), Ok(1 << 20));
    assert_eq!(size::parse_size("4MiB"), Ok(4 << 20));
    assert_eq!(size::parse_size("35kb"), Ok(35 * 1_000));
}

#[test]
fn parse_size_each_unit() {
    assert_eq!(size::parse_size("3KiB"), Ok(3 * 1024));
    assert_eq!(size::parse_size("2mb"), Ok(2_000_000));
    assert_eq!(size::parse_size("64kib"), Ok(65536));
}

#[test]
fn parse_size_errors() {
    assert_eq!(size::parse_size("mib"), Err(SizeError::NoNumber));
    assert_eq!(size::parse_size(""), Err(SizeError::NoNumber));
    assert_eq!(size::parse_size("12"), Err(SizeError::UnknownUnit));
    assert_eq!(size::parse_size("12gb"), Err(SizeError::UnknownUnit));
    assert_eq!(size::parse_size("99999999999999999999999mib"), Err(SizeError::TooLarge));
}
