use quota::AutoSize;
use quota::ParseSizeError;
use quota::Size;
use quota::SizeErrorKind;
use quota::Unit;

#[test]
fn test_parse_size() -> Result<(), ParseSizeError> {
    assert_eq!("15".parse::<AutoSize>()?.into_size_bytes(), 15);

    assert_eq!("15K".parse::<AutoSize>()?.into_size_bytes(), 15 * 1024);
    assert_eq!("15KiB".parse::<AutoSize>()?.into_size_bytes(), 15 * 1024);
    assert_eq!("15KB".parse::<AutoSize>()?.into_size_bytes(), 15 * 1024);
    assert_eq!(
        "15M".parse::<AutoSize>()?.into_size_bytes(),
        15 * 1024 * 1024
    );
    assert_eq!(
        "15G".parse::<AutoSize>()?.into_size_bytes(),
        15 * 1024 * 1024 * 1024
    );
    assert_eq!(
        "15T".parse::<AutoSize>()?.into_size_bytes(),
        15 * 1024 * 1024 * 1024 * 1024
    );

    assert_eq!("15kB".parse::<AutoSize>()?.into_size_bytes(), 15 * 1000);
    assert_eq!(
        "15MB".parse::<AutoSize>()?.into_size_bytes(),
        15 * 1000 * 1000
    );
    assert_eq!(
        "15GB".parse::<AutoSize>()?.into_size_bytes(),
        15 * 1000 * 1000 * 1000
    );
    assert_eq!(
        "15TB".parse::<AutoSize>()?.into_size_bytes(),
        15 * 1000 * 1000 * 1000 * 1000
    );

    assert_eq!("15KB".into_size_bytes(), 15 * 1024);

    assert_eq!("15.2KB".into_size_bytes(), 15564);

    assert_eq!("0.0MB".into_size_bytes(), 0);
    assert_eq!("0.0KB".into_size_bytes(), 0);
    Ok(())
}

#[test]
fn test_invalid_size() {
    let e = "45tg5g6h".safe_into_size_bytes().unwrap_err();
    assert!(matches!(e.kind(), SizeErrorKind::InvalidUnit));
    assert_eq!(e.__description(), "invalid size");
}

#[test]
fn test_empty_input() {
    let e = "".safe_into_size_bytes().unwrap_err();
    assert!(matches!(e.kind(), SizeErrorKind::Empty));
    assert_eq!(e.__description(), "cannot parse size from empty string");
    let e2 = String::new().safe_into_size_bytes().unwrap_err();
    assert!(matches!(e2.kind(), SizeErrorKind::Empty));
}

#[test]
fn test_error_values() {
    let e = ParseSizeError::new(SizeErrorKind::NonFiniteMagnitude);
    assert!(matches!(e.kind(), SizeErrorKind::NonFiniteMagnitude));
    assert_eq!(e.__description(), "size too small");
    assert_eq!(e, ParseSizeError::new(SizeErrorKind::NonFiniteMagnitude));
    assert_ne!(e, ParseSizeError::new(SizeErrorKind::Empty));
}

#[test]
fn test_bad_numeric_prefixes() {
    assert!("..5KB".safe_into_size_bytes().is_err());
    assert!("1.2.3KB".safe_into_size_bytes().is_err());
    assert!("1e5".safe_into_size_bytes().is_err());
    assert!("-".safe_into_size_bytes().is_err());
    assert!("KB".safe_into_size_bytes().is_err());
    assert!("15.K".safe_into_size_bytes().is_err());
    assert!("15 KB".safe_into_size_bytes().is_err());
}

#[test]
fn test_unit_table() {
    assert_eq!(Unit::Byte.into_size_bytes(), 1);
    assert_eq!(Unit::Kilobyte.into_size_bytes(), 1000);
    assert_eq!(Unit::Megabyte.into_size_bytes(), 1000_000);
    assert_eq!(Unit::Gigabyte.into_size_bytes(), 1000_000_000);
    assert_eq!(Unit::Terabyte.into_size_bytes(), 1000_000_000_000);
    assert_eq!(Unit::Kibibyte.into_size_bytes(), 1024);
    assert_eq!(Unit::Mebibyte.into_size_bytes(), 1024 * 1024);
    assert_eq!(Unit::Gigibyte.into_size_bytes(), 1024 * 1024 * 1024);
    assert_eq!(Unit::Tebibyte.into_size_bytes(), 1024u64.pow(4));
}

#[test]
fn test_unit_symbols() {
    assert_eq!(Unit::from_symbol(""), Some(Unit::Byte));
    assert_eq!(Unit::from_symbol("B"), Some(Unit::Byte));
    assert_eq!(Unit::from_symbol("kB"), Some(Unit::Kilobyte));
    assert_eq!(Unit::from_symbol("KB"), Some(Unit::Kibibyte));
    assert_eq!(Unit::from_symbol("K"), Some(Unit::Kibibyte));
    assert_eq!(Unit::from_symbol("KiB"), Some(Unit::Kibibyte));
    assert_eq!(Unit::from_symbol("GiB"), Some(Unit::Gigibyte));
    assert_eq!(Unit::from_symbol("TiB"), Some(Unit::Tebibyte));
    assert_eq!(Unit::from_symbol("Ki"), None);
    assert_eq!(Unit::from_symbol("b"), None);
    assert_eq!("MiB".parse::<Unit>().unwrap(), Unit::Mebibyte);
    assert!("xB".parse::<Unit>().is_err());
}

#[test]
fn test_canonical_symbols() {
    assert_eq!(Unit::Byte.symbol(), "B");
    assert_eq!(Unit::Kilobyte.symbol(), "kB");
    assert_eq!(Unit::Megabyte.symbol(), "MB");
    assert_eq!(Unit::Gigabyte.symbol(), "GB");
    assert_eq!(Unit::Terabyte.symbol(), "TB");
    assert_eq!(Unit::Kibibyte.symbol(), "KiB");
    assert_eq!(Unit::Mebibyte.symbol(), "MiB");
    assert_eq!(Unit::Gigibyte.symbol(), "GiB");
    assert_eq!(Unit::Tebibyte.symbol(), "TiB");
}

#[test]
fn test_exact_large_magnitudes() {
    // magnitudes are exact decimals, so no precision is lost on large values
    assert_eq!("9007199254740993".into_size_bytes(), 9007199254740993);
    assert_eq!(
        "4.000000000000000000000000000001TiB".into_size_bytes(),
        4 * 1024u64.pow(4)
    );
}

#[test]
fn test_fractional_truncation() {
    // 15.2 * 1024 = 15564.8, truncated
    assert_eq!("15.2KB".into_size_bytes(), 15564);
    assert_eq!(".5KB".into_size_bytes(), 512);
    assert_eq!("0.5B".into_size_bytes(), 0);
    assert_eq!("2.5MB".into_size_bytes(), 2_500_000);
    // exactly one byte: 0.0009765625 * 1024 == 1
    assert_eq!("0.0009765625KiB".into_size_bytes(), 1);
    assert_eq!("0.0009765624KiB".into_size_bytes(), 0);
    // digits far past the unit's precision never round the floor up
    assert_eq!(
        "1.999999999999999999999999999999999999999999999999KiB".into_size_bytes(),
        2047
    );
}

#[test]
fn test_sign_handling() {
    assert_eq!("-15kB".into_size_bytes(), 0);
    assert_eq!("-0.5KiB".into_size_bytes(), 0);
    assert_eq!("+15kB".into_size_bytes(), 15000);
}

#[test]
fn test_saturation() {
    // 10^20 Tebibytes is far beyond u64::MAX bytes
    assert_eq!(
        "100000000000000000000TiB".into_size_bytes(),
        u64::MAX
    );
    assert_eq!("18446744073709551615".into_size_bytes(), u64::MAX);
    assert_eq!("18446744073709551616".into_size_bytes(), u64::MAX);
}

#[test]
fn test_construct() {
    let v = AutoSize::new(15, Unit::Kibibyte);
    assert_eq!(v.safe_into_size_bytes().unwrap(), 15 * 1024);
    assert_eq!(v.into_size_bytes(), 15 * 1024);
    let z = AutoSize::new(0, Unit::Megabyte);
    assert_eq!(z.into_size_bytes(), 0);
}

#[test]
fn test_equality_is_byte_count_based() {
    assert_eq!(
        AutoSize::new(15, Unit::Kibibyte),
        AutoSize::new(15360, Unit::Byte)
    );
    assert_ne!(
        AutoSize::new(15, Unit::Kilobyte),
        AutoSize::new(15, Unit::Kibibyte)
    );
    let a = "15KiB".parse::<AutoSize>().unwrap();
    let b = "15360".parse::<AutoSize>().unwrap();
    assert_eq!(a, b);
}

#[test]
fn test_ordering_is_byte_count_based() {
    let small = AutoSize::new(1, Unit::Kibibyte);
    let big = AutoSize::new(2000, Unit::Byte);
    assert!(small < big);
    assert!(big > small);
    assert!(small <= AutoSize::new(1024, Unit::Byte));
    assert!(small >= AutoSize::new(1024, Unit::Byte));
}

#[test]
fn test_rendering() {
    assert_eq!(AutoSize::new(15, Unit::Kibibyte).to_text(), "15KiB");
    assert_eq!(AutoSize::new(0, Unit::Megabyte).to_text(), "0MB");
    assert_eq!("15.5KiB".parse::<AutoSize>().unwrap().to_text(), "15.5KiB");
    assert_eq!("015.20KB".parse::<AutoSize>().unwrap().to_text(), "15.2KiB");
    assert_eq!("-3.5kB".parse::<AutoSize>().unwrap().to_text(), "-3.5kB");
    assert_eq!("42".parse::<AutoSize>().unwrap().to_text(), "42B");
}

#[test]
fn test_round_trip() -> Result<(), ParseSizeError> {
    for text in ["15.5KiB", "0.25MB", "7T", "123GB", "0.0MB", "9", "-2K"] {
        let v = text.parse::<AutoSize>()?;
        let again = v.to_text().parse::<AutoSize>()?;
        assert_eq!(
            v.safe_into_size_bytes().unwrap(),
            again.safe_into_size_bytes().unwrap()
        );
        assert_eq!(v, again);
    }
    Ok(())
}

#[test]
fn test_byte_slices() {
    let raw: &[u8] = b"15.2KB";
    assert_eq!(raw.safe_into_size_bytes().unwrap(), 15564);
    assert_eq!(raw.into_size_bytes(), 15564);
    let bad: &[u8] = b"\xffKB";
    assert!(bad.safe_into_size_bytes().is_err());
    let owned = String::from("3MiB");
    assert_eq!(owned.safe_into_size_bytes().unwrap(), 3 * 1024 * 1024);
}
