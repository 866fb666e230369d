use scalpel::format::{FormatError, MetaInfo};
use scalpel::range::{parse_offset, Range, RangeError};

#[test]
fn extension_selects_format() {
    assert_eq!(MetaInfo::from_file_extension("dir/image.bin"), Ok(MetaInfo::Bin));
    assert_eq!(MetaInfo::from_file_extension("image.hex"), Ok(MetaInfo::IntelHex));
    assert_eq!(MetaInfo::from_file_extension("a.b/image.tar.hex"), Ok(MetaInfo::IntelHex));
}

#[test]
fn extension_errors() {
    assert_eq!(MetaInfo::from_file_extension("image.elf"), Err(FormatError::UnsupportedExtension));
    assert_eq!(MetaInfo::from_file_extension("image"), Err(FormatError::NoExtension));
    assert_eq!(MetaInfo::from_file_extension("a.bin/image"), Err(FormatError::NoExtension));
    assert_eq!(MetaInfo::from_file_extension(".bin"), Err(FormatError::NoExtension));
    assert_eq!(MetaInfo::from_file_extension("image.binx"), Err(FormatError::UnsupportedExtension));
}

#[test]
fn mime_selects_format() {
    assert_eq!(MetaInfo::from_mime(&"application/octet-stream".to_string()), Ok(MetaInfo::Bin));
    assert_eq!(MetaInfo::from_mime(&"text/plain".to_string()), Ok(MetaInfo::IntelHex));
    assert_eq!(MetaInfo::from_mime(&"image/png".to_string()), Err(FormatError::UnsupportedContent));
}

#[test]
fn format_default_is_bin() {
    assert_eq!(MetaInfo::default(), MetaInfo::Bin);
}

#[test]
fn offsets_parse_with_units() {
    assert_eq!(parse_offset("512").unwrap().as_u64(), 512);
    assert_eq!(parse_offset("12K").unwrap().as_u64(), 12_000);
    assert_eq!(parse_offset("4Ki").unwrap().as_u64(), 4096);
    assert_eq!(parse_offset("3Mi").unwrap().as_u64(), 3 * 1024 * 1024);
    assert_eq!(parse_offset("2G").unwrap().as_u64(), 2_000_000_000);
}

#[test]
fn offset_errors() {
    assert_eq!(parse_offset(""), Err(RangeError::Malformed));
    assert_eq!(parse_offset("K"), Err(RangeError::Malformed));
    assert_eq!(parse_offset("12Q"), Err(RangeError::UnknownUnit));
    assert_eq!(parse_offset("12Kib"), Err(RangeError::UnknownUnit));
    assert_eq!(parse_offset("18446744073709551616"), Err(RangeError::TooLarge));
    assert_eq!(parse_offset("18446744073709551615").unwrap().as_u64(), u64::MAX);
    assert_eq!(parse_offset("20000000000Gi"), Err(RangeError::TooLarge));
}

#[test]
fn ranges_parse() {
    assert_eq!(Range::parse("12K..4Ki"), Err(RangeError::EndBeforeStart));
    let r = Range::parse("4K..4Ki").unwrap();
    assert_eq!(r.start.as_u64(), 4000);
    assert_eq!(r.size.as_u64(), 96);
    let r = Range::parse("1K..4Ki").unwrap();
    assert_eq!(r.start.as_u64(), 1000);
    assert_eq!(r.size.as_u64(), 3096);
    let r = Range::parse("12M+512").unwrap();
    assert_eq!(r.start.as_u64(), 12_000_000);
    assert_eq!(r.size.as_u64(), 512);
}

#[test]
fn range_errors() {
    assert_eq!(Range::parse("20..10"), Err(RangeError::EndBeforeStart));
    assert_eq!(Range::parse("20.10"), Err(RangeError::Malformed));
    assert_eq!(Range::parse("20"), Err(RangeError::Malformed));
    assert_eq!(Range::parse("x+10"), Err(RangeError::Malformed));
    assert_eq!(Range::parse("1+2X"), Err(RangeError::UnknownUnit));
}

#[test]
fn content_gives_a_format_or_unsupported() {
    let r = MetaInfo::from_content(&[0x00, 0x01, 0xFE, 0xFF, 0x10, 0x80]);
    assert!(r.is_ok() || r == Err(FormatError::UnsupportedContent));
}

#[test]
fn extension_ignores_trailing_components() {
    assert_eq!(MetaInfo::from_file_extension("a.bin/"), Ok(MetaInfo::Bin));
    assert_eq!(MetaInfo::from_file_extension("dir/a.hex/."), Ok(MetaInfo::IntelHex));
    assert_eq!(MetaInfo::from_file_extension("dir/a.hex//./"), Ok(MetaInfo::IntelHex));
    assert_eq!(MetaInfo::from_file_extension("a.bin/.."), Err(FormatError::NoExtension));
    assert_eq!(MetaInfo::from_file_extension("/"), Err(FormatError::NoExtension));
    assert_eq!(MetaInfo::from_file_extension("."), Err(FormatError::NoExtension));
}
