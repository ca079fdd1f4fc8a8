use stats_cruncher::config::{byte_count, parse_byte_size, SourceConfig};

#[test]
fn plain_bytes() {
    assert_eq!(parse_byte_size("1024").unwrap(), 1024);
    assert_eq!(parse_byte_size("8_589_934_592").unwrap(), 8 * 1024u64.pow(3));
}

#[test]
fn binary_suffixes() {
    let g = 1024u64.pow(3);
    for form in ["8G", "8g", "8GB", "8gb", "8GiB", "8gib", "8 GiB"] {
        assert_eq!(parse_byte_size(form).unwrap(), 8 * g, "form={form}");
    }
    assert_eq!(parse_byte_size("4K").unwrap(), 4 * 1024);
    assert_eq!(parse_byte_size("16M").unwrap(), 16 * 1024u64.pow(2));
    assert_eq!(parse_byte_size("2T").unwrap(), 2 * 1024u64.pow(4));
}

#[test]
fn rejects_garbage() {
    assert!(parse_byte_size("").is_err());
    assert!(parse_byte_size("G").is_err());
    assert!(parse_byte_size("8X").is_err());
    assert!(parse_byte_size("8PB").is_err());
}

#[test]
fn rejects_overflow() {
    assert!(parse_byte_size("99999999999T").is_err());
}

#[test]
fn byte_size_messages() {
    assert_eq!(
        parse_byte_size("G").unwrap_err(),
        "byte size is missing a numeric prefix: \"G\""
    );
    assert_eq!(
        parse_byte_size("99999999999999999999").unwrap_err(),
        "invalid number in byte size: \"99999999999999999999\""
    );
    assert_eq!(
        parse_byte_size(" 8 PB ").unwrap_err(),
        "unknown byte size suffix \"pb\" in \" 8 PB \""
    );
    assert_eq!(
        parse_byte_size("99999999999T").unwrap_err(),
        "byte size overflow: \"99999999999T\""
    );
}

#[test]
fn byte_size_ends_of_the_range() {
    assert_eq!(parse_byte_size("0").unwrap(), 0);
    assert_eq!(parse_byte_size("18446744073709551615").unwrap(), u64::MAX);
    assert!(parse_byte_size("18446744073709551616").is_err());
    assert_eq!(parse_byte_size("\u{a0}7\tb\n").unwrap(), 7);
    assert!(parse_byte_size("_").is_err());
    assert_eq!(parse_byte_size("_7_").unwrap(), 7);
}

#[test]
fn file_path_of_each_source() {
    let csv = SourceConfig::Csv { path: "/a.csv".to_string(), delimiter: None, gzip: false };
    assert_eq!(csv.file_path(), Some("/a.csv"));
    let sqlite = SourceConfig::Sqlite { path: "/b.db".to_string(), table: "t".to_string() };
    assert_eq!(sqlite.file_path(), Some("/b.db"));
}

#[test]
fn byte_counts() {
    assert_eq!(byte_count(0), Ok(0));
    assert_eq!(byte_count(i64::MAX), Ok(i64::MAX as u64));
    assert_eq!(byte_count(-1), Err("byte size cannot be negative".to_string()));
}
