use arch_mirror::db::{db_archive, parse_desc_lines, temp_dir_path, DescParser};
use std::io::Write;

fn s(x: &str) -> String {
    x.to_string()
}

#[test]
fn temp_dir_below_data_dir() {
    assert_eq!(temp_dir_path("/home/dev/arch-mirror"), "/home/dev/arch-mirror/temp");
    assert_eq!(temp_dir_path(""), "/temp");
}

#[test]
fn db_archive_decompresses_gzip() {
    let mut enc = flate2::write::GzEncoder::new(Vec::new(), flate2::Compression::default());
    enc.write_all(b"core.db contents").unwrap();
    let gz = enc.finish().unwrap();
    assert_ne!(gz, b"core.db contents".to_vec());
    let (bytes, stop) = db_archive(&gz);
    assert_eq!(bytes, b"core.db contents".to_vec());
    assert!(stop.is_none());
}

#[test]
fn db_archive_stops_on_bad_gzip() {
    let (bytes, stop) = db_archive(b"not gzip at all");
    assert!(bytes.is_empty());
    assert!(stop.is_some());
}

#[test]
fn db_archive_keeps_bytes_before_a_bad_trailer() {
    let data: Vec<u8> = (0..5000u32).map(|i| (i % 7) as u8).collect();
    let mut enc = flate2::write::GzEncoder::new(Vec::new(), flate2::Compression::default());
    enc.write_all(&data).unwrap();
    let mut gz = enc.finish().unwrap();
    let n = gz.len();
    gz[n - 8] ^= 0xff; // corrupt the CRC in the trailer
    let (bytes, stop) = db_archive(&gz);
    assert_eq!(bytes, data);
    assert!(stop.is_some());
}

#[test]
fn desc_blocks_split_on_empty_lines() {
    let lines = vec![s("%NAME%"), s("bash"), s(""), s("%DEPENDS%"), s("glibc"), s("readline"), s("")];
    let p = parse_desc_lines(&lines);
    assert_eq!(p.key_count(), 2);
    assert_eq!(p.values_of(&s("%NAME%")).unwrap(), &vec![s("bash")]);
    assert_eq!(p.values_of(&s("%DEPENDS%")).unwrap(), &vec![s("glibc"), s("readline")]);
    assert!(p.values_of(&s("bash")).is_none());
    assert!(!p.in_value());
}

#[test]
fn desc_repeated_key_starts_over() {
    let lines = vec![s("K"), s("a"), s(""), s("K"), s("b")];
    let p = parse_desc_lines(&lines);
    assert_eq!(p.key_count(), 1);
    assert_eq!(p.values_of(&s("K")).unwrap(), &vec![s("b")]);
    assert!(p.in_value());
}

#[test]
fn desc_lines_with_line_breaks_form_one_block() {
    let lines = vec![s("%NAME%\n"), s("bash\n"), s("\n"), s("%VERSION%\n"), s("5.2\n")];
    let p = parse_desc_lines(&lines);
    assert_eq!(p.key_count(), 1);
    assert_eq!(
        p.values_of(&s("%NAME%\n")).unwrap(),
        &vec![s("bash\n"), s("\n"), s("%VERSION%\n"), s("5.2\n")]
    );
}

#[test]
fn desc_parser_fed_line_by_line() {
    let mut p = DescParser::new();
    assert!(!p.in_value());
    assert_eq!(p.key_count(), 0);
    p.feed_line(s("%ARCH%"));
    assert!(p.in_value());
    assert_eq!(p.values_of(&s("%ARCH%")).unwrap().len(), 0);
    p.feed_line(s("x86_64"));
    p.feed_line(s(""));
    assert!(!p.in_value());
    assert_eq!(p.values_of(&s("%ARCH%")).unwrap(), &vec![s("x86_64")]);
}
