use torseed::header::{parse_content_disposition, parse_content_range, parse_rfc5987, strip_quotes};

#[test]
fn strip_quotes_removes_one_pair() {
    assert_eq!(strip_quotes("  \"file.iso\" "), Some("file.iso".to_string()));
    assert_eq!(strip_quotes("plain.bin"), Some("plain.bin".to_string()));
    assert_eq!(strip_quotes("\"\""), Some(String::new()));
    assert_eq!(strip_quotes("\""), Some("\"".to_string()));
    assert_eq!(strip_quotes("   "), None);
}

#[test]
fn rfc5987_value_is_decoded() {
    assert_eq!(parse_rfc5987("UTF-8''na%C3%AFve%20file.txt"), Some("naïve file.txt".to_string()));
    assert_eq!(parse_rfc5987("utf-8'en'a'b"), Some("a'b".to_string()));
    assert_eq!(parse_rfc5987("no-quotes"), None);
    assert_eq!(parse_rfc5987("one'quote"), None);
    assert_eq!(parse_rfc5987("utf-8''%FF"), None);
}

#[test]
fn disposition_prefers_extended_name() {
    assert_eq!(
        parse_content_disposition("attachment; filename=\"plain.txt\"; filename*=UTF-8''fancy%20name.txt"),
        Some("fancy name.txt".to_string())
    );
}

#[test]
fn disposition_plain_name() {
    assert_eq!(
        parse_content_disposition("attachment; filename=\"report.pdf\""),
        Some("report.pdf".to_string())
    );
    assert_eq!(parse_content_disposition("attachment;filename=a.bin"), Some("a.bin".to_string()));
    assert_eq!(
        parse_content_disposition("attachment; filename=first; filename=second"),
        Some("second".to_string())
    );
}

#[test]
fn disposition_without_name() {
    assert_eq!(parse_content_disposition("inline"), None);
    assert_eq!(parse_content_disposition(""), None);
    assert_eq!(parse_content_disposition("attachment; filename*=bad"), None);
    assert_eq!(
        parse_content_disposition("attachment; filename*=bad; filename=ok.txt"),
        Some("ok.txt".to_string())
    );
}

#[test]
fn content_range_total_is_read() {
    assert_eq!(parse_content_range("bytes 0-0/1234"), Some(1234));
    assert_eq!(parse_content_range("  BYTES   0-0/+77  "), Some(77));
    assert_eq!(parse_content_range("Bytes 0-0/007"), Some(7));
    assert_eq!(parse_content_range("bytes 0-0/18446744073709551615"), Some(u64::MAX));
}

#[test]
fn content_range_without_total() {
    assert_eq!(parse_content_range("bytes 0-0/*"), None);
    assert_eq!(parse_content_range("items 0-0/10"), None);
    assert_eq!(parse_content_range("bytes"), None);
    assert_eq!(parse_content_range("bytes 0-0"), None);
    assert_eq!(parse_content_range("bytes 0-0/"), None);
    assert_eq!(parse_content_range("bytes 0-0/18446744073709551616"), None);
    assert_eq!(parse_content_range(""), None);
}
