use partdl::chunk::{is_success_status, range_header_value};
use partdl::content_length::parse_content_length;

#[test]
fn range_header_is_bytes_start_dash_end() {
    assert_eq!(range_header_value(0, 24), b"bytes=0-24".to_vec());
    assert_eq!(range_header_value(25, 49), b"bytes=25-49".to_vec());
    assert_eq!(range_header_value(75, 100), b"bytes=75-100".to_vec());
    assert_eq!(
        range_header_value(0, u64::MAX),
        b"bytes=0-18446744073709551615".to_vec()
    );
}

#[test]
fn success_statuses_are_the_2xx_class() {
    assert!(is_success_status(200));
    assert!(is_success_status(206));
    assert!(is_success_status(299));
    assert!(!is_success_status(199));
    assert!(!is_success_status(300));
    assert!(!is_success_status(404));
    assert!(!is_success_status(500));
}

#[test]
fn content_length_parses_plain_digits() {
    assert_eq!(parse_content_length(&b"0".to_vec()), Some(0));
    assert_eq!(parse_content_length(&b"1024".to_vec()), Some(1024));
    assert_eq!(parse_content_length(&b"007".to_vec()), Some(7));
    assert_eq!(
        parse_content_length(&b"18446744073709551615".to_vec()),
        Some(u64::MAX)
    );
}

#[test]
fn content_length_rejects_what_is_not_a_size() {
    assert_eq!(parse_content_length(&b"".to_vec()), None);
    assert_eq!(parse_content_length(&b"12a4".to_vec()), None);
    assert_eq!(parse_content_length(&b"-5".to_vec()), None);
    assert_eq!(parse_content_length(&b" 42".to_vec()), None);
    assert_eq!(parse_content_length(&b"18446744073709551616".to_vec()), None);
}
