use badgers::gcs::{api_base_url, encode_object_name, object_url, retryable_status, upload_url};
use badgers::storage::is_valid_object_key;

#[test]
fn object_urls_percent_encode_the_key() {
    assert_eq!(
        object_url("https://storage.googleapis.com", "bkt", "badgers/repos/o/r/refs/main/latest.json"),
        "https://storage.googleapis.com/storage/v1/b/bkt/o/badgers%2Frepos%2Fo%2Fr%2Frefs%2Fmain%2Flatest.json"
    );
    assert_eq!(encode_object_name("a~b_c-d.e f"), "a~b_c-d.e%20f");
    assert_eq!(encode_object_name("한"), "%ED%95%9C");
}

#[test]
fn upload_urls_carry_the_generation_condition() {
    assert_eq!(
        upload_url("http://h", "bkt", "a/b", None),
        "http://h/upload/storage/v1/b/bkt/o?uploadType=media&name=a%2Fb"
    );
    assert_eq!(
        upload_url("http://h", "bkt", "a/b", Some(0)),
        "http://h/upload/storage/v1/b/bkt/o?uploadType=media&name=a%2Fb&ifGenerationMatch=0"
    );
    assert_eq!(
        upload_url("http://h", "bkt", "k", Some(42)),
        "http://h/upload/storage/v1/b/bkt/o?uploadType=media&name=k&ifGenerationMatch=42"
    );
    assert!(upload_url("http://h", "b", "k", Some(-7)).ends_with("&ifGenerationMatch=-7"));
}

#[test]
fn base_url_loses_trailing_slashes() {
    assert_eq!(api_base_url("http://127.0.0.1:8080//"), "http://127.0.0.1:8080");
    assert_eq!(api_base_url("https://storage.googleapis.com"), "https://storage.googleapis.com");
}

#[test]
fn retries_server_errors_and_throttling_only() {
    for status in [500u16, 503, 599, 429, 408] {
        assert!(retryable_status(status), "{status}");
    }
    for status in [200u16, 404, 412, 400, 600] {
        assert!(!retryable_status(status), "{status}");
    }
}

#[test]
fn rejects_escaping_keys() {
    for key in ["/abs/path", "a/../b", "a/./b", "", "a//b", "..\\escape", "a/", "."] {
        assert!(!is_valid_object_key(key), "key {key:?} should be rejected");
    }
    assert!(is_valid_object_key("badgers/repos/o/r/commits/abc/coverage.json.zst"));
    assert!(is_valid_object_key("a/...b/c"));
}
