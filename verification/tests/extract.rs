use log_analyzer::extract_ip;
use log_analyzer::extract_status_code;

#[test]
fn test_extract_ip() {
    assert_eq!(extract_ip("192.168.1.1 - request"), Some("192.168.1.1".to_string()));
    assert_eq!(extract_ip("no ip here"), None);
}

#[test]
fn test_extract_status_code() {
    assert_eq!(extract_status_code("GET /page 200 OK"), Some(200));
    assert_eq!(extract_status_code("Error 404 not found"), Some(404));
    assert_eq!(extract_status_code("no status code"), None);
}

#[test]
fn extract_ip_rejects_out_of_range_octet() {
    assert_eq!(extract_ip("999.1.1.1 test"), None);
    assert_eq!(extract_ip("1.2.3.256 test"), None);
}

#[test]
fn extract_ip_needs_four_parts() {
    assert_eq!(extract_ip("1.2.3 test"), None);
    assert_eq!(extract_ip("1.2.3.4.5 test"), None);
    assert_eq!(extract_ip("1.2.3. test"), None);
}

#[test]
fn extract_ip_takes_first_qualifying_token() {
    assert_eq!(extract_ip("500 10.0.0.1 10.0.0.2"), Some("10.0.0.1".to_string()));
    assert_eq!(extract_ip("0.0.0.0"), Some("0.0.0.0".to_string()));
}

#[test]
fn extract_ip_accepts_signed_octets_like_parse_does() {
    assert_eq!(extract_ip("+1.2.3.4 x"), Some("+1.2.3.4".to_string()));
    assert_eq!(extract_ip("-1.2.3.4 x"), None);
}

#[test]
fn extract_status_code_range_bounds() {
    assert_eq!(extract_status_code("port 8080 used"), None);
    assert_eq!(extract_status_code("x 99 y"), None);
    assert_eq!(extract_status_code("x 100 y"), Some(100));
    assert_eq!(extract_status_code("x 599 y"), Some(599));
    assert_eq!(extract_status_code("x 600 y"), None);
}

#[test]
fn extract_status_code_takes_first_in_range() {
    assert_eq!(extract_status_code("7 99 404 500"), Some(404));
    assert_eq!(extract_status_code("0200 ok"), Some(200));
}
