use fdpi::http_head::{parse_http_head, parse_port, ParseError};

#[test]
fn parses_host_and_explicit_port() {
    let h = parse_http_head(b"CONNECT example.com:443 HTTP/1.1\r\n\r\n").unwrap();
    assert_eq!(h.command, b"CONNECT".to_vec());
    assert_eq!(h.domain, "example.com");
    assert_eq!(h.port, 443);
    assert_eq!(h.method, b"HTTP/1.1".to_vec());
}

#[test]
fn default_port_is_443() {
    let h = parse_http_head(b"CONNECT example.org HTTP/1.0\r\n").unwrap();
    assert_eq!(h.domain, "example.org");
    assert_eq!(h.port, 443);
    assert_eq!(h.method, b"HTTP/1.0".to_vec());
}

#[test]
fn other_port_and_no_line_end() {
    let h = parse_http_head(b"CONNECT localhost:9000 HTTP/1.1").unwrap();
    assert_eq!(h.domain, "localhost");
    assert_eq!(h.port, 9000);
}

#[test]
fn non_connect_command_is_refused() {
    assert_eq!(
        parse_http_head(b"GET / HTTP/1.1\r\n").unwrap_err(),
        ParseError::NotConnect
    );
    assert_eq!(
        parse_http_head(b"connect example.com:443 HTTP/1.1\r\n").unwrap_err(),
        ParseError::NotConnect
    );
}

#[test]
fn missing_tokens_are_malformed() {
    assert_eq!(parse_http_head(b"CONNECT\r\n").unwrap_err(), ParseError::Malformed);
    assert_eq!(
        parse_http_head(b"CONNECT example.com:443\r\n").unwrap_err(),
        ParseError::Malformed
    );
}

#[test]
fn bad_ports() {
    assert_eq!(
        parse_http_head(b"CONNECT example.com:abc HTTP/1.1\r\n").unwrap_err(),
        ParseError::BadPort
    );
    assert_eq!(
        parse_http_head(b"CONNECT example.com:65536 HTTP/1.1\r\n").unwrap_err(),
        ParseError::BadPort
    );
    assert_eq!(
        parse_http_head(b"CONNECT example.com: HTTP/1.1\r\n").unwrap_err(),
        ParseError::BadPort
    );
    // the port is read before the version token is looked for
    assert_eq!(
        parse_http_head(b"CONNECT example.com:-1\r\n").unwrap_err(),
        ParseError::BadPort
    );
}

#[test]
fn authority_must_be_utf8() {
    assert_eq!(
        parse_http_head(b"CONNECT exa\xffmple.com:443 HTTP/1.1\r\n").unwrap_err(),
        ParseError::Malformed
    );
}

#[test]
fn port_text() {
    assert_eq!(parse_port(b"443"), Some(443));
    assert_eq!(parse_port(b"+8080"), Some(8080));
    assert_eq!(parse_port(b"65535"), Some(65535));
    assert_eq!(parse_port(b"0"), Some(0));
    assert_eq!(parse_port(b"65536"), None);
    assert_eq!(parse_port(b"99999999999"), None);
    assert_eq!(parse_port(b""), None);
    assert_eq!(parse_port(b"+"), None);
    assert_eq!(parse_port(b"12a"), None);
}
