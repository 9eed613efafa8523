use tethys::probe::{build_connect_request, classify_handshake, evaluate_probe, evaluate_tunnel,
    first_line_contains_200, header_terminated, split_host_port, to_hex_string};

#[test]
fn connect_request_matches_wire_format() {
    assert_eq!(
        build_connect_request("10.0.0.1:200"),
        "CONNECT 10.0.0.1:200 HTTP/1.1\r\nHost: 10.0.0.1:200\r\nProxy-Connection: Keep-Alive\r\n\r\n"
    );
}

#[test]
fn header_terminator_is_recognized() {
    assert!(header_terminated(&b"HTTP/1.1 200 OK\r\n\r\n".to_vec()));
    assert!(!header_terminated(&b"HTTP/1.1 200 OK\r\n".to_vec()));
    assert!(!header_terminated(&b"".to_vec()));
}

#[test]
fn only_the_first_line_is_inspected_for_200() {
    assert!(first_line_contains_200(&b"HTTP/1.1 200 Connection established\r\n\r\n".to_vec()));
    assert!(!first_line_contains_200(&b"HTTP/1.1 403 Forbidden\r\nX: 200\r\n\r\n".to_vec()));
    assert!(!first_line_contains_200(&b"".to_vec()));
}

#[test]
fn tunnel_needs_timely_complete_header_with_200() {
    let good = b"HTTP/1.1 200 Connection established\r\n\r\n".to_vec();
    assert!(evaluate_tunnel(false, &good));
    // A timeout fails the probe whatever arrived.
    assert!(!evaluate_tunnel(true, &good));
    // A connection closed before the blank line fails the probe.
    assert!(!evaluate_tunnel(false, &b"HTTP/1.1 200 Connection established\r\n".to_vec()));
    assert!(!evaluate_tunnel(false, &b"HTTP/1.1 502 Bad Gateway\r\n\r\n".to_vec()));
}

#[test]
fn handshake_needs_a_nonempty_read() {
    assert!(classify_handshake(Some(7)));
    assert!(!classify_handshake(Some(0)));
    assert!(!classify_handshake(None));
}

#[test]
fn probe_verdict_combines_all_steps() {
    let good = b"HTTP/1.1 200 OK\r\n\r\n".to_vec();
    assert!(evaluate_probe(true, false, &good, Some(12)));
    assert!(!evaluate_probe(false, false, &good, Some(12)));
    assert!(!evaluate_probe(true, true, &good, Some(12)));
    assert!(!evaluate_probe(true, false, &good, Some(0)));
    assert!(!evaluate_probe(true, false, &good, None));
    assert!(!evaluate_probe(true, false, &b"HTTP/1.1 404\r\n\r\n".to_vec(), Some(12)));
}

#[test]
fn hex_rendering_matches_expected_format() {
    assert_eq!(to_hex_string(&[0x0a, 0xff, 0x00]), "0x0A 0xFF 0x00");
    assert_eq!(to_hex_string(&[]), "");
    assert_eq!(to_hex_string(&[1]), "0x01");
}

#[test]
fn addresses_split_at_the_first_colon() {
    assert_eq!(split_host_port("10.0.0.1:200"), Some(("10.0.0.1".to_string(), "200".to_string())));
    assert_eq!(split_host_port("a:b:c"), Some(("a".to_string(), "b".to_string())));
    assert_eq!(split_host_port("nocolon"), None);
    assert_eq!(split_host_port(":80"), Some(("".to_string(), "80".to_string())));
}
