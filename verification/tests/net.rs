//! Candidate URLs and the STUN query.
use secure_p2p_chat::net::{
    candidate_base_urls, entered_host, ipv4_text, local_ipv4_addrs, parse_stun_xor_mapped_v4,
    stun_request, stun_request_with, Ipv4,
};
use secure_p2p_chat::peer::PeerNode;

fn ip(a: u8, b: u8, c: u8, d: u8) -> Ipv4 {
    Ipv4 { a, b, c, d }
}

#[test]
fn candidate_urls_prefer_advertise_host() {
    let local = [ip(192, 168, 1, 20)];
    let urls = candidate_base_urls(7420, Some("chat.example.com"), &local);
    assert_eq!(urls[0], "http://chat.example.com:7420");
    assert!(urls.iter().any(|u| u.contains("127.0.0.1")));
}

#[test]
fn advertise_host_may_include_port() {
    let urls = candidate_base_urls(7420, Some("203.0.113.10:9000"), &[]);
    assert_eq!(urls[0], "http://203.0.113.10:9000");
}

#[test]
fn candidates_in_order_and_once() {
    let local = [ip(192, 168, 1, 20), ip(10, 0, 0, 5), ip(192, 168, 1, 20)];
    assert_eq!(
        candidate_base_urls(7420, None, &local),
        [
            "http://192.168.1.20:7420",
            "http://10.0.0.5:7420",
            "http://127.0.0.1:7420"
        ]
    );
    assert_eq!(
        candidate_base_urls(7420, Some("10.0.0.5"), &local),
        [
            "http://10.0.0.5:7420",
            "http://192.168.1.20:7420",
            "http://127.0.0.1:7420"
        ]
    );
    assert_eq!(
        candidate_base_urls(7420, Some("127.0.0.1"), &[]),
        ["http://127.0.0.1:7420"]
    );
    assert_eq!(candidate_base_urls(80, Some("  "), &[]), ["http://127.0.0.1:80"]);
}

#[test]
fn advertised_hosts_are_cleaned() {
    let first = |host: &str| candidate_base_urls(7420, Some(host), &[])[0].clone();
    assert_eq!(first("  http://chat.example.com//  "), "http://chat.example.com:7420");
    assert_eq!(first("http://https://chat.example.com"), "http://chat.example.com:7420");
    assert_eq!(first("https://http://x"), "http://http://x:7420");
    assert_eq!(first("http://http://x:1/"), "http://x:1");
    assert_eq!(first("x:"), "http://x::7420");
    assert_eq!(first("x:port"), "http://x:port:7420");
    assert_eq!(first("::1"), "http://::1");
    assert_eq!(first("http://"), "http://:7420");
    assert_eq!(first("ünï.example"), "http://ünï.example:7420");
}

#[test]
fn hosts_are_entered_trimmed() {
    assert_eq!(entered_host(Some(" a b ")), Some("a b".to_string()));
    assert_eq!(entered_host(Some(" \t\n")), None);
    assert_eq!(entered_host(None), None);
}

#[test]
fn local_addresses_are_outward_and_distinct() {
    let found = [
        ip(10, 0, 0, 5),
        ip(127, 0, 0, 1),
        ip(0, 0, 0, 0),
        ip(10, 0, 0, 5),
        ip(0, 0, 0, 1),
        ip(127, 8, 8, 8),
    ];
    assert_eq!(local_ipv4_addrs(&found), [ip(10, 0, 0, 5), ip(0, 0, 0, 1)]);
}

#[test]
fn addresses_are_dotted() {
    assert_eq!(ipv4_text(&ip(255, 0, 10, 9)), "255.0.10.9");
}

fn response(attributes: &[u8]) -> Vec<u8> {
    let mut msg = vec![0u8; 20];
    msg.extend_from_slice(attributes);
    msg
}

#[test]
fn stun_addresses_are_read() {
    let masked = [0, 32, 0, 8, 0, 1, 9, 9, 203 ^ 0x21, 0x12, 113 ^ 0xa4, 10 ^ 0x42];
    assert_eq!(
        parse_stun_xor_mapped_v4(&response(&masked)),
        Some(ip(203, 0, 113, 10))
    );
    let plain = [0, 1, 0, 8, 0, 1, 9, 9, 203, 0, 113, 10];
    assert_eq!(
        parse_stun_xor_mapped_v4(&response(&plain)),
        Some(ip(203, 0, 113, 10))
    );
}

#[test]
fn stun_attributes_are_padded_and_passed_over() {
    // An attribute of five bytes takes eight; an IPv6 address is passed over.
    let mut attributes = vec![0x80, 0x22, 0, 5, 1, 2, 3, 4, 5, 0, 0, 0];
    attributes.extend_from_slice(&[0, 32, 0, 8, 0, 2, 9, 9, 1, 2, 3, 4]);
    attributes.extend_from_slice(&[0, 1, 0, 8, 0, 1, 9, 9, 1, 2, 3, 4]);
    assert_eq!(
        parse_stun_xor_mapped_v4(&response(&attributes)),
        Some(ip(1, 2, 3, 4))
    );
}

#[test]
fn stun_responses_may_be_cut_short() {
    assert_eq!(parse_stun_xor_mapped_v4(&[0; 19]), None);
    assert_eq!(parse_stun_xor_mapped_v4(&[0; 20]), None);
    assert_eq!(parse_stun_xor_mapped_v4(&response(&[0, 1, 0, 8, 0, 1, 9, 9, 1, 2, 3])), None);
    assert_eq!(parse_stun_xor_mapped_v4(&response(&[0, 1, 0, 4, 0, 1, 9, 9])), None);
    assert_eq!(parse_stun_xor_mapped_v4(&response(&[0, 9, 0, 1, 7])), None);
    assert_eq!(parse_stun_xor_mapped_v4(&response(&[0, 1, 0])), None);
}

#[test]
fn stun_requests() {
    let request = stun_request_with(&[7; 12]);
    assert_eq!(
        request,
        [0, 1, 0, 0, 0x21, 0x12, 0xa4, 0x42, 7, 7, 7, 7, 7, 7, 7, 7, 7, 7, 7, 7]
    );
    let (a, b) = (stun_request(), stun_request());
    assert_eq!(a.len(), 20);
    assert_eq!(a[..8], request[..8]);
    assert_ne!(a, b);
}

#[test]
fn hints_suggest_a_url() {
    let local = [ip(10, 0, 0, 5)];
    let hints = PeerNode::network_hints(7420, None, &local, Some(ip(203, 0, 113, 10)));
    assert_eq!(hints.local_urls, ["http://10.0.0.5:7420", "http://127.0.0.1:7420"]);
    assert_eq!(hints.stun_public_ip.as_deref(), Some("203.0.113.10"));
    assert_eq!(
        hints.suggested_share_url.as_deref(),
        Some("http://203.0.113.10:7420")
    );
    let hints = PeerNode::network_hints(7420, Some("x:1"), &local, Some(ip(203, 0, 113, 10)));
    assert_eq!(hints.suggested_share_url.as_deref(), Some("http://x:1"));
    let hints = PeerNode::network_hints(7420, Some(" "), &local, None);
    assert_eq!(hints.stun_public_ip, None);
    assert_eq!(hints.suggested_share_url, None);
}
