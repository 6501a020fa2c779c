use cns_rust::cipher::xor_cipher;
use cns_rust::dns::{dns_dial_error, dns_query, dns_reply};

const KEY: &str = "quanyec";

#[test]
fn dns_query_strips_the_length_prefix() {
    let mut chunk = vec![0x00, 0x03, 0xaa, 0xbb, 0xcc];
    xor_cipher(&mut chunk, KEY, 0);
    assert_eq!(dns_query(&chunk, KEY), Some(vec![0xaa, 0xbb, 0xcc]));
}

#[test]
fn dns_query_does_not_hold_the_prefix_to_the_body() {
    let mut chunk = vec![0x12, 0x34, 0x01];
    xor_cipher(&mut chunk, KEY, 0);
    assert_eq!(dns_query(&chunk, KEY), Some(vec![0x01]));
}

#[test]
fn dns_query_of_short_chunks() {
    assert_eq!(dns_query(&[], KEY), None);
    assert_eq!(dns_query(&[0x10], KEY), None);
    assert_eq!(dns_query(&[0x10, 0x20], KEY), Some(Vec::new()));
}

#[test]
fn dns_reply_frames_and_ciphers() {
    let reply = dns_reply(&[0xaa, 0xbb, 0xcc], KEY);
    assert_eq!(
        reply,
        vec![
            0x00 ^ b'q',
            0x03 ^ (b'u' | 1),
            0xaa ^ (b'a' | 2),
            0xbb ^ (b'n' | 3),
            0xcc ^ (b'y' | 4)
        ]
    );
    assert_eq!(reply, vec![0x71, 0x76, 0xc9, 0xd4, 0xb1]);
}

#[test]
fn dns_reply_length_is_big_endian() {
    let response = vec![7u8; 0x0102];
    let mut reply = dns_reply(&response, KEY);
    assert_eq!(reply.len(), 0x0104);
    xor_cipher(&mut reply, KEY, 0);
    assert_eq!(&reply[..2], &[0x01, 0x02]);
    assert_eq!(&reply[2..], &response[..]);
}

#[test]
fn dns_reply_of_the_longest_and_the_empty_response() {
    let response = vec![1u8; 0xffff];
    let mut reply = dns_reply(&response, KEY);
    xor_cipher(&mut reply, KEY, 0);
    assert_eq!(&reply[..2], &[0xff, 0xff]);
    assert_eq!(reply.len(), 0x10001);
    let mut empty = dns_reply(&[], KEY);
    xor_cipher(&mut empty, KEY, 0);
    assert_eq!(empty, vec![0, 0]);
}

#[test]
fn dns_reply_reads_back_as_a_query() {
    let response: Vec<u8> = (0..100u8).collect();
    assert_eq!(dns_query(&dns_reply(&response, KEY), KEY), Some(response));
}

#[test]
fn dns_dial_error_text() {
    assert_eq!(dns_dial_error("8.8.8.8:53"), "Proxy address [8.8.8.8:53] DNS Dial() error");
    assert_eq!(dns_dial_error(""), "Proxy address [] DNS Dial() error");
}
