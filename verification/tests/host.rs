use base64::Engine;
use cns_rust::cipher::xor_cipher;
use cns_rust::host::{decrypt_host, host_from_decoded, HostDecodeError};

const KEY: &str = "quanyec";

fn encode_host(host: &[u8], suffix: u8) -> String {
    let mut bytes = host.to_vec();
    bytes.push(suffix);
    xor_cipher(&mut bytes, KEY, 0);
    base64::engine::general_purpose::STANDARD.encode(bytes)
}

#[test]
fn decrypt_host_reads_what_was_encoded() {
    let encoded = encode_host(b"example.com:443", 0);
    assert_ne!(encoded, "example.com:443");
    assert_eq!(decrypt_host(&encoded, KEY), Ok(String::from("example.com:443")));
}

#[test]
fn decrypt_host_known_text() {
    // "a.b" and a zero byte, ciphered with "quanyec", in base64
    let mut bytes = vec![b'a', b'.', b'b', 0];
    xor_cipher(&mut bytes, KEY, 0);
    assert_eq!(bytes, vec![b'a' ^ b'q', b'.' ^ (b'u' | 1), b'b' ^ (b'a' | 2), b'n' | 3]);
    assert_eq!(bytes, vec![0x10, 0x5b, 0x01, 0x6f]);
    assert_eq!(decrypt_host("EFsBbw==", KEY), Ok(String::from("a.b")));
}

#[test]
fn decrypt_host_drops_the_final_byte_whatever_it_is() {
    for suffix in [0u8, 1, b'\n', 0xff] {
        let encoded = encode_host(b"m.quanye.org", suffix);
        assert_eq!(decrypt_host(&encoded, KEY), Ok(String::from("m.quanye.org")));
    }
}

#[test]
fn decrypt_host_rejects_bad_base64() {
    assert_eq!(decrypt_host("!!!", KEY), Err(HostDecodeError::InvalidBase64));
    assert_eq!(decrypt_host("EFsBbw=", KEY), Err(HostDecodeError::InvalidBase64));
    assert_eq!(decrypt_host("EFsBbw", KEY), Err(HostDecodeError::InvalidBase64));
    assert_eq!(decrypt_host("EFsB bw==", KEY), Err(HostDecodeError::InvalidBase64));
    assert_eq!(decrypt_host("EFsB-w==", KEY), Err(HostDecodeError::InvalidBase64));
    assert_eq!(decrypt_host("m.quanye.org", KEY), Err(HostDecodeError::InvalidBase64));
}

#[test]
fn decrypt_host_rejects_text_that_is_not_utf8() {
    let encoded = encode_host(&[0xff, 0xfe], 0);
    assert_eq!(decrypt_host(&encoded, KEY), Err(HostDecodeError::InvalidText));
    let encoded = encode_host(&[b'a', 0xc3], 0);
    assert_eq!(decrypt_host(&encoded, KEY), Err(HostDecodeError::InvalidText));
}

#[test]
fn decrypt_host_reads_text_beyond_ascii() {
    let encoded = encode_host("h\u{f4}te.example:80".as_bytes(), 0);
    assert_eq!(decrypt_host(&encoded, KEY), Ok(String::from("h\u{f4}te.example:80")));
}

#[test]
fn decrypt_host_of_short_input() {
    // nothing decoded: there is no final byte, and the host is empty
    assert_eq!(decrypt_host("", KEY), Ok(String::new()));
    // one byte decoded: it is the suffix
    let encoded = encode_host(b"", 0);
    assert_eq!(encoded.len(), 4);
    assert_eq!(decrypt_host(&encoded, KEY), Ok(String::new()));
}

#[test]
fn host_from_decoded_deciphers_and_drops_one_byte() {
    let mut bytes = b"host:53\0".to_vec();
    xor_cipher(&mut bytes, KEY, 0);
    assert_eq!(host_from_decoded(bytes, KEY), Ok(String::from("host:53")));
    assert_eq!(host_from_decoded(Vec::new(), KEY), Ok(String::new()));
    let mut bad = vec![0x80u8, 0];
    xor_cipher(&mut bad, KEY, 0);
    assert_eq!(host_from_decoded(bad, KEY), Err(HostDecodeError::InvalidText));
}

#[test]
fn decode_error_messages() {
    assert_eq!(HostDecodeError::InvalidBase64.message(), "the encoded host is not valid base64");
    assert_eq!(HostDecodeError::InvalidText.message(), "the decoded host is not valid UTF-8");
}
