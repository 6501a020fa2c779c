//! The codec of the destination host: base64 text that holds the host,
//! ciphered with the keystream and followed by one suffix byte.

use crate::cipher::{cipher_seq, xor_cipher};
use crate::tools::string_from_utf8;
use base64::Engine;
use vstd::prelude::*;
use vstd::string::StringSliceAdditionalSpecFns;

verus! {

/// Why an encoded host could not be read.
#[derive(Clone, Copy, Debug, PartialEq, Eq)]
pub enum HostDecodeError {
    /// The text is not base64 of the standard alphabet.
    InvalidBase64,
    /// The deciphered bytes are not UTF-8.
    InvalidText,
}

impl HostDecodeError {
    /// The error in words.
    pub fn message(&self) -> (text: &'static str)
        ensures
            text@ == (match *self {
                HostDecodeError::InvalidBase64 => "the encoded host is not valid base64"@,
                HostDecodeError::InvalidText => "the decoded host is not valid UTF-8"@,
            }),
    {
        match self {
            HostDecodeError::InvalidBase64 => "the encoded host is not valid base64",
            HostDecodeError::InvalidText => "the decoded host is not valid UTF-8",
        }
    }
}

/// `base64::DecodeError`, the error of the base64 engine: it is carried from
/// the call to the place that turns it into `InvalidBase64`, and never
/// looked into.
#[verifier::external_type_specification]
#[verifier::external_body]
pub struct ExBase64DecodeError(base64::DecodeError);

/// What the standard base64 engine decodes `text` to: the bytes, or `None`
/// where it reports an error.
pub uninterp spec fn base64_standard(text: Seq<u8>) -> Option<Seq<u8>>;

/// `Engine::decode` of `base64::engine::general_purpose::STANDARD`, on the
/// bytes of `text`: the standard alphabet with canonical padding. The call
/// returns the decoded bytes or its error, and depends on the text alone;
/// the contract gives that result its name and says no more of it.
#[verifier::external_body]
fn decode_standard(text: &str) -> (decoded: Result<Vec<u8>, base64::DecodeError>)
    ensures
        match decoded {
            Ok(bytes) => base64_standard(text.spec_bytes()) == Some(bytes@),
            Err(_) => base64_standard(text.spec_bytes()) is None,
        },
{
    base64::engine::general_purpose::STANDARD.decode(text)
}

/// The bytes of the host in a decoded buffer: the buffer deciphered from
/// offset 0, without its final byte. An empty buffer has no final byte and
/// holds the empty host.
pub open spec fn host_bytes(decoded: Seq<u8>, key: Seq<u8>) -> Seq<u8> {
    let plain = cipher_seq(decoded, key, 0);
    if plain.len() == 0 {
        plain
    } else {
        plain.drop_last()
    }
}

/// Reads the host from the bytes that the base64 text decoded to.
pub fn host_from_decoded(decoded: Vec<u8>, secret: &str) -> (host: Result<String, HostDecodeError>)
    requires
        secret.spec_bytes().len() > 0,
    ensures
        host is Ok <==> vstd::utf8::valid_utf8(host_bytes(decoded@, secret.spec_bytes())),
        host matches Ok(text) ==> vstd::utf8::encode_utf8(text@) == host_bytes(
            decoded@,
            secret.spec_bytes(),
        ),
        host matches Err(e) ==> e == HostDecodeError::InvalidText,
{
    let mut plain = decoded;
    xor_cipher(plain.as_mut_slice(), secret, 0);
    plain.pop();
    assert(plain@ =~= host_bytes(decoded@, secret.spec_bytes()));
    match string_from_utf8(plain) {
        Some(text) => Ok(text),
        None => Err(HostDecodeError::InvalidText),
    }
}

/// Decodes the destination host of a tunnel: base64 text to bytes, the
/// bytes deciphered from offset 0, the final byte dropped, the rest read as
/// UTF-8.
pub fn decrypt_host(host: &str, secret: &str) -> (decoded: Result<String, HostDecodeError>)
    requires
        secret.spec_bytes().len() > 0,
    ensures
        match base64_standard(host.spec_bytes()) {
            None => decoded == Err::<String, HostDecodeError>(HostDecodeError::InvalidBase64),
            Some(bytes) => {
                &&& decoded is Ok <==> vstd::utf8::valid_utf8(
                    host_bytes(bytes, secret.spec_bytes()),
                )
                &&& decoded matches Ok(text) ==> vstd::utf8::encode_utf8(text@) == host_bytes(
                    bytes,
                    secret.spec_bytes(),
                )
                &&& decoded matches Err(e) ==> e == HostDecodeError::InvalidText
            },
        },
{
    match decode_standard(host) {
        Ok(bytes) => host_from_decoded(bytes, secret),
        Err(_) => Err(HostDecodeError::InvalidBase64),
    }
}

} // verus!
