//! The camouflage handshake: what the first bytes of a connection make of
//! the session, and which cosmetic response goes back.

use crate::cipher::{cipher_seq, next_offset};
use crate::host::{base64_standard, decrypt_host, host_bytes};
use crate::tools::{
    bytes_contains, contains_bytes, copy_range, get_proxy_host, header_value, is_http_header,
    is_http_request, locate_header, locate_proxy_host,
};
use crate::udp::{decode_spec, open_udp_session, opens_udp_session, Decoded, Uplink};
use vstd::prelude::*;
use vstd::string::StringSliceAdditionalSpecFns;

verus! {

/// The response to a request that asks for a WebSocket upgrade.
pub const WEBSOCKET_RESPONSE: &'static str =
    "HTTP/1.1 101 Switching Protocols\r\nUpgrade: websocket\r\nConnection: Upgrade\r\nSec-WebSocket-Accept: CuteBi Network Tunnel, (%>w<%)\r\n\r\n";

/// The response to a `CONNECT` request.
pub const CONNECT_RESPONSE: &'static str =
    "HTTP/1.1 200 Connection established\r\nServer: CuteBi Network Tunnel, (%>w<%)\r\nConnection: keep-alive\r\n\r\n";

/// The response to any other request.
pub const GENERIC_RESPONSE: &'static str =
    "HTTP/1.1 200 OK\r\nTransfer-Encoding: chunked\r\nServer: CuteBi Network Tunnel, (%>w<%)\r\nConnection: keep-alive\r\n\r\n";

/// The cosmetic response that a camouflaged request is answered with.
pub open spec fn response_for(segment: Seq<u8>) -> &'static str {
    if contains_bytes(segment, "WebSocket".spec_bytes()) {
        WEBSOCKET_RESPONSE
    } else if contains_bytes(segment, "CON".spec_bytes()) {
        CONNECT_RESPONSE
    } else {
        GENERIC_RESPONSE
    }
}

/// Picks the cosmetic response for a camouflaged request.
pub fn get_response_header(header: &[u8]) -> (response: &'static str)
    ensures
        response@ == response_for(header@)@,
{
    if bytes_contains(header, "WebSocket".as_bytes()) {
        WEBSOCKET_RESPONSE
    } else if bytes_contains(header, "CON".as_bytes()) {
        CONNECT_RESPONSE
    } else {
        GENERIC_RESPONSE
    }
}

/// What a session was classified as.
#[derive(Clone, Copy, Debug, PartialEq, Eq)]
pub enum Classification {
    TcpTunnel,
    UdpTunnel,
    Rejected,
}

/// What one segment from a client that awaits classification leads to.
#[derive(Debug)]
pub enum Handshake {
    /// A camouflaged request that announces a datagram session: the
    /// response goes back, and the next segment is awaited in its turn.
    Probe { response: &'static str },
    /// A camouflaged request with a destination: the response goes back,
    /// and a TCP tunnel to `host` begins with `payload`, the ciphered bytes
    /// that stood behind the destination header.
    TcpTunnel { response: &'static str, host: String, payload: Vec<u8> },
    /// A datagram session: nothing goes back, `decoded` holds the frames of
    /// the segment, and `uplink` goes on from there.
    UdpTunnel { uplink: Uplink, decoded: Decoded },
    /// The connection is closed, after the response in `answer` where there
    /// is one.
    Rejected { answer: Option<&'static str> },
}

/// The UTF-8 bytes of the destination that a camouflaged request names:
/// the value of its destination header, decoded as base64, deciphered and
/// freed of its final byte. There is none where a step fails.
pub open spec fn tunnel_host(segment: Seq<u8>, key: Seq<u8>) -> Option<Seq<u8>> {
    match header_value(segment) {
        None => None,
        Some(value) => if !vstd::utf8::valid_utf8(value) {
            None
        } else {
            match base64_standard(value) {
                None => None,
                Some(decoded) => if vstd::utf8::valid_utf8(host_bytes(decoded, key)) {
                    Some(host_bytes(decoded, key))
                } else {
                    None
                },
            }
        },
    }
}

/// The bytes of a camouflaged request that stand behind the carriage
/// return of its destination header.
pub open spec fn tunnel_payload(segment: Seq<u8>) -> Seq<u8> {
    match locate_header(segment) {
        None => Seq::empty(),
        Some((_, end)) => segment.skip(end + 1),
    }
}

impl Handshake {
    /// The classification that the segment decided, if it decided one.
    pub open spec fn spec_classification(&self) -> Option<Classification> {
        match self {
            Handshake::Probe { .. } => None,
            Handshake::TcpTunnel { .. } => Some(Classification::TcpTunnel),
            Handshake::UdpTunnel { .. } => Some(Classification::UdpTunnel),
            Handshake::Rejected { .. } => Some(Classification::Rejected),
        }
    }

    /// The classification that the segment decided, or `None` where the
    /// session still awaits it.
    #[verifier::when_used_as_spec(spec_classification)]
    pub fn classification(&self) -> (class: Option<Classification>)
        ensures
            class == self.spec_classification(),
    {
        match self {
            Handshake::Probe { .. } => None,
            Handshake::TcpTunnel { .. } => Some(Classification::TcpTunnel),
            Handshake::UdpTunnel { .. } => Some(Classification::UdpTunnel),
            Handshake::Rejected { .. } => Some(Classification::Rejected),
        }
    }
}

/// Classifies one segment read from a client whose session awaits
/// classification.
///
/// A segment that begins with a request method is answered with its
/// cosmetic response. With the marker `httpUDP` in it the session goes on
/// awaiting; else it becomes a TCP tunnel to the host that its destination
/// header names, or is rejected where no host can be read. Any other
/// segment opens a datagram session where its first bytes pass the test
/// for one, and is rejected without a response where they do not.
pub fn handshake_step(segment: &[u8], secret: &str) -> (out: Handshake)
    requires
        secret.spec_bytes().len() > 0,
    ensures
        is_http_request(segment@) && contains_bytes(segment@, "httpUDP".spec_bytes()) ==> (out
            matches Handshake::Probe { response } && response@ == response_for(segment@)@),
        is_http_request(segment@) && !contains_bytes(segment@, "httpUDP".spec_bytes()) ==> (
        match tunnel_host(segment@, secret.spec_bytes()) {
            Some(name) => out matches Handshake::TcpTunnel { response, host, payload }
                && response@ == response_for(segment@)@ && vstd::utf8::encode_utf8(host@) == name
                && payload@ == tunnel_payload(segment@),
            None => out matches Handshake::Rejected { answer: Some(response) } && response@
                == response_for(segment@)@,
        }),
        !is_http_request(segment@) && opens_udp_session(segment@, secret.spec_bytes()) ==> (out
            matches Handshake::UdpTunnel { uplink, decoded } && {
            let plain = cipher_seq(segment@, secret.spec_bytes(), 0);
            &&& decoded@ == decode_spec(plain)
            &&& uplink.pending@ == plain.skip(decoded.consumed as int)
            &&& uplink.offset as int == next_offset(
                segment@.len() as int,
                secret.spec_bytes().len() as int,
                0,
            )
        }),
        !is_http_request(segment@) && !opens_udp_session(segment@, secret.spec_bytes()) ==> out
            matches Handshake::Rejected { answer: None },
{
    if is_http_header(segment) {
        let response = get_response_header(segment);
        if bytes_contains(segment, "httpUDP".as_bytes()) {
            return Handshake::Probe { response };
        }
        let end = match locate_proxy_host(segment) {
            Some((_, end)) => end,
            None => {
                return Handshake::Rejected { answer: Some(response) };
            },
        };
        let encoded = match get_proxy_host(segment) {
            Some(encoded) => encoded,
            None => {
                return Handshake::Rejected { answer: Some(response) };
            },
        };
        match decrypt_host(encoded.as_str(), secret) {
            Ok(host) => {
                let len: usize = segment.len();
                let payload = copy_range(segment, end + 1, len);
                Handshake::TcpTunnel { response, host, payload }
            },
            Err(_) => Handshake::Rejected { answer: Some(response) },
        }
    } else {
        match open_udp_session(segment, secret) {
            Some((uplink, decoded)) => Handshake::UdpTunnel { uplink, decoded },
            None => Handshake::Rejected { answer: None },
        }
    }
}

} // verus!
