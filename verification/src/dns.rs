//! The DNS special case: a query that came over the tunnel with a two-byte
//! big-endian length in front goes out as one datagram, and the response
//! comes back in the same framing.

use crate::cipher::{cipher_seq, lemma_cipher_involution, xor_cipher};
use crate::tools::copy_range;
use vstd::prelude::*;
use vstd::string::StringExecFns;
use vstd::string::StringSliceAdditionalSpecFns;

verus! {

/// The query in a ciphered chunk from the client: the chunk deciphered from
/// offset 0, without the two bytes of its length prefix. A chunk of fewer
/// than two bytes holds none.
pub open spec fn dns_query_spec(chunk: Seq<u8>, key: Seq<u8>) -> Option<Seq<u8>> {
    if chunk.len() < 2 {
        None
    } else {
        Some(cipher_seq(chunk, key, 0).skip(2))
    }
}

/// A response as it goes back to the client: its length in two bytes, big
/// end first, then the response, all ciphered from offset 0.
pub open spec fn dns_reply_spec(response: Seq<u8>, key: Seq<u8>) -> Seq<u8> {
    cipher_seq(
        seq![(response.len() / 256) as u8, (response.len() % 256) as u8] + response,
        key,
        0,
    )
}

/// Takes the query out of the chunk that the client sent.
pub fn dns_query(chunk: &[u8], secret: &str) -> (query: Option<Vec<u8>>)
    requires
        secret.spec_bytes().len() > 0,
    ensures
        match query {
            Some(body) => dns_query_spec(chunk@, secret.spec_bytes()) == Some(body@),
            None => dns_query_spec(chunk@, secret.spec_bytes()) is None,
        },
{
    let len: usize = chunk.len();
    if len < 2 {
        return None;
    }
    let mut plain = copy_range(chunk, 0, len);
    assert(plain@ =~= chunk@);
    xor_cipher(plain.as_mut_slice(), secret, 0);
    let body = copy_range(plain.as_slice(), 2, len);
    assert(body@ =~= plain@.skip(2));
    Some(body)
}

/// Frames and ciphers the response for the client.
pub fn dns_reply(response: &[u8], secret: &str) -> (reply: Vec<u8>)
    requires
        secret.spec_bytes().len() > 0,
        response@.len() <= 0xffff,
    ensures
        reply@ == dns_reply_spec(response@, secret.spec_bytes()),
{
    let len: usize = response.len();
    let mut reply: Vec<u8> = Vec::with_capacity(len + 2);
    reply.push((len / 256) as u8);
    reply.push((len % 256) as u8);
    reply.extend_from_slice(response);
    assert(reply@ =~= seq![(len / 256) as u8, (len % 256) as u8] + response@);
    xor_cipher(reply.as_mut_slice(), secret, 0);
    reply
}

/// What goes back to the client as a reply is read there as the response:
/// deciphered and freed of its prefix, it is the response again.
pub proof fn lemma_dns_reply_reads_back(response: Seq<u8>, key: Seq<u8>)
    ensures
        dns_query_spec(dns_reply_spec(response, key), key) == Some(response),
{
    let framed = seq![(response.len() / 256) as u8, (response.len() % 256) as u8] + response;
    lemma_cipher_involution(framed, key, 0);
    assert(framed.skip(2) =~= response);
}

/// The notice that the client gets where the query could not be sent to
/// `host`.
pub fn dns_dial_error(host: &str) -> (notice: String)
    ensures
        notice@ == "Proxy address ["@ + host@ + "] DNS Dial() error"@,
{
    let mut notice = String::from_str("Proxy address [");
    notice.append(host);
    notice.append("] DNS Dial() error");
    notice
}

} // verus!
