use vstd::prelude::*;

use base64::engine::general_purpose::STANDARD;
use base64::Engine;
use sha1::{Digest, Sha1};

use crate::bytes::{append, copy_range, range_starts_with};
use vstd::string::StringSliceAdditionalSpecFns;

verus! {

/// The header prefix whose line carries the client's key.
pub open spec fn key_prefix() -> Seq<u8> {
    "Sec-WebSocket-Key: ".spec_bytes()
}

/// The fixed value appended to the client's key before hashing.
pub open spec fn accept_guid() -> Seq<u8> {
    "258EAFA5-E914-47DA-95CA-C5AB0DC85B11".spec_bytes()
}

/// The response up to the accept value.
pub open spec fn response_head() -> Seq<u8> {
    "HTTP/1.1 101 Switching Protocols\r\nUpgrade: websocket\r\nConnection: Upgrade\r\nSec-WebSocket-Accept: ".spec_bytes()
}

/// What ends the accept header and the response.
pub open spec fn response_tail() -> Seq<u8> {
    "\r\n\r\n".spec_bytes()
}

/// The SHA-1 digest of some bytes.
pub uninterp spec fn sha1_of(data: Seq<u8>) -> Seq<u8>;

/// The padded standard base64 encoding of some bytes, as ASCII bytes.
pub uninterp spec fn base64_of(data: Seq<u8>) -> Seq<u8>;

/// Relies on `sha1::Sha1::digest` (through `digest::Digest`): the 20-byte
/// SHA-1 digest of the input.
#[verifier::external_body]
fn sha1_digest(data: &[u8]) -> (r: Vec<u8>)
    ensures
        r@ == sha1_of(data@),
        r@.len() == 20,
{
    Sha1::digest(data).to_vec()
}

/// Relies on `base64::Engine::encode` of the `STANDARD` engine: padded
/// standard-alphabet base64, four characters for each started group of three
/// bytes. Its length computation panics on overflow, which the bound excludes.
#[verifier::external_body]
fn base64_encode(data: &[u8]) -> (r: Vec<u8>)
    requires
        data@.len() <= usize::MAX / 2,
    ensures
        r@ == base64_of(data@),
        r@.len() == 4 * ((data@.len() + 2) / 3),
{
    STANDARD.encode(data).into_bytes()
}

/// The accept value for a client key: base64 of the SHA-1 digest of the key
/// followed by the fixed value.
pub open spec fn accept_of(key: Seq<u8>) -> Seq<u8> {
    base64_of(sha1_of(key + accept_guid()))
}

/// The whole `101 Switching Protocols` response for an accept value.
pub open spec fn response_bytes(accept: Seq<u8>) -> Seq<u8> {
    response_head() + accept + response_tail()
}

/// The key that a request line gives, if it is a key line; else `key`.
pub open spec fn key_after(line: Seq<u8>, key: Option<Seq<u8>>) -> Option<Seq<u8>> {
    if key_prefix().len() <= line.len() && line.subrange(0, key_prefix().len() as int)
        == key_prefix() {
        Some(line.subrange(key_prefix().len() as int, line.len() as int))
    } else {
        key
    }
}

/// What reading a request head gives.
pub enum Head {
    /// No empty line yet.
    Incomplete,
    /// The head ended: the key of its last key line, if any, and the number of
    /// bytes up to and including the empty line.
    Complete(Option<Seq<u8>>, nat),
}

/// Reads CRLF-terminated lines from `start`, scanning from `i`, and keeps the
/// last key seen; the first empty line ends the head.
pub open spec fn head_scan(s: Seq<u8>, i: nat, start: nat, key: Option<Seq<u8>>) -> Head
    decreases s.len() - i,
{
    if i + 1 >= s.len() {
        Head::Incomplete
    } else if s[i as int] == 13 && s[i + 1 as int] == 10 {
        if i == start {
            Head::Complete(key, i + 2)
        } else {
            head_scan(s, i + 2, i + 2, key_after(s.subrange(start as int, i as int), key))
        }
    } else {
        head_scan(s, i + 1, start, key)
    }
}

/// The head at the start of the bytes received.
pub open spec fn head(s: Seq<u8>) -> Head {
    head_scan(s, 0, 0, None)
}

/// The outcome of reading a request head.
pub enum RequestHead {
    Incomplete,
    Complete { key: Option<Vec<u8>>, consumed: usize },
}

/// The outcome of the opening handshake on the bytes received so far.
pub enum Handshake {
    /// The request head has not ended yet.
    Incomplete,
    /// The head ended after this many bytes without a key line.
    MissingKey(usize),
    /// The response to send, and the number of bytes the head took.
    Accepted(Vec<u8>, usize),
}

/// Reads the request head at the start of `buf`: lines end at CRLF, an empty
/// line ends the head, and a line that starts with `Sec-WebSocket-Key: `
/// gives the key (a later one replaces an earlier one).
pub fn parse_head(buf: &[u8]) -> (r: RequestHead)
    ensures
        match head(buf@) {
            Head::Incomplete => r is Incomplete,
            Head::Complete(k, c) => r matches RequestHead::Complete { key, consumed } && consumed
                == c && match k {
                Some(kk) => key matches Some(v) && v@ == kk,
                None => key is None,
            },
        },
        r matches RequestHead::Complete { consumed, .. } ==> consumed <= buf@.len(),
{
    let pre: &[u8] = "Sec-WebSocket-Key: ".as_bytes();
    let n: usize = buf.len();
    let mut key: Option<Vec<u8>> = None;
    let mut start: usize = 0;
    let mut i: usize = 0;
    loop
        invariant
            start <= i <= n,
            n == buf@.len(),
            pre@ == key_prefix(),
            head(buf@) == head_scan(
                buf@,
                i as nat,
                start as nat,
                match key {
                    Some(v) => Some(v@),
                    None => None,
                },
            ),
        decreases n - i,
    {
        if n - i < 2 {
            return RequestHead::Incomplete;
        }
        if buf[i] == 13 && buf[i + 1] == 10 {
            if i == start {
                return RequestHead::Complete { key, consumed: i + 2 };
            }
            if range_starts_with(buf, start, i, pre) {
                key = Some(copy_range(buf, start + pre.len(), i));
                assert(buf@.subrange(start as int, i as int).subrange(0, key_prefix().len() as int)
                    =~= buf@.subrange(start as int, start + key_prefix().len()));
                assert(buf@.subrange(start as int, i as int).subrange(
                    key_prefix().len() as int,
                    (i - start) as int,
                ) =~= buf@.subrange(start + key_prefix().len(), i as int));
            } else {
                proof {
                    if key_prefix().len() <= (i - start) as nat {
                        assert(buf@.subrange(start as int, i as int).subrange(
                            0,
                            key_prefix().len() as int,
                        ) =~= buf@.subrange(start as int, start + key_prefix().len()));
                    }
                }
            }
            i = i + 2;
            start = i;
        } else {
            i = i + 1;
        }
    }
}

/// The accept value for a client key.
pub fn accept_key(key: &[u8]) -> (r: Vec<u8>)
    ensures
        r@ == accept_of(key@),
        r@.len() == 28,
{
    let mut input: Vec<u8> = Vec::new();
    append(&mut input, key);
    append(&mut input, "258EAFA5-E914-47DA-95CA-C5AB0DC85B11".as_bytes());
    let digest = sha1_digest(input.as_slice());
    base64_encode(digest.as_slice())
}

/// The full upgrade response that carries an accept value.
pub fn response(accept: &[u8]) -> (r: Vec<u8>)
    ensures
        r@ == response_bytes(accept@),
{
    let mut out: Vec<u8> = Vec::new();
    append(
        &mut out,
        "HTTP/1.1 101 Switching Protocols\r\nUpgrade: websocket\r\nConnection: Upgrade\r\nSec-WebSocket-Accept: ".as_bytes(),
    );
    append(&mut out, accept);
    append(&mut out, "\r\n\r\n".as_bytes());
    out
}

/// Runs the opening handshake on the bytes received so far: once the request
/// head has ended, either the response that accepts its key or the report
/// that it had none.
pub fn handshake(buf: &[u8]) -> (r: Handshake)
    ensures
        match head(buf@) {
            Head::Incomplete => r is Incomplete,
            Head::Complete(None, c) => r == Handshake::MissingKey(c as usize),
            Head::Complete(Some(k), c) => r matches Handshake::Accepted(resp, n) && resp@
                == response_bytes(accept_of(k)) && n == c,
        },
        r matches Handshake::Accepted(_, n) ==> n <= buf@.len(),
        r matches Handshake::MissingKey(n) ==> n <= buf@.len(),
{
    match parse_head(buf) {
        RequestHead::Incomplete => Handshake::Incomplete,
        RequestHead::Complete { key: None, consumed } => Handshake::MissingKey(consumed),
        RequestHead::Complete { key: Some(k), consumed } => {
            let accept = accept_key(k.as_slice());
            Handshake::Accepted(response(accept.as_slice()), consumed)
        },
    }
}

} // verus!
