//! The share protocol's constants and its request and response layouts.
//!
//! Every request opens with the 32-byte share token and one operation byte;
//! what follows is the operation's own body. All integers are little-endian.
use crate::codec::{
    bytes_of, get_array32, get_array64, get_u32, get_u64, lemma_bytes_of_push, lemma_many_canonical,
    lemma_many_parses, lemma_parse_step, lemma_prepend_nothing, lemma_u32_le, lemma_u32_of,
    lemma_u64_le, lemma_u64_of, parse_bytes, parse_many, parse_u32, parse_u64, prepend, put_bytes,
    put_u32, put_u64, u32_le, u32_of, u64_le, u64_of, Cursor, Parsed,
};
use crate::error::WireError;
use crate::manifest::ReadStatus;
use vstd::prelude::*;
use vstd::slice::{slice_subrange, slice_to_vec};

verus! {

/// The protocol a mount connection speaks: `agent-share/mount/1`.
pub const MOUNT_ALPN: &'static [u8; 19] = &[
    97u8, 103u8, 101u8, 110u8, 116u8, 45u8, 115u8, 104u8, 97u8, 114u8, 101u8, 47u8,
    109u8, 111u8, 117u8, 110u8, 116u8, 47u8, 49u8,
];

/// The protocol a `WebRTC` handshake runs over: `agent-share/webrtc-signal/1`.
pub const WEBRTC_SIGNAL_ALPN: &'static [u8; 27] = &[
    97u8, 103u8, 101u8, 110u8, 116u8, 45u8, 115u8, 104u8, 97u8, 114u8, 101u8, 47u8,
    119u8, 101u8, 98u8, 114u8, 116u8, 99u8, 45u8, 115u8, 105u8, 103u8, 110u8, 97u8,
    108u8, 47u8, 49u8,
];

/// Length of the share token that opens every request.
pub const SECRET_LEN: usize = 32;

/// Token plus operation byte.
pub const REQUEST_HEADER_LEN: usize = SECRET_LEN + 1;

/// Close code for a token that does not match an unprotected share.
pub const CLOSE_BAD_SECRET: u32 = 1;

/// Close code for a token that does not match a password-protected share.
pub const CLOSE_UNAUTHORIZED: u32 = 2;

/// Fetch the whole signed manifest.
pub const OP_MANIFEST: u8 = 1;

/// Read one byte range of one file.
pub const OP_READ: u8 = 2;

/// Subscribe to manifest changes.
pub const OP_WATCH: u8 = 3;

/// Measure the connection.
pub const OP_BENCH: u8 = 4;

/// Fetch the content root of one file.
pub const OP_HASH: u8 = 5;

/// Largest outboard hash tree a peer sends.
pub const MAX_OUTBOARD_BYTES: u32 = 64 * 1024 * 1024;

/// Fetch the ordered chunk addresses of one file.
pub const OP_CHUNK_MAP: u8 = 6;

/// Fetch one chunk by address.
pub const OP_CHUNK: u8 = 7;

/// Ask which chunks of a root a peer holds.
pub const OP_HAVE: u8 = 8;

/// Fetch the manifest changes since a version.
pub const OP_MANIFEST_SINCE: u8 = 9;

/// Length of a chunk address.
pub const CHUNK_ADDRESS_LEN: usize = 32;

/// Largest chunk.
pub const MAX_CHUNK_LEN: u32 = 64 * 1024;

/// Largest chunk map.
pub const MAX_CHUNK_MAP_BYTES: u32 = 64 * 1024 * 1024;

/// Bench request: send the payload back.
pub const BENCH_KIND_ECHO: u8 = 0;

/// Bench request: send that many bytes.
pub const BENCH_KIND_FILL: u8 = 1;

/// Largest bench echo payload.
pub const MAX_BENCH_ECHO_BYTES: u32 = 64 * 1024;

/// Largest bench fill answer.
pub const MAX_BENCH_FILL_BYTES: u32 = 1024 * 1024;

/// How long a bench measures when nobody says otherwise.
pub const DEFAULT_BENCH_DURATION_SECS: u64 = 30;

/// How often a bench pings.
pub const BENCH_ECHO_INTERVAL_SECS: u64 = 1;

/// Largest encoded manifest.
pub const MAX_MANIFEST_BYTES: u32 = 64 * 1024 * 1024;

/// Version and signature in front of a signed manifest.
pub const SIGNED_MANIFEST_PREFIX_LEN: u32 = 8 + 64;

/// Largest signed manifest.
pub const MAX_SIGNED_MANIFEST_BYTES: u32 = MAX_MANIFEST_BYTES + SIGNED_MANIFEST_PREFIX_LEN;

/// Largest single read.
pub const MAX_READ_LEN: u32 = 256 * 1024;

/// Watch frame that carries a whole manifest.
pub const WATCH_FRAME_MANIFEST: u8 = 0;

/// Watch frame that carries changes to the manifest before it.
pub const WATCH_FRAME_DELTA: u8 = 1;

/// Largest encoded delta.
pub const MAX_DELTA_BYTES: u32 = 8 * 1024 * 1024;

/// Length of a read request's body.
pub const READ_REQUEST_LEN: usize = 16;

/// Bench kind plus length.
pub const BENCH_REQUEST_PREFIX_LEN: usize = 5;

/// Largest manifest-since answer.
pub const MAX_MANIFEST_SINCE_BYTES: u32 = 4 * MAX_DELTA_BYTES;

/// Root, size and count in front of a chunk map's addresses.
pub const CHUNK_MAP_PREFIX_LEN: usize = 44;

/// A request: the token, the operation, and the operation's body.
pub open spec fn request(token: Seq<u8>, op: u8, body: Seq<u8>) -> Seq<u8> {
    token + seq![op] + body
}

/// What a serving peer sees behind the header of a request.
pub proof fn law_request_header(token: Seq<u8>, op: u8, body: Seq<u8>)
    requires
        token.len() == SECRET_LEN,
    ensures
        request(token, op, body).take(SECRET_LEN as int) == token,
        request(token, op, body)[SECRET_LEN as int] == op,
        request(token, op, body).skip(REQUEST_HEADER_LEN as int) == body,
{
    let r = request(token, op, body);
    assert(r.take(SECRET_LEN as int) =~= token);
    assert(r.skip(REQUEST_HEADER_LEN as int) =~= body);
}

fn request_header(token: &[u8; 32], op: u8) -> (out: Vec<u8>)
    ensures
        out@ == token@ + seq![op],
{
    let mut out: Vec<u8> = Vec::with_capacity(REQUEST_HEADER_LEN);
    put_bytes(&mut out, token.as_slice());
    out.push(op);
    assert(out@ =~= token@ + seq![op]);
    out
}

#[must_use]
pub fn encode_manifest_request(token: &[u8; 32]) -> (out: Vec<u8>)
    ensures
        out@ == request(token@, OP_MANIFEST, Seq::empty()),
{
    let out = request_header(token, OP_MANIFEST);
    assert(out@ =~= request(token@, OP_MANIFEST, Seq::empty()));
    out
}

#[must_use]
pub fn encode_watch_request(token: &[u8; 32]) -> (out: Vec<u8>)
    ensures
        out@ == request(token@, OP_WATCH, Seq::empty()),
{
    let out = request_header(token, OP_WATCH);
    assert(out@ =~= request(token@, OP_WATCH, Seq::empty()));
    out
}

#[must_use]
pub fn encode_manifest_since_request(token: &[u8; 32], since: u64) -> (out: Vec<u8>)
    ensures
        out@ == request(token@, OP_MANIFEST_SINCE, u64_le(since)),
{
    let mut out = request_header(token, OP_MANIFEST_SINCE);
    put_u64(&mut out, since);
    out
}

#[must_use]
pub fn encode_hash_request(token: &[u8; 32], index: u32) -> (out: Vec<u8>)
    ensures
        out@ == request(token@, OP_HASH, u32_le(index)),
{
    let mut out = request_header(token, OP_HASH);
    put_u32(&mut out, index);
    out
}

#[must_use]
pub fn encode_chunk_map_request(token: &[u8; 32], index: u32) -> (out: Vec<u8>)
    ensures
        out@ == request(token@, OP_CHUNK_MAP, u32_le(index)),
{
    let mut out = request_header(token, OP_CHUNK_MAP);
    put_u32(&mut out, index);
    out
}

#[must_use]
pub fn encode_chunk_request(token: &[u8; 32], address: &[u8; 32]) -> (out: Vec<u8>)
    ensures
        out@ == request(token@, OP_CHUNK, address@),
{
    let mut out = request_header(token, OP_CHUNK);
    put_bytes(&mut out, address.as_slice());
    out
}

#[must_use]
pub fn encode_have_request(token: &[u8; 32], root: &[u8; 32]) -> (out: Vec<u8>)
    ensures
        out@ == request(token@, OP_HAVE, root@),
{
    let mut out = request_header(token, OP_HAVE);
    put_bytes(&mut out, root.as_slice());
    out
}

/// Body of a read request: `index(u32) ‖ offset(u64) ‖ len(u32)`.
pub open spec fn read_body(index: u32, offset: u64, len: u32) -> Seq<u8> {
    u32_le(index) + u64_le(offset) + u32_le(len)
}

#[must_use]
pub fn encode_read_request(token: &[u8; 32], index: u32, offset: u64, len: u32) -> (out: Vec<u8>)
    ensures
        out@ == request(token@, OP_READ, read_body(index, offset, len)),
{
    let mut out = request_header(token, OP_READ);
    put_u32(&mut out, index);
    put_u64(&mut out, offset);
    put_u32(&mut out, len);
    assert(out@ =~= request(token@, OP_READ, read_body(index, offset, len)));
    out
}

/// Body of a bench request: `kind(1) ‖ len(u32)`, and the payload of an echo.
pub open spec fn bench_body(kind: u8, len: u32, payload: Seq<u8>) -> Seq<u8> {
    seq![kind] + u32_le(len) + payload
}

/// # Errors
/// The payload is longer than [`MAX_BENCH_ECHO_BYTES`].
pub fn encode_bench_echo_request(token: &[u8; 32], payload: &[u8]) -> (out: Result<
    Vec<u8>,
    WireError,
>)
    ensures
        match out {
            Ok(bytes) => payload@.len() <= MAX_BENCH_ECHO_BYTES && bytes@ == request(
                token@,
                OP_BENCH,
                bench_body(BENCH_KIND_ECHO, payload@.len() as u32, payload@),
            ),
            Err(e) => e == WireError::OverCap && payload@.len() > MAX_BENCH_ECHO_BYTES,
        },
{
    if payload.len() > MAX_BENCH_ECHO_BYTES as usize {
        return Err(WireError::OverCap);
    }
    let len: u32 = payload.len() as u32;
    let mut out = request_header(token, OP_BENCH);
    out.push(BENCH_KIND_ECHO);
    put_u32(&mut out, len);
    put_bytes(&mut out, payload);
    assert(out@ =~= request(token@, OP_BENCH, bench_body(BENCH_KIND_ECHO, len, payload@)));
    Ok(out)
}

/// # Errors
/// The length is zero or above [`MAX_BENCH_FILL_BYTES`].
pub fn encode_bench_fill_request(token: &[u8; 32], len: u32) -> (out: Result<Vec<u8>, WireError>)
    ensures
        match out {
            Ok(bytes) => 0 < len <= MAX_BENCH_FILL_BYTES && bytes@ == request(
                token@,
                OP_BENCH,
                bench_body(BENCH_KIND_FILL, len, Seq::empty()),
            ),
            Err(e) => if len == 0 {
                e == WireError::Empty
            } else {
                e == WireError::OverCap && len > MAX_BENCH_FILL_BYTES
            },
        },
{
    if len == 0 {
        return Err(WireError::Empty);
    }
    if len > MAX_BENCH_FILL_BYTES {
        return Err(WireError::OverCap);
    }
    let mut out = request_header(token, OP_BENCH);
    out.push(BENCH_KIND_FILL);
    put_u32(&mut out, len);
    assert(out@ =~= request(token@, OP_BENCH, bench_body(BENCH_KIND_FILL, len, Seq::empty())));
    Ok(out)
}

/// What a bench request's first bytes ask for.
pub open spec fn bench_prefix(prefix: Seq<u8>) -> Result<(u8, u32), WireError> {
    if prefix.len() < BENCH_REQUEST_PREFIX_LEN {
        Err(WireError::Truncated)
    } else if prefix[0] != BENCH_KIND_ECHO && prefix[0] != BENCH_KIND_FILL {
        Err(WireError::UnknownTag)
    } else {
        Ok((prefix[0], u32_of(prefix.skip(1))))
    }
}

/// # Errors
/// The prefix is short, or its kind is unknown.
pub fn decode_bench_request_prefix(prefix: &[u8]) -> (out: Result<(u8, u32), WireError>)
    ensures
        out == bench_prefix(prefix@),
{
    if prefix.len() < BENCH_REQUEST_PREFIX_LEN {
        return Err(WireError::Truncated);
    }
    let kind: u8 = prefix[0];
    let behind = slice_subrange(prefix, 1, prefix.len());
    assert(behind@ =~= prefix@.skip(1));
    let len: u32 = get_u32(behind);
    if kind == BENCH_KIND_ECHO || kind == BENCH_KIND_FILL {
        Ok((kind, len))
    } else {
        Err(WireError::UnknownTag)
    }
}

/// A bench request reads back as the kind and length it was built from.
pub proof fn law_bench_round_trip(kind: u8, len: u32, payload: Seq<u8>)
    requires
        kind == BENCH_KIND_ECHO || kind == BENCH_KIND_FILL,
    ensures
        bench_prefix(bench_body(kind, len, payload)) == Ok::<(u8, u32), WireError>((kind, len)),
        bench_body(kind, len, payload).skip(BENCH_REQUEST_PREFIX_LEN as int) == payload,
{
    let body = bench_body(kind, len, payload);
    assert(body.skip(1) =~= u32_le(len) + payload);
    lemma_u32_le(len, payload);
    assert(body.skip(BENCH_REQUEST_PREFIX_LEN as int) =~= payload);
}

/// The file index in the 4-byte body of a hash or a chunk map request.
pub open spec fn index_of_body(body: Seq<u8>) -> Result<u32, WireError> {
    if body.len() != 4 {
        Err(WireError::WrongLength)
    } else {
        Ok(u32_of(body))
    }
}

/// # Errors
/// The body is not exactly four bytes.
pub fn decode_hash_request(body: &[u8]) -> (out: Result<u32, WireError>)
    ensures
        out == index_of_body(body@),
{
    if body.len() != 4 {
        Err(WireError::WrongLength)
    } else {
        Ok(get_u32(body))
    }
}

/// # Errors
/// The body is not exactly four bytes.
pub fn decode_chunk_map_request(body: &[u8]) -> (out: Result<u32, WireError>)
    ensures
        out == index_of_body(body@),
{
    decode_hash_request(body)
}

/// A hash or chunk map request reads back as the index it asked for.
pub proof fn law_index_round_trip(index: u32)
    ensures
        index_of_body(u32_le(index)) == Ok::<u32, WireError>(index),
{
    lemma_u32_le(index, Seq::empty());
    assert(u32_le(index) + Seq::<u8>::empty() =~= u32_le(index));
}

/// # Errors
/// The body is not exactly one chunk address.
pub fn decode_chunk_request(body: &[u8]) -> (out: Result<[u8; 32], WireError>)
    ensures
        match out {
            Ok(address) => body@.len() == 32 && address@ == body@,
            Err(e) => e == WireError::WrongLength && body@.len() != 32,
        },
{
    if body.len() != CHUNK_ADDRESS_LEN {
        return Err(WireError::WrongLength);
    }
    assert(body@.take(32) =~= body@);
    Ok(get_array32(body))
}

/// # Errors
/// The body is not exactly one root.
pub fn decode_have_request(body: &[u8]) -> (out: Result<[u8; 32], WireError>)
    ensures
        match out {
            Ok(root) => body@.len() == 32 && root@ == body@,
            Err(e) => e == WireError::WrongLength && body@.len() != 32,
        },
{
    decode_chunk_request(body)
}

/// What a read request's body asks for.
pub open spec fn read_of_body(body: Seq<u8>) -> Result<(u32, u64, u32), WireError> {
    if body.len() != READ_REQUEST_LEN {
        Err(WireError::WrongLength)
    } else {
        Ok((u32_of(body), u64_of(body.skip(4)), u32_of(body.skip(12))))
    }
}

/// # Errors
/// The body is not exactly [`READ_REQUEST_LEN`] bytes.
pub fn decode_read_request(body: &[u8]) -> (out: Result<(u32, u64, u32), WireError>)
    ensures
        out == read_of_body(body@),
{
    if body.len() != READ_REQUEST_LEN {
        return Err(WireError::WrongLength);
    }
    let index: u32 = get_u32(body);
    let from_offset = slice_subrange(body, 4, body.len());
    assert(from_offset@ =~= body@.skip(4));
    let offset: u64 = get_u64(from_offset);
    let from_len = slice_subrange(body, 12, body.len());
    assert(from_len@ =~= body@.skip(12));
    let len: u32 = get_u32(from_len);
    Ok((index, offset, len))
}

/// A read request reads back as the range it asked for, and no other body does.
pub proof fn law_read_round_trip(index: u32, offset: u64, len: u32)
    ensures
        read_of_body(read_body(index, offset, len)) == Ok::<(u32, u64, u32), WireError>(
            (index, offset, len),
        ),
        forall|body: Seq<u8>| #[trigger]
            read_of_body(body) == Ok::<(u32, u64, u32), WireError>((index, offset, len)) ==> body
                == read_body(index, offset, len),
{
    let body = read_body(index, offset, len);
    assert(body =~= u32_le(index) + (u64_le(offset) + u32_le(len)));
    lemma_u32_le(index, u64_le(offset) + u32_le(len));
    lemma_u64_le(offset, u32_le(len));
    lemma_u32_le(len, Seq::empty());
    assert(u32_le(len) + Seq::<u8>::empty() =~= u32_le(len));
    assert(body.skip(12) =~= u32_le(len));
    assert forall|other: Seq<u8>| #[trigger]
        read_of_body(other) == Ok::<(u32, u64, u32), WireError>(
            (index, offset, len),
        ) implies other == body by {
        lemma_u32_of(other);
        lemma_u64_of(other.skip(4));
        lemma_u32_of(other.skip(12));
        assert(other.skip(4).skip(8) =~= other.skip(12));
        assert(other.skip(12).skip(4) =~= Seq::empty());
        assert(other =~= body);
    }
}

/// The body length a response header announces, for a caller that asked for
/// `requested` bytes.
pub open spec fn response_len(prefix: Seq<u8>, requested: u32) -> Result<u32, WireError> {
    if prefix.len() == 0 {
        Err(WireError::Truncated)
    } else {
        match ReadStatus::of_byte(prefix[0]) {
            None => Err(WireError::UnknownTag),
            Some(ReadStatus::BadIndex) => Err(WireError::UnknownIndex),
            Some(ReadStatus::Io) => Err(WireError::PeerIo),
            Some(ReadStatus::LenOverCap) => Err(WireError::PeerCap),
            Some(ReadStatus::Success) => if prefix.len() < 5 {
                Err(WireError::Truncated)
            } else if u32_of(prefix.skip(1)) > requested {
                Err(WireError::OverCap)
            } else {
                Ok(u32_of(prefix.skip(1)))
            },
        }
    }
}

/// # Errors
/// The header is short, its status is not success, or its length is above what
/// was requested.
pub fn decode_response_header(prefix: &[u8], requested: u32) -> (out: Result<u32, WireError>)
    ensures
        out == response_len(prefix@, requested),
{
    if prefix.len() == 0 {
        return Err(WireError::Truncated);
    }
    match ReadStatus::from_byte(prefix[0]) {
        Err(e) => {
            return Err(e);
        },
        Ok(ReadStatus::Success) => {},
        Ok(ReadStatus::BadIndex) => {
            return Err(WireError::UnknownIndex);
        },
        Ok(ReadStatus::Io) => {
            return Err(WireError::PeerIo);
        },
        Ok(ReadStatus::LenOverCap) => {
            return Err(WireError::PeerCap);
        },
    }
    if prefix.len() < 5 {
        return Err(WireError::Truncated);
    }
    let raw = slice_subrange(prefix, 1, prefix.len());
    assert(raw@ =~= prefix@.skip(1));
    let len: u32 = get_u32(raw);
    if len > requested {
        return Err(WireError::OverCap);
    }
    Ok(len)
}

/// A successful answer's bytes: `status(1) ‖ len(u32) ‖ body`.
pub open spec fn answer_bytes(body: Seq<u8>) -> Seq<u8> {
    seq![0u8] + u32_le(body.len() as u32) + body
}

/// A reader that asked for at least as much as was sent learns the exact length
/// of the body from its header, and finds the body behind it.
pub proof fn law_answer_round_trip(body: Seq<u8>, requested: u32)
    requires
        body.len() <= requested,
    ensures
        response_len(answer_bytes(body), requested) == Ok::<u32, WireError>(body.len() as u32),
        answer_bytes(body).skip(5) == body,
{
    let bytes = answer_bytes(body);
    assert(bytes.skip(1) =~= u32_le(body.len() as u32) + body);
    lemma_u32_le(body.len() as u32, body);
    assert(bytes.skip(5) =~= body);
}

/// The contents of fixed-size arrays.
pub open spec fn arrays(s: Seq<[u8; 32]>) -> Seq<Seq<u8>> {
    Seq::new(s.len(), |i: int| s[i]@)
}

/// An item that is its own bytes.
pub open spec fn verbatim() -> spec_fn(Seq<u8>) -> Seq<u8> {
    |v: Seq<u8>| v
}

/// A chunk map: `root(32) ‖ size(u64) ‖ count(u32) ‖ address(32) × count`. The
/// count saturates.
pub open spec fn chunk_map_bytes(root: Seq<u8>, size: u64, addresses: Seq<Seq<u8>>) -> Seq<u8> {
    root + u64_le(size) + u32_le(
        if addresses.len() <= u32::MAX {
            addresses.len() as u32
        } else {
            u32::MAX
        },
    ) + bytes_of(addresses, verbatim())
}

#[must_use]
pub fn encode_chunk_map(root: &[u8; 32], size: u64, addresses: &[[u8; 32]]) -> (out: Vec<u8>)
    ensures
        out@ == chunk_map_bytes(root@, size, arrays(addresses@)),
{
    let mut out: Vec<u8> = Vec::new();
    put_bytes(&mut out, root.as_slice());
    put_u64(&mut out, size);
    let count: u32 = if addresses.len() <= u32::MAX as usize {
        addresses.len() as u32
    } else {
        u32::MAX
    };
    put_u32(&mut out, count);
    let ghost prefix = out@;
    let ghost all = arrays(addresses@);
    assert(prefix =~= root@ + u64_le(size) + u32_le(count));
    assert(all.take(0) =~= Seq::empty());
    assert(prefix + Seq::<u8>::empty() =~= prefix);
    let mut i: usize = 0;
    while i < addresses.len()
        invariant
            0 <= i <= addresses@.len(),
            all == arrays(addresses@),
            out@ == prefix + bytes_of(all.take(i as int), verbatim()),
        decreases addresses@.len() - i,
    {
        put_bytes(&mut out, addresses[i].as_slice());
        proof {
            lemma_bytes_of_push(all.take(i as int), all[i as int], verbatim());
            assert(all.take(i as int + 1) =~= all.take(i as int).push(all[i as int]));
            assert(out@ =~= prefix + bytes_of(all.take(i as int + 1), verbatim()));
        }
        i += 1;
    }
    assert(all.take(i as int) =~= all);
    out
}

/// The `count` addresses behind a chunk map's prefix.
pub open spec fn addresses_of(body: Seq<u8>, count: nat) -> Seq<Seq<u8>> {
    Seq::new(count, |i: int| body.subrange(44 + 32 * i, 44 + 32 * i + 32))
}

/// What a chunk map answer says. Bytes behind the last address are ignored.
pub open spec fn chunk_map_of(body: Seq<u8>) -> Result<
    (Seq<u8>, u64, Seq<Seq<u8>>),
    WireError,
> {
    if body.len() < CHUNK_MAP_PREFIX_LEN {
        Err(WireError::Truncated)
    } else {
        let count = u32_of(body.skip(40)) as nat;
        if body.len() < 44 + 32 * count {
            Err(WireError::Truncated)
        } else {
            Ok((body.take(32), u64_of(body.skip(32)), addresses_of(body, count)))
        }
    }
}

/// # Errors
/// The answer carries fewer bytes than its count needs.
pub fn decode_chunk_map(body: &[u8]) -> (out: Result<
    ([u8; 32], u64, Vec<[u8; 32]>),
    WireError,
>)
    ensures
        match chunk_map_of(body@) {
            Err(e) => out == Err::<([u8; 32], u64, Vec<[u8; 32]>), WireError>(e),
            Ok((root, size, addresses)) => {
                &&& out is Ok
                &&& out->Ok_0.0@ == root
                &&& out->Ok_0.1 == size
                &&& arrays(out->Ok_0.2@) == addresses
            },
        },
{
    if body.len() < CHUNK_MAP_PREFIX_LEN {
        return Err(WireError::Truncated);
    }
    let root: [u8; 32] = get_array32(body);
    let from_size = slice_subrange(body, 32, body.len());
    assert(from_size@ =~= body@.skip(32));
    let size: u64 = get_u64(from_size);
    let from_count = slice_subrange(body, 40, body.len());
    assert(from_count@ =~= body@.skip(40));
    let count: usize = get_u32(from_count) as usize;
    let total: usize = body.len();
    if (total - 44) / 32 < count {
        return Err(WireError::Truncated);
    }
    let mut addresses: Vec<[u8; 32]> = Vec::new();
    let mut i: usize = 0;
    while i < count
        invariant
            0 <= i <= count,
            44 + 32 * count <= total == body@.len(),
            addresses@.len() == i,
            forall|j: int|
                0 <= j < i ==> (#[trigger] addresses@[j])@ == body@.subrange(
                    44 + 32 * j,
                    44 + 32 * j + 32,
                ),
        decreases count - i,
    {
        let start: usize = 44 + 32 * i;
        let raw = slice_subrange(body, start, start + 32);
        assert(raw@.take(32) =~= body@.subrange(44 + 32 * i, 44 + 32 * i + 32));
        addresses.push(get_array32(raw));
        i += 1;
    }
    assert(arrays(addresses@) =~= addresses_of(body@, count as nat));
    Ok((root, size, addresses))
}

pub proof fn lemma_addresses(addresses: Seq<Seq<u8>>, i: int)
    requires
        0 <= i < addresses.len(),
        forall|j: int| 0 <= j < addresses.len() ==> (#[trigger] addresses[j]).len() == 32,
    ensures
        bytes_of(addresses, verbatim()).len() == 32 * addresses.len(),
        bytes_of(addresses, verbatim()).subrange(32 * i, 32 * i + 32) == addresses[i],
    decreases addresses.len(),
{
    let front = addresses.drop_last();
    let all = bytes_of(addresses, verbatim());
    assert(all == bytes_of(front, verbatim()) + addresses.last());
    if front.len() > 0 {
        lemma_addresses(front, if i < front.len() {
            i
        } else {
            0
        });
    }
    if i < front.len() {
        assert(all.subrange(32 * i, 32 * i + 32) =~= bytes_of(front, verbatim()).subrange(
            32 * i,
            32 * i + 32,
        ));
    } else {
        assert(all.subrange(32 * i, 32 * i + 32) =~= addresses.last());
    }
}

/// A chunk map reads back as the root, size and ordered addresses it was built
/// from, whatever is appended to it.
pub proof fn law_chunk_map_round_trip(
    root: Seq<u8>,
    size: u64,
    addresses: Seq<Seq<u8>>,
    tail: Seq<u8>,
)
    requires
        root.len() == 32,
        addresses.len() <= u32::MAX,
        forall|j: int| 0 <= j < addresses.len() ==> (#[trigger] addresses[j]).len() == 32,
    ensures
        chunk_map_of(chunk_map_bytes(root, size, addresses) + tail) == Ok::<
            (Seq<u8>, u64, Seq<Seq<u8>>),
            WireError,
        >((root, size, addresses)),
{
    let count = addresses.len() as u32;
    let list = bytes_of(addresses, verbatim());
    let body = chunk_map_bytes(root, size, addresses) + tail;
    assert(body.take(32) =~= root);
    assert(body.skip(32) =~= u64_le(size) + (u32_le(count) + (list + tail)));
    lemma_u64_le(size, u32_le(count) + (list + tail));
    assert(body.skip(40) =~= u32_le(count) + (list + tail));
    lemma_u32_le(count, list + tail);
    if addresses.len() > 0 {
        lemma_addresses(addresses, 0);
    }
    assert(list.len() == 32 * addresses.len());
    assert forall|i: int| 0 <= i < addresses.len() implies #[trigger] body.subrange(
        44 + 32 * i,
        44 + 32 * i + 32,
    ) == addresses[i] by {
        lemma_addresses(addresses, i);
        assert(body.subrange(44 + 32 * i, 44 + 32 * i + 32) =~= list.subrange(
            32 * i,
            32 * i + 32,
        ));
    }
    assert(addresses_of(body, count as nat) =~= addresses);
}

/// A have answer: `chunks(u32) ‖ bitmap`.
pub open spec fn have_bytes(chunks: u32, bitmap: Seq<u8>) -> Seq<u8> {
    u32_le(chunks) + bitmap
}

#[must_use]
pub fn encode_have(chunks: u32, bitmap: &[u8]) -> (out: Vec<u8>)
    ensures
        out@ == have_bytes(chunks, bitmap@),
{
    let mut out: Vec<u8> = Vec::new();
    put_u32(&mut out, chunks);
    put_bytes(&mut out, bitmap);
    assert(out@ =~= have_bytes(chunks, bitmap@));
    out
}

/// Bytes in a bitmap of `chunks` bits.
pub open spec fn bitmap_len(chunks: u32) -> int {
    (chunks as int + 7) / 8
}

/// What a have answer says. Bytes behind the bitmap are ignored.
pub open spec fn have_of(body: Seq<u8>) -> Result<(u32, Seq<u8>), WireError> {
    if body.len() < 4 || body.len() < 4 + bitmap_len(u32_of(body)) {
        Err(WireError::Truncated)
    } else {
        Ok((u32_of(body), body.subrange(4, 4 + bitmap_len(u32_of(body)))))
    }
}

/// # Errors
/// The bitmap is shorter than its chunk count needs.
pub fn decode_have(body: &[u8]) -> (out: Result<(u32, Vec<u8>), WireError>)
    ensures
        match have_of(body@) {
            Err(e) => out == Err::<(u32, Vec<u8>), WireError>(e),
            Ok((chunks, bitmap)) => out is Ok && out->Ok_0.0 == chunks && out->Ok_0.1@ == bitmap,
        },
{
    if body.len() < 4 {
        return Err(WireError::Truncated);
    }
    let chunks: u32 = get_u32(body);
    let needed: usize = (chunks / 8) as usize + (if chunks % 8 == 0 {
        0usize
    } else {
        1usize
    });
    assert(needed == bitmap_len(chunks));
    if body.len() - 4 < needed {
        return Err(WireError::Truncated);
    }
    Ok((chunks, slice_to_vec(slice_subrange(body, 4, 4 + needed))))
}

/// A have answer whose bitmap has the length its count asks for reads back
/// unchanged, whatever is appended to it.
pub proof fn law_have_round_trip(chunks: u32, bitmap: Seq<u8>, tail: Seq<u8>)
    requires
        bitmap.len() == bitmap_len(chunks),
    ensures
        have_of(have_bytes(chunks, bitmap) + tail) == Ok::<(u32, Seq<u8>), WireError>(
            (chunks, bitmap),
        ),
{
    let body = have_bytes(chunks, bitmap) + tail;
    assert(body =~= u32_le(chunks) + (bitmap + tail));
    lemma_u32_le(chunks, bitmap + tail);
    assert(body.subrange(4, 4 + bitmap.len() as int) =~= bitmap);
}

/// What changed since a version a consumer holds: the version the changes lead
/// to, the creator's signature over the manifest they rebuild, and the encoded
/// deltas in the order they apply.
#[derive(Debug, Clone, PartialEq, Eq)]
pub struct ManifestSince {
    pub target_version: u64,
    pub signature: [u8; 64],
    pub deltas: Vec<Vec<u8>>,
}

pub struct ManifestSinceView {
    pub target_version: u64,
    pub signature: Seq<u8>,
    pub deltas: Seq<Seq<u8>>,
}

/// The contents of byte vectors.
pub open spec fn vecs(s: Seq<Vec<u8>>) -> Seq<Seq<u8>> {
    Seq::new(s.len(), |i: int| s[i]@)
}

impl View for ManifestSince {
    type V = ManifestSinceView;

    open spec fn view(&self) -> ManifestSinceView {
        ManifestSinceView {
            target_version: self.target_version,
            signature: self.signature@,
            deltas: vecs(self.deltas@),
        }
    }
}

/// One delta with its length in front: `len(u32) ‖ delta`.
pub open spec fn put_delta() -> spec_fn(Seq<u8>) -> Seq<u8> {
    |v: Seq<u8>| u32_le(v.len() as u32) + v
}

pub open spec fn parse_delta_blob(s: Seq<u8>) -> Parsed<Seq<u8>> {
    match parse_u32(s) {
        Err(e) => Err(e),
        Ok((len, behind)) => if len > MAX_DELTA_BYTES {
            Err(WireError::OverCap)
        } else {
            parse_bytes(behind, len as nat)
        },
    }
}

pub open spec fn get_delta() -> spec_fn(Seq<u8>) -> Parsed<Seq<u8>> {
    |s: Seq<u8>| parse_delta_blob(s)
}

pub open spec fn under_delta_cap() -> spec_fn(Seq<u8>) -> bool {
    |v: Seq<u8>| v.len() <= MAX_DELTA_BYTES
}

/// Wire layout: `target(u64) ‖ signature(64) ‖ count(u32) ‖ (len(u32) ‖ delta) × count`.
pub open spec fn since_bytes(v: ManifestSinceView) -> Seq<u8> {
    u64_le(v.target_version) + v.signature + u32_le(v.deltas.len() as u32) + bytes_of(
        v.deltas,
        put_delta(),
    )
}

pub open spec fn since_of(bytes: Seq<u8>) -> Result<ManifestSinceView, WireError> {
    match parse_u64(bytes) {
        Err(e) => Err(e),
        Ok((target_version, s1)) => match parse_bytes(s1, 64) {
            Err(e) => Err(e),
            Ok((signature, s2)) => match parse_u32(s2) {
                Err(e) => Err(e),
                Ok((count, s3)) => match parse_many(s3, count as nat, get_delta()) {
                    Err(e) => Err(e),
                    Ok((deltas, end)) => if end.len() > 0 {
                        Err(WireError::TrailingBytes)
                    } else {
                        Ok(ManifestSinceView { target_version, signature, deltas })
                    },
                },
            },
        },
    }
}

impl ManifestSince {
    /// Encodes this answer. The counts and lengths have to fit their fields.
    #[must_use]
    pub fn encode(&self) -> (out: Vec<u8>)
        requires
            self@.deltas.len() <= u32::MAX,
            forall|i: int|
                0 <= i < self@.deltas.len() ==> (#[trigger] self@.deltas[i]).len() <= u32::MAX,
        ensures
            out@ == since_bytes(self@),
    {
        let mut out: Vec<u8> = Vec::new();
        put_u64(&mut out, self.target_version);
        put_bytes(&mut out, self.signature.as_slice());
        put_u32(&mut out, self.deltas.len() as u32);
        let ghost prefix = out@;
        let ghost all = self@.deltas;
        assert(all.take(0) =~= Seq::empty());
        assert(prefix + Seq::<u8>::empty() =~= prefix);
        let mut i: usize = 0;
        while i < self.deltas.len()
            invariant
                0 <= i <= self.deltas@.len(),
                all == vecs(self.deltas@),
                forall|j: int| 0 <= j < all.len() ==> (#[trigger] all[j]).len() <= u32::MAX,
                out@ == prefix + bytes_of(all.take(i as int), put_delta()),
            decreases self.deltas@.len() - i,
        {
            assert(all[i as int].len() <= u32::MAX);
            put_u32(&mut out, self.deltas[i].len() as u32);
            put_bytes(&mut out, self.deltas[i].as_slice());
            proof {
                lemma_bytes_of_push(all.take(i as int), all[i as int], put_delta());
                assert(all.take(i as int + 1) =~= all.take(i as int).push(all[i as int]));
                assert(out@ =~= prefix + bytes_of(all.take(i as int + 1), put_delta()));
            }
            i += 1;
        }
        assert(all.take(i as int) =~= all);
        assert(out@ =~= since_bytes(self@));
        out
    }

    /// # Errors
    /// The answer is short, a delta is above [`MAX_DELTA_BYTES`], or bytes are
    /// left over.
    pub fn decode(bytes: &[u8]) -> (out: Result<Self, WireError>)
        ensures
            match since_of(bytes@) {
                Err(e) => out == Err::<Self, WireError>(e),
                Ok(v) => out is Ok && out->Ok_0@ == v,
            },
    {
        let mut cursor = Cursor::new(bytes);
        let target_version: u64 = match cursor.take_u64() {
            Err(e) => return Err(e),
            Ok(v) => v,
        };
        let signature: [u8; 64] = match cursor.take(64) {
            Err(e) => return Err(e),
            Ok(raw) => {
                assert(raw@.take(64) =~= raw@);
                get_array64(raw)
            },
        };
        let count: u32 = match cursor.take_u32() {
            Err(e) => return Err(e),
            Ok(v) => v,
        };
        let ghost list = cursor.rest();
        let mut deltas: Vec<Vec<u8>> = Vec::new();
        proof {
            lemma_prepend_nothing(parse_many(list, count as nat, get_delta()));
            assert(vecs(deltas@) =~= Seq::empty());
        }
        let mut i: u32 = 0;
        while i < count
            invariant
                0 <= i <= count,
                cursor.wf(),
                since_of(bytes@) == (match parse_many(list, count as nat, get_delta()) {
                    Err(e) => Err(e),
                    Ok((deltas, end)) => if end.len() > 0 {
                        Err(WireError::TrailingBytes)
                    } else {
                        Ok(ManifestSinceView { target_version, signature: signature@, deltas })
                    },
                }),
                parse_many(list, count as nat, get_delta()) == prepend(
                    vecs(deltas@),
                    parse_many(cursor.rest(), (count - i) as nat, get_delta()),
                ),
            decreases count - i,
        {
            let ghost s = cursor.rest();
            proof {
                lemma_parse_step(vecs(deltas@), s, (count - i) as nat, get_delta());
            }
            let len: u32 = match cursor.take_u32() {
                Err(e) => return Err(e),
                Ok(v) => v,
            };
            if len > MAX_DELTA_BYTES {
                return Err(WireError::OverCap);
            }
            let raw = match cursor.take(len as usize) {
                Err(e) => return Err(e),
                Ok(v) => v,
            };
            let ghost before = vecs(deltas@);
            deltas.push(slice_to_vec(raw));
            assert(vecs(deltas@) =~= before.push(raw@));
            i += 1;
        }
        if cursor.remaining() > 0 {
            assert(parse_many(cursor.rest(), 0, get_delta()) is Ok);
            return Err(WireError::TrailingBytes);
        }
        assert(vecs(deltas@) + Seq::<Seq<u8>>::empty() =~= vecs(deltas@));
        Ok(ManifestSince { target_version, signature, deltas })
    }
}

/// A manifest-since answer reads back as what was encoded.
pub proof fn law_since_round_trip(v: ManifestSinceView)
    requires
        v.signature.len() == 64,
        v.deltas.len() <= u32::MAX,
        forall|i: int|
            0 <= i < v.deltas.len() ==> (#[trigger] v.deltas[i]).len() <= MAX_DELTA_BYTES,
    ensures
        since_of(since_bytes(v)) == Ok::<ManifestSinceView, WireError>(v),
{
    let count = v.deltas.len() as u32;
    let list = bytes_of(v.deltas, put_delta());
    let s3 = list + Seq::<u8>::empty();
    let bytes = since_bytes(v);
    assert(list =~= s3);
    assert(bytes =~= u64_le(v.target_version) + (v.signature + (u32_le(count) + list)));
    lemma_u64_le(v.target_version, v.signature + (u32_le(count) + list));
    let s1 = v.signature + (u32_le(count) + list);
    assert(s1.take(64) =~= v.signature);
    assert(s1.skip(64) =~= u32_le(count) + list);
    lemma_u32_le(count, list);
    assert forall|i: int, r: Seq<u8>| 0 <= i < v.deltas.len() implies #[trigger] get_delta()(
        put_delta()(v.deltas[i]) + r,
    ) == Ok::<(Seq<u8>, Seq<u8>), WireError>((v.deltas[i], r)) by {
        let d = v.deltas[i];
        let len = d.len() as u32;
        let t = put_delta()(d) + r;
        assert(t =~= u32_le(len) + (d + r));
        lemma_u32_le(len, d + r);
        assert((d + r).take(len as int) =~= d);
        assert((d + r).skip(len as int) =~= r);
    }
    lemma_many_parses(v.deltas, Seq::empty(), put_delta(), get_delta());
}

/// An answer that decodes is, byte for byte, the encoding of what it decodes to.
pub proof fn law_since_canonical(bytes: Seq<u8>)
    ensures
        since_of(bytes) matches Ok(v) ==> since_bytes(v) == bytes,
{
    if let Ok(v) = since_of(bytes) {
        lemma_u64_of(bytes);
        let s1 = bytes.skip(8);
        let s2 = s1.skip(64);
        lemma_u32_of(s2);
        let s3 = s2.skip(4);
        let count = u32_of(s2);
        assert forall|t: Seq<u8>|
            (#[trigger] get_delta()(t)) matches Ok((d, r)) ==> under_delta_cap()(d) && t
                == put_delta()(d) + r by {
            if let Ok((d, r)) = get_delta()(t) {
                lemma_u32_of(t);
                assert(t =~= put_delta()(d) + r);
            }
        }
        lemma_many_canonical(s3, count as nat, put_delta(), get_delta(), under_delta_cap());
        let end = parse_many(s3, count as nat, get_delta())->Ok_0.1;
        assert(end =~= Seq::empty());
        assert(s1 =~= v.signature + s2);
        assert(since_bytes(v) =~= bytes);
    }
}

/// A read request is the index of the file in four bytes, the offset in eight and the
/// length in four. A bench request is its kind, the length in four bytes, and the
/// payload.
pub proof fn law_requests_are_laid_out_in_order(
    index: u32,
    offset: u64,
    len: u32,
    kind: u8,
    payload: Seq<u8>,
)
    ensures
        ({
            let body = read_body(index, offset, len);
            &&& body.len() == 16
            &&& crate::serve::number4(body) == index
            &&& crate::serve::number8(body.skip(4)) == offset
            &&& crate::serve::number4(body.skip(12)) == len
        }),
        ({
            let body = bench_body(kind, len, payload);
            &&& body.len() == 5 + payload.len()
            &&& body[0] == kind
            &&& crate::serve::number4(body.skip(1)) == len
            &&& body.skip(5) == payload
        }),
{
    let body = read_body(index, offset, len);
    crate::serve::lemma_number4(index, u64_le(offset) + u32_le(len));
    crate::serve::lemma_number8(offset, u32_le(len));
    crate::serve::lemma_number4(len, Seq::empty());
    crate::serve::lemma_number4(len, payload);
    assert(body =~= u32_le(index) + (u64_le(offset) + u32_le(len)));
    assert(body.skip(4) =~= u64_le(offset) + u32_le(len));
    assert(body.skip(12) =~= u32_le(len) + Seq::<u8>::empty());
    let bench = bench_body(kind, len, payload);
    assert(bench.skip(1) =~= u32_le(len) + payload);
    assert(bench.skip(5) =~= payload);
}

/// A request is the token, one byte for the operation, and its body. Each operation
/// has its own number.
pub proof fn law_operations_have_their_numbers(token: Seq<u8>, op: u8, body: Seq<u8>)
    requires
        token.len() == 32,
    ensures
        request(token, op, body).len() == 33 + body.len(),
        request(token, op, body).subrange(0, 32) == token,
        request(token, op, body)[32] == op,
        request(token, op, body).skip(33) == body,
        OP_MANIFEST == 1 && OP_READ == 2 && OP_WATCH == 3 && OP_BENCH == 4 && OP_HASH == 5
            && OP_CHUNK_MAP == 6 && OP_CHUNK == 7 && OP_HAVE == 8 && OP_MANIFEST_SINCE == 9,
{
    assert(request(token, op, body).subrange(0, 32) =~= token);
    assert(request(token, op, body).skip(33) =~= body);
}

/// A good answer announces its length, which counts where no more than was asked for
/// is announced. Every other status has its own error, and a short header is none.
pub proof fn law_an_answer_announces_its_length(prefix: Seq<u8>, requested: u32)
    ensures
        prefix.len() == 0 ==> response_len(prefix, requested) == Err::<u32, WireError>(
            WireError::Truncated,
        ),
        prefix.len() > 0 ==> {
            let out = response_len(prefix, requested);
            &&& prefix[0] == 1 ==> out == Err::<u32, WireError>(WireError::UnknownIndex)
            &&& prefix[0] == 2 ==> out == Err::<u32, WireError>(WireError::PeerIo)
            &&& prefix[0] == 3 ==> out == Err::<u32, WireError>(WireError::PeerCap)
            &&& prefix[0] > 3 ==> out == Err::<u32, WireError>(WireError::UnknownTag)
            &&& prefix[0] == 0 && prefix.len() < 5 ==> out == Err::<u32, WireError>(
                WireError::Truncated,
            )
            &&& prefix[0] == 0 && prefix.len() >= 5 ==> {
                let len = crate::serve::number4(prefix.skip(1));
                &&& len <= requested ==> (out matches Ok(n) && n == len)
                &&& len > requested ==> out == Err::<u32, WireError>(WireError::OverCap)
            }
        },
{
    if prefix.len() >= 5 {
        let rest = prefix.skip(1);
        lemma_u32_of(rest);
        crate::serve::lemma_number4(u32_of(rest), rest.skip(4));
    }
}

/// What is held of a file is said by the number of its chunks in four bytes and one
/// bit for each, in as few bytes as hold them. A shorter answer is refused.
pub proof fn law_a_holding_is_a_bit_for_each_chunk(chunks: u32, bitmap: Seq<u8>, body: Seq<u8>)
    ensures
        crate::serve::number4(have_bytes(chunks, bitmap)) == chunks,
        have_bytes(chunks, bitmap).skip(4) == bitmap,
        8 * (bitmap_len(chunks) - 1) < chunks <= 8 * bitmap_len(chunks),
        body.len() < 4 ==> have_of(body) == Err::<(u32, Seq<u8>), WireError>(WireError::Truncated),
        body.len() >= 4 && 8 * (body.len() - 4) < crate::serve::number4(body) ==> have_of(body)
            == Err::<(u32, Seq<u8>), WireError>(WireError::Truncated),
        body.len() >= 4 && 8 * (body.len() - 4) >= crate::serve::number4(body) ==> (have_of(
            body,
        ) matches Ok((n, bits)) && n == crate::serve::number4(body) && bits == body.subrange(
            4,
            4 + bitmap_len(n),
        )),
{
    crate::serve::lemma_number4(chunks, bitmap);
    assert(have_bytes(chunks, bitmap).skip(4) =~= bitmap);
    if body.len() >= 4 {
        lemma_u32_of(body);
        crate::serve::lemma_number4(u32_of(body), body.skip(4));
    }
}

/// An answer with changes is the version they lead to in eight bytes, a signature of
/// sixty-four, the number of the changes in four, and each of them behind its length
/// in four.
pub proof fn law_changes_are_laid_out_in_order(v: ManifestSinceView)
    requires
        v.signature.len() == 64,
        v.deltas.len() <= u32::MAX,
    ensures
        ({
            let bytes = since_bytes(v);
            &&& crate::serve::number8(bytes) == v.target_version
            &&& bytes.subrange(8, 72) == v.signature
            &&& crate::serve::number4(bytes.skip(72)) == v.deltas.len()
            &&& bytes.skip(76) == v.deltas.map_values(
                |delta: Seq<u8>| u32_le(delta.len() as u32) + delta,
            ).flatten()
        }),
{
    let bytes = since_bytes(v);
    let count = v.deltas.len() as u32;
    let list = bytes_of(v.deltas, put_delta());
    crate::serve::lemma_number8(v.target_version, v.signature + (u32_le(count) + list));
    crate::serve::lemma_number4(count, list);
    assert(bytes =~= u64_le(v.target_version) + (v.signature + (u32_le(count) + list)));
    assert(bytes.subrange(8, 72) =~= v.signature);
    assert(bytes.skip(72) =~= u32_le(count) + list);
    assert(bytes.skip(76) =~= list);
    crate::codec::law_items_are_written_in_order(v.deltas, put_delta());
    assert(v.deltas.map_values(|delta: Seq<u8>| u32_le(delta.len() as u32) + delta)
        =~= v.deltas.map_values(put_delta()));
}

} // verus!
