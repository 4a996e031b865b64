use agent_share::error::WireError;
use agent_share::framing::{
    decode_bench_request_prefix, decode_chunk_map, decode_chunk_map_request, decode_chunk_request,
    decode_have, decode_have_request, decode_hash_request, decode_read_request,
    decode_response_header, encode_bench_echo_request, encode_bench_fill_request, encode_chunk_map,
    encode_chunk_map_request, encode_chunk_request, encode_have, encode_have_request,
    encode_hash_request, encode_manifest_request, encode_manifest_since_request,
    encode_read_request, encode_watch_request, ManifestSince, BENCH_ECHO_INTERVAL_SECS,
    BENCH_KIND_ECHO, BENCH_KIND_FILL, CHUNK_ADDRESS_LEN, CLOSE_BAD_SECRET, CLOSE_UNAUTHORIZED,
    DEFAULT_BENCH_DURATION_SECS, MAX_BENCH_ECHO_BYTES, MAX_BENCH_FILL_BYTES, MAX_CHUNK_LEN,
    MAX_CHUNK_MAP_BYTES, MAX_DELTA_BYTES, MAX_MANIFEST_BYTES, MAX_OUTBOARD_BYTES, MAX_READ_LEN,
    MOUNT_ALPN, OP_BENCH, OP_CHUNK, OP_CHUNK_MAP, OP_HASH, OP_HAVE, OP_MANIFEST,
    OP_MANIFEST_SINCE, OP_READ, OP_WATCH, REQUEST_HEADER_LEN, SECRET_LEN, WEBRTC_SIGNAL_ALPN,
};
use agent_share::manifest::ReadStatus;

#[test]
fn a_hash_request_round_trips() {
    let secret = [3u8; SECRET_LEN];
    let request = encode_hash_request(&secret, 42);
    assert_eq!(&request[..SECRET_LEN], &secret);
    assert_eq!(request[SECRET_LEN], OP_HASH);
    assert_eq!(
        decode_hash_request(&request[REQUEST_HEADER_LEN..]).expect("decode"),
        42
    );
}

#[test]
fn a_malformed_hash_request_is_rejected() {
    assert!(decode_hash_request(&[]).is_err());
    assert!(decode_hash_request(&[0, 0, 0]).is_err(), "too short");
    assert!(decode_hash_request(&[0, 0, 0, 0, 0]).is_err(), "too long");
}

#[test]
fn wire_constants_are_pinned() {
    assert_eq!(MOUNT_ALPN, b"agent-share/mount/1");
    assert_eq!(WEBRTC_SIGNAL_ALPN, b"agent-share/webrtc-signal/1");
    assert_eq!(OP_MANIFEST, 1);
    assert_eq!(OP_READ, 2);
    assert_eq!(OP_WATCH, 3);
    assert_eq!(OP_BENCH, 4);
    assert_eq!(OP_HASH, 5);
    assert_eq!(MAX_OUTBOARD_BYTES, 64 * 1024 * 1024);
    assert_eq!(BENCH_KIND_ECHO, 0);
    assert_eq!(BENCH_KIND_FILL, 1);
    assert_eq!(MAX_BENCH_ECHO_BYTES, 64 * 1024);
    assert_eq!(MAX_BENCH_FILL_BYTES, 1024 * 1024);
    assert_eq!(DEFAULT_BENCH_DURATION_SECS, 30);
    assert_eq!(BENCH_ECHO_INTERVAL_SECS, 1);
    assert_eq!(SECRET_LEN, 32);
    // `2` is what a consumer reads as "wrong password".
    assert_eq!(CLOSE_BAD_SECRET, 1);
    assert_eq!(CLOSE_UNAUTHORIZED, 2);
    assert_eq!(MAX_MANIFEST_BYTES, 64 * 1024 * 1024);
    assert_eq!(MAX_READ_LEN, 256 * 1024);
    assert_eq!(MAX_DELTA_BYTES, 8 * 1024 * 1024);
}

#[test]
fn manifest_request_is_header_only() {
    let request = encode_manifest_request(&[7u8; SECRET_LEN]);
    assert_eq!(request.len(), SECRET_LEN + 1);
    assert_eq!(&request[..SECRET_LEN], &[7u8; SECRET_LEN]);
    assert_eq!(request[SECRET_LEN], OP_MANIFEST);
}

#[test]
fn read_request_round_trips() {
    let request = encode_read_request(&[3u8; SECRET_LEN], 42, 1_000_000, 4096);
    assert_eq!(request[SECRET_LEN], OP_READ);
    let (index, offset, len) =
        decode_read_request(&request[SECRET_LEN + 1..]).expect("decode body");
    assert_eq!((index, offset, len), (42, 1_000_000, 4096));
}

#[test]
fn read_request_rejects_a_wrong_sized_body() {
    assert!(decode_read_request(&[0u8; 15]).is_err());
    assert!(decode_read_request(&[0u8; 17]).is_err());
}

#[test]
fn bench_echo_request_round_trips() {
    let payload = b"ping";
    let request = encode_bench_echo_request(&[9u8; SECRET_LEN], payload).expect("encode");
    assert_eq!(request[SECRET_LEN], OP_BENCH);
    let (kind, len) = decode_bench_request_prefix(&request[SECRET_LEN + 1..]).expect("prefix");
    assert_eq!((kind, len), (BENCH_KIND_ECHO, 4));
    assert_eq!(&request[SECRET_LEN + 1 + 5..], payload);
}

#[test]
fn bench_fill_request_encodes() {
    let request = encode_bench_fill_request(&[1u8; SECRET_LEN], 1024).expect("encode");
    assert_eq!(request[SECRET_LEN], OP_BENCH);
    let (kind, len) = decode_bench_request_prefix(&request[SECRET_LEN + 1..]).expect("prefix");
    assert_eq!((kind, len), (BENCH_KIND_FILL, 1024));
}

#[test]
fn bench_rejects_oversize_echo_and_fill() {
    let big = vec![0u8; (MAX_BENCH_ECHO_BYTES as usize) + 1];
    assert!(encode_bench_echo_request(&[0u8; SECRET_LEN], &big).is_err());
    assert!(encode_bench_fill_request(&[0u8; SECRET_LEN], 0).is_err());
    assert!(encode_bench_fill_request(&[0u8; SECRET_LEN], MAX_BENCH_FILL_BYTES + 1).is_err());
}

#[test]
fn response_header_reads_the_length() {
    let mut prefix = vec![ReadStatus::Success.to_byte()];
    prefix.extend_from_slice(&99u32.to_le_bytes());
    assert_eq!(decode_response_header(&prefix, 100).expect("ok"), 99);
}

#[test]
fn response_header_rejects_overlong_and_failed_reads() {
    let mut over = vec![ReadStatus::Success.to_byte()];
    over.extend_from_slice(&101u32.to_le_bytes());
    assert!(
        decode_response_header(&over, 100).is_err(),
        "a producer must not exceed the requested length"
    );

    for status in [ReadStatus::BadIndex, ReadStatus::Io, ReadStatus::LenOverCap] {
        let mut failed = vec![status.to_byte()];
        failed.extend_from_slice(&0u32.to_le_bytes());
        assert!(decode_response_header(&failed, 100).is_err(), "{status:?}");
    }

    assert!(decode_response_header(&[], 100).is_err(), "empty prefix");
    assert!(
        decode_response_header(&[ReadStatus::Success.to_byte(), 0, 0], 100).is_err(),
        "truncated length"
    );
}

fn token() -> [u8; SECRET_LEN] {
    [7u8; SECRET_LEN]
}

fn address(seed: u8) -> [u8; 32] {
    [seed; 32]
}

#[test]
fn the_op_bytes_are_pinned() {
    assert_eq!(OP_CHUNK_MAP, 6);
    assert_eq!(OP_CHUNK, 7);
    assert_eq!(OP_HAVE, 8);
    assert_eq!(CHUNK_ADDRESS_LEN, 32);
    assert_eq!(MAX_CHUNK_LEN, 64 * 1024);
    assert_eq!(MAX_CHUNK_MAP_BYTES, 64 * 1024 * 1024);
}

#[test]
fn a_chunk_map_request_round_trips() {
    let request = encode_chunk_map_request(&token(), 42);
    assert_eq!(request[SECRET_LEN], OP_CHUNK_MAP);
    assert_eq!(
        decode_chunk_map_request(&request[REQUEST_HEADER_LEN..]).expect("decode"),
        42
    );
    assert!(decode_chunk_map_request(&[1, 2]).is_err());
}

#[test]
fn a_chunk_map_round_trips() {
    let addresses = vec![address(1), address(2), address(3)];
    let body = encode_chunk_map(&address(9), 131_073, &addresses);
    let (root, size, decoded) = decode_chunk_map(&body).expect("decode");
    assert_eq!(root, address(9));
    assert_eq!(size, 131_073);
    assert_eq!(decoded, addresses);
}

#[test]
fn an_empty_chunk_map_round_trips() {
    let body = encode_chunk_map(&address(4), 0, &[]);
    let (root, size, decoded) = decode_chunk_map(&body).expect("decode");
    assert_eq!(root, address(4));
    assert_eq!(size, 0);
    assert!(decoded.is_empty());
}

/// The length is checked before anything is allocated.
#[test]
fn a_chunk_map_claiming_more_than_it_carries_is_refused() {
    let mut body = encode_chunk_map(&address(5), 64 * 1024, &[address(6)]);
    body[40..44].copy_from_slice(&u32::MAX.to_le_bytes());
    assert!(decode_chunk_map(&body).is_err());
    // Truncated bodies too.
    assert!(decode_chunk_map(&body[..10]).is_err());
    assert!(decode_chunk_map(&[]).is_err());
}

#[test]
fn a_chunk_request_round_trips() {
    let request = encode_chunk_request(&token(), &address(11));
    assert_eq!(request[SECRET_LEN], OP_CHUNK);
    assert_eq!(
        decode_chunk_request(&request[REQUEST_HEADER_LEN..]).expect("decode"),
        address(11)
    );
    assert!(decode_chunk_request(&[0u8; 31]).is_err());
    assert!(decode_chunk_request(&[0u8; 33]).is_err());
}

/// The request carries no file and no offset.
#[test]
fn a_chunk_request_names_only_an_address() {
    let request = encode_chunk_request(&token(), &address(12));
    assert_eq!(request.len(), REQUEST_HEADER_LEN + CHUNK_ADDRESS_LEN);
}

#[test]
fn a_have_request_round_trips() {
    let request = encode_have_request(&token(), &address(13));
    assert_eq!(request[SECRET_LEN], OP_HAVE);
    assert_eq!(
        decode_have_request(&request[REQUEST_HEADER_LEN..]).expect("decode"),
        address(13)
    );
    assert!(decode_have_request(&[0u8; 8]).is_err());
}

#[test]
fn a_have_answer_round_trips() {
    // 10 chunks, holding 0, 3 and 9.
    let bitmap = [0b0000_1001u8, 0b0000_0010u8];
    let body = encode_have(10, &bitmap);
    let (chunks, decoded) = decode_have(&body).expect("decode");
    assert_eq!(chunks, 10);
    assert_eq!(decoded, bitmap);
}

#[test]
fn a_have_answer_with_a_short_bitmap_is_refused() {
    let body = encode_have(64, &[0u8; 2]);
    assert!(decode_have(&body).is_err());
    assert!(decode_have(&[1, 2]).is_err());
}

#[test]
fn a_have_answer_for_an_empty_file_round_trips() {
    let body = encode_have(0, &[]);
    let (chunks, bitmap) = decode_have(&body).expect("decode");
    assert_eq!(chunks, 0);
    assert!(bitmap.is_empty());
}

#[test]
fn watch_and_since_requests_carry_their_ops() {
    let watch = encode_watch_request(&token());
    assert_eq!(watch.len(), REQUEST_HEADER_LEN);
    assert_eq!(watch[SECRET_LEN], OP_WATCH);
    let since = encode_manifest_since_request(&token(), 0x0201);
    assert_eq!(since[SECRET_LEN], OP_MANIFEST_SINCE);
    assert_eq!(since[REQUEST_HEADER_LEN..], [1, 2, 0, 0, 0, 0, 0, 0]);
}

#[test]
fn an_answer_since_a_version_round_trips() {
    let answer = ManifestSince {
        target_version: 7,
        signature: [3; 64],
        deltas: vec![vec![], vec![1, 2, 3]],
    };
    let bytes = answer.encode();
    assert_eq!(ManifestSince::decode(&bytes).expect("decode"), answer);
    assert!(ManifestSince::decode(&bytes[..bytes.len() - 1]).is_err());
    let mut longer = bytes;
    longer.push(0);
    assert_eq!(ManifestSince::decode(&longer), Err(WireError::TrailingBytes));
}

#[test]
fn each_refused_status_has_its_error() {
    let header = |status: ReadStatus| {
        let mut prefix = vec![status.to_byte()];
        prefix.extend_from_slice(&0u32.to_le_bytes());
        prefix
    };
    assert_eq!(
        decode_response_header(&header(ReadStatus::BadIndex), 1),
        Err(WireError::UnknownIndex)
    );
    assert_eq!(decode_response_header(&header(ReadStatus::Io), 1), Err(WireError::PeerIo));
    assert_eq!(
        decode_response_header(&header(ReadStatus::LenOverCap), 1),
        Err(WireError::PeerCap)
    );
    assert_eq!(decode_response_header(&[9, 0, 0, 0, 0], 1), Err(WireError::UnknownTag));
    assert_eq!(decode_response_header(&[0, 2, 0, 0, 0], 1), Err(WireError::OverCap));
}
