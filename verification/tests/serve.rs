use agent_share::auth::ShareAuth;
use agent_share::chunks::{ChunkMap, Coverage};
use agent_share::framing::{
    decode_chunk_map, decode_have, decode_response_header, encode_chunk_map_request,
    encode_chunk_request, encode_have_request, encode_manifest_request, encode_read_request,
    encode_watch_request, CLOSE_BAD_SECRET, MAX_MANIFEST_BYTES, MAX_READ_LEN,
    REQUEST_HEADER_LEN, SECRET_LEN,
};
use agent_share::manifest::ReadStatus;
use agent_share::serve::{serve_stream, ServeAction, ServeEvent, ServeState};

fn token() -> [u8; SECRET_LEN] {
    [5u8; SECRET_LEN]
}

fn auth() -> ShareAuth {
    ShareAuth::new(&token(), None)
}

fn header(request: &[u8]) -> ServeEvent {
    let mut bytes = [0u8; REQUEST_HEADER_LEN];
    bytes.copy_from_slice(&request[..REQUEST_HEADER_LEN]);
    ServeEvent::Header(Some(bytes))
}

/// Opens a stream with a request, up to the question for the source.
fn open(request: &[u8]) -> (ServeState, ServeAction) {
    let (state, action) = serve_stream(&auth(), ServeState::Header, header(request));
    match action {
        ServeAction::ReadBody(len) => {
            let body = request[REQUEST_HEADER_LEN..].to_vec();
            assert_eq!(body.len(), len);
            serve_stream(&auth(), state, ServeEvent::Body(Some(body)))
        }
        other => (state, other),
    }
}

fn written(action: ServeAction) -> Vec<u8> {
    match action {
        ServeAction::Write(bytes) => bytes,
        other => panic!("expected a write, got {other:?}"),
    }
}

#[test]
fn the_dispatch_entry_point_is_reachable() {
    let _ = serve_stream;
    let (state, action) = serve_stream(&auth(), ServeState::Header, ServeEvent::Header(None));
    assert_eq!(state, ServeState::Done);
    assert_eq!(action, ServeAction::Drop);
}

/// Every request leads to the one question it names.
#[test]
fn each_op_asks_its_question() {
    assert_eq!(open(&encode_manifest_request(&token())).1, ServeAction::AskManifest);
    assert_eq!(open(&encode_watch_request(&token())).1, ServeAction::Subscribe);
    assert_eq!(
        open(&encode_read_request(&token(), 3, 70, 16)).1,
        ServeAction::AskRead(3, 70, 16)
    );
    assert_eq!(open(&encode_chunk_map_request(&token(), 4)).1, ServeAction::AskRow(4));
    assert_eq!(
        open(&encode_chunk_request(&token(), &[8; 32])).1,
        ServeAction::AskChunk([8; 32])
    );
    assert_eq!(
        open(&encode_have_request(&token(), &[9; 32])).1,
        ServeAction::AskHave([9; 32])
    );
}

/// A wrong token closes the connection; an unknown op drops only the stream.
#[test]
fn a_wrong_token_closes_and_an_unknown_op_drops() {
    let (state, action) =
        serve_stream(&auth(), ServeState::Header, header(&encode_manifest_request(&[6; 32])));
    assert_eq!(state, ServeState::Done);
    assert_eq!(action, ServeAction::Close(CLOSE_BAD_SECRET, b"bad secret".to_vec()));
    let mut odd = encode_manifest_request(&token());
    odd[SECRET_LEN] = 200;
    assert_eq!(open(&odd), (ServeState::Done, ServeAction::Drop));
}

/// A read over the cap is refused without asking the source.
#[test]
fn a_read_over_the_cap_never_reaches_the_source() {
    let (_, action) = open(&encode_read_request(&token(), 0, 0, MAX_READ_LEN + 1));
    let bytes = written(action);
    assert_eq!(bytes[0], ReadStatus::LenOverCap.to_byte());
    assert_eq!(bytes[1..], [0, 0, 0, 0]);
}

/// What a source answers, a consumer reads back.
#[test]
fn answers_are_read_back() {
    let (state, _) = open(&encode_manifest_request(&token()));
    let (state, action) =
        serve_stream(&auth(), state, ServeEvent::Manifest(Some(b"envelope".to_vec())));
    let bytes = written(action);
    assert_eq!(decode_response_header(&bytes[..5], MAX_MANIFEST_BYTES), Ok(8));
    assert_eq!(&bytes[5..], b"envelope");
    assert_eq!(serve_stream(&auth(), state, ServeEvent::Written(true)).1, ServeAction::Settle);

    let row = ChunkMap { root: [1; 32], size: 9, leaves: vec![[2; 32]] };
    let (state, _) = open(&encode_chunk_map_request(&token(), 4));
    let (_, action) = serve_stream(&auth(), state, ServeEvent::Row(Some(row)));
    let bytes = written(action);
    assert_eq!(decode_chunk_map(&bytes[5..]).expect("row"), ([1; 32], 9, vec![[2; 32]]));

    let mut coverage = Coverage::empty(10);
    coverage.insert(0);
    coverage.insert(9);
    let (state, _) = open(&encode_have_request(&token(), &[9; 32]));
    let (_, action) = serve_stream(&auth(), state, ServeEvent::Have(Some(coverage)));
    let bytes = written(action);
    assert_eq!(decode_have(&bytes[5..]).expect("have"), (10, vec![1, 2]));
}

/// Every "I cannot vouch for that" is the same one byte.
#[test]
fn refusals_look_alike() {
    for (request, event) in [
        (encode_chunk_map_request(&token(), 4), ServeEvent::Row(None)),
        (encode_chunk_request(&token(), &[8; 32]), ServeEvent::Chunk(None)),
        (encode_have_request(&token(), &[9; 32]), ServeEvent::Have(None)),
    ] {
        let (state, _) = open(&request);
        let (state, action) = serve_stream(&auth(), state, event);
        assert_eq!(written(action), vec![ReadStatus::BadIndex.to_byte()]);
        assert_eq!(serve_stream(&auth(), state, ServeEvent::Written(true)).1, ServeAction::Finish);
    }
}

/// A watch writes its opening frame, then every frame that follows, and ends
/// when the source or the peer does.
#[test]
fn a_watch_streams_frames() {
    let (state, _) = open(&encode_watch_request(&token()));
    let (state, action) = serve_stream(&auth(), state, ServeEvent::Subscribed(Some(vec![0, 1])));
    assert_eq!(written(action)[5..], [0, 1]);
    let (state, action) = serve_stream(&auth(), state, ServeEvent::Written(true));
    assert_eq!(action, ServeAction::NextFrame);
    let (state, action) = serve_stream(&auth(), state, ServeEvent::Frame(Some(vec![1, 2, 3])));
    assert_eq!(written(action), vec![0, 3, 0, 0, 0, 1, 2, 3]);
    let (state, action) = serve_stream(&auth(), state, ServeEvent::Written(true));
    assert_eq!(action, ServeAction::NextFrame);
    let (state, _) = serve_stream(&auth(), state, ServeEvent::Frame(None));
    assert_eq!(state, ServeState::Done);
}
