use agent_share::authorship::SignedManifest;
use agent_share::bench::{
    bench_kind, bench_path, bench_route, bench_ticket, bench_window, serve_bench_stream,
    window_step, BenchAction, BenchEvent, BenchPath, BenchRoute, BenchState, Window, WindowAction,
    WindowEvent, WindowWork,
};
use agent_share::chunks::ChunkMap;
use agent_share::fetch::open_envelope;
use agent_share::follow::Follow;
use agent_share::framing::{
    decode_response_header, encode_bench_echo_request, encode_bench_fill_request,
    CLOSE_BAD_SECRET, MAX_READ_LEN, MOUNT_ALPN, WEBRTC_SIGNAL_ALPN,
};
use agent_share::listing::{
    parse_listing, safe_rel_path, ListedFile, ListingError, Scanned, DIR_MODE, FILE_MODE,
};
use agent_share::lookup::LookupOpts;
use agent_share::manifest::ReadStatus;
use agent_share::produce::{
    clamp_read, have_of, share_ticket, Attempt, FileRead, RowBuild, ShareProducer, StartError,
};
use agent_share::ticket::{
    TICKET_FLAG_PASSWORD, TICKET_KIND_BENCH_QUIC, TICKET_KIND_BENCH_RELAY,
    TICKET_KIND_BENCH_WEBRTC, TICKET_KIND_SHARE,
};

#[test]
fn only_names_make_a_safe_path() {
    for path in ["a", "a/b", "a/b.txt", ".hidden", "...", "a b/ü"] {
        assert!(safe_rel_path(path), "{path}");
    }
    for path in ["", "/a", "a/", "a//b", ".", "..", "a/../b", "./a", "a/.."] {
        assert!(!safe_rel_path(path), "{path}");
    }
}

fn listed(path: &str, size: u64, handle: u32) -> ListedFile<u32> {
    ListedFile {
        rel_path: Some(path.to_owned()),
        size: Some(size),
        mtime: None,
        handle: Some(handle),
    }
}

#[test]
fn a_listing_keeps_its_safe_entries() {
    let mut timed = listed("b/c", 3, 11);
    timed.mtime = Some(77);
    let scan = parse_listing(
        vec![Some("b".to_owned()), Some("../up".to_owned())],
        vec![listed("a", 1, 10), listed("../x", 9, 99), timed],
    )
    .expect("a listing");
    assert_eq!(scan.dirs.len(), 1);
    assert_eq!(scan.dirs[0].rel_path, "b");
    assert_eq!(scan.dirs[0].mode, DIR_MODE);
    assert_eq!(DIR_MODE, 0o755);
    let names: Vec<(&str, u64, u32, i64, u32)> = scan
        .files
        .iter()
        .map(|(f, h)| (f.rel_path.as_str(), f.size, f.mode, f.mtime, *h))
        .collect();
    assert_eq!(names, vec![("a", 1, FILE_MODE, 0, 10), ("b/c", 3, FILE_MODE, 77, 11)]);
    assert_eq!(FILE_MODE, 0o644);
}

#[test]
fn each_refusal_of_a_scan_has_its_name() {
    let refused = |dirs: Vec<Option<String>>, files: Vec<ListedFile<u32>>| {
        parse_listing(dirs, files).err().expect("refused")
    };
    assert_eq!(refused(vec![None], vec![]), ListingError::DirPath);
    let mut nameless = listed("a", 1, 1);
    nameless.rel_path = None;
    assert_eq!(refused(vec![], vec![nameless]), ListingError::RelPath);
    let mut sizeless = listed("a", 1, 1);
    sizeless.size = None;
    assert_eq!(refused(vec![], vec![sizeless]), ListingError::Size);
    let mut handleless = listed("a", 1, 1);
    handleless.handle = None;
    assert_eq!(refused(vec![], vec![handleless]), ListingError::Handle);
    assert_eq!(ListingError::DirPath.message(), "dir path must be a string");
    assert_eq!(ListingError::RelPath.message(), "file.rel_path missing");
    assert_eq!(ListingError::Size.message(), "file.size missing");
    assert_eq!(
        ListingError::Handle.message(),
        "file.handle must be a FileSystemFileHandle"
    );
}

fn scan(files: &[(&str, u64, u32)]) -> Scanned<u32> {
    parse_listing(
        vec![],
        files.iter().map(|(path, size, handle)| listed(path, *size, *handle)).collect(),
    )
    .expect("a listing")
}

fn producer(files: &[(&str, u64, u32)]) -> ShareProducer<u32> {
    ShareProducer::start(scan(files)).ok().expect("a share")
}

#[test]
fn an_empty_share_does_not_start() {
    let refused = ShareProducer::start(scan(&[])).err();
    assert_eq!(refused, Some(StartError::Empty));
    assert_eq!(StartError::Empty.message(), "share is empty");
    assert_eq!(StartError::TooLarge.message(), "tree too large to serve");
}

/// A follower of the producer holds what it serves, before and after a change.
#[test]
fn an_update_reaches_its_followers() {
    let mut share = producer(&[("a", 1, 10), ("b", 2, 20)]);
    assert_eq!((share.files(), share.bytes()), (2, 3));
    let envelope = share.manifest_envelope();
    let (_, manifest) = open_envelope(&envelope, None, 0).expect("an envelope");
    assert_eq!(manifest.files.len(), 2);
    let held = SignedManifest::decode(&envelope).expect("an envelope");
    let mut follow = Follow::begin(true, held).expect("the origin is followed");
    let opening = share.subscribe();
    assert_eq!(follow.frame(&opening, None), Ok(manifest));
    assert!(share.update(scan(&[("a", 1, 10), ("b", 2, 20)])).is_none());
    let long = "x".repeat(65_536);
    assert!(!share.can_update(&scan(&[(long.as_str(), 5, 11)])));
    assert!(share.can_update(&scan(&[("a", 5, 11)])));
    let frame = share.update(scan(&[("a", 5, 11)])).expect("a change");
    let tree = follow.frame(&frame, None).expect("a frame");
    assert_eq!(tree.files[0].size, 5);
    assert!(tree.files[1].is_tombstone());
    assert_eq!(share.slot(0), Some(&11));
    assert_eq!(share.slot(1), None);
}

#[test]
fn a_read_goes_through_its_handle_and_is_tried_twice() {
    let share = producer(&[("a", 1, 10)]);
    assert!(matches!(share.answer_read(0, 16), FileRead::Through(10)));
    assert!(matches!(
        share.answer_read(1, 16),
        FileRead::Answer(ReadStatus::BadIndex, _)
    ));
    assert!(matches!(
        share.answer_read(0, MAX_READ_LEN + 1),
        FileRead::Answer(ReadStatus::LenOverCap, _)
    ));
    match share.resume_read(0, Attempt::First, Some(vec![1, 2])) {
        FileRead::Answer(ReadStatus::Success, bytes) => assert_eq!(bytes, vec![1, 2]),
        _ => panic!("the bytes are the answer"),
    }
    assert!(matches!(share.resume_read(0, Attempt::First, None), FileRead::Through(10)));
    assert!(matches!(
        share.resume_read(0, Attempt::Second, None),
        FileRead::Answer(ReadStatus::Io, _)
    ));
}

#[test]
fn a_read_is_clamped_to_the_live_file() {
    assert_eq!(clamp_read(100, 10, 20), Some((10, 30)));
    assert_eq!(clamp_read(100, 90, 20), Some((90, 100)));
    assert_eq!(clamp_read(100, 100, 20), None);
    assert_eq!(clamp_read(100, 10, 0), None);
    assert_eq!(clamp_read(u64::MAX, u64::MAX - 1, 20), Some((u64::MAX - 1, u64::MAX)));
}

fn row(seed: u8, size: u64) -> ChunkMap {
    let chunks = size.div_ceil(65_536) as u8;
    ChunkMap {
        root: [seed; 32],
        size,
        leaves: (0..chunks).map(|i| [seed + 1 + i; 32]).collect(),
    }
}

/// A row answers for its chunks until the file under it changed.
#[test]
fn a_stale_row_is_dropped() {
    let mut share = producer(&[("a", 65_537, 10)]);
    assert!(share.cached_row(0, 65_537).is_none());
    let kept = share.keep_row(0, 65_537, row(1, 65_537)).expect("the row fits the file");
    assert_eq!(kept, row(1, 65_537));
    assert_eq!(share.cached_row(0, 65_537), Some(row(1, 65_537)));
    assert!(share.cached_row(0, 9).is_none(), "the file has another size now");
    assert_eq!(share.locate_root(&[1; 32]), Some(0));
    assert_eq!(share.locate_chunk(&[3; 32]), Some((0, 65_536, 1)));
    assert_eq!(share.locate_chunk(&[9; 32]), None);
    assert_eq!(share.check_chunk(0, &[3; 32], &[3; 32], vec![7]), Some(vec![7]));
    assert_eq!(share.check_chunk(0, &[3; 32], &[4; 32], vec![8]), None);
    assert_eq!(share.locate_chunk(&[3; 32]), None, "a row that lied is gone");
}

#[test]
fn a_producer_has_the_whole_of_what_it_has_a_row_for() {
    let whole = have_of(&[1; 32], Some(&row(1, 65_537))).expect("the row is of that root");
    assert_eq!((whole.len(), whole.count()), (2, 2));
    assert!(have_of(&[2; 32], Some(&row(1, 9))).is_none());
    assert!(have_of(&[1; 32], None).is_none());
}

#[test]
fn a_row_is_built_from_whole_chunks() {
    let build = RowBuild::begin(65_537);
    assert_eq!(build.wanted(), Some((0, 65_536)));
    let build = build.push(65_536).expect("a whole chunk");
    assert_eq!(build.wanted(), Some((65_536, 1)));
    assert!(build.push(0).is_none(), "the file shrank");
    let build = build.push(1).expect("the rest");
    assert_eq!(build.wanted(), None);
}

#[test]
fn only_a_protected_share_names_its_mesh() {
    let ticket =
        |protected| share_ticket(b"{}".to_vec(), [3; 32], LookupOpts::loopback(), protected, "m".to_owned());
    assert_eq!(ticket(false).kind, TICKET_KIND_SHARE);
    assert_eq!((ticket(false).flags, ticket(false).mesh_id), (0, None));
    assert_eq!(ticket(true).flags, TICKET_FLAG_PASSWORD);
    assert_eq!(ticket(true).mesh_id.as_deref(), Some("m"));
}

#[test]
fn bench_transports_have_their_kinds() {
    assert_eq!(bench_kind(" WebRTC "), Ok((TICKET_KIND_BENCH_WEBRTC, true)));
    assert_eq!(bench_kind("iroh-relay"), Ok((TICKET_KIND_BENCH_RELAY, false)));
    assert_eq!(
        bench_kind("quic"),
        Err("unknown transport \"quic\"; expected webrtc or relay".to_owned())
    );
    assert_eq!(bench_path(TICKET_KIND_BENCH_RELAY), Ok(BenchPath::Relay));
    assert_eq!(bench_path(TICKET_KIND_BENCH_WEBRTC), Ok(BenchPath::WebRtc));
    assert_eq!(
        bench_path(TICKET_KIND_BENCH_QUIC),
        Err("ticket has no bench transport (kind=3); produce with --transport webrtc|relay".to_owned())
    );
    assert_eq!(BenchPath::Relay.label(), "relay");
    let ticket = bench_ticket(b"{}".to_vec(), [3; 32], LookupOpts::loopback(), 2);
    assert_eq!((ticket.kind, ticket.flags, ticket.mesh_id, ticket.author), (2, 0, None, None));
    assert_eq!(bench_window(None), 30);
    assert_eq!(bench_window(Some(0)), 1);
    assert_eq!(bench_window(Some(7)), 7);
}

#[test]
fn a_bench_connection_is_routed_by_its_protocol() {
    assert_eq!(bench_route(WEBRTC_SIGNAL_ALPN, true), BenchRoute::Signal);
    assert_eq!(bench_route(WEBRTC_SIGNAL_ALPN, false), BenchRoute::Refuse);
    assert_eq!(bench_route(MOUNT_ALPN, true), BenchRoute::Serve);
}

/// Runs a bench request up to the bytes that answer it.
fn bench(request: &[u8], payload: Option<&[u8]>) -> Vec<u8> {
    let secret = [4u8; 32];
    let mut header = [0u8; 33];
    header.copy_from_slice(&request[..33]);
    let (state, action) =
        serve_bench_stream(&secret, BenchState::Header, BenchEvent::Header(Some(header)));
    assert_eq!(action, BenchAction::ReadPrefix);
    let mut prefix = [0u8; 5];
    prefix.copy_from_slice(&request[33..38]);
    let (state, mut action) =
        serve_bench_stream(&secret, state, BenchEvent::Prefix(Some(prefix)));
    let mut state = state;
    if let Some(payload) = payload {
        assert_eq!(action, BenchAction::ReadPayload(payload.len() as u32));
        (state, action) =
            serve_bench_stream(&secret, state, BenchEvent::Payload(Some(payload.to_vec())));
    }
    let bytes = match action {
        BenchAction::Write(bytes) => bytes,
        other => panic!("expected a write, got {other:?}"),
    };
    assert_eq!(
        serve_bench_stream(&secret, state, BenchEvent::Written(true)).1,
        BenchAction::Finish
    );
    bytes
}

#[test]
fn an_echo_is_the_payload_and_a_fill_is_as_long_as_asked() {
    let echo = encode_bench_echo_request(&[4; 32], b"ping").expect("encode");
    let answer = bench(&echo, Some(b"ping"));
    assert_eq!(decode_response_header(&answer[..5], 4), Ok(4));
    assert_eq!(&answer[5..], b"ping");
    let fill = encode_bench_fill_request(&[4; 32], 1024).expect("encode");
    let answer = bench(&fill, None);
    assert_eq!(decode_response_header(&answer[..5], 1024), Ok(1024));
    assert_eq!(answer.len(), 5 + 1024);
}

#[test]
fn a_bench_with_another_secret_is_closed() {
    let (state, action) = serve_bench_stream(
        &[4; 32],
        BenchState::Header,
        BenchEvent::Header(Some([5; 33])),
    );
    assert_eq!(state, BenchState::Done);
    assert_eq!(action, BenchAction::Close(CLOSE_BAD_SECRET, b"bad secret".to_vec()));
}

/// Two files with one content share a root, and forgetting either of them forgets
/// it. The other one's chunks are still found, by what it claimed itself.
#[test]
fn a_forgotten_row_takes_its_root_along() {
    let mut share = producer(&[("a", 65_537, 10), ("b", 65_537, 11)]);
    assert!(share.keep_row(0, 65_537, row(1, 65_537)).is_some());
    assert!(share.keep_row(1, 65_537, row(1, 65_537)).is_some());
    assert_eq!(share.locate_root(&[1; 32]), Some(1));
    assert_eq!(share.check_chunk(0, &[3; 32], &[4; 32], vec![8]), None);
    assert!(share.cached_row(0, 65_537).is_none(), "the first file changed");
    assert_eq!(share.locate_root(&[1; 32]), None);
    assert_eq!(share.cached_row(1, 65_537), Some(row(1, 65_537)));
    assert!(share.keep_row(1, 65_537, row(1, 65_537)).is_some());
    assert_eq!(share.locate_root(&[1; 32]), Some(1));
}

/// A window echoes at once and then every second, fills in between, reports every
/// five seconds and ends when its time is up.
#[test]
fn a_window_echoes_fills_reports_and_ends() {
    let act = |tick, work| WindowAction { tick, work };
    let window = Window::new(12);
    let (window, action) = window_step(window, WindowEvent::Started, 0);
    assert_eq!(action, act(None, WindowWork::Echo));
    let (window, action) = window_step(window, WindowEvent::Echoed, 40);
    assert_eq!(action, act(None, WindowWork::Fill));
    let (window, action) = window_step(window, WindowEvent::Filled, 1_039);
    assert_eq!(action, act(None, WindowWork::Fill));
    let (window, action) = window_step(window, WindowEvent::Filled, 1_040);
    assert_eq!(action, act(None, WindowWork::Echo));
    let (window, action) = window_step(window, WindowEvent::Echoed, 5_900);
    assert_eq!(action, act(Some(5), WindowWork::Fill));
    let (window, action) = window_step(window, WindowEvent::Filled, 10_899);
    assert_eq!(action, act(None, WindowWork::Echo));
    let (window, action) = window_step(window, WindowEvent::Echoed, 11_999);
    assert_eq!(action, act(Some(11), WindowWork::Fill));
    let (_, action) = window_step(window, WindowEvent::Filled, 12_000);
    assert_eq!(action, act(None, WindowWork::End));
}

/// A window in which no echo came back takes one before it ends.
#[test]
fn a_window_without_an_echo_takes_one_at_the_end() {
    let (window, action) = window_step(Window::new(1), WindowEvent::Started, 1_000);
    assert_eq!(action, WindowAction { tick: None, work: WindowWork::Echo });
    let (_, action) = window_step(window, WindowEvent::Echoed, 0);
    assert_eq!(action, WindowAction { tick: None, work: WindowWork::End });
}
