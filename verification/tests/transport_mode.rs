use agent_share::transport_mode::TransportMode;

#[test]
fn omitted_and_empty_default_to_dynamic() {
    assert_eq!(TransportMode::parse(None).unwrap(), TransportMode::Dynamic);
    assert_eq!(
        TransportMode::parse(Some("")).unwrap(),
        TransportMode::Dynamic
    );
    assert_eq!(
        TransportMode::parse(Some("  ")).unwrap(),
        TransportMode::Dynamic
    );
    assert_eq!(TransportMode::default(), TransportMode::Dynamic);
}

#[test]
fn bench_rejects_dynamic_at_call_site() {
    // A benchmark refuses dynamic; the parse itself accepts it for a connect.
    assert_eq!(
        TransportMode::parse(Some("dynamic")).unwrap(),
        TransportMode::Dynamic
    );
    assert_ne!(
        TransportMode::parse(Some("webrtc")).unwrap(),
        TransportMode::Dynamic
    );
}

#[test]
fn parses_canonical_names_case_insensitively() {
    assert_eq!(
        TransportMode::parse(Some("webrtc")).unwrap(),
        TransportMode::WebRtc
    );
    assert_eq!(
        TransportMode::parse(Some("WEBRTC")).unwrap(),
        TransportMode::WebRtc
    );
    assert_eq!(
        TransportMode::parse(Some("Dynamic")).unwrap(),
        TransportMode::Dynamic
    );
}

#[test]
fn parses_aliases() {
    assert_eq!(
        TransportMode::parse(Some("webrtc_only")).unwrap(),
        TransportMode::WebRtc
    );
    assert_eq!(
        TransportMode::parse(Some("webrtc_preferred")).unwrap(),
        TransportMode::Dynamic
    );
    assert_eq!(
        TransportMode::parse(Some("preferred")).unwrap(),
        TransportMode::Dynamic
    );
}

/// The relay is a rendezvous, never a data path.
#[test]
fn rejects_relay() {
    let err = TransportMode::parse(Some("relay")).unwrap_err();
    assert!(err.contains("unknown transport mode"), "{err}");
    assert!(TransportMode::parse(Some("relay-only")).is_err());
    assert!(TransportMode::parse(Some("iroh_relay")).is_err());
}

#[test]
fn rejects_unknown() {
    let err = TransportMode::parse(Some("turn")).unwrap_err();
    assert!(err.contains("unknown transport mode"), "{err}");
    assert!(err.contains("webrtc"), "{err}");
}

#[test]
fn a_refused_mode_is_quoted() {
    assert_eq!(
        TransportMode::parse(Some(" Tu\"rn ")).unwrap_err(),
        "unknown transport mode \"tu\\\"rn\"; expected webrtc or dynamic"
    );
    assert_eq!(TransportMode::WebRtc.as_str(), "webrtc");
    assert_eq!(TransportMode::Dynamic.as_str(), "dynamic");
}
