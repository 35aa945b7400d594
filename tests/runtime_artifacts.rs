use frankenframe::artifacts::{
    fnv1a_hex, validate_capability_gate, ArtifactCodec, ArtifactPayload, AsupersyncConfig, AsupersyncError,
    CapabilitySet, CxCapability, EncodedArtifact, Fnv1aVerifier, InMemoryTransport, IntegrityVerifier,
    PassthroughCodec, RequiresCapabilities, TransferStatus, TransportLayer,
};
use frankenframe::runtime::{GalaxyBrainCard, RuntimeMode, RuntimePolicy};

#[test]
fn capability_sets_combine_and_check() {
    let io = CapabilitySet::for_capability(CxCapability::Io);
    assert!(io.io && !io.remote && !io.spawn);
    let both = io.union(CapabilitySet::for_capability(CxCapability::Remote));
    assert!(both.satisfies(io));
    assert!(!io.satisfies(both));
    assert!(CapabilitySet::all().satisfies(both));
    assert!(CapabilitySet::none().satisfies(CapabilitySet::none()));
    assert_eq!(CapabilitySet::default(), CapabilitySet::none());
}

#[test]
fn capability_gate_reports_denial() {
    let config = AsupersyncConfig::default().with_capabilities(CapabilitySet::none());
    let required = CapabilitySet::for_capability(CxCapability::Time);
    assert_eq!(
        validate_capability_gate(&config, required),
        Err(AsupersyncError::CapabilityDenied { required, available: CapabilitySet::none() })
    );
    assert!(validate_capability_gate(&AsupersyncConfig::default(), required).is_ok());
}

#[test]
fn passthrough_codec_round_trips() {
    let codec = PassthroughCodec;
    let config = AsupersyncConfig::default();
    let payload = ArtifactPayload { artifact_id: "a1".into(), bytes: vec![1, 2, 3], expected_digest: None };
    let encoded = codec.encode(&payload, &config).expect("encode");
    assert_eq!(encoded.source_len, 3);
    assert_eq!(encoded.repair_symbols, 32);
    let decoded = codec.decode(&encoded, &config).expect("decode");
    assert_eq!(decoded, payload);

    let mut zero = config.clone();
    zero.max_repair_symbols = 0;
    assert!(matches!(codec.encode(&payload, &zero), Err(AsupersyncError::Configuration(_))));
    let short = EncodedArtifact { artifact_id: "a".into(), source_len: 4, encoded_bytes: vec![1], repair_symbols: 1 };
    assert!(matches!(codec.decode(&short, &config), Err(AsupersyncError::Codec(_))));
    let longer = EncodedArtifact { artifact_id: "b".into(), source_len: 2, encoded_bytes: vec![7, 8, 9], repair_symbols: 1 };
    assert_eq!(codec.decode(&longer, &config).unwrap().bytes, vec![7, 8]);
}

#[test]
fn fnv1a_digest_matches_reference_values() {
    assert_eq!(fnv1a_hex(b""), "cbf29ce484222325");
    assert_eq!(fnv1a_hex(b"a"), "af63dc4c8601ec8c");
    assert_eq!(fnv1a_hex(b"foobar"), "85944171f73967e8");
}

#[test]
fn fnv1a_verifier_accepts_and_rejects() {
    let v = Fnv1aVerifier;
    let proof = v.verify("x", b"a", "af63dc4c8601ec8c").expect("verified");
    assert!(proof.verified);
    assert_eq!(proof.algorithm, "fnv1a64");
    match v.verify("x", b"a", "0000000000000000") {
        Err(AsupersyncError::IntegrityMismatch { observed, .. }) => assert_eq!(observed, "af63dc4c8601ec8c"),
        other => panic!("unexpected {other:?}"),
    }
}

#[test]
fn in_memory_transport_stores_and_returns() {
    let mut t = InMemoryTransport::new();
    let config = AsupersyncConfig::default();
    assert_eq!(t.required_capabilities(), CapabilitySet::for_capability(CxCapability::Io).union(CapabilitySet::for_capability(CxCapability::Remote)));
    let art = EncodedArtifact { artifact_id: "p".into(), source_len: 2, encoded_bytes: vec![5, 6], repair_symbols: 3 };
    let report = t.send(art.clone(), &config).expect("send");
    assert_eq!(report.status, TransferStatus::Completed);
    assert_eq!(report.bytes_transferred, 2);
    assert_eq!(t.receive("p", &config).expect("receive"), art);
    let newer = EncodedArtifact { artifact_id: "p".into(), source_len: 1, encoded_bytes: vec![9], repair_symbols: 1 };
    t.send(newer.clone(), &config).expect("send again");
    assert_eq!(t.receive("p", &config).expect("receive"), newer);
    assert!(matches!(t.receive("q", &config), Err(AsupersyncError::ArtifactNotFound(_))));
    let closed = config.with_capabilities(CapabilitySet::none());
    assert!(matches!(t.receive("p", &closed), Err(AsupersyncError::CapabilityDenied { .. })));
}

#[test]
fn policies_and_cards() {
    let strict = RuntimePolicy::strict();
    assert_eq!(strict.mode, RuntimeMode::Strict);
    assert!(strict.fail_closed_unknown_features);
    let hardened = RuntimePolicy::hardened(Some(10));
    assert_eq!(hardened.mode, RuntimeMode::Hardened);
    assert_eq!(hardened.hardened_join_row_cap, Some(10));
    let card = GalaxyBrainCard {
        title: "t".into(),
        equation: "e".into(),
        substitution: "s".into(),
        intuition: "i".into(),
    };
    assert_eq!(card.render_plain(), "[t]\ne\ns\ni");
}
