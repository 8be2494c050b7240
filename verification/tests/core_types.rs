//! Tests of identifiers, versions, formats, sessions, configuration,
//! errors and the server builder.

use bpx::BpxConfig;
use bpx::BpxError;
use bpx::BpxServer;
use bpx::BpxSession;
use bpx::DiffFormat;
use bpx::ResourcePath;
use bpx::SessionId;
use bpx::Version;
use bpx::diff::similar::SimilarDiffEngine;
use bpx::state::InMemoryStateManager;

#[test]
fn test_session_id_generation() {
    let id1 = SessionId::generate();
    let id2 = SessionId::generate();
    assert_ne!(id1, id2);
    assert!(id1.as_str().starts_with("sess_"));
}

#[test]
fn test_version_from_content() {
    let content1 = b"hello world";
    let content2 = b"hello world";
    let content3 = b"hello world!";

    let v1 = Version::from_content(content1);
    let v2 = Version::from_content(content2);
    let v3 = Version::from_content(content3);

    assert_eq!(v1, v2);
    assert_ne!(v1, v3);
    assert!(v1.as_str().starts_with("v:"));
}

#[test]
fn test_version_from_timestamp_prefix() {
    let v = Version::from_timestamp();
    assert!(v.as_str().starts_with("v:"));
}

#[test]
fn test_diff_format_parsing() {
    assert_eq!(DiffFormat::from_str("binary-delta"), Some(DiffFormat::BinaryDelta));
    assert_eq!(DiffFormat::from_str("json-patch"), Some(DiffFormat::JsonPatch));
    assert_eq!(DiffFormat::from_str("bsdiff"), Some(DiffFormat::BsdDiff));
    assert_eq!(DiffFormat::from_str("invalid"), None);
}

#[test]
fn test_diff_format_parsing_case_insensitive() {
    assert_eq!(DiffFormat::from_str("BINARY-DELTA"), Some(DiffFormat::BinaryDelta));
    assert_eq!(DiffFormat::from_str("Json-Patch"), Some(DiffFormat::JsonPatch));
}

#[test]
fn test_diff_format_tokens() {
    assert_eq!(DiffFormat::BinaryDelta.as_str(), "binary-delta");
    assert_eq!(DiffFormat::JsonPatch.as_str(), "json-patch");
    assert_eq!(DiffFormat::BsdDiff.as_str(), "bsdiff");
}

#[test]
fn test_session_expiration() {
    // Times in milliseconds; the TTL is 100 ms of inactivity
    let session = BpxSession::new(SessionId::new("test".to_string()), 1000);

    assert!(!session.is_expired(100, 1050));
    assert!(session.is_expired(100, 1200));
}

#[test]
fn test_default_config() {
    let config = BpxConfig::default();
    assert_eq!(config.max_sessions, 100_000);
    assert_eq!(config.max_resources_per_session, 1_000);
    assert_eq!(config.session_ttl_ms, 24 * 60 * 60 * 1000);
    assert_eq!(config.max_diff_size, 10 * 1024 * 1024);
    assert_eq!(config.min_compression_percent, 20);
    assert_eq!(config.cleanup_interval_ms, 5 * 60 * 1000);
}

#[test]
fn test_bpx_server_builder_with_components() {
    let config = BpxConfig::default();
    let state_manager = InMemoryStateManager::new(config.clone());
    let diff_engine = SimilarDiffEngine::new();

    let server = BpxServer::builder()
        .config(config.clone())
        .state_manager(state_manager)
        .diff_engine(diff_engine)
        .build()
        .unwrap();

    assert_eq!(server.config().max_sessions, config.max_sessions);
    assert_eq!(server.diff_engine().min_compression_percent, 20);
}

#[test]
fn test_bpx_server_builder_missing_state_manager() {
    let config = BpxConfig::default();
    let diff_engine = SimilarDiffEngine::new();

    let result = BpxServer::<InMemoryStateManager, SimilarDiffEngine>::builder()
        .config(config)
        .diff_engine(diff_engine)
        .build();

    assert!(result.is_err());
    if let Err(e) = result {
        assert!(matches!(e, BpxError::DiffComputationFailed { .. }));
    }
}

#[test]
fn test_bpx_server_builder_missing_diff_engine() {
    let config = BpxConfig::default();
    let state_manager = InMemoryStateManager::new(config.clone());

    let result = BpxServer::<InMemoryStateManager, SimilarDiffEngine>::builder()
        .config(config)
        .state_manager(state_manager)
        .build();

    assert!(result.is_err());
    if let Err(e) = result {
        assert!(matches!(e, BpxError::DiffComputationFailed { .. }));
    }
}

#[test]
fn test_bpx_server_builder_default_config() {
    let config = BpxConfig::default();
    let state_manager = InMemoryStateManager::new(config);
    let diff_engine = SimilarDiffEngine::new();

    // Uses the default config when none is provided
    let server = BpxServer::builder()
        .state_manager(state_manager)
        .diff_engine(diff_engine)
        .build()
        .unwrap();

    let server_config = server.config();
    let default_config = BpxConfig::default();
    assert_eq!(server_config.max_sessions, default_config.max_sessions);
    assert_eq!(server_config.session_ttl_ms, default_config.session_ttl_ms);
}

#[test]
fn test_bpx_server_builder_custom_config() {
    let mut custom_config = BpxConfig::default();
    custom_config.max_sessions = 50_000;
    custom_config.session_ttl_ms = 12 * 60 * 60 * 1000; // 12 hours
    custom_config.min_compression_percent = 30;

    let state_manager = InMemoryStateManager::new(custom_config.clone());
    let diff_engine = SimilarDiffEngine::new();

    let server = BpxServer::builder()
        .config(custom_config.clone())
        .state_manager(state_manager)
        .diff_engine(diff_engine)
        .build()
        .unwrap();

    let server_config = server.config();
    assert_eq!(server_config.max_sessions, 50_000);
    assert_eq!(server_config.session_ttl_ms, 12 * 60 * 60 * 1000);
    assert_eq!(server_config.min_compression_percent, 30);
}

#[test]
fn test_bpx_session_new_and_touch() {
    let session_id = SessionId::new("test_session".to_string());
    let mut session = BpxSession::new(session_id.clone(), 100);

    assert_eq!(session.id, session_id);
    assert_eq!(session.resource_count(), 0);
    assert_eq!(session.memory_usage, 0);
    assert_eq!(session.last_accessed, 100);

    session.touch(101);

    assert!(session.last_accessed > 100);
}

#[test]
fn test_bpx_session_expiration() {
    let session_id = SessionId::new("test_session".to_string());
    let session = BpxSession::new(session_id, 500);
    let very_short_ttl = 1;
    let long_ttl = 3_600_000;

    assert!(!session.is_expired(long_ttl, 502));
    assert!(session.is_expired(very_short_ttl, 502));
}

#[test]
fn test_bpx_session_resource_management() {
    let session_id = SessionId::new("test_session".to_string());
    let mut session = BpxSession::new(session_id, 0);

    let path1 = ResourcePath::new("/api/users".to_string());
    let path2 = ResourcePath::new("/api/orders".to_string());
    let version1 = Version::new("v1".to_string());
    let version2 = Version::new("v2".to_string());

    session.set_resource(path1.clone(), version1.clone());
    session.set_resource(path2.clone(), version2.clone());

    assert_eq!(session.resource_count(), 2);
    assert_eq!(*session.resource_version(&path1).unwrap(), version1);
    assert_eq!(*session.resource_version(&path2).unwrap(), version2);
}

#[test]
fn test_bpx_error_messages() {
    let e = BpxError::ClientStateNotFound { client_id: SessionId::new("abc".into()) };
    assert_eq!(e.message(), "Client state not found: abc");

    let e = BpxError::DiffComputationFailed { reason: "boom".into() };
    assert_eq!(e.message(), "Diff computation failed: boom");

    let e = BpxError::ResourceTooLarge { size: 2048, max_size: 1024 };
    assert_eq!(e.message(), "Resource too large: 2048 bytes (max: 1024)");

    let e = BpxError::InvalidDiffFormat { format: "bsdiff".into() };
    assert_eq!(e.message(), "Invalid diff format: bsdiff");

    let e = BpxError::SessionCapacityExceeded { current: 7, max: 5 };
    assert_eq!(e.message(), "Session capacity exceeded: 7 sessions (max: 5)");
}
