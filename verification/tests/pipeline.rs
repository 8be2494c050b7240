//! End-to-end tests of the request pipeline.

use bpx::BpxConfig;
use bpx::BpxError;
use bpx::BpxRequest;
use bpx::BpxServer;
use bpx::DiffEngine;
use bpx::InMemoryResourceStore;
use bpx::ResourcePath;
use bpx::ResourceStore;
use bpx::ResponseBody;
use bpx::SessionId;
use bpx::Version;
use bpx::diff::similar::SimilarDiffEngine;
use bpx::server::handle_bpx_request;
use bpx::state::InMemoryStateManager;

fn server_with(config: BpxConfig) -> BpxServer<InMemoryStateManager, SimilarDiffEngine> {
    BpxServer::builder()
        .config(config.clone())
        .state_manager(InMemoryStateManager::new(config))
        .diff_engine(SimilarDiffEngine::new())
        .build()
        .unwrap()
}

#[test]
fn test_first_contact_full() {
    // First contact: no BPX headers, full body comes back
    let mut server = server_with(BpxConfig::default());
    let mut store = InMemoryResourceStore::new();
    store.set_resource(ResourcePath::new("/x".into()), b"hello".to_vec());

    let req = BpxRequest::new(ResourcePath::new("/x".into()));
    let resp = server.handle_request(&req, &mut store, 0).unwrap();

    assert!(!resp.is_diff());
    assert_eq!(resp.body.as_bytes().as_slice(), b"hello");
    assert_eq!(resp.body_size(), 5);
    assert!(resp.session_id.is_some());
    assert!(!resp.session_id.as_ref().unwrap().as_str().is_empty());
    assert!(!resp.version.as_str().is_empty());
}

#[test]
fn test_second_call_unchanged_sends_full() {
    // The recorded version matches the base version but the content has
    // not changed, so the response is full
    let mut server = server_with(BpxConfig::default());
    let mut store = InMemoryResourceStore::new();
    store.set_resource(ResourcePath::new("/x".into()), b"hello".to_vec());

    let first = server
        .handle_request(&BpxRequest::new(ResourcePath::new("/x".into())), &mut store, 0)
        .unwrap();
    let sid = first.session_id.clone().unwrap();

    let req = BpxRequest::new(ResourcePath::new("/x".into()))
        .with_session(sid)
        .with_base_version(first.version.clone());
    let resp = server.handle_request(&req, &mut store, 1).unwrap();

    assert!(!resp.is_diff());
    assert_eq!(resp.body.as_bytes().as_slice(), b"hello");
}

#[test]
fn test_second_call_changed_sends_diff() {
    // The content changed between the calls and the diff is worthwhile,
    // so a binary delta comes back and patches the old content
    let mut server = server_with(BpxConfig::default());
    let mut store = InMemoryResourceStore::new();
    let old_body: Vec<u8> = b"line one\nline two\nline three\nline four\nline five\n".to_vec();
    let mut new_body = old_body.clone();
    new_body.extend_from_slice(b"line six\n");

    store.set_resource(ResourcePath::new("/x".into()), old_body.clone());
    let first = server
        .handle_request(&BpxRequest::new(ResourcePath::new("/x".into())), &mut store, 0)
        .unwrap();

    store.set_resource(ResourcePath::new("/x".into()), new_body.clone());
    let req = BpxRequest::new(ResourcePath::new("/x".into()))
        .with_session(first.session_id.clone().unwrap())
        .with_base_version(first.version.clone());
    let resp = server.handle_request(&req, &mut store, 1).unwrap();

    assert!(resp.is_diff());
    match &resp.body {
        ResponseBody::Diff { data, .. } => {
            assert!(data.len() > 0);
            let engine = SimilarDiffEngine::new();
            let rebuilt = engine.apply_diff(&old_body, data).unwrap();
            assert_eq!(rebuilt, new_body);
        },
        ResponseBody::Full(_) => panic!("expected a diff body"),
    }
}

#[test]
fn test_oversized_guard_sends_full() {
    // With max_diff_size = 4 the current content exceeds the ceiling, so
    // the response is full despite a valid base
    let mut config = BpxConfig::default();
    config.max_diff_size = 4;
    let mut server = server_with(config);
    let mut store = InMemoryResourceStore::new();

    store.set_resource(ResourcePath::new("/x".into()), b"aaaa".to_vec());
    let first = server
        .handle_request(&BpxRequest::new(ResourcePath::new("/x".into())), &mut store, 0)
        .unwrap();

    store.set_resource(ResourcePath::new("/x".into()), b"aaaab".to_vec());
    let req = BpxRequest::new(ResourcePath::new("/x".into()))
        .with_session(first.session_id.clone().unwrap())
        .with_base_version(first.version.clone());
    let resp = server.handle_request(&req, &mut store, 1).unwrap();

    assert!(!resp.is_diff());
    assert_eq!(resp.body.as_bytes().as_slice(), b"aaaab");
}

#[test]
fn test_unknown_session_gets_fresh_id() {
    // A session ID absent from the store is not preserved: a fresh one is
    // minted and the body is full
    let mut server = server_with(BpxConfig::default());
    let mut store = InMemoryResourceStore::new();
    store.set_resource(ResourcePath::new("/x".into()), b"hello".to_vec());

    let req = BpxRequest::new(ResourcePath::new("/x".into()))
        .with_session(SessionId::new("nope".into()));
    let resp = server.handle_request(&req, &mut store, 0).unwrap();

    let echoed = resp.session_id.clone().unwrap();
    assert_ne!(echoed.as_str(), "nope");
    assert!(echoed.as_str().starts_with("sess_"));
    assert!(!resp.is_diff());
}

#[test]
fn test_missing_resource_fails() {
    let mut server = server_with(BpxConfig::default());
    let mut store = InMemoryResourceStore::new();

    let req = BpxRequest::new(ResourcePath::new("/absent".into()));
    let result = server.handle_request(&req, &mut store, 0);
    assert!(matches!(result.unwrap_err(), BpxError::ClientStateNotFound { .. }));
}

#[test]
fn test_diff_declined_without_accept() {
    // The client has a matching, changed base version but does not accept
    // the binary delta format, so the response is full
    let config = BpxConfig::default();
    let engine = SimilarDiffEngine::new();
    let mut state = InMemoryStateManager::new(config.clone());
    let mut store = InMemoryResourceStore::new();

    store.set_resource(ResourcePath::new("/x".into()), b"one\ntwo\nthree\n".to_vec());
    let first = handle_bpx_request(
        &BpxRequest::new(ResourcePath::new("/x".into())),
        &config,
        &mut state,
        &engine,
        &mut store,
        0,
    )
        .unwrap();

    store.set_resource(ResourcePath::new("/x".into()), b"one\ntwo\nthree\nfour\n".to_vec());
    let req = BpxRequest::new(ResourcePath::new("/x".into()))
        .with_session(first.session_id.clone().unwrap())
        .with_base_version(first.version.clone())
        .with_formats(vec![bpx::DiffFormat::JsonPatch]);
    let resp = handle_bpx_request(&req, &config, &mut state, &engine, &mut store, 1).unwrap();

    assert!(!resp.is_diff());
}

#[test]
fn test_stale_base_version_sends_full() {
    // The supplied base version differs from the recorded one, so the
    // response is full
    let mut server = server_with(BpxConfig::default());
    let mut store = InMemoryResourceStore::new();

    store.set_resource(ResourcePath::new("/x".into()), b"alpha\nbeta\n".to_vec());
    let first = server
        .handle_request(&BpxRequest::new(ResourcePath::new("/x".into())), &mut store, 0)
        .unwrap();

    store.set_resource(ResourcePath::new("/x".into()), b"alpha\ngamma\n".to_vec());
    let req = BpxRequest::new(ResourcePath::new("/x".into()))
        .with_session(first.session_id.clone().unwrap())
        .with_base_version(Version::new("v:other".into()));
    let resp = server.handle_request(&req, &mut store, 1).unwrap();

    assert!(!resp.is_diff());
}

#[test]
fn test_version_determinism_across_requests() {
    // The minted version is a function of the content: the same bytes on
    // two paths get the same version string
    let mut server = server_with(BpxConfig::default());
    let mut store = InMemoryResourceStore::new();
    store.set_resource(ResourcePath::new("/a".into()), b"same".to_vec());
    store.set_resource(ResourcePath::new("/b".into()), b"same".to_vec());

    let ra = server
        .handle_request(&BpxRequest::new(ResourcePath::new("/a".into())), &mut store, 0)
        .unwrap();
    let rb = server
        .handle_request(&BpxRequest::new(ResourcePath::new("/b".into())), &mut store, 0)
        .unwrap();
    assert_eq!(ra.version, rb.version);
}

#[test]
fn test_history_stored_after_serving() {
    // Step 7: the served version lands in the history store
    let mut server = server_with(BpxConfig::default());
    let mut store = InMemoryResourceStore::new();
    store.set_resource(ResourcePath::new("/x".into()), b"payload".to_vec());

    let resp = server
        .handle_request(&BpxRequest::new(ResourcePath::new("/x".into())), &mut store, 0)
        .unwrap();

    let stored = store
        .get_resource_version(&ResourcePath::new("/x".into()), &resp.version)
        .unwrap();
    assert_eq!(stored, b"payload".to_vec());
}

#[test]
fn test_cleanup_via_server() {
    // The server's sweep drops sessions older than the TTL
    let mut config = BpxConfig::default();
    config.session_ttl_ms = 10;
    let mut server = server_with(config);
    let mut store = InMemoryResourceStore::new();
    store.set_resource(ResourcePath::new("/x".into()), b"hello".to_vec());

    let first = server
        .handle_request(&BpxRequest::new(ResourcePath::new("/x".into())), &mut store, 0)
        .unwrap();
    let sid = first.session_id.unwrap();

    server.cleanup_expired_sessions(100);

    // The session is gone: supplying it now yields a fresh one
    let req = BpxRequest::new(ResourcePath::new("/x".into())).with_session(sid.clone());
    let resp = server.handle_request(&req, &mut store, 100).unwrap();
    assert_ne!(resp.session_id.unwrap(), sid);
}
