//! Tests of protocol types: requests, responses, headers, and the
//! Accept-Diff grammar.

use bpx::BpxRequest;
use bpx::BpxResponse;
use bpx::DiffFormat;
use bpx::ResourcePath;
use bpx::ResponseBody;
use bpx::SessionId;
use bpx::Version;
use bpx::protocol::headers::BpxHeaders;
use bpx::protocol::parse_accept_diff;
use bpx::server::response_header_fields;

#[test]
fn test_bpx_request_builder() {
    let path = ResourcePath::new("/api/users/123".to_string());
    let session_id = SessionId::new("test_session".to_string());
    let version = Version::new("v1".to_string());

    let request = BpxRequest::new(path.clone())
        .with_session(session_id.clone())
        .with_base_version(version.clone())
        .with_formats(vec![DiffFormat::BinaryDelta, DiffFormat::JsonPatch]);

    assert_eq!(request.path, path);
    assert_eq!(request.session_id, Some(session_id));
    assert_eq!(request.base_version, Some(version));
    assert_eq!(request.accepted_formats.len(), 2);
    assert!(request.has_client_state());
    assert_eq!(request.preferred_format(), Some(DiffFormat::BinaryDelta));
}

#[test]
fn test_bpx_response_creation() {
    let version = Version::new("v2".to_string());
    let content = b"test content".to_vec();
    let session_id = SessionId::new("session123".to_string());

    // Full response
    let full_response = BpxResponse::full(version.clone(), content.clone())
        .with_session(session_id.clone())
        .with_cache_ttl(300);

    assert_eq!(full_response.version, version);
    assert!(!full_response.is_diff());
    assert_eq!(full_response.body_size(), content.len());
    assert_eq!(full_response.session_id, Some(session_id.clone()));
    assert_eq!(full_response.cache_ttl_secs, Some(300));

    // Diff response
    let diff_data = b"diff data".to_vec();
    let diff_response =
        BpxResponse::diff(version.clone(), DiffFormat::BinaryDelta, diff_data.clone());

    assert!(diff_response.is_diff());
    assert_eq!(diff_response.body_size(), diff_data.len());
    assert_eq!(diff_response.body.diff_format(), Some(DiffFormat::BinaryDelta));
}

#[test]
fn test_request_without_state() {
    let path = ResourcePath::new("/api/test".to_string());
    let request = BpxRequest::new(path);

    assert!(!request.has_client_state());
    assert_eq!(request.preferred_format(), Some(DiffFormat::BinaryDelta));
}

#[test]
fn test_parse_accept_diff_list() {
    assert_eq!(
        parse_accept_diff("binary-delta,json-patch"),
        vec![DiffFormat::BinaryDelta, DiffFormat::JsonPatch]
    );
    assert_eq!(
        parse_accept_diff(" bsdiff , BINARY-DELTA "),
        vec![DiffFormat::BsdDiff, DiffFormat::BinaryDelta]
    );
    assert_eq!(parse_accept_diff("invalid-format,json-patch"), vec![DiffFormat::JsonPatch]);
    // Unicode whitespace is trimmed, as str::trim would
    assert_eq!(
        parse_accept_diff("\u{00A0}binary-delta\u{3000},\u{2003}bsdiff"),
        vec![DiffFormat::BinaryDelta, DiffFormat::BsdDiff]
    );
    assert_eq!(parse_accept_diff("nothing,valid"), vec![]);
    assert_eq!(parse_accept_diff(""), vec![]);
}

#[test]
fn test_accept_header_defaults_retained() {
    // A header with only invalid tokens leaves the default in place
    let path = ResourcePath::new("/x".to_string());
    let request = BpxRequest::new(path.clone()).with_accept_header("bogus,unknown");
    assert_eq!(request.accepted_formats, vec![DiffFormat::BinaryDelta]);

    let request = BpxRequest::new(path).with_accept_header("json-patch,bsdiff");
    assert_eq!(request.accepted_formats, vec![DiffFormat::JsonPatch, DiffFormat::BsdDiff]);
}

#[test]
fn test_request_accepts_format() {
    let path = ResourcePath::new("/x".to_string());
    let request = BpxRequest::new(path).with_formats(vec![DiffFormat::JsonPatch]);
    assert!(request.accepts(DiffFormat::JsonPatch));
    assert!(!request.accepts(DiffFormat::BinaryDelta));
}

#[test]
fn test_bpx_header_names() {
    let all = BpxHeaders::all();
    assert_eq!(all.len(), 8);
    assert!(BpxHeaders::is_bpx_header("X-BPX-Session"));
    assert!(BpxHeaders::is_bpx_header("Accept-Diff"));
    assert!(BpxHeaders::is_bpx_header("X-BPX-Cache-TTL"));
    assert!(!BpxHeaders::is_bpx_header("Content-Type"));
    for name in all {
        assert!(BpxHeaders::is_bpx_header(name));
    }
}

#[test]
fn test_response_headers_full() {
    let response = BpxResponse::full(Version::new("v:abc".into()), b"hello".to_vec())
        .with_session(SessionId::new("sess_1".into()));
    let headers = response_header_fields(&response, 5);
    assert_eq!(
        headers,
        vec![
            ("X-Resource-Version".to_string(), "v:abc".to_string()),
            ("X-BPX-Session".to_string(), "sess_1".to_string()),
            ("X-Diff-Type".to_string(), "full".to_string()),
            ("X-Original-Size".to_string(), "5".to_string()),
        ]
    );
}

#[test]
fn test_response_headers_diff() {
    let response = BpxResponse::diff(
        Version::new("v:abc".into()),
        DiffFormat::BinaryDelta,
        vec![0x01, 0x00, 0x00, 0x02, 0x04],
    )
        .with_session(SessionId::new("sess_2".into()))
        .with_cache_ttl(60);
    let headers = response_header_fields(&response, 11);
    assert_eq!(
        headers,
        vec![
            ("X-Resource-Version".to_string(), "v:abc".to_string()),
            ("X-BPX-Session".to_string(), "sess_2".to_string()),
            ("X-Diff-Type".to_string(), "binary-delta".to_string()),
            ("X-Original-Size".to_string(), "11".to_string()),
            ("X-Diff-Size".to_string(), "5".to_string()),
            ("X-BPX-Cache-TTL".to_string(), "60".to_string()),
        ]
    );
}

#[test]
fn test_response_body_bytes() {
    let body = ResponseBody::Full(b"abc".to_vec());
    assert_eq!(body.as_bytes().as_slice(), b"abc");
    assert_eq!(body.diff_format(), None);
}
