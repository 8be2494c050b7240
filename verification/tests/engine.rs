//! Tests of the diff engine: computation, application, worthwhileness.

use bpx::DiffEngine;
use bpx::diff::binary::BinaryDiffCodec;
use bpx::diff::binary::DiffOperation;
use bpx::diff::similar::SimilarDiffEngine;

#[test]
fn test_no_changes() {
    let engine = SimilarDiffEngine::new();
    let data = b"hello world";

    let diff = engine.compute_diff(data, data).unwrap();
    let result = engine.apply_diff(data, &diff).unwrap();

    assert_eq!(result.as_slice(), data);
    assert_eq!(diff.len(), 1); // Just the END marker
}

#[test]
fn test_simple_change() {
    let engine = SimilarDiffEngine::new();
    let old = b"hello world";
    let new = b"hello universe";

    let diff = engine.compute_diff(old, new).unwrap();
    let result = engine.apply_diff(old, &diff).unwrap();

    assert_eq!(result.as_slice(), new);
    assert_eq!(*diff.last().unwrap(), 0x04);
}

#[test]
fn test_computed_diff_is_canonical() {
    // A computed stream is End-terminated, re-encodes to itself, and
    // carries no empty operation
    let engine = SimilarDiffEngine::new();
    let old = b"alpha\nbeta\ngamma\n";
    let new = b"alpha\nBETA\ngamma\ndelta\n";

    let diff = engine.compute_diff(old, new).unwrap();
    assert_eq!(*diff.last().unwrap(), 0x04);

    let ops = BinaryDiffCodec::decode_diff(&diff).unwrap();
    assert_eq!(BinaryDiffCodec::encode_diff(&ops).unwrap(), diff);
    for op in &ops {
        match op {
            DiffOperation::Copy { length, .. } => assert!(*length > 0),
            DiffOperation::Insert(data) => assert!(!data.is_empty()),
            DiffOperation::Delete { length } => assert!(*length > 0),
        }
    }
}

#[test]
fn test_diff_worthwhile() {
    let engine = SimilarDiffEngine::new();

    // Worthwhile (80% savings)
    assert!(engine.is_diff_worthwhile(1000, 200));

    // Not worthwhile (only 10% savings)
    assert!(!engine.is_diff_worthwhile(1000, 900));
}

#[test]
fn test_multiline_change() {
    let engine = SimilarDiffEngine::new();
    let old = b"alpha\nbeta\ngamma\ndelta\n";
    let new = b"alpha\nBETA\ngamma\ndelta\n";

    let diff = engine.compute_diff(old, new).unwrap();
    let result = engine.apply_diff(old, &diff).unwrap();

    assert_eq!(result.as_slice(), new.as_slice());
}

#[test]
fn test_no_change_diff_is_end_marker() {
    // A no-change diff is exactly the single End byte, whatever the content
    let engine = SimilarDiffEngine::new();
    for content in [b"".to_vec(), b"x".to_vec(), b"many\nlines\nhere\n".to_vec()] {
        let diff = engine.compute_diff(&content, &content).unwrap();
        assert_eq!(diff, vec![0x04]);
    }
}

#[test]
fn test_apply_end_marker_returns_base() {
    // Applying the single End byte returns the base unchanged
    let engine = SimilarDiffEngine::new();
    let base = b"abc";
    let result = engine.apply_diff(base, &[0x04]).unwrap();
    assert_eq!(result.as_slice(), base);
}

#[test]
fn test_apply_empty_buffer_rejected() {
    let engine = SimilarDiffEngine::new();
    let result = engine.apply_diff(b"abc", &[]);
    assert!(result.is_err());
    assert!(result.unwrap_err().message().contains("Empty diff"));
}

#[test]
fn test_worthwhile_monotonic_in_diff_size() {
    // A smaller diff is worthwhile whenever a larger one is
    let engine = SimilarDiffEngine::new();
    let original = 1000;
    let mut previous = true;
    for diff_size in 0..=1000 {
        let worthwhile = engine.is_diff_worthwhile(original, diff_size);
        // Never a false-to-true transition as the diff grows
        if !previous {
            assert!(!worthwhile);
        }
        previous = worthwhile;
    }
    // Boundary: at 20% required savings the diff may use at most 800 bytes
    assert!(engine.is_diff_worthwhile(1000, 800));
    assert!(!engine.is_diff_worthwhile(1000, 801));
}

#[test]
fn test_worthwhile_zero_original() {
    let engine = SimilarDiffEngine::new();
    assert!(!engine.is_diff_worthwhile(0, 0));
    assert!(!engine.is_diff_worthwhile(0, 10));
}

#[test]
fn test_custom_compression_ratio() {
    // A 50% requirement admits diffs of at most half the original size
    let engine = SimilarDiffEngine::with_compression_ratio(50);
    assert!(engine.is_diff_worthwhile(100, 50));
    assert!(!engine.is_diff_worthwhile(100, 51));
    // Values above 100 are clamped: no non-empty diff is ever worthwhile
    let strict = SimilarDiffEngine::with_compression_ratio(250);
    assert!(!strict.is_diff_worthwhile(100, 1));
    assert!(strict.is_diff_worthwhile(100, 0));
}

#[test]
fn test_compute_then_apply_round_trip() {
    // The computed diff rebuilds the new content from the old one
    let engine = SimilarDiffEngine::new();
    let old = b"line one\nline two\nline three\n";
    let new = b"line one\nline 2\nline three\nline four\n";

    let diff = engine.compute_diff(old, new).unwrap();
    let rebuilt = engine.apply_diff(old, &diff).unwrap();
    assert_eq!(rebuilt.as_slice(), new.as_slice());
}
