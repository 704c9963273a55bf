use audio_snippet_detector::detector::{AudioSnippetDetector, NextResult};
use audio_snippet_detector::DetectorError;

fn feature_rows(rows: usize) -> Vec<Vec<i16>> {
    (0..rows)
        .map(|r| (0..20).map(|c| ((r * 13 + c * 5) % 41) as i16 - 20).collect())
        .collect()
}

#[test]
fn push_after_close_fails_with_stream_closed() {
    let mut det = AudioSnippetDetector::new();
    assert!(det.write(vec![0u8; 64]).is_ok());
    det.close();
    assert_eq!(det.write(vec![0u8; 64]), Err(DetectorError::StreamClosed));
}

#[test]
fn close_is_idempotent() {
    let mut det = AudioSnippetDetector::new();
    det.close();
    det.close();
    assert_eq!(det.write(Vec::new()), Err(DetectorError::StreamClosed));
}

#[test]
fn next_reports_end_of_stream_after_close_and_drain() {
    let mut det = AudioSnippetDetector::new();
    assert!(matches!(det.next(), NextResult::Pending));
    det.close();
    assert!(matches!(det.next(), NextResult::EndOfStream));
    assert!(matches!(det.next(), NextResult::EndOfStream));
}

#[test]
fn matched_window_is_queued_then_stream_ends() {
    let mut det = AudioSnippetDetector::new();
    let rows = feature_rows(100);
    det.add_fingerprint("x".to_string(), rows.clone()).unwrap();
    for r in rows {
        det.ingest_feature(r);
    }
    match det.next() {
        NextResult::Match(qr) => {
            assert_eq!(qr.label, "x");
            assert_eq!(qr.score, 1000);
        }
        _ => panic!("a verbatim window must produce a queued match"),
    }
    det.close();
    assert!(matches!(det.next(), NextResult::EndOfStream));
}

#[test]
fn unmatched_window_queues_nothing() {
    let mut det = AudioSnippetDetector::new();
    for r in feature_rows(100) {
        det.ingest_feature(r);
    }
    assert!(matches!(det.next(), NextResult::Pending));
}

#[test]
fn add_fingerprint_rejects_bad_columns() {
    let mut det = AudioSnippetDetector::new();
    let bad: Vec<Vec<i16>> = vec![vec![3i16; 21]; 100];
    assert_eq!(
        det.add_fingerprint("bad".to_string(), bad),
        Err(DetectorError::MalformedFingerprint)
    );
}

#[test]
fn write_returns_completed_frames() {
    let mut det = AudioSnippetDetector::new();
    let frames = det.write(vec![0u8; 320]).unwrap();
    assert_eq!(frames.len(), 1);
    assert_eq!(frames[0].len(), 400);
}
