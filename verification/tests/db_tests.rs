use audio_snippet_detector::db::{cosine_similarity, fingerprint_match, Database};
use audio_snippet_detector::DetectorError;

fn matrix(rows: usize, f: impl Fn(usize, usize) -> i16) -> Vec<Vec<i16>> {
    (0..rows).map(|r| (0..20).map(|c| f(r, c)).collect()).collect()
}

#[test]
fn cosine_of_vector_with_itself_is_one() {
    let u: Vec<i16> = (0..20).map(|x| (x as i16) * 3 - 11).collect();
    assert_eq!(cosine_similarity(&u, &u), 1000);
}

#[test]
fn cosine_with_zero_norm_vector_is_zero() {
    let u: Vec<i16> = (1..=20).map(|x| x as i16).collect();
    let z: Vec<i16> = vec![0i16; 20];
    assert_eq!(cosine_similarity(&u, &z), 0);
    assert_eq!(cosine_similarity(&z, &u), 0);
    assert_eq!(cosine_similarity(&z, &z), 0);
}

#[test]
fn cosine_has_exact_value_on_perfect_squares() {
    // dot = 2400, both squared norms 2500: 1000 * 2400 / 2500 = 960.
    let mut u = vec![0i16; 20];
    let mut v = vec![0i16; 20];
    u[0] = 30;
    u[1] = 40;
    v[0] = 40;
    v[1] = 30;
    assert_eq!(cosine_similarity(&u, &v), 960);
}

#[test]
fn cosine_of_opposite_vectors_is_minus_one() {
    let u: Vec<i16> = (1..=20).map(|x| x as i16).collect();
    let v: Vec<i16> = u.iter().map(|x| -x).collect();
    assert_eq!(cosine_similarity(&u, &v), -1000);
}

#[test]
fn query_on_empty_store_returns_no_match() {
    let db = Database::new();
    let query = matrix(100, |r, c| ((r + c) % 13) as i16 + 1);
    assert!(db.query(&query).is_none());
}

#[test]
fn insert_rejects_mismatched_columns() {
    let mut db = Database::new();
    let bad: Vec<Vec<i16>> = vec![vec![1i16; 19]; 4];
    assert_eq!(
        db.insert("short".to_string(), bad),
        Err(DetectorError::MalformedFingerprint)
    );
    let query = matrix(100, |_, _| 1);
    assert!(db.query(&query).is_none());
}

#[test]
fn verbatim_subwindow_scores_full_marks() {
    let mut db = Database::new();
    let fp = matrix(150, |r, c| ((r * 31 + c * 7) % 61) as i16 - 30);
    db.insert("test".to_string(), fp.clone()).unwrap();
    // A 100-row sub-window taken verbatim at offset 50, a scanned offset.
    let query: Vec<Vec<i16>> = fp[50..150].to_vec();
    let res = db.query(&query).expect("verbatim sub-window must match");
    assert_eq!(res.label, "test");
    assert!(res.score >= 990);
    assert_eq!(res.score, 1000);
}

#[test]
fn entries_shorter_than_query_are_skipped() {
    let mut db = Database::new();
    db.insert("short".to_string(), matrix(50, |_, _| 5)).unwrap();
    let query = matrix(100, |_, _| 5);
    assert!(db.query(&query).is_none());
}

#[test]
fn first_inserted_entry_wins_ties() {
    let mut db = Database::new();
    let fp = matrix(100, |r, c| ((r + 2 * c) % 17) as i16 + 1);
    db.insert("test".to_string(), fp.clone()).unwrap();
    db.insert("test2".to_string(), fp.clone()).unwrap();
    let res = db.query(&fp).unwrap();
    assert_eq!(res.label, "test");
    assert_eq!(res.score, 1000);
}

#[test]
fn negative_alignment_is_no_match() {
    let mut db = Database::new();
    let fp = matrix(100, |_, c| if c == 0 { 10 } else { 0 });
    let query = matrix(100, |_, c| if c == 0 { -10 } else { 0 });
    db.insert("anti".to_string(), fp).unwrap();
    assert!(db.query(&query).is_none());
}

#[test]
fn fingerprint_match_scores_best_offset() {
    let hay = matrix(200, |r, c| if r >= 100 { ((c + r) % 23) as i16 + 1 } else { 0 });
    let needle: Vec<Vec<i16>> = hay[100..200].to_vec();
    assert_eq!(fingerprint_match(&needle, &hay), 1000);
}

#[test]
fn fingerprint_match_without_positive_offset_is_zero() {
    let hay = matrix(120, |_, c| if c == 0 { 4 } else { 0 });
    let needle = matrix(100, |_, c| if c == 1 { 4 } else { 0 });
    assert_eq!(fingerprint_match(&needle, &hay), 0);
}
