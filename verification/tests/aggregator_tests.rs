use audio_snippet_detector::aggregator::OverlappingMfccStream;

fn row(tag: i16) -> Vec<i16> {
    let mut r = vec![0i16; 20];
    r[0] = tag;
    r
}

#[test]
fn emits_exactly_100_rows() {
    let mut agg = OverlappingMfccStream::new(100);
    for k in 0..99 {
        assert!(agg.push(row(k)).is_none());
    }
    let window = agg.push(row(99)).expect("the hundredth row completes a window");
    assert_eq!(window.len(), 100);
    for k in 0..100 {
        assert_eq!(window[k][0], k as i16);
    }
}

#[test]
fn windows_overlap_by_half() {
    let mut agg = OverlappingMfccStream::new(100);
    let mut windows = Vec::new();
    for k in 0..150 {
        if let Some(w) = agg.push(row(k)) {
            windows.push(w);
        }
    }
    assert_eq!(windows.len(), 2);
    // The second window's first 50 rows equal the first window's last 50.
    for k in 0..50 {
        assert_eq!(windows[1][k], windows[0][50 + k]);
    }
    assert_eq!(windows[1][0][0], 50);
    assert_eq!(windows[1][99][0], 149);
}

#[test]
fn short_tail_is_never_emitted() {
    let mut agg = OverlappingMfccStream::new(100);
    for k in 0..99 {
        assert!(agg.push(row(k)).is_none());
    }
}

#[test]
fn small_window_size_overlaps_too() {
    let mut agg = OverlappingMfccStream::new(4);
    let mut windows = Vec::new();
    for k in 0..8 {
        if let Some(w) = agg.push(row(k)) {
            windows.push(w);
        }
    }
    // Windows at rows 0..4, 2..6 and 4..8.
    assert_eq!(windows.len(), 3);
    assert_eq!(windows[0][0][0], 0);
    assert_eq!(windows[1][0][0], 2);
    assert_eq!(windows[2][0][0], 4);
}
