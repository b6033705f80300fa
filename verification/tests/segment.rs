use handyxmutter::segment::{collect_regions, SpeechRegion};

fn region(start_ms: i64, end_ms: i64) -> Result<SpeechRegion, String> {
    Ok(SpeechRegion { start_ms, end_ms, samples: vec![start_ms as i16; 3] })
}

#[test]
fn failed_detections_are_dropped_and_the_batch_survives() {
    let detections = vec![
        region(0, 900),
        Err("window failed".to_string()),
        region(1000, 1900),
        Err("window failed again".to_string()),
        region(2000, 2500),
    ];
    let regions = collect_regions(detections);
    assert_eq!(regions.len(), 3);
    assert_eq!(regions[0].start_ms, 0);
    assert_eq!(regions[0].end_ms, 900);
    assert_eq!(regions[1].start_ms, 1000);
    assert_eq!(regions[2].start_ms, 2000);
    assert_eq!(regions[2].samples, vec![2000i16; 3]);
}

#[test]
fn kept_regions_stay_sorted_and_free_of_overlap() {
    let detections = vec![
        region(0, 100),
        Err("bad".to_string()),
        region(100, 250),
        region(300, 400),
        Err("bad".to_string()),
    ];
    let regions = collect_regions(detections);
    for pair in regions.windows(2) {
        assert!(pair[0].start_ms <= pair[1].start_ms);
        assert!(pair[0].end_ms <= pair[1].start_ms);
    }
}

#[test]
fn no_speech_is_no_error() {
    assert!(collect_regions(Vec::new()).is_empty());
    assert!(collect_regions(vec![Err("bad".to_string())]).is_empty());
}
