use sensor_pipeline::frames::{
    cmp_latest_desc, merge_frame_into_vec, newest_frames_bounded, range_frames, MAX_CACHED_FRAMES,
    MAX_LATEST_FRAMES,
};
use sensor_pipeline::id_map::IdMap;
use sensor_pipeline::models::AggregatedFrame;
use std::cmp::Ordering;

fn make_frame(frame_id: u64, window_end: u64) -> AggregatedFrame {
    AggregatedFrame {
        frame_id,
        window_start: 0,
        window_end,
        sensor_stats: IdMap::new(),
        anomalies: Vec::new(),
        sensor_internal_buffer_max: IdMap::new(),
    }
}

/// Reference: full sort + take.
fn newest_frames_naive(frames: &[AggregatedFrame]) -> Vec<AggregatedFrame> {
    let mut v = frames.to_vec();
    v.sort_by(|a, b| cmp_latest_desc(a, b));
    v.into_iter().take(MAX_LATEST_FRAMES).collect()
}

fn assert_same_latest(a: &[AggregatedFrame], b: &[AggregatedFrame]) {
    assert_eq!(a.len(), b.len(), "len mismatch");
    for (x, y) in a.iter().zip(b.iter()) {
        assert_eq!(x.frame_id, y.frame_id);
        assert_eq!(x.window_end, y.window_end);
    }
}

fn keys(frames: &[AggregatedFrame]) -> Vec<(u64, u64)> {
    frames.iter().map(|f| (f.window_end, f.frame_id)).collect()
}

#[test]
fn newest_frames_bounded_empty() {
    let frames: Vec<AggregatedFrame> = vec![];
    assert!(newest_frames_bounded(&frames).is_empty());
    assert!(newest_frames_naive(&frames).is_empty());
}

#[test]
fn newest_frames_bounded_fewer_than_cap() {
    let frames = vec![make_frame(1, 100), make_frame(2, 200)];
    assert_same_latest(&newest_frames_bounded(&frames), &newest_frames_naive(&frames));
}

#[test]
fn newest_frames_bounded_exactly_cap() {
    let frames: Vec<_> = (0..10_u64).map(|i| make_frame(i, i * 10)).collect();
    assert_same_latest(&newest_frames_bounded(&frames), &newest_frames_naive(&frames));
}

#[test]
fn newest_frames_bounded_more_than_cap_ties_window_end() {
    let mut frames = vec![];
    for id in 0..25_u64 {
        frames.push(make_frame(id, 500));
    }
    assert_same_latest(&newest_frames_bounded(&frames), &newest_frames_naive(&frames));
}

#[test]
fn newest_frames_bounded_mixed_keys() {
    let frames = vec![
        make_frame(0, 10),
        make_frame(5, 100),
        make_frame(3, 100),
        make_frame(9, 50),
        make_frame(1, 200),
        make_frame(2, 200),
        make_frame(7, 150),
        make_frame(4, 150),
        make_frame(8, 150),
        make_frame(6, 150),
        make_frame(10, 149),
        make_frame(11, 151),
    ];
    assert_same_latest(&newest_frames_bounded(&frames), &newest_frames_naive(&frames));
}

#[test]
fn newest_frames_bounded_pseudo_random() {
    let mut frames = Vec::new();
    let mut we: u64 = 1;
    let mut fid: u64 = 0;
    for _ in 0..200 {
        we = we.wrapping_mul(6364136223846793005).wrapping_add(1);
        fid = fid.wrapping_add(we % 7 + 1);
        frames.push(make_frame(fid, we % 10_000));
    }
    assert_same_latest(&newest_frames_bounded(&frames), &newest_frames_naive(&frames));
}

#[test]
fn newest_frames_bounded_gives_exact_keys() {
    let frames: Vec<_> = (1..=12_u64).map(|i| make_frame(i, 1000 * (i % 4))).collect();
    assert_eq!(
        keys(&newest_frames_bounded(&frames)),
        vec![
            (3000, 11),
            (3000, 7),
            (3000, 3),
            (2000, 10),
            (2000, 6),
            (2000, 2),
            (1000, 9),
            (1000, 5),
            (1000, 1),
            (0, 12),
        ]
    );
}

#[test]
fn newest_frames_bounded_keeps_first_of_equal_keys() {
    let mut frames: Vec<_> = (0..12_u64).map(|_| make_frame(1, 100)).collect();
    for (i, f) in frames.iter_mut().enumerate() {
        f.window_start = i as u64;
    }
    let starts: Vec<u64> = newest_frames_bounded(&frames).iter().map(|f| f.window_start).collect();
    assert_eq!(starts, (0..10).collect::<Vec<u64>>());
}

#[test]
fn cmp_latest_desc_orders_newer_first() {
    assert_eq!(cmp_latest_desc(&make_frame(1, 200), &make_frame(9, 100)), Ordering::Less);
    assert_eq!(cmp_latest_desc(&make_frame(1, 100), &make_frame(2, 100)), Ordering::Greater);
    assert_eq!(cmp_latest_desc(&make_frame(2, 100), &make_frame(2, 100)), Ordering::Equal);
}

#[test]
fn merge_replaces_frame_with_same_key() {
    let mut frames = vec![make_frame(1, 100), make_frame(2, 100), make_frame(3, 50)];
    let mut again = make_frame(1, 100);
    again.window_start = 77;
    merge_frame_into_vec(&mut frames, again);
    assert_eq!(keys(&frames), vec![(50, 3), (100, 1), (100, 2)]);
    assert_eq!(frames[1].window_start, 77);
}

#[test]
fn merge_drops_oldest_past_the_limit() {
    let mut frames: Vec<_> = (0..MAX_CACHED_FRAMES as u64).map(|i| make_frame(i, i + 10)).collect();
    merge_frame_into_vec(&mut frames, make_frame(5, 1_000_000));
    assert_eq!(frames.len(), MAX_CACHED_FRAMES);
    assert_eq!(keys(&frames[..1]), vec![(11, 1)]);
    assert_eq!(keys(&frames[frames.len() - 1..]), vec![(1_000_000, 5)]);
}

#[test]
fn range_is_inclusive_and_newest_first() {
    let frames = vec![make_frame(1, 10), make_frame(2, 20), make_frame(3, 30), make_frame(4, 20)];
    assert_eq!(
        keys(&range_frames(frames.clone(), Some(20), Some(30))),
        vec![(30, 3), (20, 4), (20, 2)]
    );
    assert_eq!(keys(&range_frames(frames.clone(), None, Some(10))), vec![(10, 1)]);
    assert_eq!(range_frames(frames.clone(), Some(31), None).len(), 0);
    assert_eq!(range_frames(frames, None, None).len(), 4);
}
