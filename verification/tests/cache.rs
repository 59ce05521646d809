use sensor_pipeline::cache::{FramesCacheState, FramesLoadDecision, FRAMES_CACHE_TTL_MS};
use sensor_pipeline::id_map::IdMap;
use sensor_pipeline::models::AggregatedFrame;

fn frame(frame_id: u64, window_end: u64) -> AggregatedFrame {
    AggregatedFrame {
        frame_id,
        window_start: 0,
        window_end,
        sensor_stats: IdMap::new(),
        anomalies: Vec::new(),
        sensor_internal_buffer_max: IdMap::new(),
    }
}

fn ids(v: &[AggregatedFrame]) -> Vec<u64> {
    v.iter().map(|f| f.frame_id).collect()
}

#[test]
fn empty_cache_loads_once_and_others_wait() {
    let mut cache = FramesCacheState::default();
    let now = 1_000_000;
    assert!(matches!(cache.load_all_frames_on_pool(now), FramesLoadDecision::SyncLoad));
    assert!(!cache.wait_is_over());
    assert!(matches!(cache.load_all_frames_on_pool(now), FramesLoadDecision::Wait));
    assert!(matches!(cache.load_latest_frames_for_api(now), FramesLoadDecision::Wait));
    let mut loaded = vec![frame(1, 10)];
    cache.apply_disk_refresh_to_cache(&mut loaded, now + 5);
    assert!(cache.wait_is_over());
    match cache.load_all_frames_on_pool(now + 5) {
        FramesLoadDecision::Serve(v) => assert_eq!(ids(&v), vec![1]),
        _ => panic!("fresh frames are served"),
    }
}

#[test]
fn frame_recorded_during_load_is_merged() {
    let mut cache = FramesCacheState::default();
    let now = 1_000_000;
    assert!(matches!(cache.load_all_frames_on_pool(now), FramesLoadDecision::SyncLoad));
    assert!(!cache.record_aggregated_frame(frame(7, 70), now + 1));
    assert_eq!(cache.pending_pushes.len(), 1);
    let mut loaded = vec![frame(9, 90), frame(3, 30)];
    cache.apply_disk_refresh_to_cache(&mut loaded, now + 2);
    assert_eq!(ids(&loaded), vec![3, 7, 9]);
    assert_eq!(ids(&cache.frames), vec![3, 7, 9]);
    assert!(cache.pending_pushes.is_empty());
    assert_eq!(cache.refreshed_at_ms, now + 2);
}

#[test]
fn recorded_frame_is_served_first() {
    let mut cache = FramesCacheState::default();
    for i in 0..15 {
        assert!(cache.record_aggregated_frame(frame(i, 1000 * i), 500_000 + i));
    }
    match cache.load_latest_frames_for_api(500_014) {
        FramesLoadDecision::Serve(v) => {
            assert_eq!(ids(&v), vec![14, 13, 12, 11, 10, 9, 8, 7, 6, 5])
        }
        _ => panic!("a recorded frame keeps the cache fresh"),
    }
}

#[test]
fn stale_frames_are_returned_while_one_load_runs() {
    let mut cache = FramesCacheState::default();
    cache.record_aggregated_frame(frame(1, 10), 1000);
    let fresh = 1000 + FRAMES_CACHE_TTL_MS;
    assert!(matches!(cache.load_all_frames_on_pool(fresh), FramesLoadDecision::Serve(_)));
    match cache.load_all_frames_on_pool(fresh + 1) {
        FramesLoadDecision::ReturnStaleStartBg(v) => assert_eq!(ids(&v), vec![1]),
        _ => panic!("stale frames start a load"),
    }
    assert!(cache.refreshing);
    match cache.load_latest_frames_for_api(fresh + 2) {
        FramesLoadDecision::Serve(v) => assert_eq!(ids(&v), vec![1]),
        _ => panic!("a second request does not start a second load"),
    }
}

#[test]
fn stale_latest_frames_are_bounded() {
    let mut cache = FramesCacheState::default();
    for i in 0..15 {
        cache.record_aggregated_frame(frame(i, 1000 * i), 500_000);
    }
    match cache.load_latest_frames_for_api(500_000 + FRAMES_CACHE_TTL_MS + 1) {
        FramesLoadDecision::ReturnStaleStartBg(v) => {
            assert_eq!(v.len(), 10);
            assert_eq!(v[0].frame_id, 14);
        }
        _ => panic!("stale frames start a load"),
    }
}

#[test]
fn clock_that_goes_back_keeps_cache_fresh() {
    let mut cache = FramesCacheState::default();
    cache.record_aggregated_frame(frame(1, 10), 9_000_000);
    assert!(matches!(cache.load_all_frames_on_pool(5), FramesLoadDecision::Serve(_)));
}

#[test]
fn frames_wait_only_while_a_load_runs() {
    let mut cache = FramesCacheState::default();
    let now = 1_000_000;
    assert!(cache.pending_pushes.is_empty());
    cache.record_aggregated_frame(frame(1, 10), now);
    assert!(cache.pending_pushes.is_empty());
    let later = now + FRAMES_CACHE_TTL_MS + 1;
    cache.load_latest_frames_for_api(later);
    cache.record_aggregated_frame(frame(2, 20), later);
    assert_eq!(ids(&cache.pending_pushes), vec![2]);
    cache.apply_disk_refresh_to_cache(&mut vec![frame(1, 10)], later + 1);
    assert!(cache.pending_pushes.is_empty());
    assert_eq!(ids(&cache.frames), vec![1, 2]);
    cache.record_aggregated_frame(frame(3, 30), later + 2);
    assert!(cache.pending_pushes.is_empty());
}
