use sensor_pipeline::id_map::IdMap;
use sensor_pipeline::models::AggregatedFrame;
use sensor_pipeline::storage::{frame_files, DataStorage};

fn frame(frame_id: u64, window_end: u64) -> AggregatedFrame {
    AggregatedFrame {
        frame_id,
        window_start: 0,
        window_end,
        sensor_stats: IdMap::new(),
        anomalies: Vec::new(),
        sensor_internal_buffer_max: IdMap::new(),
    }
}

fn bytes(names: &[&str]) -> Vec<Vec<u8>> {
    names.iter().map(|n| n.as_bytes().to_vec()).collect()
}

#[test]
fn frame_files_are_named_by_window_and_id() {
    let storage = DataStorage::new("./data".to_string());
    assert_eq!(storage.base_path, "./data");
    let f = storage.file_for(&frame(7, 1_700_000_001_000));
    assert_eq!(f.final_name, "frame_1700000001000_7.json");
    assert_eq!(f.temp_name, ".frame_1700000001000_7.json.tmp");
    let g = storage.file_for(&frame(0, 0));
    assert_eq!(g.final_name, "frame_0_0.json");
}

#[test]
fn names_differ_for_different_frames() {
    let storage = DataStorage::new("d".to_string());
    let a = storage.file_for(&frame(23, 1)).final_name;
    let b = storage.file_for(&frame(3, 12)).final_name;
    assert_ne!(a, b);
}

#[test]
fn only_json_files_are_read_in_byte_order() {
    let names = bytes(&[
        "frame_9_0.json",
        "notes.txt",
        ".frame_1_0.json.tmp",
        "frame_10_0.json",
        ".json",
        "a.JSON",
        "json",
        "x.json",
        "B.json",
    ]);
    assert_eq!(frame_files(&names), vec![8, 3, 0, 7]);
    assert!(frame_files(&Vec::new()).is_empty());
}

#[test]
fn names_need_not_be_text() {
    let names = vec![vec![0xff, b'.', b'j', b's', b'o', b'n'], b"a.json".to_vec()];
    assert_eq!(frame_files(&names), vec![1, 0]);
}

#[test]
fn finished_file_is_read_and_unfinished_is_not() {
    let f = DataStorage::new("d".to_string()).file_for(&frame(1, 2));
    let names = vec![f.temp_name.into_bytes(), f.final_name.into_bytes()];
    assert_eq!(frame_files(&names), vec![1]);
}
