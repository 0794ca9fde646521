use vtt::checkpoint::{
    checkpoint_dir, checkpoint_file_name, checkpoint_temp_name, checkpoint_version_ok,
    is_checkpoint_file,
};

#[test]
fn checkpoint_locations() {
    assert_eq!(checkpoint_dir("/tmp/vtt-jobs", "job1"), "/tmp/vtt-jobs/job1/checkpoints");
    assert_eq!(checkpoint_file_name(0), "chunk_000.json");
    assert_eq!(checkpoint_file_name(42), "chunk_042.json");
    assert_eq!(checkpoint_file_name(1234), "chunk_1234.json");
    assert_eq!(checkpoint_temp_name(3), "chunk_003.json.tmp");
}

#[test]
fn test_load_checkpoints_ignores_tmp_files() {
    assert!(is_checkpoint_file("chunk_000.json"));
    assert!(!is_checkpoint_file("chunk_000.json.tmp"));
    assert!(!is_checkpoint_file("notes.txt"));
    assert!(checkpoint_version_ok(1));
    assert!(!checkpoint_version_ok(2));
}
