use ps5_emulator::package::{GamePackage, GamePatch, GameSaveData, PatchChange, PACKAGE_TYPE_GAME};

fn package() -> GamePackage {
    GamePackage::new_at("CUSA-1".to_string(), "Game".to_string(), "1.0".to_string(), 1700000000)
}

#[test]
fn new_package_fields() {
    let p = package();
    assert_eq!(p.package_id, "PKG-CUSA-1-1700000000");
    assert_eq!(p.package_type, PACKAGE_TYPE_GAME);
    assert_eq!(p.required_firmware, "10.00");
    assert_eq!(p.regions, vec!["ALL".to_string()]);
    assert_eq!(p.languages, vec!["en".to_string(), "pt".to_string()]);
    assert_eq!(p.release_date, 1700000000);
    assert_eq!(p.rating, "RP");
    assert_eq!(p.get_total_size(), 0);
}

#[test]
fn hash_folds_bytes_into_slots() {
    let p = package();
    let mut expected = [0u8; 32];
    expected[0] = 2;
    expected[1] = 4;
    expected[2] = 6;
    assert_eq!(p.calculate_hash(&[1, 2, 3]), expected);
    let mut long = vec![0u8; 33];
    long[0] = 0x80;
    long[32] = 1;
    let h = p.calculate_hash(&long);
    // 0x80 rotated is 0x01; then (0x01 + 1) rotated is 0x04.
    assert_eq!(h[0], 0x04);
}

#[test]
fn chunks_add_up() {
    let mut p = package();
    assert_eq!(p.add_chunk(vec![1, 2, 3], false), 0);
    assert_eq!(p.add_chunk(vec![4, 5], true), 1);
    assert_eq!(p.size_bytes, 5);
    assert_eq!(p.get_total_size(), 5);
    assert_eq!(p.chunks[1].offset, 3);
    assert!(p.chunks[1].compressed);
    assert_eq!(p.extract_data(), vec![1, 2, 3, 4, 5]);
    assert!(p.verify_integrity());
}

#[test]
fn tampered_chunk_fails_integrity() {
    let mut p = package();
    p.add_chunk(vec![9, 9, 9], false);
    p.chunks[0].data[1] = 8;
    assert!(!p.verify_integrity());
}

#[test]
fn patch_sizes() {
    let mut patch = GamePatch::new("PKG-1".to_string(), "1.1".to_string());
    assert_eq!(patch.patch_id, "PATCH-PKG-1-1.1");
    patch.add_change(PatchChange::AddFile { path: "a".to_string(), data: vec![1, 2] });
    patch.add_change(PatchChange::DeleteFile { path: "b".to_string() });
    patch.add_change(PatchChange::ModifyChunk { chunk_id: 0, data: vec![1, 2, 3] });
    assert_eq!(patch.size_bytes, 5);
    assert_eq!(patch.changes.len(), 3);
}

#[test]
fn save_data() {
    let mut s = GameSaveData::new_at("PKG-1".to_string(), "profile_001".to_string(), 42);
    assert_eq!(s.save_id, "SAVE-PKG-1-42");
    s.set_data(vec![1, 2]);
    s.add_metadata("k".to_string(), "v".to_string());
    s.add_metadata("k".to_string(), "w".to_string());
    assert_eq!(s.data, vec![1, 2]);
    assert_eq!(s.metadata.len(), 1);
    assert_eq!(s.metadata.get("k").unwrap(), "w");
}

#[test]
fn chunks_keep_the_order_they_were_added_in() {
    let mut p = package();
    p.add_chunk(vec![1, 2, 3], false);
    p.add_chunk(vec![], true);
    p.add_chunk(vec![4, 5], false);
    p.add_chunk(vec![6], true);
    let offsets: Vec<u64> = p.chunks.iter().map(|c| c.offset).collect();
    let sizes: Vec<u64> = p.chunks.iter().map(|c| c.size).collect();
    let ids: Vec<u32> = p.chunks.iter().map(|c| c.chunk_id).collect();
    assert_eq!(ids, vec![0, 1, 2, 3]);
    assert_eq!(offsets, vec![0, 3, 3, 5]);
    assert_eq!(sizes, vec![3, 0, 2, 1]);
    assert_eq!(p.chunks[2].data, vec![4, 5]);
    assert!(p.verify_integrity());
    assert_eq!(p.get_total_size(), p.size_bytes);
    assert_eq!(p.size_bytes, 6);
    assert_eq!(p.extract_data(), vec![1, 2, 3, 4, 5, 6]);
    assert_eq!(p.title_id, "CUSA-1");
}

#[test]
fn patch_keeps_changes_in_order() {
    let mut patch = GamePatch::new("PKG-2".to_string(), "2.0".to_string());
    patch.add_change(PatchChange::DeleteFile { path: "x".to_string() });
    patch.add_change(PatchChange::AddChunk { chunk_id: 7, data: vec![0; 10] });
    patch.add_change(PatchChange::ModifyFile { path: "y".to_string(), data: vec![1] });
    assert!(matches!(&patch.changes[0], PatchChange::DeleteFile { path } if path == "x"));
    assert!(matches!(&patch.changes[1], PatchChange::AddChunk { chunk_id: 7, .. }));
    assert!(matches!(&patch.changes[2], PatchChange::ModifyFile { path, .. } if path == "y"));
    assert_eq!(patch.size_bytes, 11);
    assert_eq!(patch.patch_id, "PATCH-PKG-2-2.0");
    assert!(!patch.is_installed);
}
