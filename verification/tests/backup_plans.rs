use emblem_swapper::backup::{backup_file, plan_export, plan_restore, ArchiveEntry, BackupFile};
use emblem_swapper::storage::{group_name, list_emblems, next_group_index, set_emblem_label, GroupListing, GroupMeta};

fn dir(group: &str, files: &[&str]) -> (String, Vec<String>) {
    (group.to_string(), files.iter().map(|s| s.to_string()).collect())
}

fn entry(name: &str, data: &[u8]) -> ArchiveEntry {
    ArchiveEntry { name: name.to_string(), is_dir: false, data: data.to_vec() }
}

#[test]
fn backup_files_are_slots_and_meta() {
    assert_eq!(backup_file("slot_1.bin"), BackupFile::Slot);
    assert_eq!(backup_file("slot_.bin"), BackupFile::Slot);
    assert_eq!(backup_file("slot_x.bin"), BackupFile::Slot);
    assert_eq!(backup_file("meta.json"), BackupFile::Meta);
    assert_eq!(backup_file("thumb_1_220.png"), BackupFile::Other);
    assert_eq!(backup_file("slot_1.bin.bak"), BackupFile::Other);
}

#[test]
fn backup_then_restore_round_trips_bytes_and_labels_into_new_groups() {
    let mut meta = GroupMeta::default();
    set_emblem_label(&mut meta, 1, "Dragon");
    let meta_bytes = b"{\"labels\":{\"1\":\"Dragon\"}}".to_vec();
    let contents = |file: &str| -> Vec<u8> {
        match file {
            "slot_1.bin" => b"emblem-a-bytes".to_vec(),
            "slot_2.bin" => b"emblem-b-bytes".to_vec(),
            _ => meta_bytes.clone(),
        }
    };

    let (items, exported) = plan_export(&vec![dir("001", &["slot_1.bin", "thumb_1_220.png", "slot_2.bin", "meta.json"])]);
    assert_eq!(exported, 2);
    let names: Vec<&str> = items.iter().map(|i| i.archive_name.as_str()).collect();
    assert_eq!(names, vec!["001/slot_1.bin", "001/slot_2.bin", "001/meta.json"]);

    let archive: Vec<ArchiveEntry> = items.iter().map(|i| entry(&i.archive_name, &contents(&i.file))).collect();
    let plan = plan_restore(&archive);
    assert_eq!(plan.len(), 1);
    let imported: usize = plan.iter().map(|g| g.slots.len()).sum();
    assert_eq!(imported, 2);
    assert_eq!(plan[0].slots[0], (1, b"emblem-a-bytes".to_vec()));
    assert_eq!(plan[0].meta, Some(meta_bytes.clone()));

    // The destination already holds group 001: the restored group gets a new name.
    let existing = vec!["001".to_string()];
    let new_group = group_name(next_group_index(&existing));
    assert_ne!(new_group, "001", "restore should not collide with existing group names");

    let listing = vec![
        GroupListing { group: "001".to_string(), meta: None, slots: vec![1] },
        GroupListing { group: new_group.clone(), meta: Some(meta), slots: vec![1, 2] },
    ];
    let emblems = list_emblems(&listing);
    assert_eq!(emblems.len(), 3, "existing library should be preserved, not overwritten");
    let restored_group = emblems
        .iter()
        .find(|e| e.label == "Dragon")
        .expect("restored labeled emblem should exist")
        .group
        .clone();
    assert_eq!(restored_group, new_group);
}

#[test]
fn backup_of_empty_library_produces_zero_count() {
    let (items, count) = plan_export(&Vec::new());
    assert_eq!(count, 0);
    assert!(items.is_empty());
    assert!(plan_restore(&Vec::new()).is_empty());
}

#[test]
fn meta_without_labels_field_defaults_to_empty_map_on_restore() {
    let archive = vec![
        entry("005/slot_1.bin", b"data"),
        entry("005/meta.json", b"{\"userhash\":\"u123\",\"first_captured\":\"2026-01-01 00:00:00\"}"),
    ];
    let plan = plan_restore(&archive);
    assert_eq!(plan.len(), 1);
    assert_eq!(plan[0].group, "005");
    assert!(plan[0].meta.is_some());
    // The record read back from that meta file has no labels.
    let meta = GroupMeta {
        userhash: Some("u123".to_string()),
        first_captured: Some("2026-01-01 00:00:00".to_string()),
        labels: Vec::new(),
    };
    let listing = vec![GroupListing { group: "001".to_string(), meta: Some(meta), slots: vec![1] }];
    let emblems = list_emblems(&listing);
    assert_eq!(emblems.len(), 1);
    assert_eq!(emblems[0].label, "");
    assert_eq!(emblems[0].captured_at, "2026-01-01 00:00:00");
}

#[test]
fn restore_skips_directories_the_selection_and_groups_without_emblems() {
    let archive = vec![
        ArchiveEntry { name: "009/".to_string(), is_dir: true, data: Vec::new() },
        entry("_active/slot_1.bin", b"sel"),
        entry("/slot_1.bin", b"nogroup"),
        entry("loose.bin", b"noslash"),
        entry("007/meta.json", b"m7"),
        entry("b/slot_+3.bin", b"b3"),
        entry("a/slot_2.bin", b"a2"),
        entry("a/meta.json", b"first"),
        entry("a/slot_x.bin", b"bad"),
        entry("a/meta.json", b"second"),
        entry("a/slot_1.bin", b"a1"),
    ];
    let plan = plan_restore(&archive);
    let groups: Vec<&str> = plan.iter().map(|g| g.group.as_str()).collect();
    assert_eq!(groups, vec!["a", "b"]);
    assert_eq!(plan[0].slots, vec![(2, b"a2".to_vec()), (1, b"a1".to_vec())]);
    assert_eq!(plan[0].meta, Some(b"second".to_vec()));
    assert_eq!(plan[1].slots, vec![(3, b"b3".to_vec())]);
    assert_eq!(plan[1].meta, None);
}
