use emblem_swapper::emblem::format::{strip_http, LAYER_SIZE, NUM_LAYERS};
use emblem_swapper::storage::{
    find_duplicate_groups, get_or_create_capture_group, group_name, is_thumb_of, list_emblems,
    new_emblem_record, next_group_index, parse_slot_filename, remove_label, set_emblem_label,
    slot_file_name, slot_numbers, sort_group_names, thumb_file_name, validate_import, CaptureTarget,
    EmblemInfo, GroupListing, GroupMeta,
};

fn names(v: &[&str]) -> Vec<String> {
    v.iter().map(|s| s.to_string()).collect()
}

fn meta_at(time: &str) -> GroupMeta {
    GroupMeta { userhash: None, first_captured: Some(time.to_string()), labels: Vec::new() }
}

fn fake_captured_bytes() -> Vec<u8> {
    let mut data = b"HTTP/1.1 200 OK\r\nContent-Length: 1408\r\n\r\n".to_vec();
    data.extend(std::iter::repeat(0u8).take(LAYER_SIZE * NUM_LAYERS));
    data
}

fn info(group: &str, slot: u32, captured_at: &str) -> EmblemInfo {
    EmblemInfo {
        id: format!("{group}:{slot}"),
        group: group.to_string(),
        slot,
        label: String::new(),
        captured_at: captured_at.to_string(),
    }
}

#[test]
fn numeric_groups_sort_before_alpha_and_ascending() {
    let sorted = sort_group_names(names(&["010", "002", "zzz", "001", "_active", "aaa"]));
    assert_eq!(sorted, vec!["001", "002", "010", "aaa", "zzz"]);
}

#[test]
fn next_group_index_continues_from_highest_numeric_name() {
    assert_eq!(next_group_index(&names(&["001", "007", "not-numeric"])), 8);
    assert_eq!(next_group_index(&Vec::new()), 1);
}

#[test]
fn group_names_are_zero_padded_to_three_digits() {
    assert_eq!(group_name(1), "001");
    assert_eq!(group_name(42), "042");
    assert_eq!(group_name(1234), "1234");
}

#[test]
fn capture_group_reuses_same_target_but_starts_new_group_for_new_target() {
    let mut groups: Vec<String> = Vec::new();
    let mut metas: Vec<GroupMeta> = Vec::new();

    let g1 = match get_or_create_capture_group(&groups, metas.last(), "uaaaa", "2026-01-01 00:00:00".to_string()) {
        CaptureTarget::New(name, meta) => {
            groups.push(name.clone());
            metas.push(meta);
            name
        }
        CaptureTarget::Existing(name) => name,
    };
    assert_eq!(g1, "001");

    let g2 = match get_or_create_capture_group(&groups, metas.last(), "uaaaa", "2026-01-01 00:00:01".to_string()) {
        CaptureTarget::New(name, _) => name,
        CaptureTarget::Existing(name) => name,
    };
    assert_eq!(g2, "001");

    let g3 = match get_or_create_capture_group(&groups, metas.last(), "ubbbb", "2026-01-01 00:00:02".to_string()) {
        CaptureTarget::New(name, meta) => {
            assert_eq!(meta.userhash.as_deref(), Some("ubbbb"));
            assert_eq!(meta.first_captured.as_deref(), Some("2026-01-01 00:00:02"));
            name
        }
        CaptureTarget::Existing(name) => name,
    };
    assert_eq!(g3, "002");
}

#[test]
fn corrupted_meta_json_degrades_to_empty_instead_of_erroring() {
    // A record that could not be read is listed as if there were none.
    let listing = vec![GroupListing { group: "001".to_string(), meta: None, slots: vec![5] }];
    let emblems = list_emblems(&listing);
    assert_eq!(emblems.len(), 1);
    assert_eq!(emblems[0].label, "");
    assert_eq!(emblems[0].captured_at, "");
    assert_eq!(emblems[0].id, "001:5");
}

#[test]
fn set_emblem_label_add_and_clear() {
    let mut meta = GroupMeta::default();
    set_emblem_label(&mut meta, 1, "Sam's dragon");
    let listing = vec![GroupListing { group: "001".to_string(), meta: Some(meta.clone()), slots: vec![1] }];
    assert_eq!(list_emblems(&listing)[0].label, "Sam's dragon");

    set_emblem_label(&mut meta, 1, "");
    let listing = vec![GroupListing { group: "001".to_string(), meta: Some(meta.clone()), slots: vec![1] }];
    assert_eq!(list_emblems(&listing)[0].label, "");
}

#[test]
fn relabelling_replaces_and_removing_keeps_other_slots() {
    let mut meta = GroupMeta::default();
    set_emblem_label(&mut meta, 1, "first");
    set_emblem_label(&mut meta, 2, "second");
    set_emblem_label(&mut meta, 1, "again");
    remove_label(&mut meta, 2);
    let listing = vec![GroupListing { group: "003".to_string(), meta: Some(meta), slots: vec![1, 2] }];
    let emblems = list_emblems(&listing);
    assert_eq!(emblems[0].label, "again");
    assert_eq!(emblems[1].label, "");
}

#[test]
fn list_emblems_sorts_newest_captured_first() {
    let listing = vec![
        GroupListing { group: "001".to_string(), meta: Some(meta_at("2026-01-01 10:00:00")), slots: vec![1] },
        GroupListing { group: "002".to_string(), meta: Some(meta_at("2026-06-01 10:00:00")), slots: vec![1] },
    ];
    let emblems = list_emblems(&listing);
    assert_eq!(emblems[0].group, "002");
    assert_eq!(emblems[1].group, "001");
}

#[test]
fn import_rejects_files_that_are_too_small_to_be_an_emblem() {
    let err = validate_import(b"not an emblem").unwrap_err();
    assert!(err.contains("doesn't look like a valid emblem"));
    assert!(validate_import(&fake_captured_bytes()).is_ok());
}

#[test]
fn import_without_a_label_leaves_it_blank() {
    let rec = new_emblem_record(1, "2026-01-01 00:00:00".to_string(), None);
    assert_eq!(rec.info.label, "");
    let rec2 = new_emblem_record(2, "2026-01-01 00:00:00".to_string(), Some("   "));
    assert_eq!(rec2.info.label, "", "whitespace-only label should be treated as blank");
}

#[test]
fn import_records_a_trimmed_label_in_slot_one_of_a_new_group() {
    let rec = new_emblem_record(4, "2026-02-03 04:05:06".to_string(), Some("  Imported dragon "));
    assert_eq!(rec.group, "004");
    assert_eq!(rec.info.slot, 1);
    assert_eq!(rec.info.id, "004:1");
    assert_eq!(rec.info.label, "Imported dragon");
    assert_eq!(rec.info.captured_at, "2026-02-03 04:05:06");
    assert_eq!(rec.meta.labels, vec![("1".to_string(), "Imported dragon".to_string())]);
}

#[test]
fn duplicate_detection_ignores_differing_http_headers_but_matches_on_body() {
    let body = fake_captured_bytes();
    let mut framed_a = b"HTTP/1.1 200 OK\r\nDate: Mon, 01 Jan 2026 00:00:00 GMT\r\n\r\n".to_vec();
    framed_a.extend_from_slice(strip_http(&body));
    let mut framed_b = b"HTTP/1.1 200 OK\r\nDate: Tue, 02 Jan 2026 00:00:00 GMT\r\n\r\n".to_vec();
    framed_b.extend_from_slice(strip_http(&body));
    let mut different_body = strip_http(&body).to_vec();
    different_body[0] = different_body[0].wrapping_add(1);
    let mut framed_c = b"HTTP/1.1 200 OK\r\n\r\n".to_vec();
    framed_c.extend_from_slice(&different_body);

    let items = vec![
        (info("001", 1, ""), Some(framed_a)),
        (info("002", 1, ""), Some(framed_b)),
        (info("003", 1, ""), Some(framed_c)),
    ];
    let groups = find_duplicate_groups(&items);
    assert_eq!(groups.len(), 1);
    assert_eq!(groups[0].len(), 2);
}

#[test]
fn no_duplicates_when_every_capture_is_unique() {
    let items = vec![(info("001", 1, ""), Some(fake_captured_bytes()))];
    assert!(find_duplicate_groups(&items).is_empty());
}

#[test]
fn duplicates_are_oldest_first_and_larger_groups_first() {
    let items = vec![
        (info("001", 1, "2026-03-01"), Some(b"x".to_vec())),
        (info("002", 1, "2026-01-01"), Some(b"y".to_vec())),
        (info("003", 1, "2026-02-01"), Some(b"y".to_vec())),
        (info("004", 1, "2026-01-15"), Some(b"y".to_vec())),
        (info("005", 1, "2026-01-01"), Some(b"x".to_vec())),
        (info("006", 1, "2026-01-01"), None),
    ];
    let groups = find_duplicate_groups(&items);
    assert_eq!(groups.len(), 2);
    let g0: Vec<&str> = groups[0].iter().map(|e| e.group.as_str()).collect();
    let g1: Vec<&str> = groups[1].iter().map(|e| e.group.as_str()).collect();
    assert_eq!(g0, vec!["002", "004", "003"]);
    assert_eq!(g1, vec!["005", "001"]);
}

#[test]
fn slot_and_thumb_file_names() {
    assert_eq!(slot_file_name(7), "slot_7.bin");
    assert_eq!(thumb_file_name(7, 220), "thumb_7_220.png");
    assert!(is_thumb_of("thumb_7_220.png", 7));
    assert!(!is_thumb_of("thumb_71_220.png", 7));
    assert_eq!(parse_slot_filename("slot_12.bin"), Some(12));
    assert_eq!(parse_slot_filename("slot_.bin"), None);
    assert_eq!(parse_slot_filename("slot_+1.bin"), None);
    assert_eq!(parse_slot_filename("slot_4294967296.bin"), None);
    assert_eq!(slot_numbers(&names(&["slot_3.bin", "meta.json", "slot_1.bin", "thumb_1_220.png"])), vec![1, 3]);
}
