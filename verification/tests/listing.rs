use forkd::listing::{list_local, probe_paths, ObservedEntry};

fn entry(name: &str, is_dir: bool, sizes: [Option<u64>; 4], modified: Option<u64>) -> ObservedEntry {
    ObservedEntry { name: name.to_string(), is_dir, sizes: sizes.to_vec(), modified }
}

#[test]
fn latest_first_and_ties_by_tag() {
    let full = [Some(1), Some(2), Some(3), Some(4)];
    let entries = vec![
        entry("old", true, full, Some(10)),
        entry("b", true, full, Some(20)),
        entry("notes.txt", false, [None; 4], Some(99)),
        entry("unknown", true, [None; 4], None),
        entry("a", true, full, Some(20)),
        entry("B", true, full, Some(20)),
        entry("ab", true, full, Some(20)),
    ];
    let list = list_local(&entries);
    let tags: Vec<_> = list.iter().map(|i| i.tag.as_str()).collect();
    assert_eq!(tags, vec!["B", "a", "ab", "b", "old", "unknown"]);
    for i in 1..list.len() {
        assert!(list[i - 1].created_at_unix >= list[i].created_at_unix);
    }
    assert_eq!(list[5].created_at_unix, 0);
}

#[test]
fn sizes_are_added_up() {
    let entries = vec![
        entry("x", true, [Some(5), None, Some(0), Some(100)], Some(3)),
        entry("y", true, [None, Some(7), None, None], Some(2)),
    ];
    let list = list_local(&entries);
    assert_eq!((list[0].total_bytes, list[0].memory_bytes, list[0].has_rootfs), (105, 100, true));
    assert_eq!((list[1].total_bytes, list[1].memory_bytes, list[1].has_rootfs), (7, 0, false));
}

#[test]
fn equal_entries_keep_their_order() {
    let one = entry("x", true, [Some(1), None, None, None], Some(3));
    let two = entry("x", true, [Some(2), None, None, None], Some(3));
    let list = list_local(&vec![one.clone(), two.clone()]);
    assert_eq!((list[0].total_bytes, list[1].total_bytes), (1, 2));
    let list = list_local(&vec![two, one]);
    assert_eq!((list[0].total_bytes, list[1].total_bytes), (2, 1));
    assert!(list_local(&Vec::new()).is_empty());
}

#[test]
fn files_of_a_snapshot_directory() {
    assert_eq!(
        probe_paths("/s/t"),
        vec!["/s/t/snapshot.json", "/s/t/vmstate", "/s/t/rootfs.ext4", "/s/t/memory.bin"]
    );
}
