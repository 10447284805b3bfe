use duplicate_checker::{
    DigestOutcome, EntryInfo, EntryKind, ErrorKind, Probe, Visit, Walker,
};

fn entry(path: &str, name: &str, kind: EntryKind, size: u64, modified: Option<u64>) -> Probe {
    Probe::Entry(EntryInfo {
        path: path.to_string(),
        file_name: name.to_string(),
        kind,
        size,
        is_readonly: false,
        modified,
    })
}

#[test]
fn only_regular_files_are_recorded() {
    let mut w = Walker::new("root".to_string(), false);
    assert_eq!(w.next_directory(), Some("root".to_string()));
    let entries = vec![
        (entry("root/a", "a", EntryKind::File, 3, Some(5)), DigestOutcome::NotTaken),
        (entry("root/sub", "sub", EntryKind::Directory, 0, Some(5)), DigestOutcome::NotTaken),
        (entry("root/link", "link", EntryKind::Other, 0, Some(5)), DigestOutcome::NotTaken),
    ];
    w.walk_dir(&entries);
    assert_eq!(w.inventory.len(), 1);
    assert_eq!(w.inventory[0].path, "root/a");
    assert_eq!(w.inventory[0].file_name, "a");
    assert_eq!(w.inventory[0].size, 3);
    assert_eq!(w.inventory[0].last_modified, 5);
    assert_eq!(w.inventory[0].sha, "");
    assert_eq!(w.pending, vec!["root/sub".to_string()]);
    assert!(w.skipped.is_empty());
}

#[test]
fn entries_without_metadata_or_timestamp_are_skipped() {
    let mut w = Walker::new("root".to_string(), false);
    w.next_directory();
    let entries = vec![
        (entry("root/a", "a", EntryKind::File, 1, Some(1)), DigestOutcome::NotTaken),
        (Probe::MetadataUnavailable("root/b".to_string()), DigestOutcome::NotTaken),
        (entry("root/c", "c", EntryKind::File, 1, None), DigestOutcome::NotTaken),
        (entry("root/d", "d", EntryKind::File, 1, Some(2)), DigestOutcome::NotTaken),
    ];
    w.walk_dir(&entries);
    assert_eq!(w.inventory.len(), 2);
    assert_eq!(w.skipped.len(), 2);
    assert_eq!(w.skipped[0].kind, ErrorKind::EntryMetadataUnavailable);
    assert_eq!(w.skipped[0].path, "root/b");
    assert_eq!(w.skipped[1].kind, ErrorKind::TimestampUnavailable);
    assert_eq!(w.skipped[1].path, "root/c");
}

#[test]
fn hashing_walk_records_digest_and_skips_hash_failures() {
    let mut w = Walker::new("root".to_string(), true);
    w.next_directory();
    let a = entry("root/a", "a", EntryKind::File, 1, Some(1));
    let b = entry("root/b", "b", EntryKind::File, 1, Some(1));
    let dir = entry("root/s", "s", EntryKind::Directory, 0, Some(1));
    assert!(w.wants_digest(&a));
    assert!(!w.wants_digest(&dir));
    assert!(!w.wants_digest(&entry("root/x", "x", EntryKind::File, 1, None)));
    assert_eq!(w.visit(&a, &DigestOutcome::Taken("ABCD".to_string())), Visit::Recorded);
    match w.visit(&b, &DigestOutcome::Failed) {
        Visit::Skipped(e) => {
            assert_eq!(e.kind, ErrorKind::HashFailure);
            assert_eq!(e.path, "root/b");
        }
        _ => panic!("expected a skipped entry"),
    }
    assert_eq!(w.visit(&dir, &DigestOutcome::NotTaken), Visit::Descended);
    assert_eq!(w.inventory.len(), 1);
    assert_eq!(w.inventory[0].sha, "ABCD");
}

#[test]
fn unreadable_subdirectory_keeps_files_found_elsewhere() {
    let mut w = Walker::new("root".to_string(), false);
    w.next_directory();
    w.walk_dir(&vec![
        (entry("root/a", "a", EntryKind::File, 1, Some(1)), DigestOutcome::NotTaken),
        (entry("root/locked", "locked", EntryKind::Directory, 0, Some(1)), DigestOutcome::NotTaken),
        (entry("root/open", "open", EntryKind::Directory, 0, Some(1)), DigestOutcome::NotTaken),
    ]);
    let open = w.next_directory().unwrap();
    assert_eq!(open, "root/open");
    w.walk_dir(&vec![(
        entry("root/open/b", "b", EntryKind::File, 2, Some(1)),
        DigestOutcome::NotTaken,
    )]);
    let locked = w.next_directory().unwrap();
    assert_eq!(locked, "root/locked");
    let e = w.directory_unreadable(locked);
    assert_eq!(e.kind, ErrorKind::SubdirectoryUnreadable);
    assert_eq!(w.next_directory(), None);
    let inventory = w.finish().unwrap();
    let paths: Vec<&str> = inventory.iter().map(|r| r.path.as_str()).collect();
    assert_eq!(paths, vec!["root/a", "root/open/b"]);
}

#[test]
fn unreadable_root_fails_the_walk() {
    let mut w = Walker::new("gone".to_string(), true);
    let root = w.next_directory().unwrap();
    let e = w.directory_unreadable(root);
    assert_eq!(e.kind, ErrorKind::RootUnreadable);
    assert_eq!(w.next_directory(), None);
    let err = w.finish().unwrap_err();
    assert_eq!(err.kind, ErrorKind::RootUnreadable);
    assert_eq!(err.path, "gone");
}
