use duplicate_checker::{
    clustering_fits, digest_hex, digests_equal, find_duplicates, is_a_duplicate,
    judge_duplicate, record_less_eq, sort_records, DigestOutcome, DuplicateKey, EntryInfo,
    EntryKind, FileData, Probe, Walker,
};

fn rec(path: &str, name: &str, size: u64, sha: &str) -> FileData {
    FileData::from(path.to_string(), name.to_string(), size, 0, false, sha.to_string())
}

#[test]
fn records_sort_by_name_then_size_stably() {
    let records = vec![
        rec("3", "b", 5, ""),
        rec("1", "a", 9, ""),
        rec("2", "a", 2, ""),
        rec("4", "a", 2, ""),
        rec("5", "B", 1, ""),
    ];
    let sorted = sort_records(&records);
    let paths: Vec<&str> = sorted.iter().map(|r| r.path.as_str()).collect();
    assert_eq!(paths, vec!["5", "2", "4", "1", "3"]);
    assert!(record_less_eq(&records[2], &records[1]));
    assert!(!record_less_eq(&records[1], &records[2]));
}

#[test]
fn digests_compare_without_case() {
    assert!(digests_equal(&"ab12".to_string(), &"AB12".to_string()));
    assert!(!digests_equal(&"ab12".to_string(), &"AB13".to_string()));
    assert!(!digests_equal(&"ab1".to_string(), &"ab12".to_string()));
}

#[test]
fn verdict_from_a_given_score() {
    let a = rec("x/a", "a", 1, "FF");
    let b = rec("y/a", "a", 1, "ff");
    let c = rec("z/a", "a", 1, "EE");
    assert!(judge_duplicate(Some(90), &a, &b, 90, true));
    assert!(!judge_duplicate(Some(89), &a, &b, 90, true));
    assert!(!judge_duplicate(None, &a, &b, 0, false));
    assert!(!judge_duplicate(Some(200), &a, &c, 90, true));
    assert!(judge_duplicate(Some(200), &a, &c, 90, false));
}

#[test]
fn name_scoring_separates_similar_and_unrelated_names() {
    let a = rec("x/report.pdf", "report.pdf", 1, "");
    let b = rec("y/report.pdf", "report.pdf", 1, "");
    let c = rec("z/notes.txt", "notes.txt", 1, "");
    assert!(is_a_duplicate(&b, &a, 90, false));
    assert!(!is_a_duplicate(&c, &a, 0, false));
    assert!(!is_a_duplicate(&b, &a, i64::MAX, false));
}

#[test]
fn same_content_names_differing_in_case_cluster_together() {
    let sha = digest_hex(b"same bytes");
    let records = vec![
        rec("d/a.txt", "a.txt", 10, &sha),
        rec("d/A.TXT", "A.TXT", 10, &sha.to_lowercase()),
    ];
    let (clusters, total) = find_duplicates(&records, 90, true);
    assert_eq!(clusters.len(), 1);
    let mut all: Vec<&str> = vec![clusters[0].representative.path.as_str()];
    all.extend(clusters[0].members.iter().map(|m| m.path.as_str()));
    all.sort();
    assert_eq!(all, vec!["d/A.TXT", "d/a.txt"]);
    assert_eq!(total, 10);
}

#[test]
fn same_name_different_content_do_not_cluster() {
    let records = vec![
        rec("x/data.bin", "data.bin", 4, &digest_hex(b"1111")),
        rec("y/data.bin", "data.bin", 4, &digest_hex(b"2222")),
    ];
    let (clusters, total) = find_duplicates(&records, 90, true);
    assert!(clusters.is_empty());
    assert_eq!(total, 0);
    let (by_name, wasted) = find_duplicates(&records, 90, false);
    assert_eq!(by_name.len(), 1);
    assert_eq!(wasted, 4);
}

#[test]
fn wasted_bytes_sum_over_duplicate_pairs() {
    let mut records = vec![];
    let sizes = [10u64, 250, 4096, 7];
    let names = ["alpha.dat", "bravo.dat", "charlie.dat", "delta.dat"];
    for (i, (size, name)) in sizes.iter().zip(names.iter()).enumerate() {
        let sha = digest_hex(format!("content {}", i).as_bytes());
        records.push(rec(&format!("one/{}", name), name, *size, &sha));
        records.push(rec(&format!("two/{}", name), name, *size, &sha));
    }
    let (clusters, total) = find_duplicates(&records, 90, true);
    assert_eq!(clusters.len(), 4);
    assert_eq!(total, 10 + 250 + 4096 + 7);
    for c in &clusters {
        assert_eq!(c.members.len(), 1);
        assert_eq!(c.wasted_bytes, c.members[0].size);
        assert_ne!(c.members[0].path, c.representative.path);
    }
}

#[test]
fn a_record_is_never_its_own_duplicate() {
    let records = vec![
        rec("p/same.txt", "same.txt", 1, "AA"),
        rec("q/same.txt", "same.txt", 1, "AA"),
        rec("r/same.txt", "same.txt", 1, "AA"),
    ];
    let (clusters, _) = find_duplicates(&records, 0, true);
    assert!(!clusters.is_empty());
    for c in &clusters {
        for m in &c.members {
            assert_ne!(m.path, c.representative.path);
        }
    }
}

#[test]
fn working_sequence_advances_after_a_cluster() {
    // Three level names: the anchor takes both others; the working sequence
    // then drops one record, so the last record becomes the next anchor.
    let records = vec![
        rec("p/x", "x", 1, ""),
        rec("q/x", "x", 1, ""),
        rec("r/x", "x", 1, ""),
    ];
    let (clusters, total) = find_duplicates(&records, 0, false);
    assert_eq!(clusters.len(), 1);
    assert_eq!(clusters[0].representative.path, "p/x");
    assert_eq!(clusters[0].members.len(), 2);
    assert_eq!(total, 2);
}

#[test]
fn empty_inventory_has_no_clusters() {
    let (clusters, total) = find_duplicates(&vec![], 90, true);
    assert!(clusters.is_empty());
    assert_eq!(total, 0);
    assert!(clustering_fits(&vec![]));
}

#[test]
fn clustering_bound_is_checked() {
    let small = vec![rec("a", "a", 10, ""), rec("b", "b", 20, "")];
    assert!(clustering_fits(&small));
    let big = vec![rec("a", "a", u64::MAX / 2, ""), rec("b", "b", 1, "")];
    assert!(!clustering_fits(&big));
    let overflow = vec![rec("a", "a", u64::MAX, ""), rec("b", "b", 1, "")];
    assert!(!clustering_fits(&overflow));
}

#[test]
fn duplicate_key_holds_its_parts() {
    let k = DuplicateKey::from("n".to_string(), 3);
    assert_eq!(k.file_name, "n");
    assert_eq!(k.size, 3);
}

fn file_entry(name: &str, size: u64) -> Probe {
    Probe::Entry(EntryInfo {
        path: format!("root/{}", name),
        file_name: name.to_string(),
        kind: EntryKind::File,
        size,
        is_readonly: false,
        modified: Some(1),
    })
}

#[test]
fn end_to_end_report_copy() {
    let contents: [(&str, &[u8]); 3] = [
        ("report.pdf", b"AAAAAAAAAA"),
        ("report_copy.pdf", b"AAAAAAAAAA"),
        ("notes.txt", b"some notes here"),
    ];
    let mut w = Walker::new("root".to_string(), true);
    let dir = w.next_directory().unwrap();
    assert_eq!(dir, "root");
    let mut entries = vec![];
    for (name, bytes) in contents.iter() {
        let probe = file_entry(name, bytes.len() as u64);
        assert!(w.wants_digest(&probe));
        entries.push((probe, DigestOutcome::Taken(digest_hex(bytes))));
    }
    w.walk_dir(&entries);
    assert_eq!(w.next_directory(), None);
    let inventory = w.finish().unwrap();
    assert_eq!(inventory.len(), 3);
    assert!(clustering_fits(&inventory));
    let (clusters, total) = find_duplicates(&inventory, 90, true);
    assert_eq!(clusters.len(), 1);
    assert_eq!(clusters[0].representative.path, "root/report.pdf");
    assert_eq!(clusters[0].members.len(), 1);
    assert_eq!(clusters[0].members[0].path, "root/report_copy.pdf");
    assert_eq!(clusters[0].wasted_bytes, 10);
    assert_eq!(total, 10);
}
