use duplicate_checker::{
    report_rows, size_label, DisplayVec, Duplicate, DuplicateCluster, FileData,
};

fn rec(path: &str, size: u64) -> FileData {
    FileData::from(path.to_string(), path.to_string(), size, 0, false, String::new())
}

#[test]
fn size_labels() {
    assert_eq!(size_label(0), "0 Byte");
    assert_eq!(size_label(1023), "1023 Byte");
    assert_eq!(size_label(1024), "1 MB");
    assert_eq!(size_label(5000), "4 MB");
    assert_eq!(size_label(1024 * 1024 - 1), "1023 MB");
    assert_eq!(size_label(1024 * 1024), "1048576 KB");
    assert_eq!(size_label(1024 * 1024 + 1500), "1049600 KB");
}

#[test]
fn display_vec_lists_one_path_per_line() {
    let v = DisplayVec::new(vec!["a/b".to_string(), "c".to_string()]);
    assert_eq!(v.to_text(), "a/b\nc\n");
    assert_eq!(DisplayVec::new(vec![]).to_text(), "");
}

#[test]
fn duplicate_row_holds_its_parts() {
    let d = Duplicate::from("f".to_string(), DisplayVec::new(vec!["g".to_string()]), "1 Byte".to_string(), 1);
    assert_eq!(d.file_name, "f");
    assert_eq!(d.duplicates.0, vec!["g".to_string()]);
    assert_eq!(d.size, "1 Byte");
    assert_eq!(d.count, 1);
}

#[test]
fn rows_come_most_members_first() {
    let one = DuplicateCluster {
        representative: rec("one", 10),
        members: vec![rec("one-b", 10)],
        wasted_bytes: 10,
    };
    let two = DuplicateCluster {
        representative: rec("two", 2048),
        members: vec![rec("two-b", 2048), rec("two-c", 2048)],
        wasted_bytes: 4096,
    };
    let other = DuplicateCluster {
        representative: rec("other", 1),
        members: vec![rec("other-b", 1)],
        wasted_bytes: 1,
    };
    let rows = report_rows(&vec![one, two, other]);
    let names: Vec<&str> = rows.iter().map(|r| r.file_name.as_str()).collect();
    assert_eq!(names, vec!["two", "one", "other"]);
    assert_eq!(rows[0].count, 2);
    assert_eq!(rows[0].size, "2 MB");
    assert_eq!(rows[0].duplicates.to_text(), "two-b\ntwo-c\n");
    assert_eq!(rows[1].size, "10 Byte");
}

#[test]
fn default_request() {
    let cmds = duplicate_checker::CmdArgs::new("root".to_string());
    assert_eq!(cmds.root_folder, "root");
    assert_eq!(cmds.search_score, 90);
    assert!(cmds.use_content_hash);
}
