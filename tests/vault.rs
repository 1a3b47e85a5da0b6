use vault::{
    diff_states, enters_dir, eq_ignore_ascii_case, extension_of, is_accepted_file, is_hidden, Commit, FileDB,
    FileItemUpdate, FileState, Sync, SyncError,
};

fn st(key: &str, stamp: u128) -> (String, FileState) {
    (key.to_string(), FileState(stamp))
}

fn accepted() -> Vec<String> {
    vec!["md".to_string(), "markdown".to_string()]
}

fn empty_db() -> FileDB<String> {
    FileDB::new("root".to_string(), Vec::new())
}

/// Stands in for reading each file: the session carries the given contents.
fn populate(sync: Sync<(), String>, contents: &[(&str, &str)]) -> Sync<String, String> {
    let results: Vec<Option<String>> = sync
        .updates
        .iter()
        .map(|u| contents.iter().find(|(k, _)| *k == u.key).map(|(_, c)| c.to_string()))
        .collect();
    sync.populate_with(results).unwrap()
}

fn split_lines(s: &String) -> Vec<String> {
    s.lines().map(|l| l.to_string()).collect()
}

fn group<'a>(c: &'a Commit<String>, key: &str) -> &'a (String, FileState, Vec<String>) {
    c.updates.iter().find(|g| g.0 == key).unwrap()
}

#[test]
fn state_bytes_are_little_endian() {
    let s = FileState(0x0102_0304_0506_0708_090a_0b0c_0d0e_0f10);
    let b = s.as_bytes();
    assert_eq!(b, s.0.to_le_bytes().to_vec());
    assert_eq!(b[0], 0x10);
    assert_eq!(b[15], 0x01);
}

#[test]
fn state_round_trip() {
    for v in [0u128, 1, 255, 256, 1_700_000_000_000, u128::MAX] {
        let s = FileState::from_millis(v);
        assert_eq!(FileState::from_bytes(&s.as_bytes()), s);
    }
}

#[test]
fn state_table_schema() {
    assert_eq!(FileState::fixed_width(), 16);
    assert_eq!(FileState::table_type_name(), "vault::FileState");
}

#[test]
fn fresh_store_updates_every_file() {
    let (updates, deletes) = diff_states(&vec![st("a.md", 1), st("b.md", 2)], &Vec::new());
    assert_eq!(updates, vec![st("a.md", 1), st("b.md", 2)]);
    let sync = empty_db().new_msync(&vec![st("a.md", 1), st("b.md", 2)], &Vec::new());
    assert_eq!(sync.updates.len(), 2);
    assert_eq!(sync.files, vec![st("a.md", 1), st("b.md", 2)]);
    assert!(deletes.is_empty());
}

#[test]
fn renamed_file_is_one_delete_and_one_update() {
    let (updates, deletes) = diff_states(&vec![st("c.md", 5), st("b.md", 2)], &vec![st("a.md", 5), st("b.md", 2)]);
    assert_eq!(updates, vec![st("c.md", 5)]);
    assert_eq!(deletes, vec!["a.md".to_string()]);
}

#[test]
fn unchanged_scan_gives_no_work() {
    let scan = vec![st("a.md", 1), st("b.md", 2)];
    let (updates, deletes) = diff_states(&scan, &vec![st("b.md", 2), st("a.md", 1)]);
    assert!(updates.is_empty());
    assert!(deletes.is_empty());
}

#[test]
fn modified_file_is_one_update() {
    let (updates, deletes) = diff_states(&vec![st("a.md", 9), st("b.md", 2)], &vec![st("a.md", 1), st("b.md", 2)]);
    assert_eq!(updates, vec![st("a.md", 9)]);
    assert!(deletes.is_empty());
}

#[test]
fn repeated_stored_file_is_deleted_once() {
    let (updates, deletes) = diff_states(&vec![st("a.md", 1)], &vec![st("b.md", 2), st("b.md", 3)]);
    assert_eq!(updates, vec![st("a.md", 1)]);
    assert_eq!(deletes, vec!["b.md".to_string()]);
}

#[test]
fn removed_file_is_one_delete() {
    let (updates, deletes) = diff_states(&vec![st("a.md", 1)], &vec![st("a.md", 1), st("b.md", 2)]);
    assert!(updates.is_empty());
    assert_eq!(deletes, vec!["b.md".to_string()]);
}

#[test]
fn hidden_directory_is_not_entered() {
    assert!(!enters_dir(".git"));
    assert!(enters_dir("notes"));
    assert!(is_hidden(".git"));
    assert!(!is_hidden("git"));
    assert!(!is_hidden(""));
}

#[test]
fn hidden_file_is_excluded() {
    assert!(!is_accepted_file(".draft.md", &accepted()));
    assert!(is_accepted_file("draft.md", &accepted()));
}

#[test]
fn extension_is_case_insensitive() {
    assert!(is_accepted_file("FOO.MARKDOWN", &accepted()));
    assert!(is_accepted_file("a.Md", &accepted()));
    assert!(!is_accepted_file("notes.txt", &accepted()));
    assert!(!is_accepted_file("README", &accepted()));
    assert!(!is_accepted_file("a.mdx", &accepted()));
}

#[test]
fn extension_follows_last_dot() {
    assert_eq!(extension_of("a.tar.gz"), Some("gz"));
    assert_eq!(extension_of("a."), Some(""));
    assert_eq!(extension_of(".md"), None);
    assert_eq!(extension_of("noext"), None);
    assert_eq!(extension_of("..md"), Some("md"));
}

#[test]
fn ascii_case_comparison() {
    assert!(eq_ignore_ascii_case("MarkDown", "markdown"));
    assert!(!eq_ignore_ascii_case("md", "mdx"));
    assert!(!eq_ignore_ascii_case("m@", "m`"));
    assert!(eq_ignore_ascii_case("", ""));
}

#[test]
fn item_update_map_keeps_file() {
    let u = FileItemUpdate { key: "a.md".to_string(), state: FileState(3), sync_item: 4u32 };
    let m = u.map(&|x: u32| x * 10);
    assert_eq!(m.key, "a.md");
    assert_eq!(m.state, FileState(3));
    assert_eq!(m.sync_item, 40);
    let w = m.with_item_moved("x");
    assert_eq!(w.key, "a.md");
    assert_eq!(w.state, FileState(3));
    assert_eq!(w.sync_item, "x");
}

#[test]
fn batch_map_one_short_fails() {
    let sync = empty_db().new_msync(&vec![st("a.md", 1), st("b.md", 2)], &Vec::new());
    let (items, frame) = sync.split_batch();
    assert_eq!(items.len(), 2);
    let short: Vec<String> = vec!["only".to_string()];
    match frame.rejoin_batch(short) {
        Err(e) => assert_eq!(e, SyncError::LengthMismatch { expected: 2, found: 1 }),
        Ok(_) => panic!("a short batch must fail"),
    }
}

#[test]
fn batch_map_rezips_in_order() {
    let sync = empty_db().new_msync(&vec![st("a.md", 1), st("b.md", 2)], &Vec::new());
    let (_, frame) = sync.split_batch();
    let keys: Vec<String> = frame.updates.iter().map(|u| u.key.clone()).collect();
    let joined = frame.rejoin_batch(vec![10u32, 20]).unwrap();
    assert_eq!(joined.updates[0].key, keys[0]);
    assert_eq!(joined.updates[0].sync_item, 10);
    assert_eq!(joined.updates[1].key, keys[1]);
    assert_eq!(joined.updates[1].sync_item, 20);
}

#[test]
fn initial_population() {
    let sync = empty_db().new_msync(&vec![st("a.md", 1), st("b.md", 2)], &Vec::new());
    assert_eq!(sync.updates.len(), 2);
    assert!(sync.deletes.is_empty());
    let commit = populate(sync, &[("a.md", "# A\nB"), ("b.md", "C")]).flat_map(split_lines).run();
    assert_eq!(commit.updates.len(), 2);
    assert_eq!(group(&commit, "a.md").2, vec!["# A".to_string(), "B".to_string()]);
    assert_eq!(group(&commit, "a.md").1, FileState(1));
    assert_eq!(group(&commit, "b.md").2, vec!["C".to_string()]);
    assert_eq!(group(&commit, "b.md").1, FileState(2));
}

#[test]
fn flat_map_keeps_order_within_file() {
    let sync = empty_db().new_msync(&vec![st("f.md", 7)], &Vec::new());
    let commit = populate(sync, &[("f.md", "a\nb\nc")]).flat_map(split_lines).map(|s: String| s).run();
    assert_eq!(commit.updates.len(), 1);
    assert_eq!(commit.updates[0].2, vec!["a".to_string(), "b".to_string(), "c".to_string()]);
}

#[test]
fn inner_flatten_keeps_file_and_order() {
    let sync = empty_db().new_msync(&vec![st("f.md", 7)], &Vec::new());
    let flat = populate(sync, &[("f.md", "x\ny")]).map(|s: String| split_lines(&s)).inner_flatten();
    assert_eq!(flat.updates.len(), 2);
    assert_eq!(flat.updates[0].key, "f.md");
    assert_eq!(flat.updates[0].sync_item, "x");
    assert_eq!(flat.updates[1].state, FileState(7));
    assert_eq!(flat.updates[1].sync_item, "y");
}

#[test]
fn empty_expansion_writes_empty_group() {
    let sync = empty_db().new_msync(&vec![st("f.md", 7)], &Vec::new());
    let commit = populate(sync, &[("f.md", "")]).flat_map(split_lines).run();
    assert_eq!(commit.updates.len(), 1);
    assert_eq!(commit.updates[0].0, "f.md");
    assert_eq!(commit.updates[0].1, FileState(7));
    assert!(commit.updates[0].2.is_empty());
}

#[test]
fn run_groups_items_of_one_file() {
    let db = empty_db();
    let updates = vec![
        FileItemUpdate { key: "a.md".to_string(), state: FileState(1), sync_item: "1".to_string() },
        FileItemUpdate { key: "b.md".to_string(), state: FileState(2), sync_item: "2".to_string() },
        FileItemUpdate { key: "a.md".to_string(), state: FileState(1), sync_item: "3".to_string() },
    ];
    let files = vec![st("a.md", 1), st("b.md", 2), st("c.md", 3)];
    let commit = Sync { db, updates, deletes: vec!["z.md".to_string()], files }.run();
    assert_eq!(commit.updates.len(), 3);
    assert!(group(&commit, "c.md").2.is_empty());
    assert_eq!(group(&commit, "a.md").2, vec!["1".to_string(), "3".to_string()]);
    assert_eq!(group(&commit, "b.md").2, vec!["2".to_string()]);
    assert_eq!(commit.deletes, vec!["z.md".to_string()]);
}

#[test]
fn resync_after_commit_is_idle() {
    let scan = vec![st("a.md", 1), st("b.md", 2)];
    let commit = populate(empty_db().new_msync(&scan, &Vec::new()), &[("a.md", "# A\nB"), ("b.md", "C")])
        .flat_map(split_lines)
        .run();
    let stored: Vec<(String, FileState)> = commit.updates.iter().map(|g| (g.0.clone(), g.1)).collect();
    let again = commit.db.new_msync(&scan, &stored);
    assert!(again.updates.is_empty());
    assert!(again.deletes.is_empty());
}

fn rows() -> Vec<(String, Vec<Option<String>>)> {
    vec![
        ("a.md".to_string(), vec![Some("# A".to_string()), None, Some("B".to_string())]),
        ("b.md".to_string(), vec![Some("C".to_string())]),
    ]
}

#[test]
fn disk_read_skips_undecodable_items() {
    let entries = FileDB::db_iter(rows());
    assert_eq!(
        entries,
        vec![
            ("a.md".to_string(), "# A".to_string()),
            ("a.md".to_string(), "B".to_string()),
            ("b.md".to_string(), "C".to_string())
        ]
    );
    assert_eq!(FileDB::values(rows()), vec!["# A".to_string(), "B".to_string(), "C".to_string()]);
}

#[test]
fn cache_matches_disk_read() {
    let db = FileDB::new("root".to_string(), rows());
    assert_eq!(db.iter(), &FileDB::db_iter(rows()));
    assert_eq!(db.dir, "root");
}

#[test]
fn map_and_fold_fail_on_undecodable_item() {
    assert!(FileDB::map(rows(), |k: &String, v: &String| format!("{k}:{v}")).is_none());
    assert!(FileDB::fold(rows(), 0usize, |n: usize, _k: &String, v: &String| n.wrapping_add(v.len())).is_none());
}

#[test]
fn map_and_fold_visit_every_item() {
    let good: Vec<(String, Vec<Option<String>>)> = vec![
        ("a.md".to_string(), vec![Some("# A".to_string()), Some("B".to_string())]),
        ("b.md".to_string(), vec![Some("C".to_string())]),
    ];
    let mapped = FileDB::map(good.clone(), |k: &String, v: &String| format!("{k}:{v}")).unwrap();
    assert_eq!(mapped, vec!["a.md:# A".to_string(), "a.md:B".to_string(), "b.md:C".to_string()]);
    let total = FileDB::fold(good, 0usize, |n: usize, _k: &String, v: &String| n.wrapping_add(v.len())).unwrap();
    assert_eq!(total, 5);
}

#[test]
fn test_msync_workflow() {
    let db: FileDB<String> = empty_db();
    let files = vec![
        ("file1.md", "# Header 1\nContent 1"),
        ("file2.md", "# Header 2\nContent 2"),
        ("file3.md", "# Header 3\nContent 3"),
    ];
    let scan: Vec<(String, FileState)> = files.iter().enumerate().map(|(i, (k, _))| st(k, i as u128)).collect();
    let msync: Sync<(), String> = db.new_msync(&scan, &Vec::new());
    let commit = populate(msync, &files).flat_map(split_lines).run();
    let rows: Vec<(String, Vec<Option<String>>)> =
        commit.updates.into_iter().map(|(k, _, items)| (k, items.into_iter().map(Some).collect())).collect();
    let lines: Vec<String> = FileDB::map(rows, |_: &String, line: &String| line.to_string()).unwrap();
    println!("{:?}", lines);
    assert_eq!(lines.len(), 6);
    assert!(lines.contains(&"# Header 1".to_string()));
    assert!(lines.contains(&"Content 1".to_string()));
    assert!(lines.contains(&"# Header 2".to_string()));
    assert!(lines.contains(&"Content 2".to_string()));
    assert!(lines.contains(&"# Header 3".to_string()));
    assert!(lines.contains(&"Content 3".to_string()));
}

#[test]
fn test_filedb_iteration() {
    let rows: Vec<(String, Vec<Option<String>>)> = vec![
        ("file1.md".to_string(), vec![Some("content1".to_string())]),
        ("file2.md".to_string(), vec![Some("content2".to_string())]),
    ];
    let db: FileDB<String> = FileDB::new("root".to_string(), rows.clone());

    let items: Vec<(String, String)> = FileDB::db_iter(rows.clone());
    assert_eq!(items.len(), 2);
    assert!(items.iter().any(|(k, v)| k == "file1.md" && v.as_str() == "content1"));
    assert!(items.iter().any(|(k, v)| k == "file2.md" && v.as_str() == "content2"));

    let values: Vec<String> = FileDB::values(rows);
    assert_eq!(values.len(), 2);
    assert!(values.iter().any(|v| v.as_str() == "content1"));
    assert!(values.iter().any(|v| v.as_str() == "content2"));

    let cache_items = db.iter();
    assert_eq!(cache_items.len(), 2);
    assert!(cache_items.iter().any(|(k, v)| k == "file1.md" && v.as_str() == "content1"));
    assert!(cache_items.iter().any(|(k, v)| k == "file2.md" && v.as_str() == "content2"));
}

#[test]
fn failed_read_drops_update() {
    let sync = empty_db().new_msync(&vec![st("a.md", 1), st("b.md", 2)], &Vec::new());
    let populated = sync.populate_with(vec![None, Some("text".to_string())]).unwrap();
    assert_eq!(populated.updates.len(), 1);
    assert_eq!(populated.updates[0].key, "b.md");
    assert_eq!(populated.updates[0].state, FileState(2));
    assert_eq!(populated.updates[0].sync_item, "text");
}
