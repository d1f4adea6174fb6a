use dirsync::diff::Changeset;
use dirsync::manifest::Manifest;
use dirsync::names::{order_names, NameOrder};
use dirsync::model::{DataType, Item, LocalEntry, RemoteEntry};
use dirsync::orchestrator::{after_uploads, Action};
use dirsync::plan::{sync_plan, LocalFile};

fn remote(name: &str, size: u64, timestamp: u64) -> RemoteEntry {
    RemoteEntry { name: name.to_string(), size, timestamp }
}

fn local(key: &str, size: u64, ts: u64) -> LocalEntry {
    LocalEntry::with_content_type(key.to_string(), size, ts, "text/plain".to_string())
}

fn file(key: &str, len: usize, ts: u64) -> LocalFile {
    LocalFile { entry: local(key, len as u64, ts), data: vec![0xAB; len] }
}

#[test]
fn empty_manifest_has_no_entries() {
    let m = Manifest::new();
    assert_eq!(m.len(), 0);
    assert!(m.entries().is_empty());
    assert!(m.get("/a").is_none());
}

#[test]
fn listing_is_collected_by_name() {
    let m = Manifest::from_entries(vec![remote("/a", 1, 1), remote("/b", 2, 2), remote("/a", 3, 3)]);
    assert_eq!(m.len(), 2);
    assert_eq!(m.get("/a"), Some(&remote("/a", 3, 3)));
    assert_eq!(m.get("/b"), Some(&remote("/b", 2, 2)));
    assert_eq!(m.get("/c"), None);
}

#[test]
fn insert_replaces_the_entry_of_the_same_name() {
    let mut m = Manifest::new();
    m.insert(remote("/a", 1, 1));
    m.insert(remote("/b", 2, 2));
    assert_eq!(m.len(), 2);
    m.insert(remote("/a", 9, 9));
    assert_eq!(m.len(), 2);
    assert_eq!(m.get("/a"), Some(&remote("/a", 9, 9)));
}

#[test]
fn entry_is_unchanged_only_with_equal_size_and_timestamp() {
    let m = Manifest::from_entries(vec![remote("/a", 10, 100)]);
    assert!(!m.needs_upload(&local("/a", 10, 100)));
    assert!(m.needs_upload(&local("/a", 11, 100)));
    assert!(m.needs_upload(&local("/a", 10, 101)));
    assert!(m.needs_upload(&local("/b", 10, 100)));
    assert!(Manifest::new().needs_upload(&local("/a", 10, 100)));
}

#[test]
fn diff_sorts_every_key_into_one_set() {
    let m = Manifest::from_entries(vec![
        remote("/same", 1, 1),
        remote("/resized", 2, 2),
        remote("/touched", 3, 3),
        remote("/gone", 4, 4),
        remote("/gone2", 5, 5),
    ]);
    let locals = vec![
        local("/new", 7, 7),
        local("/same", 1, 1),
        local("/touched", 3, 30),
        local("/resized", 20, 2),
    ];
    let Changeset { uploads, deletions } = m.diff(&locals);
    assert_eq!(uploads, vec![local("/new", 7, 7), local("/touched", 3, 30), local("/resized", 20, 2)]);
    let gone: Vec<String> = deletions.iter().map(|d| d.name.clone()).collect();
    assert_eq!(gone, vec!["/gone".to_string(), "/gone2".to_string()]);
    assert!(deletions.contains(&remote("/gone", 4, 4)));
    assert!(deletions.contains(&remote("/gone2", 5, 5)));
    for u in &uploads {
        assert!(deletions.iter().all(|d| d.name != u.key));
    }
    let mut keys: Vec<String> = uploads.iter().map(|u| u.key.clone()).collect();
    keys.extend(gone);
    keys.push("/same".to_string());
    keys.sort();
    let mut expected: Vec<String> =
        ["/gone", "/gone2", "/new", "/resized", "/same", "/touched"].iter().map(|s| s.to_string()).collect();
    expected.sort();
    assert_eq!(keys, expected);
}

#[test]
fn diff_of_nothing_is_empty() {
    let c = Manifest::new().diff(&vec![]);
    assert_eq!(c, Changeset { uploads: vec![], deletions: vec![] });
}

#[test]
fn manifest_keeps_its_entries_in_the_order_of_their_names() {
    let names = ["/b", "/a/b", "/ab", "/a", "/", "/\u{e9}", "/z", "/a.txt", "/B", "/a\u{10348}", "/a~"];
    let listing: Vec<RemoteEntry> =
        names.iter().enumerate().map(|(i, n)| remote(n, i as u64, i as u64)).collect();
    let m = Manifest::from_entries(listing);
    let got: Vec<String> = m.entries().iter().map(|e| e.name.clone()).collect();
    let mut expected: Vec<String> = names.iter().map(|n| n.to_string()).collect();
    expected.sort();
    assert_eq!(got, expected);
    for (i, n) in names.iter().enumerate() {
        assert_eq!(m.get(n), Some(&remote(n, i as u64, i as u64)));
    }
    assert_eq!(m.get("/a/"), None);
    assert_eq!(m.get(""), None);
}

#[test]
fn names_are_ordered_by_their_bytes() {
    assert_eq!(order_names("/a", "/a"), NameOrder::Same);
    assert_eq!(order_names("", ""), NameOrder::Same);
    assert_eq!(order_names("", "/"), NameOrder::Before);
    assert_eq!(order_names("/a", "/a/b"), NameOrder::Before);
    assert_eq!(order_names("/a/b", "/ab"), NameOrder::Before);
    assert_eq!(order_names("/ab", "/a/b"), NameOrder::After);
    assert_eq!(order_names("/B", "/a"), NameOrder::Before);
    assert_eq!(order_names("/z", "/\u{e9}"), NameOrder::Before);
    assert_eq!(order_names("/\u{10348}", "/\u{ffff}"), NameOrder::After);
}

#[test]
fn deletions_come_in_the_order_of_their_names() {
    let m = Manifest::from_entries(vec![
        remote("/z", 1, 1),
        remote("/m", 2, 2),
        remote("/a", 3, 3),
        remote("/k", 4, 4),
    ]);
    let c = m.diff(&vec![local("/m", 2, 2)]);
    assert!(c.uploads.is_empty());
    assert_eq!(c.deletions, vec![remote("/a", 3, 3), remote("/k", 4, 4), remote("/z", 1, 1)]);
    let chunks = sync_plan(&m, &vec![file("/m", 2, 2)]).unwrap();
    let keys: Vec<&str> = chunks[0].items.iter().map(|i| i.key.as_str()).collect();
    assert_eq!(keys, vec!["/a", "/k", "/z"]);
}

#[test]
fn duplicate_local_keys_are_each_compared_with_the_manifest() {
    let m = Manifest::from_entries(vec![remote("/a", 1, 1)]);
    let c = m.diff(&vec![local("/a", 1, 1), local("/a", 2, 2), local("/a", 1, 1)]);
    assert_eq!(c.uploads, vec![local("/a", 2, 2)]);
    assert!(c.deletions.is_empty());
}

#[test]
fn second_run_sends_nothing() {
    let files = vec![file("/a", 10, 1), file("/b", 2_500_000, 2), file("/c", 0, 3)];
    let before = Manifest::from_entries(vec![remote("/a", 9, 1), remote("/old", 5, 5)]);
    let first = sync_plan(&before, &files).unwrap();
    assert_eq!(first.len(), 2);
    assert_eq!(after_uploads(&vec![true; first.len()]), Action::Commit);
    let listing: Vec<RemoteEntry> =
        files.iter().map(|f| remote(&f.entry.key, f.entry.size, f.entry.modified_at_millis)).collect();
    let after = Manifest::from_entries(listing);
    let second = sync_plan(&after, &files).unwrap();
    assert!(second.is_empty());
    assert_eq!(after_uploads(&vec![true; second.len()]), Action::Succeed);
}

#[test]
fn each_remote_only_name_is_deleted_once() {
    let m = Manifest::from_entries(vec![
        remote("/keep", 3, 3),
        remote("/gone", 4, 4),
        remote("/also-gone", 5, 5),
        remote("/changed", 6, 6),
    ]);
    let files = vec![file("/keep", 3, 3), file("/changed", 2_000_001, 7)];
    let chunks = sync_plan(&m, &files).unwrap();
    let items: Vec<&Item> = chunks.iter().flat_map(|c| c.items.iter()).collect();
    for name in ["/gone", "/also-gone"] {
        let mine: Vec<&&Item> = items.iter().filter(|i| i.key == name).collect();
        assert_eq!(mine.len(), 1);
        assert_eq!(mine[0].data_type, DataType::Delete);
        assert_eq!(mine[0].len, 0);
        assert_eq!(mine[0].timestamp, 0);
        assert_eq!(mine[0].content_type, "");
    }
    assert!(items.iter().all(|i| i.key != "/keep"));
    assert_eq!(items.iter().filter(|i| i.data_type == DataType::Delete).count(), 2);
}

#[test]
fn changed_files_are_packed_in_inventory_order() {
    let m = Manifest::from_entries(vec![remote("/b", 2, 2)]);
    let files = vec![file("/c", 3, 3), file("/b", 2, 2), file("/a", 1, 1)];
    let chunks = sync_plan(&m, &files).unwrap();
    assert_eq!(chunks.len(), 1);
    let keys: Vec<&str> = chunks[0].items.iter().map(|i| i.key.as_str()).collect();
    assert_eq!(keys, vec!["/c", "/a"]);
    assert_eq!(chunks[0].blob.len(), 4);
}

#[test]
fn plan_fails_where_a_changed_file_has_another_length() {
    let m = Manifest::new();
    let bad = LocalFile { entry: local("/bad", 10, 1), data: vec![0; 11] };
    assert_eq!(
        sync_plan(&m, &vec![file("/a", 1, 1), bad]),
        Err(dirsync::assembler::AssembleError::SizeMismatch)
    );
}
