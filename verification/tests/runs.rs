use dirsync::assembler::CHUNK_SIZE;
use dirsync::manifest::Manifest;
use dirsync::model::{Chunk, DataType, Item, LocalEntry, RemoteEntry};
use dirsync::orchestrator::{after_commit, after_uploads, Action};
use dirsync::plan::{sync_plan, LocalFile};

fn file(key: &str, data: Vec<u8>, ts: u64) -> LocalFile {
    let size = data.len() as u64;
    LocalFile { entry: LocalEntry::new(key.to_string(), size, ts), data }
}

fn remote(name: &str, size: u64, timestamp: u64) -> RemoteEntry {
    RemoteEntry { name: name.to_string(), size, timestamp }
}

fn commits(chunks: &Vec<Chunk>) -> usize {
    let outcomes: Vec<bool> = chunks.iter().map(|_| true).collect();
    match after_uploads(&outcomes) {
        Action::Commit => {
            assert_eq!(after_commit(true), Action::Succeed);
            1
        }
        Action::Succeed => 0,
        Action::Fail(e) => panic!("unexpected failure {:?}", e),
    }
}

#[test]
fn new_small_file_gives_one_final_chunk() {
    let manifest = Manifest::from_entries(vec![]);
    let files = vec![file("/a.txt", vec![7u8; 500], 1000)];
    let chunks = sync_plan(&manifest, &files).unwrap();
    assert_eq!(chunks.len(), 1);
    assert_eq!(chunks[0].sequence_id, 0);
    assert!(chunks[0].is_final);
    assert_eq!(chunks[0].blob, vec![7u8; 500]);
    assert_eq!(
        chunks[0].items,
        vec![Item {
            key: "/a.txt".to_string(),
            data_type: DataType::New,
            len: 500,
            timestamp: 1000,
            content_type: "text/plain".to_string(),
        }]
    );
    assert_eq!(commits(&chunks), 1);
}

#[test]
fn remote_only_entry_gives_one_delete_item() {
    let manifest = Manifest::from_entries(vec![remote("/b.txt", 10, 5)]);
    let files: Vec<LocalFile> = vec![];
    let chunks = sync_plan(&manifest, &files).unwrap();
    assert_eq!(chunks.len(), 1);
    assert!(chunks[0].is_final);
    assert_eq!(chunks[0].sequence_id, 0);
    assert!(chunks[0].blob.is_empty());
    assert_eq!(
        chunks[0].items,
        vec![Item {
            key: "/b.txt".to_string(),
            data_type: DataType::Delete,
            len: 0,
            timestamp: 0,
            content_type: String::new(),
        }]
    );
    assert_eq!(commits(&chunks), 1);
}

#[test]
fn file_of_exactly_one_chunk_is_followed_by_an_empty_final_chunk() {
    let manifest = Manifest::from_entries(vec![]);
    let files = vec![file("/big.bin", vec![1u8; CHUNK_SIZE], 42)];
    let chunks = sync_plan(&manifest, &files).unwrap();
    assert_eq!(chunks.len(), 2);
    assert_eq!(chunks[0].sequence_id, 0);
    assert_eq!(chunks[0].blob.len(), 2_000_000);
    assert!(!chunks[0].is_final);
    assert_eq!(chunks[0].items.len(), 1);
    assert_eq!(chunks[0].items[0].data_type, DataType::New);
    assert_eq!(chunks[0].items[0].len, 2_000_000);
    assert_eq!(chunks[0].items[0].key, "/big.bin");
    assert_eq!(chunks[1].sequence_id, 1);
    assert_eq!(chunks[1].blob.len(), 0);
    assert!(chunks[1].items.is_empty());
    assert!(chunks[1].is_final);
    assert_eq!(commits(&chunks), 1);
}

#[test]
fn unchanged_file_gives_no_chunk_and_no_commit() {
    let manifest = Manifest::from_entries(vec![remote("/a.txt", 500, 1000)]);
    let files = vec![file("/a.txt", vec![7u8; 500], 1000)];
    let chunks = sync_plan(&manifest, &files).unwrap();
    assert!(chunks.is_empty());
    assert_eq!(commits(&chunks), 0);
}
