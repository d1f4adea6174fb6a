use dirsync::assembler::{AssembleError, Assembler, CHUNK_SIZE};
use dirsync::model::{Chunk, DataType, Item, LocalEntry, RemoteEntry};
use dirsync::plan::{assemble, LocalFile};

fn entry(key: &str, size: u64, ts: u64) -> LocalEntry {
    LocalEntry::with_content_type(key.to_string(), size, ts, "application/octet-stream".to_string())
}

fn local(key: &str, data: Vec<u8>, ts: u64) -> LocalFile {
    LocalFile { entry: entry(key, data.len() as u64, ts), data }
}

fn item(key: &str, data_type: DataType, len: u32, ts: u64) -> Item {
    Item {
        key: key.to_string(),
        data_type,
        len,
        timestamp: ts,
        content_type: "application/octet-stream".to_string(),
    }
}

fn deletion(key: &str) -> Item {
    Item {
        key: key.to_string(),
        data_type: DataType::Delete,
        len: 0,
        timestamp: 0,
        content_type: String::new(),
    }
}

fn pattern(len: usize, seed: u8) -> Vec<u8> {
    (0..len).map(|i| (i % 251) as u8 ^ seed).collect()
}

fn carried(chunk: &Chunk) -> usize {
    chunk
        .items
        .iter()
        .filter(|i| i.data_type != DataType::Delete)
        .map(|i| i.len as usize)
        .sum()
}

#[test]
fn chunk_size_is_two_million() {
    assert_eq!(CHUNK_SIZE, 2_000_000);
}

#[test]
fn nothing_pushed_gives_no_chunk() {
    let assembler = Assembler::new();
    assert_eq!(assembler.next_sequence_id(), 0);
    assert_eq!(assembler.remaining_capacity(), 2_000_000);
    assert!(assembler.finish().is_empty());
    assert!(assemble(&vec![], &vec![]).unwrap().is_empty());
}

#[test]
fn small_files_share_one_chunk_in_order() {
    let a = pattern(10, 1);
    let b = pattern(20, 2);
    let mut assembler = Assembler::new();
    assert_eq!(assembler.push_file(&entry("/a", 10, 11), &a), Ok(()));
    assert_eq!(assembler.remaining_capacity(), 1_999_990);
    assert_eq!(assembler.push_file(&entry("/b", 20, 22), &b), Ok(()));
    assert_eq!(assembler.remaining_capacity(), 1_999_970);
    assert_eq!(assembler.next_sequence_id(), 0);
    let chunks = assembler.finish();
    assert_eq!(chunks.len(), 1);
    let mut blob = a.clone();
    blob.extend_from_slice(&b);
    assert_eq!(
        chunks[0],
        Chunk {
            sequence_id: 0,
            blob,
            items: vec![item("/a", DataType::New, 10, 11), item("/b", DataType::New, 20, 22)],
            is_final: true,
        }
    );
}

#[test]
fn large_file_spans_chunks_with_one_new_and_appends() {
    let data = pattern(2 * CHUNK_SIZE + 123, 7);
    let chunks = assemble(&vec![local("/big", data.clone(), 9)], &vec![]).unwrap();
    assert_eq!(chunks.len(), 3);
    assert_eq!(chunks[0].items, vec![item("/big", DataType::New, 2_000_000, 9)]);
    assert_eq!(chunks[1].items, vec![item("/big", DataType::Append, 2_000_000, 9)]);
    assert_eq!(chunks[2].items, vec![item("/big", DataType::Append, 123, 9)]);
    assert_eq!(chunks[0].blob[..], data[..CHUNK_SIZE]);
    assert_eq!(chunks[1].blob[..], data[CHUNK_SIZE..2 * CHUNK_SIZE]);
    assert_eq!(chunks[2].blob[..], data[2 * CHUNK_SIZE..]);
    for (i, chunk) in chunks.iter().enumerate() {
        assert_eq!(chunk.sequence_id as usize, i);
        assert_eq!(chunk.is_final, i == 2);
    }
}

#[test]
fn file_that_ends_on_the_chunk_boundary_has_no_empty_append() {
    let a = pattern(500_000, 3);
    let b = pattern(1_500_000, 4);
    let c = pattern(5, 5);
    let files = vec![local("/a", a.clone(), 1), local("/b", b.clone(), 2), local("/c", c.clone(), 3)];
    let chunks = assemble(&files, &vec![]).unwrap();
    assert_eq!(chunks.len(), 2);
    assert_eq!(
        chunks[0].items,
        vec![item("/a", DataType::New, 500_000, 1), item("/b", DataType::New, 1_500_000, 2)]
    );
    assert_eq!(chunks[0].blob.len(), CHUNK_SIZE);
    assert!(!chunks[0].is_final);
    assert_eq!(chunks[1].items, vec![item("/c", DataType::New, 5, 3)]);
    assert_eq!(chunks[1].blob, c);
    assert!(chunks[1].is_final);
}

#[test]
fn file_split_inside_a_shared_chunk() {
    let a = pattern(1_999_999, 3);
    let b = pattern(3, 4);
    let files = vec![local("/a", a.clone(), 1), local("/b", b.clone(), 2)];
    let chunks = assemble(&files, &vec![]).unwrap();
    assert_eq!(chunks.len(), 2);
    assert_eq!(
        chunks[0].items,
        vec![item("/a", DataType::New, 1_999_999, 1), item("/b", DataType::New, 1, 2)]
    );
    assert_eq!(chunks[1].items, vec![item("/b", DataType::Append, 2, 2)]);
    assert_eq!(chunks[0].blob[1_999_999], b[0]);
    assert_eq!(chunks[1].blob, b[1..].to_vec());
}

#[test]
fn empty_file_gets_a_new_item_of_length_zero() {
    let chunks = assemble(&vec![local("/empty", vec![], 4)], &vec![]).unwrap();
    assert_eq!(chunks.len(), 1);
    assert!(chunks[0].blob.is_empty());
    assert_eq!(chunks[0].items, vec![item("/empty", DataType::New, 0, 4)]);
    assert!(chunks[0].is_final);
}

#[test]
fn empty_file_behind_a_full_chunk_opens_the_next() {
    let full = pattern(CHUNK_SIZE, 1);
    let files = vec![local("/full", full, 1), local("/empty", vec![], 2)];
    let chunks = assemble(&files, &vec![]).unwrap();
    assert_eq!(chunks.len(), 2);
    assert_eq!(chunks[0].items, vec![item("/full", DataType::New, 2_000_000, 1)]);
    assert_eq!(chunks[1].items, vec![item("/empty", DataType::New, 0, 2)]);
    assert!(chunks[1].blob.is_empty());
}

#[test]
fn deletions_join_the_final_chunk_behind_the_files() {
    let full = pattern(CHUNK_SIZE + 1, 1);
    let gone = vec![
        RemoteEntry { name: "/x".to_string(), size: 1, timestamp: 2 },
        RemoteEntry { name: "/y".to_string(), size: 3, timestamp: 4 },
    ];
    let chunks = assemble(&vec![local("/full", full, 1)], &gone).unwrap();
    assert_eq!(chunks.len(), 2);
    assert_eq!(chunks[0].items, vec![item("/full", DataType::New, 2_000_000, 1)]);
    assert_eq!(
        chunks[1].items,
        vec![item("/full", DataType::Append, 1, 1), deletion("/x"), deletion("/y")]
    );
    assert_eq!(chunks[1].blob.len(), 1);
}

#[test]
fn push_delete_adds_no_bytes() {
    let mut assembler = Assembler::new();
    assembler.push_delete("/old");
    assert_eq!(assembler.remaining_capacity(), CHUNK_SIZE);
    assert_eq!(assembler.next_sequence_id(), 0);
    let chunks = assembler.finish();
    assert_eq!(
        chunks,
        vec![Chunk { sequence_id: 0, blob: vec![], items: vec![deletion("/old")], is_final: true }]
    );
}

#[test]
fn content_of_another_length_is_refused_and_changes_nothing() {
    let mut assembler = Assembler::new();
    assert_eq!(assembler.push_file(&entry("/a", 3, 1), &[1, 2, 3]), Ok(()));
    assert_eq!(
        assembler.push_file(&entry("/b", 5, 1), &[1, 2, 3, 4]),
        Err(AssembleError::SizeMismatch)
    );
    assert_eq!(
        assembler.push_file(&entry("/c", 0, 1), &[1]),
        Err(AssembleError::SizeMismatch)
    );
    let chunks = assembler.finish();
    assert_eq!(chunks.len(), 1);
    assert_eq!(chunks[0].blob, vec![1, 2, 3]);
    assert_eq!(chunks[0].items.len(), 1);
}

#[test]
fn assemble_fails_with_the_first_refusal() {
    let bad = LocalFile { entry: entry("/bad", 10, 1), data: vec![0; 9] };
    let files = vec![local("/ok", vec![1, 2], 1), bad, local("/later", vec![3], 1)];
    assert_eq!(assemble(&files, &vec![]), Err(AssembleError::SizeMismatch));
}

#[test]
fn every_blob_is_as_long_as_its_items_say() {
    let files = vec![
        local("/a", pattern(1_234_567, 1), 1),
        local("/b", pattern(0, 2), 2),
        local("/c", pattern(3_000_000, 3), 3),
        local("/d", pattern(765_433, 4), 4),
        local("/e", pattern(17, 5), 5),
    ];
    let gone = vec![RemoteEntry { name: "/z".to_string(), size: 9, timestamp: 9 }];
    let chunks = assemble(&files, &gone).unwrap();
    assert_eq!(chunks.len(), 3);
    for (i, chunk) in chunks.iter().enumerate() {
        assert_eq!(chunk.sequence_id as usize, i);
        assert_eq!(chunk.blob.len(), carried(chunk));
        if i + 1 < chunks.len() {
            assert_eq!(chunk.blob.len(), CHUNK_SIZE);
            assert!(!chunk.is_final);
        } else {
            assert!(chunk.blob.len() < CHUNK_SIZE);
            assert!(chunk.is_final);
        }
    }
    let mut all = Vec::new();
    for f in &files {
        all.extend_from_slice(&f.data);
    }
    let sent: Vec<u8> = chunks.iter().flat_map(|c| c.blob.iter().copied()).collect();
    assert_eq!(sent, all);
}

#[test]
fn item_lengths_of_each_file_add_up_to_its_size() {
    let files = vec![
        local("/a", pattern(1_234_567, 1), 1),
        local("/b", pattern(0, 2), 2),
        local("/c", pattern(5_000_000, 3), 3),
        local("/d", pattern(765_433, 4), 4),
    ];
    let chunks = assemble(&files, &vec![]).unwrap();
    let items: Vec<&Item> = chunks.iter().flat_map(|c| c.items.iter()).collect();
    for f in &files {
        let mine: Vec<&&Item> = items.iter().filter(|i| i.key == f.entry.key).collect();
        let total: u64 = mine.iter().map(|i| i.len as u64).sum();
        assert_eq!(total, f.entry.size);
        assert_eq!(mine[0].data_type, DataType::New);
        assert_eq!(mine.iter().filter(|i| i.data_type == DataType::New).count(), 1);
        assert!(mine[1..].iter().all(|i| i.data_type == DataType::Append));
    }
}

#[test]
fn cloned_values_are_equal() {
    let c = Chunk {
        sequence_id: 3,
        blob: vec![1, 2],
        items: vec![item("/a", DataType::New, 2, 1)],
        is_final: false,
    };
    assert_eq!(c.clone(), c);
    let e = entry("/k", 1, 2);
    assert_eq!(e.clone(), e);
    let r = RemoteEntry { name: "/r".to_string(), size: 1, timestamp: 2 };
    assert_eq!(r.clone(), r);
}
