//! What holds of the chunks of every run.

use vstd::prelude::*;
use crate::assembler::{
    AssemblyView, CHUNK_SIZE, carried, delete_item, empty_assembly, extend, feed, file_item,
    finish, lemma_carried_push, lemma_feed_shape, pending_chunk, seal, well_formed,
};
use crate::model::{ChunkView, DataType, ItemView, LocalEntryView, RemoteEntryView};
use crate::plan::{LocalFileView, assembled, push_deletes, push_files};
use crate::sequences::lemma_filter_take;

verus! {

/// The items of the chunks, in the order in which they go out.
pub open spec fn all_items(chunks: Seq<ChunkView>) -> Seq<ItemView>
    decreases chunks.len(),
{
    if chunks.len() == 0 {
        Seq::empty()
    } else {
        all_items(chunks.drop_last()) + chunks.last().items
    }
}

/// The blobs of the chunks, one behind the other.
pub open spec fn all_bytes(chunks: Seq<ChunkView>) -> Seq<u8>
    decreases chunks.len(),
{
    if chunks.len() == 0 {
        Seq::empty()
    } else {
        all_bytes(chunks.drop_last()) + chunks.last().blob
    }
}

/// The items that a state holds, sealed or not.
pub open spec fn state_items(st: AssemblyView) -> Seq<ItemView> {
    all_items(st.emitted) + st.pending_items
}

/// The bytes that a state holds, sealed or not.
pub open spec fn state_bytes(st: AssemblyView) -> Seq<u8> {
    all_bytes(st.emitted) + st.pending_blob
}

/// The items of a file of `len` bytes that is packed from where the open
/// chunk has `room` bytes left, its next item being of type `data_type`: one
/// item for each chunk that the file reaches into.
pub open spec fn file_items(room: nat, entry: LocalEntryView, data_type: DataType, len: nat) -> Seq<
    ItemView,
>
    decreases len,
{
    if 0 < room <= len {
        seq![file_item(entry, data_type, room)] + file_items(
            CHUNK_SIZE as nat,
            entry,
            DataType::Append,
            (len - room) as nat,
        )
    } else if len > 0 || data_type == DataType::New {
        seq![file_item(entry, data_type, len)]
    } else {
        Seq::empty()
    }
}

/// The room left in the open chunk.
pub open spec fn room_in(st: AssemblyView) -> nat {
    (CHUNK_SIZE - st.pending_blob.len()) as nat
}

/// Sealing moves the open chunk's items and bytes behind the sealed ones.
pub proof fn lemma_seal_contents(st: AssemblyView)
    ensures
        state_items(seal(st)) == state_items(st),
        state_bytes(seal(st)) == state_bytes(st),
{
    let chunk = pending_chunk(st, false);
    assert(st.emitted.push(chunk).drop_last() =~= st.emitted);
    assert(state_items(seal(st)) =~= state_items(st));
    assert(state_bytes(seal(st)) =~= state_bytes(st));
}

/// Packing a file adds its items behind those that the state holds, and its
/// content behind the bytes.
pub proof fn lemma_feed_contents(
    st: AssemblyView,
    entry: LocalEntryView,
    data_type: DataType,
    rest: Seq<u8>,
)
    requires
        well_formed(st),
        data_type != DataType::Delete,
    ensures
        state_items(feed(st, entry, data_type, rest)) == state_items(st) + file_items(
            room_in(st),
            entry,
            data_type,
            rest.len(),
        ),
        state_bytes(feed(st, entry, data_type, rest)) == state_bytes(st) + rest,
    decreases rest.len(),
{
    let room = CHUNK_SIZE as int - st.pending_blob.len();
    if 0 < room <= rest.len() {
        let filled = extend(st, entry, data_type, rest.take(room));
        let next = seal(filled);
        lemma_seal_contents(filled);
        crate::assembler::lemma_fill_shape(st, entry, data_type, rest.take(room));
        lemma_feed_contents(next, entry, DataType::Append, rest.skip(room));
        let tail = file_items(CHUNK_SIZE as nat, entry, DataType::Append, (rest.len() - room) as nat);
        assert(state_items(filled) =~= state_items(st) + seq![
            file_item(entry, data_type, room as nat),
        ]);
        assert(state_items(feed(st, entry, data_type, rest)) =~= state_items(st) + (seq![
            file_item(entry, data_type, room as nat),
        ] + tail));
        assert(state_bytes(filled) =~= state_bytes(st) + rest.take(room));
        assert(state_bytes(feed(st, entry, data_type, rest)) =~= state_bytes(st) + rest) by {
            assert(rest =~= rest.take(room) + rest.skip(room));
        }
    } else if rest.len() > 0 || data_type == DataType::New {
        assert(state_items(extend(st, entry, data_type, rest)) =~= state_items(st) + seq![
            file_item(entry, data_type, rest.len()),
        ]);
        assert(state_bytes(extend(st, entry, data_type, rest)) =~= state_bytes(st) + rest);
    } else {
        assert(state_items(st) + Seq::<ItemView>::empty() =~= state_items(st));
        assert(state_bytes(st) + rest =~= state_bytes(st));
    }
}

/// The bytes of the files together.
pub open spec fn total_len(files: Seq<LocalFileView>) -> nat
    decreases files.len(),
{
    if files.len() == 0 {
        0
    } else {
        total_len(files.drop_last()) + files.last().data.len()
    }
}

/// The content of the files, one behind the other.
pub open spec fn content_of(files: Seq<LocalFileView>) -> Seq<u8>
    decreases files.len(),
{
    if files.len() == 0 {
        Seq::empty()
    } else {
        content_of(files.drop_last()) + files.last().data
    }
}

/// The room that is left in the open chunk once the files are packed.
pub open spec fn room_after(files: Seq<LocalFileView>) -> nat {
    (CHUNK_SIZE - total_len(files) % (CHUNK_SIZE as nat)) as nat
}

/// The items of the last of the files, packed behind the others.
pub open spec fn items_of_last(files: Seq<LocalFileView>) -> Seq<ItemView>
    recommends
        files.len() > 0,
{
    file_items(
        room_after(files.drop_last()),
        files.last().entry,
        DataType::New,
        files.last().data.len(),
    )
}

/// The items of the files, file by file.
pub open spec fn items_of_files(files: Seq<LocalFileView>) -> Seq<ItemView>
    decreases files.len(),
{
    if files.len() == 0 {
        Seq::empty()
    } else {
        items_of_files(files.drop_last()) + items_of_last(files)
    }
}

/// One deletion item for each of the entries, in order.
pub open spec fn delete_items(entries: Seq<RemoteEntryView>) -> Seq<ItemView> {
    entries.map_values(|r: RemoteEntryView| delete_item(r.name))
}

/// The length of what the files hold together is the sum of their lengths.
pub proof fn lemma_content_len(files: Seq<LocalFileView>)
    ensures
        content_of(files).len() == total_len(files),
    decreases files.len(),
{
    if files.len() > 0 {
        lemma_content_len(files.drop_last());
    }
}

/// The state that packing files into an empty assembler leads to.
pub proof fn lemma_files_packed(files: Seq<LocalFileView>)
    ensures
        well_formed(push_files(empty_assembly(), files)),
        push_files(empty_assembly(), files).emitted.len() == total_len(files) / (CHUNK_SIZE as nat),
        push_files(empty_assembly(), files).pending_blob.len() == total_len(files) % (
        CHUNK_SIZE as nat),
        state_items(push_files(empty_assembly(), files)) == items_of_files(files),
        state_bytes(push_files(empty_assembly(), files)) == content_of(files),
    decreases files.len(),
{
    if files.len() == 0 {
        assert(state_items(empty_assembly()) =~= Seq::empty());
        assert(state_bytes(empty_assembly()) =~= Seq::empty());
    } else {
        let before = push_files(empty_assembly(), files.drop_last());
        let last = files.last();
        lemma_files_packed(files.drop_last());
        lemma_feed_shape(before, last.entry, DataType::New, last.data);
        lemma_feed_contents(before, last.entry, DataType::New, last.data);
        assert(room_in(before) == room_after(files.drop_last()));
    }
}

/// Deletions add their items to the open chunk and change nothing else.
pub proof fn lemma_deletes_noted(st: AssemblyView, entries: Seq<RemoteEntryView>)
    requires
        well_formed(st),
    ensures
        well_formed(push_deletes(st, entries)),
        push_deletes(st, entries).emitted == st.emitted,
        push_deletes(st, entries).pending_blob == st.pending_blob,
        push_deletes(st, entries).pending_items == st.pending_items + delete_items(entries),
    decreases entries.len(),
{
    if entries.len() == 0 {
        assert(st.pending_items + delete_items(entries) =~= st.pending_items);
    } else {
        let before = push_deletes(st, entries.drop_last());
        lemma_deletes_noted(st, entries.drop_last());
        lemma_carried_push(before.pending_items, delete_item(entries.last().name));
        assert(delete_items(entries) =~= delete_items(entries.drop_last()).push(
            delete_item(entries.last().name),
        ));
        assert(push_deletes(st, entries).pending_items =~= st.pending_items + delete_items(
            entries,
        ));
    }
}

/// The chunks of a finished pass hold the items and the bytes of its state.
pub proof fn lemma_finish_contents(st: AssemblyView)
    requires
        well_formed(st),
    ensures
        all_items(finish(st)) == state_items(st),
        all_bytes(finish(st)) == state_bytes(st),
{
    if st.emitted.len() == 0 && st.pending_items.len() == 0 {
        assert(st.emitted =~= Seq::empty());
        assert(state_items(st) =~= Seq::empty());
        assert(state_bytes(st) =~= Seq::empty());
    } else {
        assert(finish(st).drop_last() =~= st.emitted);
    }
}

/// The items of a run are those of its files, file by file in the order in
/// which the files were given, followed by one deletion item for each entry
/// to delete; its blobs, one behind the other, are the content of the files.
pub proof fn lemma_run_contents(files: Seq<LocalFileView>, deletions: Seq<RemoteEntryView>)
    ensures
        all_items(assembled(files, deletions)) == items_of_files(files) + delete_items(deletions),
        all_bytes(assembled(files, deletions)) == content_of(files),
{
    let packed = push_files(empty_assembly(), files);
    let noted = push_deletes(packed, deletions);
    lemma_files_packed(files);
    lemma_deletes_noted(packed, deletions);
    lemma_finish_contents(noted);
    assert(state_items(noted) =~= items_of_files(files) + delete_items(deletions));
}

/// The number of chunks of a run over these files and deletions.
pub open spec fn chunk_count(files: Seq<LocalFileView>, deletions: Seq<RemoteEntryView>) -> nat {
    if files.len() == 0 && deletions.len() == 0 {
        0
    } else {
        total_len(files) / (CHUNK_SIZE as nat) + 1
    }
}

/// What two runs of items carry together is the sum of what each carries.
pub proof fn lemma_carried_concat(a: Seq<ItemView>, b: Seq<ItemView>)
    ensures
        carried(a + b) == carried(a) + carried(b),
    decreases b.len(),
{
    if b.len() == 0 {
        assert(a + b =~= a);
    } else {
        lemma_carried_concat(a, b.drop_last());
        assert((a + b).drop_last() =~= a + b.drop_last());
    }
}

/// Of the items of one file: the first is of the type that the file stood
/// at, every later one is an `Append`, each bears the file's key, timestamp
/// and media type and at most a chunk's worth of bytes, and together they
/// carry the file's length. A file that is new has at least one item.
pub proof fn lemma_file_items(room: nat, entry: LocalEntryView, data_type: DataType, len: nat)
    requires
        0 < room <= CHUNK_SIZE,
        data_type != DataType::Delete,
    ensures
        data_type == DataType::New ==> file_items(room, entry, data_type, len).len() >= 1,
        file_items(room, entry, data_type, len).len() >= 1 ==> file_items(
            room,
            entry,
            data_type,
            len,
        )[0].data_type == data_type,
        forall|i: int|
            1 <= i < file_items(room, entry, data_type, len).len() ==> (#[trigger] file_items(
                room,
                entry,
                data_type,
                len,
            )[i]).data_type == DataType::Append,
        forall|i: int|
            0 <= i < file_items(room, entry, data_type, len).len() ==> {
                let item = #[trigger] file_items(room, entry, data_type, len)[i];
                &&& item.key == entry.key
                &&& item.timestamp == entry.modified_at_millis
                &&& item.content_type == entry.content_type
                &&& item.len <= CHUNK_SIZE
                &&& item.data_type != DataType::Delete
            },
        carried(file_items(room, entry, data_type, len)) == len,
    decreases len,
{
    let items = file_items(room, entry, data_type, len);
    if room <= len {
        let head = seq![file_item(entry, data_type, room)];
        let tail = file_items(CHUNK_SIZE as nat, entry, DataType::Append, (len - room) as nat);
        lemma_file_items(CHUNK_SIZE as nat, entry, DataType::Append, (len - room) as nat);
        lemma_carried_concat(head, tail);
        lemma_carried_push(Seq::empty(), file_item(entry, data_type, room));
        assert(head =~= Seq::<ItemView>::empty().push(file_item(entry, data_type, room)));
        assert(items == head + tail);
        assert forall|i: int| 1 <= i < items.len() implies (#[trigger] items[i]).data_type
            == DataType::Append by {
            assert(items[i] == tail[i - 1]);
        }
        assert forall|i: int| 0 <= i < items.len() implies {
            let item = #[trigger] items[i];
            &&& item.key == entry.key
            &&& item.timestamp == entry.modified_at_millis
            &&& item.content_type == entry.content_type
            &&& item.len <= CHUNK_SIZE
            &&& item.data_type != DataType::Delete
        } by {
            if i > 0 {
                assert(items[i] == tail[i - 1]);
            }
        }
    } else if len > 0 || data_type == DataType::New {
        lemma_carried_push(Seq::empty(), file_item(entry, data_type, len));
        assert(items =~= Seq::<ItemView>::empty().push(file_item(entry, data_type, len)));
    }
}

/// The chunks of a run are numbered from 0; all but the last are full and
/// not final; the last is final and not full; and each blob is as long as
/// the chunk's items say. A run with nothing to send has no chunk; any other
/// has one chunk more than its files fill.
pub proof fn lemma_run_shape(files: Seq<LocalFileView>, deletions: Seq<RemoteEntryView>)
    ensures
        assembled(files, deletions).len() == chunk_count(files, deletions),
        forall|i: int|
            0 <= i < assembled(files, deletions).len() ==> {
                let chunk = #[trigger] assembled(files, deletions)[i];
                let last = assembled(files, deletions).len() - 1;
                &&& chunk.sequence_id == i
                &&& chunk.is_final == (i == last)
                &&& i < last ==> chunk.blob.len() == CHUNK_SIZE
                &&& i == last ==> chunk.blob.len() < CHUNK_SIZE
                &&& chunk.blob.len() == carried(chunk.items)
            },
{
    let packed = push_files(empty_assembly(), files);
    let noted = push_deletes(packed, deletions);
    lemma_files_packed(files);
    lemma_deletes_noted(packed, deletions);
    if files.len() == 0 && deletions.len() == 0 {
        assert(noted.pending_items =~= Seq::empty());
    } else if deletions.len() > 0 {
        assert(noted.pending_items.len() >= 1);
    } else {
        let last = files.last();
        lemma_file_items(room_after(files.drop_last()), last.entry, DataType::New, last.data.len());
        assert(items_of_files(files).len() >= 1);
        if packed.emitted.len() == 0 {
            assert(packed.emitted =~= Seq::empty());
            assert(state_items(packed) =~= packed.pending_items);
        }
    }
}

/// The items of the file at position `k`, packed behind the files before it.
pub open spec fn items_of_file(files: Seq<LocalFileView>, k: int) -> Seq<ItemView>
    recommends
        0 <= k < files.len(),
{
    items_of_last(files.take(k + 1))
}

/// The items of the first `k` files come first among the items of all.
pub proof fn lemma_items_of_prefix(files: Seq<LocalFileView>, k: int)
    requires
        0 <= k <= files.len(),
    ensures
        items_of_files(files.take(k)).len() <= items_of_files(files).len(),
        items_of_files(files).take(items_of_files(files.take(k)).len() as int) == items_of_files(
            files.take(k),
        ),
    decreases files.len(),
{
    if k == files.len() {
        assert(files.take(k) =~= files);
        assert(items_of_files(files).take(items_of_files(files).len() as int) =~= items_of_files(
            files,
        ));
    } else {
        assert(files.drop_last().take(k) =~= files.take(k));
        lemma_items_of_prefix(files.drop_last(), k);
        let n = items_of_files(files.take(k)).len() as int;
        assert(items_of_files(files).take(n) =~= items_of_files(files.drop_last()).take(n));
    }
}

/// Every file of a run has its items in one stretch of the run's items,
/// behind those of the files before it. The first of them is a `New` and no
/// other is: the others are `Append`s. Each bears the file's key, timestamp
/// and media type, and together they carry exactly the file's length.
pub proof fn lemma_file_block(
    files: Seq<LocalFileView>,
    deletions: Seq<RemoteEntryView>,
    k: int,
)
    requires
        0 <= k < files.len(),
    ensures
        ({
            let items = all_items(assembled(files, deletions));
            let start = items_of_files(files.take(k)).len() as int;
            let block = items_of_file(files, k);
            &&& start + block.len() <= items.len()
            &&& items.subrange(start, start + block.len()) == block
            &&& block.len() >= 1
            &&& block[0].data_type == DataType::New
            &&& forall|i: int| 1 <= i < block.len() ==> (#[trigger] block[i]).data_type == DataType::Append
            &&& forall|i: int|
                0 <= i < block.len() ==> {
                    &&& (#[trigger] block[i]).key == files[k].entry.key
                    &&& block[i].timestamp == files[k].entry.modified_at_millis
                    &&& block[i].content_type == files[k].entry.content_type
                    &&& block[i].len <= CHUNK_SIZE
                }
            &&& carried(block) == files[k].data.len()
        }),
{
    let items = all_items(assembled(files, deletions));
    let upto = files.take(k + 1);
    let start = items_of_files(files.take(k)).len() as int;
    let block = items_of_file(files, k);
    lemma_run_contents(files, deletions);
    lemma_items_of_prefix(files, k + 1);
    assert(upto.drop_last() =~= files.take(k));
    assert(upto.last() == files[k]);
    lemma_file_items(room_after(files.take(k)), files[k].entry, DataType::New, files[k].data.len());
    assert(items_of_files(upto) == items_of_files(files.take(k)) + block);
    let n = items_of_files(upto).len() as int;
    assert(items.subrange(start, start + block.len()) =~= block) by {
        assert(items_of_files(files).take(n) == items_of_files(upto));
        assert forall|i: int| 0 <= i < block.len() implies items[start + i] == block[i] by {
            assert(items[start + i] == items_of_files(files)[start + i]);
            assert(items_of_files(files).take(n)[start + i] == items_of_files(files)[start + i]);
            assert(items_of_files(upto)[start + i] == block[i]);
        }
    }
}

/// No two files have the same key.
pub open spec fn distinct_file_keys(files: Seq<LocalFileView>) -> bool {
    forall|i: int, j: int|
        0 <= i < j < files.len() ==> (#[trigger] files[i]).entry.key != (#[trigger] files[j]).entry.key
}

/// The item belongs to the content of the file with key `key`.
pub open spec fn carries(item: ItemView, key: Seq<char>) -> bool {
    item.key == key && item.data_type != DataType::Delete
}

/// Every item of the files bears the key of one of them and is no deletion.
pub proof fn lemma_file_item_keys(files: Seq<LocalFileView>)
    ensures
        forall|i: int|
            0 <= i < items_of_files(files).len() ==> {
                &&& exists|w: int|
                    0 <= w < files.len() && (#[trigger] files[w]).entry.key == (
                    #[trigger] items_of_files(files)[i]).key
                &&& items_of_files(files)[i].data_type != DataType::Delete
            },
    decreases files.len(),
{
    if files.len() > 0 {
        let init = files.drop_last();
        let last = files.last();
        let block = items_of_last(files);
        lemma_file_item_keys(init);
        lemma_file_items(room_after(init), last.entry, DataType::New, last.data.len());
        assert forall|i: int| 0 <= i < items_of_files(files).len() implies {
            &&& exists|w: int|
                0 <= w < files.len() && (#[trigger] files[w]).entry.key == (
                #[trigger] items_of_files(files)[i]).key
            &&& items_of_files(files)[i].data_type != DataType::Delete
        } by {
            let item = items_of_files(files)[i];
            if i < items_of_files(init).len() {
                assert(item == items_of_files(init)[i]);
                let w = choose|w: int|
                    0 <= w < init.len() && (#[trigger] init[w]).entry.key == item.key;
                assert(files[w].entry.key == item.key);
            } else {
                assert(item == block[i - items_of_files(init).len()]);
                assert(files[files.len() - 1].entry.key == item.key);
            }
        }
    }
}

/// Among the items of files with distinct keys, those that carry the key of
/// the file at position `k` are the items of that file.
pub proof fn lemma_file_items_by_key(files: Seq<LocalFileView>, k: int)
    requires
        distinct_file_keys(files),
        0 <= k < files.len(),
    ensures
        items_of_files(files).filter(|item: ItemView| carries(item, files[k].entry.key))
            == items_of_file(files, k),
    decreases files.len(),
{
    let key = files[k].entry.key;
    let mine = |item: ItemView| carries(item, key);
    let init = files.drop_last();
    let last = files.last();
    let block = items_of_last(files);
    lemma_file_items(room_after(init), last.entry, DataType::New, last.data.len());
    Seq::filter_distributes_over_add(items_of_files(init), block, mine);
    if k == files.len() - 1 {
        lemma_file_item_keys(init);
        assert forall|i: int| 0 <= i < items_of_files(init).len() implies !mine(
            #[trigger] items_of_files(init)[i],
        ) by {
            let item = items_of_files(init)[i];
            let w = choose|w: int| 0 <= w < init.len() && (#[trigger] init[w]).entry.key == item.key;
            assert(files[w].entry.key != files[k].entry.key);
        }
        lemma_filter_take(items_of_files(init), mine, 0);
        lemma_filter_take(block, mine, block.len() as int);
        assert(files.take(k + 1) =~= files);
        assert(items_of_files(init).take(0) + block.take(block.len() as int) =~= block);
    } else {
        assert(distinct_file_keys(init)) by {
            assert forall|i: int, j: int| 0 <= i < j < init.len() implies (#[trigger] init[i]).entry.key
                != (#[trigger] init[j]).entry.key by {
                assert(files[i].entry.key != files[j].entry.key);
            }
        }
        lemma_file_items_by_key(init, k);
        assert(init[k] == files[k]);
        assert(init.take(k + 1) =~= files.take(k + 1));
        assert forall|i: int| 0 <= i < block.len() implies !mine(#[trigger] block[i]) by {
            assert(files[k].entry.key != files[files.len() - 1].entry.key);
        }
        lemma_filter_take(block, mine, 0);
        assert(items_of_file(files, k) + block.take(0) =~= items_of_file(files, k));
    }
}

/// Where the files of a run have distinct keys, the items of the run that
/// carry a file's key are that file's items: a `New` first and `Append`s
/// behind it, which together carry exactly the file's length.
pub proof fn lemma_items_by_key(
    files: Seq<LocalFileView>,
    deletions: Seq<RemoteEntryView>,
    k: int,
)
    requires
        distinct_file_keys(files),
        0 <= k < files.len(),
    ensures
        ({
            let mine = all_items(assembled(files, deletions)).filter(
                |item: ItemView| carries(item, files[k].entry.key),
            );
            &&& mine == items_of_file(files, k)
            &&& mine.len() >= 1
            &&& mine[0].data_type == DataType::New
            &&& forall|i: int| 1 <= i < mine.len() ==> (#[trigger] mine[i]).data_type == DataType::Append
            &&& carried(mine) == files[k].data.len()
        }),
{
    let key = files[k].entry.key;
    let mine = |item: ItemView| carries(item, key);
    let gone = delete_items(deletions);
    lemma_run_contents(files, deletions);
    lemma_file_items_by_key(files, k);
    lemma_file_block(files, deletions, k);
    Seq::filter_distributes_over_add(items_of_files(files), gone, mine);
    lemma_filter_take(gone, mine, 0);
    assert(items_of_file(files, k) + gone.take(0) =~= items_of_file(files, k));
}

/// Where all chunks but the last are full, each blob is the stretch of the
/// bytes that begins at the chunk's number times the capacity.
pub proof fn lemma_blob_position(chunks: Seq<ChunkView>, i: int)
    requires
        0 <= i < chunks.len(),
        forall|j: int| 0 <= j < chunks.len() - 1 ==> (#[trigger] chunks[j]).blob.len() == CHUNK_SIZE,
    ensures
        all_bytes(chunks).len() == (chunks.len() - 1) * CHUNK_SIZE + chunks.last().blob.len(),
        chunks[i].blob == all_bytes(chunks).subrange(
            i * CHUNK_SIZE,
            i * CHUNK_SIZE + chunks[i].blob.len(),
        ),
    decreases chunks.len(),
{
    let init = chunks.drop_last();
    if init.len() == 0 {
        assert(all_bytes(init) =~= Seq::empty());
        assert(all_bytes(chunks) =~= chunks[0].blob);
        assert(chunks[i].blob =~= all_bytes(chunks).subrange(0, chunks[0].blob.len() as int));
    } else {
        assert forall|j: int| 0 <= j < init.len() - 1 implies (#[trigger] init[j]).blob.len()
            == CHUNK_SIZE by {
            assert(init[j] == chunks[j]);
        }
        assert(init.last() == chunks[init.len() - 1]);
        if i < init.len() {
            lemma_blob_position(init, i);
            assert(init[i] == chunks[i]);
            assert(chunks[i].blob =~= all_bytes(chunks).subrange(
                i * CHUNK_SIZE,
                i * CHUNK_SIZE + chunks[i].blob.len(),
            ));
        } else {
            lemma_blob_position(init, 0);
            assert(chunks[i].blob =~= all_bytes(chunks).subrange(
                i * CHUNK_SIZE,
                i * CHUNK_SIZE + chunks[i].blob.len(),
            ));
        }
    }
}

/// The blob of the chunk with number `i` is the stretch of the files'
/// content that begins at `i` times the capacity and ends a capacity later,
/// or where the content ends.
pub proof fn lemma_chunk_blob(
    files: Seq<LocalFileView>,
    deletions: Seq<RemoteEntryView>,
    i: int,
)
    requires
        0 <= i < assembled(files, deletions).len(),
    ensures
        assembled(files, deletions)[i].blob == content_of(files).subrange(
            i * CHUNK_SIZE,
            if (i + 1) * CHUNK_SIZE <= total_len(files) {
                (i + 1) * CHUNK_SIZE
            } else {
                total_len(files) as int
            },
        ),
{
    let chunks = assembled(files, deletions);
    lemma_run_shape(files, deletions);
    lemma_run_contents(files, deletions);
    lemma_content_len(files);
    assert forall|j: int| 0 <= j < chunks.len() - 1 implies (#[trigger] chunks[j]).blob.len()
        == CHUNK_SIZE by {}
    lemma_blob_position(chunks, i);
}

} // verus!
