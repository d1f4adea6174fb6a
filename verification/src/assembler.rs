//! Packs file contents and deletions into chunks of bounded size.

use vstd::prelude::*;
use vstd::slice::slice_subrange;
use crate::model::{
    Chunk, ChunkView, DataType, Item, ItemView, LocalEntry, LocalEntryView, chunk_views,
    item_views,
};

verus! {

/// The capacity of a chunk's blob, in bytes.
pub const CHUNK_SIZE: usize = 2_000_000;

/// The state of an assembly pass: the chunks already sealed, and the blob and
/// items gathered for the chunk that is still open.
pub ghost struct AssemblyView {
    pub emitted: Seq<ChunkView>,
    pub pending_blob: Seq<u8>,
    pub pending_items: Seq<ItemView>,
}

/// The state before anything was pushed.
pub open spec fn empty_assembly() -> AssemblyView {
    AssemblyView { emitted: Seq::empty(), pending_blob: Seq::empty(), pending_items: Seq::empty() }
}

/// The item that stands for `len` bytes of the file `entry`.
pub open spec fn file_item(entry: LocalEntryView, data_type: DataType, len: nat) -> ItemView {
    ItemView {
        key: entry.key,
        data_type,
        len,
        timestamp: entry.modified_at_millis,
        content_type: entry.content_type,
    }
}

/// The item that asks for the removal of `name`.
pub open spec fn delete_item(name: Seq<char>) -> ItemView {
    ItemView {
        key: name,
        data_type: DataType::Delete,
        len: 0,
        timestamp: 0,
        content_type: Seq::empty(),
    }
}

/// The open chunk, as it would be sealed now.
pub open spec fn pending_chunk(st: AssemblyView, is_final: bool) -> ChunkView {
    ChunkView {
        sequence_id: st.emitted.len(),
        blob: st.pending_blob,
        items: st.pending_items,
        is_final,
    }
}

/// Seals the open chunk as a non-final one and opens an empty one.
pub open spec fn seal(st: AssemblyView) -> AssemblyView {
    AssemblyView {
        emitted: st.emitted.push(pending_chunk(st, false)),
        pending_blob: Seq::empty(),
        pending_items: Seq::empty(),
    }
}

/// Adds `bytes` of `entry` to the open chunk, with their item.
pub open spec fn extend(
    st: AssemblyView,
    entry: LocalEntryView,
    data_type: DataType,
    bytes: Seq<u8>,
) -> AssemblyView {
    AssemblyView {
        emitted: st.emitted,
        pending_blob: st.pending_blob + bytes,
        pending_items: st.pending_items.push(file_item(entry, data_type, bytes.len())),
    }
}

/// Packs `rest`, the unread content of `entry`, whose next item is of type
/// `data_type`. While the content fills the open chunk, the chunk is filled
/// and sealed and the file goes on as `Append`. What is left then joins the
/// open chunk; an empty remainder gets an item only where the file has none yet.
pub open spec fn feed(
    st: AssemblyView,
    entry: LocalEntryView,
    data_type: DataType,
    rest: Seq<u8>,
) -> AssemblyView
    decreases rest.len(),
{
    let room = CHUNK_SIZE as int - st.pending_blob.len();
    if 0 < room <= rest.len() {
        feed(
            seal(extend(st, entry, data_type, rest.take(room))),
            entry,
            DataType::Append,
            rest.skip(room),
        )
    } else if rest.len() > 0 || data_type == DataType::New {
        extend(st, entry, data_type, rest)
    } else {
        st
    }
}

/// The state after the file `entry` with content `data` was packed.
pub open spec fn push_file(st: AssemblyView, entry: LocalEntryView, data: Seq<u8>) -> AssemblyView {
    feed(st, entry, DataType::New, data)
}

/// The state after the removal of `name` was noted.
pub open spec fn push_delete(st: AssemblyView, name: Seq<char>) -> AssemblyView {
    AssemblyView {
        emitted: st.emitted,
        pending_blob: st.pending_blob,
        pending_items: st.pending_items.push(delete_item(name)),
    }
}

/// The chunks of a finished pass: none where nothing was pushed, else the
/// sealed chunks followed by the open one, marked final.
pub open spec fn finish(st: AssemblyView) -> Seq<ChunkView> {
    if st.emitted.len() == 0 && st.pending_items.len() == 0 {
        Seq::empty()
    } else {
        st.emitted.push(pending_chunk(st, true))
    }
}

/// The number of chunks sealed once `len` more bytes have been packed.
pub open spec fn sealed_after(st: AssemblyView, len: nat) -> nat {
    st.emitted.len() + (st.pending_blob.len() + len) / (CHUNK_SIZE as nat)
}

/// The bytes that the items say their chunk holds: the sum of `len` over
/// the items that are not deletions.
pub open spec fn carried(items: Seq<ItemView>) -> nat
    decreases items.len(),
{
    if items.len() == 0 {
        0
    } else if items.last().data_type == DataType::Delete {
        carried(items.drop_last())
    } else {
        carried(items.drop_last()) + items.last().len
    }
}

/// Holds of every state that pushes lead to: the open chunk has room left,
/// the sealed chunks are full, numbered from 0 and not final, and every blob
/// is as long as its items say.
pub open spec fn well_formed(st: AssemblyView) -> bool {
    &&& st.pending_blob.len() < CHUNK_SIZE
    &&& st.pending_blob.len() == carried(st.pending_items)
    &&& forall|i: int|
        0 <= i < st.emitted.len() ==> {
            &&& (#[trigger] st.emitted[i]).sequence_id == i
            &&& st.emitted[i].blob.len() == CHUNK_SIZE
            &&& st.emitted[i].blob.len() == carried(st.emitted[i].items)
            &&& !st.emitted[i].is_final
        }
}

/// One more item adds its length, unless it is a deletion.
pub proof fn lemma_carried_push(items: Seq<ItemView>, item: ItemView)
    ensures
        carried(items.push(item)) == carried(items) + if item.data_type == DataType::Delete {
            0
        } else {
            item.len
        },
{
    assert(items.push(item).drop_last() =~= items);
}

/// Bytes that leave room in the open chunk keep the state well formed.
pub proof fn lemma_extend_shape(
    st: AssemblyView,
    entry: LocalEntryView,
    data_type: DataType,
    bytes: Seq<u8>,
)
    requires
        well_formed(st),
        data_type != DataType::Delete,
        st.pending_blob.len() + bytes.len() < CHUNK_SIZE,
    ensures
        well_formed(extend(st, entry, data_type, bytes)),
{
    lemma_carried_push(st.pending_items, file_item(entry, data_type, bytes.len()));
}

/// Bytes that fill the open chunk, which is then sealed, keep the state well formed.
pub proof fn lemma_fill_shape(
    st: AssemblyView,
    entry: LocalEntryView,
    data_type: DataType,
    bytes: Seq<u8>,
)
    requires
        well_formed(st),
        data_type != DataType::Delete,
        st.pending_blob.len() + bytes.len() == CHUNK_SIZE,
    ensures
        well_formed(seal(extend(st, entry, data_type, bytes))),
{
    lemma_carried_push(st.pending_items, file_item(entry, data_type, bytes.len()));
}

/// Packing keeps a state well formed and seals as many chunks as the bytes fill.
pub proof fn lemma_feed_shape(
    st: AssemblyView,
    entry: LocalEntryView,
    data_type: DataType,
    rest: Seq<u8>,
)
    requires
        well_formed(st),
        data_type != DataType::Delete,
    ensures
        well_formed(feed(st, entry, data_type, rest)),
        feed(st, entry, data_type, rest).emitted.len() == sealed_after(st, rest.len()),
        feed(st, entry, data_type, rest).pending_blob.len() == (st.pending_blob.len() + rest.len())
            % (CHUNK_SIZE as nat),
    decreases rest.len(),
{
    let room = CHUNK_SIZE as int - st.pending_blob.len();
    if 0 < room <= rest.len() {
        let next = seal(extend(st, entry, data_type, rest.take(room)));
        lemma_fill_shape(st, entry, data_type, rest.take(room));
        lemma_feed_shape(next, entry, DataType::Append, rest.skip(room));
    } else if rest.len() > 0 || data_type == DataType::New {
        lemma_extend_shape(st, entry, data_type, rest);
    }
}

/// Why a file was not packed.
#[derive(Clone, Copy, Debug, PartialEq, Eq, Structural)]
pub enum AssembleError {
    /// The content handed over is not as long as the entry says.
    SizeMismatch,
    /// More chunks would be sealed than there are sequence ids.
    TooManyChunks,
}

/// The reason for which a file is refused in state `st`, if it is.
pub open spec fn push_refusal(st: AssemblyView, entry: LocalEntryView, data: Seq<u8>) -> Option<
    AssembleError,
> {
    if data.len() != entry.size {
        Some(AssembleError::SizeMismatch)
    } else if sealed_after(st, data.len()) > u32::MAX {
        Some(AssembleError::TooManyChunks)
    } else {
        None
    }
}

/// An assembly pass in progress.
pub struct Assembler {
    chunks: Vec<Chunk>,
    pending_blob: Vec<u8>,
    pending_items: Vec<Item>,
}

impl View for Assembler {
    type V = AssemblyView;

    closed spec fn view(&self) -> AssemblyView {
        AssemblyView {
            emitted: chunk_views(self.chunks@),
            pending_blob: self.pending_blob@,
            pending_items: item_views(self.pending_items@),
        }
    }
}

impl Assembler {
    /// The state is well formed and the open chunk's sequence id fits its type.
    pub open spec fn wf(&self) -> bool {
        &&& well_formed(self@)
        &&& self@.emitted.len() <= u32::MAX
    }

    /// An assembler into which nothing was pushed.
    pub fn new() -> (r: Assembler)
        ensures
            r.wf(),
            r@ == empty_assembly(),
    {
        let r = Assembler { chunks: Vec::new(), pending_blob: Vec::new(), pending_items: Vec::new() };
        assert(r@.emitted =~= Seq::empty());
        assert(r@.pending_items =~= Seq::empty());
        r
    }

    /// The number of chunks sealed so far, which is the sequence id of the open one.
    pub fn next_sequence_id(&self) -> (id: u32)
        requires
            self.wf(),
        ensures
            id == self@.emitted.len(),
    {
        self.chunks.len() as u32
    }

    /// The bytes that the open chunk can still take.
    pub fn remaining_capacity(&self) -> (room: usize)
        requires
            self.wf(),
        ensures
            room == CHUNK_SIZE - self@.pending_blob.len(),
            0 < room <= CHUNK_SIZE,
    {
        CHUNK_SIZE - self.pending_blob.len()
    }

    fn take_bytes(&mut self, entry: &LocalEntry, data_type: DataType, bytes: &[u8])
        requires
            old(self)@.pending_blob.len() + bytes@.len() <= CHUNK_SIZE,
        ensures
            final(self)@ == extend(old(self)@, entry@, data_type, bytes@),
    {
        let item = Item {
            key: entry.key.clone(),
            data_type,
            len: bytes.len() as u32,
            timestamp: entry.modified_at_millis,
            content_type: entry.content_type.clone(),
        };
        assert(item@ == file_item(entry@, data_type, bytes@.len()));
        self.pending_blob.extend_from_slice(bytes);
        self.pending_items.push(item);
        assert(self@.pending_blob =~= old(self)@.pending_blob + bytes@);
        assert(self@.pending_items =~= old(self)@.pending_items.push(item@));
    }

    fn seal_chunk(&mut self)
        requires
            old(self)@.emitted.len() < u32::MAX,
        ensures
            final(self)@ == seal(old(self)@),
    {
        let mut blob: Vec<u8> = Vec::new();
        let mut items: Vec<Item> = Vec::new();
        core::mem::swap(&mut blob, &mut self.pending_blob);
        core::mem::swap(&mut items, &mut self.pending_items);
        let chunk = Chunk { sequence_id: self.chunks.len() as u32, blob, items, is_final: false };
        assert(chunk@ == pending_chunk(old(self)@, false));
        self.chunks.push(chunk);
        assert(self@.emitted =~= old(self)@.emitted.push(chunk@));
        assert(self@.pending_items =~= Seq::empty());
    }

    /// Packs one file. The content must be as long as the entry says, and the
    /// chunks it fills must leave a sequence id for the open one; else the
    /// file is refused and nothing changes.
    pub fn push_file(&mut self, entry: &LocalEntry, data: &[u8]) -> (r: Result<(), AssembleError>)
        requires
            old(self).wf(),
        ensures
            final(self).wf(),
            match push_refusal(old(self)@, entry@, data@) {
                Some(e) => r == Err::<(), AssembleError>(e) && final(self)@ == old(self)@,
                None => r.is_ok() && final(self)@ == push_file(old(self)@, entry@, data@),
            },
    {
        let total: usize = data.len();
        if total as u64 != entry.size {
            return Err(AssembleError::SizeMismatch);
        }
        let sealed: u128 = self.chunks.len() as u128 + (self.pending_blob.len() as u128
            + total as u128) / (CHUNK_SIZE as u128);
        if sealed > u32::MAX as u128 {
            return Err(AssembleError::TooManyChunks);
        }
        let ghost target = push_file(self@, entry@, data@);
        let mut offset: usize = 0;
        let mut data_type = DataType::New;
        assert(data@.skip(0) =~= data@);
        while total - offset >= CHUNK_SIZE - self.pending_blob.len()
            invariant
                well_formed(self@),
                offset <= total == data@.len(),
                sealed_after(self@, (total - offset) as nat) <= u32::MAX,
                feed(self@, entry@, data_type, data@.skip(offset as int)) == target,
                data_type != DataType::Delete,
            decreases total - offset,
        {
            let room: usize = CHUNK_SIZE - self.pending_blob.len();
            let ghost rest = data@.skip(offset as int);
            let ghost before = self@;
            self.take_bytes(entry, data_type, slice_subrange(data, offset, offset + room));
            self.seal_chunk();
            proof {
                assert(rest.take(room as int) =~= data@.subrange(offset as int, offset + room));
                assert(rest.skip(room as int) =~= data@.skip(offset + room));
                assert(self@ == seal(extend(before, entry@, data_type, rest.take(room as int))));
                lemma_fill_shape(before, entry@, data_type, rest.take(room as int));
            }
            offset = offset + room;
            data_type = DataType::Append;
        }
        if total - offset > 0 || data_type == DataType::New {
            let ghost before = self@;
            self.take_bytes(entry, data_type, slice_subrange(data, offset, total));
            proof {
                assert(data@.subrange(offset as int, total as int) =~= data@.skip(offset as int));
                lemma_extend_shape(before, entry@, data_type, data@.skip(offset as int));
            }
        }
        Ok(())
    }
    /// Notes the removal of the remote entry `name`. It adds no bytes, so the
    /// open chunk takes it however full it is.
    pub fn push_delete(&mut self, name: &str)
        requires
            old(self).wf(),
        ensures
            final(self).wf(),
            final(self)@ == push_delete(old(self)@, name@),
    {
        let item = Item {
            key: name.to_owned(),
            data_type: DataType::Delete,
            len: 0,
            timestamp: 0,
            content_type: String::new(),
        };
        assert(item@ == delete_item(name@));
        self.pending_items.push(item);
        proof {
            assert(self@.pending_items =~= old(self)@.pending_items.push(item@));
            lemma_carried_push(old(self)@.pending_items, item@);
        }
    }

    /// Ends the pass and hands out its chunks, the last one marked final.
    /// A pass into which nothing was pushed has no chunk.
    pub fn finish(self) -> (chunks: Vec<Chunk>)
        requires
            self.wf(),
        ensures
            chunk_views(chunks@) == finish(self@),
    {
        let Assembler { chunks, pending_blob, pending_items } = self;
        let mut chunks = chunks;
        if chunks.len() == 0 && pending_items.len() == 0 {
            assert(chunk_views(chunks@) =~= Seq::empty());
            return chunks;
        }
        let ghost sealed = chunks@;
        let last = Chunk {
            sequence_id: chunks.len() as u32,
            blob: pending_blob,
            items: pending_items,
            is_final: true,
        };
        assert(last@ == pending_chunk(self@, true));
        chunks.push(last);
        assert(chunk_views(chunks@) =~= chunk_views(sealed).push(last@));
        chunks
    }
}

} // verus!
