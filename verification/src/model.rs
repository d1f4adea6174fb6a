//! The data that one synchronisation run works on, and its mathematical view.

use vstd::prelude::*;

verus! {

/// What an item asks the remote store to do with its key.
#[derive(Clone, Copy, Debug, PartialEq, Eq, Structural)]
pub enum DataType {
    /// The first piece of a file: the store starts the entry anew.
    New,
    /// A further piece of a file whose first piece went out in an earlier chunk.
    Append,
    /// The entry is removed from the store.
    Delete,
}

/// A file found under the local root.
#[derive(Debug, PartialEq, Eq)]
pub struct LocalEntry {
    /// Path below the root, starting with a slash.
    pub key: String,
    /// Length of the file in bytes.
    pub size: u64,
    /// Time of the last modification, in milliseconds since the Unix epoch.
    pub modified_at_millis: u64,
    /// Media type sent along with the file.
    pub content_type: String,
}

/// An entry of the remote store's manifest.
#[derive(Debug, PartialEq, Eq)]
pub struct RemoteEntry {
    pub name: String,
    pub size: u64,
    pub timestamp: u64,
}

/// Describes the part of one file that a chunk carries, or one deletion.
#[derive(Debug, PartialEq, Eq)]
pub struct Item {
    pub key: String,
    pub data_type: DataType,
    /// Bytes of the file's content held by the chunk this item belongs to.
    pub len: u32,
    pub timestamp: u64,
    pub content_type: String,
}

/// One unit of transfer.
#[derive(Debug, PartialEq, Eq)]
pub struct Chunk {
    pub sequence_id: u32,
    /// The content of the chunk's items, concatenated in item order.
    pub blob: Vec<u8>,
    pub items: Vec<Item>,
    /// Set on the last chunk of a run and on no other.
    pub is_final: bool,
}

pub ghost struct LocalEntryView {
    pub key: Seq<char>,
    pub size: nat,
    pub modified_at_millis: nat,
    pub content_type: Seq<char>,
}

pub ghost struct RemoteEntryView {
    pub name: Seq<char>,
    pub size: nat,
    pub timestamp: nat,
}

pub ghost struct ItemView {
    pub key: Seq<char>,
    pub data_type: DataType,
    pub len: nat,
    pub timestamp: nat,
    pub content_type: Seq<char>,
}

pub ghost struct ChunkView {
    pub sequence_id: nat,
    pub blob: Seq<u8>,
    pub items: Seq<ItemView>,
    pub is_final: bool,
}

impl View for LocalEntry {
    type V = LocalEntryView;

    open spec fn view(&self) -> LocalEntryView {
        LocalEntryView {
            key: self.key@,
            size: self.size as nat,
            modified_at_millis: self.modified_at_millis as nat,
            content_type: self.content_type@,
        }
    }
}

impl View for RemoteEntry {
    type V = RemoteEntryView;

    open spec fn view(&self) -> RemoteEntryView {
        RemoteEntryView { name: self.name@, size: self.size as nat, timestamp: self.timestamp as nat }
    }
}

impl View for Item {
    type V = ItemView;

    open spec fn view(&self) -> ItemView {
        ItemView {
            key: self.key@,
            data_type: self.data_type,
            len: self.len as nat,
            timestamp: self.timestamp as nat,
            content_type: self.content_type@,
        }
    }
}

/// The views of a sequence of items, in order.
pub open spec fn item_views(items: Seq<Item>) -> Seq<ItemView> {
    items.map_values(|i: Item| i@)
}

impl View for Chunk {
    type V = ChunkView;

    open spec fn view(&self) -> ChunkView {
        ChunkView {
            sequence_id: self.sequence_id as nat,
            blob: self.blob@,
            items: item_views(self.items@),
            is_final: self.is_final,
        }
    }
}

/// The views of a sequence of chunks, in order.
pub open spec fn chunk_views(chunks: Seq<Chunk>) -> Seq<ChunkView> {
    chunks.map_values(|c: Chunk| c@)
}

/// The views of a sequence of local entries, in order.
pub open spec fn local_views(entries: Seq<LocalEntry>) -> Seq<LocalEntryView> {
    entries.map_values(|e: LocalEntry| e@)
}

/// The views of a sequence of remote entries, in order.
pub open spec fn remote_views(entries: Seq<RemoteEntry>) -> Seq<RemoteEntryView> {
    entries.map_values(|e: RemoteEntry| e@)
}

impl Clone for LocalEntry {
    fn clone(&self) -> (r: Self)
        ensures
            r == *self,
    {
        LocalEntry {
            key: self.key.clone(),
            size: self.size,
            modified_at_millis: self.modified_at_millis,
            content_type: self.content_type.clone(),
        }
    }
}

impl Clone for RemoteEntry {
    fn clone(&self) -> (r: Self)
        ensures
            r == *self,
    {
        RemoteEntry { name: self.name.clone(), size: self.size, timestamp: self.timestamp }
    }
}

impl Clone for Item {
    fn clone(&self) -> (r: Self)
        ensures
            r == *self,
    {
        Item {
            key: self.key.clone(),
            data_type: self.data_type,
            len: self.len,
            timestamp: self.timestamp,
            content_type: self.content_type.clone(),
        }
    }
}

impl Clone for Chunk {
    fn clone(&self) -> (r: Self)
        ensures
            r@ == self@,
    {
        let r = Chunk {
            sequence_id: self.sequence_id,
            blob: self.blob.clone(),
            items: self.items.clone(),
            is_final: self.is_final,
        };
        assert(r.blob@ =~= self.blob@);
        assert(item_views(r.items@) =~= item_views(self.items@));
        r
    }
}

} // verus!
