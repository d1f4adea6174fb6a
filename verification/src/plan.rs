//! From an inventory and a manifest to the chunks of a run.

use vstd::prelude::*;
use crate::assembler::{
    AssembleError, Assembler, AssemblyView, empty_assembly, finish, push_delete, push_file,
    push_refusal,
};
use crate::diff::{deletions_of, unchanged};
use crate::manifest::Manifest;
use crate::model::{
    Chunk, ChunkView, LocalEntry, LocalEntryView, RemoteEntry, RemoteEntryView, chunk_views,
    local_views, remote_views,
};

verus! {

/// A local file with its content.
#[derive(Debug, PartialEq, Eq)]
pub struct LocalFile {
    pub entry: LocalEntry,
    pub data: Vec<u8>,
}

pub ghost struct LocalFileView {
    pub entry: LocalEntryView,
    pub data: Seq<u8>,
}

impl View for LocalFile {
    type V = LocalFileView;

    open spec fn view(&self) -> LocalFileView {
        LocalFileView { entry: self.entry@, data: self.data@ }
    }
}

/// The views of a sequence of files, in order.
pub open spec fn file_views(files: Seq<LocalFile>) -> Seq<LocalFileView> {
    files.map_values(|f: LocalFile| f@)
}

/// The entries of a sequence of files, in order.
pub open spec fn entries_of(files: Seq<LocalFileView>) -> Seq<LocalEntryView> {
    files.map_values(|f: LocalFileView| f.entry)
}

/// The state after the files were packed one after the other.
pub open spec fn push_files(st: AssemblyView, files: Seq<LocalFileView>) -> AssemblyView
    decreases files.len(),
{
    if files.len() == 0 {
        st
    } else {
        let last = files.last();
        push_file(push_files(st, files.drop_last()), last.entry, last.data)
    }
}

/// The state after the removal of each of `entries` was noted, in order.
pub open spec fn push_deletes(st: AssemblyView, entries: Seq<RemoteEntryView>) -> AssemblyView
    decreases entries.len(),
{
    if entries.len() == 0 {
        st
    } else {
        push_delete(push_deletes(st, entries.drop_last()), entries.last().name)
    }
}

/// The reason for which the first file that is refused is refused, if one is.
pub open spec fn first_refusal(st: AssemblyView, files: Seq<LocalFileView>) -> Option<
    AssembleError,
>
    decreases files.len(),
{
    if files.len() == 0 {
        None
    } else {
        match first_refusal(st, files.drop_last()) {
            Some(e) => Some(e),
            None => {
                let last = files.last();
                push_refusal(push_files(st, files.drop_last()), last.entry, last.data)
            },
        }
    }
}

/// The chunks that carry the files and then the deletions.
pub open spec fn assembled(files: Seq<LocalFileView>, deletions: Seq<RemoteEntryView>) -> Seq<
    ChunkView,
> {
    finish(push_deletes(push_files(empty_assembly(), files), deletions))
}

/// The files whose entry has to be sent, in order.
pub open spec fn changed_files(manifest: Seq<RemoteEntryView>, files: Seq<LocalFileView>) -> Seq<
    LocalFileView,
> {
    files.filter(|f: LocalFileView| !unchanged(manifest, f.entry))
}

/// The chunks of a run over `files` against `manifest`.
pub open spec fn planned(manifest: Seq<RemoteEntryView>, files: Seq<LocalFileView>) -> Seq<
    ChunkView,
> {
    assembled(changed_files(manifest, files), deletions_of(manifest, entries_of(files)))
}

/// A refusal among the first files is the refusal of the whole sequence.
pub proof fn lemma_refusal_of_prefix(st: AssemblyView, files: Seq<LocalFileView>, k: int)
    requires
        0 <= k <= files.len(),
        first_refusal(st, files.take(k)).is_some(),
    ensures
        first_refusal(st, files) == first_refusal(st, files.take(k)),
    decreases files.len() - k,
{
    if k < files.len() {
        assert(files.take(k + 1).drop_last() =~= files.take(k));
        lemma_refusal_of_prefix(st, files, k + 1);
    } else {
        assert(files.take(k) =~= files);
    }
}

/// A refusal among the changed ones of the first files is the refusal of the run.
pub proof fn lemma_refusal_of_changed_prefix(
    st: AssemblyView,
    manifest: Seq<RemoteEntryView>,
    files: Seq<LocalFileView>,
    k: int,
)
    requires
        0 <= k <= files.len(),
        first_refusal(st, changed_files(manifest, files.take(k))).is_some(),
    ensures
        first_refusal(st, changed_files(manifest, files)) == first_refusal(
            st,
            changed_files(manifest, files.take(k)),
        ),
    decreases files.len() - k,
{
    if k < files.len() {
        let changed = |f: LocalFileView| !unchanged(manifest, f.entry);
        assert(files.take(k + 1) =~= files.take(k).push(files[k]));
        files.take(k).lemma_filter_push(files[k], changed);
        if changed(files[k]) {
            assert(files.take(k).filter(changed).push(files[k]).drop_last() =~= files.take(
                k,
            ).filter(changed));
        }
        lemma_refusal_of_changed_prefix(st, manifest, files, k + 1);
    } else {
        assert(files.take(k) =~= files);
    }
}

fn note_deletions(assembler: &mut Assembler, deletions: &Vec<RemoteEntry>)
    requires
        old(assembler).wf(),
    ensures
        final(assembler).wf(),
        final(assembler)@ == push_deletes(old(assembler)@, remote_views(deletions@)),
{
    let ghost all = remote_views(deletions@);
    assert(all.take(0) =~= Seq::empty());
    for k in 0..deletions.len()
        invariant
            all == remote_views(deletions@),
            assembler.wf(),
            assembler@ == push_deletes(old(assembler)@, all.take(k as int)),
    {
        proof {
            assert(all.take(k + 1).drop_last() =~= all.take(k as int));
            assert(all.take(k + 1).last() == deletions@[k as int]@);
        }
        assembler.push_delete(deletions[k].name.as_str());
    }
    assert(all.take(deletions@.len() as int) =~= all);
}

/// Packs the files, in order, and then the deletions. Fails with the reason
/// of the first file that the assembler refuses.
pub fn assemble(files: &Vec<LocalFile>, deletions: &Vec<RemoteEntry>) -> (r: Result<
    Vec<Chunk>,
    AssembleError,
>)
    ensures
        match first_refusal(empty_assembly(), file_views(files@)) {
            Some(e) => r == Err::<Vec<Chunk>, AssembleError>(e),
            None => r.is_ok() && chunk_views(r.unwrap()@) == assembled(
                file_views(files@),
                remote_views(deletions@),
            ),
        },
{
    let ghost all = file_views(files@);
    let mut assembler = Assembler::new();
    assert(all.take(0) =~= Seq::empty());
    for k in 0..files.len()
        invariant
            all == file_views(files@),
            assembler.wf(),
            first_refusal(empty_assembly(), all.take(k as int)).is_none(),
            assembler@ == push_files(empty_assembly(), all.take(k as int)),
    {
        proof {
            assert(all.take(k + 1).drop_last() =~= all.take(k as int));
            assert(all.take(k + 1).last() == files@[k as int]@);
        }
        match assembler.push_file(&files[k].entry, files[k].data.as_slice()) {
            Ok(_) => {},
            Err(e) => {
                proof {
                    lemma_refusal_of_prefix(empty_assembly(), all, k + 1);
                }
                return Err(e);
            },
        }
    }
    assert(all.take(files@.len() as int) =~= all);
    note_deletions(&mut assembler, deletions);
    Ok(assembler.finish())
}

/// Plans a run: packs the files that the manifest does not hold unchanged,
/// in inventory order, and then the removal of each remote entry whose name
/// no file has. Fails with the reason of the first file that the assembler
/// refuses.
pub fn sync_plan(manifest: &Manifest, files: &Vec<LocalFile>) -> (r: Result<
    Vec<Chunk>,
    AssembleError,
>)
    requires
        manifest.wf(),
    ensures
        match first_refusal(empty_assembly(), changed_files(manifest@, file_views(files@))) {
            Some(e) => r == Err::<Vec<Chunk>, AssembleError>(e),
            None => r.is_ok() && chunk_views(r.unwrap()@) == planned(
                manifest@,
                file_views(files@),
            ),
        },
{
    let ghost all = file_views(files@);
    let ghost changed = |f: LocalFileView| !unchanged(manifest@, f.entry);
    let mut assembler = Assembler::new();
    let mut entries: Vec<LocalEntry> = Vec::new();
    proof {
        assert(all.take(0) =~= Seq::empty());
        assert(all.take(0).filter(changed) =~= Seq::empty()) by {
            reveal(Seq::filter);
        }
        assert(local_views(entries@) =~= entries_of(all.take(0)));
    }
    for k in 0..files.len()
        invariant
            manifest.wf(),
            all == file_views(files@),
            changed == (|f: LocalFileView| !unchanged(manifest@, f.entry)),
            assembler.wf(),
            local_views(entries@) == entries_of(all.take(k as int)),
            first_refusal(empty_assembly(), all.take(k as int).filter(changed)).is_none(),
            assembler@ == push_files(empty_assembly(), all.take(k as int).filter(changed)),
    {
        let file = &files[k];
        let ghost before = all.take(k as int).filter(changed);
        proof {
            assert(all.take(k + 1) =~= all.take(k as int).push(file@));
            all.take(k as int).lemma_filter_push(file@, changed);
            assert(before.push(file@).drop_last() =~= before);
        }
        let ghost listed = entries@;
        entries.push(file.entry.clone());
        assert(local_views(entries@) =~= entries_of(all.take(k + 1))) by {
            assert(local_views(entries@) =~= local_views(listed).push(file@.entry));
            assert(entries_of(all.take(k + 1)) =~= entries_of(all.take(k as int)).push(
                file@.entry,
            ));
        }
        if manifest.needs_upload(&file.entry) {
            match assembler.push_file(&file.entry, file.data.as_slice()) {
                Ok(_) => {},
                Err(e) => {
                    proof {
                        lemma_refusal_of_changed_prefix(empty_assembly(), manifest@, all, k + 1);
                    }
                    return Err(e);
                },
            }
        }
    }
    assert(all.take(files@.len() as int) =~= all);
    let changeset = manifest.diff(&entries);
    note_deletions(&mut assembler, &changeset.deletions);
    Ok(assembler.finish())
}

} // verus!
