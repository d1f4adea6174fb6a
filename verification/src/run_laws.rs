//! What holds of every planned run.

use vstd::prelude::*;
use crate::assembler::delete_item;
use crate::chunk_laws::{
    all_items, delete_items, items_of_files, lemma_file_item_keys, lemma_run_contents,
};
use crate::diff::{deletions_of, has_key, matches_entry, unchanged};
use crate::manifest::{distinct_names, has_name};
use crate::diff_laws::lemma_deletions;
use crate::model::{ChunkView, LocalEntryView, RemoteEntryView};
use crate::orchestrator::{Action, step_after_uploads};
use crate::plan::{LocalFileView, changed_files, entries_of, planned};

verus! {

/// The manifest says of the local entries what they say themselves, and
/// holds no other name: it holds each of them unchanged, and each of its
/// names is a local key.
pub open spec fn settled(manifest: Seq<RemoteEntryView>, locals: Seq<LocalEntryView>) -> bool {
    &&& forall|i: int| 0 <= i < locals.len() ==> unchanged(manifest, #[trigger] locals[i])
    &&& forall|j: int| 0 <= j < manifest.len() ==> has_key(locals, (#[trigger] manifest[j]).name)
}

/// The remote entry that the store holds for a local one once it was sent.
pub open spec fn stored(local: LocalEntryView) -> RemoteEntryView {
    RemoteEntryView { name: local.key, size: local.size, timestamp: local.modified_at_millis }
}

/// The listing of a store that holds the local entries and nothing else.
pub open spec fn listing_of(locals: Seq<LocalEntryView>) -> Seq<RemoteEntryView> {
    locals.map_values(|l: LocalEntryView| stored(l))
}

/// A store that holds the local entries and nothing else is settled.
pub proof fn lemma_listing_settled(locals: Seq<LocalEntryView>)
    ensures
        settled(listing_of(locals), locals),
{
    let manifest = listing_of(locals);
    assert forall|i: int| 0 <= i < locals.len() implies unchanged(
        manifest,
        #[trigger] locals[i],
    ) by {
        assert(matches_entry(manifest[i], locals[i]));
    }
    assert forall|j: int| 0 <= j < manifest.len() implies has_key(
        locals,
        (#[trigger] manifest[j]).name,
    ) by {
        assert(locals[j].key == manifest[j].name);
    }
}

/// A run against a manifest that is settled has no chunk, and so no commit:
/// once a run's changes show in the manifest, a second run over the same
/// files sends nothing.
pub proof fn lemma_settled_run_is_empty(manifest: Seq<RemoteEntryView>, files: Seq<LocalFileView>)
    requires
        settled(manifest, entries_of(files)),
    ensures
        planned(manifest, files) == Seq::<ChunkView>::empty(),
        step_after_uploads(Seq::new(planned(manifest, files).len(), |i: int| true))
            == Action::Succeed,
{
    let locals = entries_of(files);
    let changed = |f: LocalFileView| !unchanged(manifest, f.entry);
    let gone = |r: RemoteEntryView| !has_key(locals, r.name);
    assert(files.all(|f: LocalFileView| !changed(f))) by {
        assert forall|i: int| 0 <= i < files.len() implies !changed(#[trigger] files[i]) by {
            assert(locals[i] == files[i].entry);
        }
    }
    files.lemma_all_neg_filter_empty(changed);
    assert(manifest.all(|r: RemoteEntryView| !gone(r)));
    manifest.lemma_all_neg_filter_empty(gone);
    assert(changed_files(manifest, files) =~= Seq::empty());
    assert(deletions_of(manifest, locals) =~= Seq::empty());
    assert(planned(manifest, files) =~= Seq::empty());
}

/// Every name that the manifest holds and no local file has gets exactly one
/// item among the chunks of the run, and that item is its deletion, of
/// length and timestamp 0.
pub proof fn lemma_deletion_complete(
    manifest: Seq<RemoteEntryView>,
    files: Seq<LocalFileView>,
    name: Seq<char>,
)
    requires
        distinct_names(manifest),
        has_name(manifest, name),
        !has_key(entries_of(files), name),
    ensures
        exists|i: int|
            {
                &&& 0 <= i < all_items(planned(manifest, files)).len()
                &&& #[trigger] all_items(planned(manifest, files))[i] == delete_item(name)
                &&& forall|j: int|
                    0 <= j < all_items(planned(manifest, files)).len() && (#[trigger] all_items(
                        planned(manifest, files),
                    )[j]).key == name ==> j == i
            },
{
    let locals = entries_of(files);
    let sent = changed_files(manifest, files);
    let deletions = deletions_of(manifest, locals);
    let items = all_items(planned(manifest, files));
    let first = items_of_files(sent);
    lemma_run_contents(sent, deletions);
    lemma_deletions(manifest, locals);
    lemma_file_item_keys(sent);
    let m = choose|m: int| 0 <= m < manifest.len() && (#[trigger] manifest[m]).name == name;
    let d = choose|d: int| 0 <= d < deletions.len() && deletions[d] == manifest[m];
    let at = first.len() + d;
    assert(items[at] == delete_items(deletions)[d]);
    assert forall|j: int| 0 <= j < items.len() && (#[trigger] items[j]).key == name implies j
        == at by {
        if j < first.len() {
            assert(items[j] == first[j]);
            let w = choose|w: int| 0 <= w < sent.len() && (#[trigger] sent[w]).entry.key == name;
            let changed = |f: LocalFileView| !unchanged(manifest, f.entry);
            files.lemma_filter_contains_rev(changed, sent[w]);
            let v = choose|v: int| 0 <= v < files.len() && files[v] == sent[w];
            assert(locals[v].key == name);
        } else {
            let e = j - first.len();
            assert(items[j] == delete_items(deletions)[e]);
            assert(deletions[e].name == name);
            if e < d {
                assert(deletions[e].name != deletions[d].name);
            } else if d < e {
                assert(deletions[d].name != deletions[e].name);
            }
        }
    }
}

} // verus!
