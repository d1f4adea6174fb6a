//! What holds of every changeset.

use vstd::prelude::*;
use crate::diff::{deletions_of, has_key, unchanged, uploads_of};
use crate::manifest::{distinct_names, has_name};
use crate::model::{LocalEntryView, RemoteEntryView};

verus! {

/// No two local entries have the same key.
pub open spec fn distinct_keys(locals: Seq<LocalEntryView>) -> bool {
    forall|i: int, j: int|
        0 <= i < j < locals.len() ==> (#[trigger] locals[i]).key != (#[trigger] locals[j]).key
}

/// Some local entry with the key `key` is held unchanged by the manifest.
pub open spec fn kept(manifest: Seq<RemoteEntryView>, locals: Seq<LocalEntryView>, key: Seq<char>) -> bool {
    exists|i: int|
        0 <= i < locals.len() && (#[trigger] locals[i]).key == key && unchanged(manifest, locals[i])
}

/// Exactly one of the three holds.
pub open spec fn one_of(a: bool, b: bool, c: bool) -> bool {
    ||| a && !b && !c
    ||| !a && b && !c
    ||| !a && !b && c
}

/// The uploads are the local entries that are not unchanged: each of those,
/// nothing else, and with distinct keys where the local keys are distinct.
pub proof fn lemma_uploads(manifest: Seq<RemoteEntryView>, locals: Seq<LocalEntryView>)
    ensures
        forall|i: int|
            0 <= i < locals.len() && !unchanged(manifest, #[trigger] locals[i]) ==> uploads_of(
                manifest,
                locals,
            ).contains(locals[i]),
        forall|i: int|
            0 <= i < uploads_of(manifest, locals).len() ==> {
                &&& locals.contains(#[trigger] uploads_of(manifest, locals)[i])
                &&& !unchanged(manifest, uploads_of(manifest, locals)[i])
            },
        distinct_keys(locals) ==> distinct_keys(uploads_of(manifest, locals)),
    decreases locals.len(),
{
    let changed = |l: LocalEntryView| !unchanged(manifest, l);
    let out = uploads_of(manifest, locals);
    if locals.len() == 0 {
        assert(out.len() == 0) by {
            reveal(Seq::filter);
        }
    } else {
        let init = locals.drop_last();
        let last = locals.last();
        let before = uploads_of(manifest, init);
        lemma_uploads(manifest, init);
        assert(locals =~= init.push(last));
        init.lemma_filter_push(last, changed);
        assert forall|i: int| 0 <= i < locals.len() && !unchanged(
            manifest,
            #[trigger] locals[i],
        ) implies out.contains(locals[i]) by {
            if i < init.len() {
                assert(init[i] == locals[i]);
                let w = choose|w: int| 0 <= w < before.len() && before[w] == init[i];
                assert(out[w] == locals[i]);
            } else {
                assert(out[out.len() - 1] == last);
            }
        }
        assert forall|i: int| 0 <= i < out.len() implies {
            &&& locals.contains(#[trigger] out[i])
            &&& !unchanged(manifest, out[i])
        } by {
            if i < before.len() {
                assert(out[i] == before[i]);
                let w = choose|w: int| 0 <= w < init.len() && init[w] == before[i];
                assert(locals[w] == out[i]);
            } else {
                assert(locals[locals.len() - 1] == out[i]);
            }
        }
        if distinct_keys(locals) {
            assert(distinct_keys(init)) by {
                assert forall|i: int, j: int| 0 <= i < j < init.len() implies (#[trigger] init[i]).key
                    != (#[trigger] init[j]).key by {
                    assert(locals[i].key != locals[j].key);
                }
            }
            assert forall|i: int, j: int| 0 <= i < j < out.len() implies (#[trigger] out[i]).key
                != (#[trigger] out[j]).key by {
                if j < before.len() {
                    assert(before[i].key != before[j].key);
                } else {
                    let w = choose|w: int| 0 <= w < init.len() && init[w] == before[i];
                    assert(locals[w].key != locals[locals.len() - 1].key);
                }
            }
        }
    }
}

/// The deletions are the remote entries whose name no local entry has: each
/// of those, nothing else, and with distinct names where the manifest's are.
pub proof fn lemma_deletions(manifest: Seq<RemoteEntryView>, locals: Seq<LocalEntryView>)
    ensures
        forall|j: int|
            0 <= j < manifest.len() && !has_key(locals, (#[trigger] manifest[j]).name)
                ==> deletions_of(manifest, locals).contains(manifest[j]),
        forall|j: int|
            0 <= j < deletions_of(manifest, locals).len() ==> {
                &&& manifest.contains(#[trigger] deletions_of(manifest, locals)[j])
                &&& !has_key(locals, deletions_of(manifest, locals)[j].name)
            },
        distinct_names(manifest) ==> distinct_names(deletions_of(manifest, locals)),
    decreases manifest.len(),
{
    let gone = |r: RemoteEntryView| !has_key(locals, r.name);
    let out = deletions_of(manifest, locals);
    if manifest.len() == 0 {
        assert(out.len() == 0) by {
            reveal(Seq::filter);
        }
    } else {
        let init = manifest.drop_last();
        let last = manifest.last();
        let before = deletions_of(init, locals);
        lemma_deletions(init, locals);
        assert(manifest =~= init.push(last));
        init.lemma_filter_push(last, gone);
        assert forall|j: int| 0 <= j < manifest.len() && !has_key(
            locals,
            (#[trigger] manifest[j]).name,
        ) implies out.contains(manifest[j]) by {
            if j < init.len() {
                assert(init[j] == manifest[j]);
                let w = choose|w: int| 0 <= w < before.len() && before[w] == init[j];
                assert(out[w] == manifest[j]);
            } else {
                assert(out[out.len() - 1] == last);
            }
        }
        assert forall|j: int| 0 <= j < out.len() implies {
            &&& manifest.contains(#[trigger] out[j])
            &&& !has_key(locals, out[j].name)
        } by {
            if j < before.len() {
                assert(out[j] == before[j]);
                let w = choose|w: int| 0 <= w < init.len() && init[w] == before[j];
                assert(manifest[w] == out[j]);
            } else {
                assert(manifest[manifest.len() - 1] == out[j]);
            }
        }
        if distinct_names(manifest) {
            assert(distinct_names(init)) by {
                assert forall|i: int, j: int| 0 <= i < j < init.len() implies (#[trigger] init[i]).name
                    != (#[trigger] init[j]).name by {
                    assert(manifest[i].name != manifest[j].name);
                }
            }
            assert forall|i: int, j: int| 0 <= i < j < out.len() implies (#[trigger] out[i]).name
                != (#[trigger] out[j]).name by {
                if j < before.len() {
                    assert(before[i].name != before[j].name);
                } else {
                    let w = choose|w: int| 0 <= w < init.len() && init[w] == before[i];
                    assert(manifest[w].name != manifest[manifest.len() - 1].name);
                }
            }
        }
    }
}

/// No key is both uploaded and deleted.
pub proof fn lemma_diff_disjoint(manifest: Seq<RemoteEntryView>, locals: Seq<LocalEntryView>)
    ensures
        forall|i: int, j: int|
            0 <= i < uploads_of(manifest, locals).len() && 0 <= j < deletions_of(
                manifest,
                locals,
            ).len() ==> (#[trigger] uploads_of(manifest, locals)[i]).key != (#[trigger] deletions_of(
                manifest,
                locals,
            )[j]).name,
{
    let uploads = uploads_of(manifest, locals);
    let deletions = deletions_of(manifest, locals);
    lemma_uploads(manifest, locals);
    lemma_deletions(manifest, locals);
    assert forall|i: int, j: int| 0 <= i < uploads.len() && 0 <= j < deletions.len() implies (
    #[trigger] uploads[i]).key != (#[trigger] deletions[j]).name by {
        let w = choose|w: int| 0 <= w < locals.len() && locals[w] == uploads[i];
        assert(locals[w].key == uploads[i].key);
    }
}

/// Every key that the local inventory or the manifest holds falls to exactly
/// one of three: it is uploaded, it is deleted, or it is kept as it is. A key
/// that the manifest holds with the local size and timestamp is kept; any
/// other local key is uploaded; a key that only the manifest holds is deleted.
pub proof fn lemma_diff_partition(
    manifest: Seq<RemoteEntryView>,
    locals: Seq<LocalEntryView>,
    key: Seq<char>,
)
    requires
        distinct_keys(locals),
        has_key(locals, key) || has_name(manifest, key),
    ensures
        one_of(
            has_key(uploads_of(manifest, locals), key),
            has_name(deletions_of(manifest, locals), key),
            kept(manifest, locals, key),
        ),
        has_key(locals, key) && !kept(manifest, locals, key) ==> has_key(
            uploads_of(manifest, locals),
            key,
        ),
        !has_key(locals, key) ==> has_name(deletions_of(manifest, locals), key),
{
    let uploads = uploads_of(manifest, locals);
    let deletions = deletions_of(manifest, locals);
    lemma_uploads(manifest, locals);
    lemma_deletions(manifest, locals);
    if has_key(locals, key) {
        let i = choose|i: int| 0 <= i < locals.len() && (#[trigger] locals[i]).key == key;
        assert(!has_name(deletions, key)) by {
            if has_name(deletions, key) {
                let d = choose|d: int| 0 <= d < deletions.len() && (#[trigger] deletions[d]).name == key;
                assert(!has_key(locals, deletions[d].name));
            }
        }
        if unchanged(manifest, locals[i]) {
            assert(kept(manifest, locals, key));
            assert(!has_key(uploads, key)) by {
                if has_key(uploads, key) {
                    let u = choose|u: int| 0 <= u < uploads.len() && (#[trigger] uploads[u]).key == key;
                    let w = choose|w: int| 0 <= w < locals.len() && locals[w] == uploads[u];
                    assert(locals[w].key == locals[i].key);
                    assert(w == i);
                }
            }
        } else {
            let u = choose|u: int| 0 <= u < uploads.len() && uploads[u] == locals[i];
            assert(uploads[u].key == key);
            assert(!kept(manifest, locals, key)) by {
                if kept(manifest, locals, key) {
                    let w = choose|w: int|
                        0 <= w < locals.len() && (#[trigger] locals[w]).key == key && unchanged(
                            manifest,
                            locals[w],
                        );
                    assert(locals[w].key == locals[i].key);
                    assert(w == i);
                }
            }
        }
    } else {
        let j = choose|j: int| 0 <= j < manifest.len() && (#[trigger] manifest[j]).name == key;
        let d = choose|d: int| 0 <= d < deletions.len() && deletions[d] == manifest[j];
        assert(deletions[d].name == key);
        assert(!has_key(uploads, key)) by {
            if has_key(uploads, key) {
                let u = choose|u: int| 0 <= u < uploads.len() && (#[trigger] uploads[u]).key == key;
                let w = choose|w: int| 0 <= w < locals.len() && locals[w] == uploads[u];
                assert(locals[w].key == key);
            }
        }
    }
}

} // verus!
