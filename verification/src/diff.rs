//! Compares the local inventory with the remote manifest.

use vstd::prelude::*;
use crate::manifest::{Manifest, lemma_sorted_distinct};
use crate::model::{
    LocalEntry, LocalEntryView, RemoteEntry, RemoteEntryView, local_views, remote_views,
};

verus! {

/// Some local entry has the key `key`.
pub open spec fn has_key(locals: Seq<LocalEntryView>, key: Seq<char>) -> bool {
    exists|i: int| 0 <= i < locals.len() && (#[trigger] locals[i]).key == key
}

/// The remote entry says of the local one's key what the local one says itself.
pub open spec fn matches_entry(remote: RemoteEntryView, local: LocalEntryView) -> bool {
    &&& remote.name == local.key
    &&& remote.timestamp == local.modified_at_millis
    &&& remote.size == local.size
}

/// The manifest holds the local entry's key with the same size and timestamp.
pub open spec fn unchanged(manifest: Seq<RemoteEntryView>, local: LocalEntryView) -> bool {
    exists|i: int| 0 <= i < manifest.len() && matches_entry(#[trigger] manifest[i], local)
}

/// The local entries to upload: those that are not unchanged, in inventory order.
pub open spec fn uploads_of(manifest: Seq<RemoteEntryView>, locals: Seq<LocalEntryView>) -> Seq<
    LocalEntryView,
> {
    locals.filter(|l: LocalEntryView| !unchanged(manifest, l))
}

/// The remote entries to delete: those whose name no local entry has, in manifest order.
pub open spec fn deletions_of(manifest: Seq<RemoteEntryView>, locals: Seq<LocalEntryView>) -> Seq<
    RemoteEntryView,
> {
    manifest.filter(|r: RemoteEntryView| !has_key(locals, r.name))
}

/// What a run has to send: the local entries to upload and the remote entries to delete.
#[derive(Debug, PartialEq, Eq)]
pub struct Changeset {
    pub uploads: Vec<LocalEntry>,
    pub deletions: Vec<RemoteEntry>,
}

impl Manifest {
    /// Where the manifest holds the local entry's key, and whether the entry
    /// has to be sent.
    fn classify(&self, local: &LocalEntry) -> (r: (Option<usize>, bool))
        requires
            self.wf(),
        ensures
            r.1 == !unchanged(self@, local@),
            match r.0 {
                Some(at) => at < self@.len() && self@[at as int].name == local@.key,
                None => forall|j: int| 0 <= j < self@.len() ==> (#[trigger] self@[j]).name != local@.key,
            },
    {
        let (found, at) = self.search(local.key.as_str());
        if !found {
            return (None, true);
        }
        let remote = &self.entries()[at];
        assert(self@[at as int] == remote@);
        let same = remote.timestamp == local.modified_at_millis && remote.size == local.size;
        proof {
            lemma_sorted_distinct(self@);
            if same {
                assert(matches_entry(self@[at as int], local@));
            } else {
                assert forall|j: int| 0 <= j < self@.len() implies !matches_entry(
                    #[trigger] self@[j],
                    local@,
                ) by {
                    if j != at {
                        assert(self@[j].name != self@[at as int].name);
                    }
                }
            }
        }
        (Some(at), !same)
    }

    /// Whether the local entry has to be sent: not where the manifest holds
    /// its key with the same size and timestamp.
    pub fn needs_upload(&self, local: &LocalEntry) -> (b: bool)
        requires
            self.wf(),
        ensures
            b == !unchanged(self@, local@),
    {
        self.classify(local).1
    }

    /// The changeset of a run over the local entries `locals`.
    pub fn diff(&self, locals: &Vec<LocalEntry>) -> (c: Changeset)
        requires
            self.wf(),
        ensures
            local_views(c.uploads@) == uploads_of(self@, local_views(locals@)),
            remote_views(c.deletions@) == deletions_of(self@, local_views(locals@)),
    {
        let ghost all = local_views(locals@);
        let ghost changed = |l: LocalEntryView| !unchanged(self@, l);
        let mut uploads: Vec<LocalEntry> = Vec::new();
        let mut seen: Vec<bool> = vec![false; self.len()];
        proof {
            lemma_sorted_distinct(self@);
            assert(all.take(0) =~= Seq::empty());
            assert(all.take(0).filter(changed) =~= Seq::empty()) by {
                reveal(Seq::filter);
            }
            assert(local_views(uploads@) =~= Seq::empty());
        }
        for k in 0..locals.len()
            invariant
                self.wf(),
                all == local_views(locals@),
                changed == (|l: LocalEntryView| !unchanged(self@, l)),
                local_views(uploads@) == all.take(k as int).filter(changed),
                seen@.len() == self@.len(),
                forall|j: int|
                    0 <= j < seen@.len() ==> (#[trigger] seen@[j]) == has_key(
                        all.take(k as int),
                        self@[j].name,
                    ),
        {
            let ghost marked = seen@;
            let local = &locals[k];
            proof {
                assert(all.take(k + 1) =~= all.take(k as int).push(local@));
                all.take(k as int).lemma_filter_push(local@, changed);
            }
            let (place, upload) = self.classify(local);
            if let Some(at) = place {
                seen.set(at, true);
            }
            proof {
                lemma_sorted_distinct(self@);
                assert forall|j: int| 0 <= j < seen@.len() implies (#[trigger] seen@[j]) == has_key(
                    all.take(k + 1),
                    self@[j].name,
                ) by {
                    let name = self@[j].name;
                    if has_key(all.take(k as int), name) {
                        let w = choose|w: int|
                            0 <= w < all.take(k as int).len() && (#[trigger] all.take(
                                k as int,
                            )[w]).key == name;
                        assert(all.take(k + 1)[w].key == name);
                    }
                    if local@.key == name {
                        assert(all.take(k + 1)[k as int].key == name);
                    }
                    if has_key(all.take(k + 1), name) {
                        let w = choose|w: int|
                            0 <= w < all.take(k + 1).len() && (#[trigger] all.take(k + 1)[w]).key
                                == name;
                        if w < k {
                            assert(all.take(k as int)[w].key == name);
                        }
                    }
                    assert(marked[j] == has_key(all.take(k as int), name));
                }
            }
            if upload {
                let ghost before = uploads@;
                uploads.push(local.clone());
                assert(local_views(uploads@) =~= local_views(before).push(local@));
            }
        }
        assert(all.take(locals@.len() as int) =~= all);
        let ghost gone = |r: RemoteEntryView| !has_key(all, r.name);
        let entries = self.entries();
        let mut deletions: Vec<RemoteEntry> = Vec::new();
        proof {
            assert(self@.take(0) =~= Seq::empty());
            assert(self@.take(0).filter(gone) =~= Seq::empty()) by {
                reveal(Seq::filter);
            }
            assert(remote_views(deletions@) =~= Seq::empty());
        }
        for k in 0..entries.len()
            invariant
                remote_views(entries@) == self@,
                gone == (|r: RemoteEntryView| !has_key(all, r.name)),
                remote_views(deletions@) == self@.take(k as int).filter(gone),
                local_views(uploads@) == uploads_of(self@, all),
                seen@.len() == self@.len(),
                forall|j: int|
                    0 <= j < seen@.len() ==> (#[trigger] seen@[j]) == has_key(all, self@[j].name),
        {
            proof {
                assert(self@[k as int] == entries@[k as int]@);
                assert(self@.take(k + 1) =~= self@.take(k as int).push(entries@[k as int]@));
                self@.take(k as int).lemma_filter_push(entries@[k as int]@, gone);
            }
            if !seen[k] {
                let ghost before = deletions@;
                deletions.push(entries[k].clone());
                assert(remote_views(deletions@) =~= remote_views(before).push(entries@[k as int]@));
            }
        }
        assert(self@.take(self@.len() as int) =~= self@);
        Changeset { uploads, deletions }
    }
}

} // verus!
