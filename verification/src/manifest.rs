//! The remote manifest: one entry for each name, kept in the order of the names.

use vstd::prelude::*;
use crate::model::{RemoteEntry, RemoteEntryView, remote_views};
use crate::sequences::{lemma_filter_skip, lemma_filter_take};
use crate::names::{
    NameOrder, lemma_name_order_strict, lemma_name_order_total, lemma_name_order_transitive,
    name_before, order_names,
};

verus! {

/// No two entries bear the same name.
pub open spec fn distinct_names(entries: Seq<RemoteEntryView>) -> bool {
    forall|i: int, j: int|
        0 <= i < j < entries.len() ==> (#[trigger] entries[i]).name != (#[trigger] entries[j]).name
}

/// Some entry bears `name`.
pub open spec fn has_name(entries: Seq<RemoteEntryView>, name: Seq<char>) -> bool {
    exists|i: int| 0 <= i < entries.len() && (#[trigger] entries[i]).name == name
}

/// Each entry's name comes before the names of the entries behind it.
pub open spec fn sorted_by_name(entries: Seq<RemoteEntryView>) -> bool {
    forall|i: int, j: int|
        0 <= i < j < entries.len() ==> name_before(
            (#[trigger] entries[i]).name,
            (#[trigger] entries[j]).name,
        )
}

/// The manifest with `entry` put under its name: behind the entries whose
/// name comes before its name and in front of those whose name comes after,
/// so in place of the entry that bore the name, if one did.
pub open spec fn upsert(manifest: Seq<RemoteEntryView>, entry: RemoteEntryView) -> Seq<
    RemoteEntryView,
> {
    manifest.filter(|r: RemoteEntryView| name_before(r.name, entry.name)).push(entry)
        + manifest.filter(|r: RemoteEntryView| name_before(entry.name, r.name))
}

/// The manifest that a listing amounts to: one entry for each name, the last
/// that the listing gives for it, in the order of the names.
pub open spec fn collect(listing: Seq<RemoteEntryView>) -> Seq<RemoteEntryView>
    decreases listing.len(),
{
    if listing.len() == 0 {
        Seq::empty()
    } else {
        upsert(collect(listing.drop_last()), listing.last())
    }
}

/// Entries in the order of their names have distinct names.
pub proof fn lemma_sorted_distinct(entries: Seq<RemoteEntryView>)
    requires
        sorted_by_name(entries),
    ensures
        distinct_names(entries),
{
    assert forall|i: int, j: int| 0 <= i < j < entries.len() implies (#[trigger] entries[i]).name
        != (#[trigger] entries[j]).name by {
        lemma_name_order_strict(entries[i].name, entries[j].name);
    }
}

/// `name` has its place at `at`: the names in front of `at` come before it,
/// and it comes before the names from `upto` on; between the two stands the
/// entry that bears it, if there is one.
pub open spec fn place_of(manifest: Seq<RemoteEntryView>, name: Seq<char>, at: int, upto: int) -> bool {
    &&& 0 <= at <= upto <= manifest.len()
    &&& upto <= at + 1
    &&& forall|i: int| 0 <= i < at ==> name_before((#[trigger] manifest[i]).name, name)
    &&& forall|i: int| upto <= i < manifest.len() ==> name_before(name, (#[trigger] manifest[i]).name)
    &&& upto == at + 1 ==> manifest[at].name == name
}

/// Putting an entry at the place of its name is what `upsert` describes, and
/// keeps the manifest in the order of its names.
pub proof fn lemma_upsert_at(
    manifest: Seq<RemoteEntryView>,
    entry: RemoteEntryView,
    at: int,
    upto: int,
)
    requires
        sorted_by_name(manifest),
        place_of(manifest, entry.name, at, upto),
    ensures
        upsert(manifest, entry) == manifest.take(at).push(entry) + manifest.skip(upto),
        sorted_by_name(upsert(manifest, entry)),
{
    let before = |r: RemoteEntryView| name_before(r.name, entry.name);
    let after = |r: RemoteEntryView| name_before(entry.name, r.name);
    assert forall|i: int| at <= i < manifest.len() implies !before(#[trigger] manifest[i]) by {
        lemma_name_order_strict(manifest[i].name, entry.name);
        lemma_name_order_strict(entry.name, manifest[i].name);
    }
    assert forall|i: int| 0 <= i < upto implies !after(#[trigger] manifest[i]) by {
        lemma_name_order_strict(manifest[i].name, entry.name);
        lemma_name_order_strict(entry.name, manifest[i].name);
    }
    lemma_filter_take(manifest, before, at);
    lemma_filter_skip(manifest, after, upto);
    let out = manifest.take(at).push(entry) + manifest.skip(upto);
    assert forall|i: int, j: int| 0 <= i < j < out.len() implies name_before(
        (#[trigger] out[i]).name,
        (#[trigger] out[j]).name,
    ) by {
        if j < at {
            assert(out[i] == manifest[i] && out[j] == manifest[j]);
        } else if j == at {
            assert(out[i] == manifest[i]);
        } else if i == at {
            assert(out[j] == manifest[upto + (j - at - 1)]);
        } else if i < at {
            assert(out[i] == manifest[i]);
            assert(out[j] == manifest[upto + (j - at - 1)]);
            lemma_name_order_transitive(out[i].name, entry.name, out[j].name);
        } else {
            assert(out[i] == manifest[upto + (i - at - 1)]);
            assert(out[j] == manifest[upto + (j - at - 1)]);
        }
    }
}

/// In a manifest that is in the order of its names, every name has its place.
pub proof fn lemma_place_exists(manifest: Seq<RemoteEntryView>, name: Seq<char>) -> (r: (int, int))
    requires
        sorted_by_name(manifest),
    ensures
        place_of(manifest, name, r.0, r.1),
    decreases manifest.len(),
{
    if manifest.len() == 0 {
        (0, 0)
    } else {
        let init = manifest.drop_last();
        let last = manifest.last();
        let n = init.len() as int;
        assert(sorted_by_name(init)) by {
            assert forall|i: int, j: int| 0 <= i < j < init.len() implies name_before(
                (#[trigger] init[i]).name,
                (#[trigger] init[j]).name,
            ) by {
                assert(init[i] == manifest[i] && init[j] == manifest[j]);
            }
        }
        lemma_name_order_total(last.name, name);
        if name_before(last.name, name) {
            assert forall|i: int| 0 <= i < n + 1 implies name_before(
                (#[trigger] manifest[i]).name,
                name,
            ) by {
                if i < n {
                    assert(name_before(manifest[i].name, manifest[n].name));
                    lemma_name_order_transitive(manifest[i].name, last.name, name);
                }
            }
            (n + 1, n + 1)
        } else if last.name == name {
            assert forall|i: int| 0 <= i < n implies name_before(
                (#[trigger] manifest[i]).name,
                name,
            ) by {
                assert(name_before(manifest[i].name, manifest[n].name));
            }
            (n, n + 1)
        } else {
            let (at, upto) = lemma_place_exists(init, name);
            assert forall|i: int| 0 <= i < at implies name_before(
                (#[trigger] manifest[i]).name,
                name,
            ) by {
                assert(manifest[i] == init[i]);
            }
            assert forall|i: int| upto <= i < manifest.len() implies name_before(
                name,
                (#[trigger] manifest[i]).name,
            ) by {
                if i < n {
                    assert(manifest[i] == init[i]);
                }
            }
            if upto == at + 1 {
                assert(manifest[at] == init[at]);
            }
            (at, upto)
        }
    }
}

/// The manifest that a listing amounts to is in the order of its names, so
/// it holds no name twice.
pub proof fn lemma_collect_sorted(listing: Seq<RemoteEntryView>)
    ensures
        sorted_by_name(collect(listing)),
        distinct_names(collect(listing)),
    decreases listing.len(),
{
    if listing.len() > 0 {
        let before = collect(listing.drop_last());
        lemma_collect_sorted(listing.drop_last());
        let (at, upto) = lemma_place_exists(before, listing.last().name);
        lemma_upsert_at(before, listing.last(), at, upto);
    }
    lemma_sorted_distinct(collect(listing));
}

/// Putting an entry under its name adds the entry, keeps every entry of
/// another name, and adds or keeps nothing else.
pub proof fn lemma_upsert_members(manifest: Seq<RemoteEntryView>, entry: RemoteEntryView)
    requires
        sorted_by_name(manifest),
    ensures
        upsert(manifest, entry).contains(entry),
        forall|i: int|
            0 <= i < manifest.len() && (#[trigger] manifest[i]).name != entry.name ==> upsert(
                manifest,
                entry,
            ).contains(manifest[i]),
        forall|j: int|
            0 <= j < upsert(manifest, entry).len() ==> {
                ||| #[trigger] upsert(manifest, entry)[j] == entry
                ||| manifest.contains(upsert(manifest, entry)[j]) && upsert(manifest, entry)[j].name
                    != entry.name
            },
{
    let (at, upto) = lemma_place_exists(manifest, entry.name);
    lemma_upsert_at(manifest, entry, at, upto);
    let out = upsert(manifest, entry);
    assert(out[at] == entry);
    assert forall|i: int| 0 <= i < manifest.len() && (#[trigger] manifest[i]).name
        != entry.name implies out.contains(manifest[i]) by {
        if i < at {
            assert(out[i] == manifest[i]);
        } else {
            assert(out[at + 1 + (i - upto)] == manifest[i]);
        }
    }
    assert forall|j: int| 0 <= j < out.len() implies {
        ||| #[trigger] out[j] == entry
        ||| manifest.contains(out[j]) && out[j].name != entry.name
    } by {
        if j < at {
            assert(out[j] == manifest[j]);
            lemma_name_order_strict(manifest[j].name, entry.name);
        } else if j > at {
            let i = upto + (j - at - 1);
            assert(out[j] == manifest[i]);
            lemma_name_order_strict(entry.name, manifest[i].name);
        }
    }
}

/// The manifest that a listing amounts to holds, for each name of the
/// listing, the last entry that the listing gives for it, and nothing else.
pub proof fn lemma_collect_members(listing: Seq<RemoteEntryView>)
    ensures
        forall|j: int|
            0 <= j < collect(listing).len() ==> listing.contains(#[trigger] collect(listing)[j]),
        forall|k: int|
            0 <= k < listing.len() && (forall|later: int|
                k < later < listing.len() ==> (#[trigger] listing[later]).name != listing[k].name)
                ==> collect(listing).contains(#[trigger] listing[k]),
    decreases listing.len(),
{
    if listing.len() > 0 {
        let init = listing.drop_last();
        let last = listing.last();
        let before = collect(init);
        let out = collect(listing);
        lemma_collect_members(init);
        lemma_collect_sorted(init);
        lemma_upsert_members(before, last);
        assert forall|j: int| 0 <= j < out.len() implies listing.contains(#[trigger] out[j]) by {
            if out[j] == last {
                assert(listing[listing.len() - 1] == last);
            } else {
                let b = choose|b: int| 0 <= b < before.len() && before[b] == out[j];
                let w = choose|w: int| 0 <= w < init.len() && init[w] == before[b];
                assert(listing[w] == out[j]);
            }
        }
        assert forall|k: int|
            0 <= k < listing.len() && (forall|later: int|
                k < later < listing.len() ==> (#[trigger] listing[later]).name
                    != listing[k].name) implies out.contains(#[trigger] listing[k]) by {
            if k < init.len() {
                assert(listing[listing.len() - 1].name != listing[k].name);
                assert(init[k] == listing[k]);
                assert forall|later: int| k < later < init.len() implies (#[trigger] init[later]).name
                    != init[k].name by {
                    assert(init[later] == listing[later]);
                }
                let b = choose|b: int| 0 <= b < before.len() && before[b] == init[k];
                assert(before[b].name != last.name);
            }
        }
    }
}

/// The remote manifest.
pub struct Manifest {
    entries: Vec<RemoteEntry>,
}

impl View for Manifest {
    type V = Seq<RemoteEntryView>;

    closed spec fn view(&self) -> Seq<RemoteEntryView> {
        remote_views(self.entries@)
    }
}

impl Manifest {
    /// The entries stand in the order of their names, so no name occurs twice.
    pub open spec fn wf(&self) -> bool {
        sorted_by_name(self@)
    }

    /// A manifest without entries.
    pub fn new() -> (m: Manifest)
        ensures
            m.wf(),
            m@ == Seq::<RemoteEntryView>::empty(),
    {
        let m = Manifest { entries: Vec::new() };
        assert(m@ =~= Seq::empty());
        m
    }

    /// The manifest that the store's listing amounts to.
    pub fn from_entries(listing: Vec<RemoteEntry>) -> (m: Manifest)
        ensures
            m.wf(),
            m@ == collect(remote_views(listing@)),
    {
        let mut m = Manifest::new();
        let ghost all = remote_views(listing@);
        assert(all.take(0) =~= Seq::empty());
        for k in 0..listing.len()
            invariant
                all == remote_views(listing@),
                m.wf(),
                m@ == collect(all.take(k as int)),
        {
            proof {
                assert(all.take(k + 1).drop_last() =~= all.take(k as int));
                assert(all.take(k + 1).last() == listing@[k as int]@);
            }
            m.insert(listing[k].clone());
        }
        assert(all.take(listing@.len() as int) =~= all);
        m
    }

    /// The number of entries.
    pub fn len(&self) -> (n: usize)
        ensures
            n == self@.len(),
    {
        self.entries.len()
    }

    /// The entries, in the order of their names.
    pub fn entries(&self) -> (r: &Vec<RemoteEntry>)
        ensures
            remote_views(r@) == self@,
    {
        &self.entries
    }

    /// The place of `name`, and whether an entry bears it.
    pub(crate) fn search(&self, name: &str) -> (r: (bool, usize))
        requires
            self.wf(),
        ensures
            place_of(self@, name@, r.1 as int, if r.0 { r.1 + 1 } else { r.1 as int }),
            r.0 == has_name(self@, name@),
    {
        let mut lo: usize = 0;
        let mut hi: usize = self.entries.len();
        while lo < hi
            invariant
                self.wf(),
                lo <= hi <= self@.len(),
                self@.len() == self.entries@.len(),
                forall|i: int| 0 <= i < lo ==> name_before((#[trigger] self@[i]).name, name@),
                forall|i: int| hi <= i < self@.len() ==> name_before(name@, (#[trigger] self@[i]).name),
            decreases hi - lo,
        {
            let mid: usize = lo + (hi - lo) / 2;
            assert(self@[mid as int] == self.entries@[mid as int]@);
            match order_names(self.entries[mid].name.as_str(), name) {
                NameOrder::Before => {
                    assert forall|i: int| 0 <= i < mid + 1 implies name_before(
                        (#[trigger] self@[i]).name,
                        name@,
                    ) by {
                        if i < mid {
                            lemma_name_order_transitive(
                                self@[i].name,
                                self@[mid as int].name,
                                name@,
                            );
                        }
                    }
                    lo = mid + 1;
                },
                NameOrder::Same => {
                    return (true, mid);
                },
                NameOrder::After => {
                    assert forall|i: int| mid <= i < self@.len() implies name_before(
                        name@,
                        (#[trigger] self@[i]).name,
                    ) by {
                        if mid < i {
                            lemma_name_order_transitive(
                                name@,
                                self@[mid as int].name,
                                self@[i].name,
                            );
                        }
                    }
                    hi = mid;
                },
            }
        }
        proof {
            assert forall|i: int| 0 <= i < self@.len() implies (#[trigger] self@[i]).name
                != name@ by {
                lemma_name_order_strict(self@[i].name, name@);
                lemma_name_order_strict(name@, self@[i].name);
            }
        }
        (false, lo)
    }

    /// The entry that bears `name`, if there is one.
    pub fn get(&self, name: &str) -> (r: Option<&RemoteEntry>)
        requires
            self.wf(),
        ensures
            match r {
                Some(e) => self@.contains(e@) && e@.name == name@,
                None => !has_name(self@, name@),
            },
    {
        let (found, at) = self.search(name);
        if found {
            assert(self@[at as int] == self.entries@[at as int]@);
            Some(&self.entries[at])
        } else {
            None
        }
    }

    /// Puts `entry` under its name, in place of the entry that bore it if there was one.
    pub fn insert(&mut self, entry: RemoteEntry)
        requires
            old(self).wf(),
        ensures
            final(self).wf(),
            final(self)@ == upsert(old(self)@, entry@),
    {
        let (found, at) = self.search(entry.name.as_str());
        proof {
            lemma_upsert_at(self@, entry@, at as int, if found { at + 1 } else { at as int });
        }
        if found {
            self.entries.set(at, entry);
            assert(self@ =~= old(self)@.take(at as int).push(entry@) + old(self)@.skip(at + 1));
        } else {
            self.entries.insert(at, entry);
            assert(self@ =~= old(self)@.take(at as int).push(entry@) + old(self)@.skip(at as int));
        }
    }
}

} // verus!
