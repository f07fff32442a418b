//! The directory model: the candidate part files found in a directory,
//! sorted into the two disjoint file roles.
//!
//! A segment file is keyed by script name, a resource file by resource kind;
//! each entry carries the path it was found at, as an opaque byte string.
//! After a split, the entries named by the produced order records are
//! removed, and what is left over is exactly the set of stale part files a
//! caller may warn about or delete.

use vstd::prelude::*;

use crate::byteops::bytes_eq;

verus! {

/// One discovered part file: its key (script name or resource kind) and the
/// path it was found at.
pub struct Entry {
    /// The script name or resource kind, from the file's stem.
    pub name: Vec<u8>,
    /// The file's path, carried through untouched.
    pub path: Vec<u8>,
}

/// The mathematical view of an [`Entry`].
#[verifier::ext_equal]
pub struct EntryView {
    /// The key as a byte sequence.
    pub name: Seq<u8>,
    /// The path as a byte sequence.
    pub path: Seq<u8>,
}

impl View for Entry {
    type V = EntryView;

    open spec fn view(&self) -> EntryView {
        EntryView { name: self.name@, path: self.path@ }
    }
}

impl DeepView for Entry {
    type V = EntryView;

    open spec fn deep_view(&self) -> EntryView {
        self.view()
    }
}

/// The index of the first entry with the given name, if any.
pub open spec fn find_entry(entries: Seq<EntryView>, name: Seq<u8>) -> Option<int>
    decreases entries.len(),
{
    if entries.len() == 0 {
        None
    } else if entries[0].name == name {
        Some(0)
    } else {
        match find_entry(entries.drop_first(), name) {
            Some(i) => Some(i + 1),
            None => None,
        }
    }
}

/// `find_entry` finds the first index whose entry bears the name, and finds
/// one exactly when some entry bears the name.
pub proof fn lemma_find_entry(entries: Seq<EntryView>, name: Seq<u8>)
    ensures
        match find_entry(entries, name) {
            Some(i) => {
                &&& 0 <= i < entries.len()
                &&& entries[i].name == name
                &&& forall|j: int| 0 <= j < i ==> entries[j].name != name
            },
            None => forall|j: int| 0 <= j < entries.len() ==> entries[j].name != name,
        },
    decreases entries.len(),
{
    if entries.len() > 0 && entries[0].name != name {
        let rest = entries.drop_first();
        lemma_find_entry(rest, name);
        assert(forall|j: int| 0 <= j < rest.len() ==> rest[j] == entries[j + 1]);
        match find_entry(rest, name) {
            Some(i) => {
                assert forall|j: int| 0 <= j < i + 1 implies entries[j].name != name by {
                    if j > 0 {
                        assert(rest[j - 1].name != name);
                    }
                }
            },
            None => {
                assert forall|j: int| 0 <= j < entries.len() implies entries[j].name != name by {
                    if j > 0 {
                        assert(rest[j - 1].name != name);
                    }
                }
            },
        }
    }
}

/// Inserting under a name that is already present replaces that entry's
/// path; inserting under a new name appends the entry.
pub open spec fn upsert(entries: Seq<EntryView>, name: Seq<u8>, path: Seq<u8>) -> Seq<EntryView> {
    match find_entry(entries, name) {
        Some(i) => entries.update(i, EntryView { name, path }),
        None => entries.push(EntryView { name, path }),
    }
}

/// The paths of a sequence of entries, in order.
pub open spec fn entry_paths(entries: Seq<EntryView>) -> Seq<Seq<u8>> {
    entries.map_values(|e: EntryView| e.path)
}

/// The candidate part files of a directory, sorted into segment files and
/// resource files.
pub struct ComponentFiles {
    /// The discovered segment files, keyed by script name.
    pub lua: Vec<Entry>,
    /// The discovered resource files, keyed by resource kind.
    pub rsc: Vec<Entry>,
}

/// The mathematical view of a [`ComponentFiles`].
#[verifier::ext_equal]
pub struct ComponentFilesView {
    /// The segment entries in discovery order.
    pub lua: Seq<EntryView>,
    /// The resource entries in discovery order.
    pub rsc: Seq<EntryView>,
}

impl View for ComponentFiles {
    type V = ComponentFilesView;

    open spec fn view(&self) -> ComponentFilesView {
        ComponentFilesView { lua: self.lua.deep_view(), rsc: self.rsc.deep_view() }
    }
}

/// Whether some name in `names` equals `x`.
fn names_contain(names: &Vec<Vec<u8>>, x: &Vec<u8>) -> (r: bool)
    ensures
        r == names.deep_view().contains(x@),
{
    let ghost nv = names.deep_view();
    let mut i: usize = 0;
    while i < names.len()
        invariant
            i <= names@.len(),
            nv == names.deep_view(),
            nv.len() == names@.len(),
            forall|j: int| 0 <= j < i ==> nv[j] != x@,
        decreases names.len() - i,
    {
        if bytes_eq(&names[i], x) {
            proof {
                assert(names@[i as int].deep_view() =~= names@[i as int]@);
                assert(nv[i as int] == x@);
            }
            return true;
        }
        proof {
            assert(names@[i as int].deep_view() =~= names@[i as int]@);
        }
        i += 1;
    }
    proof {
        if nv.contains(x@) {
            let w = choose|j: int| 0 <= j < nv.len() && nv[j] == x@;
            assert(nv[w] != x@);
        }
    }
    false
}

/// Removes from `entries` every entry whose name is listed in `names`,
/// keeping the order of the rest.
fn retain_unlisted(entries: &mut Vec<Entry>, names: &Vec<Vec<u8>>)
    ensures
        final(entries).deep_view() == old(entries).deep_view().filter(
            |e: EntryView| !names.deep_view().contains(e.name),
        ),
{
    let ghost ev = old(entries).deep_view();
    let ghost nv = names.deep_view();
    let ghost pred = |e: EntryView| !nv.contains(e.name);
    let mut kept: Vec<Entry> = Vec::new();
    let mut i: usize = 0;
    proof {
        reveal(Seq::filter);
        assert(ev.take(0) =~= Seq::<EntryView>::empty());
        assert(kept.deep_view() =~= ev.take(0).filter(pred));
    }
    while i < entries.len()
        invariant
            i <= entries@.len(),
            ev == entries.deep_view(),
            nv == names.deep_view(),
            pred == (|e: EntryView| !nv.contains(e.name)),
            ev.len() == entries@.len(),
            kept.deep_view() == ev.take(i as int).filter(pred),
        decreases entries.len() - i,
    {
        let ghost dk = kept.deep_view();
        let listed = names_contain(names, &entries[i].name);
        proof {
            assert(entries@[i as int].deep_view() == ev[i as int]);
            assert(listed == !pred(ev[i as int]));
        }
        if !listed {
            let e = Entry {
                name: crate::byteops::copy_bytes(&entries[i].name),
                path: crate::byteops::copy_bytes(&entries[i].path),
            };
            proof {
                assert(e.deep_view() == ev[i as int]);
            }
            kept.push(e);
        }
        i += 1;
        proof {
            reveal(Seq::filter);
            assert(ev.take(i as int).drop_last() =~= ev.take(i - 1));
            assert(ev.take(i as int).last() == ev[i - 1]);
            if pred(ev[i - 1]) {
                assert(kept.deep_view() =~= dk.push(ev[i - 1]));
            }
            assert(kept.deep_view() == ev.take(i as int).filter(pred));
        }
    }
    proof {
        assert(ev.take(ev.len() as int) =~= ev);
    }
    *entries = kept;
}

impl ComponentFiles {
    /// An empty collection, to be filled from a directory listing.
    pub fn new() -> (r: ComponentFiles)
        ensures
            r@.lua == Seq::<EntryView>::empty(),
            r@.rsc == Seq::<EntryView>::empty(),
    {
        let r = ComponentFiles { lua: Vec::new(), rsc: Vec::new() };
        proof {
            assert(r@.lua =~= Seq::<EntryView>::empty());
            assert(r@.rsc =~= Seq::<EntryView>::empty());
        }
        r
    }

    /// Records a discovered segment file; a later discovery under the same
    /// name replaces the earlier path.
    pub fn insert_lua(&mut self, name: Vec<u8>, path: Vec<u8>)
        ensures
            final(self)@.lua == upsert(old(self)@.lua, name@, path@),
            final(self)@.rsc == old(self)@.rsc,
    {
        insert_entry(&mut self.lua, name, path);
    }

    /// Records a discovered resource file; a later discovery under the same
    /// kind replaces the earlier path.
    pub fn insert_rsc(&mut self, name: Vec<u8>, path: Vec<u8>)
        ensures
            final(self)@.rsc == upsert(old(self)@.rsc, name@, path@),
            final(self)@.lua == old(self)@.lua,
    {
        insert_entry(&mut self.rsc, name, path);
    }

    /// Given a list of script names, removes any matching segment entries.
    pub fn remove_script_names(&mut self, subset: &Vec<Vec<u8>>)
        ensures
            final(self)@.lua == old(self)@.lua.filter(
                |e: EntryView| !subset.deep_view().contains(e.name),
            ),
            final(self)@.rsc == old(self)@.rsc,
    {
        retain_unlisted(&mut self.lua, subset);
    }

    /// Given a list of resource kinds, removes any matching resource
    /// entries.
    pub fn remove_resource_kinds(&mut self, subset: &Vec<Vec<u8>>)
        ensures
            final(self)@.rsc == old(self)@.rsc.filter(
                |e: EntryView| !subset.deep_view().contains(e.name),
            ),
            final(self)@.lua == old(self)@.lua,
    {
        retain_unlisted(&mut self.rsc, subset);
    }

    /// Whether no part file is recorded at all.
    pub fn is_empty(&self) -> (r: bool)
        ensures
            r == (self@.lua.len() == 0 && self@.rsc.len() == 0),
    {
        self.lua.len() == 0 && self.rsc.len() == 0
    }

    /// The recorded paths: the segment files' paths, then the resource
    /// files' paths, in discovery order.
    pub fn iter(&self) -> (r: Vec<Vec<u8>>)
        ensures
            r.deep_view() == entry_paths(self@.lua) + entry_paths(self@.rsc),
    {
        let ghost lv = self@.lua;
        let ghost rv = self@.rsc;
        let mut r: Vec<Vec<u8>> = Vec::new();
        let mut i: usize = 0;
        while i < self.lua.len()
            invariant
                i <= self.lua@.len(),
                lv == self@.lua,
                lv.len() == self.lua@.len(),
                r@.len() == i,
                forall|t: int| 0 <= t < i ==> #[trigger] r@[t].deep_view() == lv[t].path,
            decreases self.lua.len() - i,
        {
            let p = crate::byteops::copy_bytes(&self.lua[i].path);
            proof {
                assert(self.lua@[i as int].deep_view() == lv[i as int]);
                assert(p.deep_view() =~= lv[i as int].path);
            }
            r.push(p);
            i += 1;
        }
        let mut j: usize = 0;
        while j < self.rsc.len()
            invariant
                j <= self.rsc@.len(),
                lv == self@.lua,
                rv == self@.rsc,
                rv.len() == self.rsc@.len(),
                r@.len() == lv.len() + j,
                forall|t: int| 0 <= t < lv.len() ==> #[trigger] r@[t].deep_view() == lv[t].path,
                forall|t: int|
                    lv.len() <= t < lv.len() + j ==> #[trigger] r@[t].deep_view() == rv[
                        t - lv.len()
                    ].path,
            decreases self.rsc.len() - j,
        {
            let p = crate::byteops::copy_bytes(&self.rsc[j].path);
            proof {
                assert(self.rsc@[j as int].deep_view() == rv[j as int]);
                assert(p.deep_view() =~= rv[j as int].path);
            }
            r.push(p);
            j += 1;
        }
        proof {
            let want = entry_paths(lv) + entry_paths(rv);
            assert forall|t: int| 0 <= t < want.len() implies r.deep_view()[t] =~= want[t] by {
                assert(r@[t].deep_view() == r.deep_view()[t]);
            }
            assert(r.deep_view() =~~= want);
        }
        r
    }
}

/// Inserts into an entry list with replace-on-collision, as `upsert`
/// describes.
fn insert_entry(entries: &mut Vec<Entry>, name: Vec<u8>, path: Vec<u8>)
    ensures
        final(entries).deep_view() == upsert(old(entries).deep_view(), name@, path@),
{
    let ghost ev = old(entries).deep_view();
    let ghost nv = name@;
    let mut pos: Option<usize> = None;
    let mut i: usize = 0;
    while i < entries.len()
        invariant
            i <= entries@.len(),
            ev == entries.deep_view(),
            ev.len() == entries@.len(),
            nv == name@,
            match pos {
                Some(p) => {
                    &&& 0 <= p < i
                    &&& ev[p as int].name == nv
                    &&& forall|j: int| 0 <= j < p ==> ev[j].name != nv
                },
                None => forall|j: int| 0 <= j < i ==> ev[j].name != nv,
            },
        decreases entries.len() - i,
    {
        if pos.is_none() {
            if bytes_eq(&entries[i].name, &name) {
                proof {
                    assert(entries@[i as int].deep_view() == ev[i as int]);
                }
                pos = Some(i);
            }
        }
        i += 1;
    }
    let ghost e = EntryView { name: name@, path: path@ };
    match pos {
        Some(p) => {
            proof {
                lemma_find_first_entry(ev, nv, p as int);
            }
            let ghost de = entries.deep_view();
            let mut cur = entries.remove(p);
            cur.name = name;
            cur.path = path;
            entries.insert(p, cur);
            proof {
                assert(entries.deep_view() =~= de.update(p as int, e));
            }
        },
        None => {
            proof {
                lemma_find_entry(ev, nv);
                if find_entry(ev, nv) is Some {
                    let w = find_entry(ev, nv).unwrap();
                    assert(ev[w].name != nv);
                }
            }
            let ghost de = entries.deep_view();
            entries.push(Entry { name, path });
            proof {
                assert(entries.deep_view() =~= de.push(e));
            }
        },
    }
}

/// A position whose earlier entries all miss the name and whose entry bears
/// it is where `find_entry` points.
pub proof fn lemma_find_first_entry(entries: Seq<EntryView>, name: Seq<u8>, i: int)
    requires
        0 <= i < entries.len(),
        entries[i].name == name,
        forall|j: int| 0 <= j < i ==> entries[j].name != name,
    ensures
        find_entry(entries, name) == Some(i),
{
    lemma_find_entry(entries, name);
    match find_entry(entries, name) {
        Some(k) => {
            if k < i {
                assert(entries[k].name != name);
            }
            if k > i {
                assert(entries[i].name != name);
            }
        },
        None => {
            assert(entries[i].name != name);
        },
    }
}

} // verus!
