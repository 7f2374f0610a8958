//! The manifest: what collections there are, and what segments they have.

use vstd::prelude::*;

use crate::collection::CollectionConfig;
use crate::error::{Error, Invalid};
use crate::VERSION;

verus! {

/// What a database consists of.
#[derive(Debug)]
pub struct Manifest {
    /// The version of the formats.
    pub version: u32,
    /// The highest record of the log that is in segments. Replaying the log skips it
    /// and those before it.
    pub last_flushed_lsn: u64,
    /// The collections.
    pub collections: Vec<CollectionEntry>,
}

/// What a collection consists of.
#[derive(Debug)]
pub struct CollectionEntry {
    /// The name.
    pub name: String,
    /// The configuration.
    pub config: CollectionConfig,
    /// The numbers of the segments, the oldest first.
    pub segments: Vec<u64>,
}

/// What an entry of the manifest says.
#[verifier::ext_equal]
pub struct EntryView {
    /// The name.
    pub name: Seq<char>,
    /// The configuration.
    pub config: CollectionConfig,
    /// The numbers of the segments.
    pub segments: Seq<u64>,
}

/// What a manifest says.
#[verifier::ext_equal]
pub struct ManifestView {
    /// The version of the formats.
    pub version: u32,
    /// The highest record of the log that is in segments.
    pub last_flushed_lsn: u64,
    /// The collections.
    pub entries: Seq<EntryView>,
}

impl View for CollectionEntry {
    type V = EntryView;

    open spec fn view(&self) -> EntryView {
        EntryView { name: self.name@, config: self.config, segments: self.segments@ }
    }
}

impl View for Manifest {
    type V = ManifestView;

    open spec fn view(&self) -> ManifestView {
        ManifestView {
            version: self.version,
            last_flushed_lsn: self.last_flushed_lsn,
            entries: entry_views(self.collections@),
        }
    }
}

/// What some entries say.
pub open spec fn entry_views(s: Seq<CollectionEntry>) -> Seq<EntryView> {
    Seq::new(s.len(), |i: int| s[i]@)
}

/// The first entry of a name, from entry `i` on; the number of entries if there is none.
pub open spec fn entry_from(entries: Seq<EntryView>, name: Seq<char>, i: int) -> int
    decreases entries.len() - i,
{
    if i >= entries.len() {
        entries.len() as int
    } else if entries[i].name == name {
        i
    } else {
        entry_from(entries, name, i + 1)
    }
}

/// Whether entries have different names.
pub open spec fn names_differ(entries: Seq<EntryView>) -> bool {
    forall|i: int, j: int|
        0 <= i < j < entries.len() ==> (#[trigger] entries[i]).name != (#[trigger] entries[j]).name
}

/// The first entry of a name.
pub open spec fn entry_at(entries: Seq<EntryView>, name: Seq<char>) -> int {
    entry_from(entries, name, 0)
}

/// What the place of an entry says.
pub proof fn lemma_entry_from(entries: Seq<EntryView>, name: Seq<char>, i: int)
    requires
        0 <= i <= entries.len(),
    ensures
        i <= entry_from(entries, name, i) <= entries.len(),
        entry_from(entries, name, i) < entries.len() ==> entries[entry_from(entries, name, i)].name
            == name,
        forall|k: int|
            i <= k < entry_from(entries, name, i) ==> (#[trigger] entries[k]).name != name,
    decreases entries.len() - i,
{
    if i < entries.len() && entries[i].name != name {
        lemma_entry_from(entries, name, i + 1);
    }
}

/// The entries that do not have a name.
pub open spec fn entries_without(entries: Seq<EntryView>, name: Seq<char>) -> Seq<EntryView>
    decreases entries.len(),
{
    if entries.len() == 0 {
        entries
    } else {
        let rest = entries_without(entries.drop_last(), name);
        if entries.last().name == name {
            rest
        } else {
            rest.push(entries.last())
        }
    }
}

/// Names stay different where entries are taken away.
pub proof fn lemma_names_without(entries: Seq<EntryView>, name: Seq<char>)
    requires
        names_differ(entries),
    ensures
        names_differ(entries_without(entries, name)),
        forall|i: int|
            0 <= i < entries_without(entries, name).len() ==> exists|k: int|
                0 <= k < entries.len() && #[trigger] entries[k] == (#[trigger] entries_without(
                    entries,
                    name,
                )[i]),
    decreases entries.len(),
{
    if entries.len() > 0 {
        let rest = entries.drop_last();
        let less = entries_without(rest, name);
        let all = entries_without(entries, name);
        assert(names_differ(rest)) by {
            assert forall|i: int, j: int| 0 <= i < j < rest.len() implies (
            #[trigger] rest[i]).name != (#[trigger] rest[j]).name by {
                assert(entries[i].name != entries[j].name);
            }
        }
        lemma_names_without(rest, name);
        assert forall|i: int| 0 <= i < all.len() implies exists|k: int|
            0 <= k < entries.len() && #[trigger] entries[k] == (#[trigger] all[i]) by {
            if i < less.len() {
                let k = choose|k: int| 0 <= k < rest.len() && #[trigger] rest[k] == less[i];
                assert(entries[k] == all[i]);
            } else {
                assert(entries[entries.len() - 1] == all[i]);
            }
        }
        assert forall|i: int, j: int| 0 <= i < j < all.len() implies (#[trigger] all[i]).name != (
        #[trigger] all[j]).name by {
            assert(all[i] == less[i]);
            if j < less.len() {
                assert(all[j] == less[j]);
            } else {
                let k = choose|k: int| 0 <= k < rest.len() && #[trigger] rest[k] == less[i];
                assert(entries[k].name != entries[entries.len() - 1].name);
            }
        }
    }
}

/// Names stay different where entries keep their names.
pub proof fn lemma_names_kept(a: Seq<EntryView>, b: Seq<EntryView>)
    requires
        names_differ(a),
        a.len() == b.len(),
        forall|i: int| 0 <= i < a.len() ==> (#[trigger] b[i]).name == a[i].name,
    ensures
        names_differ(b),
{
    assert forall|i: int, j: int| 0 <= i < j < b.len() implies (#[trigger] b[i]).name != (
    #[trigger] b[j]).name by {
        assert(a[i].name != a[j].name);
    }
}

/// Where the first entry of a name is, by the entries before the last and the last.
pub proof fn lemma_entry_last(entries: Seq<EntryView>, name: Seq<char>)
    requires
        entries.len() > 0,
    ensures
        entry_at(entries, name) == (if entry_at(entries.drop_last(), name) < entries.len() - 1 {
            entry_at(entries.drop_last(), name)
        } else if entries.last().name == name {
            entries.len() - 1
        } else {
            entries.len() as int
        }),
{
    let rest = entries.drop_last();
    lemma_entry_from(entries, name, 0);
    lemma_entry_from(rest, name, 0);
    let i = entry_at(entries, name);
    let j = entry_at(rest, name);
    if j < rest.len() {
        assert(entries[j].name == name);
        if i < j {
            assert(rest[i].name == name);
        }
    } else {
        if i < rest.len() {
            assert(rest[i].name == name);
        }
        if entries.last().name == name {
            assert(entries[entries.len() - 1].name == name);
        }
    }
}

/// Without the entries of a name, the first entries of other names are as before.
pub proof fn lemma_entries_without(entries: Seq<EntryView>, gone: Seq<char>, name: Seq<char>)
    ensures
        ({
            let rest = entries_without(entries, gone);
            let i = entry_at(entries, name);
            let j = entry_at(rest, name);
            if name == gone {
                j == rest.len()
            } else {
                &&& i < entries.len() <==> j < rest.len()
                &&& i < entries.len() ==> rest[j] == entries[i]
            }
        }),
    decreases entries.len(),
{
    if entries.len() > 0 {
        let before = entries.drop_last();
        let rest = entries_without(before, gone);
        lemma_entries_without(before, gone, name);
        lemma_entry_from(before, name, 0);
        lemma_entry_from(rest, name, 0);
        lemma_entry_last(entries, name);
        if entries.last().name != gone {
            let all = rest.push(entries.last());
            assert(all.drop_last() =~= rest);
            lemma_entry_last(all, name);
        }
    }
}

/// Whether a number is that of a segment of some entry.
pub open spec fn references(entries: Seq<EntryView>, id: u64) -> bool {
    exists|i: int|
        0 <= i < entries.len() && (#[trigger] entries[i]).segments.contains(id)
}

impl Default for Manifest {
    fn default() -> (r: Self)
        ensures
            r@ == (ManifestView {
                version: VERSION,
                last_flushed_lsn: 0,
                entries: Seq::<EntryView>::empty(),
            }),
    {
        let r = Manifest { version: VERSION, last_flushed_lsn: 0, collections: Vec::new() };
        assert(r@.entries =~= Seq::<EntryView>::empty());
        r
    }
}

impl Manifest {
    /// Accepts a manifest that was read, unless a later version wrote it.
    pub fn load(m: Manifest) -> (r: Result<Manifest, Error>)
        ensures
            r == (if m.version > VERSION {
                Err::<Manifest, Error>(Error::Invalid(Invalid::ManifestVersion(m.version)))
            } else {
                Ok(m)
            }),
    {
        if m.version > VERSION {
            return Err(Error::Invalid(Invalid::ManifestVersion(m.version)));
        }
        Ok(m)
    }

    fn find(&self, name: &String) -> (r: usize)
        ensures
            r == entry_at(self@.entries, name@),
            r <= self.collections@.len(),
    {
        let ghost entries = self@.entries;
        let mut i: usize = 0;
        while i < self.collections.len()
            invariant
                i <= self.collections@.len(),
                entries == self@.entries,
                entry_from(entries, name@, i as int) == entry_at(entries, name@),
            decreases self.collections.len() - i,
        {
            assert(entries[i as int].name == self.collections@[i as int].name@);
            if self.collections[i].name == *name {
                return i;
            }
            i = i + 1;
        }
        i
    }

    /// The entry of a name.
    pub fn entry_mut(&mut self, name: &str) -> (r: Option<&mut CollectionEntry>)
        ensures
            match r {
                None => {
                    &&& entry_at(old(self)@.entries, name@) == old(self)@.entries.len()
                    &&& *final(self) == *old(self)
                },
                Some(e) => {
                    let at = entry_at(old(self)@.entries, name@);
                    &&& at < old(self)@.entries.len()
                    &&& *e == old(self).collections@[at]
                    &&& final(self).version == old(self).version
                    &&& final(self).last_flushed_lsn == old(self).last_flushed_lsn
                    &&& final(self).collections@ == old(self).collections@.update(at, *final(e))
                },
            },
    {
        let name: String = name.to_owned();
        let i: usize = self.find(&name);
        if i < self.collections.len() {
            Some(&mut self.collections[i])
        } else {
            None
        }
    }

    /// The highest number of any segment; zero if there are none.
    pub fn max_segment_id(&self) -> (r: u64)
        ensures
            forall|id: u64| references(self@.entries, id) ==> id <= r,
            r == 0 || references(self@.entries, r),
    {
        let ghost entries = self@.entries;
        let mut r: u64 = 0;
        let mut i: usize = 0;
        while i < self.collections.len()
            invariant
                i <= self.collections@.len(),
                entries == self@.entries,
                forall|k: int, j: int|
                    0 <= k < i && 0 <= j < entries[k].segments.len() ==> (
                    #[trigger] entries[k].segments[j]) <= r,
                r == 0 || references(entries, r),
            decreases self.collections.len() - i,
        {
            let segs = &self.collections[i].segments;
            assert(entries[i as int].segments == segs@);
            let mut j: usize = 0;
            while j < segs.len()
                invariant
                    j <= segs@.len(),
                    i < entries.len(),
                    entries[i as int].segments == segs@,
                    forall|k: int, j: int|
                        0 <= k < i && 0 <= j < entries[k].segments.len() ==> (
                        #[trigger] entries[k].segments[j]) <= r,
                    forall|k: int| 0 <= k < j ==> #[trigger] segs@[k] <= r,
                    r == 0 || references(entries, r),
                decreases segs.len() - j,
            {
                if segs[j] > r {
                    r = segs[j];
                    assert(entries[i as int].segments.contains(segs@[j as int]));
                }
                j = j + 1;
            }
            i = i + 1;
        }
        assert forall|id: u64| references(entries, id) implies id <= r by {
            let k = choose|k: int|
                0 <= k < entries.len() && (#[trigger] entries[k]).segments.contains(id);
            let j = choose|j: int|
                0 <= j < entries[k].segments.len() && entries[k].segments[j] == id;
            assert(entries[k].segments[j] <= r);
        }
        r
    }

    /// A copy.
    pub fn copy(&self) -> (r: Self)
        ensures
            r@ == self@,
    {
        let mut collections: Vec<CollectionEntry> = Vec::new();
        let mut i: usize = 0;
        while i < self.collections.len()
            invariant
                i <= self.collections@.len(),
                entry_views(collections@) == self@.entries.take(i as int),
            decreases self.collections.len() - i,
        {
            let ghost before = entry_views(collections@);
            let e = &self.collections[i];
            collections.push(
                CollectionEntry {
                    name: e.name.clone(),
                    config: e.config,
                    segments: copy_numbers(&e.segments),
                },
            );
            proof {
                assert(entry_views(collections@) =~= before.push(e@));
                assert(self@.entries.take(i + 1) =~= self@.entries.take(i as int).push(e@));
            }
            i = i + 1;
        }
        assert(self@.entries.take(self.collections@.len() as int) =~= self@.entries);
        Manifest { version: self.version, last_flushed_lsn: self.last_flushed_lsn, collections }
    }

    /// Adds a collection without segments.
    pub fn add_entry(&mut self, name: &str, config: CollectionConfig)
        ensures
            final(self)@ == (ManifestView {
                entries: old(self)@.entries.push(
                    EntryView { name: name@, config, segments: Seq::empty() },
                ),
                ..old(self)@
            }),
    {
        let ghost before = self@.entries;
        self.collections.push(
            CollectionEntry { name: name.to_owned(), config, segments: Vec::new() },
        );
        proof {
            let new = EntryView { name: name@, config, segments: Seq::<u64>::empty() };
            assert(self.collections@.last()@ =~= new);
            assert(self@.entries =~= before.push(new));
        }
    }

    /// Takes out the collections of a name. Gives the segments of the first of them.
    pub fn drop_entries(&mut self, name: &str) -> (r: Vec<u64>)
        ensures
            final(self)@ == (ManifestView {
                entries: entries_without(old(self)@.entries, name@),
                ..old(self)@
            }),
            r@ == (if entry_at(old(self)@.entries, name@) < old(self)@.entries.len() {
                old(self)@.entries[entry_at(old(self)@.entries, name@)].segments
            } else {
                Seq::<u64>::empty()
            }),
    {
        let ghost before = self@.entries;
        let text: String = name.to_owned();
        let at: usize = self.find(&text);
        let r: Vec<u64> = if at < self.collections.len() {
            copy_numbers(&self.collections[at].segments)
        } else {
            Vec::new()
        };
        let mut back: Vec<CollectionEntry> = Vec::new();
        let mut k: usize = self.collections.len();
        let ghost all = self.collections@;
        assert(all.take(k as int) =~= all);
        assert(entries_without(before, name@) =~= entries_without(
            entry_views(all.take(k as int)),
            name@,
        ) + entry_views(back@).reverse());
        while k > 0
            invariant
                k <= all.len(),
                text@ == name@,
                before == entry_views(all),
                self.version == old(self).version,
                self.last_flushed_lsn == old(self).last_flushed_lsn,
                self.collections@ == all.take(k as int),
                entries_without(before, name@) == entries_without(
                    entry_views(all.take(k as int)),
                    name@,
                ) + entry_views(back@).reverse(),
            decreases k,
        {
            k = k - 1;
            let ghost part = entry_views(all.take(k + 1));
            let ghost back0 = entry_views(back@);
            match self.collections.pop() {
                None => {
                    assert(false);
                },
                Some(e) => {
                    proof {
                        assert(self.collections@ =~= all.take(k as int));
                        assert(part.drop_last() =~= entry_views(all.take(k as int)));
                        assert(part.last() == e@);
                    }
                    if e.name != text {
                        back.push(e);
                        proof {
                            assert(entry_views(back@) =~= back0.push(e@));
                            let rest = entries_without(entry_views(all.take(k as int)), name@);
                            assert(rest.push(e@) + back0.reverse() =~= rest + entry_views(
                                back@,
                            ).reverse());
                        }
                    }
                },
            }
        }
        let ghost list = back@;
        assert(all.take(0) =~= Seq::<CollectionEntry>::empty());
        assert(entry_views(all.take(0)) =~= Seq::<EntryView>::empty());
        let mut n: usize = back.len();
        while n > 0
            invariant
                n <= list.len(),
                back@ == list.take(n as int),
                self.version == old(self).version,
                self.last_flushed_lsn == old(self).last_flushed_lsn,
                entry_views(self.collections@) == entry_views(list).skip(n as int).reverse(),
            decreases n,
        {
            n = n - 1;
            let ghost done = entry_views(self.collections@);
            match back.pop() {
                None => {
                    assert(false);
                },
                Some(e) => {
                    assert(back@ =~= list.take(n as int));
                    assert(e == list[n as int]);
                    self.collections.push(e);
                    assert(entry_views(self.collections@) =~= done.push(e@));
                    assert(entry_views(list).skip(n as int).reverse() =~= entry_views(list).skip(
                        n + 1,
                    ).reverse().push(e@));
                },
            }
        }
        proof {
            assert(entry_views(list).skip(0) =~= entry_views(list));
            assert(entries_without(before, name@) =~= entry_views(list).reverse());
            assert(self@.entries =~= entries_without(before, name@));
        }
        r
    }

    /// Whether a number is that of a segment.
    pub fn references_segment(&self, id: u64) -> (r: bool)
        ensures
            r == references(self@.entries, id),
    {
        let ghost entries = self@.entries;
        let mut i: usize = 0;
        while i < self.collections.len()
            invariant
                i <= self.collections@.len(),
                entries == self@.entries,
                forall|k: int| 0 <= k < i ==> !(#[trigger] entries[k]).segments.contains(id),
            decreases self.collections.len() - i,
        {
            let segs = &self.collections[i].segments;
            assert(entries[i as int].segments == segs@);
            let mut j: usize = 0;
            while j < segs.len()
                invariant
                    j <= segs@.len(),
                    i < entries.len(),
                    entries[i as int].segments == segs@,
                    entries == self@.entries,
                    forall|k: int| 0 <= k < j ==> #[trigger] segs@[k] != id,
                decreases segs.len() - j,
            {
                if segs[j] == id {
                    assert(entries[i as int].segments.contains(segs@[j as int]));
                    return true;
                }
                j = j + 1;
            }
            i = i + 1;
        }
        false
    }
}

/// A copy of some numbers.
pub fn copy_numbers(v: &Vec<u64>) -> (r: Vec<u64>)
    ensures
        r@ == v@,
{
    let mut r: Vec<u64> = Vec::new();
    let mut i: usize = 0;
    while i < v.len()
        invariant
            i <= v@.len(),
            r@ == v@.take(i as int),
        decreases v.len() - i,
    {
        r.push(v[i]);
        assert(v@.take(i + 1) =~= v@.take(i as int).push(v@[i as int]));
        i = i + 1;
    }
    assert(v@.take(v@.len() as int) =~= v@);
    r
}

} // verus!
