//! Opening a database.
//!
//! The manifest says which segments there are. Once these are opened,
//! [`Database::assemble`] makes a database of them, and [`Database::recover`] applies the
//! records of the log that are not in segments yet.

use vstd::prelude::*;

use crate::engine::database::{
    coll_at, kept_in, lemma_coll_from, lemma_kept_none, lemma_kept_push, unique, Collection,
    Database, DatabaseOptions,
};
use crate::engine::disk::{lemma_agree_settled, on_disk, stacked, Disk};
use crate::engine::durable::{durable, has_seg, is_stored, lemma_stored_tidy, numbered, seg_number};
use crate::engine::outcome::{orderly, settled_kept, Kept};
use crate::engine::outlast::lemma_all_stacked;
use crate::engine::renew::numbers;
use crate::engine::view::{disjoint, layered, CollView};
use crate::error::Error;
use crate::id::IdView;
use crate::manifest::{
    entry_at, lemma_entry_from, names_differ, references, EntryView, Manifest,
};
use crate::segment::immutable::ImmutableSegment;
use crate::segment::mutable::MutableSegment;
use crate::segment::Entry;
use crate::text::is_same;
use crate::wal::RecordView;
use crate::VERSION;

verus! {

/// The last entry of a name; -1 if there is none.
pub open spec fn last_named(entries: Seq<EntryView>, name: Seq<char>) -> int
    decreases entries.len(),
{
    if entries.len() == 0 {
        -1
    } else if entries.last().name == name {
        entries.len() - 1
    } else {
        last_named(entries.drop_last(), name)
    }
}

/// What the segments of some entries hold under a name. Of several entries of that name, the
/// last one counts.
pub open spec fn assembled(
    entries: Seq<EntryView>,
    opened: Seq<Seq<ImmutableSegment>>,
    name: Seq<char>,
) -> Option<Kept> {
    let i = last_named(entries, name);
    if i < 0 {
        None
    } else {
        Some(Kept { config: entries[i].config, points: layered(opened[i]) })
    }
}

/// The segments in some lists.
pub open spec fn all_opened(opened: Seq<Vec<ImmutableSegment>>) -> Seq<Seq<ImmutableSegment>> {
    Seq::new(opened.len(), |i: int| opened[i]@)
}

/// Whether a segment does not have the dimension of its collection.
pub open spec fn misfits(
    entries: Seq<EntryView>,
    opened: Seq<Seq<ImmutableSegment>>,
    i: int,
    j: int,
) -> bool {
    &&& 0 <= i < entries.len()
    &&& 0 <= j < opened[i].len()
    &&& opened[i][j].width() != entries[i].config.dim
}

pub proof fn lemma_last_named(entries: Seq<EntryView>, name: Seq<char>)
    ensures
        -1 <= last_named(entries, name) < entries.len(),
        last_named(entries, name) >= 0 ==> entries[last_named(entries, name)].name == name,
        forall|k: int|
            last_named(entries, name) < k < entries.len() ==> (#[trigger] entries[k]).name != name,
    decreases entries.len(),
{
    if entries.len() > 0 && entries.last().name != name {
        lemma_last_named(entries.drop_last(), name);
        assert forall|k: int| last_named(entries, name) < k < entries.len() implies (
        #[trigger] entries[k]).name != name by {
            if k < entries.len() - 1 {
                assert(entries.drop_last()[k].name != name);
            }
        }
    }
}

/// Whether a later entry has the same name.
pub open spec fn overruled(entries: Seq<EntryView>, i: int) -> bool {
    last_named(entries, entries[i].name) > i
}

/// Whether a collection consists of the segments of the last entry of its name.
pub open spec fn comes_from(
    c: Collection,
    entries: Seq<EntryView>,
    opened: Seq<Seq<ImmutableSegment>>,
) -> bool {
    let i = last_named(entries, c.name@);
    &&& i >= 0
    &&& c.config == entries[i].config
    &&& c.view.immutables@ == opened[i]
    &&& c.view.mutable.rows().len() == 0
    &&& c.view.mutable.index() == Map::<IdView, u32>::empty()
}

/// Whether there is a collection of a name.
fn has_name(colls: &Vec<Collection>, name: &str) -> (r: bool)
    ensures
        r == (kept_in(colls@, name@) is Some),
{
    let mut i: usize = 0;
    proof {
        lemma_kept_none(colls@, name@);
        lemma_coll_from(colls@, name@, 0);
    }
    while i < colls.len()
        invariant
            i <= colls@.len(),
            forall|k: int| 0 <= k < i ==> (#[trigger] colls@[k]).name@ != name@,
            kept_in(colls@, name@) is None <==> coll_at(colls@, name@) == colls@.len(),
            0 <= coll_at(colls@, name@) <= colls@.len(),
            coll_at(colls@, name@) < colls@.len() ==> colls@[coll_at(colls@, name@)].name@ == name@,
            forall|k: int|
                0 <= k < coll_at(colls@, name@) ==> (#[trigger] colls@[k]).name@ != name@,
        decreases colls.len() - i,
    {
        if is_same(colls[i].name.as_str(), name) {
            assert(colls@[i as int].name@ == name@);
            return true;
        }
        i = i + 1;
    }
    false
}

/// The first segment that does not have a dimension.
fn first_misfit_in(segs: &Vec<ImmutableSegment>, dim: usize) -> (r: Option<usize>)
    requires
        forall|j: int| 0 <= j < segs@.len() ==> (#[trigger] segs@[j]).valid(),
    ensures
        match r {
            Some(j) => j < segs@.len() && segs@[j as int].width() != dim,
            None => forall|j: int| 0 <= j < segs@.len() ==> (#[trigger] segs@[j]).width() == dim,
        },
{
    let mut j: usize = 0;
    while j < segs.len()
        invariant
            j <= segs@.len(),
            forall|k: int| 0 <= k < j ==> (#[trigger] segs@[k]).width() == dim,
        decreases segs.len() - j,
    {
        if segs[j].dim() != dim {
            return Some(j);
        }
        j = j + 1;
    }
    None
}

/// An entry whose name is there already changes nothing.
proof fn lemma_skipped_entry(
    entries: Seq<EntryView>,
    all: Seq<Seq<ImmutableSegment>>,
    colls: Seq<Collection>,
    n: int,
)
    requires
        0 <= n < entries.len(),
        kept_in(colls, entries[n].name) is Some,
        forall|name: Seq<char>| #[trigger]
            kept_in(colls, name) == (if last_named(entries, name) >= n + 1 {
                assembled(entries, all, name)
            } else {
                None
            }),
    ensures
        forall|name: Seq<char>| #[trigger]
            kept_in(colls, name) == (if last_named(entries, name) >= n {
                assembled(entries, all, name)
            } else {
                None
            }),
        overruled(entries, n),
{
    assert(kept_in(colls, entries[n].name) is Some);
    assert forall|name: Seq<char>| #[trigger]
        kept_in(colls, name) == (if last_named(entries, name) >= n {
            assembled(entries, all, name)
        } else {
            None
        }) by {
        lemma_last_named(entries, name);
        if last_named(entries, name) == n {
            assert(name == entries[n].name);
        }
    }
}

/// An entry whose name is not there yet adds a collection.
proof fn lemma_new_entry(
    entries: Seq<EntryView>,
    all: Seq<Seq<ImmutableSegment>>,
    colls: Seq<Collection>,
    c: Collection,
    n: int,
)
    requires
        0 <= n < entries.len(),
        unique(colls),
        kept_in(colls, entries[n].name) is None,
        forall|name: Seq<char>| #[trigger]
            kept_in(colls, name) == (if last_named(entries, name) >= n + 1 {
                assembled(entries, all, name)
            } else {
                None
            }),
        c.name@ == entries[n].name,
        c.config == entries[n].config,
        c.view.immutables@ == all[n],
        c.view.mutable.rows().len() == 0,
        c.view.mutable.valid(),
    ensures
        unique(colls.push(c)),
        last_named(entries, c.name@) == n,
        forall|name: Seq<char>| #[trigger]
            kept_in(colls.push(c), name) == (if last_named(entries, name) >= n {
                assembled(entries, all, name)
            } else {
                None
            }),
{
    lemma_kept_none(colls, c.name@);
    lemma_last_named(entries, c.name@);
    assert(kept_in(colls, c.name@) is None);
    assert(last_named(entries, c.name@) == n) by {
        if last_named(entries, c.name@) < n {
            assert(entries[n].name != c.name@);
        }
    }
    c.view.mutable.lemma_valid();
    assert(c.view.mutable.live() =~= Map::<IdView, Entry>::empty()) by {
        assert forall|id: IdView| !(#[trigger] c.view.mutable.live().contains_key(id)) by {
            if c.view.mutable.index().contains_key(id) {
                assert(c.view.mutable.index()[id] < c.view.mutable.rows().len());
            }
        }
    }
    assert(c.view.contents() =~= layered(all[n]));
    lemma_kept_push(colls, c, c.name@);
    assert forall|name: Seq<char>| #[trigger]
        kept_in(colls.push(c), name) == (if last_named(entries, name) >= n {
            assembled(entries, all, name)
        } else {
            None
        }) by {
        lemma_kept_push(colls, c, name);
        lemma_last_named(entries, name);
        if last_named(entries, name) == n {
            assert(name == entries[n].name);
        }
    }
}

impl Database {
    /// The database that consists of segments, without what is in the log. `segments` holds
    /// the segments of each entry of the manifest.
    pub fn assemble(
        options: DatabaseOptions,
        manifest: Manifest,
        segments: Vec<Vec<ImmutableSegment>>,
        recovery_clean: bool,
    ) -> (r: Result<Database, Error>)
        requires
            segments@.len() == manifest@.entries.len(),
            forall|i: int, j: int|
                0 <= i < segments@.len() && 0 <= j < segments@[i]@.len() ==> (
                #[trigger] segments@[i]@[j]).valid(),
            !references(manifest@.entries, u64::MAX),
        ensures
            match r {
                Ok(db) => {
                    &&& db.valid()
                    &&& db.options == options
                    &&& db.manifest@ == manifest@
                    &&& db.recovery_clean == recovery_clean
                    &&& forall|id: u64|
                        references(manifest@.entries, id) ==> id < db.next_seg_id
                    &&& db.next_seg_id == 1 || references(
                        manifest@.entries,
                        (db.next_seg_id - 1) as u64,
                    )
                    &&& forall|name: Seq<char>| #[trigger]
                        db.kept(name) == assembled(
                            manifest@.entries,
                            all_opened(segments@),
                            name,
                        )
                    &&& forall|i: int|
                        0 <= i < db.collections@.len() ==> comes_from(
                            #[trigger] db.collections@[i],
                            manifest@.entries,
                            all_opened(segments@),
                        )
                    &&& forall|i: int, j: int| #[trigger]
                        misfits(manifest@.entries, all_opened(segments@), i, j) ==> overruled(
                            manifest@.entries,
                            i,
                        )
                },
                Err(e) => exists|i: int, j: int| #[trigger]
                    misfits(manifest@.entries, all_opened(segments@), i, j) && e
                        == (Error::DimensionMismatch {
                        expected: manifest@.entries[i].config.dim,
                        got: all_opened(segments@)[i][j].width() as usize,
                    }),
            },
    {
        let ghost entries = manifest@.entries;
        let ghost all = all_opened(segments@);
        let next_seg_id: u64 = manifest.max_segment_id() + 1;
        let mut opened = segments;
        let mut collections: Vec<Collection> = Vec::new();
        let mut n: usize = opened.len();
        assert(all.take(n as int) =~= all);
        assert(all_opened(opened@) =~= all.take(n as int));
        proof {
            assert forall|name: Seq<char>| #[trigger]
                kept_in(collections@, name) == (if last_named(entries, name) >= n {
                    assembled(entries, all, name)
                } else {
                    None
                }) by {
                lemma_last_named(entries, name);
                lemma_kept_none(collections@, name);
            }
        }
        while n > 0
            invariant
                n <= entries.len(),
                entries == manifest@.entries,
                all == all_opened(segments@),
                all.len() == entries.len(),
                opened@.len() == n,
                all_opened(opened@) == all.take(n as int),
                forall|i: int, j: int|
                    0 <= i < all.len() && 0 <= j < all[i].len() ==> (#[trigger] all[i][j]).valid(),
                unique(collections@),
                forall|i: int|
                    0 <= i < collections@.len() ==> (#[trigger] collections@[i]).valid()
                        && comes_from(collections@[i], entries, all),
                forall|name: Seq<char>| #[trigger]
                    kept_in(collections@, name) == (if last_named(entries, name) >= n {
                        assembled(entries, all, name)
                    } else {
                        None
                    }),
                forall|i: int, j: int|
                    i >= n && #[trigger] misfits(entries, all, i, j) ==> overruled(entries, i),
            decreases n,
        {
            n = n - 1;
            let ghost before = collections@;
            let entry = &manifest.collections[n];
            assert(all_opened(opened@)[n as int] == all[n as int]);
            assert(all.take(n as int) =~= all.take(n + 1).drop_last());
            match opened.pop() {
                None => {
                    assert(false);
                },
                Some(segs) => {
                    assert(segs@ == all[n as int]);
                    assert(all_opened(opened@) =~= all.take(n as int));
                    assert(entries[n as int] == entry@);
                    let known: bool = has_name(&collections, entry.name.as_str());
                    if known {
                        proof {
                            lemma_skipped_entry(entries, all, before, n as int);
                        }
                    } else {
                        match first_misfit_in(&segs, entry.config.dim) {
                            Some(j) => {
                                assert(misfits(entries, all, n as int, j as int));
                                return Err(
                                    Error::DimensionMismatch {
                                        expected: entry.config.dim,
                                        got: segs[j].dim(),
                                    },
                                );
                            },
                            None => {},
                        }
                        let c = Collection {
                            name: entry.name.clone(),
                            config: entry.config,
                            view: CollView {
                                mutable: MutableSegment::new(entry.config.dim),
                                immutables: segs,
                            },
                        };
                        proof {
                            lemma_new_entry(entries, all, before, c, n as int);
                        }
                        collections.push(c);
                    }
                },
            }
        }
        proof {
            assert forall|name: Seq<char>| #[trigger] kept_in(collections@, name) == assembled(
                entries,
                all,
                name,
            ) by {
                lemma_last_named(entries, name);
            }
        }
        Ok(Database { options, manifest, collections, next_seg_id, recovery_clean })
    }
}

// ------------------------------------------------------------ what is stored

/// Whether the segments of all entries were opened as they are stored.
pub open spec fn opened_from(disk: Disk, opened: Seq<Seq<ImmutableSegment>>) -> bool {
    &&& opened.len() == disk.manifest.entries.len()
    &&& forall|i: int|
        0 <= i < opened.len() ==> numbers(#[trigger] opened[i])
            == disk.manifest.entries[i].segments
    &&& forall|i: int, j: int|
        0 <= i < opened.len() && 0 <= j < opened[i].len() ==> (#[trigger] opened[i][j]).valid()
            && disk.segs.contains_key(opened[i][j].number()) && on_disk(
            disk.segs[opened[i][j].number()],
            opened[i][j],
        )
}

/// A database that is made of its segments holds what is stored in these.
pub proof fn law_assembled_is_stored(
    disk: Disk,
    opened: Seq<Seq<ImmutableSegment>>,
    name: Seq<char>,
)
    requires
        names_differ(disk.manifest.entries),
        opened_from(disk, opened),
    ensures
        settled_kept(assembled(disk.manifest.entries, opened, name)) == settled_kept(
            disk.base(name),
        ),
{
    let entries = disk.manifest.entries;
    lemma_last_named(entries, name);
    lemma_entry_from(entries, name, 0);
    let i = last_named(entries, name);
    let j = entry_at(entries, name);
    if i >= 0 {
        assert(entries[i].name == name);
        if j < i {
            assert(entries[j].name != entries[i].name);
        }
        assert(i == j);
        let segs = opened[i];
        assert forall|x: int| 0 <= x < segs.len() implies (#[trigger] segs[x]).valid() && on_disk(
            disk.segs[segs[x].number()],
            segs[x],
        ) by {
            assert(opened[i][x].valid());
        }
        lemma_all_stacked(disk, numbers(segs), segs);
        lemma_agree_settled(stacked(disk.segs, numbers(segs)), layered(segs));
    } else if j < entries.len() {
        assert(entries[j].name != name);
    }
}

/// Whether no two segments of some lists have the same number.
pub open spec fn numbers_differ(opened: Seq<Seq<ImmutableSegment>>) -> bool {
    forall|i: int, j: int, x: int, y: int|
        #![trigger opened[i][j], opened[x][y]]
        0 <= i < opened.len() && 0 <= j < opened[i].len() && 0 <= x < opened.len() && 0 <= y
            < opened[x].len() && opened[i][j].number() == opened[x][y].number() ==> i == x && j
            == y
}

/// A database that was made of the segments that are stored, with nothing in the log, is
/// stored.
pub proof fn law_assembled_is_durable(
    db: Database,
    disk: Disk,
    opened: Seq<Seq<ImmutableSegment>>,
    next_lsn: u64,
)
    requires
        disk.log == Seq::<RecordView>::empty(),
        disk.manifest.last_flushed_lsn < next_lsn,
        disk.manifest.version <= VERSION,
        names_differ(disk.manifest.entries),
        opened_from(disk, opened),
        numbers_differ(opened),
        forall|i: int| 0 <= i < opened.len() ==> disjoint(#[trigger] opened[i]),
        db.valid(),
        db.manifest@ == disk.manifest,
        forall|id: u64| references(disk.manifest.entries, id) ==> id < db.next_seg_id,
        forall|name: Seq<char>| #[trigger]
            db.kept(name) == assembled(disk.manifest.entries, opened, name),
        forall|i: int|
            0 <= i < db.collections@.len() ==> comes_from(
                #[trigger] db.collections@[i],
                disk.manifest.entries,
                opened,
            ),
    ensures
        durable(db, disk, next_lsn),
{
    let entries = disk.manifest.entries;
    let colls = db.collections@;
    assert forall|i: int| 0 <= i < colls.len() implies (#[trigger] colls[i]).view.apart() by {
        assert(comes_from(colls[i], entries, opened));
        lemma_last_named(entries, colls[i].name@);
        assert(disjoint(opened[last_named(entries, colls[i].name@)]));
    }
    assert forall|i: int| 0 <= i < colls.len() implies is_stored(disk, #[trigger] colls[i]) by {
        let c = colls[i];
        assert(comes_from(c, entries, opened));
        lemma_last_named(entries, c.name@);
        lemma_entry_from(entries, c.name@, 0);
        let x = last_named(entries, c.name@);
        let y = entry_at(entries, c.name@);
        if y < x {
            assert(entries[y].name != entries[x].name);
        } else if y > x {
            assert(entries[x].name != c.name@);
        }
        assert(numbers(opened[x]) == entries[x].segments);
        assert forall|j: int| 0 <= j < c.view.immutables@.len() implies disk.segs.contains_key(
            (#[trigger] c.view.immutables@[j]).number(),
        ) && on_disk(disk.segs[c.view.immutables@[j].number()], c.view.immutables@[j]) by {
            assert(opened[x][j].valid());
        }
    }
    assert forall|i: int, j: int| #[trigger] has_seg(db, i, j) implies 0 <= last_named(
        entries,
        colls[i].name@,
    ) < entries.len() && seg_number(db, i, j) == opened[last_named(
        entries,
        colls[i].name@,
    )][j].number() && seg_number(db, i, j) < db.next_seg_id by {
        assert(comes_from(colls[i], entries, opened));
        lemma_last_named(entries, colls[i].name@);
        let x = last_named(entries, colls[i].name@);
        assert(numbers(opened[x]) == entries[x].segments);
        assert(entries[x].segments[j] == seg_number(db, i, j));
        assert(entries[x].segments.contains(seg_number(db, i, j)));
        assert(references(entries, seg_number(db, i, j)));
    }
    assert(numbered(db)) by {
        assert forall|i: int, j: int, x: int, y: int| #[trigger]
            has_seg(db, i, j) && #[trigger] has_seg(db, x, y) && seg_number(db, i, j)
                == seg_number(db, x, y) implies i == x && j == y by {
            assert(comes_from(colls[i], entries, opened));
            assert(comes_from(colls[x], entries, opened));
            lemma_last_named(entries, colls[i].name@);
            lemma_last_named(entries, colls[x].name@);
            let a = last_named(entries, colls[i].name@);
            let b = last_named(entries, colls[x].name@);
            assert(opened[a][j].number() == opened[b][y].number());
            assert(a == b);
            if i < x {
                assert(colls[i].name@ != colls[x].name@);
            } else if x < i {
                assert(colls[x].name@ != colls[i].name@);
            }
        }
    }
    assert forall|name: Seq<char>| #[trigger]
        db.kept(name) is Some <==> entry_at(entries, name) < entries.len() by {
        assert(db.kept(name) == assembled(entries, opened, name));
        lemma_last_named(entries, name);
        lemma_entry_from(entries, name, 0);
        let x = last_named(entries, name);
        let y = entry_at(entries, name);
        if x >= 0 && y == entries.len() {
            assert(entries[x].name != name);
        }
        if x < 0 && y < entries.len() {
            assert(entries[y].name != name);
        }
    }
    assert forall|name: Seq<char>| #[trigger]
        settled_kept(disk.recovered(name)) == settled_kept(db.kept(name)) by {
        law_assembled_is_stored(disk, opened, name);
        assert(db.kept(name) == assembled(entries, opened, name));
    }
    assert forall|name: Seq<char>| #[trigger]
        orderly(disk.base(name), disk.log, disk.manifest.last_flushed_lsn, name) by {}
    lemma_stored_tidy(db, disk);
}

/// A new database, of which only the manifest is stored, is stored.
pub proof fn law_new_is_durable(db: Database, disk: Disk, next_lsn: u64)
    requires
        db.collections@.len() == 0,
        db.manifest@ == disk.manifest,
        disk.manifest.entries.len() == 0,
        disk.log.len() == 0,
        disk.manifest.last_flushed_lsn < next_lsn,
        disk.manifest.version <= VERSION,
    ensures
        durable(db, disk, next_lsn),
{
    let opened = Seq::<Seq<ImmutableSegment>>::empty();
    assert(disk.log =~= Seq::<RecordView>::empty());
    assert forall|name: Seq<char>| #[trigger] db.kept(name) == assembled(
        disk.manifest.entries,
        opened,
        name,
    ) by {
        lemma_kept_none(db.collections@, name);
        lemma_last_named(disk.manifest.entries, name);
    }
    law_assembled_is_durable(db, disk, opened, next_lsn);
}

} // verus!
