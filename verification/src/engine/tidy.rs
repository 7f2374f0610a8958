//! What can be opened.

use vstd::prelude::*;

use crate::engine::database::Database;
use crate::engine::disk::{lemma_on_disk, on_disk, Disk};
use crate::engine::durable::{durable, has_num, lemma_stacked_equal, shares_none, tidy};
use crate::engine::open::{
    assembled, comes_from, law_assembled_is_durable, numbers_differ, opened_from,
};
use crate::engine::outcome::agree;
use crate::engine::recover::{ready, with_log};
use crate::engine::renew::numbers;
use crate::engine::view::disjoint;
use crate::id::IdView;
use crate::manifest::{entry_at, lemma_entry_from, references, EntryView};
use crate::segment::immutable::ImmutableSegment;

verus! {

/// What is stored, without segments that the manifest does not have.
pub open spec fn linked(disk: Disk) -> Disk {
    Disk {
        segs: Map::new(
            |id: u64| disk.segs.contains_key(id) && references(disk.manifest.entries, id),
            |id: u64| disk.segs[id],
        ),
        ..disk
    }
}

/// A segment of a manifest is one that it has.
pub proof fn lemma_has(entries: Seq<EntryView>, i: int, j: int)
    requires
        has_num(entries, i, j),
    ensures
        references(entries, entries[i].segments[j]),
{
    assert(entries[i].segments.contains(entries[i].segments[j]));
}

/// Segments that the manifest does not have make no difference.
pub proof fn lemma_linked(disk: Disk)
    requires
        tidy(disk),
    ensures
        tidy(linked(disk)),
        forall|name: Seq<char>| #[trigger] linked(disk).recovered(name) == disk.recovered(name),
        forall|name: Seq<char>| #[trigger] linked(disk).base(name) == disk.base(name),
{
    let less = linked(disk);
    let entries = disk.manifest.entries;
    assert forall|i: int, j: int| #[trigger] has_num(entries, i, j) implies less.segs.contains_key(
        entries[i].segments[j],
    ) && less.segs[entries[i].segments[j]] == disk.segs[entries[i].segments[j]] by {
        lemma_has(entries, i, j);
    }
    assert forall|i: int| 0 <= i < entries.len() implies shares_none(
        less,
        (#[trigger] entries[i]).segments,
    ) by {
        let ids = entries[i].segments;
        assert(shares_none(disk, ids));
        assert forall|j: int, k: int, id: IdView|
            #![trigger less.segs[ids[j]].live().contains_key(id), less.segs[ids[k]].live().contains_key(id)]
            0 <= j < k < ids.len() && less.segs[ids[j]].live().contains_key(id) implies !less.segs[
        ids[k]].live().contains_key(id) by {
            assert(has_num(entries, i, j) && has_num(entries, i, k));
            assert(disk.segs[ids[j]].live().contains_key(id));
            assert(!disk.segs[ids[k]].live().contains_key(id));
        }
    }
    assert forall|name: Seq<char>| #[trigger] less.base(name) == disk.base(name) by {
        let at = entry_at(entries, name);
        lemma_entry_from(entries, name, 0);
        if at < entries.len() {
            let ids = entries[at].segments;
            assert forall|j: int| 0 <= j < ids.len() implies less.segs[#[trigger] ids[j]]
                == disk.segs[ids[j]] by {
                assert(has_num(entries, at, j));
            }
            lemma_stacked_equal(less.segs, disk.segs, ids);
        }
    }
    assert forall|name: Seq<char>| #[trigger] less.recovered(name) == disk.recovered(name) by {
        assert(less.base(name) == disk.base(name));
    }
}

/// What a database has stored hangs together.
pub proof fn law_stored_is_tidy(db: Database, disk: Disk, next_lsn: u64)
    requires
        durable(db, disk, next_lsn),
    ensures
        tidy(disk),
{
}

/// A database that was made of the segments that are stored can replay the log that is stored.
pub proof fn lemma_assembled_ready(db: Database, disk: Disk, opened: Seq<Seq<ImmutableSegment>>)
    requires
        tidy(disk),
        disk.manifest.last_flushed_lsn < u64::MAX,
        forall|i: int| 0 <= i < disk.log.len() ==> (#[trigger] disk.log[i]).lsn < u64::MAX,
        opened_from(disk, opened),
        db.valid(),
        db.manifest@ == disk.manifest,
        forall|id: u64| references(disk.manifest.entries, id) ==> id < db.next_seg_id,
        forall|name: Seq<char>| #[trigger]
            db.kept(name) == assembled(disk.manifest.entries, opened, name),
        forall|i: int|
            0 <= i < db.collections@.len() ==> comes_from(
                #[trigger] db.collections@[i],
                disk.manifest.entries,
                opened,
            ),
    ensures
        ready(db, disk, disk.log),
{
    let entries = disk.manifest.entries;
    let bare = with_log(disk, Seq::empty());
    assert forall|i: int, j: int|
        0 <= i < opened.len() && 0 <= j < opened[i].len() implies has_num(entries, i, j) && (
    #[trigger] opened[i][j]).number() == entries[i].segments[j] by {
        assert(numbers(opened[i]) == entries[i].segments);
        assert(numbers(opened[i])[j] == opened[i][j].number());
    }
    assert(opened_from(bare, opened)) by {
        assert forall|i: int| 0 <= i < opened.len() implies numbers(#[trigger] opened[i])
            == bare.manifest.entries[i].segments by {}
        assert forall|i: int, j: int| 0 <= i < opened.len() && 0 <= j < opened[i].len() implies (
        #[trigger] opened[i][j]).valid() && bare.segs.contains_key(opened[i][j].number())
            && on_disk(bare.segs[opened[i][j].number()], opened[i][j]) by {}
    }
    assert(numbers_differ(opened)) by {
        assert forall|i: int, j: int, x: int, y: int|
            #![trigger opened[i][j], opened[x][y]]
            0 <= i < opened.len() && 0 <= j < opened[i].len() && 0 <= x < opened.len() && 0 <= y
                < opened[x].len() && opened[i][j].number() == opened[x][y].number() implies i == x
            && j == y by {
            assert(has_num(entries, i, j) && has_num(entries, x, y));
        }
    }
    assert forall|i: int| 0 <= i < opened.len() implies disjoint(#[trigger] opened[i]) by {
        let segs = opened[i];
        let ids = entries[i].segments;
        assert(shares_none(disk, ids));
        assert forall|j: int, k: int, id: IdView|
            #![trigger segs[j].live().contains_key(id), segs[k].live().contains_key(id)]
            0 <= j < k < segs.len() && segs[j].live().contains_key(id) implies !segs[
        k].live().contains_key(id) by {
            assert(opened[i][j].number() == ids[j] && opened[i][k].number() == ids[k]);
            assert(opened[i][j].valid() && opened[i][k].valid());
            lemma_on_disk(disk.segs[ids[j]], segs[j]);
            lemma_on_disk(disk.segs[ids[k]], segs[k]);
            assert(agree(disk.segs[ids[j]].live(), segs[j].live(), id));
            assert(agree(disk.segs[ids[k]].live(), segs[k].live(), id));
            assert(disk.segs[ids[j]].live().contains_key(id));
        }
    }
    law_assembled_is_durable(
        db,
        bare,
        opened,
        (disk.manifest.last_flushed_lsn + 1) as u64,
    );
}

} // verus!
