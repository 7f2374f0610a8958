//! Opening a database that is stored in files.

use vstd::prelude::*;

use crate::engine::database::{coll_at, Database, DatabaseOptions, Step};
use crate::engine::disk::{new_files, on_disk, saves, Disk, StoredSegment};
use crate::engine::durable::{
    durable, has_num, has_seg, lemma_entry_stored, lemma_presence, opens, seg_number, tidy,
};
use crate::engine::format::{
    can_take, lemma_places_apart, log_bytes, log_whole, no_manifest, segment_said, Format,
};
use crate::engine::fresh::{below, fresh};
use crate::engine::job::reach;
use crate::engine::norms::{keeps_norms, lemma_assembled_normed, stores_norms};
use crate::engine::open::{
    all_opened, assembled, comes_from, last_named, law_assembled_is_stored, lemma_last_named,
    misfits, opened_from,
};
use crate::engine::outcome::{law_replay_settles, orderly, replayed, settled_kept};
use crate::engine::plan::buildable;
use crate::engine::read::rows_in;
use crate::engine::recover::{
    all_old, can_recover, can_replay, is_missing, lemma_later, next_number, ready, stopped_at,
};
use crate::engine::renew::numbers;
use crate::engine::room::{
    laid_out, lemma_room_files, lemma_root_places, roomy, standing, well_placed,
};
use crate::engine::sweep::{
    lemma_clears_step, lemma_standing_fewer, listed, matched, standing_all, sweeps, swept,
};
use crate::engine::size::{enlisted, has_space, lemma_buildable_less, lemma_enlisted, spacious};
use crate::engine::tally::{all_hold, points_from, segs_within};
use crate::engine::tidy::{lemma_assembled_ready, lemma_has, lemma_linked, linked};
use crate::error::{Error, Invalid};
use crate::id::ExternalId;
use crate::json::Json;
use crate::kernel::{Kernel, Metric};
use crate::index::hnsw::image::{image_of, law_same_file_same_graph};
use crate::manifest::{
    entry_at, lemma_entry_from, names_differ, references, EntryView, Manifest, ManifestView,
};
use crate::segment::files::{
    all_readable, file_at, files_at, lemma_found_files, lemma_same_parts, part_path,
    read_segment_files, same_parts, Part, SegmentFiles,
};
use crate::segment::immutable::{parts_fault, ImmutableSegment, SegmentParts};
use crate::segment::indexed;
use crate::storage::layout::{
    gc_orphan_segments, in_segment_dir, is_orphaned, law_segment_names, log_place, make_directories,
    manifest_place, open_log, read_manifest, seg_name, seg_path, segment_dir,
};
use crate::storage::path::{beneath, FsPath};
use crate::storage::{is_readable, DirSet, FileMap, Fs};
use crate::wal::{
    highest, law_cut_log_is_whole, lemma_highest, log_from, next_after, record_views, RecordView,
    Wal, WalRecord,
};
use crate::VERSION;

verus! {

/// Whether all files are small enough to be held in memory.
pub open spec fn all_small(files: FileMap) -> bool {
    forall|p: Seq<Seq<char>>| #[trigger] files.contains_key(p) ==> files[p].len() <= usize::MAX
}

/// What is above the directory of the segments is neither the manifest nor the log, nor in the
/// directory of a segment.
proof fn lemma_above_segments(root: Seq<Seq<char>>, p: Seq<Seq<char>>)
    requires
        beneath(root.push("segments"@), p),
    ensures
        p != manifest_place(root),
        p != log_place(root),
        forall|id: u64, part: Part| p != #[trigger] part_path(root, id, part),
{
    let dir = root.push("segments"@);
    lemma_places_apart(root, 0);
    reveal_strlit("segments");
    reveal_strlit("wal.log");
    if p.len() == dir.len() {
        assert(p =~= dir);
        assert(dir.last() == "segments"@);
        assert(log_place(root).last() == "wal.log"@);
        assert(manifest_place(root).last() != "segments"@) by {
            lemma_manifest_name(root);
        }
    }
}

/// The manifest is not called as the directory of the segments.
proof fn lemma_manifest_name(root: Seq<Seq<char>>)
    ensures
        manifest_place(root).last() != "segments"@,
        manifest_place(root).len() == root.len() + 1,
{
    reveal_strlit("segments");
    reveal_strlit("manifest");
    reveal_strlit("json");
    lemma_places_apart(root, 0);
    assert(root.push("manifest"@).last() == "manifest"@);
    let name = manifest_place(root).last();
    assert(name.last() == 'n');
}

impl<E, D, ME, MD, SE, SD, OE> Format<E, D, ME, MD, SE, SD, OE> where
    E: Fn(&WalRecord) -> Result<Vec<u8>, String>,
    D: Fn(&[u8]) -> Result<WalRecord, String>,
    ME: Fn(&Manifest) -> Result<Vec<u8>, String>,
    MD: Fn(&[u8]) -> Result<Manifest, String>,
    SE: Fn(&SegmentParts) -> Result<SegmentFiles, String>,
    SD: Fn(&SegmentFiles) -> Result<SegmentParts, Error>,
    OE: Fn(&Vec<(ExternalId, Option<Json>)>) -> Result<Vec<Vec<u8>>, String>,
 {
    /// Whether a segment is the one that some files say.
    pub open spec fn told(
        &self,
        files: FileMap,
        root: Seq<Seq<char>>,
        id: u64,
        seg: ImmutableSegment,
    ) -> bool {
        &&& seg.valid()
        &&& seg.number() == id
        &&& self.segment_at(files, root, id) is Some
        &&& on_disk(self.segment_at(files, root, id)->0, seg)
    }

    /// Whether the files of a segment can be read, and say a segment of a dimension that is
    /// valid.
    pub open spec fn loads(
        &self,
        files: FileMap,
        dirs: DirSet,
        root: Seq<Seq<char>>,
        id: u64,
        dim: usize,
    ) -> bool {
        &&& all_readable(files, dirs, root, id)
        &&& forall|a: &SegmentFiles, x: Result<SegmentParts, Error>|
            Some(a@) == files_at(files, root, id) && #[trigger] call_ensures(
                self.segment_of,
                (a,),
                x,
            ) ==> x is Ok && parts_fault(id, x->Ok_0) is None && x->Ok_0.meta.dim == dim && forall|
                s: ImmutableSegment,
            | #[trigger] s.holds(x->Ok_0) ==> s.valid()
    }

    /// Whether everything that a database consists of can be read.
    pub open spec fn all_load(
        &self,
        files: FileMap,
        dirs: DirSet,
        root: Seq<Seq<char>>,
    ) -> bool {
        &&& laid_out(files, dirs, root)
        &&& self.manifest_at(files, root) matches Some(m) && {
            &&& m.version <= VERSION
            &&& m.last_flushed_lsn < u64::MAX
            &&& !references(m.entries, u64::MAX)
            &&& names_differ(m.entries)
            &&& forall|i: int, j: int| #[trigger]
                has_num(m.entries, i, j) ==> self.loads(
                    files,
                    dirs,
                    root,
                    m.entries[i].segments[j],
                    m.entries[i].config.dim,
                )
        }
    }

    /// Whether nothing stands in the way of opening a database whose files hold what is stored:
    /// it hangs together, every record of the log finds its collection, there are not too many
    /// rows for what the log adds, and numbers are left for the segments that are rebuilt, where
    /// no collection has more than `segs`.
    pub open spec fn can_open(
        &self,
        files: FileMap,
        root: Seq<Seq<char>>,
        disk: Disk,
        segs: nat,
    ) -> bool {
        let entries = disk.manifest.entries;
        let more = points_from(disk.log, 0);
        &&& self.holds(
            files,
            root,
            log_from(self.records, log_bytes(files, root), 0).end,
            disk,
        )
        &&& tidy(disk)
        &&& opens(disk)
        &&& none_last(disk.log)
        &&& all_hold(disk.log, more)
        &&& forall|i: int| 0 <= i < entries.len() ==> has_space_stored(disk, #[trigger] entries[i], more)
            && entries[i].segments.len() <= segs
        &&& forall|id: u64| #[trigger]
            references(entries, id) ==> id + 1 + disk.log.len() * segs < u64::MAX
        &&& 1 + disk.log.len() * segs < u64::MAX
    }

    /// The files of a segment that is stored as it is in memory can be read.
    proof fn lemma_loads(
        &self,
        files: FileMap,
        dirs: DirSet,
        root: Seq<Seq<char>>,
        n: int,
        disk: Disk,
        seg: ImmutableSegment,
        dim: usize,
    )
        requires
            self.valid(),
            self.holds(files, root, n, disk),
            laid_out(files, dirs, root),
            disk.segs.contains_key(seg.number()),
            on_disk(disk.segs[seg.number()], seg),
            seg.valid(),
            seg.store().dim == dim,
            seg.graph() matches Some(g) ==> saves(g),
        ensures
            self.loads(files, dirs, root, seg.number(), dim),
    {
        let id = seg.number();
        let v = disk.segs[id];
        self.lemma_segment_held(files, root, n, disk, id);
        let segments = root.push("segments"@);
        assert forall|p: Part| !dirs.contains(#[trigger] part_path(root, id, p)) by {
            let path = part_path(root, id, p);
            assert(path.take(segments.len() as int) =~= segments);
            assert(path.len() == segments.len() + 2);
        }
        assert(!dirs.contains(part_path(root, id, Part::Dels)));
        assert(!dirs.contains(part_path(root, id, Part::Overlay)));
        assert(!dirs.contains(part_path(root, id, Part::Index)));
        assert forall|a: &SegmentFiles, x: Result<SegmentParts, Error>|
            Some(a@) == files_at(files, root, id) && #[trigger] call_ensures(
                self.segment_of,
                (a,),
                x,
            ) implies x is Ok && parts_fault(id, x->Ok_0) is None && x->Ok_0.meta.dim == dim
            && forall|s: ImmutableSegment| #[trigger] s.holds(x->Ok_0) ==> s.valid() by {
            assert(self.may_tell(a@, segment_said(x)));
            assert(self.may_tell(a@, self.segment_in(a@)));
            assert(segment_said(x) == self.segment_in(a@));
            let parts = x->Ok_0;
            assert(new_files(parts) == v);
            assert forall|s: ImmutableSegment| #[trigger] s.holds(parts) implies s.valid() by {
                lemma_loaded_valid(v, seg, parts, s);
            }
        }
    }

    /// Where everything that a database keeps is stored, everything can be read: what is left to
    /// open it again are the limits of numbers and rows.
    pub proof fn law_stored_files_load(
        &self,
        files: FileMap,
        dirs: DirSet,
        root: Seq<Seq<char>>,
        n: int,
        db: Database,
        next_lsn: u64,
    )
        requires
            self.valid(),
            self.safe(files, root, n, db, next_lsn),
            laid_out(files, dirs, root),
            forall|i: int, j: int| #[trigger]
                has_seg(db, i, j) ==> (db.collections@[i].view.immutables@[j].graph() matches Some(
                    g,
                ) ==> saves(g)),
        ensures
            self.all_load(files, dirs, root),
    {
        let disk = choose|disk: Disk| #[trigger]
            self.holds(files, root, n, disk) && durable(db, disk, next_lsn);
        let m = disk.manifest;
        assert(self.manifest_at(files, root) == Some(m));
        assert forall|i: int, j: int| #[trigger] has_num(m.entries, i, j) implies self.loads(
            files,
            dirs,
            root,
            m.entries[i].segments[j],
            m.entries[i].config.dim,
        ) && m.entries[i].segments[j] < u64::MAX by {
            lemma_entry_stored(db, disk, i);
            let at = coll_at(db.collections@, m.entries[i].name);
            let c = db.collections@[at];
            let seg = c.view.immutables@[j];
            assert(has_seg(db, at, j));
            assert(seg_number(db, at, j) < db.next_seg_id);
            assert(c.valid());
            assert(seg.valid() && seg.width() == c.view.width());
            assert(m.entries[i].segments[j] == seg.number());
            let e = entry_at(m.entries, c.name@);
            lemma_entry_from(m.entries, c.name@, 0);
            if e < i {
                assert(m.entries[e].name != m.entries[i].name);
            }
            assert(e == i);
            self.lemma_loads(files, dirs, root, n, disk, seg, m.entries[i].config.dim);
        }
        if references(m.entries, u64::MAX) {
            let i = choose|i: int|
                0 <= i < m.entries.len() && (#[trigger] m.entries[i]).segments.contains(u64::MAX);
            let j = choose|j: int|
                0 <= j < m.entries[i].segments.len() && m.entries[i].segments[j] == u64::MAX;
            assert(has_num(m.entries, i, j));
        }
    }

    /// Where everything that a database keeps is stored, nothing stands in the way of opening it
    /// again, within the limits of numbers and rows.
    pub proof fn law_stored_can_be_opened(
        &self,
        files: FileMap,
        root: Seq<Seq<char>>,
        wal: Wal,
        db: Database,
        disk: Disk,
        segs: nat,
    )
        requires
            self.holds(files, root, wal.at() as int, disk),
            durable(db, disk, wal.next()),
            log_whole(files, root, wal),
            spacious(db, points_from(disk.log, 0)),
            all_hold(disk.log, points_from(disk.log, 0)),
            segs_within(db, segs),
            db.next_seg_id + 1 + disk.log.len() * segs < u64::MAX,
        ensures
            self.can_open(files, root, disk, segs),
    {
        let entries = disk.manifest.entries;
        let more = points_from(disk.log, 0);
        let n = wal.at() as int;
        assert(log_bytes(files, root).take(n) =~= log_bytes(files, root));
        assert forall|i: int| 0 <= i < entries.len() implies has_space_stored(
            disk,
            #[trigger] entries[i],
            more,
        ) && entries[i].segments.len() <= segs by {
            lemma_entry_stored(db, disk, i);
            let at = coll_at(db.collections@, entries[i].name);
            let c = db.collections@[at];
            let list = c.view.immutables@;
            assert(c.valid());
            assert(has_space(c, more));
            assert forall|j: int| 0 <= j < list.len() implies (#[trigger] list[j]).valid()
                && on_disk(disk.segs[list[j].number()], list[j]) by {}
            lemma_rows_stored(disk, list);
            let e = entry_at(entries, c.name@);
            lemma_entry_from(entries, c.name@, 0);
            if e < i {
                assert(entries[e].name != entries[i].name);
            }
            assert(e == i);
            lemma_buildable_less(
                c.config,
                rows_stored(disk, entries[i].segments) + more,
                c.view.rows_total() + more,
            );
        }
        assert forall|id: u64| #[trigger] references(entries, id) implies id + 1 + disk.log.len()
            * segs < u64::MAX by {
            let i = choose|i: int|
                0 <= i < entries.len() && (#[trigger] entries[i]).segments.contains(id);
            let j = choose|j: int| 0 <= j < entries[i].segments.len() && entries[i].segments[j]
                == id;
            lemma_entry_stored(db, disk, i);
            let at = coll_at(db.collections@, entries[i].name);
            assert(has_seg(db, at, j));
            assert(seg_number(db, at, j) == id);
        }
    }

    /// Why opening a segment may fail: its files cannot be read, or not be understood, or do not
    /// fit together, or no writer could have left them behind.
    pub open spec fn segment_fails(
        &self,
        files: FileMap,
        root: Seq<Seq<char>>,
        id: u64,
        e: Error,
    ) -> bool {
        ||| e is Io
        ||| exists|a: &SegmentFiles|
            Some(a@) == files_at(files, root, id) && #[trigger] call_ensures(
                self.segment_of,
                (a,),
                Err::<SegmentParts, Error>(e),
            )
        ||| exists|a: &SegmentFiles, p: SegmentParts|
            Some(a@) == files_at(files, root, id) && #[trigger] call_ensures(
                self.segment_of,
                (a,),
                Ok::<SegmentParts, Error>(p),
            ) && match parts_fault(id, p) {
                Some(f) => e == Error::Invalid(f),
                None => e == Error::Invalid(Invalid::SegmentDamaged(id)) && exists|
                    s: ImmutableSegment,
                | #[trigger] s.holds(p) && !s.valid(),
            }
    }

    /// Why opening a database may fail: storage fails, the manifest cannot be understood or is of
    /// a later version, numbers are used up, a segment cannot be opened or has another dimension
    /// than its collection, replaying the log stops, or something cannot be turned into bytes.
    pub open spec fn open_fails(&self, files: FileMap, root: Seq<Seq<char>>, e: Error) -> bool {
        let log = log_from(self.records, log_bytes(files, root), 0).records;
        ||| e is Io
        ||| match self.manifest_at(files, root) {
            None => e is Serde,
            Some(m) => {
                ||| m.version > VERSION && e == Error::Invalid(Invalid::ManifestVersion(m.version))
                ||| e == Error::Invalid(Invalid::NumbersUsedUp) && (m.last_flushed_lsn == u64::MAX
                    || references(m.entries, u64::MAX) || !none_last(log))
                ||| exists|i: int, j: int| #[trigger]
                    has_num(m.entries, i, j) && self.segment_fails(
                        files,
                        root,
                        m.entries[i].segments[j],
                        e,
                    )
                ||| e matches Error::DimensionMismatch { expected, got } && exists|i: int, j: int|
                    #[trigger] has_num(m.entries, i, j) && expected == m.entries[i].config.dim
                        && expected != got
            },
        }
        ||| e matches Error::Serde(text) && exists|step: Step| #[trigger]
            self.cannot_encode(step, text)
        ||| exists|db: Database, records: Seq<WalRecord>, n: int| #[trigger]
            stopped_at(db, records, n, e) && record_views(records) == log
    }

    /// Opens a segment. One that no writer could have left behind is refused.
    pub fn open_segment<F: Fs>(&self, fs: &mut F, root: &FsPath, id: u64) -> (r: Result<
        ImmutableSegment,
        Error,
    >)
        requires
            old(fs).sound(),
            self.valid(),
            all_small(old(fs).files()),
        ensures
            final(fs).sound(),
            final(fs).files() == old(fs).files(),
            final(fs).dirs() == old(fs).dirs(),
            r matches Ok(seg) ==> self.told(old(fs).files(), root@, id, seg),
            old(fs).reliable() ==> final(fs).reliable(),
            old(fs).reliable() ==> forall|dim: usize| #[trigger]
                self.loads(old(fs).files(), old(fs).dirs(), root@, id, dim) ==> r is Ok
                    && r->Ok_0.width() == dim,
            r matches Err(e) ==> self.segment_fails(old(fs).files(), root@, id, e),
    {
        let f = match read_segment_files(fs, root, id) {
            Ok(f) => f,
            Err(e) => {
                return Err(e);
            },
        };
        proof {
            lemma_found_files(f, fs.files(), fs.dirs(), root@, id);
            law_segment_names(id, no_manifest());
        }
        let told = (self.segment_of)(&f);
        assert(self.may_tell(f@, segment_said(told)));
        assert(segment_said(told) == self.segment_in(f@));
        assert(Some(f@) == files_at(fs.files(), root@, id));
        let parts = match told {
            Ok(p) => p,
            Err(e) => {
                assert(call_ensures(self.segment_of, (&f,), Err::<SegmentParts, Error>(e)));
                return Err(e);
            },
        };
        let ghost p = parts;
        assert(call_ensures(self.segment_of, (&f,), Ok::<SegmentParts, Error>(p)));
        let seg = match ImmutableSegment::open(&segment_dir(root, id), parts) {
            Ok(s) => s,
            Err(e) => {
                return Err(e);
            },
        };
        assert(seg.holds(p));
        if !seg.is_valid() {
            return Err(Error::Invalid(Invalid::SegmentDamaged(id)));
        }
        Ok(seg)
    }

    /// Opens the segments of all entries of a manifest.
    pub fn open_segments<F: Fs>(&self, fs: &mut F, root: &FsPath, manifest: &Manifest) -> (r: Result<
        Vec<Vec<ImmutableSegment>>,
        Error,
    >)
        requires
            old(fs).sound(),
            self.valid(),
            all_small(old(fs).files()),
        ensures
            final(fs).sound(),
            final(fs).files() == old(fs).files(),
            final(fs).dirs() == old(fs).dirs(),
            r matches Ok(v) ==> self.all_told(old(fs).files(), root@, manifest@, all_opened(v@)),
            old(fs).reliable() ==> final(fs).reliable(),
            old(fs).reliable() && (forall|i: int, j: int| #[trigger]
                has_num(manifest@.entries, i, j) ==> self.loads(
                    old(fs).files(),
                    old(fs).dirs(),
                    root@,
                    manifest@.entries[i].segments[j],
                    manifest@.entries[i].config.dim,
                )) ==> r is Ok && (forall|i: int, j: int| #[trigger]
                has_num(manifest@.entries, i, j) ==> all_opened(r->Ok_0@)[i][j].width()
                    == manifest@.entries[i].config.dim),
            r matches Err(e) ==> exists|i: int, j: int| #[trigger]
                has_num(manifest@.entries, i, j) && self.segment_fails(
                    old(fs).files(),
                    root@,
                    manifest@.entries[i].segments[j],
                    e,
                ),
    {
        let ghost files = fs.files();
        let ghost dirs = fs.dirs();
        let ghost entries = manifest@.entries;
        let ghost well = fs.reliable() && (forall|i: int, j: int| #[trigger]
            has_num(entries, i, j) ==> self.loads(
                files,
                dirs,
                root@,
                entries[i].segments[j],
                entries[i].config.dim,
            ));
        let mut all: Vec<Vec<ImmutableSegment>> = Vec::new();
        let mut i: usize = 0;
        while i < manifest.collections.len()
            invariant
                fs.sound(),
                self.valid(),
                all_small(files),
                fs.files() == files,
                fs.dirs() == dirs,
                files == old(fs).files(),
                dirs == old(fs).dirs(),
                old(fs).reliable() ==> fs.reliable(),
                entries == manifest@.entries,
                i <= manifest.collections@.len(),
                all@.len() == i,
                well == (old(fs).reliable() && (forall|i: int, j: int| #[trigger]
                    has_num(entries, i, j) ==> self.loads(
                        files,
                        dirs,
                        root@,
                        entries[i].segments[j],
                        entries[i].config.dim,
                    ))),
                forall|x: int|
                    0 <= x < i ==> (#[trigger] all@[x])@.len() == entries[x].segments.len(),
                forall|x: int, y: int|
                    0 <= x < i && 0 <= y < entries[x].segments.len() ==> self.told(
                        files,
                        root@,
                        entries[x].segments[y],
                        #[trigger] all@[x]@[y],
                    ) && (well ==> all@[x]@[y].width() == entries[x].config.dim),
            decreases manifest.collections.len() - i,
        {
            let ids = &manifest.collections[i].segments;
            assert(entries[i as int].segments == ids@);
            let mut list: Vec<ImmutableSegment> = Vec::new();
            let mut j: usize = 0;
            while j < ids.len()
                invariant
                    fs.sound(),
                    self.valid(),
                    all_small(files),
                    fs.files() == files,
                    fs.dirs() == dirs,
                    files == old(fs).files(),
                    dirs == old(fs).dirs(),
                    old(fs).reliable() ==> fs.reliable(),
                    entries == manifest@.entries,
                    i < entries.len(),
                    entries[i as int].segments == ids@,
                    j <= ids@.len(),
                    list@.len() == j,
                    well == (old(fs).reliable() && (forall|i: int, j: int| #[trigger]
                        has_num(entries, i, j) ==> self.loads(
                            files,
                            dirs,
                            root@,
                            entries[i].segments[j],
                            entries[i].config.dim,
                        ))),
                    forall|y: int|
                        0 <= y < j ==> self.told(files, root@, ids@[y], #[trigger] list@[y]) && (
                        well ==> list@[y].width() == entries[i as int].config.dim),
                decreases ids.len() - j,
            {
                assert(has_num(entries, i as int, j as int));
                match self.open_segment(fs, root, ids[j]) {
                    Ok(s) => {
                        list.push(s);
                    },
                    Err(e) => {
                        return Err(e);
                    },
                }
                j = j + 1;
            }
            all.push(list);
            i = i + 1;
        }
        proof {
            let opened = all_opened(all@);
            assert forall|x: int, y: int| #[trigger] has_num(entries, x, y) implies self.told(
                files,
                root@,
                entries[x].segments[y],
                opened[x][y],
            ) && (well ==> opened[x][y].width() == entries[x].config.dim) by {
                assert(opened[x][y] == all@[x]@[y]);
            }
            assert forall|x: int| 0 <= x < opened.len() implies (#[trigger] opened[x]).len()
                == entries[x].segments.len() by {
                assert(all@[x]@.len() == entries[x].segments.len());
            }
        }
        Ok(all)
    }

    /// Whether the segments of all entries of a manifest are those that some files say.
    pub open spec fn all_told(
        &self,
        files: FileMap,
        root: Seq<Seq<char>>,
        m: ManifestView,
        opened: Seq<Seq<ImmutableSegment>>,
    ) -> bool {
        &&& opened.len() == m.entries.len()
        &&& forall|i: int|
            0 <= i < opened.len() ==> (#[trigger] opened[i]).len() == m.entries[i].segments.len()
        &&& forall|i: int, j: int| #[trigger]
            has_num(m.entries, i, j) ==> self.told(
                files,
                root,
                m.entries[i].segments[j],
                opened[i][j],
            )
    }

    /// The manifest that some files say: one of no collections where it is not there.
    pub fn load_manifest<F: Fs>(&self, fs: &mut F, root: &FsPath) -> (r: Result<Manifest, Error>)
        requires
            old(fs).sound(),
            self.valid(),
            all_small(old(fs).files()),
        ensures
            final(fs).sound(),
            final(fs).files() == old(fs).files(),
            final(fs).dirs() == old(fs).dirs(),
            old(fs).reliable() ==> final(fs).reliable(),
            match r {
                Ok(m) => self.manifest_at(old(fs).files(), root@) == Some(m@) && m.version
                    <= VERSION,
                Err(e) => match self.manifest_at(old(fs).files(), root@) {
                    None => e is Io || e is Serde,
                    Some(m) => e == Error::Invalid(Invalid::ManifestVersion(m.version)) && m.version
                        > VERSION || e is Io && !(old(fs).reliable() && is_readable(
                        old(fs).files(),
                        old(fs).dirs(),
                        manifest_place(root@),
                    )),
                },
            },
    {
        match read_manifest(fs, root) {
            Err(e) => Err(e),
            Ok(None) => Ok(Manifest::default()),
            Ok(Some(b)) => match self.read_manifest(b.as_slice()) {
                Err(e) => Err(Error::Serde(e)),
                Ok(m) => Manifest::load(m),
            },
        }
    }

    /// Performs some steps, one after the other.
    pub fn perform_all<F: Fs>(
        &self,
        fs: &mut F,
        root: &FsPath,
        wal: &mut Wal,
        steps: &Vec<Step>,
    ) -> (r: Result<(), Error>)
        requires
            old(fs).sound(),
            self.valid(),
        ensures
            final(fs).sound(),
            final(wal).next() == old(wal).next(),
            r is Ok && log_whole(old(fs).files(), root@, *old(wal)) ==> log_whole(
                final(fs).files(),
                root@,
                *final(wal),
            ),
            old(fs).reliable() ==> final(fs).reliable(),
            r matches Err(e) ==> (e is Io || (e matches Error::Serde(text) && exists|step: Step|
                #[trigger] self.cannot_encode(step, text))) && steps@.len() > 0,
            self.faithful() && old(fs).reliable() && roomy(
                old(fs).files(),
                old(fs).dirs(),
                root@,
            ) ==> forall|disk: Disk| #[trigger]
                self.holds(old(fs).files(), root@, old(wal).at() as int, disk) && fresh(
                    disk,
                    steps@,
                    0,
                ) ==> (r is Ok || r->Err_0 is Serde) && roomy(
                    final(fs).files(),
                    final(fs).dirs(),
                    root@,
                ) && (r is Ok ==> standing(final(fs).dirs(), root@) == standing_all(
                    standing(old(fs).dirs(), root@),
                    steps@,
                )),
            self.faithful() ==> forall|disk: Disk| #[trigger]
                self.holds(old(fs).files(), root@, old(wal).at() as int, disk) && fresh(
                    disk,
                    steps@,
                    0,
                ) ==> match r {
                    Ok(_) => self.holds(
                        final(fs).files(),
                        root@,
                        final(wal).at() as int,
                        disk.performed_all(steps@),
                    ),
                    Err(_) => exists|k: int|
                        0 <= k <= steps@.len() && self.holds(
                            final(fs).files(),
                            root@,
                            final(wal).at() as int,
                            #[trigger] reach(disk, steps@, k),
                        ),
                },
    {
        let ghost a = fs.files();
        let ghost n = wal.at() as int;
        let ghost able = self.faithful() && fs.reliable() && roomy(a, fs.dirs(), root@)
            && exists|disk: Disk| #[trigger]
            self.holds(a, root@, n, disk) && fresh(disk, steps@, 0);
        let mut i: usize = 0;
        proof {
            assert(steps@.skip(0) =~= steps@);
            assert forall|disk: Disk| #[trigger] self.holds(a, root@, n, disk) implies self.holds(
                a,
                root@,
                n,
                reach(disk, steps@, 0),
            ) by {
                assert(steps@.take(0) =~= Seq::<Step>::empty());
            }
        }
        while i < steps.len()
            invariant
                fs.sound(),
                self.valid(),
                i <= steps@.len(),
                a == old(fs).files(),
                n == old(wal).at(),
                wal.next() == old(wal).next(),
                log_whole(old(fs).files(), root@, *old(wal)) ==> log_whole(fs.files(), root@, *wal),
                old(fs).reliable() ==> fs.reliable(),
                able == (self.faithful() && old(fs).reliable() && roomy(
                    a,
                    old(fs).dirs(),
                    root@,
                ) && exists|disk: Disk| #[trigger]
                    self.holds(a, root@, n, disk) && fresh(disk, steps@, 0)),
                able ==> roomy(fs.files(), fs.dirs(), root@),
                able ==> standing_all(standing(fs.dirs(), root@), steps@.skip(i as int))
                    == standing_all(standing(old(fs).dirs(), root@), steps@),
                self.faithful() ==> forall|disk: Disk| #[trigger]
                    self.holds(a, root@, n, disk) && fresh(disk, steps@, 0) ==> self.holds(
                        fs.files(),
                        root@,
                        wal.at() as int,
                        reach(disk, steps@, i as int),
                    ),
            decreases steps.len() - i,
        {
            let ghost b = fs.files();
            let ghost m = wal.at() as int;
            proof {
                if able {
                    let disk = choose|disk: Disk| #[trigger]
                        self.holds(a, root@, n, disk) && fresh(disk, steps@, 0);
                    let now = reach(disk, steps@, i as int);
                    assert(self.holds(b, root@, m, now));
                    assert(can_take(now, steps@[i as int]));
                    self.lemma_at_home(b, fs.dirs(), root@, m, now, steps@[i as int]);
                }
            }
            let ghost ids = standing(fs.dirs(), root@);
            let r = self.perform(fs, root, wal, &steps[i]);
            proof {
                let step = steps@[i as int];
                lemma_clears_step(ids, steps@, i as int);
                if r is Err && r->Err_0 is Serde {
                    assert(self.cannot_encode(step, r->Err_0->Serde_0));
                }
                assert forall|disk: Disk| #[trigger]
                    self.holds(a, root@, n, disk) && fresh(disk, steps@, 0)
                        && self.faithful() implies (if r is Ok {
                    self.holds(fs.files(), root@, wal.at() as int, reach(disk, steps@, i + 1))
                } else {
                    self.holds(fs.files(), root@, wal.at() as int, reach(disk, steps@, i as int))
                        || self.holds(
                        fs.files(),
                        root@,
                        wal.at() as int,
                        reach(disk, steps@, i + 1),
                    )
                }) by {
                    let now = reach(disk, steps@, i as int);
                    assert(self.holds(b, root@, m, now));
                    assert(can_take(now, step));
                    assert(steps@.take(i + 1).drop_last() =~= steps@.take(i as int));
                    assert(steps@.take(i + 1).last() == step);
                    assert(reach(disk, steps@, i + 1) == now.performed(step));
                }
            }
            match r {
                Ok(_) => {},
                Err(e) => {
                    return Err(e);
                },
            }
            i = i + 1;
        }
        assert(steps@.take(i as int) =~= steps@);
        assert(steps@.skip(i as int) =~= Seq::<Step>::empty());
        Ok(())
    }

    /// Removing what the manifest does not have leaves what it has.
    proof fn lemma_cleaned(
        &self,
        a: FileMap,
        b: FileMap,
        root: Seq<Seq<char>>,
        n: int,
        disk: Disk,
    )
        requires
            self.holds(a, root, n, disk),
            b.submap_of(a),
            forall|p: Seq<Seq<char>>| #[trigger]
                a.contains_key(p) && !is_orphaned(p, root, disk.manifest) ==> b.contains_key(p),
        ensures
            self.holds(b, root, n, linked(disk)),
    {
        lemma_places_apart(root, 0);
        let m = manifest_place(root);
        let l = log_place(root);
        assert(!is_orphaned(m, root, disk.manifest) && !is_orphaned(l, root, disk.manifest));
        assert(file_at(a, m) == file_at(b, m)) by {
            assert(b.contains_key(m) ==> a.contains_key(m));
        }
        assert(file_at(a, l) == file_at(b, l)) by {
            assert(b.contains_key(l) ==> a.contains_key(l));
        }
        self.lemma_log_whole(a, root, n, disk);
        assert forall|id: u64| #[trigger] linked(disk).segs.contains_key(id) implies same_parts(
            a,
            b,
            root,
            id,
        ) by {
            law_segment_names(id, disk.manifest);
            assert forall|p: Part|
                file_at(a, #[trigger] part_path(root, id, p)) == file_at(
                    b,
                    part_path(root, id, p),
                ) by {
                let path = part_path(root, id, p);
                let dir = root.push("segments"@);
                assert(path[dir.len() as int] == seg_name(id));
                assert(!is_orphaned(path, root, disk.manifest));
                assert(b.contains_key(path) ==> a.contains_key(path));
            }
        }
        self.lemma_still_holds(a, b, root, n, n, disk, linked(disk));
    }

    /// Segments that are those of some files were opened as they are stored.
    proof fn lemma_opened(
        &self,
        files: FileMap,
        root: Seq<Seq<char>>,
        n: int,
        disk: Disk,
        opened: Seq<Seq<ImmutableSegment>>,
    )
        requires
            self.holds(files, root, n, disk),
            tidy(disk),
            self.all_told(files, root, disk.manifest, opened),
        ensures
            opened_from(disk, opened),
            opened_from(linked(disk), opened),
    {
        let entries = disk.manifest.entries;
        assert forall|i: int| 0 <= i < opened.len() implies numbers(#[trigger] opened[i])
            == entries[i].segments by {
            assert(opened[i].len() == entries[i].segments.len());
            assert forall|j: int| 0 <= j < opened[i].len() implies #[trigger] numbers(opened[i])[j]
                == entries[i].segments[j] by {
                assert(has_num(entries, i, j));
            }
            assert(numbers(opened[i]) =~= entries[i].segments);
        }
        assert forall|i: int, j: int| 0 <= i < opened.len() && 0 <= j < opened[i].len() implies (
        #[trigger] opened[i][j]).valid() && linked(disk).segs.contains_key(opened[i][j].number())
            && disk.segs.contains_key(opened[i][j].number()) && on_disk(
            disk.segs[opened[i][j].number()],
            opened[i][j],
        ) by {
            assert(opened[i].len() == entries[i].segments.len());
            assert(has_num(entries, i, j));
            lemma_has(entries, i, j);
            self.lemma_segment_held(files, root, n, disk, entries[i].segments[j]);
        }
    }

    /// What a database that was opened has to do with what was stored.
    proof fn lemma_reopened(
        &self,
        a: FileMap,
        b: FileMap,
        root: Seq<Seq<char>>,
        n: int,
        disk: Disk,
        opened: Seq<Seq<ImmutableSegment>>,
        first: Database,
    )
        requires
            self.holds(a, root, n, disk),
            tidy(disk),
            disk.manifest.last_flushed_lsn < u64::MAX,
            none_last(disk.log),
            self.all_told(a, root, disk.manifest, opened),
            starts_as(first, disk.manifest, opened),
            b.submap_of(a),
            forall|p: Seq<Seq<char>>| #[trigger]
                a.contains_key(p) && !is_orphaned(p, root, disk.manifest) ==> b.contains_key(p),
        ensures
            self.holds(b, root, n, linked(disk)),
            ready(first, linked(disk), disk.log),
            below(linked(disk), first.next_seg_id),
            first.apart(),
            forall|name: Seq<char>| #[trigger]
                settled_kept(first.kept(name)) == settled_kept(disk.base(name)),
            opens(disk) ==> can_replay(first, disk.log, disk.manifest.last_flushed_lsn),
    {
        self.lemma_cleaned(a, b, root, n, disk);
        self.lemma_opened(a, root, n, disk, opened);
        lemma_linked(disk);
        lemma_assembled_ready(first, linked(disk), opened);
        assert forall|name: Seq<char>| #[trigger]
            settled_kept(first.kept(name)) == settled_kept(disk.base(name)) by {
            law_assembled_is_stored(disk, opened, name);
            assert(first.kept(name) == assembled(disk.manifest.entries, opened, name));
        }
        if opens(disk) {
            let floor = disk.manifest.last_flushed_lsn;
            assert forall|name: Seq<char>| #[trigger]
                orderly(first.kept(name), disk.log, floor, name) by {
                assert(settled_kept(first.kept(name)) == settled_kept(disk.base(name)));
                assert(orderly(disk.base(name), disk.log, floor, name));
                lemma_presence(disk.base(name), first.kept(name), disk.log, floor, name);
            }
        }
    }

    /// What a database that has replayed the log keeps, and that it is stored.
    proof fn lemma_replayed(
        &self,
        disk: Disk,
        first: Database,
        db: Database,
        steps: Seq<Step>,
        next: u64,
    )
        requires
            disk.manifest.last_flushed_lsn < u64::MAX,
            none_last(disk.log),
            first.manifest@ == disk.manifest,
            ready(first, linked(disk), disk.log),
            below(linked(disk), first.next_seg_id),
            forall|name: Seq<char>| #[trigger]
                settled_kept(first.kept(name)) == settled_kept(disk.base(name)),
            forall|name: Seq<char>| #[trigger]
                settled_kept(db.kept(name)) == settled_kept(
                    replayed(
                        first.kept(name),
                        disk.log,
                        disk.manifest.last_flushed_lsn,
                        name,
                    ),
                ),
            durable(
                db,
                linked(disk).performed_all(steps),
                next_number(disk.log, disk.log.len() as int, disk.manifest.last_flushed_lsn),
            ),
            next == next_after((disk.manifest.last_flushed_lsn + 1) as u64, disk.log),
        ensures
            durable(db, linked(disk).performed_all(steps), next),
            forall|name: Seq<char>| #[trigger]
                settled_kept(db.kept(name)) == settled_kept(disk.recovered(name)),
    {
        let floor = disk.manifest.last_flushed_lsn;
        let log = disk.log;
        lemma_highest(log);
        assert(highest(log) < u64::MAX) by {
            if highest(log) != 0 {
                let i = choose|i: int|
                    0 <= i < log.len() && (#[trigger] log[i]).lsn == highest(log);
                assert(log[i].lsn < u64::MAX);
            }
        }
        if log.len() > 0 {
            assert(log[log.len() - 1].lsn <= highest(log));
        }
        lemma_later(
            db,
            linked(disk).performed_all(steps),
            next_number(log, log.len() as int, floor),
            next,
        );
        assert forall|name: Seq<char>| #[trigger]
            settled_kept(db.kept(name)) == settled_kept(disk.recovered(name)) by {
            assert(settled_kept(first.kept(name)) == settled_kept(disk.base(name)));
            law_replay_settles(first.kept(name), disk.base(name), log, floor, name);
        }
    }

    /// What can be read can be read once the log was cut and the directories were made.
    proof fn lemma_still_loads(
        &self,
        a: FileMap,
        b: FileMap,
        before: DirSet,
        dirs: DirSet,
        root: Seq<Seq<char>>,
        id: u64,
        dim: usize,
    )
        requires
            self.loads(a, before, root, id, dim),
            b.remove(log_place(root)) == a.remove(log_place(root)),
            forall|p: Seq<Seq<char>>| #[trigger]
                dirs.contains(p) ==> before.contains(p) || beneath(root.push("segments"@), p),
        ensures
            self.loads(b, dirs, root, id, dim),
    {
        let l = log_place(root);
        lemma_places_apart(root, id);
        assert forall|p: Part|
            file_at(a, #[trigger] part_path(root, id, p)) == file_at(b, part_path(root, id, p)) && (
            dirs.contains(part_path(root, id, p)) ==> before.contains(part_path(root, id, p))) by {
            let path = part_path(root, id, p);
            assert(path.len() == root.len() + 3);
            assert(a.remove(l).contains_key(path) == b.remove(l).contains_key(path));
            if a.contains_key(path) {
                assert(a.remove(l)[path] == b.remove(l)[path]);
            }
            if beneath(root.push("segments"@), path) {
                lemma_above_segments(root, path);
            }
        }
        lemma_same_parts(a, b, root, id);
        assert forall|p: Part|
            a.contains_key(#[trigger] part_path(root, id, p)) == b.contains_key(
                part_path(root, id, p),
            ) by {
            assert(file_at(a, part_path(root, id, p)) == file_at(b, part_path(root, id, p)));
        }
    }

    /// Opens a database, and replays its log: makes the directories where they are not there,
    /// cuts off what is behind the whole frames of the log, removes what no manifest has, and
    /// stores what replaying the log led to. What it gives keeps what the files hold, and the
    /// files hold what it keeps.
    ///
    /// On reliable storage whose files can all be read this succeeds where nothing stands in the
    /// way of replaying the log, and where all records are in segments already. It never fails
    /// for want of a collection where the files hold what the steps of a database have left there.
    #[verifier::rlimit(40)]
    pub fn open_database<F: Fs, N, S>(
        &self,
        fs: &mut F,
        root: &FsPath,
        options: DatabaseOptions,
        kernel: &Kernel<N, S>,
    ) -> (r: Result<(Database, Wal), Error>) where
        N: Fn(&[u32]) -> u32,
        S: Fn(Metric, &[u32], u32, &[u32], u32) -> u32,

        requires
            old(fs).sound(),
            self.valid(),
            kernel.valid(),
            all_small(old(fs).files()),
        ensures
            final(fs).sound(),
            r matches Err(e) ==> self.open_fails(old(fs).files(), root@, e),
            old(fs).reliable() ==> final(fs).reliable(),
            ({
                let log = log_from(self.records, log_bytes(old(fs).files(), root@), 0);
                &&& r matches Ok((db, wal)) ==> {
                    let m = self.manifest_at(old(fs).files(), root@)->0;
                    &&& db.valid()
                    &&& db.options == options
                    &&& wal.next() > db.manifest@.last_flushed_lsn
                    &&& wal.next() == next_after((m.last_flushed_lsn + 1) as u64, log.records)
                    &&& all_old(log.records, m.last_flushed_lsn) ==> db.manifest@ == m
                        && is_next_number(m.entries, db.next_seg_id)
                    &&& db.recovery_clean == (log.fault is None)
                    &&& log_whole(final(fs).files(), root@, wal)
                    &&& self.faithful() ==> forall|disk: Disk| #[trigger]
                        self.holds(old(fs).files(), root@, log.end, disk) && tidy(disk)
                            ==> self.safe(final(fs).files(), root@, wal.at() as int, db, wal.next())
                            && (stores_norms(disk, *kernel) ==> keeps_norms(db, *kernel))
                            && forall|name: Seq<char>| #[trigger]
                            settled_kept(db.kept(name)) == settled_kept(disk.recovered(name))
                }
                &&& old(fs).reliable() && self.all_load(
                    old(fs).files(),
                    old(fs).dirs(),
                    root@,
                ) ==> {
                    &&& all_old(
                        log.records,
                        self.manifest_at(old(fs).files(), root@)->0.last_flushed_lsn,
                    ) ==> r is Ok
                    &&& self.faithful() ==> forall|disk: Disk, segs: nat| #[trigger]
                        self.can_open(old(fs).files(), root@, disk, segs) ==> (match r {
                            Ok((db, _)) => roomy(
                                final(fs).files(),
                                final(fs).dirs(),
                                root@,
                            ) && matched(final(fs).dirs(), root@, db.manifest@),
                            Err(e) => e matches Error::Serde(text) && exists|step: Step|
                                #[trigger] self.cannot_encode(step, text),
                        })
                    &&& forall|disk: Disk| #[trigger]
                        self.holds(old(fs).files(), root@, log.end, disk) && tidy(disk) && opens(
                            disk,
                        ) ==> !(r is Err && is_missing(r->Err_0))
                }
            }),
    {
        let ghost files = fs.files();
        let ghost dirs = fs.dirs();
        let ghost log = log_from(self.records, log_bytes(files, root@), 0);
        let ghost well = fs.reliable() && self.all_load(files, dirs, root@);
        let ghost m = self.manifest_at(files, root@)->0;
        match make_directories(fs, root) {
            Ok(_) => {},
            Err(e) => {
                return Err(e);
            },
        }
        let ghost made = fs.dirs();
        proof {
            lemma_above_places(root@, dirs, made);
            if well {
                lemma_room_made(files, dirs, made, root@);
                lemma_root_places(root@);
            }
        }
        let manifest = match self.load_manifest(fs, root) {
            Ok(m) => m,
            Err(e) => {
                return Err(e);
            },
        };
        if manifest.last_flushed_lsn == u64::MAX || manifest.references_segment(u64::MAX) {
            return Err(Error::Invalid(Invalid::NumbersUsedUp));
        }
        let ghost said = manifest@;
        let floor: u64 = manifest.last_flushed_lsn + 1;
        let backend = match open_log(fs, root) {
            Ok(b) => b,
            Err(e) => {
                return Err(e);
            },
        };
        let (mut wal, report) = match Wal::open(backend, floor, &self.records) {
            Ok(x) => x,
            Err(e) => {
                return Err(e);
            },
        };
        if has_last(&report.records) {
            proof {
                let all = record_views(report.records@);
                let x = choose|x: int| 0 <= x < all.len() && !((#[trigger] all[x]).lsn < u64::MAX);
                assert(all[x].lsn == u64::MAX);
                law_cut_log_is_whole(self.records, log_bytes(files, root@));
                assert forall|disk: Disk, segs: nat| !#[trigger] self.can_open(
                    files,
                    root@,
                    disk,
                    segs,
                ) by {
                    if self.can_open(files, root@, disk, segs) {
                        self.lemma_log_whole(files, root@, log.end, disk);
                        assert(disk.log == all);
                    }
                }
            }
            return Err(Error::Invalid(Invalid::NumbersUsedUp));
        }
        let ghost cut = fs.files();
        let ghost views = record_views(report.records@);
        proof {
            law_cut_log_is_whole(self.records, log_bytes(files, root@));
            assert(cut.remove(log_place(root@)) =~= files.remove(log_place(root@)));
            assert(log_bytes(cut, root@) =~= log_bytes(files, root@).take(log.end));
            assert(log_bytes(cut, root@).take(log.end) =~= log_bytes(files, root@).take(log.end));
            if well {
                assert forall|i: int, j: int| #[trigger] has_num(m.entries, i, j) implies self.loads(
                    cut,
                    made,
                    root@,
                    m.entries[i].segments[j],
                    m.entries[i].config.dim,
                ) by {
                    self.lemma_still_loads(
                        files,
                        cut,
                        dirs,
                        made,
                        root@,
                        m.entries[i].segments[j],
                        m.entries[i].config.dim,
                    );
                }
            }
        }
        let segments = match self.open_segments(fs, root, &manifest) {
            Ok(v) => v,
            Err(e) => {
                proof {
                    let (i, j) = choose|i: int, j: int| #[trigger]
                        has_num(said.entries, i, j) && self.segment_fails(
                            cut,
                            root@,
                            said.entries[i].segments[j],
                            e,
                        );
                    lemma_files_same(files, cut, root@, said.entries[i].segments[j]);
                    assert(self.segment_fails(files, root@, said.entries[i].segments[j], e));
                }
                return Err(e);
            },
        };
        let ghost opened = all_opened(segments@);
        proof {
            assert forall|i: int, j: int|
                0 <= i < segments@.len() && 0 <= j < segments@[i]@.len() implies (
            #[trigger] segments@[i]@[j]).valid() by {
                assert(opened[i].len() == said.entries[i].segments.len());
                assert(has_num(said.entries, i, j));
                assert(opened[i][j] == segments@[i]@[j]);
            }
        }
        let clean = report.corrupt_tail.is_none();
        let mut db = match Database::assemble(options, manifest, segments, clean) {
            Ok(d) => d,
            Err(e) => {
                proof {
                    let (i, j) = choose|i: int, j: int| #[trigger]
                        misfits(said.entries, opened, i, j) && e == (Error::DimensionMismatch {
                            expected: said.entries[i].config.dim,
                            got: opened[i][j].width() as usize,
                        });
                    assert(opened[i][j].width() == opened[i][j].store().dim);
                    assert(opened[i].len() == said.entries[i].segments.len());
                    assert(has_num(said.entries, i, j));
                }
                return Err(e);
            },
        };
        let ghost first = db;
        match gc_orphan_segments(fs, root, &db.manifest) {
            Ok(_) => {},
            Err(e) => {
                return Err(Error::Io(e));
            },
        }
        let ghost cleaned = fs.files();
        let ghost cleaned_dirs = fs.dirs();
        proof {
            if well {
                assert(well_placed(made, root@, log_place(root@)));
                lemma_room_files(files, cut, made, root@);
                lemma_room_swept(cut, made, cleaned, cleaned_dirs, root@, said);
                lemma_swept(cut, made, cleaned_dirs, root@, said);
            }
            assert forall|disk: Disk| #[trigger]
                self.holds(files, root@, log.end, disk) && tidy(disk) implies disk.manifest
                == said && disk.log == views && self.holds(cleaned, root@, log.end, linked(disk))
                && ready(first, linked(disk), views) && below(linked(disk), first.next_seg_id)
                && first.apart() && (opens(disk) ==> can_replay(
                first,
                views,
                said.last_flushed_lsn,
            )) by {
                self.lemma_log_whole(files, root@, log.end, disk);
                self.lemma_log_changed(files, cut, root@, log.end, log.end, disk, disk.log);
                assert(Disk { log: disk.log, ..disk } == disk);
                self.lemma_reopened(cut, cleaned, root@, log.end, disk, opened, first);
            }
        }
        proof {
            let l = log_place(root@);
            lemma_places_apart(root@, 0);
            assert(!is_orphaned(l, root@, said));
            assert(cut.contains_key(l) && cleaned.contains_key(l));
            assert(log_whole(cleaned, root@, wal));
        }
        let recovered = db.recover(&report.records, kernel);
        proof {
            if well && self.faithful() {
                assert forall|disk: Disk, segs: nat| #[trigger]
                    self.can_open(files, root@, disk, segs) implies recovered.stopped is None
                    && self.holds(cleaned, root@, log.end, linked(disk)) && fresh(
                    linked(disk),
                    recovered.steps@,
                    0,
                ) && sweeps(listed(first.manifest@), recovered.steps@, db.manifest@) by {
                    self.lemma_log_whole(files, root@, log.end, disk);
                    self.lemma_log_changed(files, cut, root@, log.end, log.end, disk, disk.log);
                    assert(Disk { log: disk.log, ..disk } == disk);
                    self.lemma_reopened(cut, cleaned, root@, log.end, disk, opened, first);
                    self.lemma_opened(cut, root@, log.end, disk, opened);
                    let floor = disk.manifest.last_flushed_lsn;
                    lemma_enlisted(
                        first,
                        Disk { log: Seq::empty(), ..linked(disk) },
                        (floor + 1) as u64,
                    );
                    lemma_can_recover(disk, first, opened, segs);
                    assert(ready(first, linked(disk), views));
                }
            }
        }
        proof {
            if well {
                lemma_standing_fewer(
                    standing(cleaned_dirs, root@),
                    listed(first.manifest@),
                    recovered.steps@,
                );
            }
        }
        match self.perform_all(fs, root, &mut wal, &recovered.steps) {
            Ok(_) => {},
            Err(e) => {
                return Err(e);
            },
        }
        if let Some(e) = recovered.stopped {
            proof {
                let k = recovered.replayed as int;
                if all_old(views, said.last_flushed_lsn) {
                    assert(k < views.len() ==> views[k].lsn <= said.last_flushed_lsn);
                    assert(k > 0 ==> views[k - 1].lsn <= said.last_flushed_lsn);
                }
                assert forall|disk: Disk| #[trigger]
                    self.holds(files, root@, log.end, disk) && tidy(disk) && opens(
                        disk,
                    ) implies !is_missing(e) by {
                    assert(can_replay(first, views, said.last_flushed_lsn));
                }
            }
            assert(stopped_at(db, report.records@, recovered.replayed as int, e));
            return Err(e);
        }
        proof {
            if self.faithful() {
                assert forall|disk: Disk| #[trigger]
                    self.holds(files, root@, log.end, disk) && tidy(disk) implies self.safe(
                    fs.files(),
                    root@,
                    wal.at() as int,
                    db,
                    wal.next(),
                ) && (stores_norms(disk, *kernel) ==> keeps_norms(db, *kernel)) && forall|
                    name: Seq<char>,
                | #[trigger]
                    settled_kept(db.kept(name)) == settled_kept(disk.recovered(name)) by {
                    self.lemma_log_whole(files, root@, log.end, disk);
                    self.lemma_log_changed(files, cut, root@, log.end, log.end, disk, disk.log);
                    assert(Disk { log: disk.log, ..disk } == disk);
                    self.lemma_reopened(cut, cleaned, root@, log.end, disk, opened, first);
                    self.lemma_opened(cut, root@, log.end, disk, opened);
                    if stores_norms(disk, *kernel) {
                        lemma_assembled_normed(first, disk, opened, *kernel);
                    }
                    self.lemma_replayed(disk, first, db, recovered.steps@, wal.next());
                    assert(self.holds(
                        fs.files(),
                        root@,
                        wal.at() as int,
                        linked(disk).performed_all(recovered.steps@),
                    ));
                }
                if well {
                    assert forall|disk: Disk, segs: nat| #[trigger]
                        self.can_open(files, root@, disk, segs) implies matched(
                        fs.dirs(),
                        root@,
                        db.manifest@,
                    ) by {
                        assert(swept(fs.dirs(), root@, db.manifest@));
                        self.law_directories_are_those_of_the_segments(
                            fs.files(),
                            fs.dirs(),
                            root@,
                            wal.at() as int,
                            db,
                            wal.next(),
                        );
                    }
                }
            }
        }
        Ok((db, wal))
    }
}

/// Cutting the log leaves the files of segments alone.
proof fn lemma_files_same(a: FileMap, b: FileMap, root: Seq<Seq<char>>, id: u64)
    requires
        b.remove(log_place(root)) == a.remove(log_place(root)),
    ensures
        files_at(a, root, id) == files_at(b, root, id),
{
    let l = log_place(root);
    lemma_places_apart(root, id);
    assert forall|p: Part|
        file_at(a, #[trigger] part_path(root, id, p)) == file_at(b, part_path(root, id, p)) by {
        let path = part_path(root, id, p);
        assert(path.len() == root.len() + 3);
        assert(a.remove(l).contains_key(path) == b.remove(l).contains_key(path));
        if a.contains_key(path) {
            assert(a.remove(l)[path] == b.remove(l)[path]);
        }
    }
    lemma_same_parts(a, b, root, id);
}

/// A segment that holds what is stored of a valid one is valid.
proof fn lemma_loaded_valid(
    v: StoredSegment,
    seg: ImmutableSegment,
    parts: SegmentParts,
    s: ImmutableSegment,
)
    requires
        on_disk(v, seg),
        seg.valid(),
        seg.graph() matches Some(g) ==> saves(g),
        new_files(parts) == v,
        s.holds(parts),
    ensures
        s.valid(),
{
    seg.lemma_valid();
    let rows = seg.store().rows();
    assert(s.store().rows() == rows);
    assert(indexed(rows, seg.index())) by {
        assert forall|i: int| 0 <= i < rows.len() implies (#[trigger] rows[i]).id
            == seg.rows()[i].id by {}
    }
    if let Some(g) = seg.graph() {
        let h = s.graph()->0;
        assert(image_of(g).upper.len() == image_of(h).upper.len());
        law_same_file_same_graph(g, h);
    }
    s.lemma_holds_valid(parts);
}

/// How many rows some segments have that are stored.
pub open spec fn rows_stored(disk: Disk, ids: Seq<u64>) -> nat
    decreases ids.len(),
{
    if ids.len() == 0 {
        0
    } else {
        rows_stored(disk, ids.drop_last()) + disk.segs[ids.last()].rows.len()
    }
}

/// Whether a collection that is stored has few enough rows, also with some more.
pub open spec fn has_space_stored(disk: Disk, e: EntryView, more: nat) -> bool {
    &&& rows_stored(disk, e.segments) + more <= u32::MAX
    &&& buildable(e.config, rows_stored(disk, e.segments) + more)
}

/// Segments have as many rows as are stored.
proof fn lemma_rows_stored(disk: Disk, segs: Seq<ImmutableSegment>)
    requires
        forall|j: int|
            0 <= j < segs.len() ==> (#[trigger] segs[j]).valid() && on_disk(
                disk.segs[segs[j].number()],
                segs[j],
            ),
    ensures
        rows_in(segs) == rows_stored(disk, numbers(segs)),
    decreases segs.len(),
{
    if segs.len() > 0 {
        let rest = segs.drop_last();
        let last = segs[segs.len() - 1];
        assert(last.valid());
        assert forall|j: int| 0 <= j < rest.len() implies (#[trigger] rest[j]).valid() && on_disk(
            disk.segs[rest[j].number()],
            rest[j],
        ) by {
            assert(segs[j].valid());
        }
        lemma_rows_stored(disk, rest);
        assert(numbers(segs).drop_last() =~= numbers(rest));
        last.lemma_valid();
        assert(disk.segs[last.number()].rows == last.store().rows());
    }
}

/// Nothing stands in the way of replaying the log of a database that can be opened.
proof fn lemma_can_recover(
    disk: Disk,
    db: Database,
    opened: Seq<Seq<ImmutableSegment>>,
    segs: nat,
)
    requires
        ({
            let entries = disk.manifest.entries;
            let more = points_from(disk.log, 0);
            &&& forall|i: int|
                0 <= i < entries.len() ==> has_space_stored(disk, #[trigger] entries[i], more)
                    && entries[i].segments.len() <= segs
            &&& forall|id: u64| #[trigger]
                references(entries, id) ==> id + 1 + disk.log.len() * segs < u64::MAX
            &&& 1 + disk.log.len() * segs < u64::MAX
            &&& all_hold(disk.log, more)
        }),
        db.apart(),
        enlisted(db),
        db.manifest@ == disk.manifest,
        can_replay(db, disk.log, disk.manifest.last_flushed_lsn),
        db.next_seg_id == 1 || references(disk.manifest.entries, (db.next_seg_id - 1) as u64),
        db.next_seg_id > 0,
        opened_from(disk, opened),
        forall|i: int|
            0 <= i < db.collections@.len() ==> comes_from(
                #[trigger] db.collections@[i],
                disk.manifest.entries,
                opened,
            ),
    ensures
        can_recover(db, disk.log, segs),
{
    let entries = disk.manifest.entries;
    let more = points_from(disk.log, 0);
    assert forall|i: int| 0 <= i < db.collections@.len() implies has_space(
        #[trigger] db.collections@[i],
        more,
    ) && db.collections@[i].view.immutables@.len() <= segs by {
        let c = db.collections@[i];
        assert(comes_from(c, entries, opened));
        let k = last_named(entries, c.name@);
        lemma_last_named(entries, c.name@);
        assert(has_space_stored(disk, entries[k], more));
        assert(numbers(opened[k]) == entries[k].segments);
        assert forall|j: int| 0 <= j < opened[k].len() implies (#[trigger] opened[k][j]).valid()
            && on_disk(disk.segs[opened[k][j].number()], opened[k][j]) by {}
        lemma_rows_stored(disk, opened[k]);
    }
    assert(segs_within(db, segs));
    if db.next_seg_id != 1 {
        assert(references(entries, (db.next_seg_id - 1) as u64));
    }
}

/// There is room once what no manifest has was removed.
proof fn lemma_room_swept(
    files: FileMap,
    dirs: DirSet,
    now: FileMap,
    now_dirs: DirSet,
    root: Seq<Seq<char>>,
    m: ManifestView,
)
    requires
        roomy(files, dirs, root),
        now.submap_of(files),
        now_dirs.subset_of(dirs),
        forall|p: Seq<Seq<char>>| #[trigger]
            dirs.contains(p) && !is_orphaned(p, root, m) ==> now_dirs.contains(p),
        forall|p: Seq<Seq<char>>| #[trigger]
            now.contains_key(p) && is_orphaned(p, root, m) ==> !in_segment_dir(p, root, files, dirs),
    ensures
        roomy(now, now_dirs, root),
{
    let segments = root.push("segments"@);
    let n = segments.len() as int;
    assert forall|p: Seq<Seq<char>>| #[trigger] now.contains_key(p) implies well_placed(
        now_dirs,
        root,
        p,
    ) by {
        assert(files.contains_key(p));
        if beneath(p, segments) {
            let q = p.drop_last();
            assert(dirs.contains(q));
            assert(q.take(n) =~= p.take(n));
            assert(beneath(q, segments));
            assert(q.len() == n + 1);
            assert(p.take(root.len() + 2int) =~= q);
            assert(q.take(n) == segments);
            if files.contains_key(q) {
                assert(well_placed(dirs, root, q));
            }
            assert(!is_orphaned(p, root, m));
            assert(!is_orphaned(q, root, m));
        }
    }
    assert(dirs.contains(root) && !is_orphaned(root, root, m));
    assert(dirs.contains(segments) && !is_orphaned(segments, root, m));
}

/// No segment has a directory that the manifest does not have once the others were removed.
proof fn lemma_swept(
    files: FileMap,
    dirs: DirSet,
    now_dirs: DirSet,
    root: Seq<Seq<char>>,
    m: ManifestView,
)
    requires
        forall|p: Seq<Seq<char>>| #[trigger]
            files.contains_key(p) ==> well_placed(dirs, root, p),
        now_dirs.subset_of(dirs),
        forall|p: Seq<Seq<char>>| #[trigger]
            now_dirs.contains(p) && is_orphaned(p, root, m) ==> !in_segment_dir(
                p,
                root,
                files,
                dirs,
            ),
    ensures
        swept(now_dirs, root, m),
{
    let segments = root.push("segments"@);
    assert forall|id: u64| #[trigger] standing(now_dirs, root).contains(id) implies listed(
        m,
    ).contains(id) by {
        let p = seg_path(root, id);
        law_segment_names(id, m);
        assert(now_dirs.contains(p));
        assert(p.take(segments.len() as int) =~= segments);
        assert(p.take(root.len() + 2int) =~= p);
        assert(p[segments.len() as int] == seg_name(id));
        if files.contains_key(p) {
            assert(well_placed(dirs, root, p));
        }
    }
}

/// There is room once the directories were made.
proof fn lemma_room_made(
    files: FileMap,
    dirs: DirSet,
    made: DirSet,
    root: Seq<Seq<char>>,
)
    requires
        laid_out(files, dirs, root),
        dirs.subset_of(made),
        made.contains(root),
        made.contains(root.push("segments"@)),
        forall|p: Seq<Seq<char>>| #[trigger]
            made.contains(p) ==> dirs.contains(p) || beneath(root.push("segments"@), p),
    ensures
        roomy(files, made, root),
{
    let segments = root.push("segments"@);
    lemma_root_places(root);
    assert forall|p: Seq<Seq<char>>| #[trigger] files.contains_key(p) implies well_placed(
        made,
        root,
        p,
    ) by {
        assert(well_placed(dirs, root, p));
    }
}

/// Whether no record has the last number that there is.
pub open spec fn none_last(records: Seq<RecordView>) -> bool {
    forall|i: int| 0 <= i < records.len() ==> (#[trigger] records[i]).lsn < u64::MAX
}

/// Whether a record has the last number that there is.
fn has_last(records: &Vec<WalRecord>) -> (r: bool)
    ensures
        r == !none_last(record_views(records@)),
{
    let ghost views = record_views(records@);
    let mut i: usize = 0;
    while i < records.len()
        invariant
            i <= records@.len(),
            views == record_views(records@),
            forall|x: int| 0 <= x < i ==> (#[trigger] views[x]).lsn < u64::MAX,
        decreases records.len() - i,
    {
        assert(views[i as int] == records@[i as int]@);
        if records[i].lsn == u64::MAX {
            return true;
        }
        i = i + 1;
    }
    false
}

/// Whether a number is the one after the highest number of a segment; it is 1 where there is no
/// segment.
pub open spec fn is_next_number(entries: Seq<EntryView>, next: u64) -> bool {
    &&& forall|id: u64| #[trigger] references(entries, id) ==> id < next
    &&& next == 1 || next > 0 && references(entries, (next - 1) as u64)
}

/// Whether a database was made of the segments of a manifest.
spec fn starts_as(
    db: Database,
    m: ManifestView,
    opened: Seq<Seq<ImmutableSegment>>,
) -> bool {
    &&& db.valid()
    &&& db.manifest@ == m
    &&& forall|id: u64| references(m.entries, id) ==> id < db.next_seg_id
    &&& forall|name: Seq<char>| #[trigger]
        db.kept(name) == assembled(m.entries, opened, name)
    &&& forall|i: int|
        0 <= i < db.collections@.len() ==> comes_from(
            #[trigger] db.collections@[i],
            m.entries,
            opened,
        )
}

/// Making the directories puts none in the place of the manifest or the log.
proof fn lemma_above_places(root: Seq<Seq<char>>, before: DirSet, after: DirSet)
    requires
        forall|p: Seq<Seq<char>>| #[trigger]
            after.contains(p) ==> before.contains(p) || beneath(root.push("segments"@), p),
    ensures
        after.contains(manifest_place(root)) ==> before.contains(manifest_place(root)),
        after.contains(log_place(root)) ==> before.contains(log_place(root)),
{
    if beneath(root.push("segments"@), manifest_place(root)) {
        lemma_above_segments(root, manifest_place(root));
    }
    if beneath(root.push("segments"@), log_place(root)) {
        lemma_above_segments(root, log_place(root));
    }
}

} // verus!
