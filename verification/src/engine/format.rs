//! What the files of a database say.
//!
//! A [`Format`] turns what is stored into bytes and back. [`Format::disk_of`] is what some
//! files say; [`Format::perform`] carries a step out on them.

use vstd::prelude::*;

use crate::bitmap::decoded_rows;
use crate::engine::database::Step;
use crate::engine::disk::{new_files, settled_op, settled_over, Disk, StoredSegment};
use crate::engine::room::{
    at_home, lemma_has_room, lemma_home, lemma_part_placed, lemma_room_files, lemma_room_published,
    lemma_room_removed, lemma_root_places, lemma_standing, roomy, standing, standing_after,
    well_placed,
};
use crate::error::Error;
use crate::id::ExternalId;
use crate::json::Json;
use crate::lines::{byte_views, joined, law_lines_round_trip, lines_of};
use crate::manifest::{EntryView, Manifest, ManifestView};
use crate::segment::files::{
    all_lines, file_at, files_at, lemma_found_files, lemma_parts_apart, lemma_same_parts,
    part_path, same_parts, write_part, write_part_lines, write_segment_files, FilesView,
    Part, SegmentFiles,
};
use crate::segment::immutable::SegmentParts;
use crate::segment::overlay::overlaid;
use crate::storage::layout::{
    log_place, manifest_place, only_files, open_log, seg_path, segment_dir, staging_dir, write_manifest,
};
use crate::storage::path::{beneath, extended, FsPath};
use crate::storage::{is_clear, takes_file, vacant, DirSet, FileMap, Fs, StorageBackend};
use crate::wal::{log_from, Codec, LogView, RecordView, Wal, WalRecord};
use crate::VERSION;

verus! {

/// How what is stored is turned into bytes and back. Any of the functions may fail.
pub struct Format<E, D, ME, MD, SE, SD, OE> {
    /// The records of the log.
    pub records: Codec<E, D>,
    /// The bytes of a manifest.
    pub manifest_bytes: ME,
    /// The manifest of some bytes.
    pub manifest_of: MD,
    /// The files of a segment.
    pub segment_files: SE,
    /// What the files of a segment say.
    pub segment_of: SD,
    /// The lines of new payloads.
    pub overlay_lines: OE,
}

/// The manifest that reading gave.
pub open spec fn manifest_said(r: Result<Manifest, String>) -> Option<ManifestView> {
    match r {
        Ok(m) => Some(m@),
        Err(_) => None,
    }
}

/// The segment that reading gave.
pub open spec fn segment_said(r: Result<SegmentParts, Error>) -> Option<StoredSegment> {
    match r {
        Ok(p) => Some(new_files(p)),
        Err(_) => None,
    }
}

/// A manifest of no collections.
pub open spec fn no_manifest() -> ManifestView {
    ManifestView { version: VERSION, last_flushed_lsn: 0, entries: Seq::<EntryView>::empty() }
}

/// The bytes of the log; none if it is not there.
pub open spec fn log_bytes(files: FileMap, root: Seq<Seq<char>>) -> Seq<u8> {
    match file_at(files, log_place(root)) {
        Some(b) => b,
        None => Seq::empty(),
    }
}

/// Whether the log ends where its last whole frame does.
pub open spec fn log_whole(files: FileMap, root: Seq<Seq<char>>, wal: Wal) -> bool {
    log_bytes(files, root).len() == wal.at()
}

/// Whether a step can be taken from what is stored: a new segment has a number that none has,
/// and one that is changed or given an index is there.
pub open spec fn can_take(disk: Disk, step: Step) -> bool {
    match step {
        Step::WriteSegment(parts) => !disk.segs.contains_key(parts.meta.seg_id),
        Step::WriteIndex(id, _) => disk.segs.contains_key(id),
        Step::WriteTombstones(id, _) => disk.segs.contains_key(id),
        Step::WriteOverlay(id, _) => disk.segs.contains_key(id),
        _ => true,
    }
}

impl<E, D, ME, MD, SE, SD, OE> Format<E, D, ME, MD, SE, SD, OE> where
    E: Fn(&WalRecord) -> Result<Vec<u8>, String>,
    D: Fn(&[u8]) -> Result<WalRecord, String>,
    ME: Fn(&Manifest) -> Result<Vec<u8>, String>,
    MD: Fn(&[u8]) -> Result<Manifest, String>,
    SE: Fn(&SegmentParts) -> Result<SegmentFiles, String>,
    SD: Fn(&SegmentFiles) -> Result<SegmentParts, Error>,
    OE: Fn(&Vec<(ExternalId, Option<Json>)>) -> Result<Vec<Vec<u8>>, String>,
 {
    /// All functions can be called on anything, and those that read give the same on the same
    /// bytes.
    pub open spec fn valid(&self) -> bool {
        &&& self.records.valid()
        &&& forall|m: &Manifest| #[trigger] call_requires(self.manifest_bytes, (m,))
        &&& forall|b: &[u8]| #[trigger] call_requires(self.manifest_of, (b,))
        &&& forall|p: &SegmentParts| #[trigger] call_requires(self.segment_files, (p,))
        &&& forall|f: &SegmentFiles| #[trigger] call_requires(self.segment_of, (f,))
        &&& forall|l: &Vec<(ExternalId, Option<Json>)>| #[trigger]
            call_requires(self.overlay_lines, (l,))
        &&& forall|a: &[u8], b: &[u8], x: Result<Manifest, String>, y: Result<Manifest, String>|
            a@ == b@ && #[trigger] call_ensures(self.manifest_of, (a,), x)
                && #[trigger] call_ensures(self.manifest_of, (b,), y) ==> manifest_said(x)
                == manifest_said(y)
        &&& forall|
            a: &SegmentFiles,
            b: &SegmentFiles,
            x: Result<SegmentParts, Error>,
            y: Result<SegmentParts, Error>,
        |
            a@ == b@ && #[trigger] call_ensures(self.segment_of, (a,), x)
                && #[trigger] call_ensures(self.segment_of, (b,), y) ==> segment_said(x)
                == segment_said(y)
    }

    /// Whether reading may give a manifest.
    pub open spec fn may_say(&self, b: Seq<u8>, m: Option<ManifestView>) -> bool {
        exists|a: &[u8], x: Result<Manifest, String>|
            a@ == b && manifest_said(x) == m && #[trigger] call_ensures(self.manifest_of, (a,), x)
    }

    /// The manifest of some bytes.
    pub open spec fn manifest_in(&self, b: Seq<u8>) -> Option<ManifestView> {
        choose|m: Option<ManifestView>| self.may_say(b, m)
    }

    /// Whether reading may give a segment.
    pub open spec fn may_tell(&self, f: FilesView, v: Option<StoredSegment>) -> bool {
        exists|a: &SegmentFiles, x: Result<SegmentParts, Error>|
            a@ == f && segment_said(x) == v && #[trigger] call_ensures(self.segment_of, (a,), x)
    }

    /// The segment of some files.
    pub open spec fn segment_in(&self, f: FilesView) -> Option<StoredSegment> {
        choose|v: Option<StoredSegment>| self.may_tell(f, v)
    }

    /// What is written says, when it is read, what it was made of: a record of the log, the
    /// manifest, the files of a segment, and each file of a segment that is replaced on its own.
    pub open spec fn faithful(&self) -> bool {
        &&& forall|rec: RecordView|
            (#[trigger] self.records.encoded(rec)) is Ok ==> (self.records.decoded(
                self.records.encoded(rec)->Ok_0,
            ) matches Ok(said) && said.lsn == rec.lsn && settled_op(said.op) == settled_op(rec.op))
        &&& forall|m: &Manifest, b: Vec<u8>| #[trigger]
            call_ensures(self.manifest_bytes, (m,), Ok::<Vec<u8>, String>(b)) ==> self.manifest_in(
                b@,
            ) == Some(m@)
        &&& forall|p: &SegmentParts, f: SegmentFiles| #[trigger]
            call_ensures(self.segment_files, (p,), Ok::<SegmentFiles, String>(f)) ==> f.in_lines()
                && self.segment_in(f@) == Some(new_files(*p))
        &&& forall|f: FilesView, b: Seq<u8>|
            self.segment_in(f) is Some ==> #[trigger] self.segment_in(
                FilesView { index: Some(b), ..f },
            ) == Some(StoredSegment { ann: Some(b), ..self.segment_in(f)->0 })
        &&& forall|f: FilesView, b: Seq<u8>|
            self.segment_in(f) is Some ==> #[trigger] self.segment_in(
                FilesView { dels: Some(b), ..f },
            ) == Some(
                StoredSegment {
                    dead: decoded_rows(b)->0.to_set(),
                    marked: decoded_rows(b) is Some,
                    ..self.segment_in(f)->0
                },
            )
        &&& forall|
            f: FilesView,
            l: &Vec<(ExternalId, Option<Json>)>,
            lines: Vec<Vec<u8>>,
        |
            #![trigger self.segment_in(f), call_ensures(self.overlay_lines, (l,), Ok::<Vec<Vec<u8>>, String>(lines))]
            call_ensures(self.overlay_lines, (l,), Ok::<Vec<Vec<u8>>, String>(lines)) ==> all_lines(
                byte_views(lines@),
            ) && (self.segment_in(f) is Some ==> self.segment_in(
                FilesView { overlay: Some(byte_views(lines@)), ..f },
            ) == Some(
                StoredSegment {
                    over: settled_over(overlaid(Map::empty(), l@)),
                    ..self.segment_in(f)->0
                },
            ))
    }

    /// Whether what a step stores may not be turned into bytes, for that reason.
    pub open spec fn cannot_encode(&self, step: Step, text: String) -> bool {
        match step {
            Step::WriteSegment(parts) => call_ensures(
                self.segment_files,
                (&parts,),
                Err::<SegmentFiles, String>(text),
            ),
            Step::WriteOverlay(_, entries) => call_ensures(
                self.overlay_lines,
                (&entries,),
                Err::<Vec<Vec<u8>>, String>(text),
            ),
            Step::SaveManifest(m) => call_ensures(
                self.manifest_bytes,
                (&m,),
                Err::<Vec<u8>, String>(text),
            ),
            _ => false,
        }
    }

    /// Whether every segment, manifest and list of new payloads can be turned into bytes.
    pub open spec fn encodes_all(&self) -> bool {
        forall|step: Step, text: String| !#[trigger] self.cannot_encode(step, text)
    }

    /// The manifest that some files say: one of no collections where it is not there.
    pub open spec fn manifest_at(&self, files: FileMap, root: Seq<Seq<char>>) -> Option<
        ManifestView,
    > {
        match file_at(files, manifest_place(root)) {
            Some(b) => self.manifest_in(b),
            None => Some(no_manifest()),
        }
    }

    /// The segment that some files say, if they say one.
    pub open spec fn segment_at(&self, files: FileMap, root: Seq<Seq<char>>, id: u64) -> Option<
        StoredSegment,
    > {
        match files_at(files, root, id) {
            Some(f) => self.segment_in(f),
            None => None,
        }
    }

    /// What some files say is stored, with the first `n` bytes of the log; nothing where the
    /// manifest cannot be read.
    pub open spec fn disk_of(&self, files: FileMap, root: Seq<Seq<char>>, n: int) -> Option<Disk> {
        match self.manifest_at(files, root) {
            Some(m) => Some(
                Disk {
                    manifest: m,
                    log: log_from(self.records, log_bytes(files, root).take(n), 0).records,
                    segs: Map::new(
                        |id: u64| self.segment_at(files, root, id) is Some,
                        |id: u64| self.segment_at(files, root, id)->0,
                    ),
                },
            ),
            None => None,
        }
    }

    /// Whether some files hold what is stored. They may hold more segments; the log goes to
    /// byte `n`, where a frame ends.
    pub open spec fn holds(
        &self,
        files: FileMap,
        root: Seq<Seq<char>>,
        n: int,
        disk: Disk,
    ) -> bool {
        &&& self.disk_of(files, root, n) matches Some(d) && d.manifest == disk.manifest && d.log
            == disk.log && disk.segs.submap_of(d.segs)
        &&& 0 <= n <= log_bytes(files, root).len()
        &&& log_from(self.records, log_bytes(files, root).take(n), 0).fault is None
        &&& log_from(self.records, log_bytes(files, root).take(n), 0).end == n
    }

    /// The manifest of some bytes.
    pub fn read_manifest(&self, b: &[u8]) -> (r: Result<Manifest, String>)
        requires
            self.valid(),
        ensures
            manifest_said(r) == self.manifest_in(b@),
    {
        let r = (self.manifest_of)(b);
        assert(self.may_say(b@, manifest_said(r)));
        r
    }

    /// What the files of a segment say.
    pub fn read_segment(&self, f: &SegmentFiles) -> (r: Result<SegmentParts, Error>)
        requires
            self.valid(),
        ensures
            segment_said(r) == self.segment_in(f@),
    {
        let r = (self.segment_of)(f);
        assert(self.may_tell(f@, segment_said(r)));
        r
    }

    /// Files hold what is stored once a few of them changed.
    pub proof fn lemma_still_holds(
        &self,
        a: FileMap,
        b: FileMap,
        root: Seq<Seq<char>>,
        n: int,
        m: int,
        disk: Disk,
        after: Disk,
    )
        requires
            self.holds(a, root, n, disk),
            self.manifest_at(b, root) == Some(after.manifest),
            0 <= m <= log_bytes(b, root).len(),
            log_from(self.records, log_bytes(b, root).take(m), 0) == (LogView {
                records: after.log,
                end: m,
                fault: None,
            }),
            forall|id: u64| #[trigger]
                after.segs.contains_key(id) ==> (disk.segs.contains_key(id) && after.segs[id]
                    == disk.segs[id] && same_parts(a, b, root, id)) || self.segment_at(b, root, id)
                    == Some(after.segs[id]),
        ensures
            self.holds(b, root, m, after),
    {
        let d = self.disk_of(a, root, n)->0;
        let e = self.disk_of(b, root, m)->0;
        assert forall|id: u64| #[trigger] after.segs.contains_key(id) implies e.segs.contains_key(
            id,
        ) && e.segs[id] == after.segs[id] by {
            if disk.segs.contains_key(id) && after.segs[id] == disk.segs[id] && same_parts(
                a,
                b,
                root,
                id,
            ) {
                lemma_same_parts(a, b, root, id);
                assert(d.segs.contains_key(id) && d.segs[id] == disk.segs[id]);
                assert(self.segment_at(a, root, id) == Some(disk.segs[id]));
            }
            assert(self.segment_at(b, root, id) == Some(after.segs[id]));
        }
    }

    /// What the log says, by what is stored.
    pub proof fn lemma_log_whole(&self, files: FileMap, root: Seq<Seq<char>>, n: int, disk: Disk)
        requires
            self.holds(files, root, n, disk),
        ensures
            log_from(self.records, log_bytes(files, root).take(n), 0) == (LogView {
                records: disk.log,
                end: n,
                fault: None,
            }),
    {
    }

    /// Files hold what is stored where only those in the directories of one segment changed.
    proof fn lemma_one_segment(
        &self,
        a: FileMap,
        b: FileMap,
        root: Seq<Seq<char>>,
        n: int,
        id: u64,
        disk: Disk,
        after: Disk,
    )
        requires
            self.holds(a, root, n, disk),
            same_but_segment(a, b, root, id),
            after.manifest == disk.manifest,
            after.log == disk.log,
            forall|x: u64| #[trigger]
                after.segs.contains_key(x) ==> (if x == id {
                    self.segment_at(b, root, id) == Some(after.segs[id])
                } else {
                    disk.segs.contains_key(x) && after.segs[x] == disk.segs[x]
                }),
        ensures
            self.holds(b, root, n, after),
    {
        lemma_places_apart(root, id);
        assert(file_at(a, manifest_place(root)) == file_at(b, manifest_place(root)));
        assert(file_at(a, log_place(root)) == file_at(b, log_place(root)));
        assert forall|x: u64| x != id implies #[trigger] same_parts(a, b, root, x) by {
            assert forall|p: Part|
                file_at(a, #[trigger] part_path(root, x, p)) == file_at(
                    b,
                    part_path(root, x, p),
                ) by {
                lemma_parts_apart(root, x, p, id, p);
            }
        }
        self.lemma_log_whole(a, root, n, disk);
        self.lemma_still_holds(a, b, root, n, n, disk, after);
    }

    /// Files hold what is stored where only one file of a segment was replaced.
    proof fn lemma_one_part(
        &self,
        a: FileMap,
        b: FileMap,
        root: Seq<Seq<char>>,
        n: int,
        id: u64,
        p: Part,
        disk: Disk,
        after: Disk,
    )
        requires
            self.holds(a, root, n, disk),
            same_but_two(a, b, part_path(root, id, p), extended(part_path(root, id, p), "tmp"@)),
            after.manifest == disk.manifest,
            after.log == disk.log,
            forall|x: u64| #[trigger]
                after.segs.contains_key(x) ==> (if x == id {
                    self.segment_at(b, root, id) == Some(after.segs[id])
                } else {
                    disk.segs.contains_key(x) && after.segs[x] == disk.segs[x]
                }),
        ensures
            self.holds(b, root, n, after),
    {
        lemma_places_apart(root, id);
        lemma_parts_apart(root, id, p, id, p);
        assert(extended(part_path(root, id, p), "tmp"@).len() == root.len() + 3);
        assert(file_at(a, manifest_place(root)) == file_at(b, manifest_place(root)));
        assert(file_at(a, log_place(root)) == file_at(b, log_place(root)));
        assert forall|x: u64| x != id implies #[trigger] same_parts(a, b, root, x) by {
            assert forall|q: Part|
                file_at(a, #[trigger] part_path(root, x, q)) == file_at(
                    b,
                    part_path(root, x, q),
                ) by {
                lemma_parts_apart(root, x, q, id, p);
            }
        }
        self.lemma_log_whole(a, root, n, disk);
        self.lemma_still_holds(a, b, root, n, n, disk, after);
    }

    /// The segment that is stored is the one that the files say.
    pub proof fn lemma_segment_held(
        &self,
        files: FileMap,
        root: Seq<Seq<char>>,
        n: int,
        disk: Disk,
        id: u64,
    )
        requires
            self.holds(files, root, n, disk),
            disk.segs.contains_key(id),
        ensures
            self.segment_at(files, root, id) == Some(disk.segs[id]),
            files_at(files, root, id) is Some,
            self.segment_in(files_at(files, root, id)->0) == Some(disk.segs[id]),
    {
        let d = self.disk_of(files, root, n)->0;
        assert(d.segs.contains_key(id) && d.segs[id] == disk.segs[id]);
    }

    /// Stores a new segment. What a write that failed has left in its directories is removed
    /// first.
    fn store_segment<F: Fs>(&self, fs: &mut F, root: &FsPath, parts: &SegmentParts) -> (r: Result<
        (),
        Error,
    >)
        requires
            old(fs).sound(),
            self.valid(),
        ensures
            final(fs).sound(),
            same_but_segment(old(fs).files(), final(fs).files(), root@, parts.meta.seg_id),
            r is Ok && self.faithful() ==> self.segment_at(
                final(fs).files(),
                root@,
                parts.meta.seg_id,
            ) == Some(new_files(*parts)),
            r matches Err(e) ==> e is Io || (e matches Error::Serde(text) && self.cannot_encode(
                Step::WriteSegment(*parts),
                text,
            ) && *final(fs) == *old(fs)),
            old(fs).reliable() ==> final(fs).reliable(),
            old(fs).reliable() && has_room(
                F::flat(),
                old(fs).files(),
                old(fs).dirs(),
                root@,
                Step::WriteSegment(*parts),
            ) ==> r is Ok || r->Err_0 is Serde,
            r is Ok && roomy(old(fs).files(), old(fs).dirs(), root@) ==> roomy(
                final(fs).files(),
                final(fs).dirs(),
                root@,
            ),
            r is Ok ==> standing(final(fs).dirs(), root@) == standing_after(
                standing(old(fs).dirs(), root@),
                Step::WriteSegment(*parts),
            ),
    {
        let id: u64 = parts.meta.seg_id;
        let f = match (self.segment_files)(parts) {
            Ok(f) => f,
            Err(e) => {
                return Err(Error::Serde(e));
            },
        };
        let staging = staging_dir(root, id);
        let dir = segment_dir(root, id);
        let ghost a = fs.files();
        let ghost dirs = fs.dirs();
        match fs.remove_dir_all(&staging) {
            Ok(_) => {},
            Err(e) => {
                proof {
                    lemma_removed(a, fs.files(), root@, id, staging@);
                }
                return Err(Error::Io(e));
            },
        }
        let ghost b = fs.files();
        let ghost mid_dirs = fs.dirs();
        proof {
            lemma_removed(a, b, root@, id, staging@);
        }
        match fs.remove_dir_all(&dir) {
            Ok(_) => {},
            Err(e) => {
                proof {
                    lemma_removed(b, fs.files(), root@, id, dir@);
                }
                return Err(Error::Io(e));
            },
        }
        let ghost c = fs.files();
        let ghost now_dirs = fs.dirs();
        proof {
            lemma_removed(b, c, root@, id, dir@);
            lemma_places_apart(root@, id);
            assert(beneath(staging@, staging@)) by {
                assert(staging@.take(staging@.len() as int) =~= staging@);
            }
            assert(beneath(dir@, dir@)) by {
                assert(dir@.take(dir@.len() as int) =~= dir@);
            }
            assert(vacant(c, now_dirs, staging@));
            assert(vacant(c, now_dirs, dir@));
            assert(!c.contains_key(staging@));
            if has_room(F::flat(), a, dirs, root@, Step::WriteSegment(*parts)) {
                assert(dir@.drop_last() =~= root@.push("segments"@));
                assert(!beneath(dir@.drop_last(), staging@));
                assert(!beneath(dir@.drop_last(), dir@));
                assert(now_dirs.contains(dir@.drop_last()));
            }
        }
        let r = write_segment_files(fs, root, id, &f);
        proof {
            let now = fs.files();
            assert(dir@ == seg_path(root@, id) && staging@ == extended(seg_path(root@, id), "tmp"@));
            assert(vacant(c, now_dirs, seg_path(root@, id)));
            assert(r is Ok ==> forall|q: Seq<Seq<char>>|
                !beneath(q, seg_path(root@, id)) && !beneath(
                    q,
                    extended(seg_path(root@, id), "tmp"@),
                ) ==> (#[trigger] now.contains_key(q) <==> c.contains_key(q)) && (c.contains_key(q)
                    ==> now[q] == c[q]));
            assert forall|q: Seq<Seq<char>>|
                !beneath(q, seg_path(root@, id)) && !beneath(
                    q,
                    extended(seg_path(root@, id), "tmp"@),
                ) implies #[trigger] file_at(c, q) == file_at(now, q) by {
                if r is Err {
                    let inside = Set::new(|q: Seq<Seq<char>>| beneath(q, staging@));
                    assert(now.remove_keys(inside) == c.remove_keys(inside));
                    assert(now.remove_keys(inside).contains_key(q) == now.contains_key(q));
                    assert(c.remove_keys(inside).contains_key(q) == c.contains_key(q));
                    if c.contains_key(q) {
                        assert(now.remove_keys(inside)[q] == c.remove_keys(inside)[q]);
                    }
                } else {
                    assert(now.contains_key(q) <==> c.contains_key(q));
                }
            }
            assert(same_but_segment(a, now, root@, id)) by {
                assert forall|q: Seq<Seq<char>>|
                    !beneath(q, seg_path(root@, id)) && !beneath(
                        q,
                        extended(seg_path(root@, id), "tmp"@),
                    ) implies #[trigger] file_at(a, q) == file_at(now, q) by {
                    assert(file_at(a, q) == file_at(b, q));
                    assert(file_at(b, q) == file_at(c, q));
                    assert(file_at(c, q) == file_at(now, q));
                }
            }
            if r is Ok && self.faithful() {
                assert(f.in_lines());
                lemma_found_files(f, now, fs.dirs(), root@, id);
            }
            if r is Ok {
                lemma_published_room(
                    a,
                    now,
                    dirs,
                    mid_dirs,
                    now_dirs,
                    fs.dirs(),
                    root@,
                    id,
                );
            }
        }
        r
    }

    /// The directory of a segment that a step changes is there, where the files hold what is
    /// stored.
    pub proof fn lemma_at_home(
        &self,
        files: FileMap,
        dirs: DirSet,
        root: Seq<Seq<char>>,
        n: int,
        disk: Disk,
        step: Step,
    )
        requires
            roomy(files, dirs, root),
            self.holds(files, root, n, disk),
            can_take(disk, step),
        ensures
            at_home(dirs, root, step),
    {
        let id = match step {
            Step::WriteIndex(id, _) => id,
            Step::WriteTombstones(id, _) => id,
            Step::WriteOverlay(id, _) => id,
            _ => 0,
        };
        if step is WriteIndex || step is WriteTombstones || step is WriteOverlay {
            self.lemma_segment_held(files, root, n, disk, id);
            lemma_home(files, dirs, root, id, Part::Meta);
        }
    }

    /// Carries out a step. Where this fails, what was stored is as it was; the log may be empty
    /// already where it was to be emptied. It fails only where what is to be stored cannot be
    /// turned into bytes, and then changes nothing, or where storage fails. Reliable storage does
    /// not where it has room.
    pub fn perform<F: Fs>(&self, fs: &mut F, root: &FsPath, wal: &mut Wal, step: &Step) -> (r: Result<
        (),
        Error,
    >)
        requires
            old(fs).sound(),
            self.valid(),
        ensures
            final(fs).sound(),
            final(wal).next() == old(wal).next(),
            r is Ok && *step is ResetLog ==> final(wal).at() == 0 && log_bytes(
                final(fs).files(),
                root@,
            ).len() == 0,
            !(*step is ResetLog) ==> *final(wal) == *old(wal),
            final(wal).at() <= old(wal).at(),
            self.faithful() ==> forall|disk: Disk| #[trigger]
                self.holds(old(fs).files(), root@, old(wal).at() as int, disk) && can_take(
                    disk,
                    *step,
                ) ==> match r {
                    Ok(_) => self.holds(
                        final(fs).files(),
                        root@,
                        final(wal).at() as int,
                        disk.performed(*step),
                    ),
                    Err(_) => self.holds(final(fs).files(), root@, final(wal).at() as int, disk)
                        || (*step is ResetLog && self.holds(
                        final(fs).files(),
                        root@,
                        final(wal).at() as int,
                        disk.performed(*step),
                    )),
                },
            r matches Err(e) ==> e is Io || (e matches Error::Serde(text) && self.cannot_encode(
                *step,
                text,
            ) && *final(fs) == *old(fs)),
            r is Ok ==> match *step {
                Step::WriteIndex(id, _) => final(fs).lasting().contains(
                    part_path(root@, id, Part::Index),
                ),
                Step::WriteTombstones(id, _) => final(fs).lasting().contains(
                    part_path(root@, id, Part::Dels),
                ),
                Step::WriteOverlay(id, _) => final(fs).lasting().contains(
                    part_path(root@, id, Part::Overlay),
                ),
                Step::SaveManifest(_) => final(fs).lasting().contains(manifest_place(root@)),
                Step::ResetLog => final(fs).lasting().contains(log_place(root@)),
                _ => true,
            },
            old(fs).reliable() ==> final(fs).reliable(),
            old(fs).reliable() && has_room(
                F::flat(),
                old(fs).files(),
                old(fs).dirs(),
                root@,
                *step,
            ) ==> r is Ok || r->Err_0 is Serde,
            old(fs).reliable() && roomy(old(fs).files(), old(fs).dirs(), root@)
                && at_home(old(fs).dirs(), root@, *step) ==> (r is Ok
                || r->Err_0 is Serde) && roomy(
                final(fs).files(),
                final(fs).dirs(),
                root@,
            ) && (r is Ok ==> standing(final(fs).dirs(), root@) == standing_after(
                standing(old(fs).dirs(), root@),
                *step,
            )),
            *step is RemoveSegment ==> r is Ok,
            !(*step is SaveManifest && r is Ok) ==> file_at(
                final(fs).files(),
                manifest_place(root@),
            ) == file_at(old(fs).files(), manifest_place(root@)),
            !(*step is ResetLog) ==> file_at(final(fs).files(), log_place(root@)) == file_at(
                old(fs).files(),
                log_place(root@),
            ),
            !(*step is WriteSegment) ==> final(fs).dirs().subset_of(old(fs).dirs()),
    {
        let ghost a = fs.files();
        let ghost n = wal.at() as int;
        let ghost dirs = fs.dirs();
        let ghost able = fs.reliable() && roomy(a, dirs, root@) && at_home(dirs, root@, *step);
        proof {
            if able {
                lemma_has_room(F::flat(), a, dirs, root@, *step);
                lemma_root_places(root@);
            }
        }
        match step {
            Step::WriteSegment(parts) => {
                let r = self.store_segment(fs, root, parts);
                proof {
                    let b = fs.files();
                    let id = parts.meta.seg_id;
                    lemma_segment_alone(a, b, root@, id);
                    assert forall|disk: Disk| #[trigger]
                        self.holds(a, root@, n, disk) && can_take(disk, *step)
                            && self.faithful() implies (if r is Ok {
                        self.holds(b, root@, n, disk.performed(*step))
                    } else {
                        self.holds(b, root@, n, disk)
                    }) by {
                        if r is Ok {
                            self.lemma_one_segment(a, b, root@, n, id, disk, disk.performed(*step));
                        } else {
                            self.lemma_one_segment(a, b, root@, n, id, disk, disk);
                        }
                    }
                }
                r
            },
            Step::WriteIndex(id, bytes) => {
                let r = write_part(fs, root, *id, Part::Index, bytes.as_slice());
                proof {
                    self.lemma_replaced(a, fs.files(), root@, n, *id, Part::Index, *step, r, bytes@);
                    lemma_part_alone(a, fs.files(), root@, *id, Part::Index, bytes@, r is Ok);
                    if able {
                        lemma_part_placed(dirs, root@, *id, Part::Index);
                        lemma_room_files(a, fs.files(), dirs, root@);
                    }
                }
                r
            },
            Step::WriteTombstones(id, bytes) => {
                let r = write_part(fs, root, *id, Part::Dels, bytes.as_slice());
                proof {
                    self.lemma_replaced(a, fs.files(), root@, n, *id, Part::Dels, *step, r, bytes@);
                    lemma_part_alone(a, fs.files(), root@, *id, Part::Dels, bytes@, r is Ok);
                    if able {
                        lemma_part_placed(dirs, root@, *id, Part::Dels);
                        lemma_room_files(a, fs.files(), dirs, root@);
                    }
                }
                r
            },
            Step::WriteOverlay(id, entries) => {
                let lines = match (self.overlay_lines)(entries) {
                    Ok(l) => l,
                    Err(e) => {
                        return Err(Error::Serde(e));
                    },
                };
                let r = write_part_lines(fs, root, *id, Part::Overlay, &lines);
                proof {
                    lemma_part_alone(
                        a,
                        fs.files(),
                        root@,
                        *id,
                        Part::Overlay,
                        joined(byte_views(lines@)),
                        r is Ok,
                    );
                    if able {
                        lemma_part_placed(dirs, root@, *id, Part::Overlay);
                        lemma_room_files(a, fs.files(), dirs, root@);
                    }
                    if self.faithful() {
                        let any: FilesView = arbitrary();
                        assert(self.segment_in(any) == self.segment_in(any));
                        law_lines_round_trip(byte_views(lines@));
                        self.lemma_overlaid(
                            a,
                            fs.files(),
                            root@,
                            n,
                            *id,
                            entries,
                            lines,
                            *step,
                            r,
                        );
                    }
                }
                r
            },
            Step::SaveManifest(m) => {
                let bytes = match (self.manifest_bytes)(m) {
                    Ok(b) => b,
                    Err(e) => {
                        return Err(Error::Serde(e));
                    },
                };
                let r = write_manifest(fs, root, bytes.as_slice());
                proof {
                    let b = fs.files();
                    let place = manifest_place(root@);
                    let tmp = extended(place, "tmp"@);
                    lemma_two_files(a, b, place, tmp, r is Ok);
                    lemma_places_apart(root@, 0);
                    assert(file_at(a, log_place(root@)) == file_at(b, log_place(root@)));
                    if r is Err {
                        assert(a.remove(tmp).contains_key(place) == b.remove(tmp).contains_key(
                            place,
                        ));
                        if a.contains_key(place) {
                            assert(a.remove(tmp)[place] == b.remove(tmp)[place]);
                        }
                    }
                    if able {
                        assert(well_placed(dirs, root@, manifest_place(root@)));
                        lemma_room_files(a, b, dirs, root@);
                    }
                    assert forall|disk: Disk| #[trigger]
                        self.holds(a, root@, n, disk) && self.faithful() implies (if r is Ok {
                        self.holds(b, root@, n, disk.performed(*step))
                    } else {
                        self.holds(b, root@, n, disk)
                    }) by {
                        self.lemma_manifest_saved(a, b, root@, n, disk, *m, bytes@, r is Ok);
                    }
                }
                r
            },
            Step::ResetLog => {
                match open_log(fs, root) {
                    Err(e) => {
                        proof {
                            lemma_log_alone(a, fs.files(), root@);
                            assert forall|disk: Disk| #[trigger]
                                self.holds(a, root@, n, disk) implies self.holds(
                                fs.files(),
                                root@,
                                n,
                                disk,
                            ) by {
                                self.lemma_log_changed(a, fs.files(), root@, n, n, disk, disk.log);
                            }
                        }
                        Err(e)
                    },
                    Ok(f) => {
                        let ghost was = f.data();
                        let r = wal.reset(f);
                        proof {
                            let b = fs.files();
                            let m = wal.at() as int;
                            let l = log_place(root@);
                            if able {
                                assert(well_placed(dirs, root@, l));
                                lemma_room_files(a, b, dirs, root@);
                            }
                            assert(a.remove(l) =~= b.remove(l));
                            lemma_log_alone(a, b, root@);
                            assert forall|disk: Disk| #[trigger]
                                self.holds(a, root@, n, disk) implies (if r is Ok {
                                self.holds(b, root@, m, disk.performed(*step))
                            } else {
                                self.holds(b, root@, m, disk) || self.holds(
                                    b,
                                    root@,
                                    m,
                                    disk.performed(*step),
                                )
                            }) by {
                                if r is Err && m == n && log_bytes(b, root@) == was {
                                    self.lemma_log_changed(a, b, root@, n, n, disk, disk.log);
                                } else {
                                    assert(log_bytes(b, root@).len() == 0);
                                    self.lemma_log_changed(
                                        a,
                                        b,
                                        root@,
                                        n,
                                        0,
                                        disk,
                                        Seq::<RecordView>::empty(),
                                    );
                                }
                            }
                        }
                        r
                    },
                }
            },
            Step::RemoveSegment(id) => {
                let dir = segment_dir(root, *id);
                let gone = fs.remove_dir_all(&dir);
                proof {
                    let b = fs.files();
                    lemma_removed(a, b, root@, *id, dir@);
                    lemma_segment_alone(a, b, root@, *id);
                    if able {
                        let segments = root@.push("segments"@);
                        assert(dir@.take(segments.len() as int) =~= segments);
                        assert(dir@.take(dir@.len() as int) =~= dir@);
                        assert(!a.contains_key(dir@));
                        assert(gone is Ok);
                        lemma_room_removed(a, b, dirs, fs.dirs(), root@, dir@);
                        lemma_standing(dirs, fs.dirs(), root@, *id, false);
                    }
                    assert forall|disk: Disk| #[trigger]
                        self.holds(a, root@, n, disk) implies self.holds(
                        b,
                        root@,
                        n,
                        disk.performed(*step),
                    ) by {
                        self.lemma_one_segment(a, b, root@, n, *id, disk, disk.performed(*step));
                    }
                }
                Ok(())
            },
        }
    }

    /// Replacing the index or the marks of a segment changes what is stored as it should.
    proof fn lemma_replaced(
        &self,
        a: FileMap,
        b: FileMap,
        root: Seq<Seq<char>>,
        n: int,
        id: u64,
        p: Part,
        step: Step,
        r: Result<(), Error>,
        bytes: Seq<u8>,
    )
        requires
            match step {
                Step::WriteIndex(x, v) => x == id && v@ == bytes && p == Part::Index,
                Step::WriteTombstones(x, v) => x == id && v@ == bytes && p == Part::Dels,
                _ => false,
            },
            ({
                let path = part_path(root, id, p);
                let tmp = extended(path, "tmp"@);
                match r {
                    Ok(_) => b == a.remove(tmp).insert(path, bytes),
                    Err(_) => b.remove(tmp) == a.remove(tmp),
                }
            }),
        ensures
            self.faithful() ==> forall|disk: Disk| #[trigger]
                self.holds(a, root, n, disk) && can_take(disk, step) ==> (if r is Ok {
                    self.holds(b, root, n, disk.performed(step))
                } else {
                    self.holds(b, root, n, disk)
                }),
    {
        let path = part_path(root, id, p);
        let tmp = extended(path, "tmp"@);
        if self.faithful() {
            assert forall|disk: Disk| #[trigger]
                self.holds(a, root, n, disk) && can_take(disk, step) implies (if r is Ok {
                self.holds(b, root, n, disk.performed(step))
            } else {
                self.holds(b, root, n, disk)
            }) by {
                lemma_two_files(a, b, path, tmp, r is Ok);
                lemma_own_parts(a, b, root, id, p, r is Ok, bytes);
                if disk.segs.contains_key(id) {
                    self.lemma_segment_held(a, root, n, disk, id);
                    let f = files_at(a, root, id)->0;
                    if r is Ok {
                        if p == Part::Index {
                            assert(self.segment_in(FilesView { index: Some(bytes), ..f }) == Some(
                                StoredSegment { ann: Some(bytes), ..self.segment_in(f)->0 },
                            ));
                        } else {
                            assert(self.segment_in(FilesView { dels: Some(bytes), ..f }) == Some(
                                StoredSegment {
                                    dead: decoded_rows(bytes)->0.to_set(),
                                    marked: decoded_rows(bytes) is Some,
                                    ..self.segment_in(f)->0
                                },
                            ));
                        }
                    }
                }
                if r is Ok {
                    self.lemma_one_part(a, b, root, n, id, p, disk, disk.performed(step));
                } else {
                    self.lemma_one_part(a, b, root, n, id, p, disk, disk);
                }
            }
        }
    }

    /// Replacing the new payloads of a segment changes what is stored as it should.
    proof fn lemma_overlaid(
        &self,
        a: FileMap,
        b: FileMap,
        root: Seq<Seq<char>>,
        n: int,
        id: u64,
        entries: &Vec<(ExternalId, Option<Json>)>,
        lines: Vec<Vec<u8>>,
        step: Step,
        r: Result<(), Error>,
    )
        requires
            self.faithful(),
            call_ensures(self.overlay_lines, (entries,), Ok::<Vec<Vec<u8>>, String>(lines)),
            lines_of(joined(byte_views(lines@))) == byte_views(lines@),
            step matches Step::WriteOverlay(x, v) && x == id && v == *entries,
            ({
                let path = part_path(root, id, Part::Overlay);
                let tmp = extended(path, "tmp"@);
                match r {
                    Ok(_) => b == a.remove(tmp).insert(path, joined(byte_views(lines@))),
                    Err(_) => b.remove(tmp) == a.remove(tmp),
                }
            }),
        ensures
            forall|disk: Disk| #[trigger]
                self.holds(a, root, n, disk) && can_take(disk, step) ==> (if r is Ok {
                    self.holds(b, root, n, disk.performed(step))
                } else {
                    self.holds(b, root, n, disk)
                }),
    {
        let p = Part::Overlay;
        let path = part_path(root, id, p);
        let tmp = extended(path, "tmp"@);
        let bytes = joined(byte_views(lines@));
        assert forall|disk: Disk| #[trigger]
            self.holds(a, root, n, disk) && can_take(disk, step) implies (if r is Ok {
            self.holds(b, root, n, disk.performed(step))
        } else {
            self.holds(b, root, n, disk)
        }) by {
            lemma_two_files(a, b, path, tmp, r is Ok);
            lemma_own_parts(a, b, root, id, p, r is Ok, bytes);
            self.lemma_segment_held(a, root, n, disk, id);
            let f = files_at(a, root, id)->0;
            assert(self.segment_in(f) is Some);
            if r is Ok {
                self.lemma_one_part(a, b, root, n, id, p, disk, disk.performed(step));
            } else {
                self.lemma_one_part(a, b, root, n, id, p, disk, disk);
            }
        }
    }

    /// Saving the manifest changes what is stored as it should.
    proof fn lemma_manifest_saved(
        &self,
        a: FileMap,
        b: FileMap,
        root: Seq<Seq<char>>,
        n: int,
        disk: Disk,
        m: Manifest,
        bytes: Seq<u8>,
        ok: bool,
    )
        requires
            self.holds(a, root, n, disk),
            ok ==> self.manifest_in(bytes) == Some(m@),
            ({
                let path = manifest_place(root);
                let tmp = extended(path, "tmp"@);
                if ok {
                    b == a.remove(tmp).insert(path, bytes)
                } else {
                    b.remove(tmp) == a.remove(tmp)
                }
            }),
        ensures
            ok ==> self.holds(b, root, n, disk.performed(Step::SaveManifest(m))),
            !ok ==> self.holds(b, root, n, disk),
    {
        let path = manifest_place(root);
        let tmp = extended(path, "tmp"@);
        lemma_places_apart(root, 0);
        lemma_two_files(a, b, path, tmp, ok);
        assert(file_at(a, log_place(root)) == file_at(b, log_place(root)));
        assert forall|x: u64| #[trigger] same_parts(a, b, root, x) by {
            assert forall|q: Part|
                file_at(a, #[trigger] part_path(root, x, q)) == file_at(
                    b,
                    part_path(root, x, q),
                ) by {
                lemma_parts_apart(root, x, q, x, q);
            }
        }
        self.lemma_log_whole(a, root, n, disk);
        if ok {
            self.lemma_still_holds(
                a,
                b,
                root,
                n,
                n,
                disk,
                disk.performed(Step::SaveManifest(m)),
            );
        } else {
            assert(a.remove(tmp).contains_key(path) == b.remove(tmp).contains_key(path));
            assert(file_at(a, path) == file_at(b, path)) by {
                if a.contains_key(path) {
                    assert(a.remove(tmp)[path] == b.remove(tmp)[path]);
                }
            }
            self.lemma_still_holds(a, b, root, n, n, disk, disk);
        }
    }

    /// Changing the log changes what is stored as it should.
    pub proof fn lemma_log_changed(
        &self,
        a: FileMap,
        b: FileMap,
        root: Seq<Seq<char>>,
        n: int,
        m: int,
        disk: Disk,
        log: Seq<RecordView>,
    )
        requires
            self.holds(a, root, n, disk),
            a.remove(log_place(root)) == b.remove(log_place(root)),
            0 <= m <= log_bytes(b, root).len(),
            log_bytes(b, root).take(m) == log_bytes(a, root).take(n) && m == n && log == disk.log
                || log_from(self.records, log_bytes(b, root).take(m), 0) == (LogView {
                records: log,
                end: m,
                fault: None,
            }) || (m == 0 && log.len() == 0),
        ensures
            self.holds(b, root, m, Disk { log, ..disk }),
    {
        let l = log_place(root);
        lemma_places_apart(root, 0);
        assert forall|q: Seq<Seq<char>>| q != l implies #[trigger] file_at(a, q) == file_at(
            b,
            q,
        ) by {
            assert(a.remove(l).contains_key(q) == b.remove(l).contains_key(q));
            if a.contains_key(q) {
                assert(a.remove(l)[q] == b.remove(l)[q]);
            }
        }
        assert(file_at(a, manifest_place(root)) == file_at(b, manifest_place(root)));
        assert forall|x: u64| #[trigger] same_parts(a, b, root, x) by {
            assert forall|q: Part|
                file_at(a, #[trigger] part_path(root, x, q)) == file_at(
                    b,
                    part_path(root, x, q),
                ) by {
                lemma_parts_apart(root, x, q, x, q);
            }
        }
        self.lemma_log_whole(a, root, n, disk);
        if m == 0 && log.len() == 0 {
            assert(log =~= Seq::<RecordView>::empty());
            assert(log_bytes(b, root).take(0).len() == 0);
        }
        self.lemma_still_holds(a, b, root, n, m, disk, Disk { log, ..disk });
    }
}

/// Whether files are the same but for those in the directories of one segment.
pub open spec fn same_but_segment(
    a: FileMap,
    b: FileMap,
    root: Seq<Seq<char>>,
    id: u64,
) -> bool {
    forall|q: Seq<Seq<char>>|
        !beneath(q, seg_path(root, id)) && !beneath(q, extended(seg_path(root, id), "tmp"@))
            ==> #[trigger] file_at(a, q) == file_at(b, q)
}

/// Whether files are the same but for two.
pub open spec fn same_but_two(
    a: FileMap,
    b: FileMap,
    x: Seq<Seq<char>>,
    y: Seq<Seq<char>>,
) -> bool {
    forall|q: Seq<Seq<char>>| q != x && q != y ==> #[trigger] file_at(a, q) == file_at(b, q)
}

/// Whether there is room for what a step stores: directories are there, and nothing is in the
/// way.
pub open spec fn has_room(
    flat: bool,
    files: FileMap,
    dirs: DirSet,
    root: Seq<Seq<char>>,
    step: Step,
) -> bool {
    match step {
        Step::WriteSegment(parts) => {
            let dir = seg_path(root, parts.meta.seg_id);
            let staging = extended(dir, "tmp"@);
            &&& dirs.contains(root.push("segments"@))
            &&& !files.contains_key(dir)
            &&& is_clear(files, staging)
        },
        Step::WriteIndex(id, _) => part_room(flat, dirs, part_path(root, id, Part::Index)),
        Step::WriteTombstones(id, _) => part_room(flat, dirs, part_path(root, id, Part::Dels)),
        Step::WriteOverlay(id, _) => part_room(flat, dirs, part_path(root, id, Part::Overlay)),
        Step::SaveManifest(_) => part_room(flat, dirs, manifest_place(root)),
        Step::ResetLog => files.contains_key(log_place(root)) || (!dirs.contains(log_place(root))
            && takes_file(flat, dirs, log_place(root))),
        Step::RemoveSegment(_) => true,
    }
}

/// Whether there is room for a file that is replaced as a whole.
pub open spec fn part_room(flat: bool, dirs: DirSet, path: Seq<Seq<char>>) -> bool {
    takes_file(flat, dirs, path) && takes_file(flat, dirs, extended(path, "tmp"@))
}

/// Removing a directory of a segment changes only what lies in it.
proof fn lemma_removed(
    a: FileMap,
    b: FileMap,
    root: Seq<Seq<char>>,
    id: u64,
    dir: Seq<Seq<char>>,
)
    requires
        dir == seg_path(root, id) || dir == extended(seg_path(root, id), "tmp"@),
        b.submap_of(a),
        a.remove_keys(Set::new(|p: Seq<Seq<char>>| beneath(p, dir))).submap_of(b),
    ensures
        same_but_segment(a, b, root, id),
{
    let rest = a.remove_keys(Set::new(|p: Seq<Seq<char>>| beneath(p, dir)));
    assert forall|q: Seq<Seq<char>>|
        !beneath(q, seg_path(root, id)) && !beneath(
            q,
            extended(seg_path(root, id), "tmp"@),
        ) implies #[trigger] file_at(a, q) == file_at(b, q) by {
        assert(rest.contains_key(q) == a.contains_key(q));
        if a.contains_key(q) {
            assert(rest.contains_key(q));
            assert(b.contains_key(q));
        }
    }
}

/// There is room once a segment was stored, and it has its directory.
proof fn lemma_published_room(
    a: FileMap,
    now: FileMap,
    dirs: DirSet,
    mid_dirs: DirSet,
    clean_dirs: DirSet,
    now_dirs: DirSet,
    root: Seq<Seq<char>>,
    id: u64,
)
    requires
        ({
            let dir = seg_path(root, id);
            let staging = extended(dir, "tmp"@);
            &&& same_but_segment(a, now, root, id)
            &&& mid_dirs == dirs.difference(Set::new(|p: Seq<Seq<char>>| beneath(p, staging)))
            &&& clean_dirs == mid_dirs.difference(Set::new(|p: Seq<Seq<char>>| beneath(p, dir)))
            &&& only_files(now, now_dirs, dir)
            &&& vacant(now, now_dirs, staging)
            &&& forall|p: Seq<Seq<char>>| #[trigger]
                clean_dirs.contains(p) && !beneath(p, staging) ==> now_dirs.contains(p)
            &&& forall|p: Seq<Seq<char>>|
                !beneath(p, dir) && !beneath(p, staging) && !beneath(staging, p) ==> (
                #[trigger] now_dirs.contains(p) <==> clean_dirs.contains(p))
        }),
    ensures
        roomy(a, dirs, root) ==> roomy(now, now_dirs, root),
        standing(now_dirs, root) == standing(dirs, root).insert(id),
{
    let dir = seg_path(root, id);
    let staging = extended(dir, "tmp"@);
    assert forall|p: Seq<Seq<char>>|
        !beneath(p, dir) && !beneath(p, staging) && !beneath(staging, p) implies (
    #[trigger] now_dirs.contains(p) <==> dirs.contains(p)) by {
        assert(clean_dirs.contains(p) <==> dirs.contains(p));
    }
    assert forall|p: Seq<Seq<char>>| #[trigger]
        dirs.contains(p) && !beneath(p, staging) && !beneath(p, dir) implies now_dirs.contains(
        p,
    ) by {
        assert(clean_dirs.contains(p));
    }
    assert forall|p: Seq<Seq<char>>|
        !beneath(p, dir) && !beneath(p, staging) implies (#[trigger] now.contains_key(p)
        <==> a.contains_key(p)) by {
        assert(file_at(a, p) == file_at(now, p));
    }
    if roomy(a, dirs, root) {
        lemma_room_published(a, now, dirs, now_dirs, root, id);
    }
    lemma_standing(dirs, now_dirs, root, id, true);
}

/// Replacing a file changes it and the one that is written first.
proof fn lemma_two_files(
    a: FileMap,
    b: FileMap,
    path: Seq<Seq<char>>,
    tmp: Seq<Seq<char>>,
    ok: bool,
)
    requires
        if ok {
            exists|bytes: Seq<u8>| b == #[trigger] a.remove(tmp).insert(path, bytes)
        } else {
            b.remove(tmp) == a.remove(tmp)
        },
    ensures
        same_but_two(a, b, path, tmp),
{
    assert forall|q: Seq<Seq<char>>| q != path && q != tmp implies #[trigger] file_at(a, q)
        == file_at(b, q) by {
        if !ok {
            assert(a.remove(tmp).contains_key(q) == b.remove(tmp).contains_key(q));
            if a.contains_key(q) {
                assert(a.remove(tmp)[q] == b.remove(tmp)[q]);
            }
        }
    }
}

/// Replacing a file of a segment leaves the manifest and the log alone.
proof fn lemma_part_alone(
    a: FileMap,
    b: FileMap,
    root: Seq<Seq<char>>,
    id: u64,
    p: Part,
    bytes: Seq<u8>,
    ok: bool,
)
    requires
        ({
            let path = part_path(root, id, p);
            let tmp = extended(path, "tmp"@);
            if ok {
                b == a.remove(tmp).insert(path, bytes)
            } else {
                b.remove(tmp) == a.remove(tmp)
            }
        }),
    ensures
        file_at(b, manifest_place(root)) == file_at(a, manifest_place(root)),
        file_at(b, log_place(root)) == file_at(a, log_place(root)),
{
    let path = part_path(root, id, p);
    let tmp = extended(path, "tmp"@);
    lemma_two_files(a, b, path, tmp, ok);
    lemma_parts_apart(root, id, p, id, p);
    lemma_places_apart(root, id);
    assert(tmp.len() == path.len());
    assert(file_at(a, manifest_place(root)) == file_at(b, manifest_place(root)));
    assert(file_at(a, log_place(root)) == file_at(b, log_place(root)));
}

/// Changing the log leaves the manifest alone.
proof fn lemma_log_alone(a: FileMap, b: FileMap, root: Seq<Seq<char>>)
    requires
        a.remove(log_place(root)) == b.remove(log_place(root)),
    ensures
        file_at(b, manifest_place(root)) == file_at(a, manifest_place(root)),
{
    let l = log_place(root);
    let m = manifest_place(root);
    lemma_places_apart(root, 0);
    assert(a.remove(l).contains_key(m) == b.remove(l).contains_key(m));
    if a.contains_key(m) {
        assert(a.remove(l)[m] == b.remove(l)[m]);
    }
}

/// Changing what lies in the directories of a segment leaves the manifest and the log alone.
proof fn lemma_segment_alone(a: FileMap, b: FileMap, root: Seq<Seq<char>>, id: u64)
    requires
        same_but_segment(a, b, root, id),
    ensures
        file_at(b, manifest_place(root)) == file_at(a, manifest_place(root)),
        file_at(b, log_place(root)) == file_at(a, log_place(root)),
{
    lemma_places_apart(root, id);
    assert(file_at(a, manifest_place(root)) == file_at(b, manifest_place(root)));
    assert(file_at(a, log_place(root)) == file_at(b, log_place(root)));
}

/// Replacing a file of a segment changes what its files hold there.
proof fn lemma_own_parts(
    a: FileMap,
    b: FileMap,
    root: Seq<Seq<char>>,
    id: u64,
    p: Part,
    ok: bool,
    bytes: Seq<u8>,
)
    requires
        p == Part::Index || p == Part::Dels || p == Part::Overlay,
        ({
            let path = part_path(root, id, p);
            let tmp = extended(path, "tmp"@);
            if ok {
                b == a.remove(tmp).insert(path, bytes)
            } else {
                b.remove(tmp) == a.remove(tmp)
            }
        }),
    ensures
        files_at(a, root, id) is Some ==> files_at(b, root, id) == Some(
            if !ok {
                files_at(a, root, id)->0
            } else if p == Part::Index {
                FilesView { index: Some(bytes), ..files_at(a, root, id)->0 }
            } else if p == Part::Dels {
                FilesView { dels: Some(bytes), ..files_at(a, root, id)->0 }
            } else {
                FilesView { overlay: Some(lines_of(bytes)), ..files_at(a, root, id)->0 }
            },
        ),
{
    let path = part_path(root, id, p);
    let tmp = extended(path, "tmp"@);
    lemma_two_files(a, b, path, tmp, ok);
    assert forall|q: Part| q != p || !ok implies file_at(a, #[trigger] part_path(root, id, q))
        == file_at(b, part_path(root, id, q)) by {
        lemma_parts_apart(root, id, q, id, p);
        if q == p {
            let x = part_path(root, id, q);
            assert(a.remove(tmp).contains_key(x) == b.remove(tmp).contains_key(x));
            if a.contains_key(x) {
                assert(a.remove(tmp)[x] == b.remove(tmp)[x]);
            }
        }
    }
    assert(file_at(a, part_path(root, id, Part::Meta)) == file_at(
        b,
        part_path(root, id, Part::Meta),
    ));
    assert(file_at(a, part_path(root, id, Part::Vectors)) == file_at(
        b,
        part_path(root, id, Part::Vectors),
    ));
    assert(file_at(a, part_path(root, id, Part::Norms)) == file_at(
        b,
        part_path(root, id, Part::Norms),
    ));
    assert(file_at(a, part_path(root, id, Part::Ids)) == file_at(
        b,
        part_path(root, id, Part::Ids),
    ));
    assert(file_at(a, part_path(root, id, Part::Payloads)) == file_at(
        b,
        part_path(root, id, Part::Payloads),
    ));
    assert(p != Part::Dels || !ok ==> file_at(a, part_path(root, id, Part::Dels)) == file_at(
        b,
        part_path(root, id, Part::Dels),
    ));
    assert(p != Part::Overlay || !ok ==> file_at(a, part_path(root, id, Part::Overlay)) == file_at(
        b,
        part_path(root, id, Part::Overlay),
    ));
    assert(p != Part::Index || !ok ==> file_at(a, part_path(root, id, Part::Index)) == file_at(
        b,
        part_path(root, id, Part::Index),
    ));
}

/// The manifest, the log and the files of segments are apart.
pub proof fn lemma_places_apart(root: Seq<Seq<char>>, id: u64)
    ensures
        manifest_place(root) != log_place(root),
        extended(manifest_place(root), "tmp"@) != log_place(root),
        extended(manifest_place(root), "tmp"@) != manifest_place(root),
        !beneath(manifest_place(root), seg_path(root, id)),
        !beneath(log_place(root), seg_path(root, id)),
        !beneath(manifest_place(root), extended(seg_path(root, id), "tmp"@)),
        !beneath(log_place(root), extended(seg_path(root, id), "tmp"@)),
        manifest_place(root).len() == root.len() + 1,
        log_place(root).len() == root.len() + 1,
        extended(manifest_place(root), "tmp"@).len() == root.len() + 1,
        seg_path(root, id).len() == root.len() + 2,
{
    reveal_strlit("tmp");
    reveal_strlit("json");
    reveal_strlit("wal.log");
    let a = manifest_place(root);
    let t = extended(a, "tmp"@);
    let l = log_place(root);
    assert(a.last().last() == 'n');
    assert(t.last().last() == 'p');
    assert(l.last().last() == 'g');
}

} // verus!
