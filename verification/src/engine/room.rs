//! Whether storage has a place for what a database stores.

use vstd::prelude::*;

use crate::engine::database::Step;
use crate::engine::format::has_room;
use crate::segment::files::{lemma_parts_apart, part_path, Part};
use crate::storage::layout::{log_place, manifest_place, only_files, seg_path};
use crate::storage::path::{beneath, extended};
use crate::storage::{vacant, DirSet, FileMap};

verus! {

/// Whether a file may lie at a path: not above the directory of the segments, and not directly
/// in it; what is further down lies in a directory.
pub open spec fn well_placed(dirs: DirSet, root: Seq<Seq<char>>, p: Seq<Seq<char>>) -> bool {
    let segments = root.push("segments"@);
    &&& !beneath(segments, p)
    &&& beneath(p, segments) ==> p.len() > segments.len() + 1 && dirs.contains(p.drop_last())
}

/// Whether nothing is in the way of what a database stores: no file stands where a directory
/// has to be, and no directory where a file has to be.
pub open spec fn laid_out(files: FileMap, dirs: DirSet, root: Seq<Seq<char>>) -> bool {
    let segments = root.push("segments"@);
    &&& forall|p: Seq<Seq<char>>| #[trigger]
        files.contains_key(p) ==> well_placed(dirs, root, p)
    &&& forall|p: Seq<Seq<char>>| #[trigger]
        dirs.contains(p) && beneath(p, segments) ==> p.len() <= segments.len() + 1
    &&& !dirs.contains(manifest_place(root))
    &&& !dirs.contains(extended(manifest_place(root), "tmp"@))
    &&& !dirs.contains(log_place(root))
}

/// Whether there is room for what a database stores: the directories are there, and nothing is
/// in the way.
pub open spec fn roomy(files: FileMap, dirs: DirSet, root: Seq<Seq<char>>) -> bool {
    &&& laid_out(files, dirs, root)
    &&& dirs.contains(root)
    &&& dirs.contains(root.push("segments"@))
}

/// Whether the directory of the segment that a step changes is there.
pub open spec fn at_home(dirs: DirSet, root: Seq<Seq<char>>, step: Step) -> bool {
    match step {
        Step::WriteIndex(id, _) => dirs.contains(seg_path(root, id)),
        Step::WriteTombstones(id, _) => dirs.contains(seg_path(root, id)),
        Step::WriteOverlay(id, _) => dirs.contains(seg_path(root, id)),
        _ => true,
    }
}

/// The numbers of the segments that have a directory.
pub open spec fn standing(dirs: DirSet, root: Seq<Seq<char>>) -> Set<u64> {
    Set::new(|id: u64| dirs.contains(seg_path(root, id)))
}

/// The numbers of the segments that have a directory once a step was performed.
pub open spec fn standing_after(ids: Set<u64>, step: Step) -> Set<u64> {
    match step {
        Step::WriteSegment(parts) => ids.insert(parts.meta.seg_id),
        Step::RemoveSegment(id) => ids.remove(id),
        _ => ids,
    }
}

/// What lies at the path of a part of a segment.
proof fn lemma_part_place(root: Seq<Seq<char>>, id: u64, p: Part)
    ensures
        ({
            let path = part_path(root, id, p);
            let tmp = extended(path, "tmp"@);
            let segments = root.push("segments"@);
            &&& path.len() == segments.len() + 2
            &&& tmp.len() == segments.len() + 2
            &&& path.drop_last() == seg_path(root, id)
            &&& tmp.drop_last() == seg_path(root, id)
            &&& beneath(path, segments)
            &&& beneath(tmp, segments)
            &&& !beneath(segments, path)
            &&& !beneath(segments, tmp)
        }),
{
    let path = part_path(root, id, p);
    let tmp = extended(path, "tmp"@);
    let segments = root.push("segments"@);
    assert(path.drop_last() =~= seg_path(root, id));
    assert(tmp.drop_last() =~= seg_path(root, id));
    assert(path.take(segments.len() as int) =~= segments);
    assert(tmp.take(segments.len() as int) =~= segments);
}

/// The manifest and the log lie beside the directory of the segments.
pub proof fn lemma_root_places(root: Seq<Seq<char>>)
    ensures
        ({
            let segments = root.push("segments"@);
            let m = manifest_place(root);
            let t = extended(m, "tmp"@);
            let l = log_place(root);
            &&& m.drop_last() == root && t.drop_last() == root && l.drop_last() == root
            &&& m.len() == root.len() + 1 && t.len() == root.len() + 1 && l.len() == root.len() + 1
            &&& m != segments && t != segments && l != segments
            &&& !beneath(m, segments) && !beneath(t, segments) && !beneath(l, segments)
            &&& !beneath(segments, m) && !beneath(segments, t) && !beneath(segments, l)
        }),
{
    reveal_strlit("segments");
    reveal_strlit("manifest");
    reveal_strlit("json");
    reveal_strlit("tmp");
    reveal_strlit("wal.log");
    let segments = root.push("segments"@);
    let m = manifest_place(root);
    let t = extended(m, "tmp"@);
    let l = log_place(root);
    assert(m.drop_last() =~= root);
    assert(t.drop_last() =~= root);
    assert(l.drop_last() =~= root);
    assert(segments.last() == "segments"@ && segments.last().last() == 's');
    assert(m.last().last() == 'n');
    assert(t.last().last() == 'p');
    assert(l.last().last() == 'g');
    assert(m.take(m.len() as int) =~= m && t.take(t.len() as int) =~= t);
    assert(l.take(l.len() as int) =~= l);
    assert(segments.take(segments.len() as int) =~= segments);
}

/// Where there is room for everything, there is room for every step.
pub proof fn lemma_has_room(
    flat: bool,
    files: FileMap,
    dirs: DirSet,
    root: Seq<Seq<char>>,
    step: Step,
)
    requires
        roomy(files, dirs, root),
        at_home(dirs, root, step),
    ensures
        has_room(flat, files, dirs, root, step),
{
    let segments = root.push("segments"@);
    lemma_root_places(root);
    match step {
        Step::WriteSegment(parts) => {
            let dir = seg_path(root, parts.meta.seg_id);
            let staging = extended(dir, "tmp"@);
            assert(dir.take(segments.len() as int) =~= segments);
            assert(staging.take(segments.len() as int) =~= segments);
            assert forall|p: Seq<Seq<char>>| #[trigger] files.contains_key(p) implies !beneath(
                staging,
                p,
            ) by {
                if beneath(staging, p) {
                    if p.len() == staging.len() {
                        assert(p =~= staging);
                    } else {
                        assert(segments.take(p.len() as int) =~= staging.take(p.len() as int));
                    }
                }
            }
        },
        Step::WriteIndex(id, _) => {
            lemma_part_place(root, id, Part::Index);
        },
        Step::WriteTombstones(id, _) => {
            lemma_part_place(root, id, Part::Dels);
        },
        Step::WriteOverlay(id, _) => {
            lemma_part_place(root, id, Part::Overlay);
        },
        _ => {},
    }
}

/// There is room where files are added in their places.
pub proof fn lemma_room_files(
    files: FileMap,
    now: FileMap,
    dirs: DirSet,
    root: Seq<Seq<char>>,
)
    requires
        roomy(files, dirs, root),
        forall|p: Seq<Seq<char>>| #[trigger]
            now.contains_key(p) ==> files.contains_key(p) || well_placed(dirs, root, p),
    ensures
        roomy(now, dirs, root),
{
}

/// The file of a segment has its place.
pub proof fn lemma_part_placed(dirs: DirSet, root: Seq<Seq<char>>, id: u64, p: Part)
    requires
        dirs.contains(seg_path(root, id)),
    ensures
        well_placed(dirs, root, part_path(root, id, p)),
{
    lemma_part_place(root, id, p);
}

/// The directory of a segment whose files are there.
pub proof fn lemma_home(
    files: FileMap,
    dirs: DirSet,
    root: Seq<Seq<char>>,
    id: u64,
    p: Part,
)
    requires
        laid_out(files, dirs, root),
        files.contains_key(part_path(root, id, p)),
    ensures
        dirs.contains(seg_path(root, id)),
{
    lemma_part_place(root, id, p);
}

/// There is room once the directory of a segment was removed.
pub proof fn lemma_room_removed(
    files: FileMap,
    now: FileMap,
    dirs: DirSet,
    now_dirs: DirSet,
    root: Seq<Seq<char>>,
    dir: Seq<Seq<char>>,
)
    requires
        roomy(files, dirs, root),
        dir.len() == root.len() + 2,
        beneath(dir, root.push("segments"@)),
        now == files.remove_keys(Set::new(|p: Seq<Seq<char>>| beneath(p, dir))),
        now_dirs == dirs.difference(Set::new(|p: Seq<Seq<char>>| beneath(p, dir))),
    ensures
        roomy(now, now_dirs, root),
        vacant(now, now_dirs, dir),
{
    let segments = root.push("segments"@);
    assert forall|p: Seq<Seq<char>>| #[trigger] now.contains_key(p) implies well_placed(
        now_dirs,
        root,
        p,
    ) by {
        assert(files.contains_key(p));
        if beneath(p, segments) && beneath(p.drop_last(), dir) {
            assert(p.take(dir.len() as int) =~= p.drop_last().take(dir.len() as int));
        }
    }
}

/// There is room once a segment got its directory.
pub proof fn lemma_room_published(
    files: FileMap,
    now: FileMap,
    dirs: DirSet,
    now_dirs: DirSet,
    root: Seq<Seq<char>>,
    id: u64,
)
    requires
        roomy(files, dirs, root),
        ({
            let dir = seg_path(root, id);
            let staging = extended(dir, "tmp"@);
            &&& only_files(now, now_dirs, dir)
            &&& vacant(now, now_dirs, staging)
            &&& forall|p: Seq<Seq<char>>|
                !beneath(p, dir) && !beneath(p, staging) ==> (#[trigger] now.contains_key(p)
                    <==> files.contains_key(p))
            &&& forall|p: Seq<Seq<char>>| #[trigger]
                dirs.contains(p) && !beneath(p, staging) && !beneath(p, dir) ==> now_dirs.contains(
                    p,
                )
            &&& forall|p: Seq<Seq<char>>|
                !beneath(p, dir) && !beneath(p, staging) && !beneath(staging, p) ==> (
                #[trigger] now_dirs.contains(p) <==> dirs.contains(p))
        }),
    ensures
        roomy(now, now_dirs, root),
{
    let segments = root.push("segments"@);
    let dir = seg_path(root, id);
    let staging = extended(dir, "tmp"@);
    lemma_root_places(root);
    assert(dir.take(segments.len() as int) =~= segments);
    assert(staging.take(segments.len() as int) =~= segments);
    assert(staging.len() == segments.len() + 1);
    assert forall|p: Seq<Seq<char>>| #[trigger] now.contains_key(p) implies well_placed(
        now_dirs,
        root,
        p,
    ) by {
        if beneath(p, dir) {
            assert(p.drop_last() =~= dir);
        } else if !beneath(p, staging) {
            assert(files.contains_key(p));
            if beneath(p, segments) {
                let q = p.drop_last();
                assert(dirs.contains(q));
                if beneath(q, dir) {
                    assert(p.take(dir.len() as int) =~= q.take(dir.len() as int));
                }
                if beneath(q, staging) {
                    assert(p.take(staging.len() as int) =~= q.take(staging.len() as int));
                }
            }
        }
    }
    assert forall|p: Seq<Seq<char>>| #[trigger]
        now_dirs.contains(p) && beneath(p, segments) implies p.len() <= segments.len() + 1 by {
        if !beneath(p, dir) && !beneath(p, staging) && !beneath(staging, p) {
            assert(dirs.contains(p));
        }
    }
    assert forall|p: Seq<Seq<char>>| p.len() <= segments.len() implies !beneath(p, dir) && !beneath(
        p,
        staging,
    ) by {}
    assert forall|p: Seq<Seq<char>>|
        p.len() == segments.len() && p != segments implies !#[trigger] beneath(staging, p) by {
        if beneath(staging, p) {
            assert(p =~= segments);
        }
    }
}

/// The numbers of segments whose directories are not touched are the same.
pub proof fn lemma_standing(
    dirs: DirSet,
    now_dirs: DirSet,
    root: Seq<Seq<char>>,
    id: u64,
    there: bool,
)
    requires
        now_dirs.contains(seg_path(root, id)) == there,
        forall|p: Seq<Seq<char>>|
            !beneath(p, seg_path(root, id)) && !beneath(p, extended(seg_path(root, id), "tmp"@))
                && !beneath(extended(seg_path(root, id), "tmp"@), p) ==> (
            #[trigger] now_dirs.contains(p) <==> dirs.contains(p)),
    ensures
        standing(now_dirs, root) == (if there {
            standing(dirs, root).insert(id)
        } else {
            standing(dirs, root).remove(id)
        }),
{
    let dir = seg_path(root, id);
    let staging = extended(dir, "tmp"@);
    assert forall|x: u64| x != id implies now_dirs.contains(#[trigger] seg_path(root, x))
        == dirs.contains(seg_path(root, x)) by {
        let p = seg_path(root, x);
        lemma_parts_apart(root, x, Part::Meta, id, Part::Meta);
        lemma_part_place(root, x, Part::Meta);
        lemma_part_place(root, id, Part::Meta);
        if beneath(p, dir) {
            assert(p =~= dir);
            assert(part_path(root, x, Part::Meta) == part_path(root, id, Part::Meta));
        }
        if beneath(p, staging) || beneath(staging, p) {
            assert(p =~= staging);
            assert(beneath(part_path(root, x, Part::Meta), staging)) by {
                assert(part_path(root, x, Part::Meta).take(staging.len() as int) =~= staging);
            }
        }
    }
    let now = standing(now_dirs, root);
    if there {
        assert(now =~= standing(dirs, root).insert(id));
    } else {
        assert(now =~= standing(dirs, root).remove(id));
    }
}

} // verus!
