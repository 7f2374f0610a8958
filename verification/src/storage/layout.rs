//! Where the files of a database are.
//!
//! ```text
//! <root>/manifest             the manifest, with the extension `json`
//! <root>/wal.log              the log
//! <root>/segments/seg-<n>/    the files of a segment
//! <root>/segments/seg-<n>.tmp/   those of one that is being written
//! ```

use vstd::prelude::*;

use crate::error::{Error, IoError};
use crate::manifest::{references, Manifest, ManifestView};
use crate::storage::path::{beneath, child_of, extended, moved, path_set, stem, FsPath};
use crate::storage::{
    atomic_write, bytes_if_any, has_place, is_at, is_clear, is_readable, last_but, last_outside,
    moved_dirs, moved_files, origin, read_if_any, takes_file, vacant, Fs, StorageBackend,
};
use crate::text::{decimal, is_digit, law_decimal_round_trip, number_in, read_number, write_decimal};

verus! {

/// Whether a text ends with another.
pub open spec fn ends_with(s: Seq<char>, end: Seq<char>) -> bool {
    s.len() >= end.len() && s.skip(s.len() - end.len()) == end
}

/// The name of the directory of a segment.
pub open spec fn seg_name(id: u64) -> Seq<char> {
    "seg-"@ + decimal(id as nat)
}

/// The number of the segment whose directory has a name.
pub open spec fn number_named(name: Seq<char>) -> Option<nat> {
    if name.len() >= 4 && name.take(4) == "seg-"@ {
        number_in(name.skip(4))
    } else {
        None
    }
}

/// The path of the directory of a segment.
pub open spec fn seg_path(root: Seq<Seq<char>>, id: u64) -> Seq<Seq<char>> {
    root.push("segments"@).push(seg_name(id))
}

/// Whether a directory of this name belongs to a segment that a manifest has. One that was
/// still being written does not.
pub open spec fn is_kept(name: Seq<char>, m: ManifestView) -> bool {
    !ends_with(name, ".tmp"@) && match number_named(name) {
        Some(n) => references(m.entries, n as u64),
        None => false,
    }
}

/// The directory of a segment says its number, and is kept just as long as the manifest has
/// the segment.
pub proof fn law_segment_names(id: u64, m: ManifestView)
    ensures
        number_named(seg_name(id)) == Some(id as nat),
        is_kept(seg_name(id), m) == references(m.entries, id),
{
    reveal_strlit("seg-");
    reveal_strlit(".tmp");
    law_decimal_round_trip(id as nat);
    let name = seg_name(id);
    let digits = decimal(id as nat);
    assert(name.take(4) =~= "seg-"@);
    assert(name.skip(4) =~= digits);
    if ends_with(name, ".tmp"@) {
        let tail = name.skip(name.len() - 4);
        assert(tail[3] == 'p');
        assert(tail[3] == digits[digits.len() - 1]);
        assert(is_digit(digits[digits.len() - 1]));
    }
}

/// The directory of a segment that is still being written is never kept.
pub proof fn law_staging_is_not_kept(root: Seq<Seq<char>>, id: u64, m: ManifestView)
    ensures
        extended(seg_path(root, id), "tmp"@).last() == seg_name(id) + ".tmp"@,
        !is_kept(seg_name(id) + ".tmp"@, m),
{
    reveal_strlit("seg-");
    reveal_strlit(".tmp");
    reveal_strlit("tmp");
    law_decimal_round_trip(id as nat);
    let name = seg_name(id);
    let digits = decimal(id as nat);
    assert forall|i: int| 0 <= i < name.len() implies #[trigger] name[i] != '.' by {
        if i >= 4 {
            assert(name[i] == digits[i - 4]);
            assert(is_digit(digits[i - 4]));
        }
    }
    lemma_no_dot(name);
    assert(stem(name).push('.') + "tmp"@ =~= name + ".tmp"@);
    let all = name + ".tmp"@;
    assert(all.skip(all.len() - 4) =~= ".tmp"@);
}

/// A name without a dot has no last dot.
proof fn lemma_no_dot(s: Seq<char>)
    requires
        forall|i: int| 0 <= i < s.len() ==> #[trigger] s[i] != '.',
    ensures
        crate::storage::path::last_dot(s) is None,
    decreases s.len(),
{
    if s.len() > 0 {
        let rest = s.drop_last();
        assert forall|i: int| 0 <= i < rest.len() implies #[trigger] rest[i] != '.' by {
            assert(s[i] != '.');
        }
        assert(s[s.len() - 1] != '.');
        lemma_no_dot(rest);
    }
}

/// The name of the directory of a segment.
pub fn segment_name(id: u64) -> (r: String)
    ensures
        r@ == seg_name(id),
{
    let mut r: String = "seg-".to_owned();
    let digits = write_decimal(id);
    r.append(digits.as_str());
    r
}

/// The number of the segment whose directory has a name.
pub fn segment_number(name: &str) -> (r: Option<u64>)
    ensures
        match r {
            Some(n) => number_named(name@) == Some(n as nat),
            None => number_named(name@) is None,
        },
{
    proof {
        reveal_strlit("seg-");
    }
    let len: usize = name.unicode_len();
    if len < 4 {
        return None;
    }
    if name.get_char(0) == 's' && name.get_char(1) == 'e' && name.get_char(2) == 'g'
        && name.get_char(3) == '-' {
        assert(name@.take(4) =~= "seg-"@);
        let rest = name.substring_char(4, len);
        assert(rest@ =~= name@.skip(4));
        read_number(rest)
    } else {
        proof {
            if name@.take(4) == "seg-"@ {
                assert(name@.take(4)[0] == name@[0] && name@.take(4)[1] == name@[1]);
                assert(name@.take(4)[2] == name@[2] && name@.take(4)[3] == name@[3]);
            }
        }
        None
    }
}

/// The path of the directory of a segment.
pub fn segment_dir(root: &FsPath, id: u64) -> (r: FsPath)
    ensures
        r@ == seg_path(root@, id),
{
    let name = segment_name(id);
    root.join("segments").join(name.as_str())
}

/// The path of the directory of a segment that is still being written.
pub fn staging_dir(root: &FsPath, id: u64) -> (r: FsPath)
    ensures
        r@ == extended(seg_path(root@, id), "tmp"@),
{
    segment_dir(root, id).with_extension("tmp")
}

/// Whether a directory of this name belongs to a segment that the manifest has.
pub fn keeps_directory(name: &str, manifest: &Manifest) -> (r: bool)
    ensures
        r == is_kept(name@, manifest@),
{
    proof {
        reveal_strlit(".tmp");
    }
    let len: usize = name.unicode_len();
    if len >= 4 && name.get_char(len - 4) == '.' && name.get_char(len - 3) == 't' && name.get_char(
        len - 2,
    ) == 'm' && name.get_char(len - 1) == 'p' {
        assert(name@.skip(len - 4) =~= ".tmp"@);
        return false;
    }
    proof {
        if ends_with(name@, ".tmp"@) {
            let tail = name@.skip(len - 4);
            assert(tail[0] == name@[len - 4] && tail[1] == name@[len - 3]);
            assert(tail[2] == name@[len - 2] && tail[3] == name@[len - 1]);
        }
    }
    match segment_number(name) {
        Some(id) => manifest.references_segment(id),
        None => false,
    }
}

/// Whether a path leads through a directory among the segments that is not kept.
pub open spec fn is_orphaned(p: Seq<Seq<char>>, root: Seq<Seq<char>>, m: ManifestView) -> bool {
    let dir = root.push("segments"@);
    p.len() > dir.len() && p.take(dir.len() as int) == dir && !is_kept(p[dir.len() as int], m)
}

/// Whether a path leads through a directory among the segments.
pub open spec fn in_segment_dir(
    p: Seq<Seq<char>>,
    root: Seq<Seq<char>>,
    files: Map<Seq<Seq<char>>, Seq<u8>>,
    dirs: Set<Seq<Seq<char>>>,
) -> bool {
    let child = p.take(root.len() + 2int);
    dirs.contains(child) && !files.contains_key(child)
}

/// Removes what lies among the segments and does not belong to one that the manifest has:
/// what was left behind when writing a segment was cut short, and segments that were no
/// longer needed. All else stays. Something that cannot be removed is left; reliable storage
/// leaves no directory of that kind.
pub fn gc_orphan_segments<F: Fs>(fs: &mut F, root: &FsPath, manifest: &Manifest) -> (r: Result<
    (),
    IoError,
>)
    requires
        old(fs).sound(),
    ensures
        final(fs).sound(),
        r is Err ==> final(fs).files() == old(fs).files() && final(fs).dirs() == old(fs).dirs(),
        final(fs).files().submap_of(old(fs).files()),
        final(fs).dirs().subset_of(old(fs).dirs()),
        forall|p: Seq<Seq<char>>| #[trigger]
            old(fs).dirs().contains(p) && !is_orphaned(p, root@, manifest@) ==> final(fs).dirs().contains(p),
        forall|p: Seq<Seq<char>>| #[trigger]
            old(fs).lasting().contains(p) && !is_orphaned(p, root@, manifest@) ==> final(fs).lasting().contains(p),
        old(fs).reliable() && r is Ok ==> forall|p: Seq<Seq<char>>| #[trigger]
            final(fs).dirs().contains(p) && is_orphaned(p, root@, manifest@)
                ==> !in_segment_dir(p, root@, old(fs).files(), old(fs).dirs()),
        forall|p: Seq<Seq<char>>| #[trigger]
            old(fs).files().contains_key(p) && !is_orphaned(p, root@, manifest@) ==> final(fs).files().contains_key(p),
        old(fs).reliable() ==> final(fs).reliable(),
        old(fs).reliable() && old(fs).dirs().contains(root@.push("segments"@)) ==> r is Ok,
        old(fs).reliable() && r is Ok ==> forall|p: Seq<Seq<char>>| #[trigger]
            final(fs).files().contains_key(p) && is_orphaned(p, root@, manifest@)
                ==> !in_segment_dir(p, root@, old(fs).files(), old(fs).dirs()),
{
    let ghost before = fs.files();
    let ghost dirs = fs.dirs();
    let ghost lasting = fs.lasting();
    let ghost reliable = fs.reliable();
    let dir = root.join("segments");
    let children = match fs.list_dir(&dir) {
        Ok(v) => v,
        Err(e) => {
            return Err(e);
        },
    };
    let mut i: usize = 0;
    let ghost listed = path_set(children@);
    while i < children.len()
        invariant
            i <= children@.len(),
            fs.sound(),
            dir@ == root@.push("segments"@),
            listed == path_set(children@),
            forall|p: Seq<Seq<char>>| #[trigger] listed.contains(p) ==> child_of(p, dir@),
            fs.files().submap_of(before),
            forall|p: Seq<Seq<char>>| #[trigger]
                before.contains_key(p) && !is_orphaned(p, root@, manifest@)
                    ==> fs.files().contains_key(p),
            fs.dirs().subset_of(dirs),
            forall|p: Seq<Seq<char>>| #[trigger]
                dirs.contains(p) && !is_orphaned(p, root@, manifest@) ==> fs.dirs().contains(p),
            forall|p: Seq<Seq<char>>| #[trigger]
                lasting.contains(p) && !is_orphaned(p, root@, manifest@) ==> fs.lasting().contains(
                    p,
                ),
            reliable ==> fs.reliable(),
            reliable ==> forall|k: int, p: Seq<Seq<char>>|
                0 <= k < i && #[trigger] fs.dirs().contains(p) && #[trigger] beneath(
                    p,
                    children@[k]@,
                ) && !before.contains_key(children@[k]@) ==> is_kept(
                    children@[k]@.last(),
                    manifest@,
                ),
            reliable ==> forall|k: int, p: Seq<Seq<char>>|
                0 <= k < i && #[trigger] fs.files().contains_key(p) && #[trigger] beneath(
                    p,
                    children@[k]@,
                ) && !before.contains_key(children@[k]@) ==> is_kept(
                    children@[k]@.last(),
                    manifest@,
                ),
        decreases children.len() - i,
    {
        let child = &children[i];
        assert(listed.contains(child@));
        let keep: bool = match child.file_name() {
            Some(name) => keeps_directory(name, manifest),
            None => true,
        };
        if !keep {
            let ghost mid = fs.files();
            let ghost mid_dirs = fs.dirs();
            let ghost mid_lasting = fs.lasting();
            let gone = fs.remove_dir_all(child);
            proof {
                assert(child@.drop_last() =~= dir@);
                assert forall|p: Seq<Seq<char>>| #[trigger] beneath(
                    p,
                    child@,
                ) implies is_orphaned(p, root@, manifest@) by {
                    let n = dir@.len() as int;
                    assert(p.take(child@.len() as int)[n] == p[n]);
                    assert(p.take(n) =~= p.take(child@.len() as int).take(n));
                    assert(child@.take(n) =~= dir@);
                }
                let out_dirs = mid_dirs.difference(
                    Set::new(|p: Seq<Seq<char>>| beneath(p, child@)),
                );
                assert forall|p: Seq<Seq<char>>| #[trigger]
                    dirs.contains(p) && !is_orphaned(p, root@, manifest@) implies fs.dirs().contains(
                    p,
                ) by {
                    assert(mid_dirs.contains(p));
                    assert(out_dirs.contains(p));
                }
                assert forall|p: Seq<Seq<char>>| #[trigger]
                    lasting.contains(p) && !is_orphaned(
                        p,
                        root@,
                        manifest@,
                    ) implies fs.lasting().contains(p) by {
                    assert(mid_lasting.contains(p));
                }
                let out = mid.remove_keys(Set::new(|p: Seq<Seq<char>>| beneath(p, child@)));
                assert forall|p: Seq<Seq<char>>| #[trigger]
                    before.contains_key(p) && !is_orphaned(
                        p,
                        root@,
                        manifest@,
                    ) implies fs.files().contains_key(p) by {
                    assert(mid.contains_key(p));
                    if beneath(p, child@) {
                        let n = dir@.len() as int;
                        assert(p.take(child@.len() as int)[n] == p[n]);
                        assert(p.take(n) =~= p.take(child@.len() as int).take(n));
                        assert(child@.take(n) =~= dir@);
                        assert(is_orphaned(p, root@, manifest@));
                    }
                    assert(out.contains_key(p));
                }
                assert forall|p: Seq<Seq<char>>| #[trigger]
                    fs.files().contains_key(p) implies before.contains_key(p) && before[p]
                    == fs.files()[p] by {
                    assert(mid.contains_key(p));
                    assert(before.contains_key(p));
                }
                if reliable && !before.contains_key(child@) {
                    assert(!mid.contains_key(child@));
                    assert(gone is Ok && fs.files() == out && fs.dirs() == out_dirs);
                }
                assert(reliable ==> forall|k: int, p: Seq<Seq<char>>|
                    0 <= k <= i && #[trigger] fs.dirs().contains(p) && #[trigger] beneath(
                        p,
                        children@[k]@,
                    ) && !before.contains_key(children@[k]@) ==> is_kept(
                        children@[k]@.last(),
                        manifest@,
                    )) by {
                    if reliable {
                        assert forall|k: int, p: Seq<Seq<char>>|
                            0 <= k <= i && #[trigger] fs.dirs().contains(p)
                                && #[trigger] beneath(p, children@[k]@) && !before.contains_key(
                                children@[k]@,
                            ) implies is_kept(children@[k]@.last(), manifest@) by {
                            assert(mid_dirs.contains(p));
                        }
                    }
                }
                assert(reliable ==> forall|k: int, p: Seq<Seq<char>>|
                    0 <= k <= i && #[trigger] fs.files().contains_key(p) && #[trigger] beneath(
                        p,
                        children@[k]@,
                    ) && !before.contains_key(children@[k]@) ==> is_kept(
                        children@[k]@.last(),
                        manifest@,
                    )) by {
                    if reliable {
                        assert forall|k: int, p: Seq<Seq<char>>|
                            0 <= k <= i && #[trigger] fs.files().contains_key(p)
                                && #[trigger] beneath(p, children@[k]@) && !before.contains_key(
                                children@[k]@,
                            ) implies is_kept(children@[k]@.last(), manifest@) by {
                            assert(mid.contains_key(p));
                        }
                    }
                }
            }
        }
        i = i + 1;
    }
    proof {
        if reliable {
            assert forall|p: Seq<Seq<char>>| #[trigger]
                fs.dirs().contains(p) && is_orphaned(
                    p,
                    root@,
                    manifest@,
                ) implies !in_segment_dir(p, root@, before, dirs) by {
                let n = dir@.len() as int;
                let child = p.take(n + 1);
                if dirs.contains(child) && !before.contains_key(child) {
                    assert(child.drop_last() =~= p.take(n));
                    assert(listed.contains(child));
                    let k = choose|k: int| 0 <= k < children@.len() && children@[k]@ == child;
                    assert(beneath(p, children@[k]@));
                    assert(child.last() == p[n]);
                }
            }
            assert forall|p: Seq<Seq<char>>| #[trigger]
                fs.files().contains_key(p) && is_orphaned(
                    p,
                    root@,
                    manifest@,
                ) implies !in_segment_dir(p, root@, before, dirs) by {
                let n = dir@.len() as int;
                let child = p.take(n + 1);
                if dirs.contains(child) && !before.contains_key(child) {
                    assert(child.drop_last() =~= p.take(n));
                    assert(listed.contains(child));
                    let k = choose|k: int| 0 <= k < children@.len() && children@[k]@ == child;
                    assert(beneath(p, children@[k]@));
                    assert(child.last() == p[n]);
                }
            }
        }
    }
    Ok(())
}

/// The files once some were written into a directory, each as a whole, one after the other.
pub open spec fn placed(
    files: Map<Seq<Seq<char>>, Seq<u8>>,
    dir: Seq<Seq<char>>,
    list: Seq<(String, Vec<u8>)>,
) -> Map<Seq<Seq<char>>, Seq<u8>>
    decreases list.len(),
{
    if list.len() == 0 {
        files
    } else {
        let path = dir.push(list.last().0@);
        placed(files, dir, list.drop_last()).remove(extended(path, "tmp"@)).insert(
            path,
            list.last().1@,
        )
    }
}

/// Whether files are the same but for those beneath a directory.
pub open spec fn same_outside(
    a: Map<Seq<Seq<char>>, Seq<u8>>,
    b: Map<Seq<Seq<char>>, Seq<u8>>,
    dir: Seq<Seq<char>>,
) -> bool {
    let inside = Set::new(|p: Seq<Seq<char>>| beneath(p, dir));
    a.remove_keys(inside) == b.remove_keys(inside)
}

/// Whether files can be written into a directory that then gets another name: nothing is at
/// either path, no file stands above the one, and the other has a place.
pub open spec fn can_publish(
    files: Map<Seq<Seq<char>>, Seq<u8>>,
    dirs: Set<Seq<Seq<char>>>,
    staging: Seq<Seq<char>>,
    dir: Seq<Seq<char>>,
) -> bool {
    &&& vacant(files, dirs, staging)
    &&& vacant(files, dirs, dir)
    &&& is_clear(files, staging)
    &&& has_place(dirs, dir)
}

/// Whether a directory is there, with files directly in it and nothing else.
pub open spec fn only_files(
    files: Map<Seq<Seq<char>>, Seq<u8>>,
    dirs: Set<Seq<Seq<char>>>,
    dir: Seq<Seq<char>>,
) -> bool {
    &&& dirs.contains(dir)
    &&& forall|p: Seq<Seq<char>>| #[trigger] dirs.contains(p) && beneath(p, dir) ==> p == dir
    &&& forall|p: Seq<Seq<char>>| #[trigger]
        files.contains_key(p) && beneath(p, dir) ==> p.len() == dir.len() + 1
}

/// Writes the files of a directory that appears as a whole: they are written into another
/// directory, which then gets its name. Where this fails, only that other directory may be
/// left behind. Reliable storage takes the files where nothing is at either path, no file
/// stands above, and the directory has a place.
pub fn publish<F: Fs>(
    fs: &mut F,
    staging: &FsPath,
    dir: &FsPath,
    list: &Vec<(String, Vec<u8>)>,
) -> (r: Result<(), Error>)
    requires
        old(fs).sound(),
        !old(fs).files().contains_key(staging@),
        !beneath(staging@, dir@),
        !beneath(dir@, staging@),
    ensures
        final(fs).sound(),
        r is Err ==> same_outside(final(fs).files(), old(fs).files(), staging@),
        r is Ok && vacant(old(fs).files(), old(fs).dirs(), dir@) ==> final(fs).files()
            == moved_files(placed(old(fs).files(), staging@, list@), staging@, dir@),
        r is Ok && vacant(old(fs).files(), old(fs).dirs(), dir@) ==> forall|p: Seq<Seq<char>>|
            #[trigger] final(fs).dirs().contains(p) && beneath(p, dir@) ==> p == dir@ || old(
                fs,
            ).dirs().contains(moved(p, dir@, staging@)),
        r matches Err(e) ==> e is Io,
        r is Ok && vacant(old(fs).files(), old(fs).dirs(), dir@) && vacant(
            old(fs).files(),
            old(fs).dirs(),
            staging@,
        ) ==> only_files(final(fs).files(), final(fs).dirs(), dir@) && vacant(
            final(fs).files(),
            final(fs).dirs(),
            staging@,
        ),
        forall|p: Seq<Seq<char>>| #[trigger]
            final(fs).dirs().contains(p) && !beneath(p, staging@) && !(r is Ok && beneath(p, dir@))
                && vacant(old(fs).files(), old(fs).dirs(), dir@) ==> old(fs).dirs().contains(p)
                || beneath(staging@, p),
        vacant(old(fs).files(), old(fs).dirs(), dir@) ==> forall|p: Seq<Seq<char>>| #[trigger]
            old(fs).dirs().contains(p) && !beneath(p, staging@) ==> final(fs).dirs().contains(p),
        vacant(old(fs).files(), old(fs).dirs(), dir@) ==> forall|p: Seq<Seq<char>>| #[trigger]
            old(fs).lasting().contains(p) && !beneath(p, staging@) && !beneath(p, dir@)
                ==> final(fs).lasting().contains(p),
        r is Ok && vacant(old(fs).files(), old(fs).dirs(), dir@) && names_apart(staging@, list@)
            ==> forall|i: int|
            0 <= i < list@.len() ==> final(fs).lasting().contains(
                dir@.push((#[trigger] list@[i]).0@),
            ),
        old(fs).reliable() ==> final(fs).reliable(),
        old(fs).reliable() && can_publish(old(fs).files(), old(fs).dirs(), staging@, dir@)
            ==> r is Ok,
{
    let ghost before = fs.files();
    let ghost dirs = fs.dirs();
    let ghost lasting = fs.lasting();
    let ghost able = fs.reliable() && can_publish(before, dirs, staging@, dir@);
    match fs.create_dir_all(staging) {
        Ok(_) => {},
        Err(e) => {
            return Err(Error::Io(e));
        },
    }
    let ghost made = fs.dirs();
    proof {
        if able {
            assert forall|p: Seq<Seq<char>>| #[trigger] made.contains(p) && beneath(
                p,
                staging@,
            ) implies p == staging@ by {
                assert(!dirs.contains(p));
                assert(p.take(staging@.len() as int) =~= p);
            }
        }
    }
    let mut i: usize = 0;
    assert(list@.take(0) =~= Seq::<(String, Vec<u8>)>::empty());
    while i < list.len()
        invariant
            i <= list@.len(),
            fs.sound(),
            before == old(fs).files(),
            fs.files() == placed(before, staging@, list@.take(i as int)),
            fs.dirs() == made,
            same_outside(fs.files(), before, staging@),
            !fs.files().contains_key(staging@),
            made == fs.dirs(),
            made.contains(staging@),
            forall|p: Seq<Seq<char>>| #[trigger]
                made.contains(p) ==> dirs.contains(p) || beneath(staging@, p),
            dirs == old(fs).dirs(),
            dirs.subset_of(made),
            lasting == old(fs).lasting(),
            last_outside(lasting, fs.lasting(), staging@),
            names_apart(staging@, list@) ==> forall|k: int|
                0 <= k < i ==> fs.lasting().contains(staging@.push((#[trigger] list@[k]).0@)),
            old(fs).reliable() ==> fs.reliable(),
            able == (old(fs).reliable() && can_publish(before, old(fs).dirs(), staging@, dir@)),
            able ==> fs.reliable() && made.contains(staging@) && forall|p: Seq<Seq<char>>|
                #[trigger] made.contains(p) && beneath(p, staging@) ==> p == staging@,
        decreases list.len() - i,
    {
        let path = staging.join(list[i].0.as_str());
        let ghost mid = fs.files();
        let ghost mid_lasting = fs.lasting();
        let ghost tmp = extended(path@, "tmp"@);
        proof {
            lemma_inside(staging@, list@[i as int].0@);
            assert(path@.drop_last() =~= staging@);
            assert(tmp.drop_last() =~= staging@);
            if able {
                assert(has_place(made, path@) && has_place(made, tmp));
            }
        }
        match atomic_write(fs, &path, list[i].1.as_slice()) {
            Ok(_) => {},
            Err(e) => {
                assert(same_outside(fs.files(), before, staging@)) by {
                    lemma_same_outside(fs.files(), mid, staging@, tmp);
                }
                return Err(e);
            },
        }
        proof {
            assert(last_outside(lasting, fs.lasting(), staging@)) by {
                assert forall|p: Seq<Seq<char>>| #[trigger]
                    lasting.contains(p) && !beneath(p, staging@) implies fs.lasting().contains(
                    p,
                ) by {
                    assert(mid_lasting.contains(p));
                }
            }
            if names_apart(staging@, list@) {
                assert forall|k: int| 0 <= k <= i implies fs.lasting().contains(
                    staging@.push((#[trigger] list@[k]).0@),
                ) by {
                    let q = staging@.push(list@[k].0@);
                    assert(path@ == staging@.push(list@[i as int].0@));
                    if k < i {
                        assert(list@[k].0@ != list@[i as int].0@);
                        assert(q != path@) by {
                            assert(q.last() == list@[k].0@);
                            assert(path@.last() == list@[i as int].0@);
                        }
                        assert(q != tmp);
                        assert(mid_lasting.contains(q));
                    }
                }
            }
            assert(list@.take(i + 1).drop_last() =~= list@.take(i as int));
            assert(mid.remove(tmp).remove(tmp) =~= mid.remove(tmp));
            lemma_same_outside(mid.remove(tmp), mid, staging@, tmp);
            assert(fs.files().remove(path@) =~= mid.remove(tmp).remove(path@));
            lemma_same_outside(fs.files(), mid.remove(tmp), staging@, path@);
        }
        i = i + 1;
    }
    assert(list@.take(list@.len() as int) =~= list@);
    let ghost full = fs.files();
    let ghost full_lasting = fs.lasting();
    proof {
        if able {
            lemma_still_vacant(before, full, dirs, made, staging@, dir@);
            assert(has_place(made, dir@)) by {
                assert(made.contains(dir@.drop_last()));
                if made.contains(dir@) {
                    assert(dir@.take(dir@.len() as int) =~= dir@);
                }
            }
        }
    }
    match fs.rename(staging, dir) {
        Ok(_) => {
            proof {
                if vacant(before, dirs, dir@) {
                    lemma_still_vacant(before, full, dirs, made, staging@, dir@);
                    assert forall|p: Seq<Seq<char>>| #[trigger]
                        dirs.contains(p) && !beneath(p, staging@) implies fs.dirs().contains(p) by {
                        assert(!beneath(p, dir@));
                        assert(origin(p, staging@, dir@) == Some(p));
                    }
                    let carried = moved_dirs(full_lasting, staging@, dir@);
                    assert forall|p: Seq<Seq<char>>| #[trigger]
                        lasting.contains(p) && !beneath(p, staging@) && !beneath(
                            p,
                            dir@,
                        ) implies fs.lasting().contains(p) by {
                        assert(full_lasting.contains(p));
                        assert(origin(p, staging@, dir@) == Some(p));
                        assert(carried.contains(p));
                    }
                    if names_apart(staging@, list@) {
                        assert forall|i: int| 0 <= i < list@.len() implies fs.lasting().contains(
                            dir@.push((#[trigger] list@[i]).0@),
                        ) by {
                            let q = dir@.push(list@[i].0@);
                            assert(q.take(dir@.len() as int) =~= dir@);
                            assert(staging@ + q.skip(dir@.len() as int) =~= staging@.push(
                                list@[i].0@,
                            ));
                            assert(full_lasting.contains(staging@.push(list@[i].0@)));
                            assert(carried.contains(q));
                        }
                    }
                    assert forall|p: Seq<Seq<char>>| #[trigger] fs.dirs().contains(p) && beneath(
                        p,
                        dir@,
                    ) implies p == dir@ || dirs.contains(moved(p, dir@, staging@)) by {
                        let q = moved(p, dir@, staging@);
                        assert(made.contains(q));
                        if beneath(staging@, q) {
                            assert(q.len() == staging@.len());
                            assert(p =~= p.take(dir@.len() as int));
                        }
                    }
                    if vacant(before, dirs, staging@) {
                        lemma_new_directory(
                            before,
                            dirs,
                            made,
                            fs.files(),
                            fs.dirs(),
                            staging@,
                            dir@,
                            list@,
                        );
                    }
                }
            }
            Ok(())
        },
        Err(e) => Err(Error::Io(e)),
    }
}

/// A directory that was published has the files that were written, and nothing else.
proof fn lemma_new_directory(
    before: Map<Seq<Seq<char>>, Seq<u8>>,
    dirs: Set<Seq<Seq<char>>>,
    made: Set<Seq<Seq<char>>>,
    now: Map<Seq<Seq<char>>, Seq<u8>>,
    now_dirs: Set<Seq<Seq<char>>>,
    staging: Seq<Seq<char>>,
    dir: Seq<Seq<char>>,
    list: Seq<(String, Vec<u8>)>,
)
    requires
        vacant(before, dirs, dir),
        vacant(before, dirs, staging),
        now == moved_files(placed(before, staging, list), staging, dir),
        now_dirs == moved_dirs(made, staging, dir),
        made.contains(staging),
        forall|p: Seq<Seq<char>>| #[trigger]
            made.contains(p) ==> dirs.contains(p) || beneath(staging, p),
        !beneath(staging, dir),
        !beneath(dir, staging),
    ensures
        only_files(now, now_dirs, dir),
        vacant(now, now_dirs, staging),
{
    assert(dir.take(dir.len() as int) =~= dir);
    assert(dir.skip(dir.len() as int) =~= Seq::<Seq<char>>::empty());
    assert(moved(dir, dir, staging) =~= staging);
    assert(origin(dir, staging, dir) == Some(staging));
    assert forall|p: Seq<Seq<char>>| #[trigger]
        now_dirs.contains(p) && beneath(p, dir) implies p == dir by {
        let q = moved(p, dir, staging);
        assert(made.contains(q));
        assert(q.take(staging.len() as int) =~= staging);
        assert(q.len() == staging.len());
        assert(p =~= p.take(dir.len() as int));
    }
    assert forall|p: Seq<Seq<char>>| #[trigger]
        now.contains_key(p) && beneath(p, dir) implies p.len() == dir.len() + 1 by {
        let q = moved(p, dir, staging);
        assert(q.take(staging.len() as int) =~= staging);
        lemma_placed_flat(before, dirs, staging, list, q);
    }
    assert forall|p: Seq<Seq<char>>| #[trigger] now.contains_key(p) implies !beneath(
        p,
        staging,
    ) by {
        if beneath(p, staging) && beneath(p, dir) {
            lemma_two_ways(p, dir, staging);
        }
    }
    assert forall|p: Seq<Seq<char>>| #[trigger] now_dirs.contains(p) implies !beneath(
        p,
        staging,
    ) by {
        if beneath(p, staging) && beneath(p, dir) {
            lemma_two_ways(p, dir, staging);
        }
    }
}

/// Files that were written into an empty directory lie directly in it.
proof fn lemma_placed_flat(
    files: Map<Seq<Seq<char>>, Seq<u8>>,
    dirs: Set<Seq<Seq<char>>>,
    dir: Seq<Seq<char>>,
    list: Seq<(String, Vec<u8>)>,
    p: Seq<Seq<char>>,
)
    requires
        vacant(files, dirs, dir),
        placed(files, dir, list).contains_key(p),
        beneath(p, dir),
    ensures
        p.len() == dir.len() + 1,
    decreases list.len(),
{
    if list.len() > 0 && p != dir.push(list.last().0@) {
        lemma_placed_flat(files, dirs, dir, list.drop_last(), p);
    }
}

/// What lies directly in a directory lies beneath it, and is not the directory.
proof fn lemma_inside(dir: Seq<Seq<char>>, name: Seq<char>)
    ensures
        beneath(dir.push(name), dir),
        beneath(extended(dir.push(name), "tmp"@), dir),
        dir.push(name) != dir,
        extended(dir.push(name), "tmp"@) != dir,
{
    let path = dir.push(name);
    let tmp = extended(path, "tmp"@);
    assert(path.drop_last() =~= dir);
    assert(path.take(dir.len() as int) =~= dir);
    assert(tmp.take(dir.len() as int) =~= dir);
    assert(path.len() != dir.len() && tmp.len() != dir.len());
}

/// Changing what lies beneath a directory changes nothing outside.
proof fn lemma_same_outside(
    a: Map<Seq<Seq<char>>, Seq<u8>>,
    b: Map<Seq<Seq<char>>, Seq<u8>>,
    dir: Seq<Seq<char>>,
    p: Seq<Seq<char>>,
)
    requires
        beneath(p, dir),
        a.remove(p) == b.remove(p),
    ensures
        same_outside(a, b, dir),
{
    let inside = Set::new(|q: Seq<Seq<char>>| beneath(q, dir));
    let x = a.remove_keys(inside);
    let y = b.remove_keys(inside);
    assert forall|q: Seq<Seq<char>>| !beneath(q, dir) implies (#[trigger] a.contains_key(q)
        <==> b.contains_key(q)) && a[q] == b[q] by {
        assert(q != p);
        assert(a.contains_key(q) <==> a.remove(p).contains_key(q));
        assert(b.contains_key(q) <==> b.remove(p).contains_key(q));
        assert(a.remove(p)[q] == b.remove(p)[q]);
    }
    assert forall|q: Seq<Seq<char>>| #[trigger] x.contains_key(q) <==> y.contains_key(q) by {
        assert(x.contains_key(q) <==> a.contains_key(q) && !beneath(q, dir));
        assert(y.contains_key(q) <==> b.contains_key(q) && !beneath(q, dir));
    }
    assert forall|q: Seq<Seq<char>>| #[trigger] x.contains_key(q) implies x[q] == y[q] by {
        assert(a.contains_key(q) && !beneath(q, dir));
    }
    assert(x =~= y);
}

/// Where nothing lay beneath a directory, nothing does after files were written elsewhere.
proof fn lemma_still_vacant(
    before: Map<Seq<Seq<char>>, Seq<u8>>,
    after: Map<Seq<Seq<char>>, Seq<u8>>,
    dirs: Set<Seq<Seq<char>>>,
    made: Set<Seq<Seq<char>>>,
    staging: Seq<Seq<char>>,
    dir: Seq<Seq<char>>,
)
    requires
        vacant(before, dirs, dir),
        same_outside(after, before, staging),
        forall|p: Seq<Seq<char>>| #[trigger]
            made.contains(p) ==> dirs.contains(p) || beneath(staging, p),
        !beneath(staging, dir),
        !beneath(dir, staging),
    ensures
        vacant(after, made, dir),
{
    let inside = Set::new(|q: Seq<Seq<char>>| beneath(q, staging));
    assert forall|q: Seq<Seq<char>>| #[trigger] after.contains_key(q) implies !beneath(q, dir) by {
        if beneath(q, dir) {
            if beneath(q, staging) {
                lemma_two_ways(q, dir, staging);
            } else {
                assert(after.remove_keys(inside).contains_key(q));
                assert(before.remove_keys(inside).contains_key(q));
            }
        }
    }
    assert forall|q: Seq<Seq<char>>| #[trigger] made.contains(q) implies !beneath(q, dir) by {
        if beneath(q, dir) && beneath(staging, q) {
            let n = dir.len() as int;
            assert(staging.take(n) =~= staging.take(q.len() as int).take(n));
            assert(beneath(staging, dir));
        }
    }
}

/// What lies beneath two directories shows that one lies beneath the other.
proof fn lemma_two_ways(q: Seq<Seq<char>>, a: Seq<Seq<char>>, b: Seq<Seq<char>>)
    requires
        beneath(q, a),
        beneath(q, b),
    ensures
        beneath(a, b) || beneath(b, a),
{
    if a.len() <= b.len() {
        assert(b.take(a.len() as int) =~= q.take(b.len() as int).take(a.len() as int));
        assert(q.take(b.len() as int).take(a.len() as int) =~= q.take(a.len() as int));
    } else {
        assert(a.take(b.len() as int) =~= q.take(a.len() as int).take(b.len() as int));
        assert(q.take(a.len() as int).take(b.len() as int) =~= q.take(b.len() as int));
    }
}

/// Whether files have different names, and none has the name under which another one is
/// written.
pub open spec fn names_apart(dir: Seq<Seq<char>>, list: Seq<(String, Vec<u8>)>) -> bool {
    &&& forall|i: int, j: int|
        0 <= i < j < list.len() ==> (#[trigger] list[i]).0@ != (#[trigger] list[j]).0@
    &&& forall|i: int, j: int|
        0 <= i < list.len() && 0 <= j < list.len() ==> dir.push((#[trigger] list[i]).0@)
            != extended(dir.push((#[trigger] list[j]).0@), "tmp"@)
}

/// The files of a directory that was published are those that were given.
pub proof fn law_published_files(
    files: Map<Seq<Seq<char>>, Seq<u8>>,
    staging: Seq<Seq<char>>,
    dir: Seq<Seq<char>>,
    list: Seq<(String, Vec<u8>)>,
    i: int,
)
    requires
        names_apart(staging, list),
        0 <= i < list.len(),
    ensures
        ({
            let after = moved_files(placed(files, staging, list), staging, dir);
            let path = dir.push(list[i].0@);
            after.contains_key(path) && after[path] == list[i].1@
        }),
{
    lemma_placed(files, staging, list, i);
    let path = dir.push(list[i].0@);
    assert(path.take(dir.len() as int) =~= dir);
    assert(staging + path.skip(dir.len() as int) =~= staging.push(list[i].0@));
    assert(origin(path, staging, dir) == Some(staging.push(list[i].0@)));
}

proof fn lemma_placed(
    files: Map<Seq<Seq<char>>, Seq<u8>>,
    dir: Seq<Seq<char>>,
    list: Seq<(String, Vec<u8>)>,
    i: int,
)
    requires
        names_apart(dir, list),
        0 <= i < list.len(),
    ensures
        placed(files, dir, list).contains_key(dir.push(list[i].0@)),
        placed(files, dir, list)[dir.push(list[i].0@)] == list[i].1@,
    decreases list.len(),
{
    let rest = list.drop_last();
    if i < rest.len() {
        assert(names_apart(dir, rest)) by {
            assert forall|a: int, b: int| 0 <= a < b < rest.len() implies (
            #[trigger] rest[a]).0@ != (#[trigger] rest[b]).0@ by {
                assert(list[a].0@ != list[b].0@);
            }
            assert forall|a: int, b: int|
                0 <= a < rest.len() && 0 <= b < rest.len() implies dir.push(
                (#[trigger] rest[a]).0@,
            ) != extended(dir.push((#[trigger] rest[b]).0@), "tmp"@) by {
                assert(dir.push(list[a].0@) != extended(dir.push(list[b].0@), "tmp"@));
            }
        }
        lemma_placed(files, dir, rest, i);
        let last = list.len() - 1;
        assert(list[i].0@ != list[last].0@);
        assert(dir.push(list[i].0@) != extended(dir.push(list[last].0@), "tmp"@));
        assert(dir.push(list[i].0@) != dir.push(list[last].0@)) by {
            if dir.push(list[i].0@) == dir.push(list[last].0@) {
                assert(dir.push(list[i].0@).last() == dir.push(list[last].0@).last());
            }
        }
    }
}

/// The path of the manifest.
pub open spec fn manifest_place(root: Seq<Seq<char>>) -> Seq<Seq<char>> {
    extended(root.push("manifest"@), "json"@)
}

/// The path of the log.
pub open spec fn log_place(root: Seq<Seq<char>>) -> Seq<Seq<char>> {
    root.push("wal.log"@)
}

/// Makes the directories of a database.
pub fn make_directories<F: Fs>(fs: &mut F, root: &FsPath) -> (r: Result<(), Error>)
    requires
        old(fs).sound(),
    ensures
        final(fs).sound(),
        final(fs).files() == old(fs).files(),
        match r {
            Ok(_) => final(fs).dirs().contains(root@) && final(fs).dirs().contains(
                root@.push("segments"@),
            ),
            Err(e) => e is Io,
        },
        forall|p: Seq<Seq<char>>| #[trigger]
            final(fs).dirs().contains(p) ==> old(fs).dirs().contains(p) || beneath(
                root@.push("segments"@),
                p,
            ),
        old(fs).dirs().subset_of(final(fs).dirs()),
        old(fs).lasting().subset_of(final(fs).lasting()),
        old(fs).reliable() ==> final(fs).reliable(),
        old(fs).reliable() && is_clear(old(fs).files(), root@.push("segments"@)) ==> r is Ok,
{
    let segments = root.join("segments");
    proof {
        lemma_above(root@, "segments"@);
    }
    match fs.create_dir_all(root) {
        Ok(_) => {},
        Err(e) => {
            return Err(Error::Io(e));
        },
    }
    match fs.create_dir_all(&segments) {
        Ok(_) => Ok(()),
        Err(e) => Err(Error::Io(e)),
    }
}

/// What is above a directory is above what is in it.
proof fn lemma_above(dir: Seq<Seq<char>>, name: Seq<char>)
    ensures
        forall|p: Seq<Seq<char>>| #[trigger] beneath(dir, p) ==> beneath(dir.push(name), p),
{
    assert forall|p: Seq<Seq<char>>| #[trigger] beneath(dir, p) implies beneath(
        dir.push(name),
        p,
    ) by {
        assert(dir.push(name).take(p.len() as int) =~= dir.take(p.len() as int));
    }
}

/// The bytes of the manifest, if there is one.
pub fn read_manifest<F: Fs>(fs: &mut F, root: &FsPath) -> (r: Result<Option<Vec<u8>>, Error>)
    requires
        old(fs).sound(),
        forall|p: Seq<Seq<char>>| #[trigger]
            old(fs).files().contains_key(p) ==> old(fs).files()[p].len() <= usize::MAX,
    ensures
        final(fs).sound(),
        final(fs).files() == old(fs).files(),
        final(fs).dirs() == old(fs).dirs(),
        match r {
            Ok(b) => is_at(old(fs).files(), old(fs).dirs(), manifest_place(root@), bytes_if_any(b)),
            Err(e) => e is Io,
        },
        old(fs).reliable() ==> final(fs).reliable(),
        old(fs).reliable() && is_readable(old(fs).files(), old(fs).dirs(), manifest_place(root@))
            ==> r is Ok,
{
    let path = root.join("manifest").with_extension("json");
    read_if_any(fs, &path)
}

/// Replaces the manifest as a whole. Reliable storage takes it where it and the file that is
/// written first have a place.
pub fn write_manifest<F: Fs>(fs: &mut F, root: &FsPath, bytes: &[u8]) -> (r: Result<(), Error>)
    requires
        old(fs).sound(),
    ensures
        final(fs).sound(),
        ({
            let path = manifest_place(root@);
            let tmp = extended(path, "tmp"@);
            match r {
                Ok(_) => final(fs).files() == old(fs).files().remove(tmp).insert(path, bytes@)
                    && final(fs).lasting().contains(path),
                Err(e) => e is Io && final(fs).files().remove(tmp) == old(fs).files().remove(tmp),
            }
        }),
        final(fs).dirs() == old(fs).dirs(),
        last_but(
            old(fs).lasting(),
            final(fs).lasting(),
            manifest_place(root@),
            extended(manifest_place(root@), "tmp"@),
        ),
        old(fs).reliable() ==> final(fs).reliable(),
        old(fs).reliable() && takes_file(F::flat(), old(fs).dirs(), manifest_place(root@))
            && takes_file(
            F::flat(),
            old(fs).dirs(),
            extended(manifest_place(root@), "tmp"@),
        ) ==> r is Ok,
{
    let path = root.join("manifest").with_extension("json");
    atomic_write(fs, &path, bytes)
}

/// The log, which is made if it is not there.
pub fn open_log<'a, F: Fs>(fs: &'a mut F, root: &FsPath) -> (r: Result<&'a mut F::File, Error>)
    requires
        old(fs).sound(),
    ensures
        final(fs).sound(),
        final(fs).dirs() == old(fs).dirs(),
        match r {
            Ok(f) => {
                &&& old(fs).files().contains_key(log_place(root@)) ==> f.data() == old(
                    fs,
                ).files()[log_place(root@)]
                &&& !old(fs).files().contains_key(log_place(root@)) ==> f.data().len() == 0
                &&& final(fs).files() == old(fs).files().insert(log_place(root@), final(f).data())
            },
            Err(e) => e is Io && final(fs).files().remove(log_place(root@)) == old(
                fs,
            ).files().remove(log_place(root@)) && (old(fs).files().contains_key(log_place(root@))
                ==> final(fs).files() == old(fs).files()),
        },
        old(fs).reliable() ==> match r {
            Ok(f) => f.reliable() && (final(f).reliable() ==> final(fs).reliable()),
            Err(_) => final(fs).reliable() && !old(fs).files().contains_key(log_place(root@))
                && (old(fs).dirs().contains(log_place(root@)) || !takes_file(
                F::flat(),
                old(fs).dirs(),
                log_place(root@),
            )),
        },
        last_but(old(fs).lasting(), final(fs).lasting(), log_place(root@), log_place(root@)),
        r matches Ok(f) ==> (final(f).kept() == final(f).data() ==> final(fs).lasting().contains(log_place(root@))),
{
    let path = root.join("wal.log");
    let opened = if fs.exists_at(&path) {
        fs.open_rw(&path)
    } else {
        fs.create(&path)
    };
    match opened {
        Ok(f) => Ok(f),
        Err(e) => Err(Error::Io(e)),
    }
}

} // verus!
