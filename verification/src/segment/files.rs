//! The files of an immutable segment, as bytes.

use vstd::prelude::*;

use crate::error::Error;
use crate::lines::{
    byte_views, is_line, join_lines, joined, law_lines_round_trip, lines_of, split_lines,
};
use crate::manifest::{references, EntryView, ManifestView};
use crate::storage::layout::{
    can_publish, law_published_files, law_segment_names, law_staging_is_not_kept, names_apart, only_files,
    placed, publish,
    same_outside, seg_name, seg_path, segment_dir, staging_dir,
};
use crate::storage::path::{beneath, extended, moved, FsPath};
use crate::storage::{
    atomic_write, bytes_if_any, is_at, is_readable, last_but, moved_files, origin, read_file,
    read_if_any, takes_file, vacant, DirSet, FileMap, Fs,
};

verus! {

/// The files of a segment.
#[derive(Debug, Clone, Copy, PartialEq, Eq, Structural)]
pub enum Part {
    /// The description.
    Meta,
    /// The components of the vectors.
    Vectors,
    /// The norms.
    Norms,
    /// The identifiers, one to a line.
    Ids,
    /// The payloads, one to a line.
    Payloads,
    /// The marks of deleted rows.
    Dels,
    /// The new payloads, one to a line.
    Overlay,
    /// The graph index.
    Index,
}

/// The name of a file.
pub open spec fn part_name(p: Part) -> Seq<char> {
    match p {
        Part::Meta => "meta.json"@,
        Part::Vectors => "vectors.bin"@,
        Part::Norms => "norms.bin"@,
        Part::Ids => "ids.jsonl"@,
        Part::Payloads => "payloads.jsonl"@,
        Part::Dels => "dels.bin"@,
        Part::Overlay => "payloads.overlay.jsonl"@,
        Part::Index => "index.bin"@,
    }
}

/// The path of a file.
pub open spec fn part_path(root: Seq<Seq<char>>, id: u64, p: Part) -> Seq<Seq<char>> {
    seg_path(root, id).push(part_name(p))
}

impl Part {
    /// The name of the file.
    pub fn name(&self) -> (r: &'static str)
        ensures
            r@ == part_name(*self),
    {
        match self {
            Part::Meta => "meta.json",
            Part::Vectors => "vectors.bin",
            Part::Norms => "norms.bin",
            Part::Ids => "ids.jsonl",
            Part::Payloads => "payloads.jsonl",
            Part::Dels => "dels.bin",
            Part::Overlay => "payloads.overlay.jsonl",
            Part::Index => "index.bin",
        }
    }
}

/// What the files of a segment hold.
pub struct SegmentFiles {
    /// The description.
    pub meta: Vec<u8>,
    /// The components of the vectors.
    pub vectors: Vec<u8>,
    /// The norms.
    pub norms: Vec<u8>,
    /// The lines of the identifiers.
    pub ids: Vec<Vec<u8>>,
    /// The lines of the payloads.
    pub payloads: Vec<Vec<u8>>,
    /// The marks of deleted rows, if there are any.
    pub dels: Option<Vec<u8>>,
    /// The lines of the new payloads, if there are any.
    pub overlay: Option<Vec<Vec<u8>>>,
    /// The graph index, if there is one.
    pub index: Option<Vec<u8>>,
}

/// What the files of a segment hold.
#[verifier::ext_equal]
pub struct FilesView {
    /// The description.
    pub meta: Seq<u8>,
    /// The components of the vectors.
    pub vectors: Seq<u8>,
    /// The norms.
    pub norms: Seq<u8>,
    /// The lines of the identifiers.
    pub ids: Seq<Seq<u8>>,
    /// The lines of the payloads.
    pub payloads: Seq<Seq<u8>>,
    /// The marks of deleted rows, if there are any.
    pub dels: Option<Seq<u8>>,
    /// The lines of the new payloads, if there are any.
    pub overlay: Option<Seq<Seq<u8>>>,
    /// The graph index, if there is one.
    pub index: Option<Seq<u8>>,
}

impl View for SegmentFiles {
    type V = FilesView;

    open spec fn view(&self) -> FilesView {
        FilesView {
            meta: self.meta@,
            vectors: self.vectors@,
            norms: self.norms@,
            ids: byte_views(self.ids@),
            payloads: byte_views(self.payloads@),
            dels: bytes_if_any(self.dels),
            overlay: lines_if_any(self.overlay),
            index: bytes_if_any(self.index),
        }
    }
}

/// What a file holds, if it is there.
pub open spec fn file_at(files: FileMap, path: Seq<Seq<char>>) -> Option<Seq<u8>> {
    if files.contains_key(path) {
        Some(files[path])
    } else {
        None
    }
}

/// What the files of a segment hold, if it has all that a segment cannot do without.
pub open spec fn files_at(files: FileMap, root: Seq<Seq<char>>, id: u64) -> Option<FilesView> {
    if files.contains_key(part_path(root, id, Part::Meta)) && files.contains_key(
        part_path(root, id, Part::Vectors),
    ) && files.contains_key(part_path(root, id, Part::Norms)) && files.contains_key(
        part_path(root, id, Part::Ids),
    ) && files.contains_key(part_path(root, id, Part::Payloads)) {
        Some(
            FilesView {
                meta: files[part_path(root, id, Part::Meta)],
                vectors: files[part_path(root, id, Part::Vectors)],
                norms: files[part_path(root, id, Part::Norms)],
                ids: lines_of(files[part_path(root, id, Part::Ids)]),
                payloads: lines_of(files[part_path(root, id, Part::Payloads)]),
                dels: file_at(files, part_path(root, id, Part::Dels)),
                overlay: match file_at(files, part_path(root, id, Part::Overlay)) {
                    Some(b) => Some(lines_of(b)),
                    None => None,
                },
                index: file_at(files, part_path(root, id, Part::Index)),
            },
        )
    } else {
        None
    }
}

/// Whether the files of a segment are the same.
pub open spec fn same_parts(a: FileMap, b: FileMap, root: Seq<Seq<char>>, id: u64) -> bool {
    forall|p: Part|
        file_at(a, #[trigger] part_path(root, id, p)) == file_at(b, part_path(root, id, p))
}

/// Files that are the same hold the same.
pub proof fn lemma_same_parts(a: FileMap, b: FileMap, root: Seq<Seq<char>>, id: u64)
    requires
        same_parts(a, b, root, id),
    ensures
        files_at(a, root, id) == files_at(b, root, id),
{
    assert(file_at(a, part_path(root, id, Part::Meta)) == file_at(
        b,
        part_path(root, id, Part::Meta),
    ));
    assert(file_at(a, part_path(root, id, Part::Vectors)) == file_at(
        b,
        part_path(root, id, Part::Vectors),
    ));
    assert(file_at(a, part_path(root, id, Part::Norms)) == file_at(
        b,
        part_path(root, id, Part::Norms),
    ));
    assert(file_at(a, part_path(root, id, Part::Ids)) == file_at(
        b,
        part_path(root, id, Part::Ids),
    ));
    assert(file_at(a, part_path(root, id, Part::Payloads)) == file_at(
        b,
        part_path(root, id, Part::Payloads),
    ));
    assert(file_at(a, part_path(root, id, Part::Dels)) == file_at(
        b,
        part_path(root, id, Part::Dels),
    ));
    assert(file_at(a, part_path(root, id, Part::Overlay)) == file_at(
        b,
        part_path(root, id, Part::Overlay),
    ));
    assert(file_at(a, part_path(root, id, Part::Index)) == file_at(
        b,
        part_path(root, id, Part::Index),
    ));
}

/// What was found of a segment is what its files hold.
pub proof fn lemma_found_files(
    f: SegmentFiles,
    files: FileMap,
    dirs: DirSet,
    root: Seq<Seq<char>>,
    id: u64,
)
    requires
        f.found(files, dirs, root, id),
    ensures
        files_at(files, root, id) == Some(f@),
{
}

/// The names of segments are apart, and so are those of their files.
pub proof fn lemma_parts_apart(root: Seq<Seq<char>>, a: u64, p: Part, b: u64, q: Part)
    ensures
        part_path(root, a, p).len() == root.len() + 3,
        a != b || p != q ==> part_path(root, a, p) != part_path(root, b, q),
        part_path(root, a, p) != extended(part_path(root, b, q), "tmp"@),
        a != b ==> !beneath(part_path(root, a, p), seg_path(root, b)),
        !beneath(part_path(root, a, p), extended(seg_path(root, b), "tmp"@)),
        beneath(part_path(root, a, p), seg_path(root, a)),
        !beneath(extended(seg_path(root, b), "tmp"@), part_path(root, a, p)),
{
    let x = part_path(root, a, p);
    let y = part_path(root, b, q);
    let n = root.len() as int;
    reveal_strlit("tmp");
    lemma_part_names(p, q);
    law_segment_names(a, nothing());
    law_segment_names(b, nothing());
    law_staging_is_not_kept(root, b, nothing());
    law_staging_is_not_kept(root, a, nothing());
    reveal_strlit(".tmp");
    assert(x[n + 1] == seg_name(a) && y[n + 1] == seg_name(b));
    assert(x[n + 2] == part_name(p) && y[n + 2] == part_name(q));
    let tmp = extended(y, "tmp"@);
    assert(tmp[n + 2].last() == 'p');
    let sb = seg_path(root, b);
    let st = extended(sb, "tmp"@);
    assert(x.take(n + 2)[n + 1] == seg_name(a));
    assert(sb[n + 1] == seg_name(b));
    assert(st.len() == n + 2);
    assert(st[n + 1] == seg_name(b) + ".tmp"@);
    if seg_name(a) == seg_name(b) + ".tmp"@ {
        lemma_never_staging(a, b);
    }
    assert(x.take(n + 2) =~= seg_path(root, a));
}

/// A manifest that says nothing.
spec fn nothing() -> ManifestView {
    ManifestView { version: 0, last_flushed_lsn: 0, entries: Seq::empty() }
}

/// The name of the directory of a segment is not one under which a segment is written.
proof fn lemma_never_staging(a: u64, b: u64)
    ensures
        seg_name(a) != seg_name(b) + ".tmp"@,
{
    let m = ManifestView {
        version: 0,
        last_flushed_lsn: 0,
        entries: seq![
            EntryView {
                name: Seq::empty(),
                config: arbitrary(),
                segments: seq![a],
            },
        ],
    };
    assert(m.entries[0].segments.contains(a)) by {
        assert(m.entries[0].segments[0] == a);
    }
    assert(references(m.entries, a));
    law_segment_names(a, m);
    law_staging_is_not_kept(Seq::empty(), b, m);
}

/// Whether a file holds some lines; whether it is not there where there are none.
pub open spec fn lines_at(
    files: FileMap,
    dirs: DirSet,
    path: Seq<Seq<char>>,
    lines: Option<Seq<Seq<u8>>>,
) -> bool {
    match lines {
        Some(l) => files.contains_key(path) && lines_of(files[path]) == l,
        None => !files.contains_key(path) && !dirs.contains(path),
    }
}

/// Some lines that may be missing.
pub open spec fn lines_if_any(l: Option<Vec<Vec<u8>>>) -> Option<Seq<Seq<u8>>> {
    match l {
        Some(l) => Some(byte_views(l@)),
        None => None,
    }
}

/// Whether all of some byte strings can be lines.
pub open spec fn all_lines(lines: Seq<Seq<u8>>) -> bool {
    forall|i: int| 0 <= i < lines.len() ==> is_line(#[trigger] lines[i])
}

impl SegmentFiles {
    /// Whether this is what the files of a segment hold.
    pub open spec fn found(
        &self,
        files: FileMap,
        dirs: DirSet,
        root: Seq<Seq<char>>,
        id: u64,
    ) -> bool {
        &&& is_at(files, dirs, part_path(root, id, Part::Meta), Some(self.meta@))
        &&& is_at(files, dirs, part_path(root, id, Part::Vectors), Some(self.vectors@))
        &&& is_at(files, dirs, part_path(root, id, Part::Norms), Some(self.norms@))
        &&& lines_at(files, dirs, part_path(root, id, Part::Ids), Some(byte_views(self.ids@)))
        &&& lines_at(
            files,
            dirs,
            part_path(root, id, Part::Payloads),
            Some(byte_views(self.payloads@)),
        )
        &&& is_at(files, dirs, part_path(root, id, Part::Dels), bytes_if_any(self.dels))
        &&& lines_at(files, dirs, part_path(root, id, Part::Overlay), lines_if_any(self.overlay))
        &&& is_at(files, dirs, part_path(root, id, Part::Index), bytes_if_any(self.index))
    }

    /// Whether the lines can be told apart once they are joined.
    pub open spec fn in_lines(&self) -> bool {
        &&& all_lines(byte_views(self.ids@))
        &&& all_lines(byte_views(self.payloads@))
        &&& self.overlay is Some ==> all_lines(byte_views(self.overlay->0@))
    }
}

/// Whether the files of a segment are there, as far as a segment cannot do without them, and no
/// directory is in the place of another one.
pub open spec fn all_readable(
    files: FileMap,
    dirs: DirSet,
    root: Seq<Seq<char>>,
    id: u64,
) -> bool {
    &&& files.contains_key(part_path(root, id, Part::Meta))
    &&& files.contains_key(part_path(root, id, Part::Vectors))
    &&& files.contains_key(part_path(root, id, Part::Norms))
    &&& files.contains_key(part_path(root, id, Part::Ids))
    &&& files.contains_key(part_path(root, id, Part::Payloads))
    &&& is_readable(files, dirs, part_path(root, id, Part::Dels))
    &&& is_readable(files, dirs, part_path(root, id, Part::Overlay))
    &&& is_readable(files, dirs, part_path(root, id, Part::Index))
}

/// Reads the files of a segment. It fails only where the storage does.
pub fn read_segment_files<F: Fs>(fs: &mut F, root: &FsPath, id: u64) -> (r: Result<
    SegmentFiles,
    Error,
>)
    requires
        old(fs).sound(),
        forall|p: Seq<Seq<char>>| #[trigger]
            old(fs).files().contains_key(p) ==> old(fs).files()[p].len() <= usize::MAX,
    ensures
        final(fs).sound(),
        final(fs).files() == old(fs).files(),
        final(fs).dirs() == old(fs).dirs(),
        match r {
            Ok(f) => f.found(old(fs).files(), old(fs).dirs(), root@, id),
            Err(e) => e is Io,
        },
        old(fs).reliable() ==> final(fs).reliable(),
        old(fs).reliable() && all_readable(old(fs).files(), old(fs).dirs(), root@, id) ==> r is Ok,
{
    let dir = segment_dir(root, id);
    let meta = read_file(fs, &dir.join(Part::Meta.name()))?;
    let vectors = read_file(fs, &dir.join(Part::Vectors.name()))?;
    let norms = read_file(fs, &dir.join(Part::Norms.name()))?;
    let ids = read_file(fs, &dir.join(Part::Ids.name()))?;
    let payloads = read_file(fs, &dir.join(Part::Payloads.name()))?;
    let dels = read_if_any(fs, &dir.join(Part::Dels.name()))?;
    let overlay = read_if_any(fs, &dir.join(Part::Overlay.name()))?;
    let index = read_if_any(fs, &dir.join(Part::Index.name()))?;
    Ok(
        SegmentFiles {
            meta,
            vectors,
            norms,
            ids: split_lines(ids.as_slice()),
            payloads: split_lines(payloads.as_slice()),
            dels,
            overlay: match &overlay {
                Some(b) => Some(split_lines(b.as_slice())),
                None => None,
            },
            index,
        },
    )
}

/// What is written to a file of a new segment, if it is written.
pub open spec fn written(f: SegmentFiles, p: Part) -> Option<Seq<u8>> {
    match p {
        Part::Meta => Some(f.meta@),
        Part::Vectors => Some(f.vectors@),
        Part::Norms => Some(f.norms@),
        Part::Ids => Some(joined(byte_views(f.ids@))),
        Part::Payloads => Some(joined(byte_views(f.payloads@))),
        Part::Dels => bytes_if_any(f.dels),
        Part::Overlay => match f.overlay {
            Some(l) => Some(joined(byte_views(l@))),
            None => None,
        },
        Part::Index => bytes_if_any(f.index),
    }
}

/// Different files have different names. None ends as the names end under which files are
/// written.
proof fn lemma_part_names(p: Part, q: Part)
    ensures
        p != q ==> part_name(p) != part_name(q),
        part_name(p).len() > 0,
        part_name(p).last() != 'p',
{
    reveal_strlit("meta.json");
    reveal_strlit("vectors.bin");
    reveal_strlit("norms.bin");
    reveal_strlit("ids.jsonl");
    reveal_strlit("payloads.jsonl");
    reveal_strlit("dels.bin");
    reveal_strlit("payloads.overlay.jsonl");
    reveal_strlit("index.bin");
    let a = part_name(p);
    let b = part_name(q);
    if p != q && a.len() == b.len() {
        assert(a[0] != b[0] || a[1] != b[1]);
    }
}

/// Whether a list has the given files, each once.
spec fn lists(list: Seq<(String, Vec<u8>)>, f: SegmentFiles, parts: Seq<Part>) -> bool {
    &&& list.len() == parts.len()
    &&& forall|i: int|
        0 <= i < list.len() ==> (#[trigger] list[i]).0@ == part_name(parts[i]) && written(
            f,
            parts[i],
        ) == Some(list[i].1@)
    &&& forall|i: int, j: int|
        0 <= i < j < parts.len() ==> #[trigger] parts[i] != #[trigger] parts[j]
}

/// The names of the files of a segment are apart.
proof fn lemma_lists_apart(
    list: Seq<(String, Vec<u8>)>,
    f: SegmentFiles,
    parts: Seq<Part>,
    dir: Seq<Seq<char>>,
)
    requires
        lists(list, f, parts),
    ensures
        names_apart(dir, list),
{
    reveal_strlit("tmp");
    assert forall|i: int, j: int| 0 <= i < j < list.len() implies (#[trigger] list[i]).0@ != (
    #[trigger] list[j]).0@ by {
        assert(parts[i] != parts[j]);
        lemma_part_names(parts[i], parts[j]);
    }
    assert forall|i: int, j: int| 0 <= i < list.len() && 0 <= j < list.len() implies dir.push(
        (#[trigger] list[i]).0@,
    ) != extended(dir.push((#[trigger] list[j]).0@), "tmp"@) by {
        lemma_part_names(parts[i], parts[j]);
        let a = dir.push(list[i].0@);
        let b = extended(dir.push(list[j].0@), "tmp"@);
        let name = b.last();
        assert(name[name.len() - 1] == "tmp"@[2]);
        assert(a.last() == list[i].0@);
    }
}

/// What was not there before files were written into a directory is one of them.
proof fn lemma_placed_only(
    files: FileMap,
    dir: Seq<Seq<char>>,
    list: Seq<(String, Vec<u8>)>,
    path: Seq<Seq<char>>,
)
    requires
        placed(files, dir, list).contains_key(path),
        !files.contains_key(path),
    ensures
        exists|i: int| 0 <= i < list.len() && dir.push((#[trigger] list[i]).0@) == path,
    decreases list.len(),
{
    if list.len() > 0 {
        let last = list[list.len() - 1];
        if dir.push(last.0@) != path {
            let rest = list.drop_last();
            lemma_placed_only(files, dir, rest, path);
            let i = choose|i: int|
                0 <= i < rest.len() && dir.push((#[trigger] rest[i]).0@) == path;
            assert(dir.push(list[i].0@) == path);
        }
    }
}

/// A file of a directory that was published.
proof fn lemma_part_published(
    files: FileMap,
    dirs: DirSet,
    now: DirSet,
    root: Seq<Seq<char>>,
    id: u64,
    list: Seq<(String, Vec<u8>)>,
    f: SegmentFiles,
    parts: Seq<Part>,
    p: Part,
)
    requires
        lists(list, f, parts),
        parts.contains(p) <==> written(f, p) is Some,
        vacant(files, dirs, extended(seg_path(root, id), "tmp"@)),
        forall|q: Seq<Seq<char>>| #[trigger]
            now.contains(q) && beneath(q, seg_path(root, id)) ==> q == seg_path(root, id)
                || dirs.contains(
                moved(q, seg_path(root, id), extended(seg_path(root, id), "tmp"@)),
            ),
    ensures
        ({
            let dir = seg_path(root, id);
            let staging = extended(dir, "tmp"@);
            is_at(
                moved_files(placed(files, staging, list), staging, dir),
                now,
                part_path(root, id, p),
                written(f, p),
            )
        }),
{
    let dir = seg_path(root, id);
    let staging = extended(dir, "tmp"@);
    let path = part_path(root, id, p);
    let after = moved_files(placed(files, staging, list), staging, dir);
    lemma_lists_apart(list, f, parts, staging);
    assert(path.take(dir.len() as int) =~= dir);
    assert(path.skip(dir.len() as int) =~= seq![part_name(p)]);
    assert(staging + path.skip(dir.len() as int) =~= staging.push(part_name(p)));
    assert(origin(path, staging, dir) == Some(staging.push(part_name(p))));
    assert(staging.push(part_name(p)).take(staging.len() as int) =~= staging);
    match written(f, p) {
        Some(b) => {
            let i = choose|i: int| 0 <= i < parts.len() && parts[i] == p;
            assert(list[i].0@ == part_name(p));
            law_published_files(files, staging, dir, list, i);
        },
        None => {
            if after.contains_key(path) {
                assert(!files.contains_key(staging.push(part_name(p))));
                lemma_placed_only(files, staging, list, staging.push(part_name(p)));
                let i = choose|i: int|
                    0 <= i < list.len() && staging.push((#[trigger] list[i]).0@) == staging.push(
                        part_name(p),
                    );
                assert(staging.push(list[i].0@).last() == staging.push(part_name(p)).last());
                lemma_part_names(parts[i], p);
                assert(parts.contains(p));
            }
            if now.contains(path) {
                assert(path.len() != dir.len());
                assert(dirs.contains(staging.push(part_name(p))));
            }
        },
    }
}

/// Adds a file to a list.
fn push_part(
    list: &mut Vec<(String, Vec<u8>)>,
    p: Part,
    bytes: &Vec<u8>,
    Ghost(f): Ghost<SegmentFiles>,
    Ghost(parts): Ghost<Seq<Part>>,
)
    requires
        lists(old(list)@, f, parts),
        written(f, p) == Some(bytes@),
        !parts.contains(p),
    ensures
        lists(final(list)@, f, parts.push(p)),
{
    let mut copy: Vec<u8> = Vec::new();
    copy.extend_from_slice(bytes.as_slice());
    let ghost before = list@;
    list.push((p.name().to_owned(), copy));
    proof {
        let more = parts.push(p);
        assert(copy@ =~= bytes@);
        assert forall|i: int, j: int| 0 <= i < j < more.len() implies #[trigger] more[i]
            != #[trigger] more[j] by {
            if j == parts.len() {
                assert(parts.contains(parts[i]));
            }
        }
    }
}

/// The files of a new segment, with their names.
fn file_list(f: &SegmentFiles) -> (r: (Vec<(String, Vec<u8>)>, Ghost<Seq<Part>>))
    ensures
        lists(r.0@, *f, r.1@),
        forall|p: Part| r.1@.contains(p) <==> #[trigger] written(*f, p) is Some,
{
    let mut list: Vec<(String, Vec<u8>)> = Vec::new();
    let ghost mut parts: Seq<Part> = Seq::empty();
    push_part(&mut list, Part::Meta, &f.meta, Ghost(*f), Ghost(parts));
    proof {
        parts = parts.push(Part::Meta);
        assert(parts =~= seq![Part::Meta]);
    }
    push_part(&mut list, Part::Vectors, &f.vectors, Ghost(*f), Ghost(parts));
    proof {
        parts = parts.push(Part::Vectors);
        assert(parts =~= seq![Part::Meta, Part::Vectors]);
    }
    push_part(&mut list, Part::Norms, &f.norms, Ghost(*f), Ghost(parts));
    proof {
        parts = parts.push(Part::Norms);
        assert(parts =~= seq![Part::Meta, Part::Vectors, Part::Norms]);
    }
    let ids = join_lines(&f.ids);
    push_part(&mut list, Part::Ids, &ids, Ghost(*f), Ghost(parts));
    proof {
        parts = parts.push(Part::Ids);
        assert(parts =~= seq![Part::Meta, Part::Vectors, Part::Norms, Part::Ids]);
    }
    let payloads = join_lines(&f.payloads);
    push_part(&mut list, Part::Payloads, &payloads, Ghost(*f), Ghost(parts));
    let ghost five = seq![Part::Meta, Part::Vectors, Part::Norms, Part::Ids, Part::Payloads];
    proof {
        parts = parts.push(Part::Payloads);
        assert(parts =~= five);
        assert(five[0] == Part::Meta && five[1] == Part::Vectors && five[2] == Part::Norms);
        assert(five[3] == Part::Ids && five[4] == Part::Payloads);
    }
    match &f.dels {
        Some(b) => {
            push_part(&mut list, Part::Dels, b, Ghost(*f), Ghost(parts));
            proof {
                lemma_contains_push(parts, Part::Dels);
                parts = parts.push(Part::Dels);
            }
        },
        None => {},
    }
    match &f.overlay {
        Some(l) => {
            let b = join_lines(l);
            push_part(&mut list, Part::Overlay, &b, Ghost(*f), Ghost(parts));
            proof {
                lemma_contains_push(parts, Part::Overlay);
                parts = parts.push(Part::Overlay);
            }
        },
        None => {},
    }
    match &f.index {
        Some(b) => {
            push_part(&mut list, Part::Index, b, Ghost(*f), Ghost(parts));
            proof {
                lemma_contains_push(parts, Part::Index);
                parts = parts.push(Part::Index);
            }
        },
        None => {},
    }
    (list, Ghost(parts))
}

/// What a list with one more item contains.
proof fn lemma_contains_push(s: Seq<Part>, p: Part)
    ensures
        forall|q: Part| #[trigger] s.push(p).contains(q) <==> s.contains(q) || q == p,
{
    assert forall|q: Part| #[trigger] s.push(p).contains(q) <==> s.contains(q) || q == p by {
        if s.contains(q) {
            let i = choose|i: int| 0 <= i < s.len() && s[i] == q;
            assert(s.push(p)[i] == q);
        }
        assert(s.push(p)[s.len() as int] == p);
        if s.push(p).contains(q) {
            let i = choose|i: int| 0 <= i < s.push(p).len() && s.push(p)[i] == q;
            if i < s.len() {
                assert(s[i] == q);
            }
        }
    }
}

/// The directory of a segment and the one it is written to first are apart.
proof fn lemma_dirs_apart(root: Seq<Seq<char>>, id: u64)
    ensures
        !beneath(seg_path(root, id), extended(seg_path(root, id), "tmp"@)),
        !beneath(extended(seg_path(root, id), "tmp"@), seg_path(root, id)),
{
    let dir = seg_path(root, id);
    let staging = extended(dir, "tmp"@);
    reveal_strlit("tmp");
    law_staging_is_not_kept(root, id, ManifestView {
        version: 0,
        last_flushed_lsn: 0,
        entries: Seq::empty(),
    });
    reveal_strlit(".tmp");
    assert(dir.last() == seg_name(id));
    assert(staging.last().len() == dir.last().len() + 4);
    assert(staging.len() == dir.len());
    if beneath(dir, staging) {
        assert(dir.take(staging.len() as int) =~= dir);
    }
    if beneath(staging, dir) {
        assert(staging.take(dir.len() as int) =~= staging);
    }
}

/// Writes the files of a new segment. Its directory appears as a whole; where this fails, only
/// the directory in which the files are written first may be left behind. Reliable storage takes
/// them where the directory of the segments is there and nothing is in the way.
#[verifier::spinoff_prover]
#[verifier::rlimit(40)]
pub fn write_segment_files<F: Fs>(fs: &mut F, root: &FsPath, id: u64, f: &SegmentFiles) -> (r:
    Result<(), Error>)
    requires
        old(fs).sound(),
        !old(fs).files().contains_key(extended(seg_path(root@, id), "tmp"@)),
    ensures
        final(fs).sound(),
        ({
            let dir = seg_path(root@, id);
            let staging = extended(dir, "tmp"@);
            let files = old(fs).files();
            let dirs = old(fs).dirs();
            let now = final(fs).files();
            let now_dirs = final(fs).dirs();
            &&& r is Err ==> r->Err_0 is Io && same_outside(now, files, staging)
            &&& old(fs).reliable() ==> final(fs).reliable()
            &&& old(fs).reliable() && can_publish(files, dirs, staging, dir) ==> r is Ok
            &&& vacant(files, dirs, dir) ==> forall|p: Seq<Seq<char>>|
                !beneath(p, dir) && !beneath(p, staging) && !beneath(staging, p) ==> (
                #[trigger] now_dirs.contains(p) <==> dirs.contains(p))
            &&& vacant(files, dirs, dir) ==> forall|p: Seq<Seq<char>>| #[trigger]
                dirs.contains(p) && !beneath(p, staging) ==> now_dirs.contains(p)
            &&& vacant(files, dirs, dir) ==> forall|p: Seq<Seq<char>>| #[trigger]
                old(fs).lasting().contains(p) && !beneath(p, dir) && !beneath(p, staging)
                    ==> final(fs).lasting().contains(p)
            &&& r is Ok && vacant(files, dirs, dir) ==> forall|p: Part| #[trigger]
                written(*f, p) is Some ==> final(fs).lasting().contains(part_path(root@, id, p))
            &&& r is Ok && vacant(files, dirs, dir) ==> forall|p: Seq<Seq<char>>|
                !beneath(p, dir) && !beneath(p, staging) ==> (#[trigger] now.contains_key(p)
                    <==> files.contains_key(p)) && (files.contains_key(p) ==> now[p] == files[p])
            &&& r is Ok && vacant(files, dirs, dir) && vacant(files, dirs, staging) ==> {
                &&& only_files(now, now_dirs, dir)
                &&& vacant(now, now_dirs, staging)
                &&& forall|p: Part| #[trigger]
                    is_at(now, now_dirs, part_path(root@, id, p), written(*f, p))
                &&& f.in_lines() ==> f.found(now, now_dirs, root@, id)
            }
        }),
{
    let staging = staging_dir(root, id);
    let dir = segment_dir(root, id);
    let ghost files = fs.files();
    let ghost dirs = fs.dirs();
    proof {
        lemma_dirs_apart(root@, id);
    }
    let (list, Ghost(parts)) = file_list(f);
    proof {
        lemma_lists_apart(list@, *f, parts, staging@);
    }
    let ghost lasting = fs.lasting();
    let r = publish(fs, &staging, &dir, &list);
    proof {
        if vacant(files, dirs, dir@) {
            assert forall|p: Seq<Seq<char>>|
                !beneath(p, dir@) && !beneath(p, staging@) && !beneath(staging@, p) implies (
            #[trigger] fs.dirs().contains(p) <==> dirs.contains(p)) by {
                if dirs.contains(p) {
                    assert(fs.dirs().contains(p));
                }
            }
            assert forall|p: Seq<Seq<char>>| #[trigger]
                lasting.contains(p) && !beneath(p, dir@) && !beneath(
                    p,
                    staging@,
                ) implies fs.lasting().contains(p) by {}
        }
        if r is Ok && vacant(files, dirs, dir@) {
            assert forall|p: Part| #[trigger]
                written(*f, p) is Some implies fs.lasting().contains(part_path(root@, id, p)) by {
                assert(parts.contains(p));
                let i = choose|i: int| 0 <= i < parts.len() && parts[i] == p;
                assert(list@[i].0@ == part_name(p));
            }
        }
        if r is Ok && vacant(files, dirs, dir@) {
            assert forall|p: Seq<Seq<char>>|
                !beneath(p, dir@) && !beneath(p, staging@) implies (#[trigger] fs.files().contains_key(
                p,
            ) <==> files.contains_key(p)) && (files.contains_key(p) ==> fs.files()[p]
                == files[p]) by {
                lemma_placed_outside(files, staging@, list@, p);
            }
            if vacant(files, dirs, staging@) {
                assert forall|p: Part| #[trigger]
                    is_at(fs.files(), fs.dirs(), part_path(root@, id, p), written(*f, p)) by {
                    lemma_part_published(files, dirs, fs.dirs(), root@, id, list@, *f, parts, p);
                }
                if f.in_lines() {
                    lemma_found(*f, fs.files(), fs.dirs(), root@, id);
                }
            }
        }
    }
    r
}

/// What lies outside of a directory is as it was once files were written into it.
proof fn lemma_placed_outside(
    files: FileMap,
    dir: Seq<Seq<char>>,
    list: Seq<(String, Vec<u8>)>,
    p: Seq<Seq<char>>,
)
    requires
        !beneath(p, dir),
    ensures
        placed(files, dir, list).contains_key(p) <==> files.contains_key(p),
        placed(files, dir, list)[p] == files[p],
    decreases list.len(),
{
    if list.len() > 0 {
        lemma_placed_outside(files, dir, list.drop_last(), p);
        let path = dir.push(list.last().0@);
        let tmp = extended(path, "tmp"@);
        assert(path.take(dir.len() as int) =~= dir);
        assert(path.drop_last() =~= dir);
        assert(tmp.take(dir.len() as int) =~= dir);
    }
}

/// Files that were written say what was given.
proof fn lemma_found(f: SegmentFiles, files: FileMap, dirs: DirSet, root: Seq<Seq<char>>, id: u64)
    requires
        f.in_lines(),
        forall|p: Part| #[trigger] is_at(files, dirs, part_path(root, id, p), written(f, p)),
    ensures
        f.found(files, dirs, root, id),
{
    assert(is_at(files, dirs, part_path(root, id, Part::Meta), written(f, Part::Meta)));
    assert(is_at(files, dirs, part_path(root, id, Part::Vectors), written(f, Part::Vectors)));
    assert(is_at(files, dirs, part_path(root, id, Part::Norms), written(f, Part::Norms)));
    assert(is_at(files, dirs, part_path(root, id, Part::Ids), written(f, Part::Ids)));
    assert(is_at(files, dirs, part_path(root, id, Part::Payloads), written(f, Part::Payloads)));
    assert(is_at(files, dirs, part_path(root, id, Part::Dels), written(f, Part::Dels)));
    assert(is_at(files, dirs, part_path(root, id, Part::Overlay), written(f, Part::Overlay)));
    assert(is_at(files, dirs, part_path(root, id, Part::Index), written(f, Part::Index)));
    law_lines_round_trip(byte_views(f.ids@));
    law_lines_round_trip(byte_views(f.payloads@));
    if f.overlay is Some {
        law_lines_round_trip(byte_views(f.overlay->0@));
    }
}

/// Replaces a file of a segment. Reliable storage takes it where it and the file that is
/// written first have a place.
pub fn write_part<F: Fs>(fs: &mut F, root: &FsPath, id: u64, p: Part, bytes: &[u8]) -> (r: Result<
    (),
    Error,
>)
    requires
        old(fs).sound(),
    ensures
        final(fs).sound(),
        ({
            let path = part_path(root@, id, p);
            let tmp = extended(path, "tmp"@);
            match r {
                Ok(_) => final(fs).files() == old(fs).files().remove(tmp).insert(path, bytes@)
                    && final(fs).dirs() == old(fs).dirs(),
                Err(e) => e is Io && final(fs).files().remove(tmp) == old(fs).files().remove(tmp),
            }
        }),
        old(fs).reliable() ==> final(fs).reliable(),
        final(fs).dirs() == old(fs).dirs(),
        r is Ok ==> final(fs).lasting().contains(part_path(root@, id, p)),
        last_but(
            old(fs).lasting(),
            final(fs).lasting(),
            part_path(root@, id, p),
            extended(part_path(root@, id, p), "tmp"@),
        ),
        old(fs).reliable() && takes_file(F::flat(), old(fs).dirs(), part_path(root@, id, p))
            && takes_file(
            F::flat(),
            old(fs).dirs(),
            extended(part_path(root@, id, p), "tmp"@),
        ) ==> r is Ok,
{
    let path = segment_dir(root, id).join(p.name());
    atomic_write(fs, &path, bytes)
}

/// Replaces a file of a segment that is made of lines. Reliable storage takes it where it and
/// the file that is written first have a place.
pub fn write_part_lines<F: Fs>(
    fs: &mut F,
    root: &FsPath,
    id: u64,
    p: Part,
    lines: &Vec<Vec<u8>>,
) -> (r: Result<(), Error>)
    requires
        old(fs).sound(),
    ensures
        final(fs).sound(),
        ({
            let path = part_path(root@, id, p);
            let tmp = extended(path, "tmp"@);
            match r {
                Ok(_) => final(fs).files() == old(fs).files().remove(tmp).insert(
                    path,
                    joined(byte_views(lines@)),
                ) && final(fs).dirs() == old(fs).dirs(),
                Err(e) => e is Io && final(fs).files().remove(tmp) == old(fs).files().remove(tmp),
            }
        }),
        old(fs).reliable() ==> final(fs).reliable(),
        final(fs).dirs() == old(fs).dirs(),
        r is Ok ==> final(fs).lasting().contains(part_path(root@, id, p)),
        last_but(
            old(fs).lasting(),
            final(fs).lasting(),
            part_path(root@, id, p),
            extended(part_path(root@, id, p), "tmp"@),
        ),
        old(fs).reliable() && takes_file(F::flat(), old(fs).dirs(), part_path(root@, id, p))
            && takes_file(
            F::flat(),
            old(fs).dirs(),
            extended(part_path(root@, id, p), "tmp"@),
        ) ==> r is Ok,
{
    let bytes = join_lines(lines);
    write_part(fs, root, id, p, bytes.as_slice())
}

/// What is read of a segment is what its files hold: there is nothing else that they could.
pub proof fn law_files_say_one_thing(
    f: SegmentFiles,
    g: SegmentFiles,
    files: FileMap,
    dirs: DirSet,
    root: Seq<Seq<char>>,
    id: u64,
)
    requires
        f.found(files, dirs, root, id),
        g.found(files, dirs, root, id),
    ensures
        f.meta@ == g.meta@,
        f.vectors@ == g.vectors@,
        f.norms@ == g.norms@,
        byte_views(f.ids@) == byte_views(g.ids@),
        byte_views(f.payloads@) == byte_views(g.payloads@),
        bytes_if_any(f.dels) == bytes_if_any(g.dels),
        lines_if_any(f.overlay) == lines_if_any(g.overlay),
        bytes_if_any(f.index) == bytes_if_any(g.index),
{
}

} // verus!
