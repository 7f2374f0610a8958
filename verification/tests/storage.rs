//! Files in memory, and where the files of a database are.

use vectordb::bitmap::bitmap_from_bytes;
use vectordb::error::{Invalid, IoError};
use vectordb::json::Json;
use vectordb::lines::{join_lines, split_lines};
use vectordb::manifest::{CollectionEntry, Manifest};
use vectordb::segment::files::{
    read_segment_files, write_part, write_part_lines, write_segment_files, Part, SegmentFiles,
};
use vectordb::segment::immutable::{ImmutableSegment, Meta, SegmentParts};
use vectordb::storage::layout::{
    gc_orphan_segments, keeps_directory, make_directories, open_log, publish, read_manifest,
    segment_dir, segment_name, segment_number, staging_dir, write_manifest,
};
use vectordb::storage::memory::MemoryFs;
use vectordb::storage::path::FsPath;
use vectordb::storage::{atomic_write, read_all, Fs, StorageBackend};
use vectordb::{CollectionConfig, Error, Metric};

fn path(s: &str) -> FsPath {
    FsPath::new(s)
}

#[test]
fn atomic_write_via_rename() {
    let mut fs = MemoryFs::new();
    let p = path("/db/manifest").with_extension("json");
    atomic_write(&mut fs, &p, b"v1").unwrap();
    assert_eq!(fs.open_rw(&p).unwrap().len().unwrap(), 2);
    atomic_write(&mut fs, &p, b"v2-longer").unwrap();
    let mut buf = vec![0u8; 9];
    fs.open_rw(&p).unwrap().read_at(&mut buf, 0).unwrap();
    assert_eq!(buf, b"v2-longer");
    assert!(!fs.exists_at(&p.with_extension("tmp")));
}

#[test]
fn dir_rename_moves_children() {
    let mut fs = MemoryFs::new();
    fs.create_dir_all(&path("/db/seg-1.tmp")).unwrap();
    let f = fs.create(&path("/db/seg-1.tmp/data.bin")).unwrap();
    f.write_at(b"abc", 0).unwrap();
    fs.rename(&path("/db/seg-1.tmp"), &path("/db/seg-1"))
        .unwrap();
    assert!(fs.exists_at(&path("/db/seg-1/data.bin")));
    assert!(!fs.exists_at(&path("/db/seg-1.tmp")));
}

#[test]
fn moving_a_directory_back_undoes_it() {
    let mut fs = MemoryFs::new();
    fs.create_dir_all(&path("/db/a")).unwrap();
    fs.create_dir_all(&path("/db/a/b")).unwrap();
    fs.create(&path("/db/a/b/f")).unwrap().write_at(b"abc", 0).unwrap();
    fs.create(&path("/db/g")).unwrap().write_at(b"d", 0).unwrap();
    fs.rename(&path("/db/a"), &path("/db/c")).unwrap();
    assert!(!fs.exists_at(&path("/db/a/b/f")));
    fs.rename(&path("/db/c"), &path("/db/a")).unwrap();
    assert!(!fs.exists_at(&path("/db/c")));
    let mut buf = [0u8; 3];
    fs.open_rw(&path("/db/a/b/f")).unwrap().read_at(&mut buf, 0).unwrap();
    assert_eq!(&buf, b"abc");
    assert_eq!(fs.open_rw(&path("/db/g")).unwrap().len().unwrap(), 1);
}

#[test]
fn files_in_memory_are_replaced_without_a_directory() {
    let mut fs = MemoryFs::new();
    let p = path("/nowhere/f.json");
    atomic_write(&mut fs, &p, b"1").unwrap();
    atomic_write(&mut fs, &p, b"22").unwrap();
    assert_eq!(fs.open_rw(&p).unwrap().len().unwrap(), 2);
}

#[test]
fn a_read_that_fails_leaves_the_buffer() {
    let mut fs = MemoryFs::new();
    let f = fs.create(&path("/f")).unwrap();
    f.write_at(b"ab", 0).unwrap();
    let mut buf = [9u8; 4];
    assert!(f.read_at(&mut buf, 0).is_err());
    assert_eq!(buf, [9u8; 4]);
}

#[test]
fn partial_read_is_eof() {
    let mut fs = MemoryFs::new();
    let f = fs.create(&path("/f")).unwrap();
    f.write_at(b"ab", 0).unwrap();
    let mut buf = [0u8; 4];
    assert!(f.read_at(&mut buf, 1).is_err());
}

#[test]
fn files_grow_shrink_and_are_filled_with_zeros() {
    let mut fs = MemoryFs::new();
    let f = fs.create(&path("/f")).unwrap();
    assert!(f.is_empty().unwrap());
    f.write_at(b"xy", 3).unwrap();
    assert_eq!(read_all(f).unwrap(), vec![0, 0, 0, b'x', b'y']);
    f.append(b"z").unwrap();
    assert_eq!(f.len().unwrap(), 6);
    f.truncate(4).unwrap();
    assert_eq!(read_all(f).unwrap(), vec![0, 0, 0, b'x']);
    f.sync().unwrap();
    let g = fs.create(&path("/f")).unwrap();
    assert!(g.is_empty().unwrap());
}

#[test]
fn what_is_missing_is_not_found() {
    let mut fs = MemoryFs::new();
    assert!(matches!(fs.open_rw(&path("/f")), Err(IoError::NotFound)));
    assert!(matches!(
        fs.rename(&path("/f"), &path("/g")),
        Err(IoError::NotFound)
    ));
    assert!(!fs.exists_at(&path("/f")));
}

#[test]
fn paths_are_names() {
    let p = path("/a//b.tmp/");
    assert_eq!(p.file_name(), Some("b.tmp"));
    assert!(p.with_extension("json").same(&path("a/b.json")));
    assert!(path("a/b").with_extension("tmp").same(&path("a/b.tmp")));
    assert!(p.starts_with(&path("/a")));
    assert!(p.is_child_of(&path("/a")));
    assert!(!p.join("c").is_child_of(&path("/a")));
    assert_eq!(path("/").file_name(), None);
}

fn manifest_of(segments: Vec<u64>) -> Manifest {
    Manifest {
        version: 1,
        last_flushed_lsn: 0,
        collections: vec![CollectionEntry {
            name: "c".to_string(),
            config: CollectionConfig::new(1, Metric::L2).unwrap(),
            segments,
        }],
    }
}

#[test]
fn directories_of_segments() {
    assert_eq!(segment_name(12), "seg-12");
    assert_eq!(segment_number("seg-12"), Some(12));
    assert_eq!(segment_number("seg-012"), Some(12));
    assert_eq!(segment_number("seg-"), None);
    assert_eq!(segment_number("seg-1x"), None);
    assert_eq!(segment_number("segment"), None);
    assert_eq!(segment_number("seg-18446744073709551616"), None);
    assert!(segment_dir(&path("/db"), 3).same(&path("/db/segments/seg-3")));
    assert!(staging_dir(&path("/db"), 3).same(&path("/db/segments/seg-3.tmp")));
    let m = manifest_of(vec![3]);
    assert!(keeps_directory("seg-3", &m));
    assert!(!keeps_directory("seg-4", &m));
    assert!(!keeps_directory("seg-3.tmp", &m));
    assert!(!keeps_directory("other", &m));
}

#[test]
fn only_directories_of_segments_are_left() {
    let mut fs = MemoryFs::new();
    for name in ["seg-3", "seg-4", "seg-3.tmp", "other"] {
        let dir = path("/db/segments").join(name);
        fs.create_dir_all(&dir).unwrap();
        fs.create(&dir.join("x")).unwrap();
    }
    gc_orphan_segments(&mut fs, &path("/db"), &manifest_of(vec![3])).unwrap();
    let left = fs.list_dir(&path("/db/segments")).unwrap();
    assert_eq!(left.len(), 1);
    assert!(left[0].same(&path("/db/segments/seg-3")));
    assert!(fs.exists_at(&path("/db/segments/seg-3/x")));
}

#[test]
fn published_files_can_be_read() {
    let mut fs = MemoryFs::new();
    let (staging, dir) = (staging_dir(&path("/db"), 1), segment_dir(&path("/db"), 1));
    let files = vec![
        ("a.bin".to_string(), vec![1, 2]),
        ("b.bin".to_string(), vec![3]),
    ];
    publish(&mut fs, &staging, &dir, &files).unwrap();
    assert!(!fs.exists_at(&staging));
    assert_eq!(
        read_all(fs.open_rw(&dir.join("a.bin")).unwrap()).unwrap(),
        vec![1, 2]
    );
    assert_eq!(
        read_all(fs.open_rw(&dir.join("b.bin")).unwrap()).unwrap(),
        vec![3]
    );
}

#[test]
fn lines_are_cut_at_feeds() {
    let texts = |b: &[u8]| -> Vec<String> {
        split_lines(b)
            .into_iter()
            .map(|l| String::from_utf8(l).unwrap())
            .collect()
    };
    for t in ["", "a", "a\n", "a\nb", "a\r\nb\r\n", "\n\nx\n", "a\r", "\r\n"] {
        let want: Vec<String> = t
            .lines()
            .filter(|l| !l.is_empty())
            .map(|l| l.to_string())
            .collect();
        assert_eq!(texts(t.as_bytes()), want, "{t:?}");
    }
    let lines = vec![b"ab".to_vec(), b"c".to_vec()];
    assert_eq!(join_lines(&lines), b"ab\nc\n".to_vec());
    assert_eq!(split_lines(&join_lines(&lines)), lines);
}

#[test]
fn later_manifests_are_refused() {
    let mut m = manifest_of(vec![7, 9]);
    assert_eq!(m.max_segment_id(), 9);
    assert!(m.references_segment(7));
    assert!(!m.references_segment(8));
    assert!(Manifest::load(m.copy()).is_ok());
    m.version = 2;
    assert!(matches!(
        Manifest::load(m),
        Err(Error::Invalid(vectordb::error::Invalid::ManifestVersion(2)))
    ));
}

#[test]
fn marks_keep_their_bytes() {
    let mut theirs = roaring::RoaringBitmap::new();
    theirs.insert(3);
    theirs.insert(70_000);
    let mut bytes = Vec::new();
    theirs.serialize_into(&mut bytes).unwrap();
    let ours = bitmap_from_bytes(&bytes).unwrap();
    assert_eq!(ours.iter().collect::<Vec<u32>>(), vec![3, 70_000]);
    assert!(bitmap_from_bytes(&[1, 2, 3]).is_none());
}

#[test]
fn files_of_segments_are_read_as_they_were_written() {
    let mut fs = MemoryFs::new();
    let root = path("/db");
    make_directories(&mut fs, &root).unwrap();
    let files = SegmentFiles {
        meta: b"{}".to_vec(),
        vectors: vec![1, 2, 3, 4],
        norms: vec![5, 6, 7, 8],
        ids: vec![b"1".to_vec(), b"\"a\"".to_vec()],
        payloads: vec![b"null".to_vec(), b"{}".to_vec()],
        dels: Some(vec![9]),
        overlay: None,
        index: None,
    };
    write_segment_files(&mut fs, &root, 5, &files).unwrap();
    let back = read_segment_files(&mut fs, &root, 5).unwrap();
    assert_eq!(back.meta, files.meta);
    assert_eq!(back.vectors, files.vectors);
    assert_eq!(back.norms, files.norms);
    assert_eq!(back.ids, files.ids);
    assert_eq!(back.payloads, files.payloads);
    assert_eq!(back.dels, files.dels);
    assert_eq!(back.overlay, None);
    assert_eq!(back.index, None);

    write_part(&mut fs, &root, 5, Part::Index, &[1]).unwrap();
    write_part_lines(&mut fs, &root, 5, Part::Overlay, &vec![b"x".to_vec()]).unwrap();
    let back = read_segment_files(&mut fs, &root, 5).unwrap();
    assert_eq!(back.index, Some(vec![1]));
    assert_eq!(back.overlay, Some(vec![b"x".to_vec()]));
    assert!(fs.exists_at(&path("/db/segments/seg-5/payloads.overlay.jsonl")));
    assert!(matches!(
        read_segment_files(&mut fs, &root, 6),
        Err(Error::Io(IoError::NotFound))
    ));
}

#[test]
fn the_manifest_and_the_log_are_in_the_root() {
    let mut fs = MemoryFs::new();
    let root = path("/db");
    make_directories(&mut fs, &root).unwrap();
    assert!(read_manifest(&mut fs, &root).unwrap().is_none());
    write_manifest(&mut fs, &root, b"m").unwrap();
    assert_eq!(read_manifest(&mut fs, &root).unwrap(), Some(b"m".to_vec()));
    assert!(fs.exists_at(&root.join("manifest").with_extension("json")));
    open_log(&mut fs, &root).unwrap().append(b"ab").unwrap();
    open_log(&mut fs, &root).unwrap().append(b"c").unwrap();
    assert_eq!(
        read_all(open_log(&mut fs, &root).unwrap()).unwrap(),
        b"abc".to_vec()
    );
    assert!(fs.exists_at(&path("/db/wal.log")));
}

#[test]
fn directories_say_the_numbers_of_segments() {
    let parts = |seg_id: u64| SegmentParts {
        meta: Meta {
            seg_id,
            dim: 1,
            count: 0,
        },
        vectors: vec![],
        norms: vec![],
        ids: vec![],
        payloads: vec![],
        dels: None,
        overlay: vec![],
        index: None,
    };
    assert!(ImmutableSegment::open(&path("/db/segments/seg-4"), parts(4)).is_ok());
    assert!(matches!(
        ImmutableSegment::open(&path("/db/segments/seg-4"), parts(5)).err(),
        Some(Error::Invalid(Invalid::SegmentIdMismatch { dir: 4, meta: 5 }))
    ));
    assert!(matches!(
        ImmutableSegment::open(&path("/db/segments/other"), parts(4)).err(),
        Some(Error::Invalid(Invalid::SegmentDirName))
    ));
    let faulty = |change: fn(&mut SegmentParts)| {
        let mut p = parts(4);
        change(&mut p);
        ImmutableSegment::from_parts(4, p).err()
    };
    assert!(matches!(
        faulty(|p| p.vectors = vec![1]),
        Some(Error::Invalid(Invalid::VectorsUnaligned))
    ));
    assert!(matches!(
        faulty(|p| p.vectors = vec![1, 2, 3, 4]),
        Some(Error::Invalid(Invalid::VectorsSize {
            got: 1,
            count: 0,
            dim: 1
        }))
    ));
    assert!(matches!(
        faulty(|p| p.norms = vec![1, 2, 3, 4]),
        Some(Error::Invalid(Invalid::NormsSize))
    ));
    assert!(matches!(
        faulty(|p| p.payloads = vec![Json::Null]),
        Some(Error::Invalid(Invalid::LinesCount))
    ));
    assert!(matches!(
        faulty(|p| p.dels = Some(vec![1])),
        Some(Error::Invalid(Invalid::Tombstones))
    ));
    assert!(matches!(
        faulty(|p| p.index = Some(vec![1])),
        Some(Error::Invalid(Invalid::IndexTruncated))
    ));
}
