//! Where data is kept: files, and the directories they are in.
//!
//! - [`StorageBackend`]: a file that is read and written at any place
//! - [`Fs`]: files and directories by their paths
//!
//! A file is replaced as a whole by [`atomic_write`].

pub mod layout;
pub mod memory;
pub mod path;

use vstd::prelude::*;

use crate::error::{Error, IoError};
use crate::storage::path::{beneath, child_of, extended, moved, path_set, FsPath};

verus! {

/// What a file holds, in contracts.
pub type Contents = Seq<u8>;

/// The files by their paths, in contracts.
pub type FileMap = Map<Seq<Seq<char>>, Seq<u8>>;

/// The directories, in contracts.
pub type DirSet = Set<Seq<Seq<char>>>;

/// A file once some bytes were written over it from `offset` on. It grows as needed, with
/// zeros between its end and the bytes.
pub open spec fn overwritten(data: Seq<u8>, offset: nat, bytes: Seq<u8>) -> Seq<u8> {
    let end = offset + bytes.len();
    Seq::new(
        if end > data.len() {
            end
        } else {
            data.len()
        },
        |i: int|
            if offset <= i < end {
                bytes[i - offset]
            } else if i < data.len() {
                data[i]
            } else {
                0u8
            },
    )
}

/// A file once it was cut, or filled up with zeros, to a length.
pub open spec fn resized(data: Seq<u8>, len: nat) -> Seq<u8> {
    Seq::new(
        len,
        |i: int|
            if i < data.len() {
                data[i]
            } else {
                0u8
            },
    )
}

/// Whether what two files hold is the same up to a place, as far as the first one goes.
pub open spec fn same_start(before: Seq<u8>, after: Seq<u8>, n: int) -> bool {
    let k = if n < before.len() {
        n
    } else {
        before.len() as int
    };
    k <= after.len() && after.take(k) =~= before.take(k)
}

/// A file that is read and written at any place.
pub trait StorageBackend {
    /// What the file holds.
    spec fn data(&self) -> Contents;

    /// What of the file outlives a crash.
    spec fn kept(&self) -> Contents;

    /// Whether an operation on the file fails only where what is asked for cannot be done. On
    /// a file that is not reliable any operation may fail.
    spec fn reliable(&self) -> bool;

    /// Fills a buffer from `offset` on. It fails where the file ends before.
    fn read_at(&self, buf: &mut [u8], offset: u64) -> (r: Result<(), IoError>)
        ensures
            final(buf)@.len() == old(buf)@.len(),
            r is Ok ==> offset + old(buf)@.len() <= self.data().len() && final(buf)@
                == self.data().subrange(offset as int, offset + old(buf)@.len()),
            self.reliable() && offset + old(buf)@.len() <= self.data().len() ==> r is Ok,
    ;

    /// Writes over the file from `offset` on. What is before that stays as it is, also where
    /// this fails.
    fn write_at(&mut self, buf: &[u8], offset: u64) -> (r: Result<(), IoError>)
        requires
            offset + buf@.len() <= u64::MAX,
        ensures
            r is Ok ==> final(self).data() == overwritten(old(self).data(), offset as nat, buf@),
            same_start(old(self).data(), final(self).data(), offset as int),
            same_start(old(self).kept(), final(self).kept(), offset as int),
            old(self).reliable() ==> final(self).reliable(),
            old(self).reliable() && offset + buf@.len() <= usize::MAX ==> r is Ok,
    ;

    /// The length of the file.
    fn len(&self) -> (r: Result<u64, IoError>)
        ensures
            r is Ok ==> r->Ok_0 == self.data().len(),
            self.reliable() ==> r is Ok,
    ;

    /// Whether the file is empty.
    fn is_empty(&self) -> (r: Result<bool, IoError>)
        ensures
            r is Ok ==> r->Ok_0 == (self.data().len() == 0),
            self.reliable() ==> r is Ok,
    {
        match self.len() {
            Ok(n) => Ok(n == 0),
            Err(e) => Err(e),
        }
    }

    /// Cuts the file, or fills it up with zeros, to a length. Where this fails, the file is as
    /// it was.
    fn truncate(&mut self, new_len: u64) -> (r: Result<(), IoError>)
        ensures
            r is Ok ==> final(self).data() == resized(old(self).data(), new_len as nat),
            r is Err ==> final(self).data() == old(self).data(),
            same_start(old(self).kept(), final(self).kept(), new_len as int),
            old(self).reliable() ==> final(self).reliable(),
            old(self).reliable() && new_len <= usize::MAX ==> r is Ok,
    ;

    /// Makes what was written last: it outlives a crash.
    fn sync(&mut self) -> (r: Result<(), IoError>)
        ensures
            final(self).data() == old(self).data(),
            r is Ok ==> final(self).kept() == final(self).data(),
            same_start(old(self).kept(), final(self).kept(), old(self).kept().len() as int)
                || r is Ok,
            old(self).reliable() ==> final(self).reliable() && r is Ok,
    ;

    /// Writes behind the end of the file. Says where the bytes begin. What is there already
    /// stays as it is, also where this fails.
    fn append(&mut self, buf: &[u8]) -> (r: Result<u64, IoError>)
        requires
            old(self).data().len() + buf@.len() <= u64::MAX,
        ensures
            r is Ok ==> r->Ok_0 == old(self).data().len() && final(self).data() == old(
                self,
            ).data() + buf@,
            same_start(old(self).data(), final(self).data(), old(self).data().len() as int),
            same_start(old(self).kept(), final(self).kept(), old(self).data().len() as int),
            old(self).reliable() ==> final(self).reliable(),
            old(self).reliable() && old(self).data().len() + buf@.len() <= usize::MAX ==> r is Ok,
    {
        match self.len() {
            Ok(off) => match self.write_at(buf, off) {
                Ok(_) => {
                    assert(self.data() =~= old(self).data() + buf@);
                    Ok(off)
                },
                Err(e) => Err(e),
            },
            Err(e) => Err(e),
        }
    }
}

/// Where something came from that now lies beneath a directory which was moved; it lies
/// where it was if it does not.
pub open spec fn origin(
    q: Seq<Seq<char>>,
    from: Seq<Seq<char>>,
    to: Seq<Seq<char>>,
) -> Option<Seq<Seq<char>>> {
    if beneath(q, to) {
        Some(moved(q, to, from))
    } else if beneath(q, from) {
        None
    } else {
        Some(q)
    }
}

/// The files once a directory was moved.
pub open spec fn moved_files(
    files: Map<Seq<Seq<char>>, Seq<u8>>,
    from: Seq<Seq<char>>,
    to: Seq<Seq<char>>,
) -> Map<Seq<Seq<char>>, Seq<u8>> {
    Map::new(
        |q: Seq<Seq<char>>|
            origin(q, from, to) is Some && files.contains_key(origin(q, from, to)->0),
        |q: Seq<Seq<char>>| files[origin(q, from, to)->0],
    )
}

/// Moving a directory back undoes moving it to where nothing was.
pub proof fn law_moving_back_undoes(
    files: Map<Seq<Seq<char>>, Seq<u8>>,
    from: Seq<Seq<char>>,
    to: Seq<Seq<char>>,
)
    requires
        !beneath(from, to),
        !beneath(to, from),
        forall|p: Seq<Seq<char>>| #[trigger] files.contains_key(p) ==> !beneath(p, to),
    ensures
        moved_files(moved_files(files, from, to), to, from) == files,
{
    let there = moved_files(files, from, to);
    let back = moved_files(there, to, from);
    assert forall|q: Seq<Seq<char>>| #[trigger] back.contains_key(q) <==> files.contains_key(q) by {
        lemma_there_and_back(q, from, to);
    }
    assert forall|q: Seq<Seq<char>>| #[trigger] back.contains_key(q) implies back[q]
        == files[q] by {
        lemma_there_and_back(q, from, to);
    }
    assert(back =~= files);
}

/// Where a path comes from that comes from another one.
proof fn lemma_there_and_back(q: Seq<Seq<char>>, from: Seq<Seq<char>>, to: Seq<Seq<char>>)
    requires
        !beneath(from, to),
        !beneath(to, from),
    ensures
        beneath(q, to) ==> origin(q, to, from) is None || beneath(q, from),
        !beneath(q, to) ==> origin(q, to, from) is Some && origin(
            origin(q, to, from)->0,
            from,
            to,
        ) == Some(q),
        !(beneath(q, to) && beneath(q, from)),
{
    if beneath(q, to) && beneath(q, from) {
        if from.len() <= to.len() {
            assert(to.take(from.len() as int) =~= q.take(from.len() as int));
        } else {
            assert(from.take(to.len() as int) =~= q.take(to.len() as int));
        }
    }
    if beneath(q, from) {
        let x = moved(q, from, to);
        assert(x.take(to.len() as int) =~= to);
        assert(x.skip(to.len() as int) =~= q.skip(from.len() as int));
        assert(moved(x, to, from) =~= q) by {
            assert(q =~= q.take(from.len() as int) + q.skip(from.len() as int));
        }
    }
}

/// The directories once one was moved.
pub open spec fn moved_dirs(
    dirs: Set<Seq<Seq<char>>>,
    from: Seq<Seq<char>>,
    to: Seq<Seq<char>>,
) -> Set<Seq<Seq<char>>> {
    Set::new(
        |q: Seq<Seq<char>>|
            origin(q, from, to) is Some && dirs.contains(origin(q, from, to)->0),
    )
}

/// Whether nothing lies at or beneath a path.
pub open spec fn vacant(
    files: Map<Seq<Seq<char>>, Seq<u8>>,
    dirs: Set<Seq<Seq<char>>>,
    to: Seq<Seq<char>>,
) -> bool {
    &&& forall|q: Seq<Seq<char>>| #[trigger] files.contains_key(q) ==> !beneath(q, to)
    &&& forall|q: Seq<Seq<char>>| #[trigger] dirs.contains(q) ==> !beneath(q, to)
}

/// Whether a file or a directory can be put at a path: the directory that it goes to is there,
/// and there is no directory in its place.
pub open spec fn has_place(dirs: Set<Seq<Seq<char>>>, path: Seq<Seq<char>>) -> bool {
    path.len() > 0 && dirs.contains(path.drop_last()) && !dirs.contains(path)
}

/// Whether a file can be put at a path, on storage where it may need no directory.
pub open spec fn takes_file(
    flat: bool,
    dirs: Set<Seq<Seq<char>>>,
    path: Seq<Seq<char>>,
) -> bool {
    flat || has_place(dirs, path)
}

/// Whether the paths in a set are still in another one, but for those beneath a path.
pub open spec fn last_outside(
    before: Set<Seq<Seq<char>>>,
    after: Set<Seq<Seq<char>>>,
    path: Seq<Seq<char>>,
) -> bool {
    forall|p: Seq<Seq<char>>| #[trigger]
        before.contains(p) && !beneath(p, path) ==> after.contains(p)
}

/// Whether the paths in a set are still in another one, but for one or two.
pub open spec fn last_but(
    before: Set<Seq<Seq<char>>>,
    after: Set<Seq<Seq<char>>>,
    a: Seq<Seq<char>>,
    b: Seq<Seq<char>>,
) -> bool {
    forall|p: Seq<Seq<char>>| #[trigger]
        before.contains(p) && p != a && p != b ==> after.contains(p)
}

/// Whether no file stands at a path or above it.
pub open spec fn is_clear(
    files: Map<Seq<Seq<char>>, Seq<u8>>,
    path: Seq<Seq<char>>,
) -> bool {
    forall|p: Seq<Seq<char>>| #[trigger] files.contains_key(p) ==> !beneath(path, p)
}

/// Files and directories by their paths.
pub trait Fs {
    /// What a file is.
    type File: StorageBackend;

    /// The files.
    spec fn files(&self) -> FileMap;

    /// The directories.
    spec fn dirs(&self) -> DirSet;

    /// Whether things are in order.
    spec fn sound(&self) -> bool;

    /// The files of which all that they hold outlives a crash.
    spec fn lasting(&self) -> DirSet;

    /// Whether a file needs no directory to be in.
    spec fn flat() -> bool;

    /// Whether an operation fails only where what is asked for cannot be done. Where storage
    /// is not reliable, any operation may fail.
    spec fn reliable(&self) -> bool;

    /// An empty file, in place of the file that was there. Where this fails, other files
    /// stay as they are.
    fn create(&mut self, path: &FsPath) -> (r: Result<&mut Self::File, IoError>)
        requires
            old(self).sound(),
        ensures
            final(self).sound(),
            final(self).dirs() == old(self).dirs(),
            match r {
                Ok(f) => f.data().len() == 0 && final(self).files() == old(self).files().insert(
                    path@,
                    final(f).data(),
                ),
                Err(_) => final(self).files().remove(path@) == old(self).files().remove(path@),
            },
            old(self).reliable() ==> match r {
                Ok(f) => f.reliable() && (final(f).reliable() ==> final(self).reliable()),
                Err(_) => final(self).reliable() && !takes_file(
                    Self::flat(),
                    old(self).dirs(),
                    path@,
                ),
            },
            last_but(old(self).lasting(), final(self).lasting(), path@, path@),
            r matches Ok(f) ==> (final(f).kept() == final(f).data() ==> final(self).lasting().contains(path@)),
    ;

    /// A file that is there.
    fn open_rw(&mut self, path: &FsPath) -> (r: Result<&mut Self::File, IoError>)
        requires
            old(self).sound(),
        ensures
            final(self).sound(),
            final(self).dirs() == old(self).dirs(),
            match r {
                Ok(f) => old(self).files().contains_key(path@) && f.data() == old(
                    self,
                ).files()[path@] && final(self).files() == old(self).files().insert(
                    path@,
                    final(f).data(),
                ),
                Err(_) => final(self).files() == old(self).files(),
            },
            old(self).reliable() ==> match r {
                Ok(f) => f.reliable() && (final(f).reliable() ==> final(self).reliable()),
                Err(_) => final(self).reliable() && !old(self).files().contains_key(path@),
            },
            last_but(old(self).lasting(), final(self).lasting(), path@, path@),
            match r {
                Ok(f) => (old(self).lasting().contains(path@) ==> f.kept() == f.data()) && (final(f).kept() == final(f).data() ==> final(self).lasting().contains(path@)),
                Err(_) => old(self).lasting().subset_of(final(self).lasting()),
            },
    ;

    /// Gives a file or a directory another path. A file takes the place of the file that
    /// was there. Where this fails, the files stay as they are.
    fn rename(&mut self, from: &FsPath, to: &FsPath) -> (r: Result<(), IoError>)
        requires
            old(self).sound(),
        ensures
            final(self).sound(),
            r is Err ==> final(self).files() == old(self).files() && final(self).dirs() == old(
                self,
            ).dirs(),
            r is Ok && old(self).files().contains_key(from@) ==> final(self).files() == old(
                self,
            ).files().remove(from@).insert(to@, old(self).files()[from@]) && final(self).dirs() == old(self).dirs(),
            r is Ok && !old(self).files().contains_key(from@) && vacant(
                old(self).files(),
                old(self).dirs(),
                to@,
            ) ==> final(self).files() == moved_files(old(self).files(), from@, to@)
                && final(self).dirs() == moved_dirs(old(self).dirs(), from@, to@),
            old(self).reliable() ==> final(self).reliable(),
            old(self).reliable() && old(self).files().contains_key(from@) && takes_file(
                Self::flat(),
                old(self).dirs(),
                to@,
            ) ==> r is Ok,
            r is Err ==> old(self).lasting().subset_of(final(self).lasting()),
            r is Ok && old(self).files().contains_key(from@) ==> last_but(
                old(self).lasting(),
                final(self).lasting(),
                from@,
                to@,
            ) && (old(self).lasting().contains(from@) ==> final(self).lasting().contains(to@)),
            r is Ok && !old(self).files().contains_key(from@) && vacant(
                old(self).files(),
                old(self).dirs(),
                to@,
            ) ==> moved_dirs(old(self).lasting(), from@, to@).subset_of(final(self).lasting()),
            old(self).reliable() && old(self).dirs().contains(from@) && has_place(
                old(self).dirs(),
                to@,
            ) && vacant(old(self).files(), old(self).dirs(), to@) && !beneath(to@, from@)
                ==> r is Ok,
    ;

    /// Removes a file. Where this fails, the files stay as they are.
    fn remove_file(&mut self, path: &FsPath) -> (r: Result<(), IoError>)
        requires
            old(self).sound(),
        ensures
            final(self).sound(),
            r is Ok ==> final(self).files() == old(self).files().remove(path@),
            r is Err ==> final(self).files() == old(self).files(),
            final(self).dirs() == old(self).dirs(),
            old(self).reliable() ==> final(self).reliable(),
            old(self).reliable() && old(self).files().contains_key(path@) ==> r is Ok,
            last_but(old(self).lasting(), final(self).lasting(), path@, path@),
    ;

    /// Removes a directory with all that is in it, if it is there. Where this fails, some of
    /// that may be left.
    fn remove_dir_all(&mut self, path: &FsPath) -> (r: Result<(), IoError>)
        requires
            old(self).sound(),
        ensures
            final(self).sound(),
            final(self).files().submap_of(old(self).files()),
            old(self).files().remove_keys(
                Set::new(|p: Seq<Seq<char>>| beneath(p, path@)),
            ).submap_of(final(self).files()),
            r is Ok ==> final(self).files() == old(self).files().remove_keys(
                Set::new(|p: Seq<Seq<char>>| beneath(p, path@)),
            ),
            final(self).dirs().subset_of(old(self).dirs()),
            old(self).dirs().difference(
                Set::new(|p: Seq<Seq<char>>| beneath(p, path@)),
            ).subset_of(final(self).dirs()),
            r is Ok ==> final(self).dirs() == old(self).dirs().difference(
                Set::new(|p: Seq<Seq<char>>| beneath(p, path@)),
            ),
            last_outside(old(self).lasting(), final(self).lasting(), path@),
            old(self).reliable() ==> final(self).reliable(),
            old(self).reliable() && !old(self).files().contains_key(path@) ==> r is Ok,
    ;

    /// Makes a directory, and those that lead to it.
    fn create_dir_all(&mut self, path: &FsPath) -> (r: Result<(), IoError>)
        requires
            old(self).sound(),
        ensures
            final(self).sound(),
            final(self).files() == old(self).files(),
            r is Ok ==> final(self).dirs().contains(path@),
            forall|p: Seq<Seq<char>>| #[trigger]
                final(self).dirs().contains(p) ==> old(self).dirs().contains(p) || beneath(
                    path@,
                    p,
                ),
            old(self).dirs().subset_of(final(self).dirs()),
            old(self).lasting().subset_of(final(self).lasting()),
            old(self).reliable() ==> final(self).reliable(),
            old(self).reliable() && is_clear(old(self).files(), path@) ==> r is Ok,
    ;

    /// Whether there is a file or a directory of a path.
    fn exists_at(&self, path: &FsPath) -> (r: bool)
        requires
            self.sound(),
        ensures
            r == (self.files().contains_key(path@) || self.dirs().contains(path@)),
    ;

    /// The paths of what is directly in a directory.
    fn list_dir(&self, path: &FsPath) -> (r: Result<Vec<FsPath>, IoError>)
        requires
            self.sound(),
        ensures
            r is Ok ==> path_set(r->Ok_0@) == Set::new(
                |p: Seq<Seq<char>>|
                    child_of(p, path@) && (self.files().contains_key(p) || self.dirs().contains(p)),
            ),
            self.reliable() && self.dirs().contains(path@) ==> r is Ok,
    ;
}

/// Replaces a file as a whole: the bytes are written to another file, which then takes its
/// place. Where this fails, the file is as it was before; the other file may be left behind.
/// Only a file of which all outlives a crash takes its place. Reliable storage takes the bytes
/// where both files have a place.
pub fn atomic_write<F: Fs>(fs: &mut F, path: &FsPath, bytes: &[u8]) -> (r: Result<(), Error>)
    requires
        old(fs).sound(),
    ensures
        final(fs).sound(),
        final(fs).dirs() == old(fs).dirs(),
        r is Ok ==> final(fs).files() == old(fs).files().remove(
            extended(path@, "tmp"@),
        ).insert(path@, bytes@),
        r is Err ==> final(fs).files().remove(extended(path@, "tmp"@)) == old(fs).files().remove(
            extended(path@, "tmp"@),
        ),
        r matches Err(e) ==> e is Io,
        last_but(old(fs).lasting(), final(fs).lasting(), path@, extended(path@, "tmp"@)),
        r is Ok ==> final(fs).lasting().contains(path@),
        r is Err && old(fs).lasting().contains(path@) && path@ != extended(path@, "tmp"@)
            ==> final(fs).lasting().contains(path@),
        old(fs).reliable() ==> final(fs).reliable(),
        old(fs).reliable() && takes_file(F::flat(), old(fs).dirs(), path@) && takes_file(
            F::flat(),
            old(fs).dirs(),
            extended(path@, "tmp"@),
        ) ==> r is Ok,
{
    let tmp = path.with_extension("tmp");
    let ghost before = fs.files();
    match write_whole(fs, &tmp, bytes) {
        Ok(_) => {},
        Err(e) => {
            return Err(Error::Io(e));
        },
    }
    match fs.rename(&tmp, path) {
        Ok(_) => {
            assert(fs.files() =~= before.remove(tmp@).insert(path@, bytes@));
            Ok(())
        },
        Err(e) => {
            assert(fs.files().remove(tmp@) =~= before.remove(tmp@));
            Err(Error::Io(e))
        },
    }
}

/// Writes a file from scratch. Reliable storage takes it where it has a place.
fn write_whole<F: Fs>(fs: &mut F, path: &FsPath, bytes: &[u8]) -> (r: Result<(), IoError>)
    requires
        old(fs).sound(),
    ensures
        final(fs).sound(),
        final(fs).dirs() == old(fs).dirs(),
        r is Ok ==> final(fs).files() == old(fs).files().insert(path@, bytes@),
        final(fs).files().remove(path@) == old(fs).files().remove(path@),
        old(fs).reliable() ==> final(fs).reliable(),
        last_but(old(fs).lasting(), final(fs).lasting(), path@, path@),
        r is Ok ==> final(fs).lasting().contains(path@),
        old(fs).reliable() && takes_file(F::flat(), old(fs).dirs(), path@) ==> r is Ok,
{
    let n: usize = bytes.len();
    match fs.create(path) {
        Ok(f) => {
            match f.write_at(bytes, 0) {
                Ok(_) => {},
                Err(e) => {
                    return Err(e);
                },
            }
            assert(f.data() =~= bytes@);
            match f.truncate(n as u64) {
                Ok(_) => {},
                Err(e) => {
                    return Err(e);
                },
            }
            assert(f.data() =~= bytes@);
            f.sync()
        },
        Err(e) => Err(e),
    }
}

/// All bytes of a file.
pub fn read_all<B: StorageBackend>(b: &B) -> (r: Result<Vec<u8>, IoError>)
    requires
        b.data().len() <= usize::MAX,
    ensures
        r is Ok ==> r->Ok_0@ == b.data(),
        b.reliable() ==> r is Ok,
{
    let len: u64 = match b.len() {
        Ok(n) => n,
        Err(e) => {
            return Err(e);
        },
    };
    let mut buf: Vec<u8> = Vec::new();
    buf.resize(len as usize, 0);
    match b.read_at(buf.as_mut_slice(), 0) {
        Ok(_) => {
            assert(buf@ =~= b.data());
            Ok(buf)
        },
        Err(e) => Err(e),
    }
}

/// Whether a file holds some bytes; whether it is not there where there are none.
pub open spec fn is_at(
    files: FileMap,
    dirs: DirSet,
    path: Seq<Seq<char>>,
    b: Option<Seq<u8>>,
) -> bool {
    match b {
        Some(b) => files.contains_key(path) && files[path] == b,
        None => !files.contains_key(path) && !dirs.contains(path),
    }
}

/// Some bytes that may be missing.
pub open spec fn bytes_if_any(b: Option<Vec<u8>>) -> Option<Seq<u8>> {
    match b {
        Some(b) => Some(b@),
        None => None,
    }
}

/// All bytes of a file.
pub fn read_file<F: Fs>(fs: &mut F, path: &FsPath) -> (r: Result<Vec<u8>, Error>)
    requires
        old(fs).sound(),
        forall|p: Seq<Seq<char>>| #[trigger]
            old(fs).files().contains_key(p) ==> old(fs).files()[p].len() <= usize::MAX,
    ensures
        final(fs).sound(),
        final(fs).files() == old(fs).files(),
        final(fs).dirs() == old(fs).dirs(),
        match r {
            Ok(b) => old(fs).files().contains_key(path@) && b@ == old(fs).files()[path@],
            Err(e) => e is Io,
        },
        old(fs).reliable() ==> final(fs).reliable(),
        old(fs).reliable() && old(fs).files().contains_key(path@) ==> r is Ok,
{
    let ghost before = fs.files();
    match fs.open_rw(path) {
        Err(e) => Err(Error::Io(e)),
        Ok(f) => {
            let r = match read_all(f) {
                Ok(b) => Ok(b),
                Err(e) => Err(Error::Io(e)),
            };
            assert(before.insert(path@, before[path@]) =~= before);
            r
        },
    }
}

/// Whether there is a file at a path, or nothing.
pub open spec fn is_readable(files: FileMap, dirs: DirSet, path: Seq<Seq<char>>) -> bool {
    files.contains_key(path) || !dirs.contains(path)
}

/// All bytes of a file that may be missing.
pub fn read_if_any<F: Fs>(fs: &mut F, path: &FsPath) -> (r: Result<Option<Vec<u8>>, Error>)
    requires
        old(fs).sound(),
        forall|p: Seq<Seq<char>>| #[trigger]
            old(fs).files().contains_key(p) ==> old(fs).files()[p].len() <= usize::MAX,
    ensures
        final(fs).sound(),
        final(fs).files() == old(fs).files(),
        final(fs).dirs() == old(fs).dirs(),
        match r {
            Ok(b) => is_at(old(fs).files(), old(fs).dirs(), path@, bytes_if_any(b)),
            Err(e) => e is Io,
        },
        old(fs).reliable() ==> final(fs).reliable(),
        old(fs).reliable() && is_readable(old(fs).files(), old(fs).dirs(), path@) ==> r is Ok,
{
    if fs.exists_at(path) {
        match read_file(fs, path) {
            Ok(b) => Ok(Some(b)),
            Err(e) => Err(e),
        }
    } else {
        Ok(None)
    }
}

/// Writing over a file changes just the bytes that are written; what is between its end and these
/// is zero. Cutting or filling it up keeps what stays, and adds zeros.
pub proof fn law_files_change_where_written(data: Seq<u8>, offset: nat, bytes: Seq<u8>, len: nat, i: int)
    ensures
        ({
            let w = overwritten(data, offset, bytes);
            &&& w.len() >= data.len() && w.len() >= offset + bytes.len()
            &&& w.len() == data.len() || w.len() == offset + bytes.len()
            &&& 0 <= i < bytes.len() ==> w[offset + i] == bytes[i]
            &&& 0 <= i < data.len() && (i < offset || i >= offset + bytes.len()) ==> w[i] == data[i]
            &&& data.len() <= i < offset ==> w[i] == 0
        }),
        resized(data, len).len() == len,
        0 <= i < len && i < data.len() ==> resized(data, len)[i] == data[i],
        data.len() <= i < len ==> resized(data, len)[i] == 0,
{
}

/// Moving a directory takes every file in it to the same place in the new one, with what it holds;
/// nothing is left in the old one, and other files stay as they are.
pub proof fn law_moving_takes_files_along(
    files: Map<Seq<Seq<char>>, Seq<u8>>,
    from: Seq<Seq<char>>,
    to: Seq<Seq<char>>,
    rest: Seq<Seq<char>>,
    p: Seq<Seq<char>>,
)
    requires
        !beneath(from, to),
        !beneath(to, from),
    ensures
        ({
            let now = moved_files(files, from, to);
            &&& now.contains_key(to + rest) <==> files.contains_key(from + rest)
            &&& files.contains_key(from + rest) ==> now[to + rest] == files[from + rest]
            &&& !now.contains_key(from + rest)
            &&& !beneath(p, from) && !beneath(p, to) ==> (now.contains_key(p)
                <==> files.contains_key(p)) && (files.contains_key(p) ==> now[p] == files[p])
        }),
{
    let a = from + rest;
    let b = to + rest;
    assert(a.take(from.len() as int) =~= from);
    assert(b.take(to.len() as int) =~= to);
    assert(b.skip(to.len() as int) =~= rest);
    assert(moved(b, to, from) =~= a);
    lemma_there_and_back(a, from, to);
}

} // verus!
