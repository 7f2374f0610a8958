//! Files and directories in memory.

use vstd::prelude::*;

use crate::error::IoError;
use crate::storage::path::{beneath, child_of, moved, path_set, FsPath};
use crate::storage::{
    moved_dirs, moved_files, origin, overwritten, resized, vacant, Fs, StorageBackend,
};
use crate::text::{is_before, lemma_bytes_chain, lemma_bytes_total, text_before};

verus! {

/// A file in memory.
#[derive(Debug)]
pub struct MemoryBackend {
    bytes: Vec<u8>,
}

impl StorageBackend for MemoryBackend {
    closed spec fn data(&self) -> Seq<u8> {
        self.bytes@
    }

    open spec fn kept(&self) -> Seq<u8> {
        self.data()
    }

    open spec fn reliable(&self) -> bool {
        true
    }

    fn read_at(&self, buf: &mut [u8], offset: u64) -> (r: Result<(), IoError>)
        ensures
            r == (if offset + old(buf)@.len() <= self.data().len() {
                Ok::<(), IoError>(())
            } else {
                Err(IoError::UnexpectedEof)
            }),
            r is Err ==> final(buf)@ == old(buf)@,
    {
        let len: usize = self.bytes.len();
        let n: usize = buf.len();
        if offset > len as u64 || n > len - offset as usize {
            return Err(IoError::UnexpectedEof);
        }
        let start: usize = offset as usize;
        let mut i: usize = 0;
        while i < n
            invariant
                i <= n,
                n == old(buf)@.len(),
                buf@.len() == n,
                start == offset,
                len == self.bytes@.len(),
                start + n <= len,
                buf@.take(i as int) == self.bytes@.subrange(start as int, start + i),
            decreases n - i,
        {
            let ghost before = buf@;
            buf[i] = self.bytes[start + i];
            assert(buf@ =~= before.update(i as int, self.bytes@[start + i]));
            assert(buf@.take(i + 1) =~= before.take(i as int).push(self.bytes@[start + i]));
            i = i + 1;
        }
        assert(buf@.take(n as int) =~= buf@);
        Ok(())
    }

    /// Fails where the file would not fit into memory.
    fn write_at(&mut self, buf: &[u8], offset: u64) -> (r: Result<(), IoError>)
        ensures
            r == (if offset + buf@.len() <= usize::MAX {
                Ok::<(), IoError>(())
            } else {
                Err(IoError::Other)
            }),
            r is Err ==> final(self).data() == old(self).data(),
    {
        let end: u64 = offset + buf.len() as u64;
        if end > usize::MAX as u64 {
            return Err(IoError::Other);
        }
        let start: usize = offset as usize;
        if end as usize > self.bytes.len() {
            self.bytes.resize(end as usize, 0);
        }
        let ghost grown = self.bytes@;
        let len: usize = self.bytes.len();
        let mut i: usize = 0;
        while i < buf.len()
            invariant
                i <= buf@.len(),
                len == grown.len(),
                start + buf@.len() <= len,
                self.bytes@.len() == grown.len(),
                forall|k: int|
                    0 <= k < grown.len() ==> #[trigger] self.bytes@[k] == (if start <= k < start + i {
                        buf@[k - start]
                    } else {
                        grown[k]
                    }),
            decreases buf.len() - i,
        {
            self.bytes.set(start + i, buf[i]);
            i = i + 1;
        }
        assert(self.bytes@ =~= overwritten(old(self).bytes@, offset as nat, buf@));
        Ok(())
    }

    fn len(&self) -> (r: Result<u64, IoError>)
        ensures
            r is Ok,
    {
        Ok(self.bytes.len() as u64)
    }

    /// Fails where the file would not fit into memory.
    fn truncate(&mut self, new_len: u64) -> (r: Result<(), IoError>)
        ensures
            r == (if new_len <= usize::MAX {
                Ok::<(), IoError>(())
            } else {
                Err(IoError::Other)
            }),
            r is Err ==> final(self).data() == old(self).data(),
    {
        if new_len > usize::MAX as u64 {
            return Err(IoError::Other);
        }
        let n: usize = new_len as usize;
        if n <= self.bytes.len() {
            self.bytes.truncate(n);
        } else {
            self.bytes.resize(n, 0);
        }
        assert(self.bytes@ =~= resized(old(self).bytes@, new_len as nat));
        Ok(())
    }

    fn sync(&mut self) -> (r: Result<(), IoError>)
        ensures
            r is Ok,
    {
        Ok(())
    }
}

/// Files by their paths.
struct FileTable {
    entries: Vec<(FsPath, MemoryBackend)>,
}

impl FileTable {
    spec fn at(&self, p: Seq<Seq<char>>, i: int) -> bool {
        0 <= i < self.entries@.len() && self.entries@[i].0@ == p
    }

    spec fn map(&self) -> Map<Seq<Seq<char>>, Seq<u8>> {
        Map::new(
            |p: Seq<Seq<char>>| exists|i: int| self.at(p, i),
            |p: Seq<Seq<char>>| self.entries@[choose|i: int| self.at(p, i)].1.data(),
        )
    }

    /// Whether one of the first `n` files has a path.
    spec fn before(&self, p: Seq<Seq<char>>, n: int) -> bool {
        exists|k: int| k < n && self.at(p, k)
    }

    /// No two files have the same path.
    spec fn valid(&self) -> bool {
        forall|p: Seq<Seq<char>>, i: int, j: int| #[trigger]
            self.at(p, i) && #[trigger] self.at(p, j) ==> i == j
    }

    proof fn lemma_at(&self, i: int)
        requires
            self.valid(),
            0 <= i < self.entries@.len(),
        ensures
            self.map().contains_key(self.entries@[i].0@),
            self.map()[self.entries@[i].0@] == self.entries@[i].1.data(),
    {
        assert(self.at(self.entries@[i].0@, i));
    }

    fn new() -> (r: Self)
        ensures
            r.valid(),
            r.map() == Map::<Seq<Seq<char>>, Seq<u8>>::empty(),
    {
        let r = FileTable { entries: Vec::new() };
        assert(r.map() =~= Map::<Seq<Seq<char>>, Seq<u8>>::empty());
        r
    }

    fn find(&self, path: &FsPath) -> (r: Option<usize>)
        ensures
            match r {
                Some(i) => self.at(path@, i as int),
                None => !self.map().contains_key(path@),
            },
    {
        let mut i: usize = 0;
        while i < self.entries.len()
            invariant
                i <= self.entries@.len(),
                forall|k: int| 0 <= k < i ==> !#[trigger] self.at(path@, k),
            decreases self.entries.len() - i,
        {
            if self.entries[i].0.same(path) {
                return Some(i);
            }
            i = i + 1;
        }
        None
    }

    /// A file, in place of the one of that path.
    fn put(&mut self, path: FsPath, file: MemoryBackend) -> (r: usize)
        requires
            old(self).valid(),
        ensures
            final(self).valid(),
            final(self).map() == old(self).map().insert(path@, file.data()),
            final(self).at(path@, r as int),
    {
        let ghost before = *self;
        match self.find(&path) {
            Some(i) => {
                let ghost p = path@;
                let ghost d = file.data();
                self.entries.set(i, (path, file));
                proof {
                    assert forall|q: Seq<Seq<char>>, k: int| #[trigger]
                        self.at(q, k) <==> before.at(q, k) by {
                        assert(before.at(p, i as int));
                    }
                    assert(self.at(p, i as int));
                    self.lemma_at(i as int);
                    before.lemma_same_but(*self, p, d, i as int);
                }
                i
            },
            None => {
                let i: usize = self.entries.len();
                let ghost p = path@;
                let ghost d = file.data();
                self.entries.push((path, file));
                proof {
                    assert forall|q: Seq<Seq<char>>, k: int| #[trigger]
                        self.at(q, k) <==> before.at(q, k) || (q == p && k == i) by {}
                    assert forall|q: Seq<Seq<char>>, a: int, b: int| #[trigger]
                        self.at(q, a) && #[trigger] self.at(q, b) implies a == b by {
                        if a == i || b == i {
                            if before.at(p, a) || before.at(p, b) {
                                assert(before.map().contains_key(p));
                            }
                        } else {
                            assert(before.at(q, a) && before.at(q, b));
                        }
                    }
                    assert(self.at(p, i as int));
                    self.lemma_at(i as int);
                    before.lemma_same_but(*self, p, d, i as int);
                }
                i
            },
        }
    }

    /// A file of the table.
    fn file_mut(&mut self, i: usize) -> (r: &mut MemoryBackend)
        requires
            old(self).valid(),
            i < old(self).entries@.len(),
        ensures
            *r == old(self).entries@[i as int].1,
            final(self).valid(),
            final(self).map() == old(self).map().insert(
                old(self).entries@[i as int].0@,
                final(r).data(),
            ),
    {
        let ghost mid = *self;
        proof {
            assert forall|t: FileTable|
                #![trigger t.valid()]
                #![trigger t.map()]
                t.entries@ =~= mid.entries@.update(
                    i as int,
                    (mid.entries@[i as int].0, t.entries@[i as int].1),
                ) implies t.valid() && t.map() == mid.map().insert(
                mid.entries@[i as int].0@,
                t.entries@[i as int].1.data(),
            ) by {
                let p = mid.entries@[i as int].0@;
                assert forall|q: Seq<Seq<char>>, k: int| #[trigger] t.at(q, k) <==> mid.at(q, k) by {}
                assert(t.at(p, i as int));
                mid.lemma_same_but(t, p, t.entries@[i as int].1.data(), i as int);
            }
        }
        &mut self.entries[i].1
    }

    /// Where all other files are the same, so is the table but for one file.
    proof fn lemma_same_but(&self, after: FileTable, p: Seq<Seq<char>>, d: Seq<u8>, i: int)
        requires
            self.valid(),
            after.valid(),
            after.at(p, i),
            after.entries@[i].1.data() == d,
            forall|q: Seq<Seq<char>>, k: int|
                q != p ==> (#[trigger] after.at(q, k) <==> self.at(q, k)),
            forall|k: int|
                0 <= k < self.entries@.len() && k != i ==> #[trigger] after.entries@[k]
                    == self.entries@[k],
        ensures
            after.map() == self.map().insert(p, d),
    {
        let want = self.map().insert(p, d);
        after.lemma_at(i);
        assert forall|q: Seq<Seq<char>>| #[trigger] after.map().contains_key(q)
            <==> want.contains_key(q) by {
            if q != p {
                if after.map().contains_key(q) {
                    let k = choose|k: int| after.at(q, k);
                    assert(self.at(q, k));
                }
                if self.map().contains_key(q) {
                    let k = choose|k: int| self.at(q, k);
                    assert(after.at(q, k));
                }
            }
        }
        assert forall|q: Seq<Seq<char>>| #[trigger] after.map().contains_key(
            q,
        ) implies after.map()[q] == want[q] by {
            if q != p {
                let k = choose|k: int| after.at(q, k);
                assert(self.at(q, k));
                after.lemma_at(k);
                self.lemma_at(k);
                assert(k != i);
                assert(after.entries@[k] == self.entries@[k]);
            }
        }
        assert(after.map() =~= want);
    }

    /// Takes a file out.
    fn take(&mut self, path: &FsPath) -> (r: Option<MemoryBackend>)
        requires
            old(self).valid(),
        ensures
            final(self).valid(),
            match r {
                Some(f) => old(self).map().contains_key(path@) && f.data() == old(
                    self,
                ).map()[path@] && final(self).map() == old(self).map().remove(path@),
                None => !old(self).map().contains_key(path@) && *final(self) == *old(self),
            },
    {
        let ghost before = *self;
        match self.find(path) {
            Some(i) => {
                proof {
                    self.lemma_at(i as int);
                }
                let (p, f) = self.entries.remove(i);
                proof {
                    assert forall|q: Seq<Seq<char>>, k: int| #[trigger]
                        self.at(q, k) implies before.at(q, lift(k, i as int)) by {}
                    assert forall|q: Seq<Seq<char>>, a: int, b: int| #[trigger]
                        self.at(q, a) && #[trigger] self.at(q, b) implies a == b by {
                        assert(before.at(q, lift(a, i as int)) && before.at(
                            q,
                            lift(b, i as int),
                        ));
                    }
                    let want = before.map().remove(path@);
                    assert forall|q: Seq<Seq<char>>| #[trigger] self.map().contains_key(q)
                        <==> want.contains_key(q) by {
                        if self.map().contains_key(q) {
                            let k = choose|k: int| self.at(q, k);
                            assert(before.at(q, lift(k, i as int)));
                            assert(before.at(path@, i as int));
                        }
                        if want.contains_key(q) {
                            let k = choose|k: int| before.at(q, k);
                            assert(k != i);
                            let m = if k < i {
                                k
                            } else {
                                k - 1
                            };
                            assert(self.at(q, m));
                        }
                    }
                    assert forall|q: Seq<Seq<char>>| #[trigger] self.map().contains_key(
                        q,
                    ) implies self.map()[q] == want[q] by {
                        let k = choose|k: int| self.at(q, k);
                        assert(before.at(q, lift(k, i as int)));
                        self.lemma_at(k);
                        before.lemma_at(lift(k, i as int));
                    }
                    assert(self.map() =~= want);
                }
                Some(f)
            },
            None => None,
        }
    }
}

/// The place of an item before one at `i` was taken out.
spec fn lift(k: int, i: int) -> int {
    if k < i {
        k
    } else {
        k + 1
    }
}

/// Whether no path is twice in a list.
pub open spec fn distinct(v: Seq<FsPath>) -> bool {
    forall|i: int, j: int| 0 <= i < j < v.len() ==> (#[trigger] v[i])@ != (#[trigger] v[j])@
}

/// Files and directories in memory.
pub struct MemoryFs {
    table: FileTable,
    folders: Vec<FsPath>,
}

/// Moving there and back again changes nothing.
proof fn lemma_moved_back(p: Seq<Seq<char>>, from: Seq<Seq<char>>, to: Seq<Seq<char>>)
    requires
        beneath(p, from),
    ensures
        beneath(moved(p, from, to), to),
        moved(moved(p, from, to), to, from) == p,
{
    let q = moved(p, from, to);
    assert(q.take(to.len() as int) =~= to);
    assert(q.skip(to.len() as int) =~= p.skip(from.len() as int));
    assert(p.take(from.len() as int) =~= from);
    assert(from + p.skip(from.len() as int) =~= p);
}

fn find_path(v: &Vec<FsPath>, path: &FsPath) -> (r: Option<usize>)
    ensures
        match r {
            Some(i) => i < v@.len() && v@[i as int]@ == path@,
            None => !path_set(v@).contains(path@),
        },
{
    let mut i: usize = 0;
    while i < v.len()
        invariant
            i <= v@.len(),
            forall|k: int| 0 <= k < i ==> (#[trigger] v@[k])@ != path@,
        decreases v.len() - i,
    {
        if v[i].same(path) {
            return Some(i);
        }
        i = i + 1;
    }
    None
}

fn add_path(v: &mut Vec<FsPath>, path: FsPath)
    requires
        distinct(old(v)@),
    ensures
        distinct(final(v)@),
        path_set(final(v)@) == path_set(old(v)@).insert(path@),
{
    let ghost before = v@;
    match find_path(v, &path) {
        Some(i) => {
            assert(path_set(before) =~= path_set(before).insert(path@)) by {
                assert(before[i as int]@ == path@);
            }
        },
        None => {
            let ghost p = path@;
            v.push(path);
            proof {
                assert forall|q: Seq<Seq<char>>| #[trigger] path_set(v@).contains(q) <==> path_set(
                    before,
                ).contains(q) || q == p by {
                    if path_set(before).contains(q) {
                        let k = choose|k: int| 0 <= k < before.len() && (#[trigger] before[k])@ == q;
                        assert(v@[k]@ == q);
                    }
                    if q == p {
                        assert(v@[before.len() as int]@ == q);
                    }
                    if path_set(v@).contains(q) {
                        let k = choose|k: int| 0 <= k < v@.len() && (#[trigger] v@[k])@ == q;
                        if k < before.len() {
                            assert(before[k]@ == q);
                        }
                    }
                }
                assert(path_set(v@) =~= path_set(before).insert(p));
                assert forall|i: int, j: int| 0 <= i < j < v@.len() implies (#[trigger] v@[i])@ != (
                #[trigger] v@[j])@ by {
                    if j == before.len() {
                        if v@[i]@ == p {
                            assert(before[i]@ == p);
                            assert(path_set(before).contains(p));
                        }
                    }
                }
            }
        },
    }
}

impl MemoryFs {
    /// No files and no directories.
    pub fn new() -> (r: Self)
        ensures
            r.sound(),
            r.files() == Map::<Seq<Seq<char>>, Seq<u8>>::empty(),
            r.dirs() == Set::<Seq<Seq<char>>>::empty(),
    {
        let r = MemoryFs { table: FileTable::new(), folders: Vec::new() };
        assert(r.dirs() =~= Set::<Seq<Seq<char>>>::empty());
        r
    }

    /// Moves the files beneath a directory.
    fn move_files(&mut self, from: &FsPath, to: &FsPath)
        requires
            old(self).table.valid(),
        ensures
            final(self).table.valid(),
            final(self).folders == old(self).folders,
            (forall|q: Seq<Seq<char>>| #[trigger]
                old(self).table.map().contains_key(q) ==> !beneath(q, to@)) ==> final(self).table.map() == moved_files(old(self).table.map(), from@, to@),
    {
        let ghost all = self.table;
        let ghost files = self.table.map();
        let mut kept = FileTable::new();
        let mut away: Vec<(FsPath, MemoryBackend)> = Vec::new();
        let mut k: usize = self.table.entries.len();
        assert(self.table.entries@ =~= all.entries@.take(k as int));
        while k > 0
            invariant
                k <= all.entries@.len(),
                all == old(self).table,
                all.valid(),
                files == all.map(),
                self.folders == old(self).folders,
                self.table.entries@ == all.entries@.take(k as int),
                kept.valid(),
                forall|q: Seq<Seq<char>>| #[trigger]
                    kept.map().contains_key(q) ==> files.contains_key(q) && !beneath(q, from@)
                        && kept.map()[q] == files[q],
                forall|i: int|
                    k <= i < all.entries@.len() && !beneath((#[trigger] all.entries@[i]).0@, from@)
                        ==> kept.map().contains_key(all.entries@[i].0@),
                forall|j: int|
                    0 <= j < away@.len() ==> beneath((#[trigger] away@[j]).0@, to@)
                        && files.contains_key(moved(away@[j].0@, to@, from@)) && beneath(
                        moved(away@[j].0@, to@, from@),
                        from@,
                    ) && away@[j].1.data() == files[moved(away@[j].0@, to@, from@)],
                forall|i: int|
                    k <= i < all.entries@.len() && beneath((#[trigger] all.entries@[i]).0@, from@)
                        ==> lists(away@, moved(all.entries@[i].0@, from@, to@)),
            decreases k,
        {
            k = k - 1;
            let ghost away0 = away@;
            let ghost kept0 = kept.map();
            proof {
                all.lemma_at(k as int);
            }
            match self.table.entries.pop() {
                None => {
                    assert(false);
                },
                Some((p, f)) => {
                    assert(self.table.entries@ =~= all.entries@.take(k as int));
                    assert(p == all.entries@[k as int].0 && f == all.entries@[k as int].1);
                    if p.starts_with(from) {
                        let q = p.moved_to(from, to);
                        proof {
                            lemma_moved_back(p@, from@, to@);
                        }
                        away.push((q, f));
                        proof {
                            assert forall|i: int|
                                k <= i < all.entries@.len() && beneath(
                                    (#[trigger] all.entries@[i]).0@,
                                    from@,
                                ) implies lists(away@, moved(all.entries@[i].0@, from@, to@)) by {
                                if i == k {
                                    assert(away@[away0.len() as int].0@ == moved(
                                        all.entries@[i].0@,
                                        from@,
                                        to@,
                                    ));
                                } else {
                                    let j = choose|j: int|
                                        0 <= j < away0.len() && (#[trigger] away0[j]).0@ == moved(
                                            all.entries@[i].0@,
                                            from@,
                                            to@,
                                        );
                                    assert(away@[j] == away0[j]);
                                }
                            }
                        }
                    } else {
                        kept.put(p, f);
                    }
                },
            }
        }
        self.table = kept;
        let ghost base = self.table.map();
        let ghost list = away@;
        proof {
            assert forall|q: Seq<Seq<char>>| #[trigger] base.contains_key(q) <==> files.contains_key(
                q,
            ) && !beneath(q, from@) by {
                if files.contains_key(q) && !beneath(q, from@) {
                    let i = choose|i: int| all.at(q, i);
                    assert(all.entries@[i].0@ == q);
                }
            }
        }
        let mut n: usize = away.len();
        while n > 0
            invariant
                n <= list.len(),
                away@ == list.take(n as int),
                self.folders == old(self).folders,
                self.table.valid(),
                forall|j: int|
                    0 <= j < list.len() ==> beneath((#[trigger] list[j]).0@, to@)
                        && files.contains_key(moved(list[j].0@, to@, from@)) && list[j].1.data()
                        == files[moved(list[j].0@, to@, from@)],
                forall|q: Seq<Seq<char>>| #[trigger]
                    self.table.map().contains_key(q) ==> base.contains_key(q) || beneath(q, to@),
                forall|q: Seq<Seq<char>>|
                    !beneath(q, to@) ==> (#[trigger] self.table.map().contains_key(q)
                        <==> base.contains_key(q)),
                forall|q: Seq<Seq<char>>|
                    !beneath(q, to@) && #[trigger] self.table.map().contains_key(q)
                        ==> self.table.map()[q] == base[q],
                forall|q: Seq<Seq<char>>|
                    beneath(q, to@) && #[trigger] self.table.map().contains_key(q)
                        && !base.contains_key(q) ==> files.contains_key(moved(q, to@, from@))
                        && self.table.map()[q] == files[moved(q, to@, from@)],
                forall|j: int|
                    n <= j < list.len() ==> self.table.map().contains_key(
                        (#[trigger] list[j]).0@,
                    ),
            decreases n,
        {
            n = n - 1;
            match away.pop() {
                None => {
                    assert(false);
                },
                Some((p, f)) => {
                    assert(away@ =~= list.take(n as int));
                    assert(p == list[n as int].0 && f == list[n as int].1);
                    self.table.put(p, f);
                },
            }
        }
        proof {
            if forall|q: Seq<Seq<char>>| #[trigger] files.contains_key(q) ==> !beneath(q, to@) {
                let want = moved_files(files, from@, to@);
                let got = self.table.map();
                assert forall|q: Seq<Seq<char>>| #[trigger] got.contains_key(q)
                    <==> want.contains_key(q) by {
                    if beneath(q, to@) {
                        lemma_moved_back(q, to@, from@);
                        let p = moved(q, to@, from@);
                        if want.contains_key(q) {
                            let i = choose|i: int| all.at(p, i);
                            assert(beneath(all.entries@[i].0@, from@));
                            let j = choose|j: int|
                                0 <= j < list.len() && (#[trigger] list[j]).0@ == moved(
                                    p,
                                    from@,
                                    to@,
                                );
                            assert(got.contains_key(list[j].0@));
                        }
                        if got.contains_key(q) && base.contains_key(q) {
                            assert(files.contains_key(q));
                        }
                    }
                }
                assert forall|q: Seq<Seq<char>>| #[trigger] got.contains_key(q) implies got[q]
                    == want[q] by {
                    if beneath(q, to@) {
                        if base.contains_key(q) {
                            assert(files.contains_key(q));
                        }
                    }
                }
                assert(got =~= want);
            }
        }
    }

    /// Moves a directory and those beneath it.
    fn move_dirs(&mut self, from: &FsPath, to: &FsPath)
        requires
            distinct(old(self).folders@),
        ensures
            final(self).table == old(self).table,
            distinct(final(self).folders@),
            (forall|q: Seq<Seq<char>>| #[trigger]
                path_set(old(self).folders@).contains(q) ==> !beneath(q, to@)) ==> path_set(
                final(self).folders@,
            ) == moved_dirs(path_set(old(self).folders@), from@, to@),
    {
        let ghost all = self.folders@;
        let mut kept: Vec<FsPath> = Vec::new();
        let mut k: usize = 0;
        let ghost dirs = path_set(all);
        while k < self.folders.len()
            invariant
                k <= all.len(),
                self.folders@ == all,
                self.table == old(self).table,
                dirs == path_set(all),
                distinct(kept@),
                forall|q: Seq<Seq<char>>| #[trigger]
                    path_set(kept@).contains(q) ==> (dirs.contains(q) && !beneath(q, from@)) || (
                    beneath(q, to@) && dirs.contains(moved(q, to@, from@)) && beneath(
                        moved(q, to@, from@),
                        from@,
                    )),
                forall|i: int|
                    0 <= i < k ==> if beneath((#[trigger] all[i])@, from@) {
                        path_set(kept@).contains(moved(all[i]@, from@, to@))
                    } else {
                        path_set(kept@).contains(all[i]@)
                    },
            decreases all.len() - k,
        {
            let p = &self.folders[k];
            assert(dirs.contains(p@)) by {
                assert(all[k as int]@ == p@);
            }
            if p.starts_with(from) {
                proof {
                    lemma_moved_back(p@, from@, to@);
                }
                add_path(&mut kept, p.moved_to(from, to));
            } else {
                add_path(&mut kept, p.copy());
            }
            k = k + 1;
        }
        self.folders = kept;
        proof {
            if forall|q: Seq<Seq<char>>| #[trigger] dirs.contains(q) ==> !beneath(q, to@) {
                let got = path_set(self.folders@);
                let want = moved_dirs(dirs, from@, to@);
                assert forall|q: Seq<Seq<char>>| #[trigger] got.contains(q) <==> want.contains(
                    q,
                ) by {
                    if want.contains(q) {
                        let p = origin(q, from@, to@)->0;
                        let i = choose|i: int| 0 <= i < all.len() && (#[trigger] all[i])@ == p;
                        if beneath(q, to@) {
                            lemma_moved_back(q, to@, from@);
                        }
                        assert(all[i]@ == p);
                    }
                }
                assert(got =~= want);
            }
        }
    }
}

/// Whether a list holds a file of a path.
spec fn lists(v: Seq<(FsPath, MemoryBackend)>, p: Seq<Seq<char>>) -> bool {
    exists|j: int| 0 <= j < v.len() && (#[trigger] v[j]).0@ == p
}

impl Fs for MemoryFs {
    type File = MemoryBackend;

    closed spec fn files(&self) -> Map<Seq<Seq<char>>, Seq<u8>> {
        self.table.map()
    }

    closed spec fn dirs(&self) -> Set<Seq<Seq<char>>> {
        path_set(self.folders@)
    }

    closed spec fn sound(&self) -> bool {
        self.table.valid() && distinct(self.folders@)
    }

    open spec fn lasting(&self) -> Set<Seq<Seq<char>>> {
        Set::full()
    }

    open spec fn flat() -> bool {
        true
    }

    open spec fn reliable(&self) -> bool {
        true
    }

    fn create(&mut self, path: &FsPath) -> (r: Result<&mut MemoryBackend, IoError>)
        ensures
            r is Ok,
            final(self).dirs() == old(self).dirs(),
    {
        let ghost before = self.table.map();
        let i: usize = self.table.put(path.copy(), MemoryBackend { bytes: Vec::new() });
        proof {
            self.table.lemma_at(i as int);
            assert forall|d: Seq<u8>| #[trigger]
                self.table.map().insert(path@, d) == before.insert(path@, d) by {
                assert(self.table.map().insert(path@, d) =~= before.insert(path@, d));
            }
        }
        Ok(self.table.file_mut(i))
    }

    /// Fails just where there is no such file.
    fn open_rw(&mut self, path: &FsPath) -> (r: Result<&mut MemoryBackend, IoError>)
        ensures
            r is Ok <==> old(self).files().contains_key(path@),
            r is Err ==> r->Err_0 == IoError::NotFound,
            final(self).dirs() == old(self).dirs(),
    {
        match self.table.find(path) {
            Some(i) => {
                proof {
                    self.table.lemma_at(i as int);
                }
                Ok(self.table.file_mut(i))
            },
            None => Err(IoError::NotFound),
        }
    }

    /// Fails just where there is neither a file nor a directory to rename. A directory
    /// that goes where nothing was takes with it all that is beneath it.
    fn rename(&mut self, from: &FsPath, to: &FsPath) -> (r: Result<(), IoError>)
        ensures
            r is Ok <==> old(self).files().contains_key(from@) || old(self).dirs().contains(from@),
            r is Err ==> r->Err_0 == IoError::NotFound && final(self).dirs() == old(self).dirs(),
            old(self).files().contains_key(from@) ==> final(self).dirs() == old(self).dirs(),
            !old(self).files().contains_key(from@) && old(self).dirs().contains(from@) && vacant(
                old(self).files(),
                old(self).dirs(),
                to@,
            ) ==> final(self).files() == moved_files(old(self).files(), from@, to@) && final(self).dirs() == moved_dirs(old(self).dirs(), from@, to@),
    {
        if let Some(f) = self.table.take(from) {
            self.table.put(to.copy(), f);
            return Ok(());
        }
        if find_path(&self.folders, from).is_none() {
            return Err(IoError::NotFound);
        }
        self.move_files(from, to);
        self.move_dirs(from, to);
        Ok(())
    }

    /// Fails just where there is no such file.
    fn remove_file(&mut self, path: &FsPath) -> (r: Result<(), IoError>)
        ensures
            r is Ok <==> old(self).files().contains_key(path@),
            r is Err ==> r->Err_0 == IoError::NotFound,
            final(self).dirs() == old(self).dirs(),
    {
        match self.table.take(path) {
            Some(_) => Ok(()),
            None => Err(IoError::NotFound),
        }
    }

    /// Never fails.
    fn remove_dir_all(&mut self, path: &FsPath) -> (r: Result<(), IoError>)
        ensures
            r is Ok,
            final(self).dirs() == old(self).dirs().difference(
                Set::new(|p: Seq<Seq<char>>| beneath(p, path@)),
            ),
    {
        let ghost all = self.table;
        let ghost files = self.table.map();
        let mut kept = FileTable::new();
        let mut k: usize = self.table.entries.len();
        assert(self.table.entries@ =~= all.entries@.take(k as int));
        while k > 0
            invariant
                k <= all.entries@.len(),
                all == old(self).table,
                all.valid(),
                files == all.map(),
                self.folders == old(self).folders,
                self.table.entries@ == all.entries@.take(k as int),
                kept.valid(),
                forall|q: Seq<Seq<char>>| #[trigger]
                    kept.map().contains_key(q) ==> files.contains_key(q) && !beneath(q, path@)
                        && kept.map()[q] == files[q],
                forall|i: int|
                    k <= i < all.entries@.len() && !beneath((#[trigger] all.entries@[i]).0@, path@)
                        ==> kept.map().contains_key(all.entries@[i].0@),
            decreases k,
        {
            k = k - 1;
            proof {
                all.lemma_at(k as int);
            }
            match self.table.entries.pop() {
                None => {
                    assert(false);
                },
                Some((p, f)) => {
                    assert(self.table.entries@ =~= all.entries@.take(k as int));
                    assert(p == all.entries@[k as int].0 && f == all.entries@[k as int].1);
                    if !p.starts_with(path) {
                        kept.put(p, f);
                    }
                },
            }
        }
        let ghost dirs = self.folders@;
        let mut rest: Vec<FsPath> = Vec::new();
        let mut i: usize = 0;
        while i < self.folders.len()
            invariant
                i <= dirs.len(),
                self.folders@ == dirs,
                distinct(rest@),
                forall|q: Seq<Seq<char>>| #[trigger]
                    path_set(rest@).contains(q) <==> path_set(dirs.take(i as int)).contains(q)
                        && !beneath(q, path@),
            decreases dirs.len() - i,
        {
            let p = &self.folders[i];
            proof {
                lemma_path_set(dirs, i as int);
            }
            if !p.starts_with(path) {
                add_path(&mut rest, p.copy());
            }
            i = i + 1;
        }
        self.table = kept;
        self.folders = rest;
        proof {
            assert(dirs.take(dirs.len() as int) =~= dirs);
            let gone = Set::new(|p: Seq<Seq<char>>| beneath(p, path@));
            assert(self.dirs() =~= old(self).dirs().difference(gone));
            assert(self.files() =~= files.remove_keys(gone)) by {
                assert forall|q: Seq<Seq<char>>|
                    files.contains_key(q) && !beneath(q, path@) implies #[trigger] kept.map().contains_key(
                    q,
                ) by {
                    let i = choose|i: int| all.at(q, i);
                    assert(all.entries@[i].0@ == q);
                }
            }
        }
        Ok(())
    }

    /// Never fails. It makes this directory alone.
    fn create_dir_all(&mut self, path: &FsPath) -> (r: Result<(), IoError>)
        ensures
            r is Ok,
            final(self).dirs() == old(self).dirs().insert(path@),
    {
        add_path(&mut self.folders, path.copy());
        Ok(())
    }

    fn exists_at(&self, path: &FsPath) -> (r: bool) {
        let file: bool = self.table.find(path).is_some();
        proof {
            if file {
                let i = choose|i: int| self.table.at(path@, i);
                self.table.lemma_at(i);
            }
        }
        file || find_path(&self.folders, path).is_some()
    }

    /// Never fails. The paths come in the order of their names; one that is both that of a
    /// file and of a directory comes twice.
    fn list_dir(&self, path: &FsPath) -> (r: Result<Vec<FsPath>, IoError>)
        ensures
            r is Ok,
            in_order(r->Ok_0@),
            forall|p: Seq<Seq<char>>| #[trigger]
                times(r->Ok_0@, p) == one_if(child_of(p, path@) && self.files().contains_key(p))
                    + one_if(child_of(p, path@) && self.dirs().contains(p)),
    {
        let mut out: Vec<FsPath> = Vec::new();
        let mut i: usize = 0;
        while i < self.table.entries.len()
            invariant
                i <= self.table.entries@.len(),
                self.sound(),
                in_order(out@),
                forall|k: int| 0 <= k < out@.len() ==> (#[trigger] out@[k])@.len() > 0,
                forall|p: Seq<Seq<char>>| #[trigger]
                    times(out@, p) == one_if(child_of(p, path@) && self.table.before(p, i as int)),
            decreases self.table.entries.len() - i,
        {
            let ghost q = self.table.entries@[i as int].0@;
            proof {
                assert forall|p: Seq<Seq<char>>| #[trigger] self.table.before(p, i + 1)
                    <==> self.table.before(p, i as int) || p == q by {
                    if p == q {
                        assert(self.table.at(p, i as int));
                    }
                }
                assert(!self.table.before(q, i as int)) by {
                    if self.table.before(q, i as int) {
                        let k = choose|k: int| k < i && self.table.at(q, k);
                        assert(self.table.at(q, k) && self.table.at(q, i as int));
                    }
                }
            }
            if self.table.entries[i].0.is_child_of(path) {
                insert_path(&mut out, self.table.entries[i].0.copy());
            }
            i = i + 1;
        }
        let ghost n = self.table.entries@.len() as int;
        let mut i: usize = 0;
        while i < self.folders.len()
            invariant
                i <= self.folders@.len(),
                self.sound(),
                in_order(out@),
                forall|k: int| 0 <= k < out@.len() ==> (#[trigger] out@[k])@.len() > 0,
                forall|p: Seq<Seq<char>>| #[trigger]
                    times(out@, p) == one_if(child_of(p, path@) && self.table.before(p, n))
                        + one_if(
                        child_of(p, path@) && path_set(self.folders@.take(i as int)).contains(p),
                    ),
            decreases self.folders.len() - i,
        {
            let ghost q = self.folders@[i as int]@;
            proof {
                lemma_path_set(self.folders@, i as int);
                let part = self.folders@.take(i as int);
                assert(!path_set(part).contains(q)) by {
                    if path_set(part).contains(q) {
                        let k = choose|k: int| 0 <= k < part.len() && (#[trigger] part[k])@ == q;
                        assert(self.folders@[k]@ != self.folders@[i as int]@);
                    }
                }
            }
            if self.folders[i].is_child_of(path) {
                insert_path(&mut out, self.folders[i].copy());
            }
            i = i + 1;
        }
        proof {
            assert(self.folders@.take(self.folders@.len() as int) =~= self.folders@);
            assert forall|p: Seq<Seq<char>>| #[trigger] times(out@, p) == one_if(
                child_of(p, path@) && self.files().contains_key(p),
            ) + one_if(child_of(p, path@) && self.dirs().contains(p)) by {
                assert(self.table.before(p, n) <==> self.table.map().contains_key(p)) by {
                    if self.table.map().contains_key(p) {
                        let k = choose|k: int| self.table.at(p, k);
                        assert(self.table.at(p, k) && k < n);
                    }
                }
            }
            let want = Set::new(
                |p: Seq<Seq<char>>|
                    child_of(p, path@) && (self.files().contains_key(p) || self.dirs().contains(p)),
            );
            assert forall|p: Seq<Seq<char>>| #[trigger] path_set(out@).contains(p)
                <==> want.contains(p) by {
                lemma_times(out@, p);
            }
            assert(path_set(out@) =~= want);
        }
        Ok(out)
    }
}

/// One if something holds, zero if not.
pub open spec fn one_if(b: bool) -> nat {
    if b {
        1
    } else {
        0
    }
}

/// How often a path is in a list.
pub open spec fn times(v: Seq<FsPath>, p: Seq<Seq<char>>) -> nat
    decreases v.len(),
{
    if v.len() == 0 {
        0
    } else {
        times(v.drop_last(), p) + one_if(v.last()@ == p)
    }
}

proof fn lemma_times(v: Seq<FsPath>, p: Seq<Seq<char>>)
    ensures
        times(v, p) > 0 <==> path_set(v).contains(p),
    decreases v.len(),
{
    if v.len() > 0 {
        lemma_times(v.drop_last(), p);
        let rest = v.drop_last();
        if path_set(rest).contains(p) {
            let k = choose|k: int| 0 <= k < rest.len() && (#[trigger] rest[k])@ == p;
            assert(v[k]@ == p);
        }
        if path_set(v).contains(p) && v.last()@ != p {
            let k = choose|k: int| 0 <= k < v.len() && (#[trigger] v[k])@ == p;
            assert(rest[k]@ == p);
        }
        if v.last()@ == p {
            assert(v[v.len() - 1]@ == p);
        }
    }
}

proof fn lemma_times_insert(v: Seq<FsPath>, i: int, x: FsPath, p: Seq<Seq<char>>)
    requires
        0 <= i <= v.len(),
    ensures
        times(v.insert(i, x), p) == times(v, p) + one_if(x@ == p),
    decreases v.len(),
{
    let w = v.insert(i, x);
    if i == v.len() {
        assert(w.drop_last() =~= v);
    } else {
        lemma_times_insert(v.drop_last(), i, x, p);
        assert(w.drop_last() =~= v.drop_last().insert(i, x));
        assert(w.last() == v.last());
    }
}

/// Whether paths come in the order of their names.
pub open spec fn in_order(v: Seq<FsPath>) -> bool {
    forall|i: int, j: int|
        0 <= i < j < v.len() ==> !text_before(
            (#[trigger] v[j])@.last(),
            (#[trigger] v[i])@.last(),
        )
}

proof fn lemma_path_set(v: Seq<FsPath>, i: int)
    requires
        0 <= i < v.len(),
    ensures
        path_set(v.take(i + 1)) == path_set(v.take(i)).insert(v[i]@),
{
    let a = v.take(i);
    let b = v.take(i + 1);
    assert forall|p: Seq<Seq<char>>| #[trigger] path_set(b).contains(p) <==> path_set(a).contains(
        p,
    ) || p == v[i]@ by {
        if path_set(b).contains(p) {
            let k = choose|k: int| 0 <= k < b.len() && (#[trigger] b[k])@ == p;
            if k < i {
                assert(a[k]@ == p);
            }
        }
        if path_set(a).contains(p) {
            let k = choose|k: int| 0 <= k < a.len() && (#[trigger] a[k])@ == p;
            assert(b[k]@ == p);
        }
        if p == v[i]@ {
            assert(b[i]@ == p);
        }
    }
    assert(path_set(b) =~= path_set(a).insert(v[i]@));
}

/// Puts a path in its place in order.
fn insert_path(v: &mut Vec<FsPath>, path: FsPath)
    requires
        in_order(old(v)@),
        path@.len() > 0,
        forall|k: int| 0 <= k < old(v)@.len() ==> (#[trigger] old(v)@[k])@.len() > 0,
    ensures
        in_order(final(v)@),
        forall|k: int| 0 <= k < final(v)@.len() ==> (#[trigger] final(v)@[k])@.len() > 0,
        forall|p: Seq<Seq<char>>| #[trigger]
            times(final(v)@, p) == times(old(v)@, p) + one_if(p == path@),
{
    let ghost s = v@;
    let mut p: usize = v.len();
    let n: usize = path.parts.len();
    assert(path@.last() == path.parts@[n - 1]@);
    while p > 0
        invariant
            p <= v@.len(),
            v@ == s,
            n == path.parts@.len(),
            n > 0,
            path@.last() == path.parts@[n - 1]@,
            forall|k: int| 0 <= k < s.len() ==> (#[trigger] s[k])@.len() > 0,
            forall|x: int|
                p <= x < s.len() ==> text_before(path@.last(), (#[trigger] s[x])@.last()),
        ensures
            p <= s.len(),
            v@ == s,
            forall|x: int|
                p <= x < s.len() ==> text_before(path@.last(), (#[trigger] s[x])@.last()),
            p > 0 ==> !text_before(path@.last(), s[p - 1]@.last()),
        decreases p,
    {
        let other = &v[p - 1];
        let m: usize = other.parts.len();
        assert(s[p - 1]@.len() > 0);
        assert(other@.last() == other.parts@[m - 1]@);
        if !is_before(path.parts[n - 1].as_str(), other.parts[m - 1].as_str()) {
            break;
        }
        p = p - 1;
    }
    let ghost q = path@;
    v.insert(p, path);
    proof {
        let t = v@;
        assert forall|a: int, b: int| 0 <= a < b < t.len() implies !text_before(
            (#[trigger] t[b])@.last(),
            (#[trigger] t[a])@.last(),
        ) by {
            if a == p {
                assert(t[b] == s[b - 1]);
                lemma_not_before(t[a]@.last(), t[b]@.last());
            } else if b == p {
                assert(t[a] == s[a]);
                if a < p - 1 {
                    assert(!text_before(s[p - 1]@.last(), s[a]@.last()));
                    lemma_order_chain(s[a]@.last(), s[p - 1]@.last(), q.last());
                }
            } else {
                let x = if a < p {
                    a
                } else {
                    a - 1
                };
                let y = if b < p {
                    b
                } else {
                    b - 1
                };
                assert(t[a] == s[x] && t[b] == s[y]);
            }
        }
        assert forall|r: Seq<Seq<char>>| #[trigger] times(t, r) == times(s, r) + one_if(
            r == q,
        ) by {
            assert(t =~= s.insert(p as int, t[p as int]));
            lemma_times_insert(s, p as int, t[p as int], r);
        }
        assert forall|k: int| 0 <= k < t.len() implies (#[trigger] t[k])@.len() > 0 by {
            if k < p {
                assert(t[k] == s[k]);
            } else if k > p {
                assert(t[k] == s[k - 1]);
            }
        }
    }
}

proof fn lemma_not_before(a: Seq<char>, b: Seq<char>)
    requires
        text_before(a, b),
    ensures
        !text_before(b, a),
{
    lemma_bytes_total(vstd::utf8::encode_utf8(a), vstd::utf8::encode_utf8(b));
}

/// What does not come before what does not come before something does not come before it.
proof fn lemma_order_chain(a: Seq<char>, b: Seq<char>, c: Seq<char>)
    requires
        !text_before(b, a),
        !text_before(c, b),
    ensures
        !text_before(c, a),
{
    let x = vstd::utf8::encode_utf8(a);
    let y = vstd::utf8::encode_utf8(b);
    let z = vstd::utf8::encode_utf8(c);
    lemma_bytes_total(x, y);
    lemma_bytes_total(y, z);
    lemma_bytes_total(x, z);
    if x != y && y != z {
        lemma_bytes_chain(x, y, z);
    }
}

} // verus!
