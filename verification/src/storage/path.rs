//! Paths of files and directories.

use vstd::prelude::*;

use crate::text::is_same;

verus! {

/// A path: the names on the way to a file or a directory.
#[derive(Debug)]
pub struct FsPath {
    /// The names.
    pub parts: Vec<String>,
}

/// What some texts say.
pub open spec fn texts(parts: Seq<String>) -> Seq<Seq<char>> {
    Seq::new(parts.len(), |i: int| parts[i]@)
}

impl View for FsPath {
    type V = Seq<Seq<char>>;

    open spec fn view(&self) -> Seq<Seq<char>> {
        texts(self.parts@)
    }
}

/// The names between the slashes of a text, but for empty ones.
pub open spec fn names_in(s: Seq<char>) -> Seq<Seq<char>>
    decreases s.len(),
{
    if s.len() == 0 {
        Seq::empty()
    } else if s.last() == '/' {
        names_in(s.drop_last())
    } else {
        proof {
            lemma_name_start(s.drop_last());
        }
        let start = name_start(s);
        names_in(s.take(start)).push(s.skip(start))
    }
}

/// Where the last name of a text starts.
pub open spec fn name_start(s: Seq<char>) -> int
    decreases s.len(),
{
    if s.len() == 0 || s.last() == '/' {
        s.len() as int
    } else {
        name_start(s.drop_last())
    }
}

/// The last name of a text starts within it.
pub proof fn lemma_name_start(s: Seq<char>)
    ensures
        0 <= name_start(s) <= s.len(),
    decreases s.len(),
{
    if s.len() > 0 && s.last() != '/' {
        lemma_name_start(s.drop_last());
    }
}

/// Where the last dot of a name stands; nothing if there is none.
pub open spec fn last_dot(s: Seq<char>) -> Option<int>
    decreases s.len(),
{
    if s.len() == 0 {
        None
    } else if s.last() == '.' {
        Some(s.len() - 1)
    } else {
        last_dot(s.drop_last())
    }
}

/// A name without its extension. A dot at the start begins no extension.
pub open spec fn stem(name: Seq<char>) -> Seq<char> {
    match last_dot(name) {
        Some(i) => if i > 0 {
            name.take(i)
        } else {
            name
        },
        None => name,
    }
}

/// A path with another extension.
pub open spec fn extended(path: Seq<Seq<char>>, ext: Seq<char>) -> Seq<Seq<char>> {
    if path.len() == 0 {
        path
    } else {
        path.drop_last().push(stem(path.last()).push('.') + ext)
    }
}

/// Whether a path is another one or leads through it.
pub open spec fn beneath(path: Seq<Seq<char>>, dir: Seq<Seq<char>>) -> bool {
    dir.len() <= path.len() && path.take(dir.len() as int) =~= dir
}

/// Whether a path leads to something directly in a directory.
pub open spec fn child_of(path: Seq<Seq<char>>, dir: Seq<Seq<char>>) -> bool {
    path.len() > 0 && path.drop_last() =~= dir
}

/// The path of what lay beneath one directory once it lies beneath another.
pub open spec fn moved(
    path: Seq<Seq<char>>,
    from: Seq<Seq<char>>,
    to: Seq<Seq<char>>,
) -> Seq<Seq<char>> {
    to + path.skip(from.len() as int)
}

/// The paths in a list.
pub open spec fn path_set(v: Seq<FsPath>) -> Set<Seq<Seq<char>>> {
    Set::new(|p: Seq<Seq<char>>| exists|i: int| 0 <= i < v.len() && (#[trigger] v[i])@ == p)
}

impl FsPath {
    /// The path that a text says: names between slashes.
    pub fn new(s: &str) -> (r: Self)
        ensures
            r@ == names_in(s@),
    {
        let mut end: usize = s.unicode_len();
        let mut back: Vec<String> = Vec::new();
        assert(s@.take(end as int) =~= s@);
        assert(names_in(s@) =~= names_in(s@.take(end as int)) + texts(back@).reverse());
        while end > 0
            invariant
                end <= s@.len(),
                names_in(s@) == names_in(s@.take(end as int)) + texts(back@).reverse(),
            decreases end,
        {
            let ghost part = s@.take(end as int);
            if s.get_char(end - 1) == '/' {
                assert(part.drop_last() =~= s@.take(end - 1));
                end = end - 1;
            } else {
                let mut start: usize = end;
                proof {
                    lemma_name_start(part);
                }
                while start > 0 && s.get_char(start - 1) != '/'
                    invariant
                        start <= end,
                        end <= s@.len(),
                        part == s@.take(end as int),
                        name_start(part) == name_start(s@.take(start as int)),
                    decreases start,
                {
                    assert(s@.take(start as int).drop_last() =~= s@.take(start - 1));
                    start = start - 1;
                }
                assert(name_start(part) == start);
                let name: String = s.substring_char(start, end).to_owned();
                proof {
                    assert(part.take(start as int) =~= s@.take(start as int));
                    assert(part.skip(start as int) =~= name@);
                    assert(start < end) by {
                        if start == end {
                            assert(part.last() != '/');
                            lemma_name_start(part.drop_last());
                        }
                    }
                    let more = back@.push(name);
                    assert(texts(more) =~= texts(back@).push(name@));
                    assert(names_in(s@.take(start as int)).push(name@) + texts(back@).reverse()
                        =~= names_in(s@.take(start as int)) + texts(more).reverse());
                }
                back.push(name);
                end = start;
            }
        }
        let mut parts: Vec<String> = Vec::new();
        let mut i: usize = back.len();
        while i > 0
            invariant
                i <= back@.len(),
                texts(parts@) == texts(back@).skip(i as int).reverse(),
            decreases i,
        {
            i = i - 1;
            let ghost before = texts(parts@);
            parts.push(back[i].clone());
            assert(texts(parts@) =~= before.push(back@[i as int]@));
            assert(texts(back@).skip(i as int).reverse() =~= texts(back@).skip(
                i + 1,
            ).reverse().push(back@[i as int]@));
        }
        assert(texts(back@).skip(0) =~= texts(back@));
        assert(s@.take(0) =~= Seq::<char>::empty());
        FsPath { parts }
    }

    /// The path of something in the directory.
    pub fn join(&self, name: &str) -> (r: Self)
        ensures
            r@ == self@.push(name@),
    {
        let mut r = self.copy();
        let ghost before = r@;
        r.parts.push(name.to_owned());
        assert(r@ =~= before.push(name@));
        r
    }

    /// A copy.
    pub fn copy(&self) -> (r: Self)
        ensures
            r@ == self@,
    {
        let mut parts: Vec<String> = Vec::new();
        let mut i: usize = 0;
        while i < self.parts.len()
            invariant
                i <= self.parts@.len(),
                texts(parts@) == self@.take(i as int),
            decreases self.parts.len() - i,
        {
            let ghost before = texts(parts@);
            parts.push(self.parts[i].clone());
            assert(texts(parts@) =~= before.push(self.parts@[i as int]@));
            assert(self@.take(i + 1) =~= self@.take(i as int).push(self@[i as int]));
            i = i + 1;
        }
        assert(self@.take(self@.len() as int) =~= self@);
        FsPath { parts }
    }

    /// The path with another extension.
    pub fn with_extension(&self, ext: &str) -> (r: Self)
        ensures
            r@ == extended(self@, ext@),
    {
        let mut r = self.copy();
        match r.parts.pop() {
            None => {
                assert(r@ =~= self@);
            },
            Some(name) => {
                let ghost before = r@;
                assert(before =~= self@.drop_last());
                assert(name@ == self@.last());
                let mut new: String = name_stem(name.as_str());
                new.append(".");
                new.append(ext);
                proof {
                    reveal_strlit(".");
                    assert("."@ =~= seq!['.']);
                    assert(new@ =~= stem(name@).push('.') + ext@);
                }
                r.parts.push(new);
                assert(r@ =~= before.push(stem(name@).push('.') + ext@));
            },
        }
        r
    }

    /// Whether two paths are the same.
    pub fn same(&self, other: &FsPath) -> (r: bool)
        ensures
            r == (self@ == other@),
    {
        let r: bool = self.parts.len() == other.parts.len() && self.starts_with(other);
        proof {
            if self@.len() == other@.len() {
                assert(self@.take(other@.len() as int) =~= self@);
            }
        }
        r
    }

    /// Whether the path is another one or leads through it.
    pub fn starts_with(&self, dir: &FsPath) -> (r: bool)
        ensures
            r == beneath(self@, dir@),
    {
        if dir.parts.len() > self.parts.len() {
            return false;
        }
        let mut i: usize = 0;
        while i < dir.parts.len()
            invariant
                i <= dir.parts@.len(),
                dir.parts@.len() <= self.parts@.len(),
                forall|k: int| 0 <= k < i ==> self@[k] == #[trigger] dir@[k],
            decreases dir.parts.len() - i,
        {
            assert(self@[i as int] == self.parts@[i as int]@);
            assert(dir@[i as int] == dir.parts@[i as int]@);
            if !is_same(self.parts[i].as_str(), dir.parts[i].as_str()) {
                assert(self@.take(dir@.len() as int)[i as int] != dir@[i as int]);
                return false;
            }
            i = i + 1;
        }
        true
    }

    /// Whether the path leads to something directly in a directory.
    pub fn is_child_of(&self, dir: &FsPath) -> (r: bool)
        ensures
            r == child_of(self@, dir@),
    {
        let r: bool = self.parts.len() > 0 && self.parts.len() - 1 == dir.parts.len()
            && self.starts_with(dir);
        proof {
            if self@.len() > 0 && self@.len() - 1 == dir@.len() {
                assert(self@.drop_last() =~= self@.take(dir@.len() as int));
            }
        }
        r
    }

    /// The last name on the way.
    pub fn file_name(&self) -> (r: Option<&str>)
        ensures
            match r {
                Some(name) => self@.len() > 0 && name@ == self@.last(),
                None => self@.len() == 0,
            },
    {
        if self.parts.len() == 0 {
            None
        } else {
            Some(self.parts[self.parts.len() - 1].as_str())
        }
    }

    /// The path of what lies beneath one directory once it lies beneath another.
    pub fn moved_to(&self, from: &FsPath, to: &FsPath) -> (r: FsPath)
        requires
            beneath(self@, from@),
        ensures
            r@ == moved(self@, from@, to@),
    {
        let mut r = to.copy();
        let mut i: usize = from.parts.len();
        let n: usize = self.parts.len();
        assert(r@ =~= to@ + self@.subrange(from@.len() as int, i as int));
        while i < n
            invariant
                from@.len() <= i <= n,
                n == self.parts@.len(),
                r@ == to@ + self@.subrange(from@.len() as int, i as int),
            decreases n - i,
        {
            let ghost before = r@;
            r.parts.push(self.parts[i].clone());
            assert(r@ =~= before.push(self@[i as int]));
            assert(r@ =~= to@ + self@.subrange(from@.len() as int, i + 1));
            i = i + 1;
        }
        assert(r@ =~= moved(self@, from@, to@));
        r
    }
}

/// A name without its extension.
fn name_stem(name: &str) -> (r: String)
    ensures
        r@ == stem(name@),
{
    let mut i: usize = name.unicode_len();
    assert(name@.take(i as int) =~= name@);
    while i > 0 && name.get_char(i - 1) != '.'
        invariant
            i <= name@.len(),
            last_dot(name@) == last_dot(name@.take(i as int)),
        decreases i,
    {
        assert(name@.take(i as int).drop_last() =~= name@.take(i - 1));
        i = i - 1;
    }
    if i > 1 {
        assert(last_dot(name@) == Some(i - 1));
        let r = name.substring_char(0, i - 1).to_owned();
        assert(r@ =~= name@.take(i - 1));
        r
    } else {
        name.to_owned()
    }
}

} // verus!
