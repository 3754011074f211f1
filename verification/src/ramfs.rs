//! An in-memory file system: a tree of inodes, each holding its bytes, its
//! named children and its metadata. Inodes are kept in one vector and refer
//! to each other by their position in it; inode 0 is the root.

use vstd::prelude::*;
use crate::rcore_vfs::{FileType, FsError, FsInfo, Metadata, Timespec};
use crate::sfs::slash_at;

verus! {

/// One inode of the in-memory file system
pub struct RamFSINode {
    /// The directory holding this inode
    parent: usize,
    /// Named entries of a directory, in the order they were made
    children: Vec<(Vec<u8>, usize)>,
    /// Bytes of a file
    content: Vec<u8>,
    /// Metadata kept with the inode
    extra: Metadata,
    /// Device number given at creation
    rdev: usize,
}

/// The in-memory file system
pub struct RamFS {
    nodes: Vec<RamFSINode>,
}

/// The position of the first of the first `n` entries of `ch` named `name`
pub open spec fn first_named(ch: Seq<(Seq<u8>, int)>, n: int, name: Seq<u8>) -> Option<int>
    decreases n,
{
    if n <= 0 {
        None
    } else {
        match first_named(ch, n - 1, name) {
            Some(i) => Some(i),
            None => if ch[n - 1].0 == name {
                Some(n - 1)
            } else {
                None
            },
        }
    }
}

pub proof fn lemma_first_named(ch: Seq<(Seq<u8>, int)>, n: int, name: Seq<u8>)
    requires
        0 <= n,
    ensures
        first_named(ch, n, name) matches Some(i) ==> 0 <= i < n && ch[i].0 == name && forall|j: int|
            0 <= j < i ==> #[trigger] ch[j].0 != name,
        first_named(ch, n, name) is None ==> forall|j: int| 0 <= j < n ==> #[trigger] ch[j].0 != name,
    decreases n,
{
    if n > 0 {
        lemma_first_named(ch, n - 1, name);
    }
}

/// Once found among the first `m` entries, a name is found at the same entry among more.
pub proof fn lemma_first_named_mono(ch: Seq<(Seq<u8>, int)>, m: int, n: int, name: Seq<u8>)
    requires
        0 <= m <= n,
        first_named(ch, m, name) is Some,
    ensures
        first_named(ch, n, name) == first_named(ch, m, name),
    decreases n - m,
{
    if m < n {
        lemma_first_named_mono(ch, m, n - 1, name);
    }
}

/// `ch` without its first entry named `name`, if there is one
pub open spec fn remove_first_named(ch: Seq<(Seq<u8>, int)>, name: Seq<u8>) -> Seq<(Seq<u8>, int)> {
    match first_named(ch, ch.len() as int, name) {
        Some(k) => ch.remove(k),
        None => ch,
    }
}

/// A link count after one link is dropped; counts wrap below zero
pub open spec fn one_link_less(n: usize) -> usize {
    if n == 0 {
        usize::MAX
    } else {
        (n - 1) as usize
    }
}

/// Whether a name is found among the first `n` entries depends only on them.
pub proof fn lemma_first_named_prefix(ch: Seq<(Seq<u8>, int)>, ch2: Seq<(Seq<u8>, int)>, n: int, name: Seq<u8>)
    requires
        0 <= n <= ch.len(),
        n <= ch2.len(),
        forall|j: int| 0 <= j < n ==> #[trigger] ch2[j] == ch[j],
    ensures
        first_named(ch2, n, name) == first_named(ch, n, name),
    decreases n,
{
    if n > 0 {
        lemma_first_named_prefix(ch, ch2, n - 1, name);
    }
}

/// A name added at the end of entries that do not hold it is found there,
/// naming the inode it was added for.
pub proof fn law_find_after_add(ch: Seq<(Seq<u8>, int)>, name: Seq<u8>, x: int)
    requires
        first_named(ch, ch.len() as int, name) is None,
    ensures
        first_named(ch.push((name, x)), (ch.len() + 1) as int, name) == Some(ch.len() as int),
        ch.push((name, x))[ch.len() as int].1 == x,
{
    let ch2 = ch.push((name, x));
    assert forall|j: int| 0 <= j < ch.len() implies #[trigger] ch2[j] == ch[j] by {}
    lemma_first_named_prefix(ch, ch2, ch.len() as int, name);
}

/// Once the entry holding a name is removed, the name is no longer found,
/// when no other entry held it.
pub proof fn law_find_after_remove(ch: Seq<(Seq<u8>, int)>, name: Seq<u8>)
    requires
        forall|a: int, b: int| 0 <= a < b < ch.len() && #[trigger] ch[a].0 == name ==> #[trigger] ch[b].0 != name,
    ensures
        first_named(remove_first_named(ch, name), remove_first_named(ch, name).len() as int, name) is None,
{
    let f = first_named(ch, ch.len() as int, name);
    lemma_first_named(ch, ch.len() as int, name);
    let ch2 = remove_first_named(ch, name);
    if f is Some {
        let k = f->Some_0;
        assert forall|j: int| 0 <= j < ch2.len() implies #[trigger] ch2[j].0 != name by {
            if j < k {
                assert(ch2[j] == ch[j]);
            } else {
                assert(ch2[j] == ch[j + 1]);
                assert(ch[k].0 == name);
            }
        }
    }
    lemma_first_named(ch2, ch2.len() as int, name);
    if first_named(ch2, ch2.len() as int, name) is Some {
        let j = first_named(ch2, ch2.len() as int, name)->Some_0;
        assert(ch2[j].0 == name);
    }
}

/// Bytes just written at `offset` are read back from there, and every other
/// byte holds what it held, or zero where the write grew the bytes.
pub proof fn law_read_after_write(c: Seq<u8>, offset: int, data: Seq<u8>)
    requires
        0 <= offset,
    ensures
        crate::device::spec_write(c, offset, data).len() >= offset + data.len(),
        crate::device::spec_write(c, offset, data).subrange(offset, offset + data.len()) == data,
        forall|t: int| 0 <= t < c.len() && !(offset <= t < offset + data.len()) ==> #[trigger] crate::device::spec_write(c, offset, data)[t] == c[t],
{
    assert(crate::device::spec_write(c, offset, data).subrange(offset, offset + data.len()) =~= data);
}

/// The name "."
pub open spec fn dot() -> Seq<u8> {
    seq![46u8]
}

/// The name ".."
pub open spec fn dotdot() -> Seq<u8> {
    seq![46u8, 46u8]
}

/// The first '/' at or after `i` is at `l` when none comes before it.
proof fn lemma_slash_at_end(p: Seq<u8>, i: int, l: int)
    requires
        0 <= i <= l <= p.len(),
        forall|k: int| i <= k < l ==> p[k] != 47u8,
        l == p.len() || p[l] == 47u8,
    ensures
        slash_at(p, i) == l,
    decreases l - i,
{
    if i < l {
        lemma_slash_at_end(p, i + 1, l);
    }
}

/// The bytes of a symbolic link that a lookup reads: at most its first 256
pub open spec fn link_bytes(c: Seq<u8>) -> Seq<u8> {
    if c.len() < 256 {
        c
    } else {
        c.subrange(0, 256)
    }
}

/// The path to follow when a symbolic link holding `link` stands before `rest`
pub open spec fn join_link(link: Seq<u8>, rest: Seq<u8>) -> Seq<u8> {
    if link.len() > 0 && link.last() == 47u8 {
        link + rest
    } else {
        link + seq![47u8] + rest
    }
}

/// `bytes` form valid UTF-8 text
pub open spec fn valid_text(bytes: Seq<u8>) -> bool {
    vstd::utf8::valid_utf8(bytes)
}

/// `core::str::from_utf8`: succeeds exactly on valid UTF-8.
#[verifier::external_body]
fn utf8_valid(bytes: &[u8]) -> (r: bool)
    ensures
        r == valid_text(bytes@),
{
    core::str::from_utf8(bytes).is_ok()
}

fn bytes_equal(a: &[u8], b: &[u8]) -> (r: bool)
    ensures
        r == (a@ == b@),
{
    if a.len() != b.len() {
        return false;
    }
    let mut i: usize = 0;
    while i < a.len()
        invariant
            i <= a@.len(),
            a@.len() == b@.len(),
            forall|k: int| 0 <= k < i ==> a@[k] == b@[k],
        decreases a@.len() - i,
    {
        if a[i] != b[i] {
            return false;
        }
        i = i + 1;
    }
    assert(a@ =~= b@);
    true
}

fn is_dot(name: &[u8]) -> (r: bool)
    ensures
        r == (name@ == dot()),
{
    if name.len() == 1 && name[0] == 46u8 {
        assert(name@ =~= dot());
        true
    } else {
        false
    }
}

fn is_dotdot(name: &[u8]) -> (r: bool)
    ensures
        r == (name@ == dotdot()),
{
    if name.len() == 2 && name[0] == 46u8 && name[1] == 46u8 {
        assert(name@ =~= dotdot());
        true
    } else {
        false
    }
}

impl RamFS {
    /// The number of inodes
    pub closed spec fn count(&self) -> int {
        self.nodes@.len() as int
    }

    /// The directory holding inode `i`
    pub closed spec fn parent(&self, i: int) -> int {
        self.nodes@[i].parent as int
    }

    /// The named entries of inode `i`, in order
    pub closed spec fn children(&self, i: int) -> Seq<(Seq<u8>, int)> {
        self.nodes@[i].children@.map_values(|e: (Vec<u8>, usize)| (e.0@, e.1 as int))
    }

    /// The bytes of inode `i`
    pub closed spec fn content(&self, i: int) -> Seq<u8> {
        self.nodes@[i].content@
    }

    /// The metadata kept with inode `i`
    pub closed spec fn extra(&self, i: int) -> Metadata {
        self.nodes@[i].extra
    }

    /// The device number given to inode `i`
    pub closed spec fn rdev(&self, i: int) -> usize {
        self.nodes@[i].rdev
    }

    pub open spec fn valid(&self, i: int) -> bool {
        0 <= i < self.count()
    }

    pub open spec fn is_dir(&self, i: int) -> bool {
        self.extra(i).type_ == FileType::Dir
    }

    /// Every parent and every entry points at an inode
    pub closed spec fn wf(&self) -> bool {
        &&& self.nodes@.len() > 0
        &&& forall|i: int| 0 <= i < self.nodes@.len() ==> (#[trigger] self.nodes@[i]).parent < self.nodes@.len()
        &&& forall|i: int, j: int|
            0 <= i < self.nodes@.len() && 0 <= j < self.nodes@[i].children@.len() ==> (#[trigger] self.nodes@[i].children@[j]).1
                < self.nodes@.len()
    }

    /// The inode `name` names in directory `i`: "." is `i`, ".." its parent,
    /// any other name the first entry holding it
    pub open spec fn spec_find(&self, i: int, name: Seq<u8>) -> Result<int, FsError> {
        if !self.is_dir(i) {
            Err(FsError::NotDir)
        } else if name == dot() {
            Ok(i)
        } else if name == dotdot() {
            Ok(self.parent(i))
        } else {
            match first_named(self.children(i), self.children(i).len() as int, name) {
                Some(k) => Ok(self.children(i)[k].1),
                None => Err(FsError::EntryNotFound),
            }
        }
    }

    proof fn lemma_wf(&self, i: int)
        requires
            self.wf(),
            self.valid(i),
        ensures
            0 <= self.parent(i) < self.count(),
            forall|j: int| 0 <= j < self.children(i).len() ==> 0 <= #[trigger] self.children(i)[j].1 < self.count(),
            self.children(i).len() == self.nodes@[i].children@.len(),
    {
        assert(self.nodes@[i].parent < self.nodes@.len());
        assert forall|j: int| 0 <= j < self.children(i).len() implies 0 <= #[trigger] self.children(i)[j].1 < self.count() by {
            assert(self.nodes@[i].children@[j].1 < self.nodes@.len());
        }
    }

    /// Find the first entry of directory `i` named `name`
    fn child_position(&self, i: usize, name: &[u8]) -> (r: Option<usize>)
        requires
            self.wf(),
            self.valid(i as int),
        ensures
            r matches Some(k) ==> first_named(self.children(i as int), self.children(i as int).len() as int, name@) == Some(k as int),
            r is None ==> first_named(self.children(i as int), self.children(i as int).len() as int, name@) is None,
    {
        proof {
            self.lemma_wf(i as int);
        }
        let ghost ch = self.children(i as int);
        let n = self.nodes[i].children.len();
        let mut k: usize = 0;
        while k < n
            invariant
                self.wf(),
                self.valid(i as int),
                ch == self.children(i as int),
                n == ch.len(),
                k <= n,
                first_named(ch, k as int, name@) is None,
            decreases n - k,
        {
            let same = bytes_equal(self.nodes[i].children[k].0.as_slice(), name);
            proof {
                assert(ch[k as int].0 == self.nodes@[i as int].children@[k as int].0@);
            }
            if same {
                assert(first_named(ch, k + 1, name@) == Some(k as int));
                proof {
                    lemma_first_named_mono(ch, k + 1, n as int, name@);
                }
                return Some(k);
            }
            k = k + 1;
        }
        None
    }

    /// Create an inode of type `type_` named `name` in directory `i`; `data` is
    /// kept as its device number
    pub fn create2(&mut self, i: usize, name: &[u8], type_: FileType, mode: u32, data: usize) -> (r: Result<usize, FsError>)
        requires
            old(self).wf(),
            old(self).valid(i as int),
        ensures
            final(self).wf(),
            !old(self).is_dir(i as int) ==> r == Err::<usize, FsError>(FsError::NotDir),
            old(self).is_dir(i as int) && (name@ == dot() || name@ == dotdot()) ==> r == Err::<usize, FsError>(FsError::EntryExist),
            old(self).is_dir(i as int) && first_named(old(self).children(i as int), old(self).children(i as int).len() as int, name@) is Some
                ==> r == Err::<usize, FsError>(FsError::EntryExist),
            old(self).is_dir(i as int) && name@ != dot() && name@ != dotdot() && first_named(
                old(self).children(i as int),
                old(self).children(i as int).len() as int,
                name@,
            ) is None ==> r == Ok::<usize, FsError>(old(self).count() as usize),
            r is Err ==> *final(self) == *old(self),
            r matches Ok(x) ==> {
                &&& final(self).count() == old(self).count() + 1
                &&& final(self).children(i as int) == old(self).children(i as int).push((name@, x as int))
                &&& forall|j: int| 0 <= j < old(self).count() && j != i ==> #[trigger] final(self).children(j) == old(self).children(j)
                &&& forall|j: int| 0 <= j < old(self).count() ==> #[trigger] final(self).content(j) == old(self).content(j)
                &&& forall|j: int| 0 <= j < old(self).count() ==> #[trigger] final(self).extra(j) == old(self).extra(j)
                &&& forall|j: int| 0 <= j < old(self).count() ==> #[trigger] final(self).parent(j) == old(self).parent(j)
                &&& forall|j: int| 0 <= j < old(self).count() ==> #[trigger] final(self).rdev(j) == old(self).rdev(j)
                &&& final(self).parent(x as int) == i
                &&& final(self).children(x as int).len() == 0
                &&& final(self).content(x as int).len() == 0
                &&& final(self).rdev(x as int) == data
                &&& final(self).extra(x as int) == (Metadata {
                    dev: 0,
                    inode: 0,
                    size: 0,
                    blk_size: 0,
                    blocks: 0,
                    atime: Timespec { sec: 0, nsec: 0 },
                    mtime: Timespec { sec: 0, nsec: 0 },
                    ctime: Timespec { sec: 0, nsec: 0 },
                    type_: type_,
                    mode: mode as u16,
                    nlinks: 0,
                    uid: 0,
                    gid: 0,
                    rdev: data,
                })
            },
    {
        if self.nodes[i].extra.type_ == FileType::Dir {
            if is_dot(name) {
                return Err(FsError::EntryExist);
            }
            if is_dotdot(name) {
                return Err(FsError::EntryExist);
            }
            if self.child_position(i, name).is_some() {
                return Err(FsError::EntryExist);
            }
            let zero = Timespec { sec: 0, nsec: 0 };
            let x = self.nodes.len();
            let node = RamFSINode {
                parent: i,
                children: Vec::new(),
                content: Vec::new(),
                extra: Metadata {
                    dev: 0,
                    inode: 0,
                    size: 0,
                    blk_size: 0,
                    blocks: 0,
                    atime: zero,
                    mtime: zero,
                    ctime: zero,
                    type_: type_,
                    mode: #[verifier::truncate] (mode as u16),
                    nlinks: 0,
                    uid: 0,
                    gid: 0,
                    rdev: data,
                },
                rdev: data,
            };
            self.nodes.push(node);
            let entry = (vstd::slice::slice_to_vec(name), x);
            self.nodes[i].children.push(entry);
            proof {
                assert(self.children(i as int) =~= old(self).children(i as int).push((name@, x as int)));
                assert(self.children(x as int) =~= Seq::<(Seq<u8>, int)>::empty());
                assert forall|j: int| 0 <= j < old(self).count() && j != i implies #[trigger] self.children(j) == old(self).children(j) by {
                    assert(self.nodes@[j] == old(self).nodes@[j]);
                }
                assert forall|j: int| 0 <= j < self.nodes@.len() implies (#[trigger] self.nodes@[j]).parent < self.nodes@.len() by {
                    if j < old(self).nodes@.len() {
                        assert(old(self).nodes@[j].parent < old(self).nodes@.len());
                    }
                }
                assert forall|a: int, b: int|
                    0 <= a < self.nodes@.len() && 0 <= b < self.nodes@[a].children@.len() implies (#[trigger] self.nodes@[a].children@[b]).1
                        < self.nodes@.len() by {
                    if a < old(self).nodes@.len() && !(a == i && b == old(self).nodes@[a].children@.len()) {
                        assert(self.nodes@[a].children@[b] == old(self).nodes@[a].children@[b]);
                        assert(old(self).nodes@[a].children@[b].1 < old(self).nodes@.len());
                    }
                }
            }
            Ok(x)
        } else {
            Err(FsError::NotDir)
        }
    }

    /// Create an inode of type `type_` named `name` in directory `i`
    pub fn create(&mut self, i: usize, name: &[u8], type_: FileType, mode: u32) -> (r: Result<usize, FsError>)
        requires
            old(self).wf(),
            old(self).valid(i as int),
        ensures
            final(self).wf(),
            !old(self).is_dir(i as int) ==> r == Err::<usize, FsError>(FsError::NotDir),
            old(self).is_dir(i as int) && (name@ == dot() || name@ == dotdot() || first_named(
                old(self).children(i as int),
                old(self).children(i as int).len() as int,
                name@,
            ) is Some) ==> r == Err::<usize, FsError>(FsError::EntryExist),
            old(self).is_dir(i as int) && name@ != dot() && name@ != dotdot() && first_named(
                old(self).children(i as int),
                old(self).children(i as int).len() as int,
                name@,
            ) is None ==> r == Ok::<usize, FsError>(old(self).count() as usize),
            r is Err ==> *final(self) == *old(self),
            r matches Ok(x) ==> {
                &&& final(self).count() == old(self).count() + 1
                &&& final(self).children(i as int) == old(self).children(i as int).push((name@, x as int))
                &&& forall|j: int| 0 <= j < old(self).count() && j != i ==> #[trigger] final(self).children(j) == old(self).children(j)
                &&& forall|j: int| 0 <= j < old(self).count() ==> #[trigger] final(self).content(j) == old(self).content(j)
                &&& forall|j: int| 0 <= j < old(self).count() ==> #[trigger] final(self).extra(j) == old(self).extra(j)
                &&& forall|j: int| 0 <= j < old(self).count() ==> #[trigger] final(self).parent(j) == old(self).parent(j)
                &&& final(self).parent(x as int) == i
                &&& final(self).children(x as int).len() == 0
                &&& final(self).content(x as int).len() == 0
                &&& final(self).extra(x as int).type_ == type_
                &&& final(self).extra(x as int).mode == mode as u16
                &&& final(self).extra(x as int).nlinks == 0
            },
    {
        self.create2(i, name, type_, mode, 0)
    }

    /// Read inode `i` from byte `offset` into `buf`; the read stops at the end of its bytes
    pub fn read_at(&self, i: usize, offset: usize, buf: &mut [u8]) -> (r: Result<usize, FsError>)
        requires
            self.wf(),
            self.valid(i as int),
            offset + old(buf)@.len() <= usize::MAX,
        ensures
            final(buf)@.len() == old(buf)@.len(),
            self.is_dir(i as int) ==> r == Err::<usize, FsError>(FsError::IsDir) && final(buf)@ == old(buf)@,
            !self.is_dir(i as int) ==> (r matches Ok(n) && {
                let c = self.content(i as int);
                let start = if c.len() < offset { c.len() as int } else { offset as int };
                let end = if c.len() < offset + old(buf)@.len() { c.len() as int } else { offset + old(buf)@.len() };
                &&& n == end - start
                &&& final(buf)@.subrange(0, n as int) == c.subrange(start, end)
                &&& final(buf)@.subrange(n as int, old(buf)@.len() as int) == old(buf)@.subrange(n as int, old(buf)@.len() as int)
            }),
    {
        if self.nodes[i].extra.type_ == FileType::Dir {
            return Err(FsError::IsDir);
        }
        let len = self.nodes[i].content.len();
        let start = if len < offset { len } else { offset };
        let end = if len < offset + buf.len() { len } else { offset + buf.len() };
        let ghost c = self.content(i as int);
        let mut k: usize = 0;
        while k < end - start
            invariant
                self.wf(),
                self.valid(i as int),
                c == self.content(i as int),
                len == c.len(),
                start <= end <= len,
                end - start <= buf@.len(),
                buf@.len() == old(buf)@.len(),
                k <= end - start,
                forall|t: int| 0 <= t < k ==> buf@[t] == c[start + t],
                forall|t: int| k <= t < buf@.len() ==> buf@[t] == old(buf)@[t],
            decreases end - start - k,
        {
            buf[k] = self.nodes[i].content[start + k];
            k = k + 1;
        }
        assert(buf@.subrange(0, (end - start) as int) =~= c.subrange(start as int, end as int));
        assert(buf@.subrange((end - start) as int, buf@.len() as int) =~= old(buf)@.subrange((end - start) as int, old(buf)@.len() as int));
        Ok(end - start)
    }

    /// Write `buf` into inode `i` at byte `offset`, growing its bytes with zeros when the write ends past them
    pub fn write_at(&mut self, i: usize, offset: usize, buf: &[u8]) -> (r: Result<usize, FsError>)
        requires
            old(self).wf(),
            old(self).valid(i as int),
            offset + buf@.len() <= usize::MAX,
        ensures
            final(self).wf(),
            final(self).count() == old(self).count(),
            old(self).is_dir(i as int) ==> r == Err::<usize, FsError>(FsError::IsDir) && *final(self) == *old(self),
            !old(self).is_dir(i as int) ==> r == Ok::<usize, FsError>(buf@.len() as usize),
            !old(self).is_dir(i as int) ==> final(self).content(i as int) == crate::device::spec_write(
                old(self).content(i as int),
                offset as int,
                buf@,
            ),
            forall|j: int| 0 <= j < old(self).count() ==> #[trigger] final(self).children(j) == old(self).children(j)
                && final(self).extra(j) == old(self).extra(j) && final(self).parent(j) == old(self).parent(j),
            forall|j: int| 0 <= j < old(self).count() && j != i ==> #[trigger] final(self).content(j) == old(self).content(j),
    {
        if self.nodes[i].extra.type_ == FileType::Dir {
            return Err(FsError::IsDir);
        }
        let ghost c = self.content(i as int);
        if offset + buf.len() > self.nodes[i].content.len() {
            self.nodes[i].content.resize(offset + buf.len(), 0u8);
        }
        let ghost c1 = self.content(i as int);
        proof {
            assert forall|t: int| c.len() <= t < c1.len() implies c1[t] == 0u8 by {
                assert(vstd::pervasive::cloned::<u8>(0u8, c1[t]));
            }
        }
        let mut k: usize = 0;
        while k < buf.len()
            invariant
                self.nodes@.len() == old(self).nodes@.len(),
                self.valid(i as int),
                forall|j: int| 0 <= j < self.nodes@.len() && j != i ==> self.nodes@[j] == old(self).nodes@[j],
                self.nodes@[i as int].children == old(self).nodes@[i as int].children,
                self.nodes@[i as int].parent == old(self).nodes@[i as int].parent,
                self.nodes@[i as int].extra == old(self).nodes@[i as int].extra,
                self.nodes@[i as int].rdev == old(self).nodes@[i as int].rdev,
                offset + buf@.len() <= self.content(i as int).len(),
                offset + buf@.len() <= usize::MAX,
                self.content(i as int).len() == c1.len(),
                k <= buf@.len(),
                forall|t: int| 0 <= t < c1.len() ==> #[trigger] self.content(i as int)[t] == if offset <= t < offset + k {
                    buf@[t - offset]
                } else {
                    c1[t]
                },
            decreases buf@.len() - k,
        {
            self.nodes[i].content.set(offset + k, buf[k]);
            k = k + 1;
        }
        proof {
            assert(self.content(i as int) =~= crate::device::spec_write(c, offset as int, buf@));
            assert forall|a: int| 0 <= a < self.nodes@.len() implies (#[trigger] self.nodes@[a]).parent < self.nodes@.len() by {
                assert(old(self).nodes@[a].parent < old(self).nodes@.len());
            }
            assert forall|a: int, b: int|
                0 <= a < self.nodes@.len() && 0 <= b < self.nodes@[a].children@.len() implies (#[trigger] self.nodes@[a].children@[b]).1
                    < self.nodes@.len() by {
                assert(old(self).nodes@[a].children@[b].1 < old(self).nodes@.len());
            }
            assert forall|j: int| 0 <= j < old(self).count() implies #[trigger] self.children(j) == old(self).children(j)
                && self.extra(j) == old(self).extra(j) && self.parent(j) == old(self).parent(j) by {
                if j != i {
                    assert(self.nodes@[j] == old(self).nodes@[j]);
                }
            }
        }
        Ok(buf.len())
    }

    /// The metadata of inode `i`, with its size and block count taken from its bytes
    pub fn metadata(&self, i: usize) -> (r: Result<Metadata, FsError>)
        requires
            self.wf(),
            self.valid(i as int),
        ensures
            r == Ok::<Metadata, FsError>(
                Metadata {
                    dev: 0,
                    inode: self.extra(i as int).inode,
                    size: self.content(i as int).len() as usize,
                    blk_size: 4096,
                    blocks: (self.content(i as int).len() / 4096) as usize,
                    atime: self.extra(i as int).atime,
                    mtime: self.extra(i as int).mtime,
                    ctime: self.extra(i as int).ctime,
                    type_: self.extra(i as int).type_,
                    mode: self.extra(i as int).mode,
                    nlinks: self.extra(i as int).nlinks,
                    uid: self.extra(i as int).uid,
                    gid: self.extra(i as int).gid,
                    rdev: self.extra(i as int).rdev,
                },
            ),
    {
        let extra = self.nodes[i].extra;
        let size = self.nodes[i].content.len();
        Ok(Metadata {
            dev: 0,
            inode: extra.inode,
            size: size,
            blk_size: 4096,
            blocks: size / 4096,
            atime: extra.atime,
            mtime: extra.mtime,
            ctime: extra.ctime,
            type_: extra.type_,
            mode: extra.mode,
            nlinks: extra.nlinks,
            uid: extra.uid,
            gid: extra.gid,
            rdev: extra.rdev,
        })
    }

    /// Set the times, the mode and the owner of inode `i`
    pub fn set_metadata(&mut self, i: usize, metadata: &Metadata) -> (r: Result<(), FsError>)
        requires
            old(self).wf(),
            old(self).valid(i as int),
        ensures
            final(self).wf(),
            r is Ok,
            final(self).count() == old(self).count(),
            final(self).extra(i as int) == (Metadata {
                atime: metadata.atime,
                mtime: metadata.mtime,
                ctime: metadata.ctime,
                mode: metadata.mode,
                uid: metadata.uid,
                gid: metadata.gid,
                ..old(self).extra(i as int)
            }),
            forall|j: int| 0 <= j < old(self).count() ==> #[trigger] final(self).children(j) == old(self).children(j)
                && final(self).content(j) == old(self).content(j) && final(self).parent(j) == old(self).parent(j),
            forall|j: int| 0 <= j < old(self).count() && j != i ==> #[trigger] final(self).extra(j) == old(self).extra(j),
    {
        let mut extra = self.nodes[i].extra;
        extra.atime = metadata.atime;
        extra.mtime = metadata.mtime;
        extra.ctime = metadata.ctime;
        extra.mode = metadata.mode;
        extra.uid = metadata.uid;
        extra.gid = metadata.gid;
        self.nodes[i].extra = extra;
        proof {
            self.lemma_same_links(old(self), i as int);
        }
        Ok(())
    }

    /// Set the length of file `i`, cutting its bytes or growing them with zeros
    pub fn resize(&mut self, i: usize, len: usize) -> (r: Result<(), FsError>)
        requires
            old(self).wf(),
            old(self).valid(i as int),
        ensures
            final(self).wf(),
            final(self).count() == old(self).count(),
            old(self).extra(i as int).type_ != FileType::File ==> r == Err::<(), FsError>(FsError::NotFile) && *final(self) == *old(self),
            old(self).extra(i as int).type_ == FileType::File ==> r is Ok && final(self).content(i as int) == (if len <= old(self).content(i as int).len() {
                old(self).content(i as int).subrange(0, len as int)
            } else {
                old(self).content(i as int) + Seq::new((len - old(self).content(i as int).len()) as nat, |t: int| 0u8)
            }),
            forall|j: int| 0 <= j < old(self).count() ==> #[trigger] final(self).children(j) == old(self).children(j)
                && final(self).extra(j) == old(self).extra(j) && final(self).parent(j) == old(self).parent(j),
            forall|j: int| 0 <= j < old(self).count() && j != i ==> #[trigger] final(self).content(j) == old(self).content(j),
    {
        if self.nodes[i].extra.type_ == FileType::File {
            let ghost c = self.content(i as int);
            self.nodes[i].content.resize(len, 0u8);
            proof {
                let c1 = self.content(i as int);
                if len > c.len() {
                    assert forall|t: int| 0 <= t < len implies c1[t] == (c + Seq::new((len - c.len()) as nat, |t: int| 0u8))[t] by {
                        if t >= c.len() {
                            assert(vstd::pervasive::cloned::<u8>(0u8, c1[t]));
                        } else {
                            assert(c1.subrange(0, c.len() as int)[t] == c1[t]);
                        }
                    }
                    assert(c1 =~= c + Seq::new((len - c.len()) as nat, |t: int| 0u8));
                }
                self.lemma_same_links(old(self), i as int);
            }
            Ok(())
        } else {
            Err(FsError::NotFile)
        }
    }

    /// The parents and the entries of all inodes are as in `prev`, which has
    /// as many inodes and differs at most in inode `i`'s bytes and metadata
    proof fn lemma_same_links(&self, prev: &Self, i: int)
        requires
            prev.wf(),
            0 <= i < prev.nodes@.len(),
            self.nodes@.len() == prev.nodes@.len(),
            forall|j: int| 0 <= j < self.nodes@.len() && j != i ==> self.nodes@[j] == prev.nodes@[j],
            self.nodes@[i].children == prev.nodes@[i].children,
            self.nodes@[i].parent == prev.nodes@[i].parent,
        ensures
            self.wf(),
            forall|j: int| 0 <= j < prev.count() ==> #[trigger] self.children(j) == prev.children(j) && self.parent(j) == prev.parent(j),
            forall|j: int| 0 <= j < prev.count() && j != i ==> #[trigger] self.content(j) == prev.content(j) && self.extra(j) == prev.extra(j),
    {
        assert forall|a: int| 0 <= a < self.nodes@.len() implies (#[trigger] self.nodes@[a]).parent < self.nodes@.len() by {
            assert(prev.nodes@[a].parent < prev.nodes@.len());
        }
        assert forall|a: int, b: int|
            0 <= a < self.nodes@.len() && 0 <= b < self.nodes@[a].children@.len() implies (#[trigger] self.nodes@[a].children@[b]).1
                < self.nodes@.len() by {
            assert(prev.nodes@[a].children@[b].1 < prev.nodes@.len());
        }
        assert forall|j: int| 0 <= j < prev.count() implies #[trigger] self.children(j) == prev.children(j) && self.parent(j) == prev.parent(j) by {
            if j != i {
                assert(self.nodes@[j] == prev.nodes@[j]);
            }
        }
        assert forall|j: int| 0 <= j < prev.count() && j != i implies #[trigger] self.content(j) == prev.content(j) && self.extra(j) == prev.extra(j) by {
            assert(self.nodes@[j] == prev.nodes@[j]);
        }
    }

    /// The inode `name` names in directory `i`
    pub fn find(&self, i: usize, name: &[u8]) -> (r: Result<usize, FsError>)
        requires
            self.wf(),
            self.valid(i as int),
        ensures
            r matches Ok(x) ==> Ok::<int, FsError>(x as int) == self.spec_find(i as int, name@) && self.valid(x as int),
            r matches Err(e) ==> Err::<int, FsError>(e) == self.spec_find(i as int, name@),
    {
        proof {
            self.lemma_wf(i as int);
        }
        if self.nodes[i].extra.type_ != FileType::Dir {
            return Err(FsError::NotDir);
        }
        if is_dot(name) {
            return Ok(i);
        }
        if is_dotdot(name) {
            return Ok(self.nodes[i].parent);
        }
        match self.child_position(i, name) {
            Some(k) => {
                proof {
                    lemma_first_named(self.children(i as int), self.children(i as int).len() as int, name@);
                    assert(self.children(i as int)[k as int].1 == self.nodes@[i as int].children@[k as int].1 as int);
                    assert(first_named(self.children(i as int), self.children(i as int).len() as int, name@) == Some(k as int));
                    assert(name@ != dot() && name@ != dotdot());
                }
                Ok(self.nodes[i].children[k].1)
            },
            None => Err(FsError::EntryNotFound),
        }
    }

    /// Entry `id` of directory `i`: "." and "..", then its entries in order
    pub fn get_entry(&self, i: usize, id: usize) -> (r: Result<Vec<u8>, FsError>)
        requires
            self.wf(),
            self.valid(i as int),
        ensures
            !self.is_dir(i as int) ==> r == Err::<Vec<u8>, FsError>(FsError::NotDir),
            self.is_dir(i as int) ==> match r {
                Ok(v) => if id == 0 {
                    v@ == dot()
                } else if id == 1 {
                    v@ == dotdot()
                } else {
                    id - 2 < self.children(i as int).len() && v@ == self.children(i as int)[id - 2].0
                },
                Err(e) => e == FsError::EntryNotFound && id >= 2 && id - 2 >= self.children(i as int).len(),
            },
    {
        if self.nodes[i].extra.type_ != FileType::Dir {
            return Err(FsError::NotDir);
        }
        if id == 0 {
            let v: Vec<u8> = vec![46u8];
            assert(v@ =~= dot());
            Ok(v)
        } else if id == 1 {
            let v: Vec<u8> = vec![46u8, 46u8];
            assert(v@ =~= dotdot());
            Ok(v)
        } else if id - 2 < self.nodes[i].children.len() {
            Ok(vstd::slice::slice_to_vec(self.nodes[i].children[id - 2].0.as_slice()))
        } else {
            Err(FsError::EntryNotFound)
        }
    }

    /// Whether `self` and `prev` agree on every inode but `i` and `x`
    pub open spec fn same_except(&self, prev: &Self, i: int, x: int) -> bool {
        &&& self.count() == prev.count()
        &&& forall|j: int| 0 <= j < prev.count() && j != i ==> #[trigger] self.children(j) == prev.children(j)
        &&& forall|j: int| 0 <= j < prev.count() && j != x ==> #[trigger] self.extra(j) == prev.extra(j)
        &&& forall|j: int| 0 <= j < prev.count() ==> #[trigger] self.content(j) == prev.content(j) && self.parent(j) == prev.parent(j)
            && self.rdev(j) == prev.rdev(j)
    }

    /// Whether `self` and `prev` hold the same inodes
    pub open spec fn same_tree(&self, prev: &Self) -> bool {
        &&& self.count() == prev.count()
        &&& forall|j: int| 0 <= j < prev.count() ==> #[trigger] self.children(j) == prev.children(j) && self.extra(j) == prev.extra(j)
            && self.content(j) == prev.content(j) && self.parent(j) == prev.parent(j) && self.rdev(j) == prev.rdev(j)
    }

    /// Add an entry named `name` for the inode `other`, which may not be a directory, to directory `i`
    pub fn link(&mut self, i: usize, name: &[u8], other: usize) -> (r: Result<(), FsError>)
        requires
            old(self).wf(),
            old(self).valid(i as int),
            old(self).valid(other as int),
            old(self).extra(other as int).nlinks < usize::MAX,
        ensures
            final(self).wf(),
            r == (if !old(self).is_dir(i as int) {
                Err::<(), FsError>(FsError::NotDir)
            } else if old(self).is_dir(other as int) {
                Err(FsError::IsDir)
            } else if first_named(old(self).children(i as int), old(self).children(i as int).len() as int, name@) is Some {
                Err(FsError::EntryExist)
            } else {
                Ok(())
            }),
            r is Err ==> final(self).same_tree(old(self)),
            r is Ok ==> {
                &&& final(self).same_except(old(self), i as int, other as int)
                &&& final(self).children(i as int) == old(self).children(i as int).push((name@, other as int))
                &&& final(self).extra(other as int) == (Metadata { nlinks: (old(self).extra(other as int).nlinks + 1) as usize, ..old(self).extra(other as int) })
            },
    {
        if self.nodes[i].extra.type_ != FileType::Dir {
            return Err(FsError::NotDir);
        }
        if self.nodes[other].extra.type_ == FileType::Dir {
            return Err(FsError::IsDir);
        }
        if self.child_position(i, name).is_some() {
            return Err(FsError::EntryExist);
        }
        let entry = (vstd::slice::slice_to_vec(name), other);
        self.nodes[i].children.push(entry);
        let mut extra = self.nodes[other].extra;
        extra.nlinks = extra.nlinks + 1;
        self.nodes[other].extra = extra;
        proof {
            assert(self.children(i as int) =~= old(self).children(i as int).push((name@, other as int)));
            assert forall|a: int| 0 <= a < self.nodes@.len() implies (#[trigger] self.nodes@[a]).parent < self.nodes@.len() by {
                assert(old(self).nodes@[a].parent < old(self).nodes@.len());
            }
            assert forall|a: int, b: int|
                0 <= a < self.nodes@.len() && 0 <= b < self.nodes@[a].children@.len() implies (#[trigger] self.nodes@[a].children@[b]).1
                    < self.nodes@.len() by {
                if !(a == i && b == old(self).nodes@[a].children@.len()) {
                    assert(self.nodes@[a].children@[b] == old(self).nodes@[a].children@[b]);
                    assert(old(self).nodes@[a].children@[b].1 < old(self).nodes@.len());
                }
            }
            assert forall|j: int| 0 <= j < old(self).count() && j != i implies #[trigger] self.children(j) == old(self).children(j) by {
                if j != other {
                    assert(self.nodes@[j] == old(self).nodes@[j]);
                }
            }
            assert forall|j: int| 0 <= j < old(self).count() && j != other implies #[trigger] self.extra(j) == old(self).extra(j) by {
                if j != i {
                    assert(self.nodes@[j] == old(self).nodes@[j]);
                }
            }
            assert forall|j: int| 0 <= j < old(self).count() implies #[trigger] self.content(j) == old(self).content(j) && self.parent(j)
                == old(self).parent(j) && self.rdev(j) == old(self).rdev(j) by {
                if j != i && j != other {
                    assert(self.nodes@[j] == old(self).nodes@[j]);
                }
            }
        }
        Ok(())
    }

    /// Remove the first entry named `name` from directory `i`; a directory that
    /// still holds entries stays. Nothing happens when no entry holds the name.
    pub fn unlink(&mut self, i: usize, name: &[u8]) -> (r: Result<(), FsError>)
        requires
            old(self).wf(),
            old(self).valid(i as int),
        ensures
            final(self).wf(),
            ({
                let ch = old(self).children(i as int);
                let f = first_named(ch, ch.len() as int, name@);
                &&& !old(self).is_dir(i as int) ==> r == Err::<(), FsError>(FsError::NotDir)
                &&& old(self).is_dir(i as int) && (name@ == dot() || name@ == dotdot()) ==> r == Err::<(), FsError>(FsError::DirNotEmpty)
                &&& old(self).is_dir(i as int) && name@ != dot() && name@ != dotdot() ==> match f {
                    None => r is Ok && final(self).same_tree(old(self)),
                    Some(k) => {
                        let x = ch[k].1;
                        if old(self).children(x).len() > 0 {
                            r == Err::<(), FsError>(FsError::DirNotEmpty)
                        } else {
                            &&& r is Ok
                            &&& final(self).same_except(old(self), i as int, x)
                            &&& final(self).children(i as int) == ch.remove(k)
                            &&& final(self).extra(x) == (Metadata { nlinks: one_link_less(old(self).extra(x).nlinks), ..old(self).extra(x) })
                        }
                    },
                }
                &&& r is Err ==> final(self).same_tree(old(self))
            }),
    {
        if self.nodes[i].extra.type_ != FileType::Dir {
            return Err(FsError::NotDir);
        }
        if is_dot(name) || is_dotdot(name) {
            return Err(FsError::DirNotEmpty);
        }
        proof {
            self.lemma_wf(i as int);
        }
        match self.child_position(i, name) {
            None => Ok(()),
            Some(k) => {
                proof {
                    lemma_first_named(self.children(i as int), self.children(i as int).len() as int, name@);
                }
                let x = self.nodes[i].children[k].1;
                proof {
                    assert(self.children(i as int)[k as int].1 == x as int);
                    self.lemma_wf(x as int);
                }
                if self.nodes[x].children.len() > 0 {
                    return Err(FsError::DirNotEmpty);
                }
                let _removed = self.nodes[i].children.remove(k);
                let mut extra = self.nodes[x].extra;
                extra.nlinks = if extra.nlinks == 0 {
                    usize::MAX
                } else {
                    extra.nlinks - 1
                };
                self.nodes[x].extra = extra;
                proof {
                    assert(x != i) by {
                        if x == i {
                            assert(old(self).children(x as int).len() > 0);
                        }
                    }
                    assert(self.children(i as int) =~= old(self).children(i as int).remove(k as int));
                    assert forall|a: int| 0 <= a < self.nodes@.len() implies (#[trigger] self.nodes@[a]).parent < self.nodes@.len() by {
                        assert(old(self).nodes@[a].parent < old(self).nodes@.len());
                    }
                    assert forall|a: int, b: int|
                        0 <= a < self.nodes@.len() && 0 <= b < self.nodes@[a].children@.len() implies (#[trigger] self.nodes@[a].children@[b]).1
                            < self.nodes@.len() by {
                        if a == i {
                            if b < k {
                                assert(self.nodes@[a].children@[b] == old(self).nodes@[a].children@[b]);
                                assert(old(self).nodes@[a].children@[b].1 < old(self).nodes@.len());
                            } else {
                                assert(self.nodes@[a].children@[b] == old(self).nodes@[a].children@[b + 1]);
                                assert(old(self).nodes@[a].children@[b + 1].1 < old(self).nodes@.len());
                            }
                        } else {
                            assert(self.nodes@[a].children@[b] == old(self).nodes@[a].children@[b]);
                            assert(old(self).nodes@[a].children@[b].1 < old(self).nodes@.len());
                        }
                    }
                    assert forall|j: int| 0 <= j < old(self).count() && j != i implies #[trigger] self.children(j) == old(self).children(j) by {
                        if j != x {
                            assert(self.nodes@[j] == old(self).nodes@[j]);
                        }
                    }
                    assert forall|j: int| 0 <= j < old(self).count() && j != x implies #[trigger] self.extra(j) == old(self).extra(j) by {
                        if j != i {
                            assert(self.nodes@[j] == old(self).nodes@[j]);
                        }
                    }
                    assert forall|j: int| 0 <= j < old(self).count() implies #[trigger] self.content(j) == old(self).content(j) && self.parent(j)
                        == old(self).parent(j) && self.rdev(j) == old(self).rdev(j) by {
                        if j != i && j != x {
                            assert(self.nodes@[j] == old(self).nodes@[j]);
                        }
                    }
                }
                Ok(())
            },
        }
    }

    /// Move the entry `old_name` of directory `i` to `new_name` in directory
    /// `target`: the entry is added to `target`, then removed from `i`; when the
    /// removal fails, the added entry is removed again.
    pub fn move_(&mut self, i: usize, old_name: &[u8], target: usize, new_name: &[u8]) -> (r: Result<(), FsError>)
        requires
            old(self).wf(),
            old(self).valid(i as int),
            old(self).valid(target as int),
            forall|j: int| 0 <= j < old(self).count() ==> (#[trigger] old(self).extra(j)).nlinks < usize::MAX,
        ensures
            final(self).wf(),
            final(self).count() == old(self).count(),
            old(self).spec_find(i as int, old_name@) matches Err(e) ==> r == Err::<(), FsError>(e) && final(self).same_tree(old(self)),
            (r is Ok) == (old(self).spec_find(i as int, old_name@) matches Ok(x) && {
                &&& old_name@ != dot() && old_name@ != dotdot()
                &&& old(self).is_dir(target as int)
                &&& !old(self).is_dir(x)
                &&& first_named(old(self).children(target as int), old(self).children(target as int).len() as int, new_name@) is None
                &&& old(self).children(x).len() == 0
            }),
            r is Ok ==> (old(self).spec_find(i as int, old_name@) matches Ok(x) && {
                &&& final(self).extra(x) == old(self).extra(x)
                &&& target != i ==> final(self).children(target as int) == old(self).children(target as int).push((new_name@, x))
                    && final(self).children(i as int) == remove_first_named(old(self).children(i as int), old_name@)
                &&& target == i ==> final(self).children(i as int) == remove_first_named(
                    old(self).children(i as int).push((new_name@, x)),
                    old_name@,
                )
                &&& forall|j: int| 0 <= j < old(self).count() && j != i && j != target ==> #[trigger] final(self).children(j) == old(self).children(j)
                &&& forall|j: int| 0 <= j < old(self).count() ==> #[trigger] final(self).content(j) == old(self).content(j)
                    && final(self).parent(j) == old(self).parent(j)
                &&& forall|j: int| 0 <= j < old(self).count() && j != x ==> #[trigger] final(self).extra(j) == old(self).extra(j)
            }),
    {
        let elem = self.find(i, old_name)?;
        let ghost s0 = *self;
        proof {
            assert(old(self).extra(elem as int).nlinks < usize::MAX);
        }
        match self.link(target, new_name, elem) {
            Ok(()) => {},
            Err(e) => {
                proof {
                    if old_name@ == dot() {
                        assert(elem == i);
                    }
                }
                return Err(e);
            },
        }
        let ghost s1 = *self;
        proof {
            let ch0 = s0.children(i as int);
            let ch1 = s1.children(i as int);
            if old_name@ != dot() && old_name@ != dotdot() {
                let f = first_named(ch0, ch0.len() as int, old_name@);
                lemma_first_named(ch0, ch0.len() as int, old_name@);
                assert(f is Some);
                if target == i {
                    assert forall|j: int| 0 <= j < ch0.len() implies #[trigger] ch1[j] == ch0[j] by {}
                    lemma_first_named_prefix(ch0, ch1, ch0.len() as int, old_name@);
                    lemma_first_named_mono(ch1, ch0.len() as int, ch1.len() as int, old_name@);
                }
            } else if old_name@ == dot() {
                assert(elem == i);
            }
        }
        match self.unlink(i, old_name) {
            Ok(()) => {
                proof {
                    assert(elem != target);
                }
                Ok(())
            },
            Err(e) => {
                self.unlink(target, new_name)?;
                Err(e)
            },
        }
    }

    /// Where `path` leads from directory `result`, following at most `follow`
    /// more symbolic links: a leading '/' starts again from the root; each part
    /// up to a '/' is found in the current directory; a symbolic link found
    /// while links may still be followed is replaced by the path it holds.
    pub open spec fn spec_walk(&self, result: int, rest: Seq<u8>, follow: nat) -> Result<int, FsError>
        decreases follow, rest.len(),
    {
        if rest.len() == 0 {
            Ok(result)
        } else if !self.is_dir(result) {
            Err(FsError::NotDir)
        } else if rest[0] == 47u8 {
            self.spec_walk(0, rest.subrange(1, rest.len() as int), follow)
        } else {
            let pos = slash_at(rest, 0);
            let name = rest.subrange(0, pos);
            let rest2 = if pos < rest.len() {
                rest.subrange(pos + 1, rest.len() as int)
            } else {
                Seq::<u8>::empty()
            };
            if !(0 <= pos <= rest.len()) {
                Err(FsError::NotDir)
            } else {
                match self.spec_find(result, name) {
                    Err(e) => Err(e),
                    Ok(inode) => if self.extra(inode).type_ == FileType::SymLink && follow > 0 {
                        let link = link_bytes(self.content(inode));
                        if valid_text(link) {
                            self.spec_walk(result, join_link(link, rest2), (follow - 1) as nat)
                        } else {
                            Err(FsError::NotDir)
                        }
                    } else {
                        self.spec_walk(inode, rest2, follow)
                    },
                }
            }
        }
    }

    /// Walking down one name: when `name` in directory `d` is an inode `x`
    /// that is no symbolic link to follow, walking `name` (and then `rest`)
    /// from `d` is walking `rest` from `x`. An empty path ends where it starts,
    /// and a path that starts with '/' is walked from the root.
    pub proof fn law_walk_steps(&self, d: int, name: Seq<u8>, x: int, rest: Seq<u8>, follow: nat)
        requires
            self.is_dir(d),
            name.len() > 0,
            forall|k: int| 0 <= k < name.len() ==> name[k] != 47u8,
            self.spec_find(d, name) == Ok::<int, FsError>(x),
            !(self.extra(x).type_ == FileType::SymLink && follow > 0),
        ensures
            self.spec_walk(d, name, follow) == Ok::<int, FsError>(x),
            self.spec_walk(d, name + seq![47u8] + rest, follow) == self.spec_walk(x, rest, follow),
            self.spec_walk(d, Seq::empty(), follow) == Ok::<int, FsError>(d),
            self.spec_walk(d, seq![47u8] + rest, follow) == self.spec_walk(0, rest, follow),
    {
        let p = name + seq![47u8] + rest;
        lemma_slash_at_end(name, 0, name.len() as int);
        assert forall|k: int| 0 <= k < name.len() implies p[k] != 47u8 by {
            assert(p[k] == name[k]);
        }
        assert(p[name.len() as int] == 47u8);
        lemma_slash_at_end(p, 0, name.len() as int);
        assert(p.subrange(0, name.len() as int) =~= name);
        assert(p.subrange(name.len() as int + 1, p.len() as int) =~= rest);
        assert(name.subrange(0, name.len() as int) =~= name);
        assert(p[0] == name[0]);
        let q = seq![47u8] + rest;
        assert(q[0] == 47u8);
        assert(q.subrange(1, q.len() as int) =~= rest);
        assert(self.spec_walk(x, Seq::<u8>::empty(), follow) == Ok::<int, FsError>(x));
    }

    /// Following a symbolic link: when `name` in directory `d` is a symbolic
    /// link holding text `link` and links may still be followed, walking
    /// `name` (and then `rest`) from `d` is walking `link` joined with `rest`
    /// from `d`, with one link fewer left to follow.
    pub proof fn law_walk_follows_link(&self, d: int, name: Seq<u8>, x: int, rest: Seq<u8>, follow: nat)
        requires
            self.is_dir(d),
            name.len() > 0,
            forall|k: int| 0 <= k < name.len() ==> name[k] != 47u8,
            self.spec_find(d, name) == Ok::<int, FsError>(x),
            self.extra(x).type_ == FileType::SymLink,
            valid_text(link_bytes(self.content(x))),
            follow > 0,
        ensures
            self.spec_walk(d, name, follow) == self.spec_walk(
                d,
                join_link(link_bytes(self.content(x)), Seq::empty()),
                (follow - 1) as nat,
            ),
            self.spec_walk(d, name + seq![47u8] + rest, follow) == self.spec_walk(
                d,
                join_link(link_bytes(self.content(x)), rest),
                (follow - 1) as nat,
            ),
    {
        let p = name + seq![47u8] + rest;
        lemma_slash_at_end(name, 0, name.len() as int);
        assert forall|k: int| 0 <= k < name.len() implies p[k] != 47u8 by {
            assert(p[k] == name[k]);
        }
        assert(p[name.len() as int] == 47u8);
        lemma_slash_at_end(p, 0, name.len() as int);
        assert(p.subrange(0, name.len() as int) =~= name);
        assert(p.subrange(name.len() as int + 1, p.len() as int) =~= rest);
        assert(name.subrange(0, name.len() as int) =~= name);
        assert(p[0] == name[0]);
    }

    /// Look up `path` from directory `i`, following at most `follow_times` symbolic links
    pub fn lookup_follow(&self, i: usize, path: &[u8], follow_times: usize) -> (r: Result<usize, FsError>)
        requires
            self.wf(),
            self.valid(i as int),
        ensures
            !self.is_dir(i as int) ==> r == Err::<usize, FsError>(FsError::NotDir),
            self.is_dir(i as int) ==> match r {
                Ok(x) => self.spec_walk(i as int, path@, follow_times as nat) == Ok::<int, FsError>(x as int),
                Err(e) => self.spec_walk(i as int, path@, follow_times as nat) == Err::<int, FsError>(e),
            },
    {
        if self.nodes[i].extra.type_ != FileType::Dir {
            return Err(FsError::NotDir);
        }
        let dot_name: Vec<u8> = vec![46u8];
        proof {
            assert(dot_name@ =~= dot());
        }
        let mut result = self.find(i, dot_name.as_slice())?;
        let mut rest: Vec<u8> = vstd::slice::slice_to_vec(path);
        let mut follow = follow_times;
        loop
            invariant
                self.wf(),
                self.valid(result as int),
                self.is_dir(i as int),
                self.spec_walk(result as int, rest@, follow as nat) == self.spec_walk(i as int, path@, follow_times as nat),
            decreases follow, rest@.len(),
        {
            if rest.len() == 0 {
                return Ok(result);
            }
            if self.nodes[result].extra.type_ != FileType::Dir {
                return Err(FsError::NotDir);
            }
            if rest[0] == 47u8 {
                result = 0;
                let tail = vstd::slice::slice_to_vec(vstd::slice::slice_subrange(rest.as_slice(), 1, rest.len()));
                rest = tail;
                continue;
            }
            let pos = crate::sfs::find_slash(rest.as_slice());
            proof {
                crate::sfs::lemma_slash_at(rest@, 0);
            }
            let name = vstd::slice::slice_to_vec(vstd::slice::slice_subrange(rest.as_slice(), 0, pos));
            let rest2: Vec<u8> = if pos < rest.len() {
                vstd::slice::slice_to_vec(vstd::slice::slice_subrange(rest.as_slice(), pos + 1, rest.len()))
            } else {
                Vec::new()
            };
            proof {
                if pos >= rest@.len() {
                    assert(rest2@ =~= Seq::<u8>::empty());
                }
            }
            let inode = match self.find(result, name.as_slice()) {
                Ok(x) => x,
                Err(e) => {
                    return Err(e);
                },
            };
            if self.nodes[inode].extra.type_ == FileType::SymLink && follow > 0 {
                follow = follow - 1;
                let mut content: Vec<u8> = vec![0u8; 256];
                let len = match self.read_at(inode, 0, content.as_mut_slice()) {
                    Ok(n) => n,
                    Err(e) => {
                        return Err(e);
                    },
                };
                let link = vstd::slice::slice_subrange(content.as_slice(), 0, len);
                proof {
                    assert(link@ =~= link_bytes(self.content(inode as int)));
                }
                if utf8_valid(link) {
                    let mut new_path = vstd::slice::slice_to_vec(link);
                    if !(len > 0 && link[len - 1] == 47u8) {
                        new_path.push(47u8);
                    }
                    let mut k: usize = 0;
                    let ghost base = new_path@;
                    while k < rest2.len()
                        invariant
                            k <= rest2@.len(),
                            new_path@ == base + rest2@.subrange(0, k as int),
                        decreases rest2@.len() - k,
                    {
                        new_path.push(rest2[k]);
                        k = k + 1;
                        assert(rest2@.subrange(0, k as int) =~= rest2@.subrange(0, (k - 1) as int).push(rest2@[k - 1]));
                    }
                    proof {
                        assert(rest2@.subrange(0, rest2@.len() as int) =~= rest2@);
                        assert(new_path@ =~= join_link(link@, rest2@));
                    }
                    rest = new_path;
                } else {
                    return Err(FsError::NotDir);
                }
            } else {
                result = inode;
                rest = rest2;
            }
        }
    }

    /// Look up `path` from directory `i` without following symbolic links
    pub fn lookup(&self, i: usize, path: &[u8]) -> (r: Result<usize, FsError>)
        requires
            self.wf(),
            self.valid(i as int),
        ensures
            !self.is_dir(i as int) ==> r == Err::<usize, FsError>(FsError::NotDir),
            self.is_dir(i as int) ==> match r {
                Ok(x) => self.spec_walk(i as int, path@, 0) == Ok::<int, FsError>(x as int),
                Err(e) => self.spec_walk(i as int, path@, 0) == Err::<int, FsError>(e),
            },
    {
        self.lookup_follow(i, path, 0)
    }

    /// A file system holding only an empty root directory, which is its own parent
    pub fn new() -> (fs: RamFS)
        ensures
            fs.wf(),
            fs.count() == 1,
            fs.is_dir(0),
            fs.parent(0) == 0,
            fs.children(0).len() == 0,
            fs.content(0).len() == 0,
    {
        let zero = Timespec { sec: 0, nsec: 0 };
        let root = RamFSINode {
            parent: 0,
            children: Vec::new(),
            content: Vec::new(),
            extra: Metadata {
                dev: 0,
                inode: 0,
                size: 0,
                blk_size: 0,
                blocks: 0,
                atime: zero,
                mtime: zero,
                ctime: zero,
                type_: FileType::Dir,
                mode: 0o777,
                nlinks: 0,
                uid: 0,
                gid: 0,
                rdev: 0,
            },
            rdev: 0,
        };
        let mut nodes: Vec<RamFSINode> = Vec::new();
        nodes.push(root);
        let fs = RamFS { nodes };
        assert(fs.children(0) =~= Seq::<(Seq<u8>, int)>::empty());
        fs
    }

    /// The root directory
    pub fn root_inode(&self) -> (r: usize)
        ensures
            r == 0,
    {
        0
    }

    /// Nothing to write back
    pub fn sync(&self) -> (r: Result<(), FsError>)
        ensures
            r is Ok,
    {
        Ok(())
    }

    /// Information about the file system: all zero
    pub fn info(&self) -> (r: FsInfo)
        ensures
            r == (FsInfo { bsize: 0, frsize: 0, blocks: 0, bfree: 0, bavail: 0, files: 0, ffree: 0, namemax: 0 }),
    {
        FsInfo { bsize: 0, frsize: 0, blocks: 0, bfree: 0, bavail: 0, files: 0, ffree: 0, namemax: 0 }
    }
}

} // verus!
