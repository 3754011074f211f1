//! The device file system: a directory of named devices, kept in byte order
//! of their names, and the null device, which reads nothing and takes every
//! write.

use vstd::prelude::*;
use vstd::string::StringSliceAdditionalSpecFns;
use crate::rcore_vfs::{FileType, FsError, FsInfo, Metadata, Timespec, make_rdev, spec_make_rdev};
use crate::unionfs::{lemma_lex_irreflexive, lemma_lex_total, lemma_lex_transitive, lex_lt, sorted_names};

verus! {

/// The null device
pub struct NullINode {
    inode_id: usize,
}

impl NullINode {
    /// The inode number of the device
    pub closed spec fn id(&self) -> usize {
        self.inode_id
    }

    /// A null device with inode number `inode_id`
    pub fn new(inode_id: usize) -> (r: NullINode)
        ensures
            r.id() == inode_id,
    {
        NullINode { inode_id }
    }

    /// Read nothing
    pub fn read_at(&self, offset: usize, buf: &mut [u8]) -> (r: Result<usize, FsError>)
        ensures
            r == Ok::<usize, FsError>(0),
            final(buf)@ == old(buf)@,
    {
        Ok(0)
    }

    /// Write to nothing: every byte is taken
    pub fn write_at(&self, offset: usize, buf: &[u8]) -> (r: Result<usize, FsError>)
        ensures
            r == Ok::<usize, FsError>(buf@.len() as usize),
    {
        Ok(buf.len())
    }

    /// A character device of size zero, readable and writable by all
    pub fn metadata(&self) -> (r: Result<Metadata, FsError>)
        ensures
            r == Ok::<Metadata, FsError>(Metadata {
                dev: 1,
                inode: self.id(),
                size: 0,
                blk_size: 0,
                blocks: 0,
                atime: Timespec { sec: 0, nsec: 0 },
                mtime: Timespec { sec: 0, nsec: 0 },
                ctime: Timespec { sec: 0, nsec: 0 },
                type_: FileType::CharDevice,
                mode: 0o666,
                nlinks: 1,
                uid: 0,
                gid: 0,
                rdev: spec_make_rdev(1, 3),
            }),
    {
        Ok(Metadata {
            dev: 1,
            inode: self.inode_id,
            size: 0,
            blk_size: 0,
            blocks: 0,
            atime: Timespec { sec: 0, nsec: 0 },
            mtime: Timespec { sec: 0, nsec: 0 },
            ctime: Timespec { sec: 0, nsec: 0 },
            type_: FileType::CharDevice,
            mode: 0o666,
            nlinks: 1,
            uid: 0,
            gid: 0,
            rdev: make_rdev(1, 3),
        })
    }

    /// A null device cannot be resized
    pub fn resize(&self, len: usize) -> (r: Result<(), FsError>)
        ensures
            r == Err::<(), FsError>(FsError::NotSupported),
    {
        Err(FsError::NotSupported)
    }
}

/// A copy of `s`
fn copy_name(s: &[u8]) -> (v: Vec<u8>)
    ensures
        v@ == s@,
{
    vstd::slice::slice_to_vec(s)
}

/// Whether two names are equal
fn same_name(a: &[u8], b: &[u8]) -> (r: bool)
    ensures
        r == (a@ == b@),
{
    if a.len() != b.len() {
        return false;
    }
    let mut i: usize = 0;
    while i < a.len()
        invariant
            i <= a@.len(),
            a@.len() == b@.len(),
            forall|k: int| 0 <= k < i ==> a@[k] == b@[k],
        decreases a@.len() - i,
    {
        if a[i] != b[i] {
            return false;
        }
        i = i + 1;
    }
    assert(a@ =~= b@);
    true
}

/// Whether `a` comes before `b` in byte order
fn name_lt(a: &[u8], b: &[u8]) -> (r: bool)
    ensures
        r == lex_lt(a@, b@),
{
    let mut i: usize = 0;
    assert(a@.subrange(0, a@.len() as int) =~= a@);
    assert(b@.subrange(0, b@.len() as int) =~= b@);
    while i < a.len() && i < b.len()
        invariant
            i <= a@.len(),
            i <= b@.len(),
            lex_lt(a@, b@) == lex_lt(a@.subrange(i as int, a@.len() as int), b@.subrange(i as int, b@.len() as int)),
        decreases a@.len() - i,
    {
        if a[i] != b[i] {
            return a[i] < b[i];
        }
        proof {
            let sa = a@.subrange(i as int, a@.len() as int);
            let sb = b@.subrange(i as int, b@.len() as int);
            assert(sa.drop_first() =~= a@.subrange(i + 1, a@.len() as int));
            assert(sb.drop_first() =~= b@.subrange(i + 1, b@.len() as int));
        }
        i = i + 1;
    }
    i == a.len() && i < b.len()
}

/// What a name of the device file system stands for
pub enum DevNode<'a, D> {
    /// the root directory, named by "." and ".."
    Root,
    /// a device
    Dev(&'a D),
}

/// Device file system: the devices it holds, by name. It is read only from
/// its root; devices are added and removed with `add` and `remove`.
pub struct DevFS<D> {
    devs: Vec<(Vec<u8>, D)>,
}

impl<D> DevFS<D> {
    /// The names of the devices, in byte order
    pub closed spec fn names(&self) -> Seq<Seq<u8>> {
        Seq::new(self.devs@.len(), |i: int| self.devs@[i].0@)
    }

    /// The device of the `i`-th name
    pub closed spec fn dev(&self, i: int) -> D {
        self.devs@[i].1
    }

    /// The invariant: the names are sorted, each once
    pub open spec fn wf(&self) -> bool {
        sorted_names(self.names())
    }

    /// The device named `name`, if there is one
    pub open spec fn lookup(&self, name: Seq<u8>) -> Option<D> {
        if exists|i: int| 0 <= i < self.names().len() && self.names()[i] == name {
            Some(self.dev(choose|i: int| 0 <= i < self.names().len() && self.names()[i] == name))
        } else {
            None
        }
    }

    /// A device file system with no device
    pub fn new() -> (fs: Self)
        ensures
            fs.wf(),
            fs.names() == Seq::<Seq<u8>>::empty(),
    {
        let fs = DevFS { devs: Vec::new() };
        assert(fs.names() =~= Seq::<Seq<u8>>::empty());
        fs
    }

    /// The number of devices
    pub fn len(&self) -> (n: usize)
        ensures
            n == self.names().len(),
    {
        self.devs.len()
    }

    /// The position of the first name not before `name`
    fn position(&self, name: &[u8]) -> (i: usize)
        requires
            self.wf(),
        ensures
            i <= self.names().len(),
            forall|k: int| 0 <= k < i ==> lex_lt(#[trigger] self.names()[k], name@),
            i < self.names().len() ==> !lex_lt(self.names()[i as int], name@),
            self.names().contains(name@) <==> (i < self.names().len() && self.names()[i as int] == name@),
    {
        let mut i: usize = 0;
        while i < self.devs.len() && name_lt(self.devs[i].0.as_slice(), name)
            invariant
                i <= self.devs@.len(),
                forall|k: int| 0 <= k < i ==> lex_lt(#[trigger] self.names()[k], name@),
            decreases self.devs@.len() - i,
        {
            i = i + 1;
        }
        proof {
            lemma_lex_irreflexive(name@);
            if self.names().contains(name@) {
                let k = choose|k: int| 0 <= k < self.names().len() && self.names()[k] == name@;
                if k > i {
                    assert(lex_lt(self.names()[i as int], self.names()[k]));
                    lemma_lex_total(self.names()[i as int], name@);
                }
            }
        }
        i
    }

    /// Add device `dev` under `name`; a name already taken is refused
    pub fn add(&mut self, name: &str, dev: D) -> (r: Result<(), FsError>)
        requires
            old(self).wf(),
        ensures
            final(self).wf(),
            old(self).names().contains(name.spec_bytes()) ==> r == Err::<(), FsError>(FsError::EntryExist) && *final(self)
                == *old(self),
            !old(self).names().contains(name.spec_bytes()) ==> r is Ok && final(self).names().to_set() == old(self).names().to_set().insert(
                name.spec_bytes(),
            ) && final(self).lookup(name.spec_bytes()) == Some(dev),
            forall|x: Seq<u8>| x != name.spec_bytes() ==> #[trigger] final(self).lookup(x) == old(self).lookup(x),
    {
        let b = name.as_bytes();
        let i = self.position(b);
        if i < self.devs.len() && same_name(self.devs[i].0.as_slice(), b) {
            return Err(FsError::EntryExist);
        }
        let ghost v0 = self.names();
        let ghost d0 = self.devs@;
        self.devs.insert(i, (copy_name(b), dev));
        proof {
            let v = self.names();
            assert(v =~= v0.insert(i as int, b@));
            if i < v0.len() {
                lemma_lex_total(v0[i as int], b@);
            }
            assert forall|a: int, c: int| 0 <= a < c < v.len() implies lex_lt(#[trigger] v[a], #[trigger] v[c]) by {
                if a < i && c == i {
                } else if a < i && c > i {
                    if c - 1 > i {
                        lemma_lex_transitive(b@, v0[i as int], v0[c - 1]);
                    }
                    lemma_lex_transitive(v0[a], b@, v0[c - 1]);
                } else if a == i {
                    if c - 1 > i {
                        lemma_lex_transitive(b@, v0[i as int], v0[c - 1]);
                    }
                }
            }
            assert(v.to_set() =~= v0.to_set().insert(b@)) by {
                assert forall|x: Seq<u8>| v.to_set().contains(x) implies v0.to_set().insert(b@).contains(x) by {
                    let k = choose|k: int| 0 <= k < v.len() && v[k] == x;
                    if k < i {
                        assert(v0[k] == x);
                    } else if k > i {
                        assert(v0[k - 1] == x);
                    }
                }
                assert forall|x: Seq<u8>| v0.to_set().insert(b@).contains(x) implies v.to_set().contains(x) by {
                    if x == b@ {
                        assert(v[i as int] == x);
                    } else {
                        let k = choose|k: int| 0 <= k < v0.len() && v0[k] == x;
                        if k < i {
                            assert(v[k] == x);
                        } else {
                            assert(v[k + 1] == x);
                        }
                    }
                }
            }
            lemma_unique_lookup(self, i as int);
            assert forall|x: Seq<u8>| x != b@ implies #[trigger] self.lookup(x) == old(self).lookup(x) by {
                if old(self).names().contains(x) {
                    let k = choose|k: int| 0 <= k < v0.len() && v0[k] == x;
                    lemma_unique_lookup(old(self), k);
                    let k2 = if k < i { k } else { k + 1 };
                    assert(v[k2] == x);
                    lemma_unique_lookup(self, k2);
                } else if self.names().contains(x) {
                    let k = choose|k: int| 0 <= k < v.len() && v[k] == x;
                    if k < i {
                        assert(v0[k] == x);
                    } else if k > i {
                        assert(v0[k - 1] == x);
                    }
                }
            }
        }
        Ok(())
    }

    /// Remove the device named `name`; a name not taken is refused
    pub fn remove(&mut self, name: &str) -> (r: Result<(), FsError>)
        requires
            old(self).wf(),
        ensures
            final(self).wf(),
            !old(self).names().contains(name.spec_bytes()) ==> r == Err::<(), FsError>(FsError::EntryNotFound) && final(self).names()
                == old(self).names(),
            old(self).names().contains(name.spec_bytes()) ==> r is Ok && final(self).names().to_set() == old(self).names().to_set().remove(
                name.spec_bytes(),
            ) && final(self).lookup(name.spec_bytes()) is None,
            forall|x: Seq<u8>| x != name.spec_bytes() ==> #[trigger] final(self).lookup(x) == old(self).lookup(x),
    {
        let b = name.as_bytes();
        let i = self.position(b);
        if !(i < self.devs.len() && same_name(self.devs[i].0.as_slice(), b)) {
            return Err(FsError::EntryNotFound);
        }
        let ghost v0 = self.names();
        let _gone = self.devs.remove(i);
        proof {
            let v = self.names();
            assert(v =~= v0.remove(i as int));
            assert forall|a: int, c: int| 0 <= a < c < v.len() implies lex_lt(#[trigger] v[a], #[trigger] v[c]) by {
                if a < i && c < i {
                    assert(v[a] == v0[a] && v[c] == v0[c]);
                } else if a < i {
                    assert(v[a] == v0[a] && v[c] == v0[c + 1]);
                } else {
                    assert(v[a] == v0[a + 1] && v[c] == v0[c + 1]);
                }
            }
            lemma_lex_irreflexive(b@);
            assert(v.to_set() =~= v0.to_set().remove(b@)) by {
                assert forall|x: Seq<u8>| v.to_set().contains(x) implies v0.to_set().remove(b@).contains(x) by {
                    let k = choose|k: int| 0 <= k < v.len() && v[k] == x;
                    if k < i {
                        assert(v0[k] == x);
                        assert(lex_lt(v0[k], v0[i as int]));
                    } else {
                        assert(v0[k + 1] == x);
                        assert(lex_lt(v0[i as int], v0[k + 1]));
                    }
                }
                assert forall|x: Seq<u8>| v0.to_set().remove(b@).contains(x) implies v.to_set().contains(x) by {
                    let k = choose|k: int| 0 <= k < v0.len() && v0[k] == x;
                    if k < i {
                        assert(v[k] == x);
                    } else {
                        assert(k != i);
                        assert(v[k - 1] == x);
                    }
                }
            }
            assert(!v.contains(b@)) by {
                if v.contains(b@) {
                    assert(v.to_set().contains(b@));
                }
            }
            assert forall|x: Seq<u8>| x != b@ implies #[trigger] self.lookup(x) == old(self).lookup(x) by {
                if old(self).names().contains(x) {
                    let k = choose|k: int| 0 <= k < v0.len() && v0[k] == x;
                    lemma_unique_lookup(old(self), k);
                    assert(k != i);
                    let k2 = if k < i { k } else { k - 1 };
                    assert(v[k2] == x);
                    lemma_unique_lookup(self, k2);
                } else if self.names().contains(x) {
                    let k = choose|k: int| 0 <= k < v.len() && v[k] == x;
                    if k < i {
                        assert(v0[k] == x);
                    } else {
                        assert(v0[k + 1] == x);
                    }
                }
            }
        }
        Ok(())
    }

    /// What `name` stands for from the root: the root for "." and "..",
    /// else the device of that name
    pub fn find(&self, name: &str) -> (r: Result<DevNode<'_, D>, FsError>)
        requires
            self.wf(),
        ensures
            (name.spec_bytes() == seq![46u8] || name.spec_bytes() == seq![46u8, 46u8]) ==> r matches Ok(DevNode::Root),
            !(name.spec_bytes() == seq![46u8] || name.spec_bytes() == seq![46u8, 46u8]) ==> match self.lookup(name.spec_bytes()) {
                Some(d) => (r matches Ok(DevNode::Dev(x)) && *x == d),
                None => r == Err::<DevNode<'_, D>, FsError>(FsError::EntryNotFound),
            },
    {
        let b = name.as_bytes();
        let dot: Vec<u8> = vec![46u8];
        let dotdot: Vec<u8> = vec![46u8, 46u8];
        proof {
            assert(dot@ =~= seq![46u8]);
            assert(dotdot@ =~= seq![46u8, 46u8]);
        }
        if same_name(b, dot.as_slice()) || same_name(b, dotdot.as_slice()) {
            return Ok(DevNode::Root);
        }
        let i = self.position(b);
        if i < self.devs.len() && same_name(self.devs[i].0.as_slice(), b) {
            proof {
                lemma_unique_lookup(self, i as int);
            }
            Ok(DevNode::Dev(&self.devs[i].1))
        } else {
            Err(FsError::EntryNotFound)
        }
    }

    /// The name of entry `id` of the root: ".", "..", then the names of the
    /// devices in byte order
    pub fn get_entry(&self, id: usize) -> (r: Result<Vec<u8>, FsError>)
        ensures
            id == 0 ==> (r matches Ok(v) && v@ == seq![46u8]),
            id == 1 ==> (r matches Ok(v) && v@ == seq![46u8, 46u8]),
            id >= 2 && id - 2 < self.names().len() ==> (r matches Ok(v) && v@ == self.names()[id - 2]),
            id >= 2 && id - 2 >= self.names().len() ==> r == Err::<Vec<u8>, FsError>(FsError::EntryNotFound),
    {
        if id == 0 {
            let v: Vec<u8> = vec![46u8];
            assert(v@ =~= seq![46u8]);
            Ok(v)
        } else if id == 1 {
            let v: Vec<u8> = vec![46u8, 46u8];
            assert(v@ =~= seq![46u8, 46u8]);
            Ok(v)
        } else if id - 2 < self.devs.len() {
            Ok(copy_name(self.devs[id - 2].0.as_slice()))
        } else {
            Err(FsError::EntryNotFound)
        }
    }

    /// The root is a directory: reading it gives `IsDir`
    pub fn read_at(&self, offset: usize, buf: &mut [u8]) -> (r: Result<usize, FsError>)
        ensures
            r == Err::<usize, FsError>(FsError::IsDir),
            final(buf)@ == old(buf)@,
    {
        Err(FsError::IsDir)
    }

    /// The root is a directory: writing it gives `IsDir`
    pub fn write_at(&self, offset: usize, buf: &[u8]) -> (r: Result<usize, FsError>)
        ensures
            r == Err::<usize, FsError>(FsError::IsDir),
    {
        Err(FsError::IsDir)
    }

    /// The root is a directory: resizing it gives `IsDir`
    pub fn resize(&self, len: usize) -> (r: Result<(), FsError>)
        ensures
            r == Err::<(), FsError>(FsError::IsDir),
    {
        Err(FsError::IsDir)
    }

    /// The metadata of the root cannot be changed
    pub fn set_metadata(&self, metadata: &Metadata) -> (r: Result<(), FsError>)
        ensures
            r == Err::<(), FsError>(FsError::NotSupported),
    {
        Err(FsError::NotSupported)
    }

    /// Nothing of the root is kept anywhere: syncing it succeeds
    pub fn sync_all(&self) -> (r: Result<(), FsError>)
        ensures
            r is Ok,
    {
        Ok(())
    }

    /// Nothing of the root is kept anywhere: syncing it succeeds
    pub fn sync_data(&self) -> (r: Result<(), FsError>)
        ensures
            r is Ok,
    {
        Ok(())
    }

    /// Files are added with `add`, not created: `NotSupported`
    pub fn create(&self, name: &str, type_: FileType, mode: u32) -> (r: Result<usize, FsError>)
        ensures
            r == Err::<usize, FsError>(FsError::NotSupported),
    {
        Err(FsError::NotSupported)
    }

    /// Devices cannot be linked: `NotSupported`
    pub fn link(&self, name: &str, other: usize) -> (r: Result<(), FsError>)
        ensures
            r == Err::<(), FsError>(FsError::NotSupported),
    {
        Err(FsError::NotSupported)
    }

    /// Devices are taken out with `remove`, not unlinked: `NotSupported`
    pub fn unlink(&self, name: &str) -> (r: Result<(), FsError>)
        ensures
            r == Err::<(), FsError>(FsError::NotSupported),
    {
        Err(FsError::NotSupported)
    }

    /// Devices cannot be moved: `NotSupported`
    pub fn move_(&self, old_name: &str, target: usize, new_name: &str) -> (r: Result<(), FsError>)
        ensures
            r == Err::<(), FsError>(FsError::NotSupported),
    {
        Err(FsError::NotSupported)
    }

    /// The root takes no control command: `NotSupported`
    pub fn io_control(&self, cmd: u32, data: usize) -> (r: Result<usize, FsError>)
        ensures
            r == Err::<usize, FsError>(FsError::NotSupported),
    {
        Err(FsError::NotSupported)
    }

    /// The root: a directory whose size is the number of devices
    pub fn metadata(&self) -> (r: Metadata)
        ensures
            r == (Metadata {
                dev: 0,
                inode: 1,
                size: self.names().len() as usize,
                blk_size: 0,
                blocks: 0,
                atime: Timespec { sec: 0, nsec: 0 },
                mtime: Timespec { sec: 0, nsec: 0 },
                ctime: Timespec { sec: 0, nsec: 0 },
                type_: FileType::Dir,
                mode: 0o666,
                nlinks: 2,
                uid: 0,
                gid: 0,
                rdev: 0,
            }),
    {
        Metadata {
            dev: 0,
            inode: 1,
            size: self.devs.len(),
            blk_size: 0,
            blocks: 0,
            atime: Timespec { sec: 0, nsec: 0 },
            mtime: Timespec { sec: 0, nsec: 0 },
            ctime: Timespec { sec: 0, nsec: 0 },
            type_: FileType::Dir,
            mode: 0o666,
            nlinks: 2,
            uid: 0,
            gid: 0,
            rdev: 0,
        }
    }

    /// Information about the file system: all zero
    pub fn info(&self) -> (r: FsInfo)
        ensures
            r == (FsInfo { bsize: 0, frsize: 0, blocks: 0, bfree: 0, bavail: 0, files: 0, ffree: 0, namemax: 0 }),
    {
        FsInfo { bsize: 0, frsize: 0, blocks: 0, bfree: 0, bavail: 0, files: 0, ffree: 0, namemax: 0 }
    }
}

/// With names sorted, the device of the `i`-th name is what a lookup of it gives.
pub proof fn lemma_unique_lookup<D>(fs: &DevFS<D>, i: int)
    requires
        fs.wf(),
        0 <= i < fs.names().len(),
    ensures
        fs.lookup(fs.names()[i]) == Some(fs.dev(i)),
{
    let name = fs.names()[i];
    assert(0 <= i < fs.names().len() && fs.names()[i] == name);
    assert forall|k: int| 0 <= k < fs.names().len() && fs.names()[k] == name implies k == i by {
        if k != i {
            lemma_lex_irreflexive(name);
            if k < i {
                assert(lex_lt(fs.names()[k], fs.names()[i]));
            } else {
                assert(lex_lt(fs.names()[i], fs.names()[k]));
            }
        }
    }
}

} // verus!
