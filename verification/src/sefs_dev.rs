//! The storage under SEFS: each inode's bytes live in a file of their own,
//! named by a unique id, and the metadata in one more file.

use vstd::prelude::*;
use crate::device::spec_write;
use crate::rcore_vfs::{FsError, Timespec};
use crate::sefs_structs::{BLKSIZE, DIRENT_SIZE};
use crate::structs::{AsBuf, DiskEntry};

verus! {

#[derive(Debug)]
pub struct DeviceError;

pub type DevResult<T> = Result<T, DeviceError>;

impl From<DeviceError> for FsError {
    fn from(e: DeviceError) -> (r: FsError) {
        FsError::DeviceError
    }
}

impl vstd::std_specs::convert::FromSpecImpl<DeviceError> for FsError {
    open spec fn obeys_from_spec() -> bool {
        true
    }

    open spec fn from_spec(v: DeviceError) -> FsError {
        FsError::DeviceError
    }
}

/// A file stores a normal file or directory.
///
/// The interface is same as `std::fs::File`.
pub trait File {
    /// The bytes the file holds
    spec fn content(&self) -> Seq<u8>;

    /// Whether every read inside the file and every write succeed in full
    spec fn reliable(&self) -> bool;

    fn read_at(&mut self, buf: &mut [u8], offset: usize) -> (r: DevResult<usize>)
        ensures
            final(self).content() == old(self).content(),
            final(self).reliable() == old(self).reliable(),
            final(buf)@.len() == old(buf)@.len(),
            r matches Ok(n) ==> (n <= old(buf)@.len() && offset + n <= old(self).content().len()
                && final(buf)@.subrange(0, n as int) == old(self).content().subrange(offset as int, offset + n)),
            old(self).reliable() && offset + old(buf)@.len() <= old(self).content().len() ==> r == Ok::<usize, DeviceError>(
                old(buf)@.len() as usize,
            ),
    ;

    fn write_at(&mut self, buf: &[u8], offset: usize) -> (r: DevResult<usize>)
        ensures
            final(self).reliable() == old(self).reliable(),
            r matches Ok(n) ==> (n <= buf@.len() && final(self).content() == spec_write(
                old(self).content(),
                offset as int,
                buf@.subrange(0, n as int),
            )),
            r is Err ==> final(self).content() == old(self).content(),
            old(self).reliable() && offset + buf@.len() <= usize::MAX ==> r == Ok::<usize, DeviceError>(buf@.len() as usize),
    ;

    /// Set the length of the file; the bytes before the new length stay
    fn set_len(&mut self, len: usize) -> (r: DevResult<()>)
        ensures
            final(self).reliable() == old(self).reliable(),
            r is Ok ==> {
                let m = if len < old(self).content().len() { len as int } else { old(self).content().len() as int };
                &&& final(self).content().len() >= m
                &&& final(self).content().subrange(0, m) == old(self).content().subrange(0, m)
            },
            r is Err ==> final(self).content() == old(self).content(),
            old(self).reliable() ==> r is Ok,
    ;

    fn flush(&mut self) -> (r: DevResult<()>)
        ensures
            final(self).content() == old(self).content(),
            final(self).reliable() == old(self).reliable(),
            old(self).reliable() ==> r is Ok,
    ;

    fn read_exact_at(&mut self, buf: &mut [u8], offset: usize) -> (r: DevResult<()>)
        ensures
            final(self).content() == old(self).content(),
            final(self).reliable() == old(self).reliable(),
            final(buf)@.len() == old(buf)@.len(),
            r is Ok ==> offset + old(buf)@.len() <= old(self).content().len() && final(buf)@ == old(self).content().subrange(
                offset as int,
                offset + old(buf)@.len(),
            ),
            old(self).reliable() && offset + old(buf)@.len() <= old(self).content().len() ==> r is Ok,
    {
        let len = self.read_at(buf, offset)?;
        if len == buf.len() {
            assert(buf@.subrange(0, len as int) =~= buf@);
            Ok(())
        } else {
            Err(DeviceError)
        }
    }

    fn write_all_at(&mut self, buf: &[u8], offset: usize) -> (r: DevResult<()>)
        ensures
            final(self).reliable() == old(self).reliable(),
            r is Ok ==> final(self).content() == spec_write(old(self).content(), offset as int, buf@),
            written_within(old(self).content(), final(self).content(), offset as int, buf@.len() as int),
            old(self).reliable() && offset + buf@.len() <= usize::MAX ==> r is Ok,
    {
        let len = self.write_at(buf, offset)?;
        if len == buf.len() {
            assert(buf@.subrange(0, len as int) =~= buf@);
            Ok(())
        } else {
            Err(DeviceError)
        }
    }

    /// Read block `id` of the file into `buf`
    fn read_block(&mut self, id: usize, buf: &mut [u8]) -> (r: DevResult<()>)
        requires
            old(buf)@.len() <= BLKSIZE,
            id * BLKSIZE + BLKSIZE <= usize::MAX,
        ensures
            final(self).content() == old(self).content(),
            final(self).reliable() == old(self).reliable(),
            final(buf)@.len() == old(buf)@.len(),
            r is Ok ==> id * BLKSIZE + old(buf)@.len() <= old(self).content().len() && final(buf)@ == old(self).content().subrange(
                id * BLKSIZE,
                id * BLKSIZE + old(buf)@.len(),
            ),
            old(self).reliable() && id * BLKSIZE + old(buf)@.len() <= old(self).content().len() ==> r is Ok,
    {
        self.read_exact_at(buf, id * BLKSIZE)
    }

    /// Write `buf` at the start of block `id` of the file
    fn write_block(&mut self, id: usize, buf: &[u8]) -> (r: DevResult<()>)
        requires
            buf@.len() <= BLKSIZE,
            id * BLKSIZE + BLKSIZE <= usize::MAX,
        ensures
            final(self).reliable() == old(self).reliable(),
            r is Ok ==> final(self).content() == spec_write(old(self).content(), id * BLKSIZE, buf@),
            old(self).reliable() ==> r is Ok,
    {
        self.write_all_at(buf, id * BLKSIZE)
    }

}

/// Whether `next` keeps the length of `prev` or more, and every byte of
/// `prev` outside the `len` bytes at `off`
pub open spec fn written_within(prev: Seq<u8>, next: Seq<u8>, off: int, len: int) -> bool {
    &&& next.len() >= prev.len()
    &&& forall|i: int| 0 <= i < prev.len() && !(off <= i < off + len) ==> #[trigger] next[i] == prev[i]
}

/// The directory entry stored in `buf`
fn decode_entry(buf: &[u8]) -> (e: DiskEntry)
    requires
        buf@.len() == DIRENT_SIZE,
    ensures
        DiskEntry::spec_decodes(buf@, e),
{
    DiskEntry::from_buf(buf)
}

/// The bytes that store a directory entry
fn encode_entry(e: &DiskEntry) -> (buf: Vec<u8>)
    ensures
        buf@ == e.spec_buf(),
        buf@.len() == DIRENT_SIZE,
{
    e.as_buf()
}

/// Read directory entry `id` of `file`
pub fn read_direntry<F: File>(file: &mut F, id: usize) -> (r: DevResult<DiskEntry>)
    requires
        DIRENT_SIZE * id + DIRENT_SIZE <= usize::MAX,
    ensures
        final(file).content() == old(file).content(),
        final(file).reliable() == old(file).reliable(),
        r matches Ok(e) ==> DIRENT_SIZE * id + DIRENT_SIZE <= old(file).content().len() && DiskEntry::spec_decodes(
            old(file).content().subrange(DIRENT_SIZE * id, DIRENT_SIZE * id + DIRENT_SIZE),
            e,
        ),
        old(file).reliable() && DIRENT_SIZE * id + DIRENT_SIZE <= old(file).content().len() ==> r is Ok,
{
    let mut buf: Vec<u8> = vec![0u8; DIRENT_SIZE];
    match file.read_exact_at(buf.as_mut_slice(), DIRENT_SIZE * id) {
        Ok(()) => Ok(decode_entry(buf.as_slice())),
        Err(e) => Err(e),
    }
}

/// Write `direntry` as directory entry `id` of `file`
pub fn write_direntry<F: File>(file: &mut F, id: usize, direntry: &DiskEntry) -> (r: DevResult<()>)
    requires
        DIRENT_SIZE * id + DIRENT_SIZE <= usize::MAX,
    ensures
        final(file).reliable() == old(file).reliable(),
        r is Ok ==> final(file).content() == spec_write(old(file).content(), DIRENT_SIZE * id, direntry.spec_buf()),
        written_within(old(file).content(), final(file).content(), DIRENT_SIZE * id, DIRENT_SIZE as int),
        old(file).reliable() ==> r is Ok,
{
    let buf = encode_entry(direntry);
    file.write_all_at(buf.as_slice(), DIRENT_SIZE * id)
}

/// The collection of all files in the FS.
pub trait Storage {
    type F: File;

    /// Whether every file is created in full, and the files it creates never fail
    spec fn reliable(&self) -> bool;

    /// Whether the storage only checks the integrity of the files, without encrypting them
    spec fn integrity_only(&self) -> bool;

    fn is_integrity_only(&self) -> (b: bool)
        ensures
            b == self.integrity_only(),
    ;

    fn open(&mut self, file_id: &str) -> DevResult<Self::F>;

    /// Create the file named `file_id`: it starts empty
    fn create(&mut self, file_id: &str) -> (r: DevResult<Self::F>)
        ensures
            final(self).reliable() == old(self).reliable(),
            r matches Ok(f) ==> f.content() == Seq::<u8>::empty() && f.reliable() == old(self).reliable(),
            old(self).reliable() ==> r is Ok,
    ;

    fn remove(&mut self, file_id: &str) -> DevResult<()>;
}

/// Gives the time of the machine
pub trait TimeProvider {
    fn current_time(&mut self) -> Timespec;
}

/// Gives ids that name files
pub trait UuidProvider {
    fn generate_uuid(&mut self) -> SefsUuid;
}

/// The 16-byte id that names the file of an inode
#[derive(Copy, Clone, PartialEq, Eq, Hash, Debug)]
pub struct SefsUuid(pub [u8; 16]);

/// The 16-byte code that checks a file
#[derive(Copy, Clone, PartialEq, Eq, Hash, Debug, Default)]
pub struct SefsMac(pub [u8; 16]);

/// The lower-case hexadecimal digit of `n`
pub open spec fn hex_digit(n: u8) -> u8 {
    if n < 10 {
        (48 + n) as u8
    } else {
        (87 + n) as u8
    }
}

/// Two hexadecimal digits for each byte of `s`
pub open spec fn hex_text(s: Seq<u8>) -> Seq<u8>
    decreases s.len(),
{
    if s.len() == 0 {
        Seq::empty()
    } else {
        hex_text(s.drop_last()) + seq![hex_digit(s.last() / 16), hex_digit(s.last() % 16)]
    }
}

pub proof fn lemma_hex_text(s: Seq<u8>)
    ensures
        hex_text(s).len() == 2 * s.len(),
        forall|i: int| 0 <= i < hex_text(s).len() ==> #[trigger] hex_text(s)[i] < 128,
    decreases s.len(),
{
    if s.len() > 0 {
        lemma_hex_text(s.drop_last());
    }
}

/// `String::from_utf8`: ASCII bytes make a string of those characters.
#[verifier::external_body]
fn ascii_string(bytes: Vec<u8>) -> (s: String)
    requires
        forall|i: int| 0 <= i < bytes@.len() ==> #[trigger] bytes@[i] < 128,
    ensures
        s@.len() == bytes@.len(),
        forall|i: int| 0 <= i < bytes@.len() ==> #[trigger] s@[i] == bytes@[i] as char,
{
    match String::from_utf8(bytes) {
        Ok(s) => s,
        Err(_) => String::new(),
    }
}

fn hex_digit_exec(n: u8) -> (d: u8)
    requires
        n < 16,
    ensures
        d == hex_digit(n),
{
    if n < 10 {
        48 + n
    } else {
        87 + n
    }
}

impl SefsUuid {
    pub fn new(bytes: [u8; 16]) -> (r: SefsUuid)
        ensures
            r.0 == bytes,
    {
        SefsUuid(bytes)
    }

    /// The id as 32 lower-case hexadecimal digits, as bytes
    pub fn to_hex(&self) -> (r: Vec<u8>)
        ensures
            r@ == hex_text(self.0@),
    {
        let mut v: Vec<u8> = Vec::new();
        let mut i: usize = 0;
        while i < 16
            invariant
                i <= 16,
                self.0@.len() == 16,
                v@ == hex_text(self.0@.subrange(0, i as int)),
            decreases 16 - i,
        {
            let b = self.0[i];
            v.push(hex_digit_exec(b / 16));
            v.push(hex_digit_exec(b % 16));
            proof {
                let p = self.0@.subrange(0, i + 1);
                assert(p.drop_last() =~= self.0@.subrange(0, i as int));
                assert(p.last() == b);
                assert(v@ =~= hex_text(p));
            }
            i = i + 1;
        }
        assert(self.0@.subrange(0, 16) =~= self.0@);
        v
    }

    /// The id as 32 lower-case hexadecimal digits
    pub fn to_string(&self) -> (s: String)
        ensures
            s@.len() == 32,
            forall|i: int| 0 <= i < 32 ==> #[trigger] s@[i] == hex_text(self.0@)[i] as char,
    {
        let v = self.to_hex();
        proof {
            lemma_hex_text(self.0@);
        }
        ascii_string(v)
    }
}

/// A set of files in a directory of the host, named by their ids
pub struct StdStorage {
    path: String,
}

impl StdStorage {
    /// The directory that holds the files
    pub closed spec fn dir(&self) -> Seq<char> {
        self.path@
    }

    pub fn new(path: &str) -> (r: StdStorage)
        ensures
            r.dir() == path@,
    {
        StdStorage { path: path.to_owned() }
    }

    /// The directory that holds the files
    pub fn path(&self) -> (r: &str)
        ensures
            r@ == self.dir(),
    {
        self.path.as_str()
    }
}

/// A file held in memory
pub struct MemFile {
    data: Vec<u8>,
}

impl MemFile {
    /// An empty file
    pub fn new() -> (f: MemFile)
        ensures
            f.content() == Seq::<u8>::empty(),
            f.reliable(),
    {
        MemFile { data: Vec::new() }
    }

    /// The bytes of the file
    pub fn bytes(&self) -> (r: &Vec<u8>)
        ensures
            r@ == self.content(),
    {
        &self.data
    }
}

impl File for MemFile {
    closed spec fn content(&self) -> Seq<u8> {
        self.data@
    }

    open spec fn reliable(&self) -> bool {
        true
    }

    fn read_at(&mut self, buf: &mut [u8], offset: usize) -> (r: DevResult<usize>) {
        let len = self.data.len();
        if offset > len {
            return Err(DeviceError);
        }
        let avail = len - offset;
        let n = if buf.len() < avail {
            buf.len()
        } else {
            avail
        };
        let mut i: usize = 0;
        while i < n
            invariant
                n <= buf@.len(),
                len == self.data@.len(),
                offset + n <= self.data@.len(),
                i <= n,
                buf@.len() == old(buf)@.len(),
                forall|k: int| 0 <= k < i ==> buf@[k] == self.data@[offset + k],
            decreases n - i,
        {
            buf[i] = self.data[offset + i];
            i = i + 1;
        }
        assert(buf@.subrange(0, n as int) =~= self.data@.subrange(offset as int, offset + n));
        Ok(n)
    }

    fn write_at(&mut self, buf: &[u8], offset: usize) -> (r: DevResult<usize>) {
        let n = buf.len();
        if offset > usize::MAX - n {
            return Err(DeviceError);
        }
        let ghost old_data = self.data@;
        let end = offset + n;
        if self.data.len() < end {
            self.data.resize(end, 0u8);
        }
        proof {
            assert forall|k: int| old_data.len() <= k < self.data@.len() implies self.data@[k] == 0u8 by {
                assert(vstd::pervasive::cloned::<u8>(0u8, self.data@[k]));
            }
        }
        let mut i: usize = 0;
        while i < n
            invariant
                end == offset + n,
                n == buf@.len(),
                i <= n,
                self.data@.len() == if old_data.len() >= end { old_data.len() as int } else { end as int },
                forall|k: int| 0 <= k < self.data@.len() ==> self.data@[k] == if offset <= k < offset + i { buf@[k - offset] } else if k < old_data.len() { old_data[k] } else { 0u8 },
            decreases n - i,
        {
            self.data.set(offset + i, buf[i]);
            i = i + 1;
        }
        assert(buf@.subrange(0, n as int) =~= buf@);
        assert(self.data@ =~= spec_write(old_data, offset as int, buf@));
        Ok(n)
    }

    /// The file holds `len` bytes: those it held below `len`, then zeros
    fn set_len(&mut self, len: usize) -> (r: DevResult<()>)
        ensures
            r is Ok,
            final(self).content() == Seq::new(
                len as nat,
                |i: int| if i < old(self).content().len() { old(self).content()[i] } else { 0u8 },
            ),
    {
        let ghost old_data = self.data@;
        self.data.resize(len, 0u8);
        proof {
            let m = if len < old_data.len() { len as int } else { old_data.len() as int };
            assert forall|k: int| old_data.len() <= k < self.data@.len() implies self.data@[k] == 0u8 by {
                assert(vstd::pervasive::cloned::<u8>(0u8, self.data@[k]));
            }
            assert(self.data@ =~= Seq::new(
                len as nat,
                |i: int| if i < old_data.len() { old_data[i] } else { 0u8 },
            ));
            assert(self.data@.subrange(0, m) =~= old_data.subrange(0, m));
        }
        Ok(())
    }

    fn flush(&mut self) -> (r: DevResult<()>) {
        Ok(())
    }
}

} // verus!
