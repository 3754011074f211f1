//! Common types of the newer virtual file system interface, shared by the
//! in-memory and encrypted file systems.

use vstd::prelude::*;

verus! {

/// Metadata of INode
///
/// Ref: [http://pubs.opengroup.org/onlinepubs/009604499/basedefs/sys/stat.h.html]
#[derive(Debug, Eq, PartialEq, Structural, Copy, Clone)]
pub struct Metadata {
    /// Device ID
    pub dev: usize,
    /// Inode number
    pub inode: usize,
    /// Size in bytes
    ///
    /// SFS Note: for normal file size is the actuate file size
    /// for directory this is count of dirent.
    pub size: usize,
    /// A file system-specific preferred I/O block size for this object.
    /// In some file system types, this may vary from file to file.
    pub blk_size: usize,
    /// Size in blocks
    pub blocks: usize,
    /// Time of last access
    pub atime: Timespec,
    /// Time of last modification
    pub mtime: Timespec,
    /// Time of last change
    pub ctime: Timespec,
    /// Type of file
    pub type_: FileType,
    /// Permission
    pub mode: u16,
    /// Number of hard links
    ///
    /// SFS Note: different from linux, "." and ".." count in nlinks
    /// so an empty directory has two links.
    pub nlinks: usize,
    /// User ID
    pub uid: usize,
    /// Group ID
    pub gid: usize,
    /// Device ID of a device file
    pub rdev: usize,
}

/// The device number of the device with numbers `major` and `minor`: the major
/// number in bits 8 to 19, the minor number in bits 0 to 7
pub open spec fn spec_make_rdev(major: usize, minor: usize) -> usize {
    ((major & 0xfff) << 8usize) | (minor & 0xff)
}

/// The device number of the device with numbers `major` and `minor`
pub fn make_rdev(major: usize, minor: usize) -> (r: usize)
    ensures
        r == spec_make_rdev(major, minor),
{
    ((major & 0xfff) << 8usize) | (minor & 0xff)
}

/// The file type that the type bits of a host mode (`mode & 0xf000`, the POSIX
/// `S_IFMT` field) name: a character device, a block device, a directory, a
/// regular file, a symbolic link or a socket
pub open spec fn spec_host_type(mode: u32) -> Option<FileType> {
    let t = mode & 0xf000u32;
    if t == 0o020000u32 {
        Some(FileType::CharDevice)
    } else if t == 0o060000u32 {
        Some(FileType::BlockDevice)
    } else if t == 0o040000u32 {
        Some(FileType::Dir)
    } else if t == 0o100000u32 {
        Some(FileType::File)
    } else if t == 0o120000u32 {
        Some(FileType::SymLink)
    } else if t == 0o140000u32 {
        Some(FileType::Socket)
    } else {
        None
    }
}

/// The metadata of a host file from the fields of its `stat` record; `times`
/// holds the access, modification and change times as seconds and nanoseconds.
/// `None` when the type bits of `mode` name no type of this interface.
pub fn metadata_from_host(
    dev: u64,
    ino: u64,
    size: u64,
    blksize: u64,
    blocks: u64,
    times: [(i64, i64); 3],
    mode: u32,
    nlink: u64,
    uid: u32,
    gid: u32,
    rdev: u64,
) -> (r: Option<Metadata>)
    ensures
        spec_host_type(mode) is None <==> r is None,
        r matches Some(m) ==> m == (Metadata {
            dev: dev as usize,
            inode: ino as usize,
            size: size as usize,
            blk_size: blksize as usize,
            blocks: blocks as usize,
            atime: Timespec { sec: times[0].0, nsec: times[0].1 as i32 },
            mtime: Timespec { sec: times[1].0, nsec: times[1].1 as i32 },
            ctime: Timespec { sec: times[2].0, nsec: times[2].1 as i32 },
            type_: spec_host_type(mode)->0,
            mode: (mode as u16) & 0o777u16,
            nlinks: nlink as usize,
            uid: uid as usize,
            gid: gid as usize,
            rdev: rdev as usize,
        }),
{
    let t = mode & 0xf000u32;
    let type_ = if t == 0o020000u32 {
        FileType::CharDevice
    } else if t == 0o060000u32 {
        FileType::BlockDevice
    } else if t == 0o040000u32 {
        FileType::Dir
    } else if t == 0o100000u32 {
        FileType::File
    } else if t == 0o120000u32 {
        FileType::SymLink
    } else if t == 0o140000u32 {
        FileType::Socket
    } else {
        return None;
    };
    Some(Metadata {
        dev: dev as usize,
        inode: ino as usize,
        size: size as usize,
        blk_size: blksize as usize,
        blocks: blocks as usize,
        atime: Timespec { sec: times[0].0, nsec: times[0].1 as i32 },
        mtime: Timespec { sec: times[1].0, nsec: times[1].1 as i32 },
        ctime: Timespec { sec: times[2].0, nsec: times[2].1 as i32 },
        type_,
        mode: (mode as u16) & 0o777u16,
        nlinks: nlink as usize,
        uid: uid as usize,
        gid: gid as usize,
        rdev: rdev as usize,
    })
}

#[derive(Copy, Clone, PartialEq, Eq, Structural, Debug, Hash)]
pub struct Timespec {
    pub sec: i64,
    pub nsec: i32,
}

#[derive(Debug, Eq, PartialEq, Structural, Copy, Clone)]
pub enum FileType {
    File,
    Dir,
    SymLink,
    CharDevice,
    BlockDevice,
    NamedPipe,
    Socket,
}

/// Metadata of FileSystem
///
/// Ref: [http://pubs.opengroup.org/onlinepubs/9699919799/]
#[derive(Debug, PartialEq, Eq, Structural, Copy, Clone)]
pub struct FsInfo {
    /// File system block size
    pub bsize: usize,
    /// Fundamental file system block size
    pub frsize: usize,
    /// Total number of blocks on file system in units of `frsize`
    pub blocks: usize,
    /// Total number of free blocks
    pub bfree: usize,
    /// Number of free blocks available to non-privileged process
    pub bavail: usize,
    /// Total number of file serial numbers
    pub files: usize,
    /// Total number of free file serial numbers
    pub ffree: usize,
    /// Maximum filename length
    pub namemax: usize,
}

// Note: IOError/NoMemory always lead to a panic since it's hard to recover from it.
//       We also panic when we can not parse the fs on disk normally
#[derive(Debug, PartialEq, Eq, Structural, Copy, Clone)]
pub enum FsError {
    NotSupported,  //E_UNIMP, or E_INVAL
    NotFile,  //E_ISDIR
    IsDir,  //E_ISDIR, used only in link
    NotDir,  //E_NOTDIR
    EntryNotFound,  //E_NOENT
    EntryExist,  //E_EXIST
    NotSameFs,  //E_XDEV
    InvalidParam,  //E_INVAL
    NoDeviceSpace,  //E_NOSPC
    DirRemoved,  //E_NOENT, when the current dir was remove by a previous unlink
    DirNotEmpty,  //E_NOTEMPTY
    WrongFs,  //E_INVAL, when we find the content on disk is wrong when opening the device
    DeviceError,
}

pub type Result<T> = core::result::Result<T, FsError>;

} // verus!
