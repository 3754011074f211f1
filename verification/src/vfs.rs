//! Common types of the virtual file system interface.

use vstd::prelude::*;

verus! {

/// Information about a file
#[derive(Debug, PartialEq, Eq, Structural)]
pub struct FileInfo {
    /// Inode number
    pub inode: usize,
    /// Size in bytes
    ///
    /// SFS Note: for normal file size is the actuate file size
    /// for directory this is count of dirent.
    pub size: usize,
    /// Size in blocks
    pub blocks: usize,
    /// Time of last access
    pub atime: Timespec,
    /// Time of last modification
    pub mtime: Timespec,
    /// Time of last change
    pub ctime: Timespec,
    /// Type of file
    pub type_: FileType,
    /// Permission
    pub mode: u16,
    /// Number of hard links
    ///
    /// SFS Note: different from linux, "." and ".." count in nlinks
    /// so an empty directory has two links.
    pub nlinks: usize,
    /// User id
    pub uid: usize,
    /// Group id
    pub gid: usize,
}

#[derive(Copy, Clone, PartialEq, Eq, Structural, Debug, Hash)]
pub struct Timespec {
    pub sec: i64,
    pub nsec: i32,
}

#[derive(Debug, Eq, PartialEq, Structural, Copy, Clone)]
pub enum FileType {
    File,
    Dir,
}

#[derive(Debug, PartialEq, Eq, Structural)]
pub struct FsInfo {
    pub max_file_size: usize,
}

// Note: IOError/NoMemory always lead to a panic since it's hard to recover from it.
//       We also panic when we can not parse the fs on disk normally
#[derive(Debug, PartialEq, Eq, Structural, Copy, Clone)]
pub enum FsError {
    NotSupported,  //E_UNIMP, or E_INVAL
    NotFile,  //E_ISDIR
    IsDir,  //E_ISDIR, used only in link
    NotDir,  //E_NOTDIR
    EntryNotFound,  //E_NOENT
    EntryExist,  //E_EXIST
    NotSameFs,  //E_XDEV
    InvalidParam,  //E_INVAL
    NoDeviceSpace,  //E_NOSPC
    DirRemoved,  //E_NOENT, when the current dir was remove by a previous unlink
    DirNotEmpty,  //E_NOTEMPTY
    WrongFs,  //E_INVAL, when we find the content on disk is wrong when opening the device
    DeviceError,  //a read or write of the device failed
}

pub type Result<T> = core::result::Result<T, FsError>;

impl FileType {
    /// The VFS type of an on-disk file type; only files and directories have one.
    pub fn from_disk(t: crate::structs::FileType) -> (r: FileType)
        requires
            t == crate::structs::FileType::File || t == crate::structs::FileType::Dir,
        ensures
            t == crate::structs::FileType::File ==> r == FileType::File,
            t == crate::structs::FileType::Dir ==> r == FileType::Dir,
    {
        match t {
            crate::structs::FileType::File => FileType::File,
            _ => FileType::Dir,
        }
    }
}

} // verus!
