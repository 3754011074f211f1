pub mod codec;
pub mod dirty;
pub mod structs;
pub mod block_range;
pub mod bitset;
pub mod vfs;
pub mod device;
pub mod sfs;
pub mod rcore_vfs;
pub mod ramfs;
pub mod bitvec_map;
pub mod sefs_dev;
pub mod sefs_structs;
pub mod sefs;
pub mod unionfs;
pub mod devfs;
pub mod block_cache;
