# rcore_fs

File systems of the rCore kernel, written in Verus: the code runs as Rust,
and its contracts are proved.

- `src/sfs.rs`: the Simple File System on a `Device` (`src/device.rs`), with
  its on-disk layout in `src/structs.rs`, its free map in `src/bitset.rs` and
  the split of byte ranges into blocks in `src/block_range.rs`.
- `src/sefs.rs`: the Simple Encrypted File System, which keeps each inode's
  bytes in a file of a `Storage` (`src/sefs_dev.rs`) and its metadata in one
  more file; layout in `src/sefs_structs.rs`, free map in `src/bitvec_map.rs`.
- `src/ramfs.rs`: a file system held in memory.
- `src/block_cache.rs`: a cache of blocks in front of a `BlockDevice`.
- `src/unionfs.rs`: paths, whiteouts and merged entries of the union file
  system; `src/devfs.rs`: the null device and a directory of named devices.
- `src/vfs.rs`, `src/rcore_vfs.rs`: the types of the two file system
  interfaces; `src/dirty.rs`, `src/codec.rs`: helpers.

Inodes are named by their numbers: each file system keeps the inodes it has
loaded in memory, and its operations take the number of the inode they act on.

`app/` is a command line tool that packs a host directory into an SFS image
and unpacks an image into a directory. `tests/` runs the library on concrete
values.
