//! Builds bootable raw disk images: a memory-backed sector store, an
//! MBR-style partition table, and a FAT32 formatter and writer.

pub mod bytes;
pub mod disk;
pub mod partition;
pub mod fat;
pub mod name;
pub mod writer;
pub mod size;
pub mod image;
