//! A small file system inside one flat byte buffer: a superblock, two bitmaps, an inode
//! table of fixed records, and objects (directories and files) stored in direct blocks.
//! Every operation keeps the layout invariant `System::wf`, under which no data block is
//! shared between objects.
pub mod bytes;
pub mod dir;
pub mod error;
pub mod file;
pub mod fs;
pub mod hardware;
pub mod inode;
pub mod ops;
pub mod store;
pub mod tree;
