//! A simulated block file system kept on a medium of text records: a
//! superblock, an inode table, chains of linked data blocks and a flat
//! directory, with every operation a step from one storage state to the next.

use vstd::prelude::*;

pub mod action;
pub mod block;
pub mod directory;
pub mod disk;
pub mod file_system;
pub mod inode;
pub mod text;
pub mod utils;

pub use crate::block::{Block, BlockType, SuperBlock};
pub use crate::directory::Directory;
pub use crate::disk::Disk;
pub use crate::file_system::{DiskDiagnostics, FileSystem};
pub use crate::inode::Inode;

verus! {

} // verus!
