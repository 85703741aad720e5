//! The file-system interface.

use vstd::prelude::*;

verus! {

/// A file system the kernel can mount.
pub trait FileSystem {
}

/// The virtual file system.
pub struct Vfs {}

impl Vfs {
    pub fn new() -> (r: Self) {
        Vfs {}
    }
}

} // verus!
