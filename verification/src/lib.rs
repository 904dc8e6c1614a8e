//! Building blocks for writing XDVDFS (Xbox DVD filesystem) images:
//! sector arithmetic, the AVL-ordered directory entry tables, paths,
//! an in-memory source filesystem and a sector-linear block device.
use vstd::prelude::*;

pub mod avl;
pub mod blockdev;
pub mod dirtab;
pub mod error;
pub mod fs;
pub mod img;
pub mod inode;
pub mod layout;
pub mod overlay_scan;
pub mod linear_image;
pub mod path;
pub mod progress_info;
pub mod sector;
pub mod sector_linear;
pub mod xbepatch;

verus! {

} // verus!
