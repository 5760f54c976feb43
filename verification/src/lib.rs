//! Reading and writing of MCRegion (`.mca`) files, the free-sector bookkeeping
//! that the writer relies on, and the small pieces of editor logic that do not
//! depend on a user interface.
use vstd::prelude::*;

mod private;

pub mod allocator;
pub mod codec;
pub mod coords;
pub mod document;
pub mod entries;
pub mod i18n;
pub mod mcregion;
pub mod reader;
pub mod sector_buffer;
pub mod tabs;
pub mod writer;

verus! {

} // verus!
