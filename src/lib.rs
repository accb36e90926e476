//! Physical page-frame allocation for a small x86_64 kernel: the bootloader's
//! memory map, the placement of the allocator's bitmap, and the bitmap
//! allocator itself, all with verified contracts.

pub mod boot;
pub mod frame;
pub mod syscall;
