//! Memory management for the camOS kernel and the planning half of its loader.

use vstd::prelude::*;

pub mod accept_laws;
pub mod acpi;
pub mod addr;
pub mod bits;
pub mod block_laws;
pub mod dynamic_alloc;
pub mod firmware_laws;
pub mod freelist;
pub mod heap;
pub mod heap_history;
pub mod heap_laws;
pub mod kernel_file;
pub mod layout;
pub mod load_laws;
pub mod loader;
pub mod loader_laws;
pub mod manager_laws;
pub mod mapping;
pub mod memory;
pub mod memory_laws;
pub mod memory_map;
pub mod page_laws;
pub mod phys_alloc;
pub mod spinlock;
pub mod text;
pub mod text_laws;

verus! {

/// The size of a page, in bytes. The kernel only uses the smallest page size.
pub const PAGE_SIZE: u64 = 4096;

} // verus!
