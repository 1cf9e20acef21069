//! Mappings of pages of virtual memory to frames of physical memory.

use vstd::prelude::*;

use crate::addr::{
    canonical, frame_from_start_address, page_from_start_address, phys_add, physical, virt_add,
};
use crate::PAGE_SIZE;

verus! {

/// How a page can be used.
#[derive(Debug, Clone, Copy, PartialEq, Eq, Structural)]
pub struct MappingFlags {
    /// The page can be read.
    pub present: bool,
    /// The page can be written.
    pub writable: bool,
    /// The mapping is the same in every address space.
    pub global: bool,
    /// The page holds no code.
    pub no_execute: bool,
}

/// The mapping of a page to a frame.
#[derive(Debug, Clone, Copy, PartialEq, Eq, Structural)]
pub struct Mapping {
    /// The virtual address of the page.
    pub page: u64,
    /// The physical address of the frame.
    pub frame: u64,
    /// How the page can be used.
    pub flags: MappingFlags,
}

/// Mappings of consecutive pages to consecutive frames.
#[derive(Debug, Clone, Copy, PartialEq, Eq, Structural)]
pub struct MappingRange {
    /// The virtual address of the first page.
    pub virt_start: u64,
    /// The physical address of the first frame.
    pub phys_start: u64,
    /// The number of pages.
    pub count: u64,
    /// How the pages can be used.
    pub flags: MappingFlags,
}

impl MappingRange {
    /// The virtual address of a page.
    pub open spec fn page(self, i: int) -> int {
        self.virt_start + i * PAGE_SIZE
    }

    /// The physical address of a frame.
    pub open spec fn frame(self, i: int) -> int {
        self.phys_start + i * PAGE_SIZE
    }

    /// Whether all of the pages and all of the frames exist.
    pub open spec fn wf(self) -> bool {
        forall|i: int|
            0 <= i < self.count ==> {
                &&& canonical(#[trigger] self.page(i))
                &&& physical(self.frame(i))
                &&& self.page(i) % (PAGE_SIZE as int) == 0
                &&& self.frame(i) % (PAGE_SIZE as int) == 0
            }
    }

    /// Whether `addr` is the address of a byte in one of the pages.
    pub open spec fn covers(self, addr: int) -> bool {
        exists|i: int|
            0 <= i < self.count && #[trigger] self.page(i) <= addr < self.page(i) + PAGE_SIZE
    }

    /// Whether the byte at the virtual address `virt` is the one at the physical address `phys`.
    pub open spec fn translates(self, virt: int, phys: int) -> bool {
        exists|i: int|
            0 <= i < self.count && #[trigger] self.page(i) <= virt < self.page(i) + PAGE_SIZE
                && phys - self.frame(i) == virt - self.page(i)
    }

    /// The mapping of one of the pages.
    pub fn get(&self, i: u64) -> (mapping: Mapping)
        requires
            self.wf(),
            i < self.count,
        ensures
            mapping.page == self.page(i as int),
            mapping.frame == self.frame(i as int),
            mapping.flags == self.flags,
    {
        assert(canonical(self.page(0)));
        assert(canonical(self.page(i as int)));
        let page: u64 = page_from_start_address(virt_add(self.virt_start, i * PAGE_SIZE)).unwrap();
        let frame: u64 = frame_from_start_address(
            phys_add(self.phys_start, i * PAGE_SIZE),
        ).unwrap();
        Mapping { page, frame, flags: self.flags }
    }
}

} // verus!
