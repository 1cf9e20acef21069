//! Provides an abstraction over memory maps: what the firmware says of physical memory.

use vstd::prelude::*;

verus! {

/// What a region of physical memory is used for.
#[derive(Debug, Clone, Copy, PartialEq, Eq, Structural)]
pub enum MemoryType {
    /// Not usable.
    Reserved,
    /// Code of the loader.
    LoaderCode,
    /// Data of the loader.
    LoaderData,
    /// Code of the firmware's boot services.
    BootServicesCode,
    /// Data of the firmware's boot services.
    BootServicesData,
    /// Code of the firmware's runtime services.
    RuntimeServicesCode,
    /// Data of the firmware's runtime services.
    RuntimeServicesData,
    /// Free memory.
    Conventional,
    /// Memory in which errors were detected.
    Unusable,
    /// ACPI tables, which can be reclaimed once they were read.
    AcpiReclaim,
    /// Memory that the firmware keeps across sleep states.
    AcpiNonVolatile,
    /// Memory-mapped I/O.
    Mmio,
    /// Memory-mapped I/O that is translated to I/O ports.
    MmioPortSpace,
    /// Processor code of the firmware.
    PalCode,
    /// Memory that is usable and also persistent.
    PersistentMemory,
    /// A type that is defined by a vendor or by the loader.
    Custom(u32),
}

/// The size of the pages in which a memory map counts, in bytes. It is the same on every
/// machine, whatever the kernel's own page size is.
pub const FIRMWARE_PAGE_SIZE: u64 = 4096;

/// A region of physical memory.
#[derive(Debug, Clone, Copy, PartialEq, Eq, Structural)]
pub struct MemoryDescriptor {
    /// What the region is used for.
    pub ty: MemoryType,
    /// The physical address at which the region starts.
    pub phys_start: u64,
    /// The virtual address at which the region starts.
    pub virt_start: u64,
    /// The number of pages in the region.
    pub page_count: u64,
    /// The attributes of the region, as a bit mask.
    pub att: u64,
}

impl MemoryDescriptor {
    /// The number of bytes in the region.
    pub open spec fn byte_count(self) -> int {
        self.page_count * FIRMWARE_PAGE_SIZE
    }

    /// The first physical address after the region.
    pub open spec fn phys_end(self) -> int {
        self.phys_start + self.byte_count()
    }
}

/// The regions that a memory map describes.
pub type Descriptors = Seq<MemoryDescriptor>;

/// A memory map.
pub trait MemoryMap {
    /// The descriptors that make up the map.
    spec fn descriptors(&self) -> Descriptors;

    /// The number of descriptors.
    fn entry_count(&self) -> (count: usize)
        ensures
            count == self.descriptors().len(),
    ;

    /// The descriptor at a position.
    fn entry(&self, index: usize) -> (desc: MemoryDescriptor)
        requires
            index < self.descriptors().len(),
        ensures
            desc == self.descriptors()[index as int],
    ;
}

/// A memory map that was put together by hand.
pub struct TestMemoryMap {
    entries: Vec<MemoryDescriptor>,
}

impl TestMemoryMap {
    /// A memory map with the given descriptors.
    pub fn new(entries: Vec<MemoryDescriptor>) -> (map: TestMemoryMap)
        ensures
            map.descriptors() == entries@,
    {
        TestMemoryMap { entries }
    }
}

impl MemoryMap for TestMemoryMap {
    closed spec fn descriptors(&self) -> Descriptors {
        self.entries@
    }

    fn entry_count(&self) -> (count: usize) {
        self.entries.len()
    }

    fn entry(&self, index: usize) -> (desc: MemoryDescriptor) {
        self.entries[index]
    }
}

} // verus!
