//! Virtual and physical addresses, as the processor defines them. Addresses are plain 64-bit
//! numbers here; what is computed on them, the `x86_64` crate computes.

use vstd::prelude::*;
use x86_64::structures::paging::page::AddressNotAligned;
use x86_64::structures::paging::{Page, PhysFrame, Size4KiB};
use x86_64::{PhysAddr, VirtAddr};

use crate::PAGE_SIZE;

verus! {

/// The error of `x86_64` for an address that is not the start of a page.
#[verifier::external_type_specification]
#[verifier::external_body]
pub struct ExAddressNotAligned(x86_64::structures::paging::page::AddressNotAligned);

/// Whether `addr` is a virtual address: bits 48 to 63 are copies of bit 47.
pub open spec fn canonical(addr: int) -> bool {
    ||| 0 <= addr < 0x8000_0000_0000
    ||| 0xFFFF_8000_0000_0000 <= addr <= u64::MAX
}

/// Whether `addr` is a physical address: bits 52 to 63 are zero.
pub open spec fn physical(addr: int) -> bool {
    0 <= addr < 0x10_0000_0000_0000
}

/// The start of the page that holds `addr`.
pub open spec fn page_base(addr: int) -> int {
    addr - addr % (PAGE_SIZE as int)
}

/// Checks that `addr` is a virtual address.
///
/// Calls `x86_64::VirtAddr::new`, which panics if it is not. The claim is that the address comes
/// back as it was.
#[verifier::external_body]
pub(crate) fn virt_new(addr: u64) -> (same: u64)
    requires
        canonical(addr as int),
    ensures
        same == addr,
{
    VirtAddr::new(addr).as_u64()
}

/// Adds an offset to a virtual address.
///
/// Calls the `Add<u64>` of `x86_64::VirtAddr`, which panics unless the sum is a virtual address.
/// The claim is that the result is the sum.
#[verifier::external_body]
pub(crate) fn virt_add(addr: u64, offset: u64) -> (sum: u64)
    requires
        canonical(addr as int),
        canonical(addr + offset),
    ensures
        sum == addr + offset,
{
    (VirtAddr::new(addr) + offset).as_u64()
}

/// Subtracts an offset from a virtual address.
///
/// Calls the `Sub<u64>` of `x86_64::VirtAddr`, which panics unless the difference is a virtual
/// address. The claim is that the result is the difference.
#[verifier::external_body]
pub(crate) fn virt_sub(addr: u64, offset: u64) -> (difference: u64)
    requires
        canonical(addr as int),
        canonical(addr - offset),
    ensures
        difference == addr - offset,
{
    (VirtAddr::new(addr) - offset).as_u64()
}

/// Adds an offset to a physical address.
///
/// Calls the `Add<u64>` of `x86_64::PhysAddr`, which panics unless the sum is a physical
/// address. The claim is that the result is the sum.
#[verifier::external_body]
pub(crate) fn phys_add(addr: u64, offset: u64) -> (sum: u64)
    requires
        physical(addr as int),
        physical(addr + offset),
    ensures
        sum == addr + offset,
{
    (PhysAddr::new(addr) + offset).as_u64()
}

/// Subtracts an offset from a physical address.
///
/// Calls the `Sub<u64>` of `x86_64::PhysAddr`, which panics unless the difference is a physical
/// address. The claim is that the result is the difference.
#[verifier::external_body]
pub(crate) fn phys_sub(addr: u64, offset: u64) -> (difference: u64)
    requires
        physical(addr as int),
        physical(addr - offset),
    ensures
        difference == addr - offset,
{
    (PhysAddr::new(addr) - offset).as_u64()
}

/// Checks that `addr` is a physical address.
///
/// Calls `x86_64::PhysAddr::new`, which panics if it is not. The claim is that the address comes
/// back as it was.
#[verifier::external_body]
pub(crate) fn phys_new(addr: u64) -> (same: u64)
    requires
        physical(addr as int),
    ensures
        same == addr,
{
    PhysAddr::new(addr).as_u64()
}

/// The start of the page that starts at a virtual address.
///
/// Calls `x86_64::structures::paging::Page::<Size4KiB>::from_start_address`. The claim is that
/// it refuses exactly the addresses that are not aligned to a page, and gives back the others.
#[verifier::external_body]
pub(crate) fn page_from_start_address(addr: u64) -> (page: Result<u64, AddressNotAligned>)
    requires
        canonical(addr as int),
    ensures
        page is Ok <==> addr % PAGE_SIZE == 0,
        page is Ok ==> page->Ok_0 == addr,
{
    Page::<Size4KiB>::from_start_address(VirtAddr::new(addr)).map(|p| p.start_address().as_u64())
}

/// The start of the page that holds a virtual address.
///
/// Calls `x86_64::structures::paging::Page::<Size4KiB>::containing_address`. The claim is that
/// the result is the address, rounded down to a page.
#[verifier::external_body]
pub(crate) fn page_containing_address(addr: u64) -> (page: u64)
    requires
        canonical(addr as int),
    ensures
        page == page_base(addr as int),
{
    Page::<Size4KiB>::containing_address(VirtAddr::new(addr)).start_address().as_u64()
}

/// The start of the frame that starts at a physical address.
///
/// Calls `x86_64::structures::paging::PhysFrame::<Size4KiB>::from_start_address`. The claim is
/// that it refuses exactly the addresses that are not aligned to a page, and gives back the
/// others.
#[verifier::external_body]
pub(crate) fn frame_from_start_address(addr: u64) -> (frame: Result<u64, AddressNotAligned>)
    requires
        physical(addr as int),
    ensures
        frame is Ok <==> addr % PAGE_SIZE == 0,
        frame is Ok ==> frame->Ok_0 == addr,
{
    PhysFrame::<Size4KiB>::from_start_address(PhysAddr::new(addr))
        .map(|f| f.start_address().as_u64())
}

/// The start of the frame that holds a physical address.
///
/// Calls `x86_64::structures::paging::PhysFrame::<Size4KiB>::containing_address`. The claim is
/// that the result is the address, rounded down to a page.
#[verifier::external_body]
pub(crate) fn frame_containing_address(addr: u64) -> (frame: u64)
    requires
        physical(addr as int),
    ensures
        frame == page_base(addr as int),
{
    PhysFrame::<Size4KiB>::containing_address(PhysAddr::new(addr)).start_address().as_u64()
}

} // verus!
