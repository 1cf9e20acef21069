//! The tables in which the firmware describes the machine.

use vstd::prelude::*;
use vstd::utf8::{decode_utf8, valid_utf8};

use crate::memory::{bytes_in, bytes_of, number_at, read_u32, read_u8, LinearMemory};

verus! {

/// A string of a fixed length in an ACPI table. For the signature of a table, this represents 4
/// chars, e.g. "ECDT".
#[derive(Debug, Clone, Copy, PartialEq, Eq)]
pub struct AcpiFixedString<const N: usize>(pub [u8; N]);

impl<const N: usize> AcpiFixedString<N> {
    /// The bytes of the string.
    pub open spec fn view(&self) -> Seq<u8> {
        self.0@
    }

    /// The string as text. The bytes have to be UTF-8.
    pub fn fmt(&self) -> (text: String)
        requires
            valid_utf8(self@),
        ensures
            text@ == decode_utf8(self@),
    {
        utf8_text(&self.0).unwrap().to_owned()
    }
}

/// The text that some bytes are the UTF-8 of.
///
/// Calls `core::str::from_utf8`. The claim is that it refuses exactly the bytes that are not
/// UTF-8, and decodes the others.
#[verifier::external_body]
fn utf8_text(bytes: &[u8]) -> (text: Option<&str>)
    ensures
        text is Some <==> valid_utf8(bytes@),
        text matches Some(t) ==> t@ == decode_utf8(bytes@),
{
    core::str::from_utf8(bytes).ok()
}

/// The root system descriptor pointer.
#[derive(Debug, Clone, Copy, PartialEq, Eq)]
pub struct AcpiRsdp {
    pub signature: AcpiFixedString<8>,
    pub checksum: u8,
    pub oem_id: AcpiFixedString<6>,
    pub revision: u8,
    pub rsdt_address: u32,
}

/// What each table starts with.
#[derive(Debug, Clone, Copy, PartialEq, Eq)]
pub struct AcpiTableHeader {
    pub signature: AcpiFixedString<4>,
    pub length: u32,
    pub revision: u8,
    pub checksum: u8,
    pub oem_id: AcpiFixedString<6>,
    pub oem_table_id: AcpiFixedString<8>,
    pub oem_revision: u32,
    pub creator_id: [u8; 4],
    pub creator_revision: [u8; 4],
}

/// The number of bytes in a root system descriptor pointer.
pub const RSDP_SIZE: u64 = 20;

/// The number of bytes in the header of a table.
pub const HEADER_SIZE: u64 = 36;

/// Reads four bytes.
fn read_4<M: LinearMemory>(mem: &M, addr: u64) -> (bytes: [u8; 4])
    requires
        mem.base() % 8 == 0,
        bytes_in(mem, addr as int, 4),
        addr + 4 <= u64::MAX,
    ensures
        bytes@ == bytes_of(mem.words()).subrange(addr - mem.base(), addr - mem.base() + 4),
{
    let bytes: [u8; 4] = [
        read_u8(mem, addr),
        read_u8(mem, addr + 1),
        read_u8(mem, addr + 2),
        read_u8(mem, addr + 3),
    ];
    assert(bytes@ =~= bytes_of(mem.words()).subrange(addr - mem.base(), addr - mem.base() + 4));
    bytes
}

/// Reads six bytes.
fn read_6<M: LinearMemory>(mem: &M, addr: u64) -> (bytes: [u8; 6])
    requires
        mem.base() % 8 == 0,
        bytes_in(mem, addr as int, 6),
        addr + 6 <= u64::MAX,
    ensures
        bytes@ == bytes_of(mem.words()).subrange(addr - mem.base(), addr - mem.base() + 6),
{
    let bytes: [u8; 6] = [
        read_u8(mem, addr),
        read_u8(mem, addr + 1),
        read_u8(mem, addr + 2),
        read_u8(mem, addr + 3),
        read_u8(mem, addr + 4),
        read_u8(mem, addr + 5),
    ];
    assert(bytes@ =~= bytes_of(mem.words()).subrange(addr - mem.base(), addr - mem.base() + 6));
    bytes
}

/// Reads eight bytes.
fn read_8<M: LinearMemory>(mem: &M, addr: u64) -> (bytes: [u8; 8])
    requires
        mem.base() % 8 == 0,
        bytes_in(mem, addr as int, 8),
        addr + 8 <= u64::MAX,
    ensures
        bytes@ == bytes_of(mem.words()).subrange(addr - mem.base(), addr - mem.base() + 8),
{
    let bytes: [u8; 8] = [
        read_u8(mem, addr),
        read_u8(mem, addr + 1),
        read_u8(mem, addr + 2),
        read_u8(mem, addr + 3),
        read_u8(mem, addr + 4),
        read_u8(mem, addr + 5),
        read_u8(mem, addr + 6),
        read_u8(mem, addr + 7),
    ];
    assert(bytes@ =~= bytes_of(mem.words()).subrange(addr - mem.base(), addr - mem.base() + 8));
    bytes
}

impl AcpiTableHeader {
    /// Whether this is the header at position `i` of `bytes`.
    pub open spec fn lies_at(&self, bytes: Seq<u8>, i: int) -> bool {
        &&& self.signature@ == bytes.subrange(i, i + 4)
        &&& self.length == number_at(bytes, i + 4)
        &&& self.revision == bytes[i + 8]
        &&& self.checksum == bytes[i + 9]
        &&& self.oem_id@ == bytes.subrange(i + 10, i + 16)
        &&& self.oem_table_id@ == bytes.subrange(i + 16, i + 24)
        &&& self.oem_revision == number_at(bytes, i + 24)
        &&& self.creator_id@ == bytes.subrange(i + 28, i + 32)
        &&& self.creator_revision@ == bytes.subrange(i + 32, i + 36)
    }

    /// Reads the header of the table at a virtual address.
    pub fn read<M: LinearMemory>(mem: &M, addr: u64) -> (header: AcpiTableHeader)
        requires
            mem.base() % 8 == 0,
            bytes_in(mem, addr as int, HEADER_SIZE as int),
            addr + HEADER_SIZE <= u64::MAX,
        ensures
            header.lies_at(bytes_of(mem.words()), addr - mem.base()),
    {
        AcpiTableHeader {
            signature: AcpiFixedString(read_4(mem, addr)),
            length: read_u32(mem, addr + 4),
            revision: read_u8(mem, addr + 8),
            checksum: read_u8(mem, addr + 9),
            oem_id: AcpiFixedString(read_6(mem, addr + 10)),
            oem_table_id: AcpiFixedString(read_8(mem, addr + 16)),
            oem_revision: read_u32(mem, addr + 24),
            creator_id: read_4(mem, addr + 28),
            creator_revision: read_4(mem, addr + 32),
        }
    }
}

/// A root system descriptor table
#[derive(Debug, Clone, Copy, PartialEq, Eq)]
pub struct AcpiRsdt {
    /// The virtual address of the table.
    pub address: u64,
    pub header: AcpiTableHeader,
    // Dynamic number of entries
}

/// A table.
#[derive(Debug, Clone, Copy, PartialEq, Eq)]
pub enum AcpiTable {
    Rsdt(AcpiRsdt),
    /// The virtual address of the table, and its header.
    Unknown(u64, AcpiTableHeader),
}

impl AcpiTable {
    /// The table at a virtual address, with a given header: what it is goes by the signature.
    pub open spec fn parsed(address: u64, header: AcpiTableHeader) -> AcpiTable {
        if header.signature@ == seq!['R' as u8, 'S' as u8, 'D' as u8, 'T' as u8] {
            AcpiTable::Rsdt(AcpiRsdt { address, header })
        } else {
            AcpiTable::Unknown(address, header)
        }
    }

    /// Whether `table` is the table at a virtual address.
    pub open spec fn lies_at<M: LinearMemory>(mem: &M, addr: int, table: AcpiTable) -> bool {
        exists|header: AcpiTableHeader|
            {
                &&& #[trigger] header.lies_at(bytes_of(mem.words()), addr - mem.base())
                &&& table == AcpiTable::parsed(addr as u64, header)
            }
    }

    /// "Parses" an ACPI table, by looking at the signature.
    pub fn parse(address: u64, table: AcpiTableHeader) -> (parsed: AcpiTable)
        ensures
            parsed == AcpiTable::parsed(address, table),
    {
        let s = table.signature.0;
        proof {
            let rsdt = seq!['R' as u8, 'S' as u8, 'D' as u8, 'T' as u8];
            assert(s@ == rsdt <==> s@[0] == 'R' as u8 && s@[1] == 'S' as u8 && s@[2] == 'D' as u8
                && s@[3] == 'T' as u8) by {
                if s@[0] == 'R' as u8 && s@[1] == 'S' as u8 && s@[2] == 'D' as u8 && s@[3]
                    == 'T' as u8 {
                    assert(s@ =~= rsdt);
                }
            }
        }
        if s[0] == 0x52 && s[1] == 0x53 && s[2] == 0x44 && s[3] == 0x54 {
            AcpiTable::Rsdt(AcpiRsdt { address, header: table })
        } else {
            AcpiTable::Unknown(address, table)
        }
    }
}

impl AcpiRsdt {
    /// The number of entries.
    pub open spec fn entry_count(&self) -> int {
        (self.header.length - HEADER_SIZE) / 4
    }

    /// Whether the table lies in `mem`, as far as its length says.
    pub open spec fn lies_in<M: LinearMemory>(&self, mem: &M) -> bool {
        &&& mem.base() % 8 == 0
        &&& self.header.length >= HEADER_SIZE
        &&& bytes_in(mem, self.address as int, self.header.length as int)
        &&& self.address + self.header.length <= u64::MAX
    }

    /// The address in an entry.
    pub open spec fn entry_addr<M: LinearMemory>(&self, mem: &M, i: int) -> int {
        number_at(bytes_of(mem.words()), self.address - mem.base() + HEADER_SIZE + 4 * i)
    }

    /// The 32-bit physical addresses that point to other DESCRIPTION_HEADERs.
    pub fn entry_addrs<M: LinearMemory>(&self, mem: &M) -> (addrs: Vec<u32>)
        requires
            self.lies_in(mem),
        ensures
            addrs@.len() == self.entry_count(),
            forall|i: int|
                0 <= i < addrs@.len() ==> #[trigger] addrs@[i] == self.entry_addr(mem, i),
    {
        let n: u64 = (self.header.length as u64 - HEADER_SIZE) / 4;
        let mut addrs: Vec<u32> = Vec::new();
        let mut i: u64 = 0;
        while i < n
            invariant
                self.lies_in(mem),
                n == self.entry_count(),
                i <= n,
                addrs@.len() == i,
                forall|k: int| 0 <= k < i ==> #[trigger] addrs@[k] == self.entry_addr(mem, k),
            decreases n - i,
        {
            let addr: u32 = read_u32(mem, self.address + HEADER_SIZE + 4 * i);
            addrs.push(addr);
            i = i + 1;
        }
        addrs
    }

    /// The tables that the entries point to.
    pub fn entries<M: LinearMemory>(&self, mem: &M) -> (tables: Vec<AcpiTable>)
        requires
            self.lies_in(mem),
            forall|i: int|
                0 <= i < self.entry_count() ==> bytes_in(
                    mem,
                    #[trigger] self.entry_addr(mem, i),
                    HEADER_SIZE as int,
                ),
        ensures
            tables@.len() == self.entry_count(),
            forall|i: int|
                0 <= i < tables@.len() ==> AcpiTable::lies_at(
                    mem,
                    self.entry_addr(mem, i),
                    #[trigger] tables@[i],
                ),
    {
        let addrs = self.entry_addrs(mem);
        let mut tables: Vec<AcpiTable> = Vec::new();
        let mut i: usize = 0;
        while i < addrs.len()
            invariant
                self.lies_in(mem),
                addrs@.len() == self.entry_count(),
                forall|k: int|
                    0 <= k < addrs@.len() ==> #[trigger] addrs@[k] == self.entry_addr(mem, k),
                forall|k: int|
                    0 <= k < self.entry_count() ==> bytes_in(
                        mem,
                        #[trigger] self.entry_addr(mem, k),
                        HEADER_SIZE as int,
                    ),
                i <= addrs@.len(),
                tables@.len() == i,
                forall|k: int|
                    0 <= k < tables@.len() ==> AcpiTable::lies_at(
                        mem,
                        self.entry_addr(mem, k),
                        #[trigger] tables@[k],
                    ),
            decreases addrs.len() - i,
        {
            let addr: u64 = addrs[i] as u64;
            assert(addr == self.entry_addr(mem, i as int));
            let header = AcpiTableHeader::read(mem, addr);
            let ghost before = tables@;
            tables.push(AcpiTable::parse(addr, header));
            proof {
                assert(forall|k: int| 0 <= k < before.len() ==> tables@[k] == before[k]);
            }
            i = i + 1;
        }
        tables
    }
}

impl AcpiRsdp {
    /// Whether this is the root system descriptor pointer at position `i` of `bytes`.
    pub open spec fn lies_at(&self, bytes: Seq<u8>, i: int) -> bool {
        &&& self.signature@ == bytes.subrange(i, i + 8)
        &&& self.checksum == bytes[i + 8]
        &&& self.oem_id@ == bytes.subrange(i + 9, i + 15)
        &&& self.revision == bytes[i + 15]
        &&& self.rsdt_address == number_at(bytes, i + 16)
    }

    /// Reads the root system descriptor pointer at a virtual address.
    pub fn read<M: LinearMemory>(mem: &M, addr: u64) -> (rsdp: AcpiRsdp)
        requires
            mem.base() % 8 == 0,
            bytes_in(mem, addr as int, RSDP_SIZE as int),
            addr + RSDP_SIZE <= u64::MAX,
        ensures
            rsdp.lies_at(bytes_of(mem.words()), addr - mem.base()),
    {
        AcpiRsdp {
            signature: AcpiFixedString(read_8(mem, addr)),
            checksum: read_u8(mem, addr + 8),
            oem_id: AcpiFixedString(read_6(mem, addr + 9)),
            revision: read_u8(mem, addr + 15),
            rsdt_address: read_u32(mem, addr + 16),
        }
    }

    /// The root system descriptor table.
    pub fn rsdt<M: LinearMemory>(&self, mem: &M) -> (rsdt: AcpiRsdt)
        requires
            mem.base() % 8 == 0,
            bytes_in(mem, self.rsdt_address as int, HEADER_SIZE as int),
        ensures
            rsdt.address == self.rsdt_address,
            rsdt.header.lies_at(bytes_of(mem.words()), self.rsdt_address - mem.base()),
    {
        let address: u64 = self.rsdt_address as u64;
        AcpiRsdt { address, header: AcpiTableHeader::read(mem, address) }
    }
}

/// An entry in the firmware's table of tables.
#[derive(Debug, Clone, Copy, PartialEq, Eq)]
pub struct ConfigTableEntry {
    /// What the table is.
    pub guid: [u8; 16],
    /// Where the table is.
    pub address: u64,
}

/// The identifier of the root system descriptor pointer.
pub open spec fn acpi2_guid() -> Seq<u8> {
    seq![
        0x71u8, 0xE8u8, 0x68u8, 0x88u8, 0xF1u8, 0xE4u8, 0xD3u8, 0x11u8, 0xBCu8, 0x22u8, 0x00u8,
        0x80u8, 0xC7u8, 0x3Cu8, 0x88u8, 0x81u8,
    ]
}

/// The identifier of the root system descriptor pointer.
///
/// Calls `uefi::Guid::to_bytes` on `uefi::table::cfg::ACPI2_GUID`. The claim is what the bytes
/// of that identifier are.
#[verifier::external_body]
fn acpi2_guid_bytes() -> (guid: [u8; 16])
    ensures
        guid@ == acpi2_guid(),
{
    uefi::table::cfg::ACPI2_GUID.to_bytes()
}

/// Whether two identifiers are the same.
fn same_guid(a: &[u8; 16], b: &[u8; 16]) -> (r: bool)
    ensures
        r == (a@ == b@),
{
    let mut i: usize = 0;
    while i < 16
        invariant
            i <= 16,
            forall|k: int| 0 <= k < i ==> a@[k] == b@[k],
        decreases 16 - i,
    {
        if a[i] != b[i] {
            return false;
        }
        i = i + 1;
    }
    assert(a@ =~= b@);
    true
}

/// Whether one of the entries has the identifier of the root system descriptor pointer.
pub open spec fn has_rsdp(entries: Seq<ConfigTableEntry>) -> bool {
    exists|i: int| 0 <= i < entries.len() && (#[trigger] entries[i]).guid@ == acpi2_guid()
}

/// Finds the root system descriptor pointer: it is where the first entry with its identifier
/// says.
pub fn find_rsdp<M: LinearMemory>(entries: &[ConfigTableEntry], mem: &M) -> (rsdp: Option<AcpiRsdp>)
    requires
        mem.base() % 8 == 0,
        forall|i: int|
            0 <= i < entries@.len() && (#[trigger] entries@[i]).guid@ == acpi2_guid() ==> {
                &&& bytes_in(mem, entries@[i].address as int, RSDP_SIZE as int)
                &&& entries@[i].address + RSDP_SIZE <= u64::MAX
            },
    ensures
        rsdp is None <==> forall|i: int|
            0 <= i < entries@.len() ==> (#[trigger] entries@[i]).guid@ != acpi2_guid(),
        rsdp is Some ==> has_rsdp(entries@),
        rsdp is None ==> !has_rsdp(entries@),
        rsdp matches Some(r) ==> exists|i: int|
            {
                &&& 0 <= i < entries@.len()
                &&& (#[trigger] entries@[i]).guid@ == acpi2_guid()
                &&& r.lies_at(bytes_of(mem.words()), entries@[i].address - mem.base())
                &&& forall|k: int| 0 <= k < i ==> (#[trigger] entries@[k]).guid@ != acpi2_guid()
            },
{
    let guid = acpi2_guid_bytes();
    let mut i: usize = 0;
    while i < entries.len()
        invariant
            mem.base() % 8 == 0,
            forall|k: int|
                0 <= k < entries@.len() && (#[trigger] entries@[k]).guid@ == acpi2_guid() ==> {
                    &&& bytes_in(mem, entries@[k].address as int, RSDP_SIZE as int)
                    &&& entries@[k].address + RSDP_SIZE <= u64::MAX
                },
            guid@ == acpi2_guid(),
            i <= entries@.len(),
            forall|k: int| 0 <= k < i ==> (#[trigger] entries@[k]).guid@ != acpi2_guid(),
        decreases entries.len() - i,
    {
        if same_guid(&entries[i].guid, &guid) {
            return Some(AcpiRsdp::read(mem, entries[i].address));
        }
        i = i + 1;
    }
    None
}

} // verus!
