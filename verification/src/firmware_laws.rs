//! What the tables of the firmware are read as, in terms of the bytes of memory.

use vstd::prelude::*;
use vstd::utf8::{decode_utf8_encode_utf8, encode_utf8, valid_utf8};

use crate::acpi::{
    acpi2_guid, find_rsdp, has_rsdp, AcpiFixedString, AcpiRsdp, AcpiRsdt, AcpiTable,
    AcpiTableHeader, ConfigTableEntry,
};
use crate::memory::{byte_of, bytes_of, number_at, read_u32, read_u8, LinearMemory, Words};

verus! {

/// The byte at a virtual address, in a window that holds `words` and is mapped at `base`. The
/// first byte of each word is the least significant one.
pub open spec fn byte_at(words: Words, base: u64, addr: int) -> u8 {
    ((words[(addr - base) / 8] >> ((8 * ((addr - base) % 8)) as u64)) & 0xFF) as u8
}

/// The number that four bytes make, where the first one is the least significant one.
pub open spec fn u32_at(words: Words, base: u64, addr: int) -> int {
    byte_at(words, base, addr) + 256 * byte_at(words, base, addr + 1) + 256 * 256 * byte_at(
        words,
        base,
        addr + 2,
    ) + 256 * 256 * 256 * byte_at(words, base, addr + 3)
}

/// Whether `bytes` are the bytes from a virtual address on.
pub open spec fn bytes_at(bytes: Seq<u8>, words: Words, base: u64, addr: int) -> bool {
    forall|k: int| 0 <= k < bytes.len() ==> #[trigger] bytes[k] == byte_at(words, base, addr + k)
}

/// The byte that is read is the one at its address.
pub proof fn law_read_u8<M: LinearMemory>(mem: &M, addr: u64, value: u8)
    requires
        mem.base() <= addr < mem.base() + 8 * mem.words().len(),
        call_ensures(read_u8::<M>, (mem, addr), value),
    ensures
        value == byte_at(mem.words(), mem.base(), addr as int),
{
}

/// The eight bytes that are read of a word make that word, from the least significant one to the
/// most significant one.
pub proof fn law_bytes_make_word<M: LinearMemory>(mem: &M, addr: u64, bytes: Seq<u8>)
    requires
        mem.base() <= addr,
        (addr - mem.base()) % 8 == 0,
        addr + 8 <= mem.base() + 8 * mem.words().len(),
        addr + 7 <= u64::MAX,
        bytes.len() == 8,
        forall|k: int|
            0 <= k < 8 ==> call_ensures(
                read_u8::<M>,
                (mem, (addr + k) as u64),
                #[trigger] bytes[k],
            ),
    ensures
        mem.words()[(addr - mem.base()) / 8] == bytes[0] + 0x100 * bytes[1] + 0x1_0000 * bytes[2]
            + 0x100_0000 * bytes[3] + 0x1_0000_0000 * bytes[4] + 0x100_0000_0000 * bytes[5]
            + 0x1_0000_0000_0000 * bytes[6] + 0x100_0000_0000_0000 * bytes[7],
{
    let w = mem.words()[(addr - mem.base()) / 8];
    assert forall|k: int| 0 <= k < 8 implies #[trigger] bytes[k] == byte_of(w, k) by {
        law_read_u8(mem, (addr + k) as u64, bytes[k]);
    }
    assert(bytes[0] == byte_of(w, 0) && bytes[1] == byte_of(w, 1) && bytes[2] == byte_of(w, 2)
        && bytes[3] == byte_of(w, 3) && bytes[4] == byte_of(w, 4) && bytes[5] == byte_of(w, 5)
        && bytes[6] == byte_of(w, 6) && bytes[7] == byte_of(w, 7));
    lemma_shifts(w);
}

/// The bytes of a word, and what is left of it, in terms of division.
proof fn lemma_shifts(w: u64)
    ensures
        w == byte_of(w, 0) + 0x100 * byte_of(w, 1) + 0x1_0000 * byte_of(w, 2) + 0x100_0000
            * byte_of(w, 3) + 0x1_0000_0000 * byte_of(w, 4) + 0x100_0000_0000 * byte_of(w, 5)
            + 0x1_0000_0000_0000 * byte_of(w, 6) + 0x100_0000_0000_0000 * byte_of(w, 7),
{
    let w1 = (w >> 8u64);
    let w2 = (w >> 16u64);
    let w3 = (w >> 24u64);
    let w4 = (w >> 32u64);
    let w5 = (w >> 40u64);
    let w6 = (w >> 48u64);
    let w7 = (w >> 56u64);
    lemma_low_byte(w);
    lemma_low_byte(w1);
    lemma_low_byte(w2);
    lemma_low_byte(w3);
    lemma_low_byte(w4);
    lemma_low_byte(w5);
    lemma_low_byte(w6);
    lemma_low_byte(w7);
    assert(w >> 8u64 == (w >> 0u64) >> 8u64) by (bit_vector);
    assert(w >> 16u64 == (w >> 8u64) >> 8u64) by (bit_vector);
    assert(w >> 24u64 == (w >> 16u64) >> 8u64) by (bit_vector);
    assert(w >> 32u64 == (w >> 24u64) >> 8u64) by (bit_vector);
    assert(w >> 40u64 == (w >> 32u64) >> 8u64) by (bit_vector);
    assert(w >> 48u64 == (w >> 40u64) >> 8u64) by (bit_vector);
    assert(w >> 56u64 == (w >> 48u64) >> 8u64) by (bit_vector);
    assert(w >> 0u64 == w) by (bit_vector);
    assert(w7 <= 0xFF) by (bit_vector)
        requires
            w7 == w >> 56u64,
    ;
}

/// A word is made of its least significant byte and of what is left.
proof fn lemma_low_byte(w: u64)
    ensures
        w == 0x100 * (w >> 8u64) + (w & 0xFF),
        w & 0xFF <= 0xFF,
{
    assert(w & 0xFF == w % 0x100) by (bit_vector);
    assert(w >> 8u64 == w / 0x100) by (bit_vector);
}

/// The number that is read is made of the four bytes at its address and after it, from the least
/// significant one to the most significant one.
pub proof fn law_read_u32<M: LinearMemory>(
    mem: &M,
    addr: u64,
    value: u32,
    a: u8,
    b: u8,
    c: u8,
    d: u8,
)
    requires
        mem.base() <= addr,
        addr + 4 <= mem.base() + 8 * mem.words().len(),
        addr + 4 <= u64::MAX,
        call_ensures(read_u32::<M>, (mem, addr), value),
        call_ensures(read_u8::<M>, (mem, addr), a),
        call_ensures(read_u8::<M>, (mem, (addr + 1) as u64), b),
        call_ensures(read_u8::<M>, (mem, (addr + 2) as u64), c),
        call_ensures(read_u8::<M>, (mem, (addr + 3) as u64), d),
    ensures
        value == a + 0x100 * b + 0x1_0000 * c + 0x100_0000 * d,
        value == u32_at(mem.words(), mem.base(), addr as int),
{
    lemma_number(mem.words(), mem.base(), addr as int);
    law_read_u8(mem, addr, a);
    law_read_u8(mem, (addr + 1) as u64, b);
    law_read_u8(mem, (addr + 2) as u64, c);
    law_read_u8(mem, (addr + 3) as u64, d);
}

/// Four bytes make the same number, however they are looked up.
pub(crate) proof fn lemma_number(words: Words, base: u64, addr: int)
    requires
        base <= addr,
        addr + 4 <= base + 8 * words.len(),
    ensures
        number_at(bytes_of(words), addr - base) == u32_at(words, base, addr),
{
}

proof fn lemma_bytes(bytes: Seq<u8>, words: Words, base: u64, addr: int, from: int)
    requires
        base <= addr,
        0 <= from,
        addr + from + bytes.len() <= base + 8 * words.len(),
        bytes == bytes_of(words).subrange(
            addr - base + from,
            addr - base + from + bytes.len(),
        ),
    ensures
        bytes_at(bytes, words, base, addr + from),
{
    assert forall|k: int| 0 <= k < bytes.len() implies #[trigger] bytes[k] == byte_at(
        words,
        base,
        addr + from + k,
    ) by {
        assert(bytes[k] == bytes_of(words)[addr - base + from + k]);
    }
}

/// Whether `header` is what the 36 bytes from a virtual address on say.
pub open spec fn header_at(header: AcpiTableHeader, words: Words, base: u64, addr: int) -> bool {
    &&& bytes_at(header.signature.0@, words, base, addr)
    &&& header.length == u32_at(words, base, addr + 4)
    &&& header.revision == byte_at(words, base, addr + 8)
    &&& header.checksum == byte_at(words, base, addr + 9)
    &&& bytes_at(header.oem_id.0@, words, base, addr + 10)
    &&& bytes_at(header.oem_table_id.0@, words, base, addr + 16)
    &&& header.oem_revision == u32_at(words, base, addr + 24)
    &&& bytes_at(header.creator_id@, words, base, addr + 28)
    &&& bytes_at(header.creator_revision@, words, base, addr + 32)
}

proof fn lemma_header(header: AcpiTableHeader, words: Words, base: u64, addr: int)
    requires
        base <= addr,
        addr + 36 <= base + 8 * words.len(),
        header.lies_at(bytes_of(words), addr - base),
    ensures
        header_at(header, words, base, addr),
{
    let i = addr - base;
    lemma_bytes(header.signature.0@, words, base, addr, 0);
    lemma_number(words, base, addr + 4);
    assert(header.revision == bytes_of(words)[i + 8]);
    assert(header.checksum == bytes_of(words)[i + 9]);
    lemma_bytes(header.oem_id.0@, words, base, addr, 10);
    lemma_bytes(header.oem_table_id.0@, words, base, addr, 16);
    lemma_number(words, base, addr + 24);
    lemma_bytes(header.creator_id@, words, base, addr, 28);
    lemma_bytes(header.creator_revision@, words, base, addr, 32);
}

/// Each field of a header is read from its place in the table.
pub proof fn law_read_header<M: LinearMemory>(mem: &M, addr: u64, header: AcpiTableHeader)
    requires
        mem.base() <= addr,
        addr + 36 <= mem.base() + 8 * mem.words().len(),
        call_ensures(AcpiTableHeader::read::<M>, (mem, addr), header),
    ensures
        header_at(header, mem.words(), mem.base(), addr as int),
{
    lemma_header(header, mem.words(), mem.base(), addr as int);
}

/// Whether `rsdp` is what the 20 bytes from a virtual address on say.
pub open spec fn rsdp_at(rsdp: AcpiRsdp, words: Words, base: u64, addr: int) -> bool {
    &&& bytes_at(rsdp.signature.0@, words, base, addr)
    &&& rsdp.checksum == byte_at(words, base, addr + 8)
    &&& bytes_at(rsdp.oem_id.0@, words, base, addr + 9)
    &&& rsdp.revision == byte_at(words, base, addr + 15)
    &&& rsdp.rsdt_address == u32_at(words, base, addr + 16)
}

proof fn lemma_rsdp(rsdp: AcpiRsdp, words: Words, base: u64, addr: int)
    requires
        base <= addr,
        addr + 20 <= base + 8 * words.len(),
        rsdp.lies_at(bytes_of(words), addr - base),
    ensures
        rsdp_at(rsdp, words, base, addr),
{
    let i = addr - base;
    lemma_bytes(rsdp.signature.0@, words, base, addr, 0);
    assert(rsdp.checksum == bytes_of(words)[i + 8]);
    lemma_bytes(rsdp.oem_id.0@, words, base, addr, 9);
    assert(rsdp.revision == bytes_of(words)[i + 15]);
    lemma_number(words, base, addr + 16);
}

/// Each field of a root system descriptor pointer is read from its place.
pub proof fn law_read_rsdp<M: LinearMemory>(mem: &M, addr: u64, rsdp: AcpiRsdp)
    requires
        mem.base() <= addr,
        addr + 20 <= mem.base() + 8 * mem.words().len(),
        call_ensures(AcpiRsdp::read::<M>, (mem, addr), rsdp),
    ensures
        rsdp_at(rsdp, mem.words(), mem.base(), addr as int),
{
    lemma_rsdp(rsdp, mem.words(), mem.base(), addr as int);
}

/// The root system descriptor table is the one at the address that the pointer says.
pub proof fn law_rsdt<M: LinearMemory>(rsdp: &AcpiRsdp, mem: &M, rsdt: AcpiRsdt)
    requires
        mem.base() <= rsdp.rsdt_address,
        rsdp.rsdt_address + 36 <= mem.base() + 8 * mem.words().len(),
        call_ensures(AcpiRsdp::rsdt::<M>, (rsdp, mem), rsdt),
    ensures
        rsdt.address == rsdp.rsdt_address,
        header_at(rsdt.header, mem.words(), mem.base(), rsdp.rsdt_address as int),
{
    lemma_header(rsdt.header, mem.words(), mem.base(), rsdp.rsdt_address as int);
}

/// After its header of 36 bytes, the table has as many addresses of 4 bytes as its length has room
/// for, and they are given in order.
pub proof fn law_entry_addrs<M: LinearMemory>(rsdt: &AcpiRsdt, mem: &M, addrs: Vec<u32>)
    requires
        rsdt.header.length >= 36,
        mem.base() <= rsdt.address,
        rsdt.address + rsdt.header.length <= mem.base() + 8 * mem.words().len(),
        call_ensures(AcpiRsdt::entry_addrs::<M>, (rsdt, mem), addrs),
    ensures
        36 + 4 * addrs@.len() <= rsdt.header.length < 36 + 4 * (addrs@.len() + 1),
        forall|i: int|
            0 <= i < addrs@.len() ==> #[trigger] addrs@[i] == u32_at(
                mem.words(),
                mem.base(),
                rsdt.address + 36 + 4 * i,
            ),
{
    assert forall|i: int| 0 <= i < addrs@.len() implies #[trigger] addrs@[i] == u32_at(
        mem.words(),
        mem.base(),
        rsdt.address + 36 + 4 * i,
    ) by {
        lemma_number(mem.words(), mem.base(), rsdt.address + 36 + 4 * i);
    }
}

/// Whether `table` is at `address` and has this header: it is a root system descriptor table if
/// and only if the signature is "RSDT".
pub open spec fn table_by_signature(
    table: AcpiTable,
    address: int,
    header: AcpiTableHeader,
) -> bool {
    let s = header.signature.0@;
    if s[0] == 0x52 && s[1] == 0x53 && s[2] == 0x44 && s[3] == 0x54 {
        table matches AcpiTable::Rsdt(rsdt) && rsdt.address == address && rsdt.header == header
    } else {
        table matches AcpiTable::Unknown(at, head) && at == address && head == header
    }
}

proof fn lemma_table(address: u64, header: AcpiTableHeader)
    ensures
        table_by_signature(AcpiTable::parsed(address, header), address as int, header),
{
    let s = header.signature@;
    let rsdt = seq!['R' as u8, 'S' as u8, 'D' as u8, 'T' as u8];
    if s[0] == 0x52 && s[1] == 0x53 && s[2] == 0x44 && s[3] == 0x54 {
        assert(s =~= rsdt);
    } else if s == rsdt {
        assert(s[0] == 0x52 && s[1] == 0x53 && s[2] == 0x44 && s[3] == 0x54);
    }
}

/// What a table is goes by its signature.
pub proof fn law_parse_table(address: u64, header: AcpiTableHeader, table: AcpiTable)
    requires
        call_ensures(AcpiTable::parse, (address, header), table),
    ensures
        table_by_signature(table, address as int, header),
{
    lemma_table(address, header);
}

/// Whether `table` is the table at a virtual address.
pub open spec fn table_at(table: AcpiTable, words: Words, base: u64, addr: int) -> bool {
    exists|header: AcpiTableHeader| #[trigger]
        header_at(header, words, base, addr) && table_by_signature(table, addr, header)
}

/// There is one table for each address in the root system descriptor table, in the same order, and
/// it is the one at that address.
pub proof fn law_entries<M: LinearMemory>(rsdt: &AcpiRsdt, mem: &M, tables: Vec<AcpiTable>)
    requires
        rsdt.header.length >= 36,
        mem.base() <= rsdt.address,
        rsdt.address + rsdt.header.length <= mem.base() + 8 * mem.words().len(),
        forall|i: int|
            0 <= i && 36 + 4 * i + 4 <= rsdt.header.length ==> mem.base() <= #[trigger] u32_at(
                mem.words(),
                mem.base(),
                rsdt.address + 36 + 4 * i,
            ) <= mem.base() + 8 * mem.words().len() - 36,
        call_ensures(AcpiRsdt::entries::<M>, (rsdt, mem), tables),
    ensures
        36 + 4 * tables@.len() <= rsdt.header.length < 36 + 4 * (tables@.len() + 1),
        forall|i: int|
            0 <= i < tables@.len() ==> table_at(
                #[trigger] tables@[i],
                mem.words(),
                mem.base(),
                u32_at(mem.words(), mem.base(), rsdt.address + 36 + 4 * i),
            ),
{
    let words = mem.words();
    let base = mem.base();
    assert forall|i: int| 0 <= i < tables@.len() implies table_at(
        #[trigger] tables@[i],
        words,
        base,
        u32_at(words, base, rsdt.address + 36 + 4 * i),
    ) by {
        let addr = u32_at(words, base, rsdt.address + 36 + 4 * i);
        lemma_number(words, base, rsdt.address + 36 + 4 * i);
        assert(rsdt.entry_addr(mem, i) == addr);
        assert(AcpiTable::lies_at(mem, addr, tables@[i]));
        let header = choose|header: AcpiTableHeader|
            {
                &&& #[trigger] header.lies_at(bytes_of(words), addr - base)
                &&& tables@[i] == AcpiTable::parsed(addr as u64, header)
            };
        lemma_header(header, words, base, addr);
        lemma_table(addr as u64, header);
        assert(header_at(header, words, base, addr));
    }
}

/// Whether an entry is that of the root system descriptor pointer: its identifier is
/// 8868E871-E4F1-11D3-BC22-0080C73C8881.
pub open spec fn is_rsdp_entry(entry: ConfigTableEntry) -> bool {
    let g = entry.guid@;
    &&& g[0] == 0x71 && g[1] == 0xE8 && g[2] == 0x68 && g[3] == 0x88
    &&& g[4] == 0xF1 && g[5] == 0xE4 && g[6] == 0xD3 && g[7] == 0x11
    &&& g[8] == 0xBC && g[9] == 0x22 && g[10] == 0x00 && g[11] == 0x80
    &&& g[12] == 0xC7 && g[13] == 0x3C && g[14] == 0x88 && g[15] == 0x81
}

/// An entry has the identifier if and only if it has each of its bytes.
pub(crate) proof fn lemma_rsdp_entry(entry: ConfigTableEntry)
    ensures
        is_rsdp_entry(entry) <==> entry.guid@ == acpi2_guid(),
{
    if is_rsdp_entry(entry) {
        assert(entry.guid@ =~= acpi2_guid());
    }
}

/// Whether the entry at position `i` is the first one of the root system descriptor pointer.
pub open spec fn first_rsdp_entry(entries: Seq<ConfigTableEntry>, i: int) -> bool {
    &&& 0 <= i < entries.len()
    &&& is_rsdp_entry(entries[i])
    &&& forall|k: int| 0 <= k < i ==> !is_rsdp_entry(#[trigger] entries[k])
}

/// The root system descriptor pointer is the one at the address of the first entry with its
/// identifier. It is not found if and only if there is no such entry.
pub proof fn law_find_rsdp<M: LinearMemory>(
    entries: &[ConfigTableEntry],
    mem: &M,
    rsdp: Option<AcpiRsdp>,
)
    requires
        forall|i: int|
            0 <= i < entries@.len() && is_rsdp_entry(#[trigger] entries@[i]) ==> mem.base()
                <= entries@[i].address && entries@[i].address + 20 <= mem.base() + 8
                * mem.words().len(),
        call_ensures(find_rsdp::<M>, (entries, mem), rsdp),
    ensures
        rsdp is None <==> forall|i: int|
            0 <= i < entries@.len() ==> !is_rsdp_entry(#[trigger] entries@[i]),
        forall|i: int| #[trigger]
            first_rsdp_entry(entries@, i) ==> rsdp is Some && rsdp_at(
                rsdp->Some_0,
                mem.words(),
                mem.base(),
                entries@[i].address as int,
            ),
{
    assert forall|i: int| 0 <= i < entries@.len() implies is_rsdp_entry(#[trigger] entries@[i]) == (
    entries@[i].guid@ == acpi2_guid()) by {
        lemma_rsdp_entry(entries@[i]);
    }
    assert(rsdp is None ==> !has_rsdp(entries@));
    assert(rsdp is None ==> forall|i: int|
        0 <= i < entries@.len() ==> (#[trigger] entries@[i]).guid@ != acpi2_guid());
    if rsdp is Some {
        let n = choose|i: int|
            {
                &&& 0 <= i < entries@.len()
                &&& (#[trigger] entries@[i]).guid@ == acpi2_guid()
                &&& rsdp->Some_0.lies_at(bytes_of(mem.words()), entries@[i].address - mem.base())
                &&& forall|k: int| 0 <= k < i ==> (#[trigger] entries@[k]).guid@ != acpi2_guid()
            };
        assert(is_rsdp_entry(entries@[n]));
        lemma_rsdp(rsdp->Some_0, mem.words(), mem.base(), entries@[n].address as int);
        assert forall|i: int| #[trigger] first_rsdp_entry(entries@, i) implies i == n by {
            if n < i {
                assert(!is_rsdp_entry(entries@[n]));
            } else if i < n {
                assert(entries@[i].guid@ != acpi2_guid());
            }
        }
    }
}

/// The text of a string, as bytes, is the string.
pub proof fn law_fixed_string_text<const N: usize>(string: &AcpiFixedString<N>, text: String)
    requires
        valid_utf8(string.0@),
        call_ensures(AcpiFixedString::<N>::fmt, (string,), text),
    ensures
        encode_utf8(text@) == string.0@,
{
    decode_utf8_encode_utf8(string.0@);
}

} // verus!
