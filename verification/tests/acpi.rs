use camos::acpi::{
    find_rsdp, AcpiFixedString, AcpiRsdp, AcpiTable, AcpiTableHeader, ConfigTableEntry,
};
use camos::memory::{read_u32, read_u8, PhysicalMemory};

const ACPI2: [u8; 16] = [
    0x71, 0xE8, 0x68, 0x88, 0xF1, 0xE4, 0xD3, 0x11, 0xBC, 0x22, 0x00, 0x80, 0xC7, 0x3C, 0x88, 0x81,
];

fn header_bytes(signature: &[u8; 4], length: u32) -> Vec<u8> {
    let mut bytes: Vec<u8> = vec![];
    bytes.extend(signature);
    bytes.extend(length.to_le_bytes());
    bytes.extend([1, 0xC5]);
    bytes.extend(b"BOCHS ");
    bytes.extend(b"BXPCRSDT");
    bytes.extend(0x0102_0304u32.to_le_bytes());
    bytes.extend(b"BXPC");
    bytes.extend([5, 6, 7, 8]);
    bytes
}

/// A root pointer at address 4, a root table at address 64, and two tables that it points to,
/// at addresses 128 and 200.
fn tables() -> PhysicalMemory {
    let mut bytes = vec![0u8; 256];
    let mut rsdp: Vec<u8> = b"RSD PTR ".to_vec();
    rsdp.push(0x7B);
    rsdp.extend(b"BOCHS ");
    rsdp.push(2);
    rsdp.extend(64u32.to_le_bytes());
    bytes[4..24].copy_from_slice(&rsdp);
    bytes[64..100].copy_from_slice(&header_bytes(b"RSDT", 36 + 8));
    bytes[100..104].copy_from_slice(&128u32.to_le_bytes());
    bytes[104..108].copy_from_slice(&200u32.to_le_bytes());
    bytes[128..164].copy_from_slice(&header_bytes(b"FACP", 244));
    bytes[200..236].copy_from_slice(&header_bytes(b"RSDT", 36));
    let words = bytes.chunks(8).map(|c| u64::from_le_bytes(c.try_into().unwrap())).collect();
    PhysicalMemory::new(0, words)
}

#[test]
fn bytes_are_read_in_order() {
    let memory = PhysicalMemory::new(0x1000, vec![0x0807_0605_0403_0201, 0x1817_1615_1413_1211]);

    assert_eq!(read_u8(&memory, 0x1000), 0x01);
    assert_eq!(read_u8(&memory, 0x1007), 0x08);
    assert_eq!(read_u8(&memory, 0x1008), 0x11);
    assert_eq!(read_u32(&memory, 0x1001), 0x0504_0302);
    assert_eq!(read_u32(&memory, 0x1006), 0x1211_0807);
}

#[test]
fn root_pointer_is_found() {
    let memory = tables();
    let entries = [
        ConfigTableEntry { guid: [0; 16], address: 0x1234_5678 },
        ConfigTableEntry { guid: ACPI2, address: 4 },
        ConfigTableEntry { guid: ACPI2, address: 64 },
    ];

    let rsdp = find_rsdp(&entries, &memory).unwrap();

    assert_eq!(
        rsdp,
        AcpiRsdp {
            signature: AcpiFixedString(*b"RSD PTR "),
            checksum: 0x7B,
            oem_id: AcpiFixedString(*b"BOCHS "),
            revision: 2,
            rsdt_address: 64,
        }
    );
    assert_eq!(find_rsdp(&entries[..1], &memory), None);
    assert_eq!(find_rsdp(&[], &memory), None);
}

#[test]
fn root_pointer_has_the_identifier_of_the_firmware() {
    assert_eq!(uefi::table::cfg::ACPI2_GUID.to_bytes(), ACPI2);

    let memory = tables();
    for i in 0..16 {
        let mut guid = ACPI2;
        guid[i] ^= 1;
        assert_eq!(find_rsdp(&[ConfigTableEntry { guid, address: 4 }], &memory), None);
    }
}

#[test]
fn root_table_lists_the_tables() {
    let memory = tables();
    let rsdt = AcpiRsdp::read(&memory, 4).rsdt(&memory);

    assert_eq!(rsdt.address, 64);
    assert_eq!(
        rsdt.header,
        AcpiTableHeader {
            signature: AcpiFixedString(*b"RSDT"),
            length: 44,
            revision: 1,
            checksum: 0xC5,
            oem_id: AcpiFixedString(*b"BOCHS "),
            oem_table_id: AcpiFixedString(*b"BXPCRSDT"),
            oem_revision: 0x0102_0304,
            creator_id: *b"BXPC",
            creator_revision: [5, 6, 7, 8],
        }
    );
    assert_eq!(rsdt.entry_addrs(&memory), vec![128, 200]);

    let entries = rsdt.entries(&memory);
    assert_eq!(entries.len(), 2);
    assert_eq!(entries[0], AcpiTable::Unknown(128, AcpiTableHeader::read(&memory, 128)));
    match entries[1] {
        AcpiTable::Rsdt(inner) => {
            assert_eq!(inner.address, 200);
            assert_eq!(inner.entry_addrs(&memory), vec![]);
            assert_eq!(inner.entries(&memory), vec![]);
        }
        AcpiTable::Unknown(_, _) => unreachable!(),
    }
}

#[test]
fn table_is_told_by_its_signature() {
    let memory = tables();
    let mut header = AcpiTableHeader::read(&memory, 64);

    assert!(matches!(AcpiTable::parse(7, header), AcpiTable::Rsdt(t) if t.address == 7));
    header.signature = AcpiFixedString(*b"XSDT");
    assert_eq!(AcpiTable::parse(7, header), AcpiTable::Unknown(7, header));
    header.signature = AcpiFixedString(*b"RSDP");
    assert_eq!(AcpiTable::parse(7, header), AcpiTable::Unknown(7, header));
}

#[test]
fn fixed_string_is_text() {
    assert_eq!(AcpiFixedString(*b"ECDT").fmt(), "ECDT");
    assert_eq!(AcpiFixedString([0xC3, 0xA9, 0x41]).fmt(), "\u{e9}A");
    assert_eq!(AcpiFixedString([]).fmt(), "");
}
