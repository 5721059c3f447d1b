use pdl_bits::snoop::{LinuxSnoopHeader, LinuxSnoopOpcodes, LinuxSnoopPacket, SnoopError};

fn header_bytes(version: u32, data_type: u32) -> Vec<u8> {
    let mut v = b"btsnoop\0".to_vec();
    v.extend_from_slice(&version.to_be_bytes());
    v.extend_from_slice(&data_type.to_be_bytes());
    v
}

#[test]
fn header_accepted() {
    let h = LinuxSnoopHeader::try_from(&header_bytes(1, 2001)[..]).unwrap();
    assert_eq!(&h.id, b"btsnoop\0");
    assert_eq!(h.version, 1);
    assert_eq!(h.data_type, 2001);
}

#[test]
fn header_errors() {
    assert_eq!(
        LinuxSnoopHeader::try_from(&[0u8; 15][..]).unwrap_err(),
        SnoopError::InvalidHeaderSize { size: 15 }
    );
    let mut bad = header_bytes(1, 2001);
    bad[0] = b'x';
    assert_eq!(LinuxSnoopHeader::try_from(&bad[..]).unwrap_err(), SnoopError::BadMagic);
    assert_eq!(
        LinuxSnoopHeader::try_from(&header_bytes(2, 2001)[..]).unwrap_err(),
        SnoopError::UnsupportedVersion { version: 2 }
    );
    assert_eq!(
        LinuxSnoopHeader::try_from(&header_bytes(1, 1002)[..]).unwrap_err(),
        SnoopError::InvalidDataType { data_type: 1002 }
    );
}

#[test]
fn packet_preamble() {
    let mut b = Vec::new();
    b.extend_from_slice(&10u32.to_be_bytes());
    b.extend_from_slice(&8u32.to_be_bytes());
    b.extend_from_slice(&0x0003_0005u32.to_be_bytes());
    b.extend_from_slice(&1u32.to_be_bytes());
    b.extend_from_slice(&0x0102_0304_0506_0708u64.to_be_bytes());
    let p = LinuxSnoopPacket::try_from(&b[..]).unwrap();
    assert_eq!(p.original_length, 10);
    assert_eq!(p.included_length, 8);
    assert_eq!(p.drops, 1);
    assert_eq!(p.timestamp_ms, 0x0102_0304_0506_0708);
    assert!(p.data.is_empty());
    assert_eq!(p.index(), 3);
    assert!(matches!(p.opcode(), LinuxSnoopOpcodes::AclRxPacket));
    assert_eq!(p.data_size(), Ok(8));
    assert_eq!(
        LinuxSnoopPacket::try_from(&b[..23]).unwrap_err(),
        SnoopError::InvalidPreambleSize { size: 23 }
    );
}

#[test]
fn opcodes_and_sizes() {
    let mut p = LinuxSnoopPacket {
        original_length: 0,
        included_length: 1491,
        flags: 0xffff_0013,
        drops: 0,
        timestamp_ms: 0,
        data: vec![],
    };
    assert_eq!(p.index(), 0xffff);
    assert_eq!(p.opcode(), LinuxSnoopOpcodes::IsoRx);
    p.flags = 20;
    assert_eq!(p.opcode(), LinuxSnoopOpcodes::Invalid);
    assert_eq!(p.index(), 0);
    assert_eq!(p.data_size(), Err(SnoopError::PacketTooLarge { size: 1491 }));
    assert_eq!(LinuxSnoopOpcodes::from_u32(0), LinuxSnoopOpcodes::NewIndex);
    assert_eq!(LinuxSnoopOpcodes::from_u32(0xffff), LinuxSnoopOpcodes::Invalid);
}
