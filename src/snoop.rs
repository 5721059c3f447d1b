//! Records of Linux snoop capture files (the `btsnoop` monitor format written
//! by `btmon`): the file header and the fixed preamble of each packet.
use crate::width::{be_value, get_uint, Endianness};
use vstd::prelude::*;

verus! {

/// Size of the file header: eight bytes of magic, then version and data type.
pub const LINUX_SNOOP_HEADER_SIZE: usize = 16;

/// Link type of snoop files in monitor format.
pub const LINUX_SNOOP_MONITOR_TYPE: u32 = 2001;

/// Size of a packet preamble (everything but the data).
pub const LINUX_SNOOP_PACKET_PREAMBLE_SIZE: usize = 24;

/// Largest packet data: the largest ACL packet plus four bytes.
pub const LINUX_SNOOP_MAX_PACKET_SIZE: usize = 1490;

/// The identifier that opens a snoop file, `btsnoop` and a zero byte.
pub open spec fn snoop_magic() -> Seq<u8> {
    seq![0x62u8, 0x74u8, 0x73u8, 0x6eu8, 0x6fu8, 0x6fu8, 0x70u8, 0x00u8]
}

/// Linux snoop file header.
#[derive(Clone, Copy, Debug)]
pub struct LinuxSnoopHeader {
    pub id: [u8; 8],
    pub version: u32,
    pub data_type: u32,
}

/// Why a header or a packet preamble was refused.
#[derive(Clone, Copy, Debug, PartialEq, Eq, Structural)]
pub enum SnoopError {
    /// The header is not sixteen bytes long.
    InvalidHeaderSize { size: usize },
    /// The header does not start with `btsnoop`.
    BadMagic,
    /// The header's version is not 1.
    UnsupportedVersion { version: u32 },
    /// The header's data type is not the monitor type.
    InvalidDataType { data_type: u32 },
    /// The preamble is not 24 bytes long.
    InvalidPreambleSize { size: usize },
    /// The packet claims more data than a snoop packet can hold.
    PacketTooLarge { size: u32 },
}

/// Big-endian `u32` at `start`.
pub open spec fn be_u32_at(s: Seq<u8>, start: int) -> nat {
    be_value(s.subrange(start, start + 4))
}

/// Big-endian `u64` at `start`.
pub open spec fn be_u64_at(s: Seq<u8>, start: int) -> nat {
    be_value(s.subrange(start, start + 8))
}

fn read_be_u32(s: &[u8], start: usize) -> (r: u32)
    requires
        start + 4 <= s@.len(),
    ensures
        r as nat == be_u32_at(s@, start as int),
{
    proof {
        crate::width::lemma_be_bound(s@.subrange(start as int, start + 4));
        vstd::arithmetic::power2::lemma2_to64();
    }
    get_uint(s, start, 4, Endianness::Big) as u32
}

impl LinuxSnoopHeader {
    /// Parses a file header; checks its size, magic, version and data type,
    /// in that order.
    pub fn try_from(item: &[u8]) -> (r: Result<LinuxSnoopHeader, SnoopError>)
        ensures
            item@.len() != 16 ==> r == Err::<LinuxSnoopHeader, SnoopError>(
                SnoopError::InvalidHeaderSize { size: item@.len() as usize },
            ),
            item@.len() == 16 && item@.subrange(0, 8) != snoop_magic() ==> r == Err::<
                LinuxSnoopHeader,
                SnoopError,
            >(SnoopError::BadMagic),
            item@.len() == 16 && item@.subrange(0, 8) == snoop_magic() && be_u32_at(item@, 8)
                != 1 ==> r == Err::<LinuxSnoopHeader, SnoopError>(
                SnoopError::UnsupportedVersion { version: be_u32_at(item@, 8) as u32 },
            ),
            item@.len() == 16 && item@.subrange(0, 8) == snoop_magic() && be_u32_at(item@, 8)
                == 1 && be_u32_at(item@, 12) != 2001 ==> r == Err::<LinuxSnoopHeader, SnoopError>(
                SnoopError::InvalidDataType { data_type: be_u32_at(item@, 12) as u32 },
            ),
            r is Ok <==> item@.len() == 16 && item@.subrange(0, 8) == snoop_magic() && be_u32_at(
                item@,
                8,
            ) == 1 && be_u32_at(item@, 12) == 2001,
            r matches Ok(h) ==> h.id@ == item@.subrange(0, 8) && h.version == 1 && h.data_type
                == 2001,
    {
        if item.len() != LINUX_SNOOP_HEADER_SIZE {
            return Err(SnoopError::InvalidHeaderSize { size: item.len() });
        }
        let id: [u8; 8] = [item[0], item[1], item[2], item[3], item[4], item[5], item[6], item[7]];
        let magic =
            item[0] == 0x62 && item[1] == 0x74 && item[2] == 0x73 && item[3] == 0x6e && item[4]
                == 0x6f && item[5] == 0x6f && item[6] == 0x70 && item[7] == 0x00;
        proof {
            assert(id@ =~= item@.subrange(0, 8));
            if magic {
                assert(item@.subrange(0, 8) =~= snoop_magic());
            } else {
                assert(item@.subrange(0, 8) != snoop_magic()) by {
                    if item@.subrange(0, 8) == snoop_magic() {
                        assert(item@.subrange(0, 8)[0] == item@[0]);
                        assert(item@.subrange(0, 8)[1] == item@[1]);
                        assert(item@.subrange(0, 8)[2] == item@[2]);
                        assert(item@.subrange(0, 8)[3] == item@[3]);
                        assert(item@.subrange(0, 8)[4] == item@[4]);
                        assert(item@.subrange(0, 8)[5] == item@[5]);
                        assert(item@.subrange(0, 8)[6] == item@[6]);
                        assert(item@.subrange(0, 8)[7] == item@[7]);
                    }
                }
            }
        }
        let header = LinuxSnoopHeader {
            id,
            version: read_be_u32(item, 8),
            data_type: read_be_u32(item, 12),
        };
        if !magic {
            return Err(SnoopError::BadMagic);
        }
        if header.version != 1 {
            return Err(SnoopError::UnsupportedVersion { version: header.version });
        }
        if header.data_type != LINUX_SNOOP_MONITOR_TYPE {
            return Err(SnoopError::InvalidDataType { data_type: header.data_type });
        }
        Ok(header)
    }
}

/// Opcodes of Linux snoop packets.
#[derive(Clone, Copy, Debug, PartialEq, Eq, Structural)]
pub enum LinuxSnoopOpcodes {
    NewIndex,
    DeleteIndex,
    CommandPacket,
    EventPacket,
    AclTxPacket,
    AclRxPacket,
    ScoTxPacket,
    ScoRxPacket,
    OpenIndex,
    CloseIndex,
    IndexInfo,
    VendorDiag,
    SystemNote,
    UserLogging,
    CtrlOpen,
    CtrlClose,
    CtrlCommand,
    CtrlEvent,
    IsoTx,
    IsoRx,
    Invalid,
}

/// The opcode numbered `n`, `Invalid` past the last one.
pub open spec fn opcode_of(n: nat) -> LinuxSnoopOpcodes {
    if n == 0 {
        LinuxSnoopOpcodes::NewIndex
    } else if n == 1 {
        LinuxSnoopOpcodes::DeleteIndex
    } else if n == 2 {
        LinuxSnoopOpcodes::CommandPacket
    } else if n == 3 {
        LinuxSnoopOpcodes::EventPacket
    } else if n == 4 {
        LinuxSnoopOpcodes::AclTxPacket
    } else if n == 5 {
        LinuxSnoopOpcodes::AclRxPacket
    } else if n == 6 {
        LinuxSnoopOpcodes::ScoTxPacket
    } else if n == 7 {
        LinuxSnoopOpcodes::ScoRxPacket
    } else if n == 8 {
        LinuxSnoopOpcodes::OpenIndex
    } else if n == 9 {
        LinuxSnoopOpcodes::CloseIndex
    } else if n == 10 {
        LinuxSnoopOpcodes::IndexInfo
    } else if n == 11 {
        LinuxSnoopOpcodes::VendorDiag
    } else if n == 12 {
        LinuxSnoopOpcodes::SystemNote
    } else if n == 13 {
        LinuxSnoopOpcodes::UserLogging
    } else if n == 14 {
        LinuxSnoopOpcodes::CtrlOpen
    } else if n == 15 {
        LinuxSnoopOpcodes::CtrlClose
    } else if n == 16 {
        LinuxSnoopOpcodes::CtrlCommand
    } else if n == 17 {
        LinuxSnoopOpcodes::CtrlEvent
    } else if n == 18 {
        LinuxSnoopOpcodes::IsoTx
    } else if n == 19 {
        LinuxSnoopOpcodes::IsoRx
    } else {
        LinuxSnoopOpcodes::Invalid
    }
}

impl LinuxSnoopOpcodes {
    /// The opcode numbered `n`, `Invalid` for any other number.
    pub fn from_u32(n: u32) -> (r: LinuxSnoopOpcodes)
        ensures
            r == opcode_of(n as nat),
    {
        match n {
            0 => LinuxSnoopOpcodes::NewIndex,
            1 => LinuxSnoopOpcodes::DeleteIndex,
            2 => LinuxSnoopOpcodes::CommandPacket,
            3 => LinuxSnoopOpcodes::EventPacket,
            4 => LinuxSnoopOpcodes::AclTxPacket,
            5 => LinuxSnoopOpcodes::AclRxPacket,
            6 => LinuxSnoopOpcodes::ScoTxPacket,
            7 => LinuxSnoopOpcodes::ScoRxPacket,
            8 => LinuxSnoopOpcodes::OpenIndex,
            9 => LinuxSnoopOpcodes::CloseIndex,
            10 => LinuxSnoopOpcodes::IndexInfo,
            11 => LinuxSnoopOpcodes::VendorDiag,
            12 => LinuxSnoopOpcodes::SystemNote,
            13 => LinuxSnoopOpcodes::UserLogging,
            14 => LinuxSnoopOpcodes::CtrlOpen,
            15 => LinuxSnoopOpcodes::CtrlClose,
            16 => LinuxSnoopOpcodes::CtrlCommand,
            17 => LinuxSnoopOpcodes::CtrlEvent,
            18 => LinuxSnoopOpcodes::IsoTx,
            19 => LinuxSnoopOpcodes::IsoRx,
            _ => LinuxSnoopOpcodes::Invalid,
        }
    }
}

/// Linux snoop file packet.
#[derive(Debug, Clone)]
pub struct LinuxSnoopPacket {
    /// The original length of the captured packet as received via a network.
    pub original_length: u32,
    /// The length of the included data (smaller than `original_length` when
    /// the received packet was truncated).
    pub included_length: u32,
    pub flags: u32,
    pub drops: u32,
    pub timestamp_ms: u64,
    pub data: Vec<u8>,
}

impl LinuxSnoopPacket {
    /// Controller index: the upper half of the flags.
    pub fn index(&self) -> (r: u16)
        ensures
            r == self.flags / 0x10000,
    {
        (self.flags / 0x10000) as u16
    }

    /// Opcode: the lower half of the flags.
    pub fn opcode(&self) -> (r: LinuxSnoopOpcodes)
        ensures
            r == opcode_of((self.flags % 0x10000) as nat),
    {
        LinuxSnoopOpcodes::from_u32(self.flags % 0x10000)
    }

    /// Parses a packet preamble, all of whose integers are big-endian; the
    /// data is left empty.
    pub fn try_from(item: &[u8]) -> (r: Result<LinuxSnoopPacket, SnoopError>)
        ensures
            r is Ok <==> item@.len() == 24,
            r is Err ==> r == Err::<LinuxSnoopPacket, SnoopError>(
                SnoopError::InvalidPreambleSize { size: item@.len() as usize },
            ),
            r matches Ok(p) ==> {
                &&& p.original_length == be_u32_at(item@, 0)
                &&& p.included_length == be_u32_at(item@, 4)
                &&& p.flags == be_u32_at(item@, 8)
                &&& p.drops == be_u32_at(item@, 12)
                &&& p.timestamp_ms == be_u64_at(item@, 16)
                &&& p.data@.len() == 0
            },
    {
        if item.len() != LINUX_SNOOP_PACKET_PREAMBLE_SIZE {
            return Err(SnoopError::InvalidPreambleSize { size: item.len() });
        }
        Ok(
            LinuxSnoopPacket {
                original_length: read_be_u32(item, 0),
                included_length: read_be_u32(item, 4),
                flags: read_be_u32(item, 8),
                drops: read_be_u32(item, 12),
                timestamp_ms: get_uint(item, 16, 8, Endianness::Big),
                data: Vec::new(),
            },
        )
    }

    /// Number of data bytes that follow the preamble; refused past the
    /// largest snoop packet.
    pub fn data_size(&self) -> (r: Result<usize, SnoopError>)
        ensures
            r is Ok <==> self.included_length <= 1490,
            r matches Ok(n) ==> n == self.included_length,
            r is Err ==> r == Err::<usize, SnoopError>(
                SnoopError::PacketTooLarge { size: self.included_length },
            ),
    {
        if self.included_length as usize > LINUX_SNOOP_MAX_PACKET_SIZE {
            return Err(SnoopError::PacketTooLarge { size: self.included_length });
        }
        Ok(self.included_length as usize)
    }
}

/// What kind of log file this is.
#[derive(Clone, Copy, Debug)]
pub enum LogType {
    /// Linux snoop file generated by something like `btmon`.
    LinuxSnoop(LinuxSnoopHeader),
}

} // verus!
