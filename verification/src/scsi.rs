//! SCSI commands and their responses.
//!
//! - **INQUIRY** (0x12): device identification
//! - **READ CAPACITY(10)** (0x25): last block address and block size
//! - **READ(10)** (0x28): read sectors
//! - **WRITE(10)** (0x2A): write sectors
//! - **TEST UNIT READY** (0x00): check device readiness
//! - **REQUEST SENSE** (0x03): error details after a failed command
//! - **MODE SENSE(6)** (0x1A): device parameters and mode pages
use crate::bytes::{
    be16, be16_value, be32, be32_value, law_be16_round_trip, law_be32_round_trip, u16_to_be,
    u32_from_be, u32_to_be,
};
use crate::text::{field_text, law_field_text, read_field};
use vstd::prelude::*;
use vstd::slice::slice_subrange;

verus! {

/// SCSI operation codes.
#[derive(Debug, Clone, Copy, PartialEq, Eq, Structural)]
pub enum ScsiOpcode {
    TestUnitReady,
    RequestSense,
    Inquiry,
    ModeSense6,
    ReadCapacity10,
    Read10,
    Write10,
}

impl ScsiOpcode {
    /// The operation code byte.
    pub open spec fn code(self) -> u8 {
        match self {
            ScsiOpcode::TestUnitReady => 0x00,
            ScsiOpcode::RequestSense => 0x03,
            ScsiOpcode::Inquiry => 0x12,
            ScsiOpcode::ModeSense6 => 0x1A,
            ScsiOpcode::ReadCapacity10 => 0x25,
            ScsiOpcode::Read10 => 0x28,
            ScsiOpcode::Write10 => 0x2A,
        }
    }

    /// The operation code byte.
    pub fn to_byte(self) -> (res: u8)
        ensures
            res == self.code(),
            self is TestUnitReady <==> res == 0x00,
            self is RequestSense <==> res == 0x03,
            self is Inquiry <==> res == 0x12,
            self is ModeSense6 <==> res == 0x1A,
            self is ReadCapacity10 <==> res == 0x25,
            self is Read10 <==> res == 0x28,
            self is Write10 <==> res == 0x2A,
    {
        match self {
            ScsiOpcode::TestUnitReady => 0x00,
            ScsiOpcode::RequestSense => 0x03,
            ScsiOpcode::Inquiry => 0x12,
            ScsiOpcode::ModeSense6 => 0x1A,
            ScsiOpcode::ReadCapacity10 => 0x25,
            ScsiOpcode::Read10 => 0x28,
            ScsiOpcode::Write10 => 0x2A,
        }
    }
}

/// A SCSI command.
#[derive(Debug, Clone)]
pub enum ScsiCommand {
    /// TEST UNIT READY: no data transfer.
    TestUnitReady,
    /// REQUEST SENSE: returns up to `alloc_len` bytes of sense data.
    RequestSense { alloc_len: u8 },
    /// INQUIRY: returns up to `alloc_len` bytes of device identification.
    Inquiry { alloc_len: u8 },
    /// MODE SENSE(6): returns up to `alloc_len` bytes of mode page data.
    ModeSense { page_code: u8, alloc_len: u8 },
    /// READ CAPACITY(10): returns the 8-byte capacity descriptor.
    ReadCapacity10,
    /// READ(10): reads `block_count` blocks starting at `lba`.
    Read10 { lba: u32, block_count: u16 },
    /// WRITE(10): writes `block_count` blocks starting at `lba`.
    Write10 { lba: u32, block_count: u16 },
}

/// The 6-byte command block with operation code `op`.
pub open spec fn cdb6(op: ScsiOpcode, page: u8, alloc_len: u8) -> Seq<u8> {
    seq![op.code(), 0u8, page, 0u8, alloc_len, 0u8]
}

/// The 10-byte command block with operation code `op`.
pub open spec fn cdb10(op: ScsiOpcode, lba: u32, block_count: u16) -> Seq<u8> {
    seq![op.code(), 0u8] + be32(lba) + seq![0u8] + be16(block_count) + seq![0u8]
}

impl ScsiCommand {
    /// The command block.
    pub open spec fn cdb(self) -> Seq<u8> {
        match self {
            ScsiCommand::TestUnitReady => cdb6(ScsiOpcode::TestUnitReady, 0, 0),
            ScsiCommand::RequestSense { alloc_len } => cdb6(ScsiOpcode::RequestSense, 0, alloc_len),
            ScsiCommand::Inquiry { alloc_len } => cdb6(ScsiOpcode::Inquiry, 0, alloc_len),
            ScsiCommand::ModeSense { page_code, alloc_len } => cdb6(
                ScsiOpcode::ModeSense6,
                (page_code % 64) as u8,
                alloc_len,
            ),
            ScsiCommand::ReadCapacity10 => cdb10(ScsiOpcode::ReadCapacity10, 0, 0),
            ScsiCommand::Read10 { lba, block_count } => cdb10(ScsiOpcode::Read10, lba, block_count),
            ScsiCommand::Write10 { lba, block_count } => cdb10(
                ScsiOpcode::Write10,
                lba,
                block_count,
            ),
        }
    }

    /// The number of bytes that the data phase transfers.
    pub open spec fn transfer_length(self, block_size: int) -> int {
        match self {
            ScsiCommand::TestUnitReady => 0,
            ScsiCommand::RequestSense { alloc_len } => alloc_len as int,
            ScsiCommand::Inquiry { alloc_len } => alloc_len as int,
            ScsiCommand::ModeSense { alloc_len, .. } => alloc_len as int,
            ScsiCommand::ReadCapacity10 => 8,
            ScsiCommand::Read10 { block_count, .. } => block_count * block_size,
            ScsiCommand::Write10 { block_count, .. } => block_count * block_size,
        }
    }

    /// Whether the data goes from the device to the host.
    pub open spec fn reads(self) -> bool {
        !(self is TestUnitReady) && !(self is Write10)
    }

    /// Builds the command block, zero-padded, and its length.
    pub fn to_cdb(&self) -> (res: ([u8; 16], u8))
        ensures
            res.0@ == self.cdb() + Seq::new((16 - self.cdb().len()) as nat, |i: int| 0u8),
            res.1 == self.cdb().len(),
            res.1 == if self is ReadCapacity10 || self is Read10 || self is Write10 {
                10int
            } else {
                6
            },
            forall|i: int| res.1 <= i < 16 ==> #[trigger] res.0@[i] == 0,
            res.0@[1] == 0,
            *self is TestUnitReady ==> res.0@[0] == 0x00 && res.0@[2] == 0 && res.0@[3] == 0
                && res.0@[4] == 0 && res.0@[5] == 0,
            *self matches ScsiCommand::RequestSense { alloc_len } ==> res.0@[0] == 0x03
                && res.0@[2] == 0 && res.0@[3] == 0 && res.0@[4] == alloc_len && res.0@[5] == 0,
            *self matches ScsiCommand::Inquiry { alloc_len } ==> res.0@[0] == 0x12 && res.0@[2] == 0
                && res.0@[3] == 0 && res.0@[4] == alloc_len && res.0@[5] == 0,
            *self matches ScsiCommand::ModeSense { page_code, alloc_len } ==> res.0@[0] == 0x1A
                && res.0@[2] == page_code % 64 && res.0@[3] == 0 && res.0@[4] == alloc_len
                && res.0@[5] == 0,
            *self is ReadCapacity10 ==> res.0@[0] == 0x25 && forall|i: int|
                0 < i < 10 ==> #[trigger] res.0@[i] == 0,
            *self matches ScsiCommand::Read10 { lba, block_count } ==> res.0@[0] == 0x28 && lba
                == 0x100_0000 * res.0@[2] + 0x1_0000 * res.0@[3] + 0x100 * res.0@[4] + res.0@[5]
                && block_count == 0x100 * res.0@[7] + res.0@[8] && res.0@[6] == 0 && res.0@[9] == 0,
            *self matches ScsiCommand::Write10 { lba, block_count } ==> res.0@[0] == 0x2A && lba
                == 0x100_0000 * res.0@[2] + 0x1_0000 * res.0@[3] + 0x100 * res.0@[4] + res.0@[5]
                && block_count == 0x100 * res.0@[7] + res.0@[8] && res.0@[6] == 0 && res.0@[9] == 0,
    {
        let mut cdb: [u8; 16] = [0u8;16];
        let len: u8 = match self {
            ScsiCommand::TestUnitReady => {
                cdb[0] = ScsiOpcode::TestUnitReady.to_byte();
                6
            },
            ScsiCommand::RequestSense { alloc_len } => {
                cdb[0] = ScsiOpcode::RequestSense.to_byte();
                cdb[4] = *alloc_len;
                6
            },
            ScsiCommand::Inquiry { alloc_len } => {
                cdb[0] = ScsiOpcode::Inquiry.to_byte();
                cdb[4] = *alloc_len;
                6
            },
            ScsiCommand::ModeSense { page_code, alloc_len } => {
                cdb[0] = ScsiOpcode::ModeSense6.to_byte();
                cdb[2] = *page_code % 64;
                cdb[4] = *alloc_len;
                6
            },
            ScsiCommand::ReadCapacity10 => {
                cdb[0] = ScsiOpcode::ReadCapacity10.to_byte();
                10
            },
            ScsiCommand::Read10 { lba, block_count } => {
                cdb[0] = ScsiOpcode::Read10.to_byte();
                put_blocks(&mut cdb, *lba, *block_count);
                10
            },
            ScsiCommand::Write10 { lba, block_count } => {
                cdb[0] = ScsiOpcode::Write10.to_byte();
                put_blocks(&mut cdb, *lba, *block_count);
                10
            },
        };
        assert(cdb@ =~= self.cdb() + Seq::new((16 - self.cdb().len()) as nat, |i: int| 0u8));
        (cdb, len)
    }

    /// The number of bytes that the data phase transfers. READ(10) and
    /// WRITE(10) transfer blocks of `block_size` bytes.
    pub fn data_transfer_length(&self, block_size: u32) -> (res: u32)
        requires
            self.transfer_length(block_size as int) <= u32::MAX,
        ensures
            res == self.transfer_length(block_size as int),
            *self is TestUnitReady ==> res == 0,
            *self matches ScsiCommand::RequestSense { alloc_len } ==> res == alloc_len,
            *self matches ScsiCommand::Inquiry { alloc_len } ==> res == alloc_len,
            *self matches ScsiCommand::ModeSense { alloc_len, .. } ==> res == alloc_len,
            *self is ReadCapacity10 ==> res == 8,
            *self matches ScsiCommand::Read10 { block_count, .. } ==> res == block_count
                * block_size,
            *self matches ScsiCommand::Write10 { block_count, .. } ==> res == block_count
                * block_size,
    {
        match self {
            ScsiCommand::TestUnitReady => 0,
            ScsiCommand::RequestSense { alloc_len } => *alloc_len as u32,
            ScsiCommand::Inquiry { alloc_len } => *alloc_len as u32,
            ScsiCommand::ModeSense { alloc_len, .. } => *alloc_len as u32,
            ScsiCommand::ReadCapacity10 => 8,
            ScsiCommand::Read10 { block_count, .. } => {
                assert(0 <= *block_count * block_size) by (nonlinear_arith)
                    requires
                        0 <= *block_count,
                        0 <= block_size,
                ;
                (*block_count as u32) * block_size
            },
            ScsiCommand::Write10 { block_count, .. } => {
                assert(0 <= *block_count * block_size) by (nonlinear_arith)
                    requires
                        0 <= *block_count,
                        0 <= block_size,
                ;
                (*block_count as u32) * block_size
            },
        }
    }

    /// Whether the data goes from the device to the host.
    pub fn is_data_in(&self) -> (res: bool)
        ensures
            res == self.reads(),
            !res <==> *self is TestUnitReady || *self is Write10,
    {
        match self {
            ScsiCommand::TestUnitReady => false,
            ScsiCommand::RequestSense { .. } => true,
            ScsiCommand::Inquiry { .. } => true,
            ScsiCommand::ModeSense { .. } => true,
            ScsiCommand::ReadCapacity10 => true,
            ScsiCommand::Read10 { .. } => true,
            ScsiCommand::Write10 { .. } => false,
        }
    }
}

/// Puts the block address and the block count of a 10-byte command in place.
fn put_blocks(cdb: &mut [u8; 16], lba: u32, block_count: u16)
    ensures
        final(cdb)@ == old(cdb)@.take(2) + be32(lba) + old(cdb)@.subrange(6, 7) + be16(block_count)
            + old(cdb)@.skip(9),
{
    let a = u32_to_be(lba);
    let n = u16_to_be(block_count);
    cdb[2] = a[0];
    cdb[3] = a[1];
    cdb[4] = a[2];
    cdb[5] = a[3];
    cdb[7] = n[0];
    cdb[8] = n[1];
    assert(cdb@ =~= old(cdb)@.take(2) + be32(lba) + old(cdb)@.subrange(6, 7) + be16(block_count)
        + old(cdb)@.skip(9));
}

/// The fields of a standard INQUIRY response.
pub struct InquiryView {
    pub peripheral_device_type: u8,
    pub removable: bool,
    pub vendor: Seq<char>,
    pub product: Seq<char>,
    pub revision: Seq<char>,
}

impl InquiryView {
    /// What a response stands for; it needs 36 bytes.
    pub open spec fn decoded(b: Seq<u8>) -> Option<InquiryView> {
        if b.len() < 36 {
            None
        } else {
            Some(
                InquiryView {
                    peripheral_device_type: (b[0] % 32) as u8,
                    removable: b[1] >= 0x80,
                    vendor: field_text(b.subrange(8, 16)),
                    product: field_text(b.subrange(16, 32)),
                    revision: field_text(b.subrange(32, 36)),
                },
            )
        }
    }
}

/// Standard INQUIRY response.
#[derive(Debug, Clone)]
pub struct InquiryData {
    /// Peripheral device type (bits 4:0 of byte 0). 0x00 is a disk.
    pub peripheral_device_type: u8,
    /// Removable media (bit 7 of byte 1).
    pub removable: bool,
    /// T10 vendor identification (8 bytes, space-padded).
    pub vendor: String,
    /// Product identification (16 bytes, space-padded).
    pub product: String,
    /// Product revision level (4 bytes).
    pub revision: String,
}

impl View for InquiryData {
    type V = InquiryView;

    open spec fn view(&self) -> InquiryView {
        InquiryView {
            peripheral_device_type: self.peripheral_device_type,
            removable: self.removable,
            vendor: self.vendor@,
            product: self.product@,
            revision: self.revision@,
        }
    }
}

impl InquiryData {
    /// The fields of an optional response.
    pub open spec fn option_view(o: Option<InquiryData>) -> Option<InquiryView> {
        match o {
            Some(d) => Some(d@),
            None => None,
        }
    }

    /// Parses an INQUIRY response.
    pub fn from_bytes(buf: &[u8]) -> (res: Option<Self>)
        ensures
            Self::option_view(res) == InquiryView::decoded(buf@),
            res is Some <==> buf@.len() >= 36,
            res matches Some(d) ==> {
                &&& d.peripheral_device_type == buf@[0] % 32
                &&& d.removable <==> buf@[1] >= 0x80
                &&& d.vendor@ == field_text(buf@.subrange(8, 16))
                &&& d.product@ == field_text(buf@.subrange(16, 32))
                &&& d.revision@ == field_text(buf@.subrange(32, 36))
            },
    {
        if buf.len() < 36 {
            return None;
        }
        Some(
            InquiryData {
                peripheral_device_type: buf[0] % 32,
                removable: buf[1] >= 0x80,
                vendor: read_field(slice_subrange(buf, 8, 16)),
                product: read_field(slice_subrange(buf, 16, 32)),
                revision: read_field(slice_subrange(buf, 32, 36)),
            },
        )
    }
}

/// READ CAPACITY(10) response.
#[derive(Debug, Clone, Copy)]
pub struct ReadCapacity10Data {
    /// Last block address; blocks are counted from 0.
    pub last_lba: u32,
    /// Block (sector) size in bytes, typically 512 or 4096.
    pub block_size: u32,
}

impl ReadCapacity10Data {
    /// What a response stands for; it needs 8 bytes.
    pub open spec fn decoded(b: Seq<u8>) -> Option<ReadCapacity10Data> {
        if b.len() < 8 {
            None
        } else {
            Some(
                ReadCapacity10Data {
                    last_lba: be32_value(b.subrange(0, 4)),
                    block_size: be32_value(b.subrange(4, 8)),
                },
            )
        }
    }

    /// Parses a READ CAPACITY(10) response.
    pub fn from_bytes(buf: &[u8]) -> (res: Option<Self>)
        ensures
            res == Self::decoded(buf@),
            res is Some <==> buf@.len() >= 8,
            res matches Some(c) ==> {
                &&& c.last_lba == 0x100_0000 * buf@[0] + 0x1_0000 * buf@[1] + 0x100 * buf@[2]
                    + buf@[3]
                &&& c.block_size == 0x100_0000 * buf@[4] + 0x1_0000 * buf@[5] + 0x100 * buf@[6]
                    + buf@[7]
            },
    {
        if buf.len() < 8 {
            return None;
        }
        Some(ReadCapacity10Data { last_lba: u32_from_be(buf, 0), block_size: u32_from_be(buf, 4) })
    }

    /// Number of blocks on the device.
    pub fn total_blocks(&self) -> (res: u64)
        ensures
            res == self.last_lba + 1,
    {
        self.last_lba as u64 + 1
    }

    /// Capacity of the device in bytes.
    pub fn total_bytes(&self) -> (res: u64)
        ensures
            res == (self.last_lba + 1) * self.block_size,
    {
        let blocks: u64 = self.total_blocks();
        let size: u64 = self.block_size as u64;
        assert(0 <= blocks * size <= 0x1_0000_0000 * 0xffff_ffff) by (nonlinear_arith)
            requires
                0 <= blocks <= 0x1_0000_0000,
                0 <= size <= 0xffff_ffff,
        ;
        blocks * size
    }
}

/// REQUEST SENSE response.
#[derive(Debug, Clone, Copy)]
pub struct SenseData {
    /// Sense key (bits 3:0 of byte 2).
    pub sense_key: u8,
    /// Additional Sense Code (byte 12).
    pub asc: u8,
    /// Additional Sense Code Qualifier (byte 13).
    pub ascq: u8,
}

impl SenseData {
    /// What a response stands for. The sense key needs 3 bytes; below 14 bytes
    /// the additional codes are 0.
    pub open spec fn decoded(b: Seq<u8>) -> Option<SenseData> {
        if b.len() < 3 {
            None
        } else if b.len() < 14 {
            Some(SenseData { sense_key: (b[2] % 16) as u8, asc: 0, ascq: 0 })
        } else {
            Some(SenseData { sense_key: (b[2] % 16) as u8, asc: b[12], ascq: b[13] })
        }
    }

    /// Parses a REQUEST SENSE response.
    pub fn from_bytes(buf: &[u8]) -> (res: Option<Self>)
        ensures
            res == Self::decoded(buf@),
            res is Some <==> buf@.len() >= 3,
            res matches Some(d) ==> {
                &&& d.sense_key == buf@[2] % 16
                &&& buf@.len() >= 14 ==> d.asc == buf@[12] && d.ascq == buf@[13]
                &&& buf@.len() < 14 ==> d.asc == 0 && d.ascq == 0
            },
    {
        if buf.len() < 14 {
            if buf.len() >= 3 {
                return Some(SenseData { sense_key: buf[2] % 16, asc: 0, ascq: 0 });
            }
            return None;
        }
        Some(SenseData { sense_key: buf[2] % 16, asc: buf[12], ascq: buf[13] })
    }
}

/// The name of a sense key.
pub open spec fn sense_key_text(key: u8) -> Seq<char> {
    if key == 0x00 {
        "NO SENSE"@
    } else if key == 0x01 {
        "RECOVERED ERROR"@
    } else if key == 0x02 {
        "NOT READY"@
    } else if key == 0x03 {
        "MEDIUM ERROR"@
    } else if key == 0x04 {
        "HARDWARE ERROR"@
    } else if key == 0x05 {
        "ILLEGAL REQUEST"@
    } else if key == 0x06 {
        "UNIT ATTENTION"@
    } else if key == 0x07 {
        "DATA PROTECT"@
    } else if key == 0x08 {
        "BLANK CHECK"@
    } else if key == 0x0B {
        "ABORTED COMMAND"@
    } else if key == 0x0E {
        "MISCOMPARE"@
    } else {
        "UNKNOWN"@
    }
}

/// The name of a sense key.
pub fn sense_key_name(key: u8) -> (res: &'static str)
    ensures
        res@ == sense_key_text(key),
        key == 0x00 ==> res@ == "NO SENSE"@,
        key == 0x01 ==> res@ == "RECOVERED ERROR"@,
        key == 0x02 ==> res@ == "NOT READY"@,
        key == 0x03 ==> res@ == "MEDIUM ERROR"@,
        key == 0x04 ==> res@ == "HARDWARE ERROR"@,
        key == 0x05 ==> res@ == "ILLEGAL REQUEST"@,
        key == 0x06 ==> res@ == "UNIT ATTENTION"@,
        key == 0x07 ==> res@ == "DATA PROTECT"@,
        key == 0x08 ==> res@ == "BLANK CHECK"@,
        key == 0x0B ==> res@ == "ABORTED COMMAND"@,
        key == 0x0E ==> res@ == "MISCOMPARE"@,
        key == 0x09 || key == 0x0A || key == 0x0C || key == 0x0D || key > 0x0E ==> res@
            == "UNKNOWN"@,
{
    match key {
        0x00 => "NO SENSE",
        0x01 => "RECOVERED ERROR",
        0x02 => "NOT READY",
        0x03 => "MEDIUM ERROR",
        0x04 => "HARDWARE ERROR",
        0x05 => "ILLEGAL REQUEST",
        0x06 => "UNIT ATTENTION",
        0x07 => "DATA PROTECT",
        0x08 => "BLANK CHECK",
        0x0B => "ABORTED COMMAND",
        0x0E => "MISCOMPARE",
        _ => "UNKNOWN",
    }
}

/// MODE SENSE(6) response header.
#[derive(Debug, Clone, Copy)]
pub struct ModeSenseHeader {
    /// Mode data length (byte 0).
    pub data_length: u8,
    /// Medium type (byte 1).
    pub medium_type: u8,
    /// Device-specific parameter (byte 2). Bit 7 is write protection.
    pub device_specific: u8,
    /// Block descriptor length (byte 3).
    pub block_descriptor_length: u8,
}

impl ModeSenseHeader {
    /// What a response stands for; it needs 4 bytes.
    pub open spec fn decoded(b: Seq<u8>) -> Option<ModeSenseHeader> {
        if b.len() < 4 {
            None
        } else {
            Some(
                ModeSenseHeader {
                    data_length: b[0],
                    medium_type: b[1],
                    device_specific: b[2],
                    block_descriptor_length: b[3],
                },
            )
        }
    }

    /// Whether the device refuses writes.
    pub open spec fn protects(self) -> bool {
        self.device_specific >= 0x80
    }

    /// Parses a MODE SENSE(6) response.
    pub fn from_bytes(buf: &[u8]) -> (res: Option<Self>)
        ensures
            res == Self::decoded(buf@),
            res is Some <==> buf@.len() >= 4,
            res matches Some(h) ==> {
                &&& h.data_length == buf@[0]
                &&& h.medium_type == buf@[1]
                &&& h.device_specific == buf@[2]
                &&& h.block_descriptor_length == buf@[3]
            },
    {
        if buf.len() < 4 {
            return None;
        }
        Some(
            ModeSenseHeader {
                data_length: buf[0],
                medium_type: buf[1],
                device_specific: buf[2],
                block_descriptor_length: buf[3],
            },
        )
    }

    /// Whether the device refuses writes.
    pub fn is_write_protected(&self) -> (res: bool)
        ensures
            res == self.protects(),
            res <==> self.device_specific >= 0x80,
    {
        self.device_specific >= 0x80
    }
}

/// The blocks that a 10-byte command names can be read back from its command
/// block.
pub proof fn law_blocks_round_trip(op: ScsiOpcode, lba: u32, block_count: u16)
    ensures
        cdb10(op, lba, block_count).len() == 10,
        cdb10(op, lba, block_count)[0] == op.code(),
        be32_value(cdb10(op, lba, block_count).subrange(2, 6)) == lba,
        be16_value(cdb10(op, lba, block_count).subrange(7, 9)) == block_count,
{
    let c = cdb10(op, lba, block_count);
    assert(c.subrange(2, 6) =~= be32(lba));
    assert(c.subrange(7, 9) =~= be16(block_count));
    law_be32_round_trip(lba, be32(lba));
    law_be16_round_trip(block_count, be16(block_count));
}

/// Where a field of a response stands, and what it says: in ASCII bytes from `at`
/// to `end` with nothing but blanks before `i` and from `j` on.
pub open spec fn blank_around(b: Seq<u8>, at: int, i: int, j: int, end: int) -> bool {
    &&& at <= i <= j <= end <= b.len()
    &&& forall|k: int| at <= k < end ==> #[trigger] b[k] < 0x80
    &&& forall|k: int|
        at <= k < i || j <= k < end ==> #[trigger] b[k] == 0x20 || 0x09 <= b[k] <= 0x0d
    &&& i < j ==> b[i] != 0x20 && !(0x09 <= b[i] <= 0x0d)
    &&& i < j ==> b[j - 1] != 0x20 && !(0x09 <= b[j - 1] <= 0x0d)
}

proof fn lemma_field(b: Seq<u8>, at: int, i: int, j: int, end: int)
    requires
        0 <= at,
        blank_around(b, at, i, j, end),
    ensures
        field_text(b.subrange(at, end)) == Seq::new((j - i) as nat, |k: int| b[i + k] as char),
{
    let f = b.subrange(at, end);
    assert forall|k: int| 0 <= k < f.len() implies #[trigger] f[k] < 0x80 by {
        assert(b[at + k] < 0x80);
    }
    assert forall|k: int| 0 <= k < i - at || j - at <= k < f.len() implies #[trigger] f[k] == 0x20
        || 0x09 <= f[k] <= 0x0d by {
        assert(b[at + k] == f[k]);
    }
    law_field_text(f, i - at, j - at);
    assert(field_text(f) =~= Seq::new((j - i) as nat, |k: int| b[i + k] as char));
}

/// An INQUIRY response of 36 bytes or more says, character for character: the
/// vendor in bytes 8 to 15, the product in bytes 16 to 31, and the revision in
/// bytes 32 to 35, each without the blanks around it.
pub proof fn law_inquiry_says(b: Seq<u8>, v: (int, int), p: (int, int), r: (int, int))
    requires
        b.len() >= 36,
        blank_around(b, 8, v.0, v.1, 16),
        blank_around(b, 16, p.0, p.1, 32),
        blank_around(b, 32, r.0, r.1, 36),
    ensures
        ({
            let d = InquiryView::decoded(b);
            &&& d is Some
            &&& d->0.peripheral_device_type == b[0] % 32
            &&& d->0.removable <==> b[1] >= 0x80
            &&& d->0.vendor == Seq::new((v.1 - v.0) as nat, |k: int| b[v.0 + k] as char)
            &&& d->0.product == Seq::new((p.1 - p.0) as nat, |k: int| b[p.0 + k] as char)
            &&& d->0.revision == Seq::new((r.1 - r.0) as nat, |k: int| b[r.0 + k] as char)
        }),
{
    lemma_field(b, 8, v.0, v.1, 16);
    lemma_field(b, 16, p.0, p.1, 32);
    lemma_field(b, 32, r.0, r.1, 36);
}

} // verus!
