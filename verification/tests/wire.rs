use usb_storage_nostd::block::DeviceError;
use usb_storage_nostd::bot::{
    BotError, CommandBlockWrapper, CommandStatusWrapper, CswStatus, TagCounter,
};
use usb_storage_nostd::bytes::{u16_to_be, u32_from_be, u32_from_le, u32_to_be, u32_to_le};
use usb_storage_nostd::driver::{is_mass_storage_bot, UsbInterfaceDescriptor};
use usb_storage_nostd::scsi::{
    sense_key_name, InquiryData, ModeSenseHeader, ReadCapacity10Data, ScsiCommand, ScsiOpcode,
    SenseData,
};
use usb_storage_nostd::text::{push_hex, read_field};

fn csw(tag: u32, residue: u32, status: u8) -> [u8; 13] {
    let mut b = [0u8; 13];
    b[0..4].copy_from_slice(b"USBS");
    b[4..8].copy_from_slice(&tag.to_le_bytes());
    b[8..12].copy_from_slice(&residue.to_le_bytes());
    b[12] = status;
    b
}

#[test]
fn integers_round_trip() {
    assert_eq!(u32_to_le(0x0102_0304), [4, 3, 2, 1]);
    assert_eq!(u32_to_be(0x0102_0304), [1, 2, 3, 4]);
    assert_eq!(u16_to_be(0x0102), [1, 2]);
    for x in [0u32, 1, 0xff, 0x100, 0x1234_5678, 0x8000_0000, u32::MAX] {
        assert_eq!(u32_to_le(x), x.to_le_bytes());
        assert_eq!(u32_to_be(x), x.to_be_bytes());
        assert_eq!(u32_from_le(&u32_to_le(x), 0), x);
        assert_eq!(u32_from_be(&u32_to_be(x), 0), x);
    }
    assert_eq!(u32_from_le(&[9, 9, 1, 0, 0, 0x80], 2), 0x8000_0001);
    assert_eq!(u32_from_be(&[9, 9, 1, 0, 0, 0x80], 2), 0x0100_0080);
}

#[test]
fn cbw_has_the_wire_layout() {
    let mut tags = TagCounter { next: 0xA1B2_C3D4 };
    let cbw = CommandBlockWrapper::new(&[0x12, 0, 0, 0, 36, 0], 36, true, 0x35, &mut tags);
    assert_eq!(cbw.tag, 0xA1B2_C3D4);
    assert_eq!(cbw.cdb_length, 6);
    let expected: [u8; 31] = [
        0x55, 0x53, 0x42, 0x43, 0xD4, 0xC3, 0xB2, 0xA1, 36, 0, 0, 0, 0x80, 0x05, 6, 0x12, 0, 0, 0,
        36, 0, 0, 0, 0, 0, 0, 0, 0, 0, 0, 0,
    ];
    assert_eq!(cbw.to_bytes(), expected);
}

#[test]
fn cbw_for_sending_has_a_clear_direction_bit() {
    let mut tags = TagCounter::new();
    let cbw = CommandBlockWrapper::new(&[0x2A], 0x0001_0200, false, 0, &mut tags);
    let bytes = cbw.to_bytes();
    assert_eq!(bytes[4..8], [1, 0, 0, 0]);
    assert_eq!(bytes[8..12], [0, 2, 1, 0]);
    assert_eq!(bytes[12], 0);
    assert_eq!(bytes[14], 1);
}

#[test]
fn cbw_cuts_a_long_command() {
    let mut tags = TagCounter::new();
    let long: Vec<u8> = (1..=20).collect();
    let cbw = CommandBlockWrapper::new(&long, 0, false, 0, &mut tags);
    assert_eq!(cbw.cdb_length, 16);
    assert_eq!(cbw.cdb, [1, 2, 3, 4, 5, 6, 7, 8, 9, 10, 11, 12, 13, 14, 15, 16]);
    let empty = CommandBlockWrapper::new(&[], 0, false, 0, &mut tags);
    assert_eq!(empty.cdb_length, 0);
    assert_eq!(empty.cdb, [0u8; 16]);
}

#[test]
fn cbws_that_differ_have_different_bytes() {
    let mut tags = TagCounter::new();
    let a = CommandBlockWrapper::new(&[0x28, 1], 512, true, 0, &mut tags);
    let b = CommandBlockWrapper::new(&[0x28, 1], 512, true, 0, &mut tags);
    assert_ne!(a.to_bytes(), b.to_bytes());
    let mut c = a.clone();
    assert_eq!(a.to_bytes(), c.to_bytes());
    c.cdb[15] = 1;
    assert_ne!(a.to_bytes(), c.to_bytes());
    let mut d = a.clone();
    d.lun = 16;
    assert_eq!(a.to_bytes(), d.to_bytes());
}

#[test]
fn tags_count_up_and_wrap() {
    let mut tags = TagCounter::new();
    assert_eq!(tags.next_tag(), 1);
    assert_eq!(tags.next_tag(), 2);
    assert_eq!(tags.next_tag(), 3);
    let mut last = TagCounter { next: u32::MAX };
    assert_eq!(last.next_tag(), u32::MAX);
    assert_eq!(last.next_tag(), 0);
    assert_eq!(last.next, 1);
}

#[test]
fn csw_round_trip() {
    let parsed = CommandStatusWrapper::from_bytes(&csw(0xDEAD_BEEF, 0x0001_0203, 1)).unwrap();
    assert_eq!(parsed.tag, 0xDEAD_BEEF);
    assert_eq!(parsed.data_residue, 0x0001_0203);
    assert_eq!(parsed.status, CswStatus::Failed);
    assert_eq!(CommandStatusWrapper::from_bytes(&csw(1, 0, 0)).unwrap().status, CswStatus::Passed);
    assert_eq!(
        CommandStatusWrapper::from_bytes(&csw(1, 0, 2)).unwrap().status,
        CswStatus::PhaseError
    );
}

#[test]
fn csw_with_wrong_signature() {
    let mut b = csw(1, 0, 9);
    b[3] = 0x43;
    assert!(matches!(
        CommandStatusWrapper::from_bytes(&b),
        Err(BotError::CswSignatureInvalid(0x4342_5355))
    ));
}

#[test]
fn csw_with_unknown_status() {
    assert!(matches!(
        CommandStatusWrapper::from_bytes(&csw(1, 0, 3)),
        Err(BotError::UnknownStatus(3))
    ));
    assert!(matches!(CswStatus::from_byte(0xff), Err(BotError::UnknownStatus(0xff))));
    assert!(matches!(CswStatus::from_byte(0), Ok(CswStatus::Passed)));
    assert!(matches!(CswStatus::from_byte(1), Ok(CswStatus::Failed)));
    assert!(matches!(CswStatus::from_byte(2), Ok(CswStatus::PhaseError)));
}

#[test]
fn csw_is_checked_for_tag_before_status() {
    let failed = CommandStatusWrapper { tag: 7, data_residue: 0, status: CswStatus::Failed };
    assert!(matches!(
        failed.validate(8),
        Err(BotError::CswTagMismatch { expected: 8, got: 7 })
    ));
    assert!(matches!(failed.validate(7), Err(BotError::CommandFailed)));
    let phase = CommandStatusWrapper { tag: 7, data_residue: 0, status: CswStatus::PhaseError };
    assert!(matches!(phase.validate(7), Err(BotError::PhaseError)));
    let passed = CommandStatusWrapper { tag: 7, data_residue: 5, status: CswStatus::Passed };
    assert!(passed.validate(7).is_ok());
}

#[test]
fn transport_errors_in_words() {
    assert_eq!(BotError::CbwTransferFailed.message(), "CBW transfer failed");
    assert_eq!(BotError::CswTransferFailed.message(), "CSW transfer failed");
    assert_eq!(
        BotError::CswSignatureInvalid(0x00ab_cdef).message(),
        "CSW invalid signature: 0x00abcdef"
    );
    assert_eq!(
        BotError::CswTagMismatch { expected: 0x10, got: 0xffff_ffff }.message(),
        "CSW tag mismatch: expected 0x00000010, got 0xffffffff"
    );
    assert_eq!(BotError::CommandFailed.message(), "SCSI command failed (bCSWStatus=1)");
    assert_eq!(
        BotError::PhaseError.message(),
        "BOT phase error (bCSWStatus=2), reset required"
    );
    assert_eq!(BotError::DataTransferFailed.message(), "bulk data transfer failed");
    assert_eq!(BotError::ResetFailed.message(), "Bulk-Only Mass Storage Reset failed");
    assert_eq!(BotError::ClearHaltFailed.message(), "Clear Feature HALT failed");
    assert_eq!(BotError::UnknownStatus(0x0a).message(), "unknown CSW status: 0x0a");
    assert_eq!(BotError::Timeout.message(), "BOT transfer timed out");
}

#[test]
fn device_errors_in_words() {
    assert_eq!(DeviceError::IoError.message(), "I/O error");
    assert_eq!(DeviceError::OutOfBounds.message(), "out of bounds");
    assert_eq!(DeviceError::NotReady.message(), "not ready");
    assert_eq!(DeviceError::Timeout.message(), "timeout");
}

#[test]
fn hexadecimal_numbers_are_padded() {
    for x in [0u32, 9, 10, 15, 16, 0xdead_beef] {
        let mut out = String::from("x=");
        push_hex(&mut out, x, 8);
        assert_eq!(out, format!("x={:#010x}", x));
    }
    let mut out = String::new();
    push_hex(&mut out, 0x3f, 2);
    assert_eq!(out, "0x3f");
}

#[test]
fn operation_codes() {
    assert_eq!(ScsiOpcode::TestUnitReady.to_byte(), 0x00);
    assert_eq!(ScsiOpcode::RequestSense.to_byte(), 0x03);
    assert_eq!(ScsiOpcode::Inquiry.to_byte(), 0x12);
    assert_eq!(ScsiOpcode::ModeSense6.to_byte(), 0x1A);
    assert_eq!(ScsiOpcode::ReadCapacity10.to_byte(), 0x25);
    assert_eq!(ScsiOpcode::Read10.to_byte(), 0x28);
    assert_eq!(ScsiOpcode::Write10.to_byte(), 0x2A);
}

#[test]
fn command_blocks() {
    let zero = [0u8; 16];
    assert_eq!(ScsiCommand::TestUnitReady.to_cdb(), (zero, 6));

    let mut sense = zero;
    sense[0] = 0x03;
    sense[4] = 18;
    assert_eq!(ScsiCommand::RequestSense { alloc_len: 18 }.to_cdb(), (sense, 6));

    let mut inquiry = zero;
    inquiry[0] = 0x12;
    inquiry[4] = 36;
    assert_eq!(ScsiCommand::Inquiry { alloc_len: 36 }.to_cdb(), (inquiry, 6));

    let mut mode = zero;
    mode[0] = 0x1A;
    mode[2] = 0x3F;
    mode[4] = 192;
    assert_eq!(ScsiCommand::ModeSense { page_code: 0xFF, alloc_len: 192 }.to_cdb(), (mode, 6));

    let mut capacity = zero;
    capacity[0] = 0x25;
    assert_eq!(ScsiCommand::ReadCapacity10.to_cdb(), (capacity, 10));
}

#[test]
fn blocks_round_trip_through_a_command_block() {
    let (read, n) = ScsiCommand::Read10 { lba: 0x0102_0304, block_count: 0x0506 }.to_cdb();
    assert_eq!(n, 10);
    assert_eq!(read, [0x28, 0, 1, 2, 3, 4, 0, 5, 6, 0, 0, 0, 0, 0, 0, 0]);
    let (write, n) = ScsiCommand::Write10 { lba: 0xFFFF_FFFE, block_count: 128 }.to_cdb();
    assert_eq!(n, 10);
    assert_eq!(write, [0x2A, 0, 0xff, 0xff, 0xff, 0xfe, 0, 0, 128, 0, 0, 0, 0, 0, 0, 0]);
    assert_eq!(u32_from_be(&write, 2), 0xFFFF_FFFE);
}

#[test]
fn transfer_lengths_and_directions() {
    let commands = [
        (ScsiCommand::TestUnitReady, 0, false),
        (ScsiCommand::RequestSense { alloc_len: 18 }, 18, true),
        (ScsiCommand::Inquiry { alloc_len: 36 }, 36, true),
        (ScsiCommand::ModeSense { page_code: 0x3F, alloc_len: 192 }, 192, true),
        (ScsiCommand::ReadCapacity10, 8, true),
        (ScsiCommand::Read10 { lba: 9, block_count: 3 }, 1536, true),
        (ScsiCommand::Write10 { lba: 9, block_count: 128 }, 65536, false),
    ];
    for (cmd, len, is_in) in commands {
        assert_eq!(cmd.data_transfer_length(512), len);
        assert_eq!(cmd.is_data_in(), is_in);
    }
}

fn inquiry_response() -> Vec<u8> {
    let mut b = vec![0u8; 36];
    b[0] = 0xE5;
    b[1] = 0x80;
    b[8..16].copy_from_slice(b"ACME    ");
    b[16..32].copy_from_slice(b" Flash Drive 1  ");
    b[32..36].copy_from_slice(b"1.0\n");
    b
}

#[test]
fn inquiry_fields_are_trimmed() {
    let d = InquiryData::from_bytes(&inquiry_response()).unwrap();
    assert_eq!(d.peripheral_device_type, 0x05);
    assert!(d.removable);
    assert_eq!(d.vendor, "ACME");
    assert_eq!(d.product, "Flash Drive 1");
    assert_eq!(d.revision, "1.0");
}

#[test]
fn inquiry_with_fields_that_are_not_text() {
    let mut b = inquiry_response();
    b[1] = 0x7f;
    b[8] = 0xff;
    b[32..36].copy_from_slice(&[b'v', 0xc3, 0xa4, b' ']);
    let d = InquiryData::from_bytes(&b).unwrap();
    assert!(!d.removable);
    assert_eq!(d.vendor, "<invalid>");
    assert_eq!(d.revision, "v\u{e4}");
}

#[test]
fn inquiry_needs_36_bytes() {
    let b = inquiry_response();
    assert!(InquiryData::from_bytes(&b[..35]).is_none());
    let mut longer = b.clone();
    longer.push(0xff);
    assert!(InquiryData::from_bytes(&longer).is_some());
}

#[test]
fn fields_lose_unicode_white_space() {
    assert_eq!(read_field("\u{3000}\u{a0}a b\u{2003}\t".as_bytes()), "a b");
    assert_eq!(read_field(b"   "), "");
    assert_eq!(read_field(b""), "");
    assert_eq!(read_field(&[0x80]), "<invalid>");
    assert_eq!(read_field(b"\0x\0"), "\0x\0");
}

#[test]
fn capacity_response() {
    let c = ReadCapacity10Data::from_bytes(&[0, 0, 0x0F, 0xFF, 0, 0, 2, 0]).unwrap();
    assert_eq!(c.last_lba, 4095);
    assert_eq!(c.block_size, 512);
    assert_eq!(c.total_blocks(), 4096);
    assert_eq!(c.total_bytes(), 2 * 1024 * 1024);
    assert!(ReadCapacity10Data::from_bytes(&[0; 7]).is_none());
}

#[test]
fn capacity_of_the_largest_device() {
    let c = ReadCapacity10Data::from_bytes(&[0xff; 8]).unwrap();
    assert_eq!(c.total_blocks(), 0x1_0000_0000);
    assert_eq!(c.total_bytes(), 0xffff_ffff_0000_0000);
}

#[test]
fn sense_response() {
    let mut b = [0u8; 18];
    b[2] = 0xF2;
    b[12] = 0x3A;
    b[13] = 0x01;
    let s = SenseData::from_bytes(&b).unwrap();
    assert_eq!((s.sense_key, s.asc, s.ascq), (0x02, 0x3A, 0x01));
    let short = SenseData::from_bytes(&b[..13]).unwrap();
    assert_eq!((short.sense_key, short.asc, short.ascq), (0x02, 0, 0));
    let shortest = SenseData::from_bytes(&b[..3]).unwrap();
    assert_eq!((shortest.sense_key, shortest.asc, shortest.ascq), (0x02, 0, 0));
    assert!(SenseData::from_bytes(&b[..2]).is_none());
}

#[test]
fn sense_key_names() {
    let names = [
        "NO SENSE",
        "RECOVERED ERROR",
        "NOT READY",
        "MEDIUM ERROR",
        "HARDWARE ERROR",
        "ILLEGAL REQUEST",
        "UNIT ATTENTION",
        "DATA PROTECT",
        "BLANK CHECK",
        "UNKNOWN",
        "UNKNOWN",
        "ABORTED COMMAND",
        "UNKNOWN",
        "UNKNOWN",
        "MISCOMPARE",
        "UNKNOWN",
    ];
    for (key, name) in names.iter().enumerate() {
        assert_eq!(sense_key_name(key as u8), *name);
    }
    assert_eq!(sense_key_name(0x10), "UNKNOWN");
}

#[test]
fn mode_response() {
    let h = ModeSenseHeader::from_bytes(&[3, 1, 0x80, 8, 0xff]).unwrap();
    assert_eq!(h.data_length, 3);
    assert_eq!(h.medium_type, 1);
    assert_eq!(h.device_specific, 0x80);
    assert_eq!(h.block_descriptor_length, 8);
    assert!(h.is_write_protected());
    assert!(!ModeSenseHeader::from_bytes(&[3, 1, 0x7f, 8]).unwrap().is_write_protected());
    assert!(ModeSenseHeader::from_bytes(&[3, 1, 0x80]).is_none());
}

#[test]
fn detection_needs_all_three_codes() {
    let stick = UsbInterfaceDescriptor {
        interface_class: 0x08,
        interface_subclass: 0x06,
        interface_protocol: 0x50,
    };
    assert!(is_mass_storage_bot(&stick));
    assert!(!is_mass_storage_bot(&UsbInterfaceDescriptor { interface_class: 0x03, ..stick }));
    assert!(!is_mass_storage_bot(&UsbInterfaceDescriptor { interface_subclass: 0x05, ..stick }));
    assert!(!is_mass_storage_bot(&UsbInterfaceDescriptor { interface_protocol: 0x62, ..stick }));
}
