use std::sync::{Arc, Mutex};
use usb_storage_nostd::bot::{BotError, BulkTransport, TagCounter};
use usb_storage_nostd::link::{wrap, Link};
use usb_storage_nostd::unit::StorageUnit;
use usb_storage_nostd::{BlockDevice, DeviceError, ScsiCommand, UsbStorageDevice};

/// Where a stick is in the exchange of a command.
enum Phase {
    Command,
    DataIn(Vec<u8>),
    DataOut { at: usize, left: usize },
    Status,
}

/// A memory stick.
struct Stick {
    disk: Vec<u8>,
    /// Address of the first block that `disk` holds.
    base: usize,
    block_size: usize,
    inquiry: Vec<u8>,
    mode: Vec<u8>,
    /// Answer to READ CAPACITY(10), where it is not the true one.
    geometry: Option<[u8; 8]>,
    /// Number of times that TEST UNIT READY fails.
    busy: usize,
    /// Commands that are answered with another status than "passed".
    refused: Vec<(u8, u8)>,
    /// Number of the READ(10) or WRITE(10) that fails.
    fails_at: Option<usize>,
    /// Most bytes that one bulk transfer moves.
    piece: usize,
    phase: Phase,
    tag: [u8; 4],
    status: u8,
    commands: Vec<Vec<u8>>,
    resets: usize,
}

impl Stick {
    fn blank(blocks: usize, block_size: usize) -> Stick {
        let mut inquiry = vec![0u8; 36];
        inquiry[1] = 0x80;
        inquiry[8..16].copy_from_slice(b"ACME    ");
        inquiry[16..32].copy_from_slice(b"Flash Drive     ");
        inquiry[32..36].copy_from_slice(b"2.1 ");
        Stick {
            disk: (0..blocks * block_size).map(|i| (i * 31 % 251) as u8).collect(),
            base: 0,
            block_size,
            inquiry,
            mode: vec![3, 0, 0, 0],
            geometry: None,
            busy: 0,
            refused: Vec::new(),
            fails_at: None,
            piece: 4096,
            phase: Phase::Command,
            tag: [0; 4],
            status: 0,
            commands: Vec::new(),
            resets: 0,
        }
    }

    fn command(&mut self, cbw: &[u8]) {
        assert_eq!(cbw.len(), 31);
        assert_eq!(cbw[0..4], *b"USBC");
        self.commands.push(cbw.to_vec());
        self.tag.copy_from_slice(&cbw[4..8]);
        self.status = 0;
        let announced = u32::from_le_bytes([cbw[8], cbw[9], cbw[10], cbw[11]]) as usize;
        let lba = u32::from_be_bytes([cbw[17], cbw[18], cbw[19], cbw[20]]) as usize;
        let count = u16::from_be_bytes([cbw[22], cbw[23]]) as usize;
        let at = lba.wrapping_sub(self.base).wrapping_mul(self.block_size);
        let transfers =
            self.commands.iter().filter(|c| c[15] == 0x28 || c[15] == 0x2A).count();
        let reply = match cbw[15] {
            0x00 => {
                if self.busy > 0 {
                    self.busy -= 1;
                    self.status = 1;
                }
                Vec::new()
            }
            0x03 => vec![0x70, 0, 0x02, 0, 0, 0, 0, 10, 0, 0, 0, 0, 0x04, 0x01, 0, 0, 0, 0],
            0x12 => self.inquiry.clone(),
            0x1A => self.mode.clone(),
            0x25 => {
                let last = (self.base + self.disk.len() / self.block_size - 1) as u32;
                let mut b = last.to_be_bytes().to_vec();
                b.extend_from_slice(&(self.block_size as u32).to_be_bytes());
                match self.geometry {
                    Some(told) => told.to_vec(),
                    None => b,
                }
            }
            0x28 => {
                assert_eq!(announced, count * self.block_size);
                self.disk[at..at + announced].to_vec()
            }
            0x2A => {
                assert_eq!(announced, count * self.block_size);
                Vec::new()
            }
            other => panic!("unexpected operation code {}", other),
        };
        for (code, status) in &self.refused {
            if *code == cbw[15] {
                self.status = *status;
            }
        }
        if (cbw[15] == 0x28 || cbw[15] == 0x2A) && Some(transfers) == self.fails_at {
            self.status = 1;
        }
        self.phase = if announced > 0 && cbw[12] == 0x80 && !reply.is_empty() {
            Phase::DataIn(reply)
        } else if announced > 0 && cbw[12] == 0 {
            Phase::DataOut { at, left: announced }
        } else {
            Phase::Status
        };
    }
}

/// The host's end of a stick.
struct Plug(Arc<Mutex<Stick>>);

impl BulkTransport for Plug {
    fn bulk_out(&mut self, data: &[u8]) -> Result<usize, BotError> {
        let mut stick = self.0.lock().unwrap();
        match stick.phase {
            Phase::Command => {
                stick.command(data);
                Ok(data.len())
            }
            Phase::DataOut { at, left } => {
                let n = data.len().min(stick.piece).min(left);
                stick.disk[at..at + n].copy_from_slice(&data[..n]);
                stick.phase = if n == left {
                    Phase::Status
                } else {
                    Phase::DataOut { at: at + n, left: left - n }
                };
                Ok(n)
            }
            _ => Err(BotError::DataTransferFailed),
        }
    }

    fn bulk_in(&mut self, buf: &mut [u8]) -> Result<usize, BotError> {
        let mut stick = self.0.lock().unwrap();
        let piece = stick.piece;
        let (n, next) = match &mut stick.phase {
            Phase::DataIn(reply) => {
                let n = buf.len().min(piece).min(reply.len());
                buf[..n].copy_from_slice(&reply[..n]);
                let rest = reply.split_off(n);
                if n == 0 || (rest.is_empty() && n == buf.len()) {
                    (n, Phase::Status)
                } else {
                    (n, Phase::DataIn(rest))
                }
            }
            Phase::Status => {
                assert_eq!(buf.len(), 13);
                buf[0..4].copy_from_slice(b"USBS");
                buf[4..8].copy_from_slice(&stick.tag);
                buf[8..12].copy_from_slice(&[0; 4]);
                buf[12] = stick.status;
                (13, Phase::Command)
            }
            _ => return Err(BotError::DataTransferFailed),
        };
        stick.phase = next;
        Ok(n)
    }

    fn mass_storage_reset(&mut self) -> Result<(), BotError> {
        let mut stick = self.0.lock().unwrap();
        stick.resets += 1;
        stick.phase = Phase::Command;
        Ok(())
    }

    fn clear_halt(&mut self, endpoint: u8) -> Result<(), BotError> {
        assert!(endpoint == 0x81 || endpoint == 0x02);
        Ok(())
    }

    fn bulk_in_endpoint(&mut self) -> u8 {
        0x81
    }

    fn bulk_out_endpoint(&mut self) -> u8 {
        0x02
    }
}

fn plugged(stick: Stick) -> (Arc<Mutex<Stick>>, Plug) {
    let shared = Arc::new(Mutex::new(stick));
    let plug = Plug(shared.clone());
    (shared, plug)
}

fn counter() -> spin::Mutex<TagCounter> {
    spin::Mutex::new(TagCounter::new())
}

fn codes(stick: &Arc<Mutex<Stick>>) -> Vec<u8> {
    stick.lock().unwrap().commands.iter().map(|c| c[15]).collect()
}

/// The READ(10) and WRITE(10) commands: operation code, address, count.
fn transfers(stick: &Arc<Mutex<Stick>>) -> Vec<(u8, u32, u16)> {
    let stick = stick.lock().unwrap();
    stick
        .commands
        .iter()
        .filter(|c| c[15] == 0x28 || c[15] == 0x2A)
        .map(|c| {
            let lba = u32::from_be_bytes([c[17], c[18], c[19], c[20]]);
            (c[15], lba, u16::from_be_bytes([c[22], c[23]]))
        })
        .collect()
}

#[test]
fn a_new_device_knows_nothing() {
    let tags = counter();
    let (_stick, plug) = plugged(Stick::blank(8, 512));
    let dev = UsbStorageDevice::new(plug, 0, &tags);
    assert!(dev.inquiry().is_none());
    assert!(dev.capacity().is_none());
    assert!(!dev.is_write_protected());
    assert_eq!(dev.sector_size(), 512);
    assert_eq!(dev.total_size(), 0);
    assert!(dev.flush().is_ok());
}

#[test]
fn init_learns_identity_and_geometry() {
    let tags = counter();
    let (stick, plug) = plugged(Stick::blank(16, 4096));
    let mut dev = UsbStorageDevice::new(plug, 0x23, &tags);
    assert!(dev.init().is_ok());
    let d = dev.inquiry().unwrap();
    assert_eq!(d.vendor, "ACME");
    assert_eq!(d.product, "Flash Drive");
    assert_eq!(d.revision, "2.1");
    assert!(d.removable);
    assert_eq!(d.peripheral_device_type, 0);
    assert_eq!(dev.capacity().unwrap().last_lba, 15);
    assert_eq!(dev.sector_size(), 4096);
    assert_eq!(dev.total_size(), 65536);
    assert!(!dev.is_write_protected());
    assert_eq!(codes(&stick), vec![0x12, 0x00, 0x25, 0x1A]);
    let stick = stick.lock().unwrap();
    let expected: [u8; 31] = [
        0x55, 0x53, 0x42, 0x43, 1, 0, 0, 0, 36, 0, 0, 0, 0x80, 3, 6, 0x12, 0, 0, 0, 36, 0, 0, 0, 0,
        0, 0, 0, 0, 0, 0, 0,
    ];
    assert_eq!(stick.commands[0], expected);
    let mode: [u8; 31] = [
        0x55, 0x53, 0x42, 0x43, 4, 0, 0, 0, 192, 0, 0, 0, 0x80, 3, 6, 0x1A, 0, 0x3F, 0, 192, 0, 0,
        0, 0, 0, 0, 0, 0, 0, 0, 0,
    ];
    assert_eq!(stick.commands[3], mode);
}

#[test]
fn init_waits_for_a_busy_device() {
    let tags = counter();
    let mut blank = Stick::blank(8, 512);
    blank.busy = 3;
    let (stick, plug) = plugged(blank);
    let mut dev = UsbStorageDevice::new(plug, 0, &tags);
    assert!(dev.init().is_ok());
    assert_eq!(
        codes(&stick),
        vec![0x12, 0x00, 0x03, 0x00, 0x03, 0x00, 0x03, 0x00, 0x25, 0x1A]
    );
}

#[test]
fn init_succeeds_at_the_tenth_attempt() {
    let tags = counter();
    let mut blank = Stick::blank(8, 512);
    blank.busy = 9;
    let (stick, plug) = plugged(blank);
    let mut dev = UsbStorageDevice::new(plug, 0, &tags);
    assert!(dev.init().is_ok());
    assert_eq!(codes(&stick).len(), 1 + 2 * 9 + 1 + 2);
}

#[test]
fn init_times_out_after_ten_attempts() {
    let tags = counter();
    let mut blank = Stick::blank(8, 512);
    blank.busy = 1000;
    let (stick, plug) = plugged(blank);
    let mut dev = UsbStorageDevice::new(plug, 0, &tags);
    assert!(matches!(dev.init(), Err(BotError::Timeout)));
    assert_eq!(codes(&stick).len(), 1 + 2 * 10);
    assert!(dev.inquiry().is_some());
    assert!(dev.capacity().is_none());
}

#[test]
fn init_goes_on_where_sense_cannot_be_had() {
    let tags = counter();
    let mut blank = Stick::blank(8, 512);
    blank.busy = 1;
    blank.refused.push((0x03, 1));
    let (_stick, plug) = plugged(blank);
    let mut dev = UsbStorageDevice::new(plug, 0, &tags);
    assert!(dev.init().is_ok());
}

#[test]
fn init_stops_at_the_first_error() {
    let tags = counter();
    let mut blank = Stick::blank(8, 512);
    blank.refused.push((0x12, 1));
    let (stick, plug) = plugged(blank);
    let mut dev = UsbStorageDevice::new(plug, 0, &tags);
    assert!(matches!(dev.init(), Err(BotError::CommandFailed)));
    assert_eq!(codes(&stick), vec![0x12]);
    assert!(dev.inquiry().is_none());

    let mut blank = Stick::blank(8, 512);
    blank.refused.push((0x00, 2));
    let (stick, plug) = plugged(blank);
    let mut dev = UsbStorageDevice::new(plug, 0, &tags);
    assert!(matches!(dev.init(), Err(BotError::PhaseError)));
    assert_eq!(codes(&stick), vec![0x12, 0x00]);
    assert_eq!(stick.lock().unwrap().resets, 1);

    let mut blank = Stick::blank(8, 512);
    blank.refused.push((0x25, 1));
    let (stick, plug) = plugged(blank);
    let mut dev = UsbStorageDevice::new(plug, 0, &tags);
    assert!(matches!(dev.init(), Err(BotError::CommandFailed)));
    assert_eq!(codes(&stick), vec![0x12, 0x00, 0x25]);
    assert!(dev.capacity().is_none());
}

#[test]
fn init_takes_a_device_without_mode_sense() {
    let tags = counter();
    let mut blank = Stick::blank(8, 512);
    blank.mode = vec![3, 0, 0x80, 0];
    blank.refused.push((0x1A, 1));
    let (_stick, plug) = plugged(blank);
    let mut dev = UsbStorageDevice::new(plug, 0, &tags);
    assert!(dev.init().is_ok());
    assert!(!dev.is_write_protected());

    let mut blank = Stick::blank(8, 512);
    blank.refused.push((0x1A, 9));
    let (_stick, plug) = plugged(blank);
    let mut dev = UsbStorageDevice::new(plug, 0, &tags);
    assert!(matches!(dev.init(), Err(BotError::UnknownStatus(9))));
    assert_eq!(dev.capacity().unwrap().last_lba, 7);
}

#[test]
fn identity_that_is_not_text() {
    let tags = counter();
    let mut blank = Stick::blank(8, 512);
    blank.inquiry[9] = 0xfe;
    let (_stick, plug) = plugged(blank);
    let mut dev = UsbStorageDevice::new(plug, 0, &tags);
    assert!(dev.init().is_ok());
    assert_eq!(dev.inquiry().unwrap().vendor, "<invalid>");
}

#[test]
fn a_write_protected_device_is_not_written_to() {
    let tags = counter();
    let mut blank = Stick::blank(8, 512);
    blank.mode = vec![3, 0, 0x80, 0];
    let (stick, plug) = plugged(blank);
    let mut dev = UsbStorageDevice::new(plug, 0, &tags);
    assert!(dev.init().is_ok());
    assert!(dev.is_write_protected());
    let before = codes(&stick);
    let held = stick.lock().unwrap().disk.clone();
    assert!(matches!(dev.write_sectors(0, 1, &[1; 512]), Err(BotError::CommandFailed)));
    assert!(matches!(dev.write_bytes(3, &[1; 5]), Err(DeviceError::IoError)));
    assert!(matches!(dev.write_bytes(u64::MAX, &[1; 5]), Err(DeviceError::IoError)));
    assert_eq!(codes(&stick), before);
    assert_eq!(stick.lock().unwrap().disk, held);
    let mut buf = [0u8; 5];
    assert!(matches!(dev.read_bytes(3, &mut buf), Ok(5)));
    assert_eq!(buf[..], held[3..8]);
}

#[test]
fn sectors_are_read_in_chunks() {
    let tags = counter();
    let (stick, plug) = plugged(Stick::blank(400, 512));
    let mut dev = UsbStorageDevice::new(plug, 0, &tags);
    assert!(dev.init().is_ok());
    let mut buf = vec![0xEE; 300 * 512 + 7];
    assert!(dev.read_sectors(5, 300, &mut buf).is_ok());
    assert_eq!(transfers(&stick), vec![(0x28, 5, 128), (0x28, 133, 128), (0x28, 261, 44)]);
    let disk = stick.lock().unwrap().disk.clone();
    assert_eq!(buf[..300 * 512], disk[5 * 512..305 * 512]);
    assert_eq!(buf[300 * 512..], [0xEE; 7]);
}

#[test]
fn sectors_are_written_in_chunks() {
    let tags = counter();
    let (stick, plug) = plugged(Stick::blank(400, 512));
    let mut dev = UsbStorageDevice::new(plug, 0, &tags);
    assert!(dev.init().is_ok());
    let mut disk = stick.lock().unwrap().disk.clone();
    let data: Vec<u8> = (0..256 * 512 + 3).map(|i| (i % 253) as u8).collect();
    assert!(dev.write_sectors(9, 256, &data).is_ok());
    assert_eq!(transfers(&stick), vec![(0x2A, 9, 128), (0x2A, 137, 128)]);
    disk[9 * 512..265 * 512].copy_from_slice(&data[..256 * 512]);
    assert_eq!(stick.lock().unwrap().disk, disk);
}

#[test]
fn no_sectors_take_no_command() {
    let tags = counter();
    let (stick, plug) = plugged(Stick::blank(8, 512));
    let dev = UsbStorageDevice::new(plug, 0, &tags);
    assert!(dev.read_sectors(3, 0, &mut []).is_ok());
    assert!(dev.write_sectors(3, 0, &[]).is_ok());
    assert!(codes(&stick).is_empty());
}

#[test]
fn buffers_must_be_large_enough() {
    let tags = counter();
    let (stick, plug) = plugged(Stick::blank(8, 512));
    let dev = UsbStorageDevice::new(plug, 0, &tags);
    let mut buf = [0x55u8; 1023];
    assert!(matches!(dev.read_sectors(0, 2, &mut buf), Err(BotError::DataTransferFailed)));
    assert_eq!(buf, [0x55u8; 1023]);
    assert!(matches!(dev.write_sectors(0, 2, &buf), Err(BotError::DataTransferFailed)));
    assert!(codes(&stick).is_empty());
}

#[test]
fn a_failed_command_ends_the_transfer() {
    let tags = counter();
    let mut blank = Stick::blank(400, 512);
    blank.fails_at = Some(2);
    let (stick, plug) = plugged(blank);
    let dev = UsbStorageDevice::new(plug, 0, &tags);
    let mut buf = vec![0xEE; 400 * 512];
    assert!(matches!(dev.read_sectors(0, 390, &mut buf), Err(BotError::CommandFailed)));
    assert_eq!(transfers(&stick), vec![(0x28, 0, 128), (0x28, 128, 128)]);
    assert_eq!(buf[..256 * 512], stick.lock().unwrap().disk[..256 * 512]);
    assert!(buf[256 * 512..].iter().all(|b| *b == 0xEE));
}

#[test]
fn a_failed_transfer_is_an_io_error() {
    let tags = counter();
    let mut blank = Stick::blank(8, 512);
    blank.refused.push((0x28, 1));
    let (stick, plug) = plugged(blank);
    let dev = UsbStorageDevice::new(plug, 0, &tags);
    let mut buf = [0x77u8; 100];
    assert!(matches!(dev.read_bytes(30, &mut buf), Err(DeviceError::IoError)));
    assert_eq!(buf, [0x77u8; 100]);
    let mut whole = [0u8; 512];
    assert!(matches!(dev.read_bytes(0, &mut whole), Err(DeviceError::IoError)));
    assert!(matches!(dev.write_bytes(30, &buf), Err(DeviceError::IoError)));
    assert!(transfers(&stick).iter().all(|t| t.0 == 0x28));

    let mut blank = Stick::blank(8, 512);
    blank.refused.push((0x2A, 1));
    let (_stick, plug) = plugged(blank);
    let dev = UsbStorageDevice::new(plug, 0, &tags);
    assert!(matches!(dev.write_bytes(30, &buf), Err(DeviceError::IoError)));
    assert!(matches!(dev.write_bytes(512, &whole), Err(DeviceError::IoError)));
}

#[test]
fn whole_sectors_are_read_directly() {
    let tags = counter();
    let (stick, plug) = plugged(Stick::blank(8, 512));
    let dev = UsbStorageDevice::new(plug, 0, &tags);
    let mut buf = [0u8; 1024];
    assert!(matches!(dev.read_bytes(512, &mut buf), Ok(1024)));
    assert_eq!(transfers(&stick), vec![(0x28, 1, 2)]);
    assert_eq!(buf[..], stick.lock().unwrap().disk[512..1536]);
}

#[test]
fn bytes_within_sectors_are_read() {
    let tags = counter();
    let (stick, plug) = plugged(Stick::blank(8, 512));
    let dev = UsbStorageDevice::new(plug, 0, &tags);
    let disk = stick.lock().unwrap().disk.clone();
    for (offset, len) in [(0usize, 1usize), (511, 2), (512, 511), (700, 1500), (1, 512), (1023, 1)] {
        let mut buf = vec![0u8; len];
        assert!(matches!(dev.read_bytes(offset as u64, &mut buf), Ok(n) if n == len));
        assert_eq!(buf[..], disk[offset..offset + len]);
    }
    assert_eq!(
        transfers(&stick),
        vec![
            (0x28, 0, 1),
            (0x28, 0, 2),
            (0x28, 1, 1),
            (0x28, 1, 4),
            (0x28, 0, 2),
            (0x28, 1, 1)
        ]
    );
}

#[test]
fn empty_reads() {
    let tags = counter();
    let (stick, plug) = plugged(Stick::blank(8, 512));
    let dev = UsbStorageDevice::new(plug, 0, &tags);
    assert!(matches!(dev.read_bytes(1024, &mut []), Ok(0)));
    assert!(transfers(&stick).is_empty());
    assert!(matches!(dev.read_bytes(1030, &mut []), Ok(0)));
    assert_eq!(transfers(&stick), vec![(0x28, 2, 1)]);
}

#[test]
fn whole_sectors_are_written_directly() {
    let tags = counter();
    let (stick, plug) = plugged(Stick::blank(8, 512));
    let dev = UsbStorageDevice::new(plug, 0, &tags);
    assert!(matches!(dev.write_bytes(1024, &[0xAB; 1024]), Ok(1024)));
    assert_eq!(transfers(&stick), vec![(0x2A, 2, 2)]);
    assert_eq!(stick.lock().unwrap().disk[1024..2048], [0xAB; 1024]);
}

#[test]
fn a_write_within_sectors_keeps_their_other_bytes() {
    let tags = counter();
    let mut blank = Stick::blank(8, 512);
    blank.piece = 100;
    let (stick, plug) = plugged(blank);
    let dev = UsbStorageDevice::new(plug, 0, &tags);
    let mut disk = stick.lock().unwrap().disk.clone();
    assert!(matches!(dev.write_bytes(500, &[0xCD; 600]), Ok(600)));
    assert_eq!(transfers(&stick), vec![(0x28, 0, 3), (0x2A, 0, 3)]);
    disk[500..1100].copy_from_slice(&[0xCD; 600]);
    assert_eq!(stick.lock().unwrap().disk, disk);
}

#[test]
fn what_was_written_is_read_back() {
    let tags = counter();
    let (_stick, plug) = plugged(Stick::blank(300, 512));
    let mut dev = UsbStorageDevice::new(plug, 0, &tags);
    assert!(dev.init().is_ok());
    for (offset, len) in [(0u64, 512usize), (7, 3), (513, 511), (1000, 140_000)] {
        let data: Vec<u8> = (0..len).map(|i| (i * 7 + len) as u8).collect();
        assert!(matches!(dev.write_bytes(offset, &data), Ok(n) if n == len));
        let mut buf = vec![0u8; len];
        assert!(matches!(dev.read_bytes(offset, &mut buf), Ok(n) if n == len));
        assert_eq!(buf, data);
    }
}

#[test]
fn addresses_beyond_32_bits_are_out_of_bounds() {
    let tags = counter();
    let (stick, plug) = plugged(Stick::blank(8, 512));
    let dev = UsbStorageDevice::new(plug, 0, &tags);
    let mut buf = [0u8; 512];
    let beyond = 0x1_0000_0000u64 * 512;
    assert!(matches!(dev.read_bytes(beyond, &mut buf), Err(DeviceError::OutOfBounds)));
    assert!(matches!(dev.write_bytes(beyond, &buf), Err(DeviceError::OutOfBounds)));
    assert!(codes(&stick).is_empty());
}

#[test]
fn requests_beyond_the_end_are_out_of_bounds() {
    let tags = counter();
    let (stick, plug) = plugged(Stick::blank(1, 512));
    let mut dev = UsbStorageDevice::new(plug, 0, &tags);
    assert!(dev.init().is_ok());
    let mut buf = [0u8; 512];
    assert!(matches!(dev.read_bytes(512, &mut buf), Err(DeviceError::OutOfBounds)));
    assert!(matches!(dev.read_bytes(1, &mut buf), Err(DeviceError::OutOfBounds)));
    assert!(matches!(dev.read_bytes(u64::MAX, &mut buf), Err(DeviceError::OutOfBounds)));
    assert!(matches!(dev.write_bytes(511, &[1, 2]), Err(DeviceError::OutOfBounds)));
    assert!(matches!(dev.write_bytes(u64::MAX, &[1]), Err(DeviceError::OutOfBounds)));
    assert!(matches!(dev.read_bytes(513, &mut []), Err(DeviceError::OutOfBounds)));
    assert!(transfers(&stick).is_empty());
    assert!(matches!(dev.read_bytes(512, &mut []), Ok(0)));
    assert!(matches!(dev.read_bytes(0, &mut buf), Ok(512)));
    assert!(matches!(dev.write_bytes(511, &[7]), Ok(1)));
}

#[test]
fn sectors_past_the_last_address_are_out_of_bounds() {
    let tags = counter();
    let (stick, plug) = plugged(Stick::blank(8, 512));
    let dev = UsbStorageDevice::new(plug, 0, &tags);
    let mut buf = [0u8; 1024];
    let last = 0xFFFF_FFFFu64 * 512;
    assert!(matches!(dev.read_bytes(last, &mut buf), Err(DeviceError::OutOfBounds)));
    assert!(matches!(dev.write_bytes(last, &buf), Err(DeviceError::OutOfBounds)));
    assert!(matches!(dev.read_bytes(u64::MAX - 3, &mut buf), Err(DeviceError::OutOfBounds)));
    assert!(codes(&stick).is_empty());
}

#[test]
fn a_device_with_blocks_of_no_bytes() {
    let tags = counter();
    let mut blank = Stick::blank(8, 512);
    blank.geometry = Some([0, 0, 0, 7, 0, 0, 0, 0]);
    let (stick, plug) = plugged(blank);
    let mut dev = UsbStorageDevice::new(plug, 0, &tags);
    assert!(dev.init().is_ok());
    assert_eq!(dev.total_size(), 0);
    assert!(matches!(dev.read_bytes(0, &mut [0]), Err(DeviceError::OutOfBounds)));
    assert!(matches!(dev.read_bytes(0, &mut []), Ok(0)));
    assert!(matches!(dev.write_bytes(0, &[]), Ok(0)));
    assert!(transfers(&stick).is_empty());
}

#[test]
fn blocks_too_large_to_transfer_are_out_of_bounds() {
    let tags = counter();
    let mut blank = Stick::blank(8, 512);
    blank.geometry = Some([0xff; 8]);
    let (stick, plug) = plugged(blank);
    let mut dev = UsbStorageDevice::new(plug, 0, &tags);
    assert!(dev.init().is_ok());
    let across = 0xFFFF_FFFFu64;
    assert!(matches!(dev.read_bytes(across - 1, &mut [0, 0]), Err(DeviceError::OutOfBounds)));
    assert!(transfers(&stick).is_empty());
}

#[test]
fn the_last_block_of_the_largest_device() {
    let tags = counter();
    let mut blank = Stick::blank(130, 512);
    blank.base = 0x1_0000_0000 - 130;
    let (stick, plug) = plugged(blank);
    let mut dev = UsbStorageDevice::new(plug, 0, &tags);
    assert!(dev.init().is_ok());
    assert_eq!(dev.total_size(), 0x1_0000_0000 * 512);
    let mut disk = stick.lock().unwrap().disk.clone();
    let mut buf = vec![0u8; 512];
    assert!(dev.read_sectors(0xFFFF_FFFF, 1, &mut buf).is_ok());
    assert_eq!(buf[..], disk[129 * 512..]);
    let mut all = vec![0u8; 130 * 512];
    assert!(dev.read_sectors(0xFFFF_FF7E, 130, &mut all).is_ok());
    assert_eq!(all, disk);
    assert!(dev.write_sectors(0xFFFF_FFFF, 1, &[3; 512]).is_ok());
    assert!(matches!(dev.read_bytes(0x1_0000_0000 * 512 - 1, &mut buf[..1]), Ok(1)));
    assert_eq!(buf[0], 3);
    disk[129 * 512..].copy_from_slice(&[3; 512]);
    assert_eq!(stick.lock().unwrap().disk, disk);
}

#[test]
fn a_request_for_65536_sectors_is_served_to_the_last_byte() {
    let tags = counter();
    let blank = Stick { disk: vec![0x99; 65540 * 512], piece: 65536, ..Stick::blank(1, 512) };
    let (stick, plug) = plugged(blank);
    let mut dev = UsbStorageDevice::new(plug, 0, &tags);
    assert!(dev.init().is_ok());
    stick.lock().unwrap().disk[65535 * 512] = 0x12;
    let mut buf = vec![0u8; 33554432];
    assert!(matches!(dev.read_bytes(0, &mut buf), Ok(33554432)));
    assert!(buf == stick.lock().unwrap().disk[..33554432]);
    let asked = transfers(&stick);
    assert_eq!(asked.len(), 513);
    assert_eq!(asked[511], (0x28, 65408, 127));
    assert_eq!(asked[512], (0x28, 65535, 1));

    for (i, b) in buf.iter_mut().enumerate() {
        *b = (i >> 9) as u8;
    }
    assert!(matches!(dev.write_bytes(100, &buf), Ok(33554432)));
    let stick = stick.lock().unwrap();
    assert!(stick.disk[100..100 + 33554432] == buf[..]);
    assert!(stick.disk[..100].iter().all(|b| *b == 0x99));
    assert!(stick.disk[100 + 33554432..].iter().all(|b| *b == 0x99));
}

#[test]
fn a_unit_is_driven_over_a_link() {
    let tags = counter();
    let (stick, plug) = plugged(Stick::blank(8, 512));
    let transport = spin::Mutex::new(plug);
    let mut link = Link::open(&transport, &tags);
    let mut unit = StorageUnit::new(2);
    assert!(unit.do_inquiry(&mut link).is_ok());
    assert!(unit.wait_unit_ready(&mut link).is_ok());
    assert!(unit.do_read_capacity(&mut link).is_ok());
    assert!(unit.do_mode_sense(&mut link).is_ok());
    let sense = unit.do_request_sense(&mut link).unwrap();
    assert_eq!((sense.sense_key, sense.asc, sense.ascq), (0x02, 0x04, 0x01));
    assert_eq!(unit.inquiry().unwrap().vendor, "ACME");
    assert_eq!(unit.capacity().unwrap().last_lba, 7);
    assert_eq!(unit.block_size(), 512);
    assert_eq!(unit.total_size(), 4096);
    assert!(!unit.is_write_protected());
    assert!(matches!(unit.write_bytes(&mut link, 1000, &[1, 2, 3]), Ok(3)));
    let mut buf = [0u8; 3];
    assert!(matches!(unit.read_bytes(&mut link, 1000, &mut buf), Ok(3)));
    assert_eq!(buf, [1, 2, 3]);
    assert_eq!(
        codes(&stick),
        vec![0x12, 0x00, 0x25, 0x1A, 0x03, 0x28, 0x2A, 0x28]
    );
    assert!(stick.lock().unwrap().commands.iter().all(|c| c[13] == 2));
}

#[test]
fn commands_are_wrapped_under_the_next_tag() {
    let mut tags = TagCounter { next: 41 };
    let cbw = wrap(&ScsiCommand::Read10 { lba: 3, block_count: 2 }, 512, 1, &mut tags);
    assert_eq!(cbw.tag, 41);
    assert_eq!(tags.next, 42);
    assert_eq!(cbw.data_transfer_length, 1024);
    assert!(cbw.direction_in);
    assert_eq!(cbw.lun, 1);
    assert_eq!(cbw.cdb[..10], [0x28, 0, 0, 0, 0, 3, 0, 0, 2, 0]);
    assert_eq!(cbw.cdb_length, 10);
}

#[test]
fn devices_share_one_series_of_tags() {
    let tags = counter();
    let (a, plug_a) = plugged(Stick::blank(8, 512));
    let (b, plug_b) = plugged(Stick::blank(8, 512));
    let mut dev_a = UsbStorageDevice::new(plug_a, 0, &tags);
    let mut dev_b = UsbStorageDevice::new(plug_b, 0, &tags);
    assert!(dev_a.init().is_ok());
    assert!(dev_b.init().is_ok());
    let mut buf = [0u8; 512];
    assert!(dev_a.read_sectors(0, 1, &mut buf).is_ok());
    let drawn = |stick: &Arc<Mutex<Stick>>| -> Vec<u8> {
        stick.lock().unwrap().commands.iter().map(|c| c[4]).collect()
    };
    assert_eq!(drawn(&a), vec![1, 2, 3, 4, 9]);
    assert_eq!(drawn(&b), vec![5, 6, 7, 8]);
    assert_eq!(tags.lock().next, 10);
}

#[test]
fn a_device_serves_as_a_block_device() {
    let tags = counter();
    let (_stick, plug) = plugged(Stick::blank(8, 512));
    let mut dev = UsbStorageDevice::new(plug, 0, &tags);
    assert!(dev.init().is_ok());
    let block: &dyn BlockDevice = &dev;
    assert_eq!(block.total_size(), 4096);
    let mut buf = [0u8; 4];
    assert!(matches!(block.read_bytes(10, &mut buf), Ok(4)));
}
