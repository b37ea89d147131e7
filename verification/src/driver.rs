//! USB Mass Storage device driver.
//!
//! `UsbStorageDevice` drives a device over its transport: initialization,
//! sector I/O, and byte I/O as a `BlockDevice`.
//!
//! Each operation opens a link to the transport and hands it to the operation of
//! the same name of `StorageUnit`, whose contract says which exchanges are made
//! over the link. The transport is shared by reference and changes behind its
//! lock, so the contracts here say that such exchanges took place and what came
//! of them.
use crate::block::{BlockDevice, DeviceError};
use crate::bot::{BotError, BulkTransport, TagCounter};
use crate::link::Link;
use crate::lock::protected;
use crate::scsi::{InquiryData, ReadCapacity10Data};
use crate::session::{
    all_occurred, init_run, read_bytes_run, read_sectors_run, write_bytes_run, write_sectors_run,
    BytesEnd, DeviceState, Exchange, Progress, RunEnd,
};
use crate::unit::StorageUnit;
use vstd::prelude::*;

verus! {

/// USB interface class: Mass Storage.
pub const USB_CLASS_MASS_STORAGE: u8 = 0x08;

/// USB interface subclass: SCSI Transparent Command Set.
pub const USB_SUBCLASS_SCSI: u8 = 0x06;

/// USB interface protocol: Bulk-Only Transport.
pub const USB_PROTOCOL_BOT: u8 = 0x50;

/// The fields of a USB interface descriptor that tell what the interface is.
#[derive(Debug, Clone, Copy)]
pub struct UsbInterfaceDescriptor {
    pub interface_class: u8,
    pub interface_subclass: u8,
    pub interface_protocol: u8,
}

/// Whether an interface is a Mass Storage interface with the SCSI command set
/// and Bulk-Only Transport.
pub fn is_mass_storage_bot(desc: &UsbInterfaceDescriptor) -> (res: bool)
    ensures
        res <==> desc.interface_class == 0x08 && desc.interface_subclass == 0x06
            && desc.interface_protocol == 0x50,
{
    desc.interface_class == USB_CLASS_MASS_STORAGE && desc.interface_subclass == USB_SUBCLASS_SCSI
        && desc.interface_protocol == USB_PROTOCOL_BOT
}

/// A USB Mass Storage device accessed via Bulk-Only Transport.
#[verifier::reject_recursive_types(T)]
pub struct UsbStorageDevice<'t, T: BulkTransport> {
    /// Where command tags come from.
    tags: &'t spin::Mutex<TagCounter>,
    /// The bulk endpoints and control requests of the device.
    transport: spin::Mutex<T>,
    /// What is known of the device.
    unit: StorageUnit,
}

impl<'t, T: BulkTransport> View for UsbStorageDevice<'t, T> {
    type V = DeviceState;

    /// What is known of the device. A lock has no contents in the model, so the
    /// transport and the tags have no part in it.
    closed spec fn view(&self) -> DeviceState {
        self.unit@
    }
}

impl<'t, T: BulkTransport> UsbStorageDevice<'t, T> {
    /// A device on `transport` that has not been initialized; its commands take
    /// their tags from `tags`.
    pub fn new(transport: T, lun: u8, tags: &'t spin::Mutex<TagCounter>) -> (res: Self)
        ensures
            res@ == (DeviceState { inquiry: None, capacity: None, write_protected: false, lun }),
    {
        UsbStorageDevice { tags, transport: protected(transport), unit: StorageUnit::new(lun) }
    }

    /// Initializes the device: INQUIRY, TEST UNIT READY, READ CAPACITY(10), MODE
    /// SENSE(6). It is to be called before any read or write.
    pub fn init(&mut self) -> (res: Result<(), BotError>)
        ensures
            exists|xs: Seq<Exchange>|
                all_occurred::<T>(xs) && #[trigger] init_run(old(self)@, xs) == Some(
                    Progress { state: final(self)@, result: res, rest: seq![] },
                ),
    {
        let mut link = Link::open(&self.transport, self.tags);
        let ghost opened = link;
        let res = self.unit.init(&mut link);
        assert(link.since(opened) =~= link.log());
        assert(init_run(old(self)@, link.log()) is Some);
        res
    }

    /// Reads `count` sectors from `lba` on into `buf`, which must hold at least
    /// that many bytes; what it holds beyond them stays as it is.
    pub fn read_sectors(&self, lba: u32, count: u16, buf: &mut [u8]) -> (res: Result<(), BotError>)
        requires
            count * self@.block_size() <= usize::MAX,
            count * self@.block_size() <= old(buf)@.len() ==> self@.can_transfer(
                lba as int,
                count as int,
            ),
        ensures
            final(buf)@.len() == old(buf)@.len(),
            exists|xs: Seq<Exchange>|
                all_occurred::<T>(xs) && #[trigger] read_sectors_run(
                    self@,
                    lba as int,
                    count as int,
                    old(buf)@,
                    xs,
                ) == Some(RunEnd { data: final(buf)@, result: res, rest: seq![] }),
    {
        let mut link = Link::open(&self.transport, self.tags);
        let ghost opened = link;
        let res = self.unit.read_sectors(&mut link, lba, count, buf);
        assert(link.since(opened) =~= link.log());
        assert(read_sectors_run(self@, lba as int, count as int, old(buf)@, link.log()) is Some);
        res
    }

    /// Writes `count` sectors from `lba` on with the first bytes of `data`,
    /// which must hold at least that many. A write-protected device is refused.
    pub fn write_sectors(&self, lba: u32, count: u16, data: &[u8]) -> (res: Result<(), BotError>)
        requires
            self@.write_protected || count * self@.block_size() <= usize::MAX,
            !self@.write_protected && count * self@.block_size() <= data@.len()
                ==> self@.can_transfer(lba as int, count as int),
        ensures
            exists|xs: Seq<Exchange>|
                all_occurred::<T>(xs) && #[trigger] write_sectors_run(
                    self@,
                    lba as int,
                    count as int,
                    data@,
                    xs,
                ) == Some(RunEnd { data: data@, result: res, rest: seq![] }),
    {
        let mut link = Link::open(&self.transport, self.tags);
        let ghost opened = link;
        let res = self.unit.write_sectors(&mut link, lba, count, data);
        assert(link.since(opened) =~= link.log());
        assert(write_sectors_run(self@, lba as int, count as int, data@, link.log()) is Some);
        res
    }

    /// The disk geometry, if it is known.
    pub fn capacity(&self) -> (res: Option<&ReadCapacity10Data>)
        ensures
            res == match self@.capacity {
                Some(c) => Some(&c),
                None => None,
            },
    {
        self.unit.capacity()
    }

    /// The device identification, if it is known.
    pub fn inquiry(&self) -> (res: Option<&InquiryData>)
        ensures
            match res {
                Some(d) => self@.inquiry == Some(d@),
                None => self@.inquiry is None,
            },
    {
        self.unit.inquiry()
    }

    /// Whether the device refuses writes.
    pub fn is_write_protected(&self) -> (res: bool)
        ensures
            res == self@.write_protected,
    {
        self.unit.is_write_protected()
    }
}

impl<'t, T: BulkTransport + Send + Sync> BlockDevice for UsbStorageDevice<'t, T> {
    /// Reads `buf.len()` bytes; where it succeeds, the result is that number.
    fn read_bytes(&self, offset: u64, buf: &mut [u8]) -> (res: Result<usize, DeviceError>)
        ensures
            exists|xs: Seq<Exchange>|
                all_occurred::<T>(xs) && #[trigger] read_bytes_run(
                    self@,
                    offset as int,
                    old(buf)@,
                    xs,
                ) == Some(BytesEnd { data: final(buf)@, result: res, rest: seq![] }),
            res matches Ok(n) ==> n == old(buf)@.len(),
    {
        let mut link = Link::open(&self.transport, self.tags);
        let ghost opened = link;
        let res = self.unit.read_bytes(&mut link, offset, buf);
        assert(link.since(opened) =~= link.log());
        assert(read_bytes_run(self@, offset as int, old(buf)@, link.log()) is Some);
        res
    }

    /// Writes `data`; where it succeeds, the result is its length.
    fn write_bytes(&self, offset: u64, data: &[u8]) -> (res: Result<usize, DeviceError>)
        ensures
            exists|xs: Seq<Exchange>|
                all_occurred::<T>(xs) && #[trigger] write_bytes_run(
                    self@,
                    offset as int,
                    data@,
                    xs,
                ) == Some(BytesEnd { data: data@, result: res, rest: seq![] }),
            res matches Ok(n) ==> n == data@.len(),
    {
        let mut link = Link::open(&self.transport, self.tags);
        let ghost opened = link;
        let res = self.unit.write_bytes(&mut link, offset, data);
        assert(link.since(opened) =~= link.log());
        assert(write_bytes_run(self@, offset as int, data@, link.log()) is Some);
        res
    }

    /// Bulk-Only Transport has nothing to flush.
    fn flush(&self) -> (res: Result<(), DeviceError>)
        ensures
            res is Ok,
    {
        Ok(())
    }

    fn sector_size(&self) -> (res: u32)
        ensures
            res == self@.block_size(),
            res == match self@.capacity {
                Some(c) => c.block_size,
                None => 512,
            },
    {
        self.unit.block_size()
    }

    fn total_size(&self) -> (res: u64)
        ensures
            res == self@.total_size(),
            res == match self@.capacity {
                Some(c) => (c.last_lba + 1) * c.block_size,
                None => 0,
            },
    {
        self.unit.total_size()
    }
}

} // verus!
