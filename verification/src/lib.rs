//! USB Mass Storage over Bulk-Only Transport.
//!
//! SCSI commands (INQUIRY, TEST UNIT READY, REQUEST SENSE, MODE SENSE(6), READ
//! CAPACITY(10), READ(10), WRITE(10)) are wrapped in Bulk-Only Transport command
//! blocks and exchanged over bulk endpoints.
//!
//! ```text
//! driver    UsbStorageDevice: a device behind its lock, as a BlockDevice
//! unit      StorageUnit: the driver's operations over a link
//! link      the way to the transport, with account of what was exchanged
//! disk      what reads and writes do to a disk
//! stick     a memory stick, and what the driver's operations come to on one
//! session   what the driver's operations come to over a series of exchanges
//! scsi      command blocks and responses
//! bot       CBW, CSW, command execution, reset recovery
//! exchange  what one exchange comes to, read off the record of a transport
//! block     the BlockDevice trait
//! bytes     integers on the wire
//! text      identification strings and hexadecimal numbers
//! ```
//!
//! Mass storage interfaces have class 0x08, subclass 0x06 (SCSI transparent
//! command set) and protocol 0x50 (Bulk-Only Transport).
pub mod block;
pub mod bot;
pub mod bytes;
pub mod disk;
pub mod driver;
pub mod exchange;
pub mod link;
mod lock;
pub mod scsi;
pub mod session;
pub mod stick;
pub mod text;
pub mod unit;

pub use block::{BlockDevice, DeviceError};
pub use bot::{BotError, CommandBlockWrapper, CommandStatusWrapper, TagCounter};
pub use driver::UsbStorageDevice;
pub use scsi::{InquiryData, ReadCapacity10Data, ScsiCommand};
