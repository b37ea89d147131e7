//! Block device trait for storage backends.
use vstd::prelude::*;

verus! {

/// A raw block storage backend.
///
/// Implementations are safe to share across tasks.
pub trait BlockDevice: Send + Sync {
    /// Reads `buf.len()` bytes starting at byte offset `offset`.
    fn read_bytes(&self, offset: u64, buf: &mut [u8]) -> (res: Result<usize, DeviceError>)
        ensures
            final(buf)@.len() == old(buf)@.len(),
    ;

    /// Writes `data` starting at byte offset `offset`.
    fn write_bytes(&self, offset: u64, data: &[u8]) -> (res: Result<usize, DeviceError>);

    /// Flushes any cached writes to persistent storage.
    fn flush(&self) -> (res: Result<(), DeviceError>);

    /// The sector size in bytes (typically 512 or 4096).
    fn sector_size(&self) -> (res: u32);

    /// The total size of the device in bytes.
    fn total_size(&self) -> (res: u64);
}

/// Errors of block device operations.
#[derive(Debug)]
pub enum DeviceError {
    /// A hardware or bus-level I/O error.
    IoError,
    /// The requested offset or length is beyond the device boundary.
    OutOfBounds,
    /// The device is not ready.
    NotReady,
    /// The operation timed out.
    Timeout,
}

impl DeviceError {
    /// What `message` says.
    pub open spec fn text(self) -> Seq<char> {
        match self {
            DeviceError::IoError => "I/O error"@,
            DeviceError::OutOfBounds => "out of bounds"@,
            DeviceError::NotReady => "not ready"@,
            DeviceError::Timeout => "timeout"@,
        }
    }

    /// The error in words.
    pub fn message(&self) -> (res: String)
        ensures
            res@ == self.text(),
    {
        match self {
            DeviceError::IoError => "I/O error".to_owned(),
            DeviceError::OutOfBounds => "out of bounds".to_owned(),
            DeviceError::NotReady => "not ready".to_owned(),
            DeviceError::Timeout => "timeout".to_owned(),
        }
    }
}

} // verus!
