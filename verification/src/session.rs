//! What a device driver does over a series of exchanges.
//!
//! The functions here read a series of exchanges and say what a driver
//! operation that made them ends with. They give `None` for a series that the
//! operation does not make.
use crate::block::DeviceError;
use crate::bot::{wrapped, BotError, BulkTransport, CbwView};
use crate::bytes::zeros;
use crate::exchange::{
    exchange, exchange_out, law_exchange_keeps_buffer, ExchangeEnd, TransferEvent,
};
use crate::scsi::{InquiryView, ModeSenseHeader, ReadCapacity10Data, ScsiCommand, SenseData};
use vstd::arithmetic::div_mod::{
    lemma_div_is_ordered, lemma_div_multiples_vanish, lemma_div_pos_is_pos,
    lemma_fundamental_div_mod, lemma_mod_bound,
};
use vstd::prelude::*;

verus! {

/// Number of TEST UNIT READY attempts during initialization.
pub const MAX_TUR_RETRIES: usize = 10;

/// Most sectors that one READ(10) or WRITE(10) transfers.
pub const MAX_SECTORS_PER_TRANSFER: u16 = 128;

/// Most sectors that one request for sectors covers.
pub const MAX_SECTORS_PER_REQUEST: u16 = 65535;

/// Block size of a device whose capacity is not known.
pub const DEFAULT_BLOCK_SIZE: u32 = 512;

/// One exchange: the tag of its CBW, and the record of its transfers.
pub struct Exchange {
    pub tag: u32,
    pub events: Seq<TransferEvent>,
}

/// Whether `events` are what a transport recorded on its way from `before` to
/// `after`.
pub open spec fn recorded<T: BulkTransport>(
    before: T,
    after: T,
    events: Seq<TransferEvent>,
) -> bool {
    after.history() == before.history() + events
}

/// Whether a transport of type `T` has recorded `events` in a row.
pub open spec fn occurred<T: BulkTransport>(events: Seq<TransferEvent>) -> bool {
    exists|before: T, after: T| #[trigger] recorded(before, after, events)
}

/// Whether each exchange of `xs` took place on a transport of type `T`.
pub open spec fn all_occurred<T: BulkTransport>(xs: Seq<Exchange>) -> bool {
    forall|i: int| 0 <= i < xs.len() ==> occurred::<T>((#[trigger] xs[i]).events)
}

/// What the driver knows of a device.
pub struct DeviceState {
    pub inquiry: Option<InquiryView>,
    pub capacity: Option<ReadCapacity10Data>,
    pub write_protected: bool,
    pub lun: u8,
}

impl DeviceState {
    /// The block size that transfers go by.
    pub open spec fn block_size(self) -> int {
        match self.capacity {
            Some(c) => c.block_size as int,
            None => DEFAULT_BLOCK_SIZE as int,
        }
    }

    /// Whether a transfer of `count` sectors from `lba` on can be put into
    /// commands: block addresses and transfer lengths have 32 bits.
    pub open spec fn can_transfer(self, lba: int, count: int) -> bool {
        &&& lba + count <= 0x1_0000_0000
        &&& chunk_of(count) * self.block_size() <= u32::MAX
    }

    /// Whether the sectors of `len` bytes at byte offset `offset` can be
    /// addressed and transferred, and the sectors of a request fit into memory.
    pub open spec fn can_serve(self, offset: int, len: int) -> bool {
        let bs = self.block_size();
        let lba = first_sector(offset, bs);
        &&& bs > 0
        &&& lba <= u32::MAX
        &&& self.can_transfer(lba, sectors_touched(offset, len, bs))
        &&& sectors_asked(offset, len, bs) * bs <= usize::MAX
    }

    /// Whether `len` bytes at byte offset `offset` are out of bounds: they reach
    /// beyond the end of the device, or their sectors cannot be transferred.
    pub open spec fn out_of_bounds(self, offset: int, len: int) -> bool {
        ||| self.capacity is Some && offset + len > self.total_size()
        ||| self.block_size() > 0 && !self.can_serve(offset, len)
    }

    /// The size of the device in bytes; 0 where it is not known.
    pub open spec fn total_size(self) -> int {
        match self.capacity {
            Some(c) => (c.last_lba + 1) * c.block_size,
            None => 0,
        }
    }
}

/// The CBW for `cmd`.
pub open spec fn command(cmd: ScsiCommand, block_size: int, lun: u8, tag: u32) -> CbwView {
    wrapped(cmd.cdb(), cmd.transfer_length(block_size) as u32, cmd.reads(), lun, tag)
}

/// How the first exchange of `xs` ends, where it is the exchange for `cmd`.
#[verifier::opaque]
pub open spec fn issued(
    cmd: ScsiCommand,
    block_size: int,
    lun: u8,
    data: Option<Seq<u8>>,
    xs: Seq<Exchange>,
) -> Option<ExchangeEnd> {
    if xs.len() == 0 {
        None
    } else {
        exchange(command(cmd, block_size, lun, xs[0].tag), data, xs[0].events)
    }
}

/// How the first exchange of `xs` ends, where it is the exchange for `cmd` that
/// sends `data`.
#[verifier::opaque]
pub open spec fn issued_out(
    cmd: ScsiCommand,
    block_size: int,
    lun: u8,
    data: Seq<u8>,
    xs: Seq<Exchange>,
) -> Option<ExchangeEnd> {
    if xs.len() == 0 {
        None
    } else {
        exchange_out(command(cmd, block_size, lun, xs[0].tag), data, xs[0].events)
    }
}

/// Only the first exchange of a series decides how a command ends.
pub proof fn lemma_first_decides(
    cmd: ScsiCommand,
    block_size: int,
    lun: u8,
    data: Option<Seq<u8>>,
    xs: Seq<Exchange>,
    tail: Seq<Exchange>,
)
    ensures
        issued(cmd, block_size, lun, data, xs) is Some ==> xs.len() > 0,
        xs.len() > 0 ==> issued(cmd, block_size, lun, data, xs + tail) == issued(
            cmd,
            block_size,
            lun,
            data,
            xs,
        ),
        xs.len() > 0 ==> (xs + tail).drop_first() == xs.drop_first() + tail,
{
    reveal(issued);
    if xs.len() > 0 {
        assert((xs + tail).drop_first() =~= xs.drop_first() + tail);
    }
}

/// Only the first exchange of a series decides how a command that sends data
/// ends.
pub proof fn lemma_first_decides_out(
    cmd: ScsiCommand,
    block_size: int,
    lun: u8,
    data: Seq<u8>,
    xs: Seq<Exchange>,
    tail: Seq<Exchange>,
)
    ensures
        issued_out(cmd, block_size, lun, data, xs) is Some ==> xs.len() > 0,
        xs.len() > 0 ==> issued_out(cmd, block_size, lun, data, xs + tail) == issued_out(
            cmd,
            block_size,
            lun,
            data,
            xs,
        ),
        xs.len() > 0 ==> (xs + tail).drop_first() == xs.drop_first() + tail,
{
    reveal(issued_out);
    if xs.len() > 0 {
        assert((xs + tail).drop_first() =~= xs.drop_first() + tail);
    }
}

/// How a step of the initialization ended.
pub struct Progress {
    pub state: DeviceState,
    pub result: Result<(), BotError>,
    pub rest: Seq<Exchange>,
}

/// INQUIRY: the identification is kept, where the response can be parsed.
pub open spec fn inquiry_step(s: DeviceState, xs: Seq<Exchange>) -> Option<Progress> {
    match issued(ScsiCommand::Inquiry { alloc_len: 36 }, 0, s.lun, Some(zeros(36)), xs) {
        None => None,
        Some(end) => match end.result {
            Err(e) => Some(Progress { state: s, result: Err(e), rest: xs.drop_first() }),
            Ok(_) => Some(
                Progress {
                    state: DeviceState { inquiry: InquiryView::decoded(end.data), ..s },
                    result: Ok(()),
                    rest: xs.drop_first(),
                },
            ),
        },
    }
}

/// What the exchange for REQUEST SENSE says.
pub open spec fn sense_of(end: ExchangeEnd) -> Result<SenseData, BotError> {
    match end.result {
        Err(e) => Err(e),
        Ok(_) => match SenseData::decoded(end.data) {
            None => Err(BotError::CommandFailed),
            Some(sense) => Ok(sense),
        },
    }
}

/// TEST UNIT READY until the command passes, at most `attempts` times. Each
/// failed attempt is followed by REQUEST SENSE, whatever that gives.
pub open spec fn ready_step(s: DeviceState, attempts: nat, xs: Seq<Exchange>) -> Option<Progress>
    decreases attempts,
{
    if attempts == 0 {
        Some(Progress { state: s, result: Err(BotError::Timeout), rest: xs })
    } else {
        match issued(ScsiCommand::TestUnitReady, 0, s.lun, None, xs) {
            None => None,
            Some(end) => match end.result {
                Ok(_) => Some(Progress { state: s, result: Ok(()), rest: xs.drop_first() }),
                Err(BotError::CommandFailed) => if issued(
                    ScsiCommand::RequestSense { alloc_len: 18 },
                    0,
                    s.lun,
                    Some(zeros(18)),
                    xs.drop_first(),
                ) is Some {
                    ready_step(s, (attempts - 1) as nat, xs.drop_first().drop_first())
                } else {
                    None
                },
                Err(e) => Some(Progress { state: s, result: Err(e), rest: xs.drop_first() }),
            },
        }
    }
}

/// READ CAPACITY(10): the geometry is kept.
pub open spec fn capacity_step(s: DeviceState, xs: Seq<Exchange>) -> Option<Progress> {
    match issued(ScsiCommand::ReadCapacity10, 0, s.lun, Some(zeros(8)), xs) {
        None => None,
        Some(end) => match end.result {
            Err(e) => Some(Progress { state: s, result: Err(e), rest: xs.drop_first() }),
            Ok(_) => {
                let capacity = ReadCapacity10Data::decoded(end.data);
                Some(
                    Progress {
                        state: DeviceState { capacity, ..s },
                        result: if capacity is Some {
                            Ok(())
                        } else {
                            Err(BotError::CommandFailed)
                        },
                        rest: xs.drop_first(),
                    },
                )
            },
        },
    }
}

/// MODE SENSE(6): write protection is kept. A device that fails the command
/// does not support it, and takes writes.
pub open spec fn mode_step(s: DeviceState, xs: Seq<Exchange>) -> Option<Progress> {
    match issued(
        ScsiCommand::ModeSense { page_code: 0x3F, alloc_len: 192 },
        0,
        s.lun,
        Some(zeros(192)),
        xs,
    ) {
        None => None,
        Some(end) => match end.result {
            Ok(_) => Some(
                Progress {
                    state: match ModeSenseHeader::decoded(end.data) {
                        Some(header) => DeviceState { write_protected: header.protects(), ..s },
                        None => s,
                    },
                    result: Ok(()),
                    rest: xs.drop_first(),
                },
            ),
            Err(BotError::CommandFailed) => Some(
                Progress {
                    state: DeviceState { write_protected: false, ..s },
                    result: Ok(()),
                    rest: xs.drop_first(),
                },
            ),
            Err(e) => Some(Progress { state: s, result: Err(e), rest: xs.drop_first() }),
        },
    }
}

/// The initialization: INQUIRY, TEST UNIT READY, READ CAPACITY(10), MODE
/// SENSE(6), up to the first step that fails.
pub open spec fn init_run(s: DeviceState, xs: Seq<Exchange>) -> Option<Progress> {
    match inquiry_step(s, xs) {
        Some(p) if p.result is Ok => init_from_ready(p.state, p.rest),
        p => p,
    }
}

/// The initialization from TEST UNIT READY on.
pub open spec fn init_from_ready(s: DeviceState, xs: Seq<Exchange>) -> Option<Progress> {
    match ready_step(s, MAX_TUR_RETRIES as nat, xs) {
        Some(p) if p.result is Ok => init_from_capacity(p.state, p.rest),
        p => p,
    }
}

/// The initialization from READ CAPACITY(10) on.
pub open spec fn init_from_capacity(s: DeviceState, xs: Seq<Exchange>) -> Option<Progress> {
    match capacity_step(s, xs) {
        Some(p) if p.result is Ok => mode_step(p.state, p.rest),
        p => p,
    }
}

/// Exchanges that follow INQUIRY are left to the next step.
pub proof fn lemma_inquiry_extends(s: DeviceState, xs: Seq<Exchange>, tail: Seq<Exchange>)
    requires
        inquiry_step(s, xs) is Some,
    ensures
        inquiry_step(s, xs + tail) == Some(
            Progress {
                rest: inquiry_step(s, xs)->0.rest + tail,
                ..inquiry_step(s, xs)->0
            },
        ),
{
    lemma_first_decides(
        ScsiCommand::Inquiry { alloc_len: 36 },
        0,
        s.lun,
        Some(zeros(36)),
        xs,
        tail,
    );
}

/// Exchanges that follow the attempts are left to the next step.
pub proof fn lemma_ready_extends(
    s: DeviceState,
    attempts: nat,
    xs: Seq<Exchange>,
    tail: Seq<Exchange>,
)
    requires
        ready_step(s, attempts, xs) is Some,
    ensures
        ready_step(s, attempts, xs + tail) == Some(
            Progress {
                rest: ready_step(s, attempts, xs)->0.rest + tail,
                ..ready_step(s, attempts, xs)->0
            },
        ),
    decreases attempts,
{
    if attempts > 0 {
        lemma_first_decides(ScsiCommand::TestUnitReady, 0, s.lun, None, xs, tail);
        let end = issued(ScsiCommand::TestUnitReady, 0, s.lun, None, xs)->0;
        if end.result == Err::<u32, BotError>(BotError::CommandFailed) {
            lemma_first_decides(
                ScsiCommand::RequestSense { alloc_len: 18 },
                0,
                s.lun,
                Some(zeros(18)),
                xs.drop_first(),
                tail,
            );
            lemma_ready_extends(
                s,
                (attempts - 1) as nat,
                xs.drop_first().drop_first(),
                tail,
            );
        }
    }
}

/// Exchanges that follow READ CAPACITY(10) are left to the next step.
pub proof fn lemma_capacity_extends(s: DeviceState, xs: Seq<Exchange>, tail: Seq<Exchange>)
    requires
        capacity_step(s, xs) is Some,
    ensures
        capacity_step(s, xs + tail) == Some(
            Progress {
                rest: capacity_step(s, xs)->0.rest + tail,
                ..capacity_step(s, xs)->0
            },
        ),
{
    lemma_first_decides(ScsiCommand::ReadCapacity10, 0, s.lun, Some(zeros(8)), xs, tail);
}

/// Exchanges that follow a transfer of sectors are left over.
pub proof fn lemma_read_extends(
    lba: int,
    count: int,
    block_size: int,
    lun: u8,
    buf: Seq<u8>,
    at: int,
    xs: Seq<Exchange>,
    tail: Seq<Exchange>,
)
    requires
        read_run(lba, count, block_size, lun, buf, at, xs) is Some,
    ensures
        read_run(lba, count, block_size, lun, buf, at, xs + tail) == Some(
            RunEnd {
                rest: read_run(lba, count, block_size, lun, buf, at, xs)->0.rest + tail,
                ..read_run(lba, count, block_size, lun, buf, at, xs)->0
            },
        ),
    decreases count,
{
    if count > 0 {
        let chunk = chunk_of(count);
        let end = at + chunk * block_size;
        let cmd = ScsiCommand::Read10 { lba: lba as u32, block_count: chunk as u16 };
        let wanted = Some(buf.subrange(at, end));
        lemma_first_decides(cmd, block_size, lun, wanted, xs, tail);
        let x = issued(cmd, block_size, lun, wanted, xs)->0;
        if x.result is Ok {
            lemma_read_extends(
                lba + chunk,
                count - chunk,
                block_size,
                lun,
                buf.take(at) + x.data + buf.skip(end),
                end,
                xs.drop_first(),
                tail,
            );
        }
    }
}

/// How a transfer of sectors ended.
pub struct RunEnd {
    pub data: Seq<u8>,
    pub result: Result<(), BotError>,
    pub rest: Seq<Exchange>,
}

/// The number of sectors that the next command of a transfer of `count` sectors
/// covers.
pub open spec fn chunk_of(count: int) -> int {
    if count < MAX_SECTORS_PER_TRANSFER {
        count
    } else {
        MAX_SECTORS_PER_TRANSFER as int
    }
}

/// READ(10) commands for `count` sectors from `lba` on, which fill `buf` from
/// position `at` on. The first command that fails ends the transfer.
pub open spec fn read_run(
    lba: int,
    count: int,
    block_size: int,
    lun: u8,
    buf: Seq<u8>,
    at: int,
    xs: Seq<Exchange>,
) -> Option<RunEnd>
    decreases count,
{
    if count <= 0 {
        Some(RunEnd { data: buf, result: Ok(()), rest: xs })
    } else {
        let chunk = chunk_of(count);
        let end = at + chunk * block_size;
        match issued(
            ScsiCommand::Read10 { lba: lba as u32, block_count: chunk as u16 },
            block_size,
            lun,
            Some(buf.subrange(at, end)),
            xs,
        ) {
            None => None,
            Some(x) => {
                let filled = buf.take(at) + x.data + buf.skip(end);
                match x.result {
                    Err(e) => Some(RunEnd { data: filled, result: Err(e), rest: xs.drop_first() }),
                    Ok(_) => read_run(
                        lba + chunk,
                        count - chunk,
                        block_size,
                        lun,
                        filled,
                        end,
                        xs.drop_first(),
                    ),
                }
            },
        }
    }
}

/// WRITE(10) commands for `count` sectors from `lba` on, which send `data` from
/// position `at` on. The first command that fails ends the transfer.
pub open spec fn write_run(
    lba: int,
    count: int,
    block_size: int,
    lun: u8,
    data: Seq<u8>,
    at: int,
    xs: Seq<Exchange>,
) -> Option<RunEnd>
    decreases count,
{
    if count <= 0 {
        Some(RunEnd { data, result: Ok(()), rest: xs })
    } else {
        let chunk = chunk_of(count);
        let end = at + chunk * block_size;
        match issued_out(
            ScsiCommand::Write10 { lba: lba as u32, block_count: chunk as u16 },
            block_size,
            lun,
            data.subrange(at, end),
            xs,
        ) {
            None => None,
            Some(x) => match x.result {
                Err(e) => Some(RunEnd { data, result: Err(e), rest: xs.drop_first() }),
                Ok(_) => write_run(
                    lba + chunk,
                    count - chunk,
                    block_size,
                    lun,
                    data,
                    end,
                    xs.drop_first(),
                ),
            },
        }
    }
}

/// Reading sectors into `buf`, which must be large enough.
pub open spec fn read_sectors_run(
    s: DeviceState,
    lba: int,
    count: int,
    buf: Seq<u8>,
    xs: Seq<Exchange>,
) -> Option<RunEnd> {
    if buf.len() < count * s.block_size() {
        Some(RunEnd { data: buf, result: Err(BotError::DataTransferFailed), rest: xs })
    } else {
        read_run(lba, count, s.block_size(), s.lun, buf, 0, xs)
    }
}

/// Writing sectors from `data`, which must be large enough. A write-protected
/// device is not written to.
pub open spec fn write_sectors_run(
    s: DeviceState,
    lba: int,
    count: int,
    data: Seq<u8>,
    xs: Seq<Exchange>,
) -> Option<RunEnd> {
    if s.write_protected {
        Some(RunEnd { data, result: Err(BotError::CommandFailed), rest: xs })
    } else if data.len() < count * s.block_size() {
        Some(RunEnd { data, result: Err(BotError::DataTransferFailed), rest: xs })
    } else {
        write_run(lba, count, s.block_size(), s.lun, data, 0, xs)
    }
}

/// The first sector of a byte range.
pub open spec fn first_sector(offset: int, block_size: int) -> int {
    offset / block_size
}

/// The number of sectors that a byte range touches.
pub open spec fn sectors_touched(offset: int, len: int, block_size: int) -> int {
    (offset + len + block_size - 1) / block_size - first_sector(offset, block_size)
}

/// The number of sectors that the first request for a byte range covers.
pub open spec fn sectors_asked(offset: int, len: int, block_size: int) -> int {
    let touched = sectors_touched(offset, len, block_size);
    if touched < MAX_SECTORS_PER_REQUEST {
        touched
    } else {
        MAX_SECTORS_PER_REQUEST as int
    }
}

/// The number of bytes of a byte range that the first request for it covers.
pub open spec fn bytes_asked(offset: int, len: int, block_size: int) -> int {
    let room = sectors_asked(offset, len, block_size) * block_size - offset % block_size;
    if len < room {
        len
    } else {
        room
    }
}

/// Whether the first request for a byte range is one for whole sectors.
pub open spec fn is_whole(offset: int, len: int, block_size: int) -> bool {
    offset % block_size == 0 && sectors_asked(offset, len, block_size) * block_size <= len
}

/// How a byte transfer ended.
pub struct BytesEnd {
    pub data: Seq<u8>,
    pub result: Result<usize, DeviceError>,
    pub rest: Seq<Exchange>,
}

/// The first request for the bytes of `buf`: whole sectors go there directly,
/// others by way of a buffer that holds the sectors.
pub open spec fn read_request_run(
    s: DeviceState,
    offset: int,
    buf: Seq<u8>,
    xs: Seq<Exchange>,
) -> Option<BytesEnd> {
    let bs = s.block_size();
    let len = buf.len() as int;
    let lba = first_sector(offset, bs);
    let count = sectors_asked(offset, len, bs);
    let n = bytes_asked(offset, len, bs);
    if is_whole(offset, len, bs) {
        match read_sectors_run(s, lba, count, buf, xs) {
            None => None,
            Some(r) => Some(
                BytesEnd {
                    data: r.data,
                    result: match r.result {
                        Err(_) => Err(DeviceError::IoError),
                        Ok(_) => Ok(n as usize),
                    },
                    rest: r.rest,
                },
            ),
        }
    } else {
        match read_sectors_run(s, lba, count, zeros((count * bs) as nat), xs) {
            None => None,
            Some(r) => match r.result {
                Err(_) => Some(
                    BytesEnd { data: buf, result: Err(DeviceError::IoError), rest: r.rest },
                ),
                Ok(_) => Some(
                    BytesEnd {
                        data: r.data.subrange(offset % bs, offset % bs + n) + buf.skip(n),
                        result: Ok(n as usize),
                        rest: r.rest,
                    },
                ),
            },
        }
    }
}

/// Requests for the `len` bytes of `buf` from position `at` on, until all are
/// there. The first request that fails ends the transfer.
pub open spec fn read_from(
    s: DeviceState,
    offset: int,
    buf: Seq<u8>,
    at: int,
    len: int,
    xs: Seq<Exchange>,
) -> Option<BytesEnd>
    decreases len - at,
{
    match read_request_run(s, offset + at, buf.skip(at), xs) {
        None => None,
        Some(r) => {
            let filled = buf.take(at) + r.data;
            match r.result {
                Err(e) => Some(BytesEnd { data: filled, result: Err(e), rest: r.rest }),
                Ok(n) => if 0 < n && at + n < len {
                    read_from(s, offset, filled, at + n, len, r.rest)
                } else {
                    Some(BytesEnd { data: filled, result: Ok((at + n) as usize), rest: r.rest })
                },
            }
        },
    }
}

/// Reading bytes into `buf`. A device with blocks of no bytes has none to read.
pub open spec fn read_bytes_run(
    s: DeviceState,
    offset: int,
    buf: Seq<u8>,
    xs: Seq<Exchange>,
) -> Option<BytesEnd> {
    if s.out_of_bounds(offset, buf.len() as int) {
        Some(BytesEnd { data: buf, result: Err(DeviceError::OutOfBounds), rest: xs })
    } else if s.block_size() == 0 {
        Some(BytesEnd { data: buf, result: Ok(0), rest: xs })
    } else {
        read_from(s, offset, buf, 0, buf.len() as int, xs)
    }
}

/// `base` with `patch` in place of what was there from position `at` on.
pub open spec fn patched(base: Seq<u8>, at: int, patch: Seq<u8>) -> Seq<u8> {
    base.take(at) + patch + base.skip(at + patch.len())
}

/// The first request for writing `data`: whole sectors are written directly.
/// Otherwise the sectors are read, changed where the bytes belong, and written
/// back; where the read fails nothing is written.
pub open spec fn write_request_run(
    s: DeviceState,
    offset: int,
    data: Seq<u8>,
    xs: Seq<Exchange>,
) -> Option<BytesEnd> {
    let bs = s.block_size();
    let len = data.len() as int;
    let lba = first_sector(offset, bs);
    let count = sectors_asked(offset, len, bs);
    let n = bytes_asked(offset, len, bs);
    if is_whole(offset, len, bs) {
        match write_sectors_run(s, lba, count, data, xs) {
            None => None,
            Some(w) => Some(
                BytesEnd {
                    data,
                    result: match w.result {
                        Err(_) => Err(DeviceError::IoError),
                        Ok(_) => Ok(n as usize),
                    },
                    rest: w.rest,
                },
            ),
        }
    } else {
        match read_sectors_run(s, lba, count, zeros((count * bs) as nat), xs) {
            None => None,
            Some(r) => match r.result {
                Err(_) => Some(BytesEnd { data, result: Err(DeviceError::IoError), rest: r.rest }),
                Ok(_) => match write_sectors_run(
                    s,
                    lba,
                    count,
                    patched(r.data, offset % bs, data.take(n)),
                    r.rest,
                ) {
                    None => None,
                    Some(w) => Some(
                        BytesEnd {
                            data,
                            result: match w.result {
                                Err(_) => Err(DeviceError::IoError),
                                Ok(_) => Ok(n as usize),
                            },
                            rest: w.rest,
                        },
                    ),
                },
            },
        }
    }
}

/// Requests for writing `data` from position `at` on, until all of it is
/// written. The first request that fails ends the transfer.
pub open spec fn write_from(
    s: DeviceState,
    offset: int,
    data: Seq<u8>,
    at: int,
    xs: Seq<Exchange>,
) -> Option<BytesEnd>
    decreases data.len() - at,
{
    match write_request_run(s, offset + at, data.skip(at), xs) {
        None => None,
        Some(r) => match r.result {
            Err(e) => Some(BytesEnd { data, result: Err(e), rest: r.rest }),
            Ok(n) => if 0 < n && at + n < data.len() {
                write_from(s, offset, data, at + n, r.rest)
            } else {
                Some(BytesEnd { data, result: Ok((at + n) as usize), rest: r.rest })
            },
        },
    }
}

/// Writing bytes. A write-protected device is not written to, and a device with
/// blocks of no bytes has none to write.
pub open spec fn write_bytes_run(
    s: DeviceState,
    offset: int,
    data: Seq<u8>,
    xs: Seq<Exchange>,
) -> Option<BytesEnd> {
    if s.write_protected {
        Some(BytesEnd { data, result: Err(DeviceError::IoError), rest: xs })
    } else if s.out_of_bounds(offset, data.len() as int) {
        Some(BytesEnd { data, result: Err(DeviceError::OutOfBounds), rest: xs })
    } else if s.block_size() == 0 {
        Some(BytesEnd { data, result: Ok(0), rest: xs })
    } else {
        write_from(s, offset, data, 0, xs)
    }
}

/// Exchanges that follow a write of sectors are left over.
pub proof fn lemma_write_extends(
    lba: int,
    count: int,
    block_size: int,
    lun: u8,
    data: Seq<u8>,
    at: int,
    xs: Seq<Exchange>,
    tail: Seq<Exchange>,
)
    requires
        write_run(lba, count, block_size, lun, data, at, xs) is Some,
    ensures
        write_run(lba, count, block_size, lun, data, at, xs + tail) == Some(
            RunEnd {
                rest: write_run(lba, count, block_size, lun, data, at, xs)->0.rest + tail,
                ..write_run(lba, count, block_size, lun, data, at, xs)->0
            },
        ),
    decreases count,
{
    if count > 0 {
        let chunk = chunk_of(count);
        let end = at + chunk * block_size;
        let cmd = ScsiCommand::Write10 { lba: lba as u32, block_count: chunk as u16 };
        let sent = data.subrange(at, end);
        lemma_first_decides_out(cmd, block_size, lun, sent, xs, tail);
        if issued_out(cmd, block_size, lun, sent, xs)->0.result is Ok {
            lemma_write_extends(
                lba + chunk,
                count - chunk,
                block_size,
                lun,
                data,
                end,
                xs.drop_first(),
                tail,
            );
        }
    }
}

/// Exchanges that follow a request for reading are left over.
pub proof fn lemma_read_request_extends(
    s: DeviceState,
    offset: int,
    buf: Seq<u8>,
    xs: Seq<Exchange>,
    tail: Seq<Exchange>,
)
    requires
        read_request_run(s, offset, buf, xs) is Some,
    ensures
        read_request_run(s, offset, buf, xs + tail) == Some(
            BytesEnd {
                rest: read_request_run(s, offset, buf, xs)->0.rest + tail,
                ..read_request_run(s, offset, buf, xs)->0
            },
        ),
{
    let bs = s.block_size();
    let lba = first_sector(offset, bs);
    let count = sectors_asked(offset, buf.len() as int, bs);
    let room = if is_whole(offset, buf.len() as int, bs) {
        buf
    } else {
        zeros((count * bs) as nat)
    };
    if room.len() >= count * bs {
        lemma_read_extends(lba, count, bs, s.lun, room, 0, xs, tail);
    }
}

/// Exchanges that follow a request for writing are left over.
pub proof fn lemma_write_request_extends(
    s: DeviceState,
    offset: int,
    data: Seq<u8>,
    xs: Seq<Exchange>,
    tail: Seq<Exchange>,
)
    requires
        write_request_run(s, offset, data, xs) is Some,
    ensures
        write_request_run(s, offset, data, xs + tail) == Some(
            BytesEnd {
                rest: write_request_run(s, offset, data, xs)->0.rest + tail,
                ..write_request_run(s, offset, data, xs)->0
            },
        ),
{
    let bs = s.block_size();
    let len = data.len() as int;
    let lba = first_sector(offset, bs);
    let count = sectors_asked(offset, len, bs);
    if is_whole(offset, len, bs) {
        if !s.write_protected && data.len() >= count * bs {
            lemma_write_extends(lba, count, bs, s.lun, data, 0, xs, tail);
        }
    } else {
        let room = zeros((count * bs) as nat);
        if room.len() >= count * bs {
            lemma_read_extends(lba, count, bs, s.lun, room, 0, xs, tail);
        }
        let r = read_sectors_run(s, lba, count, room, xs)->0;
        let changed = patched(r.data, offset % bs, data.take(bytes_asked(offset, len, bs)));
        if r.result is Ok && !s.write_protected && changed.len() >= count * bs {
            lemma_write_extends(lba, count, bs, s.lun, changed, 0, r.rest, tail);
        }
    }
}

/// A write-protected device is not written to: the request is answered with an
/// error, and no exchange takes place.
pub proof fn law_write_protected_is_refused(
    s: DeviceState,
    lba: int,
    count: int,
    offset: int,
    data: Seq<u8>,
    xs: Seq<Exchange>,
)
    requires
        s.write_protected,
    ensures
        write_sectors_run(s, lba, count, data, xs) == Some(
            RunEnd { data, result: Err(BotError::CommandFailed), rest: xs },
        ),
        write_bytes_run(s, offset, data, xs) == Some(
            BytesEnd { data, result: Err(DeviceError::IoError), rest: xs },
        ),
{
}

/// TEST UNIT READY is tried at most `attempts` times, with a REQUEST SENSE each:
/// the exchanges are bounded, and nothing else of the device changes.
pub proof fn law_ready_is_bounded(s: DeviceState, attempts: nat, xs: Seq<Exchange>)
    requires
        ready_step(s, attempts, xs) is Some,
    ensures
        ready_step(s, attempts, xs)->0.state == s,
        ready_step(s, attempts, xs)->0.rest.len() <= xs.len() <= ready_step(
            s,
            attempts,
            xs,
        )->0.rest.len() + 2 * attempts,
        ready_step(s, attempts, xs)->0.result is Ok ==> ready_step(
            s,
            attempts,
            xs,
        )->0.rest.len() < xs.len(),
    decreases attempts,
{
    if attempts > 0 {
        lemma_first_decides(ScsiCommand::TestUnitReady, 0, s.lun, None, xs, seq![]);
        let end = issued(ScsiCommand::TestUnitReady, 0, s.lun, None, xs)->0;
        if end.result == Err::<u32, BotError>(BotError::CommandFailed) {
            lemma_first_decides(
                ScsiCommand::RequestSense { alloc_len: 18 },
                0,
                s.lun,
                Some(zeros(18)),
                xs.drop_first(),
                seq![],
            );
            law_ready_is_bounded(s, (attempts - 1) as nat, xs.drop_first().drop_first());
        }
    }
}

/// Whether attempt number `i`, counted from 0, is a TEST UNIT READY that fails.
/// Each attempt before it takes two exchanges.
pub open spec fn attempt_fails(s: DeviceState, xs: Seq<Exchange>, i: int) -> bool {
    &&& 2 * i < xs.len()
    &&& issued(ScsiCommand::TestUnitReady, 0, s.lun, None, xs.skip(2 * i)) matches Some(end)
    &&& end.result == Err::<u32, BotError>(BotError::CommandFailed)
}

/// After `k` failed attempts, each with its REQUEST SENSE, the attempts go on
/// where these have left off.
proof fn lemma_ready_after(s: DeviceState, attempts: nat, xs: Seq<Exchange>, k: nat)
    requires
        ready_step(s, attempts, xs) is Some,
        k <= attempts,
        forall|i: int| 0 <= i < k ==> #[trigger] attempt_fails(s, xs, i),
    ensures
        2 * k <= xs.len(),
        ready_step(s, attempts, xs) == ready_step(s, (attempts - k) as nat, xs.skip(2int * k)),
    decreases k,
{
    assert(xs.skip(0) =~= xs);
    if k > 0 {
        assert(attempt_fails(s, xs, 0));
        lemma_first_decides(ScsiCommand::TestUnitReady, 0, s.lun, None, xs, seq![]);
        lemma_first_decides(
            ScsiCommand::RequestSense { alloc_len: 18 },
            0,
            s.lun,
            Some(zeros(18)),
            xs.drop_first(),
            seq![],
        );
        let ys = xs.drop_first().drop_first();
        assert forall|i: int| 0 <= i < k - 1 implies #[trigger] attempt_fails(s, ys, i) by {
            assert(attempt_fails(s, xs, i + 1));
            lemma_skip_two(xs, 2 * i);
        }
        lemma_ready_after(s, (attempts - 1) as nat, ys, (k - 1) as nat);
        lemma_skip_two(xs, 2 * (k - 1));
    }
}

proof fn lemma_skip_two(xs: Seq<Exchange>, n: int)
    requires
        0 <= n,
        n + 2 <= xs.len(),
    ensures
        xs.drop_first().drop_first().skip(n) == xs.skip(n + 2),
{
    assert(xs.drop_first().drop_first().skip(n) =~= xs.skip(n + 2));
}

/// Where all attempts fail, the wait ends with a timeout after as many TEST UNIT
/// READY and as many REQUEST SENSE commands, whatever comes of the latter.
pub proof fn law_ready_times_out(s: DeviceState, attempts: nat, xs: Seq<Exchange>)
    requires
        ready_step(s, attempts, xs) is Some,
        forall|i: int| 0 <= i < attempts ==> #[trigger] attempt_fails(s, xs, i),
    ensures
        ready_step(s, attempts, xs) == Some(
            Progress { state: s, result: Err(BotError::Timeout), rest: xs.skip(2int * attempts) },
        ),
{
    lemma_ready_after(s, attempts, xs, attempts);
}

/// The first attempt that does not fail ends the wait at once: with success, or
/// with the error that it ends in. `k` attempts failed before it.
pub proof fn law_ready_ends(s: DeviceState, attempts: nat, xs: Seq<Exchange>, k: nat)
    requires
        ready_step(s, attempts, xs) is Some,
        k < attempts,
        forall|i: int| 0 <= i < k ==> #[trigger] attempt_fails(s, xs, i),
        !attempt_fails(s, xs, k as int),
    ensures
        ({
            let end = issued(ScsiCommand::TestUnitReady, 0, s.lun, None, xs.skip(2int * k));
            &&& end is Some
            &&& ready_step(s, attempts, xs) == Some(
                Progress {
                    state: s,
                    result: match end->0.result {
                        Ok(_) => Ok(()),
                        Err(e) => Err(e),
                    },
                    rest: xs.skip(2int * k + 1),
                },
            )
        }),
{
    lemma_ready_after(s, attempts, xs, k);
    let ys = xs.skip(2int * k);
    lemma_first_decides(ScsiCommand::TestUnitReady, 0, s.lun, None, ys, seq![]);
    assert(ys.drop_first() =~= xs.skip(2int * k + 1));
}

/// The initialization makes at most 23 exchanges. It keeps the LUN, and where it
/// succeeds the geometry is known.
pub proof fn law_init(s: DeviceState, xs: Seq<Exchange>)
    requires
        init_run(s, xs) is Some,
    ensures
        init_run(s, xs)->0.rest.len() + 23 >= xs.len(),
        init_run(s, xs)->0.state.lun == s.lun,
        init_run(s, xs)->0.result is Ok ==> init_run(s, xs)->0.state.capacity is Some,
{
    lemma_first_decides(
        ScsiCommand::Inquiry { alloc_len: 36 },
        0,
        s.lun,
        Some(zeros(36)),
        xs,
        seq![],
    );
    let p1 = inquiry_step(s, xs)->0;
    if p1.result is Ok {
        law_ready_is_bounded(p1.state, MAX_TUR_RETRIES as nat, p1.rest);
        let p2 = ready_step(p1.state, MAX_TUR_RETRIES as nat, p1.rest)->0;
        if p2.result is Ok {
            lemma_first_decides(
                ScsiCommand::ReadCapacity10,
                0,
                s.lun,
                Some(zeros(8)),
                p2.rest,
                seq![],
            );
            let p3 = capacity_step(p2.state, p2.rest)->0;
            if p3.result is Ok {
                lemma_first_decides(
                    ScsiCommand::ModeSense { page_code: 0x3F, alloc_len: 192 },
                    0,
                    s.lun,
                    Some(zeros(192)),
                    p3.rest,
                    seq![],
                );
            }
        }
    }
}

/// The exchanges that the attempts leave are the last ones of the series.
proof fn lemma_ready_leaves_suffix(s: DeviceState, attempts: nat, xs: Seq<Exchange>)
    requires
        ready_step(s, attempts, xs) is Some,
    ensures
        ready_step(s, attempts, xs)->0.rest.len() <= xs.len(),
        ready_step(s, attempts, xs)->0.rest == xs.skip(
            xs.len() - ready_step(s, attempts, xs)->0.rest.len(),
        ),
    decreases attempts,
{
    law_ready_is_bounded(s, attempts, xs);
    let rest = ready_step(s, attempts, xs)->0.rest;
    if attempts > 0 {
        lemma_first_decides(ScsiCommand::TestUnitReady, 0, s.lun, None, xs, seq![]);
        let end = issued(ScsiCommand::TestUnitReady, 0, s.lun, None, xs)->0;
        if end.result == Err::<u32, BotError>(BotError::CommandFailed) {
            lemma_first_decides(
                ScsiCommand::RequestSense { alloc_len: 18 },
                0,
                s.lun,
                Some(zeros(18)),
                xs.drop_first(),
                seq![],
            );
            lemma_ready_leaves_suffix(s, (attempts - 1) as nat, xs.drop_first().drop_first());
        }
    }
    assert(rest =~= xs.skip(xs.len() - rest.len()));
}

/// A successful initialization starts with INQUIRY and ends with READ CAPACITY(10)
/// and MODE SENSE(6). The identification and the geometry are what the first two
/// of these answer, and the device counts as write-protected exactly where the
/// third passes and its answer has the write-protect bit set.
#[verifier::rlimit(30)]
pub proof fn law_init_learns(s: DeviceState, xs: Seq<Exchange>)
    requires
        init_run(s, xs) matches Some(p) && p.result is Ok && p.rest.len() == 0,
    ensures
        ({
            let t = init_run(s, xs)->0.state;
            let inquiry = ScsiCommand::Inquiry { alloc_len: 36 };
            let capacity = ScsiCommand::ReadCapacity10;
            let mode = ScsiCommand::ModeSense { page_code: 0x3F, alloc_len: 192 };
            let n = xs.len() as int;
            &&& n >= 4
            &&& issued(inquiry, 0, s.lun, Some(zeros(36)), xs) matches Some(end)
            &&& end.result is Ok
            &&& t.inquiry == InquiryView::decoded(end.data)
            &&& t.inquiry is Some
            &&& issued(capacity, 0, s.lun, Some(zeros(8)), xs.skip(n - 2)) matches Some(end)
            &&& end.result is Ok
            &&& t.capacity == ReadCapacity10Data::decoded(end.data)
            &&& t.capacity is Some
            &&& issued(mode, 0, s.lun, Some(zeros(192)), xs.skip(n - 1)) matches Some(end)
            &&& t.write_protected <==> (end.result is Ok && end.data[2] >= 0x80)
        }),
{
    let inquiry = ScsiCommand::Inquiry { alloc_len: 36 };
    let capacity = ScsiCommand::ReadCapacity10;
    let mode = ScsiCommand::ModeSense { page_code: 0x3F, alloc_len: 192 };
    let attempts = MAX_TUR_RETRIES as nat;
    let n = xs.len() as int;
    lemma_first_decides(inquiry, 0, s.lun, Some(zeros(36)), xs, seq![]);
    lemma_issued_keeps_length(inquiry, 0, s.lun, zeros(36), xs);
    let p1 = inquiry_step(s, xs)->0;
    law_ready_is_bounded(p1.state, attempts, p1.rest);
    lemma_ready_leaves_suffix(p1.state, attempts, p1.rest);
    let p2 = ready_step(p1.state, attempts, p1.rest)->0;
    lemma_first_decides(capacity, 0, s.lun, Some(zeros(8)), p2.rest, seq![]);
    let p3 = capacity_step(p2.state, p2.rest)->0;
    lemma_first_decides(mode, 0, s.lun, Some(zeros(192)), p3.rest, seq![]);
    lemma_issued_keeps_length(mode, 0, s.lun, zeros(192), p3.rest);
    assert(p2.rest =~= xs.skip(n - 2));
    assert(p3.rest =~= xs.skip(n - 1));
}

/// An exchange keeps the length of its data buffer.
proof fn lemma_issued_keeps_length(
    cmd: ScsiCommand,
    block_size: int,
    lun: u8,
    buf: Seq<u8>,
    xs: Seq<Exchange>,
)
    requires
        issued(cmd, block_size, lun, Some(buf), xs) is Some,
    ensures
        issued(cmd, block_size, lun, Some(buf), xs)->0.data.len() == buf.len(),
{
    reveal(issued);
    law_exchange_keeps_buffer(command(cmd, block_size, lun, xs[0].tag), buf, xs[0].events);
}

/// The sectors from the one that holds the first byte of a range to the one that
/// holds the last reach from the first byte to the last, and no further than the
/// end of the last one's sector.
pub proof fn lemma_sectors_cover(offset: int, len: int, block_size: int)
    requires
        offset >= 0,
        len >= 0,
        block_size > 0,
    ensures
        first_sector(offset, block_size) >= 0,
        sectors_touched(offset, len, block_size) >= 0,
        first_sector(offset, block_size) * block_size + offset % block_size == offset,
        offset % block_size + len <= sectors_touched(offset, len, block_size) * block_size
            < offset % block_size + len + block_size,
{
    let bs = block_size;
    let lba = offset / bs;
    let top = offset + len + bs - 1;
    let end = top / bs;
    lemma_fundamental_div_mod(offset, bs);
    lemma_fundamental_div_mod(top, bs);
    lemma_mod_bound(offset, bs);
    lemma_mod_bound(top, bs);
    lemma_div_is_ordered(offset, top, bs);
    lemma_div_pos_is_pos(offset, bs);
    assert(bs * lba == lba * bs) by (nonlinear_arith);
    assert(bs * end == end * bs) by (nonlinear_arith);
    assert((end - lba) * bs == end * bs - lba * bs) by (nonlinear_arith);
}

/// Where the bytes of a request stand: within the sectors that it covers. A
/// request for bytes covers some of them, and it covers all of them or 65535
/// sectors to the end.
pub proof fn lemma_request(offset: int, len: int, block_size: int)
    requires
        offset >= 0,
        len >= 0,
        block_size > 0,
    ensures
        ({
            let bs = block_size;
            let lba = first_sector(offset, bs);
            let touched = sectors_touched(offset, len, bs);
            let count = sectors_asked(offset, len, bs);
            let n = bytes_asked(offset, len, bs);
            &&& 0 <= lba
            &&& 0 <= count <= touched
            &&& count <= u16::MAX
            &&& 0 <= offset % bs < bs
            &&& 0 <= lba * bs
            &&& lba * bs + offset % bs == offset
            &&& (lba + count) * bs == lba * bs + count * bs
            &&& offset % bs <= count * bs
            &&& offset % bs + n <= count * bs
            &&& 0 <= n <= len
            &&& len > 0 ==> n > 0
            &&& n < len ==> offset % bs + n == count * bs
            &&& is_whole(offset, len, bs) ==> n == count * bs
            &&& count * bs <= touched * bs
        }),
{
    let bs = block_size;
    let lba = first_sector(offset, bs);
    let touched = sectors_touched(offset, len, bs);
    let count = sectors_asked(offset, len, bs);
    lemma_sectors_cover(offset, len, bs);
    lemma_mod_bound(offset, bs);
    assert((lba + count) * bs == lba * bs + count * bs) by (nonlinear_arith);
    assert(0 <= lba * bs) by (nonlinear_arith)
        requires
            0 <= lba,
            0 < bs,
    ;
    assert(0 <= count * bs <= touched * bs) by (nonlinear_arith)
        requires
            0 <= count <= touched,
            0 < bs,
    ;
    if touched > 0 {
        assert(bs <= count * bs) by (nonlinear_arith)
            requires
                1 <= count,
                0 < bs,
        ;
    } else {
        assert(touched * bs == 0) by (nonlinear_arith)
            requires
                touched == 0,
        ;
    }
}

/// What the first request for a range leaves is a range that starts with a
/// sector and ends where the whole range ends.
pub proof fn lemma_next_request(offset: int, len: int, block_size: int)
    requires
        offset >= 0,
        len >= 0,
        block_size > 0,
        bytes_asked(offset, len, block_size) < len,
    ensures
        ({
            let bs = block_size;
            let n = bytes_asked(offset, len, bs);
            let count = sectors_asked(offset, len, bs);
            &&& 0 < n
            &&& first_sector(offset + n, bs) == first_sector(offset, bs) + count
            &&& sectors_touched(offset + n, len - n, bs) == sectors_touched(offset, len, bs) - count
            &&& 0 < sectors_touched(offset + n, len - n, bs)
        }),
{
    let bs = block_size;
    let n = bytes_asked(offset, len, bs);
    let lba = first_sector(offset, bs);
    let count = sectors_asked(offset, len, bs);
    lemma_request(offset, len, bs);
    lemma_sectors_cover(offset + n, len - n, bs);
    assert(offset + n == (lba + count) * bs);
    lemma_div_multiples_vanish(lba + count, bs);
    assert(bs * (lba + count) == (lba + count) * bs) by (nonlinear_arith);
    let left = sectors_touched(offset + n, len - n, bs);
    assert(0 < left) by (nonlinear_arith)
        requires
            0 < left * bs,
            0 < bs,
    ;
}

/// What the first request for a range leaves can be served where the range can.
pub proof fn lemma_can_serve_next(s: DeviceState, offset: int, len: int)
    requires
        offset >= 0,
        len >= 0,
        s.can_serve(offset, len),
        bytes_asked(offset, len, s.block_size()) < len,
    ensures
        s.can_serve(
            offset + bytes_asked(offset, len, s.block_size()),
            len - bytes_asked(offset, len, s.block_size()),
        ),
{
    let bs = s.block_size();
    let n = bytes_asked(offset, len, bs);
    lemma_request(offset, len, bs);
    lemma_next_request(offset, len, bs);
    let touched = sectors_touched(offset, len, bs);
    let left = sectors_touched(offset + n, len - n, bs);
    assert(chunk_of(left) * bs <= chunk_of(touched) * bs) by (nonlinear_arith)
        requires
            chunk_of(left) <= chunk_of(touched),
            0 < bs,
    ;
    let asked = sectors_asked(offset, len, bs);
    let next = sectors_asked(offset + n, len - n, bs);
    assert(next * bs <= asked * bs) by (nonlinear_arith)
        requires
            next <= asked,
            0 < bs,
    ;
}

/// A transfer of bytes that succeeds is one of all of them.
pub proof fn law_reads_are_complete(s: DeviceState, offset: int, buf: Seq<u8>, xs: Seq<Exchange>)
    requires
        offset >= 0,
        buf.len() <= usize::MAX,
        read_bytes_run(s, offset, buf, xs) matches Some(end) && end.result is Ok,
    ensures
        read_bytes_run(s, offset, buf, xs)->0.result == Ok::<usize, DeviceError>(
            buf.len() as usize,
        ),
{
    if s.block_size() > 0 {
        lemma_read_is_complete(s, offset, buf, 0, xs);
    }
}

proof fn lemma_read_is_complete(
    s: DeviceState,
    offset: int,
    buf: Seq<u8>,
    at: int,
    xs: Seq<Exchange>,
)
    requires
        offset >= 0,
        0 <= at <= buf.len() <= usize::MAX,
        s.can_serve(offset + at, buf.len() - at),
        read_from(s, offset, buf, at, buf.len() as int, xs) matches Some(end) && end.result is Ok,
    ensures
        read_from(s, offset, buf, at, buf.len() as int, xs)->0.result == Ok::<usize, DeviceError>(
            buf.len() as usize,
        ),
    decreases buf.len() - at,
{
    let bs = s.block_size();
    let left = buf.len() - at;
    let n = bytes_asked(offset + at, left, bs);
    lemma_request(offset + at, left, bs);
    let r = read_request_run(s, offset + at, buf.skip(at), xs)->0;
    if n < left {
        lemma_can_serve_next(s, offset + at, left);
        lemma_read_request_keeps_length(s, offset + at, buf.skip(at), xs);
        lemma_read_is_complete(s, offset, buf.take(at) + r.data, at + n, r.rest);
    }
}

/// A request keeps the length of the buffer, whatever comes of it.
pub proof fn lemma_read_request_keeps_length(
    s: DeviceState,
    offset: int,
    buf: Seq<u8>,
    xs: Seq<Exchange>,
)
    requires
        offset >= 0,
        s.can_serve(offset, buf.len() as int),
        read_request_run(s, offset, buf, xs) is Some,
    ensures
        read_request_run(s, offset, buf, xs)->0.data.len() == buf.len(),
{
    let bs = s.block_size();
    let len = buf.len() as int;
    let lba = first_sector(offset, bs);
    let count = sectors_asked(offset, len, bs);
    lemma_request(offset, len, bs);
    if is_whole(offset, len, bs) {
        law_read_keeps_the_rest(lba, count, bs, s.lun, buf, 0, xs);
    } else {
        law_read_keeps_the_rest(lba, count, bs, s.lun, zeros((count * bs) as nat), 0, xs);
    }
}

/// A write of bytes that succeeds is one of all of them.
pub proof fn law_writes_are_complete(s: DeviceState, offset: int, data: Seq<u8>, xs: Seq<Exchange>)
    requires
        offset >= 0,
        data.len() <= usize::MAX,
        write_bytes_run(s, offset, data, xs) matches Some(end) && end.result is Ok,
    ensures
        write_bytes_run(s, offset, data, xs)->0.result == Ok::<usize, DeviceError>(
            data.len() as usize,
        ),
{
    if s.block_size() > 0 {
        lemma_write_is_complete(s, offset, data, 0, xs);
    }
}

proof fn lemma_write_is_complete(
    s: DeviceState,
    offset: int,
    data: Seq<u8>,
    at: int,
    xs: Seq<Exchange>,
)
    requires
        offset >= 0,
        0 <= at <= data.len() <= usize::MAX,
        s.can_serve(offset + at, data.len() - at),
        write_from(s, offset, data, at, xs) matches Some(end) && end.result is Ok,
    ensures
        write_from(s, offset, data, at, xs)->0.result == Ok::<usize, DeviceError>(
            data.len() as usize,
        ),
    decreases data.len() - at,
{
    let bs = s.block_size();
    let left = data.len() - at;
    let n = bytes_asked(offset + at, left, bs);
    lemma_request(offset + at, left, bs);
    let r = write_request_run(s, offset + at, data.skip(at), xs)->0;
    if n < left {
        lemma_can_serve_next(s, offset + at, left);
        lemma_write_is_complete(s, offset, data, at + n, r.rest);
    }
}

/// Whether the first exchange of `xs` is a READ(10) for `count` sectors from
/// `lba` on, and succeeds.
pub open spec fn reads_chunk(
    lba: int,
    count: int,
    block_size: int,
    lun: u8,
    xs: Seq<Exchange>,
) -> bool {
    exists|buf: Seq<u8>|
        #[trigger] issued(
            ScsiCommand::Read10 { lba: lba as u32, block_count: count as u16 },
            block_size,
            lun,
            Some(buf),
            xs,
        ) is Some && issued(
            ScsiCommand::Read10 { lba: lba as u32, block_count: count as u16 },
            block_size,
            lun,
            Some(buf),
            xs,
        )->0.result is Ok
}

/// Whether the first exchange of `xs` is a WRITE(10) for `count` sectors from
/// `lba` on that sends `data`, and succeeds.
pub open spec fn writes_chunk(
    lba: int,
    count: int,
    block_size: int,
    lun: u8,
    data: Seq<u8>,
    xs: Seq<Exchange>,
) -> bool {
    issued_out(
        ScsiCommand::Write10 { lba: lba as u32, block_count: count as u16 },
        block_size,
        lun,
        data,
        xs,
    ) matches Some(end) && end.result is Ok
}

/// A successful read of sectors is made of commands for 128 sectors each, but
/// for the last, which is for what remains; they follow one another without a
/// gap, and none is left out. This is command number `i`.
pub proof fn law_read_commands(
    lba: int,
    count: int,
    block_size: int,
    lun: u8,
    buf: Seq<u8>,
    at: int,
    xs: Seq<Exchange>,
    i: nat,
)
    requires
        read_run(lba, count, block_size, lun, buf, at, xs) matches Some(end) && end.result is Ok,
        128 * i < count,
    ensures
        i < xs.len(),
        reads_chunk(
            lba + 128 * i,
            if count - 128 * i < 128 {
                count - 128 * i
            } else {
                128
            },
            block_size,
            lun,
            xs.skip(i as int),
        ),
    decreases i,
{
    let chunk = chunk_of(count);
    let end = at + chunk * block_size;
    let cmd = ScsiCommand::Read10 { lba: lba as u32, block_count: chunk as u16 };
    let wanted = buf.subrange(at, end);
    lemma_first_decides(cmd, block_size, lun, Some(wanted), xs, seq![]);
    if i == 0 {
        assert(xs.skip(0) =~= xs);
        assert(issued(cmd, block_size, lun, Some(wanted), xs.skip(0)) is Some);
    } else {
        let x = issued(cmd, block_size, lun, Some(wanted), xs)->0;
        law_read_commands(
            lba + chunk,
            count - chunk,
            block_size,
            lun,
            buf.take(at) + x.data + buf.skip(end),
            end,
            xs.drop_first(),
            (i - 1) as nat,
        );
        assert(lba + chunk + 128 * (i - 1) == lba + 128 * i);
        assert(xs.drop_first().skip(i - 1) =~= xs.skip(i as int));
    }
}

/// A successful write of sectors is made of commands for 128 sectors each, but
/// for the last, which is for what remains; they follow one another without a
/// gap, each sends the data of its own sectors, and none is left out. This is
/// command number `i`.
pub proof fn law_write_commands(
    lba: int,
    count: int,
    block_size: int,
    lun: u8,
    data: Seq<u8>,
    at: int,
    xs: Seq<Exchange>,
    i: nat,
)
    requires
        write_run(lba, count, block_size, lun, data, at, xs) matches Some(end) && end.result is Ok,
        128 * i < count,
    ensures
        i < xs.len(),
        ({
            let done = 128 * i;
            let chunk = if count - done < 128 {
                count - done
            } else {
                128
            };
            writes_chunk(
                lba + done,
                chunk,
                block_size,
                lun,
                data.subrange(at + done * block_size, at + (done + chunk) * block_size),
                xs.skip(i as int),
            )
        }),
    decreases i,
{
    let chunk = chunk_of(count);
    let end = at + chunk * block_size;
    let cmd = ScsiCommand::Write10 { lba: lba as u32, block_count: chunk as u16 };
    lemma_first_decides_out(cmd, block_size, lun, data.subrange(at, end), xs, seq![]);
    if i == 0 {
        assert(xs.skip(0) =~= xs);
        assert(0 * block_size == 0) by (nonlinear_arith);
    } else {
        law_write_commands(
            lba + chunk,
            count - chunk,
            block_size,
            lun,
            data,
            end,
            xs.drop_first(),
            (i - 1) as nat,
        );
        let before = 128 * (i - 1);
        let last = chunk_of(count - chunk - before);
        assert(chunk + before == 128 * i);
        assert(chunk * block_size + before * block_size == (chunk + before) * block_size)
            by (nonlinear_arith);
        assert(chunk * block_size + (before + last) * block_size == (chunk + before + last)
            * block_size) by (nonlinear_arith);
        assert(xs.drop_first().skip(i - 1) =~= xs.skip(i as int));
    }
}

/// A successful transfer of sectors takes one command for each 128 sectors begun.
pub proof fn law_command_count(
    lba: int,
    count: int,
    block_size: int,
    lun: u8,
    data: Seq<u8>,
    at: int,
    xs: Seq<Exchange>,
)
    requires
        0 <= count,
    ensures
        read_run(lba, count, block_size, lun, data, at, xs) matches Some(end) ==> (end.result is Ok
            ==> xs.len() == end.rest.len() + (count + 127) / 128),
        write_run(lba, count, block_size, lun, data, at, xs) matches Some(end) ==> (end.result is Ok
            ==> xs.len() == end.rest.len() + (count + 127) / 128),
    decreases count,
{
    if count > 0 {
        let chunk = chunk_of(count);
        let end = at + chunk * block_size;
        let read = ScsiCommand::Read10 { lba: lba as u32, block_count: chunk as u16 };
        let write = ScsiCommand::Write10 { lba: lba as u32, block_count: chunk as u16 };
        let part = data.subrange(at, end);
        lemma_first_decides(read, block_size, lun, Some(part), xs, seq![]);
        lemma_first_decides_out(write, block_size, lun, part, xs, seq![]);
        let x = issued(read, block_size, lun, Some(part), xs)->0;
        law_command_count(
            lba + chunk,
            count - chunk,
            block_size,
            lun,
            data.take(at) + x.data + data.skip(end),
            end,
            xs.drop_first(),
        );
        law_command_count(
            lba + chunk,
            count - chunk,
            block_size,
            lun,
            data,
            end,
            xs.drop_first(),
        );
    }
}

/// Whatever comes of a read, the buffer keeps its length and what it holds
/// before and behind the place of the sectors.
pub proof fn law_read_keeps_the_rest(
    lba: int,
    count: int,
    block_size: int,
    lun: u8,
    buf: Seq<u8>,
    at: int,
    xs: Seq<Exchange>,
)
    requires
        read_run(lba, count, block_size, lun, buf, at, xs) is Some,
        0 <= count,
        0 <= block_size,
        0 <= at,
        at + count * block_size <= buf.len(),
    ensures
        ({
            let data = read_run(lba, count, block_size, lun, buf, at, xs)->0.data;
            &&& data.len() == buf.len()
            &&& data.take(at) == buf.take(at)
            &&& data.skip(at + count * block_size) == buf.skip(at + count * block_size)
        }),
    decreases count,
{
    if count > 0 {
        let chunk = chunk_of(count);
        let end = at + chunk * block_size;
        let cmd = ScsiCommand::Read10 { lba: lba as u32, block_count: chunk as u16 };
        let wanted = buf.subrange(at, end);
        assert(0 <= chunk * block_size <= count * block_size && (count - chunk) * block_size == count
            * block_size - chunk * block_size) by (nonlinear_arith)
            requires
                0 <= chunk <= count,
                0 <= block_size,
        ;
        let x = issued(cmd, block_size, lun, Some(wanted), xs)->0;
        lemma_issued_keeps_length(cmd, block_size, lun, wanted, xs);
        let filled = buf.take(at) + x.data + buf.skip(end);
        let stop = at + count * block_size;
        assert(filled.take(at) =~= buf.take(at));
        assert(filled.skip(stop) =~= buf.skip(stop));
        if x.result is Ok {
            law_read_keeps_the_rest(
                lba + chunk,
                count - chunk,
                block_size,
                lun,
                filled,
                end,
                xs.drop_first(),
            );
            let data = read_run(lba, count, block_size, lun, buf, at, xs)->0.data;
            assert(data.take(at) =~= data.take(end).take(at));
            assert(filled.take(at) =~= filled.take(end).take(at));
        }
    }
}

/// A read of sectors that fails does so by its last command, whose error is the
/// error of the read; the commands before it succeeded.
pub proof fn law_failed_read(
    lba: int,
    count: int,
    block_size: int,
    lun: u8,
    buf: Seq<u8>,
    at: int,
    xs: Seq<Exchange>,
    e: BotError,
)
    requires
        read_run(lba, count, block_size, lun, buf, at, xs) matches Some(end) && end.result == Err::<
            (),
            BotError,
        >(e),
    ensures
        ({
            let k = xs.len() - read_run(lba, count, block_size, lun, buf, at, xs)->0.rest.len() - 1;
            &&& 0 <= k
            &&& 128 * k < count
            &&& exists|part: Seq<u8>|
                #![trigger issued(read_at(lba + 128 * k, count - 128 * k), block_size, lun, Some(part), xs.skip(k))]
                issued(
                    read_at(lba + 128 * k, count - 128 * k),
                    block_size,
                    lun,
                    Some(part),
                    xs.skip(k),
                ) matches Some(end) && end.result == Err::<u32, BotError>(e)
        }),
    decreases count,
{
    let chunk = chunk_of(count);
    let end = at + chunk * block_size;
    let cmd = ScsiCommand::Read10 { lba: lba as u32, block_count: chunk as u16 };
    let wanted = buf.subrange(at, end);
    lemma_first_decides(cmd, block_size, lun, Some(wanted), xs, seq![]);
    let x = issued(cmd, block_size, lun, Some(wanted), xs)->0;
    if x.result is Ok {
        let filled = buf.take(at) + x.data + buf.skip(end);
        let ys = xs.drop_first();
        law_failed_read(lba + chunk, count - chunk, block_size, lun, filled, end, ys, e);
        let rest = read_run(lba, count, block_size, lun, buf, at, xs)->0.rest;
        let k = xs.len() - rest.len() - 1;
        assert(ys.skip(k - 1) =~= xs.skip(k));
        assert(chunk == 128);
        assert(lba + chunk + 128 * (k - 1) == lba + 128 * k);
        assert(count - chunk - 128 * (k - 1) == count - 128 * k);
    } else {
        assert(xs.skip(0) =~= xs);
        assert(cmd == read_at(lba, count));
        assert(issued(read_at(lba + 0, count - 0), block_size, lun, Some(wanted), xs.skip(0))
            is Some);
    }
}

/// The READ(10) at `lba` that goes first where `count` sectors are wanted.
pub open spec fn read_at(lba: int, count: int) -> ScsiCommand {
    ScsiCommand::Read10 {
        lba: lba as u32,
        block_count: if count < 128 {
            count as u16
        } else {
            128
        },
    }
}

/// The WRITE(10) at `lba` that goes first where `count` sectors are to be written.
pub open spec fn write_at(lba: int, count: int) -> ScsiCommand {
    ScsiCommand::Write10 {
        lba: lba as u32,
        block_count: if count < 128 {
            count as u16
        } else {
            128
        },
    }
}

/// A write of sectors that fails does so by its last command, whose error is the
/// error of the write; the commands before it succeeded.
pub proof fn law_failed_write(
    lba: int,
    count: int,
    block_size: int,
    lun: u8,
    data: Seq<u8>,
    at: int,
    xs: Seq<Exchange>,
    e: BotError,
)
    requires
        write_run(lba, count, block_size, lun, data, at, xs) matches Some(end) && end.result
            == Err::<(), BotError>(e),
    ensures
        ({
            let k = xs.len() - write_run(lba, count, block_size, lun, data, at, xs)->0.rest.len()
                - 1;
            &&& 0 <= k
            &&& 128 * k < count
            &&& exists|part: Seq<u8>|
                #![trigger issued_out(write_at(lba + 128 * k, count - 128 * k), block_size, lun, part, xs.skip(k))]
                issued_out(
                    write_at(lba + 128 * k, count - 128 * k),
                    block_size,
                    lun,
                    part,
                    xs.skip(k),
                ) matches Some(end) && end.result == Err::<u32, BotError>(e)
        }),
    decreases count,
{
    let chunk = chunk_of(count);
    let end = at + chunk * block_size;
    let cmd = ScsiCommand::Write10 { lba: lba as u32, block_count: chunk as u16 };
    let sent = data.subrange(at, end);
    lemma_first_decides_out(cmd, block_size, lun, sent, xs, seq![]);
    let x = issued_out(cmd, block_size, lun, sent, xs)->0;
    if x.result is Ok {
        let ys = xs.drop_first();
        law_failed_write(lba + chunk, count - chunk, block_size, lun, data, end, ys, e);
        let rest = write_run(lba, count, block_size, lun, data, at, xs)->0.rest;
        let k = xs.len() - rest.len() - 1;
        assert(ys.skip(k - 1) =~= xs.skip(k));
        assert(chunk == 128);
        assert(lba + chunk + 128 * (k - 1) == lba + 128 * k);
        assert(count - chunk - 128 * (k - 1) == count - 128 * k);
    } else {
        assert(xs.skip(0) =~= xs);
        assert(cmd == write_at(lba, count));
        assert(issued_out(write_at(lba + 0, count - 0), block_size, lun, sent, xs.skip(0)) is Some);
    }
}

/// A read of bytes fails in two ways only: out of bounds, and then nothing was
/// sent and the buffer is as it was; or with an I/O error, and then something was
/// sent.
pub proof fn law_failed_byte_read(
    s: DeviceState,
    offset: int,
    buf: Seq<u8>,
    xs: Seq<Exchange>,
    e: DeviceError,
)
    requires
        read_bytes_run(s, offset, buf, xs) matches Some(end) && end.result == Err::<
            usize,
            DeviceError,
        >(e),
        offset >= 0,
    ensures
        ({
            let end = read_bytes_run(s, offset, buf, xs)->0;
            ||| e is OutOfBounds && end.rest == xs && end.data == buf
            ||| e is IoError && end.rest.len() < xs.len()
        }),
{
    if !s.out_of_bounds(offset, buf.len() as int) {
        lemma_failed_read_from(s, offset, buf, 0, xs, e);
    }
}

proof fn lemma_failed_read_from(
    s: DeviceState,
    offset: int,
    buf: Seq<u8>,
    at: int,
    xs: Seq<Exchange>,
    e: DeviceError,
)
    requires
        s.can_serve(offset + at, buf.len() - at),
        0 <= offset,
        0 <= at <= buf.len(),
        read_from(s, offset, buf, at, buf.len() as int, xs) matches Some(end) && end.result
            == Err::<usize, DeviceError>(e),
    ensures
        e is IoError,
        read_from(s, offset, buf, at, buf.len() as int, xs)->0.rest.len() < xs.len(),
    decreases buf.len() - at,
{
    let bs = s.block_size();
    let part = buf.skip(at);
    let left = buf.len() - at;
    let n = bytes_asked(offset + at, left, bs);
    let lba = first_sector(offset + at, bs);
    let count = sectors_asked(offset + at, left, bs);
    lemma_request(offset + at, left, bs);
    let room = if is_whole(offset + at, left, bs) {
        part
    } else {
        zeros((count * bs) as nat)
    };
    lemma_read_takes(lba, count, bs, s.lun, room, 0, xs);
    let r = read_request_run(s, offset + at, part, xs)->0;
    if r.result is Ok {
        lemma_read_request_keeps_length(s, offset + at, part, xs);
        lemma_can_serve_next(s, offset + at, left);
        lemma_failed_read_from(s, offset, buf.take(at) + r.data, at + r.result->Ok_0, r.rest, e);
    }
}

/// A transfer uses up exchanges from the front, at least one where it fails.
proof fn lemma_read_takes(
    lba: int,
    count: int,
    block_size: int,
    lun: u8,
    buf: Seq<u8>,
    at: int,
    xs: Seq<Exchange>,
)
    ensures
        read_run(lba, count, block_size, lun, buf, at, xs) matches Some(end) ==> {
            &&& end.rest.len() <= xs.len()
            &&& end.result is Err ==> end.rest.len() < xs.len()
        },
        write_run(lba, count, block_size, lun, buf, at, xs) matches Some(end) ==> {
            &&& end.rest.len() <= xs.len()
            &&& end.result is Err ==> end.rest.len() < xs.len()
        },
    decreases count,
{
    if count > 0 {
        let chunk = chunk_of(count);
        let end = at + chunk * block_size;
        let read = ScsiCommand::Read10 { lba: lba as u32, block_count: chunk as u16 };
        let write = ScsiCommand::Write10 { lba: lba as u32, block_count: chunk as u16 };
        let part = buf.subrange(at, end);
        lemma_first_decides(read, block_size, lun, Some(part), xs, seq![]);
        lemma_first_decides_out(write, block_size, lun, part, xs, seq![]);
        let x = issued(read, block_size, lun, Some(part), xs)->0;
        let filled = buf.take(at) + x.data + buf.skip(end);
        let ys = xs.drop_first();
        lemma_read_takes(lba + chunk, count - chunk, block_size, lun, filled, end, ys);
        lemma_read_takes(lba + chunk, count - chunk, block_size, lun, buf, end, ys);
    }
}

/// A write of bytes fails in three ways only: because the device is
/// write-protected, with an I/O error, or out of bounds, and then nothing was sent;
/// or with an I/O error, and then something was sent.
pub proof fn law_failed_byte_write(
    s: DeviceState,
    offset: int,
    data: Seq<u8>,
    xs: Seq<Exchange>,
    e: DeviceError,
)
    requires
        write_bytes_run(s, offset, data, xs) matches Some(end) && end.result == Err::<
            usize,
            DeviceError,
        >(e),
        offset >= 0,
    ensures
        ({
            let end = write_bytes_run(s, offset, data, xs)->0;
            ||| s.write_protected && e is IoError && end.rest == xs
            ||| !s.write_protected && e is OutOfBounds && end.rest == xs
            ||| !s.write_protected && e is IoError && end.rest.len() < xs.len()
        }),
{
    if !s.write_protected && !s.out_of_bounds(offset, data.len() as int) {
        lemma_failed_write_from(s, offset, data, 0, xs, e);
    }
}

proof fn lemma_failed_write_from(
    s: DeviceState,
    offset: int,
    data: Seq<u8>,
    at: int,
    xs: Seq<Exchange>,
    e: DeviceError,
)
    requires
        !s.write_protected,
        s.can_serve(offset + at, data.len() - at),
        0 <= offset,
        0 <= at <= data.len(),
        write_from(s, offset, data, at, xs) matches Some(end) && end.result == Err::<
            usize,
            DeviceError,
        >(e),
    ensures
        e is IoError,
        write_from(s, offset, data, at, xs)->0.rest.len() < xs.len(),
    decreases data.len() - at,
{
    let bs = s.block_size();
    let part = data.skip(at);
    let left = data.len() - at;
    let n = bytes_asked(offset + at, left, bs);
    let lba = first_sector(offset + at, bs);
    let count = sectors_asked(offset + at, left, bs);
    lemma_request(offset + at, left, bs);
    if is_whole(offset + at, left, bs) {
        lemma_read_takes(lba, count, bs, s.lun, part, 0, xs);
    } else {
        let room = zeros((count * bs) as nat);
        lemma_read_takes(lba, count, bs, s.lun, room, 0, xs);
        let r = read_run(lba, count, bs, s.lun, room, 0, xs)->0;
        if r.result is Ok {
            law_read_keeps_the_rest(lba, count, bs, s.lun, room, 0, xs);
            let changed = patched(r.data, (offset + at) % bs, part.take(n));
            assert(changed.len() == count * bs);
            lemma_read_takes(lba, count, bs, s.lun, changed, 0, r.rest);
        }
    }
    let r = write_request_run(s, offset + at, part, xs)->0;
    if r.result is Ok {
        lemma_can_serve_next(s, offset + at, left);
        lemma_failed_write_from(s, offset, data, at + r.result->Ok_0, r.rest, e);
    }
}

/// How many commands a successful transfer of bytes takes that touches no more than
/// 65535 sectors: one for each 128 sectors begun, and for a write that is not one of
/// whole sectors as many again, by which they are read before.
pub proof fn law_byte_command_count(
    s: DeviceState,
    offset: int,
    data: Seq<u8>,
    xs: Seq<Exchange>,
)
    requires
        offset >= 0,
        data.len() <= usize::MAX,
        s.block_size() > 0,
        (offset + data.len() + s.block_size() - 1) / s.block_size() - offset / s.block_size()
            <= 65535,
    ensures
        ({
            let bs = s.block_size();
            let count = (offset + data.len() + bs - 1) / bs - offset / bs;
            let commands = (count + 127) / 128;
            let whole = offset % bs == 0 && count * bs == data.len();
            &&& read_bytes_run(s, offset, data, xs) matches Some(end) ==> (end.result is Ok
                ==> xs.len() == end.rest.len() + commands)
            &&& write_bytes_run(s, offset, data, xs) matches Some(end) ==> (end.result is Ok
                ==> xs.len() == end.rest.len() + if whole {
                commands
            } else {
                2 * commands
            })
        }),
{
    let bs = s.block_size();
    let len = data.len() as int;
    let lba = first_sector(offset, bs);
    let count = sectors_asked(offset, len, bs);
    lemma_request(offset, len, bs);
    lemma_sectors_cover(offset, len, bs);
    assert(data.skip(0) =~= data);
    let room = zeros((count * bs) as nat);
    if is_whole(offset, len, bs) {
        law_command_count(lba, count, bs, s.lun, data, 0, xs);
    } else {
        law_command_count(lba, count, bs, s.lun, room, 0, xs);
        let r = read_run(lba, count, bs, s.lun, room, 0, xs)->0;
        let changed = patched(r.data, offset % bs, data.take(bytes_asked(offset, len, bs)));
        law_command_count(lba, count, bs, s.lun, changed, 0, r.rest);
    }
}

/// What the answer to each command of the initialization means. An error of INQUIRY
/// or of READ CAPACITY(10) is the error of the initialization, which then stops and
/// learns nothing from it; so is an error of MODE SENSE(6), unless it is that the
/// command failed, which means that the device takes writes.
pub proof fn law_step_errors(s: DeviceState, xs: Seq<Exchange>, e: BotError)
    ensures
        issued(ScsiCommand::Inquiry { alloc_len: 36 }, 0, s.lun, Some(zeros(36)), xs) matches Some(
            end,
        ) ==> (end.result == Err::<u32, BotError>(e) ==> init_run(s, xs) == Some(
            Progress { state: s, result: Err(e), rest: xs.drop_first() },
        )),
        issued(ScsiCommand::ReadCapacity10, 0, s.lun, Some(zeros(8)), xs) matches Some(end) ==> (
        end.result == Err::<u32, BotError>(e) ==> init_from_capacity(s, xs) == Some(
            Progress { state: s, result: Err(e), rest: xs.drop_first() },
        ) && capacity_step(s, xs) == Some(
            Progress { state: s, result: Err(e), rest: xs.drop_first() },
        )),
        issued(
            ScsiCommand::ModeSense { page_code: 0x3F, alloc_len: 192 },
            0,
            s.lun,
            Some(zeros(192)),
            xs,
        ) matches Some(end) ==> (end.result == Err::<u32, BotError>(e) ==> mode_step(s, xs) == Some(
            Progress {
                state: if e is CommandFailed {
                    DeviceState { write_protected: false, ..s }
                } else {
                    s
                },
                result: if e is CommandFailed {
                    Ok(())
                } else {
                    Err(e)
                },
                rest: xs.drop_first(),
            },
        )),
{
}

/// An initialization that fails does so by its last command, whose error is the
/// error of the initialization; or it times out after INQUIRY and ten attempts.
#[verifier::rlimit(30)]
pub proof fn law_failed_init(s: DeviceState, xs: Seq<Exchange>, e: BotError)
    requires
        init_run(s, xs) matches Some(p) && p.result == Err::<(), BotError>(e) && p.rest.len() == 0,
    ensures
        xs.len() > 0,
        e is Timeout && xs.len() == 21 || exists|cmd: ScsiCommand, buf: Option<Seq<u8>>|
            #[trigger] issued(cmd, 0, s.lun, buf, xs.skip(xs.len() - 1)) matches Some(end)
                && end.result == Err::<u32, BotError>(e),
{
    let inquiry = ScsiCommand::Inquiry { alloc_len: 36 };
    let capacity = ScsiCommand::ReadCapacity10;
    let mode = ScsiCommand::ModeSense { page_code: 0x3F, alloc_len: 192 };
    let attempts = MAX_TUR_RETRIES as nat;
    let n = xs.len() as int;
    lemma_first_decides(inquiry, 0, s.lun, Some(zeros(36)), xs, seq![]);
    assert(xs.skip(0) =~= xs);
    let p1 = inquiry_step(s, xs)->0;
    if p1.result is Err {
        assert(issued(inquiry, 0, s.lun, Some(zeros(36)), xs.skip(n - 1)) is Some);
    } else {
        law_ready_is_bounded(p1.state, attempts, p1.rest);
        lemma_ready_leaves_suffix(p1.state, attempts, p1.rest);
        lemma_ready_fails(p1.state, attempts, p1.rest);
        let p2 = ready_step(p1.state, attempts, p1.rest)->0;
        if p2.result is Err {
            if p1.rest.len() > 0 {
                assert(p1.rest.skip(p1.rest.len() - 1) =~= xs.skip(n - 1));
            }
        } else {
            lemma_first_decides(capacity, 0, s.lun, Some(zeros(8)), p2.rest, seq![]);
            lemma_issued_keeps_length(capacity, 0, s.lun, zeros(8), p2.rest);
            let p3 = capacity_step(p2.state, p2.rest)->0;
            if p3.result is Err {
                assert(p2.rest =~= xs.skip(n - 1));
                assert(issued(capacity, 0, s.lun, Some(zeros(8)), xs.skip(n - 1)) is Some);
            } else {
                lemma_first_decides(mode, 0, s.lun, Some(zeros(192)), p3.rest, seq![]);
                assert(p3.rest =~= xs.skip(n - 1));
                assert(issued(mode, 0, s.lun, Some(zeros(192)), xs.skip(n - 1)) is Some);
            }
        }
    }
}

/// A wait that fails times out after all attempts, or fails by its last command.
proof fn lemma_ready_fails(s: DeviceState, attempts: nat, xs: Seq<Exchange>)
    ensures
        ready_step(s, attempts, xs) matches Some(p) ==> (p.rest.len() == 0 ==> match p.result {
            Ok(_) => true,
            Err(e) => {
                ||| e is Timeout && xs.len() == 2 * attempts
                ||| xs.len() > 0 && (issued(
                    ScsiCommand::TestUnitReady,
                    0,
                    s.lun,
                    None,
                    xs.skip(xs.len() - 1),
                ) matches Some(end) && end.result == Err::<u32, BotError>(e))
            },
        }),
    decreases attempts,
{
    if attempts > 0 {
        lemma_first_decides(ScsiCommand::TestUnitReady, 0, s.lun, None, xs, seq![]);
        lemma_first_decides(
            ScsiCommand::RequestSense { alloc_len: 18 },
            0,
            s.lun,
            Some(zeros(18)),
            xs.drop_first(),
            seq![],
        );
        let ys = xs.drop_first().drop_first();
        lemma_ready_fails(s, (attempts - 1) as nat, ys);
        if xs.len() == 1 {
            assert(xs.skip(0) =~= xs);
        } else if xs.len() > 2 {
            assert(ys.skip(ys.len() - 1) =~= xs.skip(xs.len() - 1));
        }
    }
}

} // verus!
