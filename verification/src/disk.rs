//! What reads and writes do to a disk.
//!
//! A disk is a sequence of bytes. An honest disk answers READ(10) with what it
//! holds, takes everything that WRITE(10) offers it, and reports success for
//! both. The laws here say that on an honest disk the driver reads and writes
//! exactly the bytes it was asked for, and that only a write changes a disk.
use crate::block::DeviceError;
use crate::bot::{lemma_cbw_fields, padded_cdb, BotError, CbwView, CBW_SIZE, MAX_CDB_LENGTH};
use crate::bytes::{be16_value, be32_value, law_le32_round_trip, le32_value, zeros};
use crate::exchange::{data_out, exchange, exchange_out, moved, taken, TransferEvent};
use crate::scsi::{cdb10, law_blocks_round_trip, ScsiCommand, ScsiOpcode};
use crate::session::{
    bytes_asked, capacity_step, chunk_of, command, first_sector, init_run, inquiry_step, is_whole,
    issued, issued_out, law_ready_is_bounded, lemma_can_serve_next, lemma_next_request,
    lemma_request, lemma_sectors_cover, patched, read_bytes_run, read_from, read_request_run,
    read_run, read_sectors_run, ready_step, sectors_asked, sectors_touched, write_bytes_run,
    write_from, write_request_run, write_run, write_sectors_run, DeviceState, Exchange,
    MAX_TUR_RETRIES,
};
use vstd::prelude::*;

verus! {

/// The first thing that an exchange sends: its CBW.
pub open spec fn sent(x: Exchange) -> Seq<u8> {
    if x.events.len() == 0 {
        seq![]
    } else {
        match x.events[0] {
            TransferEvent::BulkOut { data, .. } => data,
            _ => seq![],
        }
    }
}

/// Whether an exchange carries a WRITE(10) command.
pub open spec fn is_write(x: Exchange) -> bool {
    sent(x).len() == CBW_SIZE && sent(x)[15] == ScsiOpcode::Write10.code()
}

/// The disk after an exchange: WRITE(10) puts the bytes that were taken at the
/// block that the command names; other commands change nothing.
pub open spec fn disk_after(disk: Seq<u8>, block_size: int, x: Exchange) -> Seq<u8> {
    if is_write(x) {
        patched(
            disk,
            be32_value(sent(x).subrange(17, 21)) * block_size,
            taken(x.events.drop_first()),
        )
    } else {
        disk
    }
}

/// The disk after a series of exchanges.
pub open spec fn disk_after_all(disk: Seq<u8>, block_size: int, xs: Seq<Exchange>) -> Seq<u8>
    decreases xs.len(),
{
    if xs.len() == 0 {
        disk
    } else {
        disk_after_all(disk_after(disk, block_size, xs[0]), block_size, xs.drop_first())
    }
}

/// The bytes of the blocks that a 10-byte command block names.
pub open spec fn blocks_named(disk: Seq<u8>, block_size: int, cdb: Seq<u8>) -> Seq<u8> {
    let lba = be32_value(cdb.subrange(2, 6));
    let count = be16_value(cdb.subrange(7, 9));
    disk.subrange(lba * block_size, (lba + count) * block_size)
}

/// Whether the device answers from `disk`: an exchange for READ(10), with a
/// buffer for the blocks that it names, succeeds and brings these blocks.
pub open spec fn answers_from(disk: Seq<u8>, block_size: int, x: Exchange) -> bool {
    forall|cbw: CbwView, buf: Seq<u8>|
        {
            &&& #[trigger] exchange(cbw, Some(buf), x.events) is Some
            &&& cbw.cdb.len() == MAX_CDB_LENGTH
            &&& cbw.cdb[0] == ScsiOpcode::Read10.code()
            &&& buf.len() == be16_value(cbw.cdb.subrange(7, 9)) * block_size
        } ==> {
            let end = exchange(cbw, Some(buf), x.events)->0;
            &&& end.result is Ok
            &&& end.data == blocks_named(disk, block_size, cbw.cdb)
        }
}

/// Whether the device takes as many bytes of a WRITE(10) as the CBW announces.
pub open spec fn takes_all(x: Exchange) -> bool {
    is_write(x) ==> taken(x.events.drop_first()).len() == le32_value(sent(x).subrange(8, 12))
}

/// Whether the device reports success for a WRITE(10) of which it took all data.
pub open spec fn passes(x: Exchange) -> bool {
    forall|cbw: CbwView, data: Seq<u8>|
        {
            &&& #[trigger] exchange_out(cbw, data, x.events) is Some
            &&& cbw.cdb.len() == MAX_CDB_LENGTH
            &&& cbw.cdb[0] == ScsiOpcode::Write10.code()
            &&& data.len() == cbw.data_transfer_length
            &&& taken(x.events.drop_first()).len() == cbw.data_transfer_length
        } ==> exchange_out(cbw, data, x.events)->0.result is Ok
}

/// Whether a series of exchanges is one with an honest disk that holds `disk` at
/// its beginning.
pub open spec fn honest(disk: Seq<u8>, block_size: int, xs: Seq<Exchange>) -> bool
    decreases xs.len(),
{
    xs.len() == 0 || {
        &&& answers_from(disk, block_size, xs[0])
        &&& takes_all(xs[0])
        &&& passes(xs[0])
        &&& honest(disk_after(disk, block_size, xs[0]), block_size, xs.drop_first())
    }
}

proof fn lemma_sum(a: int, b: int, bs: int)
    by (nonlinear_arith)
    ensures
        (a + b) * bs == a * bs + b * bs,
{
}

proof fn lemma_not_negative(a: int, bs: int)
    by (nonlinear_arith)
    requires
        0 <= a,
        0 <= bs,
    ensures
        0 <= a * bs,
{
}

/// The command block of a 10-byte command as it stands in a CBW.
proof fn lemma_named(op: ScsiOpcode, lba: u32, count: u16)
    ensures
        padded_cdb(cdb10(op, lba, count))[0] == op.code(),
        be32_value(padded_cdb(cdb10(op, lba, count)).subrange(2, 6)) == lba,
        be16_value(padded_cdb(cdb10(op, lba, count)).subrange(7, 9)) == count,
{
    let c = cdb10(op, lba, count);
    law_blocks_round_trip(op, lba, count);
    assert(padded_cdb(c).subrange(2, 6) =~= c.subrange(2, 6));
    assert(padded_cdb(c).subrange(7, 9) =~= c.subrange(7, 9));
}

/// Where the fields of a CBW stand in its bytes.
proof fn lemma_fields(cbw: CbwView)
    requires
        cbw.cdb.len() == MAX_CDB_LENGTH,
    ensures
        cbw.encoded().len() == CBW_SIZE,
        cbw.encoded()[15] == cbw.cdb[0],
        cbw.encoded().subrange(17, 21) == cbw.cdb.subrange(2, 6),
        le32_value(cbw.encoded().subrange(8, 12)) == cbw.data_transfer_length,
{
    let b = cbw.encoded();
    lemma_cbw_fields(cbw);
    assert(b[15] == b.skip(15)[0]);
    assert(b.subrange(17, 21) =~= b.skip(15).subrange(2, 6));
    law_le32_round_trip(cbw.data_transfer_length, b.subrange(8, 12));
}

/// One READ(10) on an honest disk.
proof fn lemma_read_one(
    disk: Seq<u8>,
    bs: int,
    lun: u8,
    lba: u32,
    count: u16,
    buf: Seq<u8>,
    xs: Seq<Exchange>,
)
    requires
        issued(ScsiCommand::Read10 { lba, block_count: count }, bs, lun, Some(buf), xs) is Some,
        honest(disk, bs, xs),
        buf.len() == count * bs,
    ensures
        xs.len() > 0,
        issued(
            ScsiCommand::Read10 { lba, block_count: count },
            bs,
            lun,
            Some(buf),
            xs,
        )->0.result is Ok,
        issued(ScsiCommand::Read10 { lba, block_count: count }, bs, lun, Some(buf), xs)->0.data
            == disk.subrange(lba * bs, (lba + count) * bs),
        honest(disk, bs, xs.drop_first()),
        disk_after_all(disk, bs, xs) == disk_after_all(disk, bs, xs.drop_first()),
{
    reveal(issued);
    let cmd = ScsiCommand::Read10 { lba, block_count: count };
    let cbw = command(cmd, bs, lun, xs[0].tag);
    lemma_named(ScsiOpcode::Read10, lba, count);
    lemma_fields(cbw);
    assert(exchange(cbw, Some(buf), xs[0].events) is Some);
    assert(sent(xs[0]) == cbw.encoded());
    assert(answers_from(disk, bs, xs[0]));
    assert(disk_after(disk, bs, xs[0]) == disk);
}

/// A read of sectors on an honest disk.
proof fn lemma_read(
    disk: Seq<u8>,
    lba: int,
    count: int,
    bs: int,
    lun: u8,
    buf: Seq<u8>,
    at: int,
    xs: Seq<Exchange>,
)
    requires
        honest(disk, bs, xs),
        read_run(lba, count, bs, lun, buf, at, xs) is Some,
        0 <= lba,
        0 <= count <= 0xffff,
        0 <= bs,
        lba + count <= 0x1_0000_0000,
        0 <= at,
        at + count * bs <= buf.len(),
        (lba + count) * bs <= disk.len(),
    ensures
        ({
            let end = read_run(lba, count, bs, lun, buf, at, xs)->0;
            &&& end.result is Ok
            &&& end.data == buf.take(at) + disk.subrange(lba * bs, (lba + count) * bs) + buf.skip(
                at + count * bs,
            )
            &&& honest(disk, bs, end.rest)
            &&& disk_after_all(disk, bs, xs) == disk_after_all(disk, bs, end.rest)
        }),
    decreases count,
{
    lemma_sum(lba, count, bs);
    lemma_not_negative(lba, bs);
    lemma_not_negative(count, bs);
    if count > 0 {
        let chunk = chunk_of(count);
        let end = at + chunk * bs;
        lemma_sum(chunk, count - chunk, bs);
        lemma_sum(lba, chunk, bs);
        lemma_not_negative(chunk, bs);
        lemma_not_negative(count - chunk, bs);
        lemma_read_one(
            disk,
            bs,
            lun,
            lba as u32,
            chunk as u16,
            buf.subrange(at, end),
            xs,
        );
        let part = disk.subrange(lba * bs, (lba + chunk) * bs);
        let filled = buf.take(at) + part + buf.skip(end);
        assert(filled.len() == buf.len());
        lemma_read(disk, lba + chunk, count - chunk, bs, lun, filled, end, xs.drop_first());
        assert(lba + chunk + (count - chunk) == lba + count);
        assert(filled.take(end) + disk.subrange((lba + chunk) * bs, (lba + count) * bs)
            + filled.skip(end + (count - chunk) * bs) =~= buf.take(at) + disk.subrange(
            lba * bs,
            (lba + count) * bs,
        ) + buf.skip(at + count * bs));
    } else {
        assert(buf =~= buf.take(at) + disk.subrange(lba * bs, (lba + count) * bs) + buf.skip(
            at + count * bs,
        ));
    }
}

/// What a device takes in a data-out phase is a part of the data, from the
/// position on that the phase has reached.
proof fn lemma_taken(data: Seq<u8>, at: int, events: Seq<TransferEvent>)
    requires
        0 <= at <= data.len(),
        data_out(data, at, events) matches Some(p) && p.result is Ok && p.rest.len() > 0
            && p.rest[0] is BulkIn,
    ensures
        at + taken(events).len() <= data.len(),
        taken(events) == data.subrange(at, at + taken(events).len()),
    decreases events.len(),
{
    reveal_with_fuel(taken, 2);
    if at < data.len() {
        let rest = events.drop_first();
        match events[0] {
            TransferEvent::BulkOut { data: offered, answer: Ok(n) } => if n != 0 {
                let next = moved(at, n as int, data.len() as int);
                lemma_taken(data, next, rest);
                assert(offered.take(moved(0, n as int, offered.len() as int)) =~= data.subrange(
                    at,
                    next,
                ));
                assert(data.subrange(at, next) + taken(rest) =~= data.subrange(
                    at,
                    next + taken(rest).len(),
                ));
            } else {
                assert(offered.take(0) + taken(rest) =~= data.subrange(at, at));
            },
            _ => {},
        }
    }
}

/// One WRITE(10) on an honest disk.
proof fn lemma_write_one(
    disk: Seq<u8>,
    bs: int,
    lun: u8,
    lba: u32,
    count: u16,
    data: Seq<u8>,
    xs: Seq<Exchange>,
)
    requires
        issued_out(ScsiCommand::Write10 { lba, block_count: count }, bs, lun, data, xs) is Some,
        honest(disk, bs, xs),
        data.len() == count * bs <= u32::MAX,
    ensures
        xs.len() > 0,
        issued_out(
            ScsiCommand::Write10 { lba, block_count: count },
            bs,
            lun,
            data,
            xs,
        )->0.result is Ok,
        honest(patched(disk, lba * bs, data), bs, xs.drop_first()),
        disk_after_all(disk, bs, xs) == disk_after_all(
            patched(disk, lba * bs, data),
            bs,
            xs.drop_first(),
        ),
{
    reveal(issued_out);
    let cmd = ScsiCommand::Write10 { lba, block_count: count };
    let cbw = command(cmd, bs, lun, xs[0].tag);
    let rest = xs[0].events.drop_first();
    lemma_named(ScsiOpcode::Write10, lba, count);
    lemma_fields(cbw);
    assert(sent(xs[0]) == cbw.encoded());
    assert(is_write(xs[0]));
    assert(passes(xs[0]));
    assert(exchange_out(cbw, data, xs[0].events)->0.result is Ok);
    if cbw.data_transfer_length > 0 {
        lemma_taken(data, 0, rest);
    }
    assert(taken(rest) =~= data);
}

/// Two adjacent patches are one.
proof fn lemma_patches_join(disk: Seq<u8>, at: int, a: Seq<u8>, b: Seq<u8>)
    requires
        0 <= at,
        at + a.len() + b.len() <= disk.len(),
    ensures
        patched(patched(disk, at, a), at + a.len(), b) == patched(disk, at, a + b),
{
    assert(patched(patched(disk, at, a), at + a.len(), b) =~= patched(disk, at, a + b));
}

/// A write of sectors on an honest disk.
proof fn lemma_write(
    disk: Seq<u8>,
    lba: int,
    count: int,
    bs: int,
    lun: u8,
    data: Seq<u8>,
    at: int,
    xs: Seq<Exchange>,
)
    requires
        honest(disk, bs, xs),
        write_run(lba, count, bs, lun, data, at, xs) is Some,
        0 <= lba,
        0 <= count <= 0xffff,
        0 <= bs,
        lba + count <= 0x1_0000_0000,
        chunk_of(count) * bs <= u32::MAX,
        0 <= at,
        at + count * bs <= data.len(),
        (lba + count) * bs <= disk.len(),
    ensures
        ({
            let end = write_run(lba, count, bs, lun, data, at, xs)->0;
            let written = patched(disk, lba * bs, data.subrange(at, at + count * bs));
            &&& end.result is Ok
            &&& honest(written, bs, end.rest)
            &&& disk_after_all(disk, bs, xs) == disk_after_all(written, bs, end.rest)
        }),
    decreases count,
{
    lemma_sum(lba, count, bs);
    lemma_not_negative(lba, bs);
    lemma_not_negative(count, bs);
    if count > 0 {
        let chunk = chunk_of(count);
        let end = at + chunk * bs;
        lemma_sum(chunk, count - chunk, bs);
        lemma_sum(lba, chunk, bs);
        lemma_not_negative(chunk, bs);
        lemma_not_negative(count - chunk, bs);
        let part = data.subrange(at, end);
        lemma_write_one(disk, bs, lun, lba as u32, chunk as u16, part, xs);
        let next = patched(disk, lba * bs, part);
        assert(chunk_of(count - chunk) * bs <= chunk * bs) by (nonlinear_arith)
            requires
                0 <= chunk_of(count - chunk) <= chunk,
                0 <= bs,
        ;
        lemma_write(next, lba + chunk, count - chunk, bs, lun, data, end, xs.drop_first());
        let tail = data.subrange(end, end + (count - chunk) * bs);
        lemma_patches_join(disk, lba * bs, part, tail);
        assert(part + tail =~= data.subrange(at, at + count * bs));
    } else {
        assert(patched(disk, lba * bs, data.subrange(at, at + count * bs)) =~= disk);
    }
}

/// Reading sectors from an honest disk succeeds and brings the bytes of exactly
/// these sectors, in order. The rest of the buffer, and the disk, stay as they
/// are.
pub proof fn law_read_sectors(
    s: DeviceState,
    disk: Seq<u8>,
    lba: int,
    count: int,
    buf: Seq<u8>,
    xs: Seq<Exchange>,
)
    requires
        honest(disk, s.block_size(), xs),
        read_sectors_run(s, lba, count, buf, xs) is Some,
        0 <= lba,
        0 <= count <= u16::MAX,
        s.can_transfer(lba, count),
        count * s.block_size() <= buf.len(),
        (lba + count) * s.block_size() <= disk.len(),
    ensures
        ({
            let bs = s.block_size();
            let end = read_sectors_run(s, lba, count, buf, xs)->0;
            &&& end.result is Ok
            &&& end.data == disk.subrange(lba * bs, (lba + count) * bs) + buf.skip(count * bs)
            &&& honest(disk, bs, end.rest)
            &&& disk_after_all(disk, bs, xs) == disk_after_all(disk, bs, end.rest)
        }),
{
    let bs = s.block_size();
    lemma_read(disk, lba, count, bs, s.lun, buf, 0, xs);
    assert(buf.take(0) + disk.subrange(lba * bs, (lba + count) * bs) =~= disk.subrange(
        lba * bs,
        (lba + count) * bs,
    ));
}

/// Writing sectors to an honest disk succeeds and changes exactly the bytes of
/// these sectors, to the data.
pub proof fn law_write_sectors(
    s: DeviceState,
    disk: Seq<u8>,
    lba: int,
    count: int,
    data: Seq<u8>,
    xs: Seq<Exchange>,
)
    requires
        honest(disk, s.block_size(), xs),
        write_sectors_run(s, lba, count, data, xs) is Some,
        !s.write_protected,
        0 <= lba,
        0 <= count <= u16::MAX,
        s.can_transfer(lba, count),
        count * s.block_size() <= data.len(),
        (lba + count) * s.block_size() <= disk.len(),
    ensures
        ({
            let bs = s.block_size();
            let end = write_sectors_run(s, lba, count, data, xs)->0;
            let written = patched(disk, lba * bs, data.take(count * bs));
            &&& end.result is Ok
            &&& honest(written, bs, end.rest)
            &&& disk_after_all(disk, bs, xs) == disk_after_all(written, bs, end.rest)
        }),
{
    let bs = s.block_size();
    lemma_write(disk, lba, count, bs, s.lun, data, 0, xs);
    assert(data.subrange(0, 0 + count * bs) =~= data.take(count * bs));
}

/// Whether a disk of `size` bytes has all sectors that `len` bytes at `offset`
/// touch.
pub open spec fn has_sectors(size: int, offset: int, len: int, block_size: int) -> bool {
    (first_sector(offset, block_size) + sectors_touched(offset, len, block_size)) * block_size
        <= size
}

/// A disk that has the sectors of a range has those of its first request, and
/// those of what this leaves.
proof fn lemma_has_sectors(size: int, offset: int, len: int, bs: int)
    requires
        0 <= offset,
        0 <= len,
        0 < bs,
        has_sectors(size, offset, len, bs),
    ensures
        (first_sector(offset, bs) + sectors_asked(offset, len, bs)) * bs <= size,
        offset + len <= size,
        bytes_asked(offset, len, bs) < len ==> has_sectors(
            size,
            offset + bytes_asked(offset, len, bs),
            len - bytes_asked(offset, len, bs),
            bs,
        ),
{
    let lba = first_sector(offset, bs);
    let touched = sectors_touched(offset, len, bs);
    lemma_request(offset, len, bs);
    lemma_sectors_cover(offset, len, bs);
    lemma_sum(lba, touched, bs);
    if bytes_asked(offset, len, bs) < len {
        lemma_next_request(offset, len, bs);
    }
}

/// One request for reading on an honest disk.
proof fn lemma_read_request(
    s: DeviceState,
    disk: Seq<u8>,
    offset: int,
    buf: Seq<u8>,
    xs: Seq<Exchange>,
)
    requires
        honest(disk, s.block_size(), xs),
        read_request_run(s, offset, buf, xs) is Some,
        0 <= offset,
        buf.len() <= usize::MAX,
        s.can_serve(offset, buf.len() as int),
        has_sectors(disk.len() as int, offset, buf.len() as int, s.block_size()),
    ensures
        ({
            let bs = s.block_size();
            let n = bytes_asked(offset, buf.len() as int, bs);
            let end = read_request_run(s, offset, buf, xs)->0;
            &&& end.result == Ok::<usize, DeviceError>(n as usize)
            &&& end.data == disk.subrange(offset, offset + n) + buf.skip(n)
            &&& honest(disk, bs, end.rest)
            &&& disk_after_all(disk, bs, xs) == disk_after_all(disk, bs, end.rest)
        }),
{
    let bs = s.block_size();
    let len = buf.len() as int;
    let lba = first_sector(offset, bs);
    let count = sectors_asked(offset, len, bs);
    let n = bytes_asked(offset, len, bs);
    lemma_request(offset, len, bs);
    lemma_has_sectors(disk.len() as int, offset, len, bs);
    lemma_part_transfers(s, lba, sectors_touched(offset, len, bs), count);
    let sectors = disk.subrange(lba * bs, (lba + count) * bs);
    if is_whole(offset, len, bs) {
        law_read_sectors(s, disk, lba, count, buf, xs);
    } else {
        let room = zeros((count * bs) as nat);
        law_read_sectors(s, disk, lba, count, room, xs);
        assert(sectors + room.skip(count * bs) =~= sectors);
        assert(sectors.subrange(offset % bs, offset % bs + n) =~= disk.subrange(
            offset,
            offset + n,
        ));
    }
}

/// A part of what can be transferred can be transferred.
proof fn lemma_part_transfers(s: DeviceState, lba: int, count: int, part: int)
    requires
        s.can_transfer(lba, count),
        0 <= part <= count,
    ensures
        s.can_transfer(lba, part),
{
    let bs = s.block_size();
    assert(chunk_of(part) * bs <= chunk_of(count) * bs) by (nonlinear_arith)
        requires
            chunk_of(part) <= chunk_of(count),
            0 <= bs,
    ;
}

/// A read of bytes on an honest disk that has reached position `at`.
proof fn lemma_read_from(
    s: DeviceState,
    disk: Seq<u8>,
    offset: int,
    buf: Seq<u8>,
    at: int,
    xs: Seq<Exchange>,
)
    requires
        honest(disk, s.block_size(), xs),
        read_from(s, offset, buf, at, buf.len() as int, xs) is Some,
        0 <= offset,
        0 <= at <= buf.len() <= usize::MAX,
        s.can_serve(offset + at, buf.len() - at),
        has_sectors(disk.len() as int, offset + at, buf.len() - at, s.block_size()),
    ensures
        ({
            let bs = s.block_size();
            let len = buf.len() as int;
            let end = read_from(s, offset, buf, at, len, xs)->0;
            &&& end.result == Ok::<usize, DeviceError>(len as usize)
            &&& end.data == buf.take(at) + disk.subrange(offset + at, offset + len)
            &&& honest(disk, bs, end.rest)
            &&& disk_after_all(disk, bs, xs) == disk_after_all(disk, bs, end.rest)
        }),
    decreases buf.len() - at,
{
    let bs = s.block_size();
    let len = buf.len() as int;
    let left = len - at;
    let n = bytes_asked(offset + at, left, bs);
    lemma_request(offset + at, left, bs);
    lemma_has_sectors(disk.len() as int, offset + at, left, bs);
    lemma_read_request(s, disk, offset + at, buf.skip(at), xs);
    let r = read_request_run(s, offset + at, buf.skip(at), xs)->0;
    let filled = buf.take(at) + r.data;
    assert(filled.take(at + n) =~= buf.take(at) + disk.subrange(offset + at, offset + at + n));
    if n < left {
        lemma_can_serve_next(s, offset + at, left);
        lemma_read_from(s, disk, offset, filled, at + n, r.rest);
        assert(disk.subrange(offset + at, offset + at + n) + disk.subrange(
            offset + at + n,
            offset + len,
        ) =~= disk.subrange(offset + at, offset + len));
        assert(filled.take(at + n) + disk.subrange(offset + at + n, offset + len) =~= buf.take(at)
            + disk.subrange(offset + at, offset + len));
    } else {
        assert(filled =~= filled.take(at + n));
    }
}

/// Reading bytes from an honest disk succeeds and brings the bytes at that
/// offset, as many as the buffer holds. The disk stays as it is.
pub proof fn law_read_bytes(
    s: DeviceState,
    disk: Seq<u8>,
    offset: int,
    buf: Seq<u8>,
    xs: Seq<Exchange>,
)
    requires
        honest(disk, s.block_size(), xs),
        read_bytes_run(s, offset, buf, xs) is Some,
        0 <= offset,
        buf.len() <= usize::MAX,
        s.block_size() > 0,
        !s.out_of_bounds(offset, buf.len() as int),
        has_sectors(disk.len() as int, offset, buf.len() as int, s.block_size()),
    ensures
        ({
            let bs = s.block_size();
            let end = read_bytes_run(s, offset, buf, xs)->0;
            &&& end.result == Ok::<usize, DeviceError>(buf.len() as usize)
            &&& end.data == disk.subrange(offset, offset + buf.len())
            &&& honest(disk, bs, end.rest)
            &&& disk_after_all(disk, bs, xs) == disk_after_all(disk, bs, end.rest)
        }),
{
    lemma_read_from(s, disk, offset, buf, 0, xs);
    assert(buf.take(0) + disk.subrange(offset, offset + buf.len()) =~= disk.subrange(
        offset,
        offset + buf.len(),
    ));
}

/// One request for writing on an honest disk.
proof fn lemma_write_request(
    s: DeviceState,
    disk: Seq<u8>,
    offset: int,
    data: Seq<u8>,
    xs: Seq<Exchange>,
)
    requires
        honest(disk, s.block_size(), xs),
        write_request_run(s, offset, data, xs) is Some,
        !s.write_protected,
        0 <= offset,
        data.len() <= usize::MAX,
        s.can_serve(offset, data.len() as int),
        has_sectors(disk.len() as int, offset, data.len() as int, s.block_size()),
    ensures
        ({
            let bs = s.block_size();
            let n = bytes_asked(offset, data.len() as int, bs);
            let end = write_request_run(s, offset, data, xs)->0;
            let written = patched(disk, offset, data.take(n));
            &&& end.result == Ok::<usize, DeviceError>(n as usize)
            &&& honest(written, bs, end.rest)
            &&& disk_after_all(disk, bs, xs) == disk_after_all(written, bs, end.rest)
        }),
{
    let bs = s.block_size();
    let len = data.len() as int;
    let lba = first_sector(offset, bs);
    let count = sectors_asked(offset, len, bs);
    let n = bytes_asked(offset, len, bs);
    lemma_request(offset, len, bs);
    lemma_has_sectors(disk.len() as int, offset, len, bs);
    lemma_part_transfers(s, lba, sectors_touched(offset, len, bs), count);
    if is_whole(offset, len, bs) {
        law_write_sectors(s, disk, lba, count, data, xs);
    } else {
        let room = zeros((count * bs) as nat);
        law_read_sectors(s, disk, lba, count, room, xs);
        let r = read_sectors_run(s, lba, count, room, xs)->0;
        let sectors = disk.subrange(lba * bs, (lba + count) * bs);
        assert(r.data =~= sectors);
        let changed = patched(sectors, offset % bs, data.take(n));
        law_write_sectors(s, disk, lba, count, changed, r.rest);
        assert(changed.take(count * bs) =~= changed);
        assert(patched(disk, lba * bs, changed) =~= patched(disk, offset, data.take(n)));
    }
}

/// A write of bytes on an honest disk that has reached position `at`.
proof fn lemma_write_from(
    s: DeviceState,
    disk: Seq<u8>,
    offset: int,
    data: Seq<u8>,
    at: int,
    xs: Seq<Exchange>,
)
    requires
        honest(disk, s.block_size(), xs),
        write_from(s, offset, data, at, xs) is Some,
        !s.write_protected,
        0 <= offset,
        0 <= at <= data.len() <= usize::MAX,
        s.can_serve(offset + at, data.len() - at),
        has_sectors(disk.len() as int, offset + at, data.len() - at, s.block_size()),
    ensures
        ({
            let bs = s.block_size();
            let end = write_from(s, offset, data, at, xs)->0;
            let written = patched(disk, offset + at, data.skip(at));
            &&& end.result == Ok::<usize, DeviceError>(data.len() as usize)
            &&& honest(written, bs, end.rest)
            &&& disk_after_all(disk, bs, xs) == disk_after_all(written, bs, end.rest)
        }),
    decreases data.len() - at,
{
    let bs = s.block_size();
    let left = data.len() - at;
    let rest = data.skip(at);
    let n = bytes_asked(offset + at, left, bs);
    lemma_request(offset + at, left, bs);
    lemma_has_sectors(disk.len() as int, offset + at, left, bs);
    lemma_write_request(s, disk, offset + at, rest, xs);
    let r = write_request_run(s, offset + at, rest, xs)->0;
    if n < left {
        let next = patched(disk, offset + at, rest.take(n));
        lemma_can_serve_next(s, offset + at, left);
        lemma_write_from(s, next, offset, data, at + n, r.rest);
        lemma_patches_join(disk, offset + at, rest.take(n), data.skip(at + n));
        assert(rest.take(n) + data.skip(at + n) =~= rest);
    } else {
        assert(rest.take(n) =~= rest);
    }
}

/// Writing bytes to an honest disk succeeds and changes exactly the bytes at that
/// offset, to the data. Bytes beside them stay as they are, though they lie in
/// the same sectors.
pub proof fn law_write_bytes(
    s: DeviceState,
    disk: Seq<u8>,
    offset: int,
    data: Seq<u8>,
    xs: Seq<Exchange>,
)
    requires
        honest(disk, s.block_size(), xs),
        write_bytes_run(s, offset, data, xs) is Some,
        !s.write_protected,
        0 <= offset,
        data.len() <= usize::MAX,
        s.block_size() > 0,
        !s.out_of_bounds(offset, data.len() as int),
        has_sectors(disk.len() as int, offset, data.len() as int, s.block_size()),
    ensures
        ({
            let bs = s.block_size();
            let end = write_bytes_run(s, offset, data, xs)->0;
            let written = patched(disk, offset, data);
            &&& end.result == Ok::<usize, DeviceError>(data.len() as usize)
            &&& honest(written, bs, end.rest)
            &&& disk_after_all(disk, bs, xs) == disk_after_all(written, bs, end.rest)
        }),
{
    lemma_write_from(s, disk, offset, data, 0, xs);
    assert(data.skip(0) =~= data);
}

/// A disk of the size that the device reports has the sectors of everything that
/// is not out of bounds.
pub proof fn law_within_bounds(s: DeviceState, offset: int, len: int)
    requires
        0 <= offset,
        0 <= len,
        s.capacity is Some,
        s.block_size() > 0,
        !s.out_of_bounds(offset, len),
    ensures
        has_sectors(s.total_size(), offset, len, s.block_size()),
{
    let bs = s.block_size();
    let lba = first_sector(offset, bs);
    let touched = sectors_touched(offset, len, bs);
    let blocks = s.capacity->0.last_lba + 1;
    lemma_sectors_cover(offset, len, bs);
    lemma_sum(lba, touched, bs);
    assert(lba + touched <= blocks) by (nonlinear_arith)
        requires
            (lba + touched) * bs < blocks * bs + bs,
            0 < bs,
    ;
    assert((lba + touched) * bs <= blocks * bs) by (nonlinear_arith)
        requires
            lba + touched <= blocks,
            0 < bs,
    ;
}

/// What was written is read back: on an honest disk a read of as many bytes at
/// the offset of a write brings the bytes that were written.
pub proof fn law_read_after_write(
    s: DeviceState,
    disk: Seq<u8>,
    offset: int,
    data: Seq<u8>,
    buf: Seq<u8>,
    xs: Seq<Exchange>,
)
    requires
        honest(disk, s.block_size(), xs),
        write_bytes_run(s, offset, data, xs) matches Some(w) && read_bytes_run(
            s,
            offset,
            buf,
            w.rest,
        ) is Some,
        !s.write_protected,
        0 <= offset,
        data.len() <= usize::MAX,
        buf.len() == data.len(),
        s.block_size() > 0,
        !s.out_of_bounds(offset, data.len() as int),
        has_sectors(disk.len() as int, offset, data.len() as int, s.block_size()),
    ensures
        ({
            let w = write_bytes_run(s, offset, data, xs)->0;
            let r = read_bytes_run(s, offset, buf, w.rest)->0;
            &&& w.result == Ok::<usize, DeviceError>(data.len() as usize)
            &&& r.result == Ok::<usize, DeviceError>(data.len() as usize)
            &&& r.data == data
        }),
{
    let bs = s.block_size();
    let w = write_bytes_run(s, offset, data, xs)->0;
    let written = patched(disk, offset, data);
    lemma_has_sectors(disk.len() as int, offset, data.len() as int, bs);
    law_write_bytes(s, disk, offset, data, xs);
    law_read_bytes(s, written, offset, buf, w.rest);
    assert(written.subrange(offset, offset + data.len()) =~= data);
}

/// A command other than WRITE(10) leaves every disk as it is.
proof fn lemma_leaves_disk(
    cmd: ScsiCommand,
    block_size: int,
    lun: u8,
    data: Option<Seq<u8>>,
    disk: Seq<u8>,
    bs: int,
    xs: Seq<Exchange>,
)
    requires
        issued(cmd, block_size, lun, data, xs) is Some,
        !(cmd is Write10),
    ensures
        xs.len() > 0,
        disk_after_all(disk, bs, xs) == disk_after_all(disk, bs, xs.drop_first()),
{
    reveal(issued);
    let cbw = command(cmd, block_size, lun, xs[0].tag);
    lemma_fields(cbw);
    assert(sent(xs[0]) == cbw.encoded());
    assert(cbw.cdb[0] == cmd.cdb()[0]);
    assert(!is_write(xs[0]));
}

/// Reading sectors leaves every disk as it is, whatever the device answers.
pub proof fn law_reads_leave_the_disk(
    lba: int,
    count: int,
    block_size: int,
    lun: u8,
    buf: Seq<u8>,
    at: int,
    xs: Seq<Exchange>,
    disk: Seq<u8>,
    bs: int,
)
    requires
        read_run(lba, count, block_size, lun, buf, at, xs) is Some,
    ensures
        disk_after_all(disk, bs, xs) == disk_after_all(
            disk,
            bs,
            read_run(lba, count, block_size, lun, buf, at, xs)->0.rest,
        ),
    decreases count,
{
    if count > 0 {
        let chunk = chunk_of(count);
        let end = at + chunk * block_size;
        let cmd = ScsiCommand::Read10 { lba: lba as u32, block_count: chunk as u16 };
        let wanted = Some(buf.subrange(at, end));
        lemma_leaves_disk(cmd, block_size, lun, wanted, disk, bs, xs);
        let x = issued(cmd, block_size, lun, wanted, xs)->0;
        if x.result is Ok {
            law_reads_leave_the_disk(
                lba + chunk,
                count - chunk,
                block_size,
                lun,
                buf.take(at) + x.data + buf.skip(end),
                end,
                xs.drop_first(),
                disk,
                bs,
            );
        }
    }
}

/// Reading bytes leaves every disk as it is, whatever the device answers.
pub proof fn law_byte_reads_leave_the_disk(
    s: DeviceState,
    offset: int,
    buf: Seq<u8>,
    xs: Seq<Exchange>,
    disk: Seq<u8>,
    bs: int,
)
    requires
        read_bytes_run(s, offset, buf, xs) is Some,
    ensures
        disk_after_all(disk, bs, xs) == disk_after_all(
            disk,
            bs,
            read_bytes_run(s, offset, buf, xs)->0.rest,
        ),
{
    if !s.out_of_bounds(offset, buf.len() as int) && s.block_size() != 0 {
        lemma_read_from_leaves_disk(s, offset, buf, 0, buf.len() as int, xs, disk, bs);
    }
}

proof fn lemma_read_from_leaves_disk(
    s: DeviceState,
    offset: int,
    buf: Seq<u8>,
    at: int,
    len: int,
    xs: Seq<Exchange>,
    disk: Seq<u8>,
    bs: int,
)
    requires
        read_from(s, offset, buf, at, len, xs) is Some,
    ensures
        disk_after_all(disk, bs, xs) == disk_after_all(
            disk,
            bs,
            read_from(s, offset, buf, at, len, xs)->0.rest,
        ),
    decreases len - at,
{
    let size = s.block_size();
    let part = buf.skip(at);
    let lba = first_sector(offset + at, size);
    let count = sectors_asked(offset + at, part.len() as int, size);
    let room = if is_whole(offset + at, part.len() as int, size) {
        part
    } else {
        zeros((count * size) as nat)
    };
    if room.len() >= count * size {
        law_reads_leave_the_disk(lba, count, size, s.lun, room, 0, xs, disk, bs);
    }
    let r = read_request_run(s, offset + at, part, xs)->0;
    match r.result {
        Ok(n) => if 0 < n && at + n < len {
            lemma_read_from_leaves_disk(
                s,
                offset,
                buf.take(at) + r.data,
                at + n,
                len,
                r.rest,
                disk,
                bs,
            );
        },
        Err(_) => {},
    }
}

proof fn lemma_ready_leaves_disk(
    s: DeviceState,
    attempts: nat,
    xs: Seq<Exchange>,
    disk: Seq<u8>,
    bs: int,
)
    requires
        ready_step(s, attempts, xs) is Some,
    ensures
        disk_after_all(disk, bs, xs) == disk_after_all(
            disk,
            bs,
            ready_step(s, attempts, xs)->0.rest,
        ),
    decreases attempts,
{
    if attempts > 0 {
        let ready = ScsiCommand::TestUnitReady;
        let sense = ScsiCommand::RequestSense { alloc_len: 18 };
        lemma_leaves_disk(ready, 0, s.lun, None, disk, bs, xs);
        if issued(ready, 0, s.lun, None, xs)->0.result == Err::<u32, BotError>(
            BotError::CommandFailed,
        ) {
            lemma_leaves_disk(sense, 0, s.lun, Some(zeros(18)), disk, bs, xs.drop_first());
            lemma_ready_leaves_disk(
                s,
                (attempts - 1) as nat,
                xs.drop_first().drop_first(),
                disk,
                bs,
            );
        }
    }
}

/// The initialization leaves every disk as it is, whatever the device answers.
pub proof fn law_init_leaves_the_disk(
    s: DeviceState,
    xs: Seq<Exchange>,
    disk: Seq<u8>,
    bs: int,
)
    requires
        init_run(s, xs) is Some,
    ensures
        disk_after_all(disk, bs, xs) == disk_after_all(disk, bs, init_run(s, xs)->0.rest),
{
    let inquiry = ScsiCommand::Inquiry { alloc_len: 36 };
    let mode = ScsiCommand::ModeSense { page_code: 0x3F, alloc_len: 192 };
    lemma_leaves_disk(inquiry, 0, s.lun, Some(zeros(36)), disk, bs, xs);
    let p1 = inquiry_step(s, xs)->0;
    if p1.result is Ok {
        law_ready_is_bounded(p1.state, MAX_TUR_RETRIES as nat, p1.rest);
        lemma_ready_leaves_disk(p1.state, MAX_TUR_RETRIES as nat, p1.rest, disk, bs);
        let p2 = ready_step(p1.state, MAX_TUR_RETRIES as nat, p1.rest)->0;
        if p2.result is Ok {
            lemma_leaves_disk(
                ScsiCommand::ReadCapacity10,
                0,
                s.lun,
                Some(zeros(8)),
                disk,
                bs,
                p2.rest,
            );
            let p3 = capacity_step(p2.state, p2.rest)->0;
            if p3.result is Ok {
                lemma_leaves_disk(mode, 0, s.lun, Some(zeros(192)), disk, bs, p3.rest);
            }
        }
    }
}

} // verus!
