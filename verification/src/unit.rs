//! What a driver does with a storage unit, over a link.
//!
//! `StorageUnit` holds what is known of a unit. Its methods have nothing of the
//! transport but a link, and their contracts say which exchanges they made over
//! it: these, in this order, and no others.
use crate::block::DeviceError;
use crate::bot::{BotError, BulkTransport};
use crate::bytes::zeros;
use crate::exchange::ExchangeEnd;
use crate::link::{lemma_since_joins, Link};
use crate::scsi::{InquiryData, ModeSenseHeader, ReadCapacity10Data, ScsiCommand, SenseData};
use crate::session::{
    capacity_step, chunk_of, first_sector, init_run, inquiry_step, issued, issued_out,
    lemma_can_serve_next, lemma_capacity_extends, lemma_first_decides, lemma_first_decides_out,
    lemma_inquiry_extends, lemma_read_extends, lemma_read_request_extends, lemma_ready_extends,
    lemma_request, lemma_sectors_cover, lemma_write_request_extends, mode_step, patched,
    read_bytes_run, read_from, read_request_run, read_run, read_sectors_run, ready_step,
    sectors_touched, sense_of, write_bytes_run, write_from, write_request_run, write_run,
    write_sectors_run, BytesEnd, DeviceState, Exchange, Progress, RunEnd, DEFAULT_BLOCK_SIZE,
    MAX_SECTORS_PER_REQUEST, MAX_SECTORS_PER_TRANSFER, MAX_TUR_RETRIES,
};
use vstd::arithmetic::div_mod::{
    lemma_fundamental_div_mod, lemma_fundamental_div_mod_converse, lemma_mod_bound,
};
use vstd::prelude::*;
use vstd::slice::slice_subrange;

verus! {

/// What is known of a storage unit.
#[derive(Debug)]
pub struct StorageUnit {
    /// Device identification.
    inquiry: Option<InquiryData>,
    /// Disk geometry.
    capacity: Option<ReadCapacity10Data>,
    /// Whether the unit refuses writes.
    write_protected: bool,
    /// Logical Unit Number (typically 0).
    lun: u8,
}

impl View for StorageUnit {
    type V = DeviceState;

    closed spec fn view(&self) -> DeviceState {
        DeviceState {
            inquiry: InquiryData::option_view(self.inquiry),
            capacity: self.capacity,
            write_protected: self.write_protected,
            lun: self.lun,
        }
    }
}

impl StorageUnit {
    /// A unit of which nothing is known yet.
    pub fn new(lun: u8) -> (res: Self)
        ensures
            res@ == (DeviceState { inquiry: None, capacity: None, write_protected: false, lun }),
    {
        StorageUnit { inquiry: None, capacity: None, write_protected: false, lun }
    }

    /// The disk geometry, if it is known.
    pub fn capacity(&self) -> (res: Option<&ReadCapacity10Data>)
        ensures
            res == match self@.capacity {
                Some(c) => Some(&c),
                None => None,
            },
    {
        match &self.capacity {
            Some(c) => Some(c),
            None => None,
        }
    }

    /// The device identification, if it is known.
    pub fn inquiry(&self) -> (res: Option<&InquiryData>)
        ensures
            match res {
                Some(d) => self@.inquiry == Some(d@),
                None => self@.inquiry is None,
            },
    {
        match &self.inquiry {
            Some(d) => Some(d),
            None => None,
        }
    }

    /// Whether the unit refuses writes.
    pub fn is_write_protected(&self) -> (res: bool)
        ensures
            res == self@.write_protected,
    {
        self.write_protected
    }

    /// Initializes the unit: INQUIRY, TEST UNIT READY, READ CAPACITY(10), MODE
    /// SENSE(6), up to the first step that fails.
    pub fn init<T: BulkTransport>(&mut self, link: &mut Link<T>) -> (res: Result<(), BotError>)
        requires
            old(link).wf(),
        ensures
            final(link).follows(*old(link)),
            init_run(old(self)@, final(link).since(*old(link))) == Some(
                Progress { state: final(self)@, result: res, rest: seq![] },
            ),
    {
        let ghost l0 = *link;
        let ghost s0 = self@;
        match self.do_inquiry(link) {
            Err(e) => {
                return Err(e);
            },
            Ok(()) => {},
        }
        let ghost l1 = *link;
        let ghost s1 = self@;
        let ready = self.wait_unit_ready(link);
        let ghost l2 = *link;
        proof {
            lemma_since_joins(l0, l1, l2);
            lemma_inquiry_extends(s0, l1.since(l0), l2.since(l1));
            assert(Seq::<Exchange>::empty() + l2.since(l1) =~= l2.since(l1));
        }
        match ready {
            Err(e) => {
                return Err(e);
            },
            Ok(()) => {},
        }
        let measured = self.do_read_capacity(link);
        let ghost l3 = *link;
        let ghost s3 = self@;
        proof {
            lemma_since_joins(l1, l2, l3);
            lemma_since_joins(l0, l1, l3);
            lemma_inquiry_extends(s0, l1.since(l0), l3.since(l1));
            assert(Seq::<Exchange>::empty() + l3.since(l1) =~= l3.since(l1));
            lemma_ready_extends(s1, MAX_TUR_RETRIES as nat, l2.since(l1), l3.since(l2));
            assert(Seq::<Exchange>::empty() + l3.since(l2) =~= l3.since(l2));
        }
        match measured {
            Err(e) => {
                return Err(e);
            },
            Ok(()) => {},
        }
        let res = self.do_mode_sense(link);
        proof {
            let l4 = *link;
            lemma_since_joins(l2, l3, l4);
            lemma_since_joins(l1, l2, l4);
            lemma_since_joins(l0, l1, l4);
            lemma_inquiry_extends(s0, l1.since(l0), l4.since(l1));
            assert(Seq::<Exchange>::empty() + l4.since(l1) =~= l4.since(l1));
            lemma_ready_extends(s1, MAX_TUR_RETRIES as nat, l2.since(l1), l4.since(l2));
            assert(Seq::<Exchange>::empty() + l4.since(l2) =~= l4.since(l2));
            lemma_capacity_extends(s1, l3.since(l2), l4.since(l3));
            assert(Seq::<Exchange>::empty() + l4.since(l3) =~= l4.since(l3));
        }
        res
    }

    /// Executes INQUIRY and keeps the identification.
    pub fn do_inquiry<T: BulkTransport>(&mut self, link: &mut Link<T>) -> (res: Result<
        (),
        BotError,
    >)
        requires
            old(link).wf(),
        ensures
            final(link).follows(*old(link)),
            inquiry_step(old(self)@, final(link).since(*old(link))) == Some(
                Progress { state: final(self)@, result: res, rest: seq![] },
            ),
    {
        let cmd = ScsiCommand::Inquiry { alloc_len: 36 };
        let mut buf: [u8; 36] = [0u8;36];
        assert(buf@ =~= zeros(36));
        let answer = link.issue_in(&cmd, 0, self.lun, &mut buf);
        assert(link.since(*old(link)).drop_first() =~= seq![]);
        match answer {
            Err(e) => {
                return Err(e);
            },
            Ok(_) => {},
        }
        self.inquiry = InquiryData::from_bytes(buf.as_slice());
        Ok(())
    }

    /// Polls TEST UNIT READY until the unit is ready, ten times at most. A failed
    /// attempt is followed by REQUEST SENSE, which clears the condition that the
    /// unit reports, and by a short wait.
    pub fn wait_unit_ready<T: BulkTransport>(&self, link: &mut Link<T>) -> (res: Result<
        (),
        BotError,
    >)
        requires
            old(link).wf(),
        ensures
            final(link).follows(*old(link)),
            ready_step(self@, MAX_TUR_RETRIES as nat, final(link).since(*old(link))) == Some(
                Progress { state: self@, result: res, rest: seq![] },
            ),
    {
        let ghost l0 = *link;
        let mut attempt: usize = 0;
        proof {
            assert(link.since(l0) =~= seq![]);
            lemma_ready_starts(self@);
        }
        while attempt < MAX_TUR_RETRIES
            invariant
                l0 == *old(link),
                link.follows(l0),
                attempt <= MAX_TUR_RETRIES,
                ready_reached(self@, link.since(l0), (MAX_TUR_RETRIES - attempt) as nat),
            decreases MAX_TUR_RETRIES - attempt,
        {
            let ghost left = (MAX_TUR_RETRIES - attempt) as nat;
            let ghost l1 = *link;
            let answer = link.issue(&ScsiCommand::TestUnitReady, 0, self.lun);
            let ghost l2 = *link;
            let ghost end = ExchangeEnd { data: seq![], result: answer };
            proof {
                lemma_since_joins(l0, l1, l2);
            }
            match answer {
                Ok(_) => {
                    proof {
                        lemma_ready_ends(self@, l1.since(l0), left, l2.since(l1), end);
                    }
                    return Ok(());
                },
                Err(BotError::CommandFailed) => {
                    let _ = self.do_request_sense(link);
                    proof {
                        lemma_since_joins(l0, l2, *link);
                        lemma_ready_goes_on(
                            self@,
                            l1.since(l0),
                            left,
                            l2.since(l1),
                            end,
                            link.since(l2),
                        );
                    }
                    spin_wait();
                },
                Err(e) => {
                    proof {
                        lemma_ready_ends(self@, l1.since(l0), left, l2.since(l1), end);
                    }
                    return Err(e);
                },
            }
            attempt = attempt + 1;
        }
        proof {
            lemma_ready_times_out(self@, link.since(l0));
        }
        Err(BotError::Timeout)
    }

    /// Executes REQUEST SENSE.
    pub fn do_request_sense<T: BulkTransport>(&self, link: &mut Link<T>) -> (res: Result<
        SenseData,
        BotError,
    >)
        requires
            old(link).wf(),
        ensures
            final(link).follows(*old(link)),
            final(link).since(*old(link)).len() == 1,
            match issued(
                ScsiCommand::RequestSense { alloc_len: 18 },
                0,
                self@.lun,
                Some(zeros(18)),
                final(link).since(*old(link)),
            ) {
                Some(end) => res == sense_of(end),
                None => false,
            },
    {
        let cmd = ScsiCommand::RequestSense { alloc_len: 18 };
        let mut buf: [u8; 18] = [0u8;18];
        assert(buf@ =~= zeros(18));
        match link.issue_in(&cmd, 0, self.lun, &mut buf) {
            Err(e) => Err(e),
            Ok(_) => match SenseData::from_bytes(buf.as_slice()) {
                Some(sense) => Ok(sense),
                None => Err(BotError::CommandFailed),
            },
        }
    }

    /// Executes READ CAPACITY(10) and keeps the geometry.
    pub fn do_read_capacity<T: BulkTransport>(&mut self, link: &mut Link<T>) -> (res: Result<
        (),
        BotError,
    >)
        requires
            old(link).wf(),
        ensures
            final(link).follows(*old(link)),
            capacity_step(old(self)@, final(link).since(*old(link))) == Some(
                Progress { state: final(self)@, result: res, rest: seq![] },
            ),
    {
        let cmd = ScsiCommand::ReadCapacity10;
        let mut buf: [u8; 8] = [0u8;8];
        assert(buf@ =~= zeros(8));
        let answer = link.issue_in(&cmd, 0, self.lun, &mut buf);
        assert(link.since(*old(link)).drop_first() =~= seq![]);
        match answer {
            Err(e) => {
                return Err(e);
            },
            Ok(_) => {},
        }
        self.capacity = ReadCapacity10Data::from_bytes(buf.as_slice());
        if self.capacity.is_none() {
            Err(BotError::CommandFailed)
        } else {
            Ok(())
        }
    }

    /// Executes MODE SENSE(6) and keeps whether the unit refuses writes.
    pub fn do_mode_sense<T: BulkTransport>(&mut self, link: &mut Link<T>) -> (res: Result<
        (),
        BotError,
    >)
        requires
            old(link).wf(),
        ensures
            final(link).follows(*old(link)),
            mode_step(old(self)@, final(link).since(*old(link))) == Some(
                Progress { state: final(self)@, result: res, rest: seq![] },
            ),
    {
        let cmd = ScsiCommand::ModeSense { page_code: 0x3F, alloc_len: 192 };
        let mut buf: [u8; 192] = [0u8;192];
        assert(buf@ =~= zeros(192));
        let answer = link.issue_in(&cmd, 0, self.lun, &mut buf);
        assert(link.since(*old(link)).drop_first() =~= seq![]);
        match answer {
            Ok(_) => {
                match ModeSenseHeader::from_bytes(buf.as_slice()) {
                    Some(header) => {
                        self.write_protected = header.is_write_protected();
                    },
                    None => {},
                }
                Ok(())
            },
            Err(BotError::CommandFailed) => {
                self.write_protected = false;
                Ok(())
            },
            Err(e) => Err(e),
        }
    }
}

/// `core::hint::spin_loop`: tells the processor that it is in a wait loop.
pub assume_specification[ core::hint::spin_loop ]()
;

/// Waits briefly. There is no timer to wait by.
fn spin_wait() {
    for _i in 0..100_000u32 {
        core::hint::spin_loop();
    }
}

/// Whether the exchanges `xs` are failed attempts that leave `left` more.
#[verifier::opaque]
spec fn ready_reached(s: DeviceState, xs: Seq<Exchange>, left: nat) -> bool {
    forall|tail: Seq<Exchange>|
        #![trigger xs + tail]
        ready_step(s, MAX_TUR_RETRIES as nat, xs + tail) == ready_step(s, left, tail)
}

proof fn lemma_ready_starts(s: DeviceState)
    ensures
        ready_reached(s, seq![], MAX_TUR_RETRIES as nat),
{
    reveal(ready_reached);
    assert forall|tail: Seq<Exchange>| #[trigger] (Seq::<Exchange>::empty() + tail) == tail by {
        assert(Seq::<Exchange>::empty() + tail =~= tail);
    }
}

proof fn lemma_ready_ends(
    s: DeviceState,
    xs: Seq<Exchange>,
    left: nat,
    one: Seq<Exchange>,
    end: ExchangeEnd,
)
    requires
        left > 0,
        one.len() == 1,
        ready_reached(s, xs, left),
        issued(ScsiCommand::TestUnitReady, 0, s.lun, None, one) == Some(end),
        end.result != Err::<u32, BotError>(BotError::CommandFailed),
    ensures
        ready_step(s, MAX_TUR_RETRIES as nat, xs + one) == Some(
            Progress {
                state: s,
                result: match end.result {
                    Ok(_) => Ok(()),
                    Err(e) => Err(e),
                },
                rest: seq![],
            },
        ),
{
    reveal(ready_reached);
    assert(one.drop_first() =~= seq![]);
}

proof fn lemma_ready_goes_on(
    s: DeviceState,
    xs: Seq<Exchange>,
    left: nat,
    one: Seq<Exchange>,
    end: ExchangeEnd,
    sense: Seq<Exchange>,
)
    requires
        left > 0,
        one.len() == 1,
        sense.len() == 1,
        ready_reached(s, xs, left),
        issued(ScsiCommand::TestUnitReady, 0, s.lun, None, one) == Some(end),
        end.result == Err::<u32, BotError>(BotError::CommandFailed),
        issued(
            ScsiCommand::RequestSense { alloc_len: 18 },
            0,
            s.lun,
            Some(zeros(18)),
            sense,
        ) is Some,
    ensures
        ready_reached(s, xs + one + sense, (left - 1) as nat),
{
    reveal(ready_reached);
    let ys = xs + one + sense;
    assert forall|tail: Seq<Exchange>|
        ready_step(s, MAX_TUR_RETRIES as nat, #[trigger] (ys + tail)) == ready_step(
            s,
            (left - 1) as nat,
            tail,
        ) by {
        let rest = one + (sense + tail);
        assert(ys + tail =~= xs + rest);
        lemma_first_decides(ScsiCommand::TestUnitReady, 0, s.lun, None, one, sense + tail);
        assert(rest.drop_first() =~= sense + tail);
        lemma_first_decides(
            ScsiCommand::RequestSense { alloc_len: 18 },
            0,
            s.lun,
            Some(zeros(18)),
            sense,
            tail,
        );
        assert(rest.drop_first().drop_first() =~= tail);
    }
}

proof fn lemma_ready_times_out(s: DeviceState, xs: Seq<Exchange>)
    requires
        ready_reached(s, xs, 0),
    ensures
        ready_step(s, MAX_TUR_RETRIES as nat, xs) == Some(
            Progress { state: s, result: Err(BotError::Timeout), rest: seq![] },
        ),
{
    reveal(ready_reached);
    assert(xs + Seq::<Exchange>::empty() =~= xs);
}

impl StorageUnit {
    /// The block size of the unit; 512 where the capacity is not known.
    pub fn block_size(&self) -> (res: u32)
        ensures
            res == self@.block_size(),
            res == match self@.capacity {
                Some(c) => c.block_size,
                None => 512,
            },
    {
        match &self.capacity {
            Some(c) => c.block_size,
            None => DEFAULT_BLOCK_SIZE,
        }
    }

    /// Reads the next sectors of a transfer that has reached `offset` of `buf`
    /// and has `remaining` sectors to go.
    fn read_chunk<T: BulkTransport>(
        &self,
        link: &mut Link<T>,
        block_size: u32,
        lba: u32,
        remaining: u16,
        buf: &mut [u8],
        offset: usize,
    ) -> (res: Result<(), BotError>)
        requires
            old(link).wf(),
            block_size == self@.block_size(),
            remaining > 0,
            chunk_of(remaining as int) * block_size <= u32::MAX,
            offset + remaining * block_size <= old(buf)@.len(),
        ensures
            final(link).follows(*old(link)),
            final(buf)@.len() == old(buf)@.len(),
            chunk_read(
                self@,
                lba as int,
                remaining as int,
                old(buf)@,
                offset as int,
                final(link).since(*old(link)),
                final(buf)@,
                res,
            ),
    {
        let chunk: u16 = if remaining < MAX_SECTORS_PER_TRANSFER {
            remaining
        } else {
            MAX_SECTORS_PER_TRANSFER
        };
        proof {
            lemma_chunk(remaining as int, remaining as int, chunk as int, block_size as int);
        }
        let chunk_bytes: usize = chunk as usize * block_size as usize;
        let cmd = ScsiCommand::Read10 { lba, block_count: chunk };
        let ghost held = buf@;
        let ghost end = offset + chunk_bytes;
        let (_head, from) = buf.split_at_mut(offset);
        let (part, _tail) = from.split_at_mut(chunk_bytes);
        let ghost wanted = part@;
        let answer = link.issue_in(&cmd, block_size, self.lun, part);
        let res = match answer {
            Err(e) => Err(e),
            Ok(_) => Ok(()),
        };
        proof {
            assert(wanted =~= held.subrange(offset as int, end));
            assert(buf@ =~= held.take(offset as int) + part@ + held.skip(end));
            lemma_chunk_read(
                self@,
                lba as int,
                remaining as int,
                held,
                offset as int,
                link.since(*old(link)),
                ExchangeEnd { data: part@, result: answer },
            );
        }
        res
    }

    /// Reads `count` sectors from `lba` on into `buf`, which must hold at least
    /// that many bytes; what it holds beyond them stays as it is.
    pub fn read_sectors<T: BulkTransport>(
        &self,
        link: &mut Link<T>,
        lba: u32,
        count: u16,
        buf: &mut [u8],
    ) -> (res: Result<(), BotError>)
        requires
            old(link).wf(),
            count * self@.block_size() <= usize::MAX,
            count * self@.block_size() <= old(buf)@.len() ==> self@.can_transfer(
                lba as int,
                count as int,
            ),
        ensures
            final(link).follows(*old(link)),
            final(buf)@.len() == old(buf)@.len(),
            read_sectors_run(
                self@,
                lba as int,
                count as int,
                old(buf)@,
                final(link).since(*old(link)),
            ) == Some(RunEnd { data: final(buf)@, result: res, rest: seq![] }),
    {
        let block_size: u32 = self.block_size();
        let ghost bs = block_size as int;
        let ghost data = buf@;
        let ghost l0 = *link;
        proof {
            lemma_product(count as int, bs);
            assert(link.since(l0) =~= seq![]);
        }
        let expected: usize = count as usize * block_size as usize;
        if buf.len() < expected {
            return Err(BotError::DataTransferFailed);
        }
        let mut remaining: u16 = count;
        let mut current_lba: u32 = lba;
        let mut offset: usize = 0;
        proof {
            lemma_read_starts(self@, lba as int, count as int, data);
        }
        while remaining > 0
            invariant
                l0 == *old(link),
                link.follows(l0),
                bs == block_size,
                bs == self@.block_size(),
                data == old(buf)@,
                buf@.len() == data.len(),
                remaining <= count,
                expected == count * bs,
                expected <= data.len(),
                offset + remaining * bs == count * bs,
                remaining > 0 ==> current_lba + remaining == lba + count,
                self@.can_transfer(lba as int, count as int),
                read_reached(
                    self@,
                    lba as int,
                    count as int,
                    data,
                    link.since(l0),
                    remaining as int,
                    buf@,
                    offset as int,
                ),
            decreases remaining,
        {
            let chunk: u16 = if remaining < MAX_SECTORS_PER_TRANSFER {
                remaining
            } else {
                MAX_SECTORS_PER_TRANSFER
            };
            proof {
                lemma_chunk(count as int, remaining as int, chunk as int, bs);
            }
            let ghost held = buf@;
            let ghost l1 = *link;
            let answer = self.read_chunk(link, block_size, current_lba, remaining, buf, offset);
            proof {
                lemma_since_joins(l0, l1, *link);
                lemma_read_goes_on(
                    self@,
                    lba as int,
                    count as int,
                    data,
                    l1.since(l0),
                    remaining as int,
                    held,
                    offset as int,
                    link.since(l1),
                    buf@,
                    answer,
                );
            }
            match answer {
                Err(e) => {
                    return Err(e);
                },
                Ok(_) => {},
            }
            remaining = remaining - chunk;
            offset = offset + chunk as usize * block_size as usize;
            if remaining > 0 {
                current_lba = current_lba + chunk as u32;
            }
        }
        proof {
            lemma_read_done(
                self@,
                lba as int,
                count as int,
                data,
                link.since(l0),
                buf@,
                offset as int,
            );
        }
        Ok(())
    }

    /// Sends the next sectors of a transfer that has reached `offset` of `data`
    /// and has `remaining` sectors to go.
    fn write_chunk<T: BulkTransport>(
        &self,
        link: &mut Link<T>,
        block_size: u32,
        lba: u32,
        remaining: u16,
        data: &[u8],
        offset: usize,
    ) -> (res: Result<(), BotError>)
        requires
            old(link).wf(),
            block_size == self@.block_size(),
            remaining > 0,
            chunk_of(remaining as int) * block_size <= u32::MAX,
            offset + remaining * block_size <= data@.len(),
        ensures
            final(link).follows(*old(link)),
            chunk_written(
                self@,
                lba as int,
                remaining as int,
                data@,
                offset as int,
                final(link).since(*old(link)),
                res,
            ),
    {
        let chunk: u16 = if remaining < MAX_SECTORS_PER_TRANSFER {
            remaining
        } else {
            MAX_SECTORS_PER_TRANSFER
        };
        proof {
            lemma_chunk(remaining as int, remaining as int, chunk as int, block_size as int);
        }
        let chunk_bytes: usize = chunk as usize * block_size as usize;
        let cmd = ScsiCommand::Write10 { lba, block_count: chunk };
        assert(data@.len() == data.len());
        let part = slice_subrange(data, offset, offset + chunk_bytes);
        let answer = link.issue_out(&cmd, block_size, self.lun, part);
        let res = match answer {
            Err(e) => Err(e),
            Ok(_) => Ok(()),
        };
        proof {
            lemma_chunk_written(
                self@,
                lba as int,
                remaining as int,
                data@,
                offset as int,
                link.since(*old(link)),
                ExchangeEnd { data: part@, result: answer },
            );
        }
        res
    }

    /// Writes `count` sectors from `lba` on with the first bytes of `data`,
    /// which must hold at least that many. A write-protected unit is refused.
    pub fn write_sectors<T: BulkTransport>(
        &self,
        link: &mut Link<T>,
        lba: u32,
        count: u16,
        data: &[u8],
    ) -> (res: Result<(), BotError>)
        requires
            old(link).wf(),
            self@.write_protected || count * self@.block_size() <= usize::MAX,
            !self@.write_protected && count * self@.block_size() <= data@.len()
                ==> self@.can_transfer(lba as int, count as int),
        ensures
            final(link).follows(*old(link)),
            write_sectors_run(
                self@,
                lba as int,
                count as int,
                data@,
                final(link).since(*old(link)),
            ) == Some(RunEnd { data: data@, result: res, rest: seq![] }),
    {
        let ghost l0 = *link;
        assert(link.since(l0) =~= seq![]);
        if self.write_protected {
            return Err(BotError::CommandFailed);
        }
        let block_size: u32 = self.block_size();
        let ghost bs = block_size as int;
        proof {
            lemma_product(count as int, bs);
        }
        let expected: usize = count as usize * block_size as usize;
        if data.len() < expected {
            return Err(BotError::DataTransferFailed);
        }
        let mut remaining: u16 = count;
        let mut current_lba: u32 = lba;
        let mut offset: usize = 0;
        proof {
            lemma_write_starts(self@, lba as int, count as int, data@);
        }
        while remaining > 0
            invariant
                l0 == *old(link),
                link.follows(l0),
                bs == block_size,
                bs == self@.block_size(),
                !self@.write_protected,
                remaining <= count,
                expected == count * bs,
                expected <= data@.len(),
                offset + remaining * bs == count * bs,
                remaining > 0 ==> current_lba + remaining == lba + count,
                self@.can_transfer(lba as int, count as int),
                write_reached(
                    self@,
                    lba as int,
                    count as int,
                    data@,
                    link.since(l0),
                    remaining as int,
                    offset as int,
                ),
            decreases remaining,
        {
            let chunk: u16 = if remaining < MAX_SECTORS_PER_TRANSFER {
                remaining
            } else {
                MAX_SECTORS_PER_TRANSFER
            };
            proof {
                lemma_chunk(count as int, remaining as int, chunk as int, bs);
            }
            let ghost l1 = *link;
            let answer = self.write_chunk(link, block_size, current_lba, remaining, data, offset);
            proof {
                lemma_since_joins(l0, l1, *link);
                lemma_write_goes_on(
                    self@,
                    lba as int,
                    count as int,
                    data@,
                    l1.since(l0),
                    remaining as int,
                    offset as int,
                    link.since(l1),
                    answer,
                );
            }
            match answer {
                Err(e) => {
                    return Err(e);
                },
                Ok(_) => {},
            }
            remaining = remaining - chunk;
            offset = offset + chunk as usize * block_size as usize;
            if remaining > 0 {
                current_lba = current_lba + chunk as u32;
            }
        }
        proof {
            lemma_write_done(
                self@,
                lba as int,
                count as int,
                data@,
                link.since(l0),
                offset as int,
            );
        }
        Ok(())
    }
}

/// Whether the one exchange of `one` takes a transfer of `count` sectors, which has
/// reached position `at` of `buf`, one command further, and leaves `filled`.
#[verifier::opaque]
spec fn chunk_read(
    s: DeviceState,
    lba: int,
    count: int,
    buf: Seq<u8>,
    at: int,
    one: Seq<Exchange>,
    filled: Seq<u8>,
    res: Result<(), BotError>,
) -> bool {
    let chunk = chunk_of(count);
    let bs = s.block_size();
    forall|tail: Seq<Exchange>|
        #![trigger one + tail]
        read_run(lba, count, bs, s.lun, buf, at, one + tail) == match res {
            Err(e) => Some(RunEnd { data: filled, result: Err(e), rest: tail }),
            Ok(_) => read_run(lba + chunk, count - chunk, bs, s.lun, filled, at + chunk * bs, tail),
        }
}

proof fn lemma_chunk_read(
    s: DeviceState,
    lba: int,
    count: int,
    buf: Seq<u8>,
    at: int,
    one: Seq<Exchange>,
    end: ExchangeEnd,
)
    requires
        count > 0,
        one.len() == 1,
        issued(
            ScsiCommand::Read10 { lba: lba as u32, block_count: chunk_of(count) as u16 },
            s.block_size(),
            s.lun,
            Some(buf.subrange(at, at + chunk_of(count) * s.block_size())),
            one,
        ) == Some(end),
    ensures
        chunk_read(
            s,
            lba,
            count,
            buf,
            at,
            one,
            buf.take(at) + end.data + buf.skip(at + chunk_of(count) * s.block_size()),
            match end.result {
                Err(e) => Err(e),
                Ok(_) => Ok(()),
            },
        ),
{
    reveal(chunk_read);
    let chunk = chunk_of(count);
    let bs = s.block_size();
    let cmd = ScsiCommand::Read10 { lba: lba as u32, block_count: chunk as u16 };
    let wanted = Some(buf.subrange(at, at + chunk * bs));
    assert(one.drop_first() =~= seq![]);
    assert forall|tail: Seq<Exchange>|
        issued(cmd, bs, s.lun, wanted, #[trigger] (one + tail)) == Some(end) && (one
            + tail).drop_first() == tail by {
        lemma_first_decides(cmd, bs, s.lun, wanted, one, tail);
        assert(Seq::<Exchange>::empty() + tail =~= tail);
    }
}

/// Whether the exchanges `xs` take a transfer of `count` sectors from `lba` on
/// to the point where `left` sectors are left, `buf` holds what came in, and
/// position `at` is reached.
#[verifier::opaque]
spec fn read_reached(
    s: DeviceState,
    lba: int,
    count: int,
    data: Seq<u8>,
    xs: Seq<Exchange>,
    left: int,
    buf: Seq<u8>,
    at: int,
) -> bool {
    forall|tail: Seq<Exchange>|
        #![trigger xs + tail]
        read_run(lba, count, s.block_size(), s.lun, data, 0, xs + tail) == read_run(
            lba + count - left,
            left,
            s.block_size(),
            s.lun,
            buf,
            at,
            tail,
        )
}

proof fn lemma_read_starts(s: DeviceState, lba: int, count: int, data: Seq<u8>)
    ensures
        read_reached(s, lba, count, data, seq![], count, data, 0),
{
    reveal(read_reached);
    assert forall|tail: Seq<Exchange>| #[trigger] (Seq::<Exchange>::empty() + tail) == tail by {
        assert(Seq::<Exchange>::empty() + tail =~= tail);
    }
}

proof fn lemma_read_goes_on(
    s: DeviceState,
    lba: int,
    count: int,
    data: Seq<u8>,
    xs: Seq<Exchange>,
    left: int,
    buf: Seq<u8>,
    at: int,
    one: Seq<Exchange>,
    filled: Seq<u8>,
    res: Result<(), BotError>,
)
    requires
        count * s.block_size() <= data.len(),
        read_reached(s, lba, count, data, xs, left, buf, at),
        chunk_read(s, lba + count - left, left, buf, at, one, filled, res),
    ensures
        match res {
            Ok(_) => read_reached(
                s,
                lba,
                count,
                data,
                xs + one,
                left - chunk_of(left),
                filled,
                at + chunk_of(left) * s.block_size(),
            ),
            Err(e) => read_sectors_run(s, lba, count, data, xs + one) == Some(
                RunEnd { data: filled, result: Err(e), rest: seq![] },
            ),
        },
{
    reveal(read_reached);
    reveal(chunk_read);
    assert forall|tail: Seq<Exchange>|
        read_run(lba, count, s.block_size(), s.lun, data, 0, #[trigger] ((xs + one) + tail))
            == read_run(lba + count - left, left, s.block_size(), s.lun, buf, at, one
            + tail) by {
        assert((xs + one) + tail =~= xs + (one + tail));
    }
    assert(xs + one + Seq::<Exchange>::empty() =~= xs + one);
}

proof fn lemma_read_done(
    s: DeviceState,
    lba: int,
    count: int,
    data: Seq<u8>,
    xs: Seq<Exchange>,
    buf: Seq<u8>,
    at: int,
)
    requires
        count * s.block_size() <= data.len(),
        read_reached(s, lba, count, data, xs, 0, buf, at),
    ensures
        read_sectors_run(s, lba, count, data, xs) == Some(
            RunEnd { data: buf, result: Ok(()), rest: seq![] },
        ),
{
    reveal(read_reached);
    assert(xs + Seq::<Exchange>::empty() =~= xs);
}

/// Whether the one exchange of `one` takes a transfer of `count` sectors, which has
/// reached position `at` of `data`, one command further.
#[verifier::opaque]
spec fn chunk_written(
    s: DeviceState,
    lba: int,
    count: int,
    data: Seq<u8>,
    at: int,
    one: Seq<Exchange>,
    res: Result<(), BotError>,
) -> bool {
    let chunk = chunk_of(count);
    let bs = s.block_size();
    forall|tail: Seq<Exchange>|
        #![trigger one + tail]
        write_run(lba, count, bs, s.lun, data, at, one + tail) == match res {
            Err(e) => Some(RunEnd { data, result: Err(e), rest: tail }),
            Ok(_) => write_run(lba + chunk, count - chunk, bs, s.lun, data, at + chunk * bs, tail),
        }
}

proof fn lemma_chunk_written(
    s: DeviceState,
    lba: int,
    count: int,
    data: Seq<u8>,
    at: int,
    one: Seq<Exchange>,
    end: ExchangeEnd,
)
    requires
        count > 0,
        one.len() == 1,
        issued_out(
            ScsiCommand::Write10 { lba: lba as u32, block_count: chunk_of(count) as u16 },
            s.block_size(),
            s.lun,
            data.subrange(at, at + chunk_of(count) * s.block_size()),
            one,
        ) == Some(end),
    ensures
        chunk_written(
            s,
            lba,
            count,
            data,
            at,
            one,
            match end.result {
                Err(e) => Err(e),
                Ok(_) => Ok(()),
            },
        ),
{
    reveal(chunk_written);
    let chunk = chunk_of(count);
    let bs = s.block_size();
    let cmd = ScsiCommand::Write10 { lba: lba as u32, block_count: chunk as u16 };
    let sent = data.subrange(at, at + chunk * bs);
    assert(one.drop_first() =~= seq![]);
    assert forall|tail: Seq<Exchange>|
        issued_out(cmd, bs, s.lun, sent, #[trigger] (one + tail)) == Some(end) && (one
            + tail).drop_first() == tail by {
        lemma_first_decides_out(cmd, bs, s.lun, sent, one, tail);
        assert(Seq::<Exchange>::empty() + tail =~= tail);
    }
}

/// Whether the exchanges `xs` take a transfer of `count` sectors from `lba` on
/// to the point where `left` sectors are left and position `at` is reached.
#[verifier::opaque]
spec fn write_reached(
    s: DeviceState,
    lba: int,
    count: int,
    data: Seq<u8>,
    xs: Seq<Exchange>,
    left: int,
    at: int,
) -> bool {
    forall|tail: Seq<Exchange>|
        #![trigger xs + tail]
        write_run(lba, count, s.block_size(), s.lun, data, 0, xs + tail) == write_run(
            lba + count - left,
            left,
            s.block_size(),
            s.lun,
            data,
            at,
            tail,
        )
}

proof fn lemma_write_starts(s: DeviceState, lba: int, count: int, data: Seq<u8>)
    ensures
        write_reached(s, lba, count, data, seq![], count, 0),
{
    reveal(write_reached);
    assert forall|tail: Seq<Exchange>| #[trigger] (Seq::<Exchange>::empty() + tail) == tail by {
        assert(Seq::<Exchange>::empty() + tail =~= tail);
    }
}

proof fn lemma_write_goes_on(
    s: DeviceState,
    lba: int,
    count: int,
    data: Seq<u8>,
    xs: Seq<Exchange>,
    left: int,
    at: int,
    one: Seq<Exchange>,
    res: Result<(), BotError>,
)
    requires
        !s.write_protected,
        count * s.block_size() <= data.len(),
        write_reached(s, lba, count, data, xs, left, at),
        chunk_written(s, lba + count - left, left, data, at, one, res),
    ensures
        match res {
            Ok(_) => write_reached(
                s,
                lba,
                count,
                data,
                xs + one,
                left - chunk_of(left),
                at + chunk_of(left) * s.block_size(),
            ),
            Err(e) => write_sectors_run(s, lba, count, data, xs + one) == Some(
                RunEnd { data, result: Err(e), rest: seq![] },
            ),
        },
{
    reveal(write_reached);
    reveal(chunk_written);
    assert forall|tail: Seq<Exchange>|
        write_run(lba, count, s.block_size(), s.lun, data, 0, #[trigger] ((xs + one) + tail))
            == write_run(lba + count - left, left, s.block_size(), s.lun, data, at, one
            + tail) by {
        assert((xs + one) + tail =~= xs + (one + tail));
    }
    assert(xs + one + Seq::<Exchange>::empty() =~= xs + one);
}

proof fn lemma_write_done(
    s: DeviceState,
    lba: int,
    count: int,
    data: Seq<u8>,
    xs: Seq<Exchange>,
    at: int,
)
    requires
        !s.write_protected,
        count * s.block_size() <= data.len(),
        write_reached(s, lba, count, data, xs, 0, at),
    ensures
        write_sectors_run(s, lba, count, data, xs) == Some(
            RunEnd { data, result: Ok(()), rest: seq![] },
        ),
{
    reveal(write_reached);
    assert(xs + Seq::<Exchange>::empty() =~= xs);
}

/// A product of a sector count and a block size fits 64 bits.
proof fn lemma_product(count: int, bs: int)
    by (nonlinear_arith)
    requires
        0 <= count <= 0xffff,
        0 <= bs <= 0xffff_ffff,
    ensures
        0 <= count * bs,
        count * bs <= 0xffff_ffff_ffff_ffff,
{
}

/// A chunk of a transfer stays within the transfer.
proof fn lemma_chunk(count: int, remaining: int, chunk: int, bs: int)
    by (nonlinear_arith)
    requires
        0 <= chunk <= remaining <= count,
        0 <= bs,
        chunk == chunk_of(remaining),
    ensures
        0 <= chunk * bs <= remaining * bs <= count * bs,
        chunk * bs <= chunk_of(count) * bs,
        (remaining - chunk) * bs == remaining * bs - chunk * bs,
{
}

/// The first sector of a byte range, the position of its first byte there, and
/// the number of sectors that it touches.
fn locate(block_size: u32, offset: u64, len: usize) -> (res: (u64, usize, u64))
    requires
        block_size > 0,
        offset + len <= u64::MAX,
    ensures
        res.0 == first_sector(offset as int, block_size as int),
        res.1 == offset as int % block_size as int,
        res.2 == sectors_touched(offset as int, len as int, block_size as int),
        res.0 + res.2 <= u64::MAX,
{
    let bs: u64 = block_size as u64;
    let end: u64 = offset + len as u64;
    let first: u64 = offset / bs;
    let whole: u64 = end / bs;
    proof {
        lemma_round_up(end as int, bs as int);
        lemma_sectors_cover(offset as int, len as int, bs as int);
        lemma_fundamental_div_mod(end as int, bs as int);
        lemma_mod_bound(end as int, bs as int);
        assert(whole <= bs * whole) by (nonlinear_arith)
            requires
                1 <= bs,
                0 <= whole,
        ;
        if end % bs > 0 {
            assert(whole < u64::MAX);
        }
    }
    let last: u64 = if end % bs > 0 {
        whole + 1
    } else {
        whole
    };
    (first, (offset % bs) as usize, last - first)
}

/// The number of sectors of a request for a range that touches `touched`
/// sectors.
fn first_count(touched: u64) -> (res: u16)
    ensures
        res == if touched < MAX_SECTORS_PER_REQUEST {
            touched as int
        } else {
            MAX_SECTORS_PER_REQUEST as int
        },
{
    if touched < MAX_SECTORS_PER_REQUEST as u64 {
        touched as u16
    } else {
        MAX_SECTORS_PER_REQUEST
    }
}

/// Division that rounds up.
proof fn lemma_round_up(x: int, d: int)
    requires
        0 <= x,
        0 < d,
    ensures
        (x + d - 1) / d == if x % d > 0 {
            x / d + 1
        } else {
            x / d
        },
{
    lemma_fundamental_div_mod(x, d);
    lemma_mod_bound(x, d);
    let q = x / d;
    let r = x % d;
    if r > 0 {
        assert(d * q + d == (q + 1) * d) by (nonlinear_arith);
        lemma_fundamental_div_mod_converse(x + d - 1, d, q + 1, r - 1);
    } else {
        assert(d * q == q * d) by (nonlinear_arith);
        lemma_fundamental_div_mod_converse(x + d - 1, d, q, d - 1);
    }
}

impl StorageUnit {
    /// The size of the unit in bytes; 0 where it is not known.
    pub fn total_size(&self) -> (res: u64)
        ensures
            res == self@.total_size(),
            res == match self@.capacity {
                Some(c) => (c.last_lba + 1) * c.block_size,
                None => 0,
            },
    {
        match &self.capacity {
            Some(c) => c.total_bytes(),
            None => 0,
        }
    }

    /// Whether `len` bytes at byte offset `offset` are out of bounds.
    fn is_out_of_bounds(&self, offset: u64, len: usize) -> (res: bool)
        ensures
            res == self@.out_of_bounds(offset as int, len as int),
    {
        let block_size: u32 = self.block_size();
        let total: u64 = self.total_size();
        if len as u64 > u64::MAX - offset {
            proof {
                if self@.capacity is None {
                    lemma_sectors_cover(offset as int, len as int, 512);
                }
            }
            return true;
        }
        if self.capacity.is_some() && offset + len as u64 > total {
            return true;
        }
        if block_size == 0 {
            return false;
        }
        let (first, _skip, touched) = locate(block_size, offset, len);
        if first > u32::MAX as u64 || first + touched > 0x1_0000_0000 {
            return true;
        }
        let chunk: u64 = if touched < MAX_SECTORS_PER_TRANSFER as u64 {
            touched
        } else {
            MAX_SECTORS_PER_TRANSFER as u64
        };
        let asked: u64 = first_count(touched) as u64;
        proof {
            lemma_product(chunk as int, block_size as int);
            lemma_product(asked as int, block_size as int);
        }
        chunk * block_size as u64 > u32::MAX as u64 || asked * block_size as u64 > usize::MAX as u64
    }

    /// Reads the bytes that the first request for `buf` covers into the front of
    /// `buf`; the result is their number.
    fn read_request<T: BulkTransport>(
        &self,
        link: &mut Link<T>,
        offset: u64,
        buf: &mut [u8],
    ) -> (res: Result<usize, DeviceError>)
        requires
            old(link).wf(),
            self@.can_serve(offset as int, old(buf)@.len() as int),
            offset + old(buf)@.len() <= u64::MAX,
        ensures
            final(link).follows(*old(link)),
            final(buf)@.len() == old(buf)@.len(),
            read_request_run(
                self@,
                offset as int,
                old(buf)@,
                final(link).since(*old(link)),
            ) == Some(BytesEnd { data: final(buf)@, result: res, rest: seq![] }),
    {
        let ghost s = self@;
        let ghost data = buf@;
        let len: usize = buf.len();
        let block_size: u32 = self.block_size();
        let (first, skip, touched) = locate(block_size, offset, len);
        let count: u16 = first_count(touched);
        proof {
            lemma_request(offset as int, len as int, block_size as int);
            lemma_chunk_of_part(touched as int, count as int, block_size as int);
        }
        let lba: u32 = first as u32;
        let size: usize = count as usize * block_size as usize;
        let n: usize = if len < size - skip {
            len
        } else {
            size - skip
        };
        if skip == 0 && size <= len {
            return match self.read_sectors(link, lba, count, buf) {
                Err(_) => Err(DeviceError::IoError),
                Ok(_) => Ok(n),
            };
        }
        let mut tmp: Vec<u8> = vec![0u8;size];
        assert(tmp@ =~= zeros(size as nat));
        match self.read_sectors(link, lba, count, tmp.as_mut_slice()) {
            Err(_) => {
                return Err(DeviceError::IoError);
            },
            Ok(_) => {},
        }
        for i in 0..n
            invariant
                n <= len,
                buf@.len() == len,
                data.len() == len,
                tmp@.len() == size,
                skip + n <= size,
                forall|j: int| 0 <= j < i ==> buf@[j] == tmp@[skip + j],
                forall|j: int| i <= j < len ==> buf@[j] == data[j],
        {
            buf[i] = tmp[skip + i];
        }
        assert(buf@ =~= tmp@.subrange(skip as int, skip + n) + data.skip(n as int));
        Ok(n)
    }

    /// Reads `buf.len()` bytes starting at byte offset `offset`.
    pub fn read_bytes<T: BulkTransport>(
        &self,
        link: &mut Link<T>,
        offset: u64,
        buf: &mut [u8],
    ) -> (res: Result<usize, DeviceError>)
        requires
            old(link).wf(),
        ensures
            final(link).follows(*old(link)),
            final(buf)@.len() == old(buf)@.len(),
            read_bytes_run(
                self@,
                offset as int,
                old(buf)@,
                final(link).since(*old(link)),
            ) == Some(BytesEnd { data: final(buf)@, result: res, rest: seq![] }),
            res matches Ok(n) ==> n == old(buf)@.len(),
    {
        let ghost l0 = *link;
        let ghost data = buf@;
        let len: usize = buf.len();
        assert(link.since(l0) =~= seq![]);
        if self.is_out_of_bounds(offset, len) {
            return Err(DeviceError::OutOfBounds);
        }
        if self.block_size() == 0 {
            return Ok(0);
        }
        let ghost bs = self@.block_size();
        let mut at: usize = 0;
        proof {
            lemma_serve_is_addressed(self@, offset as int, len as int);
            lemma_bytes_read_start(self@, offset as int, data);
        }
        loop
            invariant
                l0 == *old(link),
                link.follows(l0),
                data == old(buf)@,
                len == data.len(),
                buf@.len() == len,
                at <= len,
                at < len || at == 0,
                offset + len <= u64::MAX,
                bs == self@.block_size(),
                bs > 0,
                !self@.out_of_bounds(offset as int, len as int),
                self@.can_serve(offset + at, len - at),
                bytes_read(self@, offset as int, data, link.since(l0), buf@, at as int),
            decreases len - at,
        {
            let ghost l1 = *link;
            let ghost held = buf@;
            let (_head, tail) = buf.split_at_mut(at);
            let ghost wanted = tail@;
            let answer = self.read_request(link, offset + at as u64, tail);
            proof {
                lemma_since_joins(l0, l1, *link);
                lemma_request(offset + at, len - at, bs);
                assert(wanted =~= held.skip(at as int));
                assert(buf@ =~= held.take(at as int) + tail@);
                lemma_bytes_read_go_on(
                    self@,
                    offset as int,
                    data,
                    l1.since(l0),
                    held,
                    at as int,
                    link.since(l1),
                    tail@,
                    answer,
                );
            }
            match answer {
                Err(e) => {
                    return Err(e);
                },
                Ok(n) => {
                    if at + n == len {
                        return Ok(len);
                    }
                    proof {
                        lemma_can_serve_next(self@, offset + at, len - at);
                    }
                    at = at + n;
                },
            }
        }
    }

    /// Writes the bytes that the first request for `data` covers; the result is
    /// their number.
    fn write_request<T: BulkTransport>(
        &self,
        link: &mut Link<T>,
        offset: u64,
        data: &[u8],
    ) -> (res: Result<usize, DeviceError>)
        requires
            old(link).wf(),
            !self@.write_protected,
            self@.can_serve(offset as int, data@.len() as int),
            offset + data@.len() <= u64::MAX,
        ensures
            final(link).follows(*old(link)),
            write_request_run(
                self@,
                offset as int,
                data@,
                final(link).since(*old(link)),
            ) == Some(BytesEnd { data: data@, result: res, rest: seq![] }),
    {
        let ghost s = self@;
        let ghost l0 = *link;
        let len: usize = data.len();
        let block_size: u32 = self.block_size();
        let ghost bs = block_size as int;
        let (first, skip, touched) = locate(block_size, offset, len);
        let count: u16 = first_count(touched);
        proof {
            lemma_request(offset as int, len as int, bs);
            lemma_chunk_of_part(touched as int, count as int, bs);
        }
        let lba: u32 = first as u32;
        let size: usize = count as usize * block_size as usize;
        let n: usize = if len < size - skip {
            len
        } else {
            size - skip
        };
        if skip == 0 && size <= len {
            return match self.write_sectors(link, lba, count, data) {
                Err(_) => Err(DeviceError::IoError),
                Ok(_) => Ok(n),
            };
        }
        let mut tmp: Vec<u8> = vec![0u8;size];
        assert(tmp@ =~= zeros(size as nat));
        match self.read_sectors(link, lba, count, tmp.as_mut_slice()) {
            Err(_) => {
                return Err(DeviceError::IoError);
            },
            Ok(_) => {},
        }
        let ghost l1 = *link;
        let ghost sectors = tmp@;
        for i in 0..n
            invariant
                n <= len,
                data@.len() == len,
                tmp@.len() == size,
                sectors.len() == size,
                skip + n <= size,
                forall|j: int|
                    0 <= j < size ==> tmp@[j] == if skip <= j < skip + i {
                        data@[j - skip]
                    } else {
                        sectors[j]
                    },
        {
            tmp[skip + i] = data[i];
        }
        assert(tmp@ =~= patched(sectors, skip as int, data@.take(n as int)));
        let written = self.write_sectors(link, lba, count, tmp.as_slice());
        proof {
            lemma_since_joins(l0, l1, *link);
            lemma_read_extends(
                lba as int,
                count as int,
                bs,
                s.lun,
                zeros(size as nat),
                0,
                l1.since(l0),
                link.since(l1),
            );
            assert(Seq::<Exchange>::empty() + link.since(l1) =~= link.since(l1));
        }
        match written {
            Err(_) => Err(DeviceError::IoError),
            Ok(_) => Ok(n),
        }
    }

    /// Writes `data` starting at byte offset `offset`. A write-protected unit is
    /// refused.
    pub fn write_bytes<T: BulkTransport>(
        &self,
        link: &mut Link<T>,
        offset: u64,
        data: &[u8],
    ) -> (res: Result<usize, DeviceError>)
        requires
            old(link).wf(),
        ensures
            final(link).follows(*old(link)),
            write_bytes_run(
                self@,
                offset as int,
                data@,
                final(link).since(*old(link)),
            ) == Some(BytesEnd { data: data@, result: res, rest: seq![] }),
            res matches Ok(n) ==> n == data@.len(),
    {
        let ghost l0 = *link;
        let len: usize = data.len();
        assert(link.since(l0) =~= seq![]);
        if self.write_protected {
            return Err(DeviceError::IoError);
        }
        if self.is_out_of_bounds(offset, len) {
            return Err(DeviceError::OutOfBounds);
        }
        if self.block_size() == 0 {
            return Ok(0);
        }
        let ghost bs = self@.block_size();
        let mut at: usize = 0;
        proof {
            lemma_serve_is_addressed(self@, offset as int, len as int);
            lemma_bytes_written_start(self@, offset as int, data@);
        }
        loop
            invariant
                l0 == *old(link),
                link.follows(l0),
                len == data@.len(),
                at <= len,
                at < len || at == 0,
                offset + len <= u64::MAX,
                bs == self@.block_size(),
                bs > 0,
                !self@.write_protected,
                !self@.out_of_bounds(offset as int, len as int),
                self@.can_serve(offset + at, len - at),
                bytes_written(self@, offset as int, data@, link.since(l0), at as int),
            decreases len - at,
        {
            let ghost l1 = *link;
            let tail = slice_subrange(data, at, len);
            assert(tail@ =~= data@.skip(at as int));
            let answer = self.write_request(link, offset + at as u64, tail);
            proof {
                lemma_since_joins(l0, l1, *link);
                lemma_request(offset + at, len - at, bs);
                lemma_bytes_written_go_on(
                    self@,
                    offset as int,
                    data@,
                    l1.since(l0),
                    at as int,
                    link.since(l1),
                    answer,
                );
            }
            match answer {
                Err(e) => {
                    return Err(e);
                },
                Ok(n) => {
                    if at + n == len {
                        return Ok(len);
                    }
                    proof {
                        lemma_can_serve_next(self@, offset + at, len - at);
                    }
                    at = at + n;
                },
            }
        }
    }
}

/// What can be served lies within 64 bits.
proof fn lemma_serve_is_addressed(s: DeviceState, offset: int, len: int)
    requires
        0 <= offset,
        0 <= len,
        s.can_serve(offset, len),
    ensures
        offset + len <= u64::MAX,
{
    let bs = s.block_size();
    let lba = first_sector(offset, bs);
    let touched = sectors_touched(offset, len, bs);
    lemma_sectors_cover(offset, len, bs);
    assert(offset + len <= (lba + touched) * bs) by {
        assert((lba + touched) * bs == lba * bs + touched * bs) by (nonlinear_arith);
    }
    assert((lba + touched) * bs <= 0x1_0000_0000 * 0xffff_ffff) by (nonlinear_arith)
        requires
            0 <= lba + touched <= 0x1_0000_0000,
            0 < bs <= 0xffff_ffff,
    ;
}

/// The chunks of a part of a transfer are no larger than those of the whole.
proof fn lemma_chunk_of_part(count: int, part: int, bs: int)
    by (nonlinear_arith)
    requires
        0 <= part <= count,
        0 < bs,
    ensures
        chunk_of(part) * bs <= chunk_of(count) * bs,
{
}

/// Whether the exchanges `xs` take a read of bytes to the point where position
/// `at` is reached and `buf` holds what came in.
#[verifier::opaque]
spec fn bytes_read(
    s: DeviceState,
    offset: int,
    data: Seq<u8>,
    xs: Seq<Exchange>,
    buf: Seq<u8>,
    at: int,
) -> bool {
    forall|tail: Seq<Exchange>|
        #![trigger xs + tail]
        read_from(s, offset, data, 0, data.len() as int, xs + tail) == read_from(
            s,
            offset,
            buf,
            at,
            data.len() as int,
            tail,
        )
}

proof fn lemma_bytes_read_start(s: DeviceState, offset: int, data: Seq<u8>)
    ensures
        bytes_read(s, offset, data, seq![], data, 0),
{
    reveal(bytes_read);
    assert forall|tail: Seq<Exchange>| #[trigger] (Seq::<Exchange>::empty() + tail) == tail by {
        assert(Seq::<Exchange>::empty() + tail =~= tail);
    }
}

proof fn lemma_bytes_read_go_on(
    s: DeviceState,
    offset: int,
    data: Seq<u8>,
    xs: Seq<Exchange>,
    buf: Seq<u8>,
    at: int,
    ys: Seq<Exchange>,
    part: Seq<u8>,
    res: Result<usize, DeviceError>,
)
    requires
        bytes_read(s, offset, data, xs, buf, at),
        read_request_run(s, offset + at, buf.skip(at), ys) == Some(
            BytesEnd { data: part, result: res, rest: seq![] },
        ),
    ensures
        match res {
            Err(e) => read_from(s, offset, data, 0, data.len() as int, xs + ys) == Some(
                BytesEnd { data: buf.take(at) + part, result: Err(e), rest: seq![] },
            ),
            Ok(n) => if 0 < n && at + n < data.len() {
                bytes_read(s, offset, data, xs + ys, buf.take(at) + part, at + n)
            } else {
                read_from(s, offset, data, 0, data.len() as int, xs + ys) == Some(
                    BytesEnd {
                        data: buf.take(at) + part,
                        result: Ok((at + n) as usize),
                        rest: seq![],
                    },
                )
            },
        },
{
    reveal(bytes_read);
    let len = data.len() as int;
    match res {
        Ok(n) if 0 < n && at + n < len => {
            assert forall|tail: Seq<Exchange>|
                read_from(s, offset, data, 0, len, #[trigger] ((xs + ys) + tail)) == read_from(
                    s,
                    offset,
                    buf.take(at) + part,
                    at + n,
                    len,
                    tail,
                ) by {
                assert((xs + ys) + tail =~= xs + (ys + tail));
                lemma_read_request_extends(s, offset + at, buf.skip(at), ys, tail);
                assert(Seq::<Exchange>::empty() + tail =~= tail);
            }
        },
        _ => {},
    }
}

/// Whether the exchanges `xs` take a write of bytes to the point where position
/// `at` is reached.
#[verifier::opaque]
spec fn bytes_written(
    s: DeviceState,
    offset: int,
    data: Seq<u8>,
    xs: Seq<Exchange>,
    at: int,
) -> bool {
    forall|tail: Seq<Exchange>|
        #![trigger xs + tail]
        write_from(s, offset, data, 0, xs + tail) == write_from(s, offset, data, at, tail)
}

proof fn lemma_bytes_written_start(s: DeviceState, offset: int, data: Seq<u8>)
    ensures
        bytes_written(s, offset, data, seq![], 0),
{
    reveal(bytes_written);
    assert forall|tail: Seq<Exchange>| #[trigger] (Seq::<Exchange>::empty() + tail) == tail by {
        assert(Seq::<Exchange>::empty() + tail =~= tail);
    }
}

proof fn lemma_bytes_written_go_on(
    s: DeviceState,
    offset: int,
    data: Seq<u8>,
    xs: Seq<Exchange>,
    at: int,
    ys: Seq<Exchange>,
    res: Result<usize, DeviceError>,
)
    requires
        bytes_written(s, offset, data, xs, at),
        write_request_run(s, offset + at, data.skip(at), ys) == Some(
            BytesEnd { data: data.skip(at), result: res, rest: seq![] },
        ),
    ensures
        match res {
            Err(e) => write_from(s, offset, data, 0, xs + ys) == Some(
                BytesEnd { data, result: Err(e), rest: seq![] },
            ),
            Ok(n) => if 0 < n && at + n < data.len() {
                bytes_written(s, offset, data, xs + ys, at + n)
            } else {
                write_from(s, offset, data, 0, xs + ys) == Some(
                    BytesEnd { data, result: Ok((at + n) as usize), rest: seq![] },
                )
            },
        },
{
    reveal(bytes_written);
    match res {
        Ok(n) if 0 < n && at + n < data.len() => {
            assert forall|tail: Seq<Exchange>|
                write_from(s, offset, data, 0, #[trigger] ((xs + ys) + tail)) == write_from(
                    s,
                    offset,
                    data,
                    at + n,
                    tail,
                ) by {
                assert((xs + ys) + tail =~= xs + (ys + tail));
                lemma_write_request_extends(s, offset + at, data.skip(at), ys, tail);
                assert(Seq::<Exchange>::empty() + tail =~= tail);
            }
        },
        _ => {},
    }
}

} // verus!
