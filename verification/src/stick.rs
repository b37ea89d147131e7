//! A memory stick at the far end of the transport.
//!
//! The stick is described from its own side: which bytes it reads as a command,
//! what it sends and takes, and which status it reports. It answers what the
//! protocol does not allow at its point with an error. The laws here say what the
//! driver's operations come to on such a stick, in terms of the bytes it holds.
use crate::block::DeviceError;
use crate::bot::{lemma_cbw_fields, BotError, CommandStatusWrapper, CBW_SIGNATURE};
use crate::bytes::{
    be16, be32, law_le32_round_trip, law_values, law_weights_16, law_weights_32, le32, zeros,
};
use crate::exchange::{
    answered_error, csw_says, data_in, data_out, status_phase, ExchangeEnd, TransferEvent,
};
use crate::scsi::{InquiryView, ScsiCommand, SenseData};
use crate::session::{
    bytes_asked, capacity_step, chunk_of, command, first_sector, init_run, inquiry_step, is_whole,
    issued, issued_out, lemma_next_request, lemma_request, lemma_sectors_cover, patched,
    read_bytes_run, read_from, read_request_run, read_run, read_sectors_run, ready_step,
    sectors_asked, sectors_touched, sense_of, write_bytes_run, write_from, write_request_run,
    write_run, write_sectors_run, BytesEnd, DeviceState, Exchange, RunEnd, MAX_TUR_RETRIES,
};
use vstd::arithmetic::div_mod::lemma_mod_bound;
use vstd::prelude::*;

verus! {

/// What a stick is at.
pub enum Phase {
    /// It waits for a command.
    Idle,
    /// It has `reply` to send, where `left` bytes were announced.
    Sending { reply: Seq<u8>, left: int, tag: Seq<u8> },
    /// It takes `left` more bytes, for position `at` of the disk on.
    Taking { at: int, left: int, tag: Seq<u8> },
    /// It will not transfer data for this command.
    Balking { tag: Seq<u8> },
    /// It has a status to report.
    Reporting { tag: Seq<u8>, status: u8 },
    /// It was asked for something out of turn.
    Confused,
}

/// A memory stick.
pub struct Stick {
    /// Its logical unit number.
    pub lun: u8,
    /// The bytes that it holds.
    pub disk: Seq<u8>,
    /// The bytes that make up a block.
    pub block_size: int,
    /// What it answers to INQUIRY.
    pub inquiry: Seq<u8>,
    /// What it answers to READ CAPACITY(10).
    pub capacity: Seq<u8>,
    /// What it answers to MODE SENSE(6).
    pub mode: Seq<u8>,
    /// What it answers to REQUEST SENSE.
    pub sense: Seq<u8>,
    /// The number of times that it is not ready yet.
    pub busy: nat,
    /// The operation codes of the commands that it fails.
    pub refused: Set<u8>,
    /// What it is at.
    pub phase: Phase,
}

impl Stick {
    /// This stick in another phase.
    pub open spec fn at(self, phase: Phase) -> Stick {
        Stick { phase, ..self }
    }

    /// The stick with a reply to the command `b`, whose transfer length must be
    /// `length`.
    pub open spec fn replies(self, b: Seq<u8>, length: int, reply: Seq<u8>) -> Stick {
        let announced = b[8] + 0x100 * b[9] + 0x1_0000 * b[10] + 0x100_0000 * b[11];
        let tag = b.subrange(4, 8);
        if b[12] != 0x80 || announced != length {
            self.at(Phase::Confused)
        } else if self.refused.contains(b[15]) {
            self.at(Phase::Balking { tag })
        } else {
            self.at(Phase::Sending { reply, left: length, tag })
        }
    }

    /// The stick after it was sent `b` where it waits for a command.
    pub open spec fn told(self, b: Seq<u8>) -> Stick {
        let announced = b[8] + 0x100 * b[9] + 0x1_0000 * b[10] + 0x100_0000 * b[11];
        let tag = b.subrange(4, 8);
        let lba = 0x100_0000 * b[17] + 0x1_0000 * b[18] + 0x100 * b[19] + b[20];
        let count = 0x100 * b[22] + b[23];
        let from = lba * self.block_size;
        let to = (lba + count) * self.block_size;
        if !(b[0] == 0x55 && b[1] == 0x53 && b[2] == 0x42 && b[3] == 0x43 && b[13] == self.lun % 16
            && b[16] == 0) {
            self.at(Phase::Confused)
        } else if b[14] == 6 && b[18] == 0 && b[20] == 0 {
            if b[15] == 0x00 && announced == 0 {
                if self.busy > 0 {
                    Stick {
                        busy: (self.busy - 1) as nat,
                        ..self.at(Phase::Reporting { tag, status: 1 })
                    }
                } else {
                    self.at(Phase::Reporting { tag, status: 0 })
                }
            } else if b[15] == 0x03 && b[17] == 0 && b[19] == 18 {
                self.replies(b, 18, self.sense)
            } else if b[15] == 0x12 && b[17] == 0 && b[19] == 36 {
                self.replies(b, 36, self.inquiry)
            } else if b[15] == 0x1A && b[17] == 0x3F && b[19] == 192 {
                self.replies(b, 192, self.mode)
            } else {
                self.at(Phase::Confused)
            }
        } else if b[14] == 10 && b[21] == 0 && b[24] == 0 {
            if b[15] == 0x25 && lba == 0 && count == 0 {
                self.replies(b, 8, self.capacity)
            } else if b[15] == 0x28 && to <= self.disk.len() {
                self.replies(b, count * self.block_size, self.disk.subrange(from, to))
            } else if b[15] == 0x2A && to <= self.disk.len() && b[12] == 0 && announced == count
                * self.block_size {
                if self.refused.contains(0x2A) {
                    self.at(Phase::Balking { tag })
                } else {
                    self.at(Phase::Taking { at: from, left: announced, tag })
                }
            } else {
                self.at(Phase::Confused)
            }
        } else {
            self.at(Phase::Confused)
        }
    }

    /// The stick after the request `e`, where it answers as `e` says; `None` where
    /// it does not.
    pub open spec fn answers(self, e: TransferEvent) -> Option<Stick> {
        let confused = if answered_error(e) is Some {
            Some(self.at(Phase::Confused))
        } else {
            None
        };
        match (self.phase, e) {
            (_, TransferEvent::InEndpoint { .. }) => Some(self),
            (_, TransferEvent::OutEndpoint { .. }) => Some(self),
            (Phase::Idle, TransferEvent::BulkOut { data, answer }) => if data.len() != 31 {
                confused
            } else if answer == Ok::<usize, BotError>(31) {
                Some(self.told(data))
            } else {
                None
            },
            (
                Phase::Sending { reply, left, tag },
                TransferEvent::BulkIn { before, after, answer },
            ) => match answer {
                Err(_) => None,
                Ok(n) => if n <= before.len() && n <= reply.len() && (n > 0 || before.len() == 0
                    || reply.len() == 0) && after == reply.take(n as int) + before.skip(n as int) {
                    Some(
                        if n == 0 || n >= left {
                            self.at(Phase::Reporting { tag, status: 0 })
                        } else {
                            self.at(
                                Phase::Sending { reply: reply.skip(n as int), left: left - n, tag },
                            )
                        },
                    )
                } else {
                    None
                },
            },
            (Phase::Taking { at, left, tag }, TransferEvent::BulkOut { data, answer }) => match
            answer {
                Err(_) => if data.len() == 0 {
                    confused
                } else {
                    None
                },
                Ok(n) => if 0 < n <= data.len() && n <= left {
                    let disk = self.disk.take(at) + data.take(n as int) + self.disk.skip(at + n);
                    Some(
                        if n == left {
                            Stick { disk, ..self.at(Phase::Reporting { tag, status: 0 }) }
                        } else {
                            Stick {
                                disk,
                                ..self.at(Phase::Taking { at: at + n, left: left - n, tag })
                            }
                        },
                    )
                } else {
                    None
                },
            },
            (Phase::Balking { tag }, TransferEvent::BulkIn { before, after, answer }) => if answer
                == Ok::<usize, BotError>(0) && after == before {
                Some(self.at(Phase::Reporting { tag, status: 1 }))
            } else {
                None
            },
            (Phase::Balking { tag }, TransferEvent::BulkOut { data, answer }) => if answer == Ok::<
                usize,
                BotError,
            >(0) {
                Some(self.at(Phase::Reporting { tag, status: 1 }))
            } else {
                None
            },
            (
                Phase::Reporting { tag, status },
                TransferEvent::BulkIn { before, after, answer },
            ) => if before.len() != 13 {
                confused
            } else if answer == Ok::<usize, BotError>(13) && after.len() == 13 && after[0] == 0x55
                && after[1] == 0x53 && after[2] == 0x42 && after[3] == 0x53 && after.subrange(4, 8)
                == tag && after[12] == status {
                Some(self.at(Phase::Idle))
            } else {
                None
            },
            _ => confused,
        }
    }

    /// The stick after the requests `events`.
    pub open spec fn after(self, events: Seq<TransferEvent>) -> Option<Stick>
        decreases events.len(),
    {
        if events.len() == 0 {
            Some(self)
        } else {
            match self.answers(events[0]) {
                None => None,
                Some(next) => next.after(events.drop_first()),
            }
        }
    }

    /// The stick after the exchanges `xs`.
    pub open spec fn after_all(self, xs: Seq<Exchange>) -> Option<Stick>
        decreases xs.len(),
    {
        if xs.len() == 0 {
            Some(self)
        } else {
            match self.after(xs[0].events) {
                None => None,
                Some(next) => next.after_all(xs.drop_first()),
            }
        }
    }
}

/// The status block of a stick that reports: what comes of the command.
proof fn lemma_reported(
    stick: Stick,
    tag: u32,
    bytes: Seq<u8>,
    status: u8,
    events: Seq<TransferEvent>,
)
    requires
        stick.phase == (Phase::Reporting { tag: bytes, status }),
        bytes == le32(tag),
        status <= 1,
        stick.after(events) is Some,
        status_phase(tag, events) is Some,
    ensures
        stick.after(events) == Some(stick.at(Phase::Idle)),
        match status_phase(tag, events)->0 {
            Ok(_) => status == 0,
            Err(e) => status == 1 && e == BotError::CommandFailed,
        },
{
    match events[0] {
        TransferEvent::BulkIn { before, after, answer } => {
            assert(before.len() == 13);
            law_values(after.subrange(0, 4));
            law_le32_round_trip(tag, le32(tag));
            let said = csw_says(after, tag);
            assert(CommandStatusWrapper::decoded(after) is Ok);
            assert(events.len() == 1);
            assert(stick.at(Phase::Idle).after(events.drop_first()) == Some(
                stick.at(Phase::Idle),
            ));
        },
        _ => {},
    }
}

/// A data-in phase with a stick that sends.
proof fn lemma_sent(
    stick: Stick,
    reply: Seq<u8>,
    tag: Seq<u8>,
    buf: Seq<u8>,
    at: int,
    events: Seq<TransferEvent>,
)
    requires
        0 <= at < buf.len(),
        stick.phase == (Phase::Sending { reply, left: buf.len() - at, tag }),
        reply.len() <= buf.len() - at,
        stick.after(events) is Some,
        data_in(buf, at, buf.len() as int, events) is Some,
    ensures
        ({
            let p = data_in(buf, at, buf.len() as int, events)->0;
            &&& p.result is Ok
            &&& p.data == buf.take(at) + reply + buf.skip(at + reply.len())
            &&& stick.at(Phase::Reporting { tag, status: 0 }).after(p.rest) == stick.after(events)
        }),
    decreases events.len(),
{
    match events[0] {
        TransferEvent::BulkIn { before, after, answer } => match answer {
            Ok(n) => {
                let filled = buf.take(at) + after;
                let rest = events.drop_first();
                if n == 0 {
                    assert(reply.len() == 0);
                    assert(filled =~= buf.take(at) + reply + buf.skip(at + reply.len()));
                } else {
                    let next = at + n;
                    assert(filled =~= buf.take(at) + reply.take(n as int) + buf.skip(next));
                    let want = buf.take(at) + reply + buf.skip(at + reply.len());
                    if next < buf.len() {
                        let left = reply.skip(n as int);
                        let later = stick.at(
                            Phase::Sending { reply: left, left: buf.len() - next, tag },
                        );
                        lemma_sent(later, left, tag, filled, next, rest);
                        assert(filled.take(next) + left + filled.skip(next + left.len()) =~= want);
                        assert(later.at(Phase::Reporting { tag, status: 0 }) == stick.at(
                            Phase::Reporting { tag, status: 0 },
                        ));
                    } else {
                        assert(filled =~= want);
                    }
                }
            },
            Err(_) => {},
        },
        _ => {},
    }
}

/// A data-out phase with a stick that takes.
proof fn lemma_took(
    stick: Stick,
    from: int,
    tag: Seq<u8>,
    data: Seq<u8>,
    at: int,
    events: Seq<TransferEvent>,
)
    requires
        0 <= at < data.len(),
        0 <= from,
        from + data.len() - at <= stick.disk.len(),
        stick.phase == (Phase::Taking { at: from, left: data.len() - at, tag }),
        stick.after(events) is Some,
        data_out(data, at, events) is Some,
    ensures
        ({
            let p = data_out(data, at, events)->0;
            let disk = stick.disk.take(from) + data.skip(at) + stick.disk.skip(
                from + data.len() - at,
            );
            &&& p.result is Ok
            &&& p.data == data
            &&& Stick { disk, ..stick.at(Phase::Reporting { tag, status: 0 }) }.after(p.rest)
                == stick.after(events)
        }),
    decreases events.len(),
{
    let want = stick.disk.take(from) + data.skip(at) + stick.disk.skip(from + data.len() - at);
    match events[0] {
        TransferEvent::BulkOut { data: offered, answer } => match answer {
            Ok(n) => {
                let rest = events.drop_first();
                let disk = stick.disk.take(from) + offered.take(n as int) + stick.disk.skip(
                    from + n,
                );
                if at + n < data.len() {
                    let later = Stick {
                        disk,
                        ..stick.at(
                            Phase::Taking { at: from + n, left: data.len() - (at + n), tag },
                        )
                    };
                    lemma_took(later, from + n, tag, data, at + n, rest);
                    assert(disk.take(from + n) + data.skip(at + n) + disk.skip(
                        from + n + data.len() - (at + n),
                    ) =~= want);
                } else {
                    assert(disk =~= want);
                }
            },
            Err(_) => {},
        },
        _ => {},
    }
}

/// The bytes of the CBW for a command, one by one.
pub proof fn law_command_on_the_wire(cmd: ScsiCommand, block_size: int, lun: u8, tag: u32)
    requires
        0 <= block_size,
        cmd.transfer_length(block_size) <= u32::MAX,
    ensures
        ({
            let x = command(cmd, block_size, lun, tag).encoded();
            let announced = x[8] + 0x100 * x[9] + 0x1_0000 * x[10] + 0x100_0000 * x[11];
            let lba = 0x100_0000 * x[17] + 0x1_0000 * x[18] + 0x100 * x[19] + x[20];
            let count = 0x100 * x[22] + x[23];
            &&& x.len() == 31
            &&& x[0] == 0x55 && x[1] == 0x53 && x[2] == 0x42 && x[3] == 0x43
            &&& tag == x[4] + 0x100 * x[5] + 0x1_0000 * x[6] + 0x100_0000 * x[7]
            &&& x[12] == if cmd is TestUnitReady || cmd is Write10 {
                0u8
            } else {
                0x80u8
            }
            &&& x[13] == lun % 16
            &&& x[14] == if cmd is ReadCapacity10 || cmd is Read10 || cmd is Write10 {
                10u8
            } else {
                6u8
            }
            &&& forall|i: int| 15 + x[14] <= i < 31 ==> #[trigger] x[i] == 0
            &&& x[16] == 0
            &&& x[14] == 6 ==> x[18] == 0 && x[20] == 0
            &&& x[14] == 10 ==> x[21] == 0 && x[24] == 0
            &&& match cmd {
                ScsiCommand::TestUnitReady => x[15] == 0x00 && x[17] == 0 && x[19] == 0 && announced
                    == 0,
                ScsiCommand::RequestSense { alloc_len } => x[15] == 0x03 && x[17] == 0 && x[19]
                    == alloc_len && announced == alloc_len,
                ScsiCommand::Inquiry { alloc_len } => x[15] == 0x12 && x[17] == 0 && x[19]
                    == alloc_len && announced == alloc_len,
                ScsiCommand::ModeSense { page_code, alloc_len } => x[15] == 0x1A && x[17]
                    == page_code % 64 && x[19] == alloc_len && announced == alloc_len,
                ScsiCommand::ReadCapacity10 => x[15] == 0x25 && lba == 0 && count == 0 && announced
                    == 8,
                ScsiCommand::Read10 { lba: l, block_count } => x[15] == 0x28 && lba == l && count
                    == block_count && announced == block_count * block_size,
                ScsiCommand::Write10 { lba: l, block_count } => x[15] == 0x2A && lba == l && count
                    == block_count && announced == block_count * block_size,
            }
        }),
{
    let cbw = command(cmd, block_size, lun, tag);
    let x = cbw.encoded();
    let c = cmd.cdb();
    lemma_cbw_fields(cbw);
    law_weights_32(tag);
    law_weights_32(cbw.data_transfer_length);
    assert(le32(CBW_SIGNATURE) =~= seq![0x55u8, 0x53u8, 0x42u8, 0x43u8]);
    assert(x[0] == x.take(4)[0] && x[1] == x.take(4)[1] && x[2] == x.take(4)[2] && x[3] == x.take(
        4,
    )[3]);
    assert(x[4] == x.subrange(4, 8)[0] && x[5] == x.subrange(4, 8)[1] && x[6] == x.subrange(4, 8)[2]
        && x[7] == x.subrange(4, 8)[3]);
    assert(x[8] == x.subrange(8, 12)[0] && x[9] == x.subrange(8, 12)[1] && x[10] == x.subrange(
        8,
        12,
    )[2] && x[11] == x.subrange(8, 12)[3]);
    assert forall|i: int| 15 <= i < 31 implies #[trigger] x[i] == if i - 15 < c.len() {
        c[i - 15]
    } else {
        0u8
    } by {
        assert(x[i] == x.skip(15)[i - 15]);
    }
    match cmd {
        ScsiCommand::Read10 { lba, block_count } => {
            lemma_cdb10(c, lba, block_count, x);
            lemma_not_negative(block_count as int, block_size);
        },
        ScsiCommand::Write10 { lba, block_count } => {
            lemma_cdb10(c, lba, block_count, x);
            lemma_not_negative(block_count as int, block_size);
        },
        ScsiCommand::ReadCapacity10 => {
            lemma_cdb10(c, 0, 0, x);
        },
        _ => {},
    }
}

proof fn lemma_not_negative(a: int, b: int)
    by (nonlinear_arith)
    requires
        0 <= a,
        0 <= b,
    ensures
        0 <= a * b,
{
}

/// The tail of a 10-byte command block.
proof fn lemma_cdb10(c: Seq<u8>, lba: u32, count: u16, x: Seq<u8>)
    requires
        c == seq![c[0], 0u8] + be32(lba) + seq![0u8] + be16(count)
            + seq![0u8],
        forall|i: int|
            15 <= i < 31 ==> #[trigger] x[i] == if i - 15 < c.len() {
                c[i - 15]
            } else {
                0u8
            },
    ensures
        lba == 0x100_0000 * x[17] + 0x1_0000 * x[18] + 0x100 * x[19] + x[20],
        count == 0x100 * x[22] + x[23],
        x[21] == 0,
        x[24] == 0,
{
    law_weights_32(lba);
    law_weights_16(count);
}

/// The tag of a CBW as the stick keeps it.
proof fn lemma_tag(cmd: ScsiCommand, bs: int, lun: u8, tag: u32)
    ensures
        command(cmd, bs, lun, tag).encoded().subrange(4, 8) == le32(tag),
        command(cmd, bs, lun, tag).tag == tag,
        command(cmd, bs, lun, tag).direction_in == cmd.reads(),
        command(cmd, bs, lun, tag).data_transfer_length == cmd.transfer_length(bs) as u32,
{
    lemma_cbw_fields(command(cmd, bs, lun, tag));
}

/// A command that the stick replies to.
proof fn lemma_replied(
    stick: Stick,
    cmd: ScsiCommand,
    bs: int,
    buf: Seq<u8>,
    reply: Seq<u8>,
    xs: Seq<Exchange>,
)
    requires
        stick.phase is Idle,
        0 <= bs,
        cmd.reads(),
        0 < buf.len() == cmd.transfer_length(bs) <= u32::MAX,
        reply.len() <= buf.len(),
        issued(cmd, bs, stick.lun, Some(buf), xs) is Some,
        stick.after_all(xs) is Some,
        stick.told(command(cmd, bs, stick.lun, xs[0].tag).encoded()) == stick.at(
            Phase::Sending { reply, left: buf.len() as int, tag: le32(xs[0].tag) },
        ),
    ensures
        xs.len() > 0,
        issued(cmd, bs, stick.lun, Some(buf), xs)->0.result is Ok,
        issued(cmd, bs, stick.lun, Some(buf), xs)->0.data == reply + buf.skip(reply.len() as int),
        stick.after_all(xs.drop_first()) == stick.after_all(xs),
{
    reveal(issued);
    let tag = xs[0].tag;
    let cbw = command(cmd, bs, stick.lun, tag);
    let events = xs[0].events;
    let rest = events.drop_first();
    lemma_tag(cmd, bs, stick.lun, tag);
    law_command_on_the_wire(cmd, bs, stick.lun, tag);
    let sending = stick.at(Phase::Sending { reply, left: buf.len() as int, tag: le32(tag) });
    assert(sending.after(rest) == stick.after(events));
    lemma_sent(sending, reply, le32(tag), buf, 0, rest);
    let p = data_in(buf, 0, buf.len() as int, rest)->0;
    assert(buf.take(0) + reply =~= reply);
    let reporting = sending.at(Phase::Reporting { tag: le32(tag), status: 0 });
    lemma_reported(reporting, tag, le32(tag), 0, p.rest);
    assert(reporting.at(Phase::Idle) == stick);
}

/// A command that the stick fails without data.
proof fn lemma_balked(
    stick: Stick,
    cmd: ScsiCommand,
    bs: int,
    buf: Seq<u8>,
    xs: Seq<Exchange>,
)
    requires
        stick.phase is Idle,
        0 <= bs,
        cmd.reads(),
        0 < buf.len() == cmd.transfer_length(bs) <= u32::MAX,
        issued(cmd, bs, stick.lun, Some(buf), xs) is Some,
        stick.after_all(xs) is Some,
        stick.told(command(cmd, bs, stick.lun, xs[0].tag).encoded()) == stick.at(
            Phase::Balking { tag: le32(xs[0].tag) },
        ),
    ensures
        xs.len() > 0,
        issued(cmd, bs, stick.lun, Some(buf), xs) == Some(
            ExchangeEnd { data: buf, result: Err(BotError::CommandFailed) },
        ),
        stick.after_all(xs.drop_first()) == stick.after_all(xs),
{
    reveal(issued);
    let tag = xs[0].tag;
    let cbw = command(cmd, bs, stick.lun, tag);
    let events = xs[0].events;
    let rest = events.drop_first();
    lemma_tag(cmd, bs, stick.lun, tag);
    law_command_on_the_wire(cmd, bs, stick.lun, tag);
    let balking = stick.at(Phase::Balking { tag: le32(tag) });
    assert(balking.after(rest) == stick.after(events));
    let p = data_in(buf, 0, buf.len() as int, rest)->0;
    assert(buf.take(0) + buf.skip(0) =~= buf);
    assert(p.rest == rest.drop_first());
    let reporting = balking.at(Phase::Reporting { tag: le32(tag), status: 1 });
    lemma_reported(reporting, tag, le32(tag), 1, p.rest);
    assert(reporting.at(Phase::Idle) == stick);
}

/// TEST UNIT READY: it fails while the stick is busy.
proof fn lemma_polled(stick: Stick, xs: Seq<Exchange>)
    requires
        stick.phase is Idle,
        issued(ScsiCommand::TestUnitReady, 0, stick.lun, None, xs) is Some,
        stick.after_all(xs) is Some,
    ensures
        xs.len() > 0,
        ({
            let end = issued(ScsiCommand::TestUnitReady, 0, stick.lun, None, xs)->0;
            if stick.busy > 0 {
                &&& end.result == Err::<u32, BotError>(BotError::CommandFailed)
                &&& Stick { busy: (stick.busy - 1) as nat, ..stick }.after_all(xs.drop_first())
                    == stick.after_all(xs)
            } else {
                &&& end.result is Ok
                &&& stick.after_all(xs.drop_first()) == stick.after_all(xs)
            }
        }),
{
    reveal(issued);
    let cmd = ScsiCommand::TestUnitReady;
    let tag = xs[0].tag;
    let cbw = command(cmd, 0, stick.lun, tag);
    let events = xs[0].events;
    let rest = events.drop_first();
    lemma_tag(cmd, 0, stick.lun, tag);
    law_command_on_the_wire(cmd, 0, stick.lun, tag);
    let told = stick.told(cbw.encoded());
    assert(told.after(rest) == stick.after(events));
    let status: u8 = if stick.busy > 0 {
        1
    } else {
        0
    };
    lemma_reported(told, tag, le32(tag), status, rest);
    if stick.busy > 0 {
        assert(told.at(Phase::Idle) == (Stick { busy: (stick.busy - 1) as nat, ..stick }));
    } else {
        assert(told.at(Phase::Idle) == stick);
    }
}

/// Whether the stick can be read from and written to: it waits for a command, has
/// whole blocks of at least one byte, and no more than can be addressed.
pub open spec fn is_sound(stick: Stick, blocks: int) -> bool {
    &&& stick.phase is Idle
    &&& 0 < stick.block_size
    &&& 0 <= blocks <= 0x1_0000_0000
    &&& stick.disk.len() == blocks * stick.block_size
}

proof fn lemma_within(a: int, b: int, bs: int)
    by (nonlinear_arith)
    requires
        0 <= a <= b,
        0 <= bs,
    ensures
        0 <= a * bs <= b * bs,
{
}

proof fn lemma_sum(a: int, b: int, bs: int)
    by (nonlinear_arith)
    ensures
        (a + b) * bs == a * bs + b * bs,
{
}

/// One READ(10).
proof fn lemma_read_one(
    stick: Stick,
    blocks: int,
    lba: u32,
    count: u16,
    buf: Seq<u8>,
    xs: Seq<Exchange>,
)
    requires
        is_sound(stick, blocks),
        0 < count,
        lba + count <= blocks,
        buf.len() == count * stick.block_size <= u32::MAX,
        issued(
            ScsiCommand::Read10 { lba, block_count: count },
            stick.block_size,
            stick.lun,
            Some(buf),
            xs,
        ) is Some,
        stick.after_all(xs) is Some,
    ensures
        xs.len() > 0,
        stick.after_all(xs.drop_first()) == stick.after_all(xs),
        ({
            let end = issued(
                ScsiCommand::Read10 { lba, block_count: count },
                stick.block_size,
                stick.lun,
                Some(buf),
                xs,
            )->0;
            if stick.refused.contains(0x28) {
                end.result == Err::<u32, BotError>(BotError::CommandFailed) && end.data == buf
            } else {
                end.result is Ok && end.data == stick.disk.subrange(
                    lba * stick.block_size,
                    (lba + count) * stick.block_size,
                )
            }
        }),
{
    let bs = stick.block_size;
    let cmd = ScsiCommand::Read10 { lba, block_count: count };
    lemma_tag(cmd, bs, stick.lun, xs[0].tag);
    law_command_on_the_wire(cmd, bs, stick.lun, xs[0].tag);
    lemma_within(lba + count, blocks, bs);
    lemma_within(lba as int, lba + count, bs);
    lemma_sum(lba as int, count as int, bs);
    lemma_within(1, count as int, bs);
    if stick.refused.contains(0x28) {
        lemma_balked(stick, cmd, bs, buf, xs);
    } else {
        let reply = stick.disk.subrange(lba * bs, (lba + count) * bs);
        lemma_replied(stick, cmd, bs, buf, reply, xs);
        assert(reply + buf.skip(reply.len() as int) =~= reply);
    }
}

/// The stick with `data` in place of what it holds from position `at` on.
pub open spec fn with_bytes(stick: Stick, at: int, data: Seq<u8>) -> Stick {
    Stick { disk: stick.disk.take(at) + data + stick.disk.skip(at + data.len()), ..stick }
}

/// One WRITE(10).
proof fn lemma_write_one(
    stick: Stick,
    blocks: int,
    lba: u32,
    count: u16,
    data: Seq<u8>,
    xs: Seq<Exchange>,
)
    requires
        is_sound(stick, blocks),
        0 < count,
        lba + count <= blocks,
        data.len() == count * stick.block_size <= u32::MAX,
        issued_out(
            ScsiCommand::Write10 { lba, block_count: count },
            stick.block_size,
            stick.lun,
            data,
            xs,
        ) is Some,
        stick.after_all(xs) is Some,
    ensures
        xs.len() > 0,
        ({
            let end = issued_out(
                ScsiCommand::Write10 { lba, block_count: count },
                stick.block_size,
                stick.lun,
                data,
                xs,
            )->0;
            if stick.refused.contains(0x2A) {
                &&& end.result == Err::<u32, BotError>(BotError::CommandFailed)
                &&& stick.after_all(xs.drop_first()) == stick.after_all(xs)
            } else {
                &&& end.result is Ok
                &&& with_bytes(stick, lba * stick.block_size, data).after_all(xs.drop_first())
                    == stick.after_all(xs)
            }
        }),
{
    reveal(issued_out);
    let bs = stick.block_size;
    let cmd = ScsiCommand::Write10 { lba, block_count: count };
    let tag = xs[0].tag;
    let cbw = command(cmd, bs, stick.lun, tag);
    let events = xs[0].events;
    let rest = events.drop_first();
    lemma_tag(cmd, bs, stick.lun, tag);
    law_command_on_the_wire(cmd, bs, stick.lun, tag);
    lemma_within(lba + count, blocks, bs);
    lemma_within(lba as int, lba + count, bs);
    lemma_sum(lba as int, count as int, bs);
    lemma_within(1, count as int, bs);
    let told = stick.told(cbw.encoded());
    assert(told.after(rest) == stick.after(events));
    let p = data_out(data, 0, rest)->0;
    if stick.refused.contains(0x2A) {
        assert(told.phase == (Phase::Balking { tag: le32(tag) }));
        let reporting = told.at(Phase::Reporting { tag: le32(tag), status: 1 });
        assert(p.rest == rest.drop_first());
        lemma_reported(reporting, tag, le32(tag), 1, p.rest);
        assert(reporting.at(Phase::Idle) == stick);
    } else {
        let from = lba * bs;
        assert(told.phase == (Phase::Taking { at: from, left: data.len() as int, tag: le32(tag) }));
        lemma_took(told, from, le32(tag), data, 0, rest);
        assert(data.skip(0) =~= data);
        let done = with_bytes(stick, from, data);
        let reporting = done.at(Phase::Reporting { tag: le32(tag), status: 0 });
        lemma_reported(reporting, tag, le32(tag), 0, p.rest);
        assert(reporting.at(Phase::Idle) == done);
    }
}

/// Whether the driver knows the stick: its LUN, and its geometry where it knows
/// one. A driver that knows none goes by blocks of 512 bytes.
pub open spec fn is_known(s: DeviceState, stick: Stick, blocks: int) -> bool {
    &&& s.lun == stick.lun
    &&& match s.capacity {
        Some(c) => c.block_size == stick.block_size && c.last_lba + 1 == blocks,
        None => stick.block_size == 512,
    }
}

/// Whether `count` blocks can be announced: all of them, or 128 of them, have a
/// length of 32 bits.
pub open spec fn can_announce(count: int, block_size: int) -> bool {
    128 * block_size <= 0xffff_ffff || count * block_size <= 0xffff_ffff
}

proof fn lemma_announced(count: int, part: int, bs: int)
    requires
        0 <= part <= count,
        0 < bs,
        can_announce(count, bs),
    ensures
        chunk_of(part) * bs <= u32::MAX,
{
    let chunk = chunk_of(part);
    lemma_within(chunk, count, bs);
    lemma_within(chunk, 128, bs);
}

/// READ(10) commands to the stick.
proof fn lemma_read(
    stick: Stick,
    blocks: int,
    lba: int,
    count: int,
    buf: Seq<u8>,
    at: int,
    xs: Seq<Exchange>,
)
    requires
        is_sound(stick, blocks),
        0 <= lba,
        0 <= count <= 0xffff,
        lba + count <= blocks,
        can_announce(count, stick.block_size),
        0 <= at,
        at + count * stick.block_size <= buf.len(),
        read_run(lba, count, stick.block_size, stick.lun, buf, at, xs) is Some,
        stick.after_all(xs) is Some,
    ensures
        ({
            let bs = stick.block_size;
            let end = read_run(lba, count, bs, stick.lun, buf, at, xs)->0;
            &&& stick.after_all(end.rest) == stick.after_all(xs)
            &&& if stick.refused.contains(0x28) && count > 0 {
                end.result == Err::<(), BotError>(BotError::CommandFailed) && end.data == buf
            } else {
                end.result is Ok && end.data == buf.take(at) + stick.disk.subrange(
                    lba * bs,
                    (lba + count) * bs,
                ) + buf.skip(at + count * bs)
            }
        }),
    decreases count,
{
    let bs = stick.block_size;
    lemma_sum(lba, count, bs);
    lemma_within(lba, lba + count, bs);
    lemma_within(lba + count, blocks, bs);
    lemma_within(0, count, bs);
    if count > 0 {
        let chunk = chunk_of(count);
        let end = at + chunk * bs;
        lemma_sum(chunk, count - chunk, bs);
        lemma_sum(lba, chunk, bs);
        lemma_within(0, chunk, bs);
        lemma_within(0, count - chunk, bs);
        lemma_within(count - chunk, count, bs);
        lemma_announced(count, count, bs);
        let wanted = buf.subrange(at, end);
        lemma_read_one(stick, blocks, lba as u32, chunk as u16, wanted, xs);
        if stick.refused.contains(0x28) {
            assert(buf.take(at) + wanted + buf.skip(end) =~= buf);
        } else {
            let part = stick.disk.subrange(lba * bs, (lba + chunk) * bs);
            let filled = buf.take(at) + part + buf.skip(end);
            lemma_read(stick, blocks, lba + chunk, count - chunk, filled, end, xs.drop_first());
            assert(lba + chunk + (count - chunk) == lba + count);
            assert(filled.take(end) + stick.disk.subrange((lba + chunk) * bs, (lba + count) * bs)
                + filled.skip(end + (count - chunk) * bs) =~= buf.take(at) + stick.disk.subrange(
                lba * bs,
                (lba + count) * bs,
            ) + buf.skip(at + count * bs));
        }
    } else {
        assert(buf =~= buf.take(at) + stick.disk.subrange(lba * bs, (lba + count) * bs) + buf.skip(
            at + count * bs,
        ));
    }
}

proof fn lemma_join(stick: Stick, at: int, a: Seq<u8>, b: Seq<u8>)
    requires
        0 <= at,
        at + a.len() + b.len() <= stick.disk.len(),
    ensures
        with_bytes(with_bytes(stick, at, a), at + a.len(), b) == with_bytes(stick, at, a + b),
        with_bytes(stick, at, a).disk.len() == stick.disk.len(),
{
    assert(with_bytes(with_bytes(stick, at, a), at + a.len(), b).disk =~= with_bytes(
        stick,
        at,
        a + b,
    ).disk);
}

/// WRITE(10) commands to the stick.
proof fn lemma_write(
    stick: Stick,
    blocks: int,
    lba: int,
    count: int,
    data: Seq<u8>,
    at: int,
    xs: Seq<Exchange>,
)
    requires
        is_sound(stick, blocks),
        0 <= lba,
        0 <= count <= 0xffff,
        lba + count <= blocks,
        can_announce(count, stick.block_size),
        0 <= at,
        at + count * stick.block_size <= data.len(),
        write_run(lba, count, stick.block_size, stick.lun, data, at, xs) is Some,
        stick.after_all(xs) is Some,
    ensures
        ({
            let bs = stick.block_size;
            let end = write_run(lba, count, bs, stick.lun, data, at, xs)->0;
            if stick.refused.contains(0x2A) && count > 0 {
                &&& end.result == Err::<(), BotError>(BotError::CommandFailed)
                &&& stick.after_all(end.rest) == stick.after_all(xs)
            } else {
                &&& end.result is Ok
                &&& with_bytes(
                    stick,
                    lba * bs,
                    data.subrange(at, at + count * bs),
                ).after_all(end.rest) == stick.after_all(xs)
            }
        }),
    decreases count,
{
    let bs = stick.block_size;
    lemma_sum(lba, count, bs);
    lemma_within(lba, lba + count, bs);
    lemma_within(lba + count, blocks, bs);
    lemma_within(0, count, bs);
    if count > 0 {
        let chunk = chunk_of(count);
        let end = at + chunk * bs;
        lemma_sum(chunk, count - chunk, bs);
        lemma_sum(lba, chunk, bs);
        lemma_within(0, chunk, bs);
        lemma_within(0, count - chunk, bs);
        lemma_within(count - chunk, count, bs);
        lemma_announced(count, count, bs);
        let part = data.subrange(at, end);
        lemma_write_one(stick, blocks, lba as u32, chunk as u16, part, xs);
        if !stick.refused.contains(0x2A) {
            let next = with_bytes(stick, lba * bs, part);
            let tail = data.subrange(end, end + (count - chunk) * bs);
            lemma_join(stick, lba * bs, part, tail);
            lemma_write(next, blocks, lba + chunk, count - chunk, data, end, xs.drop_first());
            assert(part + tail =~= data.subrange(at, at + count * bs));
        }
    } else {
        assert(with_bytes(stick, lba * bs, data.subrange(at, at + count * bs)).disk =~= stick.disk);
    }
}

/// Reading sectors from the stick brings the bytes that it holds there, all of
/// them and in order, and leaves the rest of the buffer and the stick as they are.
/// Where the stick fails READ(10), so does the read, and the buffer stays as it is.
pub proof fn law_sectors_are_read(
    s: DeviceState,
    stick: Stick,
    blocks: int,
    lba: int,
    count: int,
    buf: Seq<u8>,
    xs: Seq<Exchange>,
)
    requires
        is_sound(stick, blocks),
        is_known(s, stick, blocks),
        0 <= lba,
        0 <= count <= 0xffff,
        lba + count <= blocks,
        can_announce(count, stick.block_size),
        count * stick.block_size <= buf.len(),
        read_sectors_run(s, lba, count, buf, xs) is Some,
        stick.after_all(xs) is Some,
    ensures
        ({
            let bs = stick.block_size;
            let end = read_sectors_run(s, lba, count, buf, xs)->0;
            &&& stick.after_all(end.rest) == stick.after_all(xs)
            &&& if stick.refused.contains(0x28) && count > 0 {
                end.result == Err::<(), BotError>(BotError::CommandFailed) && end.data == buf
            } else {
                end.result is Ok && end.data == stick.disk.subrange(lba * bs, (lba + count) * bs)
                    + buf.skip(count * bs)
            }
        }),
{
    let bs = stick.block_size;
    lemma_read(stick, blocks, lba, count, buf, 0, xs);
    assert(buf.take(0) + stick.disk.subrange(lba * bs, (lba + count) * bs) =~= stick.disk.subrange(
        lba * bs,
        (lba + count) * bs,
    ));
}

/// Writing sectors to the stick puts the data in their place, and leaves every
/// other byte as it is. Where the stick fails WRITE(10), so does the write, and the
/// stick stays as it is.
pub proof fn law_sectors_are_written(
    s: DeviceState,
    stick: Stick,
    blocks: int,
    lba: int,
    count: int,
    data: Seq<u8>,
    xs: Seq<Exchange>,
)
    requires
        is_sound(stick, blocks),
        is_known(s, stick, blocks),
        !s.write_protected,
        0 <= lba,
        0 <= count <= 0xffff,
        lba + count <= blocks,
        can_announce(count, stick.block_size),
        count * stick.block_size <= data.len(),
        write_sectors_run(s, lba, count, data, xs) is Some,
        stick.after_all(xs) is Some,
    ensures
        ({
            let bs = stick.block_size;
            let end = write_sectors_run(s, lba, count, data, xs)->0;
            if stick.refused.contains(0x2A) && count > 0 {
                &&& end.result == Err::<(), BotError>(BotError::CommandFailed)
                &&& stick.after_all(end.rest) == stick.after_all(xs)
            } else {
                &&& end.result is Ok
                &&& with_bytes(stick, lba * bs, data.take(count * bs)).after_all(end.rest)
                    == stick.after_all(xs)
            }
        }),
{
    let bs = stick.block_size;
    lemma_write(stick, blocks, lba, count, data, 0, xs);
    assert(data.subrange(0, 0 + count * bs) =~= data.take(count * bs));
}

/// A buffer that is too small for the sectors is refused, and nothing is sent.
pub proof fn law_small_buffers_are_refused(
    s: DeviceState,
    lba: int,
    count: int,
    buf: Seq<u8>,
    xs: Seq<Exchange>,
)
    requires
        buf.len() < count * match s.capacity {
            Some(c) => c.block_size as int,
            None => 512,
        },
    ensures
        read_sectors_run(s, lba, count, buf, xs) == Some(
            RunEnd { data: buf, result: Err(BotError::DataTransferFailed), rest: xs },
        ),
        !s.write_protected ==> write_sectors_run(s, lba, count, buf, xs) == Some(
            RunEnd { data: buf, result: Err(BotError::DataTransferFailed), rest: xs },
        ),
{
}

/// Sectors that can be addressed and announced can be transferred.
pub proof fn law_can_transfer(s: DeviceState, lba: int, count: int)
    requires
        0 <= count,
        lba + count <= 0x1_0000_0000,
        can_announce(
            count,
            match s.capacity {
                Some(c) => c.block_size as int,
                None => 512,
            },
        ),
    ensures
        s.can_transfer(lba, count),
{
    let bs = s.block_size();
    let chunk = chunk_of(count);
    lemma_within(chunk, count, bs);
    lemma_within(chunk, 128, bs);
}

/// Whether the sectors of `len` bytes at `offset` can be announced, and the first
/// 65535 of them held in memory.
pub open spec fn is_manageable(offset: int, len: int, block_size: int) -> bool {
    let count = (offset + len + block_size - 1) / block_size - offset / block_size;
    let most = if count < 65535 {
        count
    } else {
        65535
    };
    can_announce(count, block_size) && most * block_size <= usize::MAX
}

/// Bytes that the stick has are not out of bounds.
pub proof fn law_what_is_there_is_in_bounds(
    s: DeviceState,
    stick: Stick,
    blocks: int,
    offset: int,
    len: int,
)
    requires
        is_sound(stick, blocks),
        is_known(s, stick, blocks),
        0 <= offset < 0x1_0000_0000 * stick.block_size,
        0 <= len,
        offset + len <= stick.disk.len(),
        is_manageable(offset, len, stick.block_size),
    ensures
        !s.out_of_bounds(offset, len),
{
    lemma_servable(s, stick, blocks, offset, len);
}

proof fn lemma_servable(s: DeviceState, stick: Stick, blocks: int, offset: int, len: int)
    requires
        is_sound(stick, blocks),
        is_known(s, stick, blocks),
        0 <= offset < 0x1_0000_0000 * stick.block_size,
        0 <= len,
        offset + len <= stick.disk.len(),
        is_manageable(offset, len, stick.block_size),
    ensures
        !s.out_of_bounds(offset, len),
        s.can_serve(offset, len),
        s.block_size() == stick.block_size,
        reaches(stick, blocks, offset, len),
{
    let bs = stick.block_size;
    let lba = first_sector(offset, bs);
    let touched = sectors_touched(offset, len, bs);
    let asked = sectors_asked(offset, len, bs);
    lemma_sectors_cover(offset, len, bs);
    lemma_mod_bound(offset, bs);
    lemma_sum(lba, touched, bs);
    assert(lba + touched <= blocks) by (nonlinear_arith)
        requires
            (lba + touched) * bs < blocks * bs + bs,
            0 < bs,
    ;
    assert(lba < 0x1_0000_0000) by (nonlinear_arith)
        requires
            lba * bs < 0x1_0000_0000 * bs,
            0 < bs,
    ;
    lemma_within(chunk_of(touched), touched, bs);
    lemma_within(chunk_of(touched), 128, bs);
}

/// Whether the stick has the sectors of `len` bytes at `offset`, and they can be
/// announced.
spec fn reaches(stick: Stick, blocks: int, offset: int, len: int) -> bool {
    let bs = stick.block_size;
    &&& first_sector(offset, bs) + sectors_touched(offset, len, bs) <= blocks
    &&& can_announce(sectors_touched(offset, len, bs), bs)
}

/// What the first request leaves is within reach as well.
proof fn lemma_reaches(stick: Stick, blocks: int, offset: int, len: int)
    requires
        is_sound(stick, blocks),
        0 <= offset,
        0 <= len,
        reaches(stick, blocks, offset, len),
    ensures
        ({
            let bs = stick.block_size;
            let n = bytes_asked(offset, len, bs);
            let count = sectors_asked(offset, len, bs);
            &&& first_sector(offset, bs) + count <= blocks
            &&& can_announce(count, bs)
            &&& offset + len <= stick.disk.len()
            &&& n < len ==> reaches(stick, blocks, offset + n, len - n)
        }),
{
    let bs = stick.block_size;
    let n = bytes_asked(offset, len, bs);
    let lba = first_sector(offset, bs);
    let touched = sectors_touched(offset, len, bs);
    lemma_request(offset, len, bs);
    lemma_sectors_cover(offset, len, bs);
    lemma_sum(lba, touched, bs);
    lemma_within(lba + touched, blocks, bs);
    if n < len {
        lemma_next_request(offset, len, bs);
        lemma_within(touched - sectors_asked(offset, len, bs), touched, bs);
    }
}

/// One request for reading.
proof fn lemma_read_request(
    s: DeviceState,
    stick: Stick,
    blocks: int,
    offset: int,
    buf: Seq<u8>,
    xs: Seq<Exchange>,
)
    requires
        is_sound(stick, blocks),
        is_known(s, stick, blocks),
        0 <= offset,
        buf.len() <= usize::MAX,
        reaches(stick, blocks, offset, buf.len() as int),
        read_request_run(s, offset, buf, xs) is Some,
        stick.after_all(xs) is Some,
    ensures
        ({
            let n = bytes_asked(offset, buf.len() as int, stick.block_size);
            let end = read_request_run(s, offset, buf, xs)->0;
            &&& stick.after_all(end.rest) == stick.after_all(xs)
            &&& stick.refused.contains(0x28) && buf.len() > 0 ==> end.result == Err::<
                usize,
                DeviceError,
            >(DeviceError::IoError) && end.data == buf
            &&& !stick.refused.contains(0x28) ==> end.result == Ok::<usize, DeviceError>(n as usize)
                && end.data == stick.disk.subrange(offset, offset + n) + buf.skip(n)
        }),
{
    let bs = stick.block_size;
    let len = buf.len() as int;
    let lba = first_sector(offset, bs);
    let count = sectors_asked(offset, len, bs);
    let n = bytes_asked(offset, len, bs);
    lemma_request(offset, len, bs);
    lemma_reaches(stick, blocks, offset, len);
    lemma_sectors_cover(offset, len, bs);
    lemma_within(lba + count, blocks, bs);
    if len > 0 {
        assert(count > 0) by {
            if count == 0 {
                assert(count * bs == 0) by (nonlinear_arith)
                    requires
                        count == 0,
                ;
            }
        }
    }
    if is_whole(offset, len, bs) {
        law_sectors_are_read(s, stick, blocks, lba, count, buf, xs);
    } else {
        let room = zeros((count * bs) as nat);
        law_sectors_are_read(s, stick, blocks, lba, count, room, xs);
        let sectors = stick.disk.subrange(lba * bs, (lba + count) * bs);
        if !stick.refused.contains(0x28) {
            assert(sectors + room.skip(count * bs) =~= sectors);
            assert(sectors.subrange(offset % bs, offset % bs + n) =~= stick.disk.subrange(
                offset,
                offset + n,
            ));
        }
    }
}

/// Requests for reading, from position `at` on.
proof fn lemma_read_from(
    s: DeviceState,
    stick: Stick,
    blocks: int,
    offset: int,
    buf: Seq<u8>,
    at: int,
    xs: Seq<Exchange>,
)
    requires
        is_sound(stick, blocks),
        is_known(s, stick, blocks),
        0 <= offset,
        0 <= at <= buf.len() <= usize::MAX,
        at < buf.len() || at == 0,
        reaches(stick, blocks, offset + at, buf.len() - at),
        read_from(s, offset, buf, at, buf.len() as int, xs) is Some,
        stick.after_all(xs) is Some,
    ensures
        ({
            let len = buf.len() as int;
            let end = read_from(s, offset, buf, at, len, xs)->0;
            &&& stick.after_all(end.rest) == stick.after_all(xs)
            &&& stick.refused.contains(0x28) && len > 0 ==> end.result == Err::<usize, DeviceError>(
                DeviceError::IoError,
            ) && end.data == buf
            &&& !stick.refused.contains(0x28) ==> end.result == Ok::<usize, DeviceError>(
                len as usize,
            ) && end.data == buf.take(at) + stick.disk.subrange(offset + at, offset + len)
        }),
    decreases buf.len() - at,
{
    let bs = stick.block_size;
    let len = buf.len() as int;
    let left = len - at;
    let n = bytes_asked(offset + at, left, bs);
    lemma_request(offset + at, left, bs);
    lemma_reaches(stick, blocks, offset + at, left);
    lemma_read_request(s, stick, blocks, offset + at, buf.skip(at), xs);
    let r = read_request_run(s, offset + at, buf.skip(at), xs)->0;
    let filled = buf.take(at) + r.data;
    if stick.refused.contains(0x28) {
        assert(buf.take(at) + buf.skip(at) =~= buf);
    } else {
        let disk = stick.disk;
        assert(filled.take(at + n) =~= buf.take(at) + disk.subrange(offset + at, offset + at + n));
        if n < left {
            lemma_read_from(s, stick, blocks, offset, filled, at + n, r.rest);
            assert(filled.take(at + n) + disk.subrange(offset + at + n, offset + len) =~= buf.take(
                at,
            ) + disk.subrange(offset + at, offset + len));
        } else {
            assert(filled =~= filled.take(at + n));
        }
    }
}

/// Reading bytes that the stick has succeeds and brings these bytes, as many as
/// the buffer holds, and leaves the stick as it is. Where the stick fails READ(10),
/// the read is an I/O error, and the buffer stays as it is.
pub proof fn law_bytes_are_read(
    s: DeviceState,
    stick: Stick,
    blocks: int,
    offset: int,
    buf: Seq<u8>,
    xs: Seq<Exchange>,
)
    requires
        is_sound(stick, blocks),
        is_known(s, stick, blocks),
        0 <= offset < 0x1_0000_0000 * stick.block_size,
        buf.len() <= usize::MAX,
        offset + buf.len() <= stick.disk.len(),
        is_manageable(offset, buf.len() as int, stick.block_size),
        read_bytes_run(s, offset, buf, xs) is Some,
        stick.after_all(xs) is Some,
    ensures
        ({
            let end = read_bytes_run(s, offset, buf, xs)->0;
            &&& stick.after_all(end.rest) == stick.after_all(xs)
            &&& stick.refused.contains(0x28) && buf.len() > 0 ==> end.result == Err::<
                usize,
                DeviceError,
            >(DeviceError::IoError) && end.data == buf
            &&& !stick.refused.contains(0x28) ==> end.result == Ok::<usize, DeviceError>(
                buf.len() as usize,
            ) && end.data == stick.disk.subrange(offset, offset + buf.len())
        }),
{
    lemma_servable(s, stick, blocks, offset, buf.len() as int);
    lemma_read_from(s, stick, blocks, offset, buf, 0, xs);
    let part = stick.disk.subrange(offset, offset + buf.len());
    assert(buf.take(0) + part =~= part);
}

/// One request for writing.
proof fn lemma_write_request(
    s: DeviceState,
    stick: Stick,
    blocks: int,
    offset: int,
    data: Seq<u8>,
    xs: Seq<Exchange>,
)
    requires
        is_sound(stick, blocks),
        is_known(s, stick, blocks),
        !stick.refused.contains(0x28),
        !s.write_protected,
        0 <= offset,
        data.len() <= usize::MAX,
        reaches(stick, blocks, offset, data.len() as int),
        write_request_run(s, offset, data, xs) is Some,
        stick.after_all(xs) is Some,
    ensures
        ({
            let n = bytes_asked(offset, data.len() as int, stick.block_size);
            let end = write_request_run(s, offset, data, xs)->0;
            &&& stick.refused.contains(0x2A) && data.len() > 0 ==> end.result == Err::<
                usize,
                DeviceError,
            >(DeviceError::IoError) && stick.after_all(end.rest) == stick.after_all(xs)
            &&& !stick.refused.contains(0x2A) ==> end.result == Ok::<usize, DeviceError>(n as usize)
                && with_bytes(stick, offset, data.take(n)).after_all(end.rest) == stick.after_all(
                xs,
            )
        }),
{
    let bs = stick.block_size;
    let len = data.len() as int;
    let lba = first_sector(offset, bs);
    let count = sectors_asked(offset, len, bs);
    let n = bytes_asked(offset, len, bs);
    lemma_request(offset, len, bs);
    lemma_reaches(stick, blocks, offset, len);
    lemma_sectors_cover(offset, len, bs);
    lemma_within(lba + count, blocks, bs);
    if len > 0 {
        assert(count > 0) by {
            if count == 0 {
                assert(count * bs == 0) by (nonlinear_arith)
                    requires
                        count == 0,
                ;
            }
        }
    }
    if is_whole(offset, len, bs) {
        law_sectors_are_written(s, stick, blocks, lba, count, data, xs);
    } else {
        let room = zeros((count * bs) as nat);
        law_sectors_are_read(s, stick, blocks, lba, count, room, xs);
        let r = read_sectors_run(s, lba, count, room, xs)->0;
        let sectors = stick.disk.subrange(lba * bs, (lba + count) * bs);
        assert(r.data =~= sectors);
        let changed = patched(sectors, offset % bs, data.take(n));
        law_sectors_are_written(s, stick, blocks, lba, count, changed, r.rest);
        assert(changed.take(count * bs) =~= changed);
        assert(with_bytes(stick, lba * bs, changed).disk =~= with_bytes(
            stick,
            offset,
            data.take(n),
        ).disk);
    }
}

/// Requests for writing, from position `at` on.
proof fn lemma_write_from(
    s: DeviceState,
    stick: Stick,
    blocks: int,
    offset: int,
    data: Seq<u8>,
    at: int,
    xs: Seq<Exchange>,
)
    requires
        is_sound(stick, blocks),
        is_known(s, stick, blocks),
        !stick.refused.contains(0x28),
        !s.write_protected,
        0 <= offset,
        0 <= at <= data.len() <= usize::MAX,
        at < data.len() || at == 0,
        reaches(stick, blocks, offset + at, data.len() - at),
        write_from(s, offset, data, at, xs) is Some,
        stick.after_all(xs) is Some,
    ensures
        ({
            let end = write_from(s, offset, data, at, xs)->0;
            &&& stick.refused.contains(0x2A) && data.len() > 0 ==> end.result == Err::<
                usize,
                DeviceError,
            >(DeviceError::IoError) && stick.after_all(end.rest) == stick.after_all(xs)
            &&& !stick.refused.contains(0x2A) ==> end.result == Ok::<usize, DeviceError>(
                data.len() as usize,
            ) && with_bytes(stick, offset + at, data.skip(at)).after_all(end.rest)
                == stick.after_all(xs)
        }),
    decreases data.len() - at,
{
    let bs = stick.block_size;
    let left = data.len() - at;
    let rest = data.skip(at);
    let n = bytes_asked(offset + at, left, bs);
    lemma_request(offset + at, left, bs);
    lemma_reaches(stick, blocks, offset + at, left);
    lemma_write_request(s, stick, blocks, offset + at, rest, xs);
    let r = write_request_run(s, offset + at, rest, xs)->0;
    if !stick.refused.contains(0x2A) {
        if n < left {
            let next = with_bytes(stick, offset + at, rest.take(n));
            lemma_join(stick, offset + at, rest.take(n), data.skip(at + n));
            lemma_write_from(s, next, blocks, offset, data, at + n, r.rest);
            assert(rest.take(n) + data.skip(at + n) =~= rest);
        } else {
            assert(rest.take(n) =~= rest);
        }
    }
}

/// Writing bytes where the stick has some succeeds: the stick then holds the data
/// at that offset, and every other byte is what it was. Where the stick fails
/// WRITE(10), the write is an I/O error, and the stick stays as it is.
pub proof fn law_bytes_are_written(
    s: DeviceState,
    stick: Stick,
    blocks: int,
    offset: int,
    data: Seq<u8>,
    xs: Seq<Exchange>,
)
    requires
        is_sound(stick, blocks),
        is_known(s, stick, blocks),
        !stick.refused.contains(0x28),
        !s.write_protected,
        0 <= offset < 0x1_0000_0000 * stick.block_size,
        data.len() <= usize::MAX,
        offset + data.len() <= stick.disk.len(),
        is_manageable(offset, data.len() as int, stick.block_size),
        write_bytes_run(s, offset, data, xs) matches Some(end) && end.rest.len() == 0,
        stick.after_all(xs) is Some,
    ensures
        ({
            let end = write_bytes_run(s, offset, data, xs)->0;
            let t = stick.after_all(xs)->0;
            &&& stick.refused.contains(0x2A) && data.len() > 0 ==> end.result == Err::<
                usize,
                DeviceError,
            >(DeviceError::IoError) && t == stick
            &&& !stick.refused.contains(0x2A) ==> {
                &&& end.result == Ok::<usize, DeviceError>(data.len() as usize)
                &&& t == (Stick { disk: t.disk, ..stick })
                &&& t.disk.len() == stick.disk.len()
                &&& forall|i: int|
                    0 <= i < t.disk.len() ==> #[trigger] t.disk[i] == if offset <= i < offset
                        + data.len() {
                        data[i - offset]
                    } else {
                        stick.disk[i]
                    }
            }
        }),
{
    lemma_servable(s, stick, blocks, offset, data.len() as int);
    lemma_write_from(s, stick, blocks, offset, data, 0, xs);
    assert(data.skip(0) =~= data);
}

/// Bytes beyond the end of the device are out of bounds, as far as the geometry is
/// known, and so are blocks beyond the last address. Nothing is sent for them.
pub proof fn law_out_of_bounds(s: DeviceState, offset: int, data: Seq<u8>, xs: Seq<Exchange>)
    requires
        0 <= offset,
        match s.capacity {
            Some(c) => offset + data.len() > (c.last_lba + 1) * c.block_size,
            None => offset >= 0x1_0000_0000 * 512 || offset + data.len() > 0x1_0000_0000 * 512,
        },
    ensures
        read_bytes_run(s, offset, data, xs) == Some(
            BytesEnd { data, result: Err(DeviceError::OutOfBounds), rest: xs },
        ),
        !s.write_protected ==> write_bytes_run(s, offset, data, xs) == Some(
            BytesEnd { data, result: Err(DeviceError::OutOfBounds), rest: xs },
        ),
{
    if s.capacity is None {
        lemma_sectors_cover(offset, data.len() as int, 512);
    }
}

/// A command of the initialization that is answered from what the stick says of
/// itself.
proof fn lemma_asked(
    stick: Stick,
    cmd: ScsiCommand,
    buf: Seq<u8>,
    reply: Seq<u8>,
    code: u8,
    xs: Seq<Exchange>,
)
    requires
        stick.phase is Idle,
        issued(cmd, 0, stick.lun, Some(buf), xs) is Some,
        stick.after_all(xs) is Some,
        ({
            ||| cmd == (ScsiCommand::Inquiry { alloc_len: 36 }) && code == 0x12 && reply
                == stick.inquiry
            ||| cmd == (ScsiCommand::RequestSense { alloc_len: 18 }) && code == 0x03 && reply
                == stick.sense
            ||| cmd == (ScsiCommand::ModeSense { page_code: 0x3F, alloc_len: 192 }) && code == 0x1A
                && reply == stick.mode
            ||| cmd == ScsiCommand::ReadCapacity10 && code == 0x25 && reply == stick.capacity
        }),
        buf.len() == cmd.transfer_length(0),
        reply.len() <= buf.len(),
    ensures
        xs.len() > 0,
        stick.after_all(xs.drop_first()) == stick.after_all(xs),
        ({
            let end = issued(cmd, 0, stick.lun, Some(buf), xs)->0;
            if stick.refused.contains(code) {
                end.result == Err::<u32, BotError>(BotError::CommandFailed) && end.data == buf
            } else {
                end.result is Ok && end.data == reply + buf.skip(reply.len() as int)
            }
        }),
{
    lemma_tag(cmd, 0, stick.lun, xs[0].tag);
    law_command_on_the_wire(cmd, 0, stick.lun, xs[0].tag);
    if stick.refused.contains(code) {
        lemma_balked(stick, cmd, 0, buf, xs);
    } else {
        lemma_replied(stick, cmd, 0, buf, reply, xs);
    }
}

/// The wait for a stick that is busy for a while.
proof fn lemma_waited(s: DeviceState, stick: Stick, attempts: nat, xs: Seq<Exchange>)
    requires
        stick.phase is Idle,
        s.lun == stick.lun,
        stick.sense.len() <= 18,
        ready_step(s, attempts, xs) is Some,
        stick.after_all(xs) is Some,
    ensures
        ({
            let p = ready_step(s, attempts, xs)->0;
            &&& p.state == s
            &&& if stick.busy < attempts {
                &&& p.result is Ok
                &&& xs.len() == p.rest.len() + 2 * stick.busy + 1
                &&& Stick { busy: 0, ..stick }.after_all(p.rest) == stick.after_all(xs)
            } else {
                &&& p.result == Err::<(), BotError>(BotError::Timeout)
                &&& xs.len() == p.rest.len() + 2 * attempts
                &&& Stick { busy: (stick.busy - attempts) as nat, ..stick }.after_all(p.rest)
                    == stick.after_all(xs)
            }
        }),
    decreases attempts,
{
    if attempts > 0 {
        lemma_polled(stick, xs);
        if stick.busy > 0 {
            let next = Stick { busy: (stick.busy - 1) as nat, ..stick };
            let sense = ScsiCommand::RequestSense { alloc_len: 18 };
            lemma_asked(next, sense, zeros(18), next.sense, 0x03, xs.drop_first());
            lemma_waited(s, next, (attempts - 1) as nat, xs.drop_first().drop_first());
        } else {
            assert(stick == (Stick { busy: 0, ..stick }));
        }
    } else {
        assert(stick == (Stick { busy: stick.busy, ..stick }));
    }
}

/// The wait ends well where the stick is ready within ten attempts, after one
/// command for each time that it was not, one for its sense data each, and one more.
/// Otherwise it times out after ten of each.
pub proof fn law_stick_is_waited_for(s: DeviceState, stick: Stick, xs: Seq<Exchange>)
    requires
        stick.phase is Idle,
        s.lun == stick.lun,
        stick.sense.len() <= 18,
        ready_step(s, MAX_TUR_RETRIES as nat, xs) matches Some(p) && p.rest.len() == 0,
        stick.after_all(xs) is Some,
    ensures
        ({
            let p = ready_step(s, MAX_TUR_RETRIES as nat, xs)->0;
            &&& p.state == s
            &&& if stick.busy < 10 {
                &&& p.result is Ok
                &&& xs.len() == 2 * stick.busy + 1
                &&& stick.after_all(xs) == Some(Stick { busy: 0, ..stick })
            } else {
                &&& p.result == Err::<(), BotError>(BotError::Timeout)
                &&& xs.len() == 20
                &&& stick.after_all(xs) == Some(
                    Stick { busy: (stick.busy - 10) as nat, ..stick },
                )
            }
        }),
{
    lemma_waited(s, stick, MAX_TUR_RETRIES as nat, xs);
}

/// Initialization succeeds on a stick that does its part, whatever it says of
/// itself: where INQUIRY passes, the stick is ready within ten attempts, READ
/// CAPACITY(10) passes, and MODE SENSE(6) passes or fails. The driver then knows
/// what the stick says: its identification, its last block and block size, and
/// whether it is write-protected. The first step that fails ends the
/// initialization with its error, and what later steps learn stays as it was.
pub proof fn law_stick_is_initialized(s: DeviceState, stick: Stick, xs: Seq<Exchange>)
    requires
        stick.phase is Idle,
        s.lun == stick.lun,
        stick.inquiry.len() == 36,
        stick.capacity.len() == 8,
        4 <= stick.mode.len() <= 192,
        stick.sense.len() <= 18,
        init_run(s, xs) matches Some(p) && p.rest.len() == 0,
        stick.after_all(xs) is Some,
    ensures
        ({
            let p = init_run(s, xs)->0;
            let t = p.state;
            let c = stick.capacity;
            let after = stick.after_all(xs)->0;
            &&& t.lun == s.lun
            &&& if stick.refused.contains(0x12) {
                &&& p.result == Err::<(), BotError>(BotError::CommandFailed)
                &&& t == s
                &&& xs.len() == 1
                &&& after == stick
            } else {
                &&& t.inquiry == InquiryView::decoded(stick.inquiry)
                &&& t.inquiry is Some
                &&& t.inquiry->0.peripheral_device_type == stick.inquiry[0] % 32
                &&& t.inquiry->0.removable <==> stick.inquiry[1] >= 0x80
                &&& if stick.busy >= 10 {
                    &&& p.result == Err::<(), BotError>(BotError::Timeout)
                    &&& t.capacity == s.capacity
                    &&& t.write_protected == s.write_protected
                    &&& xs.len() == 21
                    &&& after == (Stick { busy: (stick.busy - 10) as nat, ..stick })
                } else if stick.refused.contains(0x25) {
                    &&& p.result == Err::<(), BotError>(BotError::CommandFailed)
                    &&& t.capacity == s.capacity
                    &&& t.write_protected == s.write_protected
                    &&& xs.len() == 2 * stick.busy + 3
                    &&& after == (Stick { busy: 0, ..stick })
                } else {
                    &&& p.result is Ok
                    &&& t.capacity is Some
                    &&& t.capacity->0.last_lba == 0x100_0000 * c[0] + 0x1_0000 * c[1] + 0x100 * c[2]
                        + c[3]
                    &&& t.capacity->0.block_size == 0x100_0000 * c[4] + 0x1_0000 * c[5] + 0x100
                        * c[6] + c[7]
                    &&& t.write_protected <==> !stick.refused.contains(0x1A) && stick.mode[2]
                        >= 0x80
                    &&& xs.len() == 2 * stick.busy + 4
                    &&& after == (Stick { busy: 0, ..stick })
                }
            }
        }),
{
    let inquiry = ScsiCommand::Inquiry { alloc_len: 36 };
    let mode = ScsiCommand::ModeSense { page_code: 0x3F, alloc_len: 192 };
    lemma_asked(stick, inquiry, zeros(36), stick.inquiry, 0x12, xs);
    if !stick.refused.contains(0x12) {
        assert(stick.inquiry + zeros(36).skip(36) =~= stick.inquiry);
        let p1 = inquiry_step(s, xs)->0;
        lemma_waited(p1.state, stick, MAX_TUR_RETRIES as nat, p1.rest);
        let p2 = ready_step(p1.state, MAX_TUR_RETRIES as nat, p1.rest)->0;
        if stick.busy < 10 {
            let ready = Stick { busy: 0, ..stick };
            lemma_asked(
                ready,
                ScsiCommand::ReadCapacity10,
                zeros(8),
                ready.capacity,
                0x25,
                p2.rest,
            );
            if !stick.refused.contains(0x25) {
                assert(stick.capacity + zeros(8).skip(8) =~= stick.capacity);
                law_values(stick.capacity.subrange(0, 4));
                law_values(stick.capacity.subrange(4, 8));
                let p3 = capacity_step(p2.state, p2.rest)->0;
                lemma_asked(ready, mode, zeros(192), ready.mode, 0x1A, p3.rest);
            }
        }
    }
}

/// The sense data of a stick is what it answers.
pub proof fn law_sense_is_read(s: DeviceState, stick: Stick, xs: Seq<Exchange>)
    requires
        stick.phase is Idle,
        s.lun == stick.lun,
        stick.sense.len() == 18,
        !stick.refused.contains(0x03),
        issued(ScsiCommand::RequestSense { alloc_len: 18 }, 0, s.lun, Some(zeros(18)), xs) is Some,
        stick.after_all(xs) is Some,
    ensures
        sense_of(
            issued(ScsiCommand::RequestSense { alloc_len: 18 }, 0, s.lun, Some(zeros(18)), xs)->0,
        ) == Ok::<SenseData, BotError>(
            SenseData {
                sense_key: (stick.sense[2] % 16) as u8,
                asc: stick.sense[12],
                ascq: stick.sense[13],
            },
        ),
{
    let sense = ScsiCommand::RequestSense { alloc_len: 18 };
    lemma_asked(stick, sense, zeros(18), stick.sense, 0x03, xs);
    assert(stick.sense + zeros(18).skip(18) =~= stick.sense);
}

/// Whether a stick could have come to where it is by commands: it has something
/// left to take where it takes, and tags have four bytes.
pub open spec fn is_consistent(stick: Stick) -> bool {
    match stick.phase {
        Phase::Sending { tag, .. } => tag.len() == 4,
        Phase::Taking { left, tag, .. } => tag.len() == 4 && left > 0,
        Phase::Balking { tag } => tag.len() == 4,
        Phase::Reporting { tag, .. } => tag.len() == 4,
        _ => true,
    }
}

/// A stick has an answer to every request: to the bytes `data` sent, to a buffer
/// handed in, to a reset, and to a HALT condition to be cleared.
pub proof fn law_stick_always_answers(stick: Stick, data: Seq<u8>, buf: Seq<u8>, endpoint: u8)
    requires
        is_consistent(stick),
    ensures
        exists|answer: Result<usize, BotError>|
            stick.answers(#[trigger] sent_event(data, answer)) is Some,
        exists|after: Seq<u8>, answer: Result<usize, BotError>|
            after.len() == buf.len() && stick.answers(#[trigger] got_event(buf, after, answer))
                is Some,
        stick.answers(TransferEvent::Reset { answer: Err(BotError::ResetFailed) }) is Some,
        stick.answers(
            TransferEvent::ClearHalt { endpoint, answer: Err(BotError::ClearHaltFailed) },
        ) is Some,
{
    let failed: Result<usize, BotError> = Err(BotError::Timeout);
    let none: Result<usize, BotError> = Ok(0);
    let one: Result<usize, BotError> = Ok(1);
    let cbw: Result<usize, BotError> = Ok(31);
    let csw: Result<usize, BotError> = Ok(13);
    let out = match stick.phase {
        Phase::Idle => if data.len() == 31 {
            cbw
        } else {
            failed
        },
        Phase::Taking { .. } => if data.len() > 0 {
            one
        } else {
            failed
        },
        Phase::Balking { .. } => none,
        _ => failed,
    };
    assert(stick.answers(sent_event(data, out)) is Some);
    let (after, answer) = match stick.phase {
        Phase::Sending { reply, .. } => if reply.len() > 0 && buf.len() > 0 {
            (reply.take(1) + buf.skip(1), one)
        } else {
            (reply.take(0) + buf.skip(0), none)
        },
        Phase::Balking { .. } => (buf, none),
        Phase::Reporting { tag, status } => if buf.len() == 13 {
            (
                seq![0x55u8, 0x53u8, 0x42u8, 0x53u8] + tag + seq![0u8, 0u8, 0u8, 0u8, status],
                csw,
            )
        } else {
            (buf, failed)
        },
        _ => (buf, failed),
    };
    match stick.phase {
        Phase::Reporting { tag, status } => if buf.len() == 13 {
            assert(after.subrange(4, 8) =~= tag);
        },
        _ => {},
    }
    assert(stick.answers(got_event(buf, after, answer)) is Some);
}

/// The event of bytes that are sent.
pub open spec fn sent_event(data: Seq<u8>, answer: Result<usize, BotError>) -> TransferEvent {
    TransferEvent::BulkOut { data, answer }
}

/// The event of a buffer that is handed in.
pub open spec fn got_event(
    before: Seq<u8>,
    after: Seq<u8>,
    answer: Result<usize, BotError>,
) -> TransferEvent {
    TransferEvent::BulkIn { before, after, answer }
}

/// Sectors that cannot be read are not written: where the stick fails READ(10), a
/// write that is not one of whole sectors is an I/O error, and the stick stays as
/// it is.
pub proof fn law_unread_sectors_are_not_written(
    s: DeviceState,
    stick: Stick,
    blocks: int,
    offset: int,
    data: Seq<u8>,
    xs: Seq<Exchange>,
)
    requires
        is_sound(stick, blocks),
        is_known(s, stick, blocks),
        stick.refused.contains(0x28),
        !s.write_protected,
        0 <= offset,
        0 < data.len() <= usize::MAX,
        offset % stick.block_size != 0 || data.len() < stick.block_size,
        offset + data.len() <= stick.disk.len(),
        is_manageable(offset, data.len() as int, stick.block_size),
        write_bytes_run(s, offset, data, xs) matches Some(end) && end.rest.len() == 0,
        stick.after_all(xs) is Some,
    ensures
        write_bytes_run(s, offset, data, xs)->0.result == Err::<usize, DeviceError>(
            DeviceError::IoError,
        ),
        stick.after_all(xs) == Some(stick),
{
    let bs = stick.block_size;
    let len = data.len() as int;
    let lba = first_sector(offset, bs);
    let count = sectors_asked(offset, len, bs);
    lemma_within(blocks, 0x1_0000_0000, bs);
    lemma_servable(s, stick, blocks, offset, len);
    lemma_request(offset, len, bs);
    lemma_reaches(stick, blocks, offset, len);
    lemma_sectors_cover(offset, len, bs);
    assert(count > 0) by {
        if count == 0 {
            assert(count * bs == 0) by (nonlinear_arith)
                requires
                    count == 0,
            ;
        }
    }
    lemma_within(1, count, bs);
    assert(data.skip(0) =~= data);
    let room = zeros((count * bs) as nat);
    law_sectors_are_read(s, stick, blocks, lba, count, room, xs);
}

} // verus!
