//! Bulk-Only Transport (BOT).
//!
//! - **CBW** (Command Block Wrapper): the 31-byte packet around a SCSI command
//! - **CSW** (Command Status Wrapper): the 13-byte answer
//! - **Reset recovery**: Bulk-Only Mass Storage Reset, then clear HALT on both
//!   endpoints
use crate::bytes::{law_le32_round_trip, le32, le32_value, u32_from_le, u32_to_le, zeros};
use crate::exchange::{
    cbw_result, data_in, data_out, events_since, exchange, exchange_out, recovery, status_phase,
    ExchangeEnd, PhaseEnd, TransferEvent,
};
use crate::text::{hex_text, push_hex};
use vstd::arithmetic::div_mod::{
    lemma_add_mod_noop, lemma_mod_bound, lemma_mod_equivalence, lemma_small_mod,
};
use vstd::prelude::*;
use vstd::slice::slice_subrange;
use vstd::string::StringExecFns;

verus! {

/// CBW signature: "USBC".
pub const CBW_SIGNATURE: u32 = 0x4342_5355;

/// CSW signature: "USBS".
pub const CSW_SIGNATURE: u32 = 0x5342_5355;

/// CBW size in bytes.
pub const CBW_SIZE: usize = 31;

/// CSW size in bytes.
pub const CSW_SIZE: usize = 13;

/// Longest SCSI command block that a CBW can carry.
pub const MAX_CDB_LENGTH: usize = 16;

/// Errors of Bulk-Only Transport operations.
#[derive(Debug)]
pub enum BotError {
    /// The CBW could not be sent to the bulk-out endpoint.
    CbwTransferFailed,
    /// The CSW could not be received from the bulk-in endpoint.
    CswTransferFailed,
    /// The CSW does not start with its signature.
    CswSignatureInvalid(u32),
    /// The CSW answers another CBW than the one that was sent.
    CswTagMismatch { expected: u32, got: u32 },
    /// The device reports that the command failed.
    CommandFailed,
    /// The device reports a phase error, which needs reset recovery.
    PhaseError,
    /// The data transfer on a bulk endpoint failed.
    DataTransferFailed,
    /// The Bulk-Only Mass Storage Reset request failed.
    ResetFailed,
    /// Clearing HALT on an endpoint failed.
    ClearHaltFailed,
    /// The device returned an unexpected CSW status byte.
    UnknownStatus(u8),
    /// The transfer timed out.
    Timeout,
}

impl BotError {
    /// What `message` says.
    pub open spec fn text(self) -> Seq<char> {
        match self {
            BotError::CbwTransferFailed => "CBW transfer failed"@,
            BotError::CswTransferFailed => "CSW transfer failed"@,
            BotError::CswSignatureInvalid(sig) => "CSW invalid signature: "@ + hex_text(
                sig as nat,
                8,
            ),
            BotError::CswTagMismatch { expected, got } => "CSW tag mismatch: expected "@ + hex_text(
                expected as nat,
                8,
            ) + ", got "@ + hex_text(got as nat, 8),
            BotError::CommandFailed => "SCSI command failed (bCSWStatus=1)"@,
            BotError::PhaseError => "BOT phase error (bCSWStatus=2), reset required"@,
            BotError::DataTransferFailed => "bulk data transfer failed"@,
            BotError::ResetFailed => "Bulk-Only Mass Storage Reset failed"@,
            BotError::ClearHaltFailed => "Clear Feature HALT failed"@,
            BotError::UnknownStatus(s) => "unknown CSW status: "@ + hex_text(s as nat, 2),
            BotError::Timeout => "BOT transfer timed out"@,
        }
    }

    /// The error in words.
    pub fn message(&self) -> (res: String)
        ensures
            res@ == self.text(),
            *self is CbwTransferFailed ==> res@ == "CBW transfer failed"@,
            *self is CswTransferFailed ==> res@ == "CSW transfer failed"@,
            *self matches BotError::CswSignatureInvalid(sig) ==> res@
                == "CSW invalid signature: "@ + hex_text(sig as nat, 8),
            *self matches BotError::CswTagMismatch { expected, got } ==> res@
                == "CSW tag mismatch: expected "@ + hex_text(expected as nat, 8) + ", got "@
                + hex_text(got as nat, 8),
            *self is CommandFailed ==> res@ == "SCSI command failed (bCSWStatus=1)"@,
            *self is PhaseError ==> res@ == "BOT phase error (bCSWStatus=2), reset required"@,
            *self is DataTransferFailed ==> res@ == "bulk data transfer failed"@,
            *self is ResetFailed ==> res@ == "Bulk-Only Mass Storage Reset failed"@,
            *self is ClearHaltFailed ==> res@ == "Clear Feature HALT failed"@,
            *self matches BotError::UnknownStatus(s) ==> res@ == "unknown CSW status: "@ + hex_text(
                s as nat,
                2,
            ),
            *self is Timeout ==> res@ == "BOT transfer timed out"@,
    {
        match self {
            BotError::CbwTransferFailed => "CBW transfer failed".to_owned(),
            BotError::CswTransferFailed => "CSW transfer failed".to_owned(),
            BotError::CswSignatureInvalid(sig) => {
                let mut out: String = "CSW invalid signature: ".to_owned();
                push_hex(&mut out, *sig, 8);
                out
            },
            BotError::CswTagMismatch { expected, got } => {
                let mut out: String = "CSW tag mismatch: expected ".to_owned();
                push_hex(&mut out, *expected, 8);
                out.append(", got ");
                push_hex(&mut out, *got, 8);
                out
            },
            BotError::CommandFailed => "SCSI command failed (bCSWStatus=1)".to_owned(),
            BotError::PhaseError => "BOT phase error (bCSWStatus=2), reset required".to_owned(),
            BotError::DataTransferFailed => "bulk data transfer failed".to_owned(),
            BotError::ResetFailed => "Bulk-Only Mass Storage Reset failed".to_owned(),
            BotError::ClearHaltFailed => "Clear Feature HALT failed".to_owned(),
            BotError::UnknownStatus(s) => {
                let mut out: String = "unknown CSW status: ".to_owned();
                push_hex(&mut out, *s as u32, 2);
                out
            },
            BotError::Timeout => "BOT transfer timed out".to_owned(),
        }
    }
}

/// CSW status codes.
#[derive(Debug, Clone, Copy, PartialEq, Eq, Structural)]
pub enum CswStatus {
    /// The command passed (0x00).
    Passed,
    /// The command failed (0x01).
    Failed,
    /// Phase error (0x02): reset recovery is required.
    PhaseError,
}

impl CswStatus {
    /// The status that byte `b` stands for.
    pub open spec fn of_byte(b: u8) -> Result<CswStatus, BotError> {
        if b == 0 {
            Ok(CswStatus::Passed)
        } else if b == 1 {
            Ok(CswStatus::Failed)
        } else if b == 2 {
            Ok(CswStatus::PhaseError)
        } else {
            Err(BotError::UnknownStatus(b))
        }
    }

    /// Parses a raw status byte.
    pub fn from_byte(b: u8) -> (res: Result<Self, BotError>)
        ensures
            res == Self::of_byte(b),
            res == Ok::<CswStatus, BotError>(CswStatus::Passed) <==> b == 0,
            res == Ok::<CswStatus, BotError>(CswStatus::Failed) <==> b == 1,
            res == Ok::<CswStatus, BotError>(CswStatus::PhaseError) <==> b == 2,
            b > 2 ==> res == Err::<CswStatus, BotError>(BotError::UnknownStatus(b)),
    {
        match b {
            0x00 => Ok(CswStatus::Passed),
            0x01 => Ok(CswStatus::Failed),
            0x02 => Ok(CswStatus::PhaseError),
            other => Err(BotError::UnknownStatus(other)),
        }
    }
}

/// Source of the tags that pair each CSW with its CBW.
///
/// Devices that are in use together draw from one counter, so that no two
/// outstanding commands share a tag.
#[derive(Debug)]
pub struct TagCounter {
    /// The tag that is handed out next.
    pub next: u32,
}

impl TagCounter {
    /// The counter after one tag was drawn.
    pub open spec fn stepped(self) -> TagCounter {
        TagCounter { next: ((self.next + 1) % 0x1_0000_0000) as u32 }
    }

    /// The counter after `n` tags were drawn.
    pub open spec fn advanced(self, n: nat) -> TagCounter
        decreases n,
    {
        if n == 0 {
            self
        } else {
            self.advanced((n - 1) as nat).stepped()
        }
    }

    /// A counter whose first tag is 1.
    pub fn new() -> (res: Self)
        ensures
            res.next == 1,
    {
        TagCounter { next: 1 }
    }

    /// Draws a tag. After the largest one the counter starts over at 0.
    pub fn next_tag(&mut self) -> (tag: u32)
        ensures
            tag == old(self).next,
            *final(self) == old(self).stepped(),
            final(self).next == if old(self).next < 0xffff_ffff {
                old(self).next + 1
            } else {
                0
            },
    {
        let tag: u32 = self.next;
        self.next = tag.wrapping_add(1);
        tag
    }
}

proof fn lemma_advanced(c: TagCounter, n: nat)
    ensures
        c.advanced(n).next == (c.next + n) % 0x1_0000_0000,
    decreases n,
{
    if n > 0 {
        let m: int = 0x1_0000_0000;
        let before = c.advanced((n - 1) as nat);
        lemma_advanced(c, (n - 1) as nat);
        lemma_add_mod_noop(c.next + n - 1, 1, m);
        lemma_mod_bound(before.next + 1, m);
        assert(c.advanced(n) == before.stepped());
    } else {
        lemma_small_mod(c.next as nat, 0x1_0000_0000);
    }
}

/// Two draws from one counter give different tags, unless they are a multiple
/// of 2^32 draws apart.
pub proof fn law_tags_unique(c: TagCounter, i: nat, j: nat)
    requires
        i < j,
        (j - i) % 0x1_0000_0000 != 0,
    ensures
        c.advanced(i).next != c.advanced(j).next,
{
    lemma_advanced(c, i);
    lemma_advanced(c, j);
    lemma_mod_equivalence(c.next + j, c.next + i, 0x1_0000_0000);
}

/// The fields of a CBW.
pub struct CbwView {
    pub tag: u32,
    pub data_transfer_length: u32,
    pub direction_in: bool,
    pub lun: u8,
    pub cdb: Seq<u8>,
    pub cdb_length: u8,
}

impl CbwView {
    /// The 31 bytes on the wire:
    ///
    /// ```text
    /// Offset  Field                 Size
    /// 0       dCBWSignature         4    (0x43425355)
    /// 4       dCBWTag               4    (matches the CSW)
    /// 8       dCBWDataTransferLen   4    (bytes expected)
    /// 12      bmCBWFlags            1    (bit 7: 0=out, 1=in)
    /// 13      bCBWLUN               1    (bits 3:0)
    /// 14      bCBWCBLength          1    (1..16)
    /// 15      CBWCB                 16   (the SCSI command, zero-padded)
    /// ```
    pub open spec fn encoded(self) -> Seq<u8> {
        le32(CBW_SIGNATURE) + le32(self.tag) + le32(self.data_transfer_length) + seq![
            if self.direction_in {
                0x80u8
            } else {
                0x00u8
            },
            (self.lun % 16) as u8,
            self.cdb_length,
        ] + self.cdb
    }
}

/// `cdb` cut to, or filled with zeros up to, the length of a CBW's command
/// block.
pub open spec fn padded_cdb(cdb: Seq<u8>) -> Seq<u8> {
    Seq::new(
        MAX_CDB_LENGTH as nat,
        |i: int|
            if i < cdb.len() {
                cdb[i]
            } else {
                0u8
            },
    )
}

/// The CBW that wraps the SCSI command `cdb`.
pub open spec fn wrapped(
    cdb: Seq<u8>,
    data_transfer_length: u32,
    direction_in: bool,
    lun: u8,
    tag: u32,
) -> CbwView {
    CbwView {
        tag,
        data_transfer_length,
        direction_in,
        lun,
        cdb: padded_cdb(cdb),
        cdb_length: if cdb.len() < MAX_CDB_LENGTH {
            cdb.len() as u8
        } else {
            MAX_CDB_LENGTH as u8
        },
    }
}

/// A Command Block Wrapper.
#[derive(Debug, Clone)]
pub struct CommandBlockWrapper {
    /// Tag that the CSW must repeat.
    pub tag: u32,
    /// Number of bytes that the host expects to transfer in the data phase.
    pub data_transfer_length: u32,
    /// `true`: device to host (IN); `false`: host to device (OUT).
    pub direction_in: bool,
    /// Logical Unit Number (typically 0).
    pub lun: u8,
    /// The SCSI command, zero-padded.
    pub cdb: [u8; MAX_CDB_LENGTH],
    /// Length of the SCSI command.
    pub cdb_length: u8,
}

impl View for CommandBlockWrapper {
    type V = CbwView;

    open spec fn view(&self) -> CbwView {
        CbwView {
            tag: self.tag,
            data_transfer_length: self.data_transfer_length,
            direction_in: self.direction_in,
            lun: self.lun,
            cdb: self.cdb@,
            cdb_length: self.cdb_length,
        }
    }
}

impl CommandBlockWrapper {
    /// Wraps a SCSI command under a tag drawn from `tags`.
    ///
    /// A command longer than a CBW can carry is cut.
    pub fn new(
        cdb: &[u8],
        data_transfer_length: u32,
        direction_in: bool,
        lun: u8,
        tags: &mut TagCounter,
    ) -> (res: Self)
        ensures
            res@ == wrapped(cdb@, data_transfer_length, direction_in, lun, old(tags).next),
            *final(tags) == old(tags).stepped(),
            res.tag == old(tags).next,
            res.data_transfer_length == data_transfer_length,
            res.direction_in == direction_in,
            res.lun == lun,
            res.cdb_length == if cdb@.len() <= 16 {
                cdb@.len() as int
            } else {
                16
            },
            forall|i: int|
                0 <= i < 16 ==> #[trigger] res.cdb@[i] == if i < cdb@.len() {
                    cdb@[i]
                } else {
                    0
                },
            final(tags).next == if old(tags).next < 0xffff_ffff {
                old(tags).next + 1
            } else {
                0
            },
    {
        let tag: u32 = tags.next_tag();
        let copy_len: usize = if cdb.len() < MAX_CDB_LENGTH {
            cdb.len()
        } else {
            MAX_CDB_LENGTH
        };
        let mut padded: [u8; MAX_CDB_LENGTH] = [0u8;MAX_CDB_LENGTH];
        for i in 0..copy_len
            invariant
                copy_len <= cdb@.len(),
                copy_len <= MAX_CDB_LENGTH,
                padded@.len() == MAX_CDB_LENGTH,
                forall|j: int| 0 <= j < i ==> padded@[j] == cdb@[j],
                forall|j: int| i <= j < MAX_CDB_LENGTH ==> padded@[j] == 0,
        {
            padded[i] = cdb[i];
        }
        assert(padded@ =~= padded_cdb(cdb@));
        CommandBlockWrapper {
            tag,
            data_transfer_length,
            direction_in,
            lun,
            cdb: padded,
            cdb_length: copy_len as u8,
        }
    }

    /// Serializes to the 31 bytes on the wire.
    pub fn to_bytes(&self) -> (res: [u8; CBW_SIZE])
        ensures
            res@ == self@.encoded(),
            res@[0] == 0x55 && res@[1] == 0x53 && res@[2] == 0x42 && res@[3] == 0x43,
            self.tag == res@[4] + 0x100 * res@[5] + 0x1_0000 * res@[6] + 0x100_0000 * res@[7],
            self.data_transfer_length == res@[8] + 0x100 * res@[9] + 0x1_0000 * res@[10]
                + 0x100_0000 * res@[11],
            res@[12] == if self.direction_in {
                0x80u8
            } else {
                0u8
            },
            res@[13] == self.lun % 16,
            res@[14] == self.cdb_length,
            forall|i: int| 0 <= i < 16 ==> #[trigger] self.cdb@[i] == res@[15 + i],
    {
        let s = u32_to_le(CBW_SIGNATURE);
        let t = u32_to_le(self.tag);
        let n = u32_to_le(self.data_transfer_length);
        let flags: u8 = if self.direction_in {
            0x80
        } else {
            0x00
        };
        let lun: u8 = self.lun % 16;
        let c = &self.cdb;
        let res: [u8; CBW_SIZE] = [
            s[0],
            s[1],
            s[2],
            s[3],
            t[0],
            t[1],
            t[2],
            t[3],
            n[0],
            n[1],
            n[2],
            n[3],
            flags,
            lun,
            self.cdb_length,
            c[0],
            c[1],
            c[2],
            c[3],
            c[4],
            c[5],
            c[6],
            c[7],
            c[8],
            c[9],
            c[10],
            c[11],
            c[12],
            c[13],
            c[14],
            c[15],
        ];
        assert(res@ =~= self@.encoded());
        res
    }
}

/// A Command Status Wrapper.
#[derive(Debug, Clone)]
pub struct CommandStatusWrapper {
    /// Tag of the CBW that this status answers.
    pub tag: u32,
    /// Number of announced bytes that were not processed.
    pub data_residue: u32,
    /// Status of the command.
    pub status: CswStatus,
}

impl CommandStatusWrapper {
    /// What 13 bytes on the wire stand for:
    ///
    /// ```text
    /// Offset  Field                 Size
    /// 0       dCSWSignature         4    (0x53425355)
    /// 4       dCSWTag               4    (matches the CBW)
    /// 8       dCSWDataResidue       4    (bytes not transferred)
    /// 12      bCSWStatus            1    (0=pass, 1=fail, 2=phase error)
    /// ```
    pub open spec fn decoded(b: Seq<u8>) -> Result<CommandStatusWrapper, BotError> {
        let signature = le32_value(b.subrange(0, 4));
        if signature != CSW_SIGNATURE {
            Err(BotError::CswSignatureInvalid(signature))
        } else {
            match CswStatus::of_byte(b[12]) {
                Err(e) => Err(e),
                Ok(status) => Ok(
                    CommandStatusWrapper {
                        tag: le32_value(b.subrange(4, 8)),
                        data_residue: le32_value(b.subrange(8, 12)),
                        status,
                    },
                ),
            }
        }
    }

    /// Whether this status reports success for the command with tag
    /// `expected_tag`, and the error where it does not.
    pub open spec fn verdict(self, expected_tag: u32) -> Result<(), BotError> {
        if self.tag != expected_tag {
            Err(BotError::CswTagMismatch { expected: expected_tag, got: self.tag })
        } else {
            match self.status {
                CswStatus::Passed => Ok(()),
                CswStatus::Failed => Err(BotError::CommandFailed),
                CswStatus::PhaseError => Err(BotError::PhaseError),
            }
        }
    }

    /// Parses the 13 bytes of a CSW.
    pub fn from_bytes(buf: &[u8; CSW_SIZE]) -> (res: Result<Self, BotError>)
        ensures
            res == Self::decoded(buf@),
            ({
                let b = buf@;
                let signed = b[0] == 0x55 && b[1] == 0x53 && b[2] == 0x42 && b[3] == 0x53;
                &&& !signed ==> {
                    &&& res matches Err(BotError::CswSignatureInvalid(v))
                    &&& v == b[0] + 0x100 * b[1] + 0x1_0000 * b[2] + 0x100_0000 * b[3]
                }
                &&& signed && b[12] > 2 ==> res == Err::<Self, BotError>(
                    BotError::UnknownStatus(b[12]),
                )
                &&& signed && b[12] <= 2 ==> {
                    &&& res matches Ok(c)
                    &&& c.tag == b[4] + 0x100 * b[5] + 0x1_0000 * b[6] + 0x100_0000 * b[7]
                    &&& c.data_residue == b[8] + 0x100 * b[9] + 0x1_0000 * b[10] + 0x100_0000
                        * b[11]
                    &&& c.status is Passed <==> b[12] == 0
                    &&& c.status is Failed <==> b[12] == 1
                }
            }),
    {
        let b = buf.as_slice();
        let signature: u32 = u32_from_le(b, 0);
        if signature != CSW_SIGNATURE {
            return Err(BotError::CswSignatureInvalid(signature));
        }
        let tag: u32 = u32_from_le(b, 4);
        let data_residue: u32 = u32_from_le(b, 8);
        match CswStatus::from_byte(b[12]) {
            Err(e) => Err(e),
            Ok(status) => Ok(CommandStatusWrapper { tag, data_residue, status }),
        }
    }

    /// Checks the tag and then the status.
    pub fn validate(&self, expected_tag: u32) -> (res: Result<(), BotError>)
        ensures
            res == self.verdict(expected_tag),
            res is Ok <==> self.tag == expected_tag && self.status is Passed,
            self.tag != expected_tag ==> res == Err::<(), BotError>(
                BotError::CswTagMismatch { expected: expected_tag, got: self.tag },
            ),
            self.tag == expected_tag && self.status is Failed ==> res == Err::<(), BotError>(
                BotError::CommandFailed,
            ),
            self.tag == expected_tag && self.status is PhaseError ==> res == Err::<(), BotError>(
                BotError::PhaseError,
            ),
    {
        if self.tag != expected_tag {
            return Err(BotError::CswTagMismatch { expected: expected_tag, got: self.tag });
        }
        match self.status {
            CswStatus::Passed => Ok(()),
            CswStatus::Failed => Err(BotError::CommandFailed),
            CswStatus::PhaseError => Err(BotError::PhaseError),
        }
    }
}

/// The parts of a record of five fields.
proof fn lemma_parts(a: Seq<u8>, b: Seq<u8>, c: Seq<u8>, d: Seq<u8>, e: Seq<u8>)
    requires
        a.len() == 4,
        b.len() == 4,
        c.len() == 4,
    ensures
        ({
            let x = a + b + c + d + e;
            &&& x.take(4) == a
            &&& x.subrange(4, 8) == b
            &&& x.subrange(8, 12) == c
            &&& x.subrange(12, 12int + d.len()) == d
            &&& x.skip(12int + d.len()) == e
        }),
{
    let x = a + b + c + d + e;
    assert(x.take(4) =~= a);
    assert(x.subrange(4, 8) =~= b);
    assert(x.subrange(8, 12) =~= c);
    assert(x.subrange(12, 12int + d.len()) =~= d);
    assert(x.skip(12int + d.len()) =~= e);
}

/// Where the fields of a CBW stand in its bytes.
pub proof fn lemma_cbw_fields(c: CbwView)
    ensures
        ({
            let x = c.encoded();
            &&& x.len() == 15 + c.cdb.len()
            &&& x.take(4) == le32(CBW_SIGNATURE)
            &&& x.subrange(4, 8) == le32(c.tag)
            &&& x.subrange(8, 12) == le32(c.data_transfer_length)
            &&& x[12] == if c.direction_in {
                0x80u8
            } else {
                0x00u8
            }
            &&& x[13] == c.lun % 16
            &&& x[14] == c.cdb_length
            &&& x.skip(15) == c.cdb
        }),
{
    let d = seq![
        if c.direction_in {
            0x80u8
        } else {
            0x00u8
        },
        (c.lun % 16) as u8,
        c.cdb_length,
    ];
    let x = c.encoded();
    lemma_parts(le32(CBW_SIGNATURE), le32(c.tag), le32(c.data_transfer_length), d, c.cdb);
    assert(x.subrange(12, 15)[0] == d[0] && x.subrange(12, 15)[1] == d[1] && x.subrange(12, 15)[2]
        == d[2]);
}

/// The bytes of a CBW start with its signature and number 31, and no two CBWs
/// that differ in more than the upper half of the LUN have the same bytes.
pub proof fn law_cbw_layout(a: CbwView, b: CbwView)
    requires
        a.cdb.len() == MAX_CDB_LENGTH,
        b.cdb.len() == MAX_CDB_LENGTH,
    ensures
        a.encoded().len() == CBW_SIZE,
        a.encoded().take(4) == seq![0x55u8, 0x53u8, 0x42u8, 0x43u8],
        a.encoded() == b.encoded() ==> a.tag == b.tag && a.data_transfer_length
            == b.data_transfer_length && a.direction_in == b.direction_in && a.lun % 16 == b.lun
            % 16 && a.cdb_length == b.cdb_length && a.cdb == b.cdb,
{
    lemma_cbw_fields(a);
    lemma_cbw_fields(b);
    assert(le32(CBW_SIGNATURE) =~= seq![0x55u8, 0x53u8, 0x42u8, 0x43u8]);
    law_le32_round_trip(a.tag, le32(a.tag));
    law_le32_round_trip(b.tag, le32(b.tag));
    law_le32_round_trip(a.data_transfer_length, le32(a.data_transfer_length));
    law_le32_round_trip(b.data_transfer_length, le32(b.data_transfer_length));
}

impl CommandStatusWrapper {
    /// The 13 bytes that a device sends for this status.
    pub open spec fn encoded(self) -> Seq<u8> {
        le32(CSW_SIGNATURE) + le32(self.tag) + le32(self.data_residue) + seq![
            match self.status {
                CswStatus::Passed => 0u8,
                CswStatus::Failed => 1u8,
                CswStatus::PhaseError => 2u8,
            },
        ]
    }
}

/// Where the fields of a CSW stand in its bytes.
proof fn lemma_csw_fields(c: CommandStatusWrapper)
    ensures
        ({
            let x = c.encoded();
            &&& x.len() == CSW_SIZE
            &&& x.subrange(0, 4) == le32(CSW_SIGNATURE)
            &&& x.subrange(4, 8) == le32(c.tag)
            &&& x.subrange(8, 12) == le32(c.data_residue)
            &&& CswStatus::of_byte(x[12]) == Ok::<CswStatus, BotError>(c.status)
        }),
{
    let d = seq![
        match c.status {
            CswStatus::Passed => 0u8,
            CswStatus::Failed => 1u8,
            CswStatus::PhaseError => 2u8,
        },
    ];
    let x = c.encoded();
    lemma_parts(le32(CSW_SIGNATURE), le32(c.tag), le32(c.data_residue), d, seq![]);
    assert(x =~= le32(CSW_SIGNATURE) + le32(c.tag) + le32(c.data_residue) + d + seq![]);
    assert(x.subrange(0, 4) =~= x.take(4));
    assert(x.subrange(12, 13)[0] == d[0]);
}

/// Every status is read back from its bytes.
pub proof fn law_csw_is_read_back(c: CommandStatusWrapper)
    ensures
        c.encoded().len() == CSW_SIZE,
        CommandStatusWrapper::decoded(c.encoded()) == Ok::<CommandStatusWrapper, BotError>(c),
{
    lemma_csw_fields(c);
    law_le32_round_trip(CSW_SIGNATURE, le32(CSW_SIGNATURE));
    law_le32_round_trip(c.tag, le32(c.tag));
    law_le32_round_trip(c.data_residue, le32(c.data_residue));
}

/// 13 bytes that are read as a status are the bytes of that status.
pub proof fn law_csw_has_one_form(b: Seq<u8>)
    requires
        b.len() == CSW_SIZE,
    ensures
        CommandStatusWrapper::decoded(b) matches Ok(c) ==> c.encoded() == b,
{
    match CommandStatusWrapper::decoded(b) {
        Ok(c) => {
            law_le32_round_trip(CSW_SIGNATURE, b.subrange(0, 4));
            law_le32_round_trip(c.tag, b.subrange(4, 8));
            law_le32_round_trip(c.data_residue, b.subrange(8, 12));
            lemma_csw_fields(c);
            lemma_same_parts(c.encoded(), b);
        },
        Err(_) => {},
    }
}

/// 13 bytes are given by three times 4 of them and the last.
proof fn lemma_same_parts(x: Seq<u8>, y: Seq<u8>)
    requires
        x.len() == 13,
        y.len() == 13,
        x.subrange(0, 4) == y.subrange(0, 4),
        x.subrange(4, 8) == y.subrange(4, 8),
        x.subrange(8, 12) == y.subrange(8, 12),
        x[12] == y[12],
    ensures
        x == y,
{
    assert(x =~= x.subrange(0, 4) + x.subrange(4, 8) + x.subrange(8, 12) + seq![x[12]]);
    assert(y =~= y.subrange(0, 4) + y.subrange(4, 8) + y.subrange(8, 12) + seq![y[12]]);
}

/// Bulk endpoint I/O, and the control requests that reset recovery needs.
///
/// The host controller driver implements this. In the model an implementation
/// keeps a record of its calls: each call adds one event with what was handed
/// in and what was answered. Nothing is promised of the answers.
pub trait BulkTransport {
    /// The calls so far and their answers. An implementation that is verified
    /// itself says where it keeps them.
    open spec fn history(&self) -> Seq<TransferEvent> {
        seq![]
    }

    /// Sends `data` on the bulk-out endpoint; the answer is the number of
    /// bytes sent.
    fn bulk_out(&mut self, data: &[u8]) -> (answer: Result<usize, BotError>)
        ensures
            final(self).history() == old(self).history().push(
                TransferEvent::BulkOut { data: data@, answer },
            ),
    ;

    /// Receives up to `buf.len()` bytes from the bulk-in endpoint; the answer
    /// is the number of bytes received.
    fn bulk_in(&mut self, buf: &mut [u8]) -> (answer: Result<usize, BotError>)
        ensures
            final(buf)@.len() == old(buf)@.len(),
            final(self).history() == old(self).history().push(
                TransferEvent::BulkIn { before: old(buf)@, after: final(buf)@, answer },
            ),
    ;

    /// Issues a Bulk-Only Mass Storage Reset (class-specific control request:
    /// bmRequestType 0x21, bRequest 0xFF, wValue 0, wIndex the interface
    /// number, wLength 0).
    fn mass_storage_reset(&mut self) -> (answer: Result<(), BotError>)
        ensures
            final(self).history() == old(self).history().push(TransferEvent::Reset { answer }),
    ;

    /// Clears a HALT condition on the given endpoint address
    /// (CLEAR_FEATURE(ENDPOINT_HALT)).
    fn clear_halt(&mut self, endpoint: u8) -> (answer: Result<(), BotError>)
        ensures
            final(self).history() == old(self).history().push(
                TransferEvent::ClearHalt { endpoint, answer },
            ),
    ;

    /// The bulk-in endpoint address.
    fn bulk_in_endpoint(&mut self) -> (address: u8)
        ensures
            final(self).history() == old(self).history().push(
                TransferEvent::InEndpoint { address },
            ),
    ;

    /// The bulk-out endpoint address.
    fn bulk_out_endpoint(&mut self) -> (address: u8)
        ensures
            final(self).history() == old(self).history().push(
                TransferEvent::OutEndpoint { address },
            ),
    ;
}

/// Reset recovery: Bulk-Only Mass Storage Reset, then clear HALT on the
/// bulk-in endpoint and on the bulk-out endpoint.
pub fn reset_recovery<T: BulkTransport + ?Sized>(transport: &mut T) -> (res: Result<(), BotError>)
    ensures
        old(transport).history().is_prefix_of(final(transport).history()),
        recovery(events_since(old(transport).history(), final(transport).history())) == Some(res),
{
    let ghost before = transport.history();
    match transport.mass_storage_reset() {
        Err(e) => {
            return Err(e);
        },
        Ok(_) => {},
    }
    let in_endpoint: u8 = transport.bulk_in_endpoint();
    match transport.clear_halt(in_endpoint) {
        Err(e) => {
            return Err(e);
        },
        Ok(_) => {},
    }
    let out_endpoint: u8 = transport.bulk_out_endpoint();
    let res = transport.clear_halt(out_endpoint);
    res
}

/// One more event at the end of a record, seen from a point before it.
proof fn lemma_event_appended(
    start: Seq<TransferEvent>,
    before: Seq<TransferEvent>,
    event: TransferEvent,
    tail: Seq<TransferEvent>,
)
    requires
        start.is_prefix_of(before),
    ensures
        start.is_prefix_of(before.push(event)),
        events_since(start, before.push(event)) + tail == events_since(start, before) + (seq![event]
            + tail),
        (seq![event] + tail)[0] == event,
        (seq![event] + tail).drop_first() == tail,
{
    assert(events_since(start, before.push(event)) + tail =~= events_since(start, before) + (
    seq![event] + tail));
    assert((seq![event] + tail).drop_first() =~= tail);
    assert(start.is_prefix_of(before.push(event)));
}

/// Sends a CBW.
fn send_cbw<T: BulkTransport + ?Sized>(transport: &mut T, cbw: &CommandBlockWrapper) -> (res: Result<
    (),
    BotError,
>)
    ensures
        exists|answer: Result<usize, BotError>|
            final(transport).history() == #[trigger] old(transport).history().push(
                TransferEvent::BulkOut { data: cbw@.encoded(), answer },
            ) && res == cbw_result(answer),
{
    let cbw_bytes = cbw.to_bytes();
    match transport.bulk_out(cbw_bytes.as_slice()) {
        Err(e) => Err(e),
        Ok(sent) => if sent == CBW_SIZE {
            Ok(())
        } else {
            Err(BotError::CbwTransferFailed)
        },
    }
}

/// Receives data into `buf` until it is full or `limit` bytes have come in, or
/// until the device delivers nothing.
fn receive_data<T: BulkTransport + ?Sized>(transport: &mut T, buf: &mut [u8], limit: usize) -> (res:
    Result<(), BotError>)
    ensures
        final(buf)@.len() == old(buf)@.len(),
        old(transport).history().is_prefix_of(final(transport).history()),
        forall|tail: Seq<TransferEvent>|
            #![trigger events_since(old(transport).history(), final(transport).history()) + tail]
            data_in(
                old(buf)@,
                0,
                limit as int,
                events_since(old(transport).history(), final(transport).history()) + tail,
            ) == Some(PhaseEnd { data: final(buf)@, result: res, rest: tail }),
{
    let ghost start = transport.history();
    let ghost data = buf@;
    let len: usize = buf.len();
    let mut offset: usize = 0;
    assert forall|tail: Seq<TransferEvent>| #[trigger]
        events_since(start, transport.history()) + tail == tail by {
        assert(events_since(start, transport.history()) + tail =~= tail);
    }
    while offset < len && offset < limit
        invariant
            start == old(transport).history(),
            data == old(buf)@,
            len == buf@.len(),
            len == data.len(),
            offset <= len,
            start.is_prefix_of(transport.history()),
            forall|tail: Seq<TransferEvent>|
                #![trigger events_since(start, transport.history()) + tail]
                data_in(data, 0, limit as int, events_since(start, transport.history()) + tail)
                    == data_in(buf@, offset as int, limit as int, tail),
        decreases len - offset,
    {
        let ghost record = transport.history();
        let ghost held = buf@;
        let (_head, free) = buf.split_at_mut(offset);
        let answer = transport.bulk_in(free);
        let ghost event = TransferEvent::BulkIn {
            before: held.skip(offset as int),
            after: buf@.skip(offset as int),
            answer,
        };
        assert(transport.history() == record.push(event)) by {
            assert(held.subrange(offset as int, len as int) =~= held.skip(offset as int));
            assert(free@ =~= buf@.skip(offset as int));
        }
        assert(buf@ =~= held.take(offset as int) + buf@.skip(offset as int));
        assert forall|tail: Seq<TransferEvent>| #[trigger]
            events_since(start, transport.history()) + tail == events_since(start, record) + (
            seq![event] + tail) && (seq![event] + tail)[0] == event && (seq![event]
            + tail).drop_first() == tail by {
            lemma_event_appended(start, record, event, tail);
        }
        proof {
            lemma_event_appended(start, record, event, seq![]);
        }
        match answer {
            Err(e) => {
                return Err(e);
            },
            Ok(n) => {
                if n == 0 {
                    return Ok(());
                }
                offset = if n < len - offset {
                    offset + n
                } else {
                    len
                };
            },
        }
    }
    Ok(())
}

/// Offers `data` to the device until it has taken all of it or takes nothing.
fn send_data<T: BulkTransport + ?Sized>(transport: &mut T, data: &[u8]) -> (res: Result<
    (),
    BotError,
>)
    ensures
        old(transport).history().is_prefix_of(final(transport).history()),
        forall|tail: Seq<TransferEvent>|
            #![trigger events_since(old(transport).history(), final(transport).history()) + tail]
            data_out(
                data@,
                0,
                events_since(old(transport).history(), final(transport).history()) + tail,
            ) == Some(PhaseEnd { data: data@, result: res, rest: tail }),
{
    let ghost start = transport.history();
    let len: usize = data.len();
    let mut offset: usize = 0;
    assert forall|tail: Seq<TransferEvent>| #[trigger]
        events_since(start, transport.history()) + tail == tail by {
        assert(events_since(start, transport.history()) + tail =~= tail);
    }
    while offset < len
        invariant
            start == old(transport).history(),
            len == data@.len(),
            offset <= len,
            start.is_prefix_of(transport.history()),
            forall|tail: Seq<TransferEvent>|
                #![trigger events_since(start, transport.history()) + tail]
                data_out(data@, 0, events_since(start, transport.history()) + tail) == data_out(
                    data@,
                    offset as int,
                    tail,
                ),
        decreases len - offset,
    {
        let ghost record = transport.history();
        let rest = slice_subrange(data, offset, len);
        let answer = transport.bulk_out(rest);
        let ghost event = TransferEvent::BulkOut { data: data@.skip(offset as int), answer };
        assert(rest@ =~= data@.skip(offset as int));
        assert forall|tail: Seq<TransferEvent>| #[trigger]
            events_since(start, transport.history()) + tail == events_since(start, record) + (
            seq![event] + tail) && (seq![event] + tail)[0] == event && (seq![event]
            + tail).drop_first() == tail by {
            lemma_event_appended(start, record, event, tail);
        }
        proof {
            lemma_event_appended(start, record, event, seq![]);
        }
        match answer {
            Err(e) => {
                return Err(e);
            },
            Ok(n) => {
                if n == 0 {
                    return Ok(());
                }
                offset = if n < len - offset {
                    offset + n
                } else {
                    len
                };
            },
        }
    }
    Ok(())
}

/// Receives the CSW and judges it; after a phase error performs reset
/// recovery.
fn receive_status<T: BulkTransport + ?Sized>(transport: &mut T, tag: u32) -> (res: Result<
    u32,
    BotError,
>)
    ensures
        old(transport).history().is_prefix_of(final(transport).history()),
        status_phase(tag, events_since(old(transport).history(), final(transport).history()))
            == Some(res),
{
    let ghost start = transport.history();
    let mut csw_buf: [u8; CSW_SIZE] = [0u8;CSW_SIZE];
    assert(csw_buf@ =~= zeros(CSW_SIZE as nat));
    let answer = transport.bulk_in(&mut csw_buf);
    let ghost record = transport.history();
    assert(events_since(start, record).len() == 1);
    match answer {
        Err(e) => {
            return Err(e);
        },
        Ok(received) => {
            if received != CSW_SIZE {
                return Err(BotError::CswTransferFailed);
            }
        },
    }
    let csw = match CommandStatusWrapper::from_bytes(&csw_buf) {
        Err(e) => {
            return Err(e);
        },
        Ok(csw) => csw,
    };
    match csw.validate(tag) {
        Ok(()) => Ok(csw.data_residue),
        Err(BotError::PhaseError) => {
            let recovered = reset_recovery(transport);
            assert(events_since(start, transport.history()).drop_first() =~= events_since(
                record,
                transport.history(),
            ));
            match recovered {
                Err(e) => Err(e),
                Ok(()) => Err(BotError::PhaseError),
            }
        },
        Err(e) => Err(e),
    }
}

/// Executes a command: sends the CBW, transfers the data in the direction that
/// the CBW gives, and receives and judges the CSW. The result is the residue
/// that the device reports.
///
/// After a phase error reset recovery is performed.
pub fn execute_command<T: BulkTransport + ?Sized>(
    transport: &mut T,
    cbw: &CommandBlockWrapper,
    data_buf: Option<&mut [u8]>,
) -> (res: Result<u32, BotError>)
    ensures
        old(transport).history().is_prefix_of(final(transport).history()),
        data_buf matches Some(buf) ==> final(buf)@.len() == buf@.len() && exchange(
            cbw@,
            Some(buf@),
            events_since(old(transport).history(), final(transport).history()),
        ) == Some(ExchangeEnd { data: final(buf)@, result: res }),
        data_buf is None ==> exchange(
            cbw@,
            None,
            events_since(old(transport).history(), final(transport).history()),
        ) == Some(ExchangeEnd { data: seq![], result: res }),
{
    let ghost start = transport.history();
    match send_cbw(transport, cbw) {
        Err(e) => {
            return Err(e);
        },
        Ok(()) => {},
    }
    let ghost after_cbw = transport.history();
    let phase = match data_buf {
        Some(buf) => if cbw.data_transfer_length > 0 {
            if cbw.direction_in {
                receive_data(transport, buf, cbw.data_transfer_length as usize)
            } else {
                send_data(transport, buf)
            }
        } else {
            Ok(())
        },
        None => Ok(()),
    };
    let ghost after_data = transport.history();
    proof {
        lemma_joined(start, after_cbw, after_data, after_data);
    }
    match phase {
        Err(e) => {
            return Err(e);
        },
        Ok(()) => {},
    }
    let res = receive_status(transport, cbw.tag);
    proof {
        lemma_joined(start, after_cbw, after_data, transport.history());
    }
    res
}

/// Executes a command that sends `data` to the device. The result is the
/// residue that the device reports.
///
/// This is `execute_command` for data that is only read. Where the CBW announces
/// no data, none is sent. After a phase error reset recovery is performed.
pub fn execute_command_out<T: BulkTransport + ?Sized>(
    transport: &mut T,
    cbw: &CommandBlockWrapper,
    data: &[u8],
) -> (res: Result<u32, BotError>)
    ensures
        old(transport).history().is_prefix_of(final(transport).history()),
        exchange_out(
            cbw@,
            data@,
            events_since(old(transport).history(), final(transport).history()),
        ) == Some(ExchangeEnd { data: data@, result: res }),
{
    let ghost start = transport.history();
    match send_cbw(transport, cbw) {
        Err(e) => {
            return Err(e);
        },
        Ok(()) => {},
    }
    let ghost after_cbw = transport.history();
    let phase = if cbw.data_transfer_length > 0 {
        send_data(transport, data)
    } else {
        Ok(())
    };
    let ghost after_data = transport.history();
    proof {
        lemma_joined(start, after_cbw, after_data, after_data);
    }
    match phase {
        Err(e) => {
            return Err(e);
        },
        Ok(()) => {},
    }
    let res = receive_status(transport, cbw.tag);
    proof {
        lemma_joined(start, after_cbw, after_data, transport.history());
    }
    res
}

/// The record of an exchange: one event for the CBW, then the data phase, then
/// the status phase.
proof fn lemma_joined(
    start: Seq<TransferEvent>,
    after_cbw: Seq<TransferEvent>,
    after_data: Seq<TransferEvent>,
    end: Seq<TransferEvent>,
)
    requires
        start.is_prefix_of(after_cbw),
        after_cbw.len() == start.len() + 1,
        after_cbw.is_prefix_of(after_data),
        after_data.is_prefix_of(end),
    ensures
        start.is_prefix_of(end),
        events_since(start, end).len() > 0,
        events_since(start, end)[0] == after_cbw.last(),
        events_since(start, end).drop_first() == events_since(after_cbw, after_data)
            + events_since(after_data, end),
{
    assert(end.take(after_data.len() as int) =~= after_data);
    assert(after_data.take(after_cbw.len() as int) =~= after_cbw);
    assert(after_cbw.take(start.len() as int) =~= start);
    assert(events_since(start, end).drop_first() =~= events_since(after_cbw, after_data)
        + events_since(after_data, end));
    assert(start.is_prefix_of(end));
}

} // verus!
