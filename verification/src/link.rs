//! The way from a device driver to its transport.
//!
//! A `Link` takes the transport's lock for each command and gives it back after
//! it. It keeps account of the exchanges that were made over it, all of them and
//! in order, so that a function that has nothing but a link says in its contract
//! what it sent.
use crate::bot::{
    execute_command, execute_command_out, BotError, BulkTransport, CommandBlockWrapper, TagCounter,
};
use crate::exchange::{events_since, ExchangeEnd};
use crate::lock::{guarded, locked};
use crate::scsi::ScsiCommand;
use crate::session::{all_occurred, command, issued, issued_out, occurred, recorded, Exchange};
use vstd::prelude::*;
use vstd::slice::slice_subrange;

verus! {

/// Access to a transport, command by command.
#[verifier::reject_recursive_types(T)]
pub struct Link<'a, T: BulkTransport> {
    /// The bulk endpoints and control requests of the device.
    transport: &'a spin::Mutex<T>,
    /// Where command tags come from.
    tags: &'a spin::Mutex<TagCounter>,
    /// The exchanges so far.
    log: Ghost<Seq<Exchange>>,
}

/// The CBW for `cmd`, under a tag drawn from `tags`.
pub fn wrap(cmd: &ScsiCommand, block_size: u32, lun: u8, tags: &mut TagCounter) -> (res:
    CommandBlockWrapper)
    requires
        cmd.transfer_length(block_size as int) <= u32::MAX,
    ensures
        res@ == command(*cmd, block_size as int, lun, old(tags).next),
        *final(tags) == old(tags).stepped(),
        res.tag == old(tags).next,
        res.lun == lun,
        res.direction_in <==> !(*cmd is TestUnitReady || *cmd is Write10),
        final(tags).next == if old(tags).next < 0xffff_ffff {
            old(tags).next + 1
        } else {
            0
        },
{
    let (cdb, cdb_len) = cmd.to_cdb();
    let bytes = slice_subrange(cdb.as_slice(), 0, cdb_len as usize);
    assert(bytes@ =~= cmd.cdb());
    CommandBlockWrapper::new(
        bytes,
        cmd.data_transfer_length(block_size),
        cmd.is_data_in(),
        lun,
        tags,
    )
}

/// The exchange that a transport recorded on its way from `before` to `after`.
proof fn witness<T: BulkTransport>(tag: u32, before: T, after: T) -> (x: Exchange)
    requires
        before.history().is_prefix_of(after.history()),
    ensures
        x.tag == tag,
        x.events == events_since(before.history(), after.history()),
        occurred::<T>(x.events),
{
    let x = Exchange { tag, events: events_since(before.history(), after.history()) };
    assert(after.history() =~= before.history() + x.events);
    assert(recorded(before, after, x.events));
    x
}

impl<'a, T: BulkTransport> Link<'a, T> {
    /// The exchanges that were made over this link, in order.
    pub closed spec fn log(self) -> Seq<Exchange> {
        self.log@
    }

    /// Whether each exchange of the log took place on a transport of type `T`.
    pub open spec fn wf(self) -> bool {
        all_occurred::<T>(self.log())
    }

    /// Whether this link is `before`, with further exchanges or none.
    pub open spec fn follows(self, before: Self) -> bool {
        self.wf() && before.log().is_prefix_of(self.log())
    }

    /// The exchanges that were made since `before`: these and no others.
    pub open spec fn since(self, before: Self) -> Seq<Exchange> {
        self.log().skip(before.log().len() as int)
    }

    /// A link over which nothing has been exchanged yet.
    pub fn open(transport: &'a spin::Mutex<T>, tags: &'a spin::Mutex<TagCounter>) -> (res: Self)
        ensures
            res.wf(),
            res.log() == Seq::<Exchange>::empty(),
    {
        Link { transport, tags, log: Ghost(Seq::empty()) }
    }

    /// Executes `cmd` without a data buffer.
    pub fn issue(&mut self, cmd: &ScsiCommand, block_size: u32, lun: u8) -> (res: Result<
        u32,
        BotError,
    >)
        requires
            old(self).wf(),
            cmd.transfer_length(block_size as int) <= u32::MAX,
        ensures
            final(self).follows(*old(self)),
            final(self).since(*old(self)).len() == 1,
            issued(*cmd, block_size as int, lun, None, final(self).since(*old(self))) == Some(
                ExchangeEnd { data: seq![], result: res },
            ),
    {
        let cbw = {
            let mut guard = locked(self.tags);
            wrap(cmd, block_size, lun, guarded(&mut guard))
        };
        let mut guard = locked(self.transport);
        let transport = guarded(&mut guard);
        let ghost before = *transport;
        let res = execute_command(transport, &cbw, None);
        proof {
            let x = witness(cbw.tag, before, *transport);
            reveal(issued);
            self.log@ = self.log@.push(x);
            assert(self.since(*old(self)) =~= seq![x]);
        }
        res
    }

    /// Executes `cmd` with the data buffer `buf`.
    pub fn issue_in(&mut self, cmd: &ScsiCommand, block_size: u32, lun: u8, buf: &mut [u8]) -> (res:
        Result<u32, BotError>)
        requires
            old(self).wf(),
            cmd.transfer_length(block_size as int) <= u32::MAX,
        ensures
            final(buf)@.len() == old(buf)@.len(),
            final(self).follows(*old(self)),
            final(self).since(*old(self)).len() == 1,
            issued(
                *cmd,
                block_size as int,
                lun,
                Some(old(buf)@),
                final(self).since(*old(self)),
            ) == Some(ExchangeEnd { data: final(buf)@, result: res }),
    {
        let cbw = {
            let mut guard = locked(self.tags);
            wrap(cmd, block_size, lun, guarded(&mut guard))
        };
        let mut guard = locked(self.transport);
        let transport = guarded(&mut guard);
        let ghost before = *transport;
        let res = execute_command(transport, &cbw, Some(buf));
        proof {
            let x = witness(cbw.tag, before, *transport);
            reveal(issued);
            self.log@ = self.log@.push(x);
            assert(self.since(*old(self)) =~= seq![x]);
        }
        res
    }

    /// Executes `cmd`, which sends `data`.
    pub fn issue_out(&mut self, cmd: &ScsiCommand, block_size: u32, lun: u8, data: &[u8]) -> (res:
        Result<u32, BotError>)
        requires
            old(self).wf(),
            cmd.transfer_length(block_size as int) <= u32::MAX,
        ensures
            final(self).follows(*old(self)),
            final(self).since(*old(self)).len() == 1,
            issued_out(*cmd, block_size as int, lun, data@, final(self).since(*old(self))) == Some(
                ExchangeEnd { data: data@, result: res },
            ),
    {
        let cbw = {
            let mut guard = locked(self.tags);
            wrap(cmd, block_size, lun, guarded(&mut guard))
        };
        let mut guard = locked(self.transport);
        let transport = guarded(&mut guard);
        let ghost before = *transport;
        let res = execute_command_out(transport, &cbw, data);
        proof {
            let x = witness(cbw.tag, before, *transport);
            reveal(issued_out);
            self.log@ = self.log@.push(x);
            assert(self.since(*old(self)) =~= seq![x]);
        }
        res
    }
}

/// What was made over a link in two parts.
pub proof fn lemma_since_joins<T: BulkTransport>(a: Link<T>, b: Link<T>, c: Link<T>)
    requires
        b.follows(a),
        c.follows(b),
    ensures
        c.follows(a),
        c.since(a) == b.since(a) + c.since(b),
{
    assert(c.log().take(b.log().len() as int) =~= b.log());
    assert(b.log().take(a.log().len() as int) =~= a.log());
    assert(c.since(a) =~= b.since(a) + c.since(b));
    assert(a.log().is_prefix_of(c.log()));
}

} // verus!
