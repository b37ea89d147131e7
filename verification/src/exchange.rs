//! What a Bulk-Only Transport exchange looks like on the wire.
//!
//! A transport keeps a record of the requests that were made of it and of its
//! answers. The functions here read such a record and say what the exchange
//! amounts to: which data came in, and which result the host gets. They give
//! `None` for a record that is not the record of one complete exchange.
use crate::bot::{BotError, CbwView, CommandStatusWrapper, CBW_SIZE, CSW_SIZE};
use crate::bytes::{law_values, zeros};
use vstd::prelude::*;

verus! {

/// A request made of a transport, with its answer.
#[allow(inconsistent_fields)]
pub enum TransferEvent {
    /// `data` was handed to the bulk-out endpoint.
    BulkOut { data: Seq<u8>, answer: Result<usize, BotError> },
    /// The buffer `before` was handed to the bulk-in endpoint and came back as
    /// `after`.
    BulkIn { before: Seq<u8>, after: Seq<u8>, answer: Result<usize, BotError> },
    /// A Bulk-Only Mass Storage Reset was requested.
    Reset { answer: Result<(), BotError> },
    /// Clearing HALT on an endpoint was requested.
    ClearHalt { endpoint: u8, answer: Result<(), BotError> },
    /// The bulk-in endpoint was asked for.
    InEndpoint { address: u8 },
    /// The bulk-out endpoint was asked for.
    OutEndpoint { address: u8 },
}

/// The events that `after` holds beyond `before`.
pub open spec fn events_since(before: Seq<TransferEvent>, after: Seq<TransferEvent>) -> Seq<
    TransferEvent,
> {
    after.skip(before.len() as int)
}

/// How the data phase ended: the data buffer, the result, and the events that
/// follow.
pub struct PhaseEnd {
    pub data: Seq<u8>,
    pub result: Result<(), BotError>,
    pub rest: Seq<TransferEvent>,
}

/// How an exchange ended: the data buffer, and the residue that the device
/// reported or the error.
pub struct ExchangeEnd {
    pub data: Seq<u8>,
    pub result: Result<u32, BotError>,
}

/// `at` moved on by `n`, but not beyond `end`.
pub open spec fn moved(at: int, n: int, end: int) -> int {
    if n < end - at {
        at + n
    } else {
        end
    }
}

/// A data-in phase that has reached position `at` of `buf`: the device fills
/// the buffer from there on until the buffer or the announced length `limit`
/// is reached, or until it delivers nothing.
pub open spec fn data_in(buf: Seq<u8>, at: int, limit: int, events: Seq<TransferEvent>) -> Option<
    PhaseEnd,
>
    decreases events.len(),
{
    if at >= buf.len() || at >= limit {
        Some(PhaseEnd { data: buf, result: Ok(()), rest: events })
    } else if events.len() == 0 {
        None
    } else {
        match events[0] {
            TransferEvent::BulkIn { before, after, answer } => if before == buf.skip(at)
                && after.len() == before.len() {
                let filled = buf.take(at) + after;
                match answer {
                    Err(e) => Some(
                        PhaseEnd { data: filled, result: Err(e), rest: events.drop_first() },
                    ),
                    Ok(n) => if n == 0 {
                        Some(PhaseEnd { data: filled, result: Ok(()), rest: events.drop_first() })
                    } else {
                        data_in(
                            filled,
                            moved(at, n as int, buf.len() as int),
                            limit,
                            events.drop_first(),
                        )
                    },
                }
            } else {
                None
            },
            _ => None,
        }
    }
}

/// A data-out phase that has reached position `at` of `data`: the rest of the
/// data is offered until the device has taken all of it or takes nothing.
pub open spec fn data_out(data: Seq<u8>, at: int, events: Seq<TransferEvent>) -> Option<PhaseEnd>
    decreases events.len(),
{
    if at >= data.len() {
        Some(PhaseEnd { data, result: Ok(()), rest: events })
    } else if events.len() == 0 {
        None
    } else {
        match events[0] {
            TransferEvent::BulkOut { data: offered, answer } => if offered == data.skip(at) {
                match answer {
                    Err(e) => Some(PhaseEnd { data, result: Err(e), rest: events.drop_first() }),
                    Ok(n) => if n == 0 {
                        Some(PhaseEnd { data, result: Ok(()), rest: events.drop_first() })
                    } else {
                        data_out(
                            data,
                            moved(at, n as int, data.len() as int),
                            events.drop_first(),
                        )
                    },
                }
            } else {
                None
            },
            _ => None,
        }
    }
}

/// The data phase of `cbw`. There is none where the CBW announces no data, or
/// the host has no buffer for it.
pub open spec fn data_phase(
    cbw: CbwView,
    data: Option<Seq<u8>>,
    events: Seq<TransferEvent>,
) -> Option<PhaseEnd> {
    match data {
        Some(buf) if cbw.data_transfer_length > 0 => if cbw.direction_in {
            data_in(buf, 0, cbw.data_transfer_length as int, events)
        } else {
            data_out(buf, 0, events)
        },
        Some(buf) => Some(PhaseEnd { data: buf, result: Ok(()), rest: events }),
        None => Some(PhaseEnd { data: seq![], result: Ok(()), rest: events }),
    }
}

/// Reset recovery: the reset, then HALT is cleared on the bulk-in and on the
/// bulk-out endpoint. The first request that fails ends it.
pub open spec fn recovery(events: Seq<TransferEvent>) -> Option<Result<(), BotError>> {
    if events.len() == 1 {
        match events[0] {
            TransferEvent::Reset { answer: Err(e) } => Some(Err(e)),
            _ => None,
        }
    } else if events.len() == 3 {
        match (events[0], events[1], events[2]) {
            (
                TransferEvent::Reset { answer: Ok(_) },
                TransferEvent::InEndpoint { address },
                TransferEvent::ClearHalt { endpoint, answer: Err(e) },
            ) => if endpoint == address {
                Some(Err(e))
            } else {
                None
            },
            _ => None,
        }
    } else if events.len() == 5 {
        match (events[0], events[1], events[2], events[3], events[4]) {
            (
                TransferEvent::Reset { answer: Ok(_) },
                TransferEvent::InEndpoint { address: a_in },
                TransferEvent::ClearHalt { endpoint: e_in, answer: Ok(_) },
                TransferEvent::OutEndpoint { address: a_out },
                TransferEvent::ClearHalt { endpoint: e_out, answer },
            ) => if e_in == a_in && e_out == a_out {
                Some(answer)
            } else {
                None
            },
            _ => None,
        }
    } else {
        None
    }
}

/// What a received CSW says about the command with tag `tag`.
pub open spec fn csw_says(csw: Seq<u8>, tag: u32) -> Result<u32, BotError> {
    match CommandStatusWrapper::decoded(csw) {
        Err(e) => Err(e),
        Ok(c) => match c.verdict(tag) {
            Err(e) => Err(e),
            Ok(_) => Ok(c.data_residue),
        },
    }
}

/// The status phase: the CSW is received and judged. A phase error is followed
/// by reset recovery, whose failure takes the place of the phase error.
pub open spec fn status_phase(tag: u32, events: Seq<TransferEvent>) -> Option<
    Result<u32, BotError>,
> {
    if events.len() == 0 {
        None
    } else {
        match events[0] {
            TransferEvent::BulkIn { before, after, answer } => if before == zeros(CSW_SIZE as nat)
                && after.len() == CSW_SIZE {
                let said = match answer {
                    Err(e) => Err(e),
                    Ok(n) => if n == CSW_SIZE {
                        csw_says(after, tag)
                    } else {
                        Err(BotError::CswTransferFailed)
                    },
                };
                if answer is Ok && said == Err::<u32, BotError>(BotError::PhaseError) {
                    match recovery(events.drop_first()) {
                        None => None,
                        Some(Err(e)) => Some(Err(e)),
                        Some(Ok(_)) => Some(Err(BotError::PhaseError)),
                    }
                } else if events.len() == 1 {
                    Some(said)
                } else {
                    None
                }
            } else {
                None
            },
            _ => None,
        }
    }
}

/// What the answer to the transfer of a CBW means.
pub open spec fn cbw_result(answer: Result<usize, BotError>) -> Result<(), BotError> {
    match answer {
        Err(e) => Err(e),
        Ok(n) => if n == CBW_SIZE {
            Ok(())
        } else {
            Err(BotError::CbwTransferFailed)
        },
    }
}

/// An exchange whose data phase ends as `phase`.
pub open spec fn concluded(
    cbw: CbwView,
    data: Seq<u8>,
    events: Seq<TransferEvent>,
    phase: Option<PhaseEnd>,
) -> Option<ExchangeEnd> {
    if events.len() == 0 {
        None
    } else {
        match events[0] {
            TransferEvent::BulkOut { data: sent, answer } => if sent == cbw.encoded() {
                match cbw_result(answer) {
                    Err(e) => if events.len() == 1 {
                        Some(ExchangeEnd { data, result: Err(e) })
                    } else {
                        None
                    },
                    Ok(_) => match phase {
                        None => None,
                        Some(p) => match p.result {
                            Err(e) => if p.rest.len() == 0 {
                                Some(ExchangeEnd { data: p.data, result: Err(e) })
                            } else {
                                None
                            },
                            Ok(_) => match status_phase(cbw.tag, p.rest) {
                                None => None,
                                Some(result) => Some(ExchangeEnd { data: p.data, result }),
                            },
                        },
                    },
                }
            } else {
                None
            },
            _ => None,
        }
    }
}

/// The exchange for `cbw` with the data buffer `data`: the CBW goes out, the
/// data phase follows, and then the status phase.
pub open spec fn exchange(
    cbw: CbwView,
    data: Option<Seq<u8>>,
    events: Seq<TransferEvent>,
) -> Option<ExchangeEnd> {
    concluded(
        cbw,
        match data {
            Some(buf) => buf,
            None => seq![],
        },
        events,
        data_phase(cbw, data, events.drop_first()),
    )
}

/// The data phase of `cbw`, which sends `data`. There is none where the CBW
/// announces no data.
pub open spec fn data_out_phase(
    cbw: CbwView,
    data: Seq<u8>,
    events: Seq<TransferEvent>,
) -> Option<PhaseEnd> {
    if cbw.data_transfer_length > 0 {
        data_out(data, 0, events)
    } else {
        Some(PhaseEnd { data, result: Ok(()), rest: events })
    }
}

/// The exchange for `cbw` that sends `data` to the device.
pub open spec fn exchange_out(
    cbw: CbwView,
    data: Seq<u8>,
    events: Seq<TransferEvent>,
) -> Option<ExchangeEnd> {
    concluded(cbw, data, events, data_out_phase(cbw, data, events.drop_first()))
}

/// A command that sends data is the same exchange by either way of executing it.
pub proof fn law_out_is_an_exchange(cbw: CbwView, data: Seq<u8>, events: Seq<TransferEvent>)
    requires
        !cbw.direction_in,
    ensures
        exchange_out(cbw, data, events) == exchange(cbw, Some(data), events),
{
}

/// A data phase neither grows nor shrinks the data buffer.
proof fn lemma_data_in_keeps_length(
    buf: Seq<u8>,
    at: int,
    limit: int,
    events: Seq<TransferEvent>,
)
    requires
        0 <= at,
        data_in(buf, at, limit, events) is Some,
    ensures
        data_in(buf, at, limit, events)->0.data.len() == buf.len(),
    decreases events.len(),
{
    if at < buf.len() && at < limit {
        match events[0] {
            TransferEvent::BulkIn { before, after, answer: Ok(n) } => if n != 0 {
                lemma_data_in_keeps_length(
                    buf.take(at) + after,
                    moved(at, n as int, buf.len() as int),
                    limit,
                    events.drop_first(),
                );
            },
            _ => {},
        }
    }
}

proof fn lemma_data_out_keeps_data(data: Seq<u8>, at: int, events: Seq<TransferEvent>)
    requires
        data_out(data, at, events) is Some,
    ensures
        data_out(data, at, events)->0.data == data,
    decreases events.len(),
{
    if at < data.len() {
        match events[0] {
            TransferEvent::BulkOut { data: offered, answer: Ok(n) } => if n != 0 {
                lemma_data_out_keeps_data(
                    data,
                    moved(at, n as int, data.len() as int),
                    events.drop_first(),
                );
            },
            _ => {},
        }
    }
}

/// An exchange keeps the length of the data buffer, and leaves a buffer alone
/// that is not to be filled.
pub proof fn law_exchange_keeps_buffer(cbw: CbwView, buf: Seq<u8>, events: Seq<TransferEvent>)
    requires
        exchange(cbw, Some(buf), events) is Some,
    ensures
        exchange(cbw, Some(buf), events)->0.data.len() == buf.len(),
        !cbw.direction_in || cbw.data_transfer_length == 0 ==> exchange(
            cbw,
            Some(buf),
            events,
        )->0.data == buf,
{
    let rest = events.drop_first();
    if cbw.data_transfer_length > 0 {
        if cbw.direction_in {
            if data_in(buf, 0, cbw.data_transfer_length as int, rest) is Some {
                lemma_data_in_keeps_length(buf, 0, cbw.data_transfer_length as int, rest);
            }
        } else {
            if data_out(buf, 0, rest) is Some {
                lemma_data_out_keeps_data(buf, 0, rest);
            }
        }
    }
}

/// The events that the data phase leaves are the last events of the exchange.
proof fn lemma_data_in_leaves_suffix(
    buf: Seq<u8>,
    at: int,
    limit: int,
    events: Seq<TransferEvent>,
)
    requires
        data_in(buf, at, limit, events) is Some,
    ensures
        data_in(buf, at, limit, events)->0.rest.is_suffix_of(events),
    decreases events.len(),
{
    if at < buf.len() && at < limit {
        assert(events.drop_first().is_suffix_of(events));
        match events[0] {
            TransferEvent::BulkIn { before, after, answer: Ok(n) } => if n != 0 {
                lemma_data_in_leaves_suffix(
                    buf.take(at) + after,
                    moved(at, n as int, buf.len() as int),
                    limit,
                    events.drop_first(),
                );
            },
            _ => {},
        }
    }
}

proof fn lemma_data_out_leaves_suffix(data: Seq<u8>, at: int, events: Seq<TransferEvent>)
    requires
        data_out(data, at, events) is Some,
    ensures
        data_out(data, at, events)->0.rest.is_suffix_of(events),
    decreases events.len(),
{
    if at < data.len() {
        assert(events.drop_first().is_suffix_of(events));
        match events[0] {
            TransferEvent::BulkOut { data: offered, answer: Ok(n) } => if n != 0 {
                lemma_data_out_leaves_suffix(
                    data,
                    moved(at, n as int, data.len() as int),
                    events.drop_first(),
                );
            },
            _ => {},
        }
    }
}

/// Whether an exchange's record starts with the complete transfer of the CBW
/// and ends with a CSW that reports success for it and the residue `residue`.
pub open spec fn vouched(cbw: CbwView, events: Seq<TransferEvent>, residue: u32) -> bool {
    &&& events.len() >= 2
    &&& events[0] == TransferEvent::BulkOut { data: cbw.encoded(), answer: Ok(CBW_SIZE) }
    &&& match events.last() {
        TransferEvent::BulkIn { after, answer: Ok(n), .. } => {
            &&& n == CSW_SIZE
            &&& CommandStatusWrapper::decoded(after) == Ok::<CommandStatusWrapper, BotError>(
                CommandStatusWrapper {
                    tag: cbw.tag,
                    data_residue: residue,
                    status: crate::bot::CswStatus::Passed,
                },
            )
        },
        _ => false,
    }
}

proof fn lemma_concluded_is_vouched(
    cbw: CbwView,
    data: Seq<u8>,
    events: Seq<TransferEvent>,
    phase: Option<PhaseEnd>,
    residue: u32,
)
    requires
        concluded(cbw, data, events, phase) is Some,
        concluded(cbw, data, events, phase)->0.result == Ok::<u32, BotError>(residue),
        phase matches Some(p) ==> p.rest.is_suffix_of(events.drop_first()),
    ensures
        vouched(cbw, events, residue),
{
    let p = phase->0;
    assert(status_phase(cbw.tag, p.rest) == Some(Ok::<u32, BotError>(residue)));
    assert(p.rest.len() == 1);
    assert(p.rest.last() == events.last());
}

/// A command succeeds only where the whole CBW went out and the device vouched
/// for it: with a complete CSW that has the right signature, repeats the
/// command's tag and says "passed". The residue is the one that it reports.
pub proof fn law_success_is_vouched(
    cbw: CbwView,
    data: Option<Seq<u8>>,
    events: Seq<TransferEvent>,
    residue: u32,
)
    requires
        exchange(cbw, data, events) matches Some(end) && end.result == Ok::<u32, BotError>(residue),
    ensures
        vouched(cbw, events, residue),
{
    let rest = events.drop_first();
    assert(rest.is_suffix_of(rest));
    match data {
        Some(buf) => if cbw.data_transfer_length > 0 {
            if cbw.direction_in {
                if data_in(buf, 0, cbw.data_transfer_length as int, rest) is Some {
                    lemma_data_in_leaves_suffix(buf, 0, cbw.data_transfer_length as int, rest);
                }
            } else {
                if data_out(buf, 0, rest) is Some {
                    lemma_data_out_leaves_suffix(buf, 0, rest);
                }
            }
        },
        None => {},
    }
    lemma_concluded_is_vouched(
        cbw,
        match data {
            Some(buf) => buf,
            None => seq![],
        },
        events,
        data_phase(cbw, data, rest),
        residue,
    );
}

/// A command that sends data succeeds only where the device vouched for it.
pub proof fn law_out_success_is_vouched(
    cbw: CbwView,
    data: Seq<u8>,
    events: Seq<TransferEvent>,
    residue: u32,
)
    requires
        exchange_out(cbw, data, events) matches Some(end) && end.result == Ok::<u32, BotError>(
            residue,
        ),
    ensures
        vouched(cbw, events, residue),
{
    let rest = events.drop_first();
    assert(rest.is_suffix_of(rest));
    if cbw.data_transfer_length > 0 && data_out(data, 0, rest) is Some {
        lemma_data_out_leaves_suffix(data, 0, rest);
    }
    lemma_concluded_is_vouched(cbw, data, events, data_out_phase(cbw, data, rest), residue);
}

/// Reset recovery is performed exactly where the CSW reports a phase error, and
/// the command then fails: with the phase error where the recovery succeeds,
/// with its error where it does not.
pub proof fn law_recovery_iff_phase_error(tag: u32, events: Seq<TransferEvent>)
    requires
        status_phase(tag, events) is Some,
    ensures
        events.len() > 1 <==> (events[0] matches TransferEvent::BulkIn { after, answer: Ok(n), .. }
            && n == CSW_SIZE && csw_says(after, tag) == Err::<u32, BotError>(BotError::PhaseError)),
        events.len() > 1 ==> match recovery(events.drop_first()) {
            Some(Ok(_)) => status_phase(tag, events) == Some(
                Err::<u32, BotError>(BotError::PhaseError),
            ),
            Some(Err(e)) => status_phase(tag, events) == Some(Err::<u32, BotError>(e)),
            None => false,
        },
{
}

/// The bytes that a device takes of what is offered in a row.
pub open spec fn taken(events: Seq<TransferEvent>) -> Seq<u8>
    decreases events.len(),
{
    if events.len() == 0 {
        seq![]
    } else {
        match events[0] {
            TransferEvent::BulkOut { data, answer: Ok(n) } => data.take(
                moved(0, n as int, data.len() as int),
            ) + taken(events.drop_first()),
            _ => seq![],
        }
    }
}

/// The bytes that a device delivers in a row.
pub open spec fn received(events: Seq<TransferEvent>) -> Seq<u8>
    decreases events.len(),
{
    if events.len() == 0 {
        seq![]
    } else {
        match events[0] {
            TransferEvent::BulkIn { after, answer: Ok(n), .. } => after.take(
                if n < after.len() {
                    n as int
                } else {
                    after.len() as int
                },
            ) + received(events.drop_first()),
            _ => seq![],
        }
    }
}

/// Whether an event is a bulk transfer that moves at least one byte.
pub open spec fn progresses(e: TransferEvent) -> bool {
    match e {
        TransferEvent::BulkOut { answer: Ok(n), .. } => n > 0,
        TransferEvent::BulkIn { answer: Ok(n), .. } => n > 0,
        _ => false,
    }
}

/// Whether an event is a bulk transfer that the device ends with no byte moved.
pub open spec fn is_empty_transfer(e: TransferEvent) -> bool {
    match e {
        TransferEvent::BulkOut { answer: Ok(n), .. } => n == 0,
        TransferEvent::BulkIn { answer: Ok(n), .. } => n == 0,
        _ => false,
    }
}

/// The error that a request was answered with, if it was one.
pub open spec fn answered_error(e: TransferEvent) -> Option<BotError> {
    match e {
        TransferEvent::BulkOut { answer: Err(x), .. } => Some(x),
        TransferEvent::BulkIn { answer: Err(x), .. } => Some(x),
        TransferEvent::Reset { answer: Err(x) } => Some(x),
        TransferEvent::ClearHalt { answer: Err(x), .. } => Some(x),
        _ => None,
    }
}

/// A data-out phase offers, with each transfer, all that has not been taken yet.
/// It goes on while the device takes something, and ends well only where the
/// device has taken all of the data or takes nothing any more; otherwise with the
/// error that the last transfer was answered with.
pub proof fn law_data_out(data: Seq<u8>, at: int, events: Seq<TransferEvent>)
    requires
        0 <= at <= data.len(),
        data_out(data, at, events) is Some,
    ensures
        ({
            let p = data_out(data, at, events)->0;
            let used = events.take(events.len() - p.rest.len());
            &&& p.rest.len() <= events.len()
            &&& p.rest == events.skip(used.len() as int)
            &&& p.data == data
            &&& forall|i: int|
                0 <= i < used.len() ==> (#[trigger] used[i] matches TransferEvent::BulkOut {
                    data: offered,
                    ..
                } && at + taken(used.take(i)).len() < data.len() && offered == data.skip(
                    at + taken(used.take(i)).len(),
                ))
            &&& forall|i: int| 0 <= i < used.len() - 1 ==> progresses(#[trigger] used[i])
            &&& at + taken(used).len() <= data.len()
            &&& taken(used) == data.subrange(at, at + taken(used).len())
            &&& match p.result {
                Ok(_) => at + taken(used).len() == data.len() || used.len() > 0
                    && is_empty_transfer(used.last()),
                Err(e) => used.len() > 0 && answered_error(used.last()) == Some(e),
            }
        }),
    decreases events.len(),
{
    let p = data_out(data, at, events)->0;
    if at >= data.len() {
        assert(events.skip(0) =~= events);
        assert(events.take(0) =~= seq![]);
        assert(data.subrange(at, at) =~= seq![]);
    } else {
        let rest = events.drop_first();
        match events[0] {
            TransferEvent::BulkOut { data: offered, answer } => {
                let one = events.take(1);
                assert(one =~= seq![events[0]]);
                lemma_taken_one(events[0]);
                match answer {
                    Ok(n) if n != 0 => {
                        let next = moved(at, n as int, data.len() as int);
                        law_data_out(data, next, rest);
                        let used = events.take(events.len() - p.rest.len());
                        let later = rest.take(rest.len() - p.rest.len());
                        assert(used.drop_first() =~= later);
                        assert(used[0] == events[0]);
                        assert(events.skip(used.len() as int) =~= rest.skip(later.len() as int));
                        let first = offered.take(moved(0, n as int, offered.len() as int));
                        assert(first =~= data.subrange(at, next));
                        assert(taken(used) =~= data.subrange(at, at + taken(used).len()));
                        assert forall|i: int| 0 <= i < used.len() implies (
                        #[trigger] used[i] matches TransferEvent::BulkOut { data: d, .. } && at
                            + taken(used.take(i)).len() < data.len() && d == data.skip(
                            at + taken(used.take(i)).len(),
                        )) by {
                            if i == 0 {
                                assert(used.take(0) =~= seq![]);
                            } else {
                                assert(used[i] == later[i - 1]);
                                assert(used.take(i).drop_first() =~= later.take(i - 1));
                                assert(used.take(i)[0] == events[0]);
                            }
                        }
                        assert forall|i: int| 0 <= i < used.len() - 1 implies progresses(
                            #[trigger] used[i],
                        ) by {
                            if i > 0 {
                                assert(used[i] == later[i - 1]);
                            }
                        }
                    },
                    _ => {
                        assert(events.take(events.len() - p.rest.len()) =~= one);
                        assert(one.take(0) =~= seq![]);
                        assert(one[0] == events[0]);
                        assert(data.subrange(at, at) =~= taken(one));
                    },
                }
            },
            _ => {},
        }
    }
}

proof fn lemma_taken_one(e: TransferEvent)
    ensures
        match e {
            TransferEvent::BulkOut { data, answer: Ok(n) } => taken(seq![e]) == data.take(
                moved(0, n as int, data.len() as int),
            ),
            _ => taken(seq![e]) == Seq::<u8>::empty(),
        },
{
    reveal_with_fuel(taken, 2);
    assert(seq![e].drop_first() =~= seq![]);
    match e {
        TransferEvent::BulkOut { data, answer: Ok(n) } => {
            let first = data.take(moved(0, n as int, data.len() as int));
            assert(first + Seq::<u8>::empty() =~= first);
        },
        _ => {},
    }
}

/// A data-in phase asks, with each transfer, for all that the buffer has room for.
/// It goes on while the device delivers something, and ends well only where the
/// buffer is full, or as much has come in as was announced, or the device delivers
/// nothing any more; otherwise with the error that the last transfer was answered
/// with. What came in stands in the buffer, one piece behind the other.
#[verifier::rlimit(30)]
pub proof fn law_data_in(buf: Seq<u8>, at: int, limit: int, events: Seq<TransferEvent>)
    requires
        0 <= at <= buf.len(),
        data_in(buf, at, limit, events) is Some,
    ensures
        ({
            let p = data_in(buf, at, limit, events)->0;
            let used = events.take(events.len() - p.rest.len());
            let total = received(used).len();
            &&& p.rest.len() <= events.len()
            &&& p.rest == events.skip(used.len() as int)
            &&& p.data.len() == buf.len()
            &&& p.data.take(at) == buf.take(at)
            &&& forall|i: int|
                0 <= i < used.len() ==> (#[trigger] used[i] matches TransferEvent::BulkIn {
                    before,
                    ..
                } && at + received(used.take(i)).len() < limit && before.len() > 0 && before.len()
                    == buf.len() - (at + received(used.take(i)).len()))
            &&& used.len() > 0 ==> (used[0] matches TransferEvent::BulkIn { before, .. } && before
                == buf.skip(at))
            &&& forall|i: int| 0 <= i < used.len() - 1 ==> progresses(#[trigger] used[i])
            &&& at + total <= buf.len()
            &&& received(used) == p.data.subrange(at, at + total)
            &&& used.len() == 0 ==> p.data == buf
            &&& used.len() > 0 ==> (used.last() matches TransferEvent::BulkIn { after, .. }
                && after.is_suffix_of(p.data))
            &&& match p.result {
                Ok(_) => at + total == buf.len() || at + total >= limit || used.len() > 0
                    && is_empty_transfer(used.last()),
                Err(e) => used.len() > 0 && answered_error(used.last()) == Some(e),
            }
        }),
    decreases events.len(),
{
    let p = data_in(buf, at, limit, events)->0;
    if at >= buf.len() || at >= limit {
        assert(events.skip(0) =~= events);
        assert(events.take(0) =~= seq![]);
        assert(buf.subrange(at, at) =~= seq![]);
    } else {
        let rest = events.drop_first();
        match events[0] {
            TransferEvent::BulkIn { before, after, answer } => {
                let one = events.take(1);
                let filled = buf.take(at) + after;
                assert(one =~= seq![events[0]]);
                lemma_received_one(events[0]);
                assert(filled.take(at) =~= buf.take(at));
                match answer {
                    Ok(n) if n != 0 => {
                        let next = moved(at, n as int, buf.len() as int);
                        law_data_in(filled, next, limit, rest);
                        let used = events.take(events.len() - p.rest.len());
                        let later = rest.take(rest.len() - p.rest.len());
                        assert(used.drop_first() =~= later);
                        assert(used[0] == events[0]);
                        assert(events.skip(used.len() as int) =~= rest.skip(later.len() as int));
                        let first = after.take(next - at);
                        assert(received(used) == first + received(later));
                        assert(p.data.take(next) == filled.take(next));
                        assert(p.data.take(at) =~= p.data.take(next).take(at));
                        assert(filled.take(next).take(at) =~= buf.take(at));
                        assert(p.data.subrange(at, next) =~= p.data.take(next).skip(at));
                        assert(filled.take(next).skip(at) =~= first);
                        let total = received(used).len() as int;
                        assert(received(used) =~= p.data.subrange(at, at + total));
                        assert forall|i: int| 0 <= i < used.len() implies (
                        #[trigger] used[i] matches TransferEvent::BulkIn { before: b, .. } && at
                            + received(used.take(i)).len() < limit && b.len() > 0 && b.len()
                            == buf.len() - (at + received(used.take(i)).len())) by {
                            if i == 0 {
                                assert(used.take(0) =~= seq![]);
                            } else {
                                assert(used[i] == later[i - 1]);
                                assert(used.take(i).drop_first() =~= later.take(i - 1));
                                assert(used.take(i)[0] == events[0]);
                            }
                        }
                        assert forall|i: int| 0 <= i < used.len() - 1 implies progresses(
                            #[trigger] used[i],
                        ) by {
                            if i > 0 {
                                assert(used[i] == later[i - 1]);
                            }
                        }
                        if later.len() == 0 {
                            assert(used.last() == events[0]);
                            assert(after.is_suffix_of(filled)) by {
                                assert(filled.skip(at) =~= after);
                            }
                        } else {
                            assert(used.last() == later.last());
                        }
                    },
                    _ => {
                        assert(events.take(events.len() - p.rest.len()) =~= one);
                        assert(one.take(0) =~= seq![]);
                        assert(one[0] == events[0]);
                        assert(p.data.subrange(at, at) =~= received(one));
                        assert(after.is_suffix_of(filled)) by {
                            assert(filled.skip(at) =~= after);
                        }
                    },
                }
            },
            _ => {},
        }
    }
}

proof fn lemma_received_one(e: TransferEvent)
    ensures
        match e {
            TransferEvent::BulkIn { after, answer: Ok(n), .. } => received(seq![e]) == after.take(
                if n < after.len() {
                    n as int
                } else {
                    after.len() as int
                },
            ),
            _ => received(seq![e]) == Seq::<u8>::empty(),
        },
{
    reveal_with_fuel(received, 2);
    assert(seq![e].drop_first() =~= seq![]);
    match e {
        TransferEvent::BulkIn { after, answer: Ok(n), .. } => {
            let first = after.take(
                if n < after.len() {
                    n as int
                } else {
                    after.len() as int
                },
            );
            assert(first + Seq::<u8>::empty() =~= first);
        },
        _ => {},
    }
}

/// Whether 13 bytes are a status block: they start with its signature, repeat
/// `tag` in the next four, and hold `status` in the last.
pub open spec fn reports(b: Seq<u8>, tag: u32, status: int) -> bool {
    &&& b.len() == 13
    &&& b[0] == 0x55 && b[1] == 0x53 && b[2] == 0x42 && b[3] == 0x53
    &&& tag == b[4] + 0x100 * b[5] + 0x1_0000 * b[6] + 0x100_0000 * b[7]
    &&& b[12] == status
}

/// What a status block says about the command with tag `tag`: it must start with
/// its signature, have a known status and repeat the tag, in this order, and then
/// the status decides. The result of a command that passed is the residue.
pub proof fn law_status_block(b: Seq<u8>, tag: u32)
    requires
        b.len() == 13,
    ensures
        ({
            let signed = b[0] == 0x55 && b[1] == 0x53 && b[2] == 0x42 && b[3] == 0x53;
            let got = b[4] + 0x100 * b[5] + 0x1_0000 * b[6] + 0x100_0000 * b[7];
            let r = csw_says(b, tag);
            &&& !signed ==> (r matches Err(BotError::CswSignatureInvalid(v)) && v == b[0] + 0x100
                * b[1] + 0x1_0000 * b[2] + 0x100_0000 * b[3])
            &&& signed && b[12] > 2 ==> r == Err::<u32, BotError>(BotError::UnknownStatus(b[12]))
            &&& signed && b[12] <= 2 && got != tag ==> (r matches Err(
                BotError::CswTagMismatch { expected, got: g },
            ) && expected == tag && g == got)
            &&& signed && b[12] == 0 && got == tag ==> (r matches Ok(v) && v == b[8] + 0x100 * b[9]
                + 0x1_0000 * b[10] + 0x100_0000 * b[11])
            &&& signed && b[12] == 1 && got == tag ==> r == Err::<u32, BotError>(
                BotError::CommandFailed,
            )
            &&& signed && b[12] == 2 && got == tag ==> r == Err::<u32, BotError>(
                BotError::PhaseError,
            )
        }),
{
    law_values(b.subrange(0, 4));
    law_values(b.subrange(4, 8));
    law_values(b.subrange(8, 12));
}

/// A command succeeds where the device does its part: where all of the CBW goes
/// out, no transfer is answered with an error, and the last one brings a status
/// block that reports success for the command. The result is the residue that
/// stands there.
pub proof fn law_success_is_owed(
    cbw: CbwView,
    data: Option<Seq<u8>>,
    events: Seq<TransferEvent>,
    status: Seq<u8>,
)
    requires
        exchange(cbw, data, events) is Some || exchange_out(cbw, data->0, events) is Some,
        events.len() >= 2,
        events[0] matches TransferEvent::BulkOut { answer: Ok(m), .. } && m == 31,
        forall|i: int| 0 <= i < events.len() ==> answered_error(#[trigger] events[i]) is None,
        events.last() matches TransferEvent::BulkIn { after, answer: Ok(m), .. } && after == status
            && m == 13,
        reports(status, cbw.tag, 0),
    ensures
        exchange(cbw, data, events) is Some ==> (exchange(cbw, data, events)->0.result matches Ok(r)
            && r == status[8] + 0x100 * status[9] + 0x1_0000 * status[10] + 0x100_0000 * status[11]),
        exchange_out(cbw, data->0, events) is Some ==> (exchange_out(
            cbw,
            data->0,
            events,
        )->0.result matches Ok(r) && r == status[8] + 0x100 * status[9] + 0x1_0000 * status[10]
            + 0x100_0000 * status[11]),
{
    let rest = events.drop_first();
    law_status_block(status, cbw.tag);
    if exchange(cbw, data, events) is Some {
        lemma_phase_leaves(cbw, data, rest);
        lemma_status_owed(cbw, rest, data_phase(cbw, data, rest)->0, status);
    }
    if exchange_out(cbw, data->0, events) is Some {
        lemma_out_phase_leaves(cbw, data->0, rest);
        lemma_status_owed(cbw, rest, data_out_phase(cbw, data->0, rest)->0, status);
    }
}

/// What a data phase leaves of the events, and what an error of it comes from.
proof fn lemma_phase_leaves(cbw: CbwView, data: Option<Seq<u8>>, events: Seq<TransferEvent>)
    ensures
        data_phase(cbw, data, events) matches Some(p) ==> {
            &&& p.rest.len() <= events.len()
            &&& p.rest == events.skip(events.len() - p.rest.len())
            &&& p.result matches Err(e) ==> p.rest.len() < events.len() && answered_error(
                events[events.len() - p.rest.len() - 1],
            ) == Some(e)
        },
{
    assert(events.skip(0) =~= events);
    match data {
        Some(buf) => if cbw.data_transfer_length > 0 {
            if cbw.direction_in {
                if data_in(buf, 0, cbw.data_transfer_length as int, events) is Some {
                    law_data_in(buf, 0, cbw.data_transfer_length as int, events);
                }
            } else {
                if data_out(buf, 0, events) is Some {
                    law_data_out(buf, 0, events);
                }
            }
        },
        None => {},
    }
}

proof fn lemma_out_phase_leaves(cbw: CbwView, data: Seq<u8>, events: Seq<TransferEvent>)
    ensures
        data_out_phase(cbw, data, events) matches Some(p) ==> {
            &&& p.rest.len() <= events.len()
            &&& p.rest == events.skip(events.len() - p.rest.len())
            &&& p.result matches Err(e) ==> p.rest.len() < events.len() && answered_error(
                events[events.len() - p.rest.len() - 1],
            ) == Some(e)
        },
{
    assert(events.skip(0) =~= events);
    if cbw.data_transfer_length > 0 && data_out(data, 0, events) is Some {
        law_data_out(data, 0, events);
    }
}

proof fn lemma_status_owed(
    cbw: CbwView,
    events: Seq<TransferEvent>,
    p: PhaseEnd,
    status: Seq<u8>,
)
    requires
        events.len() > 0,
        p.rest.len() <= events.len(),
        p.rest == events.skip(events.len() - p.rest.len()),
        p.result is Ok ==> status_phase(cbw.tag, p.rest) is Some,
        events.last() matches TransferEvent::BulkIn { after, answer: Ok(m), .. } && after == status
            && m == 13,
        csw_says(status, cbw.tag) is Ok,
    ensures
        p.result is Ok ==> status_phase(cbw.tag, p.rest) == Some(csw_says(status, cbw.tag)),
{
    if p.result is Ok {
        assert(p.rest.last() == events.last());
        law_recovery_iff_phase_error(cbw.tag, p.rest);
        if p.rest.len() > 1 {
            assert(p.rest.drop_first().last() == p.rest.last());
        }
    }
}

/// A command fails for a reason: the last request that was made was answered with
/// the error; or the CBW did not go out whole; or the status block did not come in
/// whole, is not one, answers another command, or reports the failure; or it
/// reports a phase error, and reset recovery has followed.
#[verifier::rlimit(30)]
pub proof fn law_failure_has_a_cause(
    cbw: CbwView,
    data: Option<Seq<u8>>,
    events: Seq<TransferEvent>,
    e: BotError,
)
    requires
        (exchange(cbw, data, events) matches Some(end) && end.result == Err::<u32, BotError>(e)) || (
        exchange_out(cbw, data->0, events) matches Some(end) && end.result == Err::<u32, BotError>(
            e,
        )),
    ensures
        events.len() > 0,
        ({
            let last = events.last();
            ||| answered_error(last) == Some(e)
            ||| {
                &&& events.len() == 1
                &&& last matches TransferEvent::BulkOut { answer: Ok(n), .. }
                &&& n != 31
                &&& e is CbwTransferFailed
            }
            ||| {
                &&& last matches TransferEvent::BulkIn { answer: Ok(n), .. }
                &&& n != 13
                &&& e is CswTransferFailed
            }
            ||| {
                &&& last matches TransferEvent::BulkIn { after: b, answer: Ok(n), .. }
                &&& n == 13
                &&& b.len() == 13
                &&& {
                    let signed = b[0] == 0x55 && b[1] == 0x53 && b[2] == 0x42 && b[3] == 0x53;
                    let got = b[4] + 0x100 * b[5] + 0x1_0000 * b[6] + 0x100_0000 * b[7];
                    if !signed {
                        e matches BotError::CswSignatureInvalid(v) && v == b[0] + 0x100 * b[1]
                            + 0x1_0000 * b[2] + 0x100_0000 * b[3]
                    } else if b[12] > 2 {
                        e == BotError::UnknownStatus(b[12])
                    } else if got != cbw.tag {
                        e matches BotError::CswTagMismatch { expected, got: g } && expected
                            == cbw.tag && g == got
                    } else {
                        b[12] == 1 && e is CommandFailed
                    }
                }
            }
            ||| {
                &&& e is PhaseError
                &&& events.len() >= 7
                &&& events[events.len() - 6] matches TransferEvent::BulkIn {
                    after: b,
                    answer: Ok(n),
                    ..
                }
                &&& n == 13
                &&& reports(b, cbw.tag, 2)
                &&& recovered(events.skip(events.len() - 5))
            }
        }),
{
    let rest = events.drop_first();
    let last = events.last();
    match last {
        TransferEvent::BulkIn { after: b, .. } => if b.len() == 13 {
            law_status_block(b, cbw.tag);
        },
        _ => {},
    }
    if events.len() >= 6 {
        match events[events.len() - 6] {
            TransferEvent::BulkIn { after: b, .. } => if b.len() == 13 {
                law_status_block(b, cbw.tag);
            },
            _ => {},
        }
    }
    if exchange(cbw, data, events) matches Some(end) && end.result == Err::<u32, BotError>(e) {
        lemma_phase_leaves(cbw, data, rest);
        let unfilled = match data {
            Some(buf) => buf,
            None => seq![],
        };
        lemma_failure(cbw, unfilled, rest, data_phase(cbw, data, rest), events, e);
    } else {
        lemma_out_phase_leaves(cbw, data->0, rest);
        lemma_failure(cbw, data->0, rest, data_out_phase(cbw, data->0, rest), events, e);
    }
}

/// Whether five events are a reset, and the HALT condition cleared on the bulk-in
/// and then on the bulk-out endpoint, with no error.
pub open spec fn recovered(e: Seq<TransferEvent>) -> bool {
    &&& e.len() == 5
    &&& e[0] matches TransferEvent::Reset { answer: Ok(_) }
    &&& e[1] matches TransferEvent::InEndpoint { address: a }
    &&& e[2] matches TransferEvent::ClearHalt { endpoint: x, answer: Ok(_) }
    &&& e[3] matches TransferEvent::OutEndpoint { address: b }
    &&& e[4] matches TransferEvent::ClearHalt { endpoint: y, answer: Ok(_) }
    &&& x == a
    &&& y == b
}

proof fn lemma_failure(
    cbw: CbwView,
    unfilled: Seq<u8>,
    rest: Seq<TransferEvent>,
    phase: Option<PhaseEnd>,
    events: Seq<TransferEvent>,
    e: BotError,
)
    requires
        events.len() > 0,
        rest == events.drop_first(),
        concluded(cbw, unfilled, events, phase) matches Some(end) && end.result == Err::<
            u32,
            BotError,
        >(e),
        phase matches Some(p) ==> {
            &&& p.rest.len() <= rest.len()
            &&& p.rest == rest.skip(rest.len() - p.rest.len())
            &&& p.result matches Err(x) ==> p.rest.len() < rest.len() && answered_error(
                rest[rest.len() - p.rest.len() - 1],
            ) == Some(x)
        },
    ensures
        ({
            let last = events.last();
            ||| answered_error(last) == Some(e)
            ||| {
                &&& events.len() == 1
                &&& last matches TransferEvent::BulkOut { answer: Ok(n), .. }
                &&& n != 31
                &&& e is CbwTransferFailed
            }
            ||| {
                &&& last matches TransferEvent::BulkIn { answer: Ok(n), .. }
                &&& n != 13
                &&& e is CswTransferFailed
            }
            ||| {
                &&& last matches TransferEvent::BulkIn { after: b, answer: Ok(n), .. }
                &&& n == 13
                &&& b.len() == 13
                &&& csw_says(b, cbw.tag) == Err::<u32, BotError>(e)
                &&& !(e is PhaseError)
            }
            ||| {
                &&& e is PhaseError
                &&& events.len() >= 7
                &&& events[events.len() - 6] matches TransferEvent::BulkIn {
                    after: b,
                    answer: Ok(n),
                    ..
                }
                &&& n == 13
                &&& b.len() == 13
                &&& csw_says(b, cbw.tag) == Err::<u32, BotError>(e)
                &&& recovered(events.skip(events.len() - 5))
            }
        }),
{
    match events[0] {
        TransferEvent::BulkOut { answer, .. } => match cbw_result(answer) {
            Err(_) => {},
            Ok(_) => {
                let p = phase->0;
                if p.result is Err {
                    assert(rest.last() == events.last());
                } else {
                    assert(p.rest.len() > 0);
                    assert(p.rest.last() == events.last());
                    law_recovery_iff_phase_error(cbw.tag, p.rest);
                    if p.rest.len() > 1 {
                        let r = p.rest.drop_first();
                        law_recovery(r);
                        assert(r.last() == events.last());
                        if r.len() == 5 {
                            assert(events.skip(events.len() - 5) =~= r);
                            assert(events[events.len() - 6] == p.rest[0]);
                        }
                    }
                }
            },
        },
        _ => {},
    }
}

/// Reset recovery is a reset, and the HALT condition cleared on the bulk-in and
/// then on the bulk-out endpoint. It succeeds where all of this does, and else ends
/// with the first request that fails and with its error.
pub proof fn law_recovery(events: Seq<TransferEvent>)
    requires
        recovery(events) is Some,
    ensures
        events.len() > 0,
        recovery(events)->0 is Ok <==> recovered(events),
        recovery(events)->0 matches Err(e) ==> {
            &&& answered_error(events.last()) == Some(e)
            &&& forall|i: int|
                0 <= i < events.len() - 1 ==> answered_error(#[trigger] events[i]) is None
            &&& events[0] is Reset
            &&& events.len() > 1 ==> {
                &&& events.len() >= 3
                &&& events[1] matches TransferEvent::InEndpoint { address }
                &&& events[2] matches TransferEvent::ClearHalt { endpoint, .. }
                &&& endpoint == address
            }
            &&& events.len() > 3 ==> {
                &&& events.len() == 5
                &&& events[3] matches TransferEvent::OutEndpoint { address }
                &&& events[4] matches TransferEvent::ClearHalt { endpoint, .. }
                &&& endpoint == address
            }
        },
{
}

/// What a successful command moved: with no data announced, or no buffer for it,
/// nothing; otherwise what the device took or delivered between the CBW and the
/// status block, until all of the data was taken, or the buffer was full or as much
/// came in as was announced, or the device moved nothing any more.
#[verifier::rlimit(30)]
pub proof fn law_successful_exchange(
    cbw: CbwView,
    data: Option<Seq<u8>>,
    events: Seq<TransferEvent>,
)
    requires
        exchange(cbw, data, events) matches Some(end) && end.result is Ok,
    ensures
        events.len() >= 2,
        is_reported(cbw, events, exchange(cbw, data, events)->0.result->Ok_0),
        ({
            let end = exchange(cbw, data, events)->0;
            let middle = events.subrange(1, events.len() - 1);
            let announced = cbw.data_transfer_length as int;
            &&& data is None || announced == 0 ==> events.len() == 2
            &&& announced == 0 && data is Some ==> end.data == data->0
            &&& announced > 0 && data is Some && cbw.direction_in ==> {
                let got = received(middle);
                &&& got.is_prefix_of(end.data)
                &&& end.data.len() == data->0.len()
                &&& got.len() == end.data.len() || got.len() >= announced || middle.len() > 0
                    && is_empty_transfer(middle.last())
                &&& forall|i: int|
                    0 <= i < middle.len() ==> (#[trigger] middle[i] matches TransferEvent::BulkIn {
                        before,
                        ..
                    } && received(middle.take(i)).len() < announced && before.len() > 0
                        && before.len() == end.data.len() - received(middle.take(i)).len())
            }
            &&& announced > 0 && data is Some && !cbw.direction_in ==> {
                &&& end.data == data->0
                &&& sends(middle, data->0)
            }
        }),
{
    let rest = events.drop_first();
    let p = data_phase(cbw, data, rest)->0;
    lemma_phase_leaves(cbw, data, rest);
    lemma_reported(cbw.tag, p.rest);
    assert(p.rest[0] == events.last());
    assert(events.subrange(1, events.len() - 1) =~= rest.take(rest.len() - 1));
    match data {
        Some(buf) => if cbw.data_transfer_length > 0 {
            if cbw.direction_in {
                law_data_in(buf, 0, cbw.data_transfer_length as int, rest);
                let got = received(rest.take(rest.len() - 1));
                assert(p.data.subrange(0, got.len() as int) =~= p.data.take(got.len() as int));
            } else {
                law_data_out(buf, 0, rest);
                lemma_sends(buf, rest);
            }
        },
        None => {},
    }
}

/// Whether a record starts with the CBW, sent whole, and ends with a status block
/// that reports success for it and the residue `residue`.
pub open spec fn is_reported(cbw: CbwView, events: Seq<TransferEvent>, residue: u32) -> bool {
    &&& events[0] matches TransferEvent::BulkOut { data, answer: Ok(m) }
    &&& data == cbw.encoded()
    &&& m == 31
    &&& events.last() matches TransferEvent::BulkIn { after: b, answer: Ok(n), .. }
    &&& n == 13
    &&& reports(b, cbw.tag, 0)
    &&& residue == b[8] + 0x100 * b[9] + 0x1_0000 * b[10] + 0x100_0000 * b[11]
}

proof fn lemma_reported(tag: u32, events: Seq<TransferEvent>)
    requires
        status_phase(tag, events) matches Some(r) && r is Ok,
    ensures
        events.len() == 1,
        events[0] matches TransferEvent::BulkIn { after: b, answer: Ok(n), .. } && n == 13
            && reports(b, tag, 0) && status_phase(tag, events)->0->Ok_0 == b[8] + 0x100 * b[9]
            + 0x1_0000 * b[10] + 0x100_0000 * b[11],
{
    match events[0] {
        TransferEvent::BulkIn { after, .. } => {
            law_status_block(after, tag);
        },
        _ => {},
    }
}

/// Whether the transfers of `middle` send `data`: each offers what has not been
/// taken yet, and in the end all is taken or the last one takes nothing.
pub open spec fn sends(middle: Seq<TransferEvent>, data: Seq<u8>) -> bool {
    &&& taken(middle).is_prefix_of(data)
    &&& taken(middle) == data || middle.len() > 0 && is_empty_transfer(middle.last())
    &&& forall|i: int|
        0 <= i < middle.len() ==> (#[trigger] middle[i] matches TransferEvent::BulkOut {
            data: offered,
            ..
        } && taken(middle.take(i)).len() < data.len() && offered == data.skip(
            taken(middle.take(i)).len() as int,
        ))
}

proof fn lemma_sends(data: Seq<u8>, events: Seq<TransferEvent>)
    requires
        data_out(data, 0, events) matches Some(p) && p.result is Ok && p.rest.len() == 1,
    ensures
        sends(events.take(events.len() - 1), data),
{
    law_data_out(data, 0, events);
    let middle = events.take(events.len() - 1);
    let t = taken(middle);
    assert(data.subrange(0, t.len() as int) =~= data.take(t.len() as int));
    if t.len() == data.len() {
        assert(t =~= data);
    }
}

/// What a successful command that sends `data` moved: nothing where the CBW
/// announces nothing; otherwise the data, until all of it was taken or the device
/// took nothing any more.
pub proof fn law_successful_exchange_out(cbw: CbwView, data: Seq<u8>, events: Seq<TransferEvent>)
    requires
        exchange_out(cbw, data, events) matches Some(end) && end.result is Ok,
    ensures
        events.len() >= 2,
        is_reported(cbw, events, exchange_out(cbw, data, events)->0.result->Ok_0),
        exchange_out(cbw, data, events)->0.data == data,
        cbw.data_transfer_length == 0 ==> events.len() == 2,
        cbw.data_transfer_length > 0 ==> sends(events.subrange(1, events.len() - 1), data),
{
    let rest = events.drop_first();
    lemma_out_phase_leaves(cbw, data, rest);
    lemma_reported(cbw.tag, data_out_phase(cbw, data, rest)->0.rest);
    assert(data_out_phase(cbw, data, rest)->0.rest[0] == events.last());
    assert(events.subrange(1, events.len() - 1) =~= rest.take(rest.len() - 1));
    if cbw.data_transfer_length > 0 {
        law_data_out(data, 0, rest);
        lemma_sends(data, rest);
    }
}

} // verus!
