use std::collections::VecDeque;
use usb_storage_nostd::bot::{
    execute_command, execute_command_out, reset_recovery, BotError, BulkTransport,
    CommandBlockWrapper, TagCounter,
};

/// What a transport was asked for.
#[derive(Debug, PartialEq)]
enum Call {
    Out(Vec<u8>),
    In(usize),
    Reset,
    ClearHalt(u8),
}

/// A transport that gives prepared answers, in order.
struct Script {
    out_answers: VecDeque<Result<usize, BotError>>,
    in_answers: VecDeque<(Vec<u8>, Result<usize, BotError>)>,
    reset_answer: Option<BotError>,
    halt_answers: VecDeque<Result<(), BotError>>,
    calls: Vec<Call>,
}

impl Script {
    fn new() -> Script {
        Script {
            out_answers: VecDeque::new(),
            in_answers: VecDeque::new(),
            reset_answer: None,
            halt_answers: VecDeque::new(),
            calls: Vec::new(),
        }
    }

    fn out(mut self, answer: Result<usize, BotError>) -> Script {
        self.out_answers.push_back(answer);
        self
    }

    fn data(mut self, bytes: &[u8]) -> Script {
        self.in_answers.push_back((bytes.to_vec(), Ok(bytes.len())));
        self
    }

    fn input(mut self, bytes: &[u8], answer: Result<usize, BotError>) -> Script {
        self.in_answers.push_back((bytes.to_vec(), answer));
        self
    }
}

impl BulkTransport for Script {
    fn bulk_out(&mut self, data: &[u8]) -> Result<usize, BotError> {
        self.calls.push(Call::Out(data.to_vec()));
        self.out_answers.pop_front().unwrap()
    }

    fn bulk_in(&mut self, buf: &mut [u8]) -> Result<usize, BotError> {
        self.calls.push(Call::In(buf.len()));
        let (bytes, answer) = self.in_answers.pop_front().unwrap();
        buf[..bytes.len()].copy_from_slice(&bytes);
        answer
    }

    fn mass_storage_reset(&mut self) -> Result<(), BotError> {
        self.calls.push(Call::Reset);
        match self.reset_answer.take() {
            Some(e) => Err(e),
            None => Ok(()),
        }
    }

    fn clear_halt(&mut self, endpoint: u8) -> Result<(), BotError> {
        self.calls.push(Call::ClearHalt(endpoint));
        self.halt_answers.pop_front().unwrap_or(Ok(()))
    }

    fn bulk_in_endpoint(&mut self) -> u8 {
        0x81
    }

    fn bulk_out_endpoint(&mut self) -> u8 {
        0x02
    }
}

fn cbw(len: u32, direction_in: bool) -> CommandBlockWrapper {
    let mut tags = TagCounter { next: 0x11 };
    CommandBlockWrapper::new(&[0x12, 0, 0, 0, 36, 0], len, direction_in, 0, &mut tags)
}

fn csw(tag: u32, residue: u32, status: u8) -> [u8; 13] {
    let mut b = [0u8; 13];
    b[0..4].copy_from_slice(b"USBS");
    b[4..8].copy_from_slice(&tag.to_le_bytes());
    b[8..12].copy_from_slice(&residue.to_le_bytes());
    b[12] = status;
    b
}

#[test]
fn command_without_data() {
    let c = cbw(0, false);
    let mut t = Script::new().out(Ok(31)).data(&csw(0x11, 5, 0));
    assert!(matches!(execute_command(&mut t, &c, None), Ok(5)));
    assert_eq!(t.calls, vec![Call::Out(c.to_bytes().to_vec()), Call::In(13)]);
}

#[test]
fn no_data_phase_without_announced_data() {
    let c = cbw(0, true);
    let mut buf = [7u8; 4];
    let mut t = Script::new().out(Ok(31)).data(&csw(0x11, 0, 0));
    assert!(matches!(execute_command(&mut t, &c, Some(&mut buf)), Ok(0)));
    assert_eq!(t.calls.len(), 2);
    assert_eq!(buf, [7u8; 4]);
}

#[test]
fn no_data_phase_without_a_buffer() {
    let c = cbw(8, true);
    let mut t = Script::new().out(Ok(31)).data(&csw(0x11, 8, 0));
    assert!(matches!(execute_command(&mut t, &c, None), Ok(8)));
    assert_eq!(t.calls.len(), 2);
}

#[test]
fn data_comes_in_pieces() {
    let c = cbw(6, true);
    let mut buf = [0u8; 6];
    let mut t =
        Script::new().out(Ok(31)).data(&[1, 2]).data(&[3]).data(&[4, 5, 6]).data(&csw(0x11, 0, 0));
    assert!(matches!(execute_command(&mut t, &c, Some(&mut buf)), Ok(0)));
    assert_eq!(buf, [1, 2, 3, 4, 5, 6]);
    assert_eq!(
        t.calls[1..],
        [Call::In(6), Call::In(4), Call::In(3), Call::In(13)]
    );
}

#[test]
fn data_in_ends_with_an_empty_transfer() {
    let c = cbw(6, true);
    let mut buf = [9u8; 6];
    let mut t = Script::new().out(Ok(31)).data(&[1, 2]).data(&[]).data(&csw(0x11, 4, 0));
    assert!(matches!(execute_command(&mut t, &c, Some(&mut buf)), Ok(4)));
    assert_eq!(buf, [1, 2, 9, 9, 9, 9]);
}

#[test]
fn data_in_ends_at_the_announced_length() {
    let c = cbw(4, true);
    let mut buf = [9u8; 6];
    let mut t = Script::new().out(Ok(31)).data(&[1, 2]).data(&[3, 4]).data(&csw(0x11, 0, 0));
    assert!(execute_command(&mut t, &c, Some(&mut buf)).is_ok());
    assert_eq!(buf, [1, 2, 3, 4, 9, 9]);
}

#[test]
fn data_in_that_fails_ends_the_command() {
    let c = cbw(6, true);
    let mut buf = [9u8; 6];
    let mut t = Script::new()
        .out(Ok(31))
        .data(&[1, 2])
        .input(&[3], Err(BotError::DataTransferFailed));
    assert!(matches!(
        execute_command(&mut t, &c, Some(&mut buf)),
        Err(BotError::DataTransferFailed)
    ));
    assert_eq!(buf, [1, 2, 3, 9, 9, 9]);
    assert_eq!(t.calls.len(), 3);
}

#[test]
fn an_answer_beyond_the_buffer_ends_the_data_phase() {
    let c = cbw(6, true);
    let mut buf = [0u8; 3];
    let mut t = Script::new().out(Ok(31)).input(&[1, 2, 3], Ok(usize::MAX)).data(&csw(0x11, 0, 0));
    assert!(execute_command(&mut t, &c, Some(&mut buf)).is_ok());
    assert_eq!(buf, [1, 2, 3]);
    let mut t = Script::new().out(Ok(31)).out(Ok(1)).out(Ok(usize::MAX)).data(&csw(0x11, 0, 0));
    assert!(execute_command_out(&mut t, &cbw(3, false), &buf).is_ok());
    assert_eq!(t.calls.len(), 4);
}

#[test]
fn data_goes_out_in_pieces() {
    let c = cbw(5, false);
    let mut data = [1u8, 2, 3, 4, 5];
    let mut t = Script::new().out(Ok(31)).out(Ok(2)).out(Ok(3)).data(&csw(0x11, 0, 0));
    assert!(matches!(execute_command(&mut t, &c, Some(&mut data)), Ok(0)));
    assert_eq!(
        t.calls[1..],
        [Call::Out(vec![1, 2, 3, 4, 5]), Call::Out(vec![3, 4, 5]), Call::In(13)]
    );
    assert_eq!(data, [1, 2, 3, 4, 5]);
}

#[test]
fn sending_is_the_same_by_either_function() {
    let c = cbw(5, false);
    let mut data = [1u8, 2, 3, 4, 5];
    let mut a = Script::new().out(Ok(31)).out(Ok(2)).out(Ok(0)).data(&csw(0x11, 3, 0));
    let mut b = Script::new().out(Ok(31)).out(Ok(2)).out(Ok(0)).data(&csw(0x11, 3, 0));
    assert!(matches!(execute_command(&mut a, &c, Some(&mut data)), Ok(3)));
    assert!(matches!(execute_command_out(&mut b, &c, &data), Ok(3)));
    assert_eq!(a.calls, b.calls);
}

#[test]
fn nothing_is_sent_where_no_data_is_announced() {
    let c = cbw(0, false);
    let mut t = Script::new().out(Ok(31)).data(&csw(0x11, 0, 0));
    assert!(matches!(execute_command_out(&mut t, &c, &[8, 9]), Ok(0)));
    assert_eq!(t.calls, vec![Call::Out(c.to_bytes().to_vec()), Call::In(13)]);
    let mut data = [8u8, 9];
    let mut u = Script::new().out(Ok(31)).data(&csw(0x11, 0, 0));
    assert!(matches!(execute_command(&mut u, &c, Some(&mut data)), Ok(0)));
    assert_eq!(t.calls, u.calls);
}

#[test]
fn all_data_is_offered_where_some_is_announced() {
    let mut t = Script::new().out(Ok(31)).out(Ok(2)).data(&csw(0x11, 0, 0));
    assert!(execute_command_out(&mut t, &cbw(1, false), &[8, 9]).is_ok());
    assert_eq!(t.calls[1], Call::Out(vec![8, 9]));
    let mut t = Script::new().out(Ok(31)).data(&csw(0x11, 0, 0));
    assert!(execute_command_out(&mut t, &cbw(5, false), &[]).is_ok());
    assert_eq!(t.calls.len(), 2);
}

#[test]
fn data_out_that_fails_ends_the_command() {
    let mut t = Script::new().out(Ok(31)).out(Err(BotError::Timeout));
    assert!(matches!(
        execute_command_out(&mut t, &cbw(2, false), &[8, 9]),
        Err(BotError::Timeout)
    ));
    assert_eq!(t.calls.len(), 2);
}

#[test]
fn cbw_that_does_not_go_out() {
    let mut t = Script::new().out(Ok(30));
    assert!(matches!(
        execute_command(&mut t, &cbw(0, false), None),
        Err(BotError::CbwTransferFailed)
    ));
    assert_eq!(t.calls.len(), 1);
    let mut t = Script::new().out(Err(BotError::Timeout));
    assert!(matches!(
        execute_command_out(&mut t, &cbw(0, false), &[]),
        Err(BotError::Timeout)
    ));
    let mut t = Script::new().out(Ok(32));
    assert!(matches!(
        execute_command_out(&mut t, &cbw(0, false), &[]),
        Err(BotError::CbwTransferFailed)
    ));
}

#[test]
fn csw_that_does_not_come_in() {
    let mut t = Script::new().out(Ok(31)).input(&csw(0x11, 0, 0), Ok(12));
    assert!(matches!(
        execute_command(&mut t, &cbw(0, false), None),
        Err(BotError::CswTransferFailed)
    ));
    let mut t = Script::new().out(Ok(31)).input(&csw(0x11, 0, 0), Err(BotError::ClearHaltFailed));
    assert!(matches!(
        execute_command(&mut t, &cbw(0, false), None),
        Err(BotError::ClearHaltFailed)
    ));
}

#[test]
fn success_needs_the_right_csw() {
    let mut t = Script::new().out(Ok(31)).data(&csw(0x12, 0, 0));
    assert!(matches!(
        execute_command(&mut t, &cbw(0, false), None),
        Err(BotError::CswTagMismatch { expected: 0x11, got: 0x12 })
    ));
    let mut bad = csw(0x11, 0, 0);
    bad[0] = 0;
    let mut t = Script::new().out(Ok(31)).data(&bad);
    assert!(matches!(
        execute_command(&mut t, &cbw(0, false), None),
        Err(BotError::CswSignatureInvalid(0x5342_5300))
    ));
    let mut t = Script::new().out(Ok(31)).data(&csw(0x11, 0, 4));
    assert!(matches!(
        execute_command(&mut t, &cbw(0, false), None),
        Err(BotError::UnknownStatus(4))
    ));
    let mut t = Script::new().out(Ok(31)).data(&csw(0x11, 0, 1));
    assert!(matches!(
        execute_command(&mut t, &cbw(0, false), None),
        Err(BotError::CommandFailed)
    ));
    assert_eq!(t.calls.len(), 2);
}

#[test]
fn phase_error_is_followed_by_recovery() {
    let mut t = Script::new().out(Ok(31)).data(&csw(0x11, 0, 2));
    assert!(matches!(
        execute_command(&mut t, &cbw(0, false), None),
        Err(BotError::PhaseError)
    ));
    assert_eq!(
        t.calls[2..],
        [Call::Reset, Call::ClearHalt(0x81), Call::ClearHalt(0x02)]
    );
    let mut t = Script::new().out(Ok(31)).out(Ok(1)).data(&csw(0x11, 0, 2));
    assert!(matches!(
        execute_command_out(&mut t, &cbw(1, false), &[1]),
        Err(BotError::PhaseError)
    ));
    assert_eq!(t.calls.len(), 6);
}

#[test]
fn failed_recovery_takes_the_place_of_the_phase_error() {
    let mut t = Script::new().out(Ok(31)).data(&csw(0x11, 0, 2));
    t.reset_answer = Some(BotError::ResetFailed);
    assert!(matches!(
        execute_command(&mut t, &cbw(0, false), None),
        Err(BotError::ResetFailed)
    ));
    assert_eq!(t.calls[2..], [Call::Reset]);
}

#[test]
fn recovery_stops_at_the_first_failure() {
    let mut t = Script::new();
    assert!(reset_recovery(&mut t).is_ok());
    assert_eq!(
        t.calls,
        vec![Call::Reset, Call::ClearHalt(0x81), Call::ClearHalt(0x02)]
    );

    let mut t = Script::new();
    t.reset_answer = Some(BotError::Timeout);
    assert!(matches!(reset_recovery(&mut t), Err(BotError::Timeout)));
    assert_eq!(t.calls, vec![Call::Reset]);

    let mut t = Script::new();
    t.halt_answers.push_back(Err(BotError::ClearHaltFailed));
    assert!(matches!(reset_recovery(&mut t), Err(BotError::ClearHaltFailed)));
    assert_eq!(t.calls, vec![Call::Reset, Call::ClearHalt(0x81)]);

    let mut t = Script::new();
    t.halt_answers.push_back(Ok(()));
    t.halt_answers.push_back(Err(BotError::ClearHaltFailed));
    assert!(matches!(reset_recovery(&mut t), Err(BotError::ClearHaltFailed)));
    assert_eq!(
        t.calls,
        vec![Call::Reset, Call::ClearHalt(0x81), Call::ClearHalt(0x02)]
    );
}

#[test]
fn a_transport_behind_a_trait_object() {
    let mut t = Script::new().out(Ok(31)).data(&csw(0x11, 5, 0));
    let object: &mut dyn BulkTransport = &mut t;
    assert!(matches!(execute_command(object, &cbw(0, false), None), Ok(5)));
}
