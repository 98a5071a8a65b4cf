use pixelstream::transfer::{SendStep, Transfer, WriteOutcome, RETRY_DELAY_MS};

/// A socket that answers each write from a script and keeps what it took.
struct ScriptedSocket {
    script: Vec<WriteOutcome<&'static str>>,
    next: usize,
    received: Vec<u8>,
    writes: usize,
}

impl ScriptedSocket {
    fn new(script: Vec<WriteOutcome<&'static str>>) -> ScriptedSocket {
        ScriptedSocket { script, next: 0, received: Vec::new(), writes: 0 }
    }

    fn write(&mut self, bytes: &[u8]) -> WriteOutcome<&'static str> {
        self.writes += 1;
        let answer = match self.script.get(self.next) {
            Some(WriteOutcome::Accepted(n)) => WriteOutcome::Accepted(*n),
            Some(WriteOutcome::WouldBlock) => WriteOutcome::WouldBlock,
            Some(WriteOutcome::Failed(e)) => WriteOutcome::Failed(*e),
            None => WriteOutcome::Accepted(bytes.len()),
        };
        self.next += 1;
        if let WriteOutcome::Accepted(n) = answer {
            let taken = n.min(bytes.len());
            self.received.extend_from_slice(&bytes[..taken]);
        }
        answer
    }
}

/// Runs a transfer to its end; returns the result and the number of waits.
fn drive(transfer: &mut Transfer, socket: &mut ScriptedSocket) -> (Result<(), &'static str>, usize) {
    let mut waits = 0;
    loop {
        let outcome = socket.write(transfer.pending());
        match transfer.advance(outcome) {
            SendStep::Write => {}
            SendStep::Wait(ms) => {
                assert_eq!(ms, RETRY_DELAY_MS);
                waits += 1;
            }
            SendStep::Sent => return (Ok(()), waits),
            SendStep::Failed(e) => return (Err(e), waits),
        }
    }
}

const COMMAND: &[u8] = b"PX 10 20 ff0000ff\n";

#[test]
fn retry_delay_is_ten_milliseconds() {
    assert_eq!(RETRY_DELAY_MS, 10);
}

#[test]
fn new_transfer_offers_the_whole_command() {
    let transfer = Transfer::new(COMMAND.to_vec());
    assert_eq!(transfer.pending(), COMMAND);
    assert_eq!(transfer.command(), COMMAND);
    assert_eq!(transfer.sent(), 0);
}

#[test]
fn full_write_ends_the_send() {
    let mut transfer = Transfer::new(COMMAND.to_vec());
    let step: SendStep<&'static str> = transfer.advance(WriteOutcome::Accepted(COMMAND.len()));
    assert_eq!(step, SendStep::Sent);
    assert_eq!(transfer.sent(), COMMAND.len());
    assert!(transfer.pending().is_empty());
}

#[test]
fn short_write_moves_the_cursor() {
    let mut transfer = Transfer::new(COMMAND.to_vec());
    let step: SendStep<&'static str> = transfer.advance(WriteOutcome::Accepted(5));
    assert_eq!(step, SendStep::Write);
    assert_eq!(transfer.sent(), 5);
    assert_eq!(transfer.pending(), &COMMAND[5..]);
    let step: SendStep<&'static str> = transfer.advance(WriteOutcome::Accepted(12));
    assert_eq!(step, SendStep::Write);
    assert_eq!(transfer.pending(), b"\n");
    let step: SendStep<&'static str> = transfer.advance(WriteOutcome::Accepted(1));
    assert_eq!(step, SendStep::Sent);
}

#[test]
fn empty_write_is_repeated_at_once() {
    let mut transfer = Transfer::new(COMMAND.to_vec());
    let step: SendStep<&'static str> = transfer.advance(WriteOutcome::Accepted(0));
    assert_eq!(step, SendStep::Write);
    assert_eq!(transfer.sent(), 0);
    assert_eq!(transfer.pending(), COMMAND);
}

#[test]
fn write_of_more_than_offered_ends_the_send() {
    let mut transfer = Transfer::new(COMMAND.to_vec());
    let step: SendStep<&'static str> = transfer.advance(WriteOutcome::Accepted(COMMAND.len() + 7));
    assert_eq!(step, SendStep::Sent);
    assert_eq!(transfer.sent(), COMMAND.len());
}

#[test]
fn would_block_waits_and_moves_nothing() {
    let mut transfer = Transfer::new(COMMAND.to_vec());
    let _: SendStep<&'static str> = transfer.advance(WriteOutcome::Accepted(3));
    let step: SendStep<&'static str> = transfer.advance(WriteOutcome::WouldBlock);
    assert_eq!(step, SendStep::Wait(10));
    assert_eq!(transfer.sent(), 3);
    assert_eq!(transfer.pending(), &COMMAND[3..]);
}

#[test]
fn failure_is_handed_back_as_it_came() {
    let mut transfer = Transfer::new(COMMAND.to_vec());
    let _: SendStep<&'static str> = transfer.advance(WriteOutcome::Accepted(3));
    let step = transfer.advance(WriteOutcome::Failed("connection reset"));
    assert_eq!(step, SendStep::Failed("connection reset"));
    assert_eq!(transfer.sent(), 3);
}

#[test]
fn one_byte_chunks_deliver_the_command() {
    let script = (0..COMMAND.len()).map(|_| WriteOutcome::Accepted(1)).collect();
    let mut socket = ScriptedSocket::new(script);
    let mut transfer = Transfer::new(COMMAND.to_vec());
    let (result, waits) = drive(&mut transfer, &mut socket);
    assert_eq!(result, Ok(()));
    assert_eq!(waits, 0);
    assert_eq!(socket.received, COMMAND);
    assert_eq!(socket.writes, COMMAND.len());
}

#[test]
fn uneven_chunks_deliver_the_command() {
    for sizes in [vec![1usize, 2, 3, 4, 5, 6], vec![17, 1], vec![2, 2, 2, 2, 2, 2, 2, 2, 2], vec![5, 100]] {
        let script = sizes.iter().map(|n| WriteOutcome::Accepted(*n)).collect();
        let mut socket = ScriptedSocket::new(script);
        let mut transfer = Transfer::new(COMMAND.to_vec());
        let (result, waits) = drive(&mut transfer, &mut socket);
        assert_eq!(result, Ok(()));
        assert_eq!(waits, 0);
        assert_eq!(socket.received, COMMAND);
    }
}

#[test]
fn every_split_in_two_delivers_the_command() {
    for first in 1..COMMAND.len() {
        let script = vec![WriteOutcome::Accepted(first), WriteOutcome::Accepted(COMMAND.len() - first)];
        let mut socket = ScriptedSocket::new(script);
        let mut transfer = Transfer::new(COMMAND.to_vec());
        let (result, _) = drive(&mut transfer, &mut socket);
        assert_eq!(result, Ok(()));
        assert_eq!(socket.received, COMMAND);
        assert_eq!(socket.writes, 2);
    }
}

#[test]
fn would_block_is_absorbed() {
    for k in [0usize, 1, 2, 5, 40] {
        let mut script: Vec<WriteOutcome<&'static str>> = Vec::new();
        for _ in 0..k {
            script.push(WriteOutcome::WouldBlock);
        }
        script.push(WriteOutcome::Accepted(COMMAND.len()));
        let mut socket = ScriptedSocket::new(script);
        let mut transfer = Transfer::new(COMMAND.to_vec());
        let (result, waits) = drive(&mut transfer, &mut socket);
        assert_eq!(result, Ok(()));
        assert_eq!(waits, k);
        assert_eq!(socket.writes, k + 1);
        assert_eq!(socket.received, COMMAND);
    }
}

#[test]
fn would_block_between_chunks_loses_nothing() {
    let script = vec![
        WriteOutcome::WouldBlock,
        WriteOutcome::Accepted(4),
        WriteOutcome::WouldBlock,
        WriteOutcome::WouldBlock,
        WriteOutcome::Accepted(0),
        WriteOutcome::Accepted(9),
        WriteOutcome::WouldBlock,
        WriteOutcome::Accepted(5),
    ];
    let mut socket = ScriptedSocket::new(script);
    let mut transfer = Transfer::new(COMMAND.to_vec());
    let (result, waits) = drive(&mut transfer, &mut socket);
    assert_eq!(result, Ok(()));
    assert_eq!(waits, 4);
    assert_eq!(socket.writes, 8);
    assert_eq!(socket.received, COMMAND);
}

#[test]
fn failure_after_partial_write_ends_the_send() {
    let script = vec![
        WriteOutcome::Accepted(4),
        WriteOutcome::WouldBlock,
        WriteOutcome::Failed("broken pipe"),
        WriteOutcome::Accepted(14),
    ];
    let mut socket = ScriptedSocket::new(script);
    let mut transfer = Transfer::new(COMMAND.to_vec());
    let (result, waits) = drive(&mut transfer, &mut socket);
    assert_eq!(result, Err("broken pipe"));
    assert_eq!(waits, 1);
    assert_eq!(socket.writes, 3);
    assert_eq!(socket.received, &COMMAND[..4]);
}

#[test]
fn empty_command_is_sent_by_one_write() {
    let mut transfer = Transfer::new(Vec::new());
    assert!(transfer.pending().is_empty());
    let step: SendStep<&'static str> = transfer.advance(WriteOutcome::Accepted(0));
    assert_eq!(step, SendStep::Sent);
}
