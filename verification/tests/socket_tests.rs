use std::io::{Error, ErrorKind};

use pixelstream::socket::{outcome_of, outcome_of_error};
use pixelstream::transfer::{SendStep, Transfer, WriteOutcome};

#[test]
fn byte_count_is_an_accepted_write() {
    assert!(matches!(outcome_of(Ok(0)), WriteOutcome::Accepted(0)));
    assert!(matches!(outcome_of(Ok(18)), WriteOutcome::Accepted(18)));
    assert!(matches!(outcome_of(Ok(usize::MAX)), WriteOutcome::Accepted(usize::MAX)));
}

#[test]
fn would_block_is_no_failure() {
    let outcome = outcome_of(Err(Error::from(ErrorKind::WouldBlock)));
    assert!(matches!(outcome, WriteOutcome::WouldBlock));
    let outcome = outcome_of(Err(Error::new(ErrorKind::WouldBlock, "buffer full")));
    assert!(matches!(outcome, WriteOutcome::WouldBlock));
}

#[test]
fn other_errors_are_failures() {
    let kinds = [
        ErrorKind::ConnectionReset,
        ErrorKind::ConnectionAborted,
        ErrorKind::BrokenPipe,
        ErrorKind::NotConnected,
        ErrorKind::TimedOut,
        ErrorKind::Interrupted,
        ErrorKind::WriteZero,
        ErrorKind::Other,
    ];
    for kind in kinds {
        match outcome_of(Err(Error::new(kind, "write failed"))) {
            WriteOutcome::Failed(error) => {
                assert_eq!(error.kind(), kind);
                assert_eq!(error.to_string(), "write failed");
            }
            other => panic!("{:?} was taken for {:?}", kind, other),
        }
    }
}

#[test]
fn write_results_drive_a_transfer() {
    let mut transfer = Transfer::new(b"PX 1 2 01020304\n".to_vec());
    let step = transfer.advance(outcome_of(Err(Error::from(ErrorKind::WouldBlock))));
    assert!(matches!(step, SendStep::Wait(10)));
    let step = transfer.advance(outcome_of(Ok(6)));
    assert!(matches!(step, SendStep::Write));
    assert_eq!(transfer.pending(), b" 01020304\n");
    let step = transfer.advance(outcome_of(Err(Error::from(ErrorKind::BrokenPipe))));
    match step {
        SendStep::Failed(error) => assert_eq!(error.kind(), ErrorKind::BrokenPipe),
        other => panic!("unexpected step {:?}", other),
    }
    let mut transfer = Transfer::new(b"PX 1 2 01020304\n".to_vec());
    let step = transfer.advance(outcome_of(Ok(16)));
    assert!(matches!(step, SendStep::Sent));
}

#[test]
fn known_would_block_drops_the_error() {
    assert_eq!(outcome_of_error("buffer full", true), WriteOutcome::WouldBlock);
    assert_eq!(outcome_of_error(11u32, true), WriteOutcome::WouldBlock);
}

#[test]
fn known_failure_keeps_the_error() {
    assert_eq!(outcome_of_error("broken pipe", false), WriteOutcome::Failed("broken pipe"));
    assert_eq!(outcome_of_error(32u32, false), WriteOutcome::Failed(32u32));
}

#[test]
fn error_kind_decides_between_wait_and_failure() {
    let blocked = Error::new(ErrorKind::WouldBlock, "later");
    match outcome_of_error(blocked, true) {
        WriteOutcome::WouldBlock => {}
        other => panic!("unexpected outcome {:?}", other),
    }
    let reset = Error::new(ErrorKind::ConnectionReset, "gone");
    match outcome_of_error(reset, false) {
        WriteOutcome::Failed(error) => assert_eq!(error.kind(), ErrorKind::ConnectionReset),
        other => panic!("unexpected outcome {:?}", other),
    }
}

#[test]
fn same_error_is_read_the_same_way_twice() {
    for kind in [ErrorKind::WouldBlock, ErrorKind::BrokenPipe, ErrorKind::Interrupted] {
        let first = matches!(outcome_of(Err(Error::from(kind))), WriteOutcome::WouldBlock);
        let second = matches!(outcome_of(Err(Error::from(kind))), WriteOutcome::WouldBlock);
        assert_eq!(first, second);
        assert_eq!(first, kind == ErrorKind::WouldBlock);
    }
}
