//! What the operating system answers to a write on a non-blocking socket,
//! in the terms of a transfer.
//!
//! A write gives the number of bytes that the socket took, or an error. Of
//! the errors one is no failure: the one that says that the socket could
//! take nothing right now. Every other error ends the send.

use vstd::prelude::*;
use crate::transfer::WriteOutcome;

verus! {

/// `std::io::Error`, the error of a write. It is carried through as it
/// came; the one thing asked of it is whether it is a would-block.
#[verifier::external_type_specification]
#[verifier::external_body]
pub struct ExIoError(std::io::Error);

/// Whether the kind of an error is `ErrorKind::WouldBlock`.
pub uninterp spec fn would_block(error: std::io::Error) -> bool;

/// `std::io::Error::kind`, matched against `ErrorKind::WouldBlock`. The
/// kind of an error depends on the error alone, so asking twice gives the
/// same answer; the contract gives that answer its name and claims nothing
/// more. Which errors are would-blocks is not said here and not proved
/// anywhere.
#[verifier::external_body]
fn is_would_block(error: &std::io::Error) -> (blocked: bool)
    ensures
        blocked == would_block(*error),
{
    matches!(error.kind(), std::io::ErrorKind::WouldBlock)
}

/// The outcome that a failed write stands for, given whether its error is a
/// would-block.
pub open spec fn failure<E>(error: E, blocked: bool) -> WriteOutcome<E> {
    if blocked {
        WriteOutcome::WouldBlock
    } else {
        WriteOutcome::Failed(error)
    }
}

/// The outcome that the result of a write stands for.
pub open spec fn outcome(written: Result<usize, std::io::Error>) -> WriteOutcome<std::io::Error> {
    match written {
        Ok(count) => WriteOutcome::Accepted(count),
        Err(error) => failure(error, would_block(error)),
    }
}

/// Tells what a failed write means for a transfer, once it is known whether
/// its error is a would-block.
///
/// A would-block is no failure: the socket could take nothing right now,
/// and the error is dropped. Any other error is a failure, and is handed on
/// as it came.
pub fn outcome_of_error<E>(error: E, blocked: bool) -> (result: WriteOutcome<E>)
    ensures
        result == failure(error, blocked),
{
    if blocked {
        WriteOutcome::WouldBlock
    } else {
        WriteOutcome::Failed(error)
    }
}

/// Tells what the result of a write means for a transfer.
///
/// A count of bytes is an accepted write, of that many bytes. An error of
/// the kind `WouldBlock` means that the socket could take nothing right now.
/// Any other error is a failure, and is handed on as it came.
pub fn outcome_of(written: Result<usize, std::io::Error>) -> (result: WriteOutcome<std::io::Error>)
    ensures
        result == outcome(written),
        written matches Ok(count) ==> result == WriteOutcome::<std::io::Error>::Accepted(count),
        written matches Err(error) ==> result == (if would_block(error) {
            WriteOutcome::<std::io::Error>::WouldBlock
        } else {
            WriteOutcome::Failed(error)
        }),
{
    match written {
        Ok(count) => WriteOutcome::Accepted(count),
        Err(error) => {
            let blocked: bool = is_would_block(&error);
            outcome_of_error(error, blocked)
        },
    }
}

} // verus!
