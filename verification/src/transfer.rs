//! Pushing one command through a non-blocking socket.
//!
//! A write on a non-blocking socket may take all of the bytes offered, some
//! of them, or none because the socket's buffer is full. A `Transfer` keeps
//! the command and the cursor behind the last byte that the socket took. The
//! caller offers `pending()` to the socket, reports what the socket answered
//! and does what the returned step says, until the step is `Sent` or
//! `Failed`.

use vstd::prelude::*;

verus! {

/// How long to wait, in milliseconds, before a write that would have blocked
/// is tried again. The delay is fixed: it does not grow with the number of
/// attempts.
pub const RETRY_DELAY_MS: u64 = 10;

/// What the socket answered to one write.
#[derive(Debug, PartialEq, Eq)]
pub enum WriteOutcome<E> {
    /// The socket took this many of the bytes that were offered.
    Accepted(usize),
    /// The socket could take nothing right now.
    WouldBlock,
    /// The write failed for good.
    Failed(E),
}

/// What to do after a write.
#[derive(Debug, PartialEq, Eq)]
pub enum SendStep<E> {
    /// Offer the pending bytes to the socket at once.
    Write,
    /// Wait this many milliseconds, then offer the pending bytes again.
    Wait(u64),
    /// Every byte of the command has been taken; the send has succeeded.
    Sent,
    /// The send has failed with this error; the command is given up.
    Failed(E),
}

/// The mathematical state of a transfer: the command and how many of its
/// bytes the socket has taken.
pub struct TransferView {
    pub command: Seq<u8>,
    pub sent: nat,
}

/// Where a transfer stands after a series of writes.
pub struct Run<E> {
    /// The state of the transfer.
    pub state: TransferView,
    /// How many writes were made.
    pub writes: nat,
    /// How many times the caller was told to wait.
    pub waits: nat,
    /// The bytes that the socket took, in the order in which it took them.
    pub received: Seq<u8>,
    /// How the send ended, if it has ended.
    pub end: Option<Result<(), E>>,
}

impl TransferView {
    /// The cursor lies within the command.
    pub open spec fn wf(self) -> bool {
        self.sent <= self.command.len()
    }

    /// The bytes that the socket has not taken yet: what the next write
    /// offers.
    pub open spec fn pending(self) -> Seq<u8> {
        self.command.skip(self.sent as int)
    }

    /// How many of the pending bytes a write with this outcome moved into the
    /// socket. A socket cannot take more than it was offered.
    pub open spec fn taken<E>(self, outcome: WriteOutcome<E>) -> nat {
        match outcome {
            WriteOutcome::Accepted(n) => if n < self.pending().len() {
                n as nat
            } else {
                self.pending().len()
            },
            _ => 0,
        }
    }

    /// The step that answers an outcome.
    ///
    /// A write that took fewer bytes than were offered is followed by
    /// another write at once; one that took them all ends the send. A write
    /// that would have blocked is repeated after the fixed delay. Any other
    /// failure ends the send with its error.
    pub open spec fn step<E>(self, outcome: WriteOutcome<E>) -> SendStep<E> {
        match outcome {
            WriteOutcome::Accepted(n) => if n < self.pending().len() {
                SendStep::Write
            } else {
                SendStep::Sent
            },
            WriteOutcome::WouldBlock => SendStep::Wait(RETRY_DELAY_MS),
            WriteOutcome::Failed(e) => SendStep::Failed(e),
        }
    }

    /// The state after an outcome: the cursor has moved past the bytes that
    /// the socket took, and nothing else has changed.
    pub open spec fn after<E>(self, outcome: WriteOutcome<E>) -> TransferView {
        TransferView { command: self.command, sent: self.sent + self.taken(outcome) }
    }

    /// The whole send against a socket that answers the successive writes
    /// with `outcomes`. The run stops at the write that ends the send;
    /// outcomes behind it are never asked for.
    pub open spec fn run<E>(self, outcomes: Seq<WriteOutcome<E>>) -> Run<E>
        decreases outcomes.len(),
    {
        if outcomes.len() == 0 {
            Run { state: self, writes: 0, waits: 0, received: Seq::empty(), end: None }
        } else {
            let first = outcomes[0];
            let got = self.pending().take(self.taken(first) as int);
            match self.step(first) {
                SendStep::Sent => Run {
                    state: self.after(first),
                    writes: 1,
                    waits: 0,
                    received: got,
                    end: Some(Ok(())),
                },
                SendStep::Failed(e) => Run {
                    state: self,
                    writes: 1,
                    waits: 0,
                    received: Seq::empty(),
                    end: Some(Err(e)),
                },
                SendStep::Write => {
                    let rest = self.after(first).run(outcomes.skip(1));
                    Run {
                        state: rest.state,
                        writes: rest.writes + 1,
                        waits: rest.waits,
                        received: got + rest.received,
                        end: rest.end,
                    }
                },
                SendStep::Wait(_) => {
                    let rest = self.run(outcomes.skip(1));
                    Run {
                        state: rest.state,
                        writes: rest.writes + 1,
                        waits: rest.waits + 1,
                        received: rest.received,
                        end: rest.end,
                    }
                },
            }
        }
    }
}

/// The sum of the byte counts of the accepted writes among `outcomes`.
pub open spec fn accepted_total<E>(outcomes: Seq<WriteOutcome<E>>) -> nat
    decreases outcomes.len(),
{
    if outcomes.len() == 0 {
        0
    } else {
        let rest = accepted_total(outcomes.skip(1));
        match outcomes[0] {
            WriteOutcome::Accepted(n) => n as nat + rest,
            _ => rest,
        }
    }
}

/// Whether no write among `outcomes` failed for good.
pub open spec fn no_failure<E>(outcomes: Seq<WriteOutcome<E>>) -> bool {
    forall|i: int| 0 <= i < outcomes.len() ==> !(#[trigger] outcomes[i] is Failed)
}

/// Whether every write among `outcomes` took at least one byte.
pub open spec fn all_chunks<E>(outcomes: Seq<WriteOutcome<E>>) -> bool {
    forall|i: int|
        0 <= i < outcomes.len() ==> (#[trigger] outcomes[i] matches WriteOutcome::Accepted(n)
            && n > 0)
}

/// A socket that would block `count` times in a row.
pub open spec fn would_block_times<E>(count: nat) -> Seq<WriteOutcome<E>> {
    Seq::new(count, |i: int| WriteOutcome::WouldBlock)
}

/// A command in flight: its bytes and the write cursor.
pub struct Transfer {
    command: Vec<u8>,
    cursor: usize,
}

impl View for Transfer {
    type V = TransferView;

    closed spec fn view(&self) -> TransferView {
        TransferView { command: self.command@, sent: self.cursor as nat }
    }
}

impl Transfer {
    #[verifier::type_invariant]
    spec fn cursor_in_command(&self) -> bool {
        self.cursor <= self.command.len()
    }

    /// Starts the transfer of `command` with nothing sent yet.
    pub fn new(command: Vec<u8>) -> (transfer: Transfer)
        ensures
            transfer@ == (TransferView { command: command@, sent: 0 }),
    {
        Transfer { command, cursor: 0 }
    }

    /// The whole command.
    pub fn command(&self) -> (bytes: &[u8])
        ensures
            bytes@ == self@.command,
    {
        self.command.as_slice()
    }

    /// How many bytes of the command the socket has taken.
    pub fn sent(&self) -> (count: usize)
        ensures
            count == self@.sent,
            self@.wf(),
    {
        proof {
            use_type_invariant(self);
        }
        self.cursor
    }

    /// The bytes to offer to the socket: the command from the cursor on.
    pub fn pending(&self) -> (bytes: &[u8])
        ensures
            bytes@ == self@.pending(),
            self@.wf(),
    {
        proof {
            use_type_invariant(self);
        }
        let total: usize = self.command.len();
        vstd::slice::slice_subrange(self.command.as_slice(), self.cursor, total)
    }

    /// Takes note of what the socket answered to a write of `pending()` and
    /// says what to do next.
    ///
    /// After a short write the cursor moves past the bytes that were taken
    /// and the rest is to be written at once. After a write that took
    /// everything the send is over. After a write that would have blocked
    /// nothing moves and the same bytes are to be offered again after
    /// `RETRY_DELAY_MS`. Any other failure is handed back as it came and
    /// nothing moves.
    pub fn advance<E>(&mut self, outcome: WriteOutcome<E>) -> (step: SendStep<E>)
        ensures
            old(self)@.wf(),
            step == old(self)@.step(outcome),
            final(self)@ == old(self)@.after(outcome),
            final(self)@.wf(),
    {
        proof {
            use_type_invariant(&*self);
        }
        let total: usize = self.command.len();
        match outcome {
            WriteOutcome::Accepted(n) => {
                if n < total - self.cursor {
                    self.cursor = self.cursor + n;
                    SendStep::Write
                } else {
                    self.cursor = total;
                    SendStep::Sent
                }
            },
            WriteOutcome::WouldBlock => SendStep::Wait(RETRY_DELAY_MS),
            WriteOutcome::Failed(e) => SendStep::Failed(e),
        }
    }
}

/// Nothing is lost and nothing is sent twice: whatever the socket answers,
/// the bytes it has taken are exactly the bytes of the command between the
/// cursor at the start and the cursor at the end, in order. A send that
/// ends in success has moved the cursor to the end of the command, so a
/// transfer that started at the first byte has delivered the command byte
/// for byte.
pub proof fn lemma_run_conserves_bytes<E>(start: TransferView, outcomes: Seq<WriteOutcome<E>>)
    requires
        start.wf(),
    ensures
        start.run(outcomes).state.command == start.command,
        start.run(outcomes).state.wf(),
        start.sent <= start.run(outcomes).state.sent,
        start.run(outcomes).received == start.command.subrange(
            start.sent as int,
            start.run(outcomes).state.sent as int,
        ),
        start.run(outcomes).end == Some(Ok::<(), E>(())) ==> start.run(outcomes).state.sent
            == start.command.len(),
        start.run(outcomes).end == Some(Ok::<(), E>(())) ==> start.run(outcomes).received
            == start.pending(),
        start.run(outcomes).writes <= outcomes.len(),
        start.run(outcomes).waits <= start.run(outcomes).writes,
    decreases outcomes.len(),
{
    let run = start.run(outcomes);
    if outcomes.len() == 0 {
        assert(run.received =~= start.command.subrange(start.sent as int, start.sent as int));
    } else {
        let first = outcomes[0];
        let tail = outcomes.skip(1);
        let got = start.pending().take(start.taken(first) as int);
        let next = start.after(first);
        assert(got =~= start.command.subrange(start.sent as int, next.sent as int));
        match start.step(first) {
            SendStep::Sent => {
                assert(run.received =~= start.pending());
            },
            SendStep::Failed(e) => {
                assert(run.received =~= start.command.subrange(
                    start.sent as int,
                    start.sent as int,
                ));
            },
            SendStep::Write => {
                lemma_run_conserves_bytes(next, tail);
                let rest = next.run(tail);
                assert(got + rest.received =~= start.command.subrange(
                    start.sent as int,
                    rest.state.sent as int,
                ));
                if run.end == Some(Ok::<(), E>(())) {
                    assert(run.received =~= start.pending());
                }
            },
            SendStep::Wait(_) => {
                lemma_run_conserves_bytes(start, tail);
            },
        }
    }
}

/// A send fails only if a write failed: as long as the socket answers with
/// accepted writes and would-block alone, no error comes back, however often
/// the socket would block. Such a send has ended in success exactly when the
/// socket has accepted at least one write and the accepted counts add up to
/// the number of bytes that were pending.
pub proof fn lemma_run_without_failure<E>(start: TransferView, outcomes: Seq<WriteOutcome<E>>)
    requires
        start.wf(),
        no_failure(outcomes),
    ensures
        !(start.run(outcomes).end matches Some(Err(_))),
        start.run(outcomes).end == Some(Ok::<(), E>(())) <==> (exists|i: int|
            0 <= i < outcomes.len() && #[trigger] outcomes[i] is Accepted) && accepted_total(
            outcomes,
        ) >= start.pending().len(),
        start.run(outcomes).end is None ==> start.run(outcomes).writes == outcomes.len(),
        start.run(outcomes).end is None ==> start.run(outcomes).state.sent == start.sent
            + accepted_total(outcomes),
    decreases outcomes.len(),
{
    if outcomes.len() > 0 {
        let first = outcomes[0];
        let tail = outcomes.skip(1);
        assert(!(first is Failed));
        assert forall|i: int| 0 <= i < tail.len() implies !(#[trigger] tail[i] is Failed) by {
            assert(tail[i] == outcomes[i + 1]);
        }
        match start.step(first) {
            SendStep::Sent => {
                assert(outcomes[0] is Accepted);
            },
            SendStep::Failed(e) => {},
            SendStep::Write => {
                let next = start.after(first);
                lemma_run_without_failure(next, tail);
                assert(outcomes[0] is Accepted);
                assert(next.pending().len() > 0);
                lemma_total_needs_accept(tail);
                if next.run(tail).end == Some(Ok::<(), E>(())) {
                    let i = choose|i: int| 0 <= i < tail.len() && #[trigger] tail[i] is Accepted;
                    assert(outcomes[i + 1] is Accepted);
                }
            },
            SendStep::Wait(_) => {
                lemma_run_without_failure(start, tail);
                if start.run(tail).end == Some(Ok::<(), E>(())) {
                    let i = choose|i: int| 0 <= i < tail.len() && #[trigger] tail[i] is Accepted;
                    assert(outcomes[i + 1] is Accepted);
                }
                if exists|i: int| 0 <= i < outcomes.len() && #[trigger] outcomes[i] is Accepted {
                    let i = choose|i: int|
                        0 <= i < outcomes.len() && #[trigger] outcomes[i] is Accepted;
                    assert(tail[i - 1] is Accepted);
                }
            },
        }
    }
}

/// Bytes are only ever counted for accepted writes.
proof fn lemma_total_needs_accept<E>(outcomes: Seq<WriteOutcome<E>>)
    ensures
        accepted_total(outcomes) > 0 ==> exists|i: int|
            0 <= i < outcomes.len() && #[trigger] outcomes[i] is Accepted,
    decreases outcomes.len(),
{
    if outcomes.len() > 0 && accepted_total(outcomes) > 0 {
        if outcomes[0] is Accepted {
        } else {
            let tail = outcomes.skip(1);
            lemma_total_needs_accept(tail);
            let i = choose|i: int| 0 <= i < tail.len() && #[trigger] tail[i] is Accepted;
            assert(outcomes[i + 1] is Accepted);
        }
    }
}

/// Writes that each take at least one byte take at least as many bytes as
/// there are writes: a socket that never takes nothing has taken any given
/// number of bytes after at most that many writes.
pub proof fn lemma_chunks_add_up<E>(outcomes: Seq<WriteOutcome<E>>)
    requires
        all_chunks(outcomes),
    ensures
        accepted_total(outcomes) >= outcomes.len(),
    decreases outcomes.len(),
{
    if outcomes.len() > 0 {
        let tail = outcomes.skip(1);
        assert forall|i: int| 0 <= i < tail.len() implies (#[trigger] tail[i]
            matches WriteOutcome::Accepted(n) && n > 0) by {
            assert(tail[i] == outcomes[i + 1]);
        }
        lemma_chunks_add_up(tail);
    }
}

/// A socket that takes the bytes in pieces of any sizes, each of at least
/// one byte, has taken the pending bytes exactly, in order, once and no more,
/// as soon as the sizes of the pieces add up to the number of bytes that
/// were pending. The send then has ended in success, without a wait and
/// without an error.
pub proof fn lemma_chunked_writes_deliver<E>(start: TransferView, outcomes: Seq<WriteOutcome<E>>)
    requires
        start.wf(),
        all_chunks(outcomes),
        outcomes.len() >= 1,
        accepted_total(outcomes) >= start.pending().len(),
    ensures
        start.run(outcomes).end == Some(Ok::<(), E>(())),
        start.run(outcomes).received == start.pending(),
        start.run(outcomes).state.sent == start.command.len(),
        start.sent == 0 ==> start.run(outcomes).received == start.command,
        start.run(outcomes).waits == 0,
        start.run(outcomes).writes <= outcomes.len(),
{
    assert(outcomes[0] is Accepted);
    assert(no_failure(outcomes)) by {
        assert forall|i: int| 0 <= i < outcomes.len() implies !(#[trigger] outcomes[i]
            is Failed) by {
            assert(outcomes[i] is Accepted);
        }
    }
    lemma_run_without_failure(start, outcomes);
    lemma_run_conserves_bytes(start, outcomes);
    lemma_chunks_never_wait(start, outcomes);
    if start.sent == 0 {
        assert(start.pending() =~= start.command);
    }
}

/// A send whose writes are all accepted never waits.
proof fn lemma_chunks_never_wait<E>(start: TransferView, outcomes: Seq<WriteOutcome<E>>)
    requires
        all_chunks(outcomes),
    ensures
        start.run(outcomes).waits == 0,
    decreases outcomes.len(),
{
    if outcomes.len() > 0 {
        let tail = outcomes.skip(1);
        assert(outcomes[0] is Accepted);
        assert forall|i: int| 0 <= i < tail.len() implies (#[trigger] tail[i]
            matches WriteOutcome::Accepted(n) && n > 0) by {
            assert(tail[i] == outcomes[i + 1]);
        }
        lemma_chunks_never_wait(start.after(outcomes[0]), tail);
    }
}

/// Would-block is absorbed: a socket that would block `count` times before
/// it answers with `then` leads the send to the same end, the same state and
/// the same bytes received as a socket that answers with `then` at once. The
/// only trace of the blocked writes is `count` more writes and `count`
/// waits.
pub proof fn lemma_would_block_is_absorbed<E>(
    start: TransferView,
    count: nat,
    then: Seq<WriteOutcome<E>>,
)
    ensures
        start.run(would_block_times::<E>(count) + then) == (Run {
            state: start.run(then).state,
            writes: start.run(then).writes + count,
            waits: start.run(then).waits + count,
            received: start.run(then).received,
            end: start.run(then).end,
        }),
    decreases count,
{
    let blocked = would_block_times::<E>(count) + then;
    if count == 0 {
        assert(blocked =~= then);
    } else {
        let fewer = would_block_times::<E>((count - 1) as nat) + then;
        assert(blocked[0] == WriteOutcome::<E>::WouldBlock);
        assert(blocked.skip(1) =~= fewer);
        lemma_would_block_is_absorbed(start, (count - 1) as nat, then);
    }
}

/// A socket that would block exactly `count` times and then takes all that
/// is offered: the send ends in success after `count + 1` writes and `count`
/// waits, with every pending byte delivered and no error.
pub proof fn lemma_send_succeeds_after_would_block<E>(start: TransferView, count: nat, n: usize)
    requires
        start.wf(),
        n >= start.pending().len(),
    ensures
        start.run(would_block_times::<E>(count) + seq![WriteOutcome::<E>::Accepted(n)]) == (Run {
            state: TransferView { command: start.command, sent: start.command.len() },
            writes: count + 1,
            waits: count,
            received: start.pending(),
            end: Some(Ok::<(), E>(())),
        }),
{
    let then = seq![WriteOutcome::<E>::Accepted(n)];
    lemma_would_block_is_absorbed(start, count, then);
    assert(start.run(then).received =~= start.pending());
}

/// The first write that fails for good ends the send with its error: after
/// any run that has not ended, a failed write yields that error and leaves
/// the state as it was.
pub proof fn lemma_failure_ends_send<E>(
    start: TransferView,
    before: Seq<WriteOutcome<E>>,
    error: E,
    behind: Seq<WriteOutcome<E>>,
)
    requires
        start.run(before).end is None,
    ensures
        start.run(before + seq![WriteOutcome::Failed(error)] + behind).end == Some(
            Err::<(), E>(error),
        ),
        start.run(before + seq![WriteOutcome::Failed(error)] + behind).state == start.run(
            before,
        ).state,
        start.run(before + seq![WriteOutcome::Failed(error)] + behind).received == start.run(
            before,
        ).received,
        start.run(before + seq![WriteOutcome::Failed(error)] + behind).writes == start.run(
            before,
        ).writes + 1,
    decreases before.len(),
{
    let all = before + seq![WriteOutcome::Failed(error)] + behind;
    if before.len() == 0 {
        assert(all[0] == WriteOutcome::Failed(error));
        assert(start.run(all).received =~= start.run(before).received);
    } else {
        let first = before[0];
        assert(all[0] == first);
        assert(all.skip(1) =~= before.skip(1) + seq![WriteOutcome::Failed(error)] + behind);
        match start.step(first) {
            SendStep::Sent => {},
            SendStep::Failed(e) => {},
            SendStep::Write => {
                lemma_failure_ends_send(start.after(first), before.skip(1), error, behind);
            },
            SendStep::Wait(_) => {
                lemma_failure_ends_send(start, before.skip(1), error, behind);
            },
        }
    }
}

} // verus!
