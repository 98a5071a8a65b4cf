//! One streaming connection to a pixelflut server.
//!
//! A `PixelConnection` owns at most one socket handle, the address it was
//! opened to, the offset that is added to every coordinate, and a count of
//! the commands it has sent. It never touches the socket itself: the caller
//! opens sockets and writes to them, and tells the connection what came of
//! it. The connection decides what that means.
//!
//! The first connection attempt is final: `create` fails if it failed. A
//! connection that is being re-established, on the other hand, is tried
//! again after every failure, without a pause and without a limit.

use vstd::prelude::*;
use crate::pixel::Pixel;
use crate::transfer::{accepted_total, all_chunks, lemma_chunked_writes_deliver};
use crate::transfer::{Run, SendStep, Transfer, TransferView, WriteOutcome};
use crate::wire::{encode, encoding, wire_command};

verus! {

/// What to do after an attempt to re-establish the connection.
#[derive(Debug, PartialEq, Eq)]
pub enum ReconnectStep<E> {
    /// The new handle is in place; the connection can send again.
    Connected,
    /// The attempt failed with this error; try again at once.
    Retry(E),
}

/// The mathematical state of a connection.
pub struct ConnectionView<H> {
    /// The address that every connection attempt goes to.
    pub address: Seq<char>,
    /// What is added to the coordinates of every pixel.
    pub offset: (u32, u32),
    /// The live socket handle, if there is one.
    pub socket: Option<H>,
    /// How many commands have been sent, counted modulo 2^32.
    pub packets: u32,
}

/// Where a reconnect stands after a series of connection attempts.
pub struct Reconnect<H> {
    /// The state of the connection.
    pub state: ConnectionView<H>,
    /// How many connection attempts were made.
    pub attempts: nat,
    /// Whether the reconnect has returned.
    pub done: bool,
}

/// The count after one more command, modulo 2^32.
pub open spec fn next_count(packets: u32) -> u32 {
    if packets == u32::MAX {
        0
    } else {
        (packets + 1) as u32
    }
}

/// The handle that a connection holds after an attempt: the new one, or none.
pub open spec fn handle_after<H, E>(attempt: Result<H, E>) -> Option<H> {
    match attempt {
        Ok(handle) => Some(handle),
        Err(_) => None,
    }
}

/// The step that answers a connection attempt.
pub open spec fn step_after<H, E>(attempt: Result<H, E>) -> ReconnectStep<E> {
    match attempt {
        Ok(_) => ReconnectStep::Connected,
        Err(e) => ReconnectStep::Retry(e),
    }
}

impl<H> ConnectionView<H> {
    /// Whether the connection holds a socket handle.
    pub open spec fn live(self) -> bool {
        self.socket is Some
    }

    /// Whether the coordinates of a pixel at `(x, y)`, moved by the offset,
    /// still fit in 32 bits.
    pub open spec fn in_range(self, x: u32, y: u32) -> bool {
        self.offset.0 + x <= u32::MAX && self.offset.1 + y <= u32::MAX
    }

    /// The command that sending `pixel` at `(x, y)` puts on the wire, if any:
    /// the encoding of the pixel at the coordinates moved by the offset.
    pub open spec fn command_for(self, x: u32, y: u32, pixel: Pixel) -> Option<Seq<u8>> {
        encoding((self.offset.0 + x) as nat, (self.offset.1 + y) as nat, pixel)
    }

    /// The connection without its handle.
    pub open spec fn dropped(self) -> Self {
        ConnectionView { socket: None, ..self }
    }

    /// The connection after a connection attempt.
    pub open spec fn connected<E>(self, attempt: Result<H, E>) -> Self {
        ConnectionView { socket: handle_after(attempt), ..self }
    }

    /// The connection after one more command was sent.
    pub open spec fn counted(self) -> Self {
        ConnectionView { packets: next_count(self.packets), ..self }
    }

    /// The connection after a write: the count goes up when the write ended
    /// the send in success, and nothing else ever changes.
    pub open spec fn written<E>(self, step: SendStep<E>) -> Self {
        if step is Sent {
            self.counted()
        } else {
            self
        }
    }

    /// The whole send of `pixel` at `(x, y)` against a socket that answers
    /// the successive writes with `outcomes`. A fully transparent pixel is
    /// sent by doing nothing: the send has succeeded before any write.
    pub open spec fn send<E>(
        self,
        x: u32,
        y: u32,
        pixel: Pixel,
        outcomes: Seq<WriteOutcome<E>>,
    ) -> Run<E> {
        match self.command_for(x, y, pixel) {
            None => Run {
                state: TransferView { command: Seq::empty(), sent: 0 },
                writes: 0,
                waits: 0,
                received: Seq::empty(),
                end: Some(Ok(())),
            },
            Some(command) => (TransferView { command, sent: 0 }).run(outcomes),
        }
    }

    /// The attempts of a reconnect that has dropped its handle already.
    pub open spec fn retry<E>(self, attempts: Seq<Result<H, E>>) -> Reconnect<H>
        decreases attempts.len(),
    {
        if attempts.len() == 0 {
            Reconnect { state: self, attempts: 0, done: false }
        } else {
            let state = self.connected(attempts[0]);
            match step_after(attempts[0]) {
                ReconnectStep::Connected => Reconnect { state, attempts: 1, done: true },
                ReconnectStep::Retry(_) => {
                    let rest = state.retry(attempts.skip(1));
                    Reconnect { state: rest.state, attempts: rest.attempts + 1, done: rest.done }
                },
            }
        }
    }

    /// The whole reconnect against a server that answers the successive
    /// connection attempts with `attempts`: the handle is dropped first, then
    /// attempts are made until one succeeds. Attempts behind the first
    /// success are never made.
    pub open spec fn reconnect<E>(self, attempts: Seq<Result<H, E>>) -> Reconnect<H> {
        self.dropped().retry(attempts)
    }
}

/// A connection to one address, with room for one socket handle of type `H`.
pub struct PixelConnection<H> {
    offset: (u32, u32),
    addr: String,
    stream: Option<H>,
    numpkts: u32,
}

impl<H> View for PixelConnection<H> {
    type V = ConnectionView<H>;

    closed spec fn view(&self) -> ConnectionView<H> {
        ConnectionView {
            address: self.addr@,
            offset: self.offset,
            socket: self.stream,
            packets: self.numpkts,
        }
    }
}

impl<H> PixelConnection<H> {
    /// Makes a connection from the outcome of the first connection attempt
    /// to `addr`.
    ///
    /// If the attempt gave a handle, the connection holds it, adds nothing
    /// to the coordinates and has sent nothing. If the attempt failed, so
    /// does `create`, with the same error: the first attempt is not
    /// repeated.
    pub fn create<E>(addr: String, attempt: Result<H, E>) -> (made: Result<PixelConnection<H>, E>)
        ensures
            match attempt {
                Ok(handle) => made matches Ok(connection) && connection@ == (ConnectionView {
                    address: addr@,
                    offset: (0u32, 0u32),
                    socket: Some(handle),
                    packets: 0,
                }),
                Err(error) => made matches Err(e) && e == error,
            },
    {
        match attempt {
            Ok(handle) => Ok(
                PixelConnection { offset: (0, 0), addr, stream: Some(handle), numpkts: 0 },
            ),
            Err(error) => Err(error),
        }
    }

    /// The same connection with `(dx, dy)` added to the coordinates of every
    /// pixel it sends from now on.
    pub fn with_offset(self, dx: u32, dy: u32) -> (moved: PixelConnection<H>)
        ensures
            moved@ == (ConnectionView { offset: (dx, dy), ..self@ }),
    {
        PixelConnection {
            offset: (dx, dy),
            addr: self.addr,
            stream: self.stream,
            numpkts: self.numpkts,
        }
    }

    /// The address that connection attempts go to.
    pub fn address(&self) -> (addr: &str)
        ensures
            addr@ == self@.address,
    {
        self.addr.as_str()
    }

    /// What is added to the coordinates of every pixel.
    pub fn offset(&self) -> (offset: (u32, u32))
        ensures
            offset == self@.offset,
    {
        self.offset
    }

    /// How many commands have been sent, modulo 2^32.
    pub fn packets_sent(&self) -> (count: u32)
        ensures
            count == self@.packets,
    {
        self.numpkts
    }

    /// Whether the connection holds a socket handle.
    pub fn is_live(&self) -> (live: bool)
        ensures
            live == self@.live(),
    {
        self.stream.is_some()
    }

    /// The socket handle to write to, if the connection holds one.
    pub fn socket(&self) -> (handle: Option<&H>)
        ensures
            match handle {
                Some(h) => self@.socket == Some(*h),
                None => self@.socket is None,
            },
    {
        self.stream.as_ref()
    }

    /// Whether a pixel at `(x, y)` can be sent: whether its coordinates,
    /// moved by the offset, still fit in 32 bits.
    pub fn can_send(&self, x: u32, y: u32) -> (fits: bool)
        ensures
            fits == self@.in_range(x, y),
    {
        x <= u32::MAX - self.offset.0 && y <= u32::MAX - self.offset.1
    }

    /// Begins to send `pixel` at `(x, y)`.
    ///
    /// The offset is added to the coordinates and the pixel is encoded. For
    /// a fully transparent pixel there is nothing to write: the result is
    /// `None` and the send is over, successfully. For any other pixel the
    /// result is the transfer of its command, with no byte sent yet.
    pub fn send_pixel(&self, x: u32, y: u32, pixel: Pixel) -> (transfer: Option<Transfer>)
        requires
            self@.in_range(x, y),
        ensures
            pixel.a == 0 <==> transfer is None,
            transfer matches Some(t) ==> t@ == (TransferView {
                command: wire_command(
                    (self@.offset.0 + x) as nat,
                    (self@.offset.1 + y) as nat,
                    pixel,
                ),
                sent: 0,
            }),
            self@.command_for(x, y, pixel) == match transfer {
                Some(t) => Some(t@.command),
                None => None,
            },
    {
        let ox: u32 = self.offset.0 + x;
        let oy: u32 = self.offset.1 + y;
        match encode(ox, oy, pixel) {
            Some(command) => Some(Transfer::new(command)),
            None => None,
        }
    }

    /// Takes note of what the socket answered to a write of
    /// `transfer.pending()` and says what to do next.
    ///
    /// The transfer advances as `Transfer::advance` says. When the write has
    /// ended the send in success, the count of sent commands goes up by one;
    /// otherwise the connection is unchanged. A failure is handed back, not
    /// acted on: the connection keeps its handle until `reconnect` is called.
    pub fn on_write<E>(&mut self, transfer: &mut Transfer, outcome: WriteOutcome<E>) -> (step:
        SendStep<E>)
        ensures
            step == old(transfer)@.step(outcome),
            final(transfer)@ == old(transfer)@.after(outcome),
            final(self)@ == old(self)@.written(step),
    {
        let step = transfer.advance(outcome);
        if let SendStep::Sent = step {
            self.numpkts = self.numpkts.wrapping_add(1);
        }
        step
    }

    /// Begins to re-establish the connection: the current handle, if any, is
    /// dropped, whatever state it is in. Until a connection attempt succeeds
    /// the connection holds no handle.
    pub fn reconnect(&mut self)
        ensures
            final(self)@ == old(self)@.dropped(),
    {
        self.stream = None;
    }

    /// Takes note of the outcome of a connection attempt.
    ///
    /// A new handle replaces whatever the connection held, and the reconnect
    /// is over. After a failed attempt the connection holds no handle and
    /// the next attempt is due at once; the error is handed back for the
    /// caller's log.
    pub fn on_connect<E>(&mut self, attempt: Result<H, E>) -> (step: ReconnectStep<E>)
        ensures
            step == step_after(attempt),
            final(self)@ == old(self)@.connected(attempt),
    {
        match attempt {
            Ok(handle) => {
                self.stream = Some(handle);
                ReconnectStep::Connected
            },
            Err(error) => {
                self.stream = None;
                ReconnectStep::Retry(error)
            },
        }
    }
}

/// A fully transparent pixel is sent without a single write: whatever the
/// socket would answer, the send has succeeded with no write made and no
/// byte on the wire.
pub proof fn lemma_transparent_pixel_writes_nothing<H, E>(
    connection: ConnectionView<H>,
    x: u32,
    y: u32,
    pixel: Pixel,
    outcomes: Seq<WriteOutcome<E>>,
)
    requires
        pixel.a == 0,
    ensures
        connection.command_for(x, y, pixel) is None,
        connection.send(x, y, pixel, outcomes).writes == 0,
        connection.send(x, y, pixel, outcomes).received == Seq::<u8>::empty(),
        connection.send(x, y, pixel, outcomes).end == Some(Ok::<(), E>(())),
{
}

/// A pixel that is not fully transparent goes out as its command, with the
/// offset added to its coordinates: against a socket that takes the bytes in
/// pieces of any sizes, each of at least one byte, the bytes on the wire are
/// that command exactly as soon as the sizes of the pieces add up to its
/// length.
pub proof fn lemma_send_delivers_command<H, E>(
    connection: ConnectionView<H>,
    x: u32,
    y: u32,
    pixel: Pixel,
    outcomes: Seq<WriteOutcome<E>>,
)
    requires
        pixel.a > 0,
        all_chunks(outcomes),
        accepted_total(outcomes) >= wire_command(
            (connection.offset.0 + x) as nat,
            (connection.offset.1 + y) as nat,
            pixel,
        ).len(),
    ensures
        connection.send(x, y, pixel, outcomes).end == Some(Ok::<(), E>(())),
        connection.send(x, y, pixel, outcomes).received == wire_command(
            (connection.offset.0 + x) as nat,
            (connection.offset.1 + y) as nat,
            pixel,
        ),
{
    let command = wire_command(
        (connection.offset.0 + x) as nat,
        (connection.offset.1 + y) as nat,
        pixel,
    );
    let start = TransferView { command, sent: 0 };
    assert(start.pending() =~= command);
    assert(outcomes.len() >= 1) by {
        crate::wire::lemma_command_is_one_line(
            (connection.offset.0 + x) as nat,
            (connection.offset.1 + y) as nat,
            pixel,
        );
    }
    lemma_chunked_writes_deliver(start, outcomes);
}

/// A server that refuses `errors.len()` connection attempts and then accepts
/// one: the reconnect returns after exactly one attempt more than were
/// refused, the connection then holds the handle of the accepted attempt and
/// no other, and its address, offset and count are what they were. Attempts
/// behind the accepted one play no part.
pub proof fn lemma_reconnect_converges<H, E>(
    connection: ConnectionView<H>,
    errors: Seq<E>,
    handle: H,
    behind: Seq<Result<H, E>>,
)
    ensures
        connection.reconnect(
            errors.map_values(|e: E| Err::<H, E>(e)) + seq![Ok::<H, E>(handle)] + behind,
        ) == (Reconnect {
            state: ConnectionView { socket: Some(handle), ..connection },
            attempts: errors.len() + 1,
            done: true,
        }),
    decreases errors.len(),
{
    let attempts = errors.map_values(|e: E| Err::<H, E>(e)) + seq![Ok::<H, E>(handle)] + behind;
    if errors.len() == 0 {
        assert(attempts[0] == Ok::<H, E>(handle));
    } else {
        let fewer = errors.skip(1);
        let rest = fewer.map_values(|e: E| Err::<H, E>(e)) + seq![Ok::<H, E>(handle)] + behind;
        assert(attempts[0] == Err::<H, E>(errors[0]));
        assert(attempts.skip(1) =~= rest);
        lemma_reconnect_converges(connection, fewer, handle, behind);
        assert(connection.dropped().connected(attempts[0]) == connection.dropped());
        assert(connection.dropped().dropped() == connection.dropped());
    }
}

/// As long as every connection attempt is refused, the reconnect goes on:
/// it has made every attempt, has not returned, and the connection holds no
/// handle.
pub proof fn lemma_reconnect_persists<H, E>(connection: ConnectionView<H>, errors: Seq<E>)
    ensures
        connection.reconnect(errors.map_values(|e: E| Err::<H, E>(e))) == (Reconnect {
            state: connection.dropped(),
            attempts: errors.len(),
            done: false,
        }),
    decreases errors.len(),
{
    let attempts = errors.map_values(|e: E| Err::<H, E>(e));
    if errors.len() > 0 {
        let fewer = errors.skip(1);
        assert(attempts[0] == Err::<H, E>(errors[0]));
        assert(attempts.skip(1) =~= fewer.map_values(|e: E| Err::<H, E>(e)));
        lemma_reconnect_persists(connection, fewer);
        assert(connection.dropped().connected(attempts[0]) == connection.dropped());
        assert(connection.dropped().dropped() == connection.dropped());
    }
}

} // verus!
