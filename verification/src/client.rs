//! The reading side of a client, and the writing side of the PTY.
use crate::arbiter::{Arbiter, Verdict};
use crate::payload::{content, tail};
use bytes::Bytes;
use vstd::prelude::*;
use vstd::string::*;

verus! {

/// Why the PTY client ended.
pub enum PtyFault {
    /// Waiting for input failed, for this reason.
    Wait(String),
    /// Reading failed, for this reason.
    Read(String),
    /// The PTY reported the end of its stream.
    Eof,
    /// The queue of bytes for the serial port was closed.
    QueueClosed,
}

/// The message for a fault.
pub open spec fn pty_fault_text(fault: PtyFault) -> Seq<char> {
    match fault {
        PtyFault::Wait(reason) => "pty readable wait: "@ + reason@,
        PtyFault::Read(reason) => "pty read: "@ + reason@,
        PtyFault::Eof => "pty master EOF"@,
        PtyFault::QueueClosed => "serial TX channel closed"@,
    }
}

impl PtyFault {
    /// The message for this fault.
    pub fn message(&self) -> (r: String)
        ensures
            r@ == pty_fault_text(*self),
            match *self {
                PtyFault::Wait(reason) => r@ == "pty readable wait: "@ + reason@,
                PtyFault::Read(reason) => r@ == "pty read: "@ + reason@,
                PtyFault::Eof => r@ == "pty master EOF"@,
                PtyFault::QueueClosed => r@ == "serial TX channel closed"@,
            },
    {
        match self {
            PtyFault::Wait(reason) => {
                let mut text = String::new();
                text.append("pty readable wait: ");
                text.append(reason.as_str());
                assert(text@ =~= "pty readable wait: "@ + reason@);
                text
            },
            PtyFault::Read(reason) => {
                let mut text = String::new();
                text.append("pty read: ");
                text.append(reason.as_str());
                assert(text@ =~= "pty read: "@ + reason@);
                text
            },
            PtyFault::Eof => "pty master EOF".to_owned(),
            PtyFault::QueueClosed => "serial TX channel closed".to_owned(),
        }
    }
}

/// What happens on the reading side of the PTY client.
pub enum PtyRead<'a> {
    /// Waiting for input failed, for this reason.
    WaitFailed(String),
    /// There was no input after all.
    NotReady,
    /// Reading failed, for this reason.
    Failed(String),
    /// These bytes came in; none mean the end of the stream.
    Data(&'a [u8]),
    /// Bytes that were to be forwarded found the queue closed.
    QueueClosed,
}

/// What the reading side of the PTY client does.
pub enum PtyReadAction {
    /// Wait for input again.
    Wait,
    /// Deal with the bytes that came in, then wait for more.
    Submit(Verdict),
    /// Give up.
    Stop(PtyFault),
}

/// One step of the reading side of the PTY client, which has number `id`.
pub fn pty_read_step(arbiter: &mut Arbiter, id: u64, read: PtyRead) -> (r: PtyReadAction)
    requires
        old(arbiter).wf(),
    ensures
        final(arbiter).wf(),
        match read {
            PtyRead::Data(data) => if data@.len() == 0 {
                r == PtyReadAction::Stop(PtyFault::Eof) && final(arbiter)@ == old(arbiter)@
            } else {
                &&& r matches PtyReadAction::Submit(verdict)
                &&& verdict@ == old(arbiter)@.verdict(id, data@)
                &&& final(arbiter)@ == old(arbiter)@.received(id, data@)
            },
            PtyRead::WaitFailed(reason) => {
                &&& r == PtyReadAction::Stop(PtyFault::Wait(reason))
                &&& final(arbiter)@ == old(arbiter)@
            },
            PtyRead::NotReady => r == PtyReadAction::Wait && final(arbiter)@ == old(arbiter)@,
            PtyRead::Failed(reason) => {
                &&& r == PtyReadAction::Stop(PtyFault::Read(reason))
                &&& final(arbiter)@ == old(arbiter)@
            },
            PtyRead::QueueClosed => {
                &&& r == PtyReadAction::Stop(PtyFault::QueueClosed)
                &&& final(arbiter)@ == old(arbiter)@
            },
        },
{
    match read {
        PtyRead::Data(data) => {
            if data.len() == 0 {
                PtyReadAction::Stop(PtyFault::Eof)
            } else {
                PtyReadAction::Submit(arbiter.receive(id, data))
            }
        },
        PtyRead::WaitFailed(reason) => PtyReadAction::Stop(PtyFault::Wait(reason)),
        PtyRead::NotReady => PtyReadAction::Wait,
        PtyRead::Failed(reason) => PtyReadAction::Stop(PtyFault::Read(reason)),
        PtyRead::QueueClosed => PtyReadAction::Stop(PtyFault::QueueClosed),
    }
}

/// What happens on the reading side of a data connection.
pub enum TcpRead<'a> {
    /// Reading failed, for this reason.
    Failed(String),
    /// These bytes came in; none mean that the peer disconnected.
    Data(&'a [u8]),
    /// Bytes that were to be forwarded found the queue closed.
    QueueClosed,
}

/// Why a data connection ended. None of these is an error of the multiplexer.
pub enum TcpEnd {
    /// The peer disconnected.
    Disconnected,
    /// Reading failed, for this reason.
    Failed(String),
    /// The serial side is gone.
    QueueClosed,
}

/// What the reading side of a data connection does.
pub enum TcpReadAction {
    /// Deal with the bytes that came in, then read on.
    Submit(Verdict),
    /// Close the connection.
    Stop(TcpEnd),
}

/// One step of the reading side of the data connection with number `id`.
pub fn tcp_read_step(arbiter: &mut Arbiter, id: u64, read: TcpRead) -> (r: TcpReadAction)
    requires
        old(arbiter).wf(),
    ensures
        final(arbiter).wf(),
        match read {
            TcpRead::Data(data) => if data@.len() == 0 {
                r == TcpReadAction::Stop(TcpEnd::Disconnected) && final(arbiter)@ == old(arbiter)@
            } else {
                &&& r matches TcpReadAction::Submit(verdict)
                &&& verdict@ == old(arbiter)@.verdict(id, data@)
                &&& final(arbiter)@ == old(arbiter)@.received(id, data@)
            },
            TcpRead::Failed(reason) => {
                &&& r == TcpReadAction::Stop(TcpEnd::Failed(reason))
                &&& final(arbiter)@ == old(arbiter)@
            },
            TcpRead::QueueClosed => {
                &&& r == TcpReadAction::Stop(TcpEnd::QueueClosed)
                &&& final(arbiter)@ == old(arbiter)@
            },
        },
{
    match read {
        TcpRead::Data(data) => {
            if data.len() == 0 {
                TcpReadAction::Stop(TcpEnd::Disconnected)
            } else {
                TcpReadAction::Submit(arbiter.receive(id, data))
            }
        },
        TcpRead::Failed(reason) => TcpReadAction::Stop(TcpEnd::Failed(reason)),
        TcpRead::QueueClosed => TcpReadAction::Stop(TcpEnd::QueueClosed),
    }
}

/// How an attempt to write ended.
pub enum WriteEvent {
    /// This many of the remaining bytes were taken.
    Wrote(usize),
    /// There was no room after all.
    NotReady,
    /// It failed.
    Failed,
}

/// What to do next about bytes to write.
#[derive(Clone, Copy, PartialEq, Eq, Structural)]
pub enum WriteAction {
    /// Wait for room and offer what remains.
    Offer,
    /// All bytes were taken.
    Done,
    /// Give up.
    Fail,
}

/// Bytes that are written piece by piece, as the consumer makes room.
pub struct WriteCursor {
    rest: Bytes,
}

impl View for WriteCursor {
    type V = Seq<u8>;

    /// The bytes that remain to be written.
    closed spec fn view(&self) -> Seq<u8> {
        content(self.rest)
    }
}

impl WriteCursor {
    /// A cursor at the start of `bytes`.
    pub fn new(bytes: Bytes) -> (r: WriteCursor)
        ensures
            r@ == content(bytes),
    {
        WriteCursor { rest: bytes }
    }

    /// The bytes that remain to be written.
    pub fn rest(&self) -> (r: &Bytes)
        ensures
            content(*r) == self@,
    {
        &self.rest
    }

    /// What to do at first: there may be nothing to write.
    pub fn start(&self) -> (r: WriteAction)
        ensures
            r == next_write(self@),
            self@.len() > 0 ==> r == WriteAction::Offer,
            self@.len() == 0 ==> r == WriteAction::Done,
    {
        if self.rest.len() == 0 {
            WriteAction::Done
        } else {
            WriteAction::Offer
        }
    }

    /// Takes in the outcome of an attempt to write what remained.
    pub fn step(&mut self, event: WriteEvent) -> (r: WriteAction)
        requires
            event matches WriteEvent::Wrote(n) ==> n <= old(self)@.len(),
        ensures
            match event {
                WriteEvent::Wrote(n) => {
                    &&& final(self)@ == old(self)@.skip(n as int)
                    &&& r == next_write(final(self)@)
                    &&& n < old(self)@.len() ==> r == WriteAction::Offer
                    &&& n == old(self)@.len() ==> r == WriteAction::Done
                },
                WriteEvent::NotReady => r == WriteAction::Offer && final(self)@ == old(self)@,
                WriteEvent::Failed => r == WriteAction::Fail && final(self)@ == old(self)@,
            },
    {
        match event {
            WriteEvent::Wrote(n) => {
                self.rest = tail(&self.rest, n);
                self.start()
            },
            WriteEvent::NotReady => WriteAction::Offer,
            WriteEvent::Failed => WriteAction::Fail,
        }
    }
}

/// Writing goes on while bytes remain.
pub open spec fn next_write(rest: Seq<u8>) -> WriteAction {
    if rest.len() == 0 {
        WriteAction::Done
    } else {
        WriteAction::Offer
    }
}

/// The bytes that remain when pieces of these sizes were taken of `data`.
pub open spec fn unwritten(data: Seq<u8>, sizes: Seq<nat>) -> Seq<u8>
    decreases sizes.len(),
{
    if sizes.len() == 0 {
        data
    } else {
        unwritten(data, sizes.drop_last()).skip(sizes.last() as int)
    }
}

/// The pieces of these sizes that were taken of `data`, one after the other.
pub open spec fn written(data: Seq<u8>, sizes: Seq<nat>) -> Seq<u8>
    decreases sizes.len(),
{
    if sizes.len() == 0 {
        Seq::empty()
    } else {
        written(data, sizes.drop_last()) + unwritten(data, sizes.drop_last()).take(
            sizes.last() as int,
        )
    }
}

/// No piece is larger than what remained when it was taken.
pub open spec fn fitting(data: Seq<u8>, sizes: Seq<nat>) -> bool {
    forall|i: int|
        0 <= i < sizes.len() ==> #[trigger] sizes[i] <= unwritten(data, sizes.take(i)).len()
}

/// Bytes are written once each and in order, however small the pieces: what was
/// written and what remains make up the whole, so once nothing remains, exactly
/// the whole was written.
pub proof fn law_pieces_make_up_the_whole(data: Seq<u8>, sizes: Seq<nat>)
    requires
        forall|i: int|
            0 <= i < sizes.len() ==> #[trigger] sizes[i] <= unwritten(data, sizes.take(i)).len(),
    ensures
        fitting(data, sizes),
        written(data, sizes) + unwritten(data, sizes) == data,
        next_write(unwritten(data, sizes)) is Done <==> written(data, sizes) == data,
        sizes.len() == 0 ==> written(data, sizes).len() == 0,
        sizes.len() > 0 ==> written(data, sizes).len() == written(data, sizes.drop_last()).len()
            + sizes.last(),
    decreases sizes.len(),
{
    if sizes.len() == 0 {
        assert(written(data, sizes) + unwritten(data, sizes) =~= data);
        if data.len() == 0 {
            assert(written(data, sizes) =~= data);
        }
    } else {
        let before = sizes.drop_last();
        assert(sizes.take(sizes.len() - 1) =~= before);
        assert forall|i: int| 0 <= i < before.len() implies #[trigger] before[i] <= unwritten(
            data,
            before.take(i),
        ).len() by {
            assert(before[i] == sizes[i]);
            assert(before.take(i) =~= sizes.take(i));
        }
        law_pieces_make_up_the_whole(data, before);
        let rest = unwritten(data, before);
        assert(sizes[sizes.len() - 1] <= rest.len());
        assert(rest.take(sizes.last() as int) + rest.skip(sizes.last() as int) =~= rest);
        assert(written(data, sizes) + unwritten(data, sizes) =~= written(data, before) + rest);
        if unwritten(data, sizes).len() == 0 {
            assert(written(data, sizes) =~= data);
        }
    }
}

/// Writing goes on as long as bytes remain, however many, and ends exactly when
/// none do: having bytes left is never a reason to give up.
pub proof fn law_writing_goes_on_while_bytes_remain(rest: Seq<u8>)
    ensures
        rest.len() > 0 ==> next_write(rest) == WriteAction::Offer,
        rest.len() == 0 ==> next_write(rest) == WriteAction::Done,
{
}

/// Taking a piece and then another leaves what taking both at once leaves, so
/// the size of the pieces makes no difference to what is still offered.
pub proof fn law_two_pieces_are_one(data: Seq<u8>, sizes: Seq<nat>, first: nat, second: nat)
    requires
        first + second <= unwritten(data, sizes).len(),
    ensures
        unwritten(data, sizes.push(first).push(second)) == unwritten(
            data,
            sizes.push(first + second),
        ),
        unwritten(data, sizes.push(first)) == unwritten(data, sizes).skip(first as int),
        unwritten(data, Seq::empty()) == data,
{
    assert(sizes.push(first).drop_last() =~= sizes);
    assert(sizes.push(first).push(second).drop_last() =~= sizes.push(first));
    assert(sizes.push(first + second).drop_last() =~= sizes);
    let rest = unwritten(data, sizes);
    let after = unwritten(data, sizes.push(first));
    assert(after == rest.skip(first as int));
    assert(unwritten(data, sizes.push(first).push(second)) == after.skip(second as int));
    assert(unwritten(data, sizes.push(first + second)) == rest.skip((first + second) as int));
    assert(rest.skip(first as int).skip(second as int) =~= rest.skip((first + second) as int));
}

} // verus!
