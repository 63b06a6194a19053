//! The two directions of the serial port.
use crate::feed::numbered;
use crate::payload::content;
use crate::replay::{Chunk, ChunkView, ReplayBuffer, ReplayView, replay_of, retain};
use bytes::Bytes;
use vstd::prelude::*;
use vstd::string::*;

verus! {

/// Why the serial port is lost. Without it there is nothing to multiplex.
pub enum SerialFault {
    /// The port reported the end of its stream.
    Eof,
    /// Reading failed, for this reason.
    Read(String),
    /// Writing failed, for this reason.
    Write(String),
    /// The queue of bytes to write was closed.
    QueueClosed,
}

/// The message for a fault.
pub open spec fn fault_text(fault: SerialFault) -> Seq<char> {
    match fault {
        SerialFault::Eof => "serial port returned EOF"@,
        SerialFault::Read(reason) => "serial read error: "@ + reason@,
        SerialFault::Write(reason) => "serial write error: "@ + reason@,
        SerialFault::QueueClosed => "serial TX channel closed"@,
    }
}

impl SerialFault {
    /// The message for this fault.
    pub fn message(&self) -> (r: String)
        ensures
            r@ == fault_text(*self),
            match *self {
                SerialFault::Eof => r@ == "serial port returned EOF"@,
                SerialFault::Read(reason) => r@ == "serial read error: "@ + reason@,
                SerialFault::Write(reason) => r@ == "serial write error: "@ + reason@,
                SerialFault::QueueClosed => r@ == "serial TX channel closed"@,
            },
    {
        match self {
            SerialFault::Eof => "serial port returned EOF".to_owned(),
            SerialFault::Read(reason) => {
                let mut text = String::new();
                text.append("serial read error: ");
                text.append(reason.as_str());
                assert(text@ =~= "serial read error: "@ + reason@);
                text
            },
            SerialFault::Write(reason) => {
                let mut text = String::new();
                text.append("serial write error: ");
                text.append(reason.as_str());
                assert(text@ =~= "serial write error: "@ + reason@);
                text
            },
            SerialFault::QueueClosed => "serial TX channel closed".to_owned(),
        }
    }
}

/// How a read from the port ended.
pub enum SerialRead<'a> {
    /// These bytes came in; none mean the end of the stream.
    Data(&'a [u8]),
    /// It failed, for this reason.
    Failed(String),
}

/// What to do after a read.
pub enum SerialRxAction {
    /// Send this chunk to all clients, then read on.
    Broadcast(Chunk),
    /// Give up.
    Stop(SerialFault),
}

/// The reading side of the port: it numbers the chunks that come in.
pub struct SerialReader {
    seq: u64,
}

impl View for SerialReader {
    type V = nat;

    /// The number of chunks that came in so far.
    closed spec fn view(&self) -> nat {
        self.seq as nat
    }
}

impl SerialReader {
    /// A reader before its first chunk.
    pub fn new() -> (r: SerialReader)
        ensures
            r@ == 0,
    {
        SerialReader { seq: 0 }
    }

    /// Whether there is a number left for another chunk.
    pub fn can_number(&self) -> (r: bool)
        ensures
            r == (self@ < u64::MAX),
    {
        self.seq < u64::MAX
    }

    /// Takes in the outcome of a read. Bytes become the next chunk, which enters
    /// the replay buffer before it is broadcast: a client that joins in between
    /// then has it twice and can tell, rather than not at all.
    pub fn step(&mut self, replay: &mut ReplayBuffer, read: SerialRead) -> (r: SerialRxAction)
        requires
            read matches SerialRead::Data(data) ==> data@.len() > 0 ==> old(self)@ < u64::MAX,
            old(replay).wf(),
        ensures
            final(replay).wf(),
            match read {
                SerialRead::Data(data) => if data@.len() == 0 {
                    &&& r == SerialRxAction::Stop(SerialFault::Eof)
                    &&& final(self)@ == old(self)@
                    &&& final(replay)@ == old(replay)@
                } else {
                    &&& r matches SerialRxAction::Broadcast(chunk)
                    &&& chunk@ == (ChunkView { seq: old(self)@ + 1, bytes: data@ })
                    &&& final(self)@ == old(self)@ + 1
                    &&& final(replay)@ == ingested(old(replay)@, chunk@)
                    &&& chunk.seq == old(self)@ + 1
                    &&& content(chunk.bytes) == data@
                    &&& final(replay)@.cap == old(replay)@.cap
                    &&& final(replay)@.chunks == retain(
                        old(replay)@.chunks,
                        old(replay)@.cap,
                        ChunkView { seq: old(self)@ + 1, bytes: data@ },
                    )
                },
                SerialRead::Failed(reason) => {
                    &&& r == SerialRxAction::Stop(SerialFault::Read(reason))
                    &&& final(self)@ == old(self)@
                    &&& final(replay)@ == old(replay)@
                },
            },
    {
        match read {
            SerialRead::Data(data) => {
                if data.len() == 0 {
                    return SerialRxAction::Stop(SerialFault::Eof);
                }
                self.seq = self.seq + 1;
                let chunk = Chunk { seq: self.seq, bytes: Bytes::copy_from_slice(data) };
                replay.push(chunk.clone());
                SerialRxAction::Broadcast(chunk)
            },
            SerialRead::Failed(reason) => SerialRxAction::Stop(SerialFault::Read(reason)),
        }
    }
}

/// A replay buffer that takes in a chunk.
pub open spec fn ingested(replay: ReplayView, chunk: ChunkView) -> ReplayView {
    ReplayView { chunks: retain(replay.chunks, replay.cap, chunk), cap: replay.cap }
}

/// What happens on the writing side of the port.
pub enum SerialWrite {
    /// These bytes are next in the queue.
    Queued(Bytes),
    /// The queue was closed.
    Closed,
    /// Writing failed, for this reason.
    Failed(String),
}

/// What the writing side does.
pub enum SerialTxAction {
    /// Write these bytes, all of them, then take the next ones.
    Write(Bytes),
    /// Give up.
    Stop(SerialFault),
}

/// One step of the writing side: what is queued is written verbatim and in
/// order, anything else ends it.
pub fn serial_tx_step(event: SerialWrite) -> (r: SerialTxAction)
    ensures
        match event {
            SerialWrite::Queued(bytes) => r == SerialTxAction::Write(bytes),
            SerialWrite::Closed => r == SerialTxAction::Stop(SerialFault::QueueClosed),
            SerialWrite::Failed(reason) => r == SerialTxAction::Stop(SerialFault::Write(reason)),
        },
{
    match event {
        SerialWrite::Queued(bytes) => SerialTxAction::Write(bytes),
        SerialWrite::Closed => SerialTxAction::Stop(SerialFault::QueueClosed),
        SerialWrite::Failed(reason) => SerialTxAction::Stop(SerialFault::Write(reason)),
    }
}

/// The chunks that successive reads become.
pub open spec fn stream_of(reads: Seq<Seq<u8>>) -> Seq<ChunkView> {
    Seq::new(reads.len(), |i: int| ChunkView { seq: (i + 1) as nat, bytes: reads[i] })
}

/// The state of a reader and its replay buffer after successive reads.
pub open spec fn after_reads(cap: nat, reads: Seq<Seq<u8>>) -> (nat, ReplayView)
    decreases reads.len(),
{
    if reads.len() == 0 {
        (0, ReplayView { chunks: Seq::empty(), cap })
    } else {
        let (seq, replay) = after_reads(cap, reads.drop_last());
        (seq + 1, ingested(replay, ChunkView { seq: seq + 1, bytes: reads.last() }))
    }
}

/// The chunks that go out are numbered from 1, one by one, and the replay buffer
/// is the one that results from pushing exactly them.
pub proof fn law_chunks_are_numbered_and_replayed(cap: nat, reads: Seq<Seq<u8>>)
    ensures
        numbered(stream_of(reads)),
        stream_of(reads).len() == reads.len(),
        forall|i: int|
            0 <= i < reads.len() ==> (#[trigger] stream_of(reads)[i]).seq == i + 1 && stream_of(
                reads,
            )[i].bytes == reads[i],
        after_reads(cap, reads).0 == reads.len(),
        after_reads(cap, reads).1 == (ReplayView {
            chunks: replay_of(cap, stream_of(reads)),
            cap,
        }),
    decreases reads.len(),
{
    if reads.len() > 0 {
        let before = reads.drop_last();
        law_chunks_are_numbered_and_replayed(cap, before);
        assert(stream_of(reads).drop_last() =~= stream_of(before));
    }
}

} // verus!
