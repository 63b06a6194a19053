//! The replay buffer: a bounded, rolling copy of recent serial output.
use crate::payload::{content, tail};
use bytes::Bytes;
use std::collections::VecDeque;
use vstd::prelude::*;

verus! {

/// One chunk of serial output, numbered so that a client which took a copy of
/// the replay buffer can skip the live chunks that it already has.
pub struct Chunk {
    pub seq: u64,
    pub bytes: Bytes,
}

/// What a [`Chunk`] is: its number and its bytes.
#[verifier::ext_equal]
pub struct ChunkView {
    pub seq: nat,
    pub bytes: Seq<u8>,
}

impl View for Chunk {
    type V = ChunkView;

    open spec fn view(&self) -> ChunkView {
        ChunkView { seq: self.seq as nat, bytes: content(self.bytes) }
    }
}

impl Clone for Chunk {
    /// Another handle on the same chunk.
    fn clone(&self) -> (r: Chunk)
        ensures
            r@ == self@,
            r.seq == self.seq,
            content(r.bytes) == content(self.bytes),
    {
        Chunk { seq: self.seq, bytes: self.bytes.clone() }
    }
}

/// The bytes of a run of chunks, oldest first.
pub open spec fn joined(chunks: Seq<ChunkView>) -> Seq<u8>
    decreases chunks.len(),
{
    if chunks.len() == 0 {
        Seq::empty()
    } else {
        joined(chunks.drop_last()) + chunks.last().bytes
    }
}

/// `chunks` without as many of the oldest as it takes for the others to hold
/// at most `room` bytes together.
pub open spec fn drop_oldest(chunks: Seq<ChunkView>, room: int) -> Seq<ChunkView>
    decreases chunks.len(),
{
    if chunks.len() == 0 || joined(chunks).len() <= room {
        chunks
    } else {
        drop_oldest(chunks.drop_first(), room)
    }
}

/// `chunk` cut down to its last `cap` bytes.
pub open spec fn clip(chunk: ChunkView, cap: nat) -> ChunkView {
    if chunk.bytes.len() > cap {
        ChunkView { seq: chunk.seq, bytes: chunk.bytes.skip(chunk.bytes.len() - cap) }
    } else {
        chunk
    }
}

/// The chunks that a buffer of `cap` bytes retains when `chunk` comes in.
pub open spec fn retain(chunks: Seq<ChunkView>, cap: nat, chunk: ChunkView) -> Seq<ChunkView> {
    if cap == 0 {
        chunks
    } else {
        drop_oldest(chunks, cap - chunk.bytes.len()).push(clip(chunk, cap))
    }
}

/// The number of the newest chunk of a run, 0 if there is none.
pub open spec fn newest(chunks: Seq<ChunkView>) -> nat {
    if chunks.len() == 0 {
        0
    } else {
        chunks.last().seq
    }
}

/// What a [`ReplayBuffer`] is: the chunks that it retains and the number of
/// bytes that it may hold.
#[verifier::ext_equal]
pub struct ReplayView {
    pub chunks: Seq<ChunkView>,
    pub cap: nat,
}

/// A rolling buffer of serial output: a suffix of everything that was pushed,
/// of at most `cap` bytes. Reading it never consumes anything.
pub struct ReplayBuffer {
    chunks: VecDeque<Chunk>,
    bytes: usize,
    cap: usize,
}

spec fn chunk_views(chunks: Seq<Chunk>) -> Seq<ChunkView> {
    chunks.map_values(|c: Chunk| c@)
}

impl View for ReplayBuffer {
    type V = ReplayView;

    closed spec fn view(&self) -> ReplayView {
        ReplayView { chunks: chunk_views(self.chunks@), cap: self.cap as nat }
    }
}

impl ReplayBuffer {
    /// The byte count is that of the retained chunks, and within the cap; a
    /// buffer with no capacity retains nothing.
    pub closed spec fn wf(&self) -> bool {
        &&& self.bytes == joined(self@.chunks).len()
        &&& self.bytes <= self.cap
        &&& self.cap == 0 ==> self.chunks@.len() == 0
    }

    /// An empty buffer that may hold `cap` bytes; with 0 it stays empty.
    pub fn new(cap: usize) -> (r: ReplayBuffer)
        ensures
            r.wf(),
            r@ == (ReplayView { chunks: Seq::empty(), cap: cap as nat }),
    {
        let r = ReplayBuffer { chunks: VecDeque::new(), bytes: 0, cap };
        assert(r@.chunks =~= Seq::empty());
        r
    }

    /// Takes in the next chunk of output. The oldest chunks make room for it;
    /// one that is larger than the whole buffer leaves only its own tail.
    pub fn push(&mut self, chunk: Chunk)
        requires
            old(self).wf(),
        ensures
            final(self).wf(),
            final(self)@.cap == old(self)@.cap,
            final(self)@.chunks == retain(old(self)@.chunks, old(self)@.cap, chunk@),
            joined(final(self)@.chunks).len() <= final(self)@.cap,
            joined(final(self)@.chunks).is_suffix_of(joined(old(self)@.chunks) + chunk@.bytes),
            old(self)@.cap == 0 ==> final(self)@.chunks == old(self)@.chunks,
            old(self)@.cap > 0 ==> {
                &&& final(self)@.chunks.len() > 0
                &&& final(self)@.chunks.last().seq == chunk.seq
                &&& content(chunk.bytes).len() <= old(self)@.cap ==> final(self)@.chunks.last().bytes
                    == content(chunk.bytes)
                &&& content(chunk.bytes).len() > old(self)@.cap ==> final(self)@.chunks.last().bytes
                    == content(chunk.bytes).skip(content(chunk.bytes).len() - old(self)@.cap)
                &&& final(self)@.chunks.drop_last().is_suffix_of(old(self)@.chunks)
            },
    {
        if self.cap == 0 {
            proof {
                assert(joined(self@.chunks) =~= Seq::empty());
            }
            return;
        }
        let ghost before = self@.chunks;
        let ghost room = self.cap - chunk@.bytes.len();
        let size: usize = chunk.bytes.len();
        while self.chunks.len() > 0 && (size > self.cap || self.bytes > self.cap - size)
            invariant
                self.bytes == joined(self@.chunks).len(),
                self.bytes <= self.cap,
                self.cap == old(self).cap,
                size == chunk@.bytes.len(),
                room == self.cap - size,
                drop_oldest(before, room) == drop_oldest(self@.chunks, room),
            decreases self.chunks.len(),
        {
            let ghost held = self@.chunks;
            if let Some(oldest) = self.chunks.pop_front() {
                proof {
                    assert(self@.chunks =~= held.drop_first());
                    assert(held =~= seq![held[0]] + held.drop_first());
                    lemma_joined_add(seq![held[0]], held.drop_first());
                    lemma_joined_one(held[0]);
                    assert(held[0] == oldest@);
                }
                self.bytes = self.bytes - oldest.bytes.len();
            }
        }
        proof {
            assert(self@.chunks == drop_oldest(before, room));
        }
        let ghost held = self@.chunks;
        let ghost whole = chunk@;
        let chunk = if size > self.cap {
            Chunk { seq: chunk.seq, bytes: tail(&chunk.bytes, size - self.cap) }
        } else {
            chunk
        };
        self.bytes = self.bytes + chunk.bytes.len();
        self.chunks.push_back(chunk);
        proof {
            assert(self@.chunks =~= held.push(chunk@));
            assert(held.push(chunk@).drop_last() =~= held);
            lemma_retain(before, old(self)@.cap, whole);
            law_a_push_drops_only_what_it_must(before, old(self)@.cap, whole);
        }
    }

    /// A copy of what is retained, and the number of the newest chunk in it.
    pub fn snapshot(&self) -> (r: (u64, Vec<Bytes>))
        ensures
            r.0 == newest(self@.chunks),
            self@.chunks.len() == 0 ==> r.0 == 0,
            self@.chunks.len() > 0 ==> r.0 == self@.chunks.last().seq,
            r.1@.len() == self@.chunks.len(),
            forall|i: int|
                0 <= i < r.1@.len() ==> content(#[trigger] r.1@[i]) == self@.chunks[i].bytes,
    {
        let count: usize = self.chunks.len();
        let newest_seq: u64 = if count == 0 {
            0
        } else {
            self.chunks[count - 1].seq
        };
        let mut copies: Vec<Bytes> = Vec::new();
        let mut i: usize = 0;
        while i < count
            invariant
                i <= count,
                count == self.chunks@.len(),
                copies@.len() == i,
                forall|j: int|
                    0 <= j < i ==> content(#[trigger] copies@[j]) == self@.chunks[j].bytes,
            decreases count - i,
        {
            copies.push(self.chunks[i].bytes.clone());
            i += 1;
        }
        (newest_seq, copies)
    }
}

pub(crate) proof fn lemma_joined_one(c: ChunkView)
    ensures
        joined(seq![c]) == c.bytes,
{
    assert(seq![c].drop_last() =~= Seq::empty());
    assert(joined(seq![c].drop_last()) =~= Seq::empty());
    assert(joined(seq![c]) =~= c.bytes);
}

/// The bytes of two runs one after the other.
pub(crate) proof fn lemma_joined_add(a: Seq<ChunkView>, b: Seq<ChunkView>)
    ensures
        joined(a + b) == joined(a) + joined(b),
    decreases b.len(),
{
    if b.len() == 0 {
        assert(a + b =~= a);
        assert(joined(a) + joined(b) =~= joined(a));
    } else {
        lemma_joined_add(a, b.drop_last());
        assert((a + b).drop_last() =~= a + b.drop_last());
        assert(joined(a + b) =~= joined(a) + joined(b));
    }
}

proof fn lemma_drop_oldest(chunks: Seq<ChunkView>, room: int)
    ensures
        exists|k: int|
            0 <= k <= chunks.len() && drop_oldest(chunks, room) == #[trigger] chunks.skip(k),
        drop_oldest(chunks, room).len() > 0 ==> joined(drop_oldest(chunks, room)).len() <= room,
        joined(drop_oldest(chunks, room)).is_suffix_of(joined(chunks)),
    decreases chunks.len(),
{
    if chunks.len() == 0 || joined(chunks).len() <= room {
        assert(chunks.skip(0) =~= chunks);
    } else {
        let rest = chunks.drop_first();
        lemma_drop_oldest(rest, room);
        let k = choose|k: int|
            0 <= k <= rest.len() && drop_oldest(rest, room) == #[trigger] rest.skip(k);
        assert(chunks.skip(k + 1) =~= rest.skip(k));
        assert(chunks =~= seq![chunks[0]] + rest);
        lemma_joined_add(seq![chunks[0]], rest);
    }
}

proof fn lemma_retain(chunks: Seq<ChunkView>, cap: nat, chunk: ChunkView)
    requires
        joined(chunks).len() <= cap,
        cap > 0,
    ensures
        joined(retain(chunks, cap, chunk)).len() <= cap,
        joined(retain(chunks, cap, chunk)).is_suffix_of(joined(chunks) + chunk.bytes),
{
    let kept = drop_oldest(chunks, cap - chunk.bytes.len());
    lemma_drop_oldest(chunks, cap - chunk.bytes.len());
    let all = retain(chunks, cap, chunk);
    assert(all.drop_last() =~= kept);
    if chunk.bytes.len() > cap {
        assert(kept.len() == 0);
    }
    assert(joined(all) =~= joined(kept) + clip(chunk, cap).bytes);
}

/// What a buffer of `cap` bytes retains of a stream that was pushed into it
/// chunk by chunk, from empty.
pub open spec fn replay_of(cap: nat, stream: Seq<ChunkView>) -> Seq<ChunkView>
    decreases stream.len(),
{
    if stream.len() == 0 {
        Seq::empty()
    } else {
        retain(replay_of(cap, stream.drop_last()), cap, stream.last())
    }
}

/// Whatever was pushed, the buffer holds at most `cap` bytes, and they are the
/// last ones of the stream.
pub proof fn law_replay_is_a_capped_suffix(cap: nat, stream: Seq<ChunkView>)
    ensures
        joined(replay_of(cap, stream)).len() <= cap,
        joined(replay_of(cap, stream)).is_suffix_of(joined(stream)),
    decreases stream.len(),
{
    if stream.len() > 0 {
        let before = stream.drop_last();
        law_replay_is_a_capped_suffix(cap, before);
        if cap > 0 {
            lemma_retain(replay_of(cap, before), cap, stream.last());
        }
    }
}

/// Nothing is dropped before the cap forces it: a stream that fits is replayed
/// whole, chunk for chunk.
pub proof fn law_replay_keeps_what_fits(cap: nat, stream: Seq<ChunkView>)
    requires
        cap > 0,
        joined(stream).len() <= cap,
    ensures
        replay_of(cap, stream) == stream,
    decreases stream.len(),
{
    if stream.len() > 0 {
        law_replay_keeps_what_fits(cap, stream.drop_last());
        assert(replay_of(cap, stream) =~= stream);
    } else {
        assert(replay_of(cap, stream) =~= stream);
    }
}

/// The buffer is always up to date: its newest chunk is the last one pushed,
/// cut to the cap if it is larger than that.
pub proof fn law_replay_ends_with_the_newest(cap: nat, stream: Seq<ChunkView>)
    requires
        cap > 0,
        stream.len() > 0,
    ensures
        replay_of(cap, stream).len() > 0,
        replay_of(cap, stream).last() == clip(stream.last(), cap),
        newest(replay_of(cap, stream)) == stream.last().seq,
{
}

/// Each chunk of a stream cut down to its last `cap` bytes.
pub open spec fn clipped(stream: Seq<ChunkView>, cap: nat) -> Seq<ChunkView> {
    stream.map_values(|c: ChunkView| clip(c, cap))
}

/// Room for a further chunk at the end can as well be made beforehand.
proof fn lemma_drop_oldest_push(chunks: Seq<ChunkView>, chunk: ChunkView, room: int)
    requires
        chunk.bytes.len() <= room,
    ensures
        drop_oldest(chunks.push(chunk), room) == drop_oldest(
            chunks,
            room - chunk.bytes.len(),
        ).push(chunk),
    decreases chunks.len(),
{
    assert(chunks.push(chunk).drop_last() =~= chunks);
    assert(joined(chunks.push(chunk)) == joined(chunks) + chunk.bytes);
    if chunks.len() > 0 && joined(chunks).len() > room - chunk.bytes.len() {
        lemma_drop_oldest_push(chunks.drop_first(), chunk, room);
        assert(chunks.push(chunk).drop_first() =~= chunks.drop_first().push(chunk));
    }
}

/// Making more room goes on where making less ended.
proof fn lemma_drop_oldest_twice(chunks: Seq<ChunkView>, more: int, less: int)
    requires
        less <= more,
    ensures
        drop_oldest(drop_oldest(chunks, more), less) == drop_oldest(chunks, less),
    decreases chunks.len(),
{
    if chunks.len() > 0 && joined(chunks).len() > more {
        lemma_drop_oldest_twice(chunks.drop_first(), more, less);
    }
}

proof fn lemma_drop_oldest_all(chunks: Seq<ChunkView>, room: int)
    requires
        room < 0,
    ensures
        drop_oldest(chunks, room).len() == 0,
    decreases chunks.len(),
{
    if chunks.len() > 0 {
        lemma_drop_oldest_all(chunks.drop_first(), room);
    }
}

/// Chunks without bytes in front make no difference but for themselves.
proof fn lemma_drop_oldest_hollow(hollow: Seq<ChunkView>, chunks: Seq<ChunkView>, room: int) -> (r:
    Seq<ChunkView>)
    requires
        joined(hollow).len() == 0,
    ensures
        joined(r).len() == 0,
        drop_oldest(hollow + chunks, room) == r + drop_oldest(chunks, room),
    decreases hollow.len(),
{
    lemma_joined_add(hollow, chunks);
    if hollow.len() == 0 {
        assert(hollow + chunks =~= chunks);
        assert(hollow + drop_oldest(chunks, room) =~= drop_oldest(chunks, room));
        hollow
    } else if joined(chunks).len() <= room {
        hollow
    } else {
        assert(hollow =~= seq![hollow[0]] + hollow.drop_first());
        lemma_joined_add(seq![hollow[0]], hollow.drop_first());
        assert((hollow + chunks).drop_first() =~= hollow.drop_first() + chunks);
        lemma_drop_oldest_hollow(hollow.drop_first(), chunks, room)
    }
}

/// What is dropped is no more than needed.
proof fn lemma_drop_oldest_longest(chunks: Seq<ChunkView>, room: int, k: int)
    requires
        0 <= k <= chunks.len(),
        joined(chunks.skip(k)).len() <= room,
    ensures
        joined(chunks.skip(k)).len() <= joined(drop_oldest(chunks, room)).len(),
    decreases chunks.len(),
{
    if chunks.len() == 0 || joined(chunks).len() <= room {
        assert(chunks =~= chunks.take(k) + chunks.skip(k));
        lemma_joined_add(chunks.take(k), chunks.skip(k));
    } else {
        if k == 0 {
            assert(chunks.skip(0) =~= chunks);
        }
        assert(chunks.drop_first().skip(k - 1) =~= chunks.skip(k));
        lemma_drop_oldest_longest(chunks.drop_first(), room, k - 1);
    }
}

proof fn lemma_replay_of(cap: nat, stream: Seq<ChunkView>) -> (hollow: Seq<ChunkView>)
    requires
        cap > 0,
    ensures
        joined(hollow).len() == 0,
        drop_oldest(clipped(stream, cap), cap as int) == hollow + replay_of(cap, stream),
    decreases stream.len(),
{
    if stream.len() == 0 {
        assert(clipped(stream, cap) =~= Seq::empty());
        assert(Seq::<ChunkView>::empty() + replay_of(cap, stream) =~= Seq::empty());
        Seq::empty()
    } else {
        let before = stream.drop_last();
        let chunk = stream.last();
        let cut = clip(chunk, cap);
        let kept = replay_of(cap, before);
        let hollow = lemma_replay_of(cap, before);
        let room = cap - cut.bytes.len();
        assert(clipped(stream, cap) =~= clipped(before, cap).push(cut));
        lemma_drop_oldest_push(clipped(before, cap), cut, cap as int);
        lemma_drop_oldest_twice(clipped(before, cap), cap as int, room);
        let ahead = if chunk.bytes.len() <= cap {
            lemma_drop_oldest_hollow(hollow, kept, room)
        } else {
            lemma_drop_oldest(hollow + kept, room);
            lemma_drop_oldest_all(kept, cap - chunk.bytes.len());
            drop_oldest(hollow + kept, room)
        };
        assert(drop_oldest(clipped(stream, cap), cap as int) =~= ahead + replay_of(cap, stream));
        ahead
    }
}

/// The buffer holds as much as it can: its bytes are those of the longest run of
/// newest chunks that fits, where a chunk larger than the cap counts by its tail.
/// No run of newest chunks that fits has more.
pub proof fn law_replay_is_the_longest_run_that_fits(cap: nat, stream: Seq<ChunkView>)
    ensures
        joined(replay_of(cap, stream)) == joined(drop_oldest(clipped(stream, cap), cap as int)),
        forall|k: int|
            0 <= k <= stream.len() && joined(#[trigger] clipped(stream, cap).skip(k)).len() <= cap
                ==> joined(clipped(stream, cap).skip(k)).len() <= joined(
                replay_of(cap, stream),
            ).len(),
{
    let all = clipped(stream, cap);
    lemma_drop_oldest(all, cap as int);
    if cap > 0 {
        let hollow = lemma_replay_of(cap, stream);
        lemma_joined_add(hollow, replay_of(cap, stream));
        assert(joined(hollow) + joined(replay_of(cap, stream)) =~= joined(replay_of(cap, stream)));
    } else {
        law_zero_capacity_disables_the_replay(stream);
        assert(joined(replay_of(cap, stream)) =~= joined(drop_oldest(all, 0)));
    }
    assert forall|k: int|
        0 <= k <= stream.len() && joined(#[trigger] all.skip(k)).len() <= cap implies joined(
        all.skip(k),
    ).len() <= joined(replay_of(cap, stream)).len() by {
        lemma_drop_oldest_longest(all, cap as int, k);
    }
}

/// A capacity of 0 disables the replay: nothing is ever retained.
pub proof fn law_zero_capacity_disables_the_replay(stream: Seq<ChunkView>)
    ensures
        replay_of(0, stream).len() == 0,
    decreases stream.len(),
{
    if stream.len() > 0 {
        law_zero_capacity_disables_the_replay(stream.drop_last());
    }
}

/// The capacity in bytes of a replay buffer of `kib` KiB.
pub fn replay_capacity(kib: usize) -> (r: usize)
    requires
        kib * 1024 <= usize::MAX,
    ensures
        r == kib * 1024,
{
    kib * 1024
}

/// The bytes of a run of chunks are the bytes of its chunks, one after the other.
pub proof fn law_joined_is_concatenation(chunks: Seq<ChunkView>)
    ensures
        joined(chunks) == chunks.map_values(|c: ChunkView| c.bytes).flatten(),
    decreases chunks.len(),
{
    let parts = chunks.map_values(|c: ChunkView| c.bytes);
    parts.lemma_flatten_and_flatten_alt_are_equivalent();
    if chunks.len() > 0 {
        let head = chunks.drop_last();
        law_joined_is_concatenation(head);
        let head_parts = head.map_values(|c: ChunkView| c.bytes);
        head_parts.lemma_flatten_and_flatten_alt_are_equivalent();
        assert(parts.drop_last() =~= head_parts);
    }
}

/// Cutting a chunk keeps its number and its last bytes, as many as the cap
/// allows; a chunk within the cap stays as it is.
pub proof fn law_clipping_keeps_the_tail(chunk: ChunkView, cap: nat)
    ensures
        clip(chunk, cap).seq == chunk.seq,
        clip(chunk, cap).bytes.is_suffix_of(chunk.bytes),
        chunk.bytes.len() <= cap ==> clip(chunk, cap).bytes == chunk.bytes,
        chunk.bytes.len() > cap ==> clip(chunk, cap).bytes.len() == cap,
{
}

proof fn lemma_drop_oldest_stops(chunks: Seq<ChunkView>, room: int)
    ensures
        ({
            let gone = chunks.len() - drop_oldest(chunks, room).len();
            &&& 0 <= gone <= chunks.len()
            &&& drop_oldest(chunks, room) == chunks.skip(gone)
            &&& gone < chunks.len() ==> joined(chunks.skip(gone)).len() <= room
            &&& gone > 0 ==> joined(chunks.skip(gone - 1)).len() > room
        }),
    decreases chunks.len(),
{
    if chunks.len() == 0 || joined(chunks).len() <= room {
        assert(chunks.skip(0) =~= chunks);
    } else {
        let rest = chunks.drop_first();
        lemma_drop_oldest_stops(rest, room);
        let gone = rest.len() - drop_oldest(rest, room).len();
        assert(chunks.skip(gone + 1) =~= rest.skip(gone));
        if gone > 0 {
            assert(chunks.skip(gone) =~= rest.skip(gone - 1));
        } else {
            assert(chunks.skip(0) =~= chunks);
        }
    }
}

/// A push keeps the new chunk, cut to the cap, behind a run of the newest of the
/// others. Those fit beside the whole new chunk, and one more of them would not.
/// Without a capacity nothing changes.
pub proof fn law_a_push_drops_only_what_it_must(
    chunks: Seq<ChunkView>,
    cap: nat,
    chunk: ChunkView,
)
    ensures
        cap == 0 ==> retain(chunks, cap, chunk) == chunks,
        cap > 0 ==> {
            let kept = retain(chunks, cap, chunk);
            let gone = chunks.len() + 1 - kept.len();
            &&& 0 <= gone <= chunks.len()
            &&& kept.drop_last() == chunks.subrange(gone, chunks.len() as int)
            &&& kept.drop_last().is_suffix_of(chunks)
            &&& kept.last().seq == chunk.seq
            &&& chunk.bytes.len() <= cap ==> kept.last().bytes == chunk.bytes
            &&& chunk.bytes.len() > cap ==> kept.last().bytes == chunk.bytes.skip(
                chunk.bytes.len() - cap,
            )
            &&& gone < chunks.len() ==> joined(chunks.skip(gone)).len() + chunk.bytes.len() <= cap
            &&& gone > 0 ==> joined(chunks.skip(gone - 1)).len() + chunk.bytes.len() > cap
        },
{
    if cap > 0 {
        let room = cap - chunk.bytes.len();
        let run = drop_oldest(chunks, room);
        let kept = retain(chunks, cap, chunk);
        lemma_drop_oldest_stops(chunks, room);
        let gone = chunks.len() - run.len();
        assert(kept.drop_last() =~= run);
        assert(chunks.skip(gone) =~= chunks.subrange(gone, chunks.len() as int));
        assert(kept.last() == clip(chunk, cap));
    }
}

/// What is retained of a stream comes about chunk by chunk, from nothing.
pub proof fn law_replay_grows_chunk_by_chunk(cap: nat, stream: Seq<ChunkView>, chunk: ChunkView)
    ensures
        replay_of(cap, Seq::empty()) == Seq::<ChunkView>::empty(),
        replay_of(cap, stream.push(chunk)) == retain(replay_of(cap, stream), cap, chunk),
        newest(stream.push(chunk)) == chunk.seq,
        newest(Seq::empty()) == 0,
{
    assert(stream.push(chunk).drop_last() =~= stream);
}

} // verus!
