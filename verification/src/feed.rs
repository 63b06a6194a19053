//! What one client is sent: a copy of the replay buffer, then the live stream.
use crate::payload::{content, from_text};
use crate::replay::{
    Chunk, ChunkView, joined, law_replay_ends_with_the_newest, law_replay_is_a_capped_suffix,
    law_zero_capacity_disables_the_replay, lemma_joined_add, lemma_joined_one, newest, replay_of,
};
use crate::text::{append_decimal, decimal};
use bytes::Bytes;
use vstd::prelude::*;
use vstd::string::*;
use vstd::utf8::encode_utf8;

verus! {

/// What a client's subscription to the live stream yields.
pub enum FeedEvent {
    /// The next chunk.
    Live(Chunk),
    /// The client was too slow: this many chunks were dropped for it.
    Lagged(u64),
    /// The stream is over.
    Closed,
}

/// What to do with the client's connection.
pub enum FeedAction {
    /// Nothing: the client has this chunk already.
    Skip,
    /// Send these bytes.
    Write(Bytes),
    /// End the feed.
    Stop,
}

/// What a [`FeedEvent`] is.
pub enum FeedEventView {
    Live(ChunkView),
    Lagged(nat),
    Closed,
}

/// What a [`FeedAction`] is.
pub enum FeedActionView {
    Skip,
    Write(Seq<u8>),
    Stop,
}

impl View for FeedEvent {
    type V = FeedEventView;

    open spec fn view(&self) -> FeedEventView {
        match self {
            FeedEvent::Live(chunk) => FeedEventView::Live(chunk@),
            FeedEvent::Lagged(n) => FeedEventView::Lagged(*n as nat),
            FeedEvent::Closed => FeedEventView::Closed,
        }
    }
}

impl View for FeedAction {
    type V = FeedActionView;

    open spec fn view(&self) -> FeedActionView {
        match self {
            FeedAction::Skip => FeedActionView::Skip,
            FeedAction::Write(bytes) => FeedActionView::Write(content(*bytes)),
            FeedAction::Stop => FeedActionView::Stop,
        }
    }
}

/// The notice that marks a gap of `n` chunks in a slow client's stream.
pub open spec fn lag_notice_text(n: nat) -> Seq<char> {
    "\r\n*** sermuxd: dropped "@ + decimal(n) + " chunk(s), slow reader ***\r\n"@
}

/// What a client whose history reached up to chunk `replayed` is sent on an
/// event: every later chunk verbatim, and a notice in place of each gap.
pub open spec fn feed(replayed: nat, event: FeedEventView) -> FeedActionView {
    match event {
        FeedEventView::Live(chunk) => if chunk.seq <= replayed {
            FeedActionView::Skip
        } else {
            FeedActionView::Write(chunk.bytes)
        },
        FeedEventView::Lagged(n) => FeedActionView::Write(encode_utf8(lag_notice_text(n))),
        FeedEventView::Closed => FeedActionView::Stop,
    }
}

/// The notice that marks a gap of `n` chunks.
pub fn lag_notice(n: u64) -> (r: String)
    ensures
        r@ == lag_notice_text(n as nat),
        r@ == "\r\n*** sermuxd: dropped "@ + decimal(n as nat)
            + " chunk(s), slow reader ***\r\n"@,
{
    let mut text = String::new();
    text.append("\r\n*** sermuxd: dropped ");
    append_decimal(&mut text, n);
    text.append(" chunk(s), slow reader ***\r\n");
    assert(text@ =~= lag_notice_text(n as nat));
    text
}

/// One step of a client's feed after its history was sent.
pub fn feed_step(replayed: u64, event: FeedEvent) -> (r: FeedAction)
    ensures
        r@ == feed(replayed as nat, event@),
        match event {
            FeedEvent::Live(chunk) => if chunk.seq <= replayed {
                r is Skip
            } else {
                r matches FeedAction::Write(bytes) && content(bytes) == content(chunk.bytes)
            },
            FeedEvent::Lagged(n) => r matches FeedAction::Write(bytes) && content(bytes)
                == encode_utf8(
                "\r\n*** sermuxd: dropped "@ + decimal(n as nat)
                    + " chunk(s), slow reader ***\r\n"@,
            ),
            FeedEvent::Closed => r is Stop,
        },
{
    match event {
        FeedEvent::Live(chunk) => {
            if chunk.seq <= replayed {
                FeedAction::Skip
            } else {
                FeedAction::Write(chunk.bytes)
            }
        },
        FeedEvent::Lagged(n) => FeedAction::Write(from_text(lag_notice(n))),
        FeedEvent::Closed => FeedAction::Stop,
    }
}

/// All that a feed sends for a run of events, up to its end.
pub open spec fn delivered(replayed: nat, events: Seq<FeedEventView>) -> Seq<u8>
    decreases events.len(),
{
    if events.len() == 0 {
        Seq::empty()
    } else {
        match feed(replayed, events[0]) {
            FeedActionView::Skip => delivered(replayed, events.drop_first()),
            FeedActionView::Write(bytes) => bytes + delivered(replayed, events.drop_first()),
            FeedActionView::Stop => Seq::empty(),
        }
    }
}

/// The chunks of a stream as the events of a subscription that never lags.
pub open spec fn live(chunks: Seq<ChunkView>) -> Seq<FeedEventView> {
    chunks.map_values(|c: ChunkView| FeedEventView::Live(c))
}

/// The chunks of a stream are numbered from 1, one by one.
pub open spec fn numbered(stream: Seq<ChunkView>) -> bool {
    forall|i: int| 0 <= i < stream.len() ==> (#[trigger] stream[i]).seq == i + 1
}

proof fn lemma_delivered(replayed: nat, stream: Seq<ChunkView>, from: int)
    requires
        numbered(stream),
        0 <= from <= stream.len(),
        replayed <= stream.len(),
    ensures
        delivered(replayed, live(stream.skip(from))) == joined(
            stream.skip(if from <= replayed { replayed as int } else { from }),
        ),
    decreases stream.len() - from,
{
    let rest = stream.skip(from);
    let start = if from <= replayed { replayed as int } else { from };
    if from == stream.len() {
        assert(stream.skip(start) =~= Seq::empty());
    } else {
        lemma_delivered(replayed, stream, from + 1);
        assert(live(rest).drop_first() =~= live(stream.skip(from + 1)));
        assert(rest[0] == stream[from]);
        if from >= replayed {
            assert(stream.skip(from) =~= seq![stream[from]] + stream.skip(from + 1));
            lemma_joined_add(seq![stream[from]], stream.skip(from + 1));
            lemma_joined_one(stream[from]);
        }
    }
}

/// Late joiners get the stream without a seam. A client that subscribes after
/// `subscribed` chunks were broadcast, then copies the replay buffer when
/// `copied` chunks have been pushed, and then keeps up, is sent its copy of the
/// history followed by exactly the chunks after it: no byte twice, none left
/// out. Where the buffer has no capacity it is sent every chunk since it
/// subscribed. Either way, what it has is the end of the whole stream.
pub proof fn law_join_is_seamless(
    cap: nat,
    stream: Seq<ChunkView>,
    subscribed: nat,
    copied: nat,
)
    requires
        forall|i: int| 0 <= i < stream.len() ==> (#[trigger] stream[i]).seq == i + 1,
        subscribed <= copied <= stream.len(),
    ensures
        ({
            let history = replay_of(cap, stream.take(copied as int));
            let events = Seq::new(
                (stream.len() - subscribed) as nat,
                |i: int| FeedEventView::Live(stream[subscribed + i]),
            );
            let sent = joined(history) + delivered(newest(history), events);
            &&& cap > 0 ==> sent == joined(history) + joined(stream.skip(copied as int))
            &&& cap == 0 ==> sent == joined(stream.skip(subscribed as int))
            &&& sent.is_suffix_of(joined(stream))
        }),
{
    assert(live(stream.skip(subscribed as int)) =~= Seq::new(
        (stream.len() - subscribed) as nat,
        |i: int| FeedEventView::Live(stream[subscribed + i]),
    ));
    let past = stream.take(copied as int);
    let ahead = stream.skip(copied as int);
    let history = replay_of(cap, past);
    law_replay_is_a_capped_suffix(cap, past);
    if cap > 0 {
        assert(newest(history) == copied) by {
            if copied > 0 {
                law_replay_ends_with_the_newest(cap, past);
                assert(past.last() == stream[copied - 1]);
            }
        }
        lemma_delivered(copied, stream, subscribed as int);
        assert(stream =~= past + ahead);
        lemma_joined_add(past, ahead);
        lemma_suffix_extends(joined(history), joined(past), joined(ahead));
    } else {
        law_zero_capacity_disables_the_replay(past);
        lemma_delivered(0, stream, subscribed as int);
        let heard = stream.skip(subscribed as int);
        assert(joined(history) + joined(heard) =~= joined(heard));
        assert(stream =~= stream.take(subscribed as int) + heard);
        lemma_joined_add(stream.take(subscribed as int), heard);
        lemma_suffix_extends(Seq::empty(), joined(stream.take(subscribed as int)), joined(heard));
        assert(Seq::empty() + joined(heard) =~= joined(heard));
    }
}

proof fn lemma_suffix_extends(a: Seq<u8>, b: Seq<u8>, c: Seq<u8>)
    requires
        a.is_suffix_of(b),
    ensures
        (a + c).is_suffix_of(b + c),
{
}

/// A gap is never silent: where chunks were dropped for a slow client, it is
/// sent a notice that says how many, whatever it is sent before and after, other
/// such notices among it.
pub proof fn law_gaps_are_announced(
    replayed: nat,
    before: Seq<FeedEventView>,
    missed: nat,
    after: Seq<FeedEventView>,
)
    requires
        forall|i: int| 0 <= i < before.len() ==> !((#[trigger] before[i]) is Closed),
    ensures
        delivered(replayed, before.push(FeedEventView::Lagged(missed)) + after) == delivered(
            replayed,
            before,
        ) + encode_utf8(lag_notice_text(missed)) + delivered(replayed, after),
    decreases before.len(),
{
    let events = before.push(FeedEventView::Lagged(missed)) + after;
    let notice = encode_utf8(lag_notice_text(missed));
    if before.len() == 0 {
        assert(events.drop_first() =~= after);
        assert(events[0] == FeedEventView::Lagged(missed));
        assert(delivered(replayed, before) =~= Seq::empty());
        assert(delivered(replayed, events) =~= delivered(replayed, before) + notice + delivered(
            replayed,
            after,
        ));
    } else {
        let rest = before.drop_first();
        assert forall|i: int| 0 <= i < rest.len() implies !((#[trigger] rest[i]) is Closed) by {
            assert(rest[i] == before[i + 1]);
        }
        law_gaps_are_announced(replayed, rest, missed, after);
        assert(events.drop_first() =~= rest.push(FeedEventView::Lagged(missed)) + after);
        assert(events[0] == before[0]);
        assert(!(before[0] is Closed));
        assert(delivered(replayed, events) =~= delivered(replayed, before) + notice + delivered(
            replayed,
            after,
        ));
    }
}

/// A client is sent each chunk that is newer than its history verbatim, none
/// that its history covers, a notice that says how much is missing for each gap,
/// and nothing after the end.
pub proof fn law_what_a_client_is_sent(replayed: nat, chunk: ChunkView, missed: nat)
    ensures
        chunk.seq > replayed ==> feed(replayed, FeedEventView::Live(chunk))
            == FeedActionView::Write(chunk.bytes),
        chunk.seq <= replayed ==> feed(replayed, FeedEventView::Live(chunk))
            == FeedActionView::Skip,
        feed(replayed, FeedEventView::Lagged(missed)) == FeedActionView::Write(
            encode_utf8(
                "\r\n*** sermuxd: dropped "@ + decimal(missed)
                    + " chunk(s), slow reader ***\r\n"@,
            ),
        ),
        feed(replayed, FeedEventView::Closed) == FeedActionView::Stop,
{
}

/// What a feed sends for a run of events is what it sends for its parts, one
/// after the other; the end of the stream cuts it off.
pub proof fn law_a_feed_goes_event_by_event(
    replayed: nat,
    first: FeedEventView,
    rest: Seq<FeedEventView>,
)
    ensures
        delivered(replayed, Seq::empty()) == Seq::<u8>::empty(),
        first matches FeedEventView::Live(chunk) ==> delivered(replayed, seq![first] + rest) == (
        if chunk.seq > replayed {
            chunk.bytes
        } else {
            Seq::empty()
        }) + delivered(replayed, rest),
        first matches FeedEventView::Lagged(n) ==> delivered(replayed, seq![first] + rest)
            == encode_utf8(
            "\r\n*** sermuxd: dropped "@ + decimal(n) + " chunk(s), slow reader ***\r\n"@,
        ) + delivered(replayed, rest),
        first is Closed ==> delivered(replayed, seq![first] + rest).len() == 0,
{
    let events = seq![first] + rest;
    assert(events.drop_first() =~= rest);
    assert(events[0] == first);
    assert(Seq::<u8>::empty() + delivered(replayed, rest) =~= delivered(replayed, rest));
}

/// What is proved of events and actions is meant of their own variants, numbers
/// and bytes.
pub proof fn law_events_and_actions_are_what_they_show(event: FeedEvent, action: FeedAction)
    ensures
        event matches FeedEvent::Live(chunk) ==> event@ == FeedEventView::Live(
            ChunkView { seq: chunk.seq as nat, bytes: content(chunk.bytes) },
        ),
        event matches FeedEvent::Lagged(n) ==> event@ == FeedEventView::Lagged(n as nat),
        event is Closed ==> event@ is Closed,
        action is Skip ==> action@ is Skip,
        action is Stop ==> action@ is Stop,
        action matches FeedAction::Write(bytes) ==> action@ == FeedActionView::Write(
            content(bytes),
        ),
{
}

} // verus!
