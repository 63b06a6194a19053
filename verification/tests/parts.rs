//! The parts of the multiplexer, one by one.
use bytes::Bytes;
use sermuxd::arbiter::{Arbiter, Verdict};
use sermuxd::client::{
    PtyFault, PtyRead, PtyReadAction, TcpEnd, TcpRead, TcpReadAction, WriteAction, WriteCursor,
    WriteEvent, pty_read_step, tcp_read_step,
};
use sermuxd::control::{Command, Reply, answer, execute, parse_command};
use sermuxd::feed::{FeedAction, FeedEvent, feed_step, lag_notice};
use sermuxd::handshake::parse_handshake;
use sermuxd::link::{LinkAction, LinkState, descriptor_path, plan_link};
use sermuxd::ownership::ClaimResult;
use sermuxd::replay::{Chunk, ReplayBuffer, replay_capacity};
use sermuxd::serial::{
    SerialFault, SerialRead, SerialReader, SerialRxAction, SerialTxAction, SerialWrite,
    serial_tx_step,
};
use sermuxd::text::{append_decimal, append_token, hex_byte, parse_token};

fn chunk(seq: u64, bytes: &[u8]) -> Chunk {
    Chunk { seq, bytes: Bytes::copy_from_slice(bytes) }
}

fn history(buffer: &ReplayBuffer) -> (u64, Vec<Vec<u8>>) {
    let (newest, chunks) = buffer.snapshot();
    (newest, chunks.iter().map(|b| b.to_vec()).collect())
}

#[test]
fn replay_drops_the_oldest_chunks() {
    let mut buffer = ReplayBuffer::new(10);
    assert_eq!(history(&buffer), (0, vec![]));
    buffer.push(chunk(1, b"abcd"));
    buffer.push(chunk(2, b"efgh"));
    buffer.push(chunk(3, b"ij"));
    assert_eq!(
        history(&buffer),
        (3, vec![b"abcd".to_vec(), b"efgh".to_vec(), b"ij".to_vec()])
    );
    buffer.push(chunk(4, b"k"));
    assert_eq!(
        history(&buffer),
        (4, vec![b"efgh".to_vec(), b"ij".to_vec(), b"k".to_vec()])
    );
    // Reading consumes nothing.
    assert_eq!(history(&buffer), history(&buffer));
}

#[test]
fn replay_keeps_the_tail_of_an_oversized_chunk() {
    let mut buffer = ReplayBuffer::new(4);
    buffer.push(chunk(1, b"ab"));
    buffer.push(chunk(2, b"0123456789"));
    assert_eq!(history(&buffer), (2, vec![b"6789".to_vec()]));
    buffer.push(chunk(3, b"abcd"));
    assert_eq!(history(&buffer), (3, vec![b"abcd".to_vec()]));
}

#[test]
fn replay_of_no_capacity_stays_empty() {
    let mut buffer = ReplayBuffer::new(0);
    buffer.push(chunk(1, b"ab"));
    assert_eq!(history(&buffer), (0, vec![]));
}

#[test]
fn replay_capacity_is_in_kib() {
    assert_eq!(replay_capacity(256), 262144);
    assert_eq!(replay_capacity(0), 0);
}

#[test]
fn cloned_chunks_share_their_bytes() {
    let original = chunk(3, b"xyz");
    let copy = original.clone();
    assert_eq!(copy.seq, 3);
    assert_eq!(&copy.bytes[..], b"xyz");
    assert_eq!(copy.bytes.as_ptr(), original.bytes.as_ptr());
}

#[test]
fn feed_skips_what_was_replayed() {
    assert!(matches!(feed_step(2, FeedEvent::Live(chunk(2, b"old"))), FeedAction::Skip));
    match feed_step(2, FeedEvent::Live(chunk(3, b"new"))) {
        FeedAction::Write(bytes) => assert_eq!(&bytes[..], b"new"),
        _ => panic!("a new chunk is sent"),
    }
    assert!(matches!(feed_step(2, FeedEvent::Closed), FeedAction::Stop));
}

#[test]
fn feed_announces_gaps() {
    let expected = "\r\n*** sermuxd: dropped 17 chunk(s), slow reader ***\r\n";
    assert_eq!(lag_notice(17), expected);
    match feed_step(5, FeedEvent::Lagged(17)) {
        FeedAction::Write(bytes) => assert_eq!(&bytes[..], expected.as_bytes()),
        _ => panic!("a gap is announced"),
    }
}

#[test]
fn numbers_as_text() {
    for (n, expected) in [
        (0u64, "0"),
        (9, "9"),
        (10, "10"),
        (1024, "1024"),
        (u64::MAX, "18446744073709551615"),
    ] {
        let mut text = String::from("n=");
        append_decimal(&mut text, n);
        assert_eq!(text, format!("n={expected}"));
    }
    for (token, expected) in [
        (0u64, "0000000000000000"),
        (0x4f3a2b1c9d0e8f7a, "4f3a2b1c9d0e8f7a"),
        (u64::MAX, "ffffffffffffffff"),
    ] {
        let mut text = String::new();
        append_token(&mut text, token);
        assert_eq!(text, expected);
        assert_eq!(parse_token(text.as_bytes()), Some(token));
        assert_eq!(parse_token(text.to_uppercase().as_bytes()), Some(token));
    }
    assert_eq!(parse_token(b"00000000000000000000ff"), Some(255));
    assert_eq!(parse_token(b"10000000000000000"), None);
    assert!(hex_byte(b'f') && hex_byte(b'A') && hex_byte(b'7'));
    assert!(!hex_byte(b'g') && !hex_byte(b'G') && !hex_byte(b' ') && !hex_byte(b':'));
}

#[test]
fn handshakes() {
    let h = parse_handshake(b"TOKEN 4f3a2b1c9d0e8f7a\nrest").unwrap();
    assert_eq!(h.token, Some(0x4f3a2b1c9d0e8f7a));
    assert_eq!(h.len, 23);
    let h = parse_handshake(b"TOKEN A\n").unwrap();
    assert_eq!((h.token, h.len), (Some(10), 8));
    let h = parse_handshake(b"TOKEN fffffffffffffffff\n").unwrap();
    assert_eq!((h.token, h.len), (None, 24));
    for raw in [
        &b""[..],
        b"TOKEN ",
        b"TOKEN \n",
        b"TOKEN 12",
        b"TOKEN 12\r\n",
        b"TOKEN xyz\n",
        b"token 12\n",
        b" TOKEN 12\n",
        b"TOKEN  12\n",
    ] {
        assert!(parse_handshake(raw).is_none(), "{raw:?}");
    }
}

#[test]
fn commands() {
    for (line, expected) in [
        (&b"STATUS\n"[..], Command::Status),
        (b"  STATUS \t\r\n", Command::Status),
        (b"CLAIM", Command::Claim(false)),
        (b"CLAIM --force\n", Command::Claim(true)),
        (b"CLAIM   --force", Command::Claim(true)),
        (b"CLAIM --wait\n", Command::Unknown),
        (b"RELEASE\n", Command::ReleaseAll),
        (b"RELEASE 000000000000002a\n", Command::Release(Some(42))),
        (b"RELEASE 10000000000000000\n", Command::Release(None)),
        (b"RELEASE nonsense\n", Command::Release(None)),
        (b"RELEASE 1 2\n", Command::Unknown),
        (b"HELP\r\n", Command::Help),
        (b"HELP me\n", Command::Unknown),
        (b"status\n", Command::Unknown),
        (b"\r\n", Command::Blank),
        (b"", Command::Blank),
    ] {
        assert!(parse_command(line) == expected, "{line:?}");
    }
}

fn line_of(reply: Reply) -> String {
    match reply {
        Reply::Line(text) => text,
        Reply::Silent => panic!("no reply"),
        Reply::Retry => panic!("token in use"),
    }
}

#[test]
fn replies() {
    let mut a = Arbiter::new(false);
    let ctrl = a.open_control().unwrap();
    assert_eq!(
        line_of(answer(&mut a, ctrl, b"HELP\n", 1)),
        "OK commands: STATUS, CLAIM [--force], RELEASE [token], HELP\n"
    );
    assert_eq!(line_of(answer(&mut a, ctrl, b"HUH\n", 1)), "ERR unknown command, try HELP\n");
    assert!(matches!(answer(&mut a, ctrl, b"\n", 1), Reply::Silent));
    assert_eq!(
        line_of(execute(&mut a, ctrl, Command::Claim(false), 0x4f3a2b1c9d0e8f7a)),
        "OK token: 4f3a2b1c9d0e8f7a\n"
    );
    assert_eq!(line_of(answer(&mut a, ctrl, b"RELEASE zz\n", 1)), "ERR unknown token\n");
    assert_eq!(line_of(answer(&mut a, ctrl, b"RELEASE 1\n", 1)), "ERR unknown token\n");
    assert_eq!(line_of(answer(&mut a, ctrl, b"RELEASE 4f3a2b1c9d0e8f7a\n", 1)), "OK released\n");
}

#[test]
fn claims_and_tokens() {
    let mut a = Arbiter::new(false);
    let tcp = a.join_tcp("1.2.3.4:5".to_string()).unwrap();
    let ctrl = a.open_control().unwrap();
    assert!(matches!(a.claim(ctrl, false, 5), ClaimResult::Granted));
    assert!(matches!(a.claim(ctrl, false, 5), ClaimResult::Taken));
    assert!(!a.present(tcp, 6));
    assert!(!a.present(99, 5));
    assert!(a.present(tcp, 5));
    assert!(!a.present(tcp, 5));
    assert_eq!(a.owner(), Some(tcp));
    assert_eq!(a.owner_name(), "tcp:1.2.3.4:5");
    assert!(matches!(a.claim(ctrl, false, 7), ClaimResult::Held));
    assert!(matches!(a.claim(ctrl, true, 5), ClaimResult::Taken));
    assert!(matches!(a.claim(ctrl, true, 7), ClaimResult::Granted));
    assert!(a.release(7));
    assert!(!a.release(7));
    assert!(a.release_all(ctrl));
    assert!(!a.release_all(ctrl));
    assert_eq!(a.owner(), None);
}

#[test]
fn notices_are_exact() {
    let mut a = Arbiter::new(true);
    let tcp = a.join_tcp("1.2.3.4:5".to_string()).unwrap();
    match a.receive(tcp, b"x") {
        Verdict::Drop(Some(notice)) => assert_eq!(
            &notice[..],
            &b"\r\n*** sermuxd: TX denied, another client holds the port ***\r\n"[..]
        ),
        _ => panic!("bytes of a client without the lock are dropped"),
    }
    // Nothing was dropped, so there is nothing to tell.
    assert!(matches!(a.receive(tcp, b"TOKEN 12\n"), Verdict::Nothing));
}

#[test]
fn serial_reads() {
    let mut reader = SerialReader::new();
    let mut buffer = ReplayBuffer::new(100);
    assert!(reader.can_number());
    for expected in 1..4u64 {
        match reader.step(&mut buffer, SerialRead::Data(b"ab")) {
            SerialRxAction::Broadcast(c) => {
                assert_eq!(c.seq, expected);
                assert_eq!(&c.bytes[..], b"ab");
            }
            SerialRxAction::Stop(_) => panic!("bytes are broadcast"),
        }
    }
    assert_eq!(history(&buffer).0, 3);
    match reader.step(&mut buffer, SerialRead::Data(b"")) {
        SerialRxAction::Stop(fault) => assert_eq!(fault.message(), "serial port returned EOF"),
        SerialRxAction::Broadcast(_) => panic!("an empty read is the end"),
    }
    match reader.step(&mut buffer, SerialRead::Failed("unplugged".to_string())) {
        SerialRxAction::Stop(fault) => {
            assert_eq!(fault.message(), "serial read error: unplugged")
        }
        SerialRxAction::Broadcast(_) => panic!("a failed read is the end"),
    }
    assert_eq!(history(&buffer).0, 3);
}

#[test]
fn serial_writes() {
    match serial_tx_step(SerialWrite::Queued(Bytes::from_static(b"out"))) {
        SerialTxAction::Write(bytes) => assert_eq!(&bytes[..], b"out"),
        SerialTxAction::Stop(_) => panic!("queued bytes are written"),
    }
    match serial_tx_step(SerialWrite::Closed) {
        SerialTxAction::Stop(fault) => assert_eq!(fault.message(), "serial TX channel closed"),
        SerialTxAction::Write(_) => panic!("a closed queue is the end"),
    }
    match serial_tx_step(SerialWrite::Failed("gone".to_string())) {
        SerialTxAction::Stop(fault) => {
            assert!(matches!(fault, SerialFault::Write(_)));
            assert_eq!(fault.message(), "serial write error: gone");
        }
        SerialTxAction::Write(_) => panic!("a failed write is the end"),
    }
}

#[test]
fn pty_reads() {
    let mut a = Arbiter::new(false);
    let pty = a.join_pty().unwrap();
    match pty_read_step(&mut a, pty, PtyRead::Data(b"hi")) {
        PtyReadAction::Submit(Verdict::Forward(bytes)) => assert_eq!(&bytes[..], b"hi"),
        _ => panic!("the default owner's bytes are forwarded"),
    }
    assert!(matches!(pty_read_step(&mut a, pty, PtyRead::NotReady), PtyReadAction::Wait));
    for (read, message) in [
        (PtyRead::Data(b""), "pty master EOF"),
        (PtyRead::WaitFailed("bad".to_string()), "pty readable wait: bad"),
        (PtyRead::Failed("worse".to_string()), "pty read: worse"),
        (PtyRead::QueueClosed, "serial TX channel closed"),
    ] {
        match pty_read_step(&mut a, pty, read) {
            PtyReadAction::Stop(fault) => assert_eq!(fault.message(), message),
            _ => panic!("{message}"),
        }
    }
    assert_eq!(PtyFault::Eof.message(), "pty master EOF");
}

#[test]
fn tcp_reads() {
    let mut a = Arbiter::new(false);
    let tcp = a.join_tcp("1.2.3.4:5".to_string()).unwrap();
    assert!(matches!(
        tcp_read_step(&mut a, tcp, TcpRead::Data(b"hi")),
        TcpReadAction::Submit(Verdict::Drop(None))
    ));
    assert!(matches!(
        tcp_read_step(&mut a, tcp, TcpRead::Data(b"")),
        TcpReadAction::Stop(TcpEnd::Disconnected)
    ));
    assert!(matches!(
        tcp_read_step(&mut a, tcp, TcpRead::QueueClosed),
        TcpReadAction::Stop(TcpEnd::QueueClosed)
    ));
    match tcp_read_step(&mut a, tcp, TcpRead::Failed("reset".to_string())) {
        TcpReadAction::Stop(TcpEnd::Failed(reason)) => assert_eq!(reason, "reset"),
        _ => panic!("a failed read ends the connection"),
    }
}

#[test]
fn writes_go_on_until_all_is_written() {
    let mut cursor = WriteCursor::new(Bytes::from_static(b"hello world"));
    let mut out: Vec<u8> = Vec::new();
    let mut action = cursor.start();
    let mut turn = 0usize;
    while action == WriteAction::Offer {
        turn += 1;
        action = if turn % 2 == 0 {
            cursor.step(WriteEvent::NotReady)
        } else {
            let n = cursor.rest().len().min(4);
            out.extend_from_slice(&cursor.rest()[..n]);
            cursor.step(WriteEvent::Wrote(n))
        };
    }
    assert!(action == WriteAction::Done);
    assert_eq!(out, b"hello world");

    assert!(WriteCursor::new(Bytes::new()).start() == WriteAction::Done);
    let mut cursor = WriteCursor::new(Bytes::from_static(b"x"));
    assert!(cursor.step(WriteEvent::Wrote(0)) == WriteAction::Offer);
    assert!(cursor.step(WriteEvent::Failed) == WriteAction::Fail);
}

#[test]
fn links() {
    assert!(plan_link(LinkState::Missing) == LinkAction::Create);
    assert!(plan_link(LinkState::Symlink) == LinkAction::Replace);
    assert_eq!(descriptor_path(17), "/proc/self/fd/17");
}

#[test]
fn replay_holds_the_longest_run_that_fits() {
    let mut buffer = ReplayBuffer::new(4);
    buffer.push(chunk(1, b"0123456789"));
    buffer.push(chunk(2, b"a"));
    // The tail of the first chunk takes all the room, so it goes as a whole.
    assert_eq!(history(&buffer), (2, vec![b"a".to_vec()]));
    buffer.push(chunk(3, b"bc"));
    buffer.push(chunk(4, b"d"));
    assert_eq!(
        history(&buffer),
        (4, vec![b"a".to_vec(), b"bc".to_vec(), b"d".to_vec()])
    );
    buffer.push(chunk(5, b"efg"));
    assert_eq!(history(&buffer), (5, vec![b"d".to_vec(), b"efg".to_vec()]));
}

#[test]
fn releasing_pending_claims_leaves_the_owner_alone() {
    let mut a = Arbiter::new(false);
    let pty = a.join_pty().unwrap();
    let ctrl = a.open_control().unwrap();
    assert!(matches!(a.claim(ctrl, false, 3), ClaimResult::Granted));
    assert!(a.release_all(ctrl));
    assert_eq!(a.owner(), Some(pty));
    assert!(!a.release(3));
}

#[test]
fn every_gap_is_announced() {
    let mut sent: Vec<u8> = Vec::new();
    for event in [
        FeedEvent::Lagged(2),
        FeedEvent::Live(chunk(7, b"x")),
        FeedEvent::Lagged(1),
        FeedEvent::Live(chunk(9, b"y")),
    ] {
        if let FeedAction::Write(bytes) = feed_step(4, event) {
            sent.extend_from_slice(&bytes);
        }
    }
    let expected = format!("{}x{}y", lag_notice(2), lag_notice(1));
    assert_eq!(sent, expected.as_bytes());
}
