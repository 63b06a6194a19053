//! The daemon as its clients see it: the serial port, the PTY client, data
//! connections and control connections, all in memory.
use sermuxd::arbiter::{Arbiter, Verdict};
use sermuxd::client::{
    PtyRead, PtyReadAction, TcpEnd, TcpRead, TcpReadAction, pty_read_step, tcp_read_step,
};
use sermuxd::control::{Reply, answer};
use sermuxd::feed::{FeedAction, FeedEvent, feed_step};
use sermuxd::link::{LinkAction, LinkState, plan_link, refusal};
use sermuxd::replay::{Chunk, ReplayBuffer, replay_capacity};
use sermuxd::serial::{
    SerialRead, SerialReader, SerialRxAction, SerialTxAction, SerialWrite, serial_tx_step,
};

const CHUNK_SIZE: usize = 4096;

struct Daemon {
    replay: ReplayBuffer,
    reader: SerialReader,
    arbiter: Arbiter,
    /// Everything that was broadcast.
    live: Vec<Chunk>,
    /// What the attached hardware received and nobody looked at yet.
    wire: Vec<u8>,
    pty: u64,
    next_token: u64,
}

struct Client {
    id: u64,
    replayed: u64,
    /// The next broadcast chunk that this client is to be sent.
    next: usize,
    received: Vec<u8>,
}

fn start_with(reject_notice: bool, replay_kb: usize) -> Daemon {
    let mut arbiter = Arbiter::new(reject_notice);
    let pty = arbiter.join_pty().unwrap();
    Daemon {
        replay: ReplayBuffer::new(replay_capacity(replay_kb)),
        reader: SerialReader::new(),
        arbiter,
        live: Vec::new(),
        wire: Vec::new(),
        pty,
        next_token: 0x4f3a2b1c9d0e8f7a,
    }
}

fn start(reject_notice: bool) -> Daemon {
    start_with(reject_notice, 256)
}

fn serial_emits(d: &mut Daemon, data: &[u8]) {
    for piece in data.chunks(CHUNK_SIZE) {
        match d.reader.step(&mut d.replay, SerialRead::Data(piece)) {
            SerialRxAction::Broadcast(chunk) => d.live.push(chunk),
            SerialRxAction::Stop(_) => panic!("serial port lost"),
        }
    }
}

/// The bytes that reached the hardware since the last look.
fn on_the_wire(d: &mut Daemon) -> Vec<u8> {
    std::mem::take(&mut d.wire)
}

fn client(d: &Daemon, id: u64) -> Client {
    let next = d.live.len();
    let (replayed, history) = d.replay.snapshot();
    let mut received = Vec::new();
    for bytes in &history {
        received.extend_from_slice(bytes);
    }
    Client { id, replayed, next, received }
}

fn connect(d: &mut Daemon, peer: &str) -> Client {
    let id = d.arbiter.join_tcp(peer.to_string()).unwrap();
    client(d, id)
}

fn minicom(d: &Daemon) -> Client {
    client(d, d.pty)
}

/// Sends the client what was broadcast since the last time.
fn pump(d: &Daemon, c: &mut Client) {
    while c.next < d.live.len() {
        match feed_step(c.replayed, FeedEvent::Live(d.live[c.next].clone())) {
            FeedAction::Skip => {}
            FeedAction::Write(bytes) => c.received.extend_from_slice(&bytes),
            FeedAction::Stop => panic!("feed ended"),
        }
        c.next += 1;
    }
}

fn settle(d: &mut Daemon, c: &mut Client, verdict: Verdict) {
    match verdict {
        Verdict::Nothing => {}
        Verdict::Forward(bytes) => match serial_tx_step(SerialWrite::Queued(bytes)) {
            SerialTxAction::Write(bytes) => d.wire.extend_from_slice(&bytes),
            SerialTxAction::Stop(_) => panic!("serial port lost"),
        },
        Verdict::Drop(notice) => {
            if let Some(notice) = notice {
                c.received.extend_from_slice(&notice);
            }
        }
    }
}

fn send(d: &mut Daemon, c: &mut Client, data: &[u8]) {
    let verdict = if c.id == d.pty {
        match pty_read_step(&mut d.arbiter, c.id, PtyRead::Data(data)) {
            PtyReadAction::Submit(verdict) => verdict,
            _ => panic!("pty client ended"),
        }
    } else {
        match tcp_read_step(&mut d.arbiter, c.id, TcpRead::Data(data)) {
            TcpReadAction::Submit(verdict) => verdict,
            TcpReadAction::Stop(_) => panic!("data connection ended"),
        }
    };
    settle(d, c, verdict);
}

fn disconnect(d: &mut Daemon, c: Client) {
    match tcp_read_step(&mut d.arbiter, c.id, TcpRead::Data(&[])) {
        TcpReadAction::Stop(TcpEnd::Disconnected) => d.arbiter.leave(c.id),
        _ => panic!("an empty read is a disconnect"),
    }
}

/// Send one control command, return the one-line response.
fn cmd(d: &mut Daemon, ctrl: u64, line: &str) -> String {
    let mut bytes = line.as_bytes().to_vec();
    bytes.push(b'\n');
    loop {
        let token = d.next_token;
        d.next_token = d.next_token.wrapping_mul(0x5851f42d4c957f2d).wrapping_add(1);
        match answer(&mut d.arbiter, ctrl, &bytes, token) {
            Reply::Line(text) => return text,
            Reply::Silent => return String::new(),
            Reply::Retry => {}
        }
    }
}

/// Extract the hex token from an `OK token: <hex>` response.
fn token_of(response: &str) -> String {
    response
        .trim()
        .strip_prefix("OK token: ")
        .unwrap_or_else(|| panic!("not a token response: {response:?}"))
        .to_string()
}

#[test]
fn claim_token_bind_and_release_restores_default() {
    let mut d = start(false);
    let mut tcp = connect(&mut d, "127.0.0.1:52344");
    let mut mux = minicom(&d);

    // The PTY is the default owner: its writes flow, TCP writes are dropped.
    send(&mut d, &mut tcp, b"tcp tries");
    assert!(on_the_wire(&mut d).is_empty());
    send(&mut d, &mut mux, b"pty default");
    assert_eq!(on_the_wire(&mut d), b"pty default");

    // A plain CLAIM never fails while the owner is only the default.
    let ctrl = d.arbiter.open_control().unwrap();
    let token = token_of(&cmd(&mut d, ctrl, "CLAIM"));

    // The data client presents the token; from then on it owns TX.
    send(&mut d, &mut tcp, format!("TOKEN {token}\n").as_bytes());
    send(&mut d, &mut tcp, b"now i own");
    assert_eq!(on_the_wire(&mut d), b"now i own");

    // While TCP owns TX, the PTY's writes are dropped.
    send(&mut d, &mut mux, b"pty blocked");
    assert!(on_the_wire(&mut d).is_empty());

    // STATUS reports the owner list.
    let status = cmd(&mut d, ctrl, "STATUS");
    assert!(status.starts_with("OK clients:"), "bad STATUS: {status:?}");
    assert!(status.contains("tcp:") && status.contains("pty"), "{status:?}");
    assert_eq!(
        status,
        "OK clients: 2 (pty, tcp:127.0.0.1:52344)  tx-owner: tcp:127.0.0.1:52344\n"
    );

    // RELEASE with the token hands TX back to the default owner (PTY).
    let released = cmd(&mut d, ctrl, &format!("RELEASE {token}"));
    assert_eq!(released, "OK released\n");
    send(&mut d, &mut mux, b"pty again");
    assert_eq!(on_the_wire(&mut d), b"pty again");
}

#[test]
fn force_steal_and_auto_release_on_disconnect() {
    let mut d = start(false);
    let ctrl = d.arbiter.open_control().unwrap();
    let mut tcp1 = connect(&mut d, "127.0.0.1:40001");

    // tcp1 claims and owns.
    let token1 = token_of(&cmd(&mut d, ctrl, "CLAIM"));
    send(&mut d, &mut tcp1, format!("TOKEN {token1}\n").as_bytes());
    send(&mut d, &mut tcp1, b"one");
    assert_eq!(on_the_wire(&mut d), b"one");

    // A plain CLAIM by someone else must now fail; --force steals.
    let err = cmd(&mut d, ctrl, "CLAIM");
    assert!(err.starts_with("ERR tx held by"), "unexpected: {err:?}");
    assert_eq!(err, "ERR tx held by tcp:127.0.0.1:40001\n");
    let token2 = token_of(&cmd(&mut d, ctrl, "CLAIM --force"));

    let mut tcp2 = connect(&mut d, "127.0.0.1:40002");
    send(&mut d, &mut tcp2, format!("TOKEN {token2}\n").as_bytes());
    send(&mut d, &mut tcp2, b"two");
    assert_eq!(on_the_wire(&mut d), b"two");

    // The displaced owner's writes go nowhere now.
    send(&mut d, &mut tcp1, b"one-blocked");
    assert!(on_the_wire(&mut d).is_empty());

    // The owner disconnects: auto-release falls back to the default (PTY).
    disconnect(&mut d, tcp2);
    assert!(cmd(&mut d, ctrl, "STATUS").contains("tx-owner: pty"));

    let mut mux = minicom(&d);
    send(&mut d, &mut mux, b"pty owns again");
    assert_eq!(on_the_wire(&mut d), b"pty owns again");
}

#[test]
fn reject_notice_is_injected_when_enabled() {
    let mut d = start(true);
    let mut tcp = connect(&mut d, "127.0.0.1:40001");

    // The client holds no token: its write is dropped and a notice arrives.
    send(&mut d, &mut tcp, b"nope");
    assert!(on_the_wire(&mut d).is_empty());
    let text = String::from_utf8(tcp.received).unwrap();
    assert!(text.contains("TX denied"), "no reject notice in: {text:?}");
    assert!(text.is_ascii());
}

#[test]
fn tcp_and_pty_clients_share_the_port() {
    let mut d = start(false);
    let mut tcp = connect(&mut d, "127.0.0.1:40001");
    let mut mux = minicom(&d);

    // Without a token the TCP client's write is dropped.
    send(&mut d, &mut tcp, b"hello from tcp");
    assert!(on_the_wire(&mut d).is_empty());

    // PTY client (default TX owner) -> serial port.
    send(&mut d, &mut mux, b"hello from minicom");
    assert_eq!(on_the_wire(&mut d), b"hello from minicom");

    // Serial port -> TCP client.
    serial_emits(&mut d, b"boot log from serial");
    pump(&d, &mut tcp);
    assert_eq!(tcp.received, b"boot log from serial");

    // Serial port -> PTY client.
    serial_emits(&mut d, b"for minicom");
    pump(&d, &mut mux);
    assert!(mux.received.ends_with(b"for minicom"));
}

#[test]
fn new_tcp_client_receives_replay_history() {
    let mut d = start(false);

    // Serial output while no client is connected lands in the replay buffer.
    serial_emits(&mut d, b"early boot log\n");
    let mut tcp = connect(&mut d, "127.0.0.1:40001");
    pump(&d, &mut tcp);
    assert_eq!(tcp.received, b"early boot log\n");

    // The live stream follows seamlessly.
    serial_emits(&mut d, b"live");
    pump(&d, &mut tcp);
    assert_eq!(&tcp.received[15..], b"live");
}

#[test]
fn replay_buffer_rolls_over_at_its_cap() {
    let mut d = start_with(false, 4);

    // 8 KiB of history into a 4 KiB buffer: only a suffix survives.
    let stream: Vec<u8> = (0..8192u32).map(|i| (i % 251) as u8).collect();
    serial_emits(&mut d, &stream);

    let mut tcp = connect(&mut d, "127.0.0.1:40001");
    pump(&d, &mut tcp);
    let replayed = tcp.received;

    assert!(!replayed.is_empty(), "expected some replay history");
    assert!(
        replayed.len() <= 4096,
        "replay exceeded cap: {} bytes",
        replayed.len()
    );
    assert_eq!(
        replayed,
        stream[stream.len() - replayed.len()..],
        "replay is not a suffix of the stream"
    );
}

#[test]
fn refuses_to_overwrite_a_real_file() {
    assert!(plan_link(LinkState::Other) == LinkAction::Refuse);
    let message = refusal("/tmp/sermuxd-test-busy");
    assert!(message.contains("is not a symlink"), "unexpected: {message}");
    assert_eq!(message, "/tmp/sermuxd-test-busy exists and is not a symlink");
}

#[test]
fn handshake_and_data_in_one_chunk() {
    let mut d = start(false);
    let ctrl = d.arbiter.open_control().unwrap();
    let mut tcp = connect(&mut d, "127.0.0.1:40001");
    let token = token_of(&cmd(&mut d, ctrl, "CLAIM"));
    send(&mut d, &mut tcp, format!("TOKEN {token}\none").as_bytes());
    assert_eq!(on_the_wire(&mut d), b"one");
}

#[test]
fn claims_do_not_steal_without_force() {
    let mut d = start(false);
    let ctrl = d.arbiter.open_control().unwrap();
    let mut tcp1 = connect(&mut d, "127.0.0.1:40001");
    let mut tcp2 = connect(&mut d, "127.0.0.1:40002");

    // Both tokens are handed out while the PTY is the owner.
    let token1 = token_of(&cmd(&mut d, ctrl, "CLAIM"));
    let token2 = token_of(&cmd(&mut d, ctrl, "CLAIM"));
    assert_ne!(token1, token2);
    send(&mut d, &mut tcp1, format!("TOKEN {token1}\n").as_bytes());
    send(&mut d, &mut tcp2, format!("TOKEN {token2}\nlate").as_bytes());
    assert!(on_the_wire(&mut d).is_empty());
    assert_eq!(d.arbiter.owner(), Some(tcp1.id));

    // The second token is good again once the lock is free.
    disconnect(&mut d, tcp1);
    assert_eq!(d.arbiter.owner(), Some(d.pty));
    send(&mut d, &mut tcp2, format!("TOKEN {token2}\nnow").as_bytes());
    assert_eq!(on_the_wire(&mut d), b"now");
}

#[test]
fn bytes_that_wait_follow_the_lock() {
    let mut d = start(true);
    let ctrl = d.arbiter.open_control().unwrap();
    let mut tcp = connect(&mut d, "127.0.0.1:40001");
    let queued = match d.arbiter.receive(d.pty, b"typed") {
        Verdict::Forward(bytes) => bytes,
        _ => panic!("the default owner's bytes are forwarded"),
    };
    match d.arbiter.settle(d.pty, queued.clone()) {
        Verdict::Forward(bytes) => assert_eq!(&bytes[..], b"typed"),
        _ => panic!("the lock did not change hands"),
    }
    let token = token_of(&cmd(&mut d, ctrl, "CLAIM"));
    send(&mut d, &mut tcp, format!("TOKEN {token}\n").as_bytes());
    match d.arbiter.settle(d.pty, queued) {
        Verdict::Drop(Some(notice)) => {
            assert!(String::from_utf8_lossy(&notice).contains("TX denied"))
        }
        _ => panic!("the lock changed hands"),
    }
    assert!(matches!(d.arbiter.settle(tcp.id, Default::default()), Verdict::Nothing));
}

#[test]
fn closing_the_control_connection_voids_pending_tokens() {
    let mut d = start(false);
    let ctrl = d.arbiter.open_control().unwrap();
    let other = d.arbiter.open_control().unwrap();
    let mut tcp = connect(&mut d, "127.0.0.1:40001");
    let pending = token_of(&cmd(&mut d, ctrl, "CLAIM"));
    let kept = token_of(&cmd(&mut d, other, "CLAIM"));
    d.arbiter.close_control(ctrl);

    send(&mut d, &mut tcp, format!("TOKEN {pending}\nlost").as_bytes());
    assert!(on_the_wire(&mut d).is_empty());
    send(&mut d, &mut tcp, format!("TOKEN {kept}\nkept").as_bytes());
    assert_eq!(on_the_wire(&mut d), b"kept");

    // A token that was presented outlives its control connection.
    d.arbiter.close_control(other);
    assert_eq!(d.arbiter.owner(), Some(tcp.id));
}

#[test]
fn release_without_a_token() {
    let mut d = start(false);
    let ctrl = d.arbiter.open_control().unwrap();
    let other = d.arbiter.open_control().unwrap();
    let mut tcp = connect(&mut d, "127.0.0.1:40001");
    assert_eq!(cmd(&mut d, ctrl, "RELEASE"), "ERR nothing to release\n");
    let token = token_of(&cmd(&mut d, ctrl, "CLAIM"));
    send(&mut d, &mut tcp, format!("TOKEN {token}\n").as_bytes());
    assert_eq!(cmd(&mut d, other, "RELEASE"), "ERR nothing to release\n");
    assert_eq!(d.arbiter.owner(), Some(tcp.id));
    assert_eq!(cmd(&mut d, ctrl, "RELEASE"), "OK released\n");
    assert_eq!(d.arbiter.owner(), Some(d.pty));
    assert_eq!(cmd(&mut d, ctrl, &format!("RELEASE {token}")), "ERR unknown token\n");
}

#[test]
fn a_token_in_use_is_not_handed_out_again() {
    let mut arbiter = Arbiter::new(false);
    let ctrl = arbiter.open_control().unwrap();
    assert!(matches!(answer(&mut arbiter, ctrl, b"CLAIM\n", 7), Reply::Line(_)));
    assert!(matches!(answer(&mut arbiter, ctrl, b"CLAIM\n", 7), Reply::Retry));
    assert!(matches!(answer(&mut arbiter, ctrl, b"CLAIM\n", 8), Reply::Line(_)));
}

#[test]
fn the_pty_is_never_taken_for_a_data_connection() {
    let mut d = start(false);
    let ctrl = d.arbiter.open_control().unwrap();
    let token = token_of(&cmd(&mut d, ctrl, "CLAIM"));
    let mut mux = minicom(&d);
    let line = format!("TOKEN {token}\n");
    send(&mut d, &mut mux, line.as_bytes());
    assert_eq!(on_the_wire(&mut d), line.as_bytes());
}

#[test]
fn there_is_one_pty_and_without_it_no_default_owner() {
    let mut arbiter = Arbiter::new(false);
    assert_eq!(arbiter.status(), "OK clients: 0 ()  tx-owner: none\n");
    let tcp = arbiter.join_tcp("10.0.0.5:52344".to_string()).unwrap();
    assert_eq!(arbiter.status(), "OK clients: 1 (tcp:10.0.0.5:52344)  tx-owner: none\n");
    let pty = arbiter.join_pty().unwrap();
    assert!(arbiter.join_pty().is_none());
    assert_eq!(arbiter.status(), "OK clients: 2 (tcp:10.0.0.5:52344, pty)  tx-owner: pty\n");
    assert_eq!(arbiter.owner(), Some(pty));
    arbiter.leave(pty);
    assert_eq!(arbiter.owner(), None);
    assert!(matches!(arbiter.receive(tcp, b"x"), Verdict::Drop(None)));
    assert!(arbiter.join_pty().is_some());
}

#[test]
fn chunks_in_both_history_and_live_stream_are_sent_once() {
    let mut d = start(false);
    let subscribed = d.live.len();
    serial_emits(&mut d, b"in between ");
    let mut tcp = connect(&mut d, "127.0.0.1:40001");
    tcp.next = subscribed;
    serial_emits(&mut d, b"after");
    pump(&d, &mut tcp);
    assert_eq!(tcp.received, b"in between after");
}

#[test]
fn without_replay_a_client_sees_only_the_live_stream() {
    let mut d = start_with(false, 0);
    serial_emits(&mut d, b"before");
    let mut tcp = connect(&mut d, "127.0.0.1:40001");
    assert!(tcp.received.is_empty());
    serial_emits(&mut d, b"after");
    pump(&d, &mut tcp);
    assert_eq!(tcp.received, b"after");
}
