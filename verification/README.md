# sermuxd

A serial port multiplexer daemon. It is the sole owner of a host serial port;
any number of clients connect to it, all of them receive what the port emits,
and one at a time may write to it.

- `src/` is the library: the rules of the daemon, verified with Verus.
  - `replay`: the rolling buffer of recent output that new clients get first.
  - `feed`: what one client is sent, history and live stream without a seam.
  - `serial`: the two directions of the port.
  - `ownership`: the model of the TX lock and what holds of it.
  - `arbiter`: the TX lock itself.
  - `handshake`: how a data connection presents a token.
  - `control`: the line protocol of the control port.
  - `client`: the reading side of a client, and piecewise writing.
  - `link`: the symlink to the PTY.
  - `payload`, `text`: byte buffers and numbers as text.
- `app/` is the daemon: sockets, the PTY, the port, and the command line.
- `tests/` runs the library, with the daemon's parts put together in memory.

## Control port

One command per line, one line in reply:

    STATUS
    OK clients: 2 (pty, tcp:10.0.0.5:52344)  tx-owner: pty
    CLAIM
    OK token: 4f3a2b1c9d0e8f7a
    RELEASE 4f3a2b1c9d0e8f7a
    OK released

`CLAIM --force` steals from a data connection that holds the lock; the PTY, as
the default owner, can be displaced by a plain `CLAIM`. The token is presented
on a data connection as `TOKEN <hex>` and a line feed, at the start of a chunk;
that connection then holds the lock until its token is released, it disconnects,
or a token claimed by force is presented on another connection.
A token from a plain `CLAIM` is turned down, and stays good, while another data
connection holds the lock. `RELEASE` without a token gives up everything that
was claimed over the same control connection.
