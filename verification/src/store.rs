//! The store adapter: it builds the commands that the durable bit-field store
//! is sent and keeps the state of the connection to it.

use vstd::prelude::*;
use vstd::string::StringSliceAdditionalSpecFns;
use crate::pixel::Pixel;

verus! {

/// The key under which the store holds the whole canvas.
pub const CANVAS_NAME: &'static str = "newplaces";

/// Seconds to wait after a failed reconnection before the next attempt.
pub const RECONNECT_BACKOFF_SECS: u64 = 2;

/// `redis::Cmd`, a command under construction: a list of arguments, each a
/// byte string. Nothing of its representation is used here.
#[verifier::external_type_specification]
#[verifier::external_body]
pub struct ExCmd(redis::Cmd);

/// The arguments that a command holds, in order, the command's name first.
pub uninterp spec fn command_args(cmd: redis::Cmd) -> Seq<Seq<u8>>;

/// `redis::cmd` starts a command whose only argument is the bytes of `name`.
pub assume_specification[ redis::cmd ](name: &str) -> (cmd: redis::Cmd)
    ensures
        command_args(cmd) == seq![name.spec_bytes()],
;

/// `redis::Cmd::arg` with a string slice appends one argument, the bytes of
/// the string, and keeps the arguments before it.
#[verifier::external_body]
fn push_text(cmd: &mut redis::Cmd, text: &str)
    ensures
        command_args(*final(cmd)) == command_args(*old(cmd)).push(text.spec_bytes()),
{
    cmd.arg(text);
}

/// `redis::Cmd::arg` with an unsigned integer appends one argument, the
/// integer in decimal ASCII digits, and keeps the arguments before it.
#[verifier::external_body]
fn push_number(cmd: &mut redis::Cmd, value: u64)
    ensures
        command_args(*final(cmd)) == command_args(*old(cmd)).push(decimal(value as nat)),
{
    cmd.arg(value);
}

/// The decimal ASCII digits of `n`, most significant first, without padding.
pub open spec fn decimal(n: nat) -> Seq<u8>
    decreases n,
{
    if n < 10 {
        seq![(48 + n) as u8]
    } else {
        decimal(n / 10).push((48 + n % 10) as u8)
    }
}

/// The number that a sequence of decimal ASCII digits writes.
pub open spec fn decimal_value(digits: Seq<u8>) -> int
    decreases digits.len(),
{
    if digits.len() == 0 {
        0
    } else {
        10 * decimal_value(digits.drop_last()) + (digits.last() - 48)
    }
}

/// `decimal` writes its number and nothing else: only digits, at least one,
/// no leading zero but for zero itself, and read back they give the number.
pub proof fn lemma_decimal_reads_back(n: nat)
    ensures
        decimal(n).len() >= 1,
        forall|i: int| 0 <= i < decimal(n).len() ==> 48 <= #[trigger] decimal(n)[i] <= 57,
        n > 0 ==> decimal(n)[0] != 48,
        decimal_value(decimal(n)) == n,
    decreases n,
{
    let digits = decimal(n);
    if n < 10 {
        assert(digits.drop_last() =~= Seq::<u8>::empty());
        assert(decimal_value(digits.drop_last()) == 0);
        assert(digits.last() == 48 + n);
    } else {
        lemma_decimal_reads_back(n / 10);
        assert(digits.drop_last() =~= decimal(n / 10));
        assert(digits.last() == 48 + n % 10);
        assert(digits[0] == decimal(n / 10)[0]);
    }
}

/// The bit offset of a pixel's cell within the stored canvas.
pub open spec fn bit_offset(pixel: Pixel) -> int {
    32 * pixel.position()
}

/// The arguments of the command that sets the 32 bits of a pixel's cell to its
/// color, as one unsigned field at the cell's bit offset.
pub open spec fn set_pixel_args(pixel: Pixel) -> Seq<Seq<u8>> {
    seq![
        "BITFIELD".spec_bytes(),
        CANVAS_NAME.spec_bytes(),
        "SET".spec_bytes(),
        "u32".spec_bytes(),
        decimal(bit_offset(pixel) as nat),
        decimal(pixel.color as nat),
    ]
}

/// The arguments of the command that fetches the whole stored canvas.
pub open spec fn load_canvas_args() -> Seq<Seq<u8>> {
    seq!["GET".spec_bytes(), CANVAS_NAME.spec_bytes()]
}

/// The state of the connection to the durable store.
#[derive(Clone, Copy, Debug, PartialEq, Eq, Structural)]
pub enum ConnectionState {
    /// No connection has been made yet.
    Disconnected,
    /// Commands can be sent.
    Connected,
    /// The connection was lost and is being made again.
    Reconnecting,
}

/// What the supervisor of the connection reports to the adapter.
#[derive(Clone, Copy, Debug, PartialEq, Eq, Structural)]
pub enum StoreEvent {
    /// The service has started.
    Started,
    /// An attempt to connect succeeded.
    ConnectSucceeded,
    /// An attempt to connect failed.
    ConnectFailed,
    /// A command failed: the connection is taken as lost.
    ConnectionLost,
    /// The wait after a failed reconnection is over.
    BackoffElapsed,
}

/// What the adapter asks of the supervisor of the connection.
#[derive(Clone, Copy, Debug, PartialEq, Eq, Structural)]
pub enum SupervisorAction {
    /// Nothing.
    Idle,
    /// Attempt to connect now.
    Connect,
    /// Fetch the stored canvas: the first connection stands.
    LoadCanvas,
    /// Wait this many seconds, then report `BackoffElapsed`.
    RetryAfter(u64),
    /// Give up: without a first connection there is no canvas to serve.
    Abort,
}

/// Why the store adapter did not build a command.
#[derive(Clone, Copy, Debug, PartialEq, Eq, Structural)]
pub enum StoreError {
    /// There is no connection to send a command over.
    Unavailable,
}

/// The state that follows `state` on `event`, and what the supervisor is asked
/// to do.
pub open spec fn transition(state: ConnectionState, event: StoreEvent) -> (
    ConnectionState,
    SupervisorAction,
) {
    match (state, event) {
        (ConnectionState::Disconnected, StoreEvent::Started) => (
            ConnectionState::Disconnected,
            SupervisorAction::Connect,
        ),
        (ConnectionState::Disconnected, StoreEvent::ConnectSucceeded) => (
            ConnectionState::Connected,
            SupervisorAction::LoadCanvas,
        ),
        (ConnectionState::Disconnected, StoreEvent::ConnectFailed) => (
            ConnectionState::Disconnected,
            SupervisorAction::Abort,
        ),
        (ConnectionState::Connected, StoreEvent::ConnectionLost) => (
            ConnectionState::Reconnecting,
            SupervisorAction::Connect,
        ),
        (ConnectionState::Reconnecting, StoreEvent::ConnectSucceeded) => (
            ConnectionState::Connected,
            SupervisorAction::Idle,
        ),
        (ConnectionState::Reconnecting, StoreEvent::ConnectFailed) => (
            ConnectionState::Reconnecting,
            SupervisorAction::RetryAfter(RECONNECT_BACKOFF_SECS),
        ),
        (ConnectionState::Reconnecting, StoreEvent::BackoffElapsed) => (
            ConnectionState::Reconnecting,
            SupervisorAction::Connect,
        ),
        _ => (state, SupervisorAction::Idle),
    }
}

/// Only a failed first connection is fatal. Once a connection has stood, the
/// adapter never falls back to `Disconnected` and never gives up: a lost
/// connection is made again at once, each failed attempt is repeated after
/// the backoff, and only a successful attempt ends the reconnecting.
pub proof fn lemma_supervision(state: ConnectionState, event: StoreEvent)
    ensures
        transition(state, event).1 == SupervisorAction::Abort <==> state
            == ConnectionState::Disconnected && event == StoreEvent::ConnectFailed,
        transition(state, event).0 == ConnectionState::Disconnected ==> state
            == ConnectionState::Disconnected,
        transition(ConnectionState::Connected, StoreEvent::ConnectionLost) == (
            ConnectionState::Reconnecting,
            SupervisorAction::Connect,
        ),
        transition(ConnectionState::Reconnecting, StoreEvent::ConnectFailed) == (
            ConnectionState::Reconnecting,
            SupervisorAction::RetryAfter(RECONNECT_BACKOFF_SECS),
        ),
        transition(ConnectionState::Reconnecting, StoreEvent::BackoffElapsed) == (
            ConnectionState::Reconnecting,
            SupervisorAction::Connect,
        ),
        state == ConnectionState::Reconnecting && transition(state, event).0
            == ConnectionState::Connected ==> event == StoreEvent::ConnectSucceeded,
{
}

/// The store adapter. It alone changes the state of the connection.
#[derive(Debug)]
pub struct RedisServer {
    state: ConnectionState,
}

impl View for RedisServer {
    type V = ConnectionState;

    closed spec fn view(&self) -> ConnectionState {
        self.state
    }
}

impl Default for RedisServer {
    /// An adapter that has no connection yet.
    fn default() -> (server: RedisServer)
        ensures
            server@ == ConnectionState::Disconnected,
    {
        RedisServer::new()
    }
}

impl RedisServer {
    /// Makes an adapter that has no connection yet.
    pub fn new() -> (server: RedisServer)
        ensures
            server@ == ConnectionState::Disconnected,
    {
        RedisServer { state: ConnectionState::Disconnected }
    }

    /// Returns the state of the connection.
    pub fn state(&self) -> (state: ConnectionState)
        ensures
            state == self@,
    {
        self.state
    }

    /// Takes a report of the supervisor, moves to the state that follows and
    /// returns what the supervisor is to do next.
    pub fn step(&mut self, event: StoreEvent) -> (action: SupervisorAction)
        ensures
            (final(self)@, action) == transition(old(self)@, event),
    {
        let (next, action) = match (self.state, event) {
            (ConnectionState::Disconnected, StoreEvent::Started) => (
                ConnectionState::Disconnected,
                SupervisorAction::Connect,
            ),
            (ConnectionState::Disconnected, StoreEvent::ConnectSucceeded) => (
                ConnectionState::Connected,
                SupervisorAction::LoadCanvas,
            ),
            (ConnectionState::Disconnected, StoreEvent::ConnectFailed) => (
                ConnectionState::Disconnected,
                SupervisorAction::Abort,
            ),
            (ConnectionState::Connected, StoreEvent::ConnectionLost) => (
                ConnectionState::Reconnecting,
                SupervisorAction::Connect,
            ),
            (ConnectionState::Reconnecting, StoreEvent::ConnectSucceeded) => (
                ConnectionState::Connected,
                SupervisorAction::Idle,
            ),
            (ConnectionState::Reconnecting, StoreEvent::ConnectFailed) => (
                ConnectionState::Reconnecting,
                SupervisorAction::RetryAfter(RECONNECT_BACKOFF_SECS),
            ),
            (ConnectionState::Reconnecting, StoreEvent::BackoffElapsed) => (
                ConnectionState::Reconnecting,
                SupervisorAction::Connect,
            ),
            (state, _) => (state, SupervisorAction::Idle),
        };
        self.state = next;
        action
    }

    /// Builds the command that durably sets the cell of `pixel` to its color:
    /// one atomic write of 32 bits at the cell's bit offset. Without a
    /// connection no command is built: the write is refused at once.
    pub fn commit_pixel(&self, pixel: Pixel) -> (r: Result<redis::Cmd, StoreError>)
        requires
            pixel.in_bounds(),
        ensures
            self@ == ConnectionState::Connected ==> r is Ok && command_args(r->Ok_0)
                == set_pixel_args(pixel),
            self@ != ConnectionState::Connected ==> r == Err::<redis::Cmd, StoreError>(
                StoreError::Unavailable,
            ),
    {
        match self.state {
            ConnectionState::Connected => {
                let offset: u64 = 32 * (pixel.cell() as u64);
                let mut cmd = redis::cmd("BITFIELD");
                push_text(&mut cmd, CANVAS_NAME);
                push_text(&mut cmd, "SET");
                push_text(&mut cmd, "u32");
                push_number(&mut cmd, offset);
                push_number(&mut cmd, pixel.color as u64);
                assert(command_args(cmd) =~= set_pixel_args(pixel));
                Ok(cmd)
            },
            _ => Err(StoreError::Unavailable),
        }
    }

    /// Builds the command that fetches the whole stored canvas, or refuses
    /// when there is no connection.
    pub fn load_canvas(&self) -> (r: Result<redis::Cmd, StoreError>)
        ensures
            self@ == ConnectionState::Connected ==> r is Ok && command_args(r->Ok_0)
                == load_canvas_args(),
            self@ != ConnectionState::Connected ==> r == Err::<redis::Cmd, StoreError>(
                StoreError::Unavailable,
            ),
    {
        match self.state {
            ConnectionState::Connected => {
                let mut cmd = redis::cmd("GET");
                push_text(&mut cmd, CANVAS_NAME);
                assert(command_args(cmd) =~= load_canvas_args());
                Ok(cmd)
            },
            _ => Err(StoreError::Unavailable),
        }
    }
}

} // verus!
