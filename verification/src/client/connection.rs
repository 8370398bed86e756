//! Connecting, with several attempts.

use vstd::prelude::*;

use crate::text::{copy_str, decimal, push_decimal, push_str};

verus! {

/// State of a connection.
#[derive(Debug, Clone, Copy, PartialEq, Eq, Structural)]
pub enum ConnectionState {
    /// There is no connection.
    Disconnected,
    /// A connection is being made.
    Connecting,
    /// There is a connection.
    Connected,
    /// No connection could be made.
    Error,
}

/// How an attempt to connect ended.
#[derive(Debug)]
pub enum Attempt<S> {
    /// With a stream.
    Opened(S),
    /// With a failure.
    Refused,
    /// Not in time.
    TimedOut,
}

/// Why connecting failed.
#[derive(Debug, Clone, Copy, PartialEq, Eq, Structural)]
pub enum ConnectError {
    /// The last attempt failed.
    Refused,
    /// The last attempt took too long.
    TimedOut,
    /// There was no attempt: so many are allowed.
    NoAttempts(u32),
}

impl ConnectError {
    /// The message of the error.
    pub open spec fn text(&self) -> Seq<char> {
        match *self {
            ConnectError::Refused => "Failed to connect"@,
            ConnectError::TimedOut => "Connection timeout"@,
            ConnectError::NoAttempts(n) => "Failed to connect after "@ + decimal(n as nat)
                + " attempts"@,
        }
    }

    /// The message of the error.
    pub fn message(&self) -> (r: String)
        ensures
            r@ == self.text(),
    {
        match self {
            ConnectError::Refused => copy_str("Failed to connect"),
            ConnectError::TimedOut => copy_str("Connection timeout"),
            ConnectError::NoAttempts(n) => {
                let mut m = copy_str("Failed to connect after ");
                push_decimal(&mut m, *n as u64);
                push_str(&mut m, " attempts");
                m
            },
        }
    }
}

/// What to do next while connecting.
#[derive(Debug, Clone, Copy, PartialEq, Eq, Structural)]
pub enum ConnectStep {
    /// Wait so many milliseconds and try.
    Try(u64),
    /// Nothing: there is a connection.
    Done,
    /// Nothing: connecting failed.
    Fail(ConnectError),
}

/// What to do first.
pub open spec fn first_step(max_retries: u32) -> ConnectStep {
    if max_retries == 0 {
        ConnectStep::Fail(ConnectError::NoAttempts(0))
    } else {
        ConnectStep::Try(0)
    }
}

/// What to do once an attempt ended. After a failure the client waits, longer each time.
pub open spec fn next_step<S>(max_retries: u32, attempt: u32, outcome: Attempt<S>) -> ConnectStep {
    match outcome {
        Attempt::Opened(_) => ConnectStep::Done,
        Attempt::Refused => if attempt + 1 < max_retries {
            ConnectStep::Try((100 * (attempt + 1)) as u64)
        } else {
            ConnectStep::Fail(ConnectError::Refused)
        },
        Attempt::TimedOut => if attempt + 1 < max_retries {
            ConnectStep::Try(0)
        } else {
            ConnectStep::Fail(ConnectError::TimedOut)
        },
    }
}

/// The state that a step leaves a connection in.
pub open spec fn state_after(step: ConnectStep) -> ConnectionState {
    match step {
        ConnectStep::Try(_) => ConnectionState::Connecting,
        ConnectStep::Done => ConnectionState::Connected,
        ConnectStep::Fail(_) => ConnectionState::Error,
    }
}

/// A connection over streams of some type.
#[derive(Debug)]
pub struct Connection<S> {
    /// Address of the server.
    pub addr: String,
    /// The stream, once there is one.
    pub stream: Option<S>,
    /// The state.
    pub state: ConnectionState,
    /// How long an attempt may take, in seconds.
    pub timeout_secs: u64,
    /// Largest number of attempts.
    pub max_retries: u32,
}

impl<S> Connection<S> {
    /// A connection that is not made yet.
    pub fn new(addr: &str) -> (r: Self)
        ensures
            r.addr@ == addr@,
            r.stream is None,
            r.state == ConnectionState::Disconnected,
            r.timeout_secs == 10,
            r.max_retries == 3,
    {
        Connection {
            addr: copy_str(addr),
            stream: None,
            state: ConnectionState::Disconnected,
            timeout_secs: 10,
            max_retries: 3,
        }
    }

    /// Sets how long an attempt may take, in seconds.
    pub fn with_timeout(self, secs: u64) -> (r: Self)
        ensures
            r == (Connection { timeout_secs: secs, ..self }),
    {
        Connection { timeout_secs: secs, ..self }
    }

    /// Sets the largest number of attempts.
    pub fn with_retries(self, retries: u32) -> (r: Self)
        ensures
            r == (Connection { max_retries: retries, ..self }),
    {
        Connection { max_retries: retries, ..self }
    }

    /// Begins to connect.
    pub fn connect(&mut self) -> (r: ConnectStep)
        ensures
            r == first_step(old(self).max_retries),
            *final(self) == (Connection { state: state_after(r), ..*old(self) }),
    {
        if self.max_retries == 0 {
            self.state = ConnectionState::Error;
            ConnectStep::Fail(ConnectError::NoAttempts(0))
        } else {
            self.state = ConnectionState::Connecting;
            ConnectStep::Try(0)
        }
    }

    /// Goes on once an attempt ended. Attempts are counted from 0.
    pub fn attempted(&mut self, attempt: u32, outcome: Attempt<S>) -> (r: ConnectStep)
        requires
            attempt < old(self).max_retries,
            old(self).state == ConnectionState::Connecting,
        ensures
            r == next_step(old(self).max_retries, attempt, outcome),
            *final(self) == (Connection {
                state: state_after(r),
                stream: match outcome {
                    Attempt::Opened(s) => Some(s),
                    _ => old(self).stream,
                },
                ..*old(self)
            }),
    {
        match outcome {
            Attempt::Opened(stream) => {
                self.stream = Some(stream);
                self.state = ConnectionState::Connected;
                ConnectStep::Done
            },
            Attempt::Refused => {
                if attempt + 1 < self.max_retries {
                    return ConnectStep::Try(100 * (attempt as u64 + 1));
                }
                self.state = ConnectionState::Error;
                ConnectStep::Fail(ConnectError::Refused)
            },
            Attempt::TimedOut => {
                if attempt + 1 < self.max_retries {
                    return ConnectStep::Try(0);
                }
                self.state = ConnectionState::Error;
                ConnectStep::Fail(ConnectError::TimedOut)
            },
        }
    }

    /// Drops the stream.
    pub fn disconnect(&mut self)
        ensures
            *final(self) == (Connection {
                stream: None,
                state: ConnectionState::Disconnected,
                ..*old(self)
            }),
    {
        self.stream = None;
        self.state = ConnectionState::Disconnected;
    }

    /// The state.
    pub fn state(&self) -> (r: ConnectionState)
        ensures
            r == self.state,
    {
        self.state
    }

    /// Whether there is a connection.
    pub open spec fn connected(&self) -> bool {
        self.state == ConnectionState::Connected && self.stream is Some
    }

    /// Whether there is a connection.
    pub fn is_connected(&self) -> (r: bool)
        ensures
            r == self.connected(),
    {
        self.state == ConnectionState::Connected && self.stream.is_some()
    }

    /// The stream.
    pub fn stream(&mut self) -> (r: Option<&mut S>)
        ensures
            match r {
                Some(s) => old(self).stream == Some(*s) && *final(self) == (Connection {
                    stream: Some(*final(s)),
                    ..*old(self)
                }),
                None => old(self).stream is None && *final(self) == *old(self),
            },
    {
        self.stream.as_mut()
    }

    /// Takes the stream out.
    pub fn take_stream(&mut self) -> (r: Option<S>)
        ensures
            r == old(self).stream,
            *final(self) == (Connection {
                stream: None,
                state: ConnectionState::Disconnected,
                ..*old(self)
            }),
    {
        self.state = ConnectionState::Disconnected;
        self.stream.take()
    }

    /// Begins to connect, unless there is a connection.
    pub fn ensure_connected(&mut self) -> (r: ConnectStep)
        ensures
            r == (if old(self).connected() {
                ConnectStep::Done
            } else {
                first_step(old(self).max_retries)
            }),
            *final(self) == (if old(self).connected() {
                *old(self)
            } else {
                Connection { state: state_after(r), ..*old(self) }
            }),
    {
        if self.is_connected() {
            ConnectStep::Done
        } else {
            self.connect()
        }
    }
}

/// The end of connecting when the attempts from some position on end as given.
pub open spec fn ending<S>(max_retries: u32, attempt: u32, outcomes: Seq<Attempt<S>>) -> ConnectStep
    decreases max_retries - attempt,
{
    let step = next_step(max_retries, attempt, outcomes[attempt as int]);
    if step is Try && attempt < max_retries {
        ending(max_retries, (attempt + 1) as u32, outcomes)
    } else {
        step
    }
}

/// Connecting ends, and with a connection exactly if one of the allowed attempts gives a
/// stream.
pub proof fn law_any_attempt_may_succeed<S>(
    max_retries: u32,
    attempt: u32,
    outcomes: Seq<Attempt<S>>,
)
    requires
        attempt < max_retries <= outcomes.len(),
    ensures
        ({
            let end = ending(max_retries, attempt, outcomes);
            &&& end !is Try
            &&& end is Done <==> exists|i: int|
                attempt <= i < max_retries && (#[trigger] outcomes[i]) is Opened
        }),
    decreases max_retries - attempt,
{
    let step = next_step(max_retries, attempt, outcomes[attempt as int]);
    if step is Try {
        law_any_attempt_may_succeed(max_retries, (attempt + 1) as u32, outcomes);
    }
}

/// An attempt that fails is followed by another as long as there are attempts left: after a
/// refusal the client waits a tenth of a second for each attempt so far, after a timeout not at
/// all. The last failure is the one that is told. Without attempts connecting fails at once.
pub proof fn law_attempts_go_on<S>(max_retries: u32, attempt: u32, outcome: Attempt<S>)
    requires
        attempt < max_retries,
    ensures
        ({
            let step = next_step(max_retries, attempt, outcome);
            &&& outcome is Opened ==> step == ConnectStep::Done
            &&& attempt + 1 < max_retries && outcome is Refused ==> (step matches ConnectStep::Try(
                wait,
            ) && wait == 100 * (attempt + 1))
            &&& attempt + 1 < max_retries && outcome is TimedOut ==> step == ConnectStep::Try(0)
            &&& attempt + 1 == max_retries && outcome is Refused ==> step == ConnectStep::Fail(
                ConnectError::Refused,
            )
            &&& attempt + 1 == max_retries && outcome is TimedOut ==> step == ConnectStep::Fail(
                ConnectError::TimedOut,
            )
        }),
        first_step(max_retries) == ConnectStep::Try(0),
        first_step(0) == ConnectStep::Fail(ConnectError::NoAttempts(0)),
{
}

} // verus!
