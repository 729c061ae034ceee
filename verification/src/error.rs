//! The errors of the server and of response parsing, and the one-line
//! report that is logged for an error and its chain of causes.

use vstd::prelude::*;
use vstd::string::StringExecFns;

use crate::text::{decimal, push_decimal};

verus! {

/// std's `io::Error`, carried along as the source of an error.
#[verifier::external_type_specification]
#[verifier::external_body]
pub struct ExIoError(std::io::Error);

/// Errors that stop the whole server, or a whole worker.
#[derive(Debug)]
pub enum Error {
    Bind { addr: String, source: std::io::Error },
    ConfigureListener(std::io::Error),
    CreatePoll(std::io::Error),
    SpawnWorker { id: usize, source: std::io::Error },
    Accept(std::io::Error),
    Poll(std::io::Error),
}

/// Errors that only affect a single connection: it gets dropped,
/// and the server keeps running.
#[derive(Debug)]
pub enum ConnError {
    SetNonblocking(std::io::Error),
    WorkerGone(usize),
    Register(std::io::Error),
    Read(std::io::Error),
    Write(std::io::Error),
}

/// Why a byte slice could not be parsed as an HTTP response.
#[derive(Debug)]
pub enum ParseError {
    /// No blank line (`\r\n\r\n`) ends the head.
    IncompleteHead,
    /// The head is not well-formed UTF-8.
    NotUtf8(std::str::Utf8Error),
    /// The status line, which does not start with `HTTP/` and a number.
    StatusLine(String),
    /// A number outside `100..=999` where the status code stands.
    StatusCode(u16),
    /// A header line without a `:`.
    HeaderLine(String),
}

/// What a [`ParseError`] says, as plain values.
#[verifier::ext_equal]
pub enum ParseFailure {
    IncompleteHead,
    NotUtf8,
    StatusLine(Seq<char>),
    StatusCode(u16),
    HeaderLine(Seq<char>),
}

impl ParseError {
    pub open spec fn failure(&self) -> ParseFailure {
        match self {
            ParseError::IncompleteHead => ParseFailure::IncompleteHead,
            ParseError::NotUtf8(_) => ParseFailure::NotUtf8,
            ParseError::StatusLine(s) => ParseFailure::StatusLine(s@),
            ParseError::StatusCode(c) => ParseFailure::StatusCode(*c),
            ParseError::HeaderLine(s) => ParseFailure::HeaderLine(s@),
        }
    }
}

impl From<std::str::Utf8Error> for ParseError {
    fn from(e: std::str::Utf8Error) -> (r: Self) {
        ParseError::NotUtf8(e)
    }
}

impl vstd::std_specs::convert::FromSpecImpl<std::str::Utf8Error> for ParseError {
    open spec fn obeys_from_spec() -> bool {
        true
    }

    open spec fn from_spec(e: std::str::Utf8Error) -> Self {
        ParseError::NotUtf8(e)
    }
}

/// The text `format!("{:?}", s)` gives for a string: the string in double
/// quotes, with the characters that need it escaped.
pub uninterp spec fn debug_text(s: Seq<char>) -> Seq<char>;

/// Calls `format!("{:?}", s)`; its result depends on the characters of `s`
/// alone, and nothing more is said of it.
#[verifier::external_body]
fn debug_quoted(s: &str) -> (r: String)
    ensures
        r@ == debug_text(s@),
{
    format!("{:?}", s)
}

impl Error {
    /// The message shown for this error (its source is shown after it).
    pub fn message(&self) -> (m: String)
        ensures
            m@ == match self {
                Error::Bind { addr, .. } => "failed to bind "@ + addr@,
                Error::ConfigureListener(_) => "failed to configure listener"@,
                Error::CreatePoll(_) => "failed to create poll instance"@,
                Error::SpawnWorker { id, .. } => "failed to spawn worker "@ + decimal(*id as nat),
                Error::Accept(_) => "failed to accept connection"@,
                Error::Poll(_) => "failed to poll for events"@,
            },
    {
        match self {
            Error::Bind { addr, .. } => {
                let mut m = String::from_str("failed to bind ");
                m.append(addr.as_str());
                m
            },
            Error::ConfigureListener(_) => String::from_str("failed to configure listener"),
            Error::CreatePoll(_) => String::from_str("failed to create poll instance"),
            Error::SpawnWorker { id, .. } => {
                let mut m = String::from_str("failed to spawn worker ");
                push_decimal(&mut m, *id);
                m
            },
            Error::Accept(_) => String::from_str("failed to accept connection"),
            Error::Poll(_) => String::from_str("failed to poll for events"),
        }
    }
}

impl ConnError {
    /// The message shown for this error (its source is shown after it).
    pub fn message(&self) -> (m: String)
        ensures
            m@ == match self {
                ConnError::SetNonblocking(_) => "failed to set non-blocking mode"@,
                ConnError::WorkerGone(id) => "worker "@ + decimal(*id as nat) + " has shut down"@,
                ConnError::Register(_) => "failed to register with poll"@,
                ConnError::Read(_) => "read failed"@,
                ConnError::Write(_) => "write failed"@,
            },
    {
        match self {
            ConnError::SetNonblocking(_) => String::from_str("failed to set non-blocking mode"),
            ConnError::WorkerGone(id) => {
                let mut m = String::from_str("worker ");
                push_decimal(&mut m, *id);
                m.append(" has shut down");
                m
            },
            ConnError::Register(_) => String::from_str("failed to register with poll"),
            ConnError::Read(_) => String::from_str("read failed"),
            ConnError::Write(_) => String::from_str("write failed"),
        }
    }
}

impl ParseError {
    /// The message shown for this error.
    pub fn message(&self) -> (m: String)
        ensures
            m@ == match self {
                ParseError::IncompleteHead => "headers are not terminated by a blank line"@,
                ParseError::NotUtf8(_) => "headers are not valid UTF-8"@,
                ParseError::StatusLine(s) => "malformed status line: "@ + debug_text(s@),
                ParseError::StatusCode(c) => decimal(*c as nat) + " is not a valid status code"@,
                ParseError::HeaderLine(s) => "malformed header line: "@ + debug_text(s@),
            },
    {
        match self {
            ParseError::IncompleteHead => String::from_str(
                "headers are not terminated by a blank line",
            ),
            ParseError::NotUtf8(_) => String::from_str("headers are not valid UTF-8"),
            ParseError::StatusLine(s) => {
                let mut m = String::from_str("malformed status line: ");
                let q = debug_quoted(s.as_str());
                m.append(q.as_str());
                m
            },
            ParseError::StatusCode(c) => {
                let mut m = String::new();
                push_decimal(&mut m, *c as usize);
                m.append(" is not a valid status code");
                m
            },
            ParseError::HeaderLine(s) => {
                let mut m = String::from_str("malformed header line: ");
                let q = debug_quoted(s.as_str());
                m.append(q.as_str());
                m
            },
        }
    }
}

/// The separator placed between the messages of an error chain.
pub open spec fn chain_separator() -> Seq<char> {
    seq![':', ' ']
}

/// The messages of an error chain joined by `": "`, outermost first.
pub open spec fn joined(msgs: Seq<Seq<char>>) -> Seq<char>
    decreases msgs.len(),
{
    if msgs.len() == 0 {
        seq![]
    } else if msgs.len() == 1 {
        msgs[0]
    } else {
        joined(msgs.drop_last()) + chain_separator() + msgs.last()
    }
}

/// The report of a chain: a single message stands alone, and each further
/// cause is added after `": "`, so the messages appear in order, outermost
/// first, separated by a colon and a space.
pub proof fn lemma_joined(msgs: Seq<Seq<char>>, m: Seq<char>)
    ensures
        joined(Seq::<Seq<char>>::empty()) == Seq::<char>::empty(),
        joined(seq![m]) == m,
        msgs.len() > 0 ==> joined(msgs.push(m)) == joined(msgs) + seq![':', ' '] + m,
{
    assert(msgs.push(m).drop_last() =~= msgs);
}

/// Formats an error with its full chain of causes, e.g.
/// `read failed: Connection reset by peer`. `chain` holds the message of
/// the error followed by the messages of its sources, outermost first.
pub fn report(chain: &Vec<String>) -> (msg: String)
    ensures
        msg@ == joined(chain@.map_values(|m: String| m@)),
{
    let ghost msgs = chain@.map_values(|m: String| m@);
    let mut msg = String::new();
    let mut i: usize = 0;
    while i < chain.len()
        invariant
            0 <= i <= chain@.len(),
            msgs == chain@.map_values(|m: String| m@),
            msg@ == joined(msgs.take(i as int)),
        decreases chain@.len() - i,
    {
        if i > 0 {
            msg.append(": ");
            proof {
                reveal_strlit(": ");
            }
        }
        msg.append(chain[i].as_str());
        proof {
            assert(msgs.take(i + 1).drop_last() =~= msgs.take(i as int));
            assert(msgs.take(i + 1).last() == chain@[i as int]@);
            if i == 0 {
                assert(msg@ =~= joined(msgs.take(1)));
            } else {
                assert(msg@ =~= joined(msgs.take(i + 1)));
            }
        }
        i += 1;
    }
    assert(msgs.take(chain@.len() as int) =~= msgs);
    msg
}

} // verus!
