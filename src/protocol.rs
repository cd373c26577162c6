//! The connection preamble: the client names a transport in a plain-text line,
//! then sends a `Ping` in that transport, and the server answers with a `Pong`.
use vstd::prelude::*;

use crate::fs::same_text;

verus! {

/// The TCP port a server listens on unless told otherwise.
pub const DEFAULT_PORT: u16 = 1337;

/// The protocol version this server speaks.
pub const PROTOCOL_VERSION: usize = 0;

/// How the messages after the preamble are serialised.
#[derive(Clone, Copy, Debug, PartialEq, Eq, Structural)]
pub enum Transport {
    Json,
    Bincode,
    Ron,
}

/// The client's first message after the preamble.
#[derive(Clone, Copy, Debug, PartialEq, Eq, Structural)]
pub struct Ping {
    pub protocol_version: usize,
}

/// The server's answer to a `Ping`.
#[derive(Clone, Copy, Debug, PartialEq, Eq, Structural)]
pub enum Pong {
    Accepted,
    WrongProtocol,
}

/// A connection that speaks one transport.
pub struct Stream<C> {
    pub transport: Transport,
    pub conn: C,
}

/// A transport name that is none of `json`, `bincode` and `ron`.
#[derive(Debug, PartialEq, Eq)]
pub struct UnknownTransport(pub String);

/// Why a preamble line was refused.
#[derive(Debug, PartialEq, Eq)]
pub enum PreambleError {
    /// The line does not start with `HELLO FERRODB `.
    MissingPreamble,
    /// The named transport is unknown.
    Unknown(UnknownTransport),
}

/// The lower-case form of a text, as Unicode defines it.
pub uninterp spec fn lower_of(s: Seq<char>) -> Seq<char>;

/// A text without its leading and trailing white space.
pub uninterp spec fn trimmed(s: Seq<char>) -> Seq<char>;

/// Relies on `str::to_lowercase`: the result depends on the characters alone.
#[verifier::external_body]
fn lowercase(s: &str) -> (r: String)
    ensures
        r@ == lower_of(s@),
{
    s.to_lowercase()
}

/// Relies on `str::trim`: the result depends on the characters alone.
#[verifier::external_body]
fn trim_text(s: &str) -> (r: &str)
    ensures
        r@ == trimmed(s@),
{
    s.trim()
}

pub open spec fn json_text() -> Seq<char> {
    seq!['j', 's', 'o', 'n']
}

pub open spec fn bincode_text() -> Seq<char> {
    seq!['b', 'i', 'n', 'c', 'o', 'd', 'e']
}

pub open spec fn ron_text() -> Seq<char> {
    seq!['r', 'o', 'n']
}

/// The line prefix that opens a connection.
pub open spec fn preamble_text() -> Seq<char> {
    seq!['H', 'E', 'L', 'L', 'O', ' ', 'F', 'E', 'R', 'R', 'O', 'D', 'B', ' ']
}

/// The transport that an exact, lower-case name stands for.
pub open spec fn transport_named(name: Seq<char>) -> Option<Transport> {
    if name == json_text() {
        Some(Transport::Json)
    } else if name == bincode_text() {
        Some(Transport::Bincode)
    } else if name == ron_text() {
        Some(Transport::Ron)
    } else {
        None
    }
}

/// The name of a transport.
pub open spec fn transport_text(t: Transport) -> Seq<char> {
    match t {
        Transport::Json => json_text(),
        Transport::Bincode => bincode_text(),
        Transport::Ron => ron_text(),
    }
}

/// The answer to a ping: `Ok` exactly when the versions agree.
pub open spec fn answer_to(ping: Ping) -> Pong {
    if ping.protocol_version == PROTOCOL_VERSION {
        Pong::Accepted
    } else {
        Pong::WrongProtocol
    }
}

impl Transport {
    /// A stream over `conn` in this transport.
    pub fn stream<C>(self, conn: C) -> (r: Stream<C>)
        ensures
            r.transport == self,
            r.conn == conn,
    {
        Stream { transport: self, conn }
    }

    /// The transport's name, as it appears in the preamble.
    pub fn name(&self) -> (r: &'static str)
        ensures
            r@ == transport_text(*self),
    {
        proof {
            reveal_strlit("json");
            reveal_strlit("bincode");
            reveal_strlit("ron");
        }
        match self {
            Transport::Json => "json",
            Transport::Bincode => "bincode",
            Transport::Ron => "ron",
        }
    }

    /// The transport of an exact lower-case name.
    pub fn from_lowercase(name: &str) -> (r: Option<Transport>)
        ensures
            r == transport_named(name@),
    {
        proof {
            reveal_strlit("json");
            reveal_strlit("bincode");
            reveal_strlit("ron");
            assert("json"@ =~= json_text());
            assert("bincode"@ =~= bincode_text());
            assert("ron"@ =~= ron_text());
        }
        if same_text(name, "json") {
            assert(name@ == json_text());
            Some(Transport::Json)
        } else if same_text(name, "bincode") {
            assert(name@ == bincode_text());
            Some(Transport::Bincode)
        } else if same_text(name, "ron") {
            assert(name@ == ron_text());
            Some(Transport::Ron)
        } else {
            assert(name@ != json_text() && name@ != bincode_text() && name@ != ron_text());
            None
        }
    }

    /// The transport named by `s`, in any case.
    pub fn parse(s: &str) -> (r: Result<Transport, UnknownTransport>)
        ensures
            r is Ok <==> transport_named(lower_of(s@)) is Some,
            r is Ok ==> transport_named(lower_of(s@)) == Some(r->Ok_0),
            r is Err ==> r->Err_0.0@ == s@,
    {
        let lower = lowercase(s);
        match Transport::from_lowercase(lower.as_str()) {
            Some(t) => Ok(t),
            None => Err(UnknownTransport(s.to_string())),
        }
    }
}

/// Whether `line` starts with the preamble; the rest of it, if so.
pub fn after_preamble(line: &str) -> (r: Option<&str>)
    ensures
        r is Some <==> line@.len() >= preamble_text().len() && line@.subrange(
            0,
            preamble_text().len() as int,
        ) == preamble_text(),
        r is Some ==> r->0@ == line@.subrange(preamble_text().len() as int, line@.len() as int),
{
    proof {
        reveal_strlit("HELLO FERRODB ");
    }
    let prefix = "HELLO FERRODB ";
    let k = prefix.unicode_len();
    assert(prefix@ == preamble_text());
    let n = line.unicode_len();
    if n < k {
        return None;
    }
    let head = line.substring_char(0, k);
    if same_text(head, prefix) {
        Some(line.substring_char(k, n))
    } else {
        None
    }
}

/// The transport that a trimmed preamble line asks for.
pub fn transport_of_hello(trimmed_line: &str) -> (r: Result<Transport, PreambleError>)
    ensures
        after_preamble_spec(trimmed_line@) is None ==> r == Err::<Transport, PreambleError>(
            PreambleError::MissingPreamble,
        ),
        after_preamble_spec(trimmed_line@) is Some ==> {
            let rest = after_preamble_spec(trimmed_line@)->0;
            &&& transport_named(lower_of(rest)) is Some ==> r == Ok::<Transport, PreambleError>(
                transport_named(lower_of(rest))->0,
            )
            &&& transport_named(lower_of(rest)) is None ==> (r matches Err(
                PreambleError::Unknown(UnknownTransport(name)),
            ) && name@ == rest)
        },
{
    match after_preamble(trimmed_line) {
        None => Err(PreambleError::MissingPreamble),
        Some(rest) => match Transport::parse(rest) {
            Ok(t) => Ok(t),
            Err(e) => Err(PreambleError::Unknown(e)),
        },
    }
}

/// The text after the preamble, if the line starts with it.
pub open spec fn after_preamble_spec(line: Seq<char>) -> Option<Seq<char>> {
    if line.len() >= preamble_text().len() && line.subrange(0, preamble_text().len() as int)
        == preamble_text() {
        Some(line.subrange(preamble_text().len() as int, line.len() as int))
    } else {
        None
    }
}

/// The transport that a received preamble line asks for; white space around it
/// does not count.
pub fn read_hello(line: &str) -> (r: Result<Transport, PreambleError>)
    ensures
        r is Ok <==> after_preamble_spec(trimmed(line@)) is Some && transport_named(
            lower_of(after_preamble_spec(trimmed(line@))->0),
        ) is Some,
        r is Ok ==> transport_named(lower_of(after_preamble_spec(trimmed(line@))->0)) == Some(
            r->Ok_0,
        ),
        r == Err::<Transport, PreambleError>(PreambleError::MissingPreamble) <==> after_preamble_spec(
            trimmed(line@),
        ) is None,
{
    transport_of_hello(trim_text(line))
}

/// The server's answer to a ping.
pub fn answer(ping: &Ping) -> (r: Pong)
    ensures
        r == answer_to(*ping),
{
    if ping.protocol_version == PROTOCOL_VERSION {
        Pong::Accepted
    } else {
        Pong::WrongProtocol
    }
}

/// The line a client opens a connection with.
pub fn hello_line(t: Transport) -> (r: &'static str)
    ensures
        r@ == preamble_text() + transport_text(t) + seq!['\n'],
{
    proof {
        reveal_strlit("HELLO FERRODB json\n");
        reveal_strlit("HELLO FERRODB bincode\n");
        reveal_strlit("HELLO FERRODB ron\n");
    }
    let r = match t {
        Transport::Json => "HELLO FERRODB json\n",
        Transport::Bincode => "HELLO FERRODB bincode\n",
        Transport::Ron => "HELLO FERRODB ron\n",
    };
    assert(r@ =~= preamble_text() + transport_text(t) + seq!['\n']);
    r
}

} // verus!
