//! The commands the client sends: one to subscribe, one to keep the
//! subscription alive.

use crate::error::ParserError;
use crate::model::tickers::{is_symbol, symbols_of, Ticker};
use crate::wire::{
    lemma_list_round_trip, lemma_text_round_trip, list_fits, read_list, read_text, take_list,
    take_text, text_fits, texts_of, wire_list, wire_text,
};
use bincode::error::EncodeError;
use vstd::prelude::*;

verus! {

/// The header of a subscribe command.
pub const HEADER: &'static str = "J_QUOTE";

/// The header of a keepalive command.
pub const PING: &'static str = "PING";

/// The transport tag that every command carries.
pub const CONNECTION: &'static str = "udp";

/// The message of the error for bytes that hold no command.
pub const MALFORMED_COMMAND: &'static str = "malformed command";

/// A message from the client to the server.
#[derive(Debug, PartialEq, Eq)]
pub struct Command {
    pub header: String,
    pub connection: String,
    pub address: String,
    pub port: String,
    pub tickers: Vec<Ticker>,
}

/// What a command says.
pub struct CommandView {
    pub header: Seq<char>,
    pub connection: Seq<char>,
    pub address: Seq<char>,
    pub port: Seq<char>,
    pub tickers: Seq<Seq<char>>,
}

impl View for Command {
    type V = CommandView;

    open spec fn view(&self) -> CommandView {
        CommandView {
            header: self.header@,
            connection: self.connection@,
            address: self.address@,
            port: self.port@,
            tickers: symbols_of(self.tickers@),
        }
    }
}

impl Clone for Command {
    fn clone(&self) -> (copy: Self)
        ensures
            copy@ == self@,
    {
        let mut tickers: Vec<Ticker> = Vec::new();
        let mut i: usize = 0;
        while i < self.tickers.len()
            invariant
                i <= self.tickers.len(),
                tickers.len() == i,
                forall|k: int| 0 <= k < i ==> (#[trigger] tickers[k])@ == self.tickers[k]@,
            decreases self.tickers.len() - i,
        {
            tickers.push(self.tickers[i].clone());
            i += 1;
        }
        assert(symbols_of(tickers@) =~= symbols_of(self.tickers@));
        Command {
            header: self.header.clone(),
            connection: self.connection.clone(),
            address: self.address.clone(),
            port: self.port.clone(),
            tickers,
        }
    }
}

/// The wire form of a command: its five fields in declaration order.
pub open spec fn command_wire(c: CommandView) -> Seq<u8> {
    wire_text(c.header) + wire_text(c.connection) + wire_text(c.address) + wire_text(c.port)
        + wire_list(c.tickers)
}

/// The command at the start of `b` and the number of bytes it takes. Its
/// tickers must be symbols.
pub open spec fn read_command(b: Seq<u8>) -> Option<(CommandView, int)> {
    match read_text(b) {
        Some((header, n1)) => match read_text(b.skip(n1)) {
            Some((connection, n2)) => match read_text(b.skip(n1 + n2)) {
                Some((address, n3)) => match read_text(b.skip(n1 + n2 + n3)) {
                    Some((port, n4)) => match read_list(b.skip(n1 + n2 + n3 + n4)) {
                        Some((tickers, n5)) => {
                            if forall|i: int|
                                0 <= i < tickers.len() ==> is_symbol(#[trigger] tickers[i]) {
                                Some(
                                    (
                                        CommandView { header, connection, address, port, tickers },
                                        n1 + n2 + n3 + n4 + n5,
                                    ),
                                )
                            } else {
                                None
                            }
                        },
                        None => None,
                    },
                    None => None,
                },
                None => None,
            },
            None => None,
        },
        None => None,
    }
}

/// Whether every length in a command fits its prefix on the wire, and
/// every ticker is a symbol.
pub open spec fn command_valid(c: CommandView) -> bool {
    &&& text_fits(c.header)
    &&& text_fits(c.connection)
    &&& text_fits(c.address)
    &&& text_fits(c.port)
    &&& list_fits(c.tickers)
    &&& forall|i: int| 0 <= i < c.tickers.len() ==> is_symbol(#[trigger] c.tickers[i])
}

/// Decoding the wire form of a valid command gives the command back,
/// whatever bytes follow it.
pub proof fn lemma_command_round_trip(c: CommandView, tail: Seq<u8>)
    requires
        command_valid(c),
    ensures
        read_command(command_wire(c) + tail) == Some((c, command_wire(c).len() as int)),
{
    let b = command_wire(c) + tail;
    let w1 = wire_text(c.header);
    let w2 = wire_text(c.connection);
    let w3 = wire_text(c.address);
    let w4 = wire_text(c.port);
    let w5 = wire_list(c.tickers);
    let n1 = w1.len() as int;
    let n2 = w2.len() as int;
    let n3 = w3.len() as int;
    let n4 = w4.len() as int;
    lemma_text_round_trip(c.header, w2 + w3 + w4 + w5 + tail);
    assert(b =~= w1 + (w2 + w3 + w4 + w5 + tail));
    lemma_text_round_trip(c.connection, w3 + w4 + w5 + tail);
    assert(b.skip(n1) =~= w2 + (w3 + w4 + w5 + tail));
    lemma_text_round_trip(c.address, w4 + w5 + tail);
    assert(b.skip(n1 + n2) =~= w3 + (w4 + w5 + tail));
    lemma_text_round_trip(c.port, w5 + tail);
    assert(b.skip(n1 + n2 + n3) =~= w4 + (w5 + tail));
    lemma_list_round_trip(c.tickers, tail);
    assert(b.skip(n1 + n2 + n3 + n4) =~= w5 + tail);
}

/// `bincode::error::EncodeError`, the error with which bincode refuses to
/// encode a value. Nothing is known of what it holds.
#[verifier::external_type_specification]
#[verifier::external_body]
pub struct ExEncodeError(EncodeError);

/// Calls `bincode::encode_to_vec` in bincode's standard configuration on the
/// five fields of a command, taken as a tuple. Taken on trust from bincode's
/// source. The call succeeds: it writes into a growing vector, which takes
/// every byte, the standard configuration sets no limit, and texts, lists,
/// references and tuples only hand on what the writer returns. The bytes
/// are `command_wire`: bincode writes a tuple as its members one after the
/// other, a text as its length in bytes and its UTF-8 bytes, a list as its
/// length and its items, and every length as a variable-length integer
/// with a little-endian payload.
#[verifier::external_body]
fn bincode_encode(command: &Command) -> (r: Result<Vec<u8>, EncodeError>)
    ensures
        r is Ok,
        r matches Ok(bytes) ==> bytes@ == command_wire(command@),
{
    let symbols: Vec<&str> = command.tickers.iter().map(|t| t.as_str()).collect();
    bincode::encode_to_vec(
        (&command.header, &command.connection, &command.address, &command.port, symbols),
        bincode::config::standard(),
    )
}

impl Command {
    /// The command that subscribes to `tickers` and tells the server where
    /// to send their quotes.
    pub fn new(address: &str, port: &str, tickers: Vec<Ticker>) -> (c: Command)
        ensures
            c@.header == HEADER@,
            c@.connection == CONNECTION@,
            c@.address == address@,
            c@.port == port@,
            c.tickers == tickers,
    {
        Command {
            header: String::from_str(HEADER),
            connection: String::from_str(CONNECTION),
            address: String::from_str(address),
            port: String::from_str(port),
            tickers,
        }
    }

    /// The command that keeps a subscription alive. It names no ticker.
    pub fn new_ping(ip: &str, port: &str) -> (c: Command)
        ensures
            c@.header == PING@,
            c@.connection == CONNECTION@,
            c@.address == ip@,
            c@.port == port@,
            c@.tickers.len() == 0,
    {
        Command {
            header: String::from_str(PING),
            connection: String::from_str(CONNECTION),
            address: String::from_str(ip),
            port: String::from_str(port),
            tickers: Vec::new(),
        }
    }

    /// What the client returns for an attempt to encode: the bytes, or a
    /// format error that carries the encoder's description.
    pub fn encoding(outcome: Result<Vec<u8>, EncodeError>) -> (r: Result<Vec<u8>, ParserError>)
        ensures
            match outcome {
                Ok(bytes) => r matches Ok(out) && out == bytes,
                Err(_) => r matches Err(ParserError::Format(_)),
            },
    {
        match outcome {
            Ok(bytes) => Ok(bytes),
            Err(e) => Err(ParserError::Format(e.to_string())),
        }
    }

    /// The wire form of the command. Every command has one.
    pub fn encode(&self) -> (r: Result<Vec<u8>, ParserError>)
        ensures
            r matches Ok(bytes) && bytes@ == command_wire(self@),
    {
        Command::encoding(bincode_encode(self))
    }

    /// The command that `bytes` start with. Bytes after it are ignored.
    pub fn decode(bytes: &[u8]) -> (r: Result<Command, ParserError>)
        ensures
            match r {
                Ok(c) => read_command(bytes@) matches Some((v, _)) && c@ == v,
                Err(ParserError::Format(m)) => read_command(bytes@) is None && m@
                    == MALFORMED_COMMAND@,
                Err(_) => false,
            },
    {
        let ghost b = bytes@;
        assert(b.skip(0) =~= b);
        let (header, p1) = match take_text(bytes, 0) {
            Some(field) => field,
            None => { return Err(ParserError::Format(String::from_str(MALFORMED_COMMAND))); },
        };
        let (connection, p2) = match take_text(bytes, p1) {
            Some(field) => field,
            None => { return Err(ParserError::Format(String::from_str(MALFORMED_COMMAND))); },
        };
        let (address, p3) = match take_text(bytes, p2) {
            Some(field) => field,
            None => { return Err(ParserError::Format(String::from_str(MALFORMED_COMMAND))); },
        };
        let (port, p4) = match take_text(bytes, p3) {
            Some(field) => field,
            None => { return Err(ParserError::Format(String::from_str(MALFORMED_COMMAND))); },
        };
        let (names, p5) = match take_list(bytes, p4) {
            Some(field) => field,
            None => { return Err(ParserError::Format(String::from_str(MALFORMED_COMMAND))); },
        };
        let ghost read = CommandView {
            header: header@,
            connection: connection@,
            address: address@,
            port: port@,
            tickers: texts_of(names@),
        };
        proof {
            assert(b.skip(p1 as int) =~= b.skip(p1 - 0));
            assert(b.skip(p2 as int) =~= b.skip((p1 - 0) + (p2 - p1)));
            assert(b.skip(p3 as int) =~= b.skip((p1 - 0) + (p2 - p1) + (p3 - p2)));
            assert(b.skip(p4 as int) =~= b.skip((p1 - 0) + (p2 - p1) + (p3 - p2) + (p4 - p3)));
        }
        assert(read_command(b) == if forall|k: int|
            0 <= k < read.tickers.len() ==> is_symbol(#[trigger] read.tickers[k]) {
            Some((read, p5 as int))
        } else {
            None
        });
        let mut tickers: Vec<Ticker> = Vec::new();
        let mut i: usize = 0;
        while i < names.len()
            invariant
                i <= names.len(),
                tickers.len() == i,
                read.tickers == texts_of(names@),
                b == bytes@,
                read_command(b) == if forall|k: int|
                    0 <= k < read.tickers.len() ==> is_symbol(#[trigger] read.tickers[k]) {
                    Some((read, p5 as int))
                } else {
                    None
                },
                forall|k: int| 0 <= k < i ==> is_symbol(#[trigger] texts_of(names@)[k]),
                forall|k: int| 0 <= k < i ==> (#[trigger] tickers[k])@ == names[k]@,
            decreases names.len() - i,
        {
            match Ticker::new(names[i].as_str()) {
                Some(ticker) => tickers.push(ticker),
                None => {
                    assert(!is_symbol(texts_of(names@)[i as int]));
                    return Err(ParserError::Format(String::from_str(MALFORMED_COMMAND)));
                },
            }
            i += 1;
        }
        assert(symbols_of(tickers@) =~= texts_of(names@));
        Ok(Command { header, connection, address, port, tickers })
    }
}

} // verus!
