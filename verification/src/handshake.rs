//! The decisions of the start-up sequence: whether to subscribe at all,
//! with which commands, and how the process ends.

use crate::error::ParserError;
use crate::model::command::{Command, CommandView, CONNECTION, HEADER, PING};
use crate::model::tickers::{symbols, symbols_of, Ticker, TickerParser, NO_TICKERS};
use vstd::prelude::*;
use vstd::utf8::*;

verus! {

/// What the client does once it has looked for the ticker file.
#[derive(Debug)]
pub enum Opening {
    /// There is no file to read: nothing is sent and the client ends
    /// cleanly.
    Idle,
    /// The file names these tickers: subscribe to them.
    Proceed(Vec<Ticker>),
    /// The file cannot be used: nothing is sent and the error is reported.
    Abort(ParserError),
}

/// A subscription that has not been sent yet: the command that subscribes,
/// and, kept back until that command is on its way, the one that will keep
/// the subscription alive.
#[derive(Debug)]
pub struct Subscription {
    command: Command,
    ping: Command,
}

impl Subscription {
    /// The command that subscribes.
    pub closed spec fn subscribe(self) -> Command {
        self.command
    }

    /// What the keepalive command of the subscription says.
    pub closed spec fn keepalive(self) -> CommandView {
        self.ping@
    }

    /// The command that subscribes.
    pub fn command(&self) -> (c: &Command)
        ensures
            *c == self.subscribe(),
    {
        &self.command
    }
}

/// A subscription that the server has been told of. Its keepalive command
/// is sent again and again for as long as the client runs.
#[derive(Debug)]
pub struct Session {
    pub ping: Command,
}

/// The start-up sequence.
pub struct Handshake;

impl Handshake {
    /// Decides on the ticker file. `source` is what the file holds, or
    /// `None` where it is missing or cannot be read.
    pub fn open(source: Option<Vec<u8>>) -> (opening: Opening)
        ensures
            match source {
                None => opening is Idle,
                Some(bytes) => {
                    if !valid_utf8(bytes@) {
                        opening matches Opening::Abort(ParserError::Utf8(_))
                    } else if symbols(decode_utf8(bytes@)).len() == 0 {
                        opening matches Opening::Abort(ParserError::ParseTickersFile(m)) && m@
                            == NO_TICKERS@
                    } else {
                        opening matches Opening::Proceed(tickers) && symbols_of(tickers@)
                            == symbols(decode_utf8(bytes@))
                    }
                },
            },
    {
        match source {
            None => Opening::Idle,
            Some(bytes) => match TickerParser::parse(bytes) {
                Ok(tickers) => Opening::Proceed(tickers),
                Err(e) => Opening::Abort(e),
            },
        }
    }

    /// The commands for a client that is reached at `address` and `port`
    /// and wants the quotes of `tickers`.
    pub fn subscription(address: &str, port: &str, tickers: Vec<Ticker>) -> (s: Subscription)
        ensures
            s.subscribe()@.header == HEADER@,
            s.subscribe()@.connection == CONNECTION@,
            s.subscribe()@.address == address@,
            s.subscribe()@.port == port@,
            s.subscribe().tickers == tickers,
            s.keepalive().header == PING@,
            s.keepalive().connection == CONNECTION@,
            s.keepalive().address == address@,
            s.keepalive().port == port@,
            s.keepalive().tickers.len() == 0,
    {
        Subscription {
            command: Command::new(address, port, tickers),
            ping: Command::new_ping(address, port),
        }
    }

    /// Opens the session once the subscribe command was sent: only then is
    /// the keepalive command handed out, so that no beat and no read comes
    /// before the subscription. A failed send ends the start-up with a
    /// format error that quotes the failure.
    pub fn confirm(subscription: Subscription, sent: Result<(), ParserError>) -> (r: Result<
        Session,
        ParserError,
    >)
        ensures
            match sent {
                Ok(_) => r matches Ok(session) && session.ping@ == subscription.keepalive(),
                Err(e) => r matches Err(ParserError::Format(m)) && e.says(m@),
            },
    {
        match sent {
            Ok(_) => Ok(Session { ping: subscription.ping }),
            Err(e) => Err(ParserError::Format(e.message())),
        }
    }

    /// The exit code of the process: 0 where it ends without an error, and
    /// where the only trouble is a ticker file without tickers; 1 for every
    /// other error.
    pub fn exit_code(result: &Result<(), ParserError>) -> (code: u8)
        ensures
            code == match result {
                Ok(_) => 0u8,
                Err(ParserError::ParseTickersFile(_)) => 0u8,
                Err(_) => 1u8,
            },
    {
        match result {
            Ok(_) => 0,
            Err(ParserError::ParseTickersFile(_)) => 0,
            Err(_) => 1,
        }
    }
}

} // verus!
