//! What the sender decides: the datagram of a command, the result of the
//! one-shot send, and the course of the keepalive loop.
//!
//! The transport itself is not here. Whoever owns the socket transmits the
//! datagram and reports how that ended; the functions below say what
//! follows.

use crate::error::ParserError;
use crate::model::command::{
    command_valid, command_wire, lemma_command_round_trip, read_command, Command, CommandView,
};
use crate::transport::{SendOutcome, TransportError, TransportFault};
use vstd::prelude::*;

verus! {

/// The pause between two keepalive beats, in milliseconds.
pub const INTERVAL_MS: u64 = 2000;

/// How the log line for a beat that could not be encoded starts.
pub const ENCODE_FAILED: &'static str = "failed to encode PING: ";

/// How the log line for a beat that could not be sent starts.
pub const SEND_FAILED: &'static str = "failed to send PING to ";

/// What stands between the target and the detail in a log line.
pub const DETAIL_MARK: &'static str = ": ";

/// What a keepalive beat comes to.
#[derive(Debug)]
pub enum Beat {
    /// Transmit these bytes to the target.
    Transmit(Vec<u8>),
    /// Skip this beat, and log the line.
    Skip(String),
}

/// How the keepalive loop goes on after a beat was handed to the transport.
#[derive(Debug)]
pub enum KeepaliveAction {
    /// Sleep for the interval, then beat again.
    Wait,
    /// Log the line, sleep for the interval, then beat again.
    LogAndWait(String),
    /// Log the line and end the loop.
    LogAndStop(String),
}

/// The log line for a beat to `target` that failed with `detail`.
pub open spec fn send_failure_line(target: Seq<char>, detail: Seq<char>) -> Seq<char> {
    SEND_FAILED@ + target + DETAIL_MARK@ + detail
}

/// How the keepalive loop goes on after `outcome`, in terms of what the
/// values say.
pub open spec fn keepalive_continues(outcome: SendOutcome) -> bool {
    match outcome {
        SendOutcome::Sent => true,
        SendOutcome::Failed(e) => !(e.fault is InvalidAddress),
    }
}

/// Whether the keepalive loop still runs after beats that ended with
/// `outcomes`.
pub open spec fn beating(outcomes: Seq<SendOutcome>) -> bool
    decreases outcomes.len(),
{
    if outcomes.len() == 0 {
        true
    } else {
        beating(outcomes.drop_last()) && keepalive_continues(outcomes.last())
    }
}

/// A beat that fails does not end the keepalive loop, whether the peer
/// reset the connection or the transport failed otherwise, unless the
/// target address is malformed.
pub proof fn lemma_missed_beat_is_survived(outcomes: Seq<SendOutcome>, e: TransportError)
    requires
        beating(outcomes),
    ensures
        beating(outcomes.push(SendOutcome::Failed(e))) == !(e.fault is InvalidAddress),
        e.is_reset() ==> beating(outcomes.push(SendOutcome::Failed(e))),
{
    assert(outcomes.push(SendOutcome::Failed(e)).drop_last() =~= outcomes);
}

/// The datagrams that reach the transport's far side when the beats of
/// the keepalive loop end with `outcomes`: one for every beat that was
/// made while the loop ran and that was sent. Each is the wire form of the
/// keepalive command.
pub open spec fn delivered(ping: CommandView, outcomes: Seq<SendOutcome>) -> Seq<Seq<u8>>
    decreases outcomes.len(),
{
    if outcomes.len() == 0 {
        Seq::empty()
    } else {
        let before = delivered(ping, outcomes.drop_last());
        if beating(outcomes.drop_last()) && outcomes.last() is Sent {
            before.push(command_wire(ping))
        } else {
            before
        }
    }
}

/// While every send succeeds the keepalive loop never ends, and it makes
/// as many sends as it is given time for. Every datagram is the same wire
/// form, and decodes to the keepalive command.
pub proof fn lemma_every_beat_carries_the_ping(ping: CommandView, outcomes: Seq<SendOutcome>)
    requires
        command_valid(ping),
        forall|i: int| 0 <= i < outcomes.len() ==> #[trigger] outcomes[i] is Sent,
    ensures
        beating(outcomes),
        delivered(ping, outcomes).len() == outcomes.len(),
        forall|i: int|
            0 <= i < outcomes.len() ==> #[trigger] delivered(ping, outcomes)[i] == command_wire(
                ping,
            ),
        read_command(command_wire(ping)) == Some((ping, command_wire(ping).len() as int)),
    decreases outcomes.len(),
{
    lemma_command_round_trip(ping, Seq::empty());
    assert(command_wire(ping) + Seq::<u8>::empty() =~= command_wire(ping));
    if outcomes.len() > 0 {
        let front = outcomes.drop_last();
        assert forall|i: int| 0 <= i < front.len() implies #[trigger] front[i] is Sent by {
            assert(front[i] == outcomes[i]);
        }
        lemma_every_beat_carries_the_ping(ping, front);
        assert(outcomes.last() == outcomes[outcomes.len() - 1]);
        assert forall|i: int| 0 <= i < outcomes.len() implies #[trigger] delivered(
            ping,
            outcomes,
        )[i] == command_wire(ping) by {
            if i < front.len() {
                assert(delivered(ping, outcomes)[i] == delivered(ping, front)[i]);
            }
        }
    }
}

/// Sends commands to the server.
pub struct CommandSender;

impl CommandSender {
    /// The datagram that carries `command`: its wire form.
    pub fn datagram(command: &Command) -> (r: Result<Vec<u8>, ParserError>)
        ensures
            r matches Ok(bytes) && bytes@ == command_wire(command@),
    {
        command.encode()
    }

    /// The result of the one-shot send: success if the datagram was sent,
    /// else an I/O error with the transport's description. Nothing is
    /// retried.
    pub fn conclude(outcome: SendOutcome) -> (r: Result<(), ParserError>)
        ensures
            match outcome {
                SendOutcome::Sent => r is Ok,
                SendOutcome::Failed(e) => r matches Err(ParserError::Io(detail)) && detail
                    == e.detail,
            },
    {
        match outcome {
            SendOutcome::Sent => Ok(()),
            SendOutcome::Failed(e) => Err(ParserError::Io(e.detail)),
        }
    }

    /// What a beat comes to, given the attempt to encode the keepalive
    /// command: the bytes are transmitted; a failure is logged and the beat
    /// skipped.
    pub fn beat_of(encoded: Result<Vec<u8>, ParserError>) -> (beat: Beat)
        ensures
            match encoded {
                Ok(bytes) => beat matches Beat::Transmit(out) && out == bytes,
                Err(e) => beat matches Beat::Skip(line) && exists|text: Seq<char>|
                    e.says(text) && line@ == ENCODE_FAILED@ + text,
            },
    {
        match encoded {
            Ok(bytes) => Beat::Transmit(bytes),
            Err(e) => {
                let detail = e.message();
                Beat::Skip(String::from_str(ENCODE_FAILED).concat(detail.as_str()))
            },
        }
    }

    /// One keepalive beat: the keepalive command is encoded anew, and its
    /// wire form transmitted. The bytes are the same from beat to beat.
    pub fn beat(ping: &Command) -> (beat: Beat)
        ensures
            beat matches Beat::Transmit(bytes) && bytes@ == command_wire(ping@),
    {
        CommandSender::beat_of(ping.encode())
    }

    /// How the keepalive loop goes on after a beat to `target` ended with
    /// `outcome`. A failed beat is logged and the loop goes on; only a
    /// malformed target address ends it.
    pub fn after_beat(target: &str, outcome: SendOutcome) -> (action: KeepaliveAction)
        ensures
            match outcome {
                SendOutcome::Sent => action is Wait,
                SendOutcome::Failed(e) => {
                    if e.fault is InvalidAddress {
                        action matches KeepaliveAction::LogAndStop(line) && line@
                            == send_failure_line(target@, e.detail@)
                    } else {
                        action matches KeepaliveAction::LogAndWait(line) && line@
                            == send_failure_line(target@, e.detail@)
                    }
                },
            },
            action is LogAndStop <==> !keepalive_continues(outcome),
    {
        match outcome {
            SendOutcome::Sent => KeepaliveAction::Wait,
            SendOutcome::Failed(e) => {
                let line = String::from_str(SEND_FAILED).concat(target).concat(DETAIL_MARK).concat(
                    e.detail.as_str(),
                );
                match e.fault {
                    TransportFault::InvalidAddress => KeepaliveAction::LogAndStop(line),
                    _ => KeepaliveAction::LogAndWait(line),
                }
            },
        }
    }
}

} // verus!
