//! What the receive loop decides for each read from the connection.
//!
//! The loop itself belongs to whoever owns the connection: it reads, hands
//! the outcome to `receive_step`, and does what the reaction says.

use crate::error::ParserError;
use crate::model::quote::{
    is_control_echo, lemma_quote_round_trip, quote_wire, read_quote, Quote, QuoteView,
};
use crate::transport::ReadOutcome;
use crate::wire::text_fits;
use vstd::prelude::*;

verus! {

/// What to do after one read.
#[derive(Debug)]
pub enum Reaction {
    /// Print the quote and read on.
    Print(Quote),
    /// Read on.
    Ignore,
    /// End the loop with this error.
    Stop(ParserError),
}

/// What one read brought, as plain values.
pub enum Arrival {
    Data(Seq<u8>),
    Failure { reset: bool, detail: Seq<char> },
}

/// What to do after one read, as plain values.
pub enum Verdict {
    Print(QuoteView),
    Ignore,
    Stop(Seq<char>),
}

impl View for ReadOutcome {
    type V = Arrival;

    open spec fn view(&self) -> Arrival {
        match self {
            ReadOutcome::Data(bytes) => Arrival::Data(bytes@),
            ReadOutcome::Failed(e) => Arrival::Failure { reset: e.is_reset(), detail: e.detail@ },
        }
    }
}

/// The rule of the receive loop. Bytes that start with a quote give that
/// quote to print, unless it is a control echo; bytes that hold no quote
/// are noise and are passed over. A reset of the connection is passed over
/// too; any other failure of the transport ends the loop with an I/O error
/// that carries the transport's description.
pub open spec fn verdict(arrival: Arrival) -> Verdict {
    match arrival {
        Arrival::Data(bytes) => match read_quote(bytes) {
            Some((quote, _)) => if is_control_echo(quote) {
                Verdict::Ignore
            } else {
                Verdict::Print(quote)
            },
            None => Verdict::Ignore,
        },
        Arrival::Failure { reset, detail } => if reset {
            Verdict::Ignore
        } else {
            Verdict::Stop(detail)
        },
    }
}

/// Whether the loop still runs after `arrivals`.
pub open spec fn running(arrivals: Seq<Arrival>) -> bool
    decreases arrivals.len(),
{
    if arrivals.len() == 0 {
        true
    } else {
        running(arrivals.drop_last()) && !(verdict(arrivals.last()) is Stop)
    }
}

/// The quotes that the loop prints for `arrivals`, in order. After the
/// loop has ended nothing more is printed.
pub open spec fn printed(arrivals: Seq<Arrival>) -> Seq<QuoteView>
    decreases arrivals.len(),
{
    if arrivals.len() == 0 {
        Seq::empty()
    } else {
        let before = printed(arrivals.drop_last());
        match verdict(arrivals.last()) {
            Verdict::Print(quote) => if running(arrivals.drop_last()) {
                before.push(quote)
            } else {
                before
            },
            _ => before,
        }
    }
}

/// Decides what follows one read.
pub fn receive_step(outcome: ReadOutcome) -> (reaction: Reaction)
    ensures
        match verdict(outcome@) {
            Verdict::Print(quote) => reaction matches Reaction::Print(q) && q@ == quote,
            Verdict::Ignore => reaction is Ignore,
            Verdict::Stop(detail) => reaction matches Reaction::Stop(ParserError::Io(m)) && m@
                == detail,
        },
{
    match outcome {
        ReadOutcome::Data(bytes) => match Quote::decode(bytes.as_slice()) {
            Ok(quote) => {
                if quote.is_control_echo() {
                    Reaction::Ignore
                } else {
                    Reaction::Print(quote)
                }
            },
            Err(_) => Reaction::Ignore,
        },
        ReadOutcome::Failed(e) => {
            if e.transient() {
                Reaction::Ignore
            } else {
                Reaction::Stop(ParserError::Io(e.detail))
            }
        },
    }
}

/// A control echo is never printed: not for any price or volume, not with
/// any bytes after it, and not in any run of the loop.
pub proof fn lemma_control_echo_is_never_printed(arrivals: Seq<Arrival>)
    ensures
        forall|i: int|
            0 <= i < printed(arrivals).len() ==> !is_control_echo(#[trigger] printed(arrivals)[i]),
    decreases arrivals.len(),
{
    if arrivals.len() > 0 {
        let before = printed(arrivals.drop_last());
        lemma_control_echo_is_never_printed(arrivals.drop_last());
        assert forall|i: int| 0 <= i < printed(arrivals).len() implies !is_control_echo(
            #[trigger] printed(arrivals)[i],
        ) by {
            if i < before.len() {
                assert(printed(arrivals)[i] == before[i]);
            }
        }
    }
}

/// The datagram of a control echo is passed over.
pub proof fn lemma_control_echo_is_ignored(quote: QuoteView, tail: Seq<u8>)
    requires
        text_fits(quote.ticker),
        is_control_echo(quote),
    ensures
        verdict(Arrival::Data(quote_wire(quote) + tail)) == Verdict::Ignore,
{
    lemma_quote_round_trip(quote, tail);
}

/// The datagram of a quote that is no control echo has the quote printed.
pub proof fn lemma_quote_is_printed(quote: QuoteView, tail: Seq<u8>)
    requires
        text_fits(quote.ticker),
        !is_control_echo(quote),
    ensures
        verdict(Arrival::Data(quote_wire(quote) + tail)) == Verdict::Print(quote),
{
    lemma_quote_round_trip(quote, tail);
}

/// Bytes that hold no quote do not end the loop, and the quote that comes
/// after them is printed.
pub proof fn lemma_noise_is_passed_over(
    arrivals: Seq<Arrival>,
    noise: Seq<u8>,
    quote: QuoteView,
    tail: Seq<u8>,
)
    requires
        running(arrivals),
        read_quote(noise) is None,
        text_fits(quote.ticker),
        !is_control_echo(quote),
    ensures
        running(arrivals.push(Arrival::Data(noise))),
        printed(arrivals.push(Arrival::Data(noise))) == printed(arrivals),
        running(arrivals.push(Arrival::Data(noise)).push(Arrival::Data(quote_wire(quote) + tail))),
        printed(arrivals.push(Arrival::Data(noise)).push(Arrival::Data(quote_wire(quote) + tail)))
            == printed(arrivals).push(quote),
{
    let first = arrivals.push(Arrival::Data(noise));
    let second = first.push(Arrival::Data(quote_wire(quote) + tail));
    assert(first.drop_last() =~= arrivals);
    assert(second.drop_last() =~= first);
    lemma_quote_is_printed(quote, tail);
}

/// A reset of the connection does not end the loop; any other failure of
/// the transport does, and nothing is printed from then on.
pub proof fn lemma_only_reset_is_survived(
    arrivals: Seq<Arrival>,
    reset: bool,
    detail: Seq<char>,
    later: Arrival,
)
    requires
        running(arrivals),
    ensures
        running(arrivals.push(Arrival::Failure { reset, detail })) == reset,
        printed(arrivals.push(Arrival::Failure { reset, detail })) == printed(arrivals),
        !reset ==> printed(arrivals.push(Arrival::Failure { reset, detail }).push(later))
            == printed(arrivals),
{
    let first = arrivals.push(Arrival::Failure { reset, detail });
    let second = first.push(later);
    assert(first.drop_last() =~= arrivals);
    assert(second.drop_last() =~= first);
}

} // verus!
