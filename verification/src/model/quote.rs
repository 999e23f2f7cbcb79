//! Quotes, the price updates that the server pushes.

use crate::error::ParserError;
use crate::model::command::{HEADER, PING};
use crate::wire::{
    le_bytes, le_number, le_value, lemma_le_round_trip, lemma_le_value_bound, lemma_pow256,
    lemma_text_round_trip, lemma_varint_round_trip, put_le, put_text, put_varint, read_text,
    read_varint, take_text, take_varint, text_fits, varint, wire_text,
};
use vstd::prelude::*;

verus! {

/// The message of the error for bytes that hold no quote.
pub const MALFORMED_QUOTE: &'static str = "malformed quote";

/// One price update. The price is kept as the bit pattern of its IEEE 754
/// binary64 value, which is what travels on the wire.
#[derive(Debug, PartialEq, Eq)]
pub struct Quote {
    pub ticker: String,
    pub price_bits: u64,
    pub volume: u64,
}

/// What a quote says.
pub struct QuoteView {
    pub ticker: Seq<char>,
    pub price_bits: u64,
    pub volume: u64,
}

impl View for Quote {
    type V = QuoteView;

    open spec fn view(&self) -> QuoteView {
        QuoteView { ticker: self.ticker@, price_bits: self.price_bits, volume: self.volume }
    }
}

impl Clone for Quote {
    fn clone(&self) -> (copy: Self)
        ensures
            copy@ == self@,
    {
        Quote { ticker: self.ticker.clone(), price_bits: self.price_bits, volume: self.volume }
    }
}

/// The wire form of a quote: the ticker, the eight bytes of the price with
/// the least significant first, and the volume.
pub open spec fn quote_wire(q: QuoteView) -> Seq<u8> {
    wire_text(q.ticker) + le_bytes(q.price_bits as nat, 8) + varint(q.volume)
}

/// The quote at the start of `b` and the number of bytes it takes.
pub open spec fn read_quote(b: Seq<u8>) -> Option<(QuoteView, int)> {
    match read_text(b) {
        Some((ticker, n1)) => {
            if n1 + 8 <= b.len() {
                match read_varint(b.skip(n1 + 8)) {
                    Some((volume, n2)) => Some(
                        (
                            QuoteView {
                                ticker,
                                price_bits: le_value(b.subrange(n1, n1 + 8)) as u64,
                                volume,
                            },
                            n1 + 8 + n2,
                        ),
                    ),
                    None => None,
                }
            } else {
                None
            }
        },
        None => None,
    }
}

/// A quote whose ticker is one of the protocol's own words is an echo of a
/// command, not market data.
pub open spec fn is_control_echo(q: QuoteView) -> bool {
    q.ticker == PING@ || q.ticker == HEADER@
}

/// Decoding the wire form of a quote gives the quote back, whatever bytes
/// follow it.
pub proof fn lemma_quote_round_trip(q: QuoteView, tail: Seq<u8>)
    requires
        text_fits(q.ticker),
    ensures
        read_quote(quote_wire(q) + tail) == Some((q, quote_wire(q).len() as int)),
{
    let b = quote_wire(q) + tail;
    let w1 = wire_text(q.ticker);
    let w2 = le_bytes(q.price_bits as nat, 8);
    let w3 = varint(q.volume);
    let n1 = w1.len() as int;
    lemma_pow256();
    lemma_le_round_trip(q.price_bits as nat, 8);
    lemma_text_round_trip(q.ticker, w2 + w3 + tail);
    assert(b =~= w1 + (w2 + w3 + tail));
    assert(b.subrange(n1, n1 + 8) =~= w2);
    lemma_varint_round_trip(q.volume, tail);
    assert(b.skip(n1 + 8) =~= w3 + tail);
}

impl Quote {
    /// The wire form of the quote.
    pub fn encode(&self) -> (bytes: Vec<u8>)
        ensures
            bytes@ == quote_wire(self@),
    {
        let mut bytes: Vec<u8> = Vec::new();
        put_text(&mut bytes, self.ticker.as_str());
        put_le(&mut bytes, self.price_bits, 8);
        put_varint(&mut bytes, self.volume);
        assert(bytes@ =~= quote_wire(self@));
        bytes
    }

    /// The quote that `bytes` start with. Bytes after it are ignored.
    pub fn decode(bytes: &[u8]) -> (r: Result<Quote, ParserError>)
        ensures
            match r {
                Ok(q) => read_quote(bytes@) matches Some((v, _)) && q@ == v,
                Err(ParserError::Format(m)) => read_quote(bytes@) is None && m@
                    == MALFORMED_QUOTE@,
                Err(_) => false,
            },
    {
        let ghost b = bytes@;
        assert(b.skip(0) =~= b);
        let (ticker, p1) = match take_text(bytes, 0) {
            Some(field) => field,
            None => { return Err(ParserError::Format(String::from_str(MALFORMED_QUOTE))); },
        };
        if bytes.len() - p1 < 8 {
            return Err(ParserError::Format(String::from_str(MALFORMED_QUOTE)));
        }
        let price_bits = le_number(bytes, p1, 8);
        proof {
            lemma_le_value_bound(b.subrange(p1 as int, p1 + 8));
            lemma_pow256();
        }
        let (volume, p2) = match take_varint(bytes, p1 + 8) {
            Some(field) => field,
            None => { return Err(ParserError::Format(String::from_str(MALFORMED_QUOTE))); },
        };
        Ok(Quote { ticker, price_bits, volume })
    }

    /// Whether the quote is an echo of a command rather than market data.
    pub fn is_control_echo(&self) -> (echo: bool)
        ensures
            echo == is_control_echo(self@),
    {
        self.ticker == String::from_str(PING) || self.ticker == String::from_str(HEADER)
    }
}

} // verus!
