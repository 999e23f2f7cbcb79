//! The command line's three values, and what the client makes of them.

use crate::text::{chars_of, push_char, text_of, trim, trim_bounds};
use vstd::prelude::*;

verus! {

/// The port on which the quote server listens.
pub const SERVER_PORT: &'static str = "8080";

/// The host part of the address on which the client listens.
pub const ANY_HOST: &'static str = "0.0.0.0";

/// What stands between host and port in an address.
pub const PORT_MARK: &'static str = ":";

/// The values given on the command line, as they were typed.
#[derive(Debug)]
pub struct Args {
    /// The server's host.
    pub ip: String,
    /// The port on which the client listens.
    pub port: String,
    /// The path of the ticker file.
    pub path: String,
}

/// `s` without the pair of double quotes around it, if there is one.
pub open spec fn unquoted(s: Seq<char>) -> Seq<char> {
    if s.len() >= 2 && s.first() == '"' && s.last() == '"' {
        s.subrange(1, s.len() - 1)
    } else {
        s
    }
}

/// `s` without any double quote.
pub open spec fn without_quotes(s: Seq<char>) -> Seq<char> {
    s.filter(|c: char| c != '"')
}

/// A host or a port as the client uses it: trimmed, and without double
/// quotes.
pub open spec fn cleaned_argument(raw: Seq<char>) -> Seq<char> {
    without_quotes(trim(raw))
}

/// One more character stays if it is no double quote.
pub proof fn lemma_without_quotes_push(s: Seq<char>, c: char)
    ensures
        without_quotes(s.push(c)) == if c != '"' {
            without_quotes(s).push(c)
        } else {
            without_quotes(s)
        },
{
    s.lemma_filter_push(c, |c: char| c != '"');
}

/// The path of the ticker file: the argument trimmed, and without the
/// double quotes around it.
pub fn normalize_path(raw: &str) -> (path: String)
    ensures
        path@ == unquoted(trim(raw@)),
{
    let chars = chars_of(raw);
    assert(chars@.subrange(0, chars.len() as int) =~= chars@);
    let (start, end) = trim_bounds(&chars, 0, chars.len());
    let ghost inner = chars@.subrange(start as int, end as int);
    if end - start >= 2 && chars[start] == '"' && chars[end - 1] == '"' {
        assert(inner.subrange(1, inner.len() - 1) =~= chars@.subrange(start + 1, end - 1));
        text_of(&chars, start + 1, end - 1)
    } else {
        assert(inner.len() >= 2 ==> inner.first() == chars@[start as int] && inner.last()
            == chars@[end - 1]);
        text_of(&chars, start, end)
    }
}

/// A host or a port as the client uses it.
pub fn clean_argument(raw: &str) -> (text: String)
    ensures
        text@ == cleaned_argument(raw@),
{
    let chars = chars_of(raw);
    assert(chars@.subrange(0, chars.len() as int) =~= chars@);
    let (start, end) = trim_bounds(&chars, 0, chars.len());
    let mut text = String::new();
    let mut i = start;
    assert(chars@.subrange(start as int, start as int) =~= Seq::<char>::empty());
    assert(without_quotes(Seq::<char>::empty()) =~= Seq::<char>::empty()) by {
        reveal(Seq::filter);
    }
    while i < end
        invariant
            start <= i <= end <= chars.len(),
            text@ == without_quotes(chars@.subrange(start as int, i as int)),
        decreases end - i,
    {
        let c = chars[i];
        proof {
            lemma_without_quotes_push(chars@.subrange(start as int, i as int), c);
            assert(chars@.subrange(start as int, i as int).push(c) =~= chars@.subrange(
                start as int,
                i + 1,
            ));
        }
        if c != '"' {
            push_char(&mut text, c);
        }
        i += 1;
    }
    text
}

impl Args {
    /// The address of the server: its cleaned host and the server's port.
    pub fn server_address(&self) -> (address: String)
        ensures
            address@ == cleaned_argument(self.ip@) + PORT_MARK@ + SERVER_PORT@,
    {
        clean_argument(self.ip.as_str()).concat(PORT_MARK).concat(SERVER_PORT)
    }

    /// The address on which the client listens: any host, and the cleaned
    /// port.
    pub fn listen_address(&self) -> (address: String)
        ensures
            address@ == ANY_HOST@ + PORT_MARK@ + cleaned_argument(self.port@),
    {
        let port = clean_argument(self.port.as_str());
        String::from_str(ANY_HOST).concat(PORT_MARK).concat(port.as_str())
    }

    /// The path of the ticker file.
    pub fn ticker_path(&self) -> (path: String)
        ensures
            path@ == unquoted(trim(self.path@)),
    {
        normalize_path(self.path.as_str())
    }
}

} // verus!
