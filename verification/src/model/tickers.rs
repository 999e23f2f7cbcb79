//! Ticker symbols and the parser that reads them from free-form text.

use crate::error::ParserError;
use crate::text::{
    chars_of, is_separator, is_whitespace, lemma_trim_end, lemma_trim_start, push_char, separator,
    string_from_utf8, to_upper, trim, trim_bounds, trim_start, upper, whitespace,
};
use vstd::prelude::*;
use vstd::utf8::*;

verus! {

/// A symbol is a non-empty token without separators, without white space at
/// either end, and without lower-case ASCII letters.
pub open spec fn is_symbol(s: Seq<char>) -> bool {
    &&& s.len() > 0
    &&& !is_whitespace(s.first())
    &&& !is_whitespace(s.last())
    &&& forall|i: int| 0 <= i < s.len() ==> !is_separator(#[trigger] s[i]) && upper(s[i]) == s[i]
}

/// A validated stock symbol.
#[derive(Debug, PartialEq, Eq)]
pub struct Ticker {
    symbol: String,
}

impl View for Ticker {
    type V = Seq<char>;

    closed spec fn view(&self) -> Seq<char> {
        self.symbol@
    }
}

impl Clone for Ticker {
    fn clone(&self) -> (copy: Self)
        ensures
            copy@ == self@,
    {
        proof {
            use_type_invariant(self);
        }
        Ticker { symbol: self.symbol.clone() }
    }
}

impl Ticker {
    #[verifier::type_invariant]
    spec fn well_formed(self) -> bool {
        is_symbol(self.symbol@)
    }

    /// Accepts `text` as a ticker when it already is a symbol.
    pub fn new(text: &str) -> (r: Option<Ticker>)
        ensures
            r is Some <==> is_symbol(text@),
            r matches Some(t) ==> t@ == text@,
    {
        let chars = chars_of(text);
        let n = chars.len();
        if n == 0 || whitespace(chars[0]) || whitespace(chars[n - 1]) {
            return None;
        }
        let mut i: usize = 0;
        while i < n
            invariant
                n == chars.len(),
                chars@ == text@,
                i <= n,
                forall|k: int|
                    0 <= k < i ==> !is_separator(#[trigger] chars[k]) && upper(chars[k])
                        == chars[k],
            decreases n - i,
        {
            let c = chars[i];
            if separator(c) || to_upper(c) != c {
                assert(is_separator(text@[i as int]) || upper(text@[i as int]) != text@[i as int]);
                return None;
            }
            i += 1;
        }
        Some(Ticker { symbol: String::from_str(text) })
    }

    /// The symbol's text.
    pub fn as_str(&self) -> (s: &str)
        ensures
            s@ == self@,
            is_symbol(self@),
    {
        proof {
            use_type_invariant(self);
        }
        self.symbol.as_str()
    }
}

/// How many characters at the start of `s` come before the first separator.
pub open spec fn token_len(s: Seq<char>) -> nat
    decreases s.len(),
{
    if s.len() == 0 || is_separator(s[0]) {
        0
    } else {
        1 + token_len(s.drop_first())
    }
}

/// The maximal runs of characters of `s` that hold no separator, in order.
pub open spec fn tokens(s: Seq<char>) -> Seq<Seq<char>>
    decreases s.len(),
{
    if s.len() == 0 {
        Seq::empty()
    } else if is_separator(s[0]) {
        tokens(s.drop_first())
    } else {
        proof {
            lemma_token_len(s);
        }
        seq![s.take(token_len(s) as int)] + tokens(s.skip(token_len(s) as int))
    }
}

/// `s` with every ASCII letter in upper case.
pub open spec fn uppercase(s: Seq<char>) -> Seq<char> {
    Seq::new(s.len(), |i: int| upper(s[i]))
}

/// The form in which a token is kept and compared: trimmed, in upper case.
pub open spec fn normalize(token: Seq<char>) -> Seq<char> {
    uppercase(trim(token))
}

/// The normal forms of `tokens`, without those that are empty.
pub open spec fn cleaned(tokens: Seq<Seq<char>>) -> Seq<Seq<char>> {
    tokens.map_values(|t: Seq<char>| normalize(t)).filter(|t: Seq<char>| t.len() > 0)
}

/// `items` without repetitions: of equal items only the first stays.
pub open spec fn first_seen(items: Seq<Seq<char>>) -> Seq<Seq<char>>
    decreases items.len(),
{
    if items.len() == 0 {
        Seq::empty()
    } else {
        let before = first_seen(items.drop_last());
        if before.contains(items.last()) {
            before
        } else {
            before.push(items.last())
        }
    }
}

/// The tickers that a text holds.
pub open spec fn symbols(text: Seq<char>) -> Seq<Seq<char>> {
    first_seen(cleaned(tokens(text)))
}

/// The texts of a list of tickers.
pub open spec fn symbols_of(tickers: Seq<Ticker>) -> Seq<Seq<char>> {
    Seq::new(tickers.len(), |i: int| tickers[i]@)
}

/// A token ends at the first separator or at the end of the text.
pub proof fn lemma_token_len(s: Seq<char>)
    ensures
        token_len(s) <= s.len(),
        s.len() > 0 && !is_separator(s[0]) ==> token_len(s) > 0,
        forall|i: int| 0 <= i < token_len(s) ==> !is_separator(#[trigger] s[i]),
        token_len(s) < s.len() ==> is_separator(s[token_len(s) as int]),
    decreases s.len(),
{
    if s.len() == 0 || is_separator(s[0]) {
    } else {
        let rest = s.drop_first();
        lemma_token_len(rest);
        assert forall|i: int| 0 <= i < token_len(s) implies !is_separator(#[trigger] s[i]) by {
            if i > 0 {
                assert(s[i] == rest[i - 1]);
            }
        }
        if token_len(s) < s.len() {
            assert(s[token_len(s) as int] == rest[token_len(rest) as int]);
        }
    }
}

/// The normal form of a token without separators is empty or a symbol.
pub proof fn lemma_normalize_gives_symbol(token: Seq<char>)
    requires
        forall|i: int| 0 <= i < token.len() ==> !is_separator(#[trigger] token[i]),
    ensures
        normalize(token).len() == 0 || is_symbol(normalize(token)),
{
    let front = trim_start(token);
    let inner = trim(token);
    let out = normalize(token);
    lemma_trim_start(token);
    lemma_trim_end(front);
    if out.len() > 0 {
        let skipped = token.len() - front.len();
        assert(inner.first() == front.first());
        assert forall|i: int| 0 <= i < out.len() implies !is_separator(#[trigger] out[i]) && upper(
            out[i],
        ) == out[i] by {
            assert(inner[i] == front[i]);
            assert(front[i] == token[skipped + i]);
            assert(out[i] == upper(inner[i]));
        }
        assert(out.first() == upper(inner.first()));
        assert(out.last() == upper(inner.last()));
    }
}

/// The end of the token that starts at `start`.
fn token_end(text: &Vec<char>, start: usize) -> (end: usize)
    requires
        start <= text.len(),
    ensures
        start <= end <= text.len(),
        end - start == token_len(text@.skip(start as int)),
{
    let n = text.len();
    let mut end = start;
    while end < n && !separator(text[end])
        invariant
            n == text.len(),
            start <= end <= n,
            token_len(text@.skip(start as int)) == (end - start) + token_len(
                text@.skip(end as int),
            ),
        decreases n - end,
    {
        assert(text@.skip(end as int).drop_first() =~= text@.skip(end + 1));
        end += 1;
    }
    end
}

/// `text[start..end]` in upper case.
fn upper_text(text: &Vec<char>, start: usize, end: usize) -> (s: String)
    requires
        start <= end <= text.len(),
    ensures
        s@ == uppercase(text@.subrange(start as int, end as int)),
{
    let mut s = String::new();
    let mut i = start;
    while i < end
        invariant
            start <= i <= end <= text.len(),
            s@ == uppercase(text@.subrange(start as int, i as int)),
        decreases end - i,
    {
        push_char(&mut s, to_upper(text[i]));
        i += 1;
        assert(s@ =~= uppercase(text@.subrange(start as int, i as int)));
    }
    s
}

/// Whether one of `tickers` has the text `symbol`.
fn holds(tickers: &Vec<Ticker>, symbol: &String) -> (found: bool)
    ensures
        found == symbols_of(tickers@).contains(symbol@),
{
    let mut i: usize = 0;
    while i < tickers.len()
        invariant
            i <= tickers.len(),
            forall|k: int| 0 <= k < i ==> symbols_of(tickers@)[k] != symbol@,
        decreases tickers.len() - i,
    {
        if tickers[i].symbol == *symbol {
            assert(symbols_of(tickers@)[i as int] == symbol@);
            return true;
        }
        i += 1;
    }
    false
}

/// One more token adds its normal form to the cleaned list, unless that
/// form is empty.
pub proof fn lemma_cleaned_push(done: Seq<Seq<char>>, token: Seq<char>)
    ensures
        cleaned(done.push(token)) == if normalize(token).len() > 0 {
            cleaned(done).push(normalize(token))
        } else {
            cleaned(done)
        },
{
    let f = |t: Seq<char>| normalize(t);
    let p = |t: Seq<char>| t.len() > 0;
    done.lemma_push_map_commute(f, token);
    done.map_values(f).lemma_filter_push(f(token), p);
}

/// Whether `a` occurs in `items` before `b` does.
pub open spec fn seen_before(items: Seq<Seq<char>>, a: Seq<char>, b: Seq<char>) -> bool {
    exists|p: int|
        0 <= p < items.len() && #[trigger] items[p] == a && !items.take(p + 1).contains(b)
}

/// Removing repetitions keeps every item once, in the order in which the
/// items first appear.
pub proof fn lemma_first_seen(items: Seq<Seq<char>>)
    ensures
        first_seen(items).no_duplicates(),
        forall|x: Seq<char>| first_seen(items).contains(x) <==> items.contains(x),
        forall|i: int, j: int|
            0 <= i < j < first_seen(items).len() ==> seen_before(
                items,
                #[trigger] first_seen(items)[i],
                #[trigger] first_seen(items)[j],
            ),
    decreases items.len(),
{
    let out = first_seen(items);
    if items.len() > 0 {
        let front = items.drop_last();
        let last = items.last();
        let before = first_seen(front);
        lemma_first_seen(front);
        assert forall|x: Seq<char>| out.contains(x) <==> items.contains(x) by {
            if out.contains(x) {
                let k = choose|k: int| 0 <= k < out.len() && out[k] == x;
                if k < before.len() {
                    assert(before[k] == x);
                    assert(before.contains(x));
                    assert(front.contains(x));
                    let q = choose|q: int| 0 <= q < front.len() && front[q] == x;
                    assert(items[q] == x);
                } else {
                    assert(items[items.len() - 1] == x);
                }
            }
            if items.contains(x) {
                let q = choose|q: int| 0 <= q < items.len() && items[q] == x;
                if q < front.len() {
                    assert(front[q] == x);
                    assert(front.contains(x));
                    let k = choose|k: int| 0 <= k < before.len() && before[k] == x;
                    assert(out[k] == x);
                } else if before.contains(last) {
                } else {
                    assert(out[out.len() - 1] == x);
                }
            }
        }
        assert forall|i: int, j: int| 0 <= i < j < out.len() implies seen_before(
            items,
            #[trigger] out[i],
            #[trigger] out[j],
        ) by {
            if j < before.len() {
                assert(seen_before(front, before[i], before[j]));
                let p = choose|p: int|
                    0 <= p < front.len() && #[trigger] front[p] == before[i] && !front.take(
                        p + 1,
                    ).contains(before[j]);
                assert(items.take(p + 1) =~= front.take(p + 1));
                assert(items[p] == out[i]);
            } else {
                assert(before.contains(before[i]));
                assert(front.contains(out[i]));
                let p = choose|p: int| 0 <= p < front.len() && front[p] == out[i];
                assert(items[p] == out[i]);
                let head = items.take(p + 1);
                if head.contains(last) {
                    let q = choose|q: int| 0 <= q < head.len() && head[q] == last;
                    assert(front[q] == last);
                    assert(front.contains(last));
                }
            }
        }
    }
}

/// What the parser returns for any text: symbols only, none of them twice,
/// exactly the normal forms of the text's tokens, in the order in which
/// they are first seen.
pub proof fn lemma_symbols(text: Seq<char>)
    ensures
        forall|i: int| 0 <= i < symbols(text).len() ==> is_symbol(#[trigger] symbols(text)[i]),
        symbols(text).no_duplicates(),
        forall|x: Seq<char>| symbols(text).contains(x) <==> cleaned(tokens(text)).contains(x),
        forall|i: int, j: int|
            0 <= i < j < symbols(text).len() ==> seen_before(
                cleaned(tokens(text)),
                #[trigger] symbols(text)[i],
                #[trigger] symbols(text)[j],
            ),
{
    let all = tokens(text);
    lemma_first_seen(cleaned(all));
    lemma_tokens_hold_no_separator(text);
    lemma_cleaned_are_symbols(all);
    assert forall|i: int| 0 <= i < symbols(text).len() implies is_symbol(
        #[trigger] symbols(text)[i],
    ) by {
        assert(symbols(text).contains(symbols(text)[i]));
    }
}

/// No token holds a separator.
pub proof fn lemma_tokens_hold_no_separator(text: Seq<char>)
    ensures
        forall|k: int, i: int|
            0 <= k < tokens(text).len() && 0 <= i < tokens(text)[k].len() ==> !is_separator(
                #[trigger] tokens(text)[k][i],
            ),
    decreases text.len(),
{
    if text.len() == 0 {
        assert(tokens(text).len() == 0);
    } else if is_separator(text[0]) {
        lemma_tokens_hold_no_separator(text.drop_first());
        assert(tokens(text) == tokens(text.drop_first()));
    } else {
        lemma_token_len(text);
        let n = token_len(text) as int;
        lemma_tokens_hold_no_separator(text.skip(n));
        let rest = tokens(text.skip(n));
        assert(tokens(text) == seq![text.take(n)] + rest);
        assert forall|k: int, i: int|
            0 <= k < tokens(text).len() && 0 <= i < tokens(text)[k].len() implies !is_separator(
            #[trigger] tokens(text)[k][i],
        ) by {
            if k == 0 {
                assert(tokens(text)[0] == text.take(n));
                assert(text.take(n)[i] == text[i]);
            } else {
                assert(tokens(text)[k] == rest[k - 1]);
            }
        }
    }
}

/// The cleaned forms of tokens without separators are symbols.
pub proof fn lemma_cleaned_are_symbols(all: Seq<Seq<char>>)
    requires
        forall|k: int, i: int|
            0 <= k < all.len() && 0 <= i < all[k].len() ==> !is_separator(#[trigger] all[k][i]),
    ensures
        forall|x: Seq<char>| cleaned(all).contains(x) ==> is_symbol(x),
    decreases all.len(),
{
    if all.len() == 0 {
        reveal(Seq::filter);
        assert(cleaned(all) =~= Seq::<Seq<char>>::empty());
    } else {
        let front = all.drop_last();
        let last = all.last();
        assert(front.push(last) =~= all);
        assert forall|k: int, i: int|
            0 <= k < front.len() && 0 <= i < front[k].len() implies !is_separator(
            #[trigger] front[k][i],
        ) by {
            assert(front[k] == all[k]);
        }
        lemma_cleaned_are_symbols(front);
        lemma_cleaned_push(front, last);
        assert forall|i: int| 0 <= i < last.len() implies !is_separator(#[trigger] last[i]) by {
            assert(last[i] == all[all.len() - 1][i]);
        }
        lemma_normalize_gives_symbol(last);
        assert forall|x: Seq<char>| cleaned(all).contains(x) implies is_symbol(x) by {
            let k = choose|k: int| 0 <= k < cleaned(all).len() && cleaned(all)[k] == x;
            if k < cleaned(front).len() {
                assert(cleaned(front)[k] == x);
                assert(cleaned(front).contains(x));
            }
        }
    }
}

/// The message of the error for a source without tickers.
pub const NO_TICKERS: &'static str = "the ticker list is empty";

/// Reads ticker lists.
pub struct TickerParser;

impl TickerParser {
    /// The tickers of `text`: its tokens between commas, spaces, tabs and
    /// line feeds, each trimmed and put in upper case, without the empty
    /// ones, each kept once, in the order of first appearance.
    pub fn parse_text(text: &str) -> (r: Result<Vec<Ticker>, ParserError>)
        ensures
            match r {
                Ok(tickers) => tickers.len() > 0 && symbols_of(tickers@) == symbols(text@),
                Err(ParserError::ParseTickersFile(m)) => symbols(text@).len() == 0 && m@
                    == NO_TICKERS@,
                Err(_) => false,
            },
            r matches Ok(tickers) ==> symbols_of(tickers@).no_duplicates() && forall|i: int|
                0 <= i < tickers.len() ==> is_symbol(#[trigger] symbols_of(tickers@)[i]),
    {
        proof {
            lemma_symbols(text@);
        }
        let chars = chars_of(text);
        let n = chars.len();
        let mut out: Vec<Ticker> = Vec::new();
        let ghost mut done: Seq<Seq<char>> = Seq::empty();
        let mut i: usize = 0;
        assert(chars@.skip(0) =~= chars@);
        assert(symbols_of(out@) =~= first_seen(cleaned(done))) by {
            reveal(Seq::filter);
        }
        while i < n
            invariant
                n == chars.len(),
                i <= n,
                tokens(chars@) == done + tokens(chars@.skip(i as int)),
                symbols_of(out@) == first_seen(cleaned(done)),
            decreases n - i,
        {
            let ghost rest = chars@.skip(i as int);
            if separator(chars[i]) {
                assert(rest.drop_first() =~= chars@.skip(i + 1));
                i += 1;
            } else {
                let end = token_end(&chars, i);
                let (a, b) = trim_bounds(&chars, i, end);
                let ghost token = chars@.subrange(i as int, end as int);
                proof {
                    lemma_token_len(rest);
                    assert(rest.take(token_len(rest) as int) =~= token);
                    assert(rest.skip(token_len(rest) as int) =~= chars@.skip(end as int));
                    assert(done + (seq![token] + tokens(chars@.skip(end as int))) =~= done.push(
                        token,
                    ) + tokens(chars@.skip(end as int)));
                    assert forall|k: int| 0 <= k < token.len() implies !is_separator(
                        #[trigger] token[k],
                    ) by {
                        assert(token[k] == rest[k]);
                    }
                    lemma_normalize_gives_symbol(token);
                    lemma_cleaned_push(done, token);
                    assert(cleaned(done.push(token)).drop_last() =~= cleaned(done)
                        || normalize(token).len() == 0);
                }
                if a < b {
                    let symbol = upper_text(&chars, a, b);
                    assert(symbol@ == normalize(token));
                    if !holds(&out, &symbol) {
                        let ghost before = out@;
                        out.push(Ticker { symbol });
                        assert(symbols_of(out@) =~= symbols_of(before).push(normalize(token)));
                    }
                } else {
                    assert(trim(token).len() == 0);
                }
                proof {
                    done = done.push(token);
                }
                i = end;
            }
        }
        assert(chars@.skip(n as int) =~= Seq::<char>::empty());
        assert(done + Seq::<Seq<char>>::empty() =~= done);
        if out.len() == 0 {
            Err(ParserError::ParseTickersFile(String::from_str(NO_TICKERS)))
        } else {
            Ok(out)
        }
    }

    /// The tickers of a source given as bytes, which must be UTF-8 text.
    pub fn parse(source: Vec<u8>) -> (r: Result<Vec<Ticker>, ParserError>)
        ensures
            match r {
                Ok(tickers) => valid_utf8(source@) && tickers.len() > 0 && symbols_of(tickers@)
                    == symbols(decode_utf8(source@)),
                Err(ParserError::Utf8(_)) => !valid_utf8(source@),
                Err(ParserError::ParseTickersFile(m)) => valid_utf8(source@) && symbols(
                    decode_utf8(source@),
                ).len() == 0 && m@ == NO_TICKERS@,
                Err(_) => false,
            },
            r matches Ok(tickers) ==> symbols_of(tickers@).no_duplicates() && forall|i: int|
                0 <= i < tickers.len() ==> is_symbol(#[trigger] symbols_of(tickers@)[i]),
    {
        match string_from_utf8(source) {
            Ok(text) => {
                proof {
                    encode_utf8_decode_utf8(text@);
                }
                TickerParser::parse_text(text.as_str())
            },
            Err(e) => Err(ParserError::Utf8(e)),
        }
    }
}

} // verus!
